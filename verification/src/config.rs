//! The versioned alias configuration and the ordered alias table it holds.

use vstd::prelude::*;

use crate::alias::{Alias, AliasView, canonical_name, name_problem, valid_name, validate_name};
use crate::error::{NaliasError, Result};
use crate::text::{ascii_lower, blank, chars_of, eq_ignore_ascii_case, is_blank, push_decimal};

verus! {

/// The configuration format version this build reads and writes.
pub const CONFIG_VERSION: u32 = 1;

/// Strict lexicographic order of character sequences (the order of `String`).
pub open spec fn key_lt(a: Seq<char>, b: Seq<char>) -> bool
    decreases a.len(),
{
    if a.len() == 0 {
        b.len() > 0
    } else if b.len() == 0 {
        false
    } else if a[0] != b[0] {
        a[0] < b[0]
    } else {
        key_lt(a.drop_first(), b.drop_first())
    }
}

pub proof fn lemma_key_lt_irreflexive(a: Seq<char>)
    ensures
        !key_lt(a, a),
    decreases a.len(),
{
    if a.len() > 0 {
        lemma_key_lt_irreflexive(a.drop_first());
    }
}

pub proof fn lemma_key_lt_transitive(a: Seq<char>, b: Seq<char>, c: Seq<char>)
    requires
        key_lt(a, b),
        key_lt(b, c),
    ensures
        key_lt(a, c),
    decreases a.len(),
{
    if a.len() > 0 && b.len() > 0 && c.len() > 0 && a[0] == b[0] && b[0] == c[0] {
        lemma_key_lt_transitive(a.drop_first(), b.drop_first(), c.drop_first());
    }
}

pub proof fn lemma_key_lt_total(a: Seq<char>, b: Seq<char>)
    requires
        a != b,
    ensures
        key_lt(a, b) || key_lt(b, a),
    decreases a.len(),
{
    if a.len() > 0 && b.len() > 0 && a[0] == b[0] {
        if a.drop_first() == b.drop_first() {
            assert(a =~= seq![a[0]] + a.drop_first());
            assert(b =~= seq![b[0]] + b.drop_first());
        }
        lemma_key_lt_total(a.drop_first(), b.drop_first());
    } else if a.len() == 0 && b.len() == 0 {
        assert(a =~= b);
    }
}

/// Whether `a` sorts before `b`.
fn chars_lt(a: &Vec<char>, b: &Vec<char>) -> (r: bool)
    ensures
        r == key_lt(a@, b@),
{
    let mut i: usize = 0;
    assert(a@.skip(0) =~= a@);
    assert(b@.skip(0) =~= b@);
    while i < a.len() && i < b.len() && a[i] == b[i]
        invariant
            i <= a.len(),
            i <= b.len(),
            key_lt(a@, b@) == key_lt(a@.skip(i as int), b@.skip(i as int)),
        decreases a.len() - i,
    {
        assert(a@.skip(i as int).drop_first() =~= a@.skip(i + 1));
        assert(b@.skip(i as int).drop_first() =~= b@.skip(i + 1));
        i = i + 1;
    }
    if i == a.len() {
        i < b.len()
    } else if i == b.len() {
        false
    } else {
        a[i] < b[i]
    }
}

/// Aliases keyed by name, kept in ascending name order (the order in which
/// they are listed and stored).
#[derive(Debug, PartialEq, Eq)]
pub struct AliasMap {
    entries: Vec<(String, Alias)>,
}

pub open spec fn sorted_keys(keys: Seq<Seq<char>>) -> bool {
    forall|i: int, j: int| 0 <= i < j < keys.len() ==> key_lt(#[trigger] keys[i], #[trigger] keys[j])
}

impl AliasMap {
    /// The names, in ascending order.
    pub closed spec fn keys(&self) -> Seq<Seq<char>> {
        self.entries@.map_values(|e: (String, Alias)| e.0@)
    }

    /// The aliases, in the order of their names.
    pub closed spec fn values(&self) -> Seq<AliasView> {
        self.entries@.map_values(|e: (String, Alias)| e.1@)
    }

    #[verifier::type_invariant]
    pub open spec fn well_formed(&self) -> bool {
        sorted_keys(self.keys())
    }

    /// The alias stored under each name.
    pub open spec fn view(&self) -> Map<Seq<char>, AliasView> {
        Map::new(|k: Seq<char>| self.keys().contains(k), |k: Seq<char>| self.values()[self.keys().index_of(k)])
    }

    /// Position lookup in the view.
    /// There is one alias per name.
    pub proof fn lemma_lengths(&self)
        ensures
            self.keys().len() == self.values().len(),
    {
    }

    pub proof fn lemma_view_at(&self, i: int)
        requires
            sorted_keys(self.keys()),
            0 <= i < self.keys().len(),
        ensures
            self.view().contains_key(self.keys()[i]),
            self.view()[self.keys()[i]] == self.values()[i],
            self.keys().index_of(self.keys()[i]) == i,
    {
        let k = self.keys()[i];
        assert(self.keys().contains(k));
        let j = self.keys().index_of(k);
        if j != i {
            if j < i {
                assert(key_lt(self.keys()[j], self.keys()[i]));
            } else {
                assert(key_lt(self.keys()[i], self.keys()[j]));
            }
            lemma_key_lt_irreflexive(k);
        }
    }

    pub fn new() -> (r: Self)
        ensures
            r.keys().len() == 0,
            r.view() == Map::<Seq<char>, AliasView>::empty(),
    {
        let r = AliasMap { entries: Vec::new() };
        assert(r.keys() =~= Seq::<Seq<char>>::empty());
        assert(r.view() =~= Map::<Seq<char>, AliasView>::empty());
        r
    }

    pub fn len(&self) -> (r: usize)
        ensures
            r == self.keys().len(),
    {
        self.entries.len()
    }

    pub fn is_empty(&self) -> (r: bool)
        ensures
            r == (self.keys().len() == 0),
    {
        self.entries.len() == 0
    }

    /// The name at position `i` in ascending order.
    pub fn key_at(&self, i: usize) -> (r: &String)
        requires
            i < self.keys().len(),
        ensures
            r@ == self.keys()[i as int],
    {
        &self.entries[i].0
    }

    /// The alias at position `i` in ascending name order.
    pub fn value_at(&self, i: usize) -> (r: &Alias)
        requires
            i < self.keys().len(),
        ensures
            r@ == self.values()[i as int],
    {
        &self.entries[i].1
    }

    /// Where `key` is, or where it would be inserted.
    fn locate(&self, key: &Vec<char>) -> (r: (usize, bool))
        ensures
            r.0 <= self.keys().len(),
            r.1 ==> r.0 < self.keys().len() && self.keys()[r.0 as int] == key@,
            !r.1 ==> !self.keys().contains(key@),
            forall|j: int| 0 <= j < r.0 ==> key_lt(#[trigger] self.keys()[j], key@),
            !r.1 ==> forall|j: int|
                r.0 <= j < self.keys().len() ==> key_lt(key@, #[trigger] self.keys()[j]),
    {
        proof {
            use_type_invariant(self);
        }
        let mut i: usize = 0;
        while i < self.entries.len()
            invariant
                i <= self.entries.len(),
                self.keys().len() == self.entries.len(),
                sorted_keys(self.keys()),
                forall|j: int| 0 <= j < i ==> key_lt(#[trigger] self.keys()[j], key@),
            decreases self.entries.len() - i,
        {
            let k = chars_of(self.entries[i].0.as_str());
            assert(k@ == self.keys()[i as int]);
            if !chars_lt(&k, key) {
                let mut same = k.len() == key.len();
                let mut m: usize = 0;
                while same && m < k.len()
                    invariant
                        m <= k.len(),
                        same ==> k.len() == key.len(),
                        same ==> forall|t: int| 0 <= t < m ==> k@[t] == key@[t],
                        !same ==> k@ != key@,
                    decreases k.len() - m,
                {
                    if k[m] != key[m] {
                        same = false;
                    }
                    m = m + 1;
                }
                if same {
                    assert(k@ =~= key@);
                    return (i, true);
                }
                proof {
                    lemma_key_lt_total(k@, key@);
                    assert forall|j: int| i <= j < self.keys().len() implies key_lt(
                        key@,
                        #[trigger] self.keys()[j],
                    ) by {
                        if j > i {
                            assert(key_lt(self.keys()[i as int], self.keys()[j]));
                            lemma_key_lt_transitive(key@, self.keys()[i as int], self.keys()[j]);
                        }
                    }
                    if self.keys().contains(key@) {
                        let j = choose|j: int| 0 <= j < self.keys().len() && self.keys()[j] == key@;
                        if j < i {
                            lemma_key_lt_irreflexive(key@);
                        } else {
                            lemma_key_lt_irreflexive(key@);
                        }
                    }
                }
                return (i, false);
            }
            i = i + 1;
        }
        proof {
            if self.keys().contains(key@) {
                let j = choose|j: int| 0 <= j < self.keys().len() && self.keys()[j] == key@;
                lemma_key_lt_irreflexive(key@);
            }
        }
        (i, false)
    }

    pub fn contains_key(&self, key: &str) -> (r: bool)
        ensures
            r == self.view().contains_key(key@),
    {
        let k = chars_of(key);
        let (_, found) = self.locate(&k);
        found
    }

    /// The alias stored under exactly `key`.
    pub fn get(&self, key: &str) -> (r: Option<&Alias>)
        ensures
            match r {
                Some(a) => self.view().contains_key(key@) && a@ == self.view()[key@],
                None => !self.view().contains_key(key@),
            },
    {
        proof {
            use_type_invariant(self);
        }
        let k = chars_of(key);
        let (i, found) = self.locate(&k);
        if found {
            proof {
                self.lemma_view_at(i as int);
            }
            Some(&self.entries[i].1)
        } else {
            None
        }
    }

    /// Stores `value` under `key`, returning the alias it replaces.
    pub fn insert(&mut self, key: String, value: Alias) -> (r: Option<Alias>)
        ensures
            final(self).view() == old(self).view().insert(key@, value@),
            match r {
                Some(a) => old(self).view().contains_key(key@) && a@ == old(self).view()[key@],
                None => !old(self).view().contains_key(key@),
            },
    {
        proof {
            use_type_invariant(&*self);
        }
        let k = chars_of(key.as_str());
        let (i, found) = self.locate(&k);
        let ghost old_keys = self.keys();
        let ghost old_values = self.values();
        let ghost kv = key@;
        let ghost vv = value@;
        if found {
            proof {
                self.lemma_view_at(i as int);
            }
            let ghost before = *self;
            let mut entries: Vec<(String, Alias)> = Vec::new();
            std::mem::swap(&mut entries, &mut self.entries);
            let ghost mid = entries@;
            let mut entry = (key, value);
            std::mem::swap(&mut entry, &mut entries[i]);
            proof {
                assert(entries@[i as int].0@ == kv);
                assert(entries@ == mid.update(i as int, entries@[i as int]));
                assert(entries@.map_values(|e: (String, Alias)| e.0@) =~= old_keys);
            }
            self.entries = entries;
            assert(self.keys() =~= old_keys);
            assert(self.values() =~= old_values.update(i as int, vv));
            proof {
                assert forall|k2: Seq<char>| #[trigger] self.view().contains_key(k2) == old(self).view().insert(kv, vv).contains_key(k2) by {}
                assert forall|k2: Seq<char>| self.view().contains_key(k2) implies #[trigger] self.view()[k2] == old(self).view().insert(kv, vv)[k2] by {
                    let j = self.keys().index_of(k2);
                    self.lemma_view_at(j);
                    before.lemma_view_at(j);
                }
                assert(self.view() =~= old(self).view().insert(kv, vv));
            }
            Some(entry.1)
        } else {
            let mut entries: Vec<(String, Alias)> = Vec::new();
            std::mem::swap(&mut entries, &mut self.entries);
            entries.insert(i, (key, value));
            proof {
                let nk = entries@.map_values(|e: (String, Alias)| e.0@);
                assert(nk =~= old_keys.insert(i as int, kv));
                assert forall|a: int, b: int| 0 <= a < b < nk.len() implies key_lt(
                    #[trigger] nk[a],
                    #[trigger] nk[b],
                ) by {
                    if b < i {
                    } else if a < i && b == i {
                    } else if a < i && b > i {
                        assert(key_lt(old_keys[a], kv));
                    } else if a == i {
                    } else {
                    }
                }
            }
            self.entries = entries;
            assert(self.keys() =~= old_keys.insert(i as int, kv));
            assert(self.values() =~= old_values.insert(i as int, vv));
            proof {
                assert forall|k2: Seq<char>| #[trigger] self.view().contains_key(k2) == old(self).view().insert(kv, vv).contains_key(k2) by {
                    if old_keys.contains(k2) {
                        let j = choose|j: int| 0 <= j < old_keys.len() && old_keys[j] == k2;
                        if j < i {
                            assert(self.keys()[j] == k2);
                        } else {
                            assert(self.keys()[j + 1] == k2);
                        }
                    }
                    if self.keys().contains(k2) {
                        let j = choose|j: int| 0 <= j < self.keys().len() && self.keys()[j] == k2;
                        if j < i {
                            assert(old_keys[j] == k2);
                        } else if j > i {
                            assert(old_keys[j - 1] == k2);
                        }
                    }
                    assert(self.keys()[i as int] == kv);
                }
                assert forall|k2: Seq<char>| self.view().contains_key(k2) implies #[trigger] self.view()[k2] == old(self).view().insert(kv, vv)[k2] by {
                    let j = self.keys().index_of(k2);
                    self.lemma_view_at(j);
                    if j < i {
                        old(self).lemma_view_at(j);
                    } else if j > i {
                        old(self).lemma_view_at(j - 1);
                    }
                }
                assert(self.view() =~= old(self).view().insert(kv, vv));
            }
            None
        }
    }

    /// Removes the alias stored under exactly `key`, returning it.
    pub fn remove(&mut self, key: &str) -> (r: Option<Alias>)
        ensures
            final(self).view() == old(self).view().remove(key@),
            match r {
                Some(a) => old(self).view().contains_key(key@) && a@ == old(self).view()[key@],
                None => !old(self).view().contains_key(key@),
            },
    {
        proof {
            use_type_invariant(&*self);
        }
        let k = chars_of(key);
        let (i, found) = self.locate(&k);
        if !found {
            assert(self.view() =~= old(self).view().remove(key@));
            return None;
        }
        proof {
            self.lemma_view_at(i as int);
        }
        let ghost old_keys = self.keys();
        let ghost old_values = self.values();
        let mut entries: Vec<(String, Alias)> = Vec::new();
        std::mem::swap(&mut entries, &mut self.entries);
        let entry = entries.remove(i);
        proof {
            let nk = entries@.map_values(|e: (String, Alias)| e.0@);
            assert(nk =~= old_keys.remove(i as int));
            assert forall|a: int, b: int| 0 <= a < b < nk.len() implies key_lt(
                #[trigger] nk[a],
                #[trigger] nk[b],
            ) by {
                if b < i {
                } else if a < i {
                    assert(nk[b] == old_keys[b + 1]);
                } else {
                    assert(nk[a] == old_keys[a + 1]);
                    assert(nk[b] == old_keys[b + 1]);
                }
            }
        }
        self.entries = entries;
        assert(self.keys() =~= old_keys.remove(i as int));
        assert(self.values() =~= old_values.remove(i as int));
        proof {
            assert forall|k2: Seq<char>| #[trigger] self.view().contains_key(k2) == old(self).view().remove(key@).contains_key(k2) by {
                if old_keys.contains(k2) && k2 != key@ {
                    let j = choose|j: int| 0 <= j < old_keys.len() && old_keys[j] == k2;
                    if j < i {
                        assert(self.keys()[j] == k2);
                    } else {
                        assert(self.keys()[j - 1] == k2);
                    }
                }
                if self.keys().contains(k2) {
                    let j = choose|j: int| 0 <= j < self.keys().len() && self.keys()[j] == k2;
                    if j < i {
                        assert(old_keys[j] == k2);
                        assert(key_lt(old_keys[j], old_keys[i as int]));
                        lemma_key_lt_irreflexive(k2);
                    } else {
                        assert(old_keys[j + 1] == k2);
                        assert(key_lt(old_keys[i as int], old_keys[j + 1]));
                        lemma_key_lt_irreflexive(k2);
                    }
                }
            }
            assert forall|k2: Seq<char>| self.view().contains_key(k2) implies #[trigger] self.view()[k2] == old(self).view().remove(key@)[k2] by {
                let j = self.keys().index_of(k2);
                self.lemma_view_at(j);
                if j < i {
                    old(self).lemma_view_at(j);
                } else {
                    old(self).lemma_view_at(j + 1);
                }
            }
            assert(self.view() =~= old(self).view().remove(key@));
        }
        Some(entry.1)
    }
}


#[verifier::external_type_specification]
#[verifier::external_body]
pub struct ExParseError(chrono::format::ParseError);

/// Whether chrono's RFC 3339 parser accepts `text`.
pub uninterp spec fn rfc3339_accepts(text: Seq<char>) -> bool;

/// Calls `chrono::DateTime::parse_from_rfc3339`; succeeds exactly when chrono
/// accepts the text, and keeps chrono's error otherwise.
#[verifier::external_body]
fn parse_rfc3339(value: &str) -> (r: std::result::Result<(), chrono::format::ParseError>)
    ensures
        r is Ok <==> rfc3339_accepts(value@),
{
    chrono::DateTime::parse_from_rfc3339(value).map(|_| ())
}

/// chrono's description of a parse failure (`ParseError`'s `Display`).
#[verifier::external_body]
fn parse_error_text(e: &chrono::format::ParseError) -> String {
    e.to_string()
}

/// The stored aliases and the format version they were written with.
#[derive(Debug, PartialEq, Eq)]
pub struct Config {
    pub version: u32,
    pub aliases: AliasMap,
}

impl Default for Config {
    fn default() -> (r: Self)
        ensures
            r.version == CONFIG_VERSION,
            r.aliases.view() == Map::<Seq<char>, AliasView>::empty(),
            r.aliases.keys().len() == 0,
    {
        Config { version: CONFIG_VERSION, aliases: AliasMap::new() }
    }
}

/// Whether the alias at position `i` is acceptable: a valid name, no earlier
/// name equal to it up to ASCII case, a command that is not blank, and two
/// RFC 3339 timestamps.
pub open spec fn entry_ok(keys: Seq<Seq<char>>, values: Seq<AliasView>, i: int) -> bool {
    &&& valid_name(keys[i])
    &&& forall|j: int| 0 <= j < i ==> ascii_lower(#[trigger] keys[j]) != ascii_lower(keys[i])
    &&& !is_blank(values[i].command)
    &&& rfc3339_accepts(values[i].created_at)
    &&& rfc3339_accepts(values[i].updated_at)
}

pub open spec fn config_valid(version: u32, aliases: AliasMap) -> bool {
    &&& version == CONFIG_VERSION
    &&& forall|i: int|
        0 <= i < aliases.keys().len() ==> #[trigger] entry_ok(aliases.keys(), aliases.values(), i)
}

pub open spec fn version_message(version: u32) -> Seq<char> {
    "unsupported configuration version "@ + crate::text::decimal(version as nat)
        + " (this build supports version 1)"@
}

/// Position of the first name equal to `name` up to ASCII case (or `keys.len()`).
pub open spec fn matching_index(keys: Seq<Seq<char>>, name: Seq<char>) -> int
    decreases keys.len(),
{
    if keys.len() == 0 {
        0
    } else if ascii_lower(keys[0]) == ascii_lower(name) {
        0
    } else {
        1 + matching_index(keys.drop_first(), name)
    }
}

proof fn lemma_matching_index(keys: Seq<Seq<char>>, name: Seq<char>, p: int)
    requires
        0 <= p <= keys.len(),
        forall|j: int| 0 <= j < p ==> ascii_lower(#[trigger] keys[j]) != ascii_lower(name),
        p < keys.len() ==> ascii_lower(keys[p]) == ascii_lower(name),
    ensures
        matching_index(keys, name) == p,
    decreases p,
{
    if p > 0 {
        lemma_matching_index(keys.drop_first(), name, p - 1);
    }
}

/// The head of the message for a timestamp that chrono refuses; chrono's own
/// description of the failure follows it.
pub open spec fn timestamp_message(alias: Seq<char>, field: Seq<char>) -> Seq<char> {
    "alias '"@ + alias + "' has an invalid "@ + field + " timestamp: "@
}

fn timestamp_problem(alias: &str, field: &str, value: &str) -> (r: Result<()>)
    ensures
        r is Ok <==> rfc3339_accepts(value@),
        r is Err ==> (r matches Err(NaliasError::Config(m)) && m@.take(
            timestamp_message(alias@, field@).len() as int,
        ) == timestamp_message(alias@, field@)),
{
    match parse_rfc3339(value) {
        Ok(()) => Ok(()),
        Err(e) => {
            let mut m = "alias '".to_owned();
            m.append(alias);
            m.append("' has an invalid ");
            m.append(field);
            m.append(" timestamp: ");
            let ghost head = m@;
            let detail = parse_error_text(&e);
            m.append(detail.as_str());
            assert(m@.take(head.len() as int) =~= head);
            Err(NaliasError::Config(m))
        },
    }
}

/// Whether an earlier name equals the name at position `i` up to ASCII case.
pub open spec fn repeats_earlier(keys: Seq<Seq<char>>, i: int) -> bool {
    exists|j: int| 0 <= j < i && ascii_lower(#[trigger] keys[j]) == ascii_lower(keys[i])
}

/// The message for the first problem of the alias at position `i`; for a
/// timestamp problem, the head of the message.
pub open spec fn entry_message(keys: Seq<Seq<char>>, values: Seq<AliasView>, i: int) -> Seq<char> {
    if !valid_name(keys[i]) {
        "invalid alias name '"@ + keys[i] + "': "@ + name_problem(keys[i])->0
    } else if repeats_earlier(keys, i) {
        "aliases.json contains duplicate alias names differing only by case: '"@ + keys[i] + "'"@
    } else if is_blank(values[i].command) {
        "alias '"@ + keys[i] + "' has an empty command"@
    } else if !rfc3339_accepts(values[i].created_at) {
        timestamp_message(keys[i], "created_at"@)
    } else {
        timestamp_message(keys[i], "updated_at"@)
    }
}

/// Whether `entry_message` is the whole message (the problem is not a timestamp).
pub open spec fn entry_message_is_whole(keys: Seq<Seq<char>>, values: Seq<AliasView>, i: int) -> bool {
    !valid_name(keys[i]) || repeats_earlier(keys, i) || is_blank(values[i].command)
}

/// Position `i` holds the first alias that is not acceptable.
pub open spec fn first_bad_entry(keys: Seq<Seq<char>>, values: Seq<AliasView>, i: int) -> bool {
    &&& 0 <= i < keys.len()
    &&& forall|j: int| 0 <= j < i ==> #[trigger] entry_ok(keys, values, j)
    &&& !entry_ok(keys, values, i)
}

impl Config {
    /// Checks the version and every alias; a configuration is never repaired.
    pub fn validate(&self) -> (r: Result<()>)
        ensures
            r is Ok <==> config_valid(self.version, self.aliases),
            r is Err ==> r matches Err(NaliasError::Config(_)),
            self.version != CONFIG_VERSION ==> (r matches Err(NaliasError::Config(m)) && m@
                == version_message(self.version)),
            self.version == CONFIG_VERSION && r is Err ==> exists|i: int|
                #![trigger entry_ok(self.aliases.keys(), self.aliases.values(), i)]
                {
                    let keys = self.aliases.keys();
                    let values = self.aliases.values();
                    let head = entry_message(keys, values, i);
                    &&& first_bad_entry(keys, values, i)
                    &&& r matches Err(NaliasError::Config(m))
                    &&& m@.take(head.len() as int) == head
                    &&& entry_message_is_whole(keys, values, i) ==> m@ == head
                },
    {
        if self.version != CONFIG_VERSION {
            let mut m = "unsupported configuration version ".to_owned();
            push_decimal(&mut m, self.version as usize);
            m.append(" (this build supports version 1)");
            return Err(NaliasError::Config(m));
        }
        let ghost keys = self.aliases.keys();
        let ghost values = self.aliases.values();
        let mut names: Vec<String> = Vec::new();
        let mut i: usize = 0;
        while i < self.aliases.len()
            invariant
                i <= keys.len(),
                keys == self.aliases.keys(),
                values == self.aliases.values(),
                self.version == CONFIG_VERSION,
                names@.len() == i,
                forall|j: int| 0 <= j < i ==> (#[trigger] names@[j])@ == ascii_lower(keys[j]),
                forall|j: int| 0 <= j < i ==> #[trigger] entry_ok(keys, values, j),
            decreases keys.len() - i,
        {
            let name = self.aliases.key_at(i);
            let alias = self.aliases.value_at(i);
            assert(name@ == keys[i as int]);
            assert(alias@ == values[i as int]);
            if let Err(e) = validate_name(name.as_str()) {
                assert(first_bad_entry(keys, values, i as int));
                let m = e.message();
                return Err(NaliasError::Config(m));
            }
            let canonical = canonical_name(name.as_str());
            let mut k: usize = 0;
            while k < names.len()
                invariant
                    k <= names@.len(),
                    names@.len() == i,
                    i < keys.len(),
                    keys == self.aliases.keys(),
                    values == self.aliases.values(),
                    self.version == CONFIG_VERSION,
                    name@ == keys[i as int],
                    canonical@ == ascii_lower(keys[i as int]),
                    forall|j: int| 0 <= j < i ==> (#[trigger] names@[j])@ == ascii_lower(keys[j]),
                    forall|j: int| 0 <= j < k ==> ascii_lower(#[trigger] keys[j]) != canonical@,
                    forall|j: int| 0 <= j < i ==> #[trigger] entry_ok(keys, values, j),
                    valid_name(keys[i as int]),
                decreases names@.len() - k,
            {
                if names[k] == canonical {
                    assert(ascii_lower(keys[k as int]) == ascii_lower(keys[i as int]));
                    assert(repeats_earlier(keys, i as int));
                    assert(first_bad_entry(keys, values, i as int));
                    let mut m = "aliases.json contains duplicate alias names differing only by case: '".to_owned();
                    m.append(name.as_str());
                    m.append("'");
                    assert(m@ =~= entry_message(keys, values, i as int));
                    return Err(NaliasError::Config(m));
                }
                k = k + 1;
            }
            assert(!repeats_earlier(keys, i as int));
            if blank(alias.command.as_str()) {
                assert(first_bad_entry(keys, values, i as int));
                let mut m = "alias '".to_owned();
                m.append(name.as_str());
                m.append("' has an empty command");
                return Err(NaliasError::Config(m));
            }
            if let Err(e) = timestamp_problem(name.as_str(), "created_at", alias.created_at.as_str()) {
                proof {
                    reveal_strlit("created_at");
                }
                assert(first_bad_entry(keys, values, i as int));
                return Err(e);
            }
            if let Err(e) = timestamp_problem(name.as_str(), "updated_at", alias.updated_at.as_str()) {
                proof {
                    reveal_strlit("updated_at");
                }
                assert(first_bad_entry(keys, values, i as int));
                return Err(e);
            }
            assert(entry_ok(keys, values, i as int));
            names.push(canonical);
            i = i + 1;
        }
        Ok(())
    }

    /// The stored name equal to `name` up to ASCII case (the first in name order).
    pub fn find_key(&self, name: &str) -> (r: Option<&String>)
        ensures
            ({
                let keys = self.aliases.keys();
                let p = matching_index(keys, name@);
                &&& 0 <= p <= keys.len()
                &&& if p < keys.len() {
                    r matches Some(k) && k@ == keys[p]
                } else {
                    r is None
                }
            }),
    {
        let ghost keys = self.aliases.keys();
        let mut i: usize = 0;
        while i < self.aliases.len()
            invariant
                i <= keys.len(),
                keys == self.aliases.keys(),
                forall|j: int| 0 <= j < i ==> ascii_lower(#[trigger] keys[j]) != ascii_lower(name@),
            decreases keys.len() - i,
        {
            let key = self.aliases.key_at(i);
            if eq_ignore_ascii_case(key.as_str(), name) {
                proof {
                    lemma_matching_index(keys, name@, i as int);
                }
                return Some(key);
            }
            i = i + 1;
        }
        proof {
            lemma_matching_index(keys, name@, i as int);
        }
        None
    }

    /// The stored name and alias matching `name` up to ASCII case.
    pub fn get(&self, name: &str) -> (r: Option<(&str, &Alias)>)
        ensures
            ({
                let keys = self.aliases.keys();
                let p = matching_index(keys, name@);
                &&& 0 <= p <= keys.len()
                &&& if p < keys.len() {
                    r matches Some((k, a)) && k@ == keys[p] && a@ == self.aliases.values()[p]
                        && a@ == self.aliases.view()[k@]
                } else {
                    r is None
                }
            }),
    {
        proof {
            use_type_invariant(&self.aliases);
        }
        let key = self.find_key(name)?;
        proof {
            let p = matching_index(self.aliases.keys(), name@);
            self.aliases.lemma_view_at(p);
        }
        match self.aliases.get(key.as_str()) {
            Some(alias) => Some((key.as_str(), alias)),
            None => None,
        }
    }
}


/// No two names differ only by ASCII case.
pub open spec fn distinct_up_to_case(m: Map<Seq<char>, AliasView>) -> bool {
    forall|k1: Seq<char>, k2: Seq<char>|
        #![trigger m.contains_key(k1), m.contains_key(k2)]
        m.contains_key(k1) && m.contains_key(k2) && k1 != k2 ==> ascii_lower(k1) != ascii_lower(k2)
}

/// Some stored name equals `name` up to ASCII case.
pub open spec fn has_match(m: Map<Seq<char>, AliasView>, name: Seq<char>) -> bool {
    exists|k: Seq<char>| m.contains_key(k) && ascii_lower(k) == ascii_lower(name)
}

pub proof fn lemma_matching_index_props(keys: Seq<Seq<char>>, name: Seq<char>)
    ensures
        0 <= matching_index(keys, name) <= keys.len(),
        matching_index(keys, name) < keys.len() ==> ascii_lower(keys[matching_index(keys, name)])
            == ascii_lower(name),
        forall|j: int|
            0 <= j < matching_index(keys, name) ==> ascii_lower(#[trigger] keys[j]) != ascii_lower(
                name,
            ),
    decreases keys.len(),
{
    if keys.len() > 0 && ascii_lower(keys[0]) != ascii_lower(name) {
        lemma_matching_index_props(keys.drop_first(), name);
        assert forall|j: int| 0 <= j < matching_index(keys, name) implies ascii_lower(
            #[trigger] keys[j],
        ) != ascii_lower(name) by {
            if j > 0 {
                assert(keys[j] == keys.drop_first()[j - 1]);
            }
        }
    }
}

/// Looking a name up finds the stored name equal to it up to ASCII case when
/// there is one, and nothing otherwise.
pub proof fn lemma_lookup(m: AliasMap, name: Seq<char>)
    requires
        sorted_keys(m.keys()),
    ensures
        has_match(m.view(), name) <==> matching_index(m.keys(), name) < m.keys().len(),
        matching_index(m.keys(), name) < m.keys().len() ==> m.view().contains_key(
            m.keys()[matching_index(m.keys(), name)],
        ) && ascii_lower(m.keys()[matching_index(m.keys(), name)]) == ascii_lower(name),
{
    let keys = m.keys();
    let p = matching_index(keys, name);
    lemma_matching_index_props(keys, name);
    if p < keys.len() {
        m.lemma_view_at(p);
    }
    if has_match(m.view(), name) {
        let k = choose|k: Seq<char>| m.view().contains_key(k) && ascii_lower(k) == ascii_lower(name);
        let j = choose|j: int| 0 <= j < keys.len() && keys[j] == k;
        if p >= keys.len() {
            assert(ascii_lower(keys[j]) != ascii_lower(name));
        }
    }
}

/// With names distinct up to case, the lookup finds exactly the stored name `k`
/// that equals `name` up to ASCII case.
pub proof fn lemma_lookup_unique(m: AliasMap, name: Seq<char>, k: Seq<char>)
    requires
        sorted_keys(m.keys()),
        distinct_up_to_case(m.view()),
        m.view().contains_key(k),
        ascii_lower(k) == ascii_lower(name),
    ensures
        matching_index(m.keys(), name) < m.keys().len(),
        m.keys()[matching_index(m.keys(), name)] == k,
{
    lemma_lookup(m, name);
    let k2 = m.keys()[matching_index(m.keys(), name)];
    assert(m.view().contains_key(k2));
}

/// A configuration that passes validation has names distinct up to case.
pub proof fn law_valid_config_names_distinct(version: u32, aliases: AliasMap)
    requires
        sorted_keys(aliases.keys()),
        config_valid(version, aliases),
    ensures
        distinct_up_to_case(aliases.view()),
{
    let keys = aliases.keys();
    aliases.lemma_lengths();
    assert forall|k1: Seq<char>, k2: Seq<char>|
        aliases.view().contains_key(k1) && aliases.view().contains_key(k2) && k1 != k2 implies ascii_lower(k1)
        != ascii_lower(k2) by {
        let i = choose|i: int| 0 <= i < keys.len() && keys[i] == k1;
        let j = choose|j: int| 0 <= j < keys.len() && keys[j] == k2;
        assert(entry_ok(keys, aliases.values(), i));
        assert(entry_ok(keys, aliases.values(), j));
        if i < j {
            assert(ascii_lower(keys[i]) != ascii_lower(keys[j]));
        } else {
            assert(i != j);
            assert(ascii_lower(keys[j]) != ascii_lower(keys[i]));
        }
    }
}


/// An alias acceptable in a valid configuration: a command that is not blank
/// and two RFC 3339 timestamps.
pub open spec fn alias_ok(a: AliasView) -> bool {
    &&& !is_blank(a.command)
    &&& rfc3339_accepts(a.created_at)
    &&& rfc3339_accepts(a.updated_at)
}

/// Validity of the aliases seen as a map: valid names, distinct up to case,
/// each with an acceptable alias.
pub open spec fn view_valid(m: Map<Seq<char>, AliasView>) -> bool {
    &&& distinct_up_to_case(m)
    &&& forall|k: Seq<char>| #[trigger] m.contains_key(k) ==> valid_name(k) && alias_ok(m[k])
}

/// Validation judges the aliases by their map alone.
pub proof fn lemma_config_valid_view(version: u32, aliases: AliasMap)
    requires
        sorted_keys(aliases.keys()),
    ensures
        config_valid(version, aliases) <==> (version == CONFIG_VERSION && view_valid(
            aliases.view(),
        )),
{
    let keys = aliases.keys();
    let values = aliases.values();
    aliases.lemma_lengths();
    if config_valid(version, aliases) {
        law_valid_config_names_distinct(version, aliases);
        assert forall|k: Seq<char>| #[trigger] aliases.view().contains_key(k) implies valid_name(k)
            && alias_ok(aliases.view()[k]) by {
            let i = choose|i: int| 0 <= i < keys.len() && keys[i] == k;
            aliases.lemma_view_at(i);
            assert(entry_ok(keys, values, i));
        }
    }
    if version == CONFIG_VERSION && view_valid(aliases.view()) {
        assert forall|i: int| 0 <= i < keys.len() implies #[trigger] entry_ok(keys, values, i) by {
            aliases.lemma_view_at(i);
            assert(aliases.view().contains_key(keys[i]));
            assert forall|j: int| 0 <= j < i implies ascii_lower(#[trigger] keys[j]) != ascii_lower(
                keys[i],
            ) by {
                aliases.lemma_view_at(j);
                assert(key_lt(keys[j], keys[i]));
                if keys[j] == keys[i] {
                    lemma_key_lt_irreflexive(keys[i]);
                }
                assert(aliases.view().contains_key(keys[j]));
            }
        }
    }
}


/// How often the configuration lock is tried before giving up.
pub const LOCK_ATTEMPTS: usize = 100;

/// Milliseconds to wait after finding the lock held by another process.
pub const LOCK_RETRY_MS: u64 = 20;

/// Whether another try at the lock is made after `made` tries.
pub fn may_attempt_lock(made: usize) -> (r: bool)
    ensures
        r == (made < LOCK_ATTEMPTS),
{
    made < LOCK_ATTEMPTS
}

pub open spec fn lock_timeout_message() -> Seq<char> {
    "another Nalias process is updating aliases.json (lock timed out)"@
}

/// The error when every try found the lock held.
pub fn lock_timed_out() -> (r: NaliasError)
    ensures
        r matches NaliasError::Config(m) && m@ == lock_timeout_message(),
{
    NaliasError::Config("another Nalias process is updating aliases.json (lock timed out)".to_owned())
}


/// Validation accepts only complete, well-formed aliases: every alias of a
/// configuration that passes has a valid name, a command that is not blank,
/// and creation and update times that chrono reads as RFC 3339 timestamps.
pub proof fn law_valid_config_entries(version: u32, aliases: AliasMap)
    requires
        config_valid(version, aliases),
    ensures
        version == CONFIG_VERSION,
        forall|i: int| 0 <= i < aliases.keys().len() ==> valid_name(#[trigger] aliases.keys()[i]),
        forall|i: int|
            0 <= i < aliases.keys().len() ==> !is_blank(#[trigger] aliases.values()[i].command),
        forall|i: int|
            0 <= i < aliases.keys().len() ==> rfc3339_accepts(
                #[trigger] aliases.values()[i].created_at,
            ),
        forall|i: int|
            0 <= i < aliases.keys().len() ==> rfc3339_accepts(
                #[trigger] aliases.values()[i].updated_at,
            ),
{
    let keys = aliases.keys();
    let values = aliases.values();
    assert forall|i: int| 0 <= i < keys.len() implies valid_name(#[trigger] keys[i]) by {
        assert(entry_ok(keys, values, i));
    }
    assert forall|i: int| 0 <= i < keys.len() implies !is_blank(#[trigger] values[i].command) by {
        assert(entry_ok(keys, values, i));
    }
    assert forall|i: int| 0 <= i < keys.len() implies rfc3339_accepts(
        #[trigger] values[i].created_at,
    ) by {
        assert(entry_ok(keys, values, i));
    }
    assert forall|i: int| 0 <= i < keys.len() implies rfc3339_accepts(
        #[trigger] values[i].updated_at,
    ) by {
        assert(entry_ok(keys, values, i));
    }
}

} // verus!
