//! Installation paths and the user PATH value, handled as text.

use vstd::prelude::*;

use crate::alias::is_ascii_letter;
use crate::text::{
    CharClass, ascii_lower, chars_of, eq_ignore_ascii_case, join, join_strings, replace_char,
    skip_end, skip_start, split_char, split_on, string_of, strip_end, strip_start, to_ascii_lower,
    trim, views, lemma_split_append_plain, lemma_split_join, lemma_split_on_nonempty,
    lemma_split_pieces_plain, lemma_join_split,
};

verus! {

/// Environment variable that relocates the installation root.
pub const HOME_OVERRIDE: &'static str = "NALIAS_HOME";

/// `root` joined with the relative component `name` as `Path::join` does on a
/// platform whose separator is `sep`. On Windows (`\\`) a separator is added
/// unless `root` is empty, ends with `\\` or `/`, or is a bare drive (an
/// ASCII letter and a colon such as `C:`); elsewhere unless `root` is empty or
/// ends with `sep`.
pub open spec fn path_join(root: Seq<char>, name: Seq<char>, sep: char) -> Seq<char> {
    if root.len() == 0 {
        name
    } else if sep == '\\' {
        if root.last() == '\\' || root.last() == '/' || (root.len() == 2 && is_ascii_letter(root[0])
            && root[1] == ':') {
            root + name
        } else {
            root + seq!['\\'] + name
        }
    } else if root.last() == sep {
        root + name
    } else {
        root + seq![sep] + name
    }
}

/// The path separator of the platform (`std::path::MAIN_SEPARATOR`): `\\` on
/// Windows, `/` elsewhere.
#[verifier::external_body]
pub(crate) fn main_separator() -> (r: char)
    ensures
        r == '\\' || r == '/',
{
    std::path::MAIN_SEPARATOR
}

pub(crate) fn join_component(root: &String, name: &str, sep: char) -> (r: String)
    ensures
        r@ == path_join(root@, name@, sep),
{
    let v = chars_of(root.as_str());
    let mut r = root.clone();
    if v.len() == 0 {
        return name.to_owned();
    }
    let last = v[v.len() - 1];
    let needs_separator = if sep == '\\' {
        let first = v[0];
        let drive_letter = ('a' <= first && first <= 'z') || ('A' <= first && first <= 'Z');
        !(last == '\\' || last == '/' || (v.len() == 2 && drive_letter && v[1] == ':'))
    } else {
        last != sep
    };
    if needs_separator {
        r.push(sep);
    }
    r.append(name);
    r
}

/// Where Nalias keeps its files.
#[derive(Clone, Debug)]
pub struct AppPaths {
    pub root: String,
    pub config: String,
    pub bin: String,
    pub executable: String,
    pub lock: String,
}

/// The layout of the installation under `root` when paths are joined with `sep`.
pub open spec fn layout_at(r: AppPaths, root: Seq<char>, sep: char) -> bool {
    &&& r.root@ == root
    &&& r.config@ == path_join(root, "aliases.json"@, sep)
    &&& r.bin@ == path_join(root, "bin"@, sep)
    &&& r.executable@ == path_join(root, "nalias.exe"@, sep)
    &&& r.lock@ == path_join(root, "aliases.lock"@, sep)
}

impl AppPaths {
    /// The layout under the installation root `root`, its paths joined as on
    /// a platform whose separator is `separator`.
    pub fn from_root_with(root: String, separator: char) -> (r: Self)
        ensures
            layout_at(r, root@, separator),
    {
        AppPaths {
            config: join_component(&root, "aliases.json", separator),
            bin: join_component(&root, "bin", separator),
            executable: join_component(&root, "nalias.exe", separator),
            lock: join_component(&root, "aliases.lock", separator),
            root,
        }
    }

    /// The layout under the installation root `root`, joined with the
    /// separator of the platform this runs on.
    pub fn from_root(root: String) -> (r: Self)
        ensures
            exists|sep: char| (sep == '\\' || sep == '/') && layout_at(r, root@, sep),
    {
        let sep = main_separator();
        let r = Self::from_root_with(root, sep);
        assert(layout_at(r, r.root@, sep));
        r
    }
}

/// A bare drive such as `C:` (two bytes, the second a colon).
pub open spec fn is_drive(t: Seq<char>) -> bool {
    t.len() == 2 && t[1] == ':' && (t[0] as u32) < 128
}

/// The path text after trimming white space and quotes, with forward slashes
/// turned into backslashes and trailing separators removed.
pub open spec fn cleaned_path(path: Seq<char>) -> Seq<char> {
    let unquoted = strip_end(strip_start(trim(path), CharClass::Is('"')), CharClass::Is('"'));
    strip_end(replace_char(unquoted, '/', seq!['\\']), CharClass::Is('\\'))
}

/// The form in which PATH entries are compared: cleaned, a bare drive given
/// its root separator back, and ASCII lower case.
pub open spec fn normalized(path: Seq<char>) -> Seq<char> {
    let c = cleaned_path(path);
    if is_drive(c) {
        ascii_lower(c.push('\\'))
    } else {
        ascii_lower(c)
    }
}

/// The characters of `path` cleaned for comparison (shared with the Lite tool).
pub fn cleaned_chars(path: &str) -> (r: Vec<char>)
    ensures
        r@ == cleaned_path(path@),
{
    let v = chars_of(path);
    let n = v.len();
    let ws = CharClass::WhiteSpace;
    let q = CharClass::Is('"');
    let a = skip_start(&v, 0, n, &ws);
    let b = skip_end(&v, a, n, &ws);
    assert(v@.subrange(0, n as int) =~= path@);
    let c = skip_start(&v, a, b, &q);
    let d = skip_end(&v, c, b, &q);
    let ghost unquoted = v@.subrange(c as int, d as int);
    let mut w: Vec<char> = Vec::new();
    let mut i: usize = c;
    assert(unquoted.take(0) =~= Seq::<char>::empty());
    while i < d
        invariant
            c <= i <= d,
            d <= v.len(),
            unquoted == v@.subrange(c as int, d as int),
            w@ == replace_char(unquoted.take(i - c), '/', seq!['\\']),
        decreases d - i,
    {
        assert(unquoted.take(i + 1 - c).drop_last() =~= unquoted.take(i - c));
        if v[i] == '/' {
            w.push('\\');
        } else {
            w.push(v[i]);
        }
        proof {
            let t = unquoted.take(i + 1 - c);
            assert(t.last() == v@[i as int]);
        }
        i = i + 1;
    }
    assert(unquoted.take(d - c) =~= unquoted);
    let bs = CharClass::Is('\\');
    let e = skip_end(&w, 0, w.len(), &bs);
    assert(w@.subrange(0, w.len() as int) =~= w@);
    let mut r: Vec<char> = Vec::new();
    let mut k: usize = 0;
    while k < e
        invariant
            k <= e <= w.len(),
            r@ == w@.subrange(0, k as int),
        decreases e - k,
    {
        r.push(w[k]);
        k = k + 1;
        assert(r@ =~= w@.subrange(0, k as int));
    }
    r
}

/// The form in which two PATH entries are compared.
pub fn normalized_path(path: &str) -> (r: String)
    ensures
        r@ == normalized(path@),
{
    let mut c = cleaned_chars(path);
    if c.len() == 2 && c[1] == ':' && (c[0] as u32) < 128 {
        c.push('\\');
    }
    let s = string_of(&c);
    to_ascii_lower(s.as_str())
}

/// Whether the `;`-separated PATH value holds an entry equal to `needle`
/// after normalization.
pub open spec fn contains_entry(path_value: Seq<char>, needle: Seq<char>) -> bool {
    exists|i: int|
        0 <= i < split_on(path_value, ';').len() && #[trigger] normalized(
            split_on(path_value, ';')[i],
        ) == normalized(needle)
}

pub fn path_contains(path_value: &str, needle: &str) -> (r: bool)
    ensures
        r == contains_entry(path_value@, needle@),
{
    let wanted = normalized_path(needle);
    let pieces = split_char(path_value, ';');
    let mut i: usize = 0;
    while i < pieces.len()
        invariant
            i <= pieces.len(),
            views(pieces@) == split_on(path_value@, ';'),
            wanted@ == normalized(needle@),
            forall|j: int|
                0 <= j < i ==> #[trigger] normalized(split_on(path_value@, ';')[j])
                    != normalized(needle@),
        decreases pieces.len() - i,
    {
        let n = normalized_path(pieces[i].as_str());
        assert(pieces@[i as int]@ == split_on(path_value@, ';')[i as int]);
        if n == wanted {
            return true;
        }
        i = i + 1;
    }
    false
}

/// The PATH value with `entry` appended, unless an equal entry is present.
pub open spec fn added_entry(path_value: Seq<char>, entry: Seq<char>) -> Seq<char> {
    if contains_entry(path_value, entry) {
        path_value
    } else if path_value.len() == 0 {
        entry
    } else if path_value.last() == ';' {
        path_value + entry
    } else {
        path_value + seq![';'] + entry
    }
}

pub fn add_path_entry(path_value: &str, entry: &str) -> (r: String)
    ensures
        r@ == added_entry(path_value@, entry@),
{
    if path_contains(path_value, entry) {
        return path_value.to_owned();
    }
    let v = chars_of(path_value);
    if v.len() == 0 {
        entry.to_owned()
    } else if v[v.len() - 1] == ';' {
        let mut r = path_value.to_owned();
        r.append(entry);
        r
    } else {
        let mut r = path_value.to_owned();
        r.push(';');
        r.append(entry);
        r
    }
}

/// The pieces whose normalized form differs from `wanted`.
pub open spec fn other_entries(pieces: Seq<Seq<char>>, wanted: Seq<char>) -> Seq<Seq<char>>
    decreases pieces.len(),
{
    if pieces.len() == 0 {
        Seq::<Seq<char>>::empty()
    } else if normalized(pieces.last()) == wanted {
        other_entries(pieces.drop_last(), wanted)
    } else {
        other_entries(pieces.drop_last(), wanted).push(pieces.last())
    }
}

/// The PATH value without the entries equal to `entry`.
pub open spec fn removed_entry(path_value: Seq<char>, entry: Seq<char>) -> Seq<char> {
    join(other_entries(split_on(path_value, ';'), normalized(entry)), ";"@)
}

pub fn remove_path_entry(path_value: &str, entry: &str) -> (r: String)
    ensures
        r@ == removed_entry(path_value@, entry@),
{
    let wanted = normalized_path(entry);
    let pieces = split_char(path_value, ';');
    let mut kept: Vec<String> = Vec::new();
    let mut i: usize = 0;
    assert(views(pieces@).take(0) =~= Seq::<Seq<char>>::empty());
    assert(views(kept@) =~= Seq::<Seq<char>>::empty());
    while i < pieces.len()
        invariant
            i <= pieces.len(),
            wanted@ == normalized(entry@),
            views(kept@) == other_entries(views(pieces@).take(i as int), wanted@),
        decreases pieces.len() - i,
    {
        assert(views(pieces@).take(i + 1).drop_last() =~= views(pieces@).take(i as int));
        let n = normalized_path(pieces[i].as_str());
        if n != wanted {
            let ghost before = views(kept@);
            kept.push(pieces[i].clone());
            assert(views(kept@) =~= before.push(pieces@[i as int]@));
        }
        i = i + 1;
    }
    assert(views(pieces@).take(pieces.len() as int) =~= views(pieces@));
    join_strings(&kept, ";")
}

/// Whether two paths name the same file: their canonical forms when both
/// could be resolved, otherwise their texts compared without ASCII case.
pub open spec fn same_location(
    left: Seq<char>,
    right: Seq<char>,
    left_canonical: Option<Seq<char>>,
    right_canonical: Option<Seq<char>>,
) -> bool {
    match (left_canonical, right_canonical) {
        (Some(l), Some(r)) => l == r,
        _ => ascii_lower(left) == ascii_lower(right),
    }
}

pub open spec fn opt_str(o: Option<&str>) -> Option<Seq<char>> {
    match o {
        Some(s) => Some(s@),
        None => None,
    }
}

/// Compares two paths given what resolving each of them to its canonical form gave.
pub fn same_path(
    left: &str,
    right: &str,
    left_canonical: Option<&str>,
    right_canonical: Option<&str>,
) -> (r: bool)
    ensures
        r == same_location(left@, right@, opt_str(left_canonical), opt_str(right_canonical)),
{
    match (left_canonical, right_canonical) {
        (Some(lc), Some(rc)) => {
            let a = chars_of(lc);
            let b = chars_of(rc);
            if a.len() != b.len() {
                return false;
            }
            let mut i: usize = 0;
            while i < a.len()
                invariant
                    i <= a.len(),
                    a.len() == b.len(),
                    a@ == lc@,
                    b@ == rc@,
                    left_canonical == Some(lc),
                    right_canonical == Some(rc),
                    forall|k: int| 0 <= k < i ==> a@[k] == b@[k],
                decreases a.len() - i,
            {
                if a[i] != b[i] {
                    assert(lc@[i as int] != rc@[i as int]);
                    return false;
                }
                i = i + 1;
            }
            assert(a@ =~= b@);
            true
        },
        _ => eq_ignore_ascii_case(left, right),
    }
}


/// Appending `entry` to a PATH value makes `entry` its last piece.
pub proof fn lemma_appended_last_piece(path_value: Seq<char>, entry: Seq<char>)
    requires
        !entry.contains(';'),
    ensures
        ({
            let added = if path_value.len() == 0 {
                entry
            } else if path_value.last() == ';' {
                path_value + entry
            } else {
                path_value + seq![';'] + entry
            };
            split_on(added, ';').len() >= 1 && split_on(added, ';').last() == entry
        }),
{
    if path_value.len() == 0 {
        lemma_split_append_plain(path_value, entry, ';');
        assert(path_value + entry =~= entry);
        assert(Seq::<char>::empty() + entry =~= entry);
    } else if path_value.last() == ';' {
        lemma_split_append_plain(path_value, entry, ';');
        assert(path_value.drop_last().push(';') =~= path_value);
        lemma_split_on_nonempty(path_value.drop_last(), ';');
        assert(Seq::<char>::empty() + entry =~= entry);
    } else {
        let with_sep = path_value.push(';');
        lemma_split_append_plain(with_sep, entry, ';');
        assert(with_sep.drop_last() =~= path_value);
        assert(path_value + seq![';'] + entry =~= with_sep + entry);
        lemma_split_on_nonempty(path_value, ';');
        assert(Seq::<char>::empty() + entry =~= entry);
    }
}

/// After adding an entry (without `;`), the PATH value holds it, and adding
/// it again changes nothing: installation never duplicates the entry.
pub proof fn law_add_path_entry_idempotent(path_value: Seq<char>, entry: Seq<char>)
    requires
        !entry.contains(';'),
    ensures
        contains_entry(added_entry(path_value, entry), entry),
        added_entry(added_entry(path_value, entry), entry) == added_entry(path_value, entry),
{
    if !contains_entry(path_value, entry) {
        lemma_appended_last_piece(path_value, entry);
        let added = added_entry(path_value, entry);
        let pieces = split_on(added, ';');
        assert(pieces[pieces.len() - 1] == entry);
        assert(normalized(pieces[pieces.len() - 1]) == normalized(entry));
    }
}

proof fn lemma_other_entries(pieces: Seq<Seq<char>>, wanted: Seq<char>)
    requires
        forall|i: int| 0 <= i < pieces.len() ==> !(#[trigger] pieces[i]).contains(';'),
    ensures
        forall|i: int|
            0 <= i < other_entries(pieces, wanted).len() ==> !(#[trigger] other_entries(
                pieces,
                wanted,
            )[i]).contains(';') && normalized(other_entries(pieces, wanted)[i]) != wanted,
    decreases pieces.len(),
{
    if pieces.len() > 0 {
        let init = pieces.drop_last();
        assert forall|i: int| 0 <= i < init.len() implies !(#[trigger] init[i]).contains(';') by {
            assert(init[i] == pieces[i]);
        }
        lemma_other_entries(init, wanted);
        assert(!pieces[pieces.len() - 1].contains(';'));
        let prev = other_entries(init, wanted);
        assert forall|i: int| 0 <= i < other_entries(pieces, wanted).len() implies !(
        #[trigger] other_entries(pieces, wanted)[i]).contains(';') && normalized(
            other_entries(pieces, wanted)[i],
        ) != wanted by {
            if i < prev.len() {
                assert(other_entries(pieces, wanted)[i] == prev[i]);
            }
        }
    }
}

/// After removing an entry, the PATH value no longer holds any entry equal
/// to it (an entry whose normalized form is not empty).
pub proof fn law_remove_path_entry_removes(path_value: Seq<char>, entry: Seq<char>)
    requires
        normalized(entry).len() > 0,
    ensures
        !contains_entry(removed_entry(path_value, entry), entry),
{
    let pieces = split_on(path_value, ';');
    let wanted = normalized(entry);
    let others = other_entries(pieces, wanted);
    lemma_split_pieces_plain(path_value, ';');
    lemma_other_entries(pieces, wanted);
    reveal_strlit(";");
    assert(";"@ =~= seq![';']);
    let removed = removed_entry(path_value, entry);
    if others.len() == 0 {
        assert(removed =~= Seq::<char>::empty());
        assert(split_on(removed, ';') =~= seq![Seq::<char>::empty()]);
        let e = Seq::<char>::empty();
        assert(trim(e) =~= e);
        assert(strip_start(e, CharClass::Is('"')) =~= e);
        assert(strip_end(e, CharClass::Is('"')) =~= e);
        assert(replace_char(e, '/', seq!['\\']) =~= e);
        assert(cleaned_path(e) =~= e);
        assert(normalized(e) =~= e);
        if contains_entry(removed, entry) {
            let i = choose|i: int|
                0 <= i < split_on(removed, ';').len() && #[trigger] normalized(
                    split_on(removed, ';')[i],
                ) == normalized(entry);
            assert(split_on(removed, ';')[i] == e);
        }
    } else {
        lemma_split_join(others, ';');
        if contains_entry(removed, entry) {
            let i = choose|i: int|
                0 <= i < split_on(removed, ';').len() && #[trigger] normalized(
                    split_on(removed, ';')[i],
                ) == normalized(entry);
            assert(split_on(removed, ';')[i] == others[i]);
        }
    }
}


proof fn lemma_other_entries_all(pieces: Seq<Seq<char>>, wanted: Seq<char>)
    requires
        forall|i: int| 0 <= i < pieces.len() ==> normalized(#[trigger] pieces[i]) != wanted,
    ensures
        other_entries(pieces, wanted) == pieces,
    decreases pieces.len(),
{
    if pieces.len() > 0 {
        let init = pieces.drop_last();
        assert forall|i: int| 0 <= i < init.len() implies normalized(#[trigger] init[i]) != wanted by {
            assert(init[i] == pieces[i]);
        }
        lemma_other_entries_all(init, wanted);
        assert(normalized(pieces[pieces.len() - 1]) != wanted);
        assert(init.push(pieces.last()) =~= pieces);
    }
}

/// Removing an entry that was just added gives the PATH value back: the
/// added entry is the only one taken out, and every other entry keeps its
/// place. (A value ending in `;` loses that trailing separator instead.)
pub proof fn law_remove_undoes_add(path_value: Seq<char>, entry: Seq<char>)
    requires
        !contains_entry(path_value, entry),
        !entry.contains(';'),
        !(path_value.len() > 0 && path_value.last() == ';'),
    ensures
        removed_entry(added_entry(path_value, entry), entry) == path_value,
{
    let wanted = normalized(entry);
    let pieces = split_on(path_value, ';');
    lemma_split_on_nonempty(path_value, ';');
    assert forall|i: int| 0 <= i < pieces.len() implies normalized(#[trigger] pieces[i]) != wanted by {
        if normalized(pieces[i]) == wanted {
            assert(contains_entry(path_value, entry));
        }
    }
    lemma_other_entries_all(pieces, wanted);
    reveal_strlit(";");
    assert(";"@ =~= seq![';']);
    let added = added_entry(path_value, entry);
    if path_value.len() == 0 {
        lemma_split_append_plain(path_value, entry, ';');
        assert(path_value + entry =~= entry);
        assert(Seq::<char>::empty() + entry =~= entry);
        assert(split_on(added, ';') =~= seq![entry]);
        assert(seq![entry].drop_last() =~= Seq::<Seq<char>>::empty());
        assert(seq![entry].last() == entry);
        assert(other_entries(Seq::<Seq<char>>::empty(), wanted) == Seq::<Seq<char>>::empty());
        assert(other_entries(seq![entry], wanted) =~= Seq::<Seq<char>>::empty());
        assert(removed_entry(added, entry) =~= path_value);
    } else {
        let with_sep = path_value.push(';');
        assert(with_sep.drop_last() =~= path_value);
        assert(split_on(with_sep, ';') == pieces.push(Seq::<char>::empty()));
        lemma_split_append_plain(with_sep, entry, ';');
        assert(path_value + seq![';'] + entry =~= with_sep + entry);
        assert(Seq::<char>::empty() + entry =~= entry);
        assert(split_on(added, ';') =~= pieces.push(entry));
        assert(pieces.push(entry).drop_last() =~= pieces);
        assert(other_entries(pieces.push(entry), wanted) == pieces);
        lemma_join_split(path_value, ';');
    }
}

} // verus!
