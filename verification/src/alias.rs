//! Alias definitions and the rules for alias names.

use vstd::prelude::*;

use crate::error::{NaliasError, Result};
use crate::text::{
    ascii_lower, chars_of, lemma_ascii_lower_idempotent, lower_char, str_eq, string_of,
    to_ascii_lower,
};

verus! {

/// The shell that runs an alias's command.
#[derive(Clone, Copy, Debug, PartialEq, Eq, Structural)]
pub enum Shell {
    Cmd,
    Powershell,
    Direct,
}

impl Default for Shell {
    fn default() -> (r: Self)
        ensures
            r == Shell::Cmd,
    {
        Shell::Cmd
    }
}

/// The lower-case name by which a shell is written.
pub open spec fn shell_name(s: Shell) -> Seq<char> {
    match s {
        Shell::Cmd => "cmd"@,
        Shell::Powershell => "powershell"@,
        Shell::Direct => "direct"@,
    }
}

impl Shell {
    /// The displayed name of the shell.
    pub fn as_str(&self) -> (r: &'static str)
        ensures
            r@ == shell_name(*self),
    {
        match self {
            Shell::Cmd => "cmd",
            Shell::Powershell => "powershell",
            Shell::Direct => "direct",
        }
    }
}

/// One stored alias.
#[derive(Clone, Debug, PartialEq, Eq)]
pub struct Alias {
    pub command: String,
    pub description: Option<String>,
    pub shell: Shell,
    pub enabled: bool,
    pub created_at: String,
    pub updated_at: String,
}

/// The contents of an alias as plain values.
pub struct AliasView {
    pub command: Seq<char>,
    pub description: Option<Seq<char>>,
    pub shell: Shell,
    pub enabled: bool,
    pub created_at: Seq<char>,
    pub updated_at: Seq<char>,
}

pub open spec fn opt_view(o: Option<String>) -> Option<Seq<char>> {
    match o {
        Some(s) => Some(s@),
        None => None,
    }
}

impl View for Alias {
    type V = AliasView;

    open spec fn view(&self) -> AliasView {
        AliasView {
            command: self.command@,
            description: opt_view(self.description),
            shell: self.shell,
            enabled: self.enabled,
            created_at: self.created_at@,
            updated_at: self.updated_at@,
        }
    }
}

/// Value of `enabled` for a stored alias that does not mention it.
pub fn default_true() -> (r: bool)
    ensures
        r,
{
    true
}

/// The canonical (ASCII lower-case) form of an alias name.
pub fn canonical_name(name: &str) -> (r: String)
    ensures
        r@ == ascii_lower(name@),
{
    to_ascii_lower(name)
}

pub open spec fn is_ascii_letter(c: char) -> bool {
    ('a' <= c && c <= 'z') || ('A' <= c && c <= 'Z')
}

pub open spec fn is_ascii_digit(c: char) -> bool {
    '0' <= c && c <= '9'
}

/// A character allowed after the first one of an alias name.
pub open spec fn is_name_char(c: char) -> bool {
    is_ascii_letter(c) || is_ascii_digit(c) || c == '-' || c == '_'
}

/// Names reserved by Nalias itself or by Windows devices, given in lower case.
pub open spec fn is_reserved(lower: Seq<char>) -> bool {
    ||| lower == "nalias"@
    ||| lower == "con"@
    ||| lower == "prn"@
    ||| lower == "aux"@
    ||| lower == "nul"@
    ||| (lower.len() == 4 && (lower.take(3) == "com"@ || lower.take(3) == "lpt"@) && is_ascii_digit(
        lower[3],
    ) && lower[3] != '0')
}

pub open spec fn reason_empty() -> Seq<char> {
    "the name cannot be empty"@
}

pub open spec fn reason_first() -> Seq<char> {
    "the name must start with an ASCII letter"@
}

pub open spec fn reason_chars() -> Seq<char> {
    "only ASCII letters, digits, hyphens, and underscores are allowed"@
}

pub open spec fn reason_reserved() -> Seq<char> {
    "the name is reserved by Nalias or Windows"@
}

/// Why `name` is not a valid alias name, or `None` when it is.
pub open spec fn name_problem(name: Seq<char>) -> Option<Seq<char>> {
    if name.len() == 0 {
        Some(reason_empty())
    } else if !is_ascii_letter(name[0]) {
        Some(reason_first())
    } else if !(forall|i: int| 1 <= i < name.len() ==> is_name_char(#[trigger] name[i])) {
        Some(reason_chars())
    } else if is_reserved(ascii_lower(name)) {
        Some(reason_reserved())
    } else {
        None
    }
}

pub open spec fn valid_name(name: Seq<char>) -> bool {
    name_problem(name) is None
}

fn letter(c: char) -> (r: bool)
    ensures
        r == is_ascii_letter(c),
{
    ('a' <= c && c <= 'z') || ('A' <= c && c <= 'Z')
}

fn digit(c: char) -> (r: bool)
    ensures
        r == is_ascii_digit(c),
{
    '0' <= c && c <= '9'
}

fn invalid(name: &str, reason: &str) -> (r: NaliasError)
    ensures
        r matches NaliasError::InvalidAliasName { name: n, reason: m } && n@ == name@ && m@
            == reason@,
{
    NaliasError::InvalidAliasName { name: name.to_owned(), reason: reason.to_owned() }
}

fn str_eq_chars(v: &Vec<char>, lit: &str) -> (r: bool)
    ensures
        r == (v@ == lit@),
{
    let t = string_of(v);
    str_eq(t.as_str(), lit)
}

/// Checks that `name` may be used as an alias name.
pub fn validate_name(name: &str) -> (r: Result<()>)
    ensures
        r is Ok <==> valid_name(name@),
        r is Err ==> (r matches Err(NaliasError::InvalidAliasName { name: n, reason: m }) && n@
            == name@ && name_problem(name@) == Some(m@)),
{
    let v = chars_of(name);
    if v.len() == 0 {
        return Err(invalid(name, "the name cannot be empty"));
    }
    if !letter(v[0]) {
        return Err(invalid(name, "the name must start with an ASCII letter"));
    }
    let mut i: usize = 1;
    while i < v.len()
        invariant
            1 <= i <= v.len(),
            v@ == name@,
            is_ascii_letter(name@[0]),
            forall|k: int| 1 <= k < i ==> is_name_char(#[trigger] name@[k]),
        decreases v.len() - i,
    {
        let c = v[i];
        if !(letter(c) || digit(c) || c == '-' || c == '_') {
            assert(!is_name_char(name@[i as int]));
            assert(!(forall|k: int| 1 <= k < name@.len() ==> is_name_char(#[trigger] name@[k])));
            return Err(
                invalid(name, "only ASCII letters, digits, hyphens, and underscores are allowed"),
            );
        }
        i = i + 1;
    }
    let lower_text = canonical_name(name);
    let lower = chars_of(lower_text.as_str());
    let mut reserved = str_eq_chars(&lower, "nalias") || str_eq_chars(&lower, "con") || str_eq_chars(
        &lower,
        "prn",
    ) || str_eq_chars(&lower, "aux") || str_eq_chars(&lower, "nul");
    if !reserved && lower.len() == 4 {
        let head = vec![lower[0], lower[1], lower[2]];
        assert(head@ =~= lower@.take(3));
        if (str_eq_chars(&head, "com") || str_eq_chars(&head, "lpt")) && digit(lower[3]) && lower[3]
            != '0' {
            reserved = true;
        }
    }
    if reserved {
        return Err(invalid(name, "the name is reserved by Nalias or Windows"));
    }
    Ok(())
}


/// Whether a name is accepted, and why not, does not depend on ASCII case:
/// a name and its canonical form are judged alike.
pub proof fn law_name_check_ignores_case(name: Seq<char>)
    ensures
        name_problem(ascii_lower(name)) == name_problem(name),
{
    let lower = ascii_lower(name);
    lemma_ascii_lower_idempotent(name);
    assert forall|i: int| 0 <= i < name.len() implies (is_name_char(#[trigger] lower[i])
        <==> is_name_char(name[i])) && (is_ascii_letter(lower[i]) <==> is_ascii_letter(name[i])) by {
        let c = name[i];
        if 'A' <= c && c <= 'Z' {
            assert('a' <= lower_char(c) && lower_char(c) <= 'z');
        }
    }
    if name.len() > 0 {
        assert(lower[0] == lower_char(name[0]));
        if !(forall|i: int| 1 <= i < name.len() ==> is_name_char(#[trigger] name[i])) {
            let i = choose|i: int| 1 <= i < name.len() && !is_name_char(name[i]);
            assert(!is_name_char(lower[i]));
        }
        if !(forall|i: int| 1 <= i < lower.len() ==> is_name_char(#[trigger] lower[i])) {
            let i = choose|i: int| 1 <= i < lower.len() && !is_name_char(lower[i]);
            assert(!is_name_char(name[i]));
        }
    }
}

/// A valid alias name is plain ASCII text of letters, digits, `-` and `_`, so
/// it can neither leave the wrapper directory nor name a drive or a device path.
pub proof fn law_valid_name_is_plain(name: Seq<char>)
    requires
        valid_name(name),
    ensures
        name.len() > 0,
        forall|i: int| 0 <= i < name.len() ==> is_name_char(#[trigger] name[i]),
        forall|i: int| 0 <= i < name.len() ==> (#[trigger] name[i] as u32) < 128,
        !name.contains('/') && !name.contains('\\') && !name.contains('.') && !name.contains(':'),
{
    assert forall|i: int| 0 <= i < name.len() implies is_name_char(#[trigger] name[i]) by {
        if i > 0 {
            assert(is_name_char(name[i]));
        }
    }
    assert forall|i: int| 0 <= i < name.len() implies (#[trigger] name[i] as u32) < 128 by {
        assert(is_name_char(name[i]));
    }
    assert forall|c: char| c == '/' || c == '\\' || c == '.' || c == ':' implies !name.contains(c) by {
        if name.contains(c) {
            let i = choose|i: int| 0 <= i < name.len() && name[i] == c;
            assert(is_name_char(name[i]));
        }
    }
}


/// The names Nalias keeps for itself and the Windows device names (`nalias`,
/// `con`, `prn`, `aux`, `nul`, `com1`..`com9`, `lpt1`..`lpt9`) are refused in
/// any ASCII case, with the reserved-name reason; so no valid name has one of
/// them as its lower-case form, and no wrapper can be named after a device.
pub proof fn law_reserved_names_refused(name: Seq<char>)
    ensures
        ({
            let l = ascii_lower(name);
            let reserved = l == "nalias"@ || l == "con"@ || l == "prn"@ || l == "aux"@ || l
                == "nul"@ || (l.len() == 4 && (l.take(3) == "com"@ || l.take(3) == "lpt"@) && '1'
                <= l[3] && l[3] <= '9');
            &&& reserved ==> name_problem(name) == Some(
                "the name is reserved by Nalias or Windows"@,
            )
            &&& valid_name(name) ==> !reserved
        }),
{
    reveal_strlit("nalias");
    reveal_strlit("con");
    reveal_strlit("prn");
    reveal_strlit("aux");
    reveal_strlit("nul");
    reveal_strlit("com");
    reveal_strlit("lpt");
    let l = ascii_lower(name);
    law_name_check_ignores_case(name);
    lemma_ascii_lower_idempotent(name);
    let reserved = l == "nalias"@ || l == "con"@ || l == "prn"@ || l == "aux"@ || l == "nul"@ || (
    l.len() == 4 && (l.take(3) == "com"@ || l.take(3) == "lpt"@) && '1' <= l[3] && l[3] <= '9');
    if reserved {
        assert(l.len() > 0);
        assert(is_ascii_letter(l[0])) by {
            if l.len() == 4 && (l.take(3) == "com"@ || l.take(3) == "lpt"@) {
                assert(l[0] == l.take(3)[0]);
            }
        }
        assert forall|i: int| 1 <= i < l.len() implies is_name_char(#[trigger] l[i]) by {
            if l.len() == 4 && (l.take(3) == "com"@ || l.take(3) == "lpt"@) && i < 3 {
                assert(l[i] == l.take(3)[i]);
            }
        }
        assert(is_reserved(ascii_lower(l)));
    }
}

} // verus!
