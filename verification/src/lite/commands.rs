//! Checks that Nalias Lite makes before it writes a wrapper.

use vstd::prelude::*;

use crate::text::{CharClass, contains_class, has_class};

verus! {

pub open spec fn empty_command() -> Seq<char> {
    "the command cannot be empty"@
}

pub open spec fn multi_line() -> Seq<char> {
    "commands must fit on one line"@
}

/// A command must be non-empty and fit on one line.
pub fn check_command(command: &str) -> (r: Result<(), &'static str>)
    ensures
        command@.len() == 0 ==> (r matches Err(e) && e@ == empty_command()),
        command@.len() > 0 && (has_class(command@, CharClass::Is('\r')) || has_class(
            command@,
            CharClass::Is('\n'),
        )) ==> (r matches Err(e) && e@ == multi_line()),
        command@.len() > 0 && !has_class(command@, CharClass::Is('\r')) && !has_class(
            command@,
            CharClass::Is('\n'),
        ) ==> r is Ok,
{
    if command.is_empty() {
        return Err("the command cannot be empty");
    }
    if contains_class(command, &CharClass::Is('\r')) || contains_class(command, &CharClass::Is('\n')) {
        return Err("commands must fit on one line");
    }
    Ok(())
}

pub open spec fn already_exists() -> Seq<char> {
    "alias already exists; use --force to replace it"@
}

pub open spec fn unrelated_replace() -> Seq<char> {
    "refusing to replace an unrelated file"@
}

pub open spec fn not_found() -> Seq<char> {
    "alias was not found"@
}

pub open spec fn unrelated_remove() -> Seq<char> {
    "refusing to remove an unrelated file"@
}

/// Whether `add` may write the wrapper: an existing file is replaced only
/// with `--force` and only when it carries the Nalias Lite marker.
pub fn lite_add_check(present: bool, force: bool, marked: bool) -> (r: Result<(), &'static str>)
    ensures
        (present && !force) ==> (r matches Err(e) && e@ == already_exists()),
        (present && force && !marked) ==> (r matches Err(e) && e@ == unrelated_replace()),
        (!present || (force && marked)) ==> (r is Ok),
{
    if present && !force {
        return Err("alias already exists; use --force to replace it");
    }
    if present && !marked {
        return Err("refusing to replace an unrelated file");
    }
    Ok(())
}

/// Whether `remove` may delete the wrapper: it must exist and carry the
/// Nalias Lite marker.
pub fn lite_remove_check(present: bool, marked: bool) -> (r: Result<(), &'static str>)
    ensures
        !present ==> (r matches Err(e) && e@ == not_found()),
        (present && !marked) ==> (r matches Err(e) && e@ == unrelated_remove()),
        (present && marked) ==> (r is Ok),
{
    if !present {
        return Err("alias was not found");
    }
    if !marked {
        return Err("refusing to remove an unrelated file");
    }
    Ok(())
}

pub open spec fn invalid_lite_name() -> Seq<char> {
    "invalid alias name: use an ASCII letter followed by letters, digits, hyphens, or underscores, and no reserved name"@
}

/// Checks an alias name by the Nalias rules (no traversal, no device names).
pub fn lite_validate_name(name: &str) -> (r: Result<(), &'static str>)
    ensures
        r is Ok <==> crate::alias::valid_name(name@),
        r matches Err(e) ==> e@ == invalid_lite_name(),
{
    match crate::alias::validate_name(name) {
        Ok(()) => Ok(()),
        Err(_) => Err(
            "invalid alias name: use an ASCII letter followed by letters, digits, hyphens, or underscores, and no reserved name",
        ),
    }
}

/// One line of `list`: the alias name and its command.
pub fn list_line(name: &str, command: &str) -> (r: String)
    ensures
        r@ == name@ + "  "@ + command@,
{
    let mut r = name.to_owned();
    r.append("  ");
    r.append(command);
    r
}

} // verus!
