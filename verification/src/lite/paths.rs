//! Installation paths of Nalias Lite and its user PATH handling.

use vstd::prelude::*;

use crate::paths::{
    cleaned_path, join_component, main_separator, opt_str, path_join, same_location,
};
use crate::text::{ascii_lower, chars_of, split_char, split_on, string_of, to_ascii_lower, views};

verus! {

/// Environment variable that relocates the Lite installation root.
pub const HOME_OVERRIDE: &'static str = "NALIAS_LITE_HOME";

/// Where Nalias Lite keeps its files.
#[derive(Debug)]
pub struct AppPaths {
    pub root: String,
    pub bin: String,
    pub executable: String,
}

/// The Lite layout under `root` when paths are joined with `sep`.
pub open spec fn layout_at(r: AppPaths, root: Seq<char>, sep: char) -> bool {
    &&& r.root@ == root
    &&& r.bin@ == path_join(root, "bin"@, sep)
    &&& r.executable@ == path_join(root, "nalias-lite.exe"@, sep)
}

impl AppPaths {
    /// The layout under the installation root `root`, its paths joined as on
    /// a platform whose separator is `separator`.
    pub fn at_root_with(root: String, separator: char) -> (r: Self)
        ensures
            layout_at(r, root@, separator),
    {
        let bin = join_component(&root, "bin", separator);
        let executable = join_component(&root, "nalias-lite.exe", separator);
        AppPaths { root, bin, executable }
    }

    /// The layout under the installation root `root`, joined with the
    /// separator of the platform this runs on.
    pub fn at_root(root: String) -> (r: Self)
        ensures
            exists|sep: char| (sep == '\\' || sep == '/') && layout_at(r, root@, sep),
    {
        let sep = main_separator();
        let r = Self::at_root_with(root, sep);
        assert(layout_at(r, r.root@, sep));
        r
    }

    /// Compares two paths given what resolving each of them to its canonical form gave.
    pub fn same_path(
        &self,
        left: &str,
        right: &str,
        left_canonical: Option<&str>,
        right_canonical: Option<&str>,
    ) -> (r: bool)
        ensures
            r == same_location(left@, right@, opt_str(left_canonical), opt_str(right_canonical)),
    {
        crate::paths::same_path(left, right, left_canonical, right_canonical)
    }
}

/// The form in which Lite compares PATH entries: cleaned and ASCII lower case.
pub open spec fn normalized(path: Seq<char>) -> Seq<char> {
    ascii_lower(cleaned_path(path))
}

fn normalized_path(path: &str) -> (r: String)
    ensures
        r@ == normalized(path@),
{
    let c = crate::paths::cleaned_chars(path);
    let s = string_of(&c);
    to_ascii_lower(s.as_str())
}

pub open spec fn contains_entry(value: Seq<char>, entry: Seq<char>) -> bool {
    exists|i: int|
        0 <= i < split_on(value, ';').len() && #[trigger] normalized(split_on(value, ';')[i])
            == normalized(entry)
}

fn path_contains(value: &str, entry: &str) -> (r: bool)
    ensures
        r == contains_entry(value@, entry@),
{
    let expected = normalized_path(entry);
    let pieces = split_char(value, ';');
    let mut i: usize = 0;
    while i < pieces.len()
        invariant
            i <= pieces.len(),
            views(pieces@) == split_on(value@, ';'),
            expected@ == normalized(entry@),
            forall|j: int|
                0 <= j < i ==> #[trigger] normalized(split_on(value@, ';')[j]) != normalized(entry@),
        decreases pieces.len() - i,
    {
        let n = normalized_path(pieces[i].as_str());
        assert(pieces@[i as int]@ == split_on(value@, ';')[i as int]);
        if n == expected {
            return true;
        }
        i = i + 1;
    }
    false
}

/// The PATH value with `entry` appended, unless an equal entry is present.
pub open spec fn added_entry(value: Seq<char>, entry: Seq<char>) -> Seq<char> {
    if contains_entry(value, entry) {
        value
    } else if value.len() == 0 {
        entry
    } else if value.last() == ';' {
        value + entry
    } else {
        value + seq![';'] + entry
    }
}

pub fn add_path_entry(value: &str, entry: &str) -> (r: String)
    ensures
        r@ == added_entry(value@, entry@),
{
    if path_contains(value, entry) {
        return value.to_owned();
    }
    let v = chars_of(value);
    if v.len() == 0 {
        entry.to_owned()
    } else if v[v.len() - 1] == ';' {
        let mut r = value.to_owned();
        r.append(entry);
        r
    } else {
        let mut r = value.to_owned();
        r.push(';');
        r.append(entry);
        r
    }
}


/// After adding an entry (without `;`), the PATH value holds it, and adding
/// it again changes nothing.
pub proof fn law_add_path_entry_idempotent(value: Seq<char>, entry: Seq<char>)
    requires
        !entry.contains(';'),
    ensures
        contains_entry(added_entry(value, entry), entry),
        added_entry(added_entry(value, entry), entry) == added_entry(value, entry),
{
    if !contains_entry(value, entry) {
        crate::paths::lemma_appended_last_piece(value, entry);
        let added = added_entry(value, entry);
        let pieces = split_on(added, ';');
        assert(pieces[pieces.len() - 1] == entry);
        assert(normalized(pieces[pieces.len() - 1]) == normalized(entry));
    }
}

} // verus!
