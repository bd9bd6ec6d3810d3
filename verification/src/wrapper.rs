//! The `.cmd` wrappers in the bin directory: what a wrapper holds, how a
//! wrapper written by Nalias is recognised, and when a file may be replaced.

use vstd::prelude::*;

use crate::alias::canonical_name;
use crate::app::WrapperState;
use crate::text::ascii_lower;

verus! {

/// First line of every wrapper that Nalias writes.
pub const MARKER: &'static str = "@rem nalias-wrapper";

pub open spec fn marker() -> Seq<char> {
    "@rem nalias-wrapper"@
}

/// The wrapper for the alias stored under `name`: the marker, then a call of
/// the installed `nalias.exe run <name>` with every argument of the wrapper.
pub open spec fn wrapper_text_spec(name: Seq<char>) -> Seq<char> {
    marker() + "\r\n@echo off\r\n\"%~dp0..\\nalias.exe\" run "@ + name + " %*\r\n"@
}

/// The file name of the wrapper of the alias `name`.
pub open spec fn wrapper_file_name_spec(name: Seq<char>) -> Seq<char> {
    ascii_lower(name) + ".cmd"@
}

/// The text of the wrapper for the alias `name` (stored under its canonical name).
pub fn wrapper_text(name: &str) -> (r: String)
    ensures
        r@ == wrapper_text_spec(ascii_lower(name@)),
{
    let canonical = canonical_name(name);
    let mut r = MARKER.to_owned();
    r.append("\r\n@echo off\r\n\"%~dp0..\\nalias.exe\" run ");
    r.append(canonical.as_str());
    r.append(" %*\r\n");
    proof {
        reveal_strlit("@rem nalias-wrapper");
    }
    r
}

pub fn wrapper_file_name(name: &str) -> (r: String)
    ensures
        r@ == wrapper_file_name_spec(name@),
{
    let mut r = canonical_name(name);
    r.append(".cmd");
    r
}

/// Position of the first line feed in `b` (or `b.len()`).
pub open spec fn first_newline(b: Seq<u8>) -> int
    decreases b.len(),
{
    if b.len() == 0 {
        0
    } else if b[0] == 10 {
        0
    } else {
        1 + first_newline(b.drop_first())
    }
}

/// The first line of `b` as `str::lines` gives it: the bytes before the first
/// line feed, without a carriage return just before it; all of `b` when it
/// holds no line feed.
pub open spec fn first_line(b: Seq<u8>) -> Seq<u8> {
    let k = first_newline(b);
    if k < b.len() {
        let line = b.take(k);
        if line.len() > 0 && line.last() == 13 {
            line.drop_last()
        } else {
            line
        }
    } else {
        b
    }
}

proof fn lemma_first_newline(b: Seq<u8>, p: int)
    requires
        0 <= p <= b.len(),
        forall|j: int| 0 <= j < p ==> b[j] != 10,
        p < b.len() ==> b[p] == 10,
    ensures
        first_newline(b) == p,
    decreases p,
{
    if p > 0 {
        lemma_first_newline(b.drop_first(), p - 1);
    }
}

fn bytes_eq(a: &[u8], b: &[u8], n: usize) -> (r: bool)
    requires
        n <= a@.len(),
    ensures
        r == (a@.take(n as int) == b@),
{
    if n != b.len() {
        assert(a@.take(n as int).len() != b@.len());
        return false;
    }
    let mut i: usize = 0;
    while i < n
        invariant
            i <= n,
            n <= a@.len(),
            n == b@.len(),
            forall|j: int| 0 <= j < i ==> a@[j] == b@[j],
        decreases n - i,
    {
        if a[i] != b[i] {
            assert(a@.take(n as int)[i as int] != b@[i as int]);
            return false;
        }
        i = i + 1;
    }
    assert(a@.take(n as int) =~= b@);
    true
}

/// Whether the first line of the file contents `bytes` is `line` (as UTF-8).
/// For an ASCII `line`, this is also whether the first line of the contents,
/// read as UTF-8 with invalid sequences replaced, equals `line`.
pub fn first_line_is(bytes: &[u8], line: &str) -> (r: bool)
    ensures
        r == (first_line(bytes@) == vstd::utf8::encode_utf8(line@)),
{
    let ghost b = bytes@;
    let mut k: usize = 0;
    while k < bytes.len() && bytes[k] != 10
        invariant
            k <= b.len(),
            b == bytes@,
            forall|j: int| 0 <= j < k ==> b[j] != 10,
        decreases b.len() - k,
    {
        k = k + 1;
    }
    proof {
        lemma_first_newline(b, k as int);
    }
    let mark = line.as_bytes();
    if k < bytes.len() {
        if k > 0 && bytes[k - 1] == 13 {
            assert(b.take(k as int).drop_last() =~= b.take(k - 1));
            bytes_eq(bytes, mark, k - 1)
        } else {
            bytes_eq(bytes, mark, k)
        }
    } else {
        assert(b.take(k as int) =~= b);
        bytes_eq(bytes, mark, k)
    }
}

/// Whether the file contents `bytes` begin with the marker line, that is,
/// whether Nalias wrote the file.
pub fn is_marked(bytes: &[u8]) -> (r: bool)
    ensures
        r == (first_line(bytes@) == vstd::utf8::encode_utf8(marker())),
{
    proof {
        reveal_strlit("@rem nalias-wrapper");
    }
    first_line_is(bytes, MARKER)
}

/// How the wrapper file of the alias `name`, holding `existing` (or absent),
/// compares with the wrapper Nalias writes for it.
pub fn wrapper_state(existing: Option<&[u8]>, name: &str) -> (r: WrapperState)
    ensures
        existing is None ==> r == WrapperState::Missing,
        existing matches Some(b) ==> (r == WrapperState::Current <==> b@ == vstd::utf8::encode_utf8(
            wrapper_text_spec(ascii_lower(name@)),
        )),
        existing is Some ==> r != WrapperState::Missing,
{
    match existing {
        None => WrapperState::Missing,
        Some(b) => {
            let text = wrapper_text(name);
            let expected = text.as_str().as_bytes();
            assert(b@.take(b@.len() as int) =~= b@);
            if bytes_eq(b, expected, b.len()) {
                WrapperState::Current
            } else {
                WrapperState::Mismatched
            }
        },
    }
}

/// Whether a wrapper file may be written or deleted: only when there is no
/// file yet, or the file carries the marker.
pub fn may_write(present: bool, marked: bool) -> (r: bool)
    ensures
        r == (!present || marked),
{
    !present || marked
}

} // verus!
