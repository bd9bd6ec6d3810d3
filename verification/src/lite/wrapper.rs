//! The wrappers of Nalias Lite. A wrapper is the only record of its alias: a
//! marker line, a comment holding the command in hexadecimal UTF-8 (read back
//! by `list`), and the command itself followed by `%*`.

use vstd::prelude::*;

use crate::text::{
    lemma_split_concat, lemma_split_on_nonempty, lemma_split_plain, split_char, split_on,
};
use crate::wrapper::{first_line, first_line_is};

verus! {

/// First line of every wrapper that Nalias Lite writes.
pub const LITE_MARKER: &'static str = "@rem nalias-lite-wrapper";

pub open spec fn lite_marker() -> Seq<char> {
    "@rem nalias-lite-wrapper"@
}

/// What precedes the hexadecimal command on the metadata line.
pub open spec fn meta_prefix() -> Seq<char> {
    "@rem nalias-lite-command "@
}

/// The lower-case hexadecimal digit for `n` (below 16).
pub open spec fn hex_digit(n: int) -> char {
    if n < 10 {
        (48 + n) as char
    } else {
        (87 + n) as char
    }
}

/// Each byte as two lower-case hexadecimal digits, high digit first.
pub open spec fn hex_spec(b: Seq<u8>) -> Seq<char>
    decreases b.len(),
{
    if b.len() == 0 {
        Seq::empty()
    } else {
        hex_spec(b.drop_last()) + seq![hex_digit(b.last() as int / 16), hex_digit(b.last() as int % 16)]
    }
}

/// The value of a lower-case hexadecimal digit.
pub open spec fn hex_value(c: char) -> Option<int> {
    if '0' <= c && c <= '9' {
        Some(c as int - 48)
    } else if 'a' <= c && c <= 'f' {
        Some(c as int - 87)
    } else {
        None
    }
}

/// The bytes written as `t` in lower-case hexadecimal, or `None` when `t` is
/// not such a text.
pub open spec fn unhex_spec(t: Seq<char>) -> Option<Seq<u8>>
    decreases t.len(),
{
    if t.len() == 0 {
        Some(Seq::empty())
    } else if t.len() == 1 {
        None
    } else {
        match (
            unhex_spec(t.drop_last().drop_last()),
            hex_value(t[t.len() - 2]),
            hex_value(t[t.len() - 1]),
        ) {
            (Some(p), Some(h), Some(l)) => Some(p.push((h * 16 + l) as u8)),
            _ => None,
        }
    }
}

/// The wrapper that runs `command` with the wrapper's arguments.
pub open spec fn lite_text_spec(command: Seq<char>) -> Seq<char> {
    lite_marker() + "\r\n@echo off\r\n"@ + meta_prefix() + hex_spec(
        vstd::utf8::encode_utf8(command),
    ) + "\r\n"@ + command + " %*\r\n"@
}

/// `l` without a carriage return at its end.
pub open spec fn strip_cr(l: Seq<char>) -> Seq<char> {
    if l.len() > 0 && l.last() == '\r' {
        l.drop_last()
    } else {
        l
    }
}

/// The command recorded in the wrapper text `text`: its first line is the
/// marker and its third line the metadata comment, whose hexadecimal part is
/// the UTF-8 of the command.
pub open spec fn lite_command_spec(text: Seq<char>) -> Option<Seq<char>> {
    let lines = split_on(text, '\n');
    let p = meta_prefix();
    if lines.len() < 3 || strip_cr(lines[0]) != lite_marker() {
        None
    } else {
        let meta = strip_cr(lines[2]);
        if meta.len() < p.len() || meta.take(p.len() as int) != p {
            None
        } else {
            match unhex_spec(meta.skip(p.len() as int)) {
                Some(b) => if vstd::utf8::valid_utf8(b) {
                    Some(vstd::utf8::decode_utf8(b))
                } else {
                    None
                },
                None => None,
            }
        }
    }
}

/// The command recorded in the wrapper file contents `bytes`, or `None` when
/// the file is not a readable Nalias Lite wrapper.
pub open spec fn lite_entry_spec(bytes: Seq<u8>) -> Option<Seq<char>> {
    if vstd::utf8::valid_utf8(bytes) {
        lite_command_spec(vstd::utf8::decode_utf8(bytes))
    } else {
        None
    }
}

/// Calls `String::from_utf8`, which accepts exactly the valid UTF-8 byte
/// sequences and decodes them.
#[verifier::external_body]
fn utf8_text(bytes: Vec<u8>) -> (r: Option<String>)
    ensures
        r is Some <==> vstd::utf8::valid_utf8(bytes@),
        r matches Some(s) ==> s@ == vstd::utf8::decode_utf8(bytes@),
{
    String::from_utf8(bytes).ok()
}

fn hex_char(n: u8) -> (r: char)
    requires
        n < 16,
    ensures
        r == hex_digit(n as int),
{
    if n < 10 {
        (48u8 + n) as char
    } else {
        (87u8 + n) as char
    }
}

/// `bytes` in lower-case hexadecimal.
pub fn hex_text(bytes: &[u8]) -> (r: String)
    ensures
        r@ == hex_spec(bytes@),
{
    let mut r = String::new();
    let mut i: usize = 0;
    assert(bytes@.take(0) =~= Seq::<u8>::empty());
    while i < bytes.len()
        invariant
            i <= bytes@.len(),
            r@ == hex_spec(bytes@.take(i as int)),
        decreases bytes@.len() - i,
    {
        let b = bytes[i];
        assert(bytes@.take(i + 1).drop_last() =~= bytes@.take(i as int));
        assert(bytes@.take(i + 1).last() == b);
        r.push(hex_char(b / 16));
        r.push(hex_char(b % 16));
        i = i + 1;
    }
    assert(bytes@.take(bytes@.len() as int) =~= bytes@);
    r
}

fn hex_val(c: char) -> (r: Option<u8>)
    ensures
        match hex_value(c) {
            Some(v) => r == Some(v as u8) && 0 <= v < 16,
            None => r is None,
        },
{
    if '0' <= c && c <= '9' {
        Some((c as u32 - 48) as u8)
    } else if 'a' <= c && c <= 'f' {
        Some((c as u32 - 87) as u8)
    } else {
        None
    }
}

proof fn lemma_unhex_odd(t: Seq<char>)
    requires
        t.len() % 2 == 1,
    ensures
        unhex_spec(t) is None,
    decreases t.len(),
{
    if t.len() > 1 {
        lemma_unhex_odd(t.drop_last().drop_last());
    }
}

proof fn lemma_unhex_prefix(t: Seq<char>, k: int)
    requires
        0 <= k <= t.len(),
        k % 2 == 0,
        t.len() % 2 == 0,
        unhex_spec(t.take(k)) is None,
    ensures
        unhex_spec(t) is None,
    decreases t.len() - k,
{
    if k < t.len() {
        let u = t.take(k + 2);
        assert(u.drop_last().drop_last() =~= t.take(k));
        lemma_unhex_prefix(t, k + 2);
    } else {
        assert(t.take(k) =~= t);
    }
}

/// The bytes written as `t` in lower-case hexadecimal.
pub fn unhex(t: &str) -> (r: Option<Vec<u8>>)
    ensures
        match unhex_spec(t@) {
            Some(b) => r matches Some(v) && v@ == b,
            None => r is None,
        },
{
    let v = crate::text::chars_of(t);
    if v.len() % 2 == 1 {
        proof {
            lemma_unhex_odd(t@);
        }
        return None;
    }
    let mut out: Vec<u8> = Vec::new();
    let mut i: usize = 0;
    assert(t@.take(0) =~= Seq::<char>::empty());
    while i < v.len()
        invariant
            i <= v@.len(),
            i % 2 == 0,
            v@.len() % 2 == 0,
            v@ == t@,
            unhex_spec(t@.take(i as int)) == Some(out@),
        decreases v@.len() - i,
    {
        let ghost u = t@.take(i + 2);
        assert(u.drop_last().drop_last() =~= t@.take(i as int));
        assert(u[u.len() - 2] == v@[i as int] && u[u.len() - 1] == v@[i + 1]);
        let h = hex_val(v[i]);
        let l = hex_val(v[i + 1]);
        match (h, l) {
            (Some(h), Some(l)) => {
                out.push(h * 16 + l);
            },
            _ => {
                proof {
                    lemma_unhex_prefix(t@, i + 2);
                }
                return None;
            },
        }
        i = i + 2;
    }
    assert(t@.take(v@.len() as int) =~= t@);
    Some(out)
}

/// Decoding the hexadecimal form of bytes gives the bytes back.
pub proof fn law_unhex_hex(b: Seq<u8>)
    ensures
        unhex_spec(hex_spec(b)) == Some(b),
    decreases b.len(),
{
    if b.len() > 0 {
        law_unhex_hex(b.drop_last());
        let t = hex_spec(b);
        let x = b.last();
        assert(t.drop_last().drop_last() =~= hex_spec(b.drop_last()));
        assert(t[t.len() - 2] == hex_digit(x as int / 16));
        assert(t[t.len() - 1] == hex_digit(x as int % 16));
        assert(((x / 16) * 16 + x % 16) as u8 == x);
        assert(b.drop_last().push(x) =~= b);
    }
}

/// The wrapper for `command`.
pub fn lite_wrapper_text(command: &str) -> (r: String)
    ensures
        r@ == lite_text_spec(command@),
{
    let mut r = LITE_MARKER.to_owned();
    r.append("\r\n@echo off\r\n");
    r.append("@rem nalias-lite-command ");
    let hex = hex_text(command.as_bytes());
    r.append(hex.as_str());
    r.append("\r\n");
    r.append(command);
    r.append(" %*\r\n");
    proof {
        reveal_strlit("@rem nalias-lite-wrapper");
        reveal_strlit("@rem nalias-lite-command ");
    }
    r
}

/// Whether the file contents `bytes` begin with the Nalias Lite marker line.
pub fn is_lite_marked(bytes: &[u8]) -> (r: bool)
    ensures
        r == (first_line(bytes@) == vstd::utf8::encode_utf8(lite_marker())),
{
    proof {
        reveal_strlit("@rem nalias-lite-wrapper");
    }
    first_line_is(bytes, LITE_MARKER)
}

fn strip_cr_text(l: &String) -> (r: Vec<char>)
    ensures
        r@ == strip_cr(l@),
{
    let mut v = crate::text::chars_of(l.as_str());
    if v.len() > 0 && v[v.len() - 1] == '\r' {
        v.pop();
    }
    v
}

fn chars_eq(a: &Vec<char>, start: usize, b: &str) -> (r: bool)
    requires
        start <= a@.len(),
    ensures
        r == (a@.len() >= start + b@.len() && a@.subrange(start as int, start + b@.len()) == b@),
{
    let w = crate::text::chars_of(b);
    if a.len() - start < w.len() {
        return false;
    }
    let mut i: usize = 0;
    while i < w.len()
        invariant
            i <= w@.len(),
            w@ == b@,
            start + w@.len() <= a@.len(),
            a@.len() == a.len(),
            forall|j: int| 0 <= j < i ==> a@[start + j] == w@[j],
        decreases w@.len() - i,
    {
        if a[start + i] != w[i] {
            assert(a@.subrange(start as int, start + b@.len())[i as int] != b@[i as int]);
            return false;
        }
        i = i + 1;
    }
    assert(a@.subrange(start as int, start + b@.len()) =~= b@);
    true
}

/// The command recorded in the wrapper file contents `bytes`.
pub fn lite_entry(bytes: Vec<u8>) -> (r: Option<String>)
    ensures
        match lite_entry_spec(bytes@) {
            Some(c) => r matches Some(s) && s@ == c,
            None => r is None,
        },
{
    let text = match utf8_text(bytes) {
        Some(t) => t,
        None => return None,
    };
    let lines = split_char(text.as_str(), '\n');
    if lines.len() < 3 {
        return None;
    }
    proof {
        reveal_strlit("@rem nalias-lite-wrapper");
        reveal_strlit("@rem nalias-lite-command ");
    }
    let first = strip_cr_text(&lines[0]);
    assert(lines@[0]@ == split_on(text@, '\n')[0]);
    let first_text = crate::text::string_of(&first);
    if !crate::text::str_eq(first_text.as_str(), LITE_MARKER) {
        return None;
    }
    assert(lines@[2]@ == split_on(text@, '\n')[2]);
    let meta = strip_cr_text(&lines[2]);
    let plen: usize = 25;
    assert(meta_prefix().len() == 25);
    if !chars_eq(&meta, 0, "@rem nalias-lite-command ") {
        assert(meta@.len() < 25 || meta@.take(25) != meta_prefix()) by {
            if meta@.len() >= 25 {
                assert(meta@.take(25) =~= meta@.subrange(0, 25));
            }
        }
        return None;
    }
    assert(meta@.take(25) =~= meta@.subrange(0, 25));
    let mut hex = String::new();
    let mut i: usize = plen;
    assert(meta@.subrange(25, 25) =~= Seq::<char>::empty());
    while i < meta.len()
        invariant
            25 <= i <= meta@.len(),
            hex@ == meta@.subrange(25, i as int),
        decreases meta@.len() - i,
    {
        hex.push(meta[i]);
        assert(meta@.subrange(25, i + 1) =~= meta@.subrange(25, i as int).push(meta@[i as int]));
        i = i + 1;
    }
    assert(meta@.skip(25) =~= meta@.subrange(25, meta@.len() as int));
    match unhex(hex.as_str()) {
        Some(b) => utf8_text(b),
        None => None,
    }
}


proof fn lemma_hex_digits(b: Seq<u8>)
    ensures
        forall|i: int| 0 <= i < hex_spec(b).len() ==> hex_value(#[trigger] hex_spec(b)[i]) is Some,
        !hex_spec(b).contains('\n'),
        !hex_spec(b).contains('\r'),
    decreases b.len(),
{
    if b.len() > 0 {
        lemma_hex_digits(b.drop_last());
        let prev = hex_spec(b.drop_last());
        let t = hex_spec(b);
        assert forall|i: int| 0 <= i < t.len() implies hex_value(#[trigger] t[i]) is Some by {
            if i < prev.len() {
                assert(t[i] == prev[i]);
            }
        }
    }
    assert forall|c: char| c == '\n' || c == '\r' implies !hex_spec(b).contains(c) by {
        if hex_spec(b).contains(c) {
            let i = choose|i: int| 0 <= i < hex_spec(b).len() && hex_spec(b)[i] == c;
            assert(hex_value(hex_spec(b)[i]) is Some);
        }
    }
}

/// What `list` reads from a wrapper is the command that `add` wrote into it.
pub proof fn law_list_reads_added_command(command: Seq<char>)
    ensures
        lite_command_spec(lite_text_spec(command)) == Some(command),
{
    reveal_strlit("@rem nalias-lite-wrapper");
    reveal_strlit("@rem nalias-lite-command ");
    reveal_strlit("\r\n@echo off\r\n");
    reveal_strlit("\r\n");
    reveal_strlit(" %*\r\n");
    let bytes = vstd::utf8::encode_utf8(command);
    let h = hex_spec(bytes);
    lemma_hex_digits(bytes);
    let m = lite_marker().push('\r');
    let e = "@echo off"@.push('\r');
    let meta = (meta_prefix() + h).push('\r');
    let rest = command + " %*\r\n"@;
    reveal_strlit("@echo off");
    assert(lite_text_spec(command) =~= m.push('\n') + (e.push('\n') + (meta.push('\n') + rest)));
    assert(!m.contains('\n'));
    assert(!e.contains('\n'));
    assert(!meta.contains('\n')) by {
        if meta.contains('\n') {
            let i = choose|i: int| 0 <= i < meta.len() && meta[i] == '\n';
            if 25 <= i < 25 + h.len() {
                assert(h[i - 25] == '\n');
            }
        }
    }
    lemma_split_concat(m, e.push('\n') + (meta.push('\n') + rest), '\n');
    lemma_split_concat(e, meta.push('\n') + rest, '\n');
    lemma_split_concat(meta, rest, '\n');
    lemma_split_plain(m, '\n');
    lemma_split_plain(e, '\n');
    lemma_split_plain(meta, '\n');
    let lines = split_on(lite_text_spec(command), '\n');
    lemma_split_on_nonempty(rest, '\n');
    assert(lines == seq![m] + (seq![e] + (seq![meta] + split_on(rest, '\n'))));
    assert(lines[0] == m);
    assert(lines[2] == meta);
    assert(strip_cr(m) =~= lite_marker());
    assert(strip_cr(meta) =~= meta_prefix() + h);
    assert((meta_prefix() + h).take(25) =~= meta_prefix());
    assert((meta_prefix() + h).skip(25) =~= h);
    law_unhex_hex(bytes);
    vstd::utf8::encode_utf8_valid_utf8(command);
    vstd::utf8::encode_utf8_decode_utf8(command);
}

} // verus!
