//! Operations on the user's environment that only Windows provides; these are
//! the answers given where no Windows backend is available.

use vstd::prelude::*;

use crate::error::{NaliasError, Result};
use crate::text::replace_all;

verus! {

pub open spec fn path_unavailable() -> Seq<char> {
    "user PATH integration is only available on Windows"@
}

pub fn user_path() -> (r: Result<String>)
    ensures
        r matches Err(NaliasError::Installation(m)) && m@ == path_unavailable(),
{
    Err(NaliasError::Installation("user PATH integration is only available on Windows".to_owned()))
}

pub fn set_user_path(value: &str) -> (r: Result<()>)
    ensures
        r matches Err(NaliasError::Installation(m)) && m@ == path_unavailable(),
{
    Err(NaliasError::Installation("user PATH integration is only available on Windows".to_owned()))
}

pub fn broadcast_environment_change() -> (r: Result<()>)
    ensures
        r is Ok,
{
    Ok(())
}

pub fn defer_delete(path: &str, cleanup_root: &str) -> (r: Result<()>)
    ensures
        r matches Err(NaliasError::Installation(m)) && m@
            == "deferred deletion is only available on Windows"@,
{
    Err(NaliasError::Installation("deferred deletion is only available on Windows".to_owned()))
}

/// A path made safe inside a CMD script (`%` doubled).
pub open spec fn script_escaped(p: Seq<char>) -> Seq<char> {
    crate::text::replace_char(p, '%', "%%"@)
}

/// The self-deleting CMD script that removes `path` once it is no longer in
/// use (ten tries a second apart), then the emptied directories `parent` and
/// `root`, then itself.
pub open spec fn cleanup_script_text(path: Seq<char>, parent: Seq<char>, root: Seq<char>) -> Seq<char> {
    let p = script_escaped(path);
    "@echo off\r\nfor /L %%N in (1,1,10) do (\r\n  del /f /q \""@ + p + "\" >nul 2>&1\r\n  if not exist \""@
        + p + "\" goto done\r\n  ping 127.0.0.1 -n 2 >nul\r\n)\r\n:done\r\nrmdir \""@ + script_escaped(parent)
        + "\" >nul 2>&1\r\nrmdir \""@ + script_escaped(root)
        + "\" >nul 2>&1\r\ndel /f /q \"%~f0\" >nul 2>&1\r\n"@
}

/// Builds the deferred-cleanup script for the installed executable.
pub fn cleanup_script(path: &str, parent: &str, root: &str) -> (r: String)
    ensures
        r@ == cleanup_script_text(path@, parent@, root@),
{
    let escaped_path = replace_all(path, '%', "%%");
    let escaped_parent = replace_all(parent, '%', "%%");
    let escaped_root = replace_all(root, '%', "%%");
    let mut r = "@echo off\r\nfor /L %%N in (1,1,10) do (\r\n  del /f /q \"".to_owned();
    r.append(escaped_path.as_str());
    r.append("\" >nul 2>&1\r\n  if not exist \"");
    r.append(escaped_path.as_str());
    r.append("\" goto done\r\n  ping 127.0.0.1 -n 2 >nul\r\n)\r\n:done\r\nrmdir \"");
    r.append(escaped_parent.as_str());
    r.append("\" >nul 2>&1\r\nrmdir \"");
    r.append(escaped_root.as_str());
    r.append("\" >nul 2>&1\r\ndel /f /q \"%~f0\" >nul 2>&1\r\n");
    r
}


/// UTF-16 decoding: units outside the surrogate range stand for themselves, a
/// high surrogate followed by a low one for a supplementary character, and any
/// other surrogate makes the text invalid.
pub open spec fn utf16_decode(units: Seq<u16>) -> Option<Seq<char>>
    decreases units.len(),
{
    if units.len() == 0 {
        Some(Seq::<char>::empty())
    } else if units[0] < 0xD800 || units[0] > 0xDFFF {
        match utf16_decode(units.drop_first()) {
            Some(t) => Some(seq![(units[0] as int) as char] + t),
            None => None,
        }
    } else if units[0] <= 0xDBFF && units.len() >= 2 && 0xDC00 <= units[1] && units[1] <= 0xDFFF {
        let c = 0x10000 + (units[0] - 0xD800) * 0x400 + (units[1] - 0xDC00);
        match utf16_decode(units.skip(2)) {
            Some(t) => Some(seq![c as char] + t),
            None => None,
        }
    } else {
        None
    }
}

#[verifier::external_type_specification]
#[verifier::external_body]
pub struct ExFromUtf16Error(std::string::FromUtf16Error);

/// Calls `String::from_utf16`, which decodes UTF-16 and fails on invalid data.
#[verifier::external_body]
fn from_utf16(units: &[u16]) -> (r: std::result::Result<String, std::string::FromUtf16Error>)
    ensures
        match r {
            Ok(s) => utf16_decode(units@) == Some(s@),
            Err(_) => utf16_decode(units@) is None,
        },
{
    String::from_utf16(units)
}

/// The description of an invalid UTF-16 text (`FromUtf16Error`'s `Display`).
#[verifier::external_body]
fn utf16_error_text(e: &std::string::FromUtf16Error) -> String {
    e.to_string()
}

/// The 16-bit units stored in registry data: little-endian pairs of bytes,
/// up to the first NUL unit (an odd last byte is ignored).
pub open spec fn registry_units(data: Seq<u8>) -> Seq<u16>
    decreases data.len(),
{
    if data.len() < 2 {
        Seq::<u16>::empty()
    } else {
        let unit = (data[0] as int + data[1] as int * 256) as u16;
        if unit == 0 {
            Seq::<u16>::empty()
        } else {
            seq![unit] + registry_units(data.skip(2))
        }
    }
}

/// The text of a registry string value read as raw bytes.
pub fn decode_registry_text(data: &[u8]) -> (r: Result<String>)
    ensures
        match utf16_decode(registry_units(data@)) {
            Some(t) => r matches Ok(s) && s@ == t,
            None => r matches Err(NaliasError::Installation(m)) && m@.take(35)
                == "the user PATH is not valid UTF-16: "@,
        },
{
    let mut units: Vec<u16> = Vec::new();
    let mut i: usize = 0;
    let mut done = false;
    assert(data@.skip(0) =~= data@);
    assert(units@ + registry_units(data@.skip(0)) =~= registry_units(data@));
    while !done && i < data.len() && data.len() - i >= 2
        invariant
            i <= data@.len(),
            done ==> units@ == registry_units(data@),
            !done ==> units@ + registry_units(data@.skip(i as int)) == registry_units(data@),
        decreases data@.len() - i + if done { 0int } else { 1int },
    {
        let unit: u16 = (data[i] as u16) + (data[i + 1] as u16) * 256;
        let ghost rest = data@.skip(i as int);
        assert(rest[0] == data@[i as int] && rest[1] == data@[i + 1]);
        if unit == 0 {
            assert(registry_units(rest) =~= Seq::<u16>::empty());
            assert(units@ =~= registry_units(data@));
            done = true;
        } else {
            assert(rest.skip(2) =~= data@.skip(i + 2));
            units.push(unit);
            assert(units@ + registry_units(data@.skip(i + 2)) =~= registry_units(data@));
            i = i + 2;
        }
    }
    proof {
        if !done {
            assert(registry_units(data@.skip(i as int)) =~= Seq::<u16>::empty());
            assert(units@ =~= registry_units(data@));
        }
    }
    match from_utf16(units.as_slice()) {
        Ok(s) => Ok(s),
        Err(e) => {
            let mut m = "the user PATH is not valid UTF-16: ".to_owned();
            proof {
                reveal_strlit("the user PATH is not valid UTF-16: ");
            }
            let ghost head = m@;
            let detail = utf16_error_text(&e);
            m.append(detail.as_str());
            assert(m@.take(35) =~= head);
            Err(NaliasError::Installation(m))
        },
    }
}

pub open spec fn path_too_large() -> Seq<char> {
    "the resulting user PATH is too large"@
}

/// The byte size of a registry string of `units` 16-bit units, refused when it
/// does not fit the registry's 32-bit size.
pub fn registry_byte_size(units: usize) -> (r: Result<u32>)
    ensures
        units * 2 <= u32::MAX ==> r == Ok::<u32, NaliasError>((units * 2) as u32),
        units * 2 > u32::MAX ==> (r matches Err(NaliasError::Installation(m)) && m@ == path_too_large()),
{
    if units > 0x7fff_ffff {
        return Err(NaliasError::Installation("the resulting user PATH is too large".to_owned()));
    }
    let bytes: usize = units * 2;
    Ok(bytes as u32)
}


/// The UTF-16 encoding of `s`: a character below U+10000 is one unit, any
/// other a high surrogate and a low surrogate.
pub open spec fn utf16_encode(s: Seq<char>) -> Seq<u16>
    decreases s.len(),
{
    if s.len() == 0 {
        Seq::<u16>::empty()
    } else {
        utf16_units(s[0]) + utf16_encode(s.drop_first())
    }
}

/// The UTF-16 units of one character.
pub open spec fn utf16_units(ch: char) -> Seq<u16> {
    let c = ch as u32 as int;
    if c < 0x10000 {
        seq![c as u16]
    } else {
        seq![(0xD800 + (c - 0x10000) / 0x400) as u16, (0xDC00 + (c - 0x10000) % 0x400) as u16]
    }
}

proof fn lemma_utf16_encode_push(s: Seq<char>, ch: char)
    ensures
        utf16_encode(s.push(ch)) == utf16_encode(s) + utf16_units(ch),
    decreases s.len(),
{
    if s.len() == 0 {
        assert(s.push(ch).drop_first() =~= Seq::<char>::empty());
        assert(s.push(ch)[0] == ch);
        assert(utf16_encode(Seq::<char>::empty()) == Seq::<u16>::empty());
        assert(utf16_encode(s) == Seq::<u16>::empty());
        assert(utf16_encode(s.push(ch)) == utf16_units(ch) + utf16_encode(s.push(ch).drop_first()));
        assert(utf16_units(ch) + Seq::<u16>::empty() =~= utf16_units(ch));
        assert(Seq::<u16>::empty() + utf16_units(ch) =~= utf16_units(ch));
    } else {
        assert(s.push(ch).drop_first() =~= s.drop_first().push(ch));
        lemma_utf16_encode_push(s.drop_first(), ch);
        assert(s.push(ch)[0] == s[0]);
        assert(utf16_encode(s.push(ch)) == utf16_units(s[0]) + utf16_encode(s.push(ch).drop_first()));
        assert(utf16_units(s[0]) + (utf16_encode(s.drop_first()) + utf16_units(ch)) =~= (
        utf16_units(s[0]) + utf16_encode(s.drop_first())) + utf16_units(ch));
    }
}

/// The registry data for `value`: its UTF-16 units and a terminating NUL
/// unit, as stored in a `REG_EXPAND_SZ` value.
pub fn registry_units_of(value: &str) -> (r: Vec<u16>)
    ensures
        r@ == utf16_encode(value@).push(0),
{
    let chars = crate::text::chars_of(value);
    let mut r: Vec<u16> = Vec::new();
    let mut i: usize = 0;
    assert(value@.take(0) =~= Seq::<char>::empty());
    while i < chars.len()
        invariant
            i <= chars@.len(),
            chars@ == value@,
            r@ == utf16_encode(value@.take(i as int)),
        decreases chars@.len() - i,
    {
        let ch = chars[i];
        proof {
            assert(value@.take(i + 1) =~= value@.take(i as int).push(ch));
            lemma_utf16_encode_push(value@.take(i as int), ch);
        }
        let c: u32 = ch as u32;
        proof {
            vstd::utf8::char_is_scalar(ch);
        }
        if c < 0x10000 {
            r.push(c as u16);
        } else {
            let v: u32 = c - 0x10000;
            r.push((0xD800 + v / 0x400) as u16);
            r.push((0xDC00 + v % 0x400) as u16);
        }
        assert(r@ =~= utf16_encode(value@.take(i as int)) + utf16_units(ch));
        i = i + 1;
    }
    assert(value@.take(chars@.len() as int) =~= value@);
    r.push(0);
    r
}

/// 16-bit units as little-endian byte pairs, as the registry stores them.
pub open spec fn le_bytes(units: Seq<u16>) -> Seq<u8>
    decreases units.len(),
{
    if units.len() == 0 {
        Seq::<u8>::empty()
    } else {
        seq![(units[0] % 256) as u8, (units[0] / 256) as u8] + le_bytes(units.drop_first())
    }
}

proof fn lemma_registry_units_le(units: Seq<u16>)
    requires
        forall|i: int| 0 <= i < units.len() ==> units[i] != 0,
    ensures
        registry_units(le_bytes(units.push(0))) == units,
    decreases units.len(),
{
    let data = le_bytes(units.push(0));
    if units.len() == 0 {
        assert(units.push(0).drop_first() =~= Seq::<u16>::empty());
        assert(le_bytes(Seq::<u16>::empty()) == Seq::<u8>::empty());
        assert(units.push(0)[0] == 0);
        assert(data =~= seq![0u8, 0u8]);
    } else {
        let u = units[0];
        let rest = units.drop_first();
        assert(units.push(0).drop_first() =~= rest.push(0));
        assert(units.push(0)[0] == u);
        assert(data == seq![(u % 256) as u8, (u / 256) as u8] + le_bytes(rest.push(0)));
        assert(((u % 256) as u8 as int + (u / 256) as u8 as int * 256) as u16 == u);
        assert(data.skip(2) =~= le_bytes(rest.push(0)));
        lemma_registry_units_le(rest);
        assert(seq![u] + rest =~= units);
    }
}

proof fn lemma_utf16_round_trip(s: Seq<char>)
    requires
        !s.contains('\0'),
    ensures
        utf16_decode(utf16_encode(s)) == Some(s),
        forall|i: int| 0 <= i < utf16_encode(s).len() ==> utf16_encode(s)[i] != 0,
    decreases s.len(),
{
    if s.len() > 0 {
        let rest = s.drop_first();
        assert(!rest.contains('\0')) by {
            if rest.contains('\0') {
                let j = choose|j: int| 0 <= j < rest.len() && rest[j] == '\0';
                assert(s[j + 1] == '\0');
            }
        }
        lemma_utf16_round_trip(rest);
        let c = s[0] as u32 as int;
        vstd::utf8::char_is_scalar(s[0]);
        vstd::utf8::char_u32_cast(s[0], s[0] as u32);
        assert(s[0] != '\0') by {
            assert(s[0] == s[0]);
        }
        let e = utf16_encode(s);
        let t = utf16_encode(rest);
        if c < 0x10000 {
            assert(e == seq![c as u16] + t);
            assert(e.drop_first() =~= t);
            assert(c < 0xD800 || c > 0xDFFF);
            assert((c as u16) as int == c);
            assert((s[0] as u32) as char == s[0]);
            assert(c as char == s[0]);
            assert(seq![s[0]] + rest =~= s);
        } else {
            let hi = (0xD800 + (c - 0x10000) / 0x400) as u16;
            let lo = (0xDC00 + (c - 0x10000) % 0x400) as u16;
            assert(c <= 0x10FFFF);
            assert(e == seq![hi, lo] + t);
            assert(e.skip(2) =~= t);
            assert(0x10000 + (hi - 0xD800) * 0x400 + (lo - 0xDC00) == c);
            assert(seq![s[0]] + rest =~= s);
        }
    }
}

/// What `set_user_path` writes, `user_path` reads back: the registry data that
/// `registry_units_of` gives for a text without NUL characters (its UTF-16
/// units and a terminating NUL unit), stored as little-endian bytes, is
/// decoded by `decode_registry_text` to that text.
pub proof fn law_registry_text_round_trip(s: Seq<char>)
    requires
        !s.contains('\0'),
    ensures
        utf16_decode(registry_units(le_bytes(utf16_encode(s).push(0)))) == Some(s),
{
    lemma_utf16_round_trip(s);
    lemma_registry_units_le(utf16_encode(s));
}

} // verus!
