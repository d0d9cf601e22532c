//! Fixed-width fields of the binary layouts: integers in either byte order
//! and NUL-padded names, read through a cursor on the bytes.

use byteorder::{BigEndian, ByteOrder, LittleEndian};
use std::str::Utf8Error;
use vstd::prelude::*;
use vstd::slice::slice_subrange;
use vstd::utf8::{
    decode_utf8, encode_utf8, encode_utf8_decode_utf8, encode_utf8_valid_utf8, is_ascii_chars,
    is_ascii_chars_encode_utf8, valid_utf8,
};

use crate::error::{fails_with, BMError, BMResult, Fault};

verus! {

/// The 16-bit number stored least significant byte first at `at`.
pub open spec fn u16_le(s: Seq<u8>, at: int) -> int {
    s[at] + 0x100 * s[at + 1]
}

/// The 32-bit number stored least significant byte first at `at`.
pub open spec fn u32_le(s: Seq<u8>, at: int) -> int {
    s[at] + 0x100 * s[at + 1] + 0x1_0000 * s[at + 2] + 0x100_0000 * s[at + 3]
}

/// The 32-bit number stored most significant byte first at `at`.
pub open spec fn u32_be(s: Seq<u8>, at: int) -> int {
    0x100_0000 * s[at] + 0x1_0000 * s[at + 1] + 0x100 * s[at + 2] + s[at + 3]
}

/// The 64-bit number stored most significant byte first at `at`.
pub open spec fn u64_be(s: Seq<u8>, at: int) -> int {
    0x1_0000_0000 * u32_be(s, at) + u32_be(s, at + 4)
}

/// `byteorder::LittleEndian::read_u16`: the first two bytes of `buf` as a
/// little-endian number. It panics on a shorter buffer.
#[verifier::external_body]
fn le_u16(buf: &[u8]) -> (v: u16)
    requires
        buf@.len() >= 2,
    ensures
        v == u16_le(buf@, 0),
{
    LittleEndian::read_u16(buf)
}

/// `byteorder::LittleEndian::read_u32`: the first four bytes of `buf` as a
/// little-endian number. It panics on a shorter buffer.
#[verifier::external_body]
fn le_u32(buf: &[u8]) -> (v: u32)
    requires
        buf@.len() >= 4,
    ensures
        v == u32_le(buf@, 0),
{
    LittleEndian::read_u32(buf)
}

/// `byteorder::BigEndian::read_u32`: the first four bytes of `buf` as a
/// big-endian number. It panics on a shorter buffer.
#[verifier::external_body]
fn be_u32(buf: &[u8]) -> (v: u32)
    requires
        buf@.len() >= 4,
    ensures
        v == u32_be(buf@, 0),
{
    BigEndian::read_u32(buf)
}

/// `byteorder::BigEndian::read_u64`: the first eight bytes of `buf` as a
/// big-endian number. It panics on a shorter buffer.
#[verifier::external_body]
fn be_u64(buf: &[u8]) -> (v: u64)
    requires
        buf@.len() >= 8,
    ensures
        v == u64_be(buf@, 0),
{
    BigEndian::read_u64(buf)
}

/// The message of every failure caused by input that ends too early.
pub open spec fn truncated_text() -> Seq<char> {
    "failed to fill whole buffer"@
}

/// The message of every failure caused by a name field that is not UTF-8.
pub open spec fn bad_name_text() -> Seq<char> {
    "invalid utf-8 sequence in name field"@
}

/// The fault of a name field that is not UTF-8.
pub open spec fn bad_name() -> Fault {
    Fault(bad_name_text())
}

/// The fault of input that ends too early.
pub open spec fn truncated() -> Fault {
    Fault(truncated_text())
}

/// The width in bytes of a name field.
pub const NAME_LEN: usize = 13;

/// `s` without the NUL characters at its end.
pub open spec fn without_trailing_nuls(s: Seq<char>) -> Seq<char>
    decreases s.len(),
{
    if s.len() > 0 && s.last() == '\0' {
        without_trailing_nuls(s.drop_last())
    } else {
        s
    }
}

/// The text of a NUL-padded name field that holds UTF-8.
pub open spec fn field_text(field: Seq<u8>) -> Seq<char> {
    without_trailing_nuls(decode_utf8(field))
}

/// `name` followed by `pad` NUL characters.
pub open spec fn nul_padded(name: Seq<char>, pad: nat) -> Seq<char> {
    name + Seq::new(pad, |i: int| '\0')
}

/// Stripping the padding of a padded name gives the name, if the name does
/// not itself end with a NUL.
pub proof fn lemma_padding_is_stripped(name: Seq<char>, pad: nat)
    requires
        name.len() > 0 ==> name.last() != '\0',
    ensures
        without_trailing_nuls(nul_padded(name, pad)) == name,
    decreases pad,
{
    if pad > 0 {
        assert(nul_padded(name, pad).drop_last() =~= nul_padded(name, (pad - 1) as nat));
        lemma_padding_is_stripped(name, (pad - 1) as nat);
    } else {
        assert(nul_padded(name, pad) =~= name);
    }
}

/// A field that holds the bytes of an ASCII name and then NUL bytes is
/// well-formed, and its text is the name.
pub proof fn lemma_padded_ascii_name(field: Seq<u8>, name: Seq<char>)
    requires
        is_ascii_chars(name),
        name.len() <= field.len(),
        name.len() > 0 ==> name.last() != '\0',
        forall|i: int| 0 <= i < name.len() ==> field[i] == name[i] as u8,
        forall|i: int| name.len() <= i < field.len() ==> field[i] == 0,
    ensures
        valid_utf8(field),
        field_text(field) == name,
{
    let pad = (field.len() - name.len()) as nat;
    let chars = nul_padded(name, pad);
    assert(is_ascii_chars(chars));
    is_ascii_chars_encode_utf8(chars);
    assert(encode_utf8(chars) =~= field) by {
        assert forall|i: int| 0 <= i < field.len() implies encode_utf8(chars)[i] == field[i] by {
            assert(chars[i] as u8 == encode_utf8(chars)[i]);
        }
    }
    encode_utf8_valid_utf8(chars);
    encode_utf8_decode_utf8(chars);
    lemma_padding_is_stripped(name, pad);
}

/// The upper-case form that the standard library gives a text.
pub uninterp spec fn uppercase_of(s: Seq<char>) -> Seq<char>;

/// The standard library's error for bytes that are not UTF-8.
#[verifier::external_type_specification]
#[verifier::external_body]
pub struct ExUtf8Error(Utf8Error);

/// `std::str::from_utf8`: the bytes as text if they are well-formed UTF-8,
/// and an error if they are not.
#[verifier::external_body]
fn utf8_text(bytes: &[u8]) -> (r: Result<&str, Utf8Error>)
    ensures
        r is Ok <==> valid_utf8(bytes@),
        r matches Ok(s) ==> s@ == decode_utf8(bytes@),
{
    std::str::from_utf8(bytes)
}

/// `str::trim_end_matches` with the NUL character as its pattern: every
/// NUL at the end is removed.
#[verifier::external_body]
fn trim_nuls(s: &str) -> (r: &str)
    ensures
        r@ == without_trailing_nuls(s@),
{
    s.trim_end_matches('\0')
}

/// `str::to_uppercase`: the text in upper case, as Unicode defines it.
#[verifier::external_body]
pub(crate) fn uppercase(s: &str) -> (r: String)
    ensures
        r@ == uppercase_of(s@),
{
    s.to_uppercase()
}

/// `str::starts_with` with a string as its pattern: whether `s` begins
/// with `prefix`.
#[verifier::external_body]
pub(crate) fn starts_with(s: &str, prefix: &str) -> (b: bool)
    ensures
        b == prefix@.is_prefix_of(s@),
{
    s.starts_with(prefix)
}

/// `str::ends_with` with a string as its pattern: whether `s` ends with
/// `suffix`.
#[verifier::external_body]
pub(crate) fn ends_with(s: &str, suffix: &str) -> (b: bool)
    ensures
        b == suffix@.is_suffix_of(s@),
{
    s.ends_with(suffix)
}

/// The text of a name field, without its padding. Where the field is not
/// UTF-8, the failure says so in the library's own words, whatever the
/// place at which the bytes go wrong.
pub fn name_of_field(field: &[u8]) -> (r: BMResult<String>)
    ensures
        match r {
            Ok(name) => valid_utf8(field@) && name@ == field_text(field@),
            Err(e) => !valid_utf8(field@) && e.message() == bad_name_text(),
        },
{
    match utf8_text(field) {
        Ok(text) => Ok(trim_nuls(text).to_owned()),
        Err(_) => Err(BMError::loading("invalid utf-8 sequence in name field")),
    }
}

/// The text of the name field at `at`.
pub open spec fn name_at(data: Seq<u8>, at: int) -> Seq<char> {
    field_text(data.subrange(at, at + NAME_LEN))
}

/// Why the name field at `at` cannot be read, if it cannot.
pub open spec fn name_fault_at(data: Seq<u8>, at: int) -> Option<Fault> {
    if at + NAME_LEN > data.len() {
        Some(truncated())
    } else if !valid_utf8(data.subrange(at, at + NAME_LEN)) {
        Some(bad_name())
    } else {
        None
    }
}

/// A read position in a borrowed byte buffer. Several cursors may walk the
/// same buffer independently.
pub struct Cursor<'a> {
    pub data: &'a [u8],
    pub pos: usize,
}

impl<'a> Cursor<'a> {
    /// Whether `n` more bytes can be read.
    pub open spec fn has(&self, n: int) -> bool {
        self.pos + n <= self.data@.len()
    }

    /// The name field at the cursor.
    pub open spec fn name_here(&self) -> Seq<char> {
        name_at(self.data@, self.pos as int)
    }

    /// Why no name can be read at the cursor, if none can.
    pub open spec fn name_fault(&self) -> Option<Fault> {
        name_fault_at(self.data@, self.pos as int)
    }

    /// A cursor on `data` at offset `pos`, which may lie past the end.
    pub fn new(data: &'a [u8], pos: usize) -> (c: Cursor<'a>)
        ensures
            c.data == data,
            c.pos == pos,
    {
        Cursor { data, pos }
    }

    /// Takes the next `n` bytes, or fails and stays where it was.
    pub fn take(&mut self, n: usize) -> (r: BMResult<&'a [u8]>)
        ensures
            final(self).data == old(self).data,
            match r {
                Ok(s) => old(self).has(n as int) && final(self).pos == old(self).pos + n && s@
                    == old(self).data@.subrange(old(self).pos as int, old(self).pos + n),
                Err(e) => !old(self).has(n as int) && final(self).pos == old(self).pos
                    && e.message() == truncated_text(),
            },
    {
        let len = self.data.len();
        if self.pos > len || n > len - self.pos {
            return Err(BMError::loading("failed to fill whole buffer"));
        }
        let s = slice_subrange(self.data, self.pos, self.pos + n);
        self.pos = self.pos + n;
        Ok(s)
    }

    /// Reads a name field and strips its padding.
    pub fn name(&mut self) -> (r: BMResult<String>)
        ensures
            final(self).data == old(self).data,
            match r {
                Ok(name) => old(self).has(NAME_LEN as int) && final(self).pos == old(self).pos
                    + NAME_LEN && name@ == old(self).name_here(),
                Err(e) => final(self).pos == old(self).pos && fails_with(
                    r,
                    old(self).name_fault().unwrap(),
                ),
            },
            r is Ok <==> old(self).name_fault() is None,
    {
        let before = self.pos;
        let field = self.take(NAME_LEN)?;
        match name_of_field(field) {
            Ok(name) => Ok(name),
            Err(e) => {
                self.pos = before;
                Err(e)
            },
        }
    }

    /// Reads one byte.
    pub fn u8(&mut self) -> (r: BMResult<u8>)
        ensures
            final(self).data == old(self).data,
            match r {
                Ok(v) => old(self).has(1) && final(self).pos == old(self).pos + 1 && v
                    == old(self).data@[old(self).pos as int],
                Err(e) => !old(self).has(1) && final(self).pos == old(self).pos && e.message()
                    == truncated_text(),
            },
    {
        let s = self.take(1)?;
        Ok(s[0])
    }

    /// Reads a little-endian 16-bit number.
    pub fn u16_le(&mut self) -> (r: BMResult<u16>)
        ensures
            final(self).data == old(self).data,
            match r {
                Ok(v) => old(self).has(2) && final(self).pos == old(self).pos + 2 && v == u16_le(
                    old(self).data@,
                    old(self).pos as int,
                ),
                Err(e) => !old(self).has(2) && final(self).pos == old(self).pos && e.message()
                    == truncated_text(),
            },
    {
        let s = self.take(2)?;
        Ok(le_u16(s))
    }

    /// Reads a little-endian 32-bit number.
    pub fn u32_le(&mut self) -> (r: BMResult<u32>)
        ensures
            final(self).data == old(self).data,
            match r {
                Ok(v) => old(self).has(4) && final(self).pos == old(self).pos + 4 && v == u32_le(
                    old(self).data@,
                    old(self).pos as int,
                ),
                Err(e) => !old(self).has(4) && final(self).pos == old(self).pos && e.message()
                    == truncated_text(),
            },
    {
        let s = self.take(4)?;
        Ok(le_u32(s))
    }

    /// Reads a big-endian 32-bit number.
    pub fn u32_be(&mut self) -> (r: BMResult<u32>)
        ensures
            final(self).data == old(self).data,
            match r {
                Ok(v) => old(self).has(4) && final(self).pos == old(self).pos + 4 && v == u32_be(
                    old(self).data@,
                    old(self).pos as int,
                ),
                Err(e) => !old(self).has(4) && final(self).pos == old(self).pos && e.message()
                    == truncated_text(),
            },
    {
        let s = self.take(4)?;
        Ok(be_u32(s))
    }

    /// Reads a big-endian 64-bit number.
    pub fn u64_be(&mut self) -> (r: BMResult<u64>)
        ensures
            final(self).data == old(self).data,
            match r {
                Ok(v) => old(self).has(8) && final(self).pos == old(self).pos + 8 && v == u64_be(
                    old(self).data@,
                    old(self).pos as int,
                ),
                Err(e) => !old(self).has(8) && final(self).pos == old(self).pos && e.message()
                    == truncated_text(),
            },
    {
        let s = self.take(8)?;
        Ok(be_u64(s))
    }
}

} // verus!
