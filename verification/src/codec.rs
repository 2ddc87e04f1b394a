//! The binary form of one log record.
//!
//! A record is a four-byte little-endian tag followed by the command's
//! strings. A string is its UTF-8 length as eight little-endian bytes, then
//! its UTF-8 bytes. Records carry their own lengths, so a log is just their
//! concatenation.

use crate::command::{Command, CommandView};
use crate::error::KvsError;
use vstd::bytes::{
    lemma_auto_spec_u32_to_from_le_bytes, lemma_auto_spec_u64_to_from_le_bytes,
    spec_u32_from_le_bytes, spec_u32_to_le_bytes, spec_u64_from_le_bytes, spec_u64_to_le_bytes,
};
use vstd::prelude::*;
use vstd::slice::slice_subrange;
use vstd::string::StringSliceAdditionalSpecFns;
use vstd::utf8::{
    decode_utf8, decode_utf8_encode_utf8, encode_utf8, encode_utf8_decode_utf8,
    encode_utf8_valid_utf8, valid_utf8,
};

verus! {

/// Tag of a `Put` record.
pub const PUT_TAG: u32 = 0;

/// Tag of a `Remove` record.
pub const REMOVE_TAG: u32 = 1;

/// Whether the string's UTF-8 length fits the eight-byte length field.
pub open spec fn fits(s: Seq<char>) -> bool {
    encode_utf8(s).len() <= u64::MAX
}

/// Whether every string of the command fits its length field.
pub open spec fn encodable(c: CommandView) -> bool {
    match c {
        CommandView::Put { key, value } => fits(key) && fits(value),
        CommandView::Remove { key } => fits(key),
    }
}

/// The bytes of one string: length field, then UTF-8.
pub open spec fn str_bytes(s: Seq<char>) -> Seq<u8> {
    spec_u64_to_le_bytes(encode_utf8(s).len() as u64) + encode_utf8(s)
}

/// The bytes of one record.
pub open spec fn record_bytes(c: CommandView) -> Seq<u8> {
    match c {
        CommandView::Put { key, value } => spec_u32_to_le_bytes(PUT_TAG) + str_bytes(key)
            + str_bytes(value),
        CommandView::Remove { key } => spec_u32_to_le_bytes(REMOVE_TAG) + str_bytes(key),
    }
}

/// Reads one string from the front of `bytes`: the string and the number of
/// bytes it occupies, or `None` where the bytes end too early or are not
/// UTF-8.
pub open spec fn parse_str(bytes: Seq<u8>) -> Option<(Seq<char>, int)> {
    if bytes.len() < 8 {
        None
    } else {
        let n = spec_u64_from_le_bytes(bytes.subrange(0, 8)) as int;
        if n > bytes.len() - 8 || !valid_utf8(bytes.subrange(8, 8 + n)) {
            None
        } else {
            Some((decode_utf8(bytes.subrange(8, 8 + n)), 8 + n))
        }
    }
}

/// Reads one record from the front of `bytes`: the command and the number of
/// bytes it occupies, or `None` where no complete record stands there.
pub open spec fn parse_record(bytes: Seq<u8>) -> Option<(CommandView, int)> {
    if bytes.len() < 4 {
        None
    } else {
        let tag = spec_u32_from_le_bytes(bytes.subrange(0, 4));
        if tag == PUT_TAG {
            match parse_str(bytes.skip(4)) {
                Some((key, n)) => match parse_str(bytes.skip(4 + n)) {
                    Some((value, m)) => Some((CommandView::Put { key, value }, 4 + n + m)),
                    None => None,
                },
                None => None,
            }
        } else if tag == REMOVE_TAG {
            match parse_str(bytes.skip(4)) {
                Some((key, n)) => Some((CommandView::Remove { key }, 4 + n)),
                None => None,
            }
        } else {
            None
        }
    }
}

/// `bincode::serialize` on a `u32`: always succeeds, with the value's four
/// bytes, least significant first.
#[verifier::external_body]
fn bincode_u32(value: u32) -> (r: Result<Vec<u8>, Box<bincode::ErrorKind>>)
    ensures
        match r {
            Ok(b) => b@ == spec_u32_to_le_bytes(value),
            Err(_) => false,
        },
{
    bincode::serialize(&value)
}

/// `bincode::serialize` on a `str`: always succeeds, with the length of the
/// string's UTF-8 form as eight bytes, least significant first, followed by
/// that form.
#[verifier::external_body]
fn bincode_str(s: &str) -> (r: Result<Vec<u8>, Box<bincode::ErrorKind>>)
    ensures
        match r {
            Ok(b) => b@ == str_bytes(s@),
            Err(_) => false,
        },
{
    bincode::serialize(s)
}

/// `bincode::deserialize` to a `u32`: reads the first four bytes, least
/// significant first, and ignores what follows; fails where fewer than four
/// bytes are given.
#[verifier::external_body]
fn bincode_read_u32(bytes: &[u8]) -> (r: Result<u32, Box<bincode::ErrorKind>>)
    ensures
        match r {
            Ok(v) => bytes@.len() >= 4 && v == spec_u32_from_le_bytes(bytes@.subrange(0, 4)),
            Err(_) => bytes@.len() < 4,
        },
{
    bincode::deserialize::<u32>(bytes)
}

/// `bincode::deserialize` to a `String`: reads an eight-byte length, least
/// significant first, then that many bytes as UTF-8, and ignores what
/// follows; fails where the bytes end before that or are not UTF-8.
#[verifier::external_body]
fn bincode_read_string(bytes: &[u8]) -> (r: Result<String, Box<bincode::ErrorKind>>)
    ensures
        match parse_str(bytes@) {
            Some((chars, _)) => match r {
                Ok(s) => s@ == chars,
                Err(_) => false,
            },
            None => r is Err,
        },
{
    bincode::deserialize::<String>(bytes)
}

/// Builds `bincode::ErrorKind::InvalidTagEncoding` for a tag that names no
/// command.
#[verifier::external_body]
fn invalid_tag(tag: u32) -> Box<bincode::ErrorKind> {
    Box::new(bincode::ErrorKind::InvalidTagEncoding(tag as usize))
}


/// A string written by `str_bytes` reads back as itself, whatever follows it.
pub proof fn lemma_parse_str_bytes(s: Seq<char>, rest: Seq<u8>)
    requires
        fits(s),
    ensures
        str_bytes(s).len() == 8 + encode_utf8(s).len(),
        parse_str(str_bytes(s) + rest) == Some((s, str_bytes(s).len() as int)),
{
    lemma_auto_spec_u64_to_from_le_bytes();
    encode_utf8_valid_utf8(s);
    encode_utf8_decode_utf8(s);
    let payload = encode_utf8(s);
    let head = spec_u64_to_le_bytes(payload.len() as u64);
    let all = str_bytes(s) + rest;
    assert(all.subrange(0, 8) =~= head);
    assert(all.subrange(8, 8 + payload.len() as int) =~= payload);
}

/// Decoding undoes encoding: a record written by `record_bytes` reads back as
/// the command it was written from, and as long as it was written, whatever
/// follows it.
pub proof fn lemma_parse_record_bytes(c: CommandView, rest: Seq<u8>)
    requires
        encodable(c),
    ensures
        record_bytes(c).len() >= 12,
        parse_record(record_bytes(c) + rest) == Some((c, record_bytes(c).len() as int)),
{
    lemma_auto_spec_u32_to_from_le_bytes();
    let all = record_bytes(c) + rest;
    match c {
        CommandView::Put { key, value } => {
            let tag = spec_u32_to_le_bytes(PUT_TAG);
            lemma_parse_str_bytes(key, str_bytes(value) + rest);
            lemma_parse_str_bytes(value, rest);
            assert(all.subrange(0, 4) =~= tag);
            assert(all.skip(4) =~= str_bytes(key) + (str_bytes(value) + rest));
            assert(all.skip(4 + str_bytes(key).len() as int) =~= str_bytes(value) + rest);
        },
        CommandView::Remove { key } => {
            let tag = spec_u32_to_le_bytes(REMOVE_TAG);
            lemma_parse_str_bytes(key, rest);
            assert(all.subrange(0, 4) =~= tag);
            assert(all.skip(4) =~= str_bytes(key) + rest);
        },
    }
}

/// Encodes one string.
fn encode_str(s: &str) -> (r: Result<Vec<u8>, KvsError>)
    ensures
        fits(s@),
        r matches Ok(b) && b@ == str_bytes(s@),
{
    match bincode_str(s) {
        Ok(b) => {
            let total: usize = b.len();
            proof {
                lemma_auto_spec_u64_to_from_le_bytes();
                assert(total == 8 + encode_utf8(s@).len());
            }
            Ok(b)
        },
        Err(e) => Err(KvsError::Serde(e)),
    }
}

/// Encodes one command as a log record. Encoding never fails.
pub fn encode(command: &Command) -> (r: Result<Vec<u8>, KvsError>)
    ensures
        encodable(command@),
        r matches Ok(b) && b@ == record_bytes(command@),
{
    match command {
        Command::Put { key, value } => {
            let mut out = match bincode_u32(PUT_TAG) {
                Ok(b) => b,
                Err(e) => { return Err(KvsError::Serde(e)); },
            };
            let mut k = match encode_str(key.as_str()) {
                Ok(b) => b,
                Err(e) => { return Err(e); },
            };
            let mut v = match encode_str(value.as_str()) {
                Ok(b) => b,
                Err(e) => { return Err(e); },
            };
            out.append(&mut k);
            out.append(&mut v);
            Ok(out)
        },
        Command::Remove { key } => {
            let mut out = match bincode_u32(REMOVE_TAG) {
                Ok(b) => b,
                Err(e) => { return Err(KvsError::Serde(e)); },
            };
            let mut k = match encode_str(key.as_str()) {
                Ok(b) => b,
                Err(e) => { return Err(e); },
            };
            out.append(&mut k);
            Ok(out)
        },
    }
}

/// Decodes one string from the front of `bytes`, with the number of bytes it
/// occupies.
fn decode_str(bytes: &[u8]) -> (r: Result<(String, usize), KvsError>)
    ensures
        match parse_str(bytes@) {
            Some((chars, n)) => r matches Ok((s, used)) && s@ == chars && used == n,
            None => r matches Err(e) && e is Serde,
        },
{
    match bincode_read_string(bytes) {
        Ok(s) => {
            let payload_len: usize = s.as_str().as_bytes().len();
            let available: usize = bytes.len();
            proof {
                assert(parse_str(bytes@) is Some);
                let n = spec_u64_from_le_bytes(bytes@.subrange(0, 8)) as int;
                let payload = bytes@.subrange(8, 8 + n);
                decode_utf8_encode_utf8(payload);
                assert(encode_utf8(s@) == payload);
                assert(payload_len == n);
                assert(8 + n <= available);
            }
            Ok((s, 8 + payload_len))
        },
        Err(e) => Err(KvsError::Serde(e)),
    }
}

/// Decodes the record at the front of `bytes`: the command and the number of
/// bytes it occupies. Fails with `Serde` exactly where no complete record
/// stands there: the bytes end inside it, its tag names no command, or a
/// string in it is not UTF-8.
pub fn decode(bytes: &[u8]) -> (r: Result<(Command, usize), KvsError>)
    ensures
        match parse_record(bytes@) {
            Some((c, n)) => r matches Ok((command, used)) && command@ == c && used == n,
            None => r matches Err(e) && e is Serde,
        },
{
    let tag: u32 = match bincode_read_u32(bytes) {
        Ok(t) => t,
        Err(e) => { return Err(KvsError::Serde(e)); },
    };
    let after_tag = slice_subrange(bytes, 4, bytes.len());
    assert(after_tag@ == bytes@.skip(4));
    if tag == PUT_TAG {
        let (key, n) = match decode_str(after_tag) {
            Ok(found) => found,
            Err(e) => { return Err(e); },
        };
        let after_key = slice_subrange(bytes, 4 + n, bytes.len());
        assert(after_key@ == bytes@.skip(4 + n));
        let (value, m) = match decode_str(after_key) {
            Ok(found) => found,
            Err(e) => { return Err(e); },
        };
        Ok((Command::Put { key, value }, 4 + n + m))
    } else if tag == REMOVE_TAG {
        let (key, n) = match decode_str(after_tag) {
            Ok(found) => found,
            Err(e) => { return Err(e); },
        };
        Ok((Command::Remove { key }, 4 + n))
    } else {
        Err(KvsError::Serde(invalid_tag(tag)))
    }
}

} // verus!
