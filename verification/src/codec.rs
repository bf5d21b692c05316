//! The layout of one record and the reading of one record.
//!
//! A record is an identifier and a payload, each written as its length in
//! UTF-8, as eight bytes with the least significant first, followed by its
//! UTF-8 bytes. Nothing stands before, between or after the two.

use vstd::bytes::*;
use vstd::prelude::*;
use vstd::slice::*;
use vstd::string::*;
use vstd::utf8::*;

verus! {

/// Why a snapshot could not be read to its end.
#[derive(Debug, Clone, Copy, PartialEq, Eq, Structural)]
pub enum LoadError {
    /// The file could not be opened or read, or it stops inside a record.
    Io,
    /// The bytes of an identifier or of a payload are not UTF-8.
    Decode,
}

/// The length of the text in UTF-8 can be written in the eight bytes that a
/// record has for it.
pub open spec fn fits(text: Seq<char>) -> bool {
    encode_utf8(text).len() <= u64::MAX
}

/// The eight bytes that announce a text of `len` bytes.
pub open spec fn length_prefix(len: nat) -> Seq<u8> {
    spec_u64_to_le_bytes(len as u64)
}

/// A text as it stands in a record: the length of its UTF-8 form, then that
/// form.
pub open spec fn text_bytes(text: Seq<char>) -> Seq<u8> {
    length_prefix(encode_utf8(text).len()) + encode_utf8(text)
}

/// The bytes of one record.
pub open spec fn record_bytes(id: Seq<char>, payload: Seq<char>) -> Seq<u8> {
    text_bytes(id) + text_bytes(payload)
}

/// The number of bytes of one record.
pub open spec fn record_size(id: Seq<char>, payload: Seq<char>) -> nat {
    8 + encode_utf8(id).len() + 8 + encode_utf8(payload).len()
}

/// The length that the eight bytes from `at` on announce.
pub open spec fn length_at(bytes: Seq<u8>, at: int) -> int {
    spec_u64_from_le_bytes(bytes.subrange(at, at + 8)) as int
}

/// How the reading of one record from the head of some bytes ends.
pub enum Reading {
    /// Fewer than eight bytes are left: no record starts here.
    End,
    /// A whole record, and the number of bytes it takes.
    Record { id: Seq<char>, payload: Seq<char>, size: nat },
    /// A record starts here and cannot be read.
    Broken(LoadError),
}

/// Reads one record from the head of `bytes`.
///
/// The checks stand in the order in which the bytes are met: the identifier is
/// held to be UTF-8 before the payload's length is looked for.
pub open spec fn read_record(bytes: Seq<u8>) -> Reading {
    if bytes.len() < 8 {
        Reading::End
    } else {
        let id_end: int = 8 + length_at(bytes, 0);
        if bytes.len() < id_end {
            Reading::Broken(LoadError::Io)
        } else if !valid_utf8(bytes.subrange(8, id_end)) {
            Reading::Broken(LoadError::Decode)
        } else if bytes.len() < id_end + 8 {
            Reading::Broken(LoadError::Io)
        } else {
            let end: int = id_end + 8 + length_at(bytes, id_end);
            if bytes.len() < end {
                Reading::Broken(LoadError::Io)
            } else if !valid_utf8(bytes.subrange(id_end + 8, end)) {
                Reading::Broken(LoadError::Decode)
            } else {
                Reading::Record {
                    id: decode_utf8(bytes.subrange(8, id_end)),
                    payload: decode_utf8(bytes.subrange(id_end + 8, end)),
                    size: end as nat,
                }
            }
        }
    }
}

/// What `decode_record` found at the head of its bytes.
#[derive(Debug, PartialEq, Eq)]
pub enum Decoded {
    /// Fewer than eight bytes are left.
    End,
    /// A whole record, and the number of bytes it takes.
    Record { id: String, payload: String, size: usize },
    /// A record starts here and cannot be read.
    Broken(LoadError),
}

impl View for Decoded {
    type V = Reading;

    open spec fn view(&self) -> Reading {
        match *self {
            Decoded::End => Reading::End,
            Decoded::Record { id, payload, size } => Reading::Record {
                id: id@,
                payload: payload@,
                size: size as nat,
            },
            Decoded::Broken(e) => Reading::Broken(e),
        }
    }
}

/// The error of `String::from_utf8`. Nothing is read from it.
#[verifier::external_type_specification]
#[verifier::external_body]
pub struct ExFromUtf8Error(std::string::FromUtf8Error);

/// `String::from_utf8` of the standard library: it succeeds exactly on bytes
/// that are UTF-8, and the string it then gives has those bytes as its UTF-8
/// form.
pub assume_specification[ String::from_utf8 ](vec: Vec<u8>) -> (text: Result<
    String,
    std::string::FromUtf8Error,
>)
    ensures
        text is Ok <==> valid_utf8(vec@),
        text matches Ok(s) ==> encode_utf8(s@) == vec@,
;

/// Appends a text to `out`, as it stands in a record.
fn encode_text(text: &str, out: &mut Vec<u8>)
    ensures
        final(out)@ == old(out)@ + text_bytes(text@),
        encode_utf8(text@).len() <= usize::MAX,
{
    let bytes = text.as_bytes();
    let len: u64 = bytes.len() as u64;
    let prefix = u64_to_le_bytes(len);
    out.extend_from_slice(prefix.as_slice());
    out.extend_from_slice(bytes);
    assert(out@ =~= old(out)@ + text_bytes(text@));
}

/// Appends the record of an identifier and a payload to `out`.
pub fn encode_record(id: &str, payload: &str, out: &mut Vec<u8>)
    ensures
        final(out)@ == old(out)@ + record_bytes(id@, payload@),
        final(out)@.len() == old(out)@.len() + record_size(id@, payload@),
{
    proof {
        lemma_auto_spec_u64_to_from_le_bytes();
    }
    encode_text(id, out);
    encode_text(payload, out);
    assert(out@ =~= old(out)@ + record_bytes(id@, payload@));
}

/// The text in `bytes[from..to]`, where those bytes are UTF-8.
fn decode_text(bytes: &[u8], from: usize, to: usize) -> (text: Option<String>)
    requires
        from <= to <= bytes@.len(),
    ensures
        text is Some <==> valid_utf8(bytes@.subrange(from as int, to as int)),
        text matches Some(s) ==> s@ == decode_utf8(bytes@.subrange(from as int, to as int)),
{
    match String::from_utf8(slice_to_vec(slice_subrange(bytes, from, to))) {
        Ok(s) => {
            proof {
                encode_utf8_decode_utf8(s@);
            }
            Some(s)
        },
        Err(_) => None,
    }
}

/// Reads one record from the head of `bytes`.
pub fn decode_record(bytes: &[u8]) -> (found: Decoded)
    ensures
        found@ == read_record(bytes@),
{
    let total = bytes.len();
    if total < 8 {
        return Decoded::End;
    }
    let id_len: u64 = u64_from_le_bytes(slice_subrange(bytes, 0, 8));
    if id_len > (total - 8) as u64 {
        return Decoded::Broken(LoadError::Io);
    }
    let id_end: usize = 8 + id_len as usize;
    let id = match decode_text(bytes, 8, id_end) {
        Some(s) => s,
        None => {
            return Decoded::Broken(LoadError::Decode);
        },
    };
    if total - id_end < 8 {
        return Decoded::Broken(LoadError::Io);
    }
    let payload_len: u64 = u64_from_le_bytes(slice_subrange(bytes, id_end, id_end + 8));
    if payload_len > (total - id_end - 8) as u64 {
        return Decoded::Broken(LoadError::Io);
    }
    let end: usize = id_end + 8 + payload_len as usize;
    let payload = match decode_text(bytes, id_end + 8, end) {
        Some(s) => s,
        None => {
            return Decoded::Broken(LoadError::Decode);
        },
    };
    Decoded::Record { id, payload, size: end }
}

/// A record has the size that its two texts give it.
pub proof fn lemma_record_size(id: Seq<char>, payload: Seq<char>)
    ensures
        record_bytes(id, payload).len() == record_size(id, payload),
        text_bytes(id).len() == 8 + encode_utf8(id).len(),
{
    lemma_auto_spec_u64_to_from_le_bytes();
}

/// A record is read back as the identifier and the payload it was written
/// from, whatever follows it, and the reading takes exactly its bytes.
pub proof fn lemma_read_written(id: Seq<char>, payload: Seq<char>, rest: Seq<u8>)
    requires
        fits(id),
        fits(payload),
    ensures
        read_record(record_bytes(id, payload) + rest) == (Reading::Record {
            id,
            payload,
            size: record_size(id, payload),
        }),
        (record_bytes(id, payload) + rest).skip(record_size(id, payload) as int) == rest,
{
    let bytes = record_bytes(id, payload) + rest;
    let id_bytes = encode_utf8(id);
    let payload_bytes = encode_utf8(payload);
    let id_end: int = 8 + id_bytes.len() as int;
    let end: int = id_end + 8 + payload_bytes.len();
    lemma_auto_spec_u64_to_from_le_bytes();
    encode_utf8_valid_utf8(id);
    encode_utf8_valid_utf8(payload);
    encode_utf8_decode_utf8(id);
    encode_utf8_decode_utf8(payload);
    assert(bytes.subrange(0, 8) == length_prefix(id_bytes.len()));
    assert(bytes.subrange(8, id_end) == id_bytes);
    assert(bytes.subrange(id_end, id_end + 8) == length_prefix(payload_bytes.len()));
    assert(bytes.subrange(id_end + 8, end) == payload_bytes);
    assert(bytes.skip(end) == rest);
}

/// A record that stops after its first eight bytes and before its end cannot
/// be read: the bytes that its lengths announce are not all there.
pub proof fn lemma_read_cut(id: Seq<char>, payload: Seq<char>, keep: int)
    requires
        fits(id),
        fits(payload),
        8 <= keep < record_size(id, payload),
    ensures
        read_record(record_bytes(id, payload).take(keep)) == Reading::Broken(LoadError::Io),
{
    let whole = record_bytes(id, payload);
    let bytes = whole.take(keep);
    let id_bytes = encode_utf8(id);
    let payload_bytes = encode_utf8(payload);
    let id_end: int = 8 + id_bytes.len() as int;
    lemma_auto_spec_u64_to_from_le_bytes();
    encode_utf8_valid_utf8(id);
    assert(bytes.subrange(0, 8) == length_prefix(id_bytes.len()));
    if keep >= id_end {
        assert(bytes.subrange(8, id_end) == id_bytes);
        if keep >= id_end + 8 {
            assert(bytes.subrange(id_end, id_end + 8) == length_prefix(payload_bytes.len()));
        }
    }
}

} // verus!
