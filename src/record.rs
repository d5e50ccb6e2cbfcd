//! The log's record format.
//!
//! A record is the key length and the value length (4 bytes each,
//! little-endian), then the key's bytes, then the value's bytes. A value
//! length of zero marks a tombstone: the deletion of the key.
use crate::KvError;
use vstd::bytes::{
    lemma_auto_spec_u32_to_from_le_bytes, spec_u32_from_le_bytes, spec_u32_to_le_bytes,
    u32_from_le_bytes, u32_to_le_bytes,
};
use vstd::prelude::*;
use vstd::slice::{slice_subrange, slice_to_vec};
use vstd::utf8::{decode_utf8, decode_utf8_encode_utf8, encode_utf8, encode_utf8_decode_utf8, encode_utf8_valid_utf8, valid_utf8};

verus! {

/// Bytes taken by the two length fields.
pub const HEADER_LEN: usize = 8;

/// The bytes of a record holding `key` and `value`.
pub open spec fn record_bytes(key: Seq<u8>, value: Seq<u8>) -> Seq<u8> {
    spec_u32_to_le_bytes(key.len() as u32) + spec_u32_to_le_bytes(value.len() as u32) + key + value
}

/// The record that stores the text `value` under the text `key`.
pub open spec fn entry_bytes(key: Seq<char>, value: Seq<char>) -> Seq<u8> {
    record_bytes(encode_utf8(key), encode_utf8(value))
}

/// Size on disk of that record: `8 + k + v`.
pub open spec fn entry_size(key: Seq<char>, value: Seq<char>) -> nat {
    8 + encode_utf8(key).len() + encode_utf8(value).len()
}

/// A text fits the format when its UTF-8 length fits a 4-byte field.
pub open spec fn fits_field(text: Seq<char>) -> bool {
    encode_utf8(text).len() <= u32::MAX
}

/// What reading the log at an offset yields.
pub enum ReadOutcome {
    /// The log ends exactly here.
    End,
    /// The bytes here are not a whole, well-formed record.
    Corrupt,
    /// A record, and the offset just past it.
    Record { key: Seq<char>, value: Seq<char>, next: int },
}

/// Key length stored in the header at `pos`.
pub open spec fn key_len_at(log: Seq<u8>, pos: int) -> int {
    spec_u32_from_le_bytes(log.subrange(pos, pos + 4)) as int
}

/// Value length stored in the header at `pos`.
pub open spec fn value_len_at(log: Seq<u8>, pos: int) -> int {
    spec_u32_from_le_bytes(log.subrange(pos + 4, pos + 8)) as int
}

/// Decoding of the record that starts at `pos` (`0 <= pos <= log.len()`).
pub open spec fn record_at(log: Seq<u8>, pos: int) -> ReadOutcome {
    if pos == log.len() {
        ReadOutcome::End
    } else if pos + 8 > log.len() {
        ReadOutcome::Corrupt
    } else {
        let k = key_len_at(log, pos);
        let v = value_len_at(log, pos);
        let end = pos + 8 + k + v;
        if k == 0 || end > log.len() {
            ReadOutcome::Corrupt
        } else {
            let kb = log.subrange(pos + 8, pos + 8 + k);
            let vb = log.subrange(pos + 8 + k, end);
            if valid_utf8(kb) && valid_utf8(vb) {
                ReadOutcome::Record { key: decode_utf8(kb), value: decode_utf8(vb), next: end }
            } else {
                ReadOutcome::Corrupt
            }
        }
    }
}

/// A text is empty exactly when its UTF-8 encoding is.
pub proof fn lemma_encode_empty(text: Seq<char>)
    ensures
        text.len() == 0 <==> encode_utf8(text).len() == 0,
{
}

/// An entry takes `entry_size` bytes.
pub proof fn lemma_entry_len(key: Seq<char>, value: Seq<char>)
    ensures
        entry_bytes(key, value).len() == entry_size(key, value),
{
    lemma_auto_spec_u32_to_from_le_bytes();
}

/// Reading back the bytes of an entry yields that entry.
pub proof fn lemma_read_entry(log: Seq<u8>, pos: int, key: Seq<char>, value: Seq<char>)
    requires
        0 <= pos,
        pos + entry_size(key, value) <= log.len(),
        log.subrange(pos, pos + entry_size(key, value)) == entry_bytes(key, value),
        key.len() > 0,
        fits_field(key),
        fits_field(value),
    ensures
        record_at(log, pos) == (ReadOutcome::Record {
            key,
            value,
            next: pos + entry_size(key, value),
        }),
{
    lemma_auto_spec_u32_to_from_le_bytes();
    broadcast use encode_utf8_valid_utf8, encode_utf8_decode_utf8;

    lemma_encode_empty(key);
    let kb = encode_utf8(key);
    let vb = encode_utf8(value);
    let kl = kb.len() as int;
    let size = entry_size(key, value) as int;
    let e = entry_bytes(key, value);
    let window = log.subrange(pos, pos + size);
    assert(log.subrange(pos, pos + 4) =~= window.subrange(0, 4));
    assert(e.subrange(0, 4) =~= spec_u32_to_le_bytes(kb.len() as u32));
    assert(log.subrange(pos + 4, pos + 8) =~= window.subrange(4, 8));
    assert(e.subrange(4, 8) =~= spec_u32_to_le_bytes(vb.len() as u32));
    assert(key_len_at(log, pos) == kb.len());
    assert(value_len_at(log, pos) == vb.len());
    assert(log.subrange(pos + 8, pos + 8 + kb.len()) =~= window.subrange(8, 8 + kl));
    assert(e.subrange(8, 8 + kl) =~= kb);
    assert(log.subrange(pos + 8 + kb.len(), pos + size) =~= window.subrange(8 + kl, size));
    assert(e.subrange(8 + kl, size) =~= vb);
}

/// A record read from the log is the entry of its key and value, and the
/// texts fit the format.
pub proof fn lemma_record_is_entry(log: Seq<u8>, pos: int)
    requires
        0 <= pos <= log.len(),
    ensures
        record_at(log, pos) matches ReadOutcome::Record { key, value, next } ==> {
            &&& next == pos + entry_size(key, value)
            &&& next <= log.len()
            &&& log.subrange(pos, next) == entry_bytes(key, value)
            &&& key.len() > 0
            &&& fits_field(key)
            &&& fits_field(value)
        },
{
    if let ReadOutcome::Record { key, value, next } = record_at(log, pos) {
        lemma_auto_spec_u32_to_from_le_bytes();
        let k = key_len_at(log, pos);
        let v = value_len_at(log, pos);
        let kb = log.subrange(pos + 8, pos + 8 + k);
        let vb = log.subrange(pos + 8 + k, next);
        decode_utf8_encode_utf8(kb);
        decode_utf8_encode_utf8(vb);
        assert(log.subrange(pos, pos + 4).len() == 4);
        assert(log.subrange(pos + 4, pos + 8).len() == 4);
        lemma_encode_empty(key);
        assert(log.subrange(pos, next) =~= log.subrange(pos, pos + 4) + log.subrange(pos + 4, pos + 8)
            + kb + vb);
    }
}

/// A whole record reads the same when more bytes follow it.
pub proof fn lemma_record_extend(log: Seq<u8>, extra: Seq<u8>, pos: int)
    requires
        0 <= pos <= log.len(),
        record_at(log, pos) is Record,
    ensures
        record_at(log + extra, pos) == record_at(log, pos),
{
    let all = log + extra;
    let k = key_len_at(log, pos);
    let v = value_len_at(log, pos);
    assert(all.subrange(pos, pos + 4) =~= log.subrange(pos, pos + 4));
    assert(all.subrange(pos + 4, pos + 8) =~= log.subrange(pos + 4, pos + 8));
    assert(all.subrange(pos + 8, pos + 8 + k) =~= log.subrange(pos + 8, pos + 8 + k));
    assert(all.subrange(pos + 8 + k, pos + 8 + k + v) =~= log.subrange(pos + 8 + k, pos + 8 + k + v));
}

/// A decoded record.
pub struct Record {
    pub key: String,
    pub value: String,
}

/// Relies on `String::from_utf8`: it accepts exactly the byte strings that
/// are valid UTF-8, and the string it returns holds the characters they encode.
#[verifier::external_body]
pub(crate) fn utf8_string(bytes: Vec<u8>) -> (r: Option<String>)
    ensures
        r is Some <==> valid_utf8(bytes@),
        r matches Some(s) ==> s@ == decode_utf8(bytes@),
{
    match String::from_utf8(bytes) {
        Ok(s) => Some(s),
        Err(_) => None,
    }
}

/// Whether `text` fits a record's 4-byte length field.
pub fn fits_record_field(text: &str) -> (r: bool)
    ensures
        r == fits_field(text@),
{
    text.as_bytes().len() <= 0xFFFF_FFFF
}

/// Encodes the record that stores `value` under `key` (a tombstone when
/// `value` is empty).
pub fn encode_record(key: &str, value: &str) -> (r: Vec<u8>)
    requires
        fits_field(key@),
        fits_field(value@),
    ensures
        r@ == entry_bytes(key@, value@),
        r@.len() == entry_size(key@, value@),
{
    proof {
        lemma_auto_spec_u32_to_from_le_bytes();
    }
    let kb = key.as_bytes();
    let vb = value.as_bytes();
    let mut out = u32_to_le_bytes(kb.len() as u32);
    let vl = u32_to_le_bytes(vb.len() as u32);
    out.extend_from_slice(vl.as_slice());
    out.extend_from_slice(kb);
    out.extend_from_slice(vb);
    out
}

/// Decodes the record that starts at `pos` of `buf`, returning it with the
/// offset just past it; `None` when `buf` ends exactly at `pos`.
pub fn decode_record(buf: &[u8], pos: usize) -> (r: Result<Option<(Record, usize)>, KvError>)
    requires
        pos <= buf@.len(),
    ensures
        match record_at(buf@, pos as int) {
            ReadOutcome::End => r == Ok::<Option<(Record, usize)>, KvError>(None),
            ReadOutcome::Corrupt => r == Err::<Option<(Record, usize)>, KvError>(KvError::Corruption),
            ReadOutcome::Record { key, value, next } => r matches Ok(Some((rec, n))) && rec.key@
                == key && rec.value@ == value && n == next,
        },
{
    let n = buf.len();
    if pos == n {
        return Ok(None);
    }
    if n - pos < HEADER_LEN {
        return Err(KvError::Corruption);
    }
    let k = u32_from_le_bytes(slice_subrange(buf, pos, pos + 4)) as usize;
    let v = u32_from_le_bytes(slice_subrange(buf, pos + 4, pos + 8)) as usize;
    let rest = n - pos - HEADER_LEN;
    if k == 0 || k > rest || v > rest - k {
        return Err(KvError::Corruption);
    }
    let key_start = pos + HEADER_LEN;
    let value_start = key_start + k;
    let end = value_start + v;
    let key = match utf8_string(slice_to_vec(slice_subrange(buf, key_start, value_start))) {
        Some(s) => s,
        None => {
            return Err(KvError::Corruption);
        },
    };
    let value = match utf8_string(slice_to_vec(slice_subrange(buf, value_start, end))) {
        Some(s) => s,
        None => {
            return Err(KvError::Corruption);
        },
    };
    Ok(Some((Record { key, value }, end)))
}

} // verus!
