//! The record codec: each log record is a 2-byte little-endian length
//! prefix followed by a self-describing payload. The payload holds a
//! one-byte operation tag, the 8-byte little-endian record id, and the
//! UTF-8 bytes of the key (and, for a put, of the value), each preceded by
//! a 2-byte little-endian length. The metadata header codec lives here too.
use crate::txlog::{LogEntry, LogOperation, SpecEntry, SpecOp};
use vstd::bytes::{
    lemma_auto_spec_u16_to_from_le_bytes, lemma_auto_spec_u32_to_from_le_bytes,
    lemma_auto_spec_u64_to_from_le_bytes, spec_u16_from_le_bytes, spec_u16_to_le_bytes,
    spec_u32_from_le_bytes, spec_u32_to_le_bytes, spec_u64_from_le_bytes, spec_u64_to_le_bytes,
    u16_from_le_bytes, u16_to_le_bytes, u32_to_le_bytes, u64_from_le_bytes, u64_to_le_bytes,
};
use vstd::prelude::*;
use vstd::slice::{slice_subrange, slice_to_vec};
use vstd::utf8::{decode_utf8, encode_utf8, valid_utf8};

verus! {

/// The largest payload the 16-bit length prefix admits.
pub const MAX_PAYLOAD: usize = 65534;

/// The operation tag of a put record.
pub const TAG_PUT: u8 = 0;

/// The operation tag of a remove record.
pub const TAG_RM: u8 = 1;

/// The payload size of an entry: tag, record id, and the length-prefixed
/// UTF-8 bytes of the key (and of the value, for a put).
pub open spec fn spec_payload_len(e: SpecEntry) -> int {
    match e.op {
        SpecOp::Put { key, value } => 13 + encode_utf8(key).len() as int + encode_utf8(
            value,
        ).len() as int,
        SpecOp::Rm { key } => 11 + encode_utf8(key).len() as int,
    }
}

/// The payload bytes of an entry.
pub open spec fn spec_encode_payload(e: SpecEntry) -> Seq<u8> {
    match e.op {
        SpecOp::Put { key, value } => seq![TAG_PUT] + spec_u64_to_le_bytes(e.logid)
            + spec_u16_to_le_bytes(encode_utf8(key).len() as u16) + encode_utf8(key)
            + spec_u16_to_le_bytes(encode_utf8(value).len() as u16) + encode_utf8(value),
        SpecOp::Rm { key } => seq![TAG_RM] + spec_u64_to_le_bytes(e.logid)
            + spec_u16_to_le_bytes(encode_utf8(key).len() as u16) + encode_utf8(key),
    }
}

/// The entry a payload decodes to, if it is well-formed: the tag is known,
/// the lengths add up exactly, and the key and value bytes are valid UTF-8.
pub open spec fn spec_decode_payload(b: Seq<u8>) -> Option<SpecEntry> {
    if b.len() < 11 {
        None
    } else {
        let logid = spec_u64_from_le_bytes(b.subrange(1, 9));
        let klen = spec_u16_from_le_bytes(b.subrange(9, 11)) as int;
        if b[0] == TAG_PUT {
            if b.len() < 13 + klen {
                None
            } else {
                let kb = b.subrange(11, 11 + klen);
                let vlen = spec_u16_from_le_bytes(b.subrange(11 + klen, 13 + klen)) as int;
                let vb = b.subrange(13 + klen, b.len() as int);
                if b.len() == 13 + klen + vlen && valid_utf8(kb) && valid_utf8(vb) {
                    Some(
                        SpecEntry {
                            logid,
                            op: SpecOp::Put { key: decode_utf8(kb), value: decode_utf8(vb) },
                        },
                    )
                } else {
                    None
                }
            }
        } else if b[0] == TAG_RM {
            let kb = b.subrange(11, b.len() as int);
            if b.len() == 11 + klen && valid_utf8(kb) {
                Some(SpecEntry { logid, op: SpecOp::Rm { key: decode_utf8(kb) } })
            } else {
                None
            }
        } else {
            None
        }
    }
}

/// Encoding then decoding a payload gives the entry back, whenever the
/// entry fits the length prefix.
pub proof fn lemma_payload_round_trip(e: SpecEntry)
    requires
        spec_payload_len(e) <= MAX_PAYLOAD,
    ensures
        spec_encode_payload(e).len() == spec_payload_len(e),
        spec_decode_payload(spec_encode_payload(e)) == Some(e),
{
    broadcast use vstd::utf8::encode_utf8_valid_utf8, vstd::utf8::encode_utf8_decode_utf8;

    lemma_auto_spec_u16_to_from_le_bytes();
    lemma_auto_spec_u64_to_from_le_bytes();
    let b = spec_encode_payload(e);
    match e.op {
        SpecOp::Put { key, value } => {
            let kb = encode_utf8(key);
            let vb = encode_utf8(value);
            let klen = kb.len() as int;
            let vlen = vb.len() as int;
            assert(b.len() == 13 + klen + vlen);
            assert(b[0] == TAG_PUT);
            assert(b.subrange(1, 9) =~= spec_u64_to_le_bytes(e.logid));
            assert(b.subrange(9, 11) =~= spec_u16_to_le_bytes(kb.len() as u16));
            assert(spec_u16_from_le_bytes(b.subrange(9, 11)) as int == klen);
            assert(b.subrange(11, 11 + klen) =~= kb);
            assert(b.subrange(11 + klen, 13 + klen) =~= spec_u16_to_le_bytes(vb.len() as u16));
            assert(b.subrange(13 + klen, b.len() as int) =~= vb);
        },
        SpecOp::Rm { key } => {
            let kb = encode_utf8(key);
            let klen = kb.len() as int;
            assert(b.len() == 11 + klen);
            assert(b[0] == TAG_RM);
            assert(b.subrange(1, 9) =~= spec_u64_to_le_bytes(e.logid));
            assert(b.subrange(9, 11) =~= spec_u16_to_le_bytes(kb.len() as u16));
            assert(spec_u16_from_le_bytes(b.subrange(9, 11)) as int == klen);
            assert(b.subrange(11, b.len() as int) =~= kb);
        },
    }
}

/// A payload that decodes is exactly as long as the entry it decodes to
/// says, so the sizes recorded in the index match the log's records.
pub proof fn lemma_decode_len(b: Seq<u8>)
    requires
        spec_decode_payload(b) is Some,
    ensures
        spec_payload_len(spec_decode_payload(b)->Some_0) == b.len(),
        b.len() >= 11,
{
    broadcast use vstd::utf8::decode_utf8_encode_utf8;

    let e = spec_decode_payload(b)->Some_0;
    let klen = spec_u16_from_le_bytes(b.subrange(9, 11)) as int;
    match e.op {
        SpecOp::Put { key, value } => {
            assert(encode_utf8(key) == b.subrange(11, 11 + klen));
            assert(encode_utf8(value) == b.subrange(13 + klen, b.len() as int));
        },
        SpecOp::Rm { key } => {
            assert(encode_utf8(key) == b.subrange(11, b.len() as int));
        },
    }
}

/// Relies on `String::from_utf8` of std: it returns `Ok` exactly when the
/// bytes are valid UTF-8, and then the string's characters are their
/// decoding.
#[verifier::external_body]
fn vec_to_string(v: Vec<u8>) -> (r: Option<String>)
    ensures
        r is Some <==> valid_utf8(v@),
        r matches Some(s) ==> s@ == decode_utf8(v@),
{
    match String::from_utf8(v) {
        Ok(s) => Some(s),
        Err(_) => None,
    }
}

/// Encodes an entry's payload; `None` exactly when the payload would not
/// fit the 16-bit length prefix.
pub fn encode_payload(e: &LogEntry) -> (r: Option<Vec<u8>>)
    ensures
        r is Some <==> spec_payload_len(e@) <= MAX_PAYLOAD,
        r matches Some(v) ==> v@ == spec_encode_payload(e@) && v@.len() == spec_payload_len(e@),
{
    match &e.operation {
        LogOperation::Put(k, v) => {
            let kb: &[u8] = k.as_str().as_bytes();
            let vb: &[u8] = v.as_str().as_bytes();
            if kb.len() > MAX_PAYLOAD || vb.len() > MAX_PAYLOAD || kb.len() + vb.len() > MAX_PAYLOAD
                - 13 {
                None
            } else {
                let mut out: Vec<u8> = Vec::new();
                out.push(TAG_PUT);
                let mut idb = u64_to_le_bytes(e.logid);
                out.append(&mut idb);
                let mut klb = u16_to_le_bytes(kb.len() as u16);
                out.append(&mut klb);
                out.extend_from_slice(kb);
                let mut vlb = u16_to_le_bytes(vb.len() as u16);
                out.append(&mut vlb);
                out.extend_from_slice(vb);
                proof {
                    assert(out@ =~= spec_encode_payload(e@));
                }
                Some(out)
            }
        },
        LogOperation::Rm(k) => {
            let kb: &[u8] = k.as_str().as_bytes();
            if kb.len() > MAX_PAYLOAD - 11 {
                None
            } else {
                let mut out: Vec<u8> = Vec::new();
                out.push(TAG_RM);
                let mut idb = u64_to_le_bytes(e.logid);
                out.append(&mut idb);
                let mut klb = u16_to_le_bytes(kb.len() as u16);
                out.append(&mut klb);
                out.extend_from_slice(kb);
                proof {
                    assert(out@ =~= spec_encode_payload(e@));
                }
                Some(out)
            }
        },
    }
}

/// Decodes a payload; `None` exactly when the bytes are not a well-formed
/// payload.
pub fn decode_payload(b: &[u8]) -> (r: Option<LogEntry>)
    ensures
        r is Some <==> spec_decode_payload(b@) is Some,
        r matches Some(e) ==> spec_decode_payload(b@) == Some(e@),
{
    if b.len() < 11 {
        None
    } else {
        let tag = *vstd::slice::slice_index_get(b, 0);
        let logid = u64_from_le_bytes(slice_subrange(b, 1, 9));
        let klen = u16_from_le_bytes(slice_subrange(b, 9, 11)) as usize;
        if tag == TAG_PUT {
            if b.len() < 13 + klen {
                None
            } else {
                let vlen = u16_from_le_bytes(slice_subrange(b, 11 + klen, 13 + klen)) as usize;
                if b.len() != 13 + klen + vlen {
                    None
                } else {
                    let kv = slice_to_vec(slice_subrange(b, 11, 11 + klen));
                    let vv = slice_to_vec(slice_subrange(b, 13 + klen, 13 + klen + vlen));
                    proof {
                        assert(vv@ =~= b@.subrange(13 + klen as int, b@.len() as int));
                    }
                    match (vec_to_string(kv), vec_to_string(vv)) {
                        (Some(ks), Some(vs)) => Some(
                            LogEntry { logid, operation: LogOperation::Put(ks, vs) },
                        ),
                        _ => None,
                    }
                }
            }
        } else if tag == TAG_RM {
            if b.len() != 11 + klen {
                None
            } else {
                let kv = slice_to_vec(slice_subrange(b, 11, 11 + klen));
                proof {
                    assert(kv@ =~= b@.subrange(11, b@.len() as int));
                }
                match vec_to_string(kv) {
                    Some(ks) => Some(LogEntry { logid, operation: LogOperation::Rm(ks) }),
                    None => None,
                }
            }
        } else {
            None
        }
    }
}

/// The 1024 header bytes that record the counters: a little-endian length
/// prefix of 16, the two 8-byte little-endian counters, and zero padding.
pub open spec fn spec_header_bytes(records: u64, bytes: u64) -> Seq<u8> {
    spec_u32_to_le_bytes(16u32) + spec_u64_to_le_bytes(records) + spec_u64_to_le_bytes(bytes)
        + Seq::new(1004, |i: int| 0u8)
}

/// The counters a file image's header decodes to, if its first 1024 bytes
/// are a well-formed header.
pub open spec fn spec_parse_header(file: Seq<u8>) -> Option<(u64, u64)> {
    if file.len() < 1024 {
        None
    } else if spec_u32_from_le_bytes(file.subrange(0, 4)) != 16u32 {
        None
    } else {
        Some(
            (
                spec_u64_from_le_bytes(file.subrange(4, 12)),
                spec_u64_from_le_bytes(file.subrange(12, 20)),
            ),
        )
    }
}

/// A freshly written header decodes to the counters it was written from.
pub proof fn lemma_header_round_trip(records: u64, bytes: u64)
    ensures
        spec_header_bytes(records, bytes).len() == 1024,
        spec_parse_header(spec_header_bytes(records, bytes)) == Some((records, bytes)),
{
    lemma_auto_spec_u32_to_from_le_bytes();
    lemma_auto_spec_u64_to_from_le_bytes();
    let h = spec_header_bytes(records, bytes);
    assert(h.subrange(0, 4) =~= spec_u32_to_le_bytes(16u32));
    assert(h.subrange(4, 12) =~= spec_u64_to_le_bytes(records));
    assert(h.subrange(12, 20) =~= spec_u64_to_le_bytes(bytes));
}

/// Overwrites `dst[at .. at + src.len())` with `src`, leaving the rest.
pub fn splice(dst: &mut Vec<u8>, at: usize, src: &Vec<u8>)
    requires
        at + src@.len() <= old(dst)@.len(),
    ensures
        final(dst)@.len() == old(dst)@.len(),
        final(dst)@ == old(dst)@.subrange(0, at as int) + src@ + old(dst)@.subrange(
            at + src@.len(),
            old(dst)@.len() as int,
        ),
{
    let dlen = dst.len();
    let mut i: usize = 0;
    while i < src.len()
        invariant
            i <= src@.len(),
            at + src@.len() <= dlen,
            at + src@.len() <= dst@.len(),
            dst@.len() == old(dst)@.len(),
            forall|j: int|
                0 <= j < dst@.len() ==> dst@[j] == (if at <= j < at + i {
                    src@[j - at]
                } else {
                    old(dst)@[j]
                }),
        decreases src@.len() - i,
    {
        let b = *vstd::slice::slice_index_get(src.as_slice(), i);
        dst[at + i] = b;
        i += 1;
    }
    proof {
        assert(dst@ =~= old(dst)@.subrange(0, at as int) + src@ + old(dst)@.subrange(
            at + src@.len(),
            old(dst)@.len() as int,
        ));
    }
}

/// Builds the 1024 header bytes for the two counters.
pub fn header_bytes(records: u64, bytes: u64) -> (h: Vec<u8>)
    ensures
        h@ == spec_header_bytes(records, bytes),
        h@.len() == 1024,
{
    let mut h: Vec<u8> = vec![0u8; 1024];
    let pfx = u32_to_le_bytes(16u32);
    splice(&mut h, 0, &pfx);
    let rb = u64_to_le_bytes(records);
    splice(&mut h, 4, &rb);
    let bb = u64_to_le_bytes(bytes);
    splice(&mut h, 12, &bb);
    proof {
        assert(h@ =~= spec_header_bytes(records, bytes));
    }
    h
}

} // verus!
