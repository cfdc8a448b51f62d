//! The mathematical model of log replay: reading a given number of records
//! off the log region and folding their operations into an index that maps
//! each live key to the pointer of its most recent put record.
use crate::codec::{lemma_decode_len, spec_decode_payload};
use crate::txlog::{SpecEntry, SpecOp, SpecPtr};
use vstd::bytes::spec_u16_from_le_bytes;
use vstd::prelude::*;

verus! {

/// How one decoded entry changes the index: a put maps its key to the
/// record's pointer, a remove drops its key.
pub open spec fn spec_apply_entry(
    m: Map<Seq<char>, SpecPtr>,
    e: SpecEntry,
    off: int,
    psize: int,
) -> Map<Seq<char>, SpecPtr> {
    match e.op {
        SpecOp::Put { key, .. } => m.insert(key, SpecPtr { off, size: psize + 2 }),
        SpecOp::Rm { key } => m.remove(key),
    }
}

/// Replays `n` records of the log region starting at offset `off` into the
/// index `idx`. `None` when a record is cut short or does not decode;
/// otherwise the index after the `n` records and the offset just past them.
pub open spec fn spec_replay(
    log: Seq<u8>,
    off: int,
    n: nat,
    idx: Map<Seq<char>, SpecPtr>,
) -> Option<(Map<Seq<char>, SpecPtr>, int)>
    decreases n,
{
    if n == 0 {
        Some((idx, off))
    } else if off + 2 <= log.len() {
        let psize = spec_u16_from_le_bytes(log.subrange(off, off + 2)) as int;
        if off + 2 + psize <= log.len() {
            match spec_decode_payload(log.subrange(off + 2, off + 2 + psize)) {
                Some(e) => spec_replay(
                    log,
                    off + 2 + psize,
                    (n - 1) as nat,
                    spec_apply_entry(idx, e, off, psize),
                ),
                None => None,
            }
        } else {
            None
        }
    } else {
        None
    }
}

/// A pointer is valid for a key when it lies inside the log, its length
/// prefix matches its size, and the record there decodes to a put of that
/// key.
pub open spec fn spec_ptr_valid(log: Seq<u8>, k: Seq<char>, p: SpecPtr) -> bool {
    &&& 0 <= p.off
    &&& p.size >= 13
    &&& p.off + p.size <= log.len()
    &&& spec_u16_from_le_bytes(log.subrange(p.off, p.off + 2)) as int == p.size - 2
    &&& (spec_decode_payload(log.subrange(p.off + 2, p.off + p.size)) matches Some(e)
        && e.op matches SpecOp::Put { key, .. } && key == k)
}

/// The value stored by the put record a pointer refers to.
pub open spec fn spec_value_at(log: Seq<u8>, p: SpecPtr) -> Seq<char> {
    match spec_decode_payload(log.subrange(p.off + 2, p.off + p.size)) {
        Some(e) => match e.op {
            SpecOp::Put { value, .. } => value,
            SpecOp::Rm { .. } => Seq::empty(),
        },
        None => Seq::empty(),
    }
}

/// A successful replay stays inside the log, moves forward at least 13
/// bytes per record, and leaves only valid pointers behind.
pub proof fn lemma_replay_facts(log: Seq<u8>, off: int, n: nat, idx: Map<Seq<char>, SpecPtr>)
    requires
        0 <= off <= log.len(),
        spec_replay(log, off, n, idx) is Some,
        forall|k: Seq<char>|
            idx.contains_key(k) ==> spec_ptr_valid(log, k, idx[k]) && idx[k].off + idx[k].size
                <= off,
    ensures
        ({
            let (m, end) = spec_replay(log, off, n, idx)->Some_0;
            &&& off <= end <= log.len()
            &&& end - off >= 13 * n
            &&& forall|k: Seq<char>|
                m.contains_key(k) ==> spec_ptr_valid(log, k, m[k]) && m[k].off + m[k].size <= end
        }),
    decreases n,
{
    if n == 0 {
    } else {
        let psize = spec_u16_from_le_bytes(log.subrange(off, off + 2)) as int;
        let payload = log.subrange(off + 2, off + 2 + psize);
        let e = spec_decode_payload(payload)->Some_0;
        lemma_decode_len(payload);
        let idx2 = spec_apply_entry(idx, e, off, psize);
        assert forall|k: Seq<char>| idx2.contains_key(k) implies spec_ptr_valid(log, k, idx2[k])
            && idx2[k].off + idx2[k].size <= off + 2 + psize by {
            match e.op {
                SpecOp::Put { key, .. } => {
                    if k == key {
                        assert(idx2[k] == SpecPtr { off, size: psize + 2 });
                        assert(spec_ptr_valid(log, k, idx2[k]));
                    } else {
                        assert(idx.contains_key(k) && idx2[k] == idx[k]);
                    }
                },
                SpecOp::Rm { .. } => {
                    assert(idx.contains_key(k) && idx2[k] == idx[k]);
                },
            }
        }
        lemma_replay_facts(log, off + 2 + psize, (n - 1) as nat, idx2);
    }
}

/// Replay does not look past the bytes it consumes: extending the log with
/// further bytes leaves its result unchanged.
pub proof fn lemma_replay_extend(
    log: Seq<u8>,
    log2: Seq<u8>,
    off: int,
    n: nat,
    idx: Map<Seq<char>, SpecPtr>,
)
    requires
        0 <= off,
        log2.len() >= log.len(),
        log2.subrange(0, log.len() as int) == log,
        spec_replay(log, off, n, idx) is Some,
    ensures
        spec_replay(log2, off, n, idx) == spec_replay(log, off, n, idx),
    decreases n,
{
    if n == 0 {
    } else {
        let psize = spec_u16_from_le_bytes(log.subrange(off, off + 2)) as int;
        assert(log2.subrange(off, off + 2) =~= log.subrange(off, off + 2));
        assert(log2.subrange(off + 2, off + 2 + psize) =~= log.subrange(off + 2, off + 2 + psize));
        let e = spec_decode_payload(log.subrange(off + 2, off + 2 + psize))->Some_0;
        lemma_replay_extend(
            log,
            log2,
            off + 2 + psize,
            (n - 1) as nat,
            spec_apply_entry(idx, e, off, psize),
        );
    }
}

/// Replaying `i + j` records is replaying `i`, then `j` more from where the
/// first stage ended.
pub proof fn lemma_replay_compose(
    log: Seq<u8>,
    off: int,
    i: nat,
    j: nat,
    idx: Map<Seq<char>, SpecPtr>,
)
    requires
        spec_replay(log, off, i, idx) is Some,
    ensures
        ({
            let (m, end) = spec_replay(log, off, i, idx)->Some_0;
            spec_replay(log, off, i + j, idx) == spec_replay(log, end, j, m)
        }),
    decreases i,
{
    if i == 0 {
    } else {
        let psize = spec_u16_from_le_bytes(log.subrange(off, off + 2)) as int;
        let e = spec_decode_payload(log.subrange(off + 2, off + 2 + psize))->Some_0;
        lemma_replay_compose(
            log,
            off + 2 + psize,
            (i - 1) as nat,
            j,
            spec_apply_entry(idx, e, off, psize),
        );
        assert(i + j == 1 + ((i - 1) as nat + j));
    }
}

/// A pointer valid in a log stays valid, with the same value, when the log
/// is extended.
pub proof fn lemma_ptr_valid_extend(log: Seq<u8>, log2: Seq<u8>, k: Seq<char>, p: SpecPtr)
    requires
        log2.len() >= log.len(),
        log2.subrange(0, log.len() as int) == log,
        spec_ptr_valid(log, k, p),
    ensures
        spec_ptr_valid(log2, k, p),
        spec_value_at(log2, p) == spec_value_at(log, p),
{
    assert(log2.subrange(p.off, p.off + 2) =~= log.subrange(p.off, p.off + 2));
    assert(log2.subrange(p.off + 2, p.off + p.size) =~= log.subrange(p.off + 2, p.off + p.size));
}

} // verus!
