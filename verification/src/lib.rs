//! An embedded, persistent key-value store backed by a single append-only
//! log file.
//!
//! The verified engine works on an in-memory image of the backing file: a
//! fixed 1024-byte metadata header followed by the log region, a sequence
//! of length-prefixed records. An unverified shell reads the file into the
//! image at open time, writes the image back after each mutation, and
//! flushes it to stable storage on request.
pub mod assoc;
pub mod codec;
pub mod error;
pub mod index;
pub mod laws;
pub mod mem;
pub mod replay;
pub mod txlog;

use crate::codec::{
    decode_payload, encode_payload, header_bytes, spec_header_bytes, spec_parse_header, splice,
    MAX_PAYLOAD,
};
use crate::error::KvErr;
use crate::index::Index;
use crate::replay::{
    lemma_ptr_valid_extend, lemma_replay_compose, lemma_replay_extend, lemma_replay_facts,
    spec_apply_entry, spec_ptr_valid, spec_replay, spec_value_at,
};
use crate::txlog::{LogEntry, LogOperation, LogPointer, SpecPtr};
use vstd::bytes::{
    u16_from_le_bytes, u16_to_le_bytes, u32_from_le_bytes, u64_from_le_bytes, u64_to_le_bytes,
};
use vstd::prelude::*;
use vstd::slice::slice_subrange;
use vstd::utf8::encode_utf8;

verus! {

/// The size in bytes of the metadata header at the start of the file.
pub const HEADER_SIZE: usize = 1024;

/// The payload size of a put record for this key and value: the tag byte,
/// the 8-byte record id, and the length-prefixed UTF-8 bytes of both
/// strings.
pub open spec fn spec_put_len(key: Seq<char>, value: Seq<char>) -> int {
    13 + encode_utf8(key).len() as int + encode_utf8(value).len() as int
}

/// The key-value mapping denoted by a pointer index over a log region.
pub open spec fn spec_map_of(log: Seq<u8>, m: Map<Seq<char>, SpecPtr>) -> Map<
    Seq<char>,
    Seq<char>,
> {
    Map::new(|k: Seq<char>| m.contains_key(k), |k: Seq<char>| spec_value_at(log, m[k]))
}

/// The pointer index and counters a file image opens to: a short image
/// starts fresh; otherwise the header must parse, the declared log region
/// must lie within the image, and replaying the declared number of records
/// must consume the region exactly.
pub open spec fn spec_open_ptrs(bytes: Seq<u8>) -> Option<(Map<Seq<char>, SpecPtr>, u64, u64)> {
    if bytes.len() < 1024 {
        Some((Map::<Seq<char>, SpecPtr>::empty(), 0u64, 0u64))
    } else {
        match spec_parse_header(bytes) {
            Some((n, tb)) => {
                if tb > bytes.len() - 1024 {
                    None
                } else {
                    match spec_replay(
                        bytes.subrange(1024, 1024 + tb as int),
                        0,
                        n as nat,
                        Map::empty(),
                    ) {
                        Some((m, end)) => if end == tb {
                            Some((m, n, tb))
                        } else {
                            None
                        },
                        None => None,
                    }
                }
            },
            None => None,
        }
    }
}

/// The key-value mapping a file image opens to, if it is well-formed.
pub open spec fn spec_open_view(bytes: Seq<u8>) -> Option<Map<Seq<char>, Seq<char>>> {
    match spec_open_ptrs(bytes) {
        Some((m, n, tb)) => Some(
            spec_map_of(
                if bytes.len() < 1024 {
                    Seq::<u8>::empty()
                } else {
                    bytes.subrange(1024, 1024 + tb as int)
                },
                m,
            ),
        ),
        None => None,
    }
}

/// The image the store holds after opening a file image: a fresh header for
/// a short image, otherwise the image cut down to its declared log region.
pub open spec fn spec_open_image(bytes: Seq<u8>) -> Seq<u8> {
    if bytes.len() < 1024 {
        spec_header_bytes(0, 0)
    } else {
        match spec_parse_header(bytes) {
            Some((n, tb)) => bytes.subrange(0, 1024 + tb as int),
            None => Seq::<u8>::empty(),
        }
    }
}

/// The summed on-disk sizes of the records an entry sequence references.
pub open spec fn spec_size_sum(s: Seq<(String, LogPointer)>) -> int
    decreases s.len(),
{
    if s.len() == 0 {
        0
    } else {
        spec_size_sum(s.drop_last()) + s.last().1@.size
    }
}

/// The log-structured store: the image of the backing file, the two header
/// counters, and the in-memory index over the log region.
pub struct KvStore {
    file: Vec<u8>,
    records: u64,
    bytes: u64,
    index: Index,
}

impl View for KvStore {
    type V = Map<Seq<char>, Seq<char>>;

    closed spec fn view(&self) -> Map<Seq<char>, Seq<char>> {
        spec_map_of(self.spec_log(), self.index@)
    }
}

impl KvStore {
    /// The current image of the backing file.
    pub closed spec fn spec_image(self) -> Seq<u8> {
        self.file@
    }

    /// The number of records in the log region.
    pub closed spec fn spec_total_records(self) -> u64 {
        self.records
    }

    /// The byte length of the log region.
    pub closed spec fn spec_total_bytes(self) -> u64 {
        self.bytes
    }

    /// The log region of the image.
    pub open spec fn spec_log(self) -> Seq<u8> {
        self.spec_image().subrange(1024, self.spec_image().len() as int)
    }

    /// The pointer index: each live key and where its record lies.
    pub closed spec fn ptrs(self) -> Map<Seq<char>, SpecPtr> {
        self.index@
    }

    /// The summed on-disk sizes of the records the index references.
    pub closed spec fn spec_live_bytes(self) -> int {
        spec_size_sum(self.index.spec_seq())
    }

    /// Well-formed: the image is the header followed by `total_bytes` of
    /// log, the header records the counters, and replaying the declared
    /// number of records off the log yields exactly the index and consumes
    /// the log in full.
    pub closed spec fn wf(self) -> bool {
        &&& self.file@.len() == 1024 + self.bytes
        &&& self.index.wf()
        &&& spec_parse_header(self.file@) == Some((self.records, self.bytes))
        &&& spec_replay(self.spec_log(), 0, self.records as nat, Map::empty()) == Some(
            (self.index@, self.bytes as int),
        )
    }

    /// What well-formedness gives: every index pointer refers to a valid
    /// put record of its key, and the counters are consistent.
    proof fn lemma_wf_facts(self)
        requires
            self.wf(),
        ensures
            forall|k: Seq<char>|
                self.ptrs().contains_key(k) ==> spec_ptr_valid(self.spec_log(), k, self.ptrs()[k])
                    && self.ptrs()[k].off + self.ptrs()[k].size <= self.bytes,
            13 * (self.records as int) <= self.bytes as int,
            self@.dom() =~= self.ptrs().dom(),
            forall|k: Seq<char>|
                self.ptrs().contains_key(k) ==> self@[k] == spec_value_at(
                    self.spec_log(),
                    self.ptrs()[k],
                ),
    {
        lemma_replay_facts(self.spec_log(), 0, self.records as nat, Map::empty());
        let (m, end) = spec_replay(
            self.spec_log(),
            0,
            self.records as nat,
            Map::empty(),
        )->Some_0;
        assert(m == self.ptrs() && end == self.bytes as int);
        assert forall|k: Seq<char>| self.ptrs().contains_key(k) implies spec_ptr_valid(
            self.spec_log(),
            k,
            self.ptrs()[k],
        ) && self.ptrs()[k].off + self.ptrs()[k].size <= self.bytes by {
            assert(m.contains_key(k));
        }
    }

    /// Opens a file image. A short image starts a fresh store with an
    /// initialized header and an empty log; otherwise the header is decoded
    /// and the log replayed to rebuild the index. `Err` exactly when the
    /// image is corrupt.
    pub fn open(file: Vec<u8>) -> (r: Result<KvStore, KvErr>)
        ensures
            r is Ok <==> spec_open_view(file@) is Some,
            r matches Ok(st) ==> st.wf() && Some(st@) == spec_open_view(file@) && st.spec_image()
                == spec_open_image(file@),
            r matches Err(e) ==> e == KvErr::MalformedRecord,
            file@.len() < 1024 ==> (r matches Ok(st) && st@ == Map::<Seq<char>, Seq<char>>::empty()),
    {
        let ghost bytes0 = file@;
        if file.len() < 1024 {
            let image = header_bytes(0, 0);
            let st = KvStore { file: image, records: 0, bytes: 0, index: Index::new() };
            proof {
                crate::codec::lemma_header_round_trip(0, 0);
                assert(st.spec_log() =~= Seq::<u8>::empty());
                assert(st@ =~= Map::<Seq<char>, Seq<char>>::empty());
                assert(spec_open_view(bytes0) == Some(st@));
            }
            Ok(st)
        } else {
            let pfx = u32_from_le_bytes(slice_subrange(file.as_slice(), 0, 4));
            if pfx != 16 {
                return Err(KvErr::MalformedRecord);
            }
            let n = u64_from_le_bytes(slice_subrange(file.as_slice(), 4, 12));
            let tb = u64_from_le_bytes(slice_subrange(file.as_slice(), 12, 20));
            if tb > (file.len() - 1024) as u64 {
                return Err(KvErr::MalformedRecord);
            }
            let mut img = file;
            let tb_us = tb as usize;
            img.truncate(1024 + tb_us);
            let ghost log = img@.subrange(1024, img@.len() as int);
            proof {
                assert(img@ =~= bytes0.subrange(0, 1024 + tb as int));
                assert(img@.subrange(0, 4) =~= bytes0.subrange(0, 4));
                assert(img@.subrange(4, 12) =~= bytes0.subrange(4, 12));
                assert(img@.subrange(12, 20) =~= bytes0.subrange(12, 20));
                assert(log =~= bytes0.subrange(1024, 1024 + tb as int));
                assert(spec_parse_header(bytes0) == Some((n, tb)));
            }
            let flen = img.len();
            let mut index = Index::new();
            let mut i: u64 = 0;
            let mut off: usize = 0;
            while i < n
                invariant
                    i <= n,
                    off <= tb_us,
                    tb_us == tb,
                    bytes0 == file@,
                    bytes0.len() >= 1024,
                    tb as int <= bytes0.len() - 1024,
                    spec_parse_header(bytes0) == Some((n, tb)),
                    log == bytes0.subrange(1024, 1024 + tb as int),
                    flen == img@.len(),
                    img@.len() == 1024 + tb as int,
                    log == img@.subrange(1024, img@.len() as int),
                    index.wf(),
                    spec_replay(log, 0, i as nat, Map::empty()) == Some((index@, off as int)),
                decreases n - i,
            {
                proof {
                    lemma_replay_compose(log, 0, i as nat, (n - i) as nat, Map::empty());
                    assert(i as nat + (n - i) as nat == n as nat);
                }
                if tb_us - off < 2 {
                    proof {
                        assert(spec_replay(log, off as int, (n - i) as nat, index@) is None);
                    }
                    return Err(KvErr::MalformedRecord);
                }
                let psize = u16_from_le_bytes(
                    slice_subrange(img.as_slice(), 1024 + off, 1024 + off + 2),
                ) as usize;
                proof {
                    assert(img@.subrange(1024 + off as int, 1024 + off as int + 2) =~= log
                        .subrange(off as int, off as int + 2));
                }
                if tb_us - off - 2 < psize {
                    proof {
                        assert(spec_replay(log, off as int, (n - i) as nat, index@) is None);
                    }
                    return Err(KvErr::MalformedRecord);
                }
                let payload = slice_subrange(img.as_slice(), 1024 + off + 2, 1024 + off + 2
                    + psize);
                proof {
                    assert(payload@ =~= log.subrange(off + 2, off + 2 + psize));
                }
                match decode_payload(payload) {
                    None => {
                        proof {
                            assert(spec_replay(log, off as int, (n - i) as nat, index@) is None);
                        }
                        return Err(KvErr::MalformedRecord);
                    },
                    Some(e) => {
                        let ghost prev = index@;
                        let ghost ev = e@;
                        let newptr = LogPointer { offset: off, size: psize + 2 };
                        match e.operation {
                            LogOperation::Put(k, _) => index.put(k, newptr),
                            LogOperation::Rm(k) => {
                                index.delete(&k);
                            },
                        }
                        proof {
                            assert(index@ == spec_apply_entry(prev, ev, off as int, psize as int));
                            assert(spec_replay(log, off + 2 + psize, 0, index@) == Some(
                                (index@, off + 2 + psize),
                            ));
                            assert(spec_replay(log, off as int, 1, prev) == Some(
                                (index@, off + 2 + psize),
                            ));
                            lemma_replay_compose(log, 0, i as nat, 1, Map::empty());
                            assert(spec_replay(log, 0, (i + 1) as nat, Map::empty()) == Some(
                                (index@, off + 2 + psize),
                            ));
                        }
                        off = off + 2 + psize;
                        i = i + 1;
                    },
                }
            }
            if off != tb_us {
                return Err(KvErr::MalformedRecord);
            }
            let st = KvStore { file: img, records: n, bytes: tb, index };
            proof {
                assert(st.wf());
                assert(spec_open_view(bytes0) == Some(st@));
            }
            Ok(st)
        }
    }

    /// Appends one encoded record to the log and writes the header back;
    /// the index is the caller's to update.
    fn append_record(&mut self, payload: Vec<u8>) -> (ptr: LogPointer)
        requires
            old(self).wf(),
            crate::codec::spec_decode_payload(payload@) is Some,
            payload@.len() <= MAX_PAYLOAD,
        ensures
            final(self).index == old(self).index,
            final(self).records == old(self).records + 1,
            final(self).bytes == old(self).bytes + 2 + payload@.len(),
            final(self).file@.len() == 1024 + final(self).bytes,
            spec_parse_header(final(self).file@) == Some((final(self).records, final(self).bytes)),
            final(self).spec_log() == old(self).spec_log() + vstd::bytes::spec_u16_to_le_bytes(
                payload@.len() as u16,
            ) + payload@,
            ptr@ == (SpecPtr { off: old(self).bytes as int, size: payload@.len() as int + 2 }),
            spec_replay(final(self).spec_log(), 0, final(self).records as nat, Map::empty())
                == Some(
                (
                    spec_apply_entry(
                        old(self).ptrs(),
                        crate::codec::spec_decode_payload(payload@)->Some_0,
                        old(self).bytes as int,
                        payload@.len() as int,
                    ),
                    final(self).bytes as int,
                ),
            ),
            crate::codec::spec_decode_payload(
                final(self).spec_log().subrange(ptr@.off + 2, ptr@.off + ptr@.size),
            ) == crate::codec::spec_decode_payload(payload@),
            forall|k: Seq<char>|
                old(self).ptrs().contains_key(k) ==> spec_ptr_valid(
                    final(self).spec_log(),
                    k,
                    old(self).ptrs()[k],
                ) && spec_value_at(final(self).spec_log(), old(self).ptrs()[k]) == spec_value_at(
                    old(self).spec_log(),
                    old(self).ptrs()[k],
                ),
    {
        proof {
            self.lemma_wf_facts();
            vstd::bytes::lemma_auto_spec_u16_to_from_le_bytes();
            vstd::bytes::lemma_auto_spec_u64_to_from_le_bytes();
        }
        let ghost oldlog = self.spec_log();
        let ghost oldptrs = self.index@;
        let ghost pay = payload@;
        let plen = payload.len();
        let oldoff = self.file.len() - 1024;
        let mut prefix = u16_to_le_bytes(plen as u16);
        self.file.append(&mut prefix);
        let mut pl = payload;
        self.file.append(&mut pl);
        self.records = self.records + 1;
        self.bytes = (self.file.len() - 1024) as u64;
        let rb = u64_to_le_bytes(self.records);
        splice(&mut self.file, 4, &rb);
        let bb = u64_to_le_bytes(self.bytes);
        splice(&mut self.file, 12, &bb);
        let ptr = LogPointer { offset: oldoff, size: plen + 2 };
        proof {
            let newlog = self.spec_log();
            let pfx = vstd::bytes::spec_u16_to_le_bytes(plen as u16);
            assert(newlog =~= oldlog + pfx + pay);
            assert(self.file@.subrange(0, 4) =~= old(self).file@.subrange(0, 4));
            assert(self.file@.subrange(4, 12) =~= vstd::bytes::spec_u64_to_le_bytes(self.records));
            assert(self.file@.subrange(12, 20) =~= vstd::bytes::spec_u64_to_le_bytes(self.bytes));
            assert(spec_parse_header(self.file@) == Some((self.records, self.bytes)));
            assert(newlog.subrange(0, oldlog.len() as int) =~= oldlog);
            lemma_replay_extend(oldlog, newlog, 0, old(self).records as nat, Map::empty());
            let e = crate::codec::spec_decode_payload(pay)->Some_0;
            let applied = spec_apply_entry(oldptrs, e, oldoff as int, plen as int);
            assert(newlog.subrange(oldoff as int, oldoff + 2) =~= pfx);
            assert(newlog.subrange(oldoff + 2, oldoff + 2 + plen) =~= pay);
            assert(spec_replay(newlog, oldoff + 2 + plen, 0, applied) == Some(
                (applied, oldoff + 2 + plen),
            ));
            assert(spec_replay(newlog, oldoff as int, 1, oldptrs) == Some(
                (applied, oldoff + 2 + plen),
            ));
            lemma_replay_compose(newlog, 0, old(self).records as nat, 1, Map::empty());
            assert(old(self).records as nat + 1 == self.records as nat);
            assert(spec_replay(newlog, 0, self.records as nat, Map::empty()) == Some(
                (applied, self.bytes as int),
            ));
            assert(newlog.subrange(ptr@.off + 2, ptr@.off + ptr@.size) =~= pay);
            assert forall|k: Seq<char>| oldptrs.contains_key(k) implies spec_ptr_valid(
                newlog,
                k,
                oldptrs[k],
            ) && spec_value_at(newlog, oldptrs[k]) == spec_value_at(oldlog, oldptrs[k]) by {
                lemma_ptr_valid_extend(oldlog, newlog, k, oldptrs[k]);
            }
        }
        ptr
    }

    /// Stores a value under a key by appending a put record and pointing
    /// the index at it. `Err(RecordTooLarge)` exactly when the record's
    /// payload would exceed the 16-bit length prefix, and then nothing
    /// changes.
    pub fn set(&mut self, key: String, value: String) -> (r: Result<(), KvErr>)
        requires
            old(self).wf(),
        ensures
            final(self).wf(),
            final(self).spec_image().len() == 1024 + final(self).spec_total_bytes(),
            r is Ok <==> spec_put_len(key@, value@) <= MAX_PAYLOAD,
            r is Ok ==> final(self)@ == old(self)@.insert(key@, value@)
                && final(self).spec_total_records() == old(self).spec_total_records() + 1
                && final(self).spec_total_bytes() == old(self).spec_total_bytes() + 2
                + spec_put_len(key@, value@),
            r is Err ==> r == Err::<(), KvErr>(KvErr::RecordTooLarge) && *final(self) == *old(self),
    {
        proof {
            self.lemma_wf_facts();
        }
        let entry = LogEntry {
            logid: self.records,
            operation: LogOperation::Put(key.clone(), value),
        };
        match encode_payload(&entry) {
            None => Err(KvErr::RecordTooLarge),
            Some(payload) => {
                proof {
                    crate::codec::lemma_payload_round_trip(entry@);
                }
                let ptr = self.append_record(payload);
                self.index.put(key, ptr);
                proof {
                    assert(self.wf());
                    assert(self@ =~= old(self)@.insert(key@, entry@.op->Put_value));
                }
                Ok(())
            },
        }
    }

    /// Removes a key: fails with `KeyNotFound`, before anything is
    /// written, when the key is absent from the index; otherwise appends a
    /// remove record and drops the key from the index.
    pub fn remove(&mut self, key: String) -> (r: Result<(), KvErr>)
        requires
            old(self).wf(),
        ensures
            final(self).wf(),
            final(self).spec_image().len() == 1024 + final(self).spec_total_bytes(),
            old(self)@.contains_key(key@) ==> r is Ok && final(self)@ == old(self)@.remove(key@)
                && final(self).spec_total_records() == old(self).spec_total_records() + 1,
            !old(self)@.contains_key(key@) ==> r == Err::<(), KvErr>(KvErr::KeyNotFound)
                && *final(self) == *old(self),
    {
        proof {
            self.lemma_wf_facts();
        }
        match self.index.get(&key) {
            None => Err(KvErr::KeyNotFound),
            Some(ptr) => {
                proof {
                    let pb = self.spec_log().subrange(ptr@.off + 2, ptr@.off + ptr@.size);
                    crate::codec::lemma_decode_len(pb);
                }
                let entry = LogEntry { logid: self.records, operation: LogOperation::Rm(
                    key.clone(),
                ) };
                match encode_payload(&entry) {
                    None => {
                        proof {
                            assert(false);
                        }
                        Err(KvErr::RecordTooLarge)
                    },
                    Some(payload) => {
                        proof {
                            crate::codec::lemma_payload_round_trip(entry@);
                        }
                        self.append_record(payload);
                        self.index.delete(&key);
                        proof {
                            assert(self.wf());
                            assert(self@ =~= old(self)@.remove(key@));
                        }
                        Ok(())
                    },
                }
            },
        }
    }

    /// Looks a key up: the value of its most recent put record, or `None`
    /// when the key is absent from the index.
    pub fn get(&self, key: String) -> (r: Result<Option<String>, KvErr>)
        requires
            self.wf(),
        ensures
            r is Ok,
            self@.contains_key(key@) ==> (r matches Ok(Some(v)) && v@ == self@[key@]),
            !self@.contains_key(key@) ==> r matches Ok(None),
    {
        let flen = self.file.len();
        proof {
            self.lemma_wf_facts();
            assert(flen == 1024 + self.bytes);
        }
        match self.index.get(&key) {
            None => Ok(None),
            Some(ptr) => {
                proof {
                    assert(spec_ptr_valid(self.spec_log(), key@, ptr@));
                    assert(1024 + ptr.offset + ptr.size <= flen);
                }
                let payload = slice_subrange(
                    self.file.as_slice(),
                    1024 + ptr.offset + 2,
                    1024 + ptr.offset + ptr.size,
                );
                proof {
                    assert(payload@ =~= self.spec_log().subrange(
                        ptr.offset + 2,
                        ptr.offset + ptr.size,
                    ));
                }
                match decode_payload(payload) {
                    Some(e) => match e.operation {
                        LogOperation::Put(_, v) => Ok(Some(v)),
                        LogOperation::Rm(_) => {
                            proof {
                                assert(false);
                            }
                            Err(KvErr::MalformedRecord)
                        },
                    },
                    None => {
                        proof {
                            assert(false);
                        }
                        Err(KvErr::MalformedRecord)
                    },
                }
            },
        }
    }

    /// Rewrites the log to hold only the records the index references, in
    /// index order, and resets the counters. Lookups are unchanged; after
    /// compaction the record count equals the number of live keys, the log
    /// region is exactly the referenced records, and the image is the
    /// header plus that region.
    pub fn compact(&mut self) -> (r: Result<(), KvErr>)
        requires
            old(self).wf(),
        ensures
            r is Ok,
            final(self).wf(),
            final(self)@ == old(self)@,
            final(self).spec_total_records() as int == final(self)@.dom().len(),
            final(self).spec_total_bytes() as int == final(self).spec_live_bytes(),
            final(self).spec_image().len() == 1024 + final(self).spec_total_bytes(),
    {
        proof {
            self.lemma_wf_facts();
            self.index.lemma_entries();
        }
        let ghost oldlog = self.spec_log();
        let ghost oldptrs = self.index@;
        let ghost oldview = self@;
        let ghost entries = self.index.spec_seq();
        let flen = self.file.len();
        let n = self.index.len();
        let mut newlog: Vec<u8> = Vec::new();
        let mut newindex = Index::new();
        let mut i: usize = 0;
        while i < n
            invariant
                i <= n,
                self.wf(),
                oldlog == self.spec_log(),
                oldptrs == self.index@,
                oldview == self@,
                entries == self.index.spec_seq(),
                flen == self.file@.len(),
                n == entries.len(),
                newindex.wf(),
                newindex.spec_seq().len() == i,
                newlog@.len() == spec_size_sum(newindex.spec_seq()),
                spec_replay(newlog@, 0, i as nat, Map::empty()) == Some(
                    (newindex@, newlog@.len() as int),
                ),
                forall|j: int|
                    0 <= j < i ==> (#[trigger] newindex.spec_seq()[j]).0@ == entries[j].0@
                        && newindex.spec_seq()[j].1.size == entries[j].1.size,
                forall|k: Seq<char>|
                    #[trigger] newindex@.contains_key(k) ==> oldptrs.contains_key(k)
                        && spec_ptr_valid(newlog@, k, newindex@[k]) && spec_value_at(
                        newlog@,
                        newindex@[k],
                    ) == oldview[k],
                forall|k: Seq<char>|
                    newindex@.contains_key(k) <==> exists|j: int|
                        0 <= j < i && (#[trigger] entries[j]).0@ == k,
            decreases n - i,
        {
            proof {
                self.lemma_wf_facts();
                self.index.lemma_entries();
            }
            let key = self.index.key_at(i).clone();
            let ptr = self.index.ptr_at(i);
            proof {
                assert(oldptrs.contains_key(key@) && oldptrs[key@] == ptr@);
                assert(spec_ptr_valid(oldlog, key@, ptr@));
                assert(1024 + ptr.offset + ptr.size <= flen);
                assert(!newindex@.contains_key(key@)) by {
                    if newindex@.contains_key(key@) {
                        let j = choose|j: int| 0 <= j < i && (#[trigger] entries[j]).0@ == key@;
                        assert(entries[j].0@ == entries[i as int].0@);
                    }
                }
            }
            let ghost prevlog = newlog@;
            let ghost prevmap = newindex@;
            let ghost prevseq = newindex.spec_seq();
            let newoff = newlog.len();
            let mut rec = vstd::slice::slice_to_vec(
                slice_subrange(self.file.as_slice(), 1024 + ptr.offset, 1024 + ptr.offset
                    + ptr.size),
            );
            let ghost recb = rec@;
            newlog.append(&mut rec);
            let newptr = LogPointer { offset: newoff, size: ptr.size };
            newindex.put(key, newptr);
            proof {
                assert(recb =~= oldlog.subrange(ptr@.off, ptr@.off + ptr@.size));
                assert(newlog@ == prevlog + recb);
                assert(prevlog.len() == newoff);
                assert(newlog@.subrange(0, prevlog.len() as int) =~= prevlog);
                lemma_replay_extend(prevlog, newlog@, 0, i as nat, Map::empty());
                assert(newlog@.subrange(newoff as int, newoff + 2) =~= oldlog.subrange(
                    ptr@.off,
                    ptr@.off + 2,
                ));
                assert(newlog@.subrange(newoff + 2, newoff + ptr@.size) =~= oldlog.subrange(
                    ptr@.off + 2,
                    ptr@.off + ptr@.size,
                ));
                let e = crate::codec::spec_decode_payload(
                    oldlog.subrange(ptr@.off + 2, ptr@.off + ptr@.size),
                )->Some_0;
                let applied = spec_apply_entry(prevmap, e, newoff as int, ptr@.size - 2);
                assert(applied == prevmap.insert(key@, newptr@));
                assert(spec_replay(newlog@, newoff + ptr@.size, 0, applied) == Some(
                    (applied, newoff + ptr@.size),
                ));
                assert(spec_replay(newlog@, newoff as int, 1, prevmap) == Some(
                    (applied, newoff + ptr@.size),
                ));
                lemma_replay_compose(newlog@, 0, i as nat, 1, Map::empty());
                assert(spec_replay(newlog@, 0, (i + 1) as nat, Map::empty()) == Some(
                    (newindex@, newlog@.len() as int),
                ));
                assert(newindex.spec_seq() == prevseq.push((key, newptr)));
                assert(newindex.spec_seq().drop_last() =~= prevseq);
                assert(newlog@.len() == spec_size_sum(newindex.spec_seq()));
                assert forall|k: Seq<char>| newindex@.contains_key(k) implies oldptrs.contains_key(
                    k,
                ) && spec_ptr_valid(newlog@, k, newindex@[k]) && spec_value_at(
                    newlog@,
                    newindex@[k],
                ) == oldview[k] by {
                    if k == key@ {
                        assert(spec_value_at(newlog@, newptr@) == spec_value_at(oldlog, ptr@));
                        assert(oldview[k] == spec_value_at(oldlog, ptr@));
                    } else {
                        assert(prevmap.contains_key(k));
                        assert(newindex@[k] == prevmap[k]);
                        assert(spec_ptr_valid(prevlog, k, prevmap[k]) && spec_value_at(
                            prevlog,
                            prevmap[k],
                        ) == oldview[k]);
                        lemma_ptr_valid_extend(prevlog, newlog@, k, prevmap[k]);
                    }
                }
                assert forall|k: Seq<char>|
                    newindex@.contains_key(k) <==> exists|j: int|
                        0 <= j < i + 1 && (#[trigger] entries[j]).0@ == k by {
                    if newindex@.contains_key(k) {
                        if k == key@ {
                            assert(entries[i as int].0@ == k);
                        } else {
                            let j = choose|j: int| 0 <= j < i && (#[trigger] entries[j]).0@ == k;
                            assert(entries[j].0@ == k);
                        }
                    }
                }
            }
            i += 1;
        }
        let records = n as u64;
        let bytes = newlog.len() as u64;
        let ghost nl = newlog@;
        let mut newfile = header_bytes(records, bytes);
        newfile.append(&mut newlog);
        proof {
            crate::codec::lemma_header_round_trip(records, bytes);
            self.index.lemma_entries();
            newindex.lemma_entries();
            assert(newindex@.dom() =~= oldptrs.dom());
            assert(oldview.dom() =~= oldptrs.dom());
        }
        self.file = newfile;
        self.records = records;
        self.bytes = bytes;
        self.index = newindex;
        proof {
            assert(self.file@.subrange(0, 4) =~= spec_header_bytes(records, bytes).subrange(0, 4));
            assert(self.file@.subrange(4, 12) =~= spec_header_bytes(records, bytes).subrange(
                4,
                12,
            ));
            assert(self.file@.subrange(12, 20) =~= spec_header_bytes(records, bytes).subrange(
                12,
                20,
            ));
            assert(spec_parse_header(self.file@) == Some((records, bytes)));
            assert(self.spec_log() =~= nl);
            assert(self.wf());
            assert(self@ =~= oldview);
        }
        Ok(())
    }

    /// Opening the image of a well-formed store yields the same mapping:
    /// whatever one engine wrote, a fresh engine reads back identically.
    pub proof fn lemma_reopen(self)
        requires
            self.wf(),
        ensures
            spec_open_view(self.spec_image()) == Some(self@),
    {
        let bytes = self.spec_image();
        assert(bytes.subrange(1024, 1024 + self.bytes as int) =~= self.spec_log());
        assert(spec_open_ptrs(bytes) == Some((self.index@, self.records, self.bytes)));
    }

    /// The image of the backing file: what the shell writes to disk.
    pub fn file_image(&self) -> (b: &Vec<u8>)
        ensures
            b@ == self.spec_image(),
    {
        &self.file
    }

    /// The number of records appended since the last compaction or open
    /// that reset the counters.
    pub fn total_records(&self) -> (n: u64)
        ensures
            n == self.spec_total_records(),
    {
        self.records
    }

    /// The byte length of the log region.
    pub fn total_bytes(&self) -> (n: u64)
        ensures
            n == self.spec_total_bytes(),
    {
        self.bytes
    }
}

} // verus!
