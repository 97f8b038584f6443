//! The stream controller.
//!
//! The controller is the single entry point protocol adapters call: it owns
//! the append engine and its segments, publishes the safe read boundary
//! after every accepted append, and serves scans against a snapshot of that
//! boundary. A rejected append changes nothing; a scan never blocks the
//! writer and never reads past the boundary it snapshotted.

use vstd::prelude::*;

use crate::catalog::ShardDir;
use crate::framing::{framed, framed_len, lemma_records_ascii, records_of, NL};
use crate::reader::ShardReader;
use crate::record::{ascii_chars, is_base64, Record};
use crate::store::{
    base_of, cat, lemma_base_mono, lemma_base_total, lemma_cat_take_succ, lemma_cat_wf, total,
    wf_segments,
};
use crate::writer::ShardWriter;
use crate::CoreError;

verus! {

/// Where a client wants to start reading.
#[derive(Debug, Clone, Copy, PartialEq, Eq, Structural)]
pub enum ShardIteratorType {
    /// At the tip: only records appended after this call.
    Latest,
    /// At the oldest retained byte: a full replay.
    Oldest,
}

/// The pre-validated requests a protocol adapter hands to the core.
pub enum Request {
    /// Ask for a starting iterator.
    GetShardIterator(ShardIteratorType),
    /// Scan records from the given iterator.
    GetRecords(u64),
    /// Append one record.
    PutRecords(Vec<u8>),
}

/// The outcome of a scan: the records read, and the iterator at which a
/// later scan resumes exactly where this one stopped.
#[derive(Debug, PartialEq)]
pub struct GetRecordsResponse {
    /// Where to resume.
    pub next_shard_iterator: u64,
    /// The records, in log order.
    pub records: Vec<String>,
}

/// The acknowledgement of an accepted append.
#[derive(Debug, PartialEq)]
pub struct PutRecordsResponse {}

/// The stream controller: the append engine with its segments, the
/// published safe read boundary, and the scan batch bound.
#[derive(Debug)]
pub struct ShardController {
    /// The append engine; it owns the segment files.
    pub writer: ShardWriter,
    /// The safe read boundary: the global offset just past the newest byte
    /// whose append completed. Published only after the bytes are in place,
    /// so a scan bounded by it never sees a partial line.
    pub latest_log_offset: u64,
    /// How many records one scan returns at most.
    pub chunk_size: usize,
}

impl ShardController {
    /// The segments' bytes, oldest first.
    pub open spec fn segs(&self) -> Seq<Seq<u8>> {
        self.writer.segs()
    }

    /// The committed log: every byte at an offset below the boundary.
    pub open spec fn committed(&self) -> Seq<u8> {
        self.writer.log()
    }

    /// Well-formedness: the writer is well formed and the published
    /// boundary covers exactly the committed bytes.
    pub open spec fn wf(&self) -> bool {
        &&& self.writer.wf()
        &&& self.latest_log_offset as int == total(self.segs())
    }

    /// A fresh store: one empty segment with base offset zero, nothing
    /// committed, boundary zero.
    pub fn new(max_segment_size: u64, chunk_size: usize) -> (c: ShardController)
        ensures
            c.wf(),
            c.committed() == Seq::<u8>::empty(),
            c.latest_log_offset == 0,
            c.chunk_size == chunk_size,
            c.writer.max_segment_size == max_segment_size,
            c.writer.latest_segment == 0,
    {
        let mut segments: Vec<Vec<u8>> = Vec::new();
        segments.push(Vec::new());
        let writer = ShardWriter { latest_segment: 0, segments, offset: 0, max_segment_size };
        proof {
            assert(writer.segs() =~~= seq![Seq::<u8>::empty()]);
            assert(writer.segs().drop_last() =~= Seq::<Seq<u8>>::empty());
            assert(writer.segs().take(0int) =~= Seq::<Seq<u8>>::empty());
            assert(cat(Seq::<Seq<u8>>::empty()) == Seq::<u8>::empty());
            assert(cat(writer.segs()) =~= Seq::<u8>::empty());
        }
        ShardController { writer, latest_log_offset: 0, chunk_size }
    }

    /// Rebuilds the store from the segment contents found on disk, oldest
    /// first. The files must form a contiguous textual log: every segment
    /// framed, every byte ASCII, no empty segment before the tail, and the
    /// whole within the offset range. The cursor and the boundary are
    /// seeded by scanning what was read, as at startup.
    pub fn from_segments(segments: Vec<Vec<u8>>, max_segment_size: u64, chunk_size: usize) -> (r:
        Result<ShardController, CoreError>)
        ensures
            r is Ok <==> (wf_segments(segments.deep_view()) && total(segments.deep_view())
                <= u64::MAX),
            r matches Ok(c) ==> c.wf() && c.committed() == cat(segments.deep_view())
                && c.latest_log_offset as int == total(segments.deep_view()) && c.chunk_size
                == chunk_size && c.writer.max_segment_size == max_segment_size,
            r matches Err(e) ==> (e == CoreError::NotInitialized <==> segments.deep_view().len()
                == 0) && (e == CoreError::NotInitialized || e == CoreError::CorruptCatalog),
    {
        let ghost sv = segments.deep_view();
        if segments.len() == 0 {
            return Err(CoreError::NotInitialized);
        }
        let mut tot: u64 = 0;
        let mut i: usize = 0;
        while i < segments.len()
            invariant
                sv == segments.deep_view(),
                sv.len() == segments@.len(),
                sv.len() >= 1,
                i <= sv.len(),
                tot as int == base_of(sv, i as int),
                forall|j: int| 0 <= j < i ==> framed(#[trigger] sv[j]),
                forall|j: int| 0 <= j < i && j < sv.len() - 1 ==> (#[trigger] sv[j]).len() > 0,
                forall|j: int|
                    0 <= j < i ==> crate::framing::all_ascii(#[trigger] sv[j]),
            decreases sv.len() - i,
        {
            let seg_len = segments[i].len();
            if seg_len == 0 {
                if i + 1 < segments.len() {
                    proof {
                        assert(!wf_segments(sv)) by {
                            if wf_segments(sv) {
                                assert(sv[i as int].len() > 0);
                            }
                        }
                    }
                    return Err(CoreError::CorruptCatalog);
                }
            } else {
                if segments[i][seg_len - 1] != NL {
                    proof {
                        assert(!wf_segments(sv)) by {
                            if wf_segments(sv) {
                                assert(framed(sv[i as int]));
                            }
                        }
                    }
                    return Err(CoreError::CorruptCatalog);
                }
            }
            let mut j: usize = 0;
            while j < seg_len
                invariant
                    sv == segments.deep_view(),
                    0 <= i < sv.len(),
                    seg_len == sv[i as int].len(),
                    j <= seg_len,
                    forall|k: int| 0 <= k < j ==> #[trigger] sv[i as int][k] < 128,
                decreases seg_len - j,
            {
                if segments[i][j] >= 128 {
                    proof {
                        assert(!wf_segments(sv)) by {
                            if wf_segments(sv) {
                                assert(crate::framing::all_ascii(sv[i as int]));
                                assert(sv[i as int][j as int] < 128);
                            }
                        }
                    }
                    return Err(CoreError::CorruptCatalog);
                }
                j = j + 1;
            }
            proof {
                lemma_cat_take_succ(sv, i as int);
            }
            tot = match tot.checked_add(seg_len as u64) {
                Some(t) => t,
                None => {
                    proof {
                        lemma_base_mono(sv, i + 1 as int, sv.len() as int);
                        lemma_base_total(sv);
                    }
                    return Err(CoreError::CorruptCatalog);
                },
            };
            i = i + 1;
        }
        proof {
            lemma_base_total(sv);
        }
        let tail_len = segments[segments.len() - 1].len() as u64;
        let writer = ShardWriter {
            latest_segment: tot - tail_len,
            segments,
            offset: tail_len,
            max_segment_size,
        };
        proof {
            lemma_cat_take_succ(sv, sv.len() - 1);
            assert(sv.take(sv.len() as int) =~= sv);
        }
        Ok(ShardController { writer, latest_log_offset: tot, chunk_size })
    }

    /// The catalog of this store's segments, as a directory listing would
    /// give it: one base offset per segment, oldest first.
    #[verifier::loop_isolation(false)]
    pub fn shard_dir(&self) -> (d: ShardDir)
        requires
            self.wf(),
        ensures
            d.bases@.len() == self.segs().len(),
            forall|i: int|
                0 <= i < d.bases@.len() ==> #[trigger] d.bases@[i] as int == base_of(
                    self.segs(),
                    i,
                ),
    {
        let ghost sv = self.segs();
        let seg_count = self.writer.segments.len();
        let mut bases: Vec<u64> = Vec::new();
        let mut acc: u64 = 0;
        let mut i: usize = 0;
        while i < seg_count
            invariant
                i <= seg_count,
                bases@.len() == i,
                acc as int == base_of(sv, i as int),
                forall|j: int| 0 <= j < i ==> #[trigger] bases@[j] as int == base_of(sv, j),
            decreases seg_count - i,
        {
            proof {
                lemma_cat_take_succ(sv, i as int);
                lemma_base_mono(sv, i + 1 as int, sv.len() as int);
                lemma_base_total(sv);
            }
            bases.push(acc);
            acc = acc + self.writer.segments[i].len() as u64;
            i = i + 1;
        }
        ShardDir { bases }
    }

    /// Appends one record: validate, write behind the single-writer lock,
    /// then publish the new boundary. The boundary moves only after the
    /// bytes are in place; a rejected record leaves everything untouched.
    pub fn put_records(&mut self, records: Record) -> (r: Result<PutRecordsResponse, CoreError>)
        requires
            old(self).wf(),
            old(self).committed().len() + records@.len() + 1 <= u64::MAX,
        ensures
            final(self).wf(),
            final(self).chunk_size == old(self).chunk_size,
            final(self).writer.max_segment_size == old(self).writer.max_segment_size,
            r is Ok <==> is_base64(records@),
            r is Ok ==> final(self).committed() == old(self).committed() + records@ + seq![NL]
                && final(self).latest_log_offset == old(self).latest_log_offset + records@.len()
                + 1 && r == Ok::<PutRecordsResponse, CoreError>(PutRecordsResponse {  }),
            r matches Err(e) ==> e == CoreError::InvalidRecord && *final(self) == *old(self),
    {
        match self.writer.writez(records) {
            Ok(_) => {
                proof {
                    self.writer.lemma_wf_boundary();
                }
                self.latest_log_offset = self.writer.latest_segment + self.writer.offset;
                Ok(PutRecordsResponse {  })
            },
            Err(e) => Err(e),
        }
    }

    /// Scans up to `chunk_size` records from the given iterator against the
    /// current boundary snapshot, and returns them together with the
    /// iterator to resume at. An iterator at or past the boundary — nothing
    /// committed there yet — yields an empty batch and comes back
    /// unchanged.
    #[verifier::loop_isolation(false)]
    pub fn get_records(&self, shard_iterator: u64) -> (r: GetRecordsResponse)
        requires
            self.wf(),
        ensures
            ({
                let bound = self.latest_log_offset as int;
                if shard_iterator >= bound {
                    r.records@.len() == 0 && r.next_shard_iterator == shard_iterator
                } else {
                    let all = records_of(
                        self.committed().subrange(shard_iterator as int, bound),
                    );
                    let n = if self.chunk_size <= all.len() {
                        self.chunk_size as int
                    } else {
                        all.len() as int
                    };
                    r.records.deep_view() == all.take(n).map_values(
                        |b: Seq<u8>| ascii_chars(b),
                    ) && r.next_shard_iterator == shard_iterator + framed_len(all.take(n))
                }
            }),
    {
        let ghost sv = self.segs();
        let dir = self.shard_dir();
        proof {
            assert(dir.bases@[0] as int == base_of(sv, 0));
            assert(sv.take(0int) =~= Seq::<Seq<u8>>::empty());
            assert(dir.bases@[0] == 0);
        }
        let (shard_id, offset) = dir.find_belonging_segment(shard_iterator);
        proof {
            // the catalog invariant of the data model: for an offset below
            // the boundary, the greatest base offset not past it — what the
            // catalog just answered — names exactly the segment containing
            // it, so the reader is seeded inside a real segment
            if shard_iterator < self.latest_log_offset {
                crate::store::lemma_locate(sv, shard_iterator as int);
                let idx = crate::store::seg_index_of(sv, shard_iterator as int);
                assert(shard_id as int == base_of(sv, idx)) by {
                    let k = choose|k: int|
                        0 <= k < dir.bases@.len() && dir.bases@[k] == shard_id;
                    assert(dir.bases@[k] as int == base_of(sv, k));
                    assert(base_of(sv, k) <= base_of(sv, idx));
                    assert(dir.bases@[idx] as int == base_of(sv, idx));
                    assert(dir.bases@[idx] <= shard_id);
                }
                assert(offset < sv[idx].len());
            }
        }
        let mut reader = ShardReader {
            segment_id: shard_id,
            latest_log_offset: self.latest_log_offset,
            offset,
            chunk_size: self.chunk_size,
        };
        proof {
            lemma_cat_wf(sv);
            assert(cat(sv).take(self.latest_log_offset as int) =~= cat(sv));
        }
        let records = match reader.read(&self.writer.segments) {
            Ok(rs) => rs,
            Err(_) => {
                proof {
                    assert(false);
                }
                Vec::new()
            },
        };
        let ghost bound = self.latest_log_offset as int;
        let ghost window = self.committed().subrange(shard_iterator as int, bound);
        proof {
            if shard_iterator < bound {
                let all = records_of(window);
                let n = if self.chunk_size <= all.len() {
                    self.chunk_size as int
                } else {
                    all.len() as int
                };
                assert(framed(window)) by {
                    assert(window[window.len() - 1] == cat(sv)[bound - 1]);
                }
                crate::framing::lemma_iterator_continuity(window, n);
                assert(crate::framing::all_ascii(window)) by {
                    assert forall|i: int| 0 <= i < window.len() implies window[i] < 128 by {
                        assert(window[i] == cat(sv)[shard_iterator + i]);
                    }
                }
                lemma_records_ascii(window);
                assert forall|j: int| 0 <= j < records@.len() implies crate::framing::all_ascii(
                    records@[j]@,
                ) by {
                    assert(records.deep_view()[j] == all.take(n)[j]);
                    assert(all.take(n)[j] == all[j]);
                }
            } else {
                assert(records@.len() == 0);
            }
        }
        let mut out: Vec<String> = Vec::new();
        let mut i: usize = 0;
        while i < records.len()
            invariant
                i <= records@.len(),
                out@.len() == i,
                forall|j: int|
                    0 <= j < records@.len() ==> crate::framing::all_ascii(
                        #[trigger] records@[j]@,
                    ),
                forall|j: int|
                    0 <= j < i ==> #[trigger] out@[j]@ == ascii_chars(records@[j]@),
            decreases records@.len() - i,
        {
            out.push(records[i].as_string());
            i = i + 1;
        }
        proof {
            if shard_iterator < bound {
                let all = records_of(window);
                let n = if self.chunk_size <= all.len() {
                    self.chunk_size as int
                } else {
                    all.len() as int
                };
                assert(out.deep_view() =~= all.take(n).map_values(|b: Seq<u8>| ascii_chars(b)));
            } else {
                assert(records@.len() == 0);
            }
        }
        GetRecordsResponse {
            next_shard_iterator: reader.segment_id + reader.offset,
            records: out,
        }
    }

    /// The iterator a client should start from: the current boundary for
    /// `Latest` (only what comes next), the base offset of the oldest
    /// segment — zero, since segment zero is never pruned — for `Oldest`.
    pub fn get_shard_iterator(&self, iterator_type: &ShardIteratorType) -> (r: u64)
        requires
            self.wf(),
        ensures
            iterator_type is Latest ==> r == self.latest_log_offset,
            iterator_type is Oldest ==> r as int == base_of(self.segs(), 0) && r == 0,
    {
        match iterator_type {
            ShardIteratorType::Latest => self.latest_log_offset,
            ShardIteratorType::Oldest => {
                let dir = self.shard_dir();
                proof {
                    assert(dir.bases@[0] as int == base_of(self.segs(), 0));
                    assert(self.segs().take(0int) =~= Seq::<Seq<u8>>::empty());
                }
                match dir.get_oldest_segment() {
                    Ok(v) => {
                        proof {
                            assert(v <= dir.bases@[0]);
                        }
                        v
                    },
                    Err(_) => {
                        proof {
                            assert(false);
                        }
                        0
                    },
                }
            },
        }
    }
}

} // verus!
