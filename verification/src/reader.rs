//! The scan reader.
//!
//! A reader is positioned at a global offset (held as a segment base plus an
//! in-segment offset) and produces a bounded batch of records, crossing into
//! the next segment whenever the current one is exhausted but committed
//! bytes remain, and never reading at or past the safe boundary it was
//! handed. The position it ends at resumes the scan exactly: no record is
//! returned twice, none is skipped.

use vstd::prelude::*;

use crate::framing::{
    framed, framed_len, lemma_framed_cat_single, lemma_framed_len_concat, lemma_records_peel,
    records_of, NL,
};
use crate::record::Record;
use crate::store::{base_of, cat, lemma_base_total, lemma_cat_slice, lemma_cat_take_succ, total,
    wf_segments};
use crate::CoreError;

verus! {

/// Scans one line of a framed segment: the bytes from `from` up to but not
/// including the next delimiter, and the index just past that delimiter.
#[verifier::loop_isolation(false)]
fn read_line(seg: &Vec<u8>, from: usize) -> (r: (Vec<u8>, usize))
    requires
        from < seg@.len(),
        framed(seg@),
    ensures
        from < r.1 <= seg@.len(),
        seg@[r.1 - 1] == NL,
        forall|i: int| from <= i < r.1 - 1 ==> seg@[i] != NL,
        r.0@ == seg@.subrange(from as int, r.1 - 1),
{
    let mut payload: Vec<u8> = Vec::new();
    let mut j: usize = from;
    while j < seg.len() && seg[j] != NL
        invariant
            from <= j <= seg@.len(),
            forall|i: int| from <= i < j ==> seg@[i] != NL,
            payload@ == seg@.subrange(from as int, j as int),
        decreases seg@.len() - j,
    {
        payload.push(seg[j]);
        j = j + 1;
        assert(payload@ =~= seg@.subrange(from as int, j as int));
    }
    proof {
        if j == seg@.len() {
            assert(seg@[seg@.len() - 1] != NL);
            assert(false);
        }
    }
    (payload, j + 1)
}

/// The scan reader: a position in the log, the boundary it must respect,
/// and the batch bound.
pub struct ShardReader {
    /// Base offset of the segment the reader is positioned in.
    pub segment_id: u64,
    /// The safe read boundary this scan was handed; it never reads at or
    /// past it.
    pub latest_log_offset: u64,
    /// In-segment offset of the read position.
    pub offset: u64,
    /// The most records one call returns.
    pub chunk_size: usize,
}

impl ShardReader {
    /// The global offset the reader stands at.
    pub open spec fn pos(&self) -> int {
        self.segment_id + self.offset
    }

    /// Produces up to `chunk_size` records starting at the reader's
    /// position, stopping at the boundary, and leaves the reader at the
    /// position where a later scan resumes without duplicate or gap. A
    /// position at or past the boundary yields an empty batch and an
    /// unchanged position.
    #[verifier::loop_isolation(false)]
    pub fn read(&mut self, segments: &Vec<Vec<u8>>) -> (r: Result<Vec<Record>, CoreError>)
        requires
            wf_segments(segments.deep_view()),
            total(segments.deep_view()) <= u64::MAX,
            old(self).latest_log_offset <= total(segments.deep_view()),
            framed(cat(segments.deep_view()).take(old(self).latest_log_offset as int)),
            old(self).segment_id + old(self).offset <= u64::MAX,
        ensures
            r is Ok,
            final(self).latest_log_offset == old(self).latest_log_offset,
            final(self).chunk_size == old(self).chunk_size,
            ({
                let sv = segments.deep_view();
                let bound = old(self).latest_log_offset as int;
                let start = old(self).pos();
                if start >= bound {
                    r matches Ok(recs) && recs@.len() == 0 && final(self).pos() == start
                } else {
                    let all = records_of(cat(sv).subrange(start, bound));
                    let n = if old(self).chunk_size <= all.len() {
                        old(self).chunk_size as int
                    } else {
                        all.len() as int
                    };
                    r matches Ok(recs) && recs.deep_view() == all.take(n) && final(self).pos()
                        == start + framed_len(all.take(n))
                }
            }),
    {
        let ghost sv = segments.deep_view();
        let ghost log = cat(sv);
        let bound = self.latest_log_offset;
        let chunk = self.chunk_size;
        let mut recs: Vec<Record> = Vec::new();
        let start = self.segment_id + self.offset;
        if start >= bound {
            return Ok(recs);
        }
        let seg_count: usize = segments.len();
        proof {
            assert(sv.len() == seg_count);
        }
        let ghost window = log.subrange(start as int, bound as int);
        let ghost all = records_of(window);
        proof {
            lemma_base_total(sv);
            assert(window.len() > 0);
            assert(framed(window)) by {
                assert(window[window.len() - 1] == log.take(bound as int)[bound - 1]);
            }
        }
        // find the segment holding `start`, walking the partial sums
        let mut idx: usize = 0;
        let mut base: u64 = 0;
        let mut off_in: u64 = start;
        while off_in >= segments[idx].len() as u64
            invariant
                0 <= idx < sv.len(),
                sv.len() == seg_count,
                base as int == base_of(sv, idx as int),
                base <= start,
                off_in == start - base,
            decreases sv.len() - idx,
        {
            proof {
                lemma_cat_take_succ(sv, idx as int);
                if idx + 1 == sv.len() {
                    assert(base_of(sv, sv.len() as int) == total(sv));
                    assert(false);
                }
            }
            base = base + segments[idx].len() as u64;
            off_in = off_in - segments[idx].len() as u64;
            idx = idx + 1;
        }
        let mut off: usize = off_in as usize;
        let mut pos: u64 = start;
        while recs.len() < chunk && pos < bound
            invariant
                0 <= idx < sv.len(),
                sv.len() == seg_count,
                base as int == base_of(sv, idx as int),
                off <= sv[idx as int].len(),
                pos == base + off,
                start <= pos <= bound,
                recs@.len() <= all.len(),
                recs@.len() <= chunk,
                recs.deep_view() == all.take(recs@.len() as int),
                pos - start == framed_len(all.take(recs@.len() as int)),
                records_of(log.subrange(pos as int, bound as int)) == all.skip(
                    recs@.len() as int,
                ),
            decreases bound - pos, sv.len() - idx,
        {
            let seg_len = segments[idx].len();
            if off == seg_len {
                // this segment is exhausted but committed bytes remain:
                // continue in the next one, whose base continues the log
                proof {
                    lemma_cat_take_succ(sv, idx as int);
                    if idx + 1 == sv.len() {
                        assert(base_of(sv, sv.len() as int) == total(sv));
                        assert(false);
                    }
                }
                base = base + seg_len as u64;
                off = 0;
                idx = idx + 1;
            } else {
                let ghost m = recs@.len() as int;
                let ghost rem = log.subrange(pos as int, bound as int);
                proof {
                    lemma_cat_slice(sv, idx as int);
                    assert(framed(rem)) by {
                        assert(rem[rem.len() - 1] == log.take(bound as int)[bound - 1]);
                    }
                    assert(records_of(rem).len() >= 1);
                    assert(m < all.len());
                }
                let (payload, end) = read_line(&segments[idx], off);
                let ghost e = base + end - 1;
                proof {
                    // the bytes of this segment are a slice of the log
                    let b = base_of(sv, idx as int);
                    let seg = sv[idx as int];
                    assert(forall|j: int|
                        0 <= j < seg.len() ==> log[b + j] == #[trigger] seg[j]);
                    // the line's delimiter lies below the boundary: were it
                    // not, every byte of `rem` would be delimiter-free,
                    // contradicting that `rem` is framed and nonempty
                    if e >= bound {
                        assert(log[bound - 1] == seg[bound - 1 - b]);
                        assert(rem[rem.len() - 1] == log[bound - 1]);
                        assert(seg[bound - 1 - b] != NL);
                        assert(false);
                    }
                    assert(rem[e - pos] == NL) by {
                        assert(log[b + (end - 1)] == seg[end - 1]);
                        assert(rem[e - pos] == log[e]);
                    }
                    assert forall|i: int| 0 <= i < e - pos implies rem[i] != NL by {
                        let j = off + i;
                        assert(log[b + j] == seg[j]);
                        assert(seg[j] != NL);
                        assert(rem[i] == log[pos + i]);
                    }
                    lemma_records_peel(rem, e - pos);
                    assert(payload@ =~= rem.subrange(0, e - pos)) by {
                        assert forall|i: int| 0 <= i < e - pos implies payload@[i] == rem.subrange(
                            0,
                            e - pos,
                        )[i] by {
                            let j = off + i;
                            assert(log[b + j] == seg[j]);
                            assert(payload@[i] == seg[j]);
                            assert(rem.subrange(0, e - pos)[i] == log[pos + i]);
                        }
                    }
                    assert(rem.subrange(e - pos + 1, rem.len() as int) =~= log.subrange(
                        e + 1,
                        bound as int,
                    ));
                    // the record read is the next unreturned one
                    assert(all.skip(m)[0] == all[m]);
                    assert(all[m] == payload@);
                    assert(records_of(log.subrange(e + 1, bound as int)) =~= all.skip(m + 1)) by {
                        assert(records_of(rem).drop_first() =~= all.skip(m).drop_first());
                        assert(all.skip(m).drop_first() =~= all.skip(m + 1));
                    }
                    // one more record: one more serialized line consumed
                    assert(all.take(m + 1) =~= all.take(m) + seq![all[m]]);
                    lemma_framed_len_concat(all.take(m), seq![all[m]]);
                    lemma_framed_cat_single(all[m]);
                }
                recs.push(Record(payload));
                proof {
                    assert(recs.deep_view() =~= all.take(recs@.len() as int));
                }
                pos = pos + (end - off) as u64;
                off = end;
            }
        }
        proof {
            let m = recs@.len() as int;
            let n = if chunk <= all.len() {
                chunk as int
            } else {
                all.len() as int
            };
            if pos == bound {
                assert(log.subrange(pos as int, bound as int) =~= Seq::<u8>::empty());
                assert(all.skip(m).len() == 0);
                assert(m == all.len());
            }
            assert(m == n);
        }
        self.segment_id = base;
        self.offset = off as u64;
        Ok(recs)
    }
}

} // verus!
