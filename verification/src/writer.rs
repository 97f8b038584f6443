//! The append engine.
//!
//! A single writer owns the tail segment. An accepted record is validated
//! first, then its serialized line is appended to the tail and the write
//! cursor advances; once the cursor passes the rollover threshold, the tail
//! is closed and a fresh, empty segment whose base offset continues the log
//! is opened. A rejected record mutates nothing.

use vstd::prelude::*;

use crate::framing::{all_ascii, framed, nl_free, NL};
use crate::record::{assert_recordable, is_base64, Record};
use crate::store::{
    base_of, cat, lemma_base_total, lemma_cat_extend_tail, lemma_cat_push_empty,
    lemma_cat_take_succ, total, wf_segments,
};
use crate::CoreError;

verus! {

/// What any shard writer promises: its log grows by exactly one serialized
/// record per accepted write, and a rejected write changes nothing.
pub trait ShaW {
    /// The writer's own well-formedness.
    spec fn inv(&self) -> bool;

    /// The log as written so far.
    spec fn log_view(&self) -> Seq<u8>;

    /// Appends one record to the log, or rejects it untouched.
    fn write(&mut self, record: Record) -> (r: Result<(), CoreError>)
        requires
            old(self).inv(),
            old(self).log_view().len() + record@.len() + 1 <= u64::MAX,
        ensures
            final(self).inv(),
            r is Ok <==> is_base64(record@),
            r is Ok ==> final(self).log_view() == old(self).log_view() + record@ + seq![NL],
            r matches Err(e) ==> e == CoreError::InvalidRecord && final(self).log_view() == old(
                self,
            ).log_view(),
    ;
}

/// The single writer's state: the segment files, the tail segment's base
/// offset, the write cursor, and the rollover threshold.
#[derive(Debug)]
pub struct ShardWriter {
    /// Base offset of the tail segment, the only one open for append.
    pub latest_segment: u64,
    /// The segment files, oldest first; the last one is the tail.
    pub segments: Vec<Vec<u8>>,
    /// The write cursor: how many bytes the tail segment holds.
    pub offset: u64,
    /// The rollover threshold: once the cursor passes it, the tail is closed
    /// and a fresh segment opened.
    pub max_segment_size: u64,
}

impl ShardWriter {
    /// The segments' bytes, oldest first.
    pub open spec fn segs(&self) -> Seq<Seq<u8>> {
        self.segments.deep_view()
    }

    /// The log this writer has built: all segments' bytes, in order.
    pub open spec fn log(&self) -> Seq<u8> {
        cat(self.segs())
    }

    /// Well-formedness: the store is well formed, offsets fit, the tail base
    /// is the sum of the closed segments' lengths, and the cursor is the
    /// tail's length.
    pub open spec fn wf(&self) -> bool {
        &&& wf_segments(self.segs())
        &&& total(self.segs()) <= u64::MAX
        &&& self.latest_segment as int == base_of(self.segs(), self.segs().len() - 1)
        &&& self.offset as int == self.segs().last().len()
    }

    /// Under well-formedness the tail base plus the cursor is the length of
    /// the whole log: the offset just past the newest committed byte.
    pub proof fn lemma_wf_boundary(&self)
        requires
            self.wf(),
        ensures
            self.latest_segment + self.offset == total(self.segs()),
    {
        let segs = self.segs();
        lemma_cat_take_succ(segs, segs.len() - 1);
        lemma_base_total(segs);
    }

    /// Appends one record to the tail segment. The record is validated
    /// before anything is touched: an invalid one is rejected with the
    /// writer unchanged. An accepted record's line lands at the end of the
    /// log; if the cursor then exceeds the threshold, the next segment is
    /// opened at the base offset `tail_base + cursor` and the cursor resets.
    pub fn writez(&mut self, record: Record) -> (r: Result<(), CoreError>)
        requires
            old(self).wf(),
            total(old(self).segs()) + record@.len() + 1 <= u64::MAX,
        ensures
            final(self).wf(),
            final(self).max_segment_size == old(self).max_segment_size,
            r is Ok <==> is_base64(record@),
            r matches Err(e) ==> e == CoreError::InvalidRecord && *final(self) == *old(self),
            r is Ok ==> {
                &&& nl_free(record@) && all_ascii(record@)
                &&& final(self).log() == old(self).log() + record@ + seq![NL]
                &&& total(final(self).segs()) == total(old(self).segs()) + record@.len() + 1
                &&& final(self).latest_segment + final(self).offset == total(final(self).segs())
                &&& ({
                    let cursor = old(self).offset + record@.len() + 1;
                    if cursor > old(self).max_segment_size {
                        final(self).segs().len() == old(self).segs().len() + 1
                            && final(self).latest_segment == old(self).latest_segment + cursor
                            && final(self).offset == 0
                    } else {
                        final(self).segs().len() == old(self).segs().len()
                            && final(self).latest_segment == old(self).latest_segment
                            && final(self).offset == cursor
                    }
                })
            },
    {
        if assert_recordable(record.0.as_slice()).is_err() {
            return Err(CoreError::InvalidRecord);
        }
        let ghost segs0 = self.segs();
        let ghost payload = record@;
        proof {
            self.lemma_wf_boundary();
        }
        let mut line = record.serialized();
        let n: u64 = line.len() as u64;
        let mut tail = match self.segments.pop() {
            Some(t) => t,
            None => {
                proof {
                    assert(false);
                }
                Vec::new()
            },
        };
        let ghost tail0 = tail@;
        tail.append(&mut line);
        self.segments.push(tail);
        proof {
            assert(self.segs() =~= segs0.update(
                segs0.len() - 1,
                segs0.last() + (payload + seq![NL]),
            )) by {
                assert(tail0 == segs0.last());
                assert forall|i: int| 0 <= i < self.segs().len() implies self.segs()[i]
                    == segs0.update(segs0.len() - 1, segs0.last() + (payload + seq![NL]))[i] by {
                    if i < segs0.len() - 1 {
                        assert(self.segments@[i] == old(self).segments@[i]);
                    }
                }
            }
            lemma_cat_extend_tail(segs0, payload + seq![NL]);
            assert(cat(self.segs()) =~= cat(segs0) + payload + seq![NL]);
        }
        self.offset = self.offset + n;
        proof {
            // the updated store is well formed before any rollover
            assert(wf_segments(self.segs())) by {
                let segs = self.segs();
                let t = segs.len() - 1;
                assert forall|i: int| 0 <= i < segs.len() implies framed(#[trigger] segs[i])
                    && all_ascii(segs[i]) by {
                    if i < t {
                        assert(segs[i] == segs0[i]);
                    } else {
                        let s = segs[t];
                        assert(s == segs0.last() + (payload + seq![NL]));
                        assert(s[s.len() - 1] == NL);
                        assert forall|j: int| 0 <= j < s.len() implies s[j] < 128 by {
                            if j < segs0.last().len() {
                                assert(s[j] == segs0.last()[j]);
                            } else if j < segs0.last().len() + payload.len() {
                                assert(s[j] == payload[j - segs0.last().len()]);
                            } else {
                                assert(s[j] == NL);
                            }
                        }
                    }
                }
            }
            assert(base_of(self.segs(), self.segs().len() - 1) == base_of(
                segs0,
                segs0.len() - 1,
            )) by {
                assert(self.segs().take(segs0.len() - 1) =~= segs0.take(segs0.len() - 1));
            }
            self.lemma_wf_boundary();
        }
        if self.offset > self.max_segment_size {
            let ghost segs1 = self.segs();
            self.latest_segment = self.latest_segment + self.offset;
            self.offset = 0;
            self.segments.push(Vec::new());
            proof {
                assert(self.segs() =~= segs1.push(Seq::<u8>::empty())) by {
                    assert forall|i: int| 0 <= i < self.segs().len() implies self.segs()[i]
                        == segs1.push(Seq::<u8>::empty())[i] by {}
                }
                lemma_cat_push_empty(segs1);
                assert(wf_segments(self.segs())) by {
                    let segs = self.segs();
                    assert forall|i: int| 0 <= i < segs.len() implies framed(#[trigger] segs[i])
                        && all_ascii(segs[i]) by {
                        if i < segs.len() - 1 {
                            assert(segs[i] == segs1[i]);
                        }
                    }
                    assert forall|i: int| 0 <= i < segs.len() - 1 implies (
                    #[trigger] segs[i]).len() > 0 by {
                        if i < segs.len() - 2 {
                            assert(segs[i] == segs1[i]);
                        } else {
                            assert(segs[i] == segs1.last());
                        }
                    }
                }
                assert(base_of(self.segs(), self.segs().len() - 1) == total(segs1)) by {
                    assert(self.segs().take(self.segs().len() - 1) =~= segs1);
                }
                self.lemma_wf_boundary();
            }
        }
        Ok(())
    }
}

impl ShaW for ShardWriter {
    open spec fn inv(&self) -> bool {
        self.wf()
    }

    open spec fn log_view(&self) -> Seq<u8> {
        self.log()
    }

    fn write(&mut self, record: Record) -> (r: Result<(), CoreError>) {
        self.writez(record)
    }
}

} // verus!
