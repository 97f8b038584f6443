//! The in-memory image of the segment files.
//!
//! The store holds each segment's bytes in order; the global log is their
//! concatenation, and a segment's base offset is the length of everything
//! before it. This module defines that arithmetic and proves the facts the
//! writer and the reader lean on: bases are the partial sums of segment
//! lengths, the greatest base not past an offset names the segment holding
//! that offset, and slicing the log at a segment's bounds yields exactly
//! that segment.

use vstd::prelude::*;

use crate::framing::{all_ascii, framed};

verus! {

/// The whole log: the segments' bytes, in order.
pub open spec fn cat(segs: Seq<Seq<u8>>) -> Seq<u8>
    decreases segs.len(),
{
    if segs.len() == 0 {
        Seq::empty()
    } else {
        cat(segs.drop_last()) + segs.last()
    }
}

/// The log's total length in bytes.
pub open spec fn total(segs: Seq<Seq<u8>>) -> int {
    cat(segs).len() as int
}

/// The base offset of segment `i`: the global offset of its first byte.
pub open spec fn base_of(segs: Seq<Seq<u8>>, i: int) -> int {
    cat(segs.take(i)).len() as int
}

/// A well-formed store: at least one segment, every segment framed and
/// ASCII, and every segment but the tail nonempty (a segment is created
/// empty and only ever superseded after bytes were written to it).
pub open spec fn wf_segments(segs: Seq<Seq<u8>>) -> bool {
    &&& segs.len() >= 1
    &&& forall|i: int| 0 <= i < segs.len() ==> framed(#[trigger] segs[i])
    &&& forall|i: int| 0 <= i < segs.len() - 1 ==> (#[trigger] segs[i]).len() > 0
    &&& forall|i: int| 0 <= i < segs.len() ==> all_ascii(#[trigger] segs[i])
}

/// The index of the segment containing global offset `g`, for
/// `0 <= g < total(segs)`.
pub open spec fn seg_index_of(segs: Seq<Seq<u8>>, g: int) -> int
    decreases segs.len(),
{
    if segs.len() <= 1 {
        0
    } else if g >= total(segs.drop_last()) {
        segs.len() - 1
    } else {
        seg_index_of(segs.drop_last(), g)
    }
}

/// The log splits at any segment boundary.
pub proof fn lemma_cat_split(segs: Seq<Seq<u8>>, i: int)
    requires
        0 <= i <= segs.len(),
    ensures
        cat(segs) == cat(segs.take(i)) + cat(segs.skip(i)),
    decreases segs.len(),
{
    if i == segs.len() {
        assert(segs.take(i) =~= segs);
        assert(segs.skip(i) =~= Seq::<Seq<u8>>::empty());
        assert(cat(segs) =~= cat(segs.take(i)) + cat(segs.skip(i)));
    } else {
        let dl = segs.drop_last();
        lemma_cat_split(dl, i);
        assert(dl.take(i) =~= segs.take(i));
        assert(segs.skip(i).drop_last() =~= dl.skip(i));
        assert(segs.skip(i).last() == segs.last());
        assert(cat(segs.skip(i)) == cat(dl.skip(i)) + segs.last());
        assert(cat(segs) =~= cat(segs.take(i)) + cat(segs.skip(i)));
    }
}

/// One more segment in a prefix adds exactly that segment's bytes.
pub proof fn lemma_cat_take_succ(segs: Seq<Seq<u8>>, i: int)
    requires
        0 <= i < segs.len(),
    ensures
        cat(segs.take(i + 1)) == cat(segs.take(i)) + segs[i],
        base_of(segs, i + 1) == base_of(segs, i) + segs[i].len(),
{
    assert(segs.take(i + 1).drop_last() =~= segs.take(i));
    assert(segs.take(i + 1).last() == segs[i]);
}

/// Base offsets never decrease along the catalog, and the final base is the
/// log's total length.
pub proof fn lemma_base_mono(segs: Seq<Seq<u8>>, i: int, j: int)
    requires
        0 <= i <= j <= segs.len(),
    ensures
        base_of(segs, i) <= base_of(segs, j),
    decreases j - i,
{
    if i < j {
        lemma_cat_take_succ(segs, j - 1);
        lemma_base_mono(segs, i, j - 1);
    }
}

/// The last base offset is the total length of everything before the tail;
/// the `segs.len()`th partial sum is the whole log.
pub proof fn lemma_base_total(segs: Seq<Seq<u8>>)
    ensures
        base_of(segs, segs.len() as int) == total(segs),
{
    assert(segs.take(segs.len() as int) =~= segs);
}

/// The log sliced at a segment's bounds is exactly that segment.
pub proof fn lemma_cat_slice(segs: Seq<Seq<u8>>, i: int)
    requires
        0 <= i < segs.len(),
    ensures
        base_of(segs, i) + segs[i].len() <= total(segs),
        cat(segs).subrange(
            base_of(segs, i),
            base_of(segs, i) + segs[i].len(),
        ) == segs[i],
{
    lemma_cat_split(segs, i + 1);
    lemma_cat_take_succ(segs, i);
    lemma_base_total(segs);
    lemma_base_mono(segs, i + 1, segs.len() as int);
    let b = base_of(segs, i);
    assert(cat(segs).subrange(b, b + segs[i].len()) =~= segs[i]);
}

/// Where an offset lives: `seg_index_of` names a real segment whose span
/// covers the offset, and its base is the greatest base not past the
/// offset.
pub proof fn lemma_locate(segs: Seq<Seq<u8>>, g: int)
    requires
        wf_segments(segs),
        0 <= g < total(segs),
    ensures
        0 <= seg_index_of(segs, g) < segs.len(),
        base_of(segs, seg_index_of(segs, g)) <= g,
        g < base_of(segs, seg_index_of(segs, g)) + segs[seg_index_of(segs, g)].len(),
        forall|i: int|
            0 <= i < segs.len() && #[trigger] base_of(segs, i) <= g
                ==> base_of(segs, i) <= base_of(segs, seg_index_of(segs, g)),
    decreases segs.len(),
{
    let idx = seg_index_of(segs, g);
    let n = segs.len() as int;
    if n == 1 {
        assert(segs.take(0int) =~= Seq::<Seq<u8>>::empty());
        assert(segs.take(1int) =~= segs);
        assert(cat(segs) == cat(segs.drop_last()) + segs.last());
        assert(segs.drop_last() =~= Seq::<Seq<u8>>::empty());
        assert(forall|i: int| 0 <= i < 1 ==> base_of(segs, i) == 0);
    } else {
        let dl = segs.drop_last();
        assert(dl.len() == n - 1);
        assert(cat(segs) == cat(dl) + segs.last());
        assert(segs.take(n - 1) =~= dl);
        assert(base_of(segs, n - 1) == total(dl));
        if g >= total(dl) {
            assert(idx == n - 1);
            lemma_base_total(segs);
            assert forall|i: int| 0 <= i < n && #[trigger] base_of(segs, i) <= g implies base_of(
                segs,
                i,
            ) <= base_of(segs, idx) by {
                lemma_base_mono(segs, i, n - 1);
                if i == n - 1 {
                }
            }
        } else {
            assert(wf_segments(dl)) by {
                assert(forall|i: int| 0 <= i < dl.len() ==> dl[i] == segs[i]);
            }
            lemma_locate(dl, g);
            assert(idx == seg_index_of(dl, g));
            assert(0 <= idx < n - 1);
            assert(dl.take(idx) =~= segs.take(idx));
            assert(dl.take(idx + 1) =~= segs.take(idx + 1));
            assert(base_of(segs, idx) == base_of(dl, idx));
            assert(segs[idx] == dl[idx]);
            assert forall|i: int| 0 <= i < n && #[trigger] base_of(segs, i) <= g implies base_of(
                segs,
                i,
            ) <= base_of(segs, idx) by {
                if i < n - 1 {
                    assert(dl.take(i) =~= segs.take(i));
                    assert(base_of(dl, i) == base_of(segs, i));
                } else {
                    // base_of(segs, n - 1) == total(dl) > g, so this base is
                    // not at or below g at all
                }
            }
        }
    }
}

/// A log whose segments are all framed is framed, and one whose segments
/// are all ASCII is ASCII.
pub proof fn lemma_cat_wf(segs: Seq<Seq<u8>>)
    requires
        forall|i: int| 0 <= i < segs.len() ==> framed(#[trigger] segs[i]),
        forall|i: int| 0 <= i < segs.len() ==> all_ascii(#[trigger] segs[i]),
    ensures
        framed(cat(segs)),
        all_ascii(cat(segs)),
    decreases segs.len(),
{
    if segs.len() == 0 {
    } else {
        let dl = segs.drop_last();
        assert(forall|i: int| 0 <= i < dl.len() ==> dl[i] == segs[i]);
        lemma_cat_wf(dl);
        let w = cat(segs);
        let last = segs.last();
        assert(w == cat(dl) + last);
        assert(framed(w)) by {
            if last.len() > 0 {
                assert(w[w.len() - 1] == last[last.len() - 1]);
            } else {
                assert(w =~= cat(dl));
            }
        }
        assert(all_ascii(w)) by {
            assert forall|i: int| 0 <= i < w.len() implies w[i] < 128 by {
                if i < cat(dl).len() {
                    assert(w[i] == cat(dl)[i]);
                } else {
                    assert(w[i] == last[i - cat(dl).len()]);
                }
            }
        }
    }
}

/// Appending bytes to the tail segment appends them to the log.
pub proof fn lemma_cat_extend_tail(segs: Seq<Seq<u8>>, line: Seq<u8>)
    requires
        segs.len() >= 1,
    ensures
        cat(segs.update(segs.len() - 1, segs.last() + line)) == cat(segs) + line,
{
    let upd = segs.update(segs.len() - 1, segs.last() + line);
    assert(upd.drop_last() =~= segs.drop_last());
    assert(upd.last() == segs.last() + line);
    assert(cat(upd) == cat(segs.drop_last()) + (segs.last() + line));
    assert(cat(segs.drop_last()) + (segs.last() + line) =~= (cat(segs.drop_last())
        + segs.last()) + line);
}

/// Opening a fresh, empty tail segment leaves the log's bytes unchanged.
pub proof fn lemma_cat_push_empty(segs: Seq<Seq<u8>>)
    ensures
        cat(segs.push(Seq::<u8>::empty())) == cat(segs),
{
    let p = segs.push(Seq::<u8>::empty());
    assert(p.drop_last() =~= segs);
    assert(cat(p) == cat(segs) + Seq::<u8>::empty());
    assert(cat(segs) + Seq::<u8>::empty() =~= cat(segs));
}

} // verus!
