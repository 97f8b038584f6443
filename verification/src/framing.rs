//! The byte-level model of a log.
//!
//! A log is a sequence of bytes holding newline-terminated lines; each line
//! carries one record (the line without its delimiter). This module defines
//! what it means for bytes to be framed that way, which records a byte range
//! carries, and the laws that appending and scanning rely on.

use vstd::prelude::*;

verus! {

/// The line delimiter: every record is stored as its payload followed by `NL`.
pub const NL: u8 = 10;

/// All bytes are ASCII, so the log can be handed back as text.
pub open spec fn all_ascii(s: Seq<u8>) -> bool {
    forall|i: int| 0 <= i < s.len() ==> s[i] < 128
}

/// A byte sequence is framed when it is a (possibly empty) concatenation of
/// newline-terminated lines: it is empty or its last byte is the delimiter.
pub open spec fn framed(s: Seq<u8>) -> bool {
    s.len() == 0 || s[s.len() - 1] == NL
}

/// Index of the first newline in `s`, or `s.len()` if there is none.
pub open spec fn first_nl(s: Seq<u8>) -> nat
    decreases s.len(),
{
    if s.len() == 0 {
        0
    } else if s[0] == NL {
        0
    } else {
        (1 + first_nl(s.drop_first())) as nat
    }
}

/// The records carried by a byte sequence: the newline-separated chunks,
/// without their delimiters. A trailing chunk with no delimiter (absent from
/// a framed log) counts as a record as well.
pub open spec fn records_of(s: Seq<u8>) -> Seq<Seq<u8>>
    decreases s.len(),
{
    if s.len() == 0 {
        Seq::empty()
    } else {
        let k = first_nl(s) as int;
        if k < s.len() {
            seq![s.subrange(0, k)] + records_of(s.subrange(k + 1, s.len() as int))
        } else {
            seq![s]
        }
    }
}

/// The number of bytes the given records occupy on disk: each record is
/// serialized as its payload followed by one delimiter byte.
pub open spec fn framed_len(rs: Seq<Seq<u8>>) -> int
    decreases rs.len(),
{
    if rs.len() == 0 {
        0
    } else {
        rs[0].len() + 1 + framed_len(rs.drop_first())
    }
}

/// The bytes that serializing the given records produces: each record's
/// payload followed by one delimiter byte, in order.
pub open spec fn framed_cat(rs: Seq<Seq<u8>>) -> Seq<u8>
    decreases rs.len(),
{
    if rs.len() == 0 {
        Seq::empty()
    } else {
        rs[0] + seq![NL] + framed_cat(rs.drop_first())
    }
}

/// A record payload must not contain the delimiter, or framing would split it.
pub open spec fn nl_free(s: Seq<u8>) -> bool {
    forall|i: int| 0 <= i < s.len() ==> s[i] != NL
}

/// `first_nl` points at the first newline: everything before it is not a
/// newline, and it is a newline unless there is none at all.
pub proof fn lemma_first_nl_spec(s: Seq<u8>)
    ensures
        first_nl(s) <= s.len(),
        first_nl(s) < s.len() ==> s[first_nl(s) as int] == NL,
        forall|i: int| 0 <= i < first_nl(s) ==> s[i] != NL,
    decreases s.len(),
{
    if s.len() == 0 {
    } else if s[0] == NL {
    } else {
        lemma_first_nl_spec(s.drop_first());
        assert forall|i: int| 0 <= i < first_nl(s) implies s[i] != NL by {
            if i > 0 {
                assert(s.drop_first()[i - 1] == s[i]);
            }
        }
    }
}

/// The characterization of `first_nl` is also a definition: any index with
/// those properties is `first_nl`.
pub proof fn lemma_first_nl_is(s: Seq<u8>, k: int)
    requires
        0 <= k <= s.len(),
        forall|i: int| 0 <= i < k ==> s[i] != NL,
        k < s.len() ==> s[k] == NL,
        k == s.len() ==> nl_free(s),
    ensures
        first_nl(s) == k,
    decreases s.len(),
{
    if s.len() == 0 {
    } else if s[0] == NL {
        assert(k == 0);
    } else {
        assert(k >= 1);
        let t = s.drop_first();
        assert forall|i: int| 0 <= i < k - 1 implies t[i] != NL by {
            assert(t[i] == s[i + 1]);
        }
        if k - 1 == t.len() {
            assert forall|i: int| 0 <= i < t.len() implies t[i] != NL by {
                assert(t[i] == s[i + 1]);
            }
        }
        lemma_first_nl_is(t, k - 1);
    }
}

/// A nonempty framed sequence contains a newline.
pub proof fn lemma_framed_has_nl(s: Seq<u8>)
    requires
        framed(s),
        s.len() > 0,
    ensures
        first_nl(s) < s.len(),
{
    lemma_first_nl_spec(s);
    if first_nl(s) == s.len() {
        assert(s[s.len() - 1] != NL);
    }
}

/// Peeling the first line off a byte sequence: if the first newline sits at
/// `k`, the records are the chunk before `k` followed by the records of what
/// comes after `k`.
pub proof fn lemma_records_peel(s: Seq<u8>, k: int)
    requires
        0 <= k < s.len(),
        s[k] == NL,
        forall|i: int| 0 <= i < k ==> s[i] != NL,
    ensures
        records_of(s) == seq![s.subrange(0, k)] + records_of(s.subrange(k + 1, s.len() as int)),
{
    lemma_first_nl_is(s, k);
}

/// Cutting a framed prefix off a byte sequence cuts its records in two:
/// records never straddle a framed boundary.
pub proof fn lemma_records_concat(a: Seq<u8>, b: Seq<u8>)
    requires
        framed(a),
    ensures
        records_of(a + b) == records_of(a) + records_of(b),
    decreases a.len(),
{
    if a.len() == 0 {
        assert(a + b =~= b);
        assert(records_of(a) + records_of(b) =~= records_of(b));
    } else {
        lemma_framed_has_nl(a);
        lemma_first_nl_spec(a);
        let k = first_nl(a) as int;
        let s = a + b;
        assert(s[k] == a[k]);
        assert forall|i: int| 0 <= i < k implies s[i] != NL by {
            assert(s[i] == a[i]);
        }
        lemma_records_peel(s, k);
        lemma_records_peel(a, k);
        let a2 = a.subrange(k + 1, a.len() as int);
        assert(s.subrange(0, k) =~= a.subrange(0, k));
        assert(s.subrange(k + 1, s.len() as int) =~= a2 + b);
        assert(framed(a2)) by {
            if a2.len() > 0 {
                assert(a2[a2.len() - 1] == a[a.len() - 1]);
            }
        }
        lemma_records_concat(a2, b);
        assert(records_of(a + b) =~= records_of(a) + records_of(b));
    }
}

/// The single line `p` followed by a delimiter carries exactly the one
/// record `p`.
pub proof fn lemma_records_single(p: Seq<u8>)
    requires
        nl_free(p),
    ensures
        records_of(p + seq![NL]) == seq![p],
        framed(p + seq![NL]),
{
    let s = p + seq![NL];
    assert(s[p.len() as int] == NL);
    assert forall|i: int| 0 <= i < p.len() implies s[i] != NL by {
        assert(s[i] == p[i]);
    }
    lemma_records_peel(s, p.len() as int);
    assert(s.subrange(0, p.len() as int) =~= p);
    assert(s.subrange(p.len() + 1 as int, s.len() as int) =~= Seq::<u8>::empty());
    assert(records_of(s) =~= seq![p]);
}

/// Serialized length distributes over concatenation of record lists.
pub proof fn lemma_framed_len_concat(u: Seq<Seq<u8>>, v: Seq<Seq<u8>>)
    ensures
        framed_len(u + v) == framed_len(u) + framed_len(v),
    decreases u.len(),
{
    if u.len() == 0 {
        assert(u + v =~= v);
    } else {
        assert((u + v).drop_first() =~= u.drop_first() + v);
        lemma_framed_len_concat(u.drop_first(), v);
    }
}

/// Serialization distributes over concatenation of record lists.
pub proof fn lemma_framed_cat_concat(u: Seq<Seq<u8>>, v: Seq<Seq<u8>>)
    ensures
        framed_cat(u + v) == framed_cat(u) + framed_cat(v),
    decreases u.len(),
{
    if u.len() == 0 {
        assert(u + v =~= v);
        assert(framed_cat(u) + framed_cat(v) =~= framed_cat(v));
    } else {
        assert((u + v).drop_first() =~= u.drop_first() + v);
        lemma_framed_cat_concat(u.drop_first(), v);
        assert(framed_cat(u + v) =~= framed_cat(u) + framed_cat(v));
    }
}

/// The serialized form of one record.
pub proof fn lemma_framed_cat_single(p: Seq<u8>)
    ensures
        framed_cat(seq![p]) == p + seq![NL],
        framed_len(seq![p]) == p.len() + 1,
{
    let e = Seq::<Seq<u8>>::empty();
    assert(seq![p].drop_first() =~= e);
    assert(framed_cat(e) == Seq::<u8>::empty());
    assert(framed_len(e) == 0);
    assert(framed_cat(seq![p]) =~= p + seq![NL]);
}

/// A framed byte sequence is exactly as long as the serialized form of the
/// records it carries.
pub proof fn lemma_records_len(s: Seq<u8>)
    requires
        framed(s),
    ensures
        framed_len(records_of(s)) == s.len(),
    decreases s.len(),
{
    if s.len() == 0 {
    } else {
        lemma_framed_has_nl(s);
        lemma_first_nl_spec(s);
        let k = first_nl(s) as int;
        let s2 = s.subrange(k + 1, s.len() as int);
        assert(framed(s2)) by {
            if s2.len() > 0 {
                assert(s2[s2.len() - 1] == s[s.len() - 1]);
            }
        }
        lemma_records_len(s2);
        let rs = records_of(s);
        assert(rs =~= seq![s.subrange(0, k)] + records_of(s2));
        lemma_framed_len_concat(seq![s.subrange(0, k)], records_of(s2));
        lemma_framed_cat_single(s.subrange(0, k));
    }
}

/// Every record of an all-ASCII byte sequence is itself all ASCII.
pub proof fn lemma_records_ascii(s: Seq<u8>)
    requires
        all_ascii(s),
    ensures
        forall|i: int|
            0 <= i < records_of(s).len() ==> all_ascii(#[trigger] records_of(s)[i]),
    decreases s.len(),
{
    if s.len() == 0 {
    } else {
        lemma_first_nl_spec(s);
        let k = first_nl(s) as int;
        if k < s.len() {
            let s2 = s.subrange(k + 1, s.len() as int);
            assert(all_ascii(s2)) by {
                assert forall|i: int| 0 <= i < s2.len() implies s2[i] < 128 by {
                    assert(s2[i] == s[k + 1 + i]);
                }
            }
            lemma_records_ascii(s2);
            let rs = records_of(s);
            assert forall|i: int| 0 <= i < rs.len() implies all_ascii(#[trigger] rs[i]) by {
                if i == 0 {
                    assert forall|j: int| 0 <= j < k implies s.subrange(0, k)[j] < 128 by {
                        assert(s.subrange(0, k)[j] == s[j]);
                    }
                } else {
                    assert(rs[i] == records_of(s2)[i - 1]);
                }
            }
        }
    }
}

// ---------------------------------------------------------------------------
// The laws a client can rely on.
// ---------------------------------------------------------------------------

/// Replaying after one more append: appending one serialized record to a
/// framed log appends exactly that one record to what a full replay returns.
/// This is the inductive step behind idempotent replay: each successful
/// `put` extends the log by `p + [NL]`, so after any sequence of `put`s the
/// records a full scan returns are the payloads as written, in order.
pub proof fn lemma_replay_step(log: Seq<u8>, p: Seq<u8>)
    requires
        framed(log),
        nl_free(p),
    ensures
        framed(log + p + seq![NL]),
        records_of(log + p + seq![NL]) == records_of(log).push(p),
{
    lemma_records_single(p);
    lemma_records_concat(log, p + seq![NL]);
    assert(log + p + seq![NL] =~= log + (p + seq![NL]));
    assert((log + (p + seq![NL]))[(log.len() + p.len()) as int] == NL);
    assert(records_of(log) + seq![p] =~= records_of(log).push(p));
}

/// Idempotent replay: serializing any sequence of delimiter-free payloads
/// and then scanning all of it from offset zero returns exactly those
/// payloads, in order, as often as the scan is repeated. Each append is one
/// replay step, so the induction follows the appends.
pub proof fn lemma_idempotent_replay(ps: Seq<Seq<u8>>)
    requires
        forall|i: int| 0 <= i < ps.len() ==> nl_free(#[trigger] ps[i]),
    ensures
        framed(framed_cat(ps)),
        records_of(framed_cat(ps)) == ps,
    decreases ps.len(),
{
    if ps.len() == 0 {
    } else {
        let dl = ps.drop_last();
        let p = ps.last();
        lemma_idempotent_replay(dl);
        assert(ps =~= dl + seq![p]);
        lemma_framed_cat_concat(dl, seq![p]);
        lemma_framed_cat_single(p);
        lemma_replay_step(framed_cat(dl), p);
        assert(framed_cat(ps) =~= framed_cat(dl) + p + seq![NL]);
        assert(records_of(framed_cat(ps)) =~= ps);
    }
}

/// Iterator continuity: a scan that returns the first `n` records of a
/// framed window consumes exactly their serialized length, and a scan
/// resumed at the position so obtained sees exactly the remaining records:
/// nothing is returned twice, nothing is skipped.
pub proof fn lemma_iterator_continuity(w: Seq<u8>, n: int)
    requires
        framed(w),
        0 <= n <= records_of(w).len(),
    ensures
        0 <= framed_len(records_of(w).take(n)) <= w.len(),
        framed(w.skip(framed_len(records_of(w).take(n)))),
        records_of(w.skip(framed_len(records_of(w).take(n)))) == records_of(w).skip(n),
        n == records_of(w).len() ==> framed_len(records_of(w).take(n)) == w.len(),
    decreases n,
{
    let rs = records_of(w);
    if n == rs.len() {
        lemma_records_len(w);
        assert(rs.take(n) =~= rs);
    }
    if n == 0 {
        assert(rs.take(0) =~= Seq::<Seq<u8>>::empty());
        assert(w.skip(0) =~= w);
        assert(rs.skip(0) =~= rs);
    } else {
        lemma_framed_has_nl(w);
        lemma_first_nl_spec(w);
        let k = first_nl(w) as int;
        let w2 = w.subrange(k + 1, w.len() as int);
        assert(framed(w2)) by {
            if w2.len() > 0 {
                assert(w2[w2.len() - 1] == w[w.len() - 1]);
            }
        }
        let rs2 = records_of(w2);
        assert(rs =~= seq![w.subrange(0, k)] + rs2);
        lemma_iterator_continuity(w2, n - 1);
        assert(rs.take(n) =~= seq![w.subrange(0, k)] + rs2.take(n - 1));
        lemma_framed_len_concat(seq![w.subrange(0, k)], rs2.take(n - 1));
        lemma_framed_cat_single(w.subrange(0, k));
        let c2 = framed_len(rs2.take(n - 1));
        let c = framed_len(rs.take(n));
        assert(c == k + 1 + c2);
        assert(w.skip(c) =~= w2.skip(c2));
        assert(rs.skip(n) =~= rs2.skip(n - 1));
    }
}

/// No write lost, none duplicated: the bytes that any sequence of appends
/// leaves behind are exactly as long as the sum of each record's serialized
/// length, and carry one record per append. Appends are serialized by the
/// writer lock, so this also bounds what any number of concurrent callers
/// can leave behind together.
pub proof fn lemma_total_bytes(ps: Seq<Seq<u8>>)
    requires
        forall|i: int| 0 <= i < ps.len() ==> nl_free(#[trigger] ps[i]),
    ensures
        framed_cat(ps).len() == framed_len(ps),
        records_of(framed_cat(ps)).len() == ps.len(),
    decreases ps.len(),
{
    lemma_idempotent_replay(ps);
    if ps.len() == 0 {
    } else {
        lemma_total_bytes(ps.drop_first());
    }
}

} // verus!
