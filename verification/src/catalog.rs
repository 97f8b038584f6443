//! The segment catalog.
//!
//! The catalog is built from the mount directory's listing: one entry per
//! segment file, each named by the decimal form of its base offset. It
//! answers the three questions the store asks of a directory: which segment
//! is newest, which is oldest, and which segment contains a given global
//! offset — the one whose base offset is the greatest value not exceeding
//! it.

use vstd::prelude::*;

use crate::segname::{
    dec_val, format_segment_name, is_digit_char, lemma_seg_name_round_trip, parse_segment_name,
    seg_name,
};
use crate::CoreError;

verus! {

/// Whether a file name denotes a segment: a nonempty string of decimal
/// digits whose value fits a 64-bit offset.
pub open spec fn parses(name: Seq<char>) -> bool {
    name.len() > 0 && (forall|i: int| 0 <= i < name.len() ==> is_digit_char(#[trigger] name[i]))
        && dec_val(name) <= u64::MAX
}

/// The segment catalog: the base offsets of the segments found in the mount
/// directory, in whatever order the listing produced them.
#[derive(Debug, Clone)]
pub struct ShardDir {
    pub bases: Vec<u64>,
}

impl ShardDir {
    /// Builds the catalog from a directory listing. Any file whose name is
    /// not a plain decimal base offset makes the catalog corrupt.
    pub fn from_names(names: &Vec<String>) -> (r: Result<ShardDir, CoreError>)
        ensures
            r is Ok <==> (forall|i: int| 0 <= i < names@.len() ==> parses(#[trigger] names@[i]@)),
            r matches Ok(d) ==> d.bases@.len() == names@.len() && (forall|i: int|
                0 <= i < names@.len() ==> #[trigger] d.bases@[i] as nat == dec_val(names@[i]@)),
            r is Err ==> r == Err::<ShardDir, CoreError>(CoreError::CorruptCatalog),
    {
        let mut bases: Vec<u64> = Vec::new();
        let mut i: usize = 0;
        while i < names.len()
            invariant
                i <= names@.len(),
                bases@.len() == i,
                forall|j: int| 0 <= j < i ==> parses(#[trigger] names@[j]@),
                forall|j: int| 0 <= j < i ==> #[trigger] bases@[j] as nat == dec_val(names@[j]@),
            decreases names@.len() - i,
        {
            match parse_segment_name(names[i].as_str()) {
                Some(v) => {
                    bases.push(v);
                },
                None => {
                    return Err(CoreError::CorruptCatalog);
                },
            }
            i = i + 1;
        }
        Ok(ShardDir { bases })
    }

    /// The file name of the segment with the given base offset. A name
    /// written here always denotes a segment and parses back to the same
    /// base offset, so a catalog built from these names loses nothing.
    pub fn path_to_segment(&self, shard_id: u64) -> (r: String)
        ensures
            r@ == seg_name(shard_id as nat),
            parses(r@),
            dec_val(r@) == shard_id as nat,
    {
        proof {
            lemma_seg_name_round_trip(shard_id as nat);
        }
        format_segment_name(shard_id)
    }

    /// Base offset of the newest segment: the numerically greatest name in
    /// the catalog. An empty catalog has no segments yet.
    pub fn get_latest_segment(&self) -> (r: Result<u64, CoreError>)
        ensures
            r is Ok <==> self.bases@.len() > 0,
            r matches Ok(v) ==> self.bases@.contains(v) && (forall|i: int|
                0 <= i < self.bases@.len() ==> #[trigger] self.bases@[i] <= v),
            r is Err ==> r == Err::<u64, CoreError>(CoreError::NotInitialized),
    {
        if self.bases.len() == 0 {
            return Err(CoreError::NotInitialized);
        }
        let mut best: u64 = self.bases[0];
        let mut i: usize = 1;
        while i < self.bases.len()
            invariant
                1 <= i <= self.bases@.len(),
                self.bases@.contains(best),
                forall|j: int| 0 <= j < i ==> #[trigger] self.bases@[j] <= best,
            decreases self.bases@.len() - i,
        {
            if self.bases[i] > best {
                best = self.bases[i];
            }
            i = i + 1;
        }
        Ok(best)
    }

    /// Base offset of the oldest segment: the numerically smallest name in
    /// the catalog. An empty catalog has no segments yet.
    pub fn get_oldest_segment(&self) -> (r: Result<u64, CoreError>)
        ensures
            r is Ok <==> self.bases@.len() > 0,
            r matches Ok(v) ==> self.bases@.contains(v) && (forall|i: int|
                0 <= i < self.bases@.len() ==> v <= #[trigger] self.bases@[i]),
            r is Err ==> r == Err::<u64, CoreError>(CoreError::NotInitialized),
    {
        if self.bases.len() == 0 {
            return Err(CoreError::NotInitialized);
        }
        let mut best: u64 = self.bases[0];
        let mut i: usize = 1;
        while i < self.bases.len()
            invariant
                1 <= i <= self.bases@.len(),
                self.bases@.contains(best),
                forall|j: int| 0 <= j < i ==> best <= #[trigger] self.bases@[j],
            decreases self.bases@.len() - i,
        {
            if self.bases[i] < best {
                best = self.bases[i];
            }
            i = i + 1;
        }
        Ok(best)
    }

    /// The segment a global offset belongs to: the greatest base offset not
    /// past it, paired with the remaining in-segment offset. A catalog that
    /// holds segment zero always has such a base; one without any base at or
    /// below the offset has lost part of the log, which the precondition
    /// rules out.
    pub fn find_belonging_segment(&self, shard_iterator: u64) -> (r: (u64, u64))
        requires
            exists|i: int| 0 <= i < self.bases@.len() && #[trigger] self.bases@[i] <= shard_iterator,
        ensures
            self.bases@.contains(r.0),
            r.0 <= shard_iterator,
            forall|i: int|
                0 <= i < self.bases@.len() && #[trigger] self.bases@[i] <= shard_iterator
                    ==> self.bases@[i] <= r.0,
            r.1 == shard_iterator - r.0,
    {
        let mut candidate: u64 = 0;
        let mut found = false;
        let mut i: usize = 0;
        while i < self.bases.len()
            invariant
                i <= self.bases@.len(),
                found <==> exists|j: int|
                    0 <= j < i && #[trigger] self.bases@[j] <= shard_iterator,
                found ==> self.bases@.contains(candidate) && candidate <= shard_iterator,
                found ==> forall|j: int|
                    0 <= j < i && #[trigger] self.bases@[j] <= shard_iterator
                        ==> self.bases@[j] <= candidate,
            decreases self.bases@.len() - i,
        {
            let b = self.bases[i];
            if b <= shard_iterator && (!found || b >= candidate) {
                candidate = b;
                found = true;
            }
            i = i + 1;
        }
        (candidate, shard_iterator - candidate)
    }
}

} // verus!
