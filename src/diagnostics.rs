//! Mapping a byte offset in the rendered text back to a source location.
use vstd::prelude::*;
use crate::token::Loc;

verus! {

/// Offsets strictly increasing, entry by entry.
pub open spec fn increasing(map: Seq<(usize, Loc)>) -> bool {
    forall|a: int, b: int| 0 <= a < b < map.len() ==> map[a].0 < map[b].0
}

/// The location of the last entry at or before `offset`, or `fallback` where
/// there is none.
pub open spec fn nearest(map: Seq<(usize, Loc)>, offset: int, fallback: Loc) -> Loc
    decreases map.len(),
{
    if map.len() == 0 {
        fallback
    } else if map.last().0 <= offset {
        map.last().1
    } else {
        nearest(map.drop_last(), offset, fallback)
    }
}

proof fn lemma_nearest_split(map: Seq<(usize, Loc)>, offset: int, fallback: Loc, k: int)
    requires
        0 <= k <= map.len(),
        forall|j: int| 0 <= j < k ==> map[j].0 <= offset,
        forall|j: int| k <= j < map.len() ==> map[j].0 > offset,
    ensures
        nearest(map, offset, fallback) == if k == 0 {
            fallback
        } else {
            map[k - 1].1
        },
    decreases map.len(),
{
    if map.len() > 0 && k < map.len() {
        lemma_nearest_split(map.drop_last(), offset, fallback, k);
    }
}

/// The source location of the token nearest before `offset`: a binary
/// search for the last entry whose offset is at or before it. Before the
/// first entry, and in an empty map, it is `fallback`.
pub fn translate(map: &Vec<(usize, Loc)>, offset: usize, fallback: Loc) -> (r: Loc)
    requires
        increasing(map@),
    ensures
        r == nearest(map@, offset as int, fallback),
{
    let mut lo: usize = 0;
    let mut hi: usize = map.len();
    while lo < hi
        invariant
            lo <= hi <= map@.len(),
            increasing(map@),
            forall|j: int| 0 <= j < lo ==> map@[j].0 <= offset,
            forall|j: int| hi <= j < map@.len() ==> map@[j].0 > offset,
        decreases hi - lo,
    {
        let mid = lo + (hi - lo) / 2;
        if map[mid].0 <= offset {
            lo = mid + 1;
        } else {
            hi = mid;
        }
    }
    proof {
        lemma_nearest_split(map@, offset as int, fallback, lo as int);
    }
    if lo == 0 {
        fallback
    } else {
        map[lo - 1].1
    }
}

} // verus!
