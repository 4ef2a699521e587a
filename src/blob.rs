//! Blobs, what it means for a list of them to split the foreground, and ranking by size.

use vstd::prelude::*;
use crate::conn::connected;

verus! {

/// A pixel position as integers.
pub open spec fn pt(q: (u32, u32)) -> (int, int) {
    (q.0 as int, q.1 as int)
}

/// One connected group of foreground pixels and its pixel count.
#[derive(Debug, Clone)]
pub struct Blob {
    pub points: Vec<(u32, u32)>,
    pub size: usize,
}

impl Blob {
    pub fn new(points: Vec<(u32, u32)>) -> (b: Self)
        ensures
            b.points@ == points@,
            b.size == points@.len(),
    {
        let size = points.len();
        Self { points, size }
    }
}

/// `blobs` splits `fg` into its 4-connected components: every blob is
/// non-empty with `size` its pixel count, every pixel of a blob is in `fg`,
/// every pixel of `fg` is in a blob, no pixel appears twice, and two pixels
/// share a blob exactly when they are connected in `fg`.
pub open spec fn is_blob_partition(fg: Set<(int, int)>, blobs: Seq<Blob>) -> bool {
    &&& forall|b: int|
        0 <= b < blobs.len() ==> #[trigger] blobs[b].size == blobs[b].points@.len() && blobs[b].points@.len() > 0
    &&& forall|b: int, k: int|
        0 <= b < blobs.len() && 0 <= k < blobs[b].points@.len() ==> fg.contains(pt(#[trigger] blobs[b].points@[k]))
    &&& forall|p: (int, int)|
        #[trigger] fg.contains(p) ==> exists|b: int, k: int|
            0 <= b < blobs.len() && 0 <= k < blobs[b].points@.len() && pt(blobs[b].points@[k]) == p
    &&& forall|b1: int, k1: int, b2: int, k2: int|
        0 <= b1 < blobs.len() && 0 <= k1 < blobs[b1].points@.len() && 0 <= b2 < blobs.len() && 0 <= k2
            < blobs[b2].points@.len() && (b1 != b2 || k1 != k2) ==> #[trigger] blobs[b1].points@[k1]
            != #[trigger] blobs[b2].points@[k2]
    &&& forall|b1: int, k1: int, b2: int, k2: int|
        0 <= b1 < blobs.len() && 0 <= k1 < blobs[b1].points@.len() && 0 <= b2 < blobs.len() && 0 <= k2
            < blobs[b2].points@.len() ==> ((b1 == b2) == connected(
            fg,
            pt(#[trigger] blobs[b1].points@[k1]),
            pt(#[trigger] blobs[b2].points@[k2]),
        ))
}

/// Largest blob first.
pub open spec fn sorted_by_size(blobs: Seq<Blob>) -> bool {
    forall|i: int, j: int| 0 <= i < j < blobs.len() ==> #[trigger] blobs[i].size >= #[trigger] blobs[j].size
}

/// Orders non-empty groups of pixels by size, largest first; among groups of
/// equal size the one at the lower index comes first. `src[b]` is the index
/// of the group that became blob `b`.
pub fn rank_blobs(groups: Vec<Vec<(u32, u32)>>) -> (res: (Vec<Blob>, Ghost<Seq<int>>))
    ensures
        res.0@.len() == res.1@.len(),
        forall|b: int|
            0 <= b < res.0@.len() ==> 0 <= #[trigger] res.1@[b] < groups@.len() && res.0@[b].points@
                == groups@[res.1@[b]]@ && res.0@[b].size == res.0@[b].points@.len() && res.0@[b].points@.len() > 0,
        forall|b1: int, b2: int|
            0 <= b1 < res.0@.len() && 0 <= b2 < res.0@.len() && b1 != b2 ==> #[trigger] res.1@[b1]
                != #[trigger] res.1@[b2],
        forall|r: int|
            0 <= r < groups@.len() && (#[trigger] groups@[r])@.len() > 0 ==> exists|b: int|
                0 <= b < res.0@.len() && res.1@[b] == r,
        sorted_by_size(res.0@),
        forall|b1: int, b2: int|
            0 <= b1 < b2 < res.0@.len() && res.0@[b1].size == res.0@[b2].size ==> #[trigger] res.1@[b1]
                < #[trigger] res.1@[b2],
{
    let ghost gs = groups@;
    let mut groups = groups;
    let mut blobs: Vec<Blob> = Vec::new();
    let ghost mut src: Seq<int> = Seq::empty();
    while groups.len() > 0
        invariant
            groups@.len() <= gs.len(),
            forall|r: int| 0 <= r < groups@.len() ==> #[trigger] groups@[r] == gs[r],
            blobs@.len() == src.len(),
            forall|b: int|
                0 <= b < blobs@.len() ==> groups@.len() <= #[trigger] src[b] < gs.len() && blobs@[b].points@
                    == gs[src[b]]@ && blobs@[b].size == blobs@[b].points@.len() && blobs@[b].points@.len() > 0,
            forall|b1: int, b2: int|
                0 <= b1 < blobs@.len() && 0 <= b2 < blobs@.len() && b1 != b2 ==> #[trigger] src[b1]
                    != #[trigger] src[b2],
            forall|r: int|
                groups@.len() <= r < gs.len() && (#[trigger] gs[r])@.len() > 0 ==> exists|b: int|
                    0 <= b < blobs@.len() && src[b] == r,
            sorted_by_size(blobs@),
            forall|b1: int, b2: int|
                0 <= b1 < b2 < blobs@.len() && blobs@[b1].size == blobs@[b2].size ==> #[trigger] src[b1]
                    < #[trigger] src[b2],
        decreases groups@.len(),
    {
        let g = groups.pop().unwrap();
        let ghost r = groups@.len() as int;
        let ghost old_blobs = blobs@;
        let ghost old_src = src;
        if g.len() > 0 {
            let size = g.len();
            let mut pos: usize = 0;
            while pos < blobs.len() && blobs[pos].size > size
                invariant
                    0 <= pos <= blobs@.len(),
                    forall|b: int| 0 <= b < pos ==> #[trigger] blobs@[b].size > size,
                decreases blobs@.len() - pos,
            {
                pos = pos + 1;
            }
            blobs.insert(pos, Blob::new(g));
            proof {
                src = src.insert(pos as int, r);
                assert forall|b: int|
                    0 <= b < blobs@.len() implies groups@.len() <= #[trigger] src[b] < gs.len() && blobs@[b].points@
                        == gs[src[b]]@ && blobs@[b].size == blobs@[b].points@.len() && blobs@[b].points@.len() > 0 by {
                    if b < pos {
                        assert(src[b] == old_src[b]);
                    } else if b > pos {
                        assert(src[b] == old_src[b - 1]);
                    }
                }
                assert forall|b1: int, b2: int|
                    0 <= b1 < blobs@.len() && 0 <= b2 < blobs@.len() && b1 != b2 implies #[trigger] src[b1]
                        != #[trigger] src[b2] by {
                    if b1 != pos && b2 != pos {
                        let o1 = if b1 < pos { b1 } else { b1 - 1 };
                        let o2 = if b2 < pos { b2 } else { b2 - 1 };
                        assert(src[b1] == old_src[o1]);
                        assert(src[b2] == old_src[o2]);
                    } else if b1 == pos {
                        let o2 = if b2 < pos { b2 } else { b2 - 1 };
                        assert(src[b2] == old_src[o2]);
                    } else {
                        let o1 = if b1 < pos { b1 } else { b1 - 1 };
                        assert(src[b1] == old_src[o1]);
                    }
                }
                assert forall|rr: int|
                    groups@.len() <= rr < gs.len() && (#[trigger] gs[rr])@.len() > 0 implies exists|b: int|
                        0 <= b < blobs@.len() && src[b] == rr by {
                    if rr == r {
                        assert(src[pos as int] == r);
                    } else {
                        let b0 = choose|b: int| 0 <= b < old_blobs.len() && old_src[b] == rr;
                        if b0 < pos {
                            assert(src[b0] == rr);
                        } else {
                            assert(src[b0 + 1] == rr);
                        }
                    }
                }
                assert forall|b1: int, b2: int|
                    0 <= b1 < b2 < blobs@.len() && blobs@[b1].size == blobs@[b2].size implies #[trigger] src[b1]
                        < #[trigger] src[b2] by {
                    if pos < old_blobs.len() {
                        assert(old_blobs[pos as int].size <= size);
                    }
                    if b1 < pos && b2 < pos {
                    } else if b1 < pos && b2 == pos {
                    } else if b1 < pos {
                        assert(blobs@[b2] == old_blobs[b2 - 1]);
                        assert(src[b2] == old_src[b2 - 1]);
                    } else if b1 == pos {
                        assert(blobs@[b2] == old_blobs[b2 - 1]);
                        assert(src[b2] == old_src[b2 - 1]);
                        assert(old_blobs[pos as int].size >= old_blobs[b2 - 1].size);
                    } else {
                        assert(src[b1] == old_src[b1 - 1]);
                        assert(src[b2] == old_src[b2 - 1]);
                    }
                }
                assert forall|i: int, j: int| 0 <= i < j < blobs@.len() implies #[trigger] blobs@[i].size
                    >= #[trigger] blobs@[j].size by {
                    if pos < old_blobs.len() {
                        assert(old_blobs[pos as int].size <= size);
                    }
                    if i < pos && j < pos {
                    } else if i < pos && j == pos {
                    } else if i < pos {
                        assert(blobs@[j] == old_blobs[j - 1]);
                    } else if i == pos {
                        assert(blobs@[j] == old_blobs[j - 1]);
                        assert(old_blobs[pos as int].size >= old_blobs[j - 1].size);
                    } else {
                        assert(blobs@[i] == old_blobs[i - 1]);
                        assert(blobs@[j] == old_blobs[j - 1]);
                    }
                }
            }
        }
    }
    (blobs, Ghost(src))
}

} // verus!
