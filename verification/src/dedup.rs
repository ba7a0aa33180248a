//! The ordered deduplication set used while voxelizing.
//!
//! Hits are collected one cell at a time, and several triangles often hit
//! the same cell.  The set collapses those duplicates: it keeps voxels
//! sorted by position (lexicographically by x, then y, then z), each
//! position at most once, and ignores an insert whose position is already
//! present — so the first triangle to claim a cell also decides its color,
//! and iteration order is deterministic.

use vstd::prelude::*;

use crate::geom::{GVec, Vec3i};

verus! {

/// An occupied cell: an integer grid position (centered on the grid's
/// middle) and a color, stored as channel numerators on a 0..=765 scale.
#[derive(Clone, Copy, PartialEq, Eq, Structural, Debug)]
pub struct Voxel {
    pub position: Vec3i,
    pub color: Vec3i,
}

/// Strict lexicographic order on positions: by x, then y, then z.
pub open spec fn lex_lt(a: GVec, b: GVec) -> bool {
    ||| a.x < b.x
    ||| (a.x == b.x && a.y < b.y)
    ||| (a.x == b.x && a.y == b.y && a.z < b.z)
}

/// Executable counterpart of `lex_lt`.
pub fn lex_lt_exec(a: &Vec3i, b: &Vec3i) -> (r: bool)
    ensures
        r == lex_lt(a.gv(), b.gv()),
{
    if a.x != b.x {
        a.x < b.x
    } else if a.y != b.y {
        a.y < b.y
    } else {
        a.z < b.z
    }
}

/// A set of voxels with pairwise distinct positions, kept sorted in
/// strictly increasing lexicographic position order.
pub struct VoxelSet {
    pub items: Vec<Voxel>,
}

impl VoxelSet {
    /// Sorted strictly: positions are distinct and increasing.
    pub open spec fn wf(self) -> bool {
        forall|i: int, j: int|
            0 <= i < j < self.items@.len() ==> lex_lt(
                #[trigger] self.items@[i].position.gv(),
                #[trigger] self.items@[j].position.gv(),
            )
    }

    /// Some stored voxel has position `p`.
    pub open spec fn contains_pos(self, p: GVec) -> bool {
        exists|i: int|
            0 <= i < self.items@.len() && (#[trigger] self.items@[i].position.gv()) == p
    }

    /// The index of the voxel at position `p` (meaningful when
    /// `contains_pos(p)` holds; unique when `wf()` holds).
    pub open spec fn index_of(self, p: GVec) -> int {
        choose|i: int|
            0 <= i < self.items@.len() && (#[trigger] self.items@[i].position.gv()) == p
    }

    /// The color stored at position `p`.
    pub open spec fn color_of(self, p: GVec) -> GVec {
        self.items@[self.index_of(p)].color.gv()
    }

    pub fn new() -> (r: VoxelSet)
        ensures
            r.wf(),
            r.items@.len() == 0,
            forall|p: GVec| !r.contains_pos(p),
    {
        VoxelSet { items: Vec::new() }
    }

    /// Inserts `v` unless a voxel with the same position is already
    /// present; a duplicate insert leaves the set unchanged.
    pub fn insert(&mut self, v: Voxel)
        requires
            old(self).wf(),
        ensures
            final(self).wf(),
            forall|p: GVec|
                #[trigger] final(self).contains_pos(p) <==> (old(self).contains_pos(p) || p
                    == v.position.gv()),
            forall|p: GVec|
                old(self).contains_pos(p) ==> final(self).color_of(p) == old(self).color_of(p),
            !old(self).contains_pos(v.position.gv()) ==> final(self).color_of(v.position.gv())
                == v.color.gv(),
            old(self).contains_pos(v.position.gv()) ==> final(self).items@ == old(self).items@
                && final(self).items@.len() == old(self).items@.len(),
            !old(self).contains_pos(v.position.gv()) ==> final(self).items@.len() == old(
                self,
            ).items@.len() + 1,
            forall|n: int|
                0 <= n < final(self).items@.len() ==> (#[trigger] final(self).items@[n]) == v
                    || exists|j: int|
                    0 <= j < old(self).items@.len() && old(self).items@[j]
                        == final(self).items@[n],
    {
        let ghost orig = *self;
        let mut i: usize = 0;
        while i < self.items.len() && lex_lt_exec(&self.items[i].position, &v.position)
            invariant
                *self == orig,
                0 <= i <= self.items@.len(),
                forall|k: int|
                    0 <= k < i ==> lex_lt(
                        (#[trigger] self.items@[k].position.gv()),
                        v.position.gv(),
                    ),
            decreases self.items@.len() - i,
        {
            i = i + 1;
        }
        if i < self.items.len() && self.items[i].position == v.position {
            // Duplicate position: the earlier entry, and its color, stay.
            proof {
                assert(self.items@[i as int].position.gv() == v.position.gv());
                lemma_find_unique(*self, v.position.gv());
                assert forall|n: int| 0 <= n < self.items@.len() implies (
                #[trigger] self.items@[n]) == v || exists|j: int|
                    0 <= j < orig.items@.len() && orig.items@[j] == self.items@[n] by {
                    assert(orig.items@[n] == self.items@[n]);
                }
            }
            return ;
        }
        proof {
            // Everything at or after `i` is strictly greater than `v`'s
            // position, so inserting at `i` keeps the set sorted.
            if i < self.items@.len() {
                assert(!lex_lt(self.items@[i as int].position.gv(), v.position.gv()));
                assert(self.items@[i as int].position.gv() != v.position.gv());
            }
            assert forall|j: int| i <= j < self.items@.len() implies lex_lt(
                v.position.gv(),
                (#[trigger] self.items@[j].position.gv()),
            ) by {
                let pi = self.items@[i as int].position.gv();
                let pj = self.items@[j].position.gv();
                if j > i {
                    assert(lex_lt(pi, pj));
                }
                lemma_lex_trichotomy(pi, v.position.gv());
            }
            assert(!self.contains_pos(v.position.gv()));
        }
        let ghost before = *self;
        self.items.insert(i, v);
        proof {
            let s = self.items@;
            let o = before.items@;
            assert(s == o.insert(i as int, v));
            assert forall|a: int, b: int| 0 <= a < b < s.len() implies lex_lt(
                (#[trigger] s[a].position.gv()),
                (#[trigger] s[b].position.gv()),
            ) by {
                lemma_lex_trichotomy(s[a].position.gv(), s[b].position.gv());
            }
            assert(self.wf());
            assert forall|p: GVec| #[trigger] self.contains_pos(p) <==> (before.contains_pos(p)
                || p == v.position.gv()) by {
                if self.contains_pos(p) {
                    let k = choose|k: int| 0 <= k < s.len() && (#[trigger] s[k].position.gv()) == p;
                    if k < i {
                        assert(o[k].position.gv() == p);
                    } else if k > i {
                        assert(o[k - 1].position.gv() == p);
                    }
                }
                if before.contains_pos(p) {
                    let k = choose|k: int| 0 <= k < o.len() && (#[trigger] o[k].position.gv()) == p;
                    if k < i {
                        assert(s[k].position.gv() == p);
                    } else {
                        assert(s[k + 1].position.gv() == p);
                    }
                }
                if p == v.position.gv() {
                    assert(s[i as int].position.gv() == p);
                }
            }
            assert forall|p: GVec| before.contains_pos(p) implies self.color_of(p)
                == before.color_of(p) by {
                lemma_find_unique(before, p);
                lemma_find_unique(*self, p);
                let k = before.index_of(p);
                if k < i {
                    assert(s[k].position.gv() == p);
                    assert(self.index_of(p) == k);
                } else {
                    assert(s[k + 1].position.gv() == p);
                    assert(self.index_of(p) == k + 1);
                }
            }
            lemma_find_unique(*self, v.position.gv());
            assert(s[i as int].position.gv() == v.position.gv());
            assert(self.index_of(v.position.gv()) == i as int);
            assert(self.color_of(v.position.gv()) == v.color.gv());
            assert forall|n: int| 0 <= n < s.len() implies (#[trigger] s[n]) == v || exists|j: int|
                0 <= j < o.len() && o[j] == s[n] by {
                if n < i {
                    assert(o[n] == s[n]);
                } else if n > i {
                    assert(o[n - 1] == s[n]);
                }
            }
        }
    }
}

/// The lexicographic order is a trichotomy: of two positions, one is
/// smaller, or they are equal.
pub proof fn lemma_lex_trichotomy(a: GVec, b: GVec)
    ensures
        lex_lt(a, b) || lex_lt(b, a) || a == b,
{
}

/// In a well-formed set an occupied position determines its index.
pub proof fn lemma_find_unique(s: VoxelSet, p: GVec)
    requires
        s.wf(),
        s.contains_pos(p),
    ensures
        0 <= s.index_of(p) < s.items@.len(),
        s.items@[s.index_of(p)].position.gv() == p,
        forall|j: int|
            0 <= j < s.items@.len() && (#[trigger] s.items@[j].position.gv()) == p ==> j
                == s.index_of(p),
{
    let i = s.index_of(p);
    assert(0 <= i < s.items@.len() && s.items@[i].position.gv() == p);
    assert forall|j: int|
        0 <= j < s.items@.len() && (#[trigger] s.items@[j].position.gv()) == p implies j == i by {
        if j < i {
            assert(lex_lt(s.items@[j].position.gv(), s.items@[i].position.gv()));
        }
        if j > i {
            assert(lex_lt(s.items@[i].position.gv(), s.items@[j].position.gv()));
        }
    }
}

} // verus!
