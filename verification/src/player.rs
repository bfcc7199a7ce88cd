//! The refinement driver: holds the moving reference position and the cached
//! leaf that most recently contained it.

use vstd::prelude::*;
use crate::quadtree::{
    lemma_refined_contains_leaf,
    lemma_refined_depth_bounded,
    QuadTree,
    MIN_HALF_LENGTH,
};

verus! {

/// The leaf the driver caches for a point: among the entries of `leaves`
/// whose bounds contain the point, one of maximal depth; of several equally
/// deep candidates (a boundary tie), the first in enumeration order; absent
/// when no entry contains the point.
pub open spec fn best_leaf(leaves: Seq<QuadTree>, px: int, pz: int) -> Option<QuadTree>
    decreases leaves.len(),
{
    if leaves.len() == 0 {
        Option::None
    } else {
        let prefix = best_leaf(leaves.drop_last(), px, pz);
        let last = leaves.last();
        let last_wins = last.in_bounds(px, pz) && match prefix {
            Option::Some(b) => last.depth > b.depth,
            Option::None => true,
        };
        if last_wins {
            Option::Some(last)
        } else {
            prefix
        }
    }
}

/// The selection rule behind `best_leaf`: it comes up empty exactly when no
/// entry contains the point; otherwise it picks an entry that contains the
/// point, no containing entry is deeper than the pick, and every containing
/// entry enumerated before the picked index is strictly shallower — so of
/// several equally deep candidates the first in enumeration order is kept.
pub proof fn lemma_best_leaf_selects(s: Seq<QuadTree>, px: int, pz: int)
    ensures
        (best_leaf(s, px, pz) is None) <==> (forall|j: int|
            0 <= j < s.len() ==> !(#[trigger] s[j]).in_bounds(px, pz)),
        match best_leaf(s, px, pz) {
            Option::Some(b) => {
                &&& b.in_bounds(px, pz)
                &&& (forall|j: int|
                    0 <= j < s.len() && (#[trigger] s[j]).in_bounds(px, pz) ==> s[j].depth
                        <= b.depth)
                &&& (exists|j: int|
                    {
                        &&& 0 <= j < s.len()
                        &&& #[trigger] s[j] == b
                        &&& forall|k: int|
                            0 <= k < j && (#[trigger] s[k]).in_bounds(px, pz) ==> s[k].depth
                                < b.depth
                    })
            },
            Option::None => true,
        },
    decreases s.len(),
{
    if s.len() == 0 {
        return ;
    }
    let pre = s.drop_last();
    lemma_best_leaf_selects(pre, px, pz);
    assert(forall|j: int| 0 <= j < pre.len() ==> pre[j] == s[j]);
    let last = s.last();
    match best_leaf(s, px, pz) {
        Option::None => {},
        Option::Some(b) => {
            let last_wins = last.in_bounds(px, pz) && match best_leaf(pre, px, pz) {
                Option::Some(p) => last.depth > p.depth,
                Option::None => true,
            };
            if last_wins {
                assert(s[s.len() - 1] == b);
            } else {
                let j0 = choose|j: int|
                    {
                        &&& 0 <= j < pre.len()
                        &&& #[trigger] pre[j] == b
                        &&& forall|k: int|
                            0 <= k < j && (#[trigger] pre[k]).in_bounds(px, pz) ==> pre[k].depth
                                < b.depth
                    };
                assert(s[j0] == b);
            }
        },
    }
}

/// The driver's observable contract after a rebuild, assembled from the
/// refinement and selection laws: when the tree is regrown from a cleared
/// root whose region contains the point, a leaf is always cached afterward;
/// it contains the point, and it is at least as deep as an enumerated leaf
/// that contains the point and sits at the target depth (or at the
/// minimum-size cutoff where that depth is out of reach).
pub proof fn lemma_rebuild_resolves_a_leaf(
    pre_root: QuadTree,
    post_root: QuadTree,
    px: int,
    pz: int,
    target: int,
)
    requires
        pre_root.wf(),
        pre_root.is_leaf(),
        pre_root.in_bounds(px, pz),
        pre_root.refined(post_root, px, pz, target),
    ensures
        match best_leaf(post_root.leaves(), px, pz) {
            Option::Some(b) => {
                &&& b.in_bounds(px, pz)
                &&& exists|j: int|
                    {
                        &&& 0 <= j < post_root.leaves().len()
                        &&& (#[trigger] post_root.leaves()[j]).in_bounds(px, pz)
                        &&& (post_root.leaves()[j].depth == target || post_root.leaves()[
                            j
                        ].half_length <= MIN_HALF_LENGTH)
                        &&& b.depth >= post_root.leaves()[j].depth
                    }
                &&& pre_root.depth as int <= target ==> b.depth as int <= target
            },
            Option::None => false,
        },
{
    lemma_refined_contains_leaf(pre_root, post_root, px, pz, target);
    lemma_best_leaf_selects(post_root.leaves(), px, pz);
    if pre_root.depth as int <= target {
        lemma_refined_depth_bounded(pre_root, post_root, px, pz, target);
    }
}

/// The reference-point state of the refinement driver: a 2D position and the
/// most recently resolved leaf snapshot that contained it (a copy, never a
/// live reference into the tree).
#[derive(Debug)]
pub struct Player {
    pub x: i64,
    pub z: i64,
    pub current_bounds: Option<QuadTree>,
}

impl Player {
    /// A cached leaf, when present, is a region inside the bounded world.
    pub open spec fn bounds_ok(self) -> bool {
        match self.current_bounds {
            Option::Some(b) => b.in_world(),
            Option::None => true,
        }
    }

    /// Constructs a driver at the given position with no cached leaf.
    pub fn new(x: i64, z: i64) -> (r: Self)
        ensures
            r == (Player { x, z, current_bounds: None }),
    {
        Player { x, z, current_bounds: None }
    }

    /// Resets the position to the origin and forgets the cached leaf.
    pub fn reset_pos(&mut self)
        ensures
            *final(self) == (Player { x: 0, z: 0, current_bounds: None }),
    {
        self.x = 0;
        self.z = 0;
        self.current_bounds = None;
    }

    /// A leaf is cached and the current position still lies in its bounds —
    /// the condition under which `step` does no structural work.
    pub open spec fn at_cached_leaf(self) -> bool {
        match self.current_bounds {
            Option::Some(b) => b.in_bounds(self.x as int, self.z as int),
            Option::None => false,
        }
    }

    /// Returns true iff a leaf is cached and the current position lies in its
    /// bounds; with no cached leaf the position counts as out of bounds.
    pub fn is_in_bounds(&self) -> (r: bool)
        requires
            self.bounds_ok(),
        ensures
            r == self.at_cached_leaf(),
    {
        match &self.current_bounds {
            Option::Some(b) => b.check_bounds(self.x, self.z),
            Option::None => false,
        }
    }

    /// Moves the reference position by the given whole-unit displacement.
    pub fn move_player(&mut self, dx: i64, dz: i64)
        requires
            i64::MIN <= old(self).x + dx <= i64::MAX,
            i64::MIN <= old(self).z + dz <= i64::MAX,
        ensures
            final(self).x == old(self).x + dx,
            final(self).z == old(self).z + dz,
            final(self).current_bounds == old(self).current_bounds,
    {
        self.x = self.x + dx;
        self.z = self.z + dz;
    }

    /// Caches a read-only snapshot (a copy) of the given leaf.
    pub fn set_bounds(&mut self, bounds: &QuadTree)
        ensures
            *final(self) == (Player { current_bounds: Some(*bounds), ..*old(self) }),
    {
        self.current_bounds = Some(bounds.clone());
    }

    /// One step of the refinement policy. While the position stays inside
    /// the cached leaf nothing happens. Once it leaves (or when nothing is
    /// cached yet), the tree is cleared, regrown by `subdivide_until_depth`
    /// along the branch containing the position, and the deepest enumerated
    /// leaf containing the position (the first such on a boundary tie)
    /// becomes the new cached leaf.
    pub fn step(&mut self, root: &mut QuadTree, target_depth: usize)
        requires
            old(root).wf(),
            old(self).bounds_ok(),
        ensures
            final(self).x == old(self).x,
            final(self).z == old(self).z,
            final(root).wf(),
            final(self).bounds_ok(),
            old(self).at_cached_leaf() ==> *final(self) == *old(self) && *final(root) == *old(
                root,
            ),
            !old(self).at_cached_leaf() ==> {
                &&& (QuadTree { children: None, ..*old(root) }).refined(
                    *final(root),
                    old(self).x as int,
                    old(self).z as int,
                    target_depth as int,
                )
                &&& final(self).current_bounds == best_leaf(
                    final(root).leaves(),
                    old(self).x as int,
                    old(self).z as int,
                )
            },
    {
        if self.is_in_bounds() {
            return ;
        }
        root.clear_children();
        proof {
            assert(*root == (QuadTree { children: None, ..*old(root) }));
            assert(root.wf());
        }
        root.subdivide_until_depth(self.x, self.z, target_depth);
        proof {
            crate::quadtree::lemma_leaves_wf(*root);
        }
        match root.get_all_children() {
            Option::None => {
                proof {
                    assert(root.leaves() == seq![*root]);
                    assert(root.leaves().drop_last() =~= Seq::<QuadTree>::empty());
                    assert(best_leaf(Seq::<QuadTree>::empty(), self.x as int, self.z as int)
                        is None);
                    assert(root.leaves().last() == *root);
                }
                if root.check_bounds(self.x, self.z) {
                    self.current_bounds = Some(root.clone());
                } else {
                    self.current_bounds = None;
                }
            },
            Option::Some(v) => {
                let mut best: Option<QuadTree> = None;
                let mut i: usize = 0;
                proof {
                    assert(v@.take(0) =~= Seq::<QuadTree>::empty());
                }
                while i < v.len()
                    invariant
                        i <= v.len(),
                        v@ == root.leaves(),
                        forall|j: int|
                            0 <= j < v@.len() ==> (#[trigger] v@[j]).wf() && v@[j].is_leaf(),
                        best == best_leaf(v@.take(i as int), self.x as int, self.z as int),
                        match best {
                            Option::Some(b) => b.in_world(),
                            Option::None => true,
                        },
                    decreases v.len() - i,
                {
                    let cand = &v[i];
                    let replace = if cand.check_bounds(self.x, self.z) {
                        match &best {
                            Option::Some(b) => cand.depth > b.depth,
                            Option::None => true,
                        }
                    } else {
                        false
                    };
                    proof {
                        let pre = v@.take(i as int);
                        let cur = v@.take(i as int + 1);
                        assert(cur.drop_last() =~= pre);
                        assert(cur.last() == v@[i as int]);
                    }
                    if replace {
                        best = Some(cand.clone());
                    }
                    i = i + 1;
                }
                proof {
                    assert(v@.take(v@.len() as int) =~= v@);
                }
                self.current_bounds = best;
            },
        }
    }

    /// Returns a copy of the cached leaf snapshot, if any.
    pub fn get_bounds(&self) -> (r: Option<QuadTree>)
        ensures
            r == self.current_bounds,
    {
        match &self.current_bounds {
            Option::Some(b) => Option::Some(b.clone()),
            Option::None => Option::None,
        }
    }
}

} // verus!
