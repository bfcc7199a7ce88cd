//! The quadtree node: a square region that is either a leaf or is split into
//! exactly four children that tile it.
//!
//! Coordinates are integers. A node covers the closed square
//! `[x - half_length, x + half_length] x [z - half_length, z + half_length]`.
//! Half-lengths are powers of two, so a subdivided node's children tile its
//! region exactly, with no gap and no overlap of interiors.

use vstd::prelude::*;

verus! {

/// The world is bounded: every node's region lies inside
/// `[-WORLD_BOUND, WORLD_BOUND]` on both axes.
pub const WORLD_BOUND: i64 = 32768;

/// A node whose half-length is at or below this threshold refuses to
/// subdivide, which keeps regions from degenerating and bounds recursion.
pub const MIN_HALF_LENGTH: i64 = 1;

/// Every well-formed node satisfies `depth + half_length <= DEPTH_BUDGET`;
/// subdividing preserves it (depth grows by 1 while half-length halves),
/// so depths stay far away from overflow.
pub const DEPTH_BUDGET: i64 = 32768;

/// Number of distinct leaf styles a rendering collaborator cycles through.
pub const PALETTE_SIZE: usize = 5;

/// The style slot for a leaf of the given depth, a pure function of depth:
/// depths up to `PALETTE_SIZE` cycle through the palette, deeper nodes get
/// no slot (callers fall back to a default style).
pub fn palette_index(depth: usize) -> (r: Option<usize>)
    ensures
        depth > PALETTE_SIZE ==> r is None,
        depth <= PALETTE_SIZE ==> r == Some(depth % PALETTE_SIZE),
{
    if depth > PALETTE_SIZE {
        Option::None
    } else {
        Option::Some(depth % PALETTE_SIZE)
    }
}

/// True iff `n` is a power of two (and positive).
pub open spec fn is_pow2(n: int) -> bool
    decreases n,
{
    if n <= 0 {
        false
    } else if n == 1 {
        true
    } else {
        n % 2 == 0 && is_pow2(n / 2)
    }
}

/// A power of two that admits halving splits exactly in two equal halves.
pub proof fn lemma_pow2_halves(n: int)
    requires
        is_pow2(n),
        n >= 2,
    ensures
        n % 2 == 0,
        is_pow2(n / 2),
        n / 2 >= 1,
        2 * (n / 2) == n,
{
    assert(is_pow2(n / 2) ==> n / 2 >= 1);
}

/// A well-formed tree has at least one leaf and, since leaves never shrink
/// below half-length 1 inside a region of side `2 * half_length`, at most
/// `half_length * half_length` of them.
pub proof fn lemma_leaves_len_bound(t: QuadTree)
    requires
        t.wf(),
    ensures
        1 <= t.leaves().len(),
        t.leaves().len() <= t.half_length * t.half_length,
    decreases t,
{
    let hl = t.half_length as int;
    lemma_pow2_pos(hl);
    match t.children {
        Option::None => {
            assert(1 <= hl * hl) by (nonlinear_arith)
                requires
                    1 <= hl,
            ;
        },
        Option::Some(b) => {
            lemma_pow2_halves(hl);
            let q = hl / 2;
            lemma_leaves_len_bound(b.q0);
            lemma_leaves_len_bound(b.q1);
            lemma_leaves_len_bound(b.q2);
            lemma_leaves_len_bound(b.q3);
            assert(t.leaves().len() <= 4 * (q * q));
            assert(4 * (q * q) == (2 * q) * (2 * q)) by (nonlinear_arith);
            assert(2 * q == hl);
        },
    }
}

/// Every leaf collected from a well-formed tree is itself well-formed (in
/// particular it lies inside the bounded world) and has no children.
pub proof fn lemma_leaves_wf(t: QuadTree)
    requires
        t.wf(),
    ensures
        forall|j: int|
            0 <= j < t.leaves().len() ==> (#[trigger] t.leaves()[j]).wf() && t.leaves()[j].is_leaf(),
    decreases t,
{
    match t.children {
        Option::None => {
            assert(t.leaves() == seq![t]);
        },
        Option::Some(b) => {
            lemma_leaves_wf(b.q0);
            lemma_leaves_wf(b.q1);
            lemma_leaves_wf(b.q2);
            lemma_leaves_wf(b.q3);
            let s0 = b.q0.leaves();
            let s1 = b.q1.leaves();
            let s2 = b.q2.leaves();
            let s3 = b.q3.leaves();
            assert(t.leaves() == s0 + s1 + s2 + s3);
            assert forall|j: int| 0 <= j < t.leaves().len() implies (#[trigger] t.leaves()[j]).wf()
                && t.leaves()[j].is_leaf() by {
                if j < s0.len() {
                    assert(t.leaves()[j] == s0[j]);
                } else if j < s0.len() + s1.len() {
                    assert(t.leaves()[j] == s1[j - s0.len()]);
                } else if j < s0.len() + s1.len() + s2.len() {
                    assert(t.leaves()[j] == s2[j - s0.len() - s1.len()]);
                } else {
                    assert(t.leaves()[j] == s3[j - s0.len() - s1.len() - s2.len()]);
                }
            }
        },
    }
}

/// A power of two is positive.
pub proof fn lemma_pow2_pos(n: int)
    requires
        is_pow2(n),
    ensures
        n >= 1,
{
}

/// Four quarter-region leaf bounds sum to the full region's bound, which
/// stays far below `usize::MAX`.
proof fn lemma_quarter_bound(n: int)
    requires
        2 <= n <= WORLD_BOUND,
        is_pow2(n),
    ensures
        4 * ((n / 2) * (n / 2)) <= WORLD_BOUND * WORLD_BOUND,
{
    lemma_pow2_halves(n);
    let q = n / 2;
    assert(4 * (q * q) == (2 * q) * (2 * q)) by (nonlinear_arith);
    assert((2 * q) * (2 * q) <= WORLD_BOUND * WORLD_BOUND) by (nonlinear_arith)
        requires
            0 <= 2 * q <= WORLD_BOUND,
    ;
}

/// The four children of a subdivided node, in fixed order:
/// `q0` top right, `q1` bottom right, `q2` bottom left, `q3` top left
/// ("top" is the positive z direction).
#[derive(Debug)]
pub struct Quadrants {
    pub q0: QuadTree,
    pub q1: QuadTree,
    pub q2: QuadTree,
    pub q3: QuadTree,
}

/// One square node of the quadtree: a leaf when `children` is absent,
/// a branch with exactly four children otherwise.
#[derive(Debug)]
pub struct QuadTree {
    pub x: i64,
    pub z: i64,
    pub depth: usize,
    pub half_length: i64,
    pub children: Option<Box<Quadrants>>,
}

impl QuadTree {
    /// Left edge of the region (inclusive).
    pub open spec fn left(self) -> int {
        self.x - self.half_length
    }

    /// Right edge of the region (inclusive).
    pub open spec fn right(self) -> int {
        self.x + self.half_length
    }

    /// Bottom edge of the region (inclusive).
    pub open spec fn bottom(self) -> int {
        self.z - self.half_length
    }

    /// Top edge of the region (inclusive).
    pub open spec fn top(self) -> int {
        self.z + self.half_length
    }

    /// A point is in bounds iff it lies in the closed square region,
    /// inclusive on all four edges.
    pub open spec fn in_bounds(self, px: int, pz: int) -> bool {
        self.left() <= px <= self.right() && self.bottom() <= pz <= self.top()
    }

    /// The open interior of the region, excluding the boundary.
    pub open spec fn in_interior(self, px: int, pz: int) -> bool {
        self.left() < px < self.right() && self.bottom() < pz < self.top()
    }

    pub open spec fn is_leaf(self) -> bool {
        self.children is None
    }

    /// How many children the node owns: none on a leaf, four on a branch.
    pub open spec fn num_children(self) -> int {
        match self.children {
            Option::None => 0,
            Option::Some(_) => 4,
        }
    }

    /// The region is a genuine square lying inside the bounded world.
    pub open spec fn in_world(self) -> bool {
        &&& 0 <= self.half_length
        &&& -WORLD_BOUND <= self.left()
        &&& self.right() <= WORLD_BOUND
        &&& -WORLD_BOUND <= self.bottom()
        &&& self.top() <= WORLD_BOUND
    }

    /// The scalar part of well-formedness: a power-of-two sized square
    /// inside the world, with depth under the budget.
    pub open spec fn node_ok(self) -> bool {
        &&& is_pow2(self.half_length as int)
        &&& self.in_world()
        &&& self.depth as int + self.half_length as int <= DEPTH_BUDGET
    }

    /// Center x of child `i`, by the tiling offset rule.
    pub open spec fn child_x(self, i: int) -> int {
        if i == 0 || i == 1 {
            self.x + self.half_length as int / 2
        } else {
            self.x - self.half_length as int / 2
        }
    }

    /// Center z of child `i`, by the tiling offset rule.
    pub open spec fn child_z(self, i: int) -> int {
        if i == 0 || i == 3 {
            self.z + self.half_length as int / 2
        } else {
            self.z - self.half_length as int / 2
        }
    }

    /// The fresh leaf child `i` that subdividing this node creates.
    pub open spec fn child_at(self, i: int) -> QuadTree {
        QuadTree {
            x: self.child_x(i) as i64,
            z: self.child_z(i) as i64,
            depth: (self.depth + 1) as usize,
            half_length: (self.half_length as int / 2) as i64,
            children: None,
        }
    }

    /// The actual child `i` of a branch node (the node itself on a leaf,
    /// where there is no child).
    pub open spec fn child(self, i: int) -> QuadTree
        recommends
            !self.is_leaf(),
            0 <= i < 4,
    {
        match self.children {
            Option::Some(b) => {
                if i == 0 {
                    b.q0
                } else if i == 1 {
                    b.q1
                } else if i == 2 {
                    b.q2
                } else {
                    b.q3
                }
            },
            Option::None => self,
        }
    }

    /// Child `c` sits in slot `i` of this node: its center obeys the tiling
    /// offset rule, its half-length is half of this node's, and it is one
    /// level deeper.
    pub open spec fn frame_ok(self, c: QuadTree, i: int) -> bool {
        &&& c.x == self.child_x(i)
        &&& c.z == self.child_z(i)
        &&& c.half_length as int == self.half_length as int / 2
        &&& c.depth as int == self.depth as int + 1
    }

    /// Structural well-formedness of the whole subtree: every node is a
    /// well-placed power-of-two square, and a branch's four children tile it.
    pub open spec fn wf(self) -> bool
        decreases self,
    {
        &&& self.node_ok()
        &&& match self.children {
            Option::None => true,
            Option::Some(b) => {
                &&& self.half_length >= 2
                &&& self.frame_ok(b.q0, 0)
                &&& self.frame_ok(b.q1, 1)
                &&& self.frame_ok(b.q2, 2)
                &&& self.frame_ok(b.q3, 3)
                &&& b.q0.wf()
                &&& b.q1.wf()
                &&& b.q2.wf()
                &&& b.q3.wf()
            },
        }
    }

    /// The leaves reachable from this node, depth-first, children in fixed
    /// index order at every level; a leaf's only reachable leaf is itself.
    pub open spec fn leaves(self) -> Seq<QuadTree>
        decreases self,
    {
        match self.children {
            Option::None => seq![self],
            Option::Some(b) => b.q0.leaves() + b.q1.leaves() + b.q2.leaves() + b.q3.leaves(),
        }
    }

    /// What `get_children_count` counts: the number of leaves below this
    /// node, which is zero on a leaf itself.
    pub open spec fn leaf_count(self) -> int {
        if self.is_leaf() {
            0
        } else {
            self.leaves().len() as int
        }
    }

    /// How `subdivide_until_depth(px, pz, target)` rewrites a tree: a node at
    /// the target depth, or too small to split, is left exactly as it was;
    /// any other node is subdivided afresh, and each new child is refined
    /// recursively iff the point lies in its bounds (on a boundary tie more
    /// than one child is refined), else left a plain leaf.
    pub open spec fn refined(self, post: QuadTree, px: int, pz: int, target: int) -> bool
        decreases self.half_length,
    {
        if self.depth == target {
            post == self
        } else if self.half_length <= MIN_HALF_LENGTH {
            post == self
        } else {
            &&& post.x == self.x
            &&& post.z == self.z
            &&& post.depth == self.depth
            &&& post.half_length == self.half_length
            &&& match post.children {
                Option::Some(b) => {
                    &&& (if self.child_at(0).in_bounds(px, pz) {
                        self.child_at(0).refined(b.q0, px, pz, target)
                    } else {
                        b.q0 == self.child_at(0)
                    })
                    &&& (if self.child_at(1).in_bounds(px, pz) {
                        self.child_at(1).refined(b.q1, px, pz, target)
                    } else {
                        b.q1 == self.child_at(1)
                    })
                    &&& (if self.child_at(2).in_bounds(px, pz) {
                        self.child_at(2).refined(b.q2, px, pz, target)
                    } else {
                        b.q2 == self.child_at(2)
                    })
                    &&& (if self.child_at(3).in_bounds(px, pz) {
                        self.child_at(3).refined(b.q3, px, pz, target)
                    } else {
                        b.q3 == self.child_at(3)
                    })
                },
                Option::None => false,
            }
        }
    }

    /// `b` is this tree moved rigidly by `(dx, dz)`: the same shape with the
    /// same depths and half-lengths, every node's center shifted by the
    /// offset.
    pub open spec fn translated(self, b: QuadTree, dx: int, dz: int) -> bool
        decreases self,
    {
        &&& b.x == self.x + dx
        &&& b.z == self.z + dz
        &&& b.depth == self.depth
        &&& b.half_length == self.half_length
        &&& match (self.children, b.children) {
            (Option::None, Option::None) => true,
            (Option::Some(p), Option::Some(q)) => {
                &&& p.q0.translated(q.q0, dx, dz)
                &&& p.q1.translated(q.q1, dx, dz)
                &&& p.q2.translated(q.q2, dx, dz)
                &&& p.q3.translated(q.q3, dx, dz)
            },
            _ => false,
        }
    }

    /// Constructs a leaf node.
    pub fn new(x: i64, z: i64, half_length: i64, depth: usize) -> (r: Self)
        ensures
            r == (QuadTree { x, z, depth, half_length, children: None }),
    {
        QuadTree { x, z, depth, half_length, children: None }
    }

    /// Returns the center of the node's region.
    pub fn get_position(&self) -> (r: (i64, i64))
        ensures
            r.0 == self.x,
            r.1 == self.z,
    {
        (self.x, self.z)
    }

    /// Returns true iff the point lies within the node's closed square
    /// region, inclusive on both ends of both axes; a point exactly on a
    /// boundary shared by two sibling regions is therefore in bounds of both.
    pub fn check_bounds(&self, px: i64, pz: i64) -> (r: bool)
        requires
            self.in_world(),
        ensures
            r == self.in_bounds(px as int, pz as int),
    {
        if px < self.x - self.half_length || px > self.x + self.half_length || pz < self.z
            - self.half_length || pz > self.z + self.half_length {
            return false;
        }
        true
    }

    /// Subdivides the node into four fresh leaf children that tile its
    /// region, in fixed order (top right, bottom right, bottom left, top
    /// left). Any existing children are unconditionally replaced — a "reset
    /// and regrow one level" operation. At or below the minimum half-length
    /// threshold the call is a no-op.
    pub fn subdivide(&mut self)
        requires
            old(self).node_ok(),
        ensures
            final(self).x == old(self).x,
            final(self).z == old(self).z,
            final(self).depth == old(self).depth,
            final(self).half_length == old(self).half_length,
            final(self).node_ok(),
            old(self).half_length <= MIN_HALF_LENGTH ==> *final(self) == *old(self),
            old(self).half_length > MIN_HALF_LENGTH ==> match final(self).children {
                Option::Some(b) => {
                    &&& b.q0 == old(self).child_at(0)
                    &&& b.q1 == old(self).child_at(1)
                    &&& b.q2 == old(self).child_at(2)
                    &&& b.q3 == old(self).child_at(3)
                },
                Option::None => false,
            },
            old(self).half_length > MIN_HALF_LENGTH ==> final(self).wf(),
            old(self).wf() ==> final(self).wf(),
    {
        if self.half_length <= MIN_HALF_LENGTH {
            return ;
        }
        proof {
            lemma_pow2_halves(self.half_length as int);
        }
        let q = self.half_length / 2;
        let d = self.depth + 1;
        let c0 = QuadTree::new(self.x + q, self.z + q, q, d);
        let c1 = QuadTree::new(self.x + q, self.z - q, q, d);
        let c2 = QuadTree::new(self.x - q, self.z - q, q, d);
        let c3 = QuadTree::new(self.x - q, self.z + q, q, d);
        self.children = Some(Box::new(Quadrants { q0: c0, q1: c1, q2: c2, q3: c3 }));
        proof {
            let p = *old(self);
            assert(c0 == p.child_at(0));
            assert(c1 == p.child_at(1));
            assert(c2 == p.child_at(2));
            assert(c3 == p.child_at(3));
            assert(p.child_at(0).wf());
            assert(p.child_at(1).wf());
            assert(p.child_at(2).wf());
            assert(p.child_at(3).wf());
            assert(self.wf());
        }
    }

    /// Drops the entire subtree below this node, making it a leaf.
    pub fn clear_children(&mut self)
        ensures
            *final(self) == (QuadTree { children: None, ..*old(self) }),
    {
        self.children = None;
    }

    /// Read access to the four children; absent on a leaf.
    pub fn get_children(&self) -> (r: Option<&Quadrants>)
        ensures
            match r {
                Option::None => self.is_leaf(),
                Option::Some(q) => {
                    &&& !self.is_leaf()
                    &&& q.q0 == self.child(0)
                    &&& q.q1 == self.child(1)
                    &&& q.q2 == self.child(2)
                    &&& q.q3 == self.child(3)
                },
            },
    {
        match &self.children {
            Option::Some(b) => Option::Some(&**b),
            Option::None => Option::None,
        }
    }

    /// Moves the whole subtree rigidly by `(dx, dz)`, as long as the moved
    /// region still lies inside the bounded world.
    pub fn offset(&mut self, dx: i64, dz: i64)
        requires
            old(self).wf(),
            -WORLD_BOUND <= old(self).left() + dx,
            old(self).right() + dx <= WORLD_BOUND,
            -WORLD_BOUND <= old(self).bottom() + dz,
            old(self).top() + dz <= WORLD_BOUND,
        ensures
            final(self).wf(),
            old(self).translated(*final(self), dx as int, dz as int),
        decreases old(self).half_length,
    {
        let kids = self.children.take();
        match kids {
            Option::None => {},
            Option::Some(mut b) => {
                b.q0.offset(dx, dz);
                b.q1.offset(dx, dz);
                b.q2.offset(dx, dz);
                b.q3.offset(dx, dz);
                self.children = Option::Some(b);
            },
        }
        self.x = self.x + dx;
        self.z = self.z + dz;
        proof {
            assert(self.wf());
        }
    }

    /// The core adaptive-refinement operation. A node already at the target
    /// depth stops and hands back a copy of itself, leaving the tree
    /// untouched; any other node is subdivided afresh (resetting whatever
    /// children existed) and every new child whose bounds contain the point
    /// is refined recursively, so on a boundary tie several branches grow to
    /// the target depth. Growth also stops where the minimum half-length
    /// threshold forbids further subdivision.
    pub fn subdivide_until_depth(&mut self, px: i64, pz: i64, target_depth: usize) -> (r: Option<
        QuadTree,
    >)
        requires
            old(self).wf(),
        ensures
            final(self).wf(),
            old(self).refined(*final(self), px as int, pz as int, target_depth as int),
            final(self).x == old(self).x,
            final(self).z == old(self).z,
            final(self).depth == old(self).depth,
            final(self).half_length == old(self).half_length,
            match r {
                Option::Some(t) => {
                    &&& old(self).depth == target_depth
                    &&& t == *old(self)
                    &&& *final(self) == *old(self)
                },
                Option::None => old(self).depth != target_depth,
            },
        decreases old(self).half_length,
    {
        if self.depth == target_depth {
            return Option::Some(self.clone());
        }
        self.subdivide();
        let kids = self.children.take();
        match kids {
            Option::None => {
                proof {
                    assert(old(self).half_length <= MIN_HALF_LENGTH);
                }
            },
            Option::Some(mut b) => {
                proof {
                    assert(b.q0 == old(self).child_at(0));
                    assert(b.q1 == old(self).child_at(1));
                    assert(b.q2 == old(self).child_at(2));
                    assert(b.q3 == old(self).child_at(3));
                }
                if b.q0.check_bounds(px, pz) {
                    b.q0.subdivide_until_depth(px, pz, target_depth);
                }
                if b.q1.check_bounds(px, pz) {
                    b.q1.subdivide_until_depth(px, pz, target_depth);
                }
                if b.q2.check_bounds(px, pz) {
                    b.q2.subdivide_until_depth(px, pz, target_depth);
                }
                if b.q3.check_bounds(px, pz) {
                    b.q3.subdivide_until_depth(px, pz, target_depth);
                }
                self.children = Option::Some(b);
                proof {
                    assert(self.wf());
                }
            },
        }
        Option::None
    }

    /// Pushes every leaf below this node onto `out`, depth-first in child
    /// index order; a childless node pushes itself.
    fn collect_leaves(&self, out: &mut Vec<QuadTree>)
        ensures
            final(out)@ == old(out)@ + self.leaves(),
        decreases *self,
    {
        match &self.children {
            Option::None => {
                out.push(self.clone());
            },
            Option::Some(b) => {
                b.q0.collect_leaves(out);
                b.q1.collect_leaves(out);
                b.q2.collect_leaves(out);
                b.q3.collect_leaves(out);
                proof {
                    assert(out@ =~= old(out)@ + self.leaves());
                }
            },
        }
    }

    /// Collects copies of all leaves reachable from this node, depth-first in
    /// child index order; absent when this node is itself a leaf, so callers
    /// can tell "no children at all" from an exhausted branch.
    pub fn get_all_children(&self) -> (r: Option<Vec<QuadTree>>)
        ensures
            match r {
                Option::None => self.is_leaf(),
                Option::Some(v) => !self.is_leaf() && v@ == self.leaves(),
            },
    {
        match &self.children {
            Option::None => Option::None,
            Option::Some(b) => {
                let mut out: Vec<QuadTree> = Vec::new();
                b.q0.collect_leaves(&mut out);
                b.q1.collect_leaves(&mut out);
                b.q2.collect_leaves(&mut out);
                b.q3.collect_leaves(&mut out);
                proof {
                    assert(out@ =~= self.leaves());
                }
                Option::Some(out)
            },
        }
    }

    /// Counts the leaves reachable below this node; a leaf itself has no
    /// children and counts zero.
    pub fn get_children_count(&self) -> (r: usize)
        requires
            self.wf(),
        ensures
            r == self.leaf_count(),
        decreases *self,
    {
        match &self.children {
            Option::None => 0,
            Option::Some(b) => {
                proof {
                    lemma_leaves_len_bound(b.q0);
                    lemma_leaves_len_bound(b.q1);
                    lemma_leaves_len_bound(b.q2);
                    lemma_leaves_len_bound(b.q3);
                    lemma_quarter_bound(self.half_length as int);
                }
                let mut count: usize = 0;
                count += if b.q0.get_children().is_some() {
                    b.q0.get_children_count()
                } else {
                    1
                };
                count += if b.q1.get_children().is_some() {
                    b.q1.get_children_count()
                } else {
                    1
                };
                count += if b.q2.get_children().is_some() {
                    b.q2.get_children_count()
                } else {
                    1
                };
                count += if b.q3.get_children().is_some() {
                    b.q3.get_children_count()
                } else {
                    1
                };
                count
            },
        }
    }

    /// Returns the node's depth (distance from the root; the root is 0).
    pub fn get_depth(&self) -> (r: usize)
        ensures
            r == self.depth,
    {
        self.depth
    }

    /// Returns half the side length of the node's square region.
    pub fn get_half_length(&self) -> (r: i64)
        ensures
            r == self.half_length,
    {
        self.half_length
    }

    /// Returns the x coordinate of the region's center.
    pub fn get_x(&self) -> (r: i64)
        ensures
            r == self.x,
    {
        self.x
    }

    /// Returns the z coordinate of the region's center.
    pub fn get_z(&self) -> (r: i64)
        ensures
            r == self.z,
    {
        self.z
    }
}

/// A fresh child created by subdividing a well-placed node is well-formed
/// and sits exactly in its slot.
pub proof fn lemma_child_at_wf(t: QuadTree, i: int)
    requires
        t.node_ok(),
        t.half_length >= 2,
        0 <= i < 4,
    ensures
        t.child_at(i).wf(),
        t.frame_ok(t.child_at(i), i),
{
    lemma_pow2_halves(t.half_length as int);
}

/// Tiling, no gap: a point lies in a branch node's bounds iff it lies in the
/// bounds of at least one of its four children.
pub proof fn lemma_children_cover(t: QuadTree, px: int, pz: int)
    requires
        t.wf(),
        !t.is_leaf(),
    ensures
        t.in_bounds(px, pz) <==> exists|i: int|
            0 <= i < 4 && (#[trigger] t.child(i)).in_bounds(px, pz),
{
    lemma_pow2_halves(t.half_length as int);
    if t.in_bounds(px, pz) {
        if px >= t.x && pz >= t.z {
            assert(t.child(0).in_bounds(px, pz));
        } else if px >= t.x {
            assert(t.child(1).in_bounds(px, pz));
        } else if pz >= t.z {
            assert(t.child(3).in_bounds(px, pz));
        } else {
            assert(t.child(2).in_bounds(px, pz));
        }
    }
}

/// Tiling, sizes: each child of a branch node has exactly half its parent's
/// half-length — so the four child squares add up to the parent's area — and
/// sits one level deeper (depth monotonicity).
pub proof fn lemma_child_frames(t: QuadTree, i: int)
    requires
        t.wf(),
        !t.is_leaf(),
        0 <= i < 4,
    ensures
        2 * (t.child(i).half_length as int) == t.half_length as int,
        t.child(i).depth as int == t.depth as int + 1,
{
    lemma_pow2_halves(t.half_length as int);
}

/// Tiling, no overlap: the interiors of two distinct children of a branch
/// node are disjoint — only boundary points are ever shared.
pub proof fn lemma_children_disjoint(t: QuadTree, px: int, pz: int, i: int, k: int)
    requires
        t.wf(),
        !t.is_leaf(),
        0 <= i < 4,
        0 <= k < 4,
        i != k,
        t.child(i).in_interior(px, pz),
    ensures
        !t.child(k).in_interior(px, pz),
{
    lemma_pow2_halves(t.half_length as int);
}

/// Leaf/branch exclusivity: a node owns either no children or exactly four,
/// never one, two or three.
pub proof fn lemma_leaf_or_branch(t: QuadTree)
    ensures
        t.num_children() == 0 || t.num_children() == 4,
{
}

/// Idempotent clearing: a node whose children have just been cleared is a
/// leaf — so `get_all_children`, whose result is absent exactly on leaves,
/// reports absent — and clearing it again changes nothing.
pub proof fn lemma_cleared_node_is_leaf(t: QuadTree)
    ensures
        (QuadTree { children: None, ..t }).is_leaf(),
        (QuadTree { children: None, ..(QuadTree { children: None, ..t }) }) == (QuadTree {
            children: None,
            ..t
        }),
{
}

/// Containment consistency: refining a well-formed leaf toward a target
/// depth around a point inside its region always leaves, among the
/// enumerated leaves, one that contains the point and sits either at the
/// target depth or at the minimum-size cutoff.
pub proof fn lemma_refined_contains_leaf(
    pre: QuadTree,
    post: QuadTree,
    px: int,
    pz: int,
    target: int,
)
    requires
        pre.wf(),
        pre.is_leaf(),
        pre.in_bounds(px, pz),
        pre.refined(post, px, pz, target),
    ensures
        exists|j: int|
            {
                &&& 0 <= j < post.leaves().len()
                &&& (#[trigger] post.leaves()[j]).in_bounds(px, pz)
                &&& (post.leaves()[j].depth == target || post.leaves()[j].half_length
                    <= MIN_HALF_LENGTH)
            },
    decreases pre.half_length,
{
    if pre.depth == target || pre.half_length <= MIN_HALF_LENGTH {
        assert(post.leaves() == seq![post]);
        assert(post.leaves()[0] == post);
    } else {
        lemma_pow2_halves(pre.half_length as int);
        let i: int = if px >= pre.x {
            if pz >= pre.z {
                0
            } else {
                1
            }
        } else {
            if pz >= pre.z {
                3
            } else {
                2
            }
        };
        lemma_child_at_wf(pre, i);
        assert(pre.child_at(i).in_bounds(px, pz));
        match post.children {
            Option::None => {
                assert(false);
            },
            Option::Some(b) => {
                let c = if i == 0 {
                    b.q0
                } else if i == 1 {
                    b.q1
                } else if i == 2 {
                    b.q2
                } else {
                    b.q3
                };
                assert(pre.child_at(i).refined(c, px, pz, target));
                lemma_refined_contains_leaf(pre.child_at(i), c, px, pz, target);
                let j0 = choose|j: int|
                    {
                        &&& 0 <= j < c.leaves().len()
                        &&& (#[trigger] c.leaves()[j]).in_bounds(px, pz)
                        &&& (c.leaves()[j].depth == target || c.leaves()[j].half_length
                            <= MIN_HALF_LENGTH)
                    };
                let s0 = b.q0.leaves();
                let s1 = b.q1.leaves();
                let s2 = b.q2.leaves();
                let s3 = b.q3.leaves();
                assert(post.leaves() == s0 + s1 + s2 + s3);
                let off: int = if i == 0 {
                    0
                } else if i == 1 {
                    s0.len() as int
                } else if i == 2 {
                    s0.len() as int + s1.len() as int
                } else {
                    s0.len() as int + s1.len() as int + s2.len() as int
                };
                assert(post.leaves()[off + j0] == c.leaves()[j0]);
            },
        }
    }
}

/// Refinement never overshoots: regrowing a leaf node that is not yet past
/// the target depth produces only leaves at or above the target depth. With
/// containment consistency this pins the resolved leaf to exactly the target
/// depth whenever the minimum-size cutoff is not hit.
pub proof fn lemma_refined_depth_bounded(
    pre: QuadTree,
    post: QuadTree,
    px: int,
    pz: int,
    target: int,
)
    requires
        pre.wf(),
        pre.is_leaf(),
        pre.depth as int <= target,
        pre.refined(post, px, pz, target),
    ensures
        forall|j: int|
            0 <= j < post.leaves().len() ==> (#[trigger] post.leaves()[j]).depth as int <= target,
    decreases pre.half_length,
{
    if pre.depth == target || pre.half_length <= MIN_HALF_LENGTH {
        assert(post.leaves() == seq![post]);
    } else {
        match post.children {
            Option::None => {
                assert(false);
            },
            Option::Some(b) => {
                lemma_child_at_wf(pre, 0);
                lemma_child_at_wf(pre, 1);
                lemma_child_at_wf(pre, 2);
                lemma_child_at_wf(pre, 3);
                if pre.child_at(0).in_bounds(px, pz) {
                    lemma_refined_depth_bounded(pre.child_at(0), b.q0, px, pz, target);
                } else {
                    assert(b.q0.leaves() == seq![b.q0]);
                }
                if pre.child_at(1).in_bounds(px, pz) {
                    lemma_refined_depth_bounded(pre.child_at(1), b.q1, px, pz, target);
                } else {
                    assert(b.q1.leaves() == seq![b.q1]);
                }
                if pre.child_at(2).in_bounds(px, pz) {
                    lemma_refined_depth_bounded(pre.child_at(2), b.q2, px, pz, target);
                } else {
                    assert(b.q2.leaves() == seq![b.q2]);
                }
                if pre.child_at(3).in_bounds(px, pz) {
                    lemma_refined_depth_bounded(pre.child_at(3), b.q3, px, pz, target);
                } else {
                    assert(b.q3.leaves() == seq![b.q3]);
                }
                let s0 = b.q0.leaves();
                let s1 = b.q1.leaves();
                let s2 = b.q2.leaves();
                let s3 = b.q3.leaves();
                assert(post.leaves() == s0 + s1 + s2 + s3);
                assert forall|j: int| 0 <= j < post.leaves().len() implies (#[trigger] post.leaves()[
                    j
                ]).depth as int <= target by {
                    if j < s0.len() {
                        assert(post.leaves()[j] == s0[j]);
                    } else if j < s0.len() + s1.len() {
                        assert(post.leaves()[j] == s1[j - s0.len()]);
                    } else if j < s0.len() + s1.len() + s2.len() {
                        assert(post.leaves()[j] == s2[j - s0.len() - s1.len()]);
                    } else {
                        assert(post.leaves()[j] == s3[j - s0.len() - s1.len() - s2.len()]);
                    }
                }
            },
        }
    }
}

impl Clone for QuadTree {
    /// Deep copy: the clone equals the original, field for field, down the
    /// whole subtree.
    fn clone(&self) -> (r: Self)
        ensures
            r == *self,
        decreases *self,
    {
        QuadTree {
            x: self.x,
            z: self.z,
            depth: self.depth,
            half_length: self.half_length,
            children: (match &self.children {
                Option::Some(b) => Option::Some(
                    Box::new(
                        Quadrants {
                            q0: b.q0.clone(),
                            q1: b.q1.clone(),
                            q2: b.q2.clone(),
                            q3: b.q3.clone(),
                        },
                    ),
                ),
                Option::None => Option::None,
            }),
        }
    }
}

} // verus!
