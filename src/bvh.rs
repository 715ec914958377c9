use vstd::prelude::*;
use vstd::arithmetic::power2::{pow2, lemma_pow2_unfold};
use vstd::seq_lib::{lemma_multiset_commutative, to_multiset_contains};
use crate::aabb::AABB;
use crate::axis::Axis;

verus! {

/// The sequence `lo, lo + 1, ..., lo + len - 1`.
pub open spec fn range_seq(lo: int, len: int) -> Seq<usize> {
    Seq::new(len as nat, |k: int| (lo + k) as usize)
}

/// `prim_hit` gives one outcome for each primitive.
pub open spec fn deterministic<H, P: Fn(usize) -> Option<(u64, H)>>(prim_hit: P) -> bool {
    forall|i: usize, x: Option<(u64, H)>, y: Option<(u64, H)>|
        #[trigger] prim_hit.ensures((i,), x) && #[trigger] prim_hit.ensures((i,), y) ==> x == y
}

/// `r` is the nearest hit of `prim_hit` among the primitives that `prims` admits:
/// none where none of them is hit; else a hit primitive, with its distance and
/// hit, whose distance is at most that of every other hit.
pub open spec fn is_nearest<H, P: Fn(usize) -> Option<(u64, H)>>(
    prim_hit: P,
    prims: spec_fn(usize) -> bool,
    r: Option<(usize, u64, H)>,
) -> bool {
    match r {
        None => forall|i: usize, x: Option<(u64, H)>|
            prims(i) && #[trigger] prim_hit.ensures((i,), x) ==> x.is_none(),
        Some(t) => {
            &&& prims(t.0)
            &&& prim_hit.ensures((t.0,), Some((t.1, t.2)))
            &&& forall|j: usize, x: Option<(u64, H)>|
                prims(j) && #[trigger] prim_hit.ensures((j,), x) && x.is_some() ==> t.1
                    <= x.unwrap().0
        },
    }
}

/// A bounding-volume hierarchy over primitives numbered `0..n`.
///
/// A leaf holds the number of one primitive; its bounding box is known by that
/// number. An internal node carries an id of its own, by which the caller knows
/// the bounding box of the node's whole subtree. Both children of a node are
/// owned by it; the tree is never changed after construction.
pub enum BVHTree {
    Leaf(usize),
    Node { id: usize, left: Box<BVHTree>, right: Box<BVHTree> },
}

impl BVHTree {
    /// The primitives of the leaves, from left to right.
    pub open spec fn leaves(self) -> Seq<usize>
        decreases self,
    {
        match self {
            BVHTree::Leaf(i) => seq![i],
            BVHTree::Node { id, left, right } => left.leaves() + right.leaves(),
        }
    }

    /// The ids of the internal nodes, in pre-order.
    pub open spec fn node_ids(self) -> Seq<usize>
        decreases self,
    {
        match self {
            BVHTree::Leaf(i) => Seq::empty(),
            BVHTree::Node { id, left, right } => seq![id] + left.node_ids() + right.node_ids(),
        }
    }

    /// The number of edges on the longest path from this node down to a leaf.
    pub open spec fn spec_depth(self) -> nat
        decreases self,
    {
        match self {
            BVHTree::Leaf(i) => 0,
            BVHTree::Node { id, left, right } => {
                let dl = left.spec_depth();
                let dr = right.spec_depth();
                1 + if dl >= dr { dl } else { dr }
            },
        }
    }

    /// The number of internal nodes.
    pub open spec fn spec_size(self) -> nat
        decreases self,
    {
        match self {
            BVHTree::Leaf(i) => 0,
            BVHTree::Node { id, left, right } => 1 + left.spec_size() + right.spec_size(),
        }
    }

    /// The id under which the caller keeps this subtree's bounding box: the
    /// primitive's number for a leaf, the node's id otherwise.
    pub open spec fn spec_box_id(self) -> usize {
        match self {
            BVHTree::Leaf(i) => i,
            BVHTree::Node { id, left, right } => id,
        }
    }


    /// Whether primitive `i` sits in a leaf of this tree.
    pub open spec fn in_tree(self, i: usize) -> bool
        decreases self,
    {
        match self {
            BVHTree::Leaf(j) => i == j,
            BVHTree::Node { id, left, right } => left.in_tree(i) || right.in_tree(i),
        }
    }

    /// The bounding-box test of this subtree is sound for the primitive test:
    /// whenever a primitive below it can report a hit, the box test of every
    /// subtree that holds it reports a hit too.
    pub open spec fn sound<H, B: Fn(usize) -> bool, P: Fn(usize) -> Option<(u64, H)>>(
        self,
        box_hit: B,
        prim_hit: P,
    ) -> bool
        decreases self,
    {
        &&& forall|i: usize, x: Option<(u64, H)>, c: bool|
            self.in_tree(i) && #[trigger] prim_hit.ensures((i,), x) && x.is_some()
                && #[trigger] box_hit.ensures((self.spec_box_id(),), c) ==> c
        &&& match self {
            BVHTree::Leaf(j) => true,
            BVHTree::Node { id, left, right } => left.sound(box_hit, prim_hit) && right.sound(
                box_hit,
                prim_hit,
            ),
        }
    }

    /// Where the box test of a sound subtree has reported a miss, none of its
    /// primitives can be hit.
    pub proof fn lemma_pruned<H, B: Fn(usize) -> bool, P: Fn(usize) -> Option<(u64, H)>>(
        self,
        box_hit: B,
        prim_hit: P,
        c: bool,
    )
        requires
            self.sound(box_hit, prim_hit),
            box_hit.ensures((self.spec_box_id(),), c),
        ensures
            !c ==> forall|j: usize, y: Option<(u64, H)>|
                self.in_tree(j) && #[trigger] prim_hit.ensures((j,), y) ==> y.is_none(),
    {
    }

    /// `in_tree` is membership in `leaves`.
    pub proof fn lemma_in_tree_leaves(self, i: usize)
        ensures
            self.in_tree(i) <==> self.leaves().contains(i),
        decreases self,
    {
        if let BVHTree::Leaf(j) = self {
            assert(seq![j][0] == j);
        }
        if let BVHTree::Node { id, left, right } = self {
            left.lemma_in_tree_leaves(i);
            right.lemma_in_tree_leaves(i);
            let ls = left.leaves();
            let rs = right.leaves();
            if ls.contains(i) {
                let k = choose|k: int| 0 <= k < ls.len() && ls[k] == i;
                assert((ls + rs)[k] == i);
            }
            if rs.contains(i) {
                let k = choose|k: int| 0 <= k < rs.len() && rs[k] == i;
                assert((ls + rs)[ls.len() + k] == i);
            }
            if (ls + rs).contains(i) {
                let k = choose|k: int| 0 <= k < (ls + rs).len() && (ls + rs)[k] == i;
                if k < ls.len() {
                    assert(ls[k] == i);
                } else {
                    assert(rs[k - ls.len()] == i);
                }
            }
        }
    }

    /// A tree has one leaf more than it has internal nodes.
    pub proof fn lemma_leaves_len(self)
        ensures
            self.leaves().len() == self.spec_size() + 1,
            self.node_ids().len() == self.spec_size(),
        decreases self,
    {
        if let BVHTree::Node { id, left, right } = self {
            left.lemma_leaves_len();
            right.lemma_leaves_len();
        }
    }

    /// A leaf over primitive `i`.
    pub fn leaf(i: usize) -> (r: BVHTree)
        ensures
            r == BVHTree::Leaf(i),
    {
        BVHTree::Leaf(i)
    }

    /// An internal node with the given id over two subtrees.
    pub fn node(id: usize, left: BVHTree, right: BVHTree) -> (r: BVHTree)
        ensures
            r == (BVHTree::Node { id, left: Box::new(left), right: Box::new(right) }),
    {
        BVHTree::Node { id, left: Box::new(left), right: Box::new(right) }
    }

    /// See `spec_box_id`.
    pub fn box_id(&self) -> (r: usize)
        ensures
            r == self.spec_box_id(),
    {
        match self {
            BVHTree::Leaf(i) => *i,
            BVHTree::Node { id, .. } => *id,
        }
    }

    /// The nearest hit among the primitives of this tree.
    ///
    /// `box_hit(id)` tests the ray against the bounding box kept under `id`;
    /// `prim_hit(i)` tests it against primitive `i` and gives the hit's distance,
    /// as a key whose order is the order of distances, with the hit itself. A
    /// leaf tests its own box before its primitive; an internal node tests the
    /// boxes of both children and descends only where the box is hit. Where
    /// both children report a hit, the nearer one is kept, the left one on a tie.
    pub fn intersect<H, B: Fn(usize) -> bool, P: Fn(usize) -> Option<(u64, H)>>(
        &self,
        box_hit: &B,
        prim_hit: &P,
    ) -> (r: Option<(usize, u64, H)>)
        requires
            forall|i: usize| box_hit.requires((i,)),
            forall|i: usize| prim_hit.requires((i,)),
        ensures
            r.is_some() ==> self.in_tree(r.unwrap().0) && prim_hit.ensures(
                (r.unwrap().0,),
                Some((r.unwrap().1, r.unwrap().2)),
            ),
            self.sound(*box_hit, *prim_hit) && deterministic(*prim_hit) ==> is_nearest(
                *prim_hit,
                |i: usize| self.in_tree(i),
                r,
            ),
        decreases self,
    {
        match self {
            BVHTree::Leaf(i) => {
                let c = box_hit(*i);
                if c {
                    let x = prim_hit(*i);
                    match x {
                        Some((d, h)) => Some((*i, d, h)),
                        None => None,
                    }
                } else {
                    proof {
                        if self.sound(*box_hit, *prim_hit) {
                            assert forall|j: usize, y: Option<(u64, H)>|
                                self.in_tree(j) && #[trigger] prim_hit.ensures((j,), y) implies y.is_none() by {
                                if y.is_some() {
                                    assert(box_hit.ensures((self.spec_box_id(),), c));
                                }
                            }
                        }
                    }
                    None
                }
            },
            BVHTree::Node { left, right, .. } => {
                let in_left = box_hit(left.box_id());
                let in_right = box_hit(right.box_id());
                proof {
                    if self.sound(*box_hit, *prim_hit) {
                        left.lemma_pruned(*box_hit, *prim_hit, in_left);
                        right.lemma_pruned(*box_hit, *prim_hit, in_right);
                    }
                }
                if in_left && in_right {
                    let rl = left.intersect(box_hit, prim_hit);
                    let rr = right.intersect(box_hit, prim_hit);
                    match rl {
                        Some(a) => match rr {
                            Some(b) => {
                                if a.1 <= b.1 {
                                    Some(a)
                                } else {
                                    Some(b)
                                }
                            },
                            None => Some(a),
                        },
                        None => rr,
                    }
                } else if in_left {
                    left.intersect(box_hit, prim_hit)
                } else if in_right {
                    right.intersect(box_hit, prim_hit)
                } else {
                    None
                }
            },
        }
    }

    /// The length of the longest path from this node down to a leaf.
    pub fn depth(&self) -> (r: usize)
        requires
            self.spec_depth() <= usize::MAX,
        ensures
            r == self.spec_depth(),
        decreases self,
    {
        match self {
            BVHTree::Leaf(_) => 0,
            BVHTree::Node { left, right, .. } => {
                let dl = left.depth();
                let dr = right.depth();
                1 + if dl >= dr { dl } else { dr }
            },
        }
    }

    /// The number of internal nodes.
    pub fn size(&self) -> (r: usize)
        requires
            self.spec_size() <= usize::MAX,
        ensures
            r == self.spec_size(),
        decreases self,
    {
        match self {
            BVHTree::Leaf(_) => 0,
            BVHTree::Node { left, right, .. } => 1 + left.size() + right.size(),
        }
    }
}

/// Relies on `slice::sort_by_key`: afterwards the numbers are a reordering of
/// what they were, and the low ends of their boxes on `axis` never decrease
/// from left to right.
#[verifier::external_body]
fn sort_by_axis_min(idx: &mut Vec<usize>, boxes: &Vec<AABB>, axis: Axis)
    requires
        forall|k: int| 0 <= k < old(idx).len() ==> old(idx)[k] < boxes.len(),
    ensures
        final(idx)@.to_multiset() == old(idx)@.to_multiset(),
        forall|p: int, q: int|
            0 <= p < q < final(idx).len() ==> boxes[final(idx)[p] as int].spec_axis(axis).min
                <= boxes[final(idx)[q] as int].spec_axis(axis).min,
{
    idx.sort_by_key(|i| boxes[*i].axis_min(axis))
}

/// On axis `a`, no box of a primitive of `left` starts after a box of a
/// primitive of `right`.
pub open spec fn ordered_on(left: BVHTree, right: BVHTree, boxes: Seq<AABB>, a: Axis) -> bool {
    forall|i: usize, j: usize|
        left.in_tree(i) && right.in_tree(j) ==> #[trigger] boxes[i as int].spec_axis(a).min
            <= #[trigger] boxes[j as int].spec_axis(a).min
}

/// The shape that construction gives each internal node: its left child holds
/// half of its primitives, rounded down; and where it holds more than two, some
/// axis orders them so that no box of the left child starts after a box of the
/// right child.
pub open spec fn split_ok(t: BVHTree, boxes: Seq<AABB>) -> bool
    decreases t,
{
    match t {
        BVHTree::Leaf(i) => true,
        BVHTree::Node { id, left, right } => {
            &&& left.spec_size() + 1 == (t.spec_size() + 1) / 2
            &&& t.spec_size() + 1 > 2 ==> exists|a: Axis| #[trigger] ordered_on(*left, *right, boxes, a)
            &&& split_ok(*left, boxes)
            &&& split_ok(*right, boxes)
        },
    }
}

/// Builds the tree over the primitives listed in `idx`, numbering its internal
/// nodes from `next_id` on.
fn build(boxes: &Vec<AABB>, idx: Vec<usize>, next_id: usize) -> (t: BVHTree)
    requires
        idx.len() >= 1,
        forall|k: int| 0 <= k < idx.len() ==> idx[k] < boxes.len(),
        next_id + idx.len() <= usize::MAX,
    ensures
        t.leaves().to_multiset() == idx@.to_multiset(),
        t.spec_size() + 1 == idx.len(),
        t.node_ids() == range_seq(next_id as int, t.spec_size() as int),
        forall|k: nat| idx.len() <= pow2(k) ==> t.spec_depth() <= k,
        idx.len() <= 2 ==> t.leaves() == idx@,
        split_ok(t, boxes@),
    decreases idx.len(),
{
    let n = idx.len();
    if n == 1 {
        let t = BVHTree::leaf(idx[0]);
        assert(t.leaves() =~= idx@);
        assert(t.node_ids() =~= range_seq(next_id as int, 0));
        t
    } else if n == 2 {
        let t = BVHTree::node(next_id, BVHTree::leaf(idx[0]), BVHTree::leaf(idx[1]));
        proof {
            reveal_with_fuel(BVHTree::leaves, 2);
            reveal_with_fuel(BVHTree::node_ids, 2);
            reveal_with_fuel(BVHTree::spec_depth, 2);
            reveal_with_fuel(BVHTree::spec_size, 2);
            reveal_with_fuel(split_ok, 2);
        }
        assert(t.leaves() =~= idx@);
        assert(t.node_ids() =~= range_seq(next_id as int, 1));
        assert forall|k: nat| idx.len() <= pow2(k) implies t.spec_depth() <= k by {
            if k == 0 {
                assert(pow2(0) == 1) by { vstd::arithmetic::power2::lemma_pow2(0); vstd::arithmetic::power::lemma_pow0(2); }
            }
        }
        t
    } else {
        let axis = Axis::random();
        let mut idx = idx;
        let ghost orig = idx@;
        sort_by_axis_min(&mut idx, boxes, axis);
        let ghost sorted = idx@;
        proof {
            vstd::seq_lib::to_multiset_len(orig);
            vstd::seq_lib::to_multiset_len(sorted);
        }
        let mid = n / 2;
        let right_idx = idx.split_off(mid);
        let left_idx = idx;
        assert(sorted =~= left_idx@ + right_idx@);
        assert forall|k: int| 0 <= k < left_idx.len() implies left_idx[k] < boxes.len() by {
            assert(sorted.to_multiset().count(left_idx[k]) > 0) by {
                to_multiset_contains(sorted, left_idx[k]);
                assert(sorted[k] == left_idx[k]);
            }
            to_multiset_contains(orig, left_idx[k]);
        }
        assert forall|k: int| 0 <= k < right_idx.len() implies right_idx[k] < boxes.len() by {
            assert(sorted.to_multiset().count(right_idx[k]) > 0) by {
                to_multiset_contains(sorted, right_idx[k]);
                assert(sorted[mid as int + k] == right_idx[k]);
            }
            to_multiset_contains(orig, right_idx[k]);
        }
        let left = build(boxes, left_idx, next_id + 1);
        let ghost sl = left.spec_size();
        let right = build(boxes, right_idx, next_id + 1 + mid - 1);
        let ghost sr = right.spec_size();
        let t = BVHTree::node(next_id, left, right);
        proof {
            lemma_multiset_commutative(left.leaves(), right.leaves());
            lemma_multiset_commutative(left_idx@, right_idx@);
            assert(t.node_ids() =~= range_seq(next_id as int, t.spec_size() as int));
            assert forall|i: usize, j: usize|
                left.in_tree(i) && right.in_tree(j) implies #[trigger] boxes@[i as int].spec_axis(axis).min
                    <= #[trigger] boxes@[j as int].spec_axis(axis).min by {
                left.lemma_in_tree_leaves(i);
                right.lemma_in_tree_leaves(j);
                to_multiset_contains(left.leaves(), i);
                to_multiset_contains(left_idx@, i);
                to_multiset_contains(right.leaves(), j);
                to_multiset_contains(right_idx@, j);
                let p = choose|p: int| 0 <= p < left_idx.len() && left_idx@[p] == i;
                let q = choose|q: int| 0 <= q < right_idx.len() && right_idx@[q] == j;
                assert(sorted[p] == i);
                assert(sorted[mid + q] == j);
            }
            assert(ordered_on(left, right, boxes@, axis));
            assert(split_ok(t, boxes@));
            assert forall|k: nat| n <= pow2(k) implies t.spec_depth() <= k by {
                if k == 0 {
                    vstd::arithmetic::power2::lemma_pow2(0);
                    vstd::arithmetic::power::lemma_pow0(2);
                } else {
                    lemma_pow2_unfold(k);
                    let k1 = (k - 1) as nat;
                    assert(left_idx.len() <= pow2(k1));
                    assert(right_idx.len() <= pow2(k1));
                }
            }
        }
        t
    }
}

} // verus!

verus! {

/// Whether the table of boxes holds, under the id of each internal node of `t`,
/// the union of the boxes under the ids of its two children.
pub open spec fn boxes_ok(t: BVHTree, table: Seq<AABB>) -> bool
    decreases t,
{
    match t {
        BVHTree::Leaf(i) => true,
        BVHTree::Node { id, left, right } => {
            &&& table[id as int] == AABB::spec_union(
                table[left.spec_box_id() as int],
                table[right.spec_box_id() as int],
            )
            &&& boxes_ok(*left, table)
            &&& boxes_ok(*right, table)
        },
    }
}

/// The ids of a node numbered from `c` in pre-order: its own, then those of its
/// children, each a run of consecutive numbers.
proof fn lemma_split_ids(t: BVHTree, c: int)
    requires
        t.node_ids() == range_seq(c, t.spec_size() as int),
        0 <= c,
        c + t.spec_size() <= usize::MAX,
    ensures
        t matches BVHTree::Node { id, left, right } ==> {
            &&& id == c
            &&& left.node_ids() == range_seq(c + 1, left.spec_size() as int)
            &&& right.node_ids() == range_seq(c + 1 + left.spec_size(), right.spec_size() as int)
        },
{
    if let BVHTree::Node { id, left, right } = t {
        left.lemma_leaves_len();
        right.lemma_leaves_len();
        let ids = t.node_ids();
        assert(ids == seq![id] + left.node_ids() + right.node_ids());
        assert(ids[0] == (c + 0) as usize);
        assert(ids[0] == c);
        assert forall|k: int| 0 <= k < left.spec_size() implies left.node_ids()[k] == (c + 1 + k) as usize by {
            assert(ids[1 + k] == left.node_ids()[k]);
        }
        assert forall|k: int| 0 <= k < right.spec_size() implies right.node_ids()[k] == (c + 1 + left.spec_size() + k) as usize by {
            assert(ids[1 + left.spec_size() + k] == right.node_ids()[k]);
        }
        assert(left.node_ids() =~= range_seq(c + 1, left.spec_size() as int));
        assert(right.node_ids() =~= range_seq(c + 1 + left.spec_size(), right.spec_size() as int));
    }
}

/// `boxes_ok` reads the table only at the primitives of the tree and at the
/// ids of its nodes.
proof fn lemma_boxes_frame(t: BVHTree, c: int, a: Seq<AABB>, b: Seq<AABB>)
    requires
        t.node_ids() == range_seq(c, t.spec_size() as int),
        boxes_ok(t, a),
        forall|k: int| (0 <= k && t.in_tree(k as usize) && k < a.len()) || (c <= k < c + t.spec_size()) ==> a[k] == b[k],
        forall|i: usize| t.in_tree(i) ==> i < a.len(),
        0 <= c,
        c + t.spec_size() <= usize::MAX,
    ensures
        boxes_ok(t, b),
    decreases t,
{
    lemma_split_ids(t, c);
    if let BVHTree::Node { id, left, right } = t {
        assert forall|i: usize| left.in_tree(i) implies i < a.len() by {
            assert(t.in_tree(i));
        }
        assert forall|i: usize| right.in_tree(i) implies i < a.len() by {
            assert(t.in_tree(i));
        }
        lemma_boxes_frame(*left, c + 1, a, b);
        lemma_boxes_frame(*right, c + 1 + left.spec_size(), a, b);
        if let BVHTree::Node { id: lid, .. } = *left {
            lemma_split_ids(*left, c + 1);
        } else {
            assert(left.in_tree(left.spec_box_id()));
        }
        if let BVHTree::Node { id: rid, .. } = *right {
            lemma_split_ids(*right, c + 1 + left.spec_size());
        } else {
            assert(right.in_tree(right.spec_box_id()));
        }
    }
}

/// Writes under the id of each internal node of `t` the union of its
/// children's boxes, bottom up; the boxes of the primitives are read from
/// `table` under their numbers.
fn fill(t: &BVHTree, table: &mut Vec<AABB>, Ghost(c): Ghost<int>, Ghost(n): Ghost<int>)
    requires
        t.node_ids() == range_seq(c, t.spec_size() as int),
        0 <= n <= c,
        c + t.spec_size() <= old(table).len(),
        forall|i: usize| t.in_tree(i) ==> i < n,
    ensures
        final(table).len() == old(table).len(),
        forall|k: int| 0 <= k < old(table).len() && !(c <= k < c + t.spec_size()) ==> final(table)[k] == old(table)[k],
        boxes_ok(*t, final(table)@),
    decreases t,
{
    proof { lemma_split_ids(*t, c); }
    match t {
        BVHTree::Leaf(_) => {},
        BVHTree::Node { id, left, right } => {
            let ghost sl = left.spec_size() as int;
            proof {
                assert forall|i: usize| left.in_tree(i) implies i < n by {
                    assert(t.in_tree(i));
                }
                assert forall|i: usize| right.in_tree(i) implies i < n by {
                    assert(t.in_tree(i));
                }
            }
            fill(left, table, Ghost(c + 1), Ghost(n));
            let ghost mid = table@;
            fill(right, table, Ghost(c + 1 + sl), Ghost(n));
            let ghost after = table@;
            proof {
                lemma_boxes_frame(**left, c + 1, mid, after);
                if let BVHTree::Node { .. } = **left {
                    lemma_split_ids(**left, c + 1);
                } else {
                    assert(left.in_tree(left.spec_box_id()));
                }
                if let BVHTree::Node { .. } = **right {
                    lemma_split_ids(**right, c + 1 + sl);
                } else {
                    assert(right.in_tree(right.spec_box_id()));
                }
            }
            let u = AABB::union(&table[left.box_id()], &table[right.box_id()]);
            table.set(*id, u);
            proof {
                lemma_boxes_frame(**left, c + 1, after, table@);
                lemma_boxes_frame(**right, c + 1 + sl, after, table@);
            }
        },
    }
}

/// Under `boxes_ok`, the box of a subtree holds the box of every primitive
/// below it: a ray that misses the subtree's box misses all of them.
pub proof fn lemma_box_holds_leaves(t: BVHTree, table: Seq<AABB>, i: usize)
    requires
        boxes_ok(t, table),
        t.in_tree(i),
    ensures
        table[i as int].within(table[t.spec_box_id() as int]),
    decreases t,
{
    if let BVHTree::Node { id, left, right } = t {
        let bl = table[left.spec_box_id() as int];
        let br = table[right.spec_box_id() as int];
        let u = table[id as int];
        assert(bl.within(u));
        assert(br.within(u));
        if left.in_tree(i) {
            lemma_box_holds_leaves(*left, table, i);
        } else {
            lemma_box_holds_leaves(*right, table, i);
        }
    }
}

/// A bounding-volume hierarchy over the primitives `0..len`.
///
/// Beside the tree it keeps a table of boxes by id: the box of primitive `i`
/// under `i`, and the box of each internal node under the node's id.
pub struct BVH {
    tree: BVHTree,
    len: usize,
    boxes: Vec<AABB>,
}

impl BVH {
    pub closed spec fn spec_top(&self) -> BVHTree {
        self.tree
    }

    pub closed spec fn spec_len(&self) -> nat {
        self.len as nat
    }

    pub closed spec fn spec_boxes(&self) -> Seq<AABB> {
        self.boxes@
    }

    /// Every primitive `0..len` sits in exactly one leaf; the internal nodes are
    /// numbered `len, len + 1, ..., 2 * len - 2` in pre-order; and the box of
    /// each internal node is the union of its children's boxes.
    pub open spec fn wf(&self) -> bool {
        &&& self.spec_len() >= 1
        &&& self.spec_top().leaves().to_multiset() == range_seq(0, self.spec_len() as int).to_multiset()
        &&& forall|i: usize| self.spec_top().in_tree(i) <==> i < self.spec_len()
        &&& self.spec_top().node_ids() == range_seq(
            self.spec_len() as int,
            self.spec_len() - 1,
        )
        &&& self.spec_boxes().len() == 2 * self.spec_len() - 1
        &&& boxes_ok(self.spec_top(), self.spec_boxes())
    }

    /// Builds the hierarchy over the primitives `0..boxes.len()`, where
    /// `boxes[i]` is the bounding box of primitive `i`.
    ///
    /// One or two primitives become a leaf, or a node over two leaves in their
    /// given order. Over more, a uniformly random axis is drawn, the primitives
    /// are sorted by the low ends of their boxes on it and split at the middle
    /// of the count, and each half is built in the same way; the depth is
    /// therefore at most `ceil(log2(len))`.
    pub fn construct(boxes: &Vec<AABB>) -> (b: BVH)
        requires
            boxes.len() >= 1,
            boxes.len() <= usize::MAX / 2,
        ensures
            b.wf(),
            b.spec_len() == boxes.len(),
            b.spec_boxes().subrange(0, boxes.len() as int) == boxes@,
            split_ok(b.spec_top(), boxes@),
            forall|k: nat| boxes.len() <= pow2(k) ==> b.spec_top().spec_depth() <= k,
    {
        let n = boxes.len();
        let mut idx: Vec<usize> = Vec::new();
        let mut table: Vec<AABB> = Vec::new();
        let mut i: usize = 0;
        while i < n
            invariant
                i <= n,
                n == boxes.len(),
                idx@ == range_seq(0, i as int),
                table@ == boxes@.subrange(0, i as int),
            decreases n - i,
        {
            idx.push(i);
            table.push(boxes[i]);
            i = i + 1;
            assert(idx@ =~= range_seq(0, i as int));
            assert(table@ =~= boxes@.subrange(0, i as int));
        }
        let mut j: usize = 1;
        while j < n
            invariant
                1 <= j <= n,
                n == boxes.len(),
                table.len() == n + j - 1,
                table@.subrange(0, n as int) == boxes@,
            decreases n - j,
        {
            table.push(boxes[0]);
            j = j + 1;
            assert(table@.subrange(0, n as int) =~= boxes@);
        }
        let ghost all = idx@;
        let tree = build(boxes, idx, n);
        proof {
            tree.lemma_leaves_len();
            assert forall|j: usize| tree.in_tree(j) <==> j < n by {
                tree.lemma_in_tree_leaves(j);
                to_multiset_contains(tree.leaves(), j);
                to_multiset_contains(all, j);
                if j < n {
                    assert(all[j as int] == j);
                }
            }
        }
        let ghost before = table@;
        fill(&tree, &mut table, Ghost(n as int), Ghost(n as int));
        assert(table@.subrange(0, n as int) =~= before.subrange(0, n as int));
        BVH { tree, len: n, boxes: table }
    }

    /// The box kept under `id`: that of primitive `id` below `len`, that of the
    /// internal node `id` from there on.
    pub fn box_at(&self, id: usize) -> (r: AABB)
        requires
            id < self.spec_boxes().len(),
        ensures
            r == self.spec_boxes()[id as int],
    {
        self.boxes[id]
    }

    /// The root of the tree.
    pub fn top(&self) -> (r: &BVHTree)
        ensures
            *r == self.spec_top(),
    {
        &self.tree
    }

    /// The number of primitives.
    pub fn len(&self) -> (r: usize)
        ensures
            r == self.spec_len(),
    {
        self.len
    }

    /// The nearest hit in the hierarchy; see `BVHTree::intersect`.
    pub fn intersect<H, B: Fn(usize) -> bool, P: Fn(usize) -> Option<(u64, H)>>(
        &self,
        box_hit: &B,
        prim_hit: &P,
    ) -> (r: Option<(usize, u64, H)>)
        requires
            forall|i: usize| box_hit.requires((i,)),
            forall|i: usize| prim_hit.requires((i,)),
        ensures
            r.is_some() ==> self.spec_top().in_tree(r.unwrap().0) && prim_hit.ensures(
                (r.unwrap().0,),
                Some((r.unwrap().1, r.unwrap().2)),
            ),
            self.spec_top().sound(*box_hit, *prim_hit) && deterministic(*prim_hit) ==> is_nearest(
                *prim_hit,
                |i: usize| self.spec_top().in_tree(i),
                r,
            ),
    {
        self.tree.intersect(box_hit, prim_hit)
    }
}

/// The nearest hit among the primitives `0..n`, testing each one in turn and
/// keeping the first of the nearest.
pub fn nearest_linear<H, P: Fn(usize) -> Option<(u64, H)>>(n: usize, prim_hit: &P) -> (r: Option<
    (usize, u64, H),
>)
    requires
        forall|i: usize| prim_hit.requires((i,)),
    ensures
        r.is_some() ==> r.unwrap().0 < n && prim_hit.ensures(
            (r.unwrap().0,),
            Some((r.unwrap().1, r.unwrap().2)),
        ),
        deterministic(*prim_hit) ==> is_nearest(*prim_hit, |i: usize| i < n, r),
{
    let mut best: Option<(usize, u64, H)> = None;
    let mut i: usize = 0;
    while i < n
        invariant
            i <= n,
            forall|i: usize| prim_hit.requires((i,)),
            best.is_some() ==> best.unwrap().0 < i && prim_hit.ensures(
                (best.unwrap().0,),
                Some((best.unwrap().1, best.unwrap().2)),
            ),
            deterministic(*prim_hit) ==> is_nearest(*prim_hit, |j: usize| j < i, best),
        decreases n - i,
    {
        let x = prim_hit(i);
        match x {
            Some((d, h)) => {
                let better = match &best {
                    Some(b) => d < b.1,
                    None => true,
                };
                if better {
                    best = Some((i, d, h));
                }
            },
            None => {},
        }
        i = i + 1;
    }
    best
}

/// The hierarchy finds the same nearest distance as testing every primitive:
/// where its box tests are sound and each primitive test has one outcome, a
/// result of `BVH::intersect` and one of `nearest_linear` over all its primitives
/// agree on whether anything is hit and on the distance of the nearest hit.
pub proof fn lemma_bvh_agrees_with_linear<H, B: Fn(usize) -> bool, P: Fn(usize) -> Option<(u64, H)>>(
    b: BVH,
    box_hit: B,
    prim_hit: P,
    r_bvh: Option<(usize, u64, H)>,
    r_lin: Option<(usize, u64, H)>,
)
    requires
        b.wf(),
        b.spec_top().sound(box_hit, prim_hit),
        deterministic(prim_hit),
        is_nearest(prim_hit, |i: usize| b.spec_top().in_tree(i), r_bvh),
        is_nearest(prim_hit, |i: usize| i < b.spec_len(), r_lin),
    ensures
        r_bvh.is_some() == r_lin.is_some(),
        r_bvh.is_some() ==> r_bvh.unwrap().1 == r_lin.unwrap().1,
{
    if r_bvh.is_some() {
        let t = r_bvh.unwrap();
        assert(prim_hit.ensures((t.0,), Some((t.1, t.2))));
        if r_lin.is_some() {
            let u = r_lin.unwrap();
            assert(prim_hit.ensures((u.0,), Some((u.1, u.2))));
        }
    } else if r_lin.is_some() {
        let u = r_lin.unwrap();
        assert(prim_hit.ensures((u.0,), Some((u.1, u.2))));
    }
}

} // verus!
