//! Bounding volume hierarchies: an owned tree used while building, reduced
//! from a forest of one-triangle trees by subdivision, by pairwise
//! clustering or by both, and then flattened into index-linked arrays.
use vstd::multiset::Multiset;
use vstd::prelude::*;
use crate::bounds::{max_i, min_i, surface_area_of, Bounds};
use crate::cluster_queue::{queue_contents, queue_len, queue_new, queue_pop, queue_push, queue_remove};
use crate::vec::{COORD_MAX, PRODUCT_MAX};
use crate::triangle::Triangle;

verus! {

broadcast use vstd::seq_lib::group_to_multiset_ensures;

/// Every face of `inner` lies within `outer`.
pub open spec fn box_within(inner: Bounds, outer: Bounds) -> bool {
    forall|i: int|
        0 <= i < 3 ==> outer.min.c@[i] <= #[trigger] inner.min.c@[i] && inner.max.c@[i] <= outer.max.c@[i]
}

/// `b` is the empty box: every minimum at `COORD_MAX`, every maximum at
/// `-COORD_MAX`.
pub open spec fn is_empty_box(b: Bounds) -> bool {
    forall|i: int| 0 <= i < 3 ==> #[trigger] b.min.c@[i] == COORD_MAX && b.max.c@[i] == -COORD_MAX
}

/// `u` is the smallest box that contains both `a` and `b`.
pub open spec fn is_union(u: Bounds, a: Bounds, b: Bounds) -> bool {
    forall|i: int| 0 <= i < 3 ==> {
        &&& #[trigger] u.min.c@[i] == min_i(a.min.c@[i] as int, b.min.c@[i] as int)
        &&& u.max.c@[i] == max_i(a.max.c@[i] as int, b.max.c@[i] as int)
    }
}

proof fn lemma_union_within(u: Bounds, a: Bounds, b: Bounds)
    requires
        is_union(u, a, b),
    ensures
        box_within(a, u),
        box_within(b, u),
{
    assert forall|i: int| 0 <= i < 3 implies u.min.c@[i] <= #[trigger] a.min.c@[i] && a.max.c@[i] <= u.max.c@[i] by {
        assert(u.min.c@[i] == min_i(a.min.c@[i] as int, b.min.c@[i] as int));
    }
    assert forall|i: int| 0 <= i < 3 implies u.min.c@[i] <= #[trigger] b.min.c@[i] && b.max.c@[i] <= u.max.c@[i] by {
        assert(u.min.c@[i] == min_i(a.min.c@[i] as int, b.min.c@[i] as int));
    }
}

/// `t` is a node whose children are `a` and `b` and whose box is the union
/// of theirs.
pub open spec fn joins(t: BvhTree, a: BvhTree, b: BvhTree) -> bool {
    match t {
        BvhTree::Node { left, right, bounds } => *left == a && *right == b && is_union(
            bounds,
            a.spec_bounds(),
            b.spec_bounds(),
        ),
        _ => false,
    }
}

/// Twice the centre of a tree's box along `a`.
pub open spec fn center_key(t: BvhTree, a: int) -> int {
    t.spec_bounds().min.c@[a] + t.spec_bounds().max.c@[a]
}

/// Lowest box face of the trees along `a` (`COORD_MAX` when there are none).
pub open spec fn forest_lo(ts: Seq<BvhTree>, a: int) -> int
    decreases ts.len(),
{
    if ts.len() == 0 {
        COORD_MAX as int
    } else {
        min_i(forest_lo(ts.drop_last(), a), ts.last().spec_bounds().min.c@[a] as int)
    }
}

/// Highest box face of the trees along `a` (`-COORD_MAX` when there are none).
pub open spec fn forest_hi(ts: Seq<BvhTree>, a: int) -> int
    decreases ts.len(),
{
    if ts.len() == 0 {
        -COORD_MAX as int
    } else {
        max_i(forest_hi(ts.drop_last(), a), ts.last().spec_bounds().max.c@[a] as int)
    }
}

/// Extent of the trees' boxes along `a`.
pub open spec fn forest_extent(ts: Seq<BvhTree>, a: int) -> int {
    forest_hi(ts, a) - forest_lo(ts, a)
}

/// The axis of largest extent; the lower axis among equal extents.
pub open spec fn widest_axis(ts: Seq<BvhTree>) -> int {
    let a1 = if forest_extent(ts, 1) > forest_extent(ts, 0) { 1int } else { 0int };
    if forest_extent(ts, 2) > forest_extent(ts, a1) { 2 } else { a1 }
}

/// Fewest trees a half keeps: a hundredth of them, and at least one.
pub open spec fn min_split(n: nat) -> nat {
    if n / 100 > 1 { n / 100 } else { 1 }
}

/// Cost of joining trees `p` and `q`: the surface area of their union box.
pub open spec fn pair_cost(ts: Seq<BvhTree>, p: int, q: int) -> int {
    union_area(ts[p].spec_bounds(), ts[q].spec_bounds())
}

/// `t` joins two different trees of `ts` whose pairing costs least of all
/// pairs.
pub open spec fn cheapest_pair(t: BvhTree, ts: Seq<BvhTree>) -> bool {
    exists|i: int, j: int|
        0 <= i < ts.len() && 0 <= j < ts.len() && i != j && joins(t, ts[i], ts[j]) && forall|p: int, q: int|
            0 <= p < ts.len() && 0 <= q < ts.len() && p != q ==> pair_cost(ts, i, j) <= #[trigger] pair_cost(ts, p, q)
}

/// `s` is `t` or one of its subtrees.
#[verifier::opaque]
pub open spec fn has_subtree(t: BvhTree, s: BvhTree) -> bool
    decreases t,
{
    t == s || match t {
        BvhTree::Node { left, right, .. } => has_subtree(*left, s) || has_subtree(*right, s),
        _ => false,
    }
}

/// A tree is its own subtree, and so are the subtrees of its children.
pub proof fn lemma_has_subtree_node(t: BvhTree, a: BvhTree, b: BvhTree, s: BvhTree)
    requires
        joins(t, a, b),
    ensures
        has_subtree(t, t),
        has_subtree(a, s) || has_subtree(b, s) ==> has_subtree(t, s),
{
    reveal_with_fuel(has_subtree, 2);
}

pub proof fn lemma_has_subtree_refl(t: BvhTree)
    ensures
        has_subtree(t, t),
{
    reveal_with_fuel(has_subtree, 1);
}

/// Every tree of `before` is a subtree of some tree of `after`.
pub open spec fn kept_in(before: Seq<BvhTree>, after: Seq<BvhTree>) -> bool {
    forall|i: int| 0 <= i < before.len() ==> exists|p: int| 0 <= p < after.len() && has_subtree(after[p], #[trigger] before[i])
}

/// A subtree of a subtree is a subtree.
pub proof fn lemma_has_subtree_trans(a: BvhTree, b: BvhTree, c: BvhTree)
    requires
        has_subtree(a, b),
        has_subtree(b, c),
    ensures
        has_subtree(a, c),
    decreases a,
{
    reveal_with_fuel(has_subtree, 1);
    if a != b {
        match a {
            BvhTree::Node { left, right, .. } => {
                if has_subtree(*left, b) {
                    lemma_has_subtree_trans(*left, b, c);
                } else {
                    lemma_has_subtree_trans(*right, b, c);
                }
            },
            _ => {},
        }
    }
}

/// Tree `m` was joined by one of the first `p` pairs of `ps`.
pub open spec fn taken(ps: Seq<(int, int)>, p: int, m: int) -> bool {
    exists|q: int| 0 <= q < p && (ps[q].0 == m || ps[q].1 == m)
}

/// The first `ps.len()` trees of `out` are the pairs `ps` of trees of `ts`,
/// made in that order: each joins a tree `i` that no earlier pair took with
/// a tree `j`, also untaken, that costs least among the trees still untaken.
pub open spec fn pairs_ok(out: Seq<BvhTree>, ts: Seq<BvhTree>, ps: Seq<(int, int)>) -> bool {
    &&& ps.len() <= out.len()
    &&& forall|p: int| 0 <= p < ps.len() ==> {
        let (i, j) = #[trigger] ps[p];
        &&& 0 <= i < ts.len() && 0 <= j < ts.len() && i != j
        &&& !taken(ps, p, i) && !taken(ps, p, j)
        &&& joins(out[p], ts[i], ts[j])
        &&& forall|m: int| 0 <= m < ts.len() && m != i && !taken(ps, p, m) ==> pair_cost(ts, i, j) <= #[trigger] pair_cost(ts, i, m)
    }
}

proof fn lemma_pairs_extend(out: Seq<BvhTree>, ts: Seq<BvhTree>, ps: Seq<(int, int)>, x: BvhTree)
    requires
        pairs_ok(out, ts, ps),
    ensures
        pairs_ok(out.push(x), ts, ps),
{
    assert forall|p: int| 0 <= p < ps.len() implies joins(out.push(x)[p], ts[ps[p].0], ts[ps[p].1]) by {
        assert(out.push(x)[p] == out[p]);
    }
}

proof fn lemma_pairs_push(out: Seq<BvhTree>, ts: Seq<BvhTree>, ps: Seq<(int, int)>, node: BvhTree, a: int, b: int)
    requires
        pairs_ok(out, ts, ps),
        ps.len() == out.len(),
        0 <= a < ts.len(),
        0 <= b < ts.len(),
        a != b,
        !taken(ps, ps.len() as int, a),
        !taken(ps, ps.len() as int, b),
        joins(node, ts[a], ts[b]),
        forall|m: int| 0 <= m < ts.len() && m != a && !taken(ps, ps.len() as int, m) ==> pair_cost(ts, a, b) <= #[trigger] pair_cost(ts, a, m),
    ensures
        pairs_ok(out.push(node), ts, ps.push((a, b))),
        forall|k: int| #[trigger] taken(ps.push((a, b)), ps.len() as int + 1, k) <==> (taken(ps, ps.len() as int, k) || k == a || k == b),
{
    let ps2 = ps.push((a, b));
    let out2 = out.push(node);
    assert forall|p: int, m: int| 0 <= p <= ps.len() implies taken(ps2, p, m) == taken(ps, p, m) by {
        if taken(ps2, p, m) {
            let q = choose|q: int| 0 <= q < p && (ps2[q].0 == m || ps2[q].1 == m);
            assert(ps2[q] == ps[q]);
        }
        if taken(ps, p, m) {
            let q = choose|q: int| 0 <= q < p && (ps[q].0 == m || ps[q].1 == m);
            assert(ps2[q] == ps[q]);
        }
    }
    assert forall|p: int| 0 <= p < ps2.len() implies {
        let (i, j) = #[trigger] ps2[p];
        &&& 0 <= i < ts.len() && 0 <= j < ts.len() && i != j
        &&& !taken(ps2, p, i) && !taken(ps2, p, j)
        &&& joins(out2[p], ts[i], ts[j])
        &&& forall|m: int| 0 <= m < ts.len() && m != i && !taken(ps2, p, m) ==> pair_cost(ts, i, j) <= #[trigger] pair_cost(ts, i, m)
    } by {
        if p < ps.len() {
            assert(ps2[p] == ps[p]);
            assert(out2[p] == out[p]);
        } else {
            assert(ps2[p] == (a, b));
            assert(out2[p] == node);
        }
    }
    assert forall|k: int| #[trigger] taken(ps2, ps.len() as int + 1, k) <==> (taken(ps, ps.len() as int, k) || k == a || k == b) by {
        if taken(ps2, ps.len() as int + 1, k) {
            let q = choose|q: int| 0 <= q < ps.len() + 1 && (ps2[q].0 == k || ps2[q].1 == k);
            if q < ps.len() {
                assert(ps2[q] == ps[q]);
            }
        }
        if k == a || k == b {
            assert(ps2[ps.len() as int] == (a, b));
        }
        if taken(ps, ps.len() as int, k) {
            let q = choose|q: int| 0 <= q < ps.len() && (ps[q].0 == k || ps[q].1 == k);
            assert(ps2[q] == ps[q]);
        }
    }
}

/// `t` is one of the trees `ts`, or a node joining two different ones.
pub open spec fn made_from(t: BvhTree, ts: Seq<BvhTree>) -> bool {
    (exists|i: int| 0 <= i < ts.len() && t == ts[i]) || (exists|i: int, j: int|
        0 <= i < ts.len() && 0 <= j < ts.len() && i != j && joins(t, ts[i], ts[j]))
}

/// A hierarchy under construction: each node owns its two subtrees.
#[derive(Debug)]
pub enum BvhTree {
    Empty,
    Leaf { tri: usize, bounds: Bounds },
    Node { left: Box<BvhTree>, right: Box<BvhTree>, bounds: Bounds },
}

impl BvhTree {
    pub open spec fn spec_bounds(&self) -> Bounds {
        match self {
            BvhTree::Empty => vstd::pervasive::arbitrary(),
            BvhTree::Leaf { bounds, .. } => *bounds,
            BvhTree::Node { bounds, .. } => *bounds,
        }
    }

    /// The triangle indices at the leaves, left to right.
    pub open spec fn leaf_seq(&self) -> Seq<usize>
        decreases self,
    {
        match self {
            BvhTree::Empty => Seq::empty(),
            BvhTree::Leaf { tri, .. } => seq![*tri],
            BvhTree::Node { left, right, .. } => left.leaf_seq() + right.leaf_seq(),
        }
    }

    /// Leaves name triangles of `tris` and lie in their boxes; each node's
    /// box is the union of its children's boxes, and no child is empty.
    pub open spec fn tree_ok(&self, tris: Seq<Triangle>) -> bool
        decreases self,
    {
        match self {
            BvhTree::Empty => true,
            BvhTree::Leaf { tri, bounds } => *tri < tris.len() && bounds.wf() && tris[*tri as int].within(*bounds),
            BvhTree::Node { left, right, bounds } => {
                &&& bounds.wf()
                &&& !(**left is Empty)
                &&& !(**right is Empty)
                &&& is_union(*bounds, left.spec_bounds(), right.spec_bounds())
                &&& left.tree_ok(tris)
                &&& right.tree_ok(tris)
            },
        }
    }

    /// The tree with nothing in it.
    pub fn new() -> (r: Self)
        ensures
            r is Empty,
    {
        BvhTree::Empty
    }

    /// A tree with the single triangle `tri` of `tris`.
    pub fn leaf(tri: usize, tris: &Vec<Triangle>) -> (r: Self)
        requires
            tri < tris@.len(),
            tris@[tri as int].wf(),
        ensures
            r.tree_ok(tris@),
            !(r is Empty),
            r.leaf_seq() == seq![tri],
    {
        let bounds = tris[tri].bounds();
        BvhTree::Leaf { tri, bounds }
    }

    /// A node over two non-empty trees.
    pub fn node(left: BvhTree, right: BvhTree, tris: &Vec<Triangle>) -> (r: Self)
        requires
            left.tree_ok(tris@),
            right.tree_ok(tris@),
            !(left is Empty),
            !(right is Empty),
        ensures
            r.tree_ok(tris@),
            !(r is Empty),
            r.leaf_seq() == left.leaf_seq() + right.leaf_seq(),
            joins(r, left, right),
    {
        let lb = left.bounds();
        let rb = right.bounds();
        let bounds = lb.union(&rb);
        BvhTree::Node { left: Box::new(left), right: Box::new(right), bounds }
    }

    /// The box of a non-empty tree; the empty box otherwise.
    pub fn bounds(&self) -> (r: Bounds)
        ensures
            !(self is Empty) ==> r == self.spec_bounds(),
            self is Empty ==> r.wf(),
    {
        match self {
            BvhTree::Empty => Bounds::empty(),
            BvhTree::Leaf { bounds, .. } => *bounds,
            BvhTree::Node { bounds, .. } => *bounds,
        }
    }
}

/// The leaves of a forest, tree after tree.
pub open spec fn forest_seq(ts: Seq<BvhTree>) -> Seq<usize>
    decreases ts.len(),
{
    if ts.len() == 0 {
        Seq::empty()
    } else {
        forest_seq(ts.drop_last()) + ts.last().leaf_seq()
    }
}

/// The leaves of a forest, as a multiset.
pub open spec fn forest_ms(ts: Seq<BvhTree>) -> Multiset<usize> {
    forest_seq(ts).to_multiset()
}

/// Every tree is well formed and none is empty.
pub open spec fn forest_ok(ts: Seq<BvhTree>, tris: Seq<Triangle>) -> bool {
    forall|i: int| 0 <= i < ts.len() ==> (#[trigger] ts[i]).tree_ok(tris) && !(ts[i] is Empty)
}

/// Number of leaves of a forest.
pub open spec fn leaf_count(ts: Seq<BvhTree>) -> nat {
    forest_seq(ts).len()
}

proof fn lemma_forest_concat(a: Seq<BvhTree>, b: Seq<BvhTree>)
    ensures
        forest_seq(a + b) == forest_seq(a) + forest_seq(b),
    decreases b.len(),
{
    if b.len() == 0 {
        assert(a + b =~= a);
        assert(forest_seq(a) + forest_seq(b) =~= forest_seq(a));
    } else {
        lemma_forest_concat(a, b.drop_last());
        assert((a + b).drop_last() =~= a + b.drop_last());
        assert((a + b).last() == b.last());
        assert(forest_seq(a) + forest_seq(b.drop_last()) + b.last().leaf_seq()
            =~= forest_seq(a) + (forest_seq(b.drop_last()) + b.last().leaf_seq()));
    }
}

proof fn lemma_forest_single(t: BvhTree)
    ensures
        forest_seq(seq![t]) == t.leaf_seq(),
{
    let e = Seq::<BvhTree>::empty();
    assert(seq![t].drop_last() =~= e);
    assert(seq![t].last() == t);
    assert(forest_seq(e) == Seq::<usize>::empty());
    assert(Seq::<usize>::empty() + t.leaf_seq() =~= t.leaf_seq());
}

proof fn lemma_forest_push(a: Seq<BvhTree>, t: BvhTree)
    ensures
        forest_seq(a.push(t)) == forest_seq(a) + t.leaf_seq(),
        forest_ms(a.push(t)) == forest_ms(a).add(t.leaf_seq().to_multiset()),
{
    assert(a.push(t).drop_last() =~= a);
    vstd::seq_lib::lemma_multiset_commutative(forest_seq(a), t.leaf_seq());
}

/// Removing the tree at `i` removes exactly its leaves.
proof fn lemma_forest_remove(a: Seq<BvhTree>, i: int)
    requires
        0 <= i < a.len(),
    ensures
        forest_ms(a) == forest_ms(a.remove(i)).add(a[i].leaf_seq().to_multiset()),
        leaf_count(a) == leaf_count(a.remove(i)) + a[i].leaf_seq().len(),
{
    let l = a.take(i);
    let r = a.skip(i + 1);
    assert(a =~= l + seq![a[i]] + r);
    assert(a.remove(i) =~= l + r);
    lemma_forest_concat(l + seq![a[i]], r);
    lemma_forest_concat(l, seq![a[i]]);
    lemma_forest_concat(l, r);
    lemma_forest_single(a[i]);
    vstd::seq_lib::lemma_multiset_commutative(forest_seq(l) + a[i].leaf_seq(), forest_seq(r));
    vstd::seq_lib::lemma_multiset_commutative(forest_seq(l), a[i].leaf_seq());
    vstd::seq_lib::lemma_multiset_commutative(forest_seq(l), forest_seq(r));
    assert(forest_ms(a) =~= forest_ms(a.remove(i)).add(a[i].leaf_seq().to_multiset()));
}

/// The surface area of the smallest box that contains both boxes.
pub open spec fn union_area(a: Bounds, b: Bounds) -> int {
    surface_area_of(
        max_i(a.max@[0], b.max@[0]) - min_i(a.min@[0], b.min@[0]),
        max_i(a.max@[1], b.max@[1]) - min_i(a.min@[1], b.min@[1]),
        max_i(a.max@[2], b.max@[2]) - min_i(a.min@[2], b.min@[2]),
    )
}

/// The unpaired tree other than `k` whose union with tree `k` has the least
/// surface area (the first such), with that area; `None` when `k` is the
/// only unpaired tree.
fn best_partner(boxes: &Vec<Bounds>, paired: &Vec<bool>, k: usize) -> (r: Option<(usize, i64)>)
    requires
        k < boxes@.len() == paired@.len(),
        forall|t: int| 0 <= t < boxes@.len() ==> (#[trigger] boxes@[t]).wf(),
    ensures
        r is None <==> forall|m: int| 0 <= m < boxes@.len() && m != k ==> #[trigger] paired@[m],
        r matches Some((m, c)) ==> {
            &&& m < boxes@.len()
            &&& m != k
            &&& !paired@[m as int]
            &&& c == union_area(boxes@[k as int], boxes@[m as int])
            &&& -24 * PRODUCT_MAX <= c <= 24 * PRODUCT_MAX
            &&& forall|t: int| 0 <= t < boxes@.len() && t != k && !paired@[t] ==> c <= #[trigger] union_area(boxes@[k as int], boxes@[t])
        },
{
    let n = boxes.len();
    let mut best: Option<(usize, i64)> = None;
    let mut t: usize = 0;
    while t < n
        invariant
            t <= n == boxes@.len() == paired@.len(),
            k < n,
            forall|u: int| 0 <= u < n ==> (#[trigger] boxes@[u]).wf(),
            best is None <==> forall|m: int| 0 <= m < t && m != k ==> #[trigger] paired@[m],
            best matches Some((m, c)) ==> {
                &&& m < t
                &&& m != k
                &&& !paired@[m as int]
                &&& c == union_area(boxes@[k as int], boxes@[m as int])
                &&& -24 * PRODUCT_MAX <= c <= 24 * PRODUCT_MAX
                &&& forall|u: int| 0 <= u < t && u != k && !paired@[u] ==> c <= #[trigger] union_area(boxes@[k as int], boxes@[u])
            },
        decreases n - t,
    {
        if t != k && !paired[t] {
            let u = boxes[k].union(&boxes[t]);
            let c = u.surface_area();
            assert(u.min@[0] == min_i(boxes@[k as int].min@[0], boxes@[t as int].min@[0]));
            assert(u.min@[1] == min_i(boxes@[k as int].min@[1], boxes@[t as int].min@[1]));
            assert(u.min@[2] == min_i(boxes@[k as int].min@[2], boxes@[t as int].min@[2]));
            assert(u.max@[0] == max_i(boxes@[k as int].max@[0], boxes@[t as int].max@[0]));
            assert(u.max@[1] == max_i(boxes@[k as int].max@[1], boxes@[t as int].max@[1]));
            assert(u.max@[2] == max_i(boxes@[k as int].max@[2], boxes@[t as int].max@[2]));
            match best {
                None => {
                    best = Some((t, c));
                },
                Some((_, bc)) => {
                    if c < bc {
                        best = Some((t, c));
                    }
                },
            }
        }
        t = t + 1;
    }
    best
}

/// Taking the tree at `i` out of a forest (leaving an empty tree) removes
/// exactly its leaves.
proof fn lemma_forest_take(a: Seq<BvhTree>, i: int)
    requires
        0 <= i < a.len(),
    ensures
        forest_ms(a) == forest_ms(a.update(i, BvhTree::Empty)).add(a[i].leaf_seq().to_multiset()),
{
    let e = BvhTree::Empty;
    lemma_forest_remove(a, i);
    lemma_forest_remove(a.update(i, e), i);
    assert(a.update(i, e).remove(i) =~= a.remove(i));
    assert(e.leaf_seq() =~= Seq::<usize>::empty());
    assert(forest_ms(a.update(i, e)) =~= forest_ms(a.remove(i)));
}

/// A forest of empty trees has no leaves.
proof fn lemma_forest_all_empty(a: Seq<BvhTree>)
    requires
        forall|k: int| 0 <= k < a.len() ==> #[trigger] a[k] is Empty,
    ensures
        forest_seq(a) == Seq::<usize>::empty(),
    decreases a.len(),
{
    if a.len() > 0 {
        lemma_forest_all_empty(a.drop_last());
        assert(a.last() is Empty);
        assert(forest_seq(a) =~= Seq::<usize>::empty());
    }
}

/// A set of trees over the triangles of a mesh.
#[derive(Debug)]
pub struct BvhForest {
    pub trees: Vec<BvhTree>,
}

impl BvhForest {
    /// One single-triangle tree per triangle, in order.
    pub fn new(tris: &Vec<Triangle>) -> (r: Self)
        requires
            forall|i: int| 0 <= i < tris@.len() ==> (#[trigger] tris@[i]).wf(),
        ensures
            forest_ok(r.trees@, tris@),
            r.trees@.len() == tris@.len(),
            forest_seq(r.trees@) == Seq::new(tris@.len(), |i: int| i as usize),
    {
        let mut trees: Vec<BvhTree> = Vec::new();
        let mut i: usize = 0;
        while i < tris.len()
            invariant
                i <= tris@.len(),
                trees@.len() == i,
                forall|j: int| 0 <= j < tris@.len() ==> (#[trigger] tris@[j]).wf(),
                forest_ok(trees@, tris@),
                forest_seq(trees@) == Seq::new(i as nat, |j: int| j as usize),
            decreases tris@.len() - i,
        {
            let t = BvhTree::leaf(i, tris);
            proof {
                lemma_forest_push(trees@, t);
                assert(Seq::new(i as nat, |j: int| j as usize) + seq![i] =~= Seq::new((i + 1) as nat, |j: int| j as usize));
            }
            trees.push(t);
            i = i + 1;
        }
        BvhForest { trees }
    }

    /// One round of clustering. Each tree's best partner is the tree whose
    /// union with it has the least surface area; trees leave a priority
    /// queue cheapest pairing first and are joined with their partner, and
    /// the trees whose partner was just taken look for a new one. An odd tree
    /// out is kept as it is.
    pub fn contract_once(&mut self, tris: &Vec<Triangle>)
        requires
            forest_ok(old(self).trees@, tris@),
        ensures
            forest_ok(final(self).trees@, tris@),
            forest_ms(final(self).trees@) == forest_ms(old(self).trees@),
            final(self).trees@.len() == (old(self).trees@.len() + 1) / 2,
            forall|t: int| 0 <= t < final(self).trees@.len() ==> made_from(#[trigger] final(self).trees@[t], old(self).trees@),
            old(self).trees@.len() >= 2 ==> cheapest_pair(final(self).trees@[0], old(self).trees@),
            exists|ps: Seq<(int, int)>| ps.len() == old(self).trees@.len() / 2 && #[trigger] pairs_ok(final(self).trees@, old(self).trees@, ps),
            kept_in(old(self).trees@, final(self).trees@),
    {
        let n = self.trees.len();
        if n < 2 {
            assert forall|t: int| 0 <= t < self.trees@.len() implies made_from(#[trigger] self.trees@[t], old(self).trees@) by {
                assert(self.trees@[t] == old(self).trees@[t]);
            }
            assert(pairs_ok(self.trees@, old(self).trees@, Seq::<(int, int)>::empty()));
            assert forall|i: int| 0 <= i < old(self).trees@.len() implies exists|p: int|
                0 <= p < self.trees@.len() && has_subtree(self.trees@[p], #[trigger] old(self).trees@[i]) by {
                lemma_has_subtree_refl(self.trees@[i]);
            }
            return;
        }
        let mut slots: Vec<BvhTree> = Vec::new();
        std::mem::swap(&mut slots, &mut self.trees);
        let ghost orig = slots@;
        let mut boxes: Vec<Bounds> = Vec::new();
        let mut paired: Vec<bool> = Vec::new();
        let mut i: usize = 0;
        while i < n
            invariant
                i <= n == slots@.len(),
                slots@ == orig,
                forest_ok(orig, tris@),
                boxes@.len() == i,
                paired@.len() == i,
                forall|k: int| 0 <= k < i ==> (#[trigger] boxes@[k]).wf() && boxes@[k] == orig[k].spec_bounds(),
                forall|k: int| 0 <= k < i ==> !#[trigger] paired@[k],
            decreases n - i,
        {
            boxes.push(slots[i].bounds());
            paired.push(false);
            i = i + 1;
        }
        let mut partner: Vec<usize> = Vec::new();
        let mut pq = queue_new();
        let mut i: usize = 0;
        while i < n
            invariant
                i <= n,
                n >= 2,
                slots@ == orig,
                forest_ok(orig, tris@),
                slots@.len() == n,
                boxes@.len() == n,
                paired@.len() == n,
                partner@.len() == i,
                forall|k: int| 0 <= k < n ==> (#[trigger] boxes@[k]).wf(),
                forall|k: int| 0 <= k < n ==> !#[trigger] paired@[k],
                forall|k: int| 0 <= k < i ==> #[trigger] partner@[k] < n && partner@[k] != k,
                forall|k: usize| #[trigger] queue_contents(pq).contains_key(k) <==> k < i,
                queue_contents(pq).dom().finite(),
                queue_contents(pq).dom().len() == i,
                forall|k: int| 0 <= k < n ==> #[trigger] boxes@[k] == orig[k].spec_bounds(),
                forall|k: usize| k < i ==> #[trigger] queue_contents(pq)[k] == -pair_cost(orig, k as int, partner@[k as int] as int),
                forall|k: int, m: int| 0 <= k < i && 0 <= m < n && m != k
                    ==> pair_cost(orig, k, partner@[k] as int) <= #[trigger] pair_cost(orig, k, m),
            decreases n - i,
        {
            assert(!paired@[if i == 0 { 1 } else { 0 }]);
            let (m, cost) = best_partner(&boxes, &paired, i).unwrap();
            partner.push(m);
            proof {
                assert(!queue_contents(pq).contains_key(i));
            }
            let ghost q0 = queue_contents(pq);
            queue_push(&mut pq, i, -cost);
            proof {
                assert forall|k: usize| k < i + 1 implies #[trigger] queue_contents(pq)[k] == -pair_cost(orig, k as int, partner@[k as int] as int) by {
                    if k < i {
                        assert(queue_contents(pq)[k] == q0[k]);
                    }
                }
                assert forall|k: int, m: int| 0 <= k < i + 1 && 0 <= m < n && m != k
                    implies pair_cost(orig, k, partner@[k] as int) <= #[trigger] pair_cost(orig, k, m) by {
                    if k == i {
                        assert(union_area(boxes@[k], boxes@[m]) == pair_cost(orig, k, m));
                    }
                }
            }
            i = i + 1;
        }
        let mut out: Vec<BvhTree> = Vec::new();
        let ghost mut ps: Seq<(int, int)> = Seq::empty();
        proof {
            assert(forest_ms(out@) =~= Multiset::empty());
            assert(forest_seq(out@) =~= Seq::<usize>::empty());
        }
        while queue_len(&pq) >= 2
            invariant
                n >= 2,
                slots@.len() == n,
                boxes@.len() == n,
                paired@.len() == n,
                partner@.len() == n,
                forall|k: int| 0 <= k < n ==> (#[trigger] boxes@[k]).wf(),
                forall|k: int| 0 <= k < n ==> (#[trigger] slots@[k]).tree_ok(tris@) && (paired@[k] <==> slots@[k] is Empty),
                forall|k: usize| #[trigger] queue_contents(pq).contains_key(k) <==> (k < n && !paired@[k as int]),
                queue_contents(pq).dom().finite(),
                2 * out@.len() + queue_contents(pq).dom().len() == n,
                forest_ok(out@, tris@),
                forest_ms(out@).add(forest_ms(slots@)) == forest_ms(orig),
                orig.len() == n,
                forall|k: int| 0 <= k < n ==> #[trigger] slots@[k] is Empty || slots@[k] == orig[k],
                forall|t: int| 0 <= t < out@.len() ==> made_from(#[trigger] out@[t], orig),
                forall|k: int| 0 <= k < n ==> #[trigger] boxes@[k] == orig[k].spec_bounds(),
                out@.len() == 0 ==> forall|k: usize| k < n ==> #[trigger] queue_contents(pq)[k] == -pair_cost(orig, k as int, partner@[k as int] as int),
                out@.len() == 0 ==> forall|k: int, m: int| 0 <= k < n && 0 <= m < n && m != k
                    ==> pair_cost(orig, k, partner@[k] as int) <= #[trigger] pair_cost(orig, k, m),
                out@.len() > 0 ==> cheapest_pair(out@[0], orig),
                out@.len() == 0 ==> forall|k: int| 0 <= k < n ==> !#[trigger] paired@[k],
                ps.len() == out@.len(),
                pairs_ok(out@, orig, ps),
                forall|i: int| 0 <= i < n && #[trigger] paired@[i] ==> exists|p: int| 0 <= p < out@.len() && has_subtree(out@[p], orig[i]),
                forall|k: int| 0 <= k < n ==> (paired@[k] <==> #[trigger] taken(ps, ps.len() as int, k)),
                forall|k: int, m: int| 0 <= k < n && 0 <= m < n && m != k && !paired@[k] && !paired@[m]
                    ==> pair_cost(orig, k, partner@[k] as int) <= #[trigger] pair_cost(orig, k, m),
                queue_contents(pq).dom().len() >= 2 ==> forall|k: int|
                    0 <= k < n && !paired@[k] ==> #[trigger] partner@[k] < n && !paired@[partner@[k] as int]
                        && partner@[k] != k,
            decreases queue_contents(pq).dom().len(),
        {
            let ghost before = queue_contents(pq);
            let ghost first = out@.len() == 0;
            let ghost p0 = paired@;
            let (a_idx, _) = queue_pop(&mut pq).unwrap();
            let b_idx = partner[a_idx];
            assert(queue_contents(pq).contains_key(b_idx));
            queue_remove(&mut pq, b_idx);
            proof {
                assert(queue_contents(pq).dom() =~= before.dom().remove(a_idx).remove(b_idx));
            }
            let mut a = BvhTree::Empty;
            let ghost s0 = slots@;
            slots.set_and_swap(a_idx, &mut a);
            let mut b = BvhTree::Empty;
            let ghost s1 = slots@;
            slots.set_and_swap(b_idx, &mut b);
            proof {
                lemma_forest_take(s0, a_idx as int);
                lemma_forest_take(s1, b_idx as int);
            }
            paired.set(a_idx, true);
            paired.set(b_idx, true);
            let node = BvhTree::node(a, b, tris);
            let ghost o0 = out@;
            out.push(node);
            proof {
                assert(a == orig[a_idx as int]);
                assert(b == orig[b_idx as int]);
                assert(made_from(node, orig));
                if first {
                    let (ai, bi) = (a_idx as int, b_idx as int);
                    assert forall|p: int, q: int| 0 <= p < orig.len() && 0 <= q < orig.len() && p != q
                        implies pair_cost(orig, ai, bi) <= #[trigger] pair_cost(orig, p, q) by {
                        assert(!paired@[p] || p == a_idx || p == b_idx);
                        assert(before.contains_key(p as usize));
                        assert(before[p as usize] <= before[a_idx]);
                        assert(pair_cost(orig, p, partner@[p] as int) <= pair_cost(orig, p, q));
                    }
                    assert(joins(node, orig[ai], orig[bi]));
                    assert(cheapest_pair(out@[0], orig));
                } else {
                    assert(out@[0] == o0[0]);
                }
                assert forall|t: int| 0 <= t < out@.len() implies made_from(#[trigger] out@[t], orig) by {
                    if t < o0.len() {
                        assert(out@[t] == o0[t]);
                    }
                }
                lemma_forest_push(o0, node);
                vstd::seq_lib::lemma_multiset_commutative(a.leaf_seq(), b.leaf_seq());
                assert(forest_ms(out@).add(forest_ms(slots@)) =~= forest_ms(orig));
                let (ai, bi) = (a_idx as int, b_idx as int);
                assert(!p0[ai] && !p0[bi]);
                assert forall|m: int| 0 <= m < orig.len() && m != ai && !taken(ps, ps.len() as int, m)
                    implies pair_cost(orig, ai, bi) <= #[trigger] pair_cost(orig, ai, m) by {
                    assert(!p0[m]);
                }
                lemma_pairs_push(o0, orig, ps, node, ai, bi);
                ps = ps.push((ai, bi));
                lemma_has_subtree_node(node, orig[ai], orig[bi], orig[ai]);
                lemma_has_subtree_node(node, orig[ai], orig[bi], orig[bi]);
                lemma_has_subtree_refl(orig[ai]);
                lemma_has_subtree_refl(orig[bi]);
                assert forall|i: int| 0 <= i < n && #[trigger] paired@[i] implies exists|p: int| 0 <= p < out@.len() && has_subtree(out@[p], orig[i]) by {
                    if i == ai || i == bi {
                        assert(out@[o0.len() as int] == node);
                    } else {
                        assert(p0[i]);
                        let p = choose|p: int| 0 <= p < o0.len() && has_subtree(o0[p], orig[i]);
                        assert(out@[p] == o0[p]);
                    }
                }
                assert forall|k: int| 0 <= k < n implies (paired@[k] <==> #[trigger] taken(ps, ps.len() as int, k)) by {
                    assert(paired@[k] == (p0[k] || k == ai || k == bi));
                }
            }
            // Trees whose partner was just taken look for a new one.
            let mut k: usize = 0;
            while k < n
                invariant
                    n >= 2,
                    k <= n,
                    boxes@.len() == n,
                    paired@.len() == n,
                    partner@.len() == n,
                    a_idx < n && b_idx < n,
                    paired@[a_idx as int] && paired@[b_idx as int],
                    forall|t: int| 0 <= t < n ==> (#[trigger] boxes@[t]).wf(),
                    forall|t: usize| #[trigger] queue_contents(pq).contains_key(t) <==> (t < n && !paired@[t as int]),
                    queue_contents(pq).dom().finite(),
                    queue_contents(pq).dom().len() + 2 == before.dom().len(),
                    forall|t: int| 0 <= t < n && !paired@[t] ==> #[trigger] partner@[t] < n,
                    queue_contents(pq).dom().len() >= 2 ==> forall|t: int|
                        0 <= t < k && !paired@[t] ==> !paired@[#[trigger] partner@[t] as int] && partner@[t] != t,
                    forall|t: int| 0 <= t < n ==> #[trigger] boxes@[t] == orig[t].spec_bounds(),
                    forall|t: int, m: int| 0 <= t < n && 0 <= m < n && m != t && !paired@[t] && !paired@[m]
                        && (t < k || (partner@[t] != a_idx && partner@[t] != b_idx))
                        ==> pair_cost(orig, t, partner@[t] as int) <= #[trigger] pair_cost(orig, t, m),
                    queue_contents(pq).dom().len() >= 2 ==> forall|t: int|
                        k <= t < n && !paired@[t] && partner@[t] != a_idx && partner@[t] != b_idx
                            ==> !paired@[#[trigger] partner@[t] as int] && partner@[t] != t,
                decreases n - k,
            {
                if !paired[k] && (partner[k] == a_idx || partner[k] == b_idx) {
                    match best_partner(&boxes, &paired, k) {
                        Some((m, cost)) => {
                            proof {
                                assert forall|u: int| 0 <= u < n && u != k && !paired@[u]
                                    implies cost <= #[trigger] pair_cost(orig, k as int, u) by {
                                    assert(union_area(boxes@[k as int], boxes@[u]) == pair_cost(orig, k as int, u));
                                }
                            }
                            partner.set(k, m);
                            let ghost q0 = queue_contents(pq);
                            queue_push(&mut pq, k, -cost);
                            proof {
                                assert(q0.contains_key(k));
                                assert(queue_contents(pq).dom() =~= q0.dom());
                            }
                        },
                        None => {
                            proof {
                                // `k` is the only tree left unpaired.
                                assert(queue_contents(pq).dom() =~= set![k]);
                            }
                        },
                    }
                }
                k = k + 1;
            }
        }
        if queue_len(&pq) == 1 {
            let ghost q0 = queue_contents(pq);
            let (last, _) = queue_pop(&mut pq).unwrap();
            let mut t = BvhTree::Empty;
            let ghost s0 = slots@;
            proof {
                lemma_pairs_extend(out@, orig, ps, orig[last as int]);
            }
            slots.set_and_swap(last, &mut t);
            paired.set(last, true);
            let ghost o0 = out@;
            out.push(t);
            proof {
                assert(t == orig[last as int]);
                assert(made_from(t, orig));
                assert forall|u: int| 0 <= u < out@.len() implies made_from(#[trigger] out@[u], orig) by {
                    if u < o0.len() {
                        assert(out@[u] == o0[u]);
                    }
                }
                lemma_forest_take(s0, last as int);
                lemma_forest_push(o0, t);
                lemma_has_subtree_refl(t);
                assert forall|i: int| 0 <= i < n && #[trigger] paired@[i] implies exists|p: int| 0 <= p < out@.len() && has_subtree(out@[p], orig[i]) by {
                    if i == last as int {
                        assert(out@[o0.len() as int] == t);
                    } else {
                        let p = choose|p: int| 0 <= p < o0.len() && has_subtree(o0[p], orig[i]);
                        assert(out@[p] == o0[p]);
                    }
                }
                assert(queue_contents(pq).dom() =~= q0.dom().remove(last));
                assert(forest_ms(out@).add(forest_ms(slots@)) =~= forest_ms(orig));
            }
        }
        proof {
            assert forall|k: int| 0 <= k < n implies #[trigger] slots@[k] is Empty by {
                if !paired@[k] {
                    assert(queue_contents(pq).contains_key(k as usize));
                }
            }
            lemma_forest_all_empty(slots@);
            assert(forest_ms(out@) =~= forest_ms(orig));
            assert forall|i: int| 0 <= i < orig.len() implies exists|p: int| 0 <= p < out@.len() && has_subtree(out@[p], #[trigger] orig[i]) by {
                if !paired@[i] {
                    assert(queue_contents(pq).contains_key(i as usize));
                }
                assert(paired@[i]);
            }
        }
        self.trees = out;
    }

    /// Splits the forest in two along the axis of its largest extent: trees
    /// are ordered by the centre of their boxes and cut where the centres
    /// pass the middle of the whole box, but never so that a side keeps
    /// fewer than a hundredth of the trees, nor fewer than one.
    #[verifier::rlimit(100)]
    pub fn subdivide_once(self, tris: &Vec<Triangle>) -> (r: (BvhForest, BvhForest))
        requires
            forest_ok(self.trees@, tris@),
            self.trees@.len() >= 2,
        ensures
            forest_ok(r.0.trees@, tris@),
            forest_ok(r.1.trees@, tris@),
            r.0.trees@.len() + r.1.trees@.len() == self.trees@.len(),
            r.0.trees@.len() >= min_split(self.trees@.len()),
            r.1.trees@.len() >= min_split(self.trees@.len()),
            forest_ms(r.0.trees@).add(forest_ms(r.1.trees@)) == forest_ms(self.trees@),
            (r.0.trees@ + r.1.trees@).to_multiset() == self.trees@.to_multiset(),
            ({
                let a = widest_axis(self.trees@);
                let all = r.0.trees@ + r.1.trees@;
                let c = forest_lo(self.trees@, a) + forest_hi(self.trees@, a);
                &&& forall|i: int, j: int| 0 <= i <= j < all.len() ==> center_key(all[i], a) <= center_key(all[j], a)
                &&& r.0.trees@.len() == min_split(self.trees@.len()) || forall|i: int|
                    0 <= i < r.0.trees@.len() ==> center_key(#[trigger] r.0.trees@[i], a) < c
                &&& r.1.trees@.len() == min_split(self.trees@.len()) || forall|i: int|
                    0 <= i < r.1.trees@.len() ==> c <= center_key(#[trigger] r.1.trees@[i], a)
            }),
    {
        let mut trees = self.trees;
        let ghost orig = trees@;
        let n = trees.len();
        let mut all = Bounds::empty();
        let mut i: usize = 0;
        proof {
            assert(orig.take(0) =~= Seq::<BvhTree>::empty());
            assert forall|a: int| 0 <= a < 3 implies #[trigger] all.min.c@[a] == forest_lo(orig.take(0), a)
                && all.max.c@[a] == forest_hi(orig.take(0), a) by {
                assert(all.min.c@[a] == COORD_MAX && all.max.c@[a] == -COORD_MAX);
            }
        }
        while i < n
            invariant
                i <= n == trees@.len(),
                trees@ == orig,
                forest_ok(trees@, tris@),
                all.wf(),
                forall|a: int| 0 <= a < 3 ==> #[trigger] all.min.c@[a] == forest_lo(orig.take(i as int), a)
                    && all.max.c@[a] == forest_hi(orig.take(i as int), a),
            decreases n - i,
        {
            let b = trees[i].bounds();
            all = all.union(&b);
            proof {
                assert(orig.take(i + 1).drop_last() =~= orig.take(i as int));
                assert(orig.take(i + 1).last() == orig[i as int]);
            }
            i = i + 1;
        }
        proof {
            assert(orig.take(n as int) =~= orig);
        }
        let mut axis: usize = 0;
        if all.dim(1) > all.dim(axis) {
            axis = 1;
        }
        if all.dim(2) > all.dim(axis) {
            axis = 2;
        }
        assert(axis == widest_axis(orig));
        // Twice the middle of the whole box along the axis, to compare with
        // the doubled centres of the trees.
        let split_coordinate = all.min.c[axis] + all.max.c[axis];
        let mut sorted: Vec<BvhTree> = Vec::new();
        let mut keys: Vec<i64> = Vec::new();
        while trees.len() > 0
            invariant
                forest_ok(trees@, tris@),
                forest_ok(sorted@, tris@),
                keys@.len() == sorted@.len(),
                trees@.len() + sorted@.len() == n,
                forest_ms(trees@).add(forest_ms(sorted@)) == forest_ms(orig),
                trees@.to_multiset().add(sorted@.to_multiset()) == orig.to_multiset(),
                axis < 3,
                forall|i: int| 0 <= i < keys@.len() ==> #[trigger] keys@[i] == center_key(sorted@[i], axis as int),
                forall|i: int, j: int| 0 <= i <= j < keys@.len() ==> keys@[i] <= keys@[j],
            decreases trees@.len(),
        {
            let ghost t0 = trees@;
            let t = trees.pop().unwrap();
            proof {
                assert(t0 =~= trees@.push(t));
                assert(t == t0[t0.len() - 1]);
                lemma_forest_push(trees@, t);
                assert(t0.to_multiset() == trees@.to_multiset().insert(t));
            }
            let tb = t.bounds();
            let key = tb.min.c[axis] + tb.max.c[axis];
            let mut pos: usize = 0;
            while pos < keys.len() && keys[pos] <= key
                invariant
                    pos <= keys@.len(),
                    forall|i: int| 0 <= i < pos ==> #[trigger] keys@[i] <= key,
                decreases keys@.len() - pos,
            {
                pos = pos + 1;
            }
            let ghost s0 = sorted@;
            let ghost k0 = keys@;
            keys.insert(pos, key);
            sorted.insert(pos, t);
            proof {
                assert(sorted@.remove(pos as int) =~= s0);
                assert(sorted@[pos as int] == t);
                lemma_forest_remove(sorted@, pos as int);
                assert(forest_ms(trees@).add(forest_ms(sorted@)) =~= forest_ms(orig));
                assert(sorted@.remove(pos as int).to_multiset() == sorted@.to_multiset().remove(t));
                assert(sorted@.to_multiset().contains(t));
                assert(sorted@.to_multiset() =~= s0.to_multiset().insert(t));
                assert(trees@.to_multiset().add(sorted@.to_multiset()) =~= orig.to_multiset());
                assert forall|i: int| 0 <= i < keys@.len() implies #[trigger] keys@[i] == center_key(sorted@[i], axis as int) by {
                    if i < pos {
                        assert(keys@[i] == k0[i] && sorted@[i] == s0[i]);
                    } else if i > pos {
                        assert(keys@[i] == k0[i - 1] && sorted@[i] == s0[i - 1]);
                    }
                }
                assert forall|i: int, j: int| 0 <= i <= j < keys@.len() implies keys@[i] <= keys@[j] by {
                    if pos < k0.len() {
                        assert(k0[pos as int] > key);
                    }
                    if i < pos && j < pos {
                        assert(k0[i] <= k0[j]);
                    } else if i < pos && j > pos {
                        assert(k0[i] <= k0[j - 1]);
                    } else if i > pos && j > pos {
                        assert(k0[i - 1] <= k0[j - 1]);
                    } else if i == pos && j > pos {
                        assert(k0[pos as int] <= k0[j - 1]);
                    }
                }
            }
        }
        let mut split: usize = 0;
        while split < keys.len() && keys[split] < split_coordinate
            invariant
                split <= keys@.len(),
                forall|i: int| 0 <= i < split ==> #[trigger] keys@[i] < split_coordinate,
            decreases keys@.len() - split,
        {
            split = split + 1;
        }
        let ghost middle = split;
        proof {
            assert forall|i: int| middle <= i < keys@.len() implies split_coordinate <= #[trigger] keys@[i] by {
                assert(keys@[middle as int] <= keys@[i]);
            }
        }
        let min_split = if n / 100 > 1 { n / 100 } else { 1 };
        let max_split = n - min_split;
        if split < min_split {
            split = min_split;
        }
        if split > max_split {
            split = max_split;
        }
        let ghost s0 = sorted@;
        let right = sorted.split_off(split);
        proof {
            assert(s0 =~= sorted@ + right@);
            lemma_forest_concat(sorted@, right@);
            vstd::seq_lib::lemma_multiset_commutative(forest_seq(sorted@), forest_seq(right@));
            assert(trees@.len() == 0);
            assert(forest_seq(trees@) =~= Seq::<usize>::empty());
            assert(forest_ms(trees@) =~= Multiset::empty());
            assert(forest_ms(sorted@).add(forest_ms(right@)) =~= forest_ms(orig));
            vstd::seq_lib::lemma_multiset_commutative(sorted@, right@);
            assert(trees@.to_multiset() =~= Multiset::empty());
            assert((sorted@ + right@).to_multiset() =~= orig.to_multiset());
            let a = axis as int;
            assert forall|i: int, j: int| 0 <= i <= j < s0.len() implies center_key(s0[i], a) <= center_key(s0[j], a) by {
                assert(keys@[i] <= keys@[j]);
            }
            if sorted@.len() != min_split {
                assert forall|i: int| 0 <= i < sorted@.len() implies center_key(#[trigger] sorted@[i], a) < split_coordinate by {
                    assert(sorted@[i] == s0[i]);
                    assert(keys@[i] < split_coordinate);
                }
            }
            if right@.len() != min_split {
                assert forall|i: int| 0 <= i < right@.len() implies split_coordinate <= center_key(#[trigger] right@[i], a) by {
                    assert(right@[i] == s0[i + split]);
                    assert(split_coordinate <= keys@[i + split]);
                }
            }
        }
        (BvhForest { trees: sorted }, BvhForest { trees: right })
    }

    /// Reduces the forest to one tree by splitting it in halves, top-down.
    pub fn subdivide(self, tris: &Vec<Triangle>) -> (r: BvhTree)
        requires
            forest_ok(self.trees@, tris@),
        ensures
            r.tree_ok(tris@),
            r.leaf_seq().to_multiset() == forest_ms(self.trees@),
            self.trees@.len() > 0 ==> !(r is Empty),
            self.trees@.len() == 0 ==> r is Empty,
            self.trees@.len() == 1 ==> r == self.trees@[0],
            forall|i: int| 0 <= i < self.trees@.len() ==> has_subtree(r, #[trigger] self.trees@[i]),
        decreases self.trees@.len(),
    {
        let n = self.trees.len();
        if n == 0 {
            proof {
                assert(forest_seq(self.trees@) =~= Seq::<usize>::empty());
            }
            return BvhTree::new();
        }
        if n == 1 {
            let mut trees = self.trees;
            let ghost t0 = trees@;
            let t = trees.pop().unwrap();
            proof {
                assert(t0 =~= seq![t]);
                lemma_forest_single(t);
                lemma_has_subtree_refl(t);
            }
            return t;
        }
        let ghost orig = self.trees@;
        let (left, right) = self.subdivide_once(tris);
        let l = left.subdivide(tris);
        let r = right.subdivide(tris);
        let node = BvhTree::node(l, r, tris);
        proof {
            vstd::seq_lib::lemma_multiset_commutative(l.leaf_seq(), r.leaf_seq());
            let ls = left.trees@;
            let rs = right.trees@;
            assert forall|i: int| 0 <= i < orig.len() implies has_subtree(node, #[trigger] orig[i]) by {
                let x = orig[i];
                assert(orig.contains(x));
                assert(orig.to_multiset().contains(x));
                assert((ls + rs).to_multiset().contains(x));
                assert((ls + rs).contains(x));
                let k = choose|k: int| 0 <= k < (ls + rs).len() && (ls + rs)[k] == x;
                if k < ls.len() {
                    assert(ls[k] == x);
                } else {
                    assert(rs[k - ls.len()] == x);
                }
                lemma_has_subtree_node(node, l, r, x);
            }
        }
        node
    }

    /// Reduces the forest to one tree by clustering rounds, bottom-up.
    pub fn contract(self, tris: &Vec<Triangle>) -> (r: BvhTree)
        requires
            forest_ok(self.trees@, tris@),
        ensures
            r.tree_ok(tris@),
            r.leaf_seq().to_multiset() == forest_ms(self.trees@),
            self.trees@.len() > 0 ==> !(r is Empty),
            self.trees@.len() == 0 ==> r is Empty,
            self.trees@.len() == 1 ==> r == self.trees@[0],
            self.trees@.len() >= 2 ==> exists|t: BvhTree| has_subtree(r, t) && #[trigger] cheapest_pair(t, self.trees@),
    {
        let ghost orig = self.trees@;
        let mut forest = self;
        let ghost mut cp = BvhTree::Empty;
        let ghost mut have = false;
        while forest.trees.len() > 1
            invariant
                forest_ok(forest.trees@, tris@),
                forest_ms(forest.trees@) == forest_ms(orig),
                orig.len() > 0 ==> forest.trees@.len() > 0,
                orig.len() <= 1 ==> forest.trees@ == orig,
                !have ==> forest.trees@ == orig,
                have ==> cheapest_pair(cp, orig),
                have ==> exists|p: int| 0 <= p < forest.trees@.len() && has_subtree(forest.trees@[p], cp),
            decreases forest.trees@.len(),
        {
            let ghost before = forest.trees@;
            forest.contract_once(tris);
            proof {
                if !have {
                    cp = forest.trees@[0];
                    have = true;
                    lemma_has_subtree_refl(cp);
                } else {
                    let p = choose|p: int| 0 <= p < before.len() && has_subtree(before[p], cp);
                    assert(kept_in(before, forest.trees@));
                    let q = choose|q: int| 0 <= q < forest.trees@.len() && has_subtree(forest.trees@[q], before[p]);
                    lemma_has_subtree_trans(forest.trees@[q], before[p], cp);
                }
            }
        }
        let r = forest.subdivide(tris);
        proof {
            if orig.len() >= 2 {
                assert(have);
                assert(has_subtree(r, forest.trees@[0]));
                assert(has_subtree(forest.trees@[0], cp));
                lemma_has_subtree_trans(r, forest.trees@[0], cp);
            }
        }
        r
    }

    /// One clustering round, then subdivision of what it left.
    pub fn hybrid(self, tris: &Vec<Triangle>) -> (r: BvhTree)
        requires
            forest_ok(self.trees@, tris@),
        ensures
            r.tree_ok(tris@),
            r.leaf_seq().to_multiset() == forest_ms(self.trees@),
            self.trees@.len() > 0 ==> !(r is Empty),
            self.trees@.len() == 0 ==> r is Empty,
            self.trees@.len() == 1 ==> r == self.trees@[0],
            self.trees@.len() >= 2 ==> exists|t: BvhTree| has_subtree(r, t) && #[trigger] cheapest_pair(t, self.trees@),
    {
        let ghost orig = self.trees@;
        let mut forest = self;
        forest.contract_once(tris);
        proof {
            if orig.len() == 1 {
                assert(made_from(forest.trees@[0], orig));
                assert(forest.trees@[0] == orig[0]);
            }
        }
        let ghost after = forest.trees@;
        let r = forest.subdivide(tris);
        proof {
            if orig.len() >= 2 {
                assert(has_subtree(r, after[0]));
                assert(cheapest_pair(after[0], orig));
            }
        }
        r
    }
}

/// One node of a flattened hierarchy: its box and the index ranges
/// `[start, end)` of its child nodes and of its leaves.
#[derive(Copy, Clone, Debug, PartialEq, Eq)]
pub struct BvhEntry {
    pub bounds: Bounds,
    pub child_nodes: (usize, usize),
    pub child_leaves: (usize, usize),
}

/// `e` is a well-formed node over the arrays `nodes` and `leaves`: its
/// ranges lie within them, its box is well formed and contains the box of
/// every child node and every vertex of every leaf triangle.
pub open spec fn entry_ok(e: BvhEntry, nodes: Seq<BvhEntry>, leaves: Seq<usize>, tris: Seq<Triangle>) -> bool {
    &&& e.bounds.wf()
    &&& e.child_nodes.0 <= e.child_nodes.1 <= nodes.len()
    &&& e.child_leaves.0 <= e.child_leaves.1 <= leaves.len()
    &&& forall|j: int| e.child_nodes.0 <= j < e.child_nodes.1 ==> box_within((#[trigger] nodes[j]).bounds, e.bounds)
    &&& forall|l: int| e.child_leaves.0 <= l < e.child_leaves.1 ==> {
        &&& (#[trigger] leaves[l]) < tris.len()
        &&& tris[leaves[l] as int].within(e.bounds)
    }
}

/// Every node of `nodes` is well formed.
pub open spec fn entries_ok(nodes: Seq<BvhEntry>, leaves: Seq<usize>, tris: Seq<Triangle>) -> bool {
    forall|j: int| 0 <= j < nodes.len() ==> entry_ok(#[trigger] nodes[j], nodes, leaves, tris)
}

pub open spec fn is_prefix<A>(a: Seq<A>, b: Seq<A>) -> bool {
    a.len() <= b.len() && forall|i: int| 0 <= i < a.len() ==> #[trigger] b[i] == a[i]
}

proof fn lemma_entry_ok_grow(e: BvhEntry, n1: Seq<BvhEntry>, l1: Seq<usize>, n2: Seq<BvhEntry>, l2: Seq<usize>, tris: Seq<Triangle>)
    requires
        entry_ok(e, n1, l1, tris),
        is_prefix(n1, n2),
        is_prefix(l1, l2),
    ensures
        entry_ok(e, n2, l2, tris),
{
    assert forall|j: int| e.child_nodes.0 <= j < e.child_nodes.1 implies box_within((#[trigger] n2[j]).bounds, e.bounds) by {
        assert(n2[j] == n1[j]);
    }
    assert forall|l: int| e.child_leaves.0 <= l < e.child_leaves.1 implies (#[trigger] l2[l]) < tris.len()
        && tris[l2[l] as int].within(e.bounds) by {
        assert(l2[l] == l1[l]);
    }
}

proof fn lemma_entries_ok_grow(n1: Seq<BvhEntry>, l1: Seq<usize>, n2: Seq<BvhEntry>, l2: Seq<usize>, tris: Seq<Triangle>)
    requires
        entries_ok(n1, l1, tris),
        is_prefix(n1, n2),
        is_prefix(l1, l2),
    ensures
        forall|j: int| 0 <= j < n1.len() ==> entry_ok(#[trigger] n2[j], n2, l2, tris),
{
    assert forall|j: int| 0 <= j < n1.len() implies entry_ok(#[trigger] n2[j], n2, l2, tris) by {
        assert(n2[j] == n1[j]);
        lemma_entry_ok_grow(n1[j], n1, l1, n2, l2, tris);
    }
}

/// Node `k` is among the child nodes of `e`.
pub open spec fn in_child_nodes(e: BvhEntry, k: int) -> bool {
    e.child_nodes.0 <= k < e.child_nodes.1
}

/// Every node's children come before it in the array, so following child
/// ranges never leads back to a node.
pub open spec fn children_before(nodes: Seq<BvhEntry>) -> bool {
    forall|j: int| 0 <= j < nodes.len() ==> (#[trigger] nodes[j]).child_nodes.0 <= nodes[j].child_nodes.1 <= j
}

/// No node is a child of two different nodes.
pub open spec fn ranges_disjoint(nodes: Seq<BvhEntry>) -> bool {
    forall|j1: int, j2: int, k: int|
        0 <= j1 < nodes.len() && 0 <= j2 < nodes.len() && j1 != j2 && #[trigger] in_child_nodes(nodes[j1], k)
            ==> !#[trigger] in_child_nodes(nodes[j2], k)
}

/// Node `k` is a child of some node in `[lo, hi)`.
pub open spec fn covered_by(nodes: Seq<BvhEntry>, lo: int, hi: int, k: int) -> bool {
    exists|j: int| lo <= j < hi && #[trigger] in_child_nodes(nodes[j], k)
}

/// What one call of the flattening adds: nodes `[n0, len)` and the returned
/// node `e`, whose child ranges cover exactly the added nodes, each once,
/// and nothing before `n0`.
pub open spec fn added_ok(nodes: Seq<BvhEntry>, n0: int, e: BvhEntry) -> bool {
    &&& children_before(nodes)
    &&& ranges_disjoint(nodes)
    &&& e.child_nodes.0 <= e.child_nodes.1 <= nodes.len()
    &&& forall|j: int, k: int| n0 <= j < nodes.len() && #[trigger] in_child_nodes(nodes[j], k) ==> n0 <= k
    &&& forall|k: int| #[trigger] in_child_nodes(e, k) ==> n0 <= k
    &&& forall|k: int| n0 <= k < nodes.len() ==> #[trigger] in_child_nodes(e, k) || covered_by(nodes, n0, nodes.len() as int, k)
    &&& forall|j: int, k: int| 0 <= j < nodes.len() && #[trigger] in_child_nodes(nodes[j], k) ==> !in_child_nodes(e, k)
}

proof fn lemma_flat_node(n2s: Seq<BvhEntry>, n1s: Seq<BvhEntry>, n3s: Seq<BvhEntry>, n0: int, le: BvhEntry, re: BvhEntry, e: BvhEntry)
    requires
        0 <= n0 <= n1s.len() <= n2s.len(),
        is_prefix(n1s, n2s),
        n3s == n2s.push(le).push(re),
        added_ok(n1s, n0, le),
        added_ok(n2s, n1s.len() as int, re),
        e.child_nodes.0 == n2s.len(),
        e.child_nodes.1 == n2s.len() + 2,
    ensures
        added_ok(n3s, n0, e),
{
    let n1 = n1s.len() as int;
    let n2 = n2s.len() as int;
    assert(n3s[n2] == le && n3s[n2 + 1] == re);
    assert forall|j: int| 0 <= j < n3s.len() implies (#[trigger] n3s[j]).child_nodes.0 <= n3s[j].child_nodes.1 <= j by {
        if j < n2 {
            assert(n3s[j] == n2s[j]);
        }
    }
    assert(children_before(n3s));
    assert forall|j1: int, j2: int, k: int|
        0 <= j1 < n3s.len() && 0 <= j2 < n3s.len() && j1 != j2 && #[trigger] in_child_nodes(n3s[j1], k)
        implies !#[trigger] in_child_nodes(n3s[j2], k) by {
        if j1 < n2 && j2 < n2 {
            assert(n3s[j1] == n2s[j1] && n3s[j2] == n2s[j2]);
        } else {
            let (j, o) = if j1 < n2 { (j1, j2) } else { (j2, j1) };
            if j < n2 {
                assert(n3s[j] == n2s[j]);
                if in_child_nodes(n3s[o], k) && in_child_nodes(n3s[j], k) {
                    if o == n2 {
                        if j < n1 {
                            assert(n1s[j] == n2s[j]);
                        }
                    } else {
                        assert(in_child_nodes(n2s[j], k));
                    }
                }
            }
        }
    }
    assert forall|j: int, k: int| n0 <= j < n3s.len() && #[trigger] in_child_nodes(n3s[j], k) implies n0 <= k by {
        if j < n1 {
            assert(n3s[j] == n1s[j]);
        } else if j < n2 {
            assert(n3s[j] == n2s[j]);
        }
    }
    assert forall|k: int| n0 <= k < n3s.len() implies #[trigger] in_child_nodes(e, k) || covered_by(n3s, n0, n3s.len() as int, k) by {
        if k < n1 {
            if in_child_nodes(le, k) {
                assert(in_child_nodes(n3s[n2], k));
            } else {
                let j = choose|j: int| n0 <= j < n1 && #[trigger] in_child_nodes(n1s[j], k);
                assert(n3s[j] == n1s[j]);
            }
        } else if k < n2 {
            if in_child_nodes(re, k) {
                assert(in_child_nodes(n3s[n2 + 1], k));
            } else {
                let j = choose|j: int| n1 <= j < n2 && #[trigger] in_child_nodes(n2s[j], k);
                assert(n3s[j] == n2s[j]);
            }
        }
    }
    assert forall|j: int, k: int| 0 <= j < n3s.len() && #[trigger] in_child_nodes(n3s[j], k) implies !in_child_nodes(e, k) by {
        assert(n3s[j].child_nodes.1 <= j);
    }
}

/// A flattened hierarchy: nodes and leaves in flat arrays, children named
/// by index ranges.
#[derive(Debug)]
pub struct Bvh {
    nodes: Vec<BvhEntry>,
    leaves: Vec<usize>,
    root: usize,
}

impl Bvh {
    pub closed spec fn spec_nodes(&self) -> Seq<BvhEntry> {
        self.nodes@
    }

    /// The triangle index of each leaf slot.
    pub closed spec fn spec_leaves(&self) -> Seq<usize> {
        self.leaves@
    }

    pub closed spec fn spec_root(&self) -> int {
        self.root as int
    }

    /// Appends `t` below the current arrays and returns the node that stands
    /// for it, which the caller stores.
    fn add_bvh_tree(&mut self, t: &BvhTree, Ghost(tris): Ghost<Seq<Triangle>>) -> (e: BvhEntry)
        requires
            t.tree_ok(tris),
            entries_ok(old(self).nodes@, old(self).leaves@, tris),
            children_before(old(self).nodes@),
            ranges_disjoint(old(self).nodes@),
        ensures
            added_ok(final(self).nodes@, old(self).nodes@.len() as int, e),
            is_prefix(old(self).nodes@, final(self).nodes@),
            final(self).leaves@ == old(self).leaves@ + t.leaf_seq(),
            entries_ok(final(self).nodes@, final(self).leaves@, tris),
            entry_ok(e, final(self).nodes@, final(self).leaves@, tris),
            !(t is Empty) ==> e.bounds == t.spec_bounds(),
            t is Empty ==> is_empty_box(e.bounds),
            final(self).root == old(self).root,
        decreases t,
    {
        let nodes_start = self.nodes.len();
        let leaf_start = self.leaves.len();
        match t {
            BvhTree::Empty => {
                assert(self.leaves@ + t.leaf_seq() =~= self.leaves@);
                let b = Bounds::empty();
                let e = BvhEntry {
                    bounds: b,
                    child_nodes: (nodes_start, nodes_start),
                    child_leaves: (leaf_start, leaf_start),
                };
                assert(is_empty_box(e.bounds));
                e
            },
            BvhTree::Leaf { tri, bounds } => {
                let ghost n0 = self.nodes@;
                let ghost l0 = self.leaves@;
                self.leaves.push(*tri);
                proof {
                    assert(self.leaves@ =~= l0 + t.leaf_seq());
                    lemma_entries_ok_grow(n0, l0, self.nodes@, self.leaves@, tris);
                }
                let leaf_end = self.leaves.len();
                let e = BvhEntry {
                    bounds: *bounds,
                    child_nodes: (nodes_start, nodes_start),
                    child_leaves: (leaf_start, leaf_end),
                };
                assert(self.leaves@[leaf_start as int] == *tri);
                e
            },
            BvhTree::Node { left, right, bounds } => {
                let ghost n0 = self.nodes@;
                let ghost l0 = self.leaves@;
                proof {
                    lemma_union_within(*bounds, left.spec_bounds(), right.spec_bounds());
                }
                let le = self.add_bvh_tree(left, Ghost(tris));
                let ghost n1 = self.nodes@;
                let ghost l1 = self.leaves@;
                let re = self.add_bvh_tree(right, Ghost(tris));
                let ghost n2 = self.nodes@;
                let ghost l2 = self.leaves@;
                let start = self.nodes.len();
                self.nodes.push(le);
                self.nodes.push(re);
                let end = self.nodes.len();
                let leaf_end = self.leaves.len();
                proof {
                    let n3 = self.nodes@;
                    assert(is_prefix(n2, n3));
                    assert(is_prefix(l1, l2)) by {
                        assert forall|i: int| 0 <= i < l1.len() implies #[trigger] l2[i] == l1[i] by {
                            assert(l2[i] == (l1 + right.leaf_seq())[i]);
                        }
                    }
                    assert(is_prefix(l2, l2));
                    lemma_entry_ok_grow(le, n1, l1, n3, l2, tris);
                    lemma_entry_ok_grow(re, n2, l2, n3, l2, tris);
                    lemma_entries_ok_grow(n2, l2, n3, l2, tris);
                    assert(n3[start as int] == le);
                    assert(n3[start + 1] == re);
                    assert forall|j: int| 0 <= j < n3.len() implies entry_ok(#[trigger] n3[j], n3, l2, tris) by {
                        if j == start as int {
                        } else if j == start + 1 {
                        }
                    }
                    assert(l2 =~= l0 + t.leaf_seq());
                    assert(is_prefix(n0, n3)) by {
                        assert forall|i: int| 0 <= i < n0.len() implies #[trigger] n3[i] == n0[i] by {
                            assert(n1[i] == n0[i]);
                            assert(n2[i] == n1[i]);
                        }
                    }
                }
                let e = BvhEntry {
                    bounds: *bounds,
                    child_nodes: (start, end),
                    child_leaves: (leaf_end, leaf_end),
                };
                proof {
                    lemma_flat_node(n2, n1, self.nodes@, n0.len() as int, le, re, e);
                }
                e
            },
        }
    }

    /// Flattens `tree`; the leaf array lists its leaves left to right.
    pub fn new(tree: &BvhTree, tris: &Vec<Triangle>) -> (r: Bvh)
        requires
            tree.tree_ok(tris@),
        ensures
            r.wf(tris@),
            r.spec_root() == r.spec_nodes().len() - 1,
            children_before(r.spec_nodes()),
            ranges_disjoint(r.spec_nodes()),
            forall|k: int| 0 <= k < r.spec_root() ==> covered_by(r.spec_nodes(), 0, r.spec_nodes().len() as int, k),
            forall|j: int| 0 <= j < r.spec_nodes().len() ==> !#[trigger] in_child_nodes(r.spec_nodes()[j], r.spec_root()),
            r.spec_leaves() == tree.leaf_seq(),
            !(tree is Empty) ==> r.spec_nodes()[r.spec_root()].bounds == tree.spec_bounds(),
            tree is Empty ==> is_empty_box(r.spec_nodes()[r.spec_root()].bounds),
    {
        let mut bvh = Bvh { nodes: Vec::new(), leaves: Vec::new(), root: 0 };
        let root = bvh.add_bvh_tree(tree, Ghost(tris@));
        let ghost n0 = bvh.nodes@;
        bvh.root = bvh.nodes.len();
        bvh.nodes.push(root);
        proof {
            assert(Seq::<usize>::empty() + tree.leaf_seq() =~= tree.leaf_seq());
            assert(is_prefix(n0, bvh.nodes@));
            assert(is_prefix(bvh.leaves@, bvh.leaves@));
            lemma_entries_ok_grow(n0, bvh.leaves@, bvh.nodes@, bvh.leaves@, tris@);
            lemma_entry_ok_grow(root, n0, bvh.leaves@, bvh.nodes@, bvh.leaves@, tris@);
            assert forall|j: int| 0 <= j < bvh.nodes@.len() implies entry_ok(#[trigger] bvh.nodes@[j], bvh.nodes@, bvh.leaves@, tris@) by {
                if j == bvh.root as int {
                }
            }
            let ns = bvh.nodes@;
            let rt = bvh.root as int;
            assert(ns[rt] == root);
            if tree is Empty {
                assert(is_empty_box(root.bounds));
            }
            assert forall|j: int| 0 <= j < ns.len() implies (#[trigger] ns[j]).child_nodes.0 <= ns[j].child_nodes.1 <= j by {
                if j < rt {
                    assert(ns[j] == n0[j]);
                }
            }
            assert forall|j1: int, j2: int, k: int|
                0 <= j1 < ns.len() && 0 <= j2 < ns.len() && j1 != j2 && #[trigger] in_child_nodes(ns[j1], k)
                implies !#[trigger] in_child_nodes(ns[j2], k) by {
                if j1 < rt && j2 < rt {
                    assert(ns[j1] == n0[j1] && ns[j2] == n0[j2]);
                } else if j1 < rt {
                    assert(ns[j1] == n0[j1]);
                } else {
                    assert(ns[j2] == n0[j2]);
                }
            }
            assert forall|k: int| 0 <= k < rt implies covered_by(ns, 0, ns.len() as int, k) by {
                if in_child_nodes(root, k) {
                    assert(in_child_nodes(ns[rt], k));
                } else {
                    let j = choose|j: int| 0 <= j < rt && #[trigger] in_child_nodes(n0[j], k);
                    assert(ns[j] == n0[j]);
                }
            }
            assert forall|j: int| 0 <= j < ns.len() implies !#[trigger] in_child_nodes(ns[j], rt) by {
                assert(ns[j].child_nodes.1 <= j);
            }
        }
        bvh
    }

    /// All nodes are well formed and the root is one of them.
    pub open spec fn wf(&self, tris: Seq<Triangle>) -> bool {
        &&& entries_ok(self.spec_nodes(), self.spec_leaves(), tris)
        &&& 0 <= self.spec_root() < self.spec_nodes().len()
    }

    /// The box of the whole hierarchy.
    pub fn bounds(&self, tris: &Vec<Triangle>) -> (r: Bounds)
        requires
            self.wf(tris@),
        ensures
            r == self.spec_nodes()[self.spec_root()].bounds,
    {
        self.nodes[self.root].bounds
    }

    /// The triangle indices of the leaf slots.
    pub fn leaves(&self) -> (r: &[usize])
        ensures
            r@ == self.spec_leaves(),
    {
        self.leaves.as_slice()
    }

    /// The nodes.
    pub fn nodes(&self) -> (r: &[BvhEntry])
        ensures
            r@ == self.spec_nodes(),
    {
        self.nodes.as_slice()
    }
}

/// The indices `0..n` in order.
pub open spec fn index_seq(n: nat) -> Seq<usize> {
    Seq::new(n, |i: int| i as usize)
}

/// Box containment is transitive, so a node's box contains the boxes of all
/// its descendants, not only of its children.
pub proof fn lemma_box_within_trans(x: Bounds, y: Bounds, z: Bounds)
    requires
        box_within(x, y),
        box_within(y, z),
    ensures
        box_within(x, z),
{
    assert forall|i: int| 0 <= i < 3 implies z.min.c@[i] <= #[trigger] x.min.c@[i] && x.max.c@[i] <= z.max.c@[i] by {
        let yi = y.min.c@[i];
        let xi = x.min.c@[i];
        assert(y.min.c@[i] <= x.min.c@[i] && x.max.c@[i] <= y.max.c@[i]);
        assert(z.min.c@[i] <= y.min.c@[i] && y.max.c@[i] <= z.max.c@[i]);
    }
}

/// A hierarchy built over all `tris.len()` triangles and flattened holds
/// each triangle exactly once in its leaf table and no other index; each
/// node's box contains the boxes of its child nodes and the vertices of its
/// leaf triangles.
pub proof fn lemma_flattened_leaves_exactly_once(tree: BvhTree, bvh: Bvh, tris: Seq<Triangle>)
    requires
        tris.len() <= usize::MAX,
        tree.leaf_seq().to_multiset() == index_seq(tris.len()).to_multiset(),
        bvh.spec_leaves() == tree.leaf_seq(),
        bvh.wf(tris),
    ensures
        forall|i: usize| i < tris.len() ==> #[trigger] bvh.spec_leaves().to_multiset().count(i) == 1,
        forall|i: usize| i >= tris.len() ==> #[trigger] bvh.spec_leaves().to_multiset().count(i) == 0,
        forall|j: int, k: int|
            0 <= j < bvh.spec_nodes().len() && bvh.spec_nodes()[j].child_nodes.0 <= k < bvh.spec_nodes()[j].child_nodes.1
                ==> box_within(#[trigger] bvh.spec_nodes()[k].bounds, #[trigger] bvh.spec_nodes()[j].bounds),
        forall|j: int, l: int|
            0 <= j < bvh.spec_nodes().len() && bvh.spec_nodes()[j].child_leaves.0 <= l < bvh.spec_nodes()[j].child_leaves.1
                ==> tris[#[trigger] bvh.spec_leaves()[l] as int].within(#[trigger] bvh.spec_nodes()[j].bounds),
{
    let s = index_seq(tris.len());
    assert forall|a: int, b: int| 0 <= a < s.len() && 0 <= b < s.len() && a != b implies s[a] != s[b] by {
        assert(s[a] == a as usize && s[b] == b as usize);
    }
    assert(s.no_duplicates());
    s.lemma_multiset_has_no_duplicates();
    assert forall|i: usize| i < tris.len() implies #[trigger] bvh.spec_leaves().to_multiset().count(i) == 1 by {
        assert(s[i as int] == i);
        assert(s.contains(i));
    }
    assert forall|i: usize| i >= tris.len() implies #[trigger] bvh.spec_leaves().to_multiset().count(i) == 0 by {
        assert(!s.contains(i));
    }
    assert forall|j: int, k: int|
        0 <= j < bvh.spec_nodes().len() && bvh.spec_nodes()[j].child_nodes.0 <= k < bvh.spec_nodes()[j].child_nodes.1
            implies box_within(#[trigger] bvh.spec_nodes()[k].bounds, #[trigger] bvh.spec_nodes()[j].bounds) by {
        assert(entry_ok(bvh.spec_nodes()[j], bvh.spec_nodes(), bvh.spec_leaves(), tris));
    }
    assert forall|j: int, l: int|
        0 <= j < bvh.spec_nodes().len() && bvh.spec_nodes()[j].child_leaves.0 <= l < bvh.spec_nodes()[j].child_leaves.1
            implies tris[#[trigger] bvh.spec_leaves()[l] as int].within(#[trigger] bvh.spec_nodes()[j].bounds) by {
        assert(entry_ok(bvh.spec_nodes()[j], bvh.spec_nodes(), bvh.spec_leaves(), tris));
    }
}

/// A clustering round on two or more trees strictly reduces their number,
/// to at most half rounded up, and keeps every leaf, so the total leaf count
/// is unchanged.
pub proof fn lemma_clustering_round_shrinks(before: Seq<BvhTree>, after: Seq<BvhTree>)
    requires
        before.len() >= 2,
        after.len() == (before.len() + 1) / 2,
        forest_ms(after) == forest_ms(before),
    ensures
        after.len() < before.len(),
        2 * after.len() <= before.len() + 1,
        leaf_count(after) == leaf_count(before),
{
    assert(forest_seq(after).to_multiset().len() == forest_seq(after).len());
    assert(forest_seq(before).to_multiset().len() == forest_seq(before).len());
}

/// Subdividing two or more trees leaves two non-empty halves, each smaller
/// than the whole, that together hold every leaf.
pub proof fn lemma_subdivision_halves(whole: Seq<BvhTree>, left: Seq<BvhTree>, right: Seq<BvhTree>)
    requires
        whole.len() >= 2,
        left.len() + right.len() == whole.len(),
        left.len() >= 1,
        right.len() >= 1,
        forest_ms(left).add(forest_ms(right)) == forest_ms(whole),
    ensures
        0 < left.len() < whole.len(),
        0 < right.len() < whole.len(),
        leaf_count(left) + leaf_count(right) == leaf_count(whole),
{
    assert(forest_seq(left).to_multiset().len() == forest_seq(left).len());
    assert(forest_seq(right).to_multiset().len() == forest_seq(right).len());
    assert(forest_seq(whole).to_multiset().len() == forest_seq(whole).len());
    assert(forest_ms(left).add(forest_ms(right)).len() == forest_ms(left).len() + forest_ms(right).len());
}

} // verus!
