//! The lazy best-first stream of a kd-tree's entries, nearest first.
use vstd::prelude::*;
use crate::bounds::{lemma_axis_le_distance, lemma_square_distance_3, point_square_distance};
use crate::kd_tree::{
    is_k_nearest, lemma_k_nearest_unique, all_bounded, beats, coord, dist_to, in_neighbors, neighbor_lt, neighbors_valid, tree_wf, KdEntry,
    KdNeighbor, KdTree,
};
use crate::seq_tree::mid_of;
use crate::vec::{Vec3, COORD_MAX, PRODUCT_MAX};

verus! {

/// A pending part of the stream: the entries of `[lo, hi)`, either a whole
/// subtree or (when `is_entry`) the single entry `lo`, with a key that no
/// entry of it is nearer than.
#[derive(Copy, Clone, Debug, PartialEq, Eq)]
pub struct KdIterItem {
    pub key: i64,
    pub is_entry: bool,
    pub lo: usize,
    pub hi: usize,
}

/// `a` is taken before `b`: smaller key; at equal keys subtrees before
/// entries, and entries by slot.
pub open spec fn item_first(a: KdIterItem, b: KdIterItem) -> bool {
    a.key < b.key || (a.key == b.key && !a.is_entry && b.is_entry) || (a.key == b.key && a.is_entry
        && b.is_entry && a.lo < b.lo)
}

pub open spec fn item_ok(es: Seq<KdEntry>, q: Seq<int>, it: KdIterItem) -> bool {
    &&& it.lo <= it.hi <= es.len()
    &&& it.is_entry ==> it.hi == it.lo + 1 && it.key == dist_to(es, q, it.lo as int)
    &&& !it.is_entry ==> tree_wf(es, it.lo as int, it.hi as int) && forall|u: int|
        it.lo <= u < it.hi ==> it.key <= #[trigger] dist_to(es, q, u)
}

pub open spec fn covers(it: KdIterItem, u: int) -> bool {
    it.lo <= u < it.hi
}

pub open spec fn covered(items: Seq<KdIterItem>, u: int) -> bool {
    exists|i: int| 0 <= i < items.len() && #[trigger] covers(items[i], u)
}

/// Termination measure of one item: one for an entry, three per entry plus
/// one for a subtree.
pub open spec fn item_weight(it: KdIterItem) -> nat {
    if it.is_entry {
        1
    } else {
        3 * (it.hi - it.lo) as nat + 1
    }
}

/// Termination measure of the stream state.
pub open spec fn weight(items: Seq<KdIterItem>) -> nat
    decreases items.len(),
{
    if items.len() == 0 {
        0
    } else {
        weight(items.drop_last()) + item_weight(items.last())
    }
}

/// The stream state: `out` is what was yielded, the items cover exactly the
/// rest, without overlap, and everything not yet yielded comes after the
/// last yielded entry.
pub open spec fn iter_inv(es: Seq<KdEntry>, q: Seq<int>, items: Seq<KdIterItem>, out: Seq<KdNeighbor>) -> bool {
    &&& neighbors_valid(es, q, out)
    &&& forall|i: int| 0 <= i < items.len() ==> item_ok(es, q, #[trigger] items[i])
    &&& forall|u: int| 0 <= u < es.len() ==> (in_neighbors(out, u) <==> !covered(items, u))
    &&& forall|i: int, j: int, u: int|
        0 <= i < items.len() && 0 <= j < items.len() && i != j && #[trigger] covers(items[i], u) ==> !#[trigger] covers(
            items[j],
            u,
        )
    &&& forall|u: int| 0 <= u < es.len() && !in_neighbors(out, u) && out.len() > 0 ==> #[trigger] beats(es, q, out.last(), u)
}

proof fn lemma_weight_push(s: Seq<KdIterItem>, x: KdIterItem)
    ensures
        weight(s.push(x)) == weight(s) + item_weight(x),
{
    assert(s.push(x).drop_last() =~= s);
}

proof fn lemma_weight_remove(s: Seq<KdIterItem>, i: int)
    requires
        0 <= i < s.len(),
    ensures
        weight(s) == weight(s.remove(i)) + item_weight(s[i]),
    decreases s.len(),
{
    if i < s.len() - 1 {
        let t = s.drop_last();
        lemma_weight_remove(t, i);
        assert(s.remove(i) =~= t.remove(i).push(s.last()));
        lemma_weight_push(t.remove(i), s.last());
    } else {
        assert(s.remove(i) =~= s.drop_last());
    }
}

proof fn lemma_distance_nonneg(a: Seq<int>, b: Seq<int>)
    ensures
        0 <= point_square_distance(a, b),
{
    lemma_axis_le_distance(a, b, 0);
    let x = a[0] - b[0];
    assert(0 <= x * x) by (nonlinear_arith);
}

/// Removing the item at `best` keeps the others valid and disjoint, and
/// uncovers exactly what it covered.
proof fn lemma_rest(es: Seq<KdEntry>, q: Seq<int>, items0: Seq<KdIterItem>, best: int, out: Seq<KdNeighbor>)
    requires
        iter_inv(es, q, items0, out),
        0 <= best < items0.len(),
    ensures
        forall|i: int| 0 <= i < items0.remove(best).len() ==> item_ok(es, q, #[trigger] items0.remove(best)[i]),
        forall|i: int, j: int, u: int|
            0 <= i < items0.remove(best).len() && 0 <= j < items0.remove(best).len() && i != j
                && #[trigger] covers(items0.remove(best)[i], u) ==> !#[trigger] covers(items0.remove(best)[j], u),
        forall|u: int| #[trigger] covered(items0.remove(best), u) <==> (covered(items0, u) && !covers(items0[best], u)),
{
    let rest = items0.remove(best);
    assert forall|i: int| 0 <= i < rest.len() implies item_ok(es, q, #[trigger] rest[i]) by {
        if i < best {
            assert(rest[i] == items0[i]);
        } else {
            assert(rest[i] == items0[i + 1]);
        }
    }
    assert forall|i: int, j: int, u: int|
        0 <= i < rest.len() && 0 <= j < rest.len() && i != j && #[trigger] covers(rest[i], u)
        implies !#[trigger] covers(rest[j], u) by {
        let i0 = if i < best { i } else { i + 1 };
        let j0 = if j < best { j } else { j + 1 };
        assert(rest[i] == items0[i0]);
        assert(rest[j] == items0[j0]);
    }
    assert forall|u: int| #[trigger] covered(rest, u) <==> (covered(items0, u) && !covers(items0[best], u)) by {
        if covered(rest, u) {
            let i = choose|i: int| 0 <= i < rest.len() && #[trigger] covers(rest[i], u);
            let i0 = if i < best { i } else { i + 1 };
            assert(rest[i] == items0[i0]);
            assert(covers(items0[i0], u));
        }
        if covered(items0, u) && !covers(items0[best], u) {
            let i0 = choose|i: int| 0 <= i < items0.len() && #[trigger] covers(items0[i], u);
            if i0 < best {
                assert(rest[i0] == items0[i0]);
                assert(covers(rest[i0], u));
            } else {
                assert(rest[i0 - 1] == items0[i0]);
                assert(covers(rest[i0 - 1], u));
            }
        }
    }
}

/// Yielding the entry item chosen first keeps the stream state.
proof fn lemma_yield(es: Seq<KdEntry>, q: Seq<int>, items0: Seq<KdIterItem>, best: int, out: Seq<KdNeighbor>, nb: KdNeighbor)
    requires
        iter_inv(es, q, items0, out),
        0 <= best < items0.len(),
        items0[best].is_entry,
        forall|t: int| 0 <= t < items0.len() ==> !item_first(#[trigger] items0[t], items0[best]),
        nb.index == items0[best].lo,
        nb.distance == dist_to(es, q, nb.index as int),
        nb.value == es[nb.index as int].value,
        forall|i: int| 0 <= i < items0.remove(best).len() ==> item_ok(es, q, #[trigger] items0.remove(best)[i]),
        forall|i: int, j: int, u: int|
            0 <= i < items0.remove(best).len() && 0 <= j < items0.remove(best).len() && i != j
                && #[trigger] covers(items0.remove(best)[i], u) ==> !#[trigger] covers(items0.remove(best)[j], u),
        forall|u: int| #[trigger] covered(items0.remove(best), u) <==> (covered(items0, u) && !covers(items0[best], u)),
    ensures
        iter_inv(es, q, items0.remove(best), out.push(nb)),
        !in_neighbors(out, nb.index as int),
{
    let it = items0[best];
    let rest = items0.remove(best);
    let out2 = out.push(nb);
    let v = it.lo as int;
    assert(item_ok(es, q, it));
    assert(covers(it, v));
    assert(covered(items0, v));
    assert(!in_neighbors(out, v));
    assert forall|a: int, b: int| 0 <= a < b < out2.len() implies neighbor_lt(#[trigger] out2[a], #[trigger] out2[b]) by {
        if b == out.len() {
            if out.len() > 0 {
                assert(beats(es, q, out.last(), v));
                if a < out.len() - 1 {
                    assert(neighbor_lt(out[a], out.last()));
                }
            }
        }
    }
    assert(neighbors_valid(es, q, out2));
    assert forall|u: int| 0 <= u < es.len() implies (in_neighbors(out2, u) <==> !covered(rest, u)) by {
        if in_neighbors(out2, u) {
            let t = choose|t: int| 0 <= t < out2.len() && out2[t].index == u;
            if t < out.len() {
                assert(out[t].index == u);
                assert(in_neighbors(out, u));
            }
        } else {
            assert(out2[out.len() as int] == nb);
            assert(u != v);
            if in_neighbors(out, u) {
                let t = choose|t: int| 0 <= t < out.len() && out[t].index == u;
                assert(out2[t] == out[t]);
            }
            assert(covered(items0, u));
        }
    }
    assert forall|u: int| 0 <= u < es.len() && !in_neighbors(out2, u) && out2.len() > 0
        implies #[trigger] beats(es, q, out2.last(), u) by {
        assert(out2.last() == nb);
        assert(out2[out.len() as int] == nb);
        assert(u != v);
        assert(!in_neighbors(out, u)) by {
            if in_neighbors(out, u) {
                let t = choose|t: int| 0 <= t < out.len() && out[t].index == u;
                assert(out2[t] == out[t]);
            }
        }
        assert(covered(items0, u));
        let i0 = choose|i: int| 0 <= i < items0.len() && #[trigger] covers(items0[i], u);
        assert(i0 != best);
        let o = items0[i0];
        assert(item_ok(es, q, o));
        assert(!item_first(o, it));
        if o.is_entry {
            assert(o.lo == u);
        } else {
            assert(o.key <= dist_to(es, q, u));
        }
    }
}

/// The three items that replace a non-empty subtree item are valid.
proof fn lemma_children_ok(es: Seq<KdEntry>, q: Seq<int>, it: KdIterItem, first: KdIterItem, second: KdIterItem, centre: KdIterItem, near_left: bool)
    requires
        item_ok(es, q, it),
        !it.is_entry,
        it.lo < it.hi,
        all_bounded(es),
        q.len() == 3,
        ({
            let m = mid_of(it.lo as int, it.hi as int);
            let c = es[m];
            let ax = c.axis as int;
            &&& near_left == (q[ax] < coord(c, ax))
            &&& centre == KdIterItem { key: centre.key, is_entry: true, lo: m as usize, hi: (m + 1) as usize }
            &&& centre.key == dist_to(es, q, m)
            &&& first.key == 0 && !first.is_entry && !second.is_entry
            &&& second.key == (q[ax] - coord(c, ax)) * (q[ax] - coord(c, ax))
            &&& near_left ==> first.lo == it.lo && first.hi == m && second.lo == m + 1 && second.hi == it.hi
            &&& !near_left ==> second.lo == it.lo && second.hi == m && first.lo == m + 1 && first.hi == it.hi
        }),
    ensures
        item_ok(es, q, first),
        item_ok(es, q, second),
        item_ok(es, q, centre),
{
    let m = mid_of(it.lo as int, it.hi as int);
    let c = es[m];
    let ax = c.axis as int;
    assert(tree_wf(es, it.lo as int, it.hi as int));
    assert forall|u: int| first.lo <= u < first.hi implies first.key <= #[trigger] dist_to(es, q, u) by {
        lemma_distance_nonneg(q, es[u].position@);
    }
    assert forall|u: int| second.lo <= u < second.hi implies second.key <= #[trigger] dist_to(es, q, u) by {
        let pu = es[u].position@;
        let pa = pu[ax];
        let ca = coord(c, ax);
        let qa = q[ax];
        lemma_axis_le_distance(q, pu, ax);
        if near_left {
            assert(ca <= coord(es[u], ax));
        } else {
            assert(coord(es[u], ax) <= ca);
        }
        let e = qa - ca;
        let g = qa - pa;
        assert(e * e <= g * g) by (nonlinear_arith)
            requires
                (0 <= -e && -e <= -g) || (0 <= e && e <= g),
        ;
    }
}

/// Replacing the subtree item at `best` by three items that split its range
/// keeps the stream state.
proof fn lemma_expand(es: Seq<KdEntry>, q: Seq<int>, items0: Seq<KdIterItem>, best: int, out: Seq<KdNeighbor>, first: KdIterItem, second: KdIterItem, centre: KdIterItem)
    requires
        iter_inv(es, q, items0, out),
        0 <= best < items0.len(),
        item_ok(es, q, first),
        item_ok(es, q, second),
        item_ok(es, q, centre),
        forall|u: int| #[trigger] covers(items0[best], u) <==> (covers(first, u) || covers(second, u) || covers(centre, u)),
        forall|u: int| !(#[trigger] covers(first, u) && covers(second, u)),
        forall|u: int| !(#[trigger] covers(first, u) && covers(centre, u)),
        forall|u: int| !(#[trigger] covers(second, u) && covers(centre, u)),
        forall|i: int| 0 <= i < items0.remove(best).len() ==> item_ok(es, q, #[trigger] items0.remove(best)[i]),
        forall|i: int, j: int, u: int|
            0 <= i < items0.remove(best).len() && 0 <= j < items0.remove(best).len() && i != j
                && #[trigger] covers(items0.remove(best)[i], u) ==> !#[trigger] covers(items0.remove(best)[j], u),
        forall|u: int| #[trigger] covered(items0.remove(best), u) <==> (covered(items0, u) && !covers(items0[best], u)),
    ensures
        iter_inv(es, q, items0.remove(best).push(first).push(second).push(centre), out),
{
    let rest = items0.remove(best);
    let items1 = rest.push(first).push(second).push(centre);
    let b = rest.len() as int;
    assert(items1[b] == first && items1[b + 1] == second && items1[b + 2] == centre);
    assert forall|i: int| 0 <= i < items1.len() implies item_ok(es, q, #[trigger] items1[i]) by {
        if i < b {
            assert(items1[i] == rest[i]);
        }
    }
    assert forall|u: int| #[trigger] covered(items1, u) <==> covered(items0, u) by {
        if covered(items1, u) {
            let i = choose|i: int| 0 <= i < items1.len() && #[trigger] covers(items1[i], u);
            if i < b {
                assert(items1[i] == rest[i]);
                assert(covered(rest, u));
            } else {
                assert(covers(items0[best], u));
            }
        }
        if covered(items0, u) {
            if covers(items0[best], u) {
                if covers(first, u) {
                    assert(covers(items1[b], u));
                } else if covers(second, u) {
                    assert(covers(items1[b + 1], u));
                } else {
                    assert(covers(items1[b + 2], u));
                }
            } else {
                assert(covered(rest, u));
                let i = choose|i: int| 0 <= i < rest.len() && #[trigger] covers(rest[i], u);
                assert(items1[i] == rest[i]);
                assert(covers(items1[i], u));
            }
        }
    }
    assert forall|i: int, j: int, u: int|
        0 <= i < items1.len() && 0 <= j < items1.len() && i != j && #[trigger] covers(items1[i], u)
        implies !#[trigger] covers(items1[j], u) by {
        if i < b && j < b {
            assert(items1[i] == rest[i]);
            assert(items1[j] == rest[j]);
        } else if i < b {
            assert(items1[i] == rest[i]);
            assert(covered(rest, u));
        } else if j < b {
            assert(items1[j] == rest[j]);
            if covers(items1[j], u) {
                assert(covered(rest, u));
            }
        }
    }
}

/// The stream never yields more entries than the tree holds.
proof fn lemma_yielded_len(es: Seq<KdEntry>, q: Seq<int>, out: Seq<KdNeighbor>)
    requires
        neighbors_valid(es, q, out),
    ensures
        out.len() <= es.len(),
{
    let idx = Set::new(|u: int| in_neighbors(out, u));
    let m = Seq::new(out.len(), |t: int| out[t].index as int);
    assert forall|a: int, b: int| 0 <= a < m.len() && 0 <= b < m.len() && a != b implies m[a] != m[b] by {
        if a < b {
            assert(neighbor_lt(out[a], out[b]));
        } else {
            assert(neighbor_lt(out[b], out[a]));
        }
    }
    assert(m.no_duplicates());
    m.unique_seq_to_set();
    assert forall|u: int| m.to_set().contains(u) implies vstd::set_lib::set_int_range(0, es.len() as int).contains(u) by {
        let t = choose|t: int| 0 <= t < m.len() && m[t] == u;
    }
    vstd::set_lib::lemma_int_range(0, es.len() as int);
    vstd::set_lib::lemma_len_subset(m.to_set(), vstd::set_lib::set_int_range(0, es.len() as int));
}

/// A lazy stream of the entries of a tree, nearest first.
pub struct KdIter {
    query: Vec3,
    items: Vec<KdIterItem>,
    out: Ghost<Seq<KdNeighbor>>,
}

impl KdIter {
    pub closed spec fn yielded(&self) -> Seq<KdNeighbor> {
        self.out@
    }

    pub closed spec fn query(&self) -> Vec3 {
        self.query
    }

    pub closed spec fn inv(&self, tree: KdTree) -> bool {
        &&& iter_inv(tree@, self.query@, self.items@, self.out@)
        &&& tree.wf()
        &&& self.query.bounded()
    }

    /// The next entry, nearest first (equally near entries by slot), or
    /// `None` once every entry has been yielded.
    pub fn next(&mut self, tree: &KdTree) -> (r: Option<KdNeighbor>)
        requires
            old(self).inv(*tree),
        ensures
            final(self).inv(*tree),
            final(self).query() == old(self).query(),
            r is None ==> final(self).yielded() == old(self).yielded(),
            r is None <==> forall|u: int| 0 <= u < tree@.len() ==> in_neighbors(old(self).yielded(), u),
            r matches Some(n) ==> {
                &&& final(self).yielded() == old(self).yielded().push(n)
                &&& n.index < tree@.len()
                &&& n.distance == dist_to(tree@, old(self).query()@, n.index as int)
                &&& n.value == tree@[n.index as int].value
                &&& !in_neighbors(old(self).yielded(), n.index as int)
                &&& forall|u: int|
                    0 <= u < tree@.len() && !in_neighbors(final(self).yielded(), u) ==> #[trigger] beats(
                        tree@,
                        old(self).query()@,
                        n,
                        u,
                    )
            },
    {
        let es = tree.as_slice();
        let q = self.query;
        loop
            invariant
                self.inv(*tree),
                self.query == q,
                q == old(self).query,
                es@ == tree@,
                self.out@ == old(self).out@,
            decreases weight(self.items@),
        {
            let ghost es_s = es@;
            let ghost out = self.out@;
            let ghost items0 = self.items@;
            let n_items = self.items.len();
            if n_items == 0 {
                proof {
                    assert forall|u: int| 0 <= u < tree@.len() implies in_neighbors(old(self).yielded(), u) by {
                        assert(!covered(items0, u));
                    }
                }
                return None;
            }
            let mut best: usize = 0;
            let mut j: usize = 1;
            while j < n_items
                invariant
                    best < j <= n_items == self.items@.len(),
                    self.items@ == items0,
                    forall|t: int| 0 <= t < j ==> !item_first(#[trigger] items0[t], items0[best as int]),
                decreases n_items - j,
            {
                let a = self.items[j];
                let b = self.items[best];
                if a.key < b.key || (a.key == b.key && !a.is_entry && b.is_entry) || (a.key == b.key && a.is_entry
                    && b.is_entry && a.lo < b.lo) {
                    best = j;
                }
                j = j + 1;
            }
            let it = self.items.remove(best);
            let ghost rest = self.items@;
            proof {
                lemma_weight_remove(items0, best as int);
                assert(rest =~= items0.remove(best as int));
                lemma_rest(es_s, q@, items0, best as int, out);
            }
            if it.is_entry {
                let v = it.lo;
                let p = es[v].position;
                let d = q.square_distance(p);
                proof {
                    lemma_square_distance_3(q@, p@);
                }
                let nb = KdNeighbor { distance: d, index: v, value: es[v].value };
                self.out = Ghost(out.push(nb));
                proof {
                    lemma_yield(es_s, q@, items0, best as int, out, nb);
                    let out2 = out.push(nb);
                    assert(out2.last() == nb);
                    assert(out2[out.len() as int] == nb);
                    assert(out == old(self).yielded());
                    assert(nb.index < tree@.len());
                    if forall|u: int| 0 <= u < tree@.len() ==> in_neighbors(old(self).yielded(), u) {
                        assert(in_neighbors(old(self).yielded(), nb.index as int));
                    }
                }
                return Some(nb);
            } else {
                let lo = it.lo;
                let hi = it.hi;
                if lo < hi {
                    let mid = lo + (hi - lo) / 2;
                    let c = es[mid];
                    let axis = c.axis;
                    let qa = q.c[axis];
                    let ca = c.position.c[axis];
                    let near_left = qa < ca;
                    let (f_lo, f_hi, s_lo, s_hi) = if near_left {
                        (lo, mid, mid + 1, hi)
                    } else {
                        (mid + 1, hi, lo, mid)
                    };
                    assert(tree_wf(es_s, lo as int, hi as int));
                    assert(mid == mid_of(lo as int, hi as int));
                    assert(all_bounded(es_s));
                    let dq = qa - ca;
                    assert(0 <= dq * dq <= 4 * PRODUCT_MAX) by (nonlinear_arith)
                        requires
                            -2 * COORD_MAX <= dq <= 2 * COORD_MAX,
                            COORD_MAX == 1048576,
                            PRODUCT_MAX == 17592186044416,
                    ;
                    let plane = dq * dq;
                    let p = c.position;
                    let d = q.square_distance(p);
                    proof {
                        lemma_square_distance_3(q@, p@);
                    }
                    let first = KdIterItem { key: 0, is_entry: false, lo: f_lo, hi: f_hi };
                    let second = KdIterItem { key: plane, is_entry: false, lo: s_lo, hi: s_hi };
                    let centre = KdIterItem { key: d, is_entry: true, lo: mid, hi: mid + 1 };
                    proof {
                        lemma_children_ok(es_s, q@, it, first, second, centre, near_left);
                    }
                    self.items.push(first);
                    self.items.push(second);
                    self.items.push(centre);
                    proof {
                        assert(self.items@ =~= rest.push(first).push(second).push(centre));
                        lemma_weight_push(rest, first);
                        lemma_weight_push(rest.push(first), second);
                        lemma_weight_push(rest.push(first).push(second), centre);
                        lemma_expand(es_s, q@, items0, best as int, out, first, second, centre);
                    }
                }
            }
        }
    }

    /// Everything that is left, nearest first.
    pub fn into_vec(self, tree: &KdTree) -> (r: Vec<KdNeighbor>)
        requires
            self.inv(*tree),
        ensures
            neighbors_valid(tree@, self.query()@, self.yielded() + r@),
            forall|u: int| 0 <= u < tree@.len() ==> in_neighbors(self.yielded() + r@, u),
    {
        let mut it = self;
        let ghost start = it.out@;
        let mut r: Vec<KdNeighbor> = Vec::new();
        loop
            invariant
                it.inv(*tree),
                it.query == self.query,
                it.out@ == start + r@,
            ensures
                it.out@ == start + r@,
                neighbors_valid(tree@, self.query@, it.out@),
                forall|u: int| 0 <= u < tree@.len() ==> in_neighbors(it.out@, u),
            decreases tree@.len() - it.out@.len(),
        {
            proof {
                lemma_yielded_len(tree@, self.query@, it.out@);
            }
            match it.next(tree) {
                Some(n) => {
                    r.push(n);
                    assert(it.out@ =~= start + r@);
                    proof {
                        lemma_yielded_len(tree@, self.query@, it.out@);
                    }
                },
                None => {
                    break;
                },
            }
        }
        r
    }
}

impl KdTree {
    /// A lazy stream of all entries, nearest to `query` first.
    pub fn nearest_iter(&self, query: Vec3) -> (r: KdIter)
        requires
            self.wf(),
            query.bounded(),
        ensures
            r.inv(*self),
            r.query() == query,
            r.yielded() == Seq::<KdNeighbor>::empty(),
    {
        let n = self.as_slice().len();
        let root = KdIterItem { key: 0, is_entry: false, lo: 0, hi: n };
        let mut items: Vec<KdIterItem> = Vec::new();
        items.push(root);
        let r = KdIter { query, items, out: Ghost(Seq::empty()) };
        proof {
            assert forall|u: int| 0 <= u < n implies 0 <= #[trigger] dist_to(self@, query@, u) by {
                lemma_distance_nonneg(query@, self@[u].position@);
            }
            assert(item_ok(self@, query@, root));
            assert forall|u: int| 0 <= u < self@.len() implies (in_neighbors(Seq::<KdNeighbor>::empty(), u) <==> !covered(items@, u)) by {
                assert(covers(items@[0], u));
            }
        }
        r
    }
}

/// The stream consumed fully holds every entry exactly once, in
/// non-decreasing order of distance, and each of its prefixes is the answer
/// of the bounded `k`-nearest search for that length.
pub proof fn lemma_stream_prefix_is_nearest(tree: KdTree, q: Vec3, stream: Seq<KdNeighbor>, k: nat, found: Seq<KdNeighbor>)
    requires
        neighbors_valid(tree@, q@, stream),
        forall|u: int| 0 <= u < tree@.len() ==> in_neighbors(stream, u),
        is_k_nearest(tree@, q@, k as int, found),
    ensures
        forall|i: int, j: int| 0 <= i <= j < stream.len() ==> stream[i].distance <= stream[j].distance,
        forall|i: int, j: int| 0 <= i < j < stream.len() ==> stream[i].index != stream[j].index,
        forall|i: int| 0 <= i < stream.len() ==> #[trigger] stream[i].index < tree@.len(),
        found == stream.take(if k <= stream.len() { k as int } else { stream.len() as int }),
{
    let m: int = if k <= stream.len() { k as int } else { stream.len() as int };
    let p = stream.take(m);
    assert forall|i: int, j: int| 0 <= i <= j < stream.len() implies stream[i].distance <= stream[j].distance by {
        if i < j {
            assert(neighbor_lt(stream[i], stream[j]));
        }
    }
    assert forall|i: int, j: int| 0 <= i < j < stream.len() implies stream[i].index != stream[j].index by {
        assert(neighbor_lt(stream[i], stream[j]));
    }
    assert forall|a: int, b: int| 0 <= a < b < p.len() implies neighbor_lt(#[trigger] p[a], #[trigger] p[b]) by {
        assert(p[a] == stream[a] && p[b] == stream[b]);
    }
    assert forall|j: int| 0 <= j < p.len() implies {
        &&& (#[trigger] p[j]).index < tree@.len()
        &&& p[j].distance == dist_to(tree@, q@, p[j].index as int)
        &&& p[j].value == tree@[p[j].index as int].value
    } by {
        assert(p[j] == stream[j]);
    }
    assert(neighbors_valid(tree@, q@, p));
    assert forall|v: int| 0 <= v < tree@.len() && !in_neighbors(p, v) implies p.len() == k
        && (k == 0 || #[trigger] beats(tree@, q@, p[k - 1], v)) by {
        assert(in_neighbors(stream, v));
        let t = choose|t: int| 0 <= t < stream.len() && stream[t].index == v;
        if t < m {
            assert(p[t] == stream[t]);
            assert(in_neighbors(p, v));
        }
        assert(t >= m);
        if k > 0 {
            assert(p[k - 1] == stream[k - 1]);
            if k - 1 < t {
                assert(neighbor_lt(stream[k - 1], stream[t]));
            }
        }
    }
    if p.len() < k {
        assert forall|v: int| 0 <= v < tree@.len() implies in_neighbors(p, v) by {
            assert(p =~= stream);
        }
    }
    assert(is_k_nearest(tree@, q@, k as int, p));
    lemma_k_nearest_unique(tree@, q@, k as int, found, p);
}

} // verus!
