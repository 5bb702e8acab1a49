//! A kd-tree over integer points, laid out implicitly in one vector: the
//! entry at the midpoint of a range is that range's node, and the two halves
//! on either side are its subtrees.
use vstd::prelude::*;
use crate::bounds::{
    lemma_axis_le_distance, lemma_box_distance_le, lemma_square_distance_3,
    point_square_distance, Bounds,
};
use crate::seq_tree::mid_of;
use crate::vec::{Vec3, COORD_MAX, PRODUCT_MAX};

verus! {

broadcast use vstd::seq_lib::group_to_multiset_ensures;

/// One stored point with its payload, split axis and subtree box.
#[derive(Copy, Clone, Debug)]
pub struct KdEntry {
    pub axis: usize,
    pub bounds: Bounds,
    pub position: Vec3,
    pub value: usize,
}

/// What a point set consists of: position and payload of each entry.
pub open spec fn entry_key(e: KdEntry) -> (Seq<int>, usize) {
    (e.position@, e.value)
}

pub open spec fn entry_keys(es: Seq<KdEntry>) -> Seq<(Seq<int>, usize)> {
    Seq::new(es.len(), |i: int| entry_key(es[i]))
}

/// Coordinate of entry `e` along `axis`.
pub open spec fn coord(e: KdEntry, axis: int) -> int {
    e.position@[axis]
}

pub open spec fn all_bounded(es: Seq<KdEntry>) -> bool {
    forall|i: int| 0 <= i < es.len() ==> (#[trigger] es[i]).position.bounded()
}

/// The key `x` occurs in `s` within `[lo, hi)`.
pub open spec fn occurs_in(x: (Seq<int>, usize), s: Seq<(Seq<int>, usize)>, lo: int, hi: int) -> bool {
    exists|j: int| lo <= j < hi && s[j] == x
}

/// `t` is `s` with the entries of `[lo, hi)` rearranged (and possibly their
/// axis and box changed).
pub open spec fn permuted_within(s: Seq<KdEntry>, t: Seq<KdEntry>, lo: int, hi: int) -> bool {
    &&& t.len() == s.len()
    &&& entry_keys(t).to_multiset() == entry_keys(s).to_multiset()
    &&& forall|i: int| 0 <= i < s.len() && !(lo <= i < hi) ==> #[trigger] t[i] == s[i]
    &&& forall|i: int| lo <= i < hi ==> occurs_in(#[trigger] entry_key(t[i]), entry_keys(s), lo, hi)
    &&& forall|j: int| lo <= j < hi ==> occurs_in(#[trigger] entry_key(s[j]), entry_keys(t), lo, hi)
}

/// Some entry of `[lo, hi)` has coordinate `v` along `a`.
pub open spec fn attains(es: Seq<KdEntry>, lo: int, hi: int, a: int, v: int) -> bool {
    exists|j: int| lo <= j < hi && coord(es[j], a) == v
}

/// `b` is the smallest box holding the entries of `[lo, hi)`: each of its
/// faces touches one of them (together with `contains` below).
pub open spec fn box_tight(b: Bounds, es: Seq<KdEntry>, lo: int, hi: int) -> bool {
    forall|a: int|
        0 <= a < 3 ==> attains(es, lo, hi, a, #[trigger] b.min.c@[a] as int) && attains(es, lo, hi, a, b.max.c@[a] as int)
}

/// Length of box `b` along axis `a`.
pub open spec fn extent(b: Bounds, a: int) -> int {
    b.max.c@[a] - b.min.c@[a]
}

/// The node of the non-empty range `[lo, hi)` has the smallest box holding
/// the range and splits on that box's axis of largest extent.
#[verifier::opaque]
pub open spec fn node_shape(es: Seq<KdEntry>, lo: int, hi: int) -> bool {
    let c = es[mid_of(lo, hi)];
    &&& box_tight(c.bounds, es, lo, hi)
    &&& forall|a: int| 0 <= a < 3 ==> #[trigger] extent(c.bounds, a) <= extent(c.bounds, c.axis as int)
}

/// The kd-tree order over the entries of `[lo, hi)`: each node splits its
/// range on the axis of largest extent of its box, which is the smallest box
/// holding the range.
pub open spec fn tree_wf(es: Seq<KdEntry>, lo: int, hi: int) -> bool
    decreases hi - lo,
{
    if lo >= hi {
        true
    } else {
        let m = mid_of(lo, hi);
        let c = es[m];
        &&& c.axis < 3
        &&& c.bounds.wf()
        &&& forall|i: int| lo <= i < m ==> coord(#[trigger] es[i], c.axis as int) <= coord(c, c.axis as int)
        &&& forall|i: int| m < i < hi ==> coord(c, c.axis as int) <= coord(#[trigger] es[i], c.axis as int)
        &&& forall|i: int| lo <= i < hi ==> c.bounds.contains((#[trigger] es[i]).position@)
        &&& node_shape(es, lo, hi)
        &&& tree_wf(es, lo, m)
        &&& tree_wf(es, m + 1, hi)
    }
}

proof fn lemma_permuted_refl(s: Seq<KdEntry>, lo: int, hi: int)
    requires
        0 <= lo,
        hi <= s.len(),
    ensures
        permuted_within(s, s, lo, hi),
{
    assert forall|i: int| lo <= i < hi implies occurs_in(#[trigger] entry_key(s[i]), entry_keys(s), lo, hi) by {
        assert(entry_keys(s)[i] == entry_key(s[i]));
    }
    assert forall|j: int| lo <= j < hi implies occurs_in(#[trigger] entry_key(s[j]), entry_keys(s), lo, hi) by {
        assert(entry_keys(s)[j] == entry_key(s[j]));
    }
}

proof fn lemma_update_multiset<A>(s: Seq<A>, i: int, v: A)
    requires
        0 <= i < s.len(),
    ensures
        s.update(i, v).to_multiset() =~= s.to_multiset().remove(s[i]).insert(v),
{
    let t = s.update(i, v);
    assert(t.remove(i) =~= s.remove(i));
    assert(t[i] == v);
    assert(t.to_multiset().contains(v));
    assert(s.to_multiset().contains(s[i]));
}

proof fn lemma_swap_multiset<A>(s: Seq<A>, i: int, j: int)
    requires
        0 <= i < s.len(),
        0 <= j < s.len(),
    ensures
        s.update(i, s[j]).update(j, s[i]).to_multiset() =~= s.to_multiset(),
{
    let t = s.update(i, s[j]);
    lemma_update_multiset(s, i, s[j]);
    lemma_update_multiset(t, j, s[i]);
    if i != j {
        assert(t[j] == s[j]);
    }
    assert(s.to_multiset().contains(s[i]));
}

/// Swaps two entries of `[lo, hi)`.
fn swap_entries(es: &mut Vec<KdEntry>, i: usize, j: usize, Ghost(lo): Ghost<int>, Ghost(hi): Ghost<int>, Ghost(orig): Ghost<Seq<KdEntry>>)
    requires
        0 <= lo <= i < hi,
        lo <= j < hi,
        hi <= old(es)@.len(),
        permuted_within(orig, old(es)@, lo, hi),
    ensures
        final(es)@ == old(es)@.update(i as int, old(es)@[j as int]).update(j as int, old(es)@[i as int]),
        permuted_within(orig, final(es)@, lo, hi),
        all_bounded(old(es)@) ==> all_bounded(final(es)@),
        final(es)@.subrange(lo, hi).to_multiset() == old(es)@.subrange(lo, hi).to_multiset(),
{
    let ghost s = es@;
    let a = es[i];
    let b = es[j];
    es.set(i, b);
    es.set(j, a);
    proof {
        let t = es@;
        assert(entry_keys(t) =~= entry_keys(s).update(i as int, entry_keys(s)[j as int]).update(j as int, entry_keys(s)[i as int]));
        lemma_swap_multiset(entry_keys(s), i as int, j as int);
        let sub = s.subrange(lo, hi);
        assert(t.subrange(lo, hi) =~= sub.update(i - lo, sub[j - lo]).update(j - lo, sub[i - lo]));
        lemma_swap_multiset(sub, i - lo, j - lo);
        assert forall|k: int| lo <= k < hi implies occurs_in(#[trigger] entry_key(t[k]), entry_keys(orig), lo, hi) by {
            if k == i {
                assert(entry_key(t[k]) == entry_key(s[j as int]));
            } else if k == j {
                assert(entry_key(t[k]) == entry_key(s[i as int]));
            } else {
                assert(t[k] == s[k]);
                assert(occurs_in(entry_key(s[k]), entry_keys(orig), lo, hi));
            }
        }
        assert forall|p: int| lo <= p < hi implies occurs_in(#[trigger] entry_key(orig[p]), entry_keys(t), lo, hi) by {
            assert(occurs_in(entry_key(orig[p]), entry_keys(s), lo, hi));
            let k = choose|k: int| lo <= k < hi && entry_keys(s)[k] == entry_key(orig[p]);
            if k == i {
                assert(entry_keys(t)[j as int] == entry_key(orig[p]));
            } else if k == j {
                assert(entry_keys(t)[i as int] == entry_key(orig[p]));
            } else {
                assert(entry_keys(t)[k] == entry_key(orig[p]));
            }
        }
    }
}

/// Along `axis`, every entry of `[a_lo, a_hi)` is at most every entry of
/// `[b_lo, b_hi)`.
pub open spec fn ordered_ranges(es: Seq<KdEntry>, axis: int, a_lo: int, a_hi: int, b_lo: int, b_hi: int) -> bool {
    forall|a: int, b: int|
        a_lo <= a < a_hi && b_lo <= b < b_hi ==> #[trigger] coord(es[a], axis) <= #[trigger] coord(es[b], axis)
}

proof fn lemma_swap_keeps_order(s: Seq<KdEntry>, i: int, j: int, axis: int, lo: int, l: int, r: int, hi: int)
    requires
        0 <= lo <= l <= i < r <= hi <= s.len(),
        l <= j < r,
        ordered_ranges(s, axis, lo, l, l, hi),
        ordered_ranges(s, axis, l, r, r, hi),
    ensures
        ordered_ranges(s.update(i, s[j]).update(j, s[i]), axis, lo, l, l, hi),
        ordered_ranges(s.update(i, s[j]).update(j, s[i]), axis, l, r, r, hi),
{
    let t = s.update(i, s[j]).update(j, s[i]);
    assert forall|a: int, b: int| lo <= a < l && l <= b < hi implies #[trigger] coord(t[a], axis) <= #[trigger] coord(t[b], axis) by {
        if b == i {
            assert(coord(s[a], axis) <= coord(s[j], axis));
        } else if b == j {
            assert(coord(s[a], axis) <= coord(s[i], axis));
        } else {
            assert(coord(s[a], axis) <= coord(s[b], axis));
        }
    }
    assert forall|a: int, b: int| l <= a < r && r <= b < hi implies #[trigger] coord(t[a], axis) <= #[trigger] coord(t[b], axis) by {
        if a == i {
            assert(coord(s[j], axis) <= coord(s[b], axis));
        } else if a == j {
            assert(coord(s[i], axis) <= coord(s[b], axis));
        } else {
            assert(coord(s[a], axis) <= coord(s[b], axis));
        }
    }
}

/// Rearranges `[lo, hi)` so that the entry at `mid` is the one that belongs
/// there in order along `axis`, with no larger coordinate before it and no
/// smaller one after it.
fn select(es: &mut Vec<KdEntry>, lo: usize, hi: usize, mid: usize, axis: usize)
    requires
        lo <= mid < hi <= old(es)@.len(),
        axis < 3,
        all_bounded(old(es)@),
    ensures
        permuted_within(old(es)@, final(es)@, lo as int, hi as int),
        final(es)@.subrange(lo as int, hi as int).to_multiset() == old(es)@.subrange(lo as int, hi as int).to_multiset(),
        all_bounded(final(es)@),
        forall|i: int| lo <= i < mid ==> coord(#[trigger] final(es)@[i], axis as int) <= coord(final(es)@[mid as int], axis as int),
        forall|i: int| mid < i < hi ==> coord(final(es)@[mid as int], axis as int) <= coord(#[trigger] final(es)@[i], axis as int),
{
    let ghost orig = es@;
    proof {
        lemma_permuted_refl(orig, lo as int, hi as int);
    }
    let ghost ax = axis as int;
    let mut l = lo;
    let mut r = hi;
    loop
        invariant
            lo <= l <= mid < r <= hi <= es@.len(),
            axis < 3,
            ax == axis,
            permuted_within(orig, es@, lo as int, hi as int),
                es@.subrange(lo as int, hi as int).to_multiset() == orig.subrange(lo as int, hi as int).to_multiset(),
            all_bounded(es@),
            ordered_ranges(es@, ax, lo as int, l as int, l as int, hi as int),
            ordered_ranges(es@, ax, l as int, r as int, r as int, hi as int),
        ensures
            permuted_within(orig, es@, lo as int, hi as int),
                es@.subrange(lo as int, hi as int).to_multiset() == orig.subrange(lo as int, hi as int).to_multiset(),
            all_bounded(es@),
            forall|i: int| lo <= i < mid ==> coord(#[trigger] es@[i], ax) <= coord(es@[mid as int], ax),
            forall|i: int| mid < i < hi ==> coord(es@[mid as int], ax) <= coord(#[trigger] es@[i], ax),
        decreases r - l,
    {
        if r - l <= 1 {
            assert forall|i: int| lo <= i < mid implies coord(#[trigger] es@[i], ax) <= coord(es@[mid as int], ax) by {
                assert(coord(es@[i], ax) <= coord(es@[mid as int], ax));
            }
            assert forall|i: int| mid < i < hi implies coord(es@[mid as int], ax) <= coord(#[trigger] es@[i], ax) by {
                assert(coord(es@[mid as int], ax) <= coord(es@[i], ax));
            }
            break;
        }
        let pivot = es[r - 1].position.c[axis];
        let mut store = l;
        let mut i = l;
        while i < r - 1
            invariant
                lo <= l <= store <= i <= r - 1,
                l <= mid < r <= hi <= es@.len(),
                axis < 3,
                ax == axis,
                permuted_within(orig, es@, lo as int, hi as int),
                es@.subrange(lo as int, hi as int).to_multiset() == orig.subrange(lo as int, hi as int).to_multiset(),
                all_bounded(es@),
                ordered_ranges(es@, ax, lo as int, l as int, l as int, hi as int),
                ordered_ranges(es@, ax, l as int, r as int, r as int, hi as int),
                coord(es@[r - 1], ax) == pivot,
                forall|a: int| l <= a < store ==> coord(#[trigger] es@[a], ax) < pivot,
                forall|a: int| store <= a < i ==> coord(#[trigger] es@[a], ax) >= pivot,
            decreases r - 1 - i,
        {
            if es[i].position.c[axis] < pivot {
                let ghost s = es@;
                proof {
                    lemma_swap_keeps_order(s, i as int, store as int, ax, lo as int, l as int, r as int, hi as int);
                }
                swap_entries(es, i, store, Ghost(lo as int), Ghost(hi as int), Ghost(orig));
                assert forall|a: int| l <= a < store + 1 implies coord(#[trigger] es@[a], ax) < pivot by {
                    if a == store {
                        assert(es@[a] == s[i as int]);
                    } else {
                        assert(es@[a] == s[a]);
                    }
                }
                assert forall|a: int| store + 1 <= a < i + 1 implies coord(#[trigger] es@[a], ax) >= pivot by {
                    if a == i {
                        assert(es@[a] == s[store as int]);
                    } else {
                        assert(es@[a] == s[a]);
                    }
                }
                store = store + 1;
            }
            i = i + 1;
        }
        let ghost s = es@;
        proof {
            lemma_swap_keeps_order(s, store as int, (r - 1) as int, ax, lo as int, l as int, r as int, hi as int);
        }
        swap_entries(es, store, r - 1, Ghost(lo as int), Ghost(hi as int), Ghost(orig));
        assert(coord(es@[store as int], ax) == pivot);
        assert forall|a: int| l <= a < store implies coord(#[trigger] es@[a], ax) < pivot by {
            assert(es@[a] == s[a]);
        }
        assert forall|a: int| store < a < r implies coord(#[trigger] es@[a], ax) >= pivot by {
            if a == r - 1 {
                assert(es@[a] == s[store as int]);
                if store < r - 1 {
                    assert(coord(s[store as int], ax) >= pivot);
                }
            } else {
                assert(es@[a] == s[a]);
            }
        }
        if store == mid {
            assert forall|i: int| lo <= i < mid implies coord(#[trigger] es@[i], ax) <= coord(es@[mid as int], ax) by {
                if i < l {
                    assert(coord(es@[i], ax) <= coord(es@[mid as int], ax));
                }
            }
            assert forall|i: int| mid < i < hi implies coord(es@[mid as int], ax) <= coord(#[trigger] es@[i], ax) by {
                if i >= r {
                    assert(coord(es@[mid as int], ax) <= coord(es@[i], ax));
                }
            }
            break;
        } else if mid < store {
            assert forall|a: int, b: int| l <= a < store && store <= b < hi implies #[trigger] coord(es@[a], ax) <= #[trigger] coord(es@[b], ax) by {
                if b >= r {
                    assert(coord(es@[a], ax) <= coord(es@[b], ax));
                } else {
                    assert(coord(es@[b], ax) >= pivot);
                }
            }
            r = store;
        } else {
            assert forall|a: int, b: int| lo <= a < store + 1 && store + 1 <= b < hi implies #[trigger] coord(es@[a], ax) <= #[trigger] coord(es@[b], ax) by {
                if a < l {
                    assert(coord(es@[a], ax) <= coord(es@[b], ax));
                } else if b >= r {
                    assert(coord(es@[a], ax) <= coord(es@[b], ax));
                } else {
                    assert(coord(es@[a], ax) <= pivot);
                    assert(coord(es@[b], ax) >= pivot);
                }
            }
            l = store + 1;
        }
    }
}

proof fn lemma_permuted_widen(s: Seq<KdEntry>, t: Seq<KdEntry>, a: int, b: int, lo: int, hi: int)
    requires
        permuted_within(s, t, a, b),
        lo <= a,
        b <= hi,
        0 <= lo,
        hi <= s.len(),
    ensures
        permuted_within(s, t, lo, hi),
{
    assert forall|i: int| lo <= i < hi implies occurs_in(#[trigger] entry_key(t[i]), entry_keys(s), lo, hi) by {
        if a <= i < b {
            let j = choose|j: int| a <= j < b && entry_keys(s)[j] == entry_key(t[i]);
        } else {
            assert(t[i] == s[i]);
            assert(entry_keys(s)[i] == entry_key(s[i]));
        }
    }
    assert forall|p: int| lo <= p < hi implies occurs_in(#[trigger] entry_key(s[p]), entry_keys(t), lo, hi) by {
        if a <= p < b {
            let j = choose|j: int| a <= j < b && entry_keys(t)[j] == entry_key(s[p]);
        } else {
            assert(t[p] == s[p]);
            assert(entry_keys(t)[p] == entry_key(t[p]));
        }
    }
}

proof fn lemma_permuted_trans(s: Seq<KdEntry>, t: Seq<KdEntry>, u: Seq<KdEntry>, lo: int, hi: int)
    requires
        permuted_within(s, t, lo, hi),
        permuted_within(t, u, lo, hi),
        0 <= lo,
        hi <= s.len(),
    ensures
        permuted_within(s, u, lo, hi),
{
    assert forall|i: int| lo <= i < hi implies occurs_in(#[trigger] entry_key(u[i]), entry_keys(s), lo, hi) by {
        let j = choose|j: int| lo <= j < hi && entry_keys(t)[j] == entry_key(u[i]);
        assert(entry_keys(t)[j] == entry_key(t[j]));
        assert(occurs_in(entry_key(t[j]), entry_keys(s), lo, hi));
    }
    assert forall|p: int| lo <= p < hi implies occurs_in(#[trigger] entry_key(s[p]), entry_keys(u), lo, hi) by {
        let j = choose|j: int| lo <= j < hi && entry_keys(t)[j] == entry_key(s[p]);
        assert(entry_keys(t)[j] == entry_key(t[j]));
        assert(occurs_in(entry_key(t[j]), entry_keys(u), lo, hi));
    }
}

proof fn lemma_tree_wf_frame(s: Seq<KdEntry>, t: Seq<KdEntry>, lo: int, hi: int)
    requires
        tree_wf(s, lo, hi),
        0 <= lo,
        hi <= s.len(),
        hi <= t.len(),
        forall|i: int| lo <= i < hi ==> t[i] == s[i],
    ensures
        tree_wf(t, lo, hi),
    decreases hi - lo,
{
    if lo < hi {
        let m = mid_of(lo, hi);
        lemma_tree_wf_frame(s, t, lo, m);
        lemma_tree_wf_frame(s, t, m + 1, hi);
        assert(t[m] == s[m]);
        let c = s[m];
        assert forall|i: int| lo <= i < m implies coord(#[trigger] t[i], c.axis as int) <= coord(c, c.axis as int) by {
            assert(t[i] == s[i]);
        }
        assert forall|i: int| m < i < hi implies coord(c, c.axis as int) <= coord(#[trigger] t[i], c.axis as int) by {
            assert(t[i] == s[i]);
        }
        assert forall|i: int| lo <= i < hi implies c.bounds.contains((#[trigger] t[i]).position@) by {
            assert(t[i] == s[i]);
        }
        reveal(node_shape);
        assert forall|a: int| 0 <= a < 3 implies attains(t, lo, hi, a, #[trigger] c.bounds.min.c@[a] as int)
            && attains(t, lo, hi, a, c.bounds.max.c@[a] as int) by {
            let j = choose|j: int| lo <= j < hi && coord(s[j], a) == c.bounds.min.c@[a];
            assert(t[j] == s[j]);
            let k = choose|k: int| lo <= k < hi && coord(s[k], a) == c.bounds.max.c@[a];
            assert(t[k] == s[k]);
        }
    }
}

proof fn lemma_attains_transfer(s: Seq<KdEntry>, t: Seq<KdEntry>, lo: int, hi: int, a: int, v: int)
    requires
        attains(s, lo, hi, a, v),
        0 <= lo,
        hi <= s.len(),
        hi <= t.len(),
        forall|j: int| lo <= j < hi ==> occurs_in(#[trigger] entry_key(s[j]), entry_keys(t), lo, hi),
    ensures
        attains(t, lo, hi, a, v),
{
    let j = choose|j: int| lo <= j < hi && coord(s[j], a) == v;
    assert(occurs_in(entry_key(s[j]), entry_keys(t), lo, hi));
    let k = choose|k: int| lo <= k < hi && entry_keys(t)[k] == entry_key(s[j]);
    assert(entry_keys(t)[k] == entry_key(t[k]));
    assert(coord(t[k], a) == v);
}

/// The last step of building a node: after the range was split around
/// `mid` and both halves were built, storing the axis and box in the node
/// gives a kd-tree over the range.
proof fn lemma_build_step(
    s0: Seq<KdEntry>,
    s1: Seq<KdEntry>,
    s2: Seq<KdEntry>,
    s3: Seq<KdEntry>,
    s4: Seq<KdEntry>,
    lo: int,
    mid: int,
    hi: int,
    b: Bounds,
    axis: int,
)
    requires
        0 <= lo <= mid < hi <= s0.len(),
        mid == mid_of(lo, hi),
        0 <= axis < 3,
        all_bounded(s0),
        b.wf(),
        forall|j: int| lo <= j < hi ==> b.contains((#[trigger] s0[j]).position@),
        box_tight(b, s0, lo, hi),
        forall|a: int| 0 <= a < 3 ==> #[trigger] extent(b, a) <= extent(b, axis),
        permuted_within(s0, s1, lo, hi),
        all_bounded(s1),
        forall|i: int| lo <= i < mid ==> coord(#[trigger] s1[i], axis) <= coord(s1[mid], axis),
        forall|i: int| mid < i < hi ==> coord(s1[mid], axis) <= coord(#[trigger] s1[i], axis),
        permuted_within(s1, s2, lo, mid),
        tree_wf(s2, lo, mid),
        permuted_within(s2, s3, mid + 1, hi),
        tree_wf(s3, mid + 1, hi),
        all_bounded(s3),
        s4.len() == s3.len(),
        forall|k: int| 0 <= k < s3.len() && k != mid ==> s4[k] == s3[k],
        s4[mid].position == s3[mid].position,
        s4[mid].value == s3[mid].value,
        s4[mid].axis == axis,
        s4[mid].bounds == b,
    ensures
        permuted_within(s0, s4, lo, hi),
        all_bounded(s4),
        tree_wf(s4, lo, hi),
        forall|k: int| lo <= k < hi ==> b.contains((#[trigger] s4[k]).position@),
{
    let ax = axis;
        lemma_permuted_widen(s1, s2, lo, mid, lo, hi);
        lemma_permuted_widen(s2, s3, mid + 1, hi, lo, hi);
        lemma_permuted_trans(s0, s1, s2, lo, hi);
        lemma_permuted_trans(s0, s2, s3, lo, hi);
        assert(entry_keys(s4) =~= entry_keys(s3));
        assert forall|k: int| lo <= k < hi implies occurs_in(#[trigger] entry_key(s4[k]), entry_keys(s0), lo, hi) by {
            assert(entry_key(s4[k]) == entry_key(s3[k]));
        }
        assert forall|k: int| lo <= k < hi implies occurs_in(#[trigger] entry_key(s0[k]), entry_keys(s4), lo, hi) by {
            let j = choose|j: int| lo <= j < hi && entry_keys(s3)[j] == entry_key(s0[k]);
            assert(entry_keys(s4)[j] == entry_keys(s3)[j]);
        }
        assert(permuted_within(s0, s4, lo, hi));
        // Every point of the range keeps a position that `b` contains.
        assert forall|k: int| lo <= k < hi implies b.contains((#[trigger] s4[k]).position@) by {
            let j = choose|j: int| lo <= j < hi && entry_keys(s0)[j] == entry_key(s4[k]);
            assert(entry_keys(s0)[j] == entry_key(s0[j]));
            assert(b.contains(s0[j].position@));
        }
        assert forall|k: int| 0 <= k < s4.len() implies (#[trigger] s4[k]).position.bounded() by {
            assert(s4[k].position == s3[k].position);
        }
        // The two halves keep their sides of the centre.
        assert(s3[mid] == s1[mid]);
        assert forall|k: int| lo <= k < mid implies coord(#[trigger] s4[k], ax) <= coord(s4[mid], ax) by {
            assert(s4[k] == s3[k]);
            assert(s3[k] == s2[k]);
            let j = choose|j: int| lo <= j < mid && entry_keys(s1)[j] == entry_key(s2[k]);
            assert(entry_keys(s1)[j] == entry_key(s1[j]));
            assert(coord(s1[j], ax) <= coord(s1[mid], ax));
        }
        assert forall|k: int| mid < k < hi implies coord(s4[mid], ax) <= coord(#[trigger] s4[k], ax) by {
            assert(s4[k] == s3[k]);
            let j = choose|j: int| mid + 1 <= j < hi && entry_keys(s2)[j] == entry_key(s3[k]);
            assert(entry_keys(s2)[j] == entry_key(s2[j]));
            assert(s2[j] == s1[j]);
            assert(coord(s1[mid], ax) <= coord(s1[j], ax));
        }
        assert forall|a: int| 0 <= a < 3 implies attains(s4, lo, hi, a, #[trigger] b.min.c@[a] as int)
            && attains(s4, lo, hi, a, b.max.c@[a] as int) by {
            lemma_attains_transfer(s0, s4, lo, hi, a, b.min.c@[a] as int);
            lemma_attains_transfer(s0, s4, lo, hi, a, b.max.c@[a] as int);
        }
        assert(s4[mid].bounds == b);
        assert(s4[mid].axis == axis);
        reveal(node_shape);
        assert(node_shape(s4, lo, hi));
        lemma_tree_wf_frame(s2, s3, lo, mid);
        lemma_tree_wf_frame(s3, s4, lo, mid);
        lemma_tree_wf_frame(s3, s4, mid + 1, hi);
        assert(mid_of(lo, hi) == mid);
}

/// Builds the kd-tree order on `[lo, hi)` and returns a box that contains
/// every point of the range.
fn build_rec(es: &mut Vec<KdEntry>, lo: usize, hi: usize) -> (b: Bounds)
    requires
        lo <= hi <= old(es)@.len(),
        all_bounded(old(es)@),
    ensures
        permuted_within(old(es)@, final(es)@, lo as int, hi as int),
        all_bounded(final(es)@),
        tree_wf(final(es)@, lo as int, hi as int),
        b.wf(),
        forall|i: int| lo <= i < hi ==> b.contains((#[trigger] final(es)@[i]).position@),
    decreases hi - lo,
{
    let ghost s0 = es@;
    proof {
        lemma_permuted_refl(s0, lo as int, hi as int);
    }
    if lo >= hi {
        return Bounds::empty();
    }
    let mut b = Bounds::empty();
    let mut i = lo;
    while i < hi
        invariant
            lo <= i <= hi <= es@.len(),
            es@ == s0,
            all_bounded(s0),
            b.wf(),
            forall|j: int| lo <= j < i ==> b.contains((#[trigger] s0[j]).position@),
            i > lo ==> box_tight(b, s0, lo as int, i as int),
            i == lo ==> forall|a: int| 0 <= a < 3 ==> #[trigger] b.min.c@[a] == COORD_MAX && b.max.c@[a] == -COORD_MAX,
        decreases hi - i,
    {
        let p = es[i].position;
        let ghost b0 = b;
        b = b.union(&Bounds::from_point(p));
        proof {
            assert(s0[i as int].position.bounded());
            assert forall|a: int| 0 <= a < 3 implies attains(s0, lo as int, i + 1, a, #[trigger] b.min.c@[a] as int)
                && attains(s0, lo as int, i + 1, a, b.max.c@[a] as int) by {
                assert(coord(s0[i as int], a) == p.c@[a]);
                if i > lo {
                    let j = choose|j: int| lo <= j < i && coord(s0[j], a) == b0.min.c@[a];
                    let k = choose|k: int| lo <= k < i && coord(s0[k], a) == b0.max.c@[a];
                }
            }
        }
        i = i + 1;
    }
    let mut axis: usize = 0;
    if b.dim(1) > b.dim(axis) {
        axis = 1;
    }
    if b.dim(2) > b.dim(axis) {
        axis = 2;
    }
    assert(forall|a: int| 0 <= a < 3 ==> #[trigger] extent(b, a) <= extent(b, axis as int));
    let mid = lo + (hi - lo) / 2;
    select(es, lo, hi, mid, axis);
    let ghost s1 = es@;
    build_rec(es, lo, mid);
    let ghost s2 = es@;
    build_rec(es, mid + 1, hi);
    let ghost s3 = es@;
    let mut c = es[mid];
    c.axis = axis;
    c.bounds = b;
    es.set(mid, c);
    proof {
        lemma_build_step(s0, s1, s2, s3, es@, lo as int, mid as int, hi as int, b, axis as int);
    }
    b
}

/// A found neighbour: the slot of its entry in the tree, the entry's payload
/// and its squared distance to the query.
#[derive(Copy, Clone, Debug, PartialEq, Eq)]
pub struct KdNeighbor {
    pub distance: i64,
    pub index: usize,
    pub value: usize,
}

/// Squared distance from the query `q` to the entry in slot `v`.
pub open spec fn dist_to(es: Seq<KdEntry>, q: Seq<int>, v: int) -> int {
    point_square_distance(q, es[v].position@)
}

/// `n` comes strictly before the entry in slot `v`: nearer, or as near and
/// in an earlier slot.
pub open spec fn beats(es: Seq<KdEntry>, q: Seq<int>, n: KdNeighbor, v: int) -> bool {
    n.distance < dist_to(es, q, v) || (n.distance == dist_to(es, q, v) && n.index < v)
}

/// `a` comes strictly before `b`.
pub open spec fn neighbor_lt(a: KdNeighbor, b: KdNeighbor) -> bool {
    a.distance < b.distance || (a.distance == b.distance && a.index < b.index)
}

/// Each neighbour describes its entry truly, and they are in strictly
/// increasing order.
pub open spec fn neighbors_valid(es: Seq<KdEntry>, q: Seq<int>, c: Seq<KdNeighbor>) -> bool {
    &&& forall|j: int| 0 <= j < c.len() ==> {
        &&& (#[trigger] c[j]).index < es.len()
        &&& c[j].distance == dist_to(es, q, c[j].index as int)
        &&& c[j].value == es[c[j].index as int].value
    }
    &&& forall|a: int, b: int| 0 <= a < b < c.len() ==> neighbor_lt(#[trigger] c[a], #[trigger] c[b])
}

/// Slot `v` is among the neighbours `c`.
pub open spec fn in_neighbors(c: Seq<KdNeighbor>, v: int) -> bool {
    exists|j: int| 0 <= j < c.len() && c[j].index == v
}

/// The search state after visiting (or ruling out) the slots in `vs`: the
/// best `k` of them, in order.
pub open spec fn search_inv(es: Seq<KdEntry>, q: Seq<int>, c: Seq<KdNeighbor>, vs: Set<int>, k: int) -> bool {
    &&& neighbors_valid(es, q, c)
    &&& c.len() <= k
    &&& forall|j: int| 0 <= j < c.len() ==> vs.contains((#[trigger] c[j]).index as int)
    &&& c.len() < k ==> forall|v: int| vs.contains(v) ==> in_neighbors(c, v)
    &&& c.len() == k && k > 0 ==> forall|v: int| #[trigger] vs.contains(v) && !in_neighbors(c, v) ==> beats(es, q, c[k - 1], v)
}

pub open spec fn range_set(lo: int, hi: int) -> Set<int> {
    Set::new(|v: int| lo <= v < hi)
}

proof fn lemma_prune(es: Seq<KdEntry>, q: Seq<int>, c: Seq<KdNeighbor>, vs: Set<int>, k: int, lo: int, hi: int)
    requires
        k > 0,
        search_inv(es, q, c, vs, k),
        c.len() == k,
        forall|v: int| lo <= v < hi ==> #[trigger] beats(es, q, c[k - 1], v),
    ensures
        search_inv(es, q, c, vs.union(range_set(lo, hi)), k),
{
    let ws = vs.union(range_set(lo, hi));
    assert forall|v: int| #[trigger] ws.contains(v) && !in_neighbors(c, v) implies beats(es, q, c[k - 1], v) by {
        if !vs.contains(v) {
            assert(range_set(lo, hi).contains(v));
        }
    }
}

/// Adds the entry in slot `x` to the search state.
#[verifier::rlimit(60)]
fn insert_candidate(es: &Vec<KdEntry>, q: Vec3, k: usize, cand: &mut Vec<KdNeighbor>, x: usize, Ghost(vs): Ghost<Set<int>>)
    requires
        k > 0,
        x < es@.len(),
        all_bounded(es@),
        q.bounded(),
        !vs.contains(x as int),
        search_inv(es@, q@, old(cand)@, vs, k as int),
    ensures
        search_inv(es@, q@, final(cand)@, vs.insert(x as int), k as int),
{
    let p = es[x].position;
    let d = q.square_distance(p);
    proof {
        lemma_square_distance_3(q@, p@);
    }
    let nb = KdNeighbor { distance: d, index: x, value: es[x].value };
    let ghost c0 = cand@;
    let mut pos: usize = 0;
    while pos < cand.len() && !(nb.distance < cand[pos].distance || (nb.distance == cand[pos].distance && nb.index < cand[pos].index))
        invariant
            pos <= cand@.len(),
            cand@ == c0,
            search_inv(es@, q@, c0, vs, k as int),
            !vs.contains(x as int),
            nb.index == x,
            forall|j: int| 0 <= j < pos ==> neighbor_lt(#[trigger] c0[j], nb),
        decreases cand@.len() - pos,
    {
        assert(vs.contains(c0[pos as int].index as int));
        assert(c0[pos as int].index != x);
        assert(!neighbor_lt(nb, c0[pos as int]));
        assert(neighbor_lt(c0[pos as int], nb));
        pos = pos + 1;
    }
    cand.insert(pos, nb);
    let ghost c1 = cand@;
    proof {
        assert(c1 =~= c0.insert(pos as int, nb));
        assert forall|j: int| pos <= j < c0.len() implies neighbor_lt(nb, #[trigger] c0[j]) by {
            if j > pos {
                assert(neighbor_lt(c0[pos as int], c0[j]));
            }
        }
        assert forall|a: int, b: int| 0 <= a < b < c1.len() implies neighbor_lt(#[trigger] c1[a], #[trigger] c1[b]) by {
            if a < pos && b < pos {
                assert(neighbor_lt(c0[a], c0[b]));
            } else if a < pos && b > pos {
                assert(neighbor_lt(c0[a], c0[b - 1]));
            } else if a > pos {
                assert(neighbor_lt(c0[a - 1], c0[b - 1]));
            }
        }
        assert forall|v: int| in_neighbors(c0, v) implies in_neighbors(c1, v) by {
            let j = choose|j: int| 0 <= j < c0.len() && c0[j].index == v;
            if j < pos {
                assert(c1[j] == c0[j]);
            } else {
                assert(c1[j + 1] == c0[j]);
            }
        }
        assert(c1[pos as int] == nb);
        assert(in_neighbors(c1, x as int));
    }
    if cand.len() > k {
        let ghost last0 = c0[k - 1];
        cand.pop();
        proof {
            let c2 = cand@;
            let ws = vs.insert(x as int);
            assert(c2 =~= c1.take(k as int));
            assert forall|v: int| #[trigger] ws.contains(v) && !in_neighbors(c2, v) implies beats(es@, q@, c2[k - 1], v) by {
                let top = c1[k as int];
                assert(neighbor_lt(c2[k - 1], top));
                if in_neighbors(c1, v) {
                    let j = choose|j: int| 0 <= j < c1.len() && c1[j].index == v;
                    if j < k {
                        assert(c2[j] == c1[j]);
                        assert(false);
                    }
                    assert(j == k);
                } else {
                    // `v` was already beaten by the old last, which is at most the new last.
                    if v == x as int {
                        assert(c1[pos as int] == nb);
                        assert(false);
                    }
                    assert(vs.contains(v));
                    assert(!in_neighbors(c0, v));
                    assert(beats(es@, q@, last0, v));
                    if pos < k {
                        assert(c1[k as int] == last0);
                    } else {
                        assert(c1[k - 1] == last0);
                    }
                }
            }
            assert forall|j: int| 0 <= j < c2.len() implies ws.contains((#[trigger] c2[j]).index as int) by {
                assert(c2[j] == c1[j]);
                if j != pos {
                    if j < pos {
                        assert(c1[j] == c0[j]);
                    } else {
                        assert(c1[j] == c0[j - 1]);
                    }
                }
            }
        }
    } else {
        proof {
            let ws = vs.insert(x as int);
            assert forall|j: int| 0 <= j < c1.len() implies ws.contains((#[trigger] c1[j]).index as int) by {
                if j != pos {
                    if j < pos {
                        assert(c1[j] == c0[j]);
                    } else {
                        assert(c1[j] == c0[j - 1]);
                    }
                }
            }
            if c1.len() < k {
                assert forall|v: int| ws.contains(v) implies in_neighbors(c1, v) by {
                    if v != x as int {
                        assert(in_neighbors(c0, v));
                    }
                }
            } else {
                assert forall|v: int| #[trigger] ws.contains(v) && !in_neighbors(c1, v) implies beats(es@, q@, c1[k - 1], v) by {
                    if v != x as int {
                        assert(in_neighbors(c0, v));
                    }
                }
            }
        }
    }
}

/// Visits the subtree `[lo, hi)`, skipping parts that cannot hold a point
/// nearer than the current `k`-th neighbour.
fn nearest_rec(es: &Vec<KdEntry>, lo: usize, hi: usize, q: Vec3, k: usize, cand: &mut Vec<KdNeighbor>, Ghost(vs): Ghost<Set<int>>)
    requires
        lo <= hi <= es@.len(),
        tree_wf(es@, lo as int, hi as int),
        all_bounded(es@),
        q.bounded(),
        forall|v: int| vs.contains(v) ==> !(lo <= v < hi),
        search_inv(es@, q@, old(cand)@, vs, k as int),
    ensures
        search_inv(es@, q@, final(cand)@, vs.union(range_set(lo as int, hi as int)), k as int),
    decreases hi - lo,
{
    if k == 0 {
        // Nothing is kept, whatever the range holds.
        assert(old(cand)@.len() == 0);
        return;
    }
    if lo >= hi {
        assert(vs.union(range_set(lo as int, hi as int)) =~= vs);
        return;
    }
    let mid = lo + (hi - lo) / 2;
    assert(mid == mid_of(lo as int, hi as int));
    let c = es[mid];
    if cand.len() == k {
        let worst = cand[k - 1].distance;
        let bd = c.bounds.distance(q);
        if bd > worst {
            proof {
                assert forall|v: int| lo <= v < hi implies #[trigger] beats(es@, q@, cand@[k - 1], v) by {
                    assert(c.bounds.contains(es@[v].position@));
                    lemma_box_distance_le(c.bounds.min@, c.bounds.max@, q@, es@[v].position@);
                }
                lemma_prune(es@, q@, cand@, vs, k as int, lo as int, hi as int);
            }
            return;
        }
    }
    let axis = c.axis;
    let qa = q.c[axis];
    let ca = c.position.c[axis];
    let near_left = qa < ca;
    let (f_lo, f_hi, s_lo, s_hi) = if near_left { (lo, mid, mid + 1, hi) } else { (mid + 1, hi, lo, mid) };
    nearest_rec(es, f_lo, f_hi, q, k, cand, Ghost(vs));
    let ghost vs1 = vs.union(range_set(f_lo as int, f_hi as int));
    insert_candidate(es, q, k, cand, mid, Ghost(vs1));
    let ghost vs2 = vs1.insert(mid as int);
    let dq = qa - ca;
    assert(-2 * COORD_MAX <= dq <= 2 * COORD_MAX);
    assert(0 <= dq * dq <= 4 * PRODUCT_MAX) by (nonlinear_arith)
        requires
            -2 * COORD_MAX <= dq <= 2 * COORD_MAX,
            COORD_MAX == 1048576,
            PRODUCT_MAX == 17592186044416,
    ;
    let plane = dq * dq;
    if cand.len() < k || plane <= cand[k - 1].distance {
        nearest_rec(es, s_lo, s_hi, q, k, cand, Ghost(vs2));
        assert(vs2.union(range_set(s_lo as int, s_hi as int)) =~= vs.union(range_set(lo as int, hi as int)));
    } else {
        proof {
            assert forall|v: int| s_lo <= v < s_hi implies #[trigger] beats(es@, q@, cand@[k - 1], v) by {
                let p = es@[v].position@;
                let pa = p[axis as int];
                lemma_axis_le_distance(q@, p, axis as int);
                if near_left {
                    assert(ca <= pa);
                    assert(0 < ca - qa <= pa - qa);
                } else {
                    assert(pa <= ca);
                    assert(0 <= qa - ca <= qa - pa);
                }
                let e = qa - ca;
                let g = q@[axis as int] - pa;
                assert(e * e <= g * g) by (nonlinear_arith)
                    requires
                        (0 <= e && e <= g) || (g <= e && e <= 0),
                ;
            }
            lemma_prune(es@, q@, cand@, vs2, k as int, s_lo as int, s_hi as int);
        }
        assert(vs2.union(range_set(s_lo as int, s_hi as int)) =~= vs.union(range_set(lo as int, hi as int)));
    }
}

/// `r` lists the `k` entries of `es` nearest to `q` (all of them when there
/// are fewer), nearest first, equally near entries by slot.
pub open spec fn is_k_nearest(es: Seq<KdEntry>, q: Seq<int>, k: int, r: Seq<KdNeighbor>) -> bool {
    &&& neighbors_valid(es, q, r)
    &&& r.len() <= k
    &&& r.len() < k ==> forall|v: int| 0 <= v < es.len() ==> in_neighbors(r, v)
    &&& forall|v: int| 0 <= v < es.len() && !in_neighbors(r, v) ==> r.len() == k
        && (k == 0 || #[trigger] beats(es, q, r[k - 1], v))
}

/// A kd-tree over points with `usize` payloads.
pub struct KdTree {
    entries: Vec<KdEntry>,
}

impl KdEntry {
    pub fn new(position: Vec3, value: usize) -> (r: Self)
        ensures
            r.position == position,
            r.value == value,
    {
        KdEntry { axis: 0, bounds: Bounds::empty(), position, value }
    }

    pub fn position(&self) -> (r: Vec3)
        ensures
            r == self.position,
    {
        self.position
    }

    pub fn value(&self) -> (r: &usize)
        ensures
            *r == self.value,
    {
        &self.value
    }
}

impl KdTree {
    /// The entries, in the order of the implicit tree.
    pub closed spec fn view(&self) -> Seq<KdEntry> {
        self.entries@
    }

    pub open spec fn wf(&self) -> bool {
        &&& tree_wf(self@, 0, self@.len() as int)
        &&& all_bounded(self@)
    }

    /// Builds the tree; it holds exactly the given points and payloads.
    pub fn new(entries: Vec<KdEntry>) -> (r: Self)
        requires
            all_bounded(entries@),
        ensures
            r.wf(),
            all_bounded(r@),
            entry_keys(r@).to_multiset() == entry_keys(entries@).to_multiset(),
    {
        let mut entries = entries;
        let n = entries.len();
        build_rec(&mut entries, 0, n);
        KdTree { entries }
    }

    pub fn as_slice(&self) -> (r: &[KdEntry])
        ensures
            r@ == self@,
    {
        self.entries.as_slice()
    }

    /// The `count` entries nearest to `query`, nearest first; among equally
    /// near entries the earlier slot comes first.
    pub fn nearest(&self, query: Vec3, count: usize) -> (r: Vec<KdNeighbor>)
        requires
            self.wf(),
            query.bounded(),
        ensures
            is_k_nearest(self@, query@, count as int, r@),
    {
        let mut cand: Vec<KdNeighbor> = Vec::new();
        if count == 0 {
            return cand;
        }
        let n = self.entries.len();
        proof {
            assert(search_inv(self.entries@, query@, cand@, Set::empty(), count as int));
        }
        nearest_rec(&self.entries, 0, n, query, count, &mut cand, Ghost(Set::empty()));
        proof {
            let ws = Set::<int>::empty().union(range_set(0, n as int));
            assert forall|v: int| 0 <= v < self@.len() && !in_neighbors(cand@, v) implies cand@.len() == count
                && (count == 0 || #[trigger] beats(self@, query@, cand@[count - 1], v)) by {
                assert(ws.contains(v));
            }
            if cand@.len() < count {
                assert forall|v: int| 0 <= v < self@.len() implies in_neighbors(cand@, v) by {
                    assert(ws.contains(v));
                }
            }
        }
        cand
    }
}

/// The `count` entries of `entries` nearest to `query`, found by looking
/// at every entry in turn.
pub fn nearest_linear(entries: &Vec<KdEntry>, query: Vec3, count: usize) -> (r: Vec<KdNeighbor>)
    requires
        all_bounded(entries@),
        query.bounded(),
    ensures
        is_k_nearest(entries@, query@, count as int, r@),
{
    let mut cand: Vec<KdNeighbor> = Vec::new();
    if count == 0 {
        return cand;
    }
    let n = entries.len();
    let mut i: usize = 0;
    assert(range_set(0, 0) =~= Set::<int>::empty());
    while i < n
        invariant
            i <= n == entries@.len(),
            count > 0,
            all_bounded(entries@),
            query.bounded(),
            search_inv(entries@, query@, cand@, range_set(0, i as int), count as int),
        decreases n - i,
    {
        insert_candidate(entries, query, count, &mut cand, i, Ghost(range_set(0, i as int)));
        assert(range_set(0, i as int).insert(i as int) =~= range_set(0, i + 1));
        i = i + 1;
    }
    proof {
        let ws = range_set(0, n as int);
        assert forall|v: int| 0 <= v < entries@.len() && !in_neighbors(cand@, v) implies cand@.len() == count
            && (count == 0 || #[trigger] beats(entries@, query@, cand@[count - 1], v)) by {
            assert(ws.contains(v));
        }
        if cand@.len() < count {
            assert forall|v: int| 0 <= v < entries@.len() implies in_neighbors(cand@, v) by {
                assert(ws.contains(v));
            }
        }
    }
    cand
}

proof fn lemma_same_slot(es: Seq<KdEntry>, q: Seq<int>, a: Seq<KdNeighbor>, b: Seq<KdNeighbor>, i: int, j: int)
    requires
        neighbors_valid(es, q, a),
        neighbors_valid(es, q, b),
        0 <= i < a.len(),
        0 <= j < b.len(),
        a[i].index == b[j].index,
    ensures
        a[i] == b[j],
{
}

/// Where `a` and `b` first differ at `j`, `b` has an element there and
/// `a[j]` does not come before it.
proof fn lemma_no_first_difference(es: Seq<KdEntry>, q: Seq<int>, k: int, a: Seq<KdNeighbor>, b: Seq<KdNeighbor>, j: int)
    requires
        is_k_nearest(es, q, k, a),
        is_k_nearest(es, q, k, b),
        0 <= j < a.len(),
        j <= b.len(),
        forall|i: int| 0 <= i < j ==> a[i] == b[i],
    ensures
        j < b.len() && !neighbor_lt(a[j], b[j]),
{
    if j == b.len() || neighbor_lt(a[j], b[j]) {
        let x = a[j].index as int;
        assert(0 <= x < es.len());
        if in_neighbors(b, x) {
            let p = choose|p: int| 0 <= p < b.len() && b[p].index == x;
            lemma_same_slot(es, q, a, b, j, p);
            if p < j {
                assert(a[p] == b[p]);
                assert(neighbor_lt(a[p], a[j]));
            } else if p == j {
            } else {
                assert(neighbor_lt(b[j], b[p]));
            }
        } else {
            assert(b.len() == k);
            assert(beats(es, q, b[k - 1], x));
            assert(a.len() <= k);
            if j < b.len() {
                if j < k - 1 {
                    assert(neighbor_lt(b[j], b[k - 1]));
                }
            }
        }
    }
}

proof fn lemma_agree_upto(es: Seq<KdEntry>, q: Seq<int>, k: int, a: Seq<KdNeighbor>, b: Seq<KdNeighbor>, m: int)
    requires
        is_k_nearest(es, q, k, a),
        is_k_nearest(es, q, k, b),
        0 <= m <= a.len(),
        m <= b.len(),
    ensures
        forall|i: int| 0 <= i < m ==> a[i] == b[i],
    decreases m,
{
    if m > 0 {
        let j = m - 1;
        lemma_agree_upto(es, q, k, a, b, j);
        if a[j] != b[j] {
            if a[j].index == b[j].index {
                lemma_same_slot(es, q, a, b, j, j);
            } else {
                lemma_no_first_difference(es, q, k, a, b, j);
                lemma_no_first_difference(es, q, k, b, a, j);
            }
        }
    }
}

/// Two lists that both answer the same `k`-nearest query are equal.
pub proof fn lemma_k_nearest_unique(es: Seq<KdEntry>, q: Seq<int>, k: int, a: Seq<KdNeighbor>, b: Seq<KdNeighbor>)
    requires
        is_k_nearest(es, q, k, a),
        is_k_nearest(es, q, k, b),
    ensures
        a == b,
{
    let m: int = if a.len() <= b.len() { a.len() as int } else { b.len() as int };
    lemma_agree_upto(es, q, k, a, b, m);
    if a.len() < b.len() {
        lemma_no_first_difference(es, q, k, b, a, m);
    } else if b.len() < a.len() {
        lemma_no_first_difference(es, q, k, a, b, m);
    }
    assert(a =~= b);
}

/// The tree's bounded search returns exactly what a scan of every entry
/// returns, for every query and every `k`.
pub proof fn lemma_nearest_matches_linear(tree: KdTree, q: Vec3, k: usize, found: Seq<KdNeighbor>, scanned: Seq<KdNeighbor>)
    requires
        is_k_nearest(tree@, q@, k as int, found),
        is_k_nearest(tree@, q@, k as int, scanned),
    ensures
        found == scanned,
        forall|i: int, v: int| 0 <= i < found.len() && 0 <= v < tree@.len() && !in_neighbors(found, v)
            ==> #[trigger] found[i].distance <= #[trigger] dist_to(tree@, q@, v),
{
    lemma_k_nearest_unique(tree@, q@, k as int, found, scanned);
    assert forall|i: int, v: int| 0 <= i < found.len() && 0 <= v < tree@.len() && !in_neighbors(found, v)
        implies #[trigger] found[i].distance <= #[trigger] dist_to(tree@, q@, v) by {
        assert(found.len() == k);
        assert(beats(tree@, q@, found[k - 1], v));
        if i < k - 1 {
            assert(neighbor_lt(found[i], found[k - 1]));
        }
    }
}

} // verus!
