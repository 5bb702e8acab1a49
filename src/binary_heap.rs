//! A binary max-heap stored in a vector.
use vstd::multiset::Multiset;
use vstd::prelude::*;

verus! {

broadcast use vstd::seq_lib::group_to_multiset_ensures;

/// Index of the parent of position `i` (for `i > 0`).
pub open spec fn parent_of(i: int) -> int {
    (i - 1) / 2
}

/// The first `n` positions of `s` satisfy the max-heap order.
pub open spec fn heap_upto(s: Seq<usize>, n: int) -> bool {
    forall|i: int| 0 < i < n ==> #[trigger] s[parent_of(i)] >= s[i]
}

/// `x` is at least every element of `m`.
pub open spec fn is_max_of(x: usize, m: Multiset<usize>) -> bool {
    m.contains(x) && forall|y: usize| #[trigger] m.contains(y) ==> y <= x
}

/// `s` is sorted in non-decreasing order.
pub open spec fn sorted_seq(s: Seq<usize>) -> bool {
    forall|i: int, j: int| 0 <= i <= j < s.len() ==> s[i] <= s[j]
}

proof fn lemma_update_multiset(s: Seq<usize>, i: int, v: usize)
    requires
        0 <= i < s.len(),
    ensures
        s.update(i, v).to_multiset() =~= s.to_multiset().remove(s[i]).insert(v),
{
    let t = s.update(i, v);
    assert(t.remove(i) =~= s.remove(i));
    assert(t[i] == v);
    assert(t.to_multiset().contains(v));
    assert(s.to_multiset().contains(s[i]));
}

proof fn lemma_swap_multiset(s: Seq<usize>, i: int, j: int)
    requires
        0 <= i < s.len(),
        0 <= j < s.len(),
    ensures
        s.update(i, s[j]).update(j, s[i]).to_multiset() =~= s.to_multiset(),
{
    let t = s.update(i, s[j]);
    lemma_update_multiset(s, i, s[j]);
    lemma_update_multiset(t, j, s[i]);
    if i != j {
        assert(t[j] == s[j]);
    }
    assert(s.to_multiset().contains(s[i]));
}

/// Every element of a non-empty heap prefix is at most its first element.
proof fn lemma_root_is_max(s: Seq<usize>, n: int, i: int)
    requires
        heap_upto(s, n),
        0 <= i < n <= s.len(),
    ensures
        s[i] <= s[0],
    decreases i,
{
    if i > 0 {
        lemma_root_is_max(s, n, parent_of(i));
    }
}

proof fn lemma_heap_max(s: Seq<usize>)
    requires
        heap_upto(s, s.len() as int),
        s.len() > 0,
    ensures
        is_max_of(s[0], s.to_multiset()),
{
    assert forall|y: usize| #[trigger] s.to_multiset().contains(y) implies y <= s[0] by {
        let i = choose|i: int| 0 <= i < s.len() && s[i] == y;
        lemma_root_is_max(s, s.len() as int, i);
    }
}

/// `x` occurs among the first `end` positions of `s`.
pub open spec fn in_prefix(x: usize, s: Seq<usize>, end: int) -> bool {
    exists|j: int| 0 <= j < end && s[j] == x
}

fn swap(v: &mut Vec<usize>, i: usize, j: usize)
    requires
        i < old(v).len(),
        j < old(v).len(),
    ensures
        final(v)@ == old(v)@.update(i as int, old(v)@[j as int]).update(j as int, old(v)@[i as int]),
        final(v)@.to_multiset() == old(v)@.to_multiset(),
{
    proof {
        lemma_swap_multiset(v@, i as int, j as int);
    }
    let a = v[i];
    let b = v[j];
    v.set(i, b);
    v.set(j, a);
}

/// Moves the element at `child` up until the prefix of length `n` is a heap.
fn sift_up(v: &mut Vec<usize>, child: usize)
    requires
        child < old(v).len(),
        forall|i: int| 0 < i < old(v).len() && i != child ==> #[trigger] old(v)@[parent_of(i)] >= old(v)@[i],
        child > 0 ==> forall|i: int|
            0 < i < old(v).len() && parent_of(i) == child ==> old(v)@[parent_of(child as int)] >= #[trigger] old(v)@[i],
    ensures
        final(v)@.len() == old(v)@.len(),
        final(v)@.to_multiset() == old(v)@.to_multiset(),
        heap_upto(final(v)@, final(v)@.len() as int),
{
    let ghost n = v@.len() as int;
    let mut c = child;
    while c > 0 && v[(c - 1) / 2] < v[c]
        invariant
            v@.len() == n,
            c < n,
            v@.to_multiset() == old(v)@.to_multiset(),
            forall|i: int| 0 < i < n && i != c ==> #[trigger] v@[parent_of(i)] >= v@[i],
            c > 0 ==> forall|i: int| 0 < i < n && parent_of(i) == c ==> v@[parent_of(c as int)] >= #[trigger] v@[i],
        decreases c,
    {
        let p = (c - 1) / 2;
        let ghost s = v@;
        swap(v, p, c);
        assert forall|i: int| 0 < i < n && i != p implies #[trigger] v@[parent_of(i)] >= v@[i] by {
            if parent_of(i) == c {
                assert(s[parent_of(i)] >= s[i]);
            }
            if i == c {
            } else if parent_of(i) == p {
                assert(s[p as int] >= s[i]);
            }
        }
        if p > 0 {
            assert forall|i: int| 0 < i < n && parent_of(i) == p implies v@[parent_of(p as int)] >= #[trigger] v@[i] by {
                assert(s[parent_of(p as int)] >= s[p as int]);
                if i != c {
                    assert(s[p as int] >= s[i]);
                }
            }
        }
        c = p;
    }
    proof {
        if c > 0 {
            assert forall|i: int| 0 < i < n implies #[trigger] v@[parent_of(i)] >= v@[i] by {
            }
        }
    }
}

/// Moves the element at the root down until the prefix of length `end` is a heap.
fn sift_down(v: &mut Vec<usize>, end: usize)
    requires
        end <= old(v).len(),
        forall|i: int| 1 < i < end && parent_of(i) != 0 ==> #[trigger] old(v)@[parent_of(i)] >= old(v)@[i],
    ensures
        final(v)@.len() == old(v)@.len(),
        final(v)@.to_multiset() == old(v)@.to_multiset(),
        heap_upto(final(v)@, end as int),
        forall|i: int| end <= i < old(v)@.len() ==> #[trigger] final(v)@[i] == old(v)@[i],
        forall|i: int| 0 <= i < end ==> in_prefix(#[trigger] final(v)@[i], old(v)@, end as int),
{
    let ghost n = v@.len() as int;
    let mut node: usize = 0;
    assert forall|i: int| 0 <= i < end implies in_prefix(#[trigger] v@[i], old(v)@, end as int) by {
        assert(v@[i] == old(v)@[i]);
        assert(in_prefix(v@[i], old(v)@, end as int));
    }
    loop
        invariant
            v@.len() == n,
            n == old(v)@.len(),
            end <= n,
            forall|i: int| 0 <= i < end ==> in_prefix(#[trigger] v@[i], old(v)@, end as int),
            node < end || (node == 0 && end == 0),
            v@.to_multiset() == old(v)@.to_multiset(),
            forall|i: int| end <= i < n ==> #[trigger] v@[i] == old(v)@[i],
            forall|i: int| 0 < i < end && parent_of(i) != node ==> #[trigger] v@[parent_of(i)] >= v@[i],
            node > 0 ==> forall|i: int| 0 < i < end && parent_of(i) == node ==> v@[parent_of(node as int)] >= #[trigger] v@[i],
        ensures
            heap_upto(v@, end as int),
        decreases end - node,
    {
        if end == 0 {
            assert(heap_upto(v@, end as int));
            break;
        }
        let mut m = node;
        if node < end / 2 {
            let l = 2 * node + 1;
            let r = 2 * node + 2;
            if v[m] < v[l] {
                m = l;
            }
            if r < end && v[m] < v[r] {
                m = r;
            }
        }
        if m == node {
            assert forall|i: int| 0 < i < end implies #[trigger] v@[parent_of(i)] >= v@[i] by {
                if parent_of(i) == node {
                    assert(i == 2 * node + 1 || i == 2 * node + 2);
                }
            }
            assert(heap_upto(v@, end as int));
            break;
        }
        let ghost s = v@;
        swap(v, node, m);
        assert(parent_of(m as int) == node);
        assert forall|i: int| 0 < i < end && parent_of(i) != m implies #[trigger] v@[parent_of(i)] >= v@[i] by {
            if i == m {
            } else if parent_of(i) == node {
                assert(i == 2 * node + 1 || i == 2 * node + 2);
            } else if i == node {
                assert(s[parent_of(i)] >= s[m as int]);
            }
        }
        assert forall|i: int| 0 < i < end && parent_of(i) == m implies v@[parent_of(m as int)] >= #[trigger] v@[i] by {
            assert(s[m as int] >= s[i]);
        }
        assert forall|i: int| 0 <= i < end implies in_prefix(#[trigger] v@[i], old(v)@, end as int) by {
            if i == node as int {
                assert(v@[i] == s[m as int]);
                assert(in_prefix(s[m as int], old(v)@, end as int));
            } else if i == m as int {
                assert(v@[i] == s[node as int]);
                assert(in_prefix(s[node as int], old(v)@, end as int));
            } else {
                assert(v@[i] == s[i]);
                assert(in_prefix(s[i], old(v)@, end as int));
            }
        }
        node = m;
    }
}

/// A max-heap of `usize` values.
#[derive(Debug)]
pub struct BinaryHeap {
    items: Vec<usize>,
}

impl BinaryHeap {
    /// The values held, as a multiset.
    pub closed spec fn view(&self) -> Multiset<usize> {
        self.items@.to_multiset()
    }

    /// The stored order satisfies the heap property.
    pub closed spec fn wf(&self) -> bool {
        heap_upto(self.items@, self.items@.len() as int)
    }

    pub fn new() -> (r: Self)
        ensures
            r.wf(),
            r@ =~= Multiset::empty(),
    {
        BinaryHeap { items: Vec::new() }
    }

    pub fn with_capacity(cap: usize) -> (r: Self)
        ensures
            r.wf(),
            r@ =~= Multiset::empty(),
    {
        BinaryHeap { items: Vec::with_capacity(cap) }
    }

    pub fn len(&self) -> (r: usize)
        ensures
            r == self@.len(),
    {
        self.items.len()
    }

    pub fn is_empty(&self) -> (r: bool)
        ensures
            r == (self@.len() == 0),
    {
        self.items.len() == 0
    }

    /// Adds a value.
    pub fn push(&mut self, value: usize)
        requires
            old(self).wf(),
        ensures
            final(self).wf(),
            final(self)@ == old(self)@.insert(value),
    {
        let index = self.items.len();
        self.items.push(value);
        sift_up(&mut self.items, index);
    }

    /// The largest value, if any.
    pub fn peek(&self) -> (r: Option<&usize>)
        requires
            self.wf(),
        ensures
            r is None <==> self@.len() == 0,
            r matches Some(x) ==> is_max_of(*x, self@),
    {
        if self.items.len() == 0 {
            None
        } else {
            proof {
                lemma_heap_max(self.items@);
            }
            Some(&self.items[0])
        }
    }

    /// Removes and returns the largest value, if any.
    pub fn pop(&mut self) -> (r: Option<usize>)
        requires
            old(self).wf(),
        ensures
            final(self).wf(),
            r is None <==> old(self)@.len() == 0,
            r is None ==> final(self)@ == old(self)@,
            r matches Some(x) ==> is_max_of(x, old(self)@) && final(self)@ == old(self)@.remove(x),
    {
        if self.items.len() == 0 {
            return None;
        }
        proof {
            lemma_heap_max(self.items@);
        }
        let ghost s = self.items@;
        let result = self.items.swap_remove(0);
        proof {
            if self.items@.len() > 0 {
                let dl = s.drop_last();
                assert(s =~= dl.push(s.last()));
                assert(dl[0] == s[0]);
                lemma_update_multiset(dl, 0, s.last());
                assert(self.items@ =~= dl.update(0, s.last()));
                assert(dl.to_multiset().contains(s[0]));
                assert(self.items@.to_multiset() =~= s.to_multiset().remove(s[0]));
            } else {
                assert(s =~= seq![s[0]]);
                assert(self.items@ =~= s.remove(0));
            }
        }
        let len = self.items.len();
        sift_down(&mut self.items, len);
        Some(result)
    }

    /// Pushes `new` and then pops the largest value, in one step.
    pub fn push_pop(&mut self, new: usize) -> (r: usize)
        requires
            old(self).wf(),
        ensures
            final(self).wf(),
            is_max_of(r, old(self)@.insert(new)),
            final(self)@ == old(self)@.insert(new).remove(r),
    {
        if self.items.len() == 0 {
            proof {
                assert(self.items@.to_multiset() =~= Multiset::empty());
                assert(old(self)@.insert(new).remove(new) =~= old(self)@);
                assert forall|y: usize| #[trigger] old(self)@.insert(new).contains(y) implies y <= new by {
                    assert(old(self)@.insert(new) =~= Multiset::empty().insert(new));
                }
            }
            return new;
        }
        proof {
            lemma_heap_max(self.items@);
        }
        let first = self.items[0];
        if new > first {
            proof {
                assert(old(self)@.insert(new).remove(new) =~= old(self)@);
                assert forall|y: usize| #[trigger] old(self)@.insert(new).contains(y) implies y <= new by {
                    if y != new {
                        assert(old(self)@.contains(y));
                    }
                }
            }
            return new;
        }
        let ghost s = self.items@;
        self.items.set(0, new);
        proof {
            lemma_update_multiset(s, 0, new);
            assert(s.to_multiset().contains(first));
            assert(s.to_multiset().remove(first).insert(new) =~= s.to_multiset().insert(new).remove(first));
            assert forall|y: usize| #[trigger] old(self)@.insert(new).contains(y) implies y <= first by {
                if y != new {
                    assert(old(self)@.contains(y));
                }
            }
        }
        let len = self.items.len();
        sift_down(&mut self.items, len);
        first
    }

    /// The values in non-decreasing order.
    pub fn into_sorted_vec(self) -> (r: Vec<usize>)
        requires
            self.wf(),
        ensures
            sorted_seq(r@),
            r@.to_multiset() == self@,
    {
        let mut v = self.items;
        let n = v.len();
        let mut i = n;
        while i > 0
            invariant
                i <= n == v@.len(),
                v@.to_multiset() == self.items@.to_multiset(),
                heap_upto(v@, i as int),
                forall|a: int, b: int| i <= a <= b < n ==> v@[a] <= v@[b],
                forall|a: int, b: int| 0 <= a < i <= b < n ==> v@[a] <= v@[b],
            decreases i,
        {
            let ghost s = v@;
            proof {
                assert forall|a: int| 0 <= a < i implies #[trigger] s[a] <= s[0] by {
                    lemma_root_is_max(s, i as int, a);
                }
            }
            swap(&mut v, 0, i - 1);
            let ghost t = v@;
            sift_down(&mut v, i - 1);
            proof {
                assert forall|a: int, b: int| 0 <= a < i - 1 && i - 1 <= b < n implies v@[a] <= v@[b] by {
                    assert(in_prefix(v@[a], t, i - 1));
                    let j = choose|j: int| 0 <= j < i - 1 && t[j] == v@[a];
                    if j == 0 {
                        assert(t[0] == s[i - 1]);
                    } else {
                        assert(t[j] == s[j]);
                    }
                    assert(v@[i - 1] == s[0]);
                }
            }
            i = i - 1;
        }
        v
    }

    /// Whether the stored order satisfies the heap property.
    pub fn is_heap(&self) -> (r: bool)
        ensures
            r == self.wf(),
    {
        let mut i: usize = 1;
        while i < self.items.len()
            invariant
                1 <= i,
                heap_upto(self.items@, if i <= self.items@.len() { i as int } else { self.items@.len() as int }),
            decreases self.items@.len() - i,
        {
            if self.items[(i - 1) / 2] < self.items[i] {
                assert(self.items@[parent_of(i as int)] < self.items@[i as int]);
                return false;
            }
            i = i + 1;
        }
        true
    }
}

} // verus!
