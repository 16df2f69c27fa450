//! The heap of `java.util.PriorityQueue`: a binary min-heap with Java's sift
//! operations, so that ties are broken in the same element order as on the JVM.

use vstd::prelude::*;
use std::cmp::Ordering;
use crate::properties::index_of;

verus! {

broadcast use vstd::seq_lib::group_to_multiset_ensures;

/// `less` is a strict weak order: an element that precedes another is not
/// preceded by it, and "does not precede" is transitive (the contract of
/// Java's `Comparator` and Rust's `Ord::cmp`, read on "is less than").
pub open spec fn strict_weak_order<T>(less: spec_fn(T, T) -> bool) -> bool {
    &&& forall|a: T, b: T| #[trigger] less(a, b) ==> !less(b, a)
    &&& forall|a: T, b: T, c: T|
        #![trigger less(b, a), less(c, b)]
        !less(b, a) && !less(c, b) ==> !less(c, a)
}

/// The comparator may be called on any two elements, and whatever it
/// answers is `Less` exactly when `less` holds, `less` being a strict weak
/// order.
pub open spec fn follows<T, F: Fn(&T, &T) -> Ordering>(comparator: F, less: spec_fn(T, T) -> bool) -> bool {
    &&& forall|a: T, b: T| #[trigger] call_requires(comparator, (&a, &b))
    &&& forall|a: T, b: T, o: Ordering|
        #[trigger] call_ensures(comparator, (&a, &b), o) ==> (o == Ordering::Less <==> less(a, b))
    &&& strict_weak_order(less)
}

/// `a` comes strictly before `b` in the order.
pub open spec fn precedes<T>(order: spec_fn(T, T) -> bool, a: T, b: T) -> bool {
    order(a, b)
}

/// Index of the parent of heap slot `i > 0`.
pub open spec fn heap_parent(i: int) -> int {
    (i - 1) / 2
}

/// Every element is at least its parent: no element precedes its parent.
pub open spec fn is_heap<T>(order: spec_fn(T, T) -> bool, h: Seq<T>) -> bool {
    forall|i: int| 0 < i < h.len() ==> !precedes(order, #[trigger] h[i], h[heap_parent(i)])
}

/// No element of `items` precedes `x`.
pub open spec fn is_least<T>(order: spec_fn(T, T) -> bool, x: T, items: Seq<T>) -> bool {
    forall|i: int| 0 <= i < items.len() ==> !precedes(order, #[trigger] items[i], x)
}

/// The root of a heap is a least element.
pub proof fn lemma_heap_root_least<T>(order: spec_fn(T, T) -> bool, h: Seq<T>)
    requires
        strict_weak_order(order),
        is_heap(order, h),
        h.len() > 0,
    ensures
        is_least(order, h[0], h),
{
    assert forall|i: int| 0 <= i < h.len() implies !precedes(order, #[trigger] h[i], h[0]) by {
        lemma_heap_root_least_at(order, h, i);
    }
}

proof fn lemma_heap_root_least_at<T>(order: spec_fn(T, T) -> bool, h: Seq<T>, i: int)
    requires
        strict_weak_order(order),
        is_heap(order, h),
        0 <= i < h.len(),
    ensures
        !precedes(order, h[i], h[0]),
    decreases i,
{
    if i > 0 {
        let p = heap_parent(i);
        lemma_heap_root_least_at(order, h, p);
        assert(!precedes(order, h[i], h[p]));
        assert(!precedes(order, h[p], h[0]) && !precedes(order, h[i], h[p]) ==> !precedes(order, h[i], h[0]));
    }
}

/// Polling twice gives the elements in order: after `x` is polled from a
/// queue holding `items`, whatever is polled next does not precede `x`.
pub proof fn lemma_poll_order<T>(
    order: spec_fn(T, T) -> bool,
    items: Seq<T>,
    x: T,
    rest: Seq<T>,
    y: T,
)
    requires
        is_least(order, x, items),
        items.to_multiset() == rest.to_multiset().insert(x),
        rest.contains(y),
    ensures
        !precedes(order, y, x),
{
    assert(rest.to_multiset().count(y) > 0);
    assert(items.to_multiset().count(y) > 0);
    assert(items.contains(y));
    let i = choose|i: int| 0 <= i < items.len() && items[i] == y;
    assert(!precedes(order, items[i], x));
}

/// The elements held in the heap slots.
pub open spec fn unwrap_all<T>(slots: Seq<Option<T>>) -> Seq<T> {
    slots.map_values(|o: Option<T>| o.unwrap())
}

/// The slot at a machine index.
pub open spec fn slot<T>(s: Seq<T>, i: usize) -> T {
    s[i as int]
}

/// Binary min-heap ordered by a comparator, with the exact sift operations of
/// `java.util.PriorityQueue`.
#[verifier::reject_recursive_types(T)]
pub struct JavaPriorityQueue<T, F> {
    heap: Vec<Option<T>>,
    comparator: F,
    order: Ghost<spec_fn(T, T) -> bool>,
}

impl<T, F> View for JavaPriorityQueue<T, F> {
    type V = Seq<T>;

    /// The heap array.
    closed spec fn view(&self) -> Seq<T> {
        unwrap_all(self.heap@)
    }
}

/// Swaps two slots of the heap array.
fn swap_slots<T>(heap: &mut Vec<Option<T>>, i: usize, j: usize)
    requires
        i < old(heap)@.len(),
        j < old(heap)@.len(),
        i != j,
    ensures
        final(heap)@ == old(heap)@.update(i as int, old(heap)@[j as int]).update(
            j as int,
            old(heap)@[i as int],
        ),
{
    let mut t: Option<T> = None;
    heap.set_and_swap(i, &mut t);
    heap.set_and_swap(j, &mut t);
    heap.set_and_swap(i, &mut t);
}

proof fn lemma_swap_view<T>(s: Seq<Option<T>>, i: int, j: int)
    requires
        0 <= i < s.len(),
        0 <= j < s.len(),
        i != j,
    ensures
        unwrap_all(s.update(i, s[j]).update(j, s[i])) == unwrap_all(s).update(i, unwrap_all(s)[j]).update(
            j,
            unwrap_all(s)[i],
        ),
        unwrap_all(s.update(i, s[j]).update(j, s[i])).to_multiset() == unwrap_all(s).to_multiset(),
{
    let u = unwrap_all(s);
    let v = u.update(i, u[j]).update(j, u[i]);
    assert(unwrap_all(s.update(i, s[j]).update(j, s[i])) =~= v);
    assert(u.update(i, u[j]).to_multiset() == u.to_multiset().insert(u[j]).remove(u[i]));
    assert(v.to_multiset() == u.update(i, u[j]).to_multiset().insert(u[i]).remove(u[j]));
    assert(v.to_multiset() =~= u.to_multiset());
}

/// Heap order holds everywhere except between slot `k` and its parent; the
/// children of `k` do not precede the parent of `k`.
pub open spec fn heap_except_up<T>(order: spec_fn(T, T) -> bool, h: Seq<T>, k: int) -> bool {
    &&& forall|i: int|
        0 < i < h.len() && i != k ==> !precedes(order, #[trigger] h[i], h[heap_parent(i)])
    &&& k > 0 ==> forall|c: int|
        0 < c < h.len() && heap_parent(c) == k ==> !precedes(order, #[trigger] h[c], h[heap_parent(k)])
}

/// Heap order holds everywhere except between slot `k` and its children;
/// the children of `k` do not precede the parent of `k`.
pub open spec fn heap_except_down<T>(order: spec_fn(T, T) -> bool, h: Seq<T>, k: int) -> bool {
    &&& forall|i: int|
        0 < i < h.len() && heap_parent(i) != k ==> !precedes(order, #[trigger] h[i], h[heap_parent(i)])
    &&& k > 0 ==> forall|c: int|
        0 < c < h.len() && heap_parent(c) == k ==> !precedes(order, #[trigger] h[c], h[heap_parent(k)])
}

/// Every slot of the heap array holds an element.
pub open spec fn all_some<T>(slots: Seq<Option<T>>) -> bool {
    forall|i: int| 0 <= i < slots.len() ==> (#[trigger] slots[i]) is Some
}

/// The heap array with the elements in slots `i` and `j` exchanged.
pub open spec fn swapped<T>(h: Seq<T>, i: int, j: int) -> Seq<T> {
    h.update(i, h[j]).update(j, h[i])
}

/// Java's `siftUp` from slot `k`: while the element there precedes its
/// parent, the two change places and the element goes on from the parent's
/// slot.
pub open spec fn sifted_up<T>(order: spec_fn(T, T) -> bool, h: Seq<T>, k: int) -> Seq<T>
    decreases k,
{
    if k <= 0 || k >= h.len() {
        h
    } else if precedes(order, h[k], h[heap_parent(k)]) {
        sifted_up(order, swapped(h, k, heap_parent(k)), heap_parent(k))
    } else {
        h
    }
}

/// The child of slot `k` that a sift down compares with: the right child
/// if there is one and it precedes the left child, else the left child.
pub open spec fn first_child<T>(order: spec_fn(T, T) -> bool, h: Seq<T>, k: int) -> int {
    if 2 * k + 2 < h.len() && precedes(order, h[2 * k + 2], h[2 * k + 1]) {
        2 * k + 2
    } else {
        2 * k + 1
    }
}

/// Java's `siftDown` from slot `k`: while a child precedes the element
/// there, the element changes places with the child that comes first and
/// goes on from that child's slot.
pub open spec fn sifted_down<T>(order: spec_fn(T, T) -> bool, h: Seq<T>, k: int) -> Seq<T>
    decreases h.len() - k,
{
    if k < 0 || k >= h.len() / 2 {
        h
    } else if precedes(order, h[first_child(order, h, k)], h[k]) {
        sifted_down(order, swapped(h, k, first_child(order, h, k)), first_child(order, h, k))
    } else {
        h
    }
}

/// The heap array after the head is removed, before the sift down: the last
/// element takes the head's slot.
pub open spec fn without_head<T>(h: Seq<T>) -> Seq<T> {
    if h.len() > 1 {
        h.drop_last().update(0, h.last())
    } else {
        Seq::empty()
    }
}

proof fn lemma_sift_up_step<T>(order: spec_fn(T, T) -> bool, h: Seq<T>, k: int, p: int)
    requires
        strict_weak_order(order),
        0 < k < h.len(),
        p == heap_parent(k),
        heap_except_up(order, h, k),
        precedes(order, h[k], h[p]),
    ensures
        heap_except_up(order, h.update(k, h[p]).update(p, h[k]), p),
{
    let g = h.update(k, h[p]).update(p, h[k]);
    let x = h[k];
    let a = h[p];
    assert(!precedes(order, a, x));
    assert forall|i: int| 0 < i < g.len() && i != p implies !precedes(order, #[trigger] g[i], g[heap_parent(i)]) by {
        let q = heap_parent(i);
        if i == k {
        } else if q == p {
            // a sibling of k keeps its value; x precedes a, which does not follow the sibling
            assert(!precedes(order, h[i], a));
            assert(!precedes(order, a, x) && !precedes(order, h[i], a) ==> !precedes(order, h[i], x));
        } else if q == k {
            assert(!precedes(order, h[i], h[heap_parent(k)]));
        } else {
            assert(g[i] == h[i]);
            assert(g[q] == h[q]);
        }
    }
    if p > 0 {
        let pp = heap_parent(p);
        assert forall|c: int| 0 < c < g.len() && heap_parent(c) == p implies !precedes(order, #[trigger] g[c], g[heap_parent(p)]) by {
            assert(g[pp] == h[pp]);
            assert(!precedes(order, a, h[pp]));
            if c == k {
            } else {
                assert(!precedes(order, h[c], a));
                assert(!precedes(order, a, h[pp]) && !precedes(order, h[c], a) ==> !precedes(order, h[c], h[pp]));
            }
        }
    }
}

proof fn lemma_sift_up_done<T>(order: spec_fn(T, T) -> bool, h: Seq<T>, k: int)
    requires
        0 <= k < h.len(),
        heap_except_up(order, h, k),
        k == 0 || !precedes(order, h[k], h[heap_parent(k)]),
    ensures
        is_heap(order, h),
{
}

proof fn lemma_sift_down_step<T>(order: spec_fn(T, T) -> bool, h: Seq<T>, k: int, c: int)
    requires
        strict_weak_order(order),
        0 <= k,
        0 < c < h.len(),
        heap_parent(c) == k,
        forall|o: int| 0 < o < h.len() && heap_parent(o) == k ==> !precedes(order, #[trigger] h[o], h[c]),
        precedes(order, h[c], h[k]),
        heap_except_down(order, h, k),
    ensures
        heap_except_down(order, h.update(k, h[c]).update(c, h[k]), c),
{
    let g = h.update(k, h[c]).update(c, h[k]);
    let x = h[k];
    let m = h[c];
    assert(!precedes(order, x, m));
    assert forall|i: int| 0 < i < g.len() && heap_parent(i) != c implies !precedes(order, #[trigger] g[i], g[heap_parent(i)]) by {
        let q = heap_parent(i);
        if i == c {
        } else if q == k {
            assert(!precedes(order, h[i], m));
        } else if i == k {
            assert(!precedes(order, m, h[heap_parent(k)]));
        } else {
            assert(g[i] == h[i]);
            assert(g[q] == h[q]);
        }
    }
    assert forall|d: int| 0 < d < g.len() && heap_parent(d) == c implies !precedes(order, #[trigger] g[d], g[heap_parent(c)]) by {
        assert(g[d] == h[d]);
        assert(!precedes(order, h[d], m));
    }
}

proof fn lemma_sift_down_done<T>(order: spec_fn(T, T) -> bool, h: Seq<T>, k: int)
    requires
        0 <= k < h.len(),
        heap_except_down(order, h, k),
        forall|c: int| 0 < c < h.len() && heap_parent(c) == k ==> !precedes(order, #[trigger] h[c], h[k]),
    ensures
        is_heap(order, h),
{
}

impl<T, F> JavaPriorityQueue<T, F> {
    /// The comparator that orders the queue.
    pub closed spec fn comparator(&self) -> F {
        self.comparator
    }

    /// The order that the comparator's answers follow.
    pub closed spec fn order(&self) -> spec_fn(T, T) -> bool {
        self.order@
    }

    /// Every slot holds an element, the comparator answers by the order,
    /// and the array is a heap under it.
    pub closed spec fn heap_valid(&self) -> bool
        where F: Fn(&T, &T) -> Ordering,
    {
        &&& follows(self.comparator, self.order@)
        &&& forall|i: int| 0 <= i < self.heap@.len() ==> (#[trigger] self.heap@[i]) is Some
        &&& is_heap(self.order@, self@)
    }

    /// An empty queue ordered by `comparator`. Its order is left open: to
    /// reason about what the queue gives back, verified code makes the queue
    /// with `with_order`, which names the order the comparator follows.
    pub fn new(comparator: F) -> (r: Self)
        ensures
            r@ == Seq::<T>::empty(),
            r.comparator() == comparator,
    {
        let r = JavaPriorityQueue { heap: Vec::new(), comparator, order: Ghost(|a: T, b: T| false) };
        assert(r@ =~= Seq::<T>::empty());
        r
    }

    /// An empty queue ordered by `comparator`, whose answers follow `order`.
    pub fn with_order(comparator: F, order: Ghost<spec_fn(T, T) -> bool>) -> (r: Self)
        where F: Fn(&T, &T) -> Ordering,
        requires
            follows(comparator, order@),
        ensures
            r@ == Seq::<T>::empty(),
            r.comparator() == comparator,
            r.order() == order@,
            r.heap_valid(),
    {
        let r = JavaPriorityQueue { heap: Vec::new(), comparator, order };
        assert(r@ =~= Seq::<T>::empty());
        r
    }

    /// An empty queue whose comparator answers by its order is a valid heap.
    pub proof fn lemma_empty_valid(&self)
        where F: Fn(&T, &T) -> Ordering,
        requires
            self@.len() == 0,
            follows(self.comparator(), self.order()),
        ensures
            self.heap_valid(),
    {
    }

    pub fn len(&self) -> (r: usize)
        ensures
            r == self@.len(),
    {
        self.heap.len()
    }

    pub fn is_empty(&self) -> (r: bool)
        ensures
            r == (self@.len() == 0),
    {
        self.heap.len() == 0
    }

    /// Whether the element in slot `i` precedes the one in slot `j`.
    fn less_at(&self, i: usize, j: usize) -> (r: bool)
        where F: Fn(&T, &T) -> Ordering,
        requires
            follows(self.comparator, self.order@),
            i < self.heap@.len(),
            j < self.heap@.len(),
            slot(self.heap@, i) is Some,
            slot(self.heap@, j) is Some,
        ensures
            r == precedes(self.order@, slot(self@, i), slot(self@, j)),
    {
        let a = self.heap[i].as_ref().unwrap();
        let b = self.heap[j].as_ref().unwrap();
        proof {
            assert(call_requires(self.comparator, (a, b)));
        }
        let o = (self.comparator)(a, b);
        proof {
            assert(call_ensures(self.comparator, (a, b), o));
        }
        match o {
            Ordering::Less => true,
            _ => false,
        }
    }

    /// The least element, if any (the head of the queue).
    pub fn peek(&self) -> (r: Option<&T>)
        where F: Fn(&T, &T) -> Ordering,
        requires
            self.heap_valid(),
        ensures
            self@.len() == 0 ==> r is None,
            self@.len() > 0 ==> r == Some(&self@[0]) && is_least(self.order(), self@[0], self@),
    {
        if self.heap.len() == 0 {
            None
        } else {
            proof {
                lemma_heap_root_least(self.order@, self@);
            }
            self.heap[0].as_ref()
        }
    }

    /// Moves the element in slot `k` towards the root while it precedes its
    /// parent (Java's `siftUp`).
    fn sift_up(&mut self, k0: usize)
        where F: Fn(&T, &T) -> Ordering,
        requires
            follows(old(self).comparator, old(self).order@),
            all_some(old(self).heap@),
            k0 < old(self).heap@.len(),
            heap_except_up(old(self).order@, old(self)@, index_of(k0)),
        ensures
            final(self).heap_valid(),
            final(self).comparator == old(self).comparator,
            final(self).order == old(self).order,
            final(self)@.to_multiset() == old(self)@.to_multiset(),
            final(self)@.len() == old(self)@.len(),
            final(self)@ == sifted_up(old(self).order@, old(self)@, index_of(k0)),
    {
        let mut k = k0;
        let mut done = false;
        while k > 0 && !done
            invariant
                follows(self.comparator, self.order@),
                self.comparator == old(self).comparator,
                self.order == old(self).order,
                all_some(self.heap@),
                k < self.heap@.len(),
                self.heap@.len() == old(self).heap@.len(),
                self@.to_multiset() == old(self)@.to_multiset(),
                heap_except_up(self.order@, self@, index_of(k)),
                done ==> is_heap(self.order@, self@),
                sifted_up(self.order@, old(self)@, index_of(k0)) == if done {
                    self@
                } else {
                    sifted_up(self.order@, self@, index_of(k))
                },
            decreases k, if done { 0int } else { 1int },
        {
            let parent = (k - 1) / 2;
            if self.less_at(k, parent) {
                let ghost slots = self.heap@;
                swap_slots(&mut self.heap, k, parent);
                proof {
                    lemma_swap_view(slots, index_of(k), index_of(parent));
                    lemma_sift_up_step(self.order@, unwrap_all(slots), index_of(k), index_of(parent));
                    assert(heap_parent(index_of(k)) == index_of(parent));
                }
                k = parent;
            } else {
                proof {
                    lemma_sift_up_done(self.order@, self@, index_of(k));
                }
                done = true;
            }
        }
        proof {
            if !done {
                lemma_sift_up_done(self.order@, self@, index_of(k));
            }
        }
    }

    /// Moves the element in slot `k` towards the leaves while a child
    /// precedes it, always swapping with the child that comes first (Java's
    /// `siftDown`).
    fn sift_down(&mut self, k0: usize)
        where F: Fn(&T, &T) -> Ordering,
        requires
            follows(old(self).comparator, old(self).order@),
            all_some(old(self).heap@),
            k0 < old(self).heap@.len(),
            heap_except_down(old(self).order@, old(self)@, index_of(k0)),
        ensures
            final(self).heap_valid(),
            final(self).comparator == old(self).comparator,
            final(self).order == old(self).order,
            final(self)@.to_multiset() == old(self)@.to_multiset(),
            final(self)@.len() == old(self)@.len(),
            final(self)@ == sifted_down(old(self).order@, old(self)@, index_of(k0)),
    {
        let n = self.heap.len();
        let half = n / 2;
        let mut k = k0;
        let mut done = false;
        while k < half && !done
            invariant
                follows(self.comparator, self.order@),
                self.comparator == old(self).comparator,
                self.order == old(self).order,
                all_some(self.heap@),
                n == self.heap@.len(),
                half == n / 2,
                k < n,
                self.heap@.len() == old(self).heap@.len(),
                self@.to_multiset() == old(self)@.to_multiset(),
                heap_except_down(self.order@, self@, index_of(k)),
                done ==> is_heap(self.order@, self@),
                sifted_down(self.order@, old(self)@, index_of(k0)) == if done {
                    self@
                } else {
                    sifted_down(self.order@, self@, index_of(k))
                },
            decreases n - k, if done { 0int } else { 1int },
        {
            let left = 2 * k + 1;
            let right = left + 1;
            let mut child = left;
            if right < n && self.less_at(right, left) {
                child = right;
            }
            proof {
                assert forall|o: int| 0 < o < self@.len() && heap_parent(o) == index_of(k) implies !precedes(self.order@,
                    #[trigger] self@[o],
                    self@[index_of(child)],
                ) by {
                    if o != index_of(child) {
                        if child == left {
                            assert(o == index_of(right));
                        } else {
                            assert(o == index_of(left));
                            assert(precedes(self.order@, self@[index_of(right)], self@[index_of(left)]));
                        }
                    }
                }
            }
            if self.less_at(child, k) {
                let ghost slots = self.heap@;
                swap_slots(&mut self.heap, k, child);
                proof {
                    lemma_swap_view(slots, index_of(k), index_of(child));
                    lemma_sift_down_step(self.order@, unwrap_all(slots), index_of(k), index_of(child));
                    assert(first_child(self.order@, unwrap_all(slots), index_of(k)) == index_of(child));
                }
                k = child;
            } else {
                proof {
                    let h = self@;
                    let m = h[index_of(child)];
                    assert forall|c: int| 0 < c < h.len() && heap_parent(c) == index_of(k) implies !precedes(self.order@,
                        #[trigger] h[c],
                        h[index_of(k)],
                    ) by {
                        assert(!precedes(self.order@, h[c], m));
                        assert(!precedes(self.order@, m, h[index_of(k)]) && !precedes(self.order@, h[c], m)
                            ==> !precedes(self.order@, h[c], h[index_of(k)]));
                    }
                    lemma_sift_down_done(self.order@, h, index_of(k));
                }
                done = true;
            }
        }
        proof {
            if !done {
                lemma_sift_down_done(self.order@, self@, index_of(k));
            }
        }
    }

    /// Inserts an element (Java's `add`/`offer`).
    pub fn add(&mut self, item: T)
        where F: Fn(&T, &T) -> Ordering,
        requires
            old(self).heap_valid(),
        ensures
            final(self).heap_valid(),
            final(self).comparator() == old(self).comparator(),
            final(self).order() == old(self).order(),
            final(self)@.len() == old(self)@.len() + 1,
            final(self)@.to_multiset() == old(self)@.to_multiset().insert(item),
            final(self)@ == sifted_up(old(self).order(), old(self)@.push(item), old(self)@.push(item).len() - 1),
    {
        let ghost before = self@;
        self.heap.push(Some(item));
        proof {
            assert(self@ =~= before.push(item));
        }
        let i = self.heap.len() - 1;
        self.sift_up(i);
    }

    /// Removes and returns the least element, if any (Java's `poll`).
    pub fn poll(&mut self) -> (r: Option<T>)
        where F: Fn(&T, &T) -> Ordering,
        requires
            old(self).heap_valid(),
        ensures
            final(self).heap_valid(),
            final(self).comparator() == old(self).comparator(),
            final(self).order() == old(self).order(),
            old(self)@.len() == 0 ==> r is None && final(self)@ == old(self)@,
            old(self)@.len() > 0 ==> {
                &&& r == Some(old(self)@[0])
                &&& is_least(old(self).order(), old(self)@[0], old(self)@)
                &&& final(self)@.len() + 1 == old(self)@.len()
                &&& old(self)@.to_multiset() == final(self)@.to_multiset().insert(old(self)@[0])
                &&& final(self)@ == sifted_down(old(self).order(), without_head(old(self)@), 0)
            },
    {
        if self.heap.len() == 0 {
            return None;
        }
        proof {
            lemma_heap_root_least(self.order@, self@);
        }
        let last = self.heap.len() - 1;
        let ghost slots = self.heap@;
        if last > 0 {
            swap_slots(&mut self.heap, 0, last);
            proof {
                lemma_swap_view(slots, 0, index_of(last));
            }
        }
        let ghost swapped = self@;
        let popped = self.heap.pop();
        let result = popped.unwrap().unwrap();
        proof {
            assert(swapped == self@.push(result));
            assert(swapped.to_multiset() == self@.to_multiset().insert(result));
            assert(result == old(self)@[0]);
            if self@.len() > 0 {
                let h = self@;
                let o = old(self)@;
                assert forall|i: int| 0 < i < h.len() && heap_parent(i) != 0 implies !precedes(self.order@,
                    #[trigger] h[i],
                    h[heap_parent(i)],
                ) by {
                    assert(h[i] == o[i]);
                    assert(h[heap_parent(i)] == o[heap_parent(i)]);
                }
            } else {
                assert(self@.len() == 0);
            }
        }
        proof {
            assert(self@ =~= without_head(old(self)@));
        }
        if self.heap.len() > 0 {
            self.sift_down(0);
        }
        Some(result)
    }
}

/// A sift down from slot `c` leaves the slots before `c` as they were.
proof fn lemma_sifted_down_keeps_prefix<T>(order: spec_fn(T, T) -> bool, h: Seq<T>, c: int, j: int)
    requires
        0 <= j < c,
    ensures
        sifted_down(order, h, c).len() == h.len(),
        j < h.len() ==> sifted_down(order, h, c)[j] == h[j],
    decreases h.len() - c,
{
    if !(c < 0 || c >= h.len() / 2) && precedes(order, h[first_child(order, h, c)], h[c]) {
        let f = first_child(order, h, c);
        lemma_sifted_down_keeps_prefix(order, swapped(h, c, f), f, j);
    }
}

/// Java's sift down from slot `k` whose element is preceded by a child:
/// the right child takes the slot only when it strictly precedes the left
/// child; when the two children tie (neither precedes the other), or there
/// is no right child, the left child takes it.
pub proof fn lemma_sift_down_child_choice<T>(order: spec_fn(T, T) -> bool, h: Seq<T>, k: int)
    requires
        0 <= k,
        2 * k + 1 < h.len(),
    ensures
        ({
            let l = 2 * k + 1;
            let r = 2 * k + 2;
            &&& (r >= h.len() || !precedes(order, h[r], h[l])) && precedes(order, h[l], h[k]) ==> sifted_down(order, h, k)[k] == h[l]
            &&& r < h.len() && precedes(order, h[r], h[l]) && precedes(order, h[r], h[k]) ==> sifted_down(order, h, k)[k] == h[r]
            &&& !precedes(order, h[first_child(order, h, k)], h[k]) ==> sifted_down(order, h, k) == h
        }),
{
    let l = 2 * k + 1;
    let r = 2 * k + 2;
    assert(k < h.len() / 2);
    let f = first_child(order, h, k);
    if precedes(order, h[f], h[k]) {
        lemma_sifted_down_keeps_prefix(order, swapped(h, k, f), f, k);
    }
}

} // verus!
