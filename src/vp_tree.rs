use vstd::prelude::*;
use crate::distance::{Distance, Metric};
use crate::answer::{
    eligible, is_answer, is_nearest, lemma_admit, lemma_children, lemma_finish, lemma_nearest_skip,
    lemma_skip, nearest_state, positions, qualifies, search_state, span,
};
use crate::heap_item::{HeapItem, push_bounded};
use crate::querry::Querry;
use crate::select::{lemma_swapped_multiset, random_below, select_nth, swap_items};

verus! {

broadcast use vstd::seq_lib::group_to_multiset_ensures;

/// A position in the tree, or none; `usize::MAX` stands for none.
#[derive(Debug, Clone, Copy, PartialEq, Eq, Structural)]
pub struct OptionalUsize {
    pub value: usize,
}

impl View for OptionalUsize {
    type V = Option<usize>;

    open spec fn view(&self) -> Option<usize> {
        if self.value == usize::MAX {
            None
        } else {
            Some(self.value)
        }
    }
}

impl OptionalUsize {
    /// The position `value`, which must not be `usize::MAX`.
    pub fn new_unchecked(value: usize) -> (r: Self)
        requires
            value != usize::MAX,
        ensures
            r@ == Some(value),
    {
        OptionalUsize { value }
    }

    /// No position.
    pub fn none() -> (r: Self)
        ensures
            r@ == None::<usize>,
    {
        OptionalUsize { value: usize::MAX }
    }

    pub fn as_option(&self) -> (r: Option<usize>)
        ensures
            r == self@,
    {
        if self.value == usize::MAX {
            None
        } else {
            Some(self.value)
        }
    }
}

/// Number of items in the left subtree of a subtree of `len` items.
pub open spec fn left_len(len: int) -> int {
    (len - 1) / 2
}

/// `s` laid out as a subtree with thresholds `t`: the pivot first, then the
/// left subtree of `left_len` items, all within the pivot's threshold, then the
/// right subtree, all at the threshold or beyond.
pub open spec fn subtree_ok<T: Distance<T>>(s: Seq<T>, t: Seq<u64>) -> bool
    decreases s.len(),
{
    &&& s.len() == t.len()
    &&& s.len() > 1 ==> {
        let n = s.len() as int;
        let m = left_len(n);
        &&& partitioned(s, t[0])
        &&& subtree_ok(s.subrange(1, 1 + m), t.subrange(1, 1 + m))
        &&& subtree_ok(s.subrange(1 + m, n), t.subrange(1 + m, n))
    }
}

/// Splits a budget of worker threads between the two halves of a parallel
/// build: the left half gets the larger share.
pub fn split_budget(budget: usize) -> (r: (usize, usize))
    ensures
        r.0 == budget / 2 + budget % 2,
        r.1 == budget / 2,
        r.0 + r.1 == budget,
{
    (budget / 2 + budget % 2, budget / 2)
}

/// Vantage-point tree over items of type `T`.
///
/// The items are stored in depth-first, pivot-first order: a subtree of `len`
/// items starting at `start` has its pivot at `start`, its left subtree in
/// the next `(len - 1) / 2` positions and its right subtree in the rest. The
/// pivot's threshold is stored at the same position.
pub struct VpTree<T: Distance<T>> {
    items: Vec<T>,
    thresholds: Vec<u64>,
    root: OptionalUsize,
}

impl<T: Distance<T>> View for VpTree<T> {
    type V = Seq<T>;

    /// The stored items, in the tree's order.
    closed spec fn view(&self) -> Seq<T> {
        self.items@
    }
}

/// The pivot `s[0]` of at least two items splits the rest of `s` at `thr`:
/// the first `left_len` items lie within `thr` of it, the others at `thr` or
/// beyond, and `thr` is its distance to one of those others, the nearest.
pub open spec fn partitioned<T: Distance<T>>(s: Seq<T>, thr: u64) -> bool {
    let n = s.len() as int;
    let m = left_len(n);
    &&& forall|i: int| 1 <= i < 1 + m ==> s[0].spec_distance(&#[trigger] s[i]) <= thr
    &&& forall|i: int| 1 + m <= i < n ==> s[0].spec_distance(&#[trigger] s[i]) >= thr
    &&& exists|i: int| 1 + m <= i < n && s[0].spec_distance(&#[trigger] s[i]) == thr
}

/// Picks a random pivot, moves it to the front and arranges the other items
/// around the median of their distances to it; returns the threshold.
fn partition_in_place<T: Distance<T>>(items: &mut [T]) -> (thr: u64)
    requires
        old(items)@.len() >= 2,
    ensures
        final(items)@.len() == old(items)@.len(),
        final(items)@.to_multiset() == old(items)@.to_multiset(),
        partitioned(final(items)@, thr),
{
    let n = items.len();
    let r = random_below(n);
    proof {
        lemma_swapped_multiset(items@, 0, r as int);
    }
    swap_items(items, 0, r);
    let ghost swapped = items@;
    let m = (n - 1) / 2;
    let (first, rest) = items.split_at_mut(1);
    let pivot = &first[0];
    let mut keys: Vec<u64> = Vec::with_capacity(n - 1);
    let mut j: usize = 0;
    while j < rest.len()
        invariant
            j <= rest@.len(),
            keys@.len() == j,
            forall|i: int| 0 <= i < j ==> keys@[i] == pivot.spec_heuristic(&#[trigger] rest@[i]),
        decreases rest@.len() - j,
    {
        keys.push(pivot.distance_heuristic(&rest[j]));
        j = j + 1;
    }
    let ghost rest_before = rest@;
    select_nth(pivot, rest, &mut keys, m);
    let thr = pivot.distance(&rest[m]);
    proof {
        let s = first@ + rest@;
        assert(s[0] == *pivot);
        assert(s[1 + m] == rest@[m as int]);
        assert(s[0].spec_distance(&s[1 + m]) == thr);
        assert forall|i: int| 1 <= i < 1 + m implies s[0].spec_distance(&#[trigger] s[i]) <= thr by {
            assert(s[i] == rest@[i - 1]);
            assert(keys@[i - 1] <= keys@[m as int]);
            assert(keys@[i - 1] == pivot.spec_heuristic(&rest@[i - 1]));
            assert(keys@[m as int] == pivot.spec_heuristic(&rest@[m as int]));
            pivot.lemma_heuristic_order(&rest@[i - 1], &rest@[m as int]);
        }
        assert forall|i: int| 1 + m <= i < n implies s[0].spec_distance(&#[trigger] s[i]) >= thr by {
            assert(s[i] == rest@[i - 1]);
            if i - 1 > m {
                assert(keys@[m as int] <= keys@[i - 1]);
                assert(keys@[i - 1] == pivot.spec_heuristic(&rest@[i - 1]));
                assert(keys@[m as int] == pivot.spec_heuristic(&rest@[m as int]));
                pivot.lemma_heuristic_order(&rest@[m as int], &rest@[i - 1]);
            }
        }
        vstd::seq_lib::lemma_multiset_commutative(first@, rest@);
        vstd::seq_lib::lemma_multiset_commutative(first@, rest_before);
        assert(swapped =~= first@ + rest_before);
    }
    thr
}

/// Builds a subtree in place: reorders `items` and fills `thresholds`.
#[verifier::rlimit(40)]
fn build_from_points<T: Distance<T>>(items: &mut [T], thresholds: &mut [u64])
    requires
        old(items)@.len() == old(thresholds)@.len(),
    ensures
        final(items)@.len() == old(items)@.len(),
        final(items)@.to_multiset() == old(items)@.to_multiset(),
        subtree_ok(final(items)@, final(thresholds)@),
        old(items)@.len() <= 1 ==> final(items)@ == old(items)@ && final(thresholds)@ == old(thresholds)@,
    decreases old(items)@.len(),
{
    let n = items.len();
    if n <= 1 {
        return;
    }
    let thr = partition_in_place(items);
    let ghost parted = items@;
    let m = (n - 1) / 2;
    let (first, rest) = items.split_at_mut(1);
    let (left, right) = rest.split_at_mut(m);
    let (tfirst, trest) = thresholds.split_at_mut(1);
    tfirst[0] = thr;
    let (tleft, tright) = trest.split_at_mut(m);
    let ghost left_before = left@;
    let ghost right_before = right@;
    build_from_points(left, tleft);
    build_from_points(right, tright);
    proof {
        let s = items@;
        let t = thresholds@;
        assert(s =~= first@ + (left@ + right@));
        assert(t =~= tfirst@ + (tleft@ + tright@));
        assert(parted =~= first@ + (left_before + right_before));
        assert(s.subrange(1, 1 + m) =~= left@);
        assert(s.subrange(1 + m, n as int) =~= right@);
        assert(t.subrange(1, 1 + m) =~= tleft@);
        assert(t.subrange(1 + m, n as int) =~= tright@);
        assert forall|i: int| 1 <= i < 1 + m implies s[0].spec_distance(&#[trigger] s[i]) <= t[0] by {
            assert(left@[i - 1] == s[i]);
            assert(left@.contains(s[i]));
            assert(left@.to_multiset().count(s[i]) > 0);
            assert(left_before.contains(s[i]));
            let k = choose|k: int| 0 <= k < left_before.len() && left_before[k] == s[i];
            assert(parted[1 + k] == s[i]);
        }
        assert forall|i: int| 1 + m <= i < n implies s[0].spec_distance(&#[trigger] s[i]) >= t[0] by {
            assert(right@[i - 1 - m] == s[i]);
            assert(right@.contains(s[i]));
            assert(right@.to_multiset().count(s[i]) > 0);
            assert(right_before.contains(s[i]));
            let k = choose|k: int| 0 <= k < right_before.len() && right_before[k] == s[i];
            assert(parted[1 + m + k] == s[i]);
        }
        let w = choose|w: int| 1 + m <= w < n && parted[0].spec_distance(&#[trigger] parted[w]) == thr;
        assert(right_before[w - 1 - m] == parted[w]);
        assert(right_before.contains(parted[w]));
        assert(right_before.to_multiset().count(parted[w]) > 0);
        assert(right@.contains(parted[w]));
        let k = choose|k: int| 0 <= k < right@.len() && right@[k] == parted[w];
        assert(s[1 + m + k] == parted[w]);
        assert(s[0].spec_distance(&s[1 + m + k]) == t[0]);
        vstd::seq_lib::lemma_multiset_commutative(left@, right@);
        vstd::seq_lib::lemma_multiset_commutative(left_before, right_before);
        vstd::seq_lib::lemma_multiset_commutative(first@, left@ + right@);
        vstd::seq_lib::lemma_multiset_commutative(first@, left_before + right_before);
    }
}

impl<T: Distance<T>> VpTree<T> {
    #[verifier::type_invariant]
    closed spec fn wf(self) -> bool {
        &&& subtree_ok(self.items@, self.thresholds@)
        &&& self.root@ == (if self.items@.len() == 0 {
            None::<usize>
        } else {
            Some(0usize)
        })
    }

    fn from_parts(items: Vec<T>, thresholds: Vec<u64>) -> (tree: Self)
        requires
            subtree_ok(items@, thresholds@),
        ensures
            tree@ == items@,
    {
        let root = if items.len() == 0 {
            OptionalUsize::none()
        } else {
            OptionalUsize::new_unchecked(0)
        };
        VpTree { items, thresholds, root }
    }

    /// Builds a tree of `items`. The tree keeps exactly these items, in an order
    /// of its own.
    pub fn new(items: Vec<T>) -> (tree: Self)
        ensures
            tree@.len() == items@.len(),
            tree@.to_multiset() == items@.to_multiset(),
    {
        let mut items = items;
        let n = items.len();
        let mut thresholds: Vec<u64> = vec![0u64; n];
        build_from_points(items.as_mut_slice(), thresholds.as_mut_slice());
        VpTree::from_parts(items, thresholds)
    }

    /// Number of stored items.
    pub fn len(&self) -> (n: usize)
        ensures
            n == self@.len(),
    {
        self.items.len()
    }

    /// The stored items, in the tree's order.
    pub fn items(&self) -> (r: &[T])
        ensures
            r@ == self@,
    {
        self.items.as_slice()
    }

    /// Gives the stored items back, in the tree's order.
    pub fn into_items(self) -> (r: Vec<T>)
        ensures
            r@ == self@,
    {
        self.items
    }

    /// First step of building a tree of `items`, at least two of them: a
    /// random pivot, and the others split into the `(n - 1) / 2` nearest to it
    /// and the rest. Each part can then be built on its own and the whole put
    /// together with [`Self::join`].
    pub fn partition(items: Vec<T>) -> (r: (T, Vec<T>, Vec<T>))
        requires
            items@.len() >= 2,
        ensures
            r.1@.len() == left_len(items@.len() as int),
            (seq![r.0] + r.1@ + r.2@).to_multiset() == items@.to_multiset(),
            forall|x: T, y: T|
                r.1@.contains(x) && r.2@.contains(y) ==> r.0.spec_distance(&x) <= r.0.spec_distance(
                    &y,
                ),
    {
        let mut items = items;
        let n = items.len();
        let thr = partition_in_place(items.as_mut_slice());
        let ghost parted = items@;
        let m = (n - 1) / 2;
        let right = items.split_off(1 + m);
        let left = items.split_off(1);
        let pivot = items.pop().unwrap();
        proof {
            assert(parted =~= seq![pivot] + left@ + right@);
            assert forall|x: T, y: T| left@.contains(x) && right@.contains(y) implies pivot.spec_distance(
                &x,
            ) <= pivot.spec_distance(&y) by {
                let i = choose|i: int| 0 <= i < left@.len() && left@[i] == x;
                let k = choose|k: int| 0 <= k < right@.len() && right@[k] == y;
                assert(parted[1 + i] == x);
                assert(parted[1 + m + k] == y);
            }
        }
        (pivot, left, right)
    }

    /// Puts a tree together from a pivot and the trees of its two parts. This
    /// succeeds when `left` holds `(n - 1) / 2` of the `n` items and no item of
    /// `left` is farther from the pivot than an item of `right`; otherwise it
    /// gives back `None`.
    pub fn join(pivot: T, left: Self, right: Self) -> (r: Option<Self>)
        ensures
            r is Some <==> (left@.len() == left_len(1 + left@.len() + right@.len() as int) && forall|
                x: T,
                y: T,
            |
                left@.contains(x) && right@.contains(y) ==> pivot.spec_distance(&x)
                    <= pivot.spec_distance(&y)),
            r matches Some(t) ==> t@ == seq![pivot] + left@ + right@,
    {
        proof {
            use_type_invariant(&left);
            use_type_invariant(&right);
        }
        let VpTree { items: mut left_items, thresholds: mut left_thresholds, .. } = left;
        let VpTree { items: mut right_items, thresholds: mut right_thresholds, .. } = right;
        let nl = left_items.len();
        let nr = right_items.len();
        if nr < nl || nr - nl > 1 {
            return None;
        }
        let mut far_left: u64 = 0;
        let mut i: usize = 0;
        while i < nl
            invariant
                i <= nl == left_items@.len(),
                forall|k: int| 0 <= k < i ==> pivot.spec_distance(&#[trigger] left_items@[k]) <= far_left,
                i > 0 ==> exists|k: int| 0 <= k < i && pivot.spec_distance(&left_items@[k]) == far_left,
            decreases nl - i,
        {
            let d = pivot.distance(&left_items[i]);
            if d > far_left || i == 0 {
                far_left = d;
            }
            i = i + 1;
        }
        let mut near_right: u64 = u64::MAX;
        let mut j: usize = 0;
        while j < nr
            invariant
                j <= nr == right_items@.len(),
                forall|k: int| 0 <= k < j ==> near_right <= pivot.spec_distance(&#[trigger] right_items@[k]),
                j > 0 ==> exists|k: int| 0 <= k < j && pivot.spec_distance(&right_items@[k]) == near_right,
            decreases nr - j,
        {
            let d = pivot.distance(&right_items[j]);
            if d < near_right || j == 0 {
                near_right = d;
            }
            j = j + 1;
        }
        if nl > 0 && far_left > near_right {
            proof {
                let x = choose|k: int| 0 <= k < nl && pivot.spec_distance(&left_items@[k]) == far_left;
                let y = choose|k: int| 0 <= k < nr && pivot.spec_distance(&right_items@[k]) == near_right;
                assert(left_items@.contains(left_items@[x]));
                assert(right_items@.contains(right_items@[y]));
            }
            return None;
        }
        let ghost ls = left_items@;
        let ghost rs = right_items@;
        let ghost lt = left_thresholds@;
        let ghost rt = right_thresholds@;
        let thr = if nr > 0 { near_right } else { 0 };
        let mut items: Vec<T> = Vec::new();
        items.push(pivot);
        items.append(&mut left_items);
        items.append(&mut right_items);
        let mut thresholds: Vec<u64> = Vec::new();
        thresholds.push(thr);
        thresholds.append(&mut left_thresholds);
        thresholds.append(&mut right_thresholds);
        proof {
            let s = items@;
            let t = thresholds@;
            let n = s.len() as int;
            assert(s =~= seq![s[0]] + ls + rs);
            assert(t =~= seq![thr] + lt + rt);
            assert(s.subrange(1, 1 + nl) =~= ls);
            assert(s.subrange(1 + nl, n) =~= rs);
            assert(t.subrange(1, 1 + nl) =~= lt);
            assert(t.subrange(1 + nl, n) =~= rt);
            assert forall|x: T, y: T| ls.contains(x) && rs.contains(y) implies s[0].spec_distance(&x)
                <= s[0].spec_distance(&y) by {
                let k = choose|k: int| 0 <= k < nl && ls[k] == x;
                let q = choose|q: int| 0 <= q < nr && rs[q] == y;
                assert(s[0].spec_distance(&ls[k]) <= far_left);
            }
            if nr > 0 {
                let w = choose|k: int| 0 <= k < nr && s[0].spec_distance(&rs[k]) == near_right;
                assert(s[1 + nl + w] == rs[w]);
                assert(partitioned(s, thr));
            }
        }
        Some(VpTree::from_parts(items, thresholds))
    }

    /// Looks at the subtree of `len` positions from `start`: admits each item
    /// that qualifies and is within `tau`, tightening `tau` once the buffer is
    /// full, and skips a child subtree that the triangle inequality shows to
    /// lie beyond `tau`.
    fn search_rec<U: Metric<T>>(
        &self,
        target: &U,
        q: &Querry,
        start: usize,
        len: usize,
        heap: &mut Vec<HeapItem>,
        tau: &mut u64,
        Ghost(done): Ghost<Set<int>>,
    )
        requires
            start + len <= self.items@.len(),
            subtree_ok(
                self.items@.subrange(start as int, start + len),
                self.thresholds@.subrange(start as int, start + len),
            ),
            search_state(self.items@, target, *q, old(heap)@, *old(tau), done),
            forall|i: int| #[trigger] span(start as int, len as int).contains(i) ==> !done.contains(i),
        ensures
            search_state(self.items@, target, *q, final(heap)@, *final(tau), done + span(start as int, len as int)),
            len == 0 ==> final(heap)@ == old(heap)@ && *final(tau) == *old(tau),
        decreases len,
    {
        let ghost s = self.items@;
        // Reading the length tells the proofs that positions fit in a usize.
        let _n = self.items.len();
        if len == 0 {
            proof {
                assert(done + span(start as int, 0) =~= done);
            }
            return;
        }
        proof {
            use_type_invariant(self);
        }
        let dist = target.distance(&self.items[start]);
        let ghost done1 = done.insert(start as int);
        assert(span(start as int, len as int).contains(start as int));
        let outranked = heap.len() == q.max_items && dist == *tau && heap[heap.len() - 1].index < start;
        if dist <= *tau && (!q.exclusive || dist > 0) && !outranked {
            let ghost b0 = heap@;
            assert forall|j: int| 0 <= j < heap@.len() implies (#[trigger] heap@[j]).index != start by {
                assert(done.contains(heap@[j].index as int));
            }
            let ghost t0 = *tau;
            let pos = push_bounded(heap, HeapItem { index: start, distance: dist }, q.max_items);
            if heap.len() == q.max_items {
                *tau = heap[heap.len() - 1].distance;
            }
            proof {
                lemma_admit(s, target, *q, b0, t0, done, start as int, pos as int, heap@, *tau);
            }
        } else {
            proof {
                lemma_skip(s, target, *q, heap@, *tau, done, set![start as int]);
                assert(done + set![start as int] =~= done1);
            }
        }
        if len == 1 {
            proof {
                assert(done + span(start as int, 1) =~= done1);
            }
            return;
        }
        let m = (len - 1) / 2;
        let thr = self.thresholds[start];
        let ls = start + 1;
        let rs = start + 1 + m;
        let rl = len - 1 - m;
        proof {
            lemma_children(s, self.thresholds@, start as int, len as int, done);
        }
        if dist <= thr {
            self.search_rec(target, q, ls, m, heap, tau, Ghost(done1));
            let ghost done2 = done1 + span(ls as int, m as int);
            if *tau >= thr - dist {
                self.search_rec(target, q, rs, rl, heap, tau, Ghost(done2));
            } else {
                proof {
                    assert forall|i: int| #[trigger] span(rs as int, rl as int).contains(i) && 0 <= i < s.len()
                        implies target.spec_distance(&s[i]) > *tau || !qualifies(target, &s[i], *q) by {
                        target.lemma_triangle(&s[start as int], &s[i]);
                    }
                    lemma_skip(s, target, *q, heap@, *tau, done2, span(rs as int, rl as int));
                }
            }
        } else {
            self.search_rec(target, q, rs, rl, heap, tau, Ghost(done1));
            let ghost done2 = done1 + span(rs as int, rl as int);
            if dist - thr <= *tau {
                self.search_rec(target, q, ls, m, heap, tau, Ghost(done2));
            } else {
                proof {
                    assert forall|i: int| #[trigger] span(ls as int, m as int).contains(i) && 0 <= i < s.len()
                        implies target.spec_distance(&s[i]) > *tau || !qualifies(target, &s[i], *q) by {
                        target.lemma_triangle(&s[start as int], &s[i]);
                    }
                    lemma_skip(s, target, *q, heap@, *tau, done2, span(ls as int, m as int));
                }
            }
        }
    }

    /// The items that answer `querry` for `target`: at most `max_items` of
    /// them, each within `max_distance` (and not at distance zero if the query
    /// is exclusive), all such items when fewer, and each nearer than any
    /// such item left out, or as near and stored earlier; closest first when
    /// the query is sorted.
    pub fn querry<U: Metric<T>>(&self, target: &U, querry: Querry) -> (r: Vec<&T>)
        ensures
            exists|idx: Seq<int>|
                #[trigger] is_answer(self@, target, querry, idx) && r@.len() == idx.len() && forall|k: int|
                    0 <= k < idx.len() ==> *r@[k] == self@[idx[k]],
    {
        let mut heap: Vec<HeapItem> = Vec::new();
        let mut out: Vec<&T> = Vec::new();
        if querry.max_items == 0 {
            proof {
                assert(is_answer(self@, target, querry, Seq::empty()));
            }
            return out;
        }
        let mut tau = querry.max_distance;
        let n = self.items.len();
        proof {
            use_type_invariant(self);
            assert(self.items@.subrange(0, n as int) =~= self.items@);
            assert(self.thresholds@.subrange(0, n as int) =~= self.thresholds@);
            assert(Set::<int>::empty() + span(0, n as int) =~= span(0, n as int));
        }
        if let Some(root) = self.root.as_option() {
            self.search_rec(target, &querry, root, n, &mut heap, &mut tau, Ghost(Set::empty()));
        } else {
            proof {
                assert(Set::<int>::empty() =~= span(0, n as int));
            }
        }
        proof {
            lemma_finish(self.items@, target, querry, heap@, tau);
        }
        let ghost idx = positions(heap@);
        assert(forall|k: int| 0 <= k < heap@.len() ==> idx[k] == heap@[k].index as int);
        let mut j: usize = 0;
        while j < heap.len()
            invariant
                j <= heap@.len(),
                out@.len() == j,
                idx == positions(heap@),
                forall|k: int| 0 <= k < heap@.len() ==> idx[k] == heap@[k].index as int,
                is_answer(self@, target, querry, idx),
                self@ == self.items@,
                forall|k: int| 0 <= k < j ==> *out@[k] == self@[idx[k]],
            decreases heap@.len() - j,
        {
            assert(idx[j as int] < self@.len());
            out.push(&self.items[heap[j].index]);
            j = j + 1;
        }
        out
    }

    /// Looks at the subtree of `len` positions from `start` for an eligible
    /// item nearer than `best`, skipping a child subtree that the triangle
    /// inequality shows to hold none.
    fn search_nearest_rec<U: Metric<T>>(
        &self,
        target: &U,
        start: usize,
        len: usize,
        best: &mut Option<usize>,
        best_distance: &mut u64,
        exclusive: bool,
        Ghost(done): Ghost<Set<int>>,
    )
        requires
            start + len <= self.items@.len(),
            subtree_ok(
                self.items@.subrange(start as int, start + len),
                self.thresholds@.subrange(start as int, start + len),
            ),
            nearest_state(self.items@, target, exclusive, *old(best), *old(best_distance), done),
            forall|i: int| #[trigger] span(start as int, len as int).contains(i) ==> !done.contains(i),
        ensures
            nearest_state(
                self.items@,
                target,
                exclusive,
                *final(best),
                *final(best_distance),
                done + span(start as int, len as int),
            ),
            *final(best_distance) <= *old(best_distance),
            *old(best) is Some ==> *final(best) is Some,
            *final(best) != *old(best) ==> (*old(best) is None || *final(best_distance) < *old(best_distance)),
            len == 0 ==> *final(best) == *old(best) && *final(best_distance) == *old(best_distance),
        decreases len,
    {
        let ghost s = self.items@;
        // Reading the length tells the proofs that positions fit in a usize.
        let _n = self.items.len();
        if len == 0 {
            proof {
                assert(done + span(start as int, 0) =~= done);
            }
            return;
        }
        proof {
            use_type_invariant(self);
        }
        let dist = target.distance(&self.items[start]);
        let ghost done1 = done.insert(start as int);
        assert(span(start as int, len as int).contains(start as int));
        if (best.is_none() || dist < *best_distance) && (!exclusive || dist > 0) {
            *best_distance = dist;
            *best = Some(start);
            proof {
                assert forall|i: int|
                    #[trigger] done1.contains(i) && 0 <= i < s.len() && eligible(target, &s[i], exclusive)
                        implies dist <= target.spec_distance(&s[i]) by {
                    if i != start {
                        assert(done.contains(i));
                    }
                }
            }
        } else {
            proof {
                lemma_nearest_skip(s, target, exclusive, *best, *best_distance, done, set![start as int]);
                assert(done + set![start as int] =~= done1);
            }
        }
        if len == 1 {
            proof {
                assert(done + span(start as int, 1) =~= done1);
            }
            return;
        }
        let m = (len - 1) / 2;
        let thr = self.thresholds[start];
        let ls = start + 1;
        let rs = start + 1 + m;
        let rl = len - 1 - m;
        proof {
            lemma_children(s, self.thresholds@, start as int, len as int, done);
        }
        if dist <= thr {
            self.search_nearest_rec(target, ls, m, best, best_distance, exclusive, Ghost(done1));
            let ghost done2 = done1 + span(ls as int, m as int);
            if *best_distance >= thr - dist {
                self.search_nearest_rec(target, rs, rl, best, best_distance, exclusive, Ghost(done2));
            } else {
                proof {
                    assert forall|i: int| #[trigger] span(rs as int, rl as int).contains(i) && 0 <= i < s.len()
                        implies (*best is Some && target.spec_distance(&s[i]) >= *best_distance) || !eligible(
                        target,
                        &s[i],
                        exclusive,
                    ) by {
                        target.lemma_triangle(&s[start as int], &s[i]);
                    }
                    lemma_nearest_skip(s, target, exclusive, *best, *best_distance, done2, span(rs as int, rl as int));
                }
            }
        } else {
            self.search_nearest_rec(target, rs, rl, best, best_distance, exclusive, Ghost(done1));
            let ghost done2 = done1 + span(rs as int, rl as int);
            if dist - thr <= *best_distance {
                self.search_nearest_rec(target, ls, m, best, best_distance, exclusive, Ghost(done2));
            } else {
                proof {
                    assert forall|i: int| #[trigger] span(ls as int, m as int).contains(i) && 0 <= i < s.len()
                        implies (*best is Some && target.spec_distance(&s[i]) >= *best_distance) || !eligible(
                        target,
                        &s[i],
                        exclusive,
                    ) by {
                        target.lemma_triangle(&s[start as int], &s[i]);
                    }
                    lemma_nearest_skip(s, target, exclusive, *best, *best_distance, done2, span(ls as int, m as int));
                }
            }
        }
    }

    /// The nearest item to `target` among those that are eligible, at distance
    /// zero or not as `exclusive` says; none when there is no such item.
    fn nearest<U: Metric<T>>(&self, target: &U, exclusive: bool) -> (r: Option<&T>)
        ensures
            r is None <==> forall|i: int| 0 <= i < self@.len() ==> !eligible(target, &self@[i], exclusive),
            r matches Some(x) ==> exists|i: int| #[trigger] is_nearest(self@, target, exclusive, i) && *x == self@[i],
    {
        let mut best: Option<usize> = None;
        let mut best_distance: u64 = u64::MAX;
        let n = self.items.len();
        proof {
            use_type_invariant(self);
            assert(self.items@.subrange(0, n as int) =~= self.items@);
            assert(self.thresholds@.subrange(0, n as int) =~= self.thresholds@);
            assert(Set::<int>::empty() + span(0, n as int) =~= span(0, n as int));
        }
        if let Some(root) = self.root.as_option() {
            self.search_nearest_rec(target, root, n, &mut best, &mut best_distance, exclusive, Ghost(Set::empty()));
        } else {
            proof {
                assert(Set::<int>::empty() =~= span(0, n as int));
            }
        }
        proof {
            assert forall|i: int| 0 <= i < n implies #[trigger] span(0, n as int).contains(i) by {
            }
        }
        match best {
            Some(b) => {
                proof {
                    let s = self@;
                    assert forall|j: int| 0 <= j < s.len() && eligible(target, &s[j], exclusive) implies target.spec_distance(
                        &s[b as int],
                    ) <= target.spec_distance(&#[trigger] s[j]) by {
                        assert(span(0, n as int).contains(j));
                    }
                    assert(is_nearest(self@, target, exclusive, b as int));
                    assert(eligible(target, &s[b as int], exclusive));
                    assert(!(forall|i: int| 0 <= i < self@.len() ==> !eligible(target, &self@[i], exclusive)))
                        by {
                        assert(0 <= b < self@.len());
                        assert(eligible(target, &self@[b as int], exclusive));
                    }
                }
                Some(&self.items[b])
            },
            None => {
                proof {
                    assert forall|i: int| 0 <= i < self@.len() implies !eligible(target, &self@[i], exclusive) by {
                        assert(span(0, n as int).contains(i));
                    }
                }
                None
            },
        }
    }

    /// The nearest item to `target`, which may be at distance zero; none only
    /// when the tree is empty.
    pub fn nearest_neighbor<U: Metric<T>>(&self, target: &U) -> (r: Option<&T>)
        ensures
            r is None <==> self@.len() == 0,
            r matches Some(x) ==> exists|i: int| #[trigger] is_nearest(self@, target, false, i) && *x == self@[i],
    {
        let r = self.nearest(target, false);
        proof {
            if self@.len() > 0 {
                assert(eligible(target, &self@[0], false));
            }
        }
        r
    }

    /// The nearest item to `target` at a distance above zero; none when there
    /// is no such item.
    pub fn nearest_neighbor_exclusive<U: Metric<T>>(&self, target: &U) -> (r: Option<&T>)
        ensures
            r is None <==> forall|i: int| 0 <= i < self@.len() ==> target.spec_distance(&self@[i]) == 0,
            r matches Some(x) ==> exists|i: int| #[trigger] is_nearest(self@, target, true, i) && *x == self@[i],
    {
        self.nearest(target, true)
    }
}

} // verus!
