use vstd::prelude::*;
use vstd::set_lib::set_int_range;
use crate::distance::Distance;
use crate::querry::{Querry, UNBOUNDED_DISTANCE};
use crate::answer::{eligible, is_answer, is_nearest, qualifies, ranks_first};
use crate::vp_tree::VpTree;

verus! {

/// The positions of `s` whose items answer query `q` for `target`.
pub open spec fn qualifying<T, U: Distance<T>>(s: Seq<T>, target: &U, q: Querry) -> Set<int> {
    set_int_range(0, s.len() as int).filter(|i: int| qualifies(target, &s[i], q))
}

/// The positions of `s` whose items are nearer to `target` than `d`.
pub open spec fn closer_than<T, U: Distance<T>>(s: Seq<T>, target: &U, d: u64) -> Set<int> {
    set_int_range(0, s.len() as int).filter(|j: int| target.spec_distance(&s[j]) < d)
}

/// The positions of `s` whose items are at distance `d` or nearer to `target`.
pub open spec fn within<T, U: Distance<T>>(s: Seq<T>, target: &U, d: u64) -> Set<int> {
    set_int_range(0, s.len() as int).filter(|j: int| target.spec_distance(&s[j]) <= d)
}

/// The least distance from `target` to an item of `s`, found by looking at
/// every item in turn; zero for no items.
pub open spec fn min_distance<T, U: Distance<T>>(s: Seq<T>, target: &U) -> u64
    decreases s.len(),
{
    if s.len() == 0 {
        0
    } else if s.len() == 1 {
        target.spec_distance(&s[0])
    } else {
        let rest = min_distance(s.drop_last(), target);
        let last = target.spec_distance(&s.last());
        if last < rest {
            last
        } else {
            rest
        }
    }
}

/// A tree gives back, from `into_items`, exactly the items it was built from,
/// as a multiset.
pub proof fn lemma_round_trip<T: Distance<T>>(items: Seq<T>, tree: VpTree<T>, out: Seq<T>)
    requires
        tree@.to_multiset() == items.to_multiset(),
        out == tree@,
    ensures
        out.to_multiset() == items.to_multiset(),
{
}

/// The positions of an answer, as a set, are as many as the answer is long,
/// and all qualify.
proof fn lemma_answer_set<T, U: Distance<T>>(s: Seq<T>, target: &U, q: Querry, idx: Seq<int>)
    requires
        is_answer(s, target, q, idx),
    ensures
        idx.to_set().len() == idx.len(),
        idx.to_set().subset_of(qualifying(s, target, q)),
        qualifying(s, target, q).finite(),
{
    idx.unique_seq_to_set();
    vstd::set_lib::lemma_int_range(0, s.len() as int);
    assert forall|i: int| idx.to_set().contains(i) implies qualifying(s, target, q).contains(i) by {
        let k = choose|k: int| 0 <= k < idx.len() && idx[k] == i;
    }
}

/// An answer holds as many items as the query allows, or every qualifying
/// item if there are fewer.
pub proof fn lemma_answer_size<T, U: Distance<T>>(s: Seq<T>, target: &U, q: Querry, idx: Seq<int>)
    requires
        is_answer(s, target, q, idx),
    ensures
        idx.len() == if q.max_items < qualifying(s, target, q).len() {
            q.max_items as int
        } else {
            qualifying(s, target, q).len() as int
        },
{
    lemma_answer_set(s, target, q, idx);
    let qs = qualifying(s, target, q);
    vstd::set_lib::lemma_len_subset(idx.to_set(), qs);
    if idx.len() < q.max_items {
        assert forall|i: int| qs.contains(i) implies idx.to_set().contains(i) by {
            assert(idx.contains(i));
        }
        assert(idx.to_set() =~= qs);
    }
}

/// A radius query that may return every item returns exactly the items within
/// the radius (and, if exclusive, not at distance zero).
pub proof fn lemma_radius<T, U: Distance<T>>(
    s: Seq<T>,
    target: &U,
    radius: u64,
    exclusive: bool,
    sorted: bool,
    idx: Seq<int>,
)
    requires
        s.len() < usize::MAX,
        is_answer(
            s,
            target,
            Querry { max_items: usize::MAX, max_distance: radius, exclusive, sorted },
            idx,
        ),
    ensures
        forall|i: int|
            0 <= i < s.len() ==> (#[trigger] idx.contains(i) <==> (target.spec_distance(&s[i]) <= radius
                && (exclusive ==> target.spec_distance(&s[i]) > 0))),
{
    let q = Querry { max_items: usize::MAX, max_distance: radius, exclusive, sorted };
    lemma_answer_set(s, target, q, idx);
    vstd::set_lib::lemma_int_range(0, s.len() as int);
    vstd::set_lib::lemma_len_subset(idx.to_set(), qualifying(s, target, q));
    vstd::set_lib::lemma_len_subset(qualifying(s, target, q), set_int_range(0, s.len() as int));
    assert forall|i: int| 0 <= i < s.len() && #[trigger] idx.contains(i) implies qualifies(target, &s[i], q) by {
        let k = choose|k: int| 0 <= k < idx.len() && idx[k] == i;
    }
}

/// The least distance over all items is that of some item and no item is
/// nearer.
proof fn lemma_min_distance<T, U: Distance<T>>(s: Seq<T>, target: &U)
    requires
        s.len() > 0,
    ensures
        exists|i: int| 0 <= i < s.len() && target.spec_distance(&s[i]) == min_distance(s, target),
        forall|j: int| 0 <= j < s.len() ==> min_distance(s, target) <= target.spec_distance(&#[trigger] s[j]),
    decreases s.len(),
{
    if s.len() > 1 {
        let rest = s.drop_last();
        lemma_min_distance(rest, target);
        let i = choose|i: int| 0 <= i < rest.len() && target.spec_distance(&rest[i]) == min_distance(rest, target);
        assert(s[i] == rest[i]);
        assert forall|j: int| 0 <= j < s.len() implies min_distance(s, target) <= target.spec_distance(
            &#[trigger] s[j],
        ) by {
            if j < s.len() - 1 {
                assert(s[j] == rest[j]);
            }
        }
    } else {
        assert(target.spec_distance(&s[0]) == min_distance(s, target));
    }
}

/// The nearest neighbour is at the least distance that a scan of every item
/// finds.
pub proof fn lemma_nearest_is_minimum<T, U: Distance<T>>(s: Seq<T>, target: &U, i: int)
    requires
        is_nearest(s, target, false, i),
    ensures
        target.spec_distance(&s[i]) == min_distance(s, target),
{
    lemma_min_distance(s, target);
    let j = choose|j: int| 0 <= j < s.len() && target.spec_distance(&s[j]) == min_distance(s, target);
    assert(eligible(target, &s[j], false));
}

/// A k-nearest query returns items in distance order: each returned item has
/// fewer than `k` items strictly nearer, and each item left out has at least
/// `k` items at its distance or nearer. So the answer is the first `k` items of
/// a scan sorted by distance, up to the order of equal distances.
pub proof fn lemma_k_nearest<T, U: Distance<T>>(s: Seq<T>, target: &U, k: usize, sorted: bool, idx: Seq<int>)
    requires
        k >= 1,
        is_answer(
            s,
            target,
            Querry { max_items: k, max_distance: UNBOUNDED_DISTANCE, exclusive: false, sorted },
            idx,
        ),
    ensures
        idx.len() == if k < s.len() {
            k as int
        } else {
            s.len() as int
        },
        forall|a: int|
            0 <= a < idx.len() ==> closer_than(s, target, target.spec_distance(&s[#[trigger] idx[a]])).len() < k,
        forall|i: int|
            0 <= i < s.len() && !idx.contains(i) ==> within(s, target, target.spec_distance(&#[trigger] s[i])).len()
                >= k,
{
    let q = Querry { max_items: k, max_distance: UNBOUNDED_DISTANCE, exclusive: false, sorted };
    let n = s.len() as int;
    vstd::set_lib::lemma_int_range(0, n);
    lemma_answer_set(s, target, q, idx);
    lemma_answer_size(s, target, q, idx);
    assert(qualifying(s, target, q) =~= set_int_range(0, n));
    assert forall|a: int| 0 <= a < idx.len() implies closer_than(
        s,
        target,
        target.spec_distance(&s[#[trigger] idx[a]]),
    ).len() < k by {
        let da = target.spec_distance(&s[idx[a]]);
        let c = closer_than(s, target, da);
        let rest = idx.to_set().remove(idx[a]);
        assert forall|j: int| c.contains(j) implies rest.contains(j) by {
            if !idx.contains(j) {
                assert(target.spec_distance(&s[idx[a]]) <= target.spec_distance(&s[j]));
            }
        }
        vstd::set_lib::lemma_len_subset(c, rest);
    }
    assert forall|i: int| 0 <= i < s.len() && !idx.contains(i) implies within(
        s,
        target,
        target.spec_distance(&#[trigger] s[i]),
    ).len() >= k by {
        let w = within(s, target, target.spec_distance(&s[i]));
        assert forall|j: int| idx.to_set().contains(j) implies w.contains(j) by {
            let b = choose|b: int| 0 <= b < idx.len() && idx[b] == j;
        }
        vstd::set_lib::lemma_len_subset(idx.to_set(), w);
        vstd::set_lib::lemma_len_subset(w, set_int_range(0, n));
    }
}

/// Two queries that differ at most in whether they sort their output have the
/// same answers: the same positions, each once. So a query asked again, or
/// asked sorted and unsorted, returns the same items.
pub proof fn lemma_answers_agree<T, U: Distance<T>>(
    s: Seq<T>,
    target: &U,
    q1: Querry,
    q2: Querry,
    idx1: Seq<int>,
    idx2: Seq<int>,
)
    requires
        q1.max_items == q2.max_items,
        q1.max_distance == q2.max_distance,
        q1.exclusive == q2.exclusive,
        is_answer(s, target, q1, idx1),
        is_answer(s, target, q2, idx2),
    ensures
        idx1.to_set() == idx2.to_set(),
        idx1.to_multiset() == idx2.to_multiset(),
{
    broadcast use vstd::seq_lib::group_to_multiset_ensures;

    lemma_subset_of_other(s, target, q1, q2, idx1, idx2);
    lemma_subset_of_other(s, target, q2, q1, idx2, idx1);
    assert(idx1.to_set() =~= idx2.to_set());
    idx1.lemma_multiset_has_no_duplicates();
    idx2.lemma_multiset_has_no_duplicates();
    assert forall|i: int| idx1.to_multiset().count(i) == idx2.to_multiset().count(i) by {
        assert(idx1.to_set().contains(i) <==> idx2.to_set().contains(i));
        assert(idx1.contains(i) <==> idx2.contains(i));
    }
    assert(idx1.to_multiset() =~= idx2.to_multiset());
}

/// Each position of one answer is in the other.
proof fn lemma_subset_of_other<T, U: Distance<T>>(
    s: Seq<T>,
    target: &U,
    q1: Querry,
    q2: Querry,
    idx1: Seq<int>,
    idx2: Seq<int>,
)
    requires
        q1.max_items == q2.max_items,
        q1.max_distance == q2.max_distance,
        q1.exclusive == q2.exclusive,
        is_answer(s, target, q1, idx1),
        is_answer(s, target, q2, idx2),
    ensures
        idx1.to_set().subset_of(idx2.to_set()),
{
    lemma_answer_set(s, target, q1, idx1);
    lemma_answer_set(s, target, q2, idx2);
    assert forall|x: int| 0 <= x < s.len() implies qualifies(target, &s[x], q1) == qualifies(target, &s[x], q2) by {
    }
    assert forall|i: int| idx1.to_set().contains(i) implies idx2.to_set().contains(i) by {
        if !idx2.contains(i) {
            let a = choose|a: int| 0 <= a < idx1.len() && idx1[a] == i;
            assert(qualifies(target, &s[i], q1));
            assert(qualifies(target, &s[i], q2));
            assert(idx2.len() == q2.max_items);
            // Every position of the second answer ranks before `i`, so it is
            // in the first answer too, which then holds too many.
            assert forall|j: int| idx2.to_set().contains(j) implies idx1.to_set().remove(i).contains(j) by {
                let b = choose|b: int| 0 <= b < idx2.len() && idx2[b] == j;
                assert(ranks_first(s, target, idx2[b], i));
                assert(qualifies(target, &s[j], q1));
                if !idx1.contains(j) {
                    assert(ranks_first(s, target, idx1[a], j));
                }
            }
            vstd::set_lib::lemma_len_subset(idx2.to_set(), idx1.to_set().remove(i));
        }
    }
}

/// The items at the positions `idx` of `s`, in order.
pub open spec fn items_at<T>(s: Seq<T>, idx: Seq<int>) -> Seq<T> {
    idx.map_values(|i: int| s[i])
}

/// Among the items of `s` that answer query `q`, no value occurs twice and no
/// two values are at the same distance from `target`.
pub open spec fn no_ties<T, U: Distance<T>>(s: Seq<T>, target: &U, q: Querry) -> bool {
    &&& forall|x: T|
        qualifies(target, &x, q) ==> #[trigger] s.to_multiset().count(x) <= 1
    &&& forall|x: T, y: T|
        #![trigger s.contains(x), s.contains(y)]
        s.contains(x) && s.contains(y) && x != y && qualifies(target, &x, q) && qualifies(target, &y, q)
            ==> target.spec_distance(&x) != target.spec_distance(&y)
}

/// A value at two positions of a sequence occurs in it at least twice.
proof fn lemma_two_positions<T>(s: Seq<T>, i: int, j: int)
    requires
        0 <= i < s.len(),
        0 <= j < s.len(),
        i != j,
        s[i] == s[j],
    ensures
        s.to_multiset().count(s[i]) >= 2,
{
    broadcast use vstd::seq_lib::group_to_multiset_ensures;
    broadcast use vstd::multiset::group_multiset_axioms;

    vstd::seq_lib::to_multiset_remove(s, i);
    let r = s.remove(i);
    assert(r.len() == s.len() - 1);
    let k = if j < i { j } else { j - 1 };
    assert(r[k] == s[i]);
    assert(r.contains(s[i]));
    assert(r.to_multiset().count(s[i]) > 0);
}

/// The items of an answer are distinct values when the items do not tie.
proof fn lemma_items_at_distinct<T, U: Distance<T>>(s: Seq<T>, target: &U, q: Querry, idx: Seq<int>)
    requires
        is_answer(s, target, q, idx),
        no_ties(s, target, q),
    ensures
        items_at(s, idx).no_duplicates(),
        items_at(s, idx).to_set().len() == idx.len(),
{
    let v = items_at(s, idx);
    assert forall|a: int, b: int| 0 <= a < v.len() && 0 <= b < v.len() && a != b implies v[a] != v[b] by {
        assert(idx[a] != idx[b]);
        if v[a] == v[b] {
            lemma_two_positions(s, idx[a], idx[b]);
            assert(qualifies(target, &s[idx[a]], q));
        }
    }
    v.unique_seq_to_set();
}

/// Under no ties, the items of one answer are among those of another answer
/// to the same query over the same multiset of items.
proof fn lemma_items_subset<T, U: Distance<T>>(
    s1: Seq<T>,
    s2: Seq<T>,
    target: &U,
    q: Querry,
    idx1: Seq<int>,
    idx2: Seq<int>,
)
    requires
        s1.to_multiset() == s2.to_multiset(),
        is_answer(s1, target, q, idx1),
        is_answer(s2, target, q, idx2),
        no_ties(s1, target, q),
        no_ties(s2, target, q),
    ensures
        items_at(s1, idx1).to_set().subset_of(items_at(s2, idx2).to_set()),
{
    broadcast use vstd::seq_lib::group_to_multiset_ensures;

    let r1 = items_at(s1, idx1).to_set();
    let r2 = items_at(s2, idx2).to_set();
    lemma_items_at_distinct(s1, target, q, idx1);
    lemma_items_at_distinct(s2, target, q, idx2);
    assert forall|x: T| r1.contains(x) implies r2.contains(x) by {
        if !r2.contains(x) {
            let a = choose|a: int| 0 <= a < idx1.len() && items_at(s1, idx1)[a] == x;
            assert(s1[idx1[a]] == x);
            assert(qualifies(target, &x, q));
            assert(s1.contains(x));
            assert(s1.to_multiset().count(x) > 0);
            assert(s2.contains(x));
            let j2 = choose|j: int| 0 <= j < s2.len() && s2[j] == x;
            assert(!idx2.contains(j2)) by {
                if idx2.contains(j2) {
                    let b = choose|b: int| 0 <= b < idx2.len() && idx2[b] == j2;
                    assert(items_at(s2, idx2)[b] == x);
                }
            }
            assert(idx2.len() == q.max_items);
            assert forall|y: T| r2.contains(y) implies r1.remove(x).contains(y) by {
                let b = choose|b: int| 0 <= b < idx2.len() && items_at(s2, idx2)[b] == y;
                assert(s2[idx2[b]] == y);
                assert(target.spec_distance(&s2[idx2[b]]) <= target.spec_distance(&s2[j2]));
                assert(s2.contains(y));
                assert(y != x);
                assert(qualifies(target, &y, q));
                assert(target.spec_distance(&y) != target.spec_distance(&x));
                assert(s2.to_multiset().count(y) > 0);
                assert(s1.contains(y));
                let p = choose|p: int| 0 <= p < s1.len() && s1[p] == y;
                if !idx1.contains(p) {
                    assert(target.spec_distance(&s1[idx1[a]]) <= target.spec_distance(&s1[p]));
                } else {
                    let c = choose|c: int| 0 <= c < idx1.len() && idx1[c] == p;
                    assert(items_at(s1, idx1)[c] == y);
                }
            }
            vstd::set_lib::lemma_len_subset(r2, r1.remove(x));
        }
    }
}

/// Two trees built from the same items, whether in one piece or in parts put
/// together with `join`, answer a query with the same multiset of items when
/// the qualifying items do not tie in distance.
pub proof fn lemma_same_items_same_answer<T, U: Distance<T>>(
    s1: Seq<T>,
    s2: Seq<T>,
    target: &U,
    q: Querry,
    idx1: Seq<int>,
    idx2: Seq<int>,
)
    requires
        s1.to_multiset() == s2.to_multiset(),
        is_answer(s1, target, q, idx1),
        is_answer(s2, target, q, idx2),
        no_ties(s1, target, q),
    ensures
        items_at(s1, idx1).to_multiset() == items_at(s2, idx2).to_multiset(),
{
    broadcast use vstd::seq_lib::group_to_multiset_ensures;

    assert(no_ties(s2, target, q)) by {
        assert forall|x: T, y: T|
            #![trigger s2.contains(x), s2.contains(y)]
            s2.contains(x) && s2.contains(y) && x != y && qualifies(target, &x, q) && qualifies(target, &y, q)
                implies target.spec_distance(&x) != target.spec_distance(&y) by {
            assert(s2.to_multiset().count(x) > 0);
            assert(s2.to_multiset().count(y) > 0);
            assert(s1.contains(x));
            assert(s1.contains(y));
        }
    }
    lemma_items_subset(s1, s2, target, q, idx1, idx2);
    lemma_items_subset(s2, s1, target, q, idx2, idx1);
    lemma_items_at_distinct(s1, target, q, idx1);
    lemma_items_at_distinct(s2, target, q, idx2);
    let v1 = items_at(s1, idx1);
    let v2 = items_at(s2, idx2);
    assert(v1.to_set() =~= v2.to_set());
    v1.lemma_multiset_has_no_duplicates();
    v2.lemma_multiset_has_no_duplicates();
    assert forall|x: T| v1.to_multiset().count(x) == v2.to_multiset().count(x) by {
        assert(v1.to_set().contains(x) <==> v2.to_set().contains(x));
        assert(v1.contains(x) <==> v2.contains(x));
    }
    assert(v1.to_multiset() =~= v2.to_multiset());
}

/// The positions of `s` whose items answer query `q` for `target` at distance
/// `v` or nearer.
pub open spec fn qualifying_within<T, U: Distance<T>>(s: Seq<T>, target: &U, q: Querry, v: u64) -> Set<int> {
    set_int_range(0, s.len() as int).filter(|j: int| qualifies(target, &s[j], q) && target.spec_distance(&s[j]) <= v)
}

/// Counting the positions whose items satisfy `p` counts the items that do.
proof fn lemma_positions_count<A>(s: Seq<A>, p: spec_fn(A) -> bool)
    ensures
        set_int_range(0, s.len() as int).filter(|j: int| p(s[j])).finite(),
        set_int_range(0, s.len() as int).filter(|j: int| p(s[j])).len() == s.filter(p).len(),
    decreases s.len(),
{
    let n = s.len() as int;
    vstd::set_lib::lemma_int_range(0, n);
    let ss = set_int_range(0, n).filter(|j: int| p(s[j]));
    vstd::set_lib::lemma_len_subset(ss, set_int_range(0, n));
    if n == 0 {
        assert(ss =~= Set::empty());
        assert(s.filter(p) =~= Seq::<A>::empty()) by {
            s.lemma_filter_len(p);
        }
    } else {
        let t = s.drop_last();
        lemma_positions_count(t, p);
        assert(s =~= t.push(s.last()));
        t.lemma_filter_len_push(p, s.last());
        let st = set_int_range(0, n - 1).filter(|j: int| p(t[j]));
        if p(s.last()) {
            assert(ss =~= st.insert(n - 1));
        } else {
            assert(ss =~= st);
        }
    }
}

/// Two sequences with the same multiset have as many items satisfying `p`.
proof fn lemma_filter_len_same_multiset<A>(s1: Seq<A>, s2: Seq<A>, p: spec_fn(A) -> bool)
    requires
        s1.to_multiset() == s2.to_multiset(),
    ensures
        s1.filter(p).len() == s2.filter(p).len(),
    decreases s1.len(),
{
    broadcast use vstd::seq_lib::group_to_multiset_ensures;

    if s1.len() == 0 {
        vstd::seq_lib::to_multiset_len(s1);
        vstd::seq_lib::to_multiset_len(s2);
        assert(s2.len() == 0);
        assert(s1 =~= s2);
    } else {
        let x = s1.last();
        let n1 = s1.len() as int;
        let n2 = s2.len() as int;
        assert(s1.contains(x)) by {
            assert(s1[n1 - 1] == x);
        }
        assert(s1.to_multiset().count(x) > 0);
        assert(s2.contains(x));
        let j = choose|j: int| 0 <= j < n2 && s2[j] == x;
        let t1 = s1.drop_last();
        let t2 = s2.remove(j);
        vstd::seq_lib::to_multiset_remove(s1, n1 - 1);
        vstd::seq_lib::to_multiset_remove(s2, j);
        assert(s1.remove(n1 - 1) =~= t1);
        lemma_filter_len_same_multiset(t1, t2, p);
        assert(s1 =~= t1.push(x));
        t1.lemma_filter_len_push(p, x);
        let a = s2.subrange(0, j);
        let b = s2.subrange(j + 1, n2);
        assert(s2 =~= a.push(x) + b);
        assert(t2 =~= a + b);
        Seq::filter_distributes_over_add(a.push(x), b, p);
        Seq::filter_distributes_over_add(a, b, p);
        a.lemma_filter_len_push(p, x);
    }
}

/// An answer holds, within any distance `v`, as many items as the query
/// allows or, if fewer, every qualifying item within `v`.
proof fn lemma_answer_within<T, U: Distance<T>>(s: Seq<T>, target: &U, q: Querry, idx: Seq<int>, v: u64)
    requires
        is_answer(s, target, q, idx),
    ensures
        qualifying_within(s, target, q, v).finite(),
        idx.to_set().filter(|i: int| target.spec_distance(&s[i]) <= v).len() == if q.max_items
            < qualifying_within(s, target, q, v).len() {
            q.max_items as int
        } else {
            qualifying_within(s, target, q, v).len() as int
        },
{
    lemma_answer_set(s, target, q, idx);
    vstd::set_lib::lemma_int_range(0, s.len() as int);
    let w = qualifying_within(s, target, q, v);
    let a = idx.to_set().filter(|i: int| target.spec_distance(&s[i]) <= v);
    let r = idx.to_set();
    vstd::set_lib::lemma_len_subset(w, set_int_range(0, s.len() as int));
    vstd::set_lib::lemma_len_subset(a, r);
    assert(a.subset_of(w)) by {
        assert forall|i: int| a.contains(i) implies w.contains(i) by {
            let k = choose|k: int| 0 <= k < idx.len() && idx[k] == i;
        }
    }
    vstd::set_lib::lemma_len_subset(a, w);
    if exists|j: int| w.contains(j) && !idx.contains(j) {
        let j = choose|j: int| w.contains(j) && !idx.contains(j);
        assert(idx.len() == q.max_items);
        assert(a =~= r) by {
            assert forall|i: int| r.contains(i) implies a.contains(i) by {
                let k = choose|k: int| 0 <= k < idx.len() && idx[k] == i;
                assert(ranks_first(s, target, idx[k], j));
            }
        }
    } else {
        assert(a =~= w) by {
            assert forall|i: int| w.contains(i) implies a.contains(i) by {
                assert(idx.contains(i));
            }
        }
        vstd::set_lib::lemma_len_subset(w, r);
    }
}

/// Two trees built from the same items, whether in one piece or in parts put
/// together with `join`, answer a query with the same multiset of distances:
/// for every distance `v`, the two answers hold as many items within `v`.
pub proof fn lemma_same_items_same_distances<T, U: Distance<T>>(
    s1: Seq<T>,
    s2: Seq<T>,
    target: &U,
    q: Querry,
    idx1: Seq<int>,
    idx2: Seq<int>,
    v: u64,
)
    requires
        s1.to_multiset() == s2.to_multiset(),
        is_answer(s1, target, q, idx1),
        is_answer(s2, target, q, idx2),
    ensures
        idx1.to_set().filter(|i: int| target.spec_distance(&s1[i]) <= v).len() == idx2.to_set().filter(
            |i: int| target.spec_distance(&s2[i]) <= v,
        ).len(),
{
    let p = |x: T| qualifies(target, &x, q) && target.spec_distance(&x) <= v;
    lemma_answer_within(s1, target, q, idx1, v);
    lemma_answer_within(s2, target, q, idx2, v);
    lemma_positions_count(s1, p);
    lemma_positions_count(s2, p);
    lemma_filter_len_same_multiset(s1, s2, p);
    assert(set_int_range(0, s1.len() as int).filter(|j: int| p(s1[j])) =~= qualifying_within(s1, target, q, v));
    assert(set_int_range(0, s2.len() as int).filter(|j: int| p(s2[j])) =~= qualifying_within(s2, target, q, v));
}

/// Two trees built from the same items find nearest neighbours at the same
/// distance.
pub proof fn lemma_same_items_same_nearest<T, U: Distance<T>>(
    s1: Seq<T>,
    s2: Seq<T>,
    target: &U,
    exclusive: bool,
    i1: int,
    i2: int,
)
    requires
        s1.to_multiset() == s2.to_multiset(),
        is_nearest(s1, target, exclusive, i1),
        is_nearest(s2, target, exclusive, i2),
    ensures
        target.spec_distance(&s1[i1]) == target.spec_distance(&s2[i2]),
{
    broadcast use vstd::seq_lib::group_to_multiset_ensures;

    assert(s1.contains(s1[i1]));
    assert(s1.to_multiset().count(s1[i1]) > 0);
    assert(s2.contains(s1[i1]));
    let j2 = choose|j: int| 0 <= j < s2.len() && s2[j] == s1[i1];
    assert(target.spec_distance(&s2[i2]) <= target.spec_distance(&s2[j2]));
    assert(s2.contains(s2[i2]));
    assert(s2.to_multiset().count(s2[i2]) > 0);
    assert(s1.contains(s2[i2]));
    let j1 = choose|j: int| 0 <= j < s1.len() && s1[j] == s2[i2];
    assert(target.spec_distance(&s1[i1]) <= target.spec_distance(&s1[j1]));
}

} // verus!
