use vstd::prelude::*;
use crate::distance::Distance;

verus! {

broadcast use vstd::seq_lib::group_to_multiset_ensures;

/// Relies on `fastrand::usize` over `..n`: a value drawn from `0..n`, which
/// panics only when the range is empty.
#[verifier::external_body]
pub(crate) fn random_below(n: usize) -> (r: usize)
    requires
        n > 0,
    ensures
        r < n,
{
    fastrand::usize(..n)
}

/// Relies on `<[T]>::swap`: exchanges the elements at `i` and `j`, which must
/// both be in bounds.
#[verifier::external_body]
pub(crate) fn swap_items<T>(items: &mut [T], i: usize, j: usize)
    requires
        i < old(items)@.len(),
        j < old(items)@.len(),
    ensures
        final(items)@ == old(items)@.update(i as int, old(items)@[j as int]).update(
            j as int,
            old(items)@[i as int],
        ),
{
    items.swap(i, j)
}

/// The sequence `s` with the elements at `i` and `j` exchanged.
pub open spec fn swapped<A>(s: Seq<A>, i: int, j: int) -> Seq<A> {
    s.update(i, s[j]).update(j, s[i])
}

/// Exchanging two elements keeps the multiset of a sequence.
pub proof fn lemma_swapped_multiset<A>(s: Seq<A>, i: int, j: int)
    requires
        0 <= i < s.len(),
        0 <= j < s.len(),
    ensures
        swapped(s, i, j).to_multiset() == s.to_multiset(),
{
    broadcast use vstd::multiset::group_multiset_axioms;

    let s1 = s.update(i, s[j]);
    vstd::seq_lib::to_multiset_update(s, i, s[j]);
    vstd::seq_lib::to_multiset_update(s1, j, s[i]);
    assert(s1[j] == s[j]);
    assert(swapped(s, i, j).to_multiset() =~= s.to_multiset());
}

/// Every key is the pivot's heuristic distance to the item beside it.
pub open spec fn keyed<T: Distance<T>>(pivot: &T, items: Seq<T>, keys: Seq<u64>) -> bool {
    &&& keys.len() == items.len()
    &&& forall|i: int| 0 <= i < keys.len() ==> keys[i] == pivot.spec_heuristic(&#[trigger] items[i])
}

/// Exchanges two entries of `items` and of `keys` together.
fn swap_entries<T: Distance<T>>(pivot: &T, items: &mut [T], keys: &mut Vec<u64>, i: usize, j: usize)
    requires
        keyed(pivot, old(items)@, old(keys)@),
        i < old(items)@.len(),
        j < old(items)@.len(),
    ensures
        final(items)@ == swapped(old(items)@, i as int, j as int),
        final(keys)@ == swapped(old(keys)@, i as int, j as int),
        final(items)@.to_multiset() == old(items)@.to_multiset(),
        keyed(pivot, final(items)@, final(keys)@),
{
    proof {
        lemma_swapped_multiset(items@, i as int, j as int);
    }
    swap_items(items, i, j);
    let ki = keys[i];
    let kj = keys[j];
    keys.set(i, kj);
    keys.set(j, ki);
    assert(keys@ =~= swapped(old(keys)@, i as int, j as int));
    assert forall|x: int| 0 <= x < keys@.len() implies keys@[x] == pivot.spec_heuristic(
        &#[trigger] items@[x],
    ) by {
        if x == i as int {
        } else if x == j as int {
        } else {
        }
    }
}

/// Reorders `items`, with `keys` alongside, so that the entry of rank `nth` by
/// key stands at `nth`, every entry before it has a key no larger and every
/// entry after it a key no smaller.
pub fn select_nth<T: Distance<T>>(pivot: &T, items: &mut [T], keys: &mut Vec<u64>, nth: usize)
    requires
        keyed(pivot, old(items)@, old(keys)@),
        nth < old(items)@.len(),
    ensures
        final(items)@.len() == old(items)@.len(),
        keyed(pivot, final(items)@, final(keys)@),
        final(items)@.to_multiset() == old(items)@.to_multiset(),
        forall|i: int| 0 <= i < nth ==> #[trigger] final(keys)@[i] <= final(keys)@[nth as int],
        forall|i: int|
            nth < i < final(keys)@.len() ==> final(keys)@[nth as int] <= #[trigger] final(keys)@[i],
{
    let n = items.len();
    let mut lo: usize = 0;
    let mut hi: usize = n;
    let ghost mut lo_val: u64 = 0;
    let ghost mut hi_val: u64 = u64::MAX;
    loop
        invariant
            keyed(pivot, items@, keys@),
            items@.to_multiset() == old(items)@.to_multiset(),
            items@.len() == n,
            n == old(items)@.len(),
            lo <= nth < hi <= n,
            forall|p: int| 0 <= p < lo ==> #[trigger] keys@[p] <= lo_val,
            forall|q: int| lo <= q < n ==> lo_val <= #[trigger] keys@[q],
            forall|p: int| 0 <= p < hi ==> #[trigger] keys@[p] <= hi_val,
            forall|q: int| hi <= q < n ==> hi_val <= #[trigger] keys@[q],
        decreases hi - lo,
    {
        let r = lo + random_below(hi - lo);
        swap_entries(pivot, items, keys, lo, r);
        let pv = keys[lo];
        let mut lt: usize = lo;
        let mut i: usize = lo + 1;
        let mut gt: usize = hi;
        while i < gt
            invariant
                keyed(pivot, items@, keys@),
                items@.to_multiset() == old(items)@.to_multiset(),
                items@.len() == n,
                n == old(items)@.len(),
                lo <= lt < i <= gt <= hi <= n,
                lo <= nth < hi,
                forall|p: int| 0 <= p < lo ==> #[trigger] keys@[p] <= lo_val,
                forall|q: int| lo <= q < n ==> lo_val <= #[trigger] keys@[q],
                forall|p: int| 0 <= p < hi ==> #[trigger] keys@[p] <= hi_val,
                forall|q: int| hi <= q < n ==> hi_val <= #[trigger] keys@[q],
                forall|p: int| lo <= p < lt ==> #[trigger] keys@[p] < pv,
                forall|p: int| lt <= p < i ==> #[trigger] keys@[p] == pv,
                forall|p: int| gt <= p < hi ==> #[trigger] keys@[p] > pv,
            decreases gt - i,
        {
            let k = keys[i];
            if k < pv {
                swap_entries(pivot, items, keys, lt, i);
                lt = lt + 1;
                i = i + 1;
            } else if k > pv {
                gt = gt - 1;
                swap_entries(pivot, items, keys, i, gt);
            } else {
                i = i + 1;
            }
        }
        if nth < lt {
            hi = lt;
            proof {
                hi_val = pv;
            }
        } else if nth >= gt {
            lo = gt;
            proof {
                lo_val = pv;
            }
        } else {
            return;
        }
    }
}

} // verus!
