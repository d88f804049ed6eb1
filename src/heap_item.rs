use vstd::prelude::*;

verus! {

/// A candidate of a search: a position in the tree and its distance to the
/// target.
#[derive(Debug, Clone, Copy, PartialEq, Eq, Structural)]
pub struct HeapItem {
    pub index: usize,
    pub distance: u64,
}

/// Candidate `a` ranks strictly before `b`: it is nearer, or as near at an
/// earlier position.
pub open spec fn ranks_before(a: HeapItem, b: HeapItem) -> bool {
    a.distance < b.distance || (a.distance == b.distance && a.index < b.index)
}

/// The candidates are in ascending order of rank: of distance, and of
/// position among equal distances.
pub open spec fn sorted_by_rank(b: Seq<HeapItem>) -> bool {
    forall|i: int, j: int| 0 <= i < j < b.len() ==> ranks_before(#[trigger] b[i], #[trigger] b[j])
}

/// What stays of a buffer of capacity `k` before one more candidate goes in:
/// all of it while it has room, else all but its farthest candidate.
pub open spec fn kept(b: Seq<HeapItem>, k: usize) -> Seq<HeapItem> {
    if b.len() < k {
        b
    } else {
        b.drop_last()
    }
}

/// Adds `item` to a buffer of at most `k` candidates kept in ascending order
/// of rank. A full buffer first lets its last candidate go, so `item` must
/// rank before that one; `item` must not share a position with a candidate.
/// Returns where `item` now stands.
pub fn push_bounded(buf: &mut Vec<HeapItem>, item: HeapItem, k: usize) -> (pos: usize)
    requires
        k >= 1,
        old(buf)@.len() <= k,
        sorted_by_rank(old(buf)@),
        forall|j: int| 0 <= j < old(buf)@.len() ==> (#[trigger] old(buf)@[j]).index != item.index,
        old(buf)@.len() == k ==> ranks_before(item, old(buf)@.last()),
    ensures
        pos <= kept(old(buf)@, k).len(),
        final(buf)@ == kept(old(buf)@, k).insert(pos as int, item),
        sorted_by_rank(final(buf)@),
        final(buf)@.len() <= k,
{
    if buf.len() == k {
        buf.pop();
    }
    let ghost before = buf@;
    let mut pos: usize = buf.len();
    while pos > 0 && (buf[pos - 1].distance > item.distance || (buf[pos - 1].distance == item.distance
        && buf[pos - 1].index > item.index))
        invariant
            buf@ == before,
            pos <= buf@.len(),
            forall|j: int| 0 <= j < buf@.len() ==> (#[trigger] buf@[j]).index != item.index,
            forall|j: int| pos <= j < buf@.len() ==> ranks_before(item, #[trigger] buf@[j]),
        decreases pos,
    {
        pos = pos - 1;
    }
    buf.insert(pos, item);
    proof {
        let b = buf@;
        assert forall|i: int, j: int| 0 <= i < j < b.len() implies ranks_before(
            #[trigger] b[i],
            #[trigger] b[j],
        ) by {
            if j < pos {
            } else if j == pos {
                assert(b[i] == before[i]);
                assert(before[pos - 1].index != item.index);
                assert(ranks_before(before[i], before[pos - 1]) || i == pos - 1);
            } else if i == pos {
            } else if i < pos {
                assert(b[j] == before[j - 1]);
            } else {
                assert(b[j] == before[j - 1]);
                assert(b[i] == before[i - 1]);
            }
        }
    }
    pos
}

} // verus!
