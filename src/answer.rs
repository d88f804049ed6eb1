use vstd::prelude::*;
use crate::distance::Distance;
use crate::heap_item::{HeapItem, kept, ranks_before, sorted_by_rank};
use crate::querry::Querry;
use crate::vp_tree::{left_len, partitioned, subtree_ok};

verus! {

/// Item `x` answers query `q` for `target`: it lies within the query's
/// radius, and is not at distance zero if the query is exclusive.
pub open spec fn qualifies<T, U: Distance<T>>(target: &U, x: &T, q: Querry) -> bool {
    &&& target.spec_distance(x) <= q.max_distance
    &&& q.exclusive ==> target.spec_distance(x) > 0
}

/// A candidate at distance `e.distance` and position `e.index` ranks before
/// position `i` at distance `d`: it is nearer, or as near and earlier.
pub open spec fn outranks(e: HeapItem, d: u64, i: int) -> bool {
    e.distance < d || (e.distance == d && e.index < i)
}

/// Position `a` of `s` ranks before position `b` for `target`: its item is
/// nearer, or as near and `a` comes first.
pub open spec fn ranks_first<T, U: Distance<T>>(s: Seq<T>, target: &U, a: int, b: int) -> bool {
    target.spec_distance(&s[a]) < target.spec_distance(&s[b]) || (target.spec_distance(&s[a])
        == target.spec_distance(&s[b]) && a < b)
}

/// `idx` lists positions of `s` that answer query `q` for `target`: distinct
/// qualifying positions, at most `q.max_items` of them, all qualifying ones
/// when fewer, and each ranking before every qualifying position left out
/// (nearer, or as near and earlier); closest first when the query is sorted.
/// Ranking by position among equal distances makes the answer's positions
/// depend only on the items, the target and the query.
pub open spec fn is_answer<T, U: Distance<T>>(s: Seq<T>, target: &U, q: Querry, idx: Seq<int>) -> bool {
    &&& idx.no_duplicates()
    &&& forall|k: int| 0 <= k < idx.len() ==> 0 <= #[trigger] idx[k] < s.len()
    &&& forall|k: int| 0 <= k < idx.len() ==> qualifies(target, &s[#[trigger] idx[k]], q)
    &&& idx.len() <= q.max_items
    &&& idx.len() < q.max_items ==> forall|i: int|
        0 <= i < s.len() && qualifies(target, &s[i], q) ==> #[trigger] idx.contains(i)
    &&& forall|i: int, k: int|
        #![trigger idx[k], s[i]]
        0 <= i < s.len() && qualifies(target, &s[i], q) && !idx.contains(i) && 0 <= k < idx.len()
            ==> ranks_first(s, target, idx[k], i)
    &&& q.sorted ==> forall|a: int, b: int|
        0 <= a < b < idx.len() ==> target.spec_distance(&s[#[trigger] idx[a]])
            <= target.spec_distance(&s[#[trigger] idx[b]])
}

/// Position `i` is held by a candidate of `buf`.
pub open spec fn held(buf: Seq<HeapItem>, i: int) -> bool {
    exists|j: int| 0 <= j < buf.len() && buf[j].index == i
}

/// The positions held by the candidates of `buf`, in order.
pub open spec fn positions(buf: Seq<HeapItem>) -> Seq<int> {
    buf.map_values(|e: HeapItem| e.index as int)
}

/// State of a search after it has looked at the positions in `done`: the
/// buffer holds distinct qualifying positions of `done` with their distances,
/// in ascending order of rank; `tau` is the farthest of them once the buffer
/// is full, else the query's radius; and a qualifying position of `done` left
/// out is outranked by every candidate, and only left out of a full buffer.
pub open spec fn search_state<T, U: Distance<T>>(
    s: Seq<T>,
    target: &U,
    q: Querry,
    buf: Seq<HeapItem>,
    tau: u64,
    done: Set<int>,
) -> bool {
    &&& q.max_items >= 1
    &&& buf.len() <= q.max_items
    &&& sorted_by_rank(buf)
    &&& forall|j: int| 0 <= j < buf.len() ==> (#[trigger] buf[j]).index < s.len()
    &&& forall|j: int| 0 <= j < buf.len() ==> done.contains((#[trigger] buf[j]).index as int)
    &&& forall|j: int|
        0 <= j < buf.len() ==> (#[trigger] buf[j]).distance == target.spec_distance(&s[buf[j].index as int])
    &&& forall|j: int| 0 <= j < buf.len() ==> qualifies(target, &s[(#[trigger] buf[j]).index as int], q)
    &&& forall|a: int, b: int| 0 <= a < b < buf.len() ==> (#[trigger] buf[a]).index != (#[trigger] buf[b]).index
    &&& tau == (if buf.len() == q.max_items { buf.last().distance } else { q.max_distance })
    &&& forall|i: int|
        #[trigger] done.contains(i) && 0 <= i < s.len() && qualifies(target, &s[i], q) && !held(buf, i) ==> {
            &&& buf.len() == q.max_items
            &&& forall|j: int| 0 <= j < buf.len() ==> outranks(#[trigger] buf[j], target.spec_distance(&s[i]), i)
        }
}

/// Positions `start .. start + len`.
pub open spec fn span(start: int, len: int) -> Set<int> {
    Set::new(|i: int| start <= i < start + len)
}

/// Looking at positions of `r` that are farther than `tau`, that do not
/// qualify, or that the last candidate of a full buffer outranks keeps the
/// search state.
pub(crate) proof fn lemma_skip<T, U: Distance<T>>(
    s: Seq<T>,
    target: &U,
    q: Querry,
    buf: Seq<HeapItem>,
    tau: u64,
    done: Set<int>,
    r: Set<int>,
)
    requires
        search_state(s, target, q, buf, tau, done),
        forall|i: int|
            #[trigger] r.contains(i) && 0 <= i < s.len() ==> target.spec_distance(&s[i]) > tau || !qualifies(
                target,
                &s[i],
                q,
            ) || (buf.len() == q.max_items && outranks(buf.last(), target.spec_distance(&s[i]), i)),
    ensures
        search_state(s, target, q, buf, tau, done + r),
{
    assert forall|i: int|
        #[trigger] (done + r).contains(i) && 0 <= i < s.len() && qualifies(target, &s[i], q) && !held(buf, i) implies {
        &&& buf.len() == q.max_items
        &&& forall|j: int| 0 <= j < buf.len() ==> outranks(#[trigger] buf[j], target.spec_distance(&s[i]), i)
    } by {
        if !done.contains(i) {
            assert(r.contains(i));
            if buf.len() < q.max_items {
                assert(tau == q.max_distance);
            } else {
                assert forall|j: int| 0 <= j < buf.len() implies outranks(
                    #[trigger] buf[j],
                    target.spec_distance(&s[i]),
                    i,
                ) by {
                    if j < buf.len() - 1 {
                        assert(ranks_before(buf[j], buf[buf.len() - 1]));
                    }
                }
            }
        }
    }
}

/// Taking position `p` into the buffer, where `push_bounded` put it, and
/// resetting `tau` keeps the search state.
pub(crate) proof fn lemma_admit<T, U: Distance<T>>(
    s: Seq<T>,
    target: &U,
    q: Querry,
    buf: Seq<HeapItem>,
    tau: u64,
    done: Set<int>,
    p: int,
    pos: int,
    new_buf: Seq<HeapItem>,
    new_tau: u64,
)
    requires
        search_state(s, target, q, buf, tau, done),
        !done.contains(p),
        0 <= p < s.len() <= usize::MAX,
        qualifies(target, &s[p], q),
        target.spec_distance(&s[p]) <= tau,
        buf.len() == q.max_items ==> ranks_before(
            HeapItem { index: p as usize, distance: target.spec_distance(&s[p]) },
            buf.last(),
        ),
        0 <= pos <= kept(buf, q.max_items).len(),
        new_buf == kept(buf, q.max_items).insert(
            pos,
            HeapItem { index: p as usize, distance: target.spec_distance(&s[p]) },
        ),
        sorted_by_rank(new_buf),
        new_tau == (if new_buf.len() == q.max_items {
            new_buf.last().distance
        } else {
            q.max_distance
        }),
    ensures
        search_state(s, target, q, new_buf, new_tau, done.insert(p)),
{
    let k = q.max_items;
    let kb = kept(buf, k);
    let item = HeapItem { index: p as usize, distance: target.spec_distance(&s[p]) };
    let d = item.distance;
    let full = buf.len() == k;
    assert(kb.len() == (if full { k - 1 } else { buf.len() as int }));
    // Where each candidate of the new buffer came from.
    assert forall|j: int| 0 <= j < new_buf.len() && j != pos implies #[trigger] new_buf[j] == buf[(
    if j < pos {
        j
    } else {
        j - 1
    })] by {
        if j < pos {
            assert(new_buf[j] == kb[j]);
        } else {
            assert(new_buf[j] == kb[j - 1]);
        }
    }
    assert(new_buf[pos] == item);
    assert forall|j: int| 0 <= j < buf.len() - 1 implies ranks_before(#[trigger] buf[j], buf.last()) by {
        assert(ranks_before(buf[j], buf[buf.len() - 1]));
    }
    assert forall|a: int, b: int| 0 <= a < b < new_buf.len() implies (#[trigger] new_buf[a]).index
        != (#[trigger] new_buf[b]).index by {
        if a == pos {
            assert(done.contains(buf[b - 1].index as int));
        } else if b == pos {
            assert(done.contains(buf[a].index as int));
        } else {
            let oa = if a < pos { a } else { a - 1 };
            let ob = if b < pos { b } else { b - 1 };
            assert(buf[oa].index != buf[ob].index);
        }
    }
    assert forall|j: int| 0 <= j < new_buf.len() implies (#[trigger] new_buf[j]).index < s.len()
        && done.insert(p).contains(new_buf[j].index as int) && new_buf[j].distance
        == target.spec_distance(&s[new_buf[j].index as int]) && qualifies(
        target,
        &s[new_buf[j].index as int],
        q,
    ) by {
        if j != pos {
            let o = if j < pos { j } else { j - 1 };
            assert(new_buf[j] == buf[o]);
        }
    }
    // A position held before and not after is the farthest candidate of a
    // full buffer.
    assert forall|i: int| held(buf, i) && !held(new_buf, i) implies full && buf.last().index == i by {
        let m = choose|m: int| 0 <= m < buf.len() && buf[m].index == i;
        if m < kb.len() {
            if m < pos {
                assert(new_buf[m] == buf[m]);
            } else {
                assert(new_buf[m + 1] == buf[m]);
            }
        }
    }
    assert forall|i: int|
        #[trigger] done.insert(p).contains(i) && 0 <= i < s.len() && qualifies(target, &s[i], q)
            && !held(new_buf, i) implies {
        &&& new_buf.len() == k
        &&& forall|j: int| 0 <= j < new_buf.len() ==> outranks(#[trigger] new_buf[j], target.spec_distance(&s[i]), i)
    } by {
        assert(new_buf[pos].index == p);
        assert(i != p);
        assert(done.contains(i));
        let di = target.spec_distance(&s[i]);
        let last = buf.last();
        if held(buf, i) {
            assert(full);
            assert(last.distance == di && last.index == i);
        } else {
            assert(buf.len() == k);
            assert(outranks(buf[buf.len() - 1], di, i));
        }
        assert(full);
        assert(last.distance < di || (last.distance == di && last.index <= i));
        assert forall|j: int| 0 <= j < new_buf.len() implies outranks(#[trigger] new_buf[j], di, i) by {
            if j != pos {
                let o = if j < pos { j } else { j - 1 };
                assert(new_buf[j] == buf[o]);
                assert(o < buf.len() - 1);
                assert(ranks_before(buf[o], last));
            } else {
                assert(ranks_before(item, last));
            }
        }
    }
}

/// Once every position has been looked at, the buffer's positions answer the
/// query.
pub(crate) proof fn lemma_finish<T, U: Distance<T>>(
    s: Seq<T>,
    target: &U,
    q: Querry,
    buf: Seq<HeapItem>,
    tau: u64,
)
    requires
        search_state(s, target, q, buf, tau, span(0, s.len() as int)),
    ensures
        is_answer(s, target, q, positions(buf)),
{
    let idx = positions(buf);
    assert forall|k: int| 0 <= k < idx.len() implies idx[k] == buf[k].index as int by {
    }
    assert forall|i: int| #[trigger] idx.contains(i) <==> held(buf, i) by {
        if idx.contains(i) {
            let k = choose|k: int| 0 <= k < idx.len() && idx[k] == i;
            assert(buf[k].index == i);
        }
        if held(buf, i) {
            let k = choose|k: int| 0 <= k < buf.len() && buf[k].index == i;
            assert(idx[k] == i);
        }
    }
    assert forall|a: int, b: int| 0 <= a < idx.len() && 0 <= b < idx.len() && a != b implies idx[a]
        != idx[b] by {
        if a < b {
            assert(buf[a].index != buf[b].index);
        } else {
            assert(buf[b].index != buf[a].index);
        }
    }
    assert forall|i: int|
        0 <= i < s.len() && qualifies(target, &s[i], q) && !idx.contains(i) implies buf.len() == q.max_items
        && forall|k: int| 0 <= k < idx.len() ==> ranks_first(s, target, #[trigger] idx[k], i) by {
        assert(span(0, s.len() as int).contains(i));
        assert forall|k: int| 0 <= k < idx.len() implies ranks_first(s, target, #[trigger] idx[k], i) by {
            assert(outranks(buf[k], target.spec_distance(&s[i]), i));
        }
    }
    assert forall|a: int, b: int| 0 <= a < b < idx.len() implies target.spec_distance(&s[#[trigger] idx[a]])
        <= target.spec_distance(&s[#[trigger] idx[b]]) by {
        assert(ranks_before(buf[a], buf[b]));
    }
}

/// Item `x` may be returned as a nearest neighbour of `target`: any item
/// may, but an exclusive search leaves out those at distance zero.
pub open spec fn eligible<T, U: Distance<T>>(target: &U, x: &T, exclusive: bool) -> bool {
    exclusive ==> target.spec_distance(x) > 0
}

/// Position `i` of `s` holds an eligible item that no eligible item is nearer
/// to `target` than.
pub open spec fn is_nearest<T, U: Distance<T>>(s: Seq<T>, target: &U, exclusive: bool, i: int) -> bool {
    &&& 0 <= i < s.len()
    &&& eligible(target, &s[i], exclusive)
    &&& forall|j: int|
        0 <= j < s.len() && eligible(target, &s[j], exclusive) ==> target.spec_distance(&s[i])
            <= target.spec_distance(&#[trigger] s[j])
}

/// State of a nearest-neighbour search after it has looked at the positions
/// in `done`: `best` is the nearest eligible position among them, at distance
/// `best_distance`, or none is eligible and `best_distance` is the largest
/// distance.
pub open spec fn nearest_state<T, U: Distance<T>>(
    s: Seq<T>,
    target: &U,
    exclusive: bool,
    best: Option<usize>,
    best_distance: u64,
    done: Set<int>,
) -> bool {
    match best {
        Some(b) => {
            &&& done.contains(b as int)
            &&& b < s.len()
            &&& eligible(target, &s[b as int], exclusive)
            &&& best_distance == target.spec_distance(&s[b as int])
            &&& forall|i: int|
                #[trigger] done.contains(i) && 0 <= i < s.len() && eligible(target, &s[i], exclusive)
                    ==> best_distance <= target.spec_distance(&s[i])
        },
        None => {
            &&& best_distance == u64::MAX
            &&& forall|i: int|
                #[trigger] done.contains(i) && 0 <= i < s.len() ==> !eligible(target, &s[i], exclusive)
        },
    }
}

/// Looking at positions of `r` that are not eligible, or no nearer than a
/// best one, keeps the nearest-neighbour search state.
pub(crate) proof fn lemma_nearest_skip<T, U: Distance<T>>(
    s: Seq<T>,
    target: &U,
    exclusive: bool,
    best: Option<usize>,
    best_distance: u64,
    done: Set<int>,
    r: Set<int>,
)
    requires
        nearest_state(s, target, exclusive, best, best_distance, done),
        forall|i: int|
            #[trigger] r.contains(i) && 0 <= i < s.len() ==> (best is Some && target.spec_distance(&s[i])
                >= best_distance) || !eligible(target, &s[i], exclusive),
    ensures
        nearest_state(s, target, exclusive, best, best_distance, done + r),
{
    if best is Some {
        assert forall|i: int|
            #[trigger] (done + r).contains(i) && 0 <= i < s.len() && eligible(target, &s[i], exclusive)
                implies best_distance <= target.spec_distance(&s[i]) by {
            if !done.contains(i) {
                assert(r.contains(i));
            }
        }
    } else {
        assert forall|i: int| #[trigger] (done + r).contains(i) && 0 <= i < s.len() implies !eligible(
            target,
            &s[i],
            exclusive,
        ) by {
            if !done.contains(i) {
                assert(r.contains(i));
            }
        }
    }
}

/// The two child subtrees of the subtree of `len >= 2` positions from
/// `start`: each is laid out as a subtree, the left one lies within the
/// pivot's threshold and the right one at it or beyond, and together with the
/// pivot they cover the subtree once.
pub(crate) proof fn lemma_children<T: Distance<T>>(s: Seq<T>, t: Seq<u64>, start: int, len: int, done: Set<int>)
    requires
        0 <= start,
        len >= 2,
        start + len <= s.len(),
        s.len() == t.len(),
        subtree_ok(s.subrange(start, start + len), t.subrange(start, start + len)),
        forall|i: int| #[trigger] span(start, len).contains(i) ==> !done.contains(i),
    ensures
        ({
            let m = left_len(len);
            let ls = start + 1;
            let rs = start + 1 + m;
            let rl = len - 1 - m;
            &&& subtree_ok(s.subrange(ls, ls + m), t.subrange(ls, ls + m))
            &&& subtree_ok(s.subrange(rs, rs + rl), t.subrange(rs, rs + rl))
            &&& forall|i: int| ls <= i < ls + m ==> s[start].spec_distance(&#[trigger] s[i]) <= t[start]
            &&& forall|i: int| rs <= i < rs + rl ==> s[start].spec_distance(&#[trigger] s[i]) >= t[start]
            &&& forall|i: int|
                #[trigger] span(ls, m).contains(i) ==> !done.insert(start).contains(i) && !span(rs, rl).contains(i)
            &&& forall|i: int|
                #[trigger] span(rs, rl).contains(i) ==> !done.insert(start).contains(i) && !span(ls, m).contains(i)
            &&& done + span(start, len) == done.insert(start) + span(ls, m) + span(rs, rl)
            &&& done + span(start, len) == done.insert(start) + span(rs, rl) + span(ls, m)
        }),
{
    let m = left_len(len);
    let ls = start + 1;
    let rs = start + 1 + m;
    let rl = len - 1 - m;
    let whole = s.subrange(start, start + len);
    let ths = t.subrange(start, start + len);
    assert(whole.subrange(1, 1 + m) =~= s.subrange(ls, ls + m));
    assert(whole.subrange(1 + m, len) =~= s.subrange(rs, rs + rl));
    assert(ths.subrange(1, 1 + m) =~= t.subrange(ls, ls + m));
    assert(ths.subrange(1 + m, len) =~= t.subrange(rs, rs + rl));
    assert(whole[0] == s[start]);
    assert(partitioned(whole, ths[0]));
    assert forall|i: int| ls <= i < ls + m implies s[start].spec_distance(&#[trigger] s[i]) <= t[start] by {
        assert(whole[i - start] == s[i]);
    }
    assert forall|i: int| rs <= i < rs + rl implies s[start].spec_distance(&#[trigger] s[i]) >= t[start] by {
        assert(whole[i - start] == s[i]);
    }
    assert forall|i: int| #[trigger] span(ls, m).contains(i) implies !done.insert(start).contains(i) && !span(
        rs,
        rl,
    ).contains(i) by {
        assert(span(start, len).contains(i));
    }
    assert forall|i: int| #[trigger] span(rs, rl).contains(i) implies !done.insert(start).contains(i) && !span(
        ls,
        m,
    ).contains(i) by {
        assert(span(start, len).contains(i));
    }
    assert(done + span(start, len) =~= done.insert(start) + span(ls, m) + span(rs, rl));
    assert(done + span(start, len) =~= done.insert(start) + span(rs, rl) + span(ls, m));
}

} // verus!
