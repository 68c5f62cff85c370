//! A stable sort by a numeric rank.
use vstd::prelude::*;

verus! {

/// A value that is sorted by a number.
pub trait Ranked: Copy {
    /// The number by which the value is sorted.
    spec fn rank(&self) -> u32;

    fn get_rank(&self) -> (rank: u32)
        ensures
            rank == self.rank(),
    ;
}

impl Ranked for u32 {
    open spec fn rank(&self) -> u32 {
        *self
    }

    fn get_rank(&self) -> (rank: u32) {
        *self
    }
}

/// The predicate "has rank `rank`".
pub open spec fn has_rank<T: Ranked>(rank: u32) -> spec_fn(T) -> bool {
    |item: T| item.rank() == rank
}

/// The items of rank `rank`, in their order.
pub open spec fn with_rank<T: Ranked>(items: Seq<T>, rank: u32) -> Seq<T> {
    items.filter(has_rank::<T>(rank))
}

/// No item is followed by one of smaller rank.
pub open spec fn ascending<T: Ranked>(items: Seq<T>) -> bool {
    forall|i: int, j: int| 0 <= i <= j < items.len() ==> items[i].rank() <= items[j].rank()
}

/// `sorted` is `items` sorted by rank, items of equal rank in the order in
/// which they stood. There is exactly one such sequence
/// ([`lemma_stable_sort_unique`]).
pub open spec fn is_stable_sort<T: Ranked>(items: Seq<T>, sorted: Seq<T>) -> bool {
    &&& ascending(sorted)
    &&& forall|rank: u32| #[trigger] with_rank(sorted, rank) == with_rank(items, rank)
}

/// `items` sorted by rank, items of equal rank in the order in which they
/// stood.
pub open spec fn stable_sorted<T: Ranked>(items: Seq<T>) -> Seq<T> {
    choose|sorted: Seq<T>| is_stable_sort(items, sorted)
}

/// Two ascending sequences that agree on the items of every rank, and on
/// their order, are equal.
pub proof fn lemma_ascending_determined<T: Ranked>(a: Seq<T>, b: Seq<T>)
    requires
        ascending(a),
        ascending(b),
        forall|rank: u32| #[trigger] with_rank(a, rank) == with_rank(b, rank),
    ensures
        a == b,
    decreases a.len(),
{
    if a.len() == 0 {
        if b.len() > 0 {
            let rank = b[0].rank();
            b.lemma_filter_contains(has_rank::<T>(rank), 0);
            a.lemma_filter_len(has_rank::<T>(rank));
            assert(with_rank(a, rank) == with_rank(b, rank));
        }
        assert(a =~= b);
    } else {
        let x = a.last();
        let m = x.rank();
        let a_front = a.drop_last();
        assert(a == a_front.push(x));
        a_front.lemma_filter_push(x, has_rank::<T>(m));
        assert(with_rank(a, m) == with_rank(b, m));
        assert(with_rank(b, m).last() == x);
        b.lemma_filter_len(has_rank::<T>(m));
        let y = b.last();
        let b_front = b.drop_last();
        assert(b == b_front.push(y));
        assert(with_rank(b, m).contains(x)) by {
            assert(with_rank(b, m)[with_rank(b, m).len() - 1] == x);
        }
        b.lemma_filter_contains_rev(has_rank::<T>(m), x);
        let jb = choose|j: int| 0 <= j < b.len() && b[j] == x;
        assert(b[jb].rank() <= b[b.len() - 1].rank());
        b_front.lemma_filter_push(y, has_rank::<T>(y.rank()));
        assert(with_rank(a, y.rank()) == with_rank(b, y.rank()));
        assert(with_rank(a, y.rank()).contains(y)) by {
            assert(with_rank(b, y.rank())[with_rank(b, y.rank()).len() - 1] == y);
        }
        a.lemma_filter_contains_rev(has_rank::<T>(y.rank()), y);
        let ja = choose|j: int| 0 <= j < a.len() && a[j] == y;
        assert(a[ja].rank() <= a[a.len() - 1].rank());
        assert(y.rank() == m);
        assert(x == y);
        assert forall|rank: u32| #[trigger]
            with_rank(a_front, rank) == with_rank(b_front, rank) by {
            a_front.lemma_filter_push(x, has_rank::<T>(rank));
            b_front.lemma_filter_push(y, has_rank::<T>(rank));
            assert(with_rank(a, rank) == with_rank(b, rank));
            if rank == m {
                assert(with_rank(a_front, rank) == with_rank(a, rank).drop_last());
                assert(with_rank(b_front, rank) == with_rank(b, rank).drop_last());
            }
        }
        assert(ascending(a_front)) by {
            assert forall|i: int, j: int| 0 <= i <= j < a_front.len() implies a_front[i].rank()
                <= a_front[j].rank() by {
                assert(a[i].rank() <= a[j].rank());
            }
        }
        assert(ascending(b_front)) by {
            assert forall|i: int, j: int| 0 <= i <= j < b_front.len() implies b_front[i].rank()
                <= b_front[j].rank() by {
                assert(b[i].rank() <= b[j].rank());
            }
        }
        lemma_ascending_determined(a_front, b_front);
    }
}

/// A sequence has one stable sort.
pub proof fn lemma_stable_sort_unique<T: Ranked>(items: Seq<T>, sorted: Seq<T>)
    requires
        is_stable_sort(items, sorted),
    ensures
        stable_sorted(items) == sorted,
{
    let chosen = stable_sorted(items);
    assert(is_stable_sort(items, chosen));
    assert forall|rank: u32| #[trigger] with_rank(chosen, rank) == with_rank(sorted, rank) by {
        assert(with_rank(chosen, rank) == with_rank(items, rank));
        assert(with_rank(sorted, rank) == with_rank(items, rank));
    }
    lemma_ascending_determined(chosen, sorted);
}

/// Every item of a stable sort is an item of what was sorted, and the other
/// way round.
pub proof fn lemma_stable_sort_members<T: Ranked>(items: Seq<T>, sorted: Seq<T>, item: T)
    requires
        is_stable_sort(items, sorted),
    ensures
        sorted.contains(item) == items.contains(item),
{
    let p = has_rank::<T>(item.rank());
    assert(with_rank(sorted, item.rank()) == with_rank(items, item.rank()));
    if sorted.contains(item) {
        let i = choose|i: int| 0 <= i < sorted.len() && sorted[i] == item;
        sorted.lemma_filter_contains(p, i);
        items.lemma_filter_contains_rev(p, item);
    }
    if items.contains(item) {
        let i = choose|i: int| 0 <= i < items.len() && items[i] == item;
        items.lemma_filter_contains(p, i);
        sorted.lemma_filter_contains_rev(p, item);
    }
}

/// Exchanging two neighbours of different rank keeps the items of every
/// rank in their order.
proof fn lemma_exchange_keeps_ranks<T: Ranked>(items: Seq<T>, j: int, rank: u32)
    requires
        0 < j < items.len(),
        items[j - 1].rank() != items[j].rank(),
    ensures
        with_rank(items.update(j - 1, items[j]).update(j, items[j - 1]), rank) == with_rank(
            items,
            rank,
        ),
{
    let a = items[j - 1];
    let b = items[j];
    let front = items.take(j - 1);
    let back = items.skip(j + 1);
    let exchanged = items.update(j - 1, b).update(j, a);
    let p = has_rank::<T>(rank);
    assert(items == front.push(a).push(b) + back);
    assert(exchanged == front.push(b).push(a) + back);
    Seq::filter_distributes_over_add(front.push(a).push(b), back, p);
    Seq::filter_distributes_over_add(front.push(b).push(a), back, p);
    front.lemma_filter_push(a, p);
    front.push(a).lemma_filter_push(b, p);
    front.lemma_filter_push(b, p);
    front.push(b).lemma_filter_push(a, p);
}

/// Sorts the items by rank; items of equal rank keep their order.
pub fn stable_sort<T: Ranked>(items: &mut Vec<T>)
    ensures
        final(items)@ == stable_sorted(old(items)@),
        is_stable_sort(old(items)@, final(items)@),
        final(items)@.len() == old(items)@.len(),
{
    let n = items.len();
    let mut i: usize = 0;
    while i < n
        invariant
            items@.len() == n,
            i <= n,
            ascending(items@.take(i as int)),
            forall|rank: u32| #[trigger] with_rank(items@, rank) == with_rank(old(items)@, rank),
        decreases n - i,
    {
        let mut j: usize = i;
        proof {
            assert forall|a: int, b: int| 0 <= a <= b < i implies items@[a].rank()
                <= items@[b].rank() by {
                assert(items@.take(i as int)[a].rank() <= items@.take(i as int)[b].rank());
            }
        }
        while j > 0 && items[j - 1].get_rank() > items[j].get_rank()
            invariant
                items@.len() == n,
                j <= i < n,
                forall|a: int, b: int|
                    0 <= a <= b <= i && a != j && b != j ==> items@[a].rank() <= items@[b].rank(),
                forall|b: int| j < b <= i ==> items@[j as int].rank() < items@[b].rank(),
                forall|rank: u32|
                    #[trigger] with_rank(items@, rank) == with_rank(old(items)@, rank),
            decreases j,
        {
            let ghost before = items@;
            let left = items[j - 1];
            let right = items[j];
            items[j - 1] = right;
            items[j] = left;
            proof {
                assert forall|rank: u32| #[trigger]
                    with_rank(items@, rank) == with_rank(old(items)@, rank) by {
                    lemma_exchange_keeps_ranks(before, j as int, rank);
                }
            }
            j -= 1;
        }
        i += 1;
        proof {
            assert forall|a: int, b: int| 0 <= a <= b < i implies items@.take(i as int)[a].rank()
                <= items@.take(i as int)[b].rank() by {
                if a == j && b != j {
                } else if b == j && a != j {
                    assert(j == 0 || items@[j - 1].rank() <= items@[j as int].rank());
                    if a != j - 1 {
                        assert(items@[a].rank() <= items@[j - 1].rank());
                    }
                }
            }
        }
    }
    proof {
        assert(items@.take(i as int) == items@);
        lemma_stable_sort_unique(old(items)@, items@);
    }
}

} // verus!
