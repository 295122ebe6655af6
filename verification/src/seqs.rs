//! Two aids for sequences of executable values.

use vstd::prelude::*;

verus! {

/// The views of the items of `items`, in the same order.
pub open spec fn views<T: View>(items: Seq<T>) -> Seq<T::V> {
    Seq::new(items.len(), |i: int| items[i]@)
}

/// What one more item adds to the items that a prefix of a sequence holds.
pub proof fn lemma_take_next<T>(order: Seq<T>, i: int)
    requires
        0 <= i < order.len(),
    ensures
        forall|item: T| #[trigger]
            order.take(i + 1).contains(item) ==> order.take(i).contains(item) || item == order[i],
        forall|item: T| #[trigger]
            order.take(i).contains(item) ==> order.take(i + 1).contains(item),
        order.take(i + 1).contains(order[i]),
        order.no_duplicates() ==> !order.take(i).contains(order[i]),
{
    let shorter = order.take(i);
    let longer = order.take(i + 1);
    assert(longer =~= shorter.push(order[i]));
    assert forall|item: T| longer.contains(item) implies shorter.contains(item) || item
        == order[i] by {
        let j = choose|j: int| 0 <= j < longer.len() && longer[j] == item;
        if j < i {
            assert(shorter[j] == item);
        }
    }
    assert forall|item: T| shorter.contains(item) implies longer.contains(item) by {
        let j = choose|j: int| 0 <= j < shorter.len() && shorter[j] == item;
        assert(longer[j] == item);
    }
    assert(longer[i] == order[i]);
    if order.no_duplicates() && shorter.contains(order[i]) {
        let j = choose|j: int| 0 <= j < shorter.len() && shorter[j] == order[i];
        assert(order[j] == order[i]);
    }
}

} // verus!
