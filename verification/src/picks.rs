//! Picking elements from a sequence, in their order.
use vstd::prelude::*;

verus! {

/// `places` are places of a sequence of that length, each before the next.
pub open spec fn in_order(places: Seq<int>, length: nat) -> bool {
    &&& forall|k: int| 0 <= k < places.len() ==> 0 <= #[trigger] places[k] < length
    &&& forall|j: int, k: int| 0 <= j < k < places.len() ==> places[j] < places[k]
}

/// `some` are the elements of `all` at `places`, in their order.
pub open spec fn picks<T>(all: Seq<T>, places: Seq<int>, some: Seq<T>) -> bool {
    &&& in_order(places, all.len())
    &&& places.len() == some.len()
    &&& forall|k: int| 0 <= k < some.len() ==> #[trigger] some[k] == all[places[k]]
}

/// One more place behind the others is in order too, and is the only one added.
pub proof fn lemma_one_more_place(places: Seq<int>, length: nat)
    requires
        in_order(places, length),
    ensures
        in_order(places, length + 1),
        in_order(places.push(length as int), length + 1),
        !places.contains(length as int),
        forall|i: int| #[trigger]
            places.push(length as int).contains(i) <==> places.contains(i) || i == length,
{
    let more = places.push(length as int);
    assert forall|i: int| #[trigger] more.contains(i) <==> places.contains(i) || i == length by {
        if places.contains(i) {
            let k = choose|k: int| 0 <= k < places.len() && places[k] == i;
            assert(more[k] == i);
        }
        if i == length {
            assert(more[places.len() as int] == i);
        }
        if more.contains(i) {
            let k = choose|k: int| 0 <= k < more.len() && more[k] == i;
            if k < places.len() {
                assert(places[k] == i);
            }
        }
    }
    assert forall|k: int| 0 <= k < more.len() implies 0 <= #[trigger] more[k] < length + 1 by {
        if k < places.len() {
            assert(more[k] == places[k]);
        }
    }
    if places.contains(length as int) {
        let k = choose|k: int| 0 <= k < places.len() && places[k] == length;
        assert(places[k] < length);
    }
}

/// What is picked from what was picked is picked from the whole.
pub proof fn lemma_picks_of_picks<T>(
    all: Seq<T>,
    places: Seq<int>,
    some: Seq<T>,
    others: Seq<int>,
    few: Seq<T>,
) -> (both: Seq<int>)
    requires
        picks(all, places, some),
        picks(some, others, few),
    ensures
        picks(all, both, few),
        both.len() == others.len(),
        forall|k: int| 0 <= k < both.len() ==> #[trigger] both[k] == places[others[k]],
{
    let both = Seq::new(others.len(), |k: int| places[others[k]]);
    assert forall|k: int| 0 <= k < both.len() implies 0 <= #[trigger] both[k] < all.len() by {
        assert(0 <= others[k] < some.len());
        assert(0 <= places[others[k]] < all.len());
    }
    assert forall|j: int, k: int| 0 <= j < k < both.len() implies both[j] < both[k] by {
        assert(0 <= others[j] < some.len());
        assert(0 <= others[k] < some.len());
        assert(others[j] < others[k]);
    }
    assert forall|k: int| 0 <= k < few.len() implies #[trigger] few[k] == all[both[k]] by {
        assert(few[k] == some[others[k]]);
        assert(0 <= others[k] < some.len());
    }
    both
}

} // verus!
