//! What holds of every list, proved over the sequence model with which the
//! list operations are specified.

use vstd::prelude::*;
use crate::model::{inserted, inserted_all, remainder, remainder_all, taken, taken_all, values_of, End};

verus! {

/// A removal right after an insertion at the same end hands the inserted
/// value back and restores the sequence.
pub proof fn law_round_trip<T>(s: Seq<T>, end: End, value: T)
    ensures
        taken(inserted(s, end, value), end) == Some(value),
        remainder(inserted(s, end, value), end) == s,
{
}

/// Two insertions at one end leave from that end in reverse order, and the
/// sequence is then as before.
pub proof fn law_last_in_first_out<T>(s: Seq<T>, end: End, a: T, b: T)
    ensures
        ({
            let both = inserted(inserted(s, end, a), end, b);
            &&& taken(both, end) == Some(b)
            &&& taken(remainder(both, end), end) == Some(a)
            &&& remainder(remainder(both, end), end) == s
        }),
{
    law_round_trip(inserted(s, end, a), end, b);
    law_round_trip(s, end, a);
}

/// Two insertions at one end of an empty list leave from the opposite end in
/// the order of insertion, and the list is then empty again.
pub proof fn law_first_in_first_out<T>(s: Seq<T>, end: End, a: T, b: T)
    requires
        s.len() == 0,
    ensures
        ({
            let both = inserted(inserted(s, end, a), end, b);
            let opposite = match end {
                End::Front => End::Back,
                End::Back => End::Front,
            };
            &&& taken(both, opposite) == Some(a)
            &&& taken(remainder(both, opposite), opposite) == Some(b)
            &&& remainder(remainder(both, opposite), opposite) == s
        }),
{
}

/// A list of one element hands that element out at either end, whichever end
/// it was inserted at, and is empty afterwards.
pub proof fn law_single_element<T>(s: Seq<T>, at: End, from: End, value: T)
    requires
        s.len() == 0,
    ensures
        taken(inserted(s, at, value), from) == Some(value),
        remainder(inserted(s, at, value), from) == s,
{
}

/// A removal from an empty list hands out nothing and leaves it empty.
pub proof fn law_empty_gives_nothing<T>(s: Seq<T>, end: End)
    requires
        s.len() == 0,
    ensures
        taken(s, end) is None,
        remainder(s, end) == s,
{
}

/// Removals at one end only hand the elements out in the order in which
/// they lie from that end: from the front in the order of the sequence, from
/// the back in reverse. What is left is the rest of the sequence, untouched.
pub proof fn law_removals_at_one_end<T>(s: Seq<T>, ends: Seq<End>, end: End)
    requires
        ends.len() <= s.len(),
        forall|i: int| 0 <= i < ends.len() ==> ends[i] == end,
    ensures
        taken_all(s, ends).len() == ends.len(),
        (match end {
            End::Front => {
                &&& forall|k: int| 0 <= k < ends.len() ==> taken_all(s, ends)[k] == s[k]
                &&& remainder_all(s, ends) == s.subrange(ends.len() as int, s.len() as int)
            },
            End::Back => {
                &&& forall|k: int|
                    0 <= k < ends.len() ==> taken_all(s, ends)[k] == s[s.len() - 1 - k]
                &&& remainder_all(s, ends) == s.subrange(0, s.len() - ends.len())
            },
        }),
    decreases ends.len(),
{
    if ends.len() > 0 {
        law_removals_at_one_end(s, ends.drop_last(), end);
    }
}

/// Insertions lengthen the sequence by one each and bring in exactly their
/// values, each as often as it was inserted.
pub proof fn law_insertions_accumulate<T>(s: Seq<T>, steps: Seq<(End, T)>)
    ensures
        inserted_all(s, steps).len() == s.len() + steps.len(),
        inserted_all(s, steps).to_multiset() == s.to_multiset().add(
            values_of(steps).to_multiset(),
        ),
    decreases steps.len(),
{
    broadcast use vstd::seq_lib::group_to_multiset_ensures;

    if steps.len() > 0 {
        let earlier = steps.drop_last();
        let (end, value) = steps.last();
        let before = inserted_all(s, earlier);
        law_insertions_accumulate(s, earlier);
        assert(inserted(before, end, value).to_multiset() =~= before.to_multiset().insert(value))
            by {
            match end {
                End::Front => {
                    assert(inserted(before, end, value) =~= before.insert(0, value));
                },
                End::Back => {},
            }
        }
        assert(values_of(steps) =~= values_of(earlier).push(value));
        assert(inserted_all(s, steps).to_multiset() =~= s.to_multiset().add(
            values_of(steps).to_multiset(),
        ));
    }
}

/// Removals shorten the sequence by one each until it is empty, and what
/// they hand out together with what they leave is what was there.
pub proof fn law_removals_conserve<T>(s: Seq<T>, ends: Seq<End>)
    ensures
        remainder_all(s, ends).len() == (if ends.len() <= s.len() {
            s.len() - ends.len()
        } else {
            0
        }),
        taken_all(s, ends).len() + remainder_all(s, ends).len() == s.len(),
        taken_all(s, ends).to_multiset().add(remainder_all(s, ends).to_multiset())
            == s.to_multiset(),
    decreases ends.len(),
{
    broadcast use vstd::seq_lib::group_to_multiset_ensures;

    if ends.len() == 0 {
        assert(taken_all(s, ends).to_multiset().add(remainder_all(s, ends).to_multiset())
            =~= s.to_multiset());
    } else {
        let earlier = ends.drop_last();
        let end = ends.last();
        let out = taken_all(s, earlier);
        let rest = remainder_all(s, earlier);
        law_removals_conserve(s, earlier);
        if rest.len() > 0 {
            let value = taken(rest, end)->0;
            assert(remainder(rest, end).to_multiset() =~= rest.to_multiset().remove(value)) by {
                match end {
                    End::Front => {
                        assert(remainder(rest, end) =~= rest.remove(0));
                    },
                    End::Back => {
                        assert(remainder(rest, end) =~= rest.remove(rest.len() - 1));
                    },
                }
            }
            assert(rest.to_multiset().count(value) > 0);
            assert(out.push(value).to_multiset().add(rest.to_multiset().remove(value))
                =~= out.to_multiset().add(rest.to_multiset()));
        }
    }
}

/// Any insertions into an empty list leave it non-empty. As many removals
/// as there were insertions, at whichever ends, then empty it again, and no
/// fewer do; together they hand out every inserted value exactly once.
pub proof fn law_fill_then_drain<T>(steps: Seq<(End, T)>, ends: Seq<End>)
    ensures
        steps.len() > 0 ==> inserted_all(Seq::<T>::empty(), steps).len() > 0,
        ends.len() < steps.len() ==> remainder_all(
            inserted_all(Seq::<T>::empty(), steps),
            ends,
        ).len() > 0,
        ends.len() == steps.len() ==> remainder_all(
            inserted_all(Seq::<T>::empty(), steps),
            ends,
        ).len() == 0,
        ends.len() == steps.len() ==> taken_all(
            inserted_all(Seq::<T>::empty(), steps),
            ends,
        ).len() == steps.len(),
        ends.len() == steps.len() ==> taken_all(
            inserted_all(Seq::<T>::empty(), steps),
            ends,
        ).to_multiset() == values_of(steps).to_multiset(),
{
    broadcast use vstd::seq_lib::group_to_multiset_ensures;

    let full = inserted_all(Seq::<T>::empty(), steps);
    law_insertions_accumulate(Seq::<T>::empty(), steps);
    law_removals_conserve(full, ends);
    if ends.len() == steps.len() {
        assert(Seq::<T>::empty().to_multiset().add(values_of(steps).to_multiset())
            =~= values_of(steps).to_multiset());
    }
}

} // verus!
