//! The list as a mathematical sequence, first element at index 0.
//!
//! The contracts of the list operations are stated with the functions of
//! this module.

use vstd::prelude::*;

verus! {

/// One of the two ends of a list.
pub enum End {
    Front,
    Back,
}

/// The sequence after `value` has been inserted at `end`.
pub open spec fn inserted<T>(s: Seq<T>, end: End, value: T) -> Seq<T> {
    match end {
        End::Front => seq![value] + s,
        End::Back => s.push(value),
    }
}

/// What a removal at `end` hands out: the element at that end, or nothing
/// where there is no element.
pub open spec fn taken<T>(s: Seq<T>, end: End) -> Option<T> {
    if s.len() == 0 {
        None
    } else {
        match end {
            End::Front => Some(s.first()),
            End::Back => Some(s.last()),
        }
    }
}

/// The sequence after a removal at `end`: without the element at that end,
/// or unchanged where there is no element.
pub open spec fn remainder<T>(s: Seq<T>, end: End) -> Seq<T> {
    if s.len() == 0 {
        s
    } else {
        match end {
            End::Front => s.drop_first(),
            End::Back => s.drop_last(),
        }
    }
}

/// The sequence after the insertions of `steps`, made in order. Each step
/// names the end and the value.
pub open spec fn inserted_all<T>(s: Seq<T>, steps: Seq<(End, T)>) -> Seq<T>
    decreases steps.len(),
{
    if steps.len() == 0 {
        s
    } else {
        inserted(inserted_all(s, steps.drop_last()), steps.last().0, steps.last().1)
    }
}

/// The values that the insertions of `steps` bring in, in order.
pub open spec fn values_of<T>(steps: Seq<(End, T)>) -> Seq<T> {
    Seq::new(steps.len(), |i: int| steps[i].1)
}

/// The sequence after one removal at each end of `ends`, made in order.
pub open spec fn remainder_all<T>(s: Seq<T>, ends: Seq<End>) -> Seq<T>
    decreases ends.len(),
{
    if ends.len() == 0 {
        s
    } else {
        remainder(remainder_all(s, ends.drop_last()), ends.last())
    }
}

/// The values that the removals at `ends` hand out, in the order in which
/// they leave. A removal that finds nothing adds nothing.
pub open spec fn taken_all<T>(s: Seq<T>, ends: Seq<End>) -> Seq<T>
    decreases ends.len(),
{
    if ends.len() == 0 {
        Seq::empty()
    } else {
        let earlier = taken_all(s, ends.drop_last());
        match taken(remainder_all(s, ends.drop_last()), ends.last()) {
            Some(value) => earlier.push(value),
            None => earlier,
        }
    }
}

} // verus!
