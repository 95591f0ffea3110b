//! Bounded lists: capped hit lists, planet lists that evict the oldest, and
//! particle trails that keep only their newest points.
use vstd::prelude::*;
use std::collections::VecDeque;

verus! {

/// Appends `item` unless `v` already holds `cap` items; says whether it did.
pub fn push_unless_full<T>(v: &mut Vec<T>, item: T, cap: usize) -> (pushed: bool)
    ensures
        pushed == (old(v).len() < cap),
        pushed ==> final(v)@ == old(v)@.push(item),
        !pushed ==> final(v)@ == old(v)@,
        old(v).len() <= cap ==> final(v).len() <= cap,
{
    if v.len() >= cap {
        return false;
    }
    v.push(item);
    true
}

/// Appends `item`, first dropping the oldest (first) item when `v` already
/// holds `cap` or more.
pub fn push_evicting_oldest<T>(v: &mut Vec<T>, item: T, cap: usize)
    requires
        cap > 0,
    ensures
        old(v).len() >= cap ==> final(v)@ == old(v)@.drop_first().push(item),
        old(v).len() < cap ==> final(v)@ == old(v)@.push(item),
        old(v).len() <= cap ==> final(v).len() <= cap,
        final(v)@.last() == item,
{
    if v.len() >= cap {
        v.remove(0);
    }
    v.push(item);
}

/// Appends `item` to the back of `trail`, then drops the front point when
/// it holds more than `cap`.
pub fn push_capped<T>(trail: &mut VecDeque<T>, item: T, cap: usize)
    ensures
        old(trail).len() + 1 > cap ==> final(trail)@ == old(trail)@.push(item).drop_first(),
        old(trail).len() + 1 <= cap ==> final(trail)@ == old(trail)@.push(item),
        old(trail).len() <= cap ==> final(trail).len() <= cap,
{
    trail.push_back(item);
    if trail.len() > cap {
        trail.pop_front();
    }
}

} // verus!
