//! Keeping the newest of what comes in.

use std::collections::VecDeque;
use vstd::prelude::*;

verus! {

/// The items after one more came in: the oldest leaves where there are as many as
/// allowed.
pub open spec fn kept<T>(items: Seq<T>, item: T, limit: nat) -> Seq<T> {
    if items.len() >= limit {
        items.skip(1).push(item)
    } else {
        items.push(item)
    }
}

/// The newest items of all that came in.
pub open spec fn newest<T>(all: Seq<T>, limit: nat) -> Seq<T> {
    if all.len() > limit {
        all.skip(all.len() - limit)
    } else {
        all
    }
}

/// What is kept are always the newest items, in the order in which they came.
pub proof fn law_newest_are_kept<T>(all: Seq<T>, item: T, limit: nat)
    requires
        limit > 0,
    ensures
        kept(newest(all, limit), item, limit) == newest(all.push(item), limit),
        newest(all, limit).len() <= limit,
{
    assert(kept(newest(all, limit), item, limit) =~= newest(all.push(item), limit));
}

/// Puts an item in, and takes the oldest out where there are as many as allowed.
pub fn keep<T>(items: &mut VecDeque<T>, item: T, limit: usize)
    requires
        limit > 0,
    ensures
        final(items)@ == kept(old(items)@, item, limit as nat),
{
    if items.len() >= limit {
        let ghost before = items@;
        let _ = items.pop_front();
        assert(items@ =~= before.skip(1));
    }
    items.push_back(item);
}

/// A full list lets its oldest item go for a new one; the others keep their order, and the
/// new one is last.
pub proof fn law_oldest_gives_way<T>(items: Seq<T>, item: T, limit: nat, i: int)
    requires
        0 < limit,
        items.len() <= limit,
    ensures
        kept(items, item, limit).last() == item,
        items.len() == limit ==> kept(items, item, limit).len() == limit,
        items.len() < limit ==> kept(items, item, limit).len() == items.len() + 1,
        items.len() == limit && 1 <= i < limit ==> kept(items, item, limit)[i - 1] == items[i],
        items.len() < limit && 0 <= i < items.len() ==> kept(items, item, limit)[i] == items[i],
{
}

} // verus!
