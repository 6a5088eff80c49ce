//! Picking positions out of a sequence.

use vstd::prelude::*;

verus! {

/// The positions below `n` that `keep` holds of, from the lowest up.
pub open spec fn picked(n: nat, keep: spec_fn(int) -> bool) -> Seq<usize>
    decreases n,
{
    if n == 0 {
        Seq::empty()
    } else {
        let rest = picked((n - 1) as nat, keep);
        if keep(n - 1) {
            rest.push((n - 1) as usize)
        } else {
            rest
        }
    }
}

/// What is picked is in order, below `n`, and all that `keep` holds of.
pub proof fn lemma_picked(n: nat, keep: spec_fn(int) -> bool)
    requires
        n <= usize::MAX,
    ensures
        picked(n, keep).len() <= n,
        forall|i: int|
            0 <= i < picked(n, keep).len() ==> (#[trigger] picked(n, keep)[i]) < n && keep(
                picked(n, keep)[i] as int,
            ),
        forall|i: int, j: int|
            #![trigger picked(n, keep)[i], picked(n, keep)[j]]
            0 <= i < j < picked(n, keep).len() ==> picked(n, keep)[i] < picked(n, keep)[j],
        forall|k: int|
            0 <= k < n && keep(k) ==> #[trigger] picked(n, keep).contains(k as usize),
        forall|k: usize|
            #[trigger] picked(n, keep).contains(k) <==> k < n && keep(k as int),
    decreases n,
{
    if n > 0 {
        let m = (n - 1) as nat;
        lemma_picked(m, keep);
        let rest = picked(m, keep);
        let all = picked(n, keep);
        assert forall|k: int| 0 <= k < n && keep(k) implies #[trigger] all.contains(
            k as usize,
        ) by {
            if k == n - 1 {
                assert(all[rest.len() as int] == k as usize);
            } else {
                assert(rest.contains(k as usize));
                let i = rest.index_of(k as usize);
                assert(all[i] == k as usize);
            }
        }
        assert forall|k: usize| #[trigger] all.contains(k) implies k < n && keep(k as int) by {
            let i = all.index_of(k);
            if i < rest.len() {
                assert(rest[i] == k);
            }
        }
        assert forall|k: usize| k < n && keep(k as int) implies #[trigger] all.contains(k) by {
            assert(all.contains((k as int) as usize));
        }
    }
}

/// Splitting what is picked in two loses nothing.
pub proof fn lemma_picked_split(
    n: nat,
    keep: spec_fn(int) -> bool,
    one: spec_fn(int) -> bool,
    other: spec_fn(int) -> bool,
)
    requires
        forall|i: int|
            #![trigger keep(i)]
            0 <= i < n ==> (keep(i) <==> one(i) || other(i)) && !(one(i) && other(i)),
    ensures
        picked(n, keep).len() == picked(n, one).len() + picked(n, other).len(),
    decreases n,
{
    if n > 0 {
        lemma_picked_split((n - 1) as nat, keep, one, other);
        assert(keep(n - 1) <==> one(n - 1) || other(n - 1));
    }
}

/// How many items the groups hold together.
pub open spec fn total_len<T>(groups: Seq<Seq<T>>) -> int
    decreases groups.len(),
{
    if groups.len() == 0 {
        0
    } else {
        total_len(groups.drop_last()) + groups.last().len()
    }
}

/// One more item in one group is one more in all.
pub proof fn lemma_total_len_update<T>(groups: Seq<Seq<T>>, at: int, group: Seq<T>)
    requires
        0 <= at < groups.len(),
    ensures
        total_len(groups.update(at, group)) == total_len(groups) - groups[at].len() + group.len(),
    decreases groups.len(),
{
    let after = groups.update(at, group);
    if at == groups.len() - 1 {
        assert(after.drop_last() =~= groups.drop_last());
    } else {
        assert(after.drop_last() =~= groups.drop_last().update(at, group));
        lemma_total_len_update(groups.drop_last(), at, group);
    }
}

/// The items of all the groups, one group after the other.
pub open spec fn flat<T>(groups: Seq<Seq<T>>) -> Seq<T>
    decreases groups.len(),
{
    if groups.len() == 0 {
        Seq::empty()
    } else {
        flat(groups.drop_last()) + groups.last()
    }
}

/// The groups put one after the other hold as many items as the groups do.
pub proof fn lemma_flat_len<T>(groups: Seq<Seq<T>>)
    ensures
        flat(groups).len() == total_len(groups),
    decreases groups.len(),
{
    if groups.len() > 0 {
        lemma_flat_len(groups.drop_last());
    }
}

/// An item is in some group exactly if it is in what they hold together.
pub proof fn lemma_flat_contains<T>(groups: Seq<Seq<T>>, item: T)
    ensures
        flat(groups).contains(item) <==> exists|g: int|
            0 <= g < groups.len() && (#[trigger] groups[g]).contains(item),
    decreases groups.len(),
{
    if groups.len() > 0 {
        let rest = groups.drop_last();
        lemma_flat_contains(rest, item);
        let all = flat(groups);
        if all.contains(item) {
            let i = all.index_of(item);
            if i < flat(rest).len() {
                assert(flat(rest)[i] == item);
                let g = choose|g: int| 0 <= g < rest.len() && (#[trigger] rest[g]).contains(item);
                assert(groups[g].contains(item));
            } else {
                assert(groups.last()[i - flat(rest).len()] == item);
                assert(groups[groups.len() - 1].contains(item));
            }
        }
        if exists|g: int| 0 <= g < groups.len() && (#[trigger] groups[g]).contains(item) {
            let g = choose|g: int| 0 <= g < groups.len() && (#[trigger] groups[g]).contains(item);
            if g < rest.len() {
                assert(rest[g].contains(item));
                let i = flat(rest).index_of(item);
                assert(all[i] == item);
            } else {
                let i = groups.last().index_of(item);
                assert(all[flat(rest).len() + i] == item);
            }
        }
    }
}

} // verus!
