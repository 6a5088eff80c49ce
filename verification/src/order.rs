//! Orders, and sorting by them.

use vstd::prelude::*;
use vstd::seq_lib::*;

use crate::paths::{components, components_of, here, root, up};
use crate::text::{to_chars, views};

verus! {

/// Values that can be put in order: `before` is a strict weak order, and values
/// of which neither is before the other count as equal in it.
pub trait Ordered: Sized {
    /// Whether this value is to stand before `other`.
    spec fn before(&self, other: &Self) -> bool;

    /// No two values stand before each other.
    proof fn before_is_asymmetric(a: &Self, b: &Self)
        requires
            a.before(b),
        ensures
            !b.before(a),
    ;

    /// Not standing before is passed on.
    proof fn not_before_is_transitive(a: &Self, b: &Self, c: &Self)
        requires
            !b.before(a),
            !c.before(b),
        ensures
            !c.before(a),
    ;

    /// Whether this value is to stand before `other`.
    fn precedes(&self, other: &Self) -> (answer: bool)
        ensures
            answer == self.before(other),
    ;
}

/// Whether no item stands after one that is to stand after it.
pub open spec fn in_order<T: Ordered>(items: Seq<T>) -> bool {
    forall|i: int, j: int|
        #![trigger items[i], items[j]]
        0 <= i < j < items.len() ==> !items[j].before(&items[i])
}

/// `items` with `item` put in behind everything that it is not before.
pub open spec fn put_in<T: Ordered>(items: Seq<T>, item: T) -> Seq<T>
    decreases items.len(),
{
    if items.len() > 0 && item.before(&items.last()) {
        put_in(items.drop_last(), item).push(items.last())
    } else {
        items.push(item)
    }
}

/// `items` in order, equal items in the order they came in.
pub open spec fn sorted<T: Ordered>(items: Seq<T>) -> Seq<T>
    decreases items.len(),
{
    if items.len() == 0 {
        Seq::empty()
    } else {
        put_in(sorted(items.drop_last()), items.last())
    }
}

proof fn lemma_put_in<T: Ordered>(items: Seq<T>, item: T)
    requires
        in_order(items),
    ensures
        in_order(put_in(items, item)),
        put_in(items, item).len() == items.len() + 1,
        put_in(items, item).to_multiset() =~= items.to_multiset().insert(item),
    decreases items.len(),
{
    broadcast use group_to_multiset_ensures;

    if items.len() > 0 && item.before(&items.last()) {
        let rest = items.drop_last();
        let last = items.last();
        assert(in_order(rest)) by {
            assert forall|i: int, j: int|
                #![trigger rest[i], rest[j]]
                0 <= i < j < rest.len() implies !rest[j].before(&rest[i]) by {
                assert(rest[j] == items[j] && rest[i] == items[i]);
            }
        }
        lemma_put_in(rest, item);
        let put = put_in(rest, item);
        let all = put.push(last);
        assert forall|i: int, j: int|
                #![trigger all[i], all[j]]
                0 <= i < j < all.len() implies !all[j].before(&all[i]) by {
            if j == put.len() {
                assert(put.contains(put[i]));
                assert(put.to_multiset().count(put[i]) > 0);
                if put[i] == item {
                    T::before_is_asymmetric(&item, &last);
                } else {
                    assert(rest.to_multiset().count(put[i]) > 0);
                    assert(rest.contains(put[i]));
                    let k = rest.index_of(put[i]);
                    assert(items[k] == put[i]);
                    assert(items[items.len() - 1] == last);
                }
            } else {
                assert(all[j] == put[j] && all[i] == put[i]);
            }
        }
        assert(rest.push(last) =~= items);
        assert(rest.push(last).to_multiset() =~= rest.to_multiset().insert(last));
        assert(all.to_multiset() =~= put.to_multiset().insert(last));
    } else {
        let all = items.push(item);
        assert forall|i: int, j: int|
                #![trigger all[i], all[j]]
                0 <= i < j < all.len() implies !all[j].before(&all[i]) by {
            if j == items.len() {
                let last = items.last();
                if i < items.len() - 1 {
                    assert(!items[items.len() - 1].before(&items[i]));
                    T::not_before_is_transitive(&items[i], &last, &item);
                }
            } else {
                assert(all[j] == items[j] && all[i] == items[i]);
            }
        }
    }
}

/// Sorting puts in order, and neither loses nor invents an item.
pub proof fn lemma_sorted<T: Ordered>(items: Seq<T>)
    ensures
        in_order(sorted(items)),
        sorted(items).len() == items.len(),
        sorted(items).to_multiset() =~= items.to_multiset(),
    decreases items.len(),
{
    broadcast use group_to_multiset_ensures;

    if items.len() == 0 {
        assert(sorted(items) =~= items);
    } else {
        lemma_sorted(items.drop_last());
        lemma_put_in(sorted(items.drop_last()), items.last());
        assert(items.drop_last().push(items.last()) =~= items);
    }
}

/// Sorting neither adds nor drops nor repeats anything.
pub proof fn lemma_sorted_is_a_permutation<T: Ordered>(items: Seq<T>)
    ensures
        forall|item: T| #[trigger] sorted(items).contains(item) <==> items.contains(item),
        items.no_duplicates() ==> sorted(items).no_duplicates(),
{
    broadcast use group_to_multiset_ensures;

    lemma_sorted(items);
    assert forall|item: T| #[trigger] sorted(items).contains(item) <==> items.contains(item) by {
        assert(sorted(items).contains(item) <==> sorted(items).to_multiset().contains(item));
        assert(items.contains(item) <==> items.to_multiset().contains(item));
    }
    if items.no_duplicates() {
        items.lemma_multiset_has_no_duplicates();
        sorted(items).lemma_multiset_has_no_duplicates_conv();
    }
}

/// Two sequences with the same items, in which no two items are equal in the
/// order, are the same once in order.
pub proof fn lemma_order_is_unique<T: Ordered>(a: Seq<T>, b: Seq<T>)
    requires
        in_order(a),
        in_order(b),
        a.to_multiset() =~= b.to_multiset(),
        forall|i: int, j: int|
            #![trigger a[i], a[j]]
            0 <= i < j < a.len() ==> a[i].before(&a[j]),
    ensures
        a == b,
    decreases a.len(),
{
    broadcast use group_to_multiset_ensures;

    assert(a.len() == a.to_multiset().len() && b.len() == b.to_multiset().len());
    if a.len() > 0 {
        let last = a.last();
        assert(a.to_multiset().count(last) > 0);
        assert(b.to_multiset().count(last) > 0);
        let k = b.index_of(last);
        assert(b.contains(last));
        assert(b[k] == last);
        let end = b.last();
        assert(b.contains(end));
        assert(a.to_multiset().count(end) > 0);
        assert(a.contains(end));
        let m = a.index_of(end);
        assert(a[m] == end);
        if m < a.len() - 1 {
            assert(a[m].before(&a[a.len() - 1]));
            if k < b.len() - 1 {
                assert(!b[b.len() - 1].before(&b[k]));
            }
        }
        assert(end == last);
        assert(a.drop_last().push(last) =~= a);
        assert(b.drop_last().push(last) =~= b);
        assert(a.drop_last().to_multiset().insert(last) =~= b.drop_last().to_multiset().insert(
            last,
        ));
        assert(a.drop_last().to_multiset() =~= b.drop_last().to_multiset()) by {
            assert forall|x: T| #![auto]
                a.drop_last().to_multiset().count(x) == b.drop_last().to_multiset().count(x) by {
                assert(a.drop_last().to_multiset().insert(last).count(x)
                    == b.drop_last().to_multiset().insert(last).count(x));
            }
        }
        assert(in_order(a.drop_last())) by {
            assert forall|i: int, j: int|
                #![trigger a.drop_last()[i], a.drop_last()[j]]
                0 <= i < j < a.len() - 1 implies !a.drop_last()[j].before(&a.drop_last()[i]) by {
                assert(!a[j].before(&a[i]));
            }
        }
        assert(in_order(b.drop_last())) by {
            assert forall|i: int, j: int|
                #![trigger b.drop_last()[i], b.drop_last()[j]]
                0 <= i < j < b.len() - 1 implies !b.drop_last()[j].before(&b.drop_last()[i]) by {
                assert(!b[j].before(&b[i]));
            }
        }
        assert forall|i: int, j: int|
            #![trigger a.drop_last()[i], a.drop_last()[j]]
            0 <= i < j < a.drop_last().len() implies a.drop_last()[i].before(&a.drop_last()[j]) by {
            assert(a[i].before(&a[j]));
        }
        lemma_order_is_unique(a.drop_last(), b.drop_last());
    }
}

/// Sorts `items`, keeping equal items in the order they came in.
pub fn sort<T: Ordered>(items: Vec<T>) -> (result: Vec<T>)
    ensures
        result@ == sorted(items@),
        in_order(result@),
        result@.to_multiset() == items@.to_multiset(),
{
    let ghost all = items@;
    let mut rest = items;
    let mut queue: Vec<T> = Vec::new();
    while rest.len() > 0
        invariant
            all == rest@ + queue@.reverse(),
        decreases rest.len(),
    {
        let ghost before = rest@;
        let ghost queued = queue@;
        match rest.pop() {
            Some(item) => {
                queue.push(item);
                assert(before =~= rest@.push(item));
                assert(queued.push(item).reverse() =~= seq![item] + queued.reverse());
                assert(rest@ + queue@.reverse() =~= before + queued.reverse());
            },
            None => {},
        }
    }
    let mut result: Vec<T> = Vec::new();
    assert(result@ + queue@.reverse() =~= all);
    assert(all.take(0) =~= Seq::<T>::empty());
    let ghost mut done: int = 0;
    while queue.len() > 0
        invariant
            0 <= done <= all.len(),
            queue@.reverse() == all.skip(done),
            result@ == sorted(all.take(done)),
        decreases queue.len(),
    {
        let ghost queued = queue@;
        match queue.pop() {
            Some(item) => {
                assert(queued =~= queue@.push(item));
                assert(queued.reverse()[0] == item);
                assert(all.skip(done).len() > 0);
                assert(all.skip(done)[0] == all[done]);
                assert(queue@.reverse() =~= queued.reverse().drop_first());
                assert(all.skip(done).drop_first() =~= all.skip(done + 1));
                assert(all.take(done + 1).drop_last() =~= all.take(done));
                put(&mut result, item);
                proof {
                    done = done + 1;
                }
            },
            None => {},
        }
    }
    proof {
        assert(all.skip(done).len() == 0);
        assert(all.take(done) =~= all);
        lemma_sorted(all);
    }
    result
}

/// Puts `item` in behind everything that it is not before.
pub fn put<T: Ordered>(items: &mut Vec<T>, item: T)
    ensures
        final(items)@ == put_in(old(items)@, item),
{
    let mut at: usize = items.len();
    assert(items@.take(at as int) =~= items@);
    assert(items@.skip(at as int) =~= Seq::<T>::empty());
    assert(put_in(items@.take(at as int), item) + items@.skip(at as int) =~= put_in(items@, item));
    while at > 0 && item.precedes(&items[at - 1])
        invariant
            at <= items.len(),
            put_in(items@, item) == put_in(items@.take(at as int), item) + items@.skip(at as int),
        decreases at,
    {
        let ghost head = items@.take(at as int);
        assert(head.drop_last() =~= items@.take(at - 1));
        assert(put_in(head, item) + items@.skip(at as int) =~= put_in(items@.take(at - 1), item)
            + items@.skip(at - 1));
        at -= 1;
    }
    let ghost whole = items@;
    assert(put_in(whole, item) == whole.take(at as int).push(item) + whole.skip(at as int));
    items.insert(at, item);
    assert(items@ =~= whole.take(at as int).push(item) + whole.skip(at as int));
}

impl Ordered for u64 {
    open spec fn before(&self, other: &u64) -> bool {
        *self < *other
    }

    proof fn before_is_asymmetric(a: &u64, b: &u64) {
    }

    proof fn not_before_is_transitive(a: &u64, b: &u64, c: &u64) {
    }

    fn precedes(&self, other: &u64) -> (answer: bool) {
        *self < *other
    }
}

/// Whether the numbers grow from each to the next.
pub open spec fn ascending(numbers: Seq<u64>) -> bool {
    forall|i: int, j: int|
        #![trigger numbers[i], numbers[j]]
        0 <= i < j < numbers.len() ==> numbers[i] < numbers[j]
}

/// Ascending numbers are determined by which they are.
pub proof fn lemma_ascending_is_unique(a: Seq<u64>, b: Seq<u64>)
    requires
        ascending(a),
        ascending(b),
        forall|n: u64| #[trigger] a.contains(n) <==> b.contains(n),
    ensures
        a == b,
{
    broadcast use group_to_multiset_ensures;

    assert(a.no_duplicates() && b.no_duplicates());
    a.lemma_multiset_has_no_duplicates();
    b.lemma_multiset_has_no_duplicates();
    assert(a.to_multiset() =~= b.to_multiset()) by {
        assert forall|n: u64| #![auto] a.to_multiset().count(n) == b.to_multiset().count(n) by {
            assert(a.contains(n) <==> a.to_multiset().count(n) > 0);
            assert(b.contains(n) <==> b.to_multiset().count(n) > 0);
        }
    }
    lemma_order_is_unique(a, b);
}

/// The numbers of a finite set can be put in ascending order.
pub proof fn lemma_ascending_exists(numbers: Set<u64>) -> (list: Seq<u64>)
    requires
        numbers.finite(),
    ensures
        ascending(list),
        forall|n: u64| #[trigger] list.contains(n) <==> numbers.contains(n),
    decreases numbers.len(),
{
    broadcast use group_to_multiset_ensures;

    if numbers.len() == 0 {
        assert(numbers =~= Set::empty());
        Seq::empty()
    } else {
        let some = numbers.choose();
        let rest = lemma_ascending_exists(numbers.remove(some));
        assert(in_order(rest));
        lemma_put_in(rest, some);
        let list = put_in(rest, some);
        assert(rest.no_duplicates());
        rest.lemma_multiset_has_no_duplicates();
        assert(!rest.contains(some));
        assert forall|n: u64| #[trigger] list.contains(n) <==> numbers.contains(n) by {
            assert(list.contains(n) <==> list.to_multiset().count(n) > 0);
            assert(rest.contains(n) <==> rest.to_multiset().count(n) > 0);
        }
        assert forall|m: u64| #[trigger] list.to_multiset().contains(m) implies list.to_multiset().count(
            m,
        ) == 1 by {
            assert(rest.to_multiset().contains(m) ==> rest.to_multiset().count(m) == 1);
            assert(!rest.to_multiset().contains(some));
        }
        list.lemma_multiset_has_no_duplicates_conv();
        assert forall|i: int, j: int|
            #![trigger list[i], list[j]]
            0 <= i < j < list.len() implies list[i] < list[j] by {
            assert(!list[j].before(&list[i]));
            assert(list[i] != list[j]);
        }
        list
    }
}

/// Sorts different numbers.
pub fn sort_numbers(numbers: Vec<u64>) -> (result: Vec<u64>)
    requires
        numbers@.no_duplicates(),
    ensures
        ascending(result@),
        forall|n: u64| #[trigger] result@.contains(n) <==> numbers@.contains(n),
        result@.len() == numbers@.len(),
{
    let ghost given = numbers@;
    let result = sort(numbers);
    proof {
        broadcast use group_to_multiset_ensures;

        lemma_sorted(given);
        given.lemma_multiset_has_no_duplicates();
        result@.lemma_multiset_has_no_duplicates_conv();
        assert forall|i: int, j: int|
            #![trigger result@[i], result@[j]]
            0 <= i < j < result@.len() implies result@[i] < result@[j] by {
            assert(!result@[j].before(&result@[i]));
        }
        assert forall|n: u64| #[trigger] result@.contains(n) <==> given.contains(n) by {
            assert(result@.to_multiset().count(n) == given.to_multiset().count(n));
        }
    }
    result
}

/// Whether `a` stands before `b` in lexicographic order of their characters.
pub open spec fn text_before(a: Seq<char>, b: Seq<char>) -> bool
    decreases b.len(),
{
    if b.len() == 0 {
        false
    } else if a.len() == 0 {
        true
    } else if a[0] != b[0] {
        a[0] < b[0]
    } else {
        text_before(a.drop_first(), b.drop_first())
    }
}

proof fn lemma_text_not_before_itself(a: Seq<char>)
    ensures
        !text_before(a, a),
    decreases a.len(),
{
    if a.len() > 0 {
        lemma_text_not_before_itself(a.drop_first());
    }
}

/// The lexicographic order of texts is a strict total order.
pub proof fn lemma_text_order(a: Seq<char>, b: Seq<char>, c: Seq<char>)
    ensures
        text_before(a, b) ==> !text_before(b, a),
        text_before(a, b) && text_before(b, c) ==> text_before(a, c),
        text_before(a, b) || text_before(b, a) || a == b,
        !text_before(a, a),
    decreases a.len() + b.len() + c.len(),
{
    lemma_text_not_before_itself(a);
    if a.len() > 0 && b.len() > 0 {
        let rest = if c.len() > 0 {
            c.drop_first()
        } else {
            c
        };
        lemma_text_order(a.drop_first(), b.drop_first(), rest);
        if a[0] == b[0] && a.drop_first() == b.drop_first() {
            assert(a =~= seq![a[0]] + a.drop_first());
            assert(b =~= seq![b[0]] + b.drop_first());
        }
    } else if a.len() == 0 && b.len() == 0 {
        assert(a =~= b);
    }
}

/// Whether `a` stands before `b` in lexicographic order of their characters.
pub fn chars_before(a: &[char], b: &[char]) -> (answer: bool)
    ensures
        answer == text_before(a@, b@),
{
    let mut i: usize = 0;
    assert(a@.skip(0) =~= a@ && b@.skip(0) =~= b@);
    while i < a.len() && i < b.len()
        invariant
            i <= a.len(),
            i <= b.len(),
            text_before(a@, b@) == text_before(a@.skip(i as int), b@.skip(i as int)),
        decreases a.len() - i,
    {
        if a[i] != b[i] {
            return a[i] < b[i];
        }
        assert(a@.skip(i as int).drop_first() =~= a@.skip(i + 1));
        assert(b@.skip(i as int).drop_first() =~= b@.skip(i + 1));
        i += 1;
    }
    i < b.len()
}

/// Whether the text `a` stands before the text `b`.
pub fn is_text_before(a: &str, b: &str) -> (answer: bool)
    ensures
        answer == text_before(a@, b@),
{
    chars_before(&to_chars(a), &to_chars(b))
}

/// The place of a component among the special ones: the root, then the current
/// directory, then the parent directory, then every name.
pub open spec fn component_rank(part: Seq<char>) -> int {
    if part == root() {
        0
    } else if part == here() {
        1
    } else if part == up() {
        2
    } else {
        3
    }
}

/// Whether the component `a` stands before the component `b`.
pub open spec fn component_before(a: Seq<char>, b: Seq<char>) -> bool {
    component_rank(a) < component_rank(b) || (component_rank(a) == 3 && component_rank(b) == 3
        && text_before(a, b))
}

/// Whether `a` stands before `b` in lexicographic order of their components.
pub open spec fn components_before(a: Seq<Seq<char>>, b: Seq<Seq<char>>) -> bool
    decreases b.len(),
{
    if b.len() == 0 {
        false
    } else if a.len() == 0 {
        true
    } else if a[0] != b[0] {
        component_before(a[0], b[0])
    } else {
        components_before(a.drop_first(), b.drop_first())
    }
}

/// Whether the path `a` stands before the path `b`.
pub open spec fn path_before(a: Seq<char>, b: Seq<char>) -> bool {
    components_before(components_of(a), components_of(b))
}

/// The order of components is a strict total order.
pub proof fn lemma_component_order(a: Seq<char>, b: Seq<char>, c: Seq<char>)
    ensures
        component_before(a, b) ==> !component_before(b, a),
        component_before(a, b) && component_before(b, c) ==> component_before(a, c),
        component_before(a, b) || component_before(b, a) || a == b,
        !component_before(a, a),
{
    lemma_text_order(a, b, c);
}

proof fn lemma_components_not_before_themselves(a: Seq<Seq<char>>)
    ensures
        !components_before(a, a),
    decreases a.len(),
{
    if a.len() > 0 {
        lemma_components_not_before_themselves(a.drop_first());
    }
}

proof fn lemma_components_order(a: Seq<Seq<char>>, b: Seq<Seq<char>>, c: Seq<Seq<char>>)
    ensures
        components_before(a, b) ==> !components_before(b, a),
        components_before(a, b) && components_before(b, c) ==> components_before(a, c),
        components_before(a, b) || components_before(b, a) || a == b,
        !components_before(a, a),
    decreases a.len() + b.len() + c.len(),
{
    lemma_components_not_before_themselves(a);
    if a.len() > 0 && b.len() > 0 {
        let rest = if c.len() > 0 {
            c.drop_first()
        } else {
            c
        };
        lemma_components_order(a.drop_first(), b.drop_first(), rest);
        lemma_component_order(a[0], b[0], if c.len() > 0 {
            c[0]
        } else {
            a[0]
        });
        if a[0] == b[0] && a.drop_first() == b.drop_first() {
            assert(a =~= seq![a[0]] + a.drop_first());
            assert(b =~= seq![b[0]] + b.drop_first());
        }
        lemma_component_order(b[0], a[0], b[0]);
    } else if a.len() == 0 && b.len() == 0 {
        assert(a =~= b);
    }
}

/// Paths are in a strict total order, up to naming the same path.
pub proof fn lemma_path_order(a: Seq<char>, b: Seq<char>, c: Seq<char>)
    ensures
        path_before(a, b) ==> !path_before(b, a),
        path_before(a, b) && path_before(b, c) ==> path_before(a, c),
        path_before(a, b) || path_before(b, a) || components_of(a) == components_of(b),
        !path_before(a, a),
{
    lemma_components_order(components_of(a), components_of(b), components_of(c));
}

fn rank_of(part: &[char]) -> (rank: u8)
    ensures
        rank == component_rank(part@),
{
    if part.len() == 1 && part[0] == '/' {
        assert(part@ =~= root());
        0
    } else if part.len() == 1 && part[0] == '.' {
        assert(part@ =~= here());
        1
    } else if part.len() == 2 && part[0] == '.' && part[1] == '.' {
        assert(part@ =~= up());
        2
    } else {
        3
    }
}

/// Whether the component `a` stands before the component `b`.
pub fn is_component_before(a: &str, b: &str) -> (answer: bool)
    ensures
        answer == component_before(a@, b@),
{
    let left = to_chars(a);
    let right = to_chars(b);
    let x: u8 = rank_of(&left);
    let y: u8 = rank_of(&right);
    x < y || (x == 3 && y == 3 && chars_before(&left, &right))
}

/// Whether the path `a` stands before the path `b`.
pub fn is_path_before(a: &str, b: &str) -> (answer: bool)
    ensures
        answer == path_before(a@, b@),
{
    let left = components(a);
    let right = components(b);
    let ghost l = views(left@);
    let ghost r = views(right@);
    let mut i: usize = 0;
    assert(l.skip(0) =~= l && r.skip(0) =~= r);
    while i < left.len() && i < right.len()
        invariant
            i <= left.len(),
            i <= right.len(),
            l == views(left@),
            r == views(right@),
            l == components_of(a@),
            r == components_of(b@),
            components_before(l, r) == components_before(l.skip(i as int), r.skip(i as int)),
        decreases left.len() - i,
    {
        assert(l.skip(i as int)[0] == left@[i as int]@);
        assert(r.skip(i as int)[0] == right@[i as int]@);
        if !crate::text::same_chars(&left[i], &right[i]) {
            let x: u8 = rank_of(&left[i]);
            let y: u8 = rank_of(&right[i]);
            return x < y || (x == 3 && y == 3 && chars_before(&left[i], &right[i]));
        }
        assert(l.skip(i as int).drop_first() =~= l.skip(i + 1));
        assert(r.skip(i as int).drop_first() =~= r.skip(i + 1));
        i += 1;
    }
    i < right.len()
}

/// Texts are ordered as in a dictionary: by the first character in which they differ, and
/// a text before all that it begins.
pub proof fn law_texts_are_ordered_as_in_a_dictionary(a: Seq<char>, b: Seq<char>, k: int)
    requires
        0 <= k <= a.len(),
        k <= b.len(),
        a.take(k) == b.take(k),
    ensures
        k < a.len() && k < b.len() && a[k] != b[k] ==> (text_before(a, b) <==> a[k] < b[k]),
        k == a.len() ==> (text_before(a, b) <==> k < b.len()),
        k == b.len() ==> !text_before(a, b),
    decreases k,
{
    if k > 0 {
        assert(a[0] == a.take(k)[0] && b[0] == b.take(k)[0]);
        let (x, y) = (a.drop_first(), b.drop_first());
        assert(x.take(k - 1) =~= a.take(k).drop_first());
        assert(y.take(k - 1) =~= b.take(k).drop_first());
        law_texts_are_ordered_as_in_a_dictionary(x, y, k - 1);
        if k < a.len() {
            assert(x[k - 1] == a[k]);
        }
        if k < b.len() {
            assert(y[k - 1] == b[k]);
        }
    }
}

/// Paths are ordered by the first component in which they differ, and a directory stands
/// before what is below it. Of two components that are plain names the one before in the
/// dictionary stands first; the root stands before all others, then the current directory,
/// then the one above.
pub proof fn law_paths_are_ordered_by_component(a: Seq<char>, b: Seq<char>, k: int)
    requires
        0 <= k <= components_of(a).len(),
        k <= components_of(b).len(),
        components_of(a).take(k) == components_of(b).take(k),
    ensures
        ({
            let (x, y) = (components_of(a), components_of(b));
            &&& k < x.len() && k < y.len() && x[k] != y[k] ==> {
                let (s, t) = (x[k], y[k]);
                let (slash, dot, dots) = (seq!['/'], seq!['.'], seq!['.', '.']);
                let plain = |part: Seq<char>| part != slash && part != dot && part != dots;
                &&& plain(s) && plain(t) ==> (path_before(a, b) <==> text_before(s, t))
                &&& s == slash ==> path_before(a, b)
                &&& s == dot && t != slash ==> path_before(a, b)
                &&& s == dots && t != slash && t != dot ==> path_before(a, b)
                &&& plain(s) && !plain(t) ==> !path_before(a, b)
            }
            &&& k == x.len() ==> (path_before(a, b) <==> k < y.len())
            &&& k == y.len() ==> !path_before(a, b)
        }),
{
    lemma_components_by_prefix(components_of(a), components_of(b), k);
    assert(seq!['/'].len() == 1 && seq!['.'].len() == 1 && seq!['.', '.'].len() == 2);
    assert(seq!['/'][0] == '/' && seq!['.'][0] == '.');
}

proof fn lemma_components_by_prefix(a: Seq<Seq<char>>, b: Seq<Seq<char>>, k: int)
    requires
        0 <= k <= a.len(),
        k <= b.len(),
        a.take(k) == b.take(k),
    ensures
        k < a.len() && k < b.len() && a[k] != b[k] ==> (components_before(a, b)
            <==> component_before(a[k], b[k])),
        k == a.len() ==> (components_before(a, b) <==> k < b.len()),
        k == b.len() ==> !components_before(a, b),
    decreases k,
{
    if k > 0 {
        assert(a[0] == a.take(k)[0] && b[0] == b.take(k)[0]);
        let (x, y) = (a.drop_first(), b.drop_first());
        assert(x.take(k - 1) =~= a.take(k).drop_first());
        assert(y.take(k - 1) =~= b.take(k).drop_first());
        lemma_components_by_prefix(x, y, k - 1);
        if k < a.len() {
            assert(x[k - 1] == a[k]);
        }
        if k < b.len() {
            assert(y[k - 1] == b[k]);
        }
    }
}

} // verus!
