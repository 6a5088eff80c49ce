//! Facts about the trees that parent links form.

use vstd::prelude::*;
use vstd::seq_lib::*;

use crate::ecs::entities::{
    ancestor, descends, lemma_ancestor_step, lemma_ancestor_sum, lists_children, Entity,
};
use crate::ecs::world::SceneWorld;

verus! {

/// Whether no entity is above itself.
pub open spec fn acyclic(links: Map<Entity, Entity>) -> bool {
    forall|e: Entity, k: nat| k > 0 ==> #[trigger] ancestor(links, e, k) != Some(e)
}

/// Whether nothing sits more than `n` links below `root`.
pub open spec fn no_deeper(links: Map<Entity, Entity>, root: Entity, n: nat) -> bool {
    forall|e: Entity, k: nat| #[trigger] ancestor(links, e, k) == Some(root) ==> k <= n
}

/// Whether `ancestor` is found within the first `limit` entities of the chain
/// that begins with `entity` and goes up from parent to parent.
pub open spec fn found_within(
    links: Map<Entity, Entity>,
    entity: Entity,
    root: Entity,
    limit: nat,
) -> bool {
    exists|k: nat| k < limit && #[trigger] ancestor(links, entity, k) == Some(root)
}

/// Below the last link of a chain there is a link.
pub proof fn lemma_chain_is_linked(links: Map<Entity, Entity>, entity: Entity, j: nat, k: nat)
    requires
        j < k,
        ancestor(links, entity, k) is Some,
    ensures
        ancestor(links, entity, j) is Some,
        links.contains_key(ancestor(links, entity, j)->0),
    decreases k,
{
    if j + 1 < k {
        lemma_chain_is_linked(links, entity, j, (k - 1) as nat);
    }
}

/// In a finite tree no chain has more links than there are links.
pub proof fn lemma_chains_are_bounded(links: Map<Entity, Entity>, entity: Entity, k: nat)
    requires
        acyclic(links),
        links.dom().finite(),
        ancestor(links, entity, k) is Some,
    ensures
        k <= links.dom().len(),
{
    let chain = Seq::new(k, |i: int| ancestor(links, entity, i as nat)->0);
    assert forall|i: int| 0 <= i < k implies links.contains_key(#[trigger] chain[i]) by {
        lemma_chain_is_linked(links, entity, i as nat, k);
    }
    assert forall|i: int, j: int| 0 <= i < j < k implies chain[i] != chain[j] by {
        lemma_chain_is_linked(links, entity, i as nat, k);
        lemma_chain_is_linked(links, entity, j as nat, k);
        lemma_ancestor_sum(links, entity, i as nat, (j - i) as nat);
        assert(ancestor(links, chain[i], (j - i) as nat) == Some(chain[j]));
    }
    assert(chain.no_duplicates());
    chain.unique_seq_to_set();
    assert(chain.to_set().subset_of(links.dom())) by {
        assert forall|e: Entity| chain.to_set().contains(e) implies links.dom().contains(e) by {
            let i = chain.index_of(e);
            assert(links.contains_key(chain[i]));
        }
    }
    vstd::set_lib::lemma_len_subset(chain.to_set(), links.dom());
}

/// In a finite tree everything is within a bound below every entity.
pub proof fn lemma_tree_has_depth(links: Map<Entity, Entity>, root: Entity)
    requires
        acyclic(links),
        links.dom().finite(),
    ensures
        no_deeper(links, root, links.dom().len()),
{
    assert forall|e: Entity, k: nat| #[trigger] ancestor(links, e, k) == Some(root) implies k
        <= links.dom().len() by {
        lemma_chains_are_bounded(links, e, k);
    }
}

/// What is below a child is one link less deep.
pub proof fn lemma_child_is_less_deep(
    links: Map<Entity, Entity>,
    root: Entity,
    child: Entity,
    n: nat,
)
    requires
        no_deeper(links, root, n),
        links.contains_key(child),
        links[child] == root,
    ensures
        n > 0,
        no_deeper(links, child, (n - 1) as nat),
{
    assert(ancestor(links, child, 0) == Some(child));
    assert(ancestor(links, child, 1) == Some(root)) by {
        reveal_with_fuel(ancestor, 2);
    }
    assert forall|e: Entity, k: nat| #[trigger] ancestor(links, e, k) == Some(child) implies k
        <= n - 1 by {
        assert(ancestor(links, e, k + 1) == Some(root));
    }
}

/// What is below an entity is the entity and what is below its children.
pub proof fn lemma_subtree_by_children(
    links: Map<Entity, Entity>,
    root: Entity,
    children: Seq<Entity>,
)
    requires
        lists_children(children, links, root),
    ensures
        forall|e: Entity| #[trigger]
            descends(links, e, root) <==> e == root || exists|i: int|
                0 <= i < children.len() && #[trigger] descends(links, e, children[i]),
{
    assert forall|e: Entity| #[trigger] descends(links, e, root) implies e == root || exists|
        i: int,
    |
        0 <= i < children.len() && #[trigger] descends(links, e, children[i]) by {
        let k = choose|k: nat| #[trigger] ancestor(links, e, k) == Some(root);
        if k > 0 {
            lemma_chain_is_linked(links, e, (k - 1) as nat, k);
            let child = ancestor(links, e, (k - 1) as nat)->0;
            assert(links[child] == root);
            assert(children.contains(child));
            let i = children.index_of(child);
            assert(descends(links, e, children[i]));
        }
    }
    assert forall|e: Entity|
        (e == root || exists|i: int|
            0 <= i < children.len() && #[trigger] descends(links, e, children[i]))
        implies #[trigger] descends(links, e, root) by {
        if e == root {
            assert(ancestor(links, e, 0) == Some(root));
        } else {
            let i = choose|i: int|
                0 <= i < children.len() && #[trigger] descends(links, e, children[i]);
            let k = choose|k: nat| #[trigger] ancestor(links, e, k) == Some(children[i]);
            assert(children.contains(children[i]));
            assert(ancestor(links, e, k + 1) == Some(root));
        }
    }
}

/// In a tree an entity is not below its children, and nothing is below two of
/// them.
pub proof fn lemma_subtrees_are_apart(
    links: Map<Entity, Entity>,
    root: Entity,
    a: Entity,
    b: Entity,
)
    requires
        acyclic(links),
        links.contains_key(a),
        links[a] == root,
        links.contains_key(b),
        links[b] == root,
        a != b,
    ensures
        !descends(links, root, a),
        forall|e: Entity| !(#[trigger] descends(links, e, a) && descends(links, e, b)),
{
    lemma_not_below_its_child(links, root, a);
    lemma_not_below_its_child(links, root, b);
    assert forall|e: Entity| !(#[trigger] descends(links, e, a) && descends(links, e, b)) by {
        if descends(links, e, a) && descends(links, e, b) {
            let j = choose|j: nat| #[trigger] ancestor(links, e, j) == Some(a);
            let k = choose|k: nat| #[trigger] ancestor(links, e, k) == Some(b);
            if j < k {
                lemma_above_sibling(links, root, e, a, b, j, k);
            } else if k < j {
                lemma_above_sibling(links, root, e, b, a, k, j);
            }
        }
    }
}

proof fn lemma_above_sibling(
    links: Map<Entity, Entity>,
    root: Entity,
    e: Entity,
    a: Entity,
    b: Entity,
    j: nat,
    k: nat,
)
    requires
        links.contains_key(a),
        links[a] == root,
        ancestor(links, e, j) == Some(a),
        ancestor(links, e, k) == Some(b),
        j < k,
    ensures
        descends(links, root, b),
{
    lemma_ancestor_sum(links, e, j, (k - j) as nat);
    assert(ancestor(links, a, (k - j) as nat) == Some(b));
    lemma_ancestor_step(links, a, (k - j - 1) as nat);
    assert((k - j - 1) as nat + 1 == (k - j) as nat);
    assert(ancestor(links, root, (k - j - 1) as nat) == Some(b));
}

/// In a tree an entity is not below its child.
pub proof fn lemma_not_below_its_child(links: Map<Entity, Entity>, root: Entity, child: Entity)
    requires
        acyclic(links),
        links.contains_key(child),
        links[child] == root,
    ensures
        !descends(links, root, child),
{
    if descends(links, root, child) {
        let k = choose|k: nat| #[trigger] ancestor(links, root, k) == Some(child);
        assert(ancestor(links, root, k + 1) == Some(root));
    }
}

/// Links that agree on what is alive before, and lead nowhere else from there,
/// make the same chains from there.
pub proof fn lemma_same_chain(
    before: Map<Entity, Entity>,
    after: Map<Entity, Entity>,
    alive: Set<Entity>,
    entity: Entity,
    k: nat,
)
    requires
        alive.contains(entity),
        forall|e: Entity| #[trigger]
            before.contains_key(e) ==> alive.contains(e) && alive.contains(before[e]),
        forall|e: Entity| alive.contains(e) ==> (#[trigger] after.contains_key(e)
            <==> before.contains_key(e)),
        forall|e: Entity| #[trigger] before.contains_key(e) ==> after[e] == before[e],
    ensures
        ancestor(after, entity, k) == ancestor(before, entity, k),
        ancestor(before, entity, k) matches Some(above) ==> alive.contains(above),
    decreases k,
{
    if k > 0 {
        lemma_same_chain(before, after, alive, entity, (k - 1) as nat);
    }
}

/// Making `child` a child of `parent` closes no circle, as long as `parent` is
/// not below `child`.
pub proof fn lemma_linking_stays_acyclic(
    links: Map<Entity, Entity>,
    child: Entity,
    parent: Entity,
)
    requires
        acyclic(links),
        !descends(links, parent, child),
    ensures
        acyclic(links.insert(child, parent)),
{
    let after = links.insert(child, parent);
    assert forall|e: Entity, k: nat| k > 0 implies #[trigger] ancestor(after, e, k) != Some(e) by {
        if ancestor(after, e, k) == Some(e) {
            if exists|j: nat| j < k && #[trigger] ancestor(after, e, j) == Some(child) {
                let j = choose|j: nat| j < k && #[trigger] ancestor(after, e, j) == Some(child);
                // Going round from `child` comes back to `child`.
                lemma_ancestor_sum(after, e, j, (k - j) as nat);
                assert(ancestor(after, child, (k - j) as nat) == Some(e));
                lemma_ancestor_sum(after, child, (k - j) as nat, j);
                assert(ancestor(after, child, k) == Some(child));
                lemma_ancestor_step(after, child, (k - 1) as nat);
                assert(ancestor(after, parent, (k - 1) as nat) == Some(child));
                lemma_first_visit(links, after, child, parent, (k - 1) as nat);
            } else {
                lemma_avoiding_chain(links, after, child, e, k);
            }
        }
    }
}

/// Up to its first visit of `child`, a chain does not notice what `child` is
/// linked to.
proof fn lemma_avoiding_chain(
    links: Map<Entity, Entity>,
    after: Map<Entity, Entity>,
    child: Entity,
    entity: Entity,
    k: nat,
)
    requires
        forall|e: Entity| e != child ==> (#[trigger] after.contains_key(e) <==> links.contains_key(
            e,
        )) && (links.contains_key(e) ==> after[e] == links[e]),
        forall|j: nat| j < k ==> #[trigger] ancestor(after, entity, j) != Some(child),
    ensures
        ancestor(links, entity, k) == ancestor(after, entity, k),
    decreases k,
{
    if k > 0 {
        lemma_avoiding_chain(links, after, child, entity, (k - 1) as nat);
        assert(ancestor(after, entity, (k - 1) as nat) != Some(child));
    }
}

proof fn lemma_first_visit(
    links: Map<Entity, Entity>,
    after: Map<Entity, Entity>,
    child: Entity,
    parent: Entity,
    k: nat,
)
    requires
        after == links.insert(child, parent),
        ancestor(after, parent, k) == Some(child),
    ensures
        descends(links, parent, child),
    decreases k,
{
    if exists|j: nat| j < k && #[trigger] ancestor(after, parent, j) == Some(child) {
        let j = choose|j: nat| j < k && #[trigger] ancestor(after, parent, j) == Some(child);
        lemma_first_visit(links, after, child, parent, j);
    } else {
        lemma_avoiding_chain(links, after, child, parent, k);
        assert(ancestor(links, parent, k) == Some(child));
    }
}

/// Taking a link away closes no circle.
pub proof fn lemma_unlinking_stays_acyclic(links: Map<Entity, Entity>, child: Entity)
    requires
        acyclic(links),
    ensures
        acyclic(links.remove(child)),
{
    let after = links.remove(child);
    assert forall|e: Entity, k: nat| k > 0 implies #[trigger] ancestor(after, e, k) != Some(e) by {
        if ancestor(after, e, k) == Some(e) {
            lemma_fewer_links(links, after, e, k);
        }
    }
}

/// A chain of fewer links is a chain of the links.
pub proof fn lemma_fewer_links(
    links: Map<Entity, Entity>,
    fewer: Map<Entity, Entity>,
    entity: Entity,
    k: nat,
)
    requires
        fewer.submap_of(links),
        ancestor(fewer, entity, k) is Some,
    ensures
        ancestor(links, entity, k) == ancestor(fewer, entity, k),
    decreases k,
{
    if k > 0 {
        lemma_fewer_links(links, fewer, entity, (k - 1) as nat);
        let below = ancestor(fewer, entity, (k - 1) as nat)->0;
        assert(fewer.contains_key(below));
        assert(fewer.dom().contains(below));
        assert(links.contains_key(below) && links[below] == fewer[below]);
    }
}

proof fn lemma_ended_chain(links: Map<Entity, Entity>, entity: Entity, end: nat, k: nat)
    requires
        ancestor(links, entity, end) is None,
        k > 0,
    ensures
        ancestor(links, entity, k) != Some(entity),
{
    if ancestor(links, entity, k) == Some(entity) {
        lemma_round_and_round(links, entity, k, end);
        assert(end <= end * k) by (nonlinear_arith)
            requires
                k > 0,
        ;
        if end < end * k {
            lemma_chain_is_linked(links, entity, end, end * k);
        }
    }
}

proof fn lemma_round_and_round(links: Map<Entity, Entity>, entity: Entity, k: nat, times: nat)
    requires
        ancestor(links, entity, k) == Some(entity),
    ensures
        ancestor(links, entity, times * k) == Some(entity),
    decreases times,
{
    if times == 0 {
        assert(times * k == 0) by (nonlinear_arith)
            requires
                times == 0,
        ;
    } else {
        lemma_round_and_round(links, entity, k, (times - 1) as nat);
        assert(times * k == (times - 1) * k + k) by (nonlinear_arith);
        assert(0 <= (times - 1) * k) by (nonlinear_arith)
            requires
                times > 0,
                k >= 0,
        ;
        lemma_ancestor_sum(links, entity, ((times - 1) * k) as nat, k);
    }
}

/// Whether no entity is above itself. Where this holds, everything that walks the tree
/// comes to an end.
pub fn is_acyclic(world: &SceneWorld) -> (answer: bool)
    requires
        world.wf(),
    ensures
        answer == acyclic(world@.parents),
{
    let ghost links = world@.parents;
    let count: usize = world.len();
    proof {
        world.lemma_consistent();
        let members = world@.order.to_set();
        vstd::seq_lib::seq_to_set_is_finite(world@.order);
        world@.order.unique_seq_to_set();
        assert(links.dom().subset_of(members));
        vstd::set_lib::lemma_len_subset(links.dom(), members);
    }
    for i in 0..count
        invariant
            world.wf(),
            links == world@.parents,
            links.dom().finite(),
            links.dom().len() <= count,
            count == world@.order.len(),
            forall|j: int, k: nat|
                0 <= j < i && k > 0 ==> #[trigger] ancestor(links, world@.order[j], k) != Some(
                    world@.order[j],
                ),
    {
        let entity = world.entity_at(i);
        let mut above: Entity = entity;
        let mut steps: usize = 0;
        let mut next: Option<Entity> = world.parent(entity);
        while next.is_some()
            invariant
                world.wf(),
                links == world@.parents,
                links.dom().finite(),
                links.dom().len() <= count,
                steps <= count,
                ancestor(links, entity, steps as nat) == Some(above),
                next == (if links.contains_key(above) {
                    Some(links[above])
                } else {
                    None
                }),
            decreases count - steps,
        {
            let parent: Entity = match next {
                Some(parent) => parent,
                None => above,
            };
            assert(ancestor(links, entity, (steps + 1) as nat) == Some(parent));
            if steps == count {
                proof {
                    if acyclic(links) {
                        lemma_chains_are_bounded(links, entity, (steps + 1) as nat);
                    }
                }
                return false;
            }
            steps += 1;
            above = parent;
            next = world.parent(above);
        }
        assert(ancestor(links, entity, (steps + 1) as nat) is None);
        assert forall|k: nat| k > 0 implies #[trigger] ancestor(links, entity, k) != Some(
            entity,
        ) by {
            lemma_ended_chain(links, entity, (steps + 1) as nat, k);
        }
    }
    proof {
        world.lemma_consistent();
        assert forall|e: Entity, k: nat| k > 0 implies #[trigger] ancestor(links, e, k) != Some(
            e,
        ) by {
            if ancestor(links, e, k) == Some(e) {
                lemma_chain_is_linked(links, e, 0, k);
                let j = world@.order.index_of(e);
                assert(world@.order[j] == e);
            }
        }
    }
    true
}

} // verus!
