//! Which rows the hierarchy panel shows, and in which order.

use std::collections::HashSet;
use vstd::prelude::*;

use crate::ecs::entities::{ancestor, descends, lists_children, Entity};
use crate::ecs::tree::{
    acyclic, lemma_child_is_less_deep, lemma_subtree_by_children, lemma_tree_has_depth, no_deeper,
};
use crate::ecs::world::{SceneWorld, WorldView};
use crate::editor::hierarchy::{children_of, display_name, is_root, label_of, roots};
use crate::order::{ascending, lemma_ascending_exists, lemma_ascending_is_unique};
use crate::text::{contains, contains_text, lowercase, trim, trim_of, unicode_lowercase};

verus! {

broadcast use vstd::std_specs::hash::group_hash_axioms;

/// Whether the entity's label, in lowercase, holds the query.
pub open spec fn label_matches(world: WorldView, entity: Entity, query: Seq<char>) -> bool {
    contains_text(unicode_lowercase(label_of(world, entity)), query)
}

/// Whether the entity, or one below it, matches the query.
pub open spec fn branch_matches(world: WorldView, entity: Entity, query: Seq<char>) -> bool {
    exists|e: Entity| #[trigger]
        descends(world.parents, e, entity) && label_matches(world, e, query)
}

/// The bound on the depth of the world's tree.
pub open spec fn depth_bound(world: WorldView) -> nat {
    world.parents.dom().len()
}

proof fn lemma_depth_bound(world: WorldView, entity: Entity)
    requires
        world.consistent(),
        acyclic(world.parents),
    ensures
        no_deeper(world.parents, entity, depth_bound(world)),
{
    assert(world.parents.dom().subset_of(world.table.dom())) by {
        assert forall|e: Entity| world.parents.dom().contains(e) implies world.table.dom().contains(
            e,
        ) by {
            assert(world.parents.contains_key(e));
            assert(world.alive(e));
        }
    }
    vstd::set_lib::lemma_len_subset(world.parents.dom(), world.table.dom());
    lemma_tree_has_depth(world.parents, entity);
}

/// Collects the branches at and below `entity` that match; see
/// [`collect_matches`].
fn collect_branch(
    world: &SceneWorld,
    entity: Entity,
    query: &str,
    out: &mut HashSet<Entity>,
    Ghost(depth): Ghost<nat>,
) -> (matched: bool)
    requires
        world.wf(),
        world@.alive(entity),
        acyclic(world@.parents),
        no_deeper(world@.parents, entity, depth),
    ensures
        matched == branch_matches(world@, entity, query@),
        forall|e: Entity| #[trigger]
            final(out)@.contains(e) <==> old(out)@.contains(e) || (descends(
                world@.parents,
                e,
                entity,
            ) && branch_matches(world@, e, query@)),
    decreases depth,
{
    let ghost links = world@.parents;
    proof {
        world.lemma_consistent();
        assert(ancestor(links, entity, 0) == Some(entity));
        assert(descends(links, entity, entity));
    }
    let ghost given = out@;
    let label = display_name(world, entity);
    let mut matched: bool = contains(&lowercase(&label), query);
    let children = children_of(world, entity);
    proof {
        lemma_subtree_by_children(links, entity, children@);
    }
    for i in 0..children.len()
        invariant
            world.wf(),
            world@.consistent(),
            acyclic(links),
            links == world@.parents,
            no_deeper(links, entity, depth),
            lists_children(children@, links, entity),
            matched == (label_matches(world@, entity, query@) || exists|j: int|
                0 <= j < i && #[trigger] branch_matches(world@, children@[j], query@)),
            forall|e: Entity| #[trigger]
                out@.contains(e) <==> given.contains(e) || (branch_matches(world@, e, query@)
                    && exists|j: int|
                    0 <= j < i && #[trigger] descends(links, e, children@[j])),
    {
        let child: Entity = children[i];
        let ghost before = out@;
        proof {
            assert(children@.contains(child));
            assert(links.contains_key(child));
            lemma_child_is_less_deep(links, entity, child, depth);
        }
        let below: bool = collect_branch(world, child, query, out, Ghost((depth - 1) as nat));
        if below {
            matched = true;
        }
        proof {
            assert forall|e: Entity| #[trigger] out@.contains(e) <==> given.contains(e) || (
            branch_matches(world@, e, query@) && exists|j: int|
                0 <= j < i + 1 && #[trigger] descends(links, e, children@[j])) by {
                if before.contains(e) && !given.contains(e) {
                    let j = choose|j: int|
                        0 <= j < i && #[trigger] descends(links, e, children@[j]);
                    assert(descends(links, e, children@[j]));
                }
                if descends(links, e, child) {
                    assert(descends(links, e, children@[i as int]));
                }
            }
            if below {
                assert(branch_matches(world@, children@[i as int], query@));
            }
        }
    }
    proof {
        assert(matched == branch_matches(world@, entity, query@)) by {
            if matched {
                if label_matches(world@, entity, query@) {
                    assert(descends(links, entity, entity) && label_matches(
                        world@,
                        entity,
                        query@,
                    ));
                } else {
                    let j = choose|j: int|
                        0 <= j < children@.len() && #[trigger] branch_matches(
                            world@,
                            children@[j],
                            query@,
                        );
                    let e = choose|e: Entity| #[trigger]
                        descends(links, e, children@[j]) && label_matches(world@, e, query@);
                    assert(descends(links, e, entity));
                }
            }
            if branch_matches(world@, entity, query@) {
                let e = choose|e: Entity| #[trigger]
                    descends(links, e, entity) && label_matches(world@, e, query@);
                if e != entity {
                    let j = choose|j: int|
                        0 <= j < children@.len() && #[trigger] descends(links, e, children@[j]);
                    assert(branch_matches(world@, children@[j], query@));
                }
            }
        }
    }
    let ghost before = out@;
    if matched {
        out.insert(entity);
    }
    proof {
        assert forall|e: Entity| #[trigger] out@.contains(e) <==> given.contains(e) || (descends(
            links,
            e,
            entity,
        ) && branch_matches(world@, e, query@)) by {
            assert(out@.contains(e) <==> before.contains(e) || (matched && e == entity));
            assert(before.contains(e) <==> given.contains(e) || (branch_matches(world@, e, query@)
                && exists|j: int|
                0 <= j < children@.len() && #[trigger] descends(links, e, children@[j])));
        }
    }
    matched
}

/// Adds to `out` every entity at or below `entity` that matches the query or
/// has one below it that does. Returns whether there is any.
pub fn collect_matches(
    world: &SceneWorld,
    entity: Entity,
    query: &str,
    out: &mut HashSet<Entity>,
) -> (matched: bool)
    requires
        world.wf(),
        world@.alive(entity),
        acyclic(world@.parents),
    ensures
        matched == branch_matches(world@, entity, query@),
        forall|e: Entity| #[trigger]
            final(out)@.contains(e) <==> old(out)@.contains(e) || (descends(
                world@.parents,
                e,
                entity,
            ) && branch_matches(world@, e, query@)),
{
    proof {
        world.lemma_consistent();
        lemma_depth_bound(world@, entity);
    }
    collect_branch(world, entity, query, out, Ghost(depth_bound(world@)))
}

/// The children of an entity in ascending order.
pub open spec fn child_rows(links: Map<Entity, Entity>, entity: Entity) -> Seq<Entity> {
    choose|children: Seq<Entity>|
        ascending(children) && #[trigger] lists_children(children, links, entity)
}

/// The rows for an entity: the entity and the rows for its children, as far as
/// `shown` holds of them; no deeper than `depth` links.
pub open spec fn rows(
    links: Map<Entity, Entity>,
    shown: spec_fn(Entity) -> bool,
    entity: Entity,
    depth: nat,
) -> Seq<Entity>
    decreases depth, 0int,
{
    if !shown(entity) {
        Seq::empty()
    } else if depth == 0 {
        seq![entity]
    } else {
        seq![entity] + rows_of_all(links, shown, child_rows(links, entity), (depth - 1) as nat)
    }
}

/// The rows for several entities, one after the other.
pub open spec fn rows_of_all(
    links: Map<Entity, Entity>,
    shown: spec_fn(Entity) -> bool,
    entities: Seq<Entity>,
    depth: nat,
) -> Seq<Entity>
    decreases depth, entities.len() + 1,
{
    if entities.len() == 0 {
        Seq::empty()
    } else {
        rows_of_all(links, shown, entities.drop_last(), depth) + rows(
            links,
            shown,
            entities.last(),
            depth,
        )
    }
}

/// What is shown: everything, or what is in a set.
pub open spec fn shown_in(visible: Option<Set<Entity>>) -> spec_fn(Entity) -> bool {
    match visible {
        Some(set) => |e: Entity| set.contains(e),
        None => |e: Entity| true,
    }
}

fn is_shown(visible: &Option<HashSet<Entity>>, entity: Entity) -> (answer: bool)
    ensures
        answer == shown_in(set_view(*visible))(entity),
{
    match visible {
        Some(set) => set.contains(&entity),
        None => true,
    }
}

/// The contents of the set, if there is one.
pub open spec fn set_view(visible: Option<HashSet<Entity>>) -> Option<Set<Entity>> {
    match visible {
        Some(set) => Some(set@),
        None => None,
    }
}

fn flatten_branch(
    world: &SceneWorld,
    entity: Entity,
    visible: &Option<HashSet<Entity>>,
    out: &mut Vec<Entity>,
    Ghost(depth): Ghost<nat>,
)
    requires
        world.wf(),
        acyclic(world@.parents),
        no_deeper(world@.parents, entity, depth),
    ensures
        final(out)@ == old(out)@ + rows(
            world@.parents,
            shown_in(set_view(*visible)),
            entity,
            depth,
        ),
    decreases depth,
{
    let ghost links = world@.parents;
    let ghost shown = shown_in(set_view(*visible));
    let ghost given = out@;
    if !is_shown(visible, entity) {
        assert(out@ =~= given + rows(links, shown, entity, depth));
        return;
    }
    out.push(entity);
    let children = children_of(world, entity);
    let ghost begun = out@;
    proof {
        lemma_child_rows(links, entity, children@);
        assert(children@.take(0) =~= Seq::<Entity>::empty());
        if depth == 0 {
            if children@.len() > 0 {
                assert(children@.contains(children@[0]));
                lemma_child_is_less_deep(links, entity, children@[0], depth);
            }
        }
    }
    for i in 0..children.len()
        invariant
            world.wf(),
            links == world@.parents,
            shown == shown_in(set_view(*visible)),
            acyclic(links),
            no_deeper(links, entity, depth),
            lists_children(children@, links, entity),
            depth == 0 ==> children@.len() == 0,
            depth > 0 ==> out@ == begun + rows_of_all(
                links,
                shown,
                children@.take(i as int),
                (depth - 1) as nat,
            ),
            depth == 0 ==> out@ == begun,
    {
        let child: Entity = children[i];
        let ghost so_far = out@;
        proof {
            assert(children@.contains(child));
            lemma_child_is_less_deep(links, entity, child, depth);
            assert(children@.take(i + 1).drop_last() =~= children@.take(i as int));
            assert(children@.take(i + 1).last() == child);
        }
        if is_shown(visible, child) {
            flatten_branch(world, child, visible, out, Ghost((depth - 1) as nat));
        }
        proof {
            let before = rows_of_all(links, shown, children@.take(i as int), (depth - 1) as nat);
            let row = rows(links, shown, child, (depth - 1) as nat);
            assert(begun + before + row =~= begun + (before + row));
            if !shown(child) {
                assert(begun + before =~= begun + (before + row));
            }
        }
    }
    proof {
        assert(children@.take(children@.len() as int) =~= children@);
        assert(begun =~= given + seq![entity]);
        if depth > 0 {
            let below = rows_of_all(links, shown, children@, (depth - 1) as nat);
            assert(given + seq![entity] + below =~= given + (seq![entity] + below));
        }
    }
}

proof fn lemma_child_rows(links: Map<Entity, Entity>, entity: Entity, children: Seq<Entity>)
    requires
        ascending(children),
        lists_children(children, links, entity),
    ensures
        child_rows(links, entity) == children,
{
    let chosen = child_rows(links, entity);
    assert(ascending(chosen) && lists_children(chosen, links, entity));
    assert forall|e: Entity| #[trigger] chosen.contains(e) <==> children.contains(e) by {
        assert(chosen.contains(e) <==> links.contains_key(e) && links[e] == entity);
        assert(children.contains(e) <==> links.contains_key(e) && links[e] == entity);
    }
    lemma_ascending_is_unique(chosen, children);
}

/// Appends the entity and its visible descendants to `out`, in draw order: a row
/// before the rows below it, and those in ascending order.
pub fn flatten_visible(
    world: &SceneWorld,
    entity: Entity,
    visible: &Option<HashSet<Entity>>,
    out: &mut Vec<Entity>,
)
    requires
        world.wf(),
        acyclic(world@.parents),
    ensures
        final(out)@ == old(out)@ + rows(
            world@.parents,
            shown_in(set_view(*visible)),
            entity,
            depth_bound(world@),
        ),
{
    proof {
        world.lemma_consistent();
        lemma_depth_bound(world@, entity);
    }
    flatten_branch(world, entity, visible, out, Ghost(depth_bound(world@)))
}

/// The query that a search text stands for.
pub open spec fn query_of(search: Seq<char>) -> Seq<char> {
    unicode_lowercase(trim_of(search))
}

/// Whether a row is shown under a search: with an empty query every row is, else
/// those below a root that match or have a match below them.
pub open spec fn row_shown(world: WorldView, query: Seq<char>) -> spec_fn(Entity) -> bool {
    |e: Entity|
        query.len() == 0 || (branch_matches(world, e, query) && exists|root: Entity|
            is_root(world, root) && #[trigger] descends(world.parents, e, root))
}

/// The roots of a world in ascending order.
pub open spec fn root_rows(world: WorldView) -> Seq<Entity> {
    choose|roots: Seq<Entity>|
        #![trigger ascending(roots)]
        ascending(roots) && forall|e: Entity| roots.contains(e) <==> is_root(world, e)
}

/// The rows of the panel under a search, in draw order.
pub open spec fn visible_rows(world: WorldView, search: Seq<char>) -> Seq<Entity> {
    rows_of_all(
        world.parents,
        row_shown(world, query_of(search)),
        root_rows(world),
        depth_bound(world),
    )
}

proof fn lemma_rows_alike(
    links: Map<Entity, Entity>,
    shown: spec_fn(Entity) -> bool,
    other: spec_fn(Entity) -> bool,
    entity: Entity,
    depth: nat,
)
    requires
        forall|e: Entity| #[trigger] shown(e) == other(e),
    ensures
        rows(links, shown, entity, depth) == rows(links, other, entity, depth),
    decreases depth, 0int,
{
    assert(shown(entity) == other(entity));
    if depth > 0 {
        lemma_rows_of_all_alike(
            links,
            shown,
            other,
            child_rows(links, entity),
            (depth - 1) as nat,
        );
    }
}

proof fn lemma_rows_of_all_alike(
    links: Map<Entity, Entity>,
    shown: spec_fn(Entity) -> bool,
    other: spec_fn(Entity) -> bool,
    entities: Seq<Entity>,
    depth: nat,
)
    requires
        forall|e: Entity| #[trigger] shown(e) == other(e),
    ensures
        rows_of_all(links, shown, entities, depth) == rows_of_all(links, other, entities, depth),
    decreases depth, entities.len() + 1,
{
    if entities.len() > 0 {
        lemma_rows_of_all_alike(links, shown, other, entities.drop_last(), depth);
        lemma_rows_alike(links, shown, other, entities.last(), depth);
    }
}

/// The rows of the panel under the search text, in draw order, with the set of
/// rows that match where there is a query.
pub fn visible_order(world: &SceneWorld, search: &str) -> (result: (
    Vec<Entity>,
    Option<HashSet<Entity>>,
))
    requires
        world.wf(),
        acyclic(world@.parents),
    ensures
        result.0@ == visible_rows(world@, search@),
        result.1 is None <==> query_of(search@).len() == 0,
        result.1 matches Some(set) ==> forall|e: Entity| #[trigger]
            set@.contains(e) <==> row_shown(world@, query_of(search@))(e),
{
    let query = lowercase(&trim(search));
    let tops = roots(world);
    let ghost shown = row_shown(world@, query@);
    let mut visible: Option<HashSet<Entity>> = None;
    if !query.as_str().is_empty() {
        let mut set: HashSet<Entity> = HashSet::new();
        for i in 0..tops.len()
            invariant
                world.wf(),
                acyclic(world@.parents),
                forall|e: Entity| #[trigger] tops@.contains(e) <==> is_root(world@, e),
                forall|e: Entity| #[trigger]
                    set@.contains(e) <==> branch_matches(world@, e, query@) && exists|j: int|
                        0 <= j < i && #[trigger] descends(world@.parents, e, tops@[j]),
        {
            let ghost before = set@;
            assert(tops@.contains(tops@[i as int]));
            let _ = collect_matches(world, tops[i], &query, &mut set);
            assert forall|e: Entity| #[trigger] set@.contains(e) <==> branch_matches(
                world@,
                e,
                query@,
            ) && exists|j: int|
                0 <= j < i + 1 && #[trigger] descends(world@.parents, e, tops@[j]) by {
                if before.contains(e) {
                    let j = choose|j: int|
                        0 <= j < i && #[trigger] descends(world@.parents, e, tops@[j]);
                    assert(descends(world@.parents, e, tops@[j]));
                }
                if descends(world@.parents, e, tops@[i as int]) {
                }
            }
        }
        proof {
            assert forall|e: Entity| #[trigger] set@.contains(e) <==> shown(e) by {
                if set@.contains(e) {
                    let j = choose|j: int|
                        0 <= j < tops@.len() && #[trigger] descends(world@.parents, e, tops@[j]);
                    assert(tops@.contains(tops@[j]));
                    assert(is_root(world@, tops@[j]) && descends(world@.parents, e, tops@[j]));
                }
                if shown(e) {
                    let root = choose|root: Entity|
                        is_root(world@, root) && #[trigger] descends(world@.parents, e, root);
                    assert(tops@.contains(root));
                    let j = tops@.index_of(root);
                    assert(descends(world@.parents, e, tops@[j]));
                }
            }
        }
        visible = Some(set);
    }
    let ghost listed = shown_in(set_view(visible));
    proof {
        assert forall|e: Entity| #[trigger] listed(e) == shown(e) by {
            match visible {
                Some(set) => {
                    assert(set@.contains(e) <==> shown(e));
                },
                None => {},
            }
        }
    }
    let mut order: Vec<Entity> = Vec::new();
    assert(tops@.take(0) =~= Seq::<Entity>::empty());
    for i in 0..tops.len()
        invariant
            world.wf(),
            acyclic(world@.parents),
            listed == shown_in(set_view(visible)),
            order@ == rows_of_all(
                world@.parents,
                listed,
                tops@.take(i as int),
                depth_bound(world@),
            ),
    {
        assert(tops@.take(i + 1).drop_last() =~= tops@.take(i as int));
        assert(tops@.take(i + 1).last() == tops@[i as int]);
        flatten_visible(world, tops[i], &visible, &mut order);
    }
    proof {
        assert(tops@.take(tops@.len() as int) =~= tops@);
        let chosen = root_rows(world@);
        assert(ascending(tops@) && forall|e: Entity|
            tops@.contains(e) <==> is_root(world@, e));
        assert(ascending(chosen) && forall|e: Entity|
            chosen.contains(e) <==> is_root(world@, e));
        assert forall|e: Entity| #[trigger] chosen.contains(e) <==> tops@.contains(e) by {
            assert(chosen.contains(e) <==> is_root(world@, e));
            assert(tops@.contains(e) <==> is_root(world@, e));
        }
        lemma_ascending_is_unique(chosen, tops@);
        lemma_rows_of_all_alike(world@.parents, listed, shown, tops@, depth_bound(world@));
    }
    (order, visible)
}

proof fn lemma_child_rows_are_children(world: WorldView, entity: Entity)
    requires
        world.consistent(),
    ensures
        ascending(child_rows(world.parents, entity)),
        lists_children(child_rows(world.parents, entity), world.parents, entity),
{
    let links = world.parents;
    let children = Set::new(|e: Entity| links.contains_key(e) && links[e] == entity);
    assert(children.subset_of(world.table.dom())) by {
        assert forall|e: Entity| children.contains(e) implies world.table.dom().contains(e) by {
            assert(world.parents.contains_key(e));
            assert(world.alive(e));
        }
    }
    vstd::set_lib::lemma_len_subset(children, world.table.dom());
    let list = lemma_ascending_exists(children);
    assert(ascending(list) && lists_children(list, links, entity));
}

proof fn lemma_rows_contain(
    world: WorldView,
    shown: spec_fn(Entity) -> bool,
    entity: Entity,
    depth: nat,
)
    requires
        world.consistent(),
        no_deeper(world.parents, entity, depth),
        forall|e: Entity| #[trigger]
            world.parents.contains_key(e) && shown(e) ==> shown(world.parents[e]),
    ensures
        forall|e: Entity| #[trigger]
            rows(world.parents, shown, entity, depth).contains(e) <==> descends(
                world.parents,
                e,
                entity,
            ) && shown(e),
    decreases depth, 0int,
{
    let links = world.parents;
    let children = child_rows(links, entity);
    lemma_child_rows_are_children(world, entity);
    lemma_subtree_by_children(links, entity, children);
    let all = rows(links, shown, entity, depth);
    if shown(entity) && depth > 0 {
        assert forall|i: int| 0 <= i < children.len() implies no_deeper(
            links,
            #[trigger] children[i],
            (depth - 1) as nat,
        ) by {
            assert(children.contains(children[i]));
            lemma_child_is_less_deep(links, entity, children[i], depth);
        }
        lemma_rows_of_all_contain(world, shown, children, (depth - 1) as nat);
        let below = rows_of_all(links, shown, children, (depth - 1) as nat);
        assert forall|e: Entity| #[trigger] all.contains(e) <==> descends(links, e, entity)
            && shown(e) by {
            if all.contains(e) {
                let i = all.index_of(e);
                if i > 0 {
                    assert(below[i - 1] == e);
                    assert(below.contains(e));
                }
            }
            if descends(links, e, entity) && shown(e) {
                if e == entity {
                    assert(all[0] == e);
                } else {
                    assert(below.contains(e));
                    let i = below.index_of(e);
                    assert(all[i + 1] == e);
                }
            }
        }
    } else {
        if depth == 0 && children.len() > 0 {
            assert(children.contains(children[0]));
            lemma_child_is_less_deep(links, entity, children[0], depth);
        }
        assert forall|e: Entity| #[trigger] all.contains(e) <==> descends(links, e, entity)
            && shown(e) by {
            if descends(links, e, entity) && shown(e) {
                let k = choose|k: nat| #[trigger] ancestor(links, e, k) == Some(entity);
                lemma_shown_upwards(links, shown, e, k);
                if !shown(entity) {
                    assert(false);
                }
                assert(all[0] == entity);
            }
            if all.contains(e) {
                assert(all[0] == e);
            }
        }
    }
}

proof fn lemma_shown_upwards(
    links: Map<Entity, Entity>,
    shown: spec_fn(Entity) -> bool,
    entity: Entity,
    k: nat,
)
    requires
        forall|e: Entity| #[trigger] links.contains_key(e) && shown(e) ==> shown(links[e]),
        shown(entity),
    ensures
        ancestor(links, entity, k) matches Some(above) ==> shown(above),
    decreases k,
{
    if k > 0 {
        lemma_shown_upwards(links, shown, entity, (k - 1) as nat);
    }
}

proof fn lemma_rows_of_all_contain(
    world: WorldView,
    shown: spec_fn(Entity) -> bool,
    entities: Seq<Entity>,
    depth: nat,
)
    requires
        world.consistent(),
        forall|i: int|
            0 <= i < entities.len() ==> no_deeper(world.parents, #[trigger] entities[i], depth),
        forall|e: Entity| #[trigger]
            world.parents.contains_key(e) && shown(e) ==> shown(world.parents[e]),
    ensures
        forall|e: Entity| #[trigger]
            rows_of_all(world.parents, shown, entities, depth).contains(e) <==> shown(e)
                && exists|i: int|
                0 <= i < entities.len() && #[trigger] descends(world.parents, e, entities[i]),
    decreases depth, entities.len() + 1,
{
    let links = world.parents;
    if entities.len() > 0 {
        let rest = entities.drop_last();
        assert forall|i: int| 0 <= i < rest.len() implies no_deeper(
            links,
            #[trigger] rest[i],
            depth,
        ) by {
            assert(rest[i] == entities[i]);
        }
        lemma_rows_of_all_contain(world, shown, rest, depth);
        assert(no_deeper(links, entities[entities.len() - 1], depth));
        lemma_rows_contain(world, shown, entities.last(), depth);
        let front = rows_of_all(links, shown, rest, depth);
        let back = rows(links, shown, entities.last(), depth);
        let all = rows_of_all(links, shown, entities, depth);
        assert forall|e: Entity| #[trigger] all.contains(e) <==> shown(e) && exists|i: int|
            0 <= i < entities.len() && #[trigger] descends(links, e, entities[i]) by {
            if all.contains(e) {
                let i = all.index_of(e);
                if i < front.len() {
                    assert(front[i] == e);
                    assert(front.contains(e));
                    let j = choose|j: int|
                        0 <= j < rest.len() && #[trigger] descends(links, e, rest[j]);
                    assert(descends(links, e, entities[j]));
                } else {
                    assert(back[i - front.len()] == e);
                    assert(back.contains(e));
                    assert(descends(links, e, entities[entities.len() - 1]));
                }
            }
            if shown(e) && exists|i: int|
                0 <= i < entities.len() && #[trigger] descends(links, e, entities[i]) {
                let i = choose|i: int|
                    0 <= i < entities.len() && #[trigger] descends(links, e, entities[i]);
                if i < rest.len() {
                    assert(descends(links, e, rest[i]));
                    assert(front.contains(e));
                    let j = front.index_of(e);
                    assert(all[j] == e);
                } else {
                    assert(back.contains(e));
                    let j = back.index_of(e);
                    assert(all[front.len() + j] == e);
                }
            }
        }
    }
}

/// The panel shows exactly the rows it should: those below a root that match the
/// query or have a match below them, and all rows below a root where the query
/// is empty. With a match, therefore, every entity above it is shown.
pub proof fn law_visible_rows_are_the_matches(world: WorldView, search: Seq<char>)
    requires
        world.consistent(),
        acyclic(world.parents),
    ensures
        forall|e: Entity| #[trigger]
            visible_rows(world, search).contains(e) <==> (query_of(search).len() == 0
                || branch_matches(world, e, query_of(search))) && exists|root: Entity|
                is_root(world, root) && #[trigger] descends(world.parents, e, root),
{
    let links = world.parents;
    let query = query_of(search);
    let shown = row_shown(world, query);
    let tops = Set::new(|e: Entity| is_root(world, e));
    assert(tops.subset_of(world.table.dom()));
    vstd::set_lib::lemma_len_subset(tops, world.table.dom());
    let list = lemma_ascending_exists(tops);
    assert(ascending(list) && forall|e: Entity| list.contains(e) <==> is_root(world, e)) by {
        assert forall|e: Entity| list.contains(e) <==> is_root(world, e) by {
            assert(list.contains(e) <==> tops.contains(e));
        }
    }
    let chosen = root_rows(world);
    assert(ascending(chosen) && forall|e: Entity| chosen.contains(e) <==> is_root(world, e));
    assert forall|i: int| 0 <= i < chosen.len() implies no_deeper(
        links,
        #[trigger] chosen[i],
        depth_bound(world),
    ) by {
        lemma_depth_bound(world, chosen[i]);
    }
    assert forall|e: Entity| #[trigger] links.contains_key(e) && shown(e) implies shown(
        links[e],
    ) by {
        if query.len() > 0 {
            let above = links[e];
            assert(ancestor(links, e, 1) == Some(above)) by {
                assert(ancestor(links, e, 0) == Some(e));
                reveal_with_fuel(ancestor, 2);
            }
            assert(descends(links, e, above));
            let m = choose|m: Entity| #[trigger]
                descends(links, m, e) && label_matches(world, m, query);
            crate::ecs::entities::law_descent_is_reflexive_and_transitive(links, m, e, above);
            assert(descends(links, m, above) && label_matches(world, m, query));
            let root = choose|root: Entity|
                is_root(world, root) && #[trigger] descends(links, e, root);
            let k = choose|k: nat| #[trigger] ancestor(links, e, k) == Some(root);
            if k > 0 {
                crate::ecs::entities::lemma_ancestor_step(links, e, (k - 1) as nat);
                assert(ancestor(links, above, (k - 1) as nat) == Some(root));
            }
            assert(is_root(world, root) && descends(links, above, root));
        }
    }
    lemma_rows_of_all_contain(world, shown, chosen, depth_bound(world));
    assert forall|e: Entity| #[trigger] visible_rows(world, search).contains(e) <==> (query.len()
        == 0 || branch_matches(world, e, query)) && exists|root: Entity|
        is_root(world, root) && #[trigger] descends(links, e, root) by {
        if exists|i: int| 0 <= i < chosen.len() && #[trigger] descends(links, e, chosen[i]) {
            let i = choose|i: int| 0 <= i < chosen.len() && #[trigger] descends(links, e, chosen[i]);
            assert(chosen.contains(chosen[i]));
            assert(is_root(world, chosen[i]) && descends(links, e, chosen[i]));
        }
        if exists|root: Entity| is_root(world, root) && #[trigger] descends(links, e, root) {
            let root = choose|root: Entity|
                is_root(world, root) && #[trigger] descends(links, e, root);
            assert(chosen.contains(root));
            let i = chosen.index_of(root);
            assert(descends(links, e, chosen[i]));
        }
    }
}

/// What a search shows, told by the labels: every entity below a root, if nothing but white
/// space is looked for; else those of them that carry what is looked for in their label, or
/// have something below them that does, whatever the letter case.
pub proof fn law_rows_lead_to_what_is_looked_for(
    world: WorldView,
    search: Seq<char>,
    entity: Entity,
    root: Entity,
    below: Entity,
    k: nat,
)
    requires
        world.consistent(),
        acyclic(world.parents),
    ensures
        ({
            let query = unicode_lowercase(trim_of(search));
            let rooted = descends(world.parents, entity, root) && world.table.contains_key(root)
                && world.table[root].name is Some && !world.parents.contains_key(root);
            let matched = ancestor(world.parents, below, k) == Some(entity) && contains_text(
                unicode_lowercase(label_of(world, below)),
                query,
            );
            &&& rooted && query.len() == 0 ==> visible_rows(world, search).contains(entity)
            &&& rooted && matched ==> visible_rows(world, search).contains(entity)
            &&& visible_rows(world, search).contains(entity) && query.len() > 0 ==> exists|e: Entity|
                #[trigger] descends(world.parents, e, entity) && contains_text(
                    unicode_lowercase(label_of(world, e)),
                    query,
                )
            &&& visible_rows(world, search).contains(entity) ==> exists|r: Entity| #[trigger]
                descends(world.parents, entity, r) && world.table.contains_key(r)
                    && world.table[r].name is Some && !world.parents.contains_key(r)
        }),
{
    law_visible_rows_are_the_matches(world, search);
    let query = query_of(search);
    assert(visible_rows(world, search).contains(entity) || !visible_rows(world, search).contains(
        entity,
    ));
    if ancestor(world.parents, below, k) == Some(entity) && label_matches(world, below, query) {
        assert(descends(world.parents, below, entity));
    }
    if branch_matches(world, entity, query) {
        let e = choose|e: Entity| #[trigger]
            descends(world.parents, e, entity) && label_matches(world, e, query);
        assert(descends(world.parents, e, entity) && contains_text(
            unicode_lowercase(label_of(world, e)),
            query,
        ));
    }
}

/// The rows below an entity begin with it; those of its children follow, the child with the
/// lower number first. At the returned places stand the two children.
pub proof fn law_rows_follow_the_tree(
    links: Map<Entity, Entity>,
    shown: spec_fn(Entity) -> bool,
    entity: Entity,
    depth: nat,
    children: Seq<Entity>,
    a: Entity,
    b: Entity,
) -> (at: (int, int))
    requires
        ascending(children),
        lists_children(children, links, entity),
        links.contains_key(a) && links[a] == entity,
        links.contains_key(b) && links[b] == entity,
        a < b,
        shown(entity),
        shown(a),
        shown(b),
        depth > 0,
    ensures
        rows(links, shown, entity, depth)[0] == entity,
        0 < at.0 < at.1 < rows(links, shown, entity, depth).len(),
        rows(links, shown, entity, depth)[at.0] == a,
        rows(links, shown, entity, depth)[at.1] == b,
{
    lemma_child_rows(links, entity, children);
    assert(children.contains(a) && children.contains(b));
    let i = children.index_of(a);
    let j = children.index_of(b);
    assert(i < j) by {
        if j < i {
            assert(children[j] < children[i]);
        }
    }
    let m = (depth - 1) as nat;
    let at = lemma_rows_in_turn(links, shown, children, m, i, j);
    let below = rows_of_all(links, shown, children, m);
    assert(rows(links, shown, entity, depth) == seq![entity] + below);
    (at.0 + 1, at.1 + 1)
}

proof fn lemma_rows_in_turn(
    links: Map<Entity, Entity>,
    shown: spec_fn(Entity) -> bool,
    entities: Seq<Entity>,
    depth: nat,
    i: int,
    j: int,
) -> (at: (int, int))
    requires
        0 <= i < j < entities.len(),
        shown(entities[i]),
        shown(entities[j]),
    ensures
        0 <= at.0 < at.1 < rows_of_all(links, shown, entities, depth).len(),
        rows_of_all(links, shown, entities, depth)[at.0] == entities[i],
        rows_of_all(links, shown, entities, depth)[at.1] == entities[j],
    decreases entities.len(),
{
    let rest = entities.drop_last();
    let front = rows_of_all(links, shown, rest, depth);
    let last = rows(links, shown, entities.last(), depth);
    if j < rest.len() {
        lemma_rows_in_turn(links, shown, rest, depth, i, j)
    } else {
        let at = lemma_row_of(links, shown, rest, depth, i);
        assert(last[0] == entities.last());
        assert((front + last)[front.len() as int] == last[0]);
        (at, front.len() as int)
    }
}

proof fn lemma_row_of(
    links: Map<Entity, Entity>,
    shown: spec_fn(Entity) -> bool,
    entities: Seq<Entity>,
    depth: nat,
    i: int,
) -> (at: int)
    requires
        0 <= i < entities.len(),
        shown(entities[i]),
    ensures
        0 <= at < rows_of_all(links, shown, entities, depth).len(),
        rows_of_all(links, shown, entities, depth)[at] == entities[i],
    decreases entities.len(),
{
    let rest = entities.drop_last();
    let front = rows_of_all(links, shown, rest, depth);
    if i < rest.len() {
        lemma_row_of(links, shown, rest, depth, i)
    } else {
        let last = rows(links, shown, entities.last(), depth);
        assert(last[0] == entities.last());
        assert((front + last)[front.len() as int] == last[0]);
        front.len() as int
    }
}

/// Roots are listed with the lower number first.
pub proof fn law_roots_are_listed_in_turn(
    world: WorldView,
    search: Seq<char>,
    roots: Seq<Entity>,
    a: Entity,
    b: Entity,
) -> (at: (int, int))
    requires
        world.consistent(),
        acyclic(world.parents),
        ascending(roots),
        forall|e: Entity| #[trigger] roots.contains(e) <==> is_root(world, e),
        is_root(world, a) && is_root(world, b),
        a < b,
        row_shown(world, unicode_lowercase(trim_of(search)))(a),
        row_shown(world, unicode_lowercase(trim_of(search)))(b),
    ensures
        0 <= at.0 < at.1 < visible_rows(world, search).len(),
        visible_rows(world, search)[at.0] == a,
        visible_rows(world, search)[at.1] == b,
{
    let chosen = root_rows(world);
    assert(ascending(roots) && forall|e: Entity| roots.contains(e) <==> is_root(world, e));
    assert forall|e: Entity| #[trigger] chosen.contains(e) <==> roots.contains(e) by {
        assert(chosen.contains(e) <==> is_root(world, e));
    }
    lemma_ascending_is_unique(chosen, roots);
    assert(roots.contains(a) && roots.contains(b));
    let i = roots.index_of(a);
    let j = roots.index_of(b);
    assert(i < j) by {
        if j < i {
            assert(roots[j] < roots[i]);
        }
    }
    lemma_rows_in_turn(
        world.parents,
        row_shown(world, query_of(search)),
        roots,
        depth_bound(world),
        i,
        j,
    )
}

/// Without a search every row is shown; with one, those that it found.
pub proof fn law_rows_are_shown_unless_filtered(visible: Option<Set<Entity>>, entity: Entity)
    ensures
        visible is None ==> shown_in(visible)(entity),
        visible is Some ==> (shown_in(visible)(entity) <==> visible->0.contains(entity)),
{
}

} // verus!
