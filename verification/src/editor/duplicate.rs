//! Copying an entity with everything below it.

use vstd::prelude::*;

use crate::ecs::components::{no_components, Components, Name};
use crate::ecs::entities::{
    ancestor, descends, law_descent_is_reflexive_and_transitive, lists_children, subtree, Entity,
    MAX_POPULATION,
};
use crate::ecs::tree::{
    acyclic, lemma_child_is_less_deep, lemma_linking_stays_acyclic, lemma_not_below_its_child,
    lemma_same_chain, lemma_subtree_by_children, lemma_subtrees_are_apart, lemma_tree_has_depth,
    no_deeper,
};
use crate::ecs::world::{SceneWorld, WorldView};
use crate::editor::hierarchy::children_of;
use crate::text::join2;

verus! {

/// What a copy of an entity carries of what the entity does.
pub open spec fn carried(components: Components) -> Components {
    Components {
        name: components.name,
        transform: components.transform,
        camera: components.camera,
        asset_source: components.asset_source,
        disabled: components.disabled,
        ..no_components()
    }
}

/// Whether `now` is `before` with entities added, listed behind those that were there
/// and linked among themselves or to `parent`.
pub open spec fn extends(before: WorldView, now: WorldView, parent: Option<Entity>) -> bool {
    &&& before.order.is_prefix_of(now.order)
    &&& forall|e: Entity| #[trigger]
        before.alive(e) ==> {
            &&& now.alive(e)
            &&& now.table[e] == before.table[e]
            &&& now.parents.contains_key(e) <==> before.parents.contains_key(e)
            &&& before.parents.contains_key(e) ==> now.parents[e] == before.parents[e]
        }
    &&& forall|e: Entity|
        #![trigger now.parents.contains_key(e)]
        !before.alive(e) && now.parents.contains_key(e) ==> !before.alive(now.parents[e])
            || parent == Some(now.parents[e])
}

/// Whether, in `now`, the entities in `map` have copies that were not there
/// before, linked as the originals are, with `root_copy` for `root` below
/// `parent`; and whether nothing else has changed since `before`.
pub open spec fn copies(
    before: WorldView,
    now: WorldView,
    root: Entity,
    root_copy: Entity,
    parent: Option<Entity>,
    map: Map<Entity, Entity>,
) -> bool {
    &&& extends(before, now, parent)
    &&& map.dom().finite()
    &&& map.contains_key(root)
    &&& map[root] == root_copy
    &&& now.population == before.population + map.dom().len()
    &&& forall|e: Entity| #[trigger]
        now.alive(e) ==> before.alive(e) || map.contains_value(e)
    &&& forall|a: Entity, b: Entity|
        #![trigger map[a], map[b]]
        map.contains_key(a) && map.contains_key(b) && a != b ==> map[a] != map[b]
    &&& forall|x: Entity|
        #![trigger map.contains_key(x)]
        #![trigger map[x]]
        map.contains_key(x) ==> {
            &&& before.alive(x)
            &&& !before.alive(map[x])
            &&& now.alive(map[x])
            &&& now.table[map[x]] == carried(before.table[x])
            &&& x != root ==> {
                &&& before.parents.contains_key(x)
                &&& map.contains_key(before.parents[x])
                &&& now.parents.contains_key(map[x])
                &&& now.parents[map[x]] == map[before.parents[x]]
            }
        }
    &&& match parent {
        Some(parent) => now.parents.contains_key(root_copy) && now.parents[root_copy] == parent,
        None => !now.parents.contains_key(root_copy),
    }
}

/// Whether `copy` is a copy of `entity` with everything below it, linked below
/// `parent`: `map` gives the copy of each, and nothing else has changed.
pub open spec fn copied(
    before: WorldView,
    now: WorldView,
    entity: Entity,
    copy: Entity,
    parent: Option<Entity>,
    map: Map<Entity, Entity>,
) -> bool {
    &&& copies(before, now, entity, copy, parent, map)
    &&& map.dom() == subtree(before.parents, entity)
}

/// What is added below `parent` is below nothing that `parent` is not below.
proof fn lemma_extension_chain(
    before: WorldView,
    now: WorldView,
    parent: Option<Entity>,
    entity: Entity,
    k: nat,
)
    requires
        before.consistent(),
        extends(before, now, parent),
        parent matches Some(p) ==> before.alive(p),
        !before.alive(entity),
    ensures
        ancestor(now.parents, entity, k) matches Some(above) ==> !before.alive(above) || (parent
            matches Some(p) && descends(before.parents, p, above)),
    decreases k,
{
    if k > 0 {
        lemma_extension_chain(before, now, parent, entity, (k - 1) as nat);
        match ancestor(now.parents, entity, (k - 1) as nat) {
            Some(below) => {
                if now.parents.contains_key(below) {
                    let above = now.parents[below];
                    if before.alive(below) {
                        let p = parent->0;
                        assert(before.parents.contains_key(below));
                        let j = choose|j: nat| #[trigger]
                            ancestor(before.parents, p, j) == Some(below);
                        assert(ancestor(before.parents, p, j + 1) == Some(above));
                    } else if before.alive(above) {
                        assert(parent == Some(above));
                        law_descent_is_reflexive_and_transitive(
                            before.parents,
                            above,
                            above,
                            above,
                        );
                    }
                }
            },
            None => {},
        }
    }
}

/// Adding entities below `parent` changes nothing of what is below an entity
/// that `parent` is not below.
proof fn lemma_extension_keeps_subtree(
    before: WorldView,
    now: WorldView,
    parent: Option<Entity>,
    root: Entity,
)
    requires
        before.consistent(),
        extends(before, now, parent),
        before.alive(root),
        parent matches Some(p) ==> before.alive(p) && !descends(before.parents, p, root),
    ensures
        forall|e: Entity, k: nat|
            #![trigger ancestor(now.parents, e, k)]
            #![trigger ancestor(before.parents, e, k)]
            ancestor(now.parents, e, k) == Some(root) <==> ancestor(before.parents, e, k) == Some(
                root,
            ),
        subtree(now.parents, root) == subtree(before.parents, root),
{
    assert forall|e: Entity, k: nat|
        #![trigger ancestor(now.parents, e, k)]
        #![trigger ancestor(before.parents, e, k)]
        ancestor(now.parents, e, k) == Some(root) <==> ancestor(before.parents, e, k) == Some(
            root,
        ) by {
        if before.alive(e) {
            lemma_same_chain(before.parents, now.parents, before.table.dom(), e, k);
        } else {
            lemma_extension_chain(before, now, parent, e, k);
            if ancestor(before.parents, e, k) == Some(root) {
                if k > 0 {
                    crate::ecs::tree::lemma_chain_is_linked(before.parents, e, 0, k);
                    assert(before.parents.contains_key(e));
                }
            }
        }
    }
    assert forall|e: Entity| descends(now.parents, e, root) <==> descends(
        before.parents,
        e,
        root,
    ) by {
        if descends(now.parents, e, root) {
            let k = choose|k: nat| #[trigger] ancestor(now.parents, e, k) == Some(root);
            assert(ancestor(before.parents, e, k) == Some(root));
        }
        if descends(before.parents, e, root) {
            let k = choose|k: nat| #[trigger] ancestor(before.parents, e, k) == Some(root);
            assert(ancestor(now.parents, e, k) == Some(root));
        }
    }
    assert(subtree(now.parents, root) =~= subtree(before.parents, root));
}

/// What is below a living entity is alive.
proof fn lemma_subtree_is_alive(world: WorldView, root: Entity)
    requires
        world.consistent(),
        world.alive(root),
    ensures
        forall|e: Entity| #[trigger] descends(world.parents, e, root) ==> world.alive(e),
        subtree(world.parents, root).finite(),
{
    assert forall|e: Entity| #[trigger] descends(world.parents, e, root) implies world.alive(e) by {
        let k = choose|k: nat| #[trigger] ancestor(world.parents, e, k) == Some(root);
        if k > 0 {
            crate::ecs::tree::lemma_chain_is_linked(world.parents, e, 0, k);
            assert(world.parents.contains_key(e));
        }
    }
    assert(subtree(world.parents, root).subset_of(world.table.dom()));
    vstd::set_lib::lemma_len_subset(subtree(world.parents, root), world.table.dom());
}

/// Copying one more child.
proof fn lemma_copies_grow(
    before: WorldView,
    middle: WorldView,
    now: WorldView,
    root: Entity,
    root_copy: Entity,
    parent: Option<Entity>,
    map: Map<Entity, Entity>,
    child: Entity,
    child_copy: Entity,
    more: Map<Entity, Entity>,
)
    requires
        before.consistent(),
        before.alive(root),
        acyclic(before.parents),
        before.parents.contains_key(child),
        before.parents[child] == root,
        copies(before, middle, root, root_copy, parent, map),
        copies(middle, now, child, child_copy, Some(root_copy), more),
        more.dom() == subtree(before.parents, child),
        forall|x: Entity| more.contains_key(x) ==> !#[trigger] map.contains_key(x),
        parent matches Some(p) ==> before.alive(p),
    ensures
        copies(before, now, root, root_copy, parent, map.union_prefer_right(more)),
{
    let both = map.union_prefer_right(more);
    lemma_subtree_is_alive(before, child);
    assert(both.dom() =~= map.dom().union(more.dom()));
    assert(map.dom().disjoint(more.dom()));
    vstd::set_lib::lemma_set_disjoint_lens(map.dom(), more.dom());
    assert(!before.alive(root_copy) && middle.alive(root_copy)) by {
        assert(map.contains_key(root));
    }
    assert forall|e: Entity|
        #![trigger now.parents.contains_key(e)]
        !before.alive(e) && now.parents.contains_key(e) implies !before.alive(now.parents[e])
        || parent == Some(now.parents[e]) by {
        if middle.alive(e) {
            assert(middle.parents.contains_key(e));
        } else if middle.alive(now.parents[e]) {
            assert(now.parents[e] == root_copy);
        }
    }
    assert(extends(before, now, parent)) by {
        assert forall|e: Entity| #[trigger] before.alive(e) implies {
            &&& now.alive(e)
            &&& now.table[e] == before.table[e]
            &&& now.parents.contains_key(e) <==> before.parents.contains_key(e)
            &&& before.parents.contains_key(e) ==> now.parents[e] == before.parents[e]
        } by {
            assert(middle.alive(e));
        }
    }
    assert forall|e: Entity| #[trigger] now.alive(e) implies before.alive(e)
        || both.contains_value(e) by {
        if middle.alive(e) {
            if !before.alive(e) {
                assert(map.contains_value(e));
                let x = choose|x: Entity| #[trigger] map.dom().contains(x) && map[x] == e;
                assert(both.contains_key(x) && both[x] == e);
            }
        } else {
            assert(more.contains_value(e));
            let x = choose|x: Entity| #[trigger] more.dom().contains(x) && more[x] == e;
            assert(both.contains_key(x) && both[x] == e);
        }
    }
    assert forall|x: Entity|
        #![trigger both.contains_key(x)]
        #![trigger both[x]]
        both.contains_key(x) implies {
        &&& before.alive(x)
        &&& !before.alive(both[x])
        &&& now.alive(both[x])
        &&& now.table[both[x]] == carried(before.table[x])
        &&& x != root ==> {
            &&& before.parents.contains_key(x)
            &&& both.contains_key(before.parents[x])
            &&& now.parents.contains_key(both[x])
            &&& now.parents[both[x]] == both[before.parents[x]]
        }
    } by {
        if more.contains_key(x) {
            assert(subtree(before.parents, child).contains(x));
            assert(descends(before.parents, x, child));
            assert(before.alive(x));
            assert(middle.alive(x));
            assert(!middle.alive(more[x]));
            assert(!before.alive(more[x]));
            if x == child {
                assert(both[root] == root_copy) by {
                    lemma_not_below_its_child(before.parents, root, child);
                    assert(!more.contains_key(root));
                }
            } else {
                assert(middle.parents.contains_key(x));
                assert(before.parents.contains_key(x));
                assert(more.contains_key(before.parents[x]));
            }
        } else {
            assert(map.contains_key(x));
            assert(middle.alive(map[x]));
            if x != root {
                assert(map.contains_key(before.parents[x]));
                assert(!more.contains_key(before.parents[x]));
            }
        }
    }
    assert forall|a: Entity, b: Entity|
        #![trigger both[a], both[b]]
        both.contains_key(a) && both.contains_key(b) && a != b implies both[a] != both[b] by {
        if more.contains_key(a) && !more.contains_key(b) {
            assert(!middle.alive(more[a]) && middle.alive(map[b]));
        } else if !more.contains_key(a) && more.contains_key(b) {
            assert(middle.alive(map[a]) && !middle.alive(more[b]));
        } else if more.contains_key(a) {
            assert(more[a] != more[b]);
        } else {
            assert(map[a] != map[b]);
        }
    }
    lemma_not_below_its_child(before.parents, root, child);
    assert(!more.contains_key(root));
    assert(middle.alive(root_copy));
}

/// Copies `src` with everything below it, below `parent`.
fn clone_subtree(
    world: &mut SceneWorld,
    src: Entity,
    parent: Option<Entity>,
    Ghost(depth): Ghost<nat>,
) -> (result: (Entity, Ghost<Map<Entity, Entity>>))
    requires
        old(world).wf(),
        old(world)@.alive(src),
        acyclic(old(world)@.parents),
        no_deeper(old(world)@.parents, src, depth),
        parent matches Some(p) ==> old(world)@.alive(p) && !descends(old(world)@.parents, p, src),
        old(world)@.population + subtree(old(world)@.parents, src).len() <= MAX_POPULATION,
    ensures
        final(world).wf(),
        acyclic(final(world)@.parents),
        copied(old(world)@, final(world)@, src, result.0, parent, result.1@),
    decreases depth,
{
    let ghost before = world@;
    let ghost below = subtree(before.parents, src);
    proof {
        world.lemma_consistent();
        lemma_subtree_is_alive(before, src);
        law_descent_is_reflexive_and_transitive(before.parents, src, src, src);
        assert(below.contains(src));
        assert(below.len() > 0) by {
            if below.len() == 0 {
                assert(below =~= Set::empty());
            }
        }
    }
    let mut components = Components::default();
    match world.get(src) {
        Some(original) => {
            components.name = original.name.clone();
            components.transform = original.transform;
            components.camera = original.camera;
            components.asset_source = original.asset_source.clone();
            components.disabled = original.disabled;
        },
        None => {},
    }
    assert(components == carried(before.table[src]));
    let children = children_of(world, src);
    let copy: Entity = world.spawn(components);
    let ghost alone = world@;
    let ghost mut map: Map<Entity, Entity> = Map::empty().insert(src, copy);
    proof {
        world.lemma_consistent();
    }
    match parent {
        Some(p) => {
            proof {
                assert(!descends(alone.parents, p, copy)) by {
                    if descends(alone.parents, p, copy) {
                        let k = choose|k: nat| #[trigger]
                            ancestor(alone.parents, p, k) == Some(copy);
                        lemma_same_chain(
                            before.parents,
                            alone.parents,
                            before.table.dom(),
                            p,
                            k,
                        );
                    }
                }
                lemma_linking_stays_acyclic(alone.parents, copy, p);
            }
            world.set_parent(copy, p);
        },
        None => {
            assert(!alone.parents.contains_key(copy));
        },
    }
    proof {
        world.lemma_consistent();
        assert(map.dom() =~= set![src]);
        assert(copies(before, world@, src, copy, parent, map)) by {
            assert(map.contains_key(src) && map[src] == copy);
            assert forall|e: Entity| #[trigger] world@.alive(e) implies before.alive(e)
                || map.contains_value(e) by {
                if !before.alive(e) {
                    assert(e == copy);
                    assert(map.dom().contains(src) && map[src] == e);
                }
            }
        }
        lemma_subtree_by_children(before.parents, src, children@);
    }
    for i in 0..children.len()
        invariant
            before.consistent(),
            before.alive(src),
            acyclic(before.parents),
            no_deeper(before.parents, src, depth),
            parent matches Some(p) ==> before.alive(p) && !descends(before.parents, p, src),
            below == subtree(before.parents, src),
            below.finite(),
            before.population + below.len() <= MAX_POPULATION,
            crate::order::ascending(children@),
            lists_children(children@, before.parents, src),
            world.wf(),
            acyclic(world@.parents),
            copies(before, world@, src, copy, parent, map),
            forall|e: Entity| #[trigger]
                map.contains_key(e) <==> e == src || exists|j: int|
                    0 <= j < i && #[trigger] descends(before.parents, e, children@[j]),
    {
        let child: Entity = children[i];
        let ghost middle = world@;
        proof {
            world.lemma_consistent();
            assert(children@.contains(child));
            lemma_not_below_its_child(before.parents, src, child);
            lemma_child_is_less_deep(before.parents, src, child, depth);
            // The copy is below nothing that the originals are.
            match parent {
                Some(p) => {
                    if descends(before.parents, p, child) {
                        assert(ancestor(before.parents, child, 1) == Some(src)) by {
                            assert(ancestor(before.parents, child, 0) == Some(child));
                            reveal_with_fuel(ancestor, 2);
                        }
                        law_descent_is_reflexive_and_transitive(before.parents, p, child, src);
                    }
                },
                None => {},
            }
            lemma_extension_keeps_subtree(before, middle, parent, child);
            assert(no_deeper(middle.parents, child, (depth - 1) as nat));
            assert(map.contains_key(src));
            assert(!descends(middle.parents, copy, child)) by {
                if descends(middle.parents, copy, child) {
                    assert(subtree(middle.parents, child).contains(copy));
                    assert(subtree(before.parents, child).contains(copy));
                    lemma_subtree_is_alive(before, child);
                    assert(descends(before.parents, copy, child));
                }
            }
            // There is room for the copies of what is below the child.
            lemma_subtree_is_alive(before, child);
            let part = subtree(before.parents, child);
            assert forall|e: Entity| part.contains(e) implies !map.contains_key(e) by {
                if map.contains_key(e) {
                    assert(descends(before.parents, e, child));
                    if e != src {
                        let j = choose|j: int|
                            0 <= j < i && #[trigger] descends(before.parents, e, children@[j]);
                        assert(children@.contains(children@[j]));
                        assert(children@[j] < children@[i as int]);
                        lemma_subtrees_are_apart(before.parents, src, children@[j], child);
                    }
                }
            }
            assert(map.dom().disjoint(part));
            vstd::set_lib::lemma_set_disjoint_lens(map.dom(), part);
            assert(map.dom().union(part).subset_of(below)) by {
                lemma_subtree_by_children(before.parents, src, children@);
                assert forall|e: Entity| map.dom().union(part).contains(e) implies below.contains(
                    e,
                ) by {
                    if part.contains(e) {
                        assert(descends(before.parents, e, children@[i as int]));
                    } else {
                        assert(map.contains_key(e));
                    }
                }
            }
            vstd::set_lib::lemma_len_subset(map.dom().union(part), below);
        }
        let (child_copy, Ghost(more)) = clone_subtree(
            world,
            child,
            Some(copy),
            Ghost((depth - 1) as nat),
        );
        proof {
            assert forall|x: Entity| more.contains_key(x) implies !#[trigger] map.contains_key(
                x,
            ) by {
                assert(subtree(before.parents, child).contains(x));
            }
            lemma_copies_grow(
                before,
                middle,
                world@,
                src,
                copy,
                parent,
                map,
                child,
                child_copy,
                more,
            );
            let ghost grown = map.union_prefer_right(more);
            assert forall|e: Entity| #[trigger] grown.contains_key(e) <==> e == src || exists|
                j: int,
            |
                0 <= j < i + 1 && #[trigger] descends(before.parents, e, children@[j]) by {
                if grown.contains_key(e) {
                    if more.contains_key(e) {
                        assert(subtree(before.parents, child).contains(e));
                        assert(descends(before.parents, e, children@[i as int]));
                    } else {
                        assert(map.contains_key(e));
                        if e != src {
                            let j = choose|j: int|
                                0 <= j < i && #[trigger] descends(
                                    before.parents,
                                    e,
                                    children@[j],
                                );
                            assert(descends(before.parents, e, children@[j]));
                        }
                    }
                }
                if e == src {
                    assert(map.contains_key(e));
                }
                if exists|j: int|
                    0 <= j < i + 1 && #[trigger] descends(before.parents, e, children@[j]) {
                    let j = choose|j: int|
                        0 <= j < i + 1 && #[trigger] descends(before.parents, e, children@[j]);
                    if j < i {
                        assert(map.contains_key(e));
                    } else {
                        assert(subtree(before.parents, child).contains(e));
                        assert(more.contains_key(e));
                    }
                }
            }
            map = grown;
        }
    }
    proof {
        assert(map.dom() =~= below) by {
            assert forall|e: Entity| map.dom().contains(e) <==> below.contains(e) by {
                assert(map.contains_key(e) <==> e == src || exists|j: int|
                    0 <= j < children@.len() && #[trigger] descends(
                        before.parents,
                        e,
                        children@[j],
                    ));
                lemma_subtree_by_children(before.parents, src, children@);
                assert(descends(before.parents, e, src) <==> below.contains(e));
            }
        }
    }
    (copy, Ghost(map))
}

/// The components with the name, if there is one, marked as that of a copy.
pub open spec fn named_as_copy(components: Components, original: Components) -> bool {
    &&& components == (Components { name: components.name, ..original })
    &&& match original.name {
        Some(name) => components.name matches Some(label) && label.0@ == name.0@ + " Copy"@,
        None => components.name is None,
    }
}

/// Whether `now` is `before` with `copy` added, a root that copies `entity` with
/// everything below it: the copies carry what scenes store, and " Copy" is added
/// to the name of the new root. Of an entity that is not alive the copy is an
/// entity that carries nothing.
pub open spec fn duplicated(
    before: WorldView,
    now: WorldView,
    entity: Entity,
    copy: Entity,
) -> bool {
    if before.alive(entity) {
        exists|map: Map<Entity, Entity>, plain: WorldView| #[trigger]
            copied(before, plain, entity, copy, None, map) && now == plain.updated(
                copy,
                now.table[copy],
            ) && named_as_copy(now.table[copy], plain.table[copy])
    } else {
        !before.alive(copy) && now == before.spawned(copy, no_components())
    }
}

/// How many entities a copy of `entity` adds.
pub open spec fn copy_size(world: WorldView, entity: Entity) -> nat {
    if world.alive(entity) {
        subtree(world.parents, entity).len()
    } else {
        1
    }
}

/// Copies the entity with everything below it and returns the copy, a root. The
/// copies carry the components that scenes store (name, transform, camera, asset
/// source, disabled); " Copy" is added to the name of the new root. Nothing else
/// changes.
pub fn duplicate_entity(world: &mut SceneWorld, entity: Entity) -> (copy: Entity)
    requires
        old(world).wf(),
        acyclic(old(world)@.parents),
        old(world)@.population + copy_size(old(world)@, entity) <= MAX_POPULATION,
    ensures
        final(world).wf(),
        acyclic(final(world)@.parents),
        !old(world)@.alive(copy),
        final(world)@.alive(copy),
        duplicated(old(world)@, final(world)@, entity, copy),
        extends(old(world)@, final(world)@, None),
        final(world)@.population == old(world)@.population + copy_size(old(world)@, entity),
{
    let ghost before = world@;
    proof {
        world.lemma_consistent();
    }
    if !world.contains(entity) {
        return world.spawn(Components::default());
    }
    proof {
        let links = before.parents;
        assert(links.dom().subset_of(before.table.dom())) by {
            assert forall|e: Entity| links.dom().contains(e) implies before.table.dom().contains(
                e,
            ) by {
                assert(before.parents.contains_key(e));
                assert(before.alive(e));
            }
        }
        vstd::set_lib::lemma_len_subset(links.dom(), before.table.dom());
        lemma_tree_has_depth(links, entity);
    }
    let (copy, Ghost(map)) = clone_subtree(
        world,
        entity,
        None,
        Ghost(before.parents.dom().len()),
    );
    let ghost plain = world@;
    assert(map.contains_key(entity));
    match world.get(copy) {
        Some(components) => {
            let mut components = components.clone();
            match &components.name {
                Some(name) => {
                    let label = Name(join2(&name.0, " Copy"));
                    components.name = Some(label);
                },
                None => {},
            }
            assert(named_as_copy(components, plain.table[copy]));
            world.set(copy, components);
        },
        None => {},
    }
    assert(copied(before, plain, entity, copy, None, map));
    copy
}

/// Copying leaves what was there as it was: every entity still carries what it
/// did, has the parent it had and stands where it stood in the order, and the copies
/// are new entities, one for each entity copied.
pub proof fn law_duplicating_touches_nothing(
    before: WorldView,
    now: WorldView,
    entity: Entity,
    copy: Entity,
)
    requires
        before.consistent(),
        duplicated(before, now, entity, copy),
    ensures
        forall|e: Entity| #[trigger]
            before.alive(e) ==> {
                &&& now.alive(e)
                &&& now.table[e] == before.table[e]
                &&& now.parents.contains_key(e) <==> before.parents.contains_key(e)
                &&& before.parents.contains_key(e) ==> now.parents[e] == before.parents[e]
            },
        before.order.is_prefix_of(now.order),
        now.population == before.population + copy_size(before, entity),
        !before.alive(copy) && now.alive(copy) && !now.parents.contains_key(copy),
{
    if before.alive(entity) {
        let (map, plain) = choose|map: Map<Entity, Entity>, plain: WorldView| #[trigger]
            copied(before, plain, entity, copy, None, map) && now == plain.updated(
                copy,
                now.table[copy],
            ) && named_as_copy(now.table[copy], plain.table[copy]);
        assert(copied(before, plain, entity, copy, None, map));
        assert(map.contains_key(entity));
    }
}

/// Adding roots, and what is below them, leaves what is below the others as it
/// was.
pub proof fn lemma_new_roots_keep_subtrees(before: WorldView, now: WorldView, root: Entity)
    requires
        before.consistent(),
        extends(before, now, None),
        before.alive(root),
    ensures
        subtree(now.parents, root) == subtree(before.parents, root),
{
    lemma_extension_keeps_subtree(before, now, None, root);
}

/// Every entity of a copied subtree has one copy of its own, which was not there before.
/// The copy has the transform, the camera, the asset source and the disabled mark of its
/// original, and nothing else but a name: that of the original, to which " Copy" is added
/// at the root. Copies are linked as their originals are, and the root's has no parent.
/// There is no other new entity. The law gives the copy of each.
pub proof fn law_copies_carry_what_scenes_store(
    before: WorldView,
    now: WorldView,
    entity: Entity,
    copy: Entity,
) -> (map: Map<Entity, Entity>)
    requires
        before.consistent(),
        before.table.contains_key(entity),
        duplicated(before, now, entity, copy),
    ensures
        map.contains_key(entity) && map[entity] == copy,
        forall|x: Entity| #[trigger]
            map.contains_key(x) <==> exists|k: nat| ancestor(before.parents, x, k) == Some(entity),
        forall|x: Entity, y: Entity|
            #![trigger map[x], map[y]]
            map.contains_key(x) && map.contains_key(y) && x != y ==> map[x] != map[y],
        forall|e: Entity| #[trigger]
            now.table.contains_key(e) <==> before.table.contains_key(e) || exists|x: Entity| #[trigger]
                map.contains_key(x) && map[x] == e,
        forall|x: Entity| #[trigger]
            map.contains_key(x) ==> {
                let (original, made) = (before.table[x], now.table[map[x]]);
                &&& before.table.contains_key(x)
                &&& !before.table.contains_key(map[x])
                &&& made.transform == original.transform
                &&& made.camera == original.camera
                &&& made.asset_source == original.asset_source
                &&& made.disabled == original.disabled
                &&& x != entity ==> made.name == original.name
                &&& made.global_transform is None
                &&& made.audio_emitter is None
                &&& made.collider is None
                &&& made.sprite is None
                &&& made.sprite_source is None
                &&& made.script is None
                &&& made.mesh_source is None
                &&& made.mesh_renderer is None
                &&& made.skinned_mesh_renderer is None
                &&& made.instanced_mesh_renderer is None
                &&& made.vegetation_renderer is None
                &&& made.is_static is None
                &&& made.lock is None
                &&& x != entity ==> now.parents.contains_key(map[x])
                    && before.parents.contains_key(x) && map.contains_key(before.parents[x])
                    && now.parents[map[x]] == map[before.parents[x]]
            },
        !now.parents.contains_key(copy),
        match before.table[entity].name {
            Some(name) => now.table[copy].name is Some && (now.table[copy].name->0).0@ == name.0@
                + " Copy"@,
            None => now.table[copy].name is None,
        },
{
    let (map, plain) = choose|map: Map<Entity, Entity>, plain: WorldView| #[trigger]
        copied(before, plain, entity, copy, None, map) && now == plain.updated(
            copy,
            now.table[copy],
        ) && named_as_copy(now.table[copy], plain.table[copy]);
    assert(copied(before, plain, entity, copy, None, map));
    assert(map.contains_key(entity));
    assert forall|x: Entity| #[trigger] map.contains_key(x) <==> exists|k: nat|
        ancestor(before.parents, x, k) == Some(entity) by {
        assert(map.dom().contains(x) <==> subtree(before.parents, entity).contains(x));
        if exists|k: nat| ancestor(before.parents, x, k) == Some(entity) {
            assert(descends(before.parents, x, entity));
        }
        if map.contains_key(x) {
            assert(descends(before.parents, x, entity));
        }
    }
    assert forall|e: Entity| #[trigger] now.table.contains_key(e) <==> before.table.contains_key(e)
        || exists|x: Entity| #[trigger] map.contains_key(x) && map[x] == e by {
        assert(plain.alive(e) <==> now.table.contains_key(e));
        assert(before.alive(e) <==> before.table.contains_key(e));
        if plain.alive(e) && !before.alive(e) {
            let x = choose|x: Entity| #[trigger] map.dom().contains(x) && map[x] == e;
            assert(map.contains_key(x));
        }
    }
    assert forall|x: Entity| #[trigger] map.contains_key(x) && x != entity implies map[x]
        != copy by {
        assert(map[x] != map[entity]);
    }
    map
}

/// What was there before stays: every entity with its components and its parent, and the list
/// of them begins as it was, with the copies behind.
pub proof fn law_copying_leaves_the_originals(
    before: WorldView,
    now: WorldView,
    entity: Entity,
    copy: Entity,
    other: Entity,
)
    requires
        before.consistent(),
        before.table.contains_key(entity),
        duplicated(before, now, entity, copy),
        before.table.contains_key(other),
    ensures
        before.order.len() < now.order.len() || before.order.len() == now.order.len(),
        forall|i: int| 0 <= i < before.order.len() ==> #[trigger] now.order[i] == before.order[i],
        now.table.contains_key(other),
        now.table[other] == before.table[other],
        now.parents.contains_key(other) == before.parents.contains_key(other),
        before.parents.contains_key(other) ==> now.parents[other] == before.parents[other],
{
    let (map, plain) = choose|map: Map<Entity, Entity>, plain: WorldView| #[trigger]
        copied(before, plain, entity, copy, None, map) && now == plain.updated(
            copy,
            now.table[copy],
        ) && named_as_copy(now.table[copy], plain.table[copy]);
    assert(copied(before, plain, entity, copy, None, map));
    assert(before.alive(other));
    assert(map.contains_key(entity));
    assert(!before.alive(copy));
}

} // verus!
