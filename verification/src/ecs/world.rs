//! A world: entities, the tree they form, and what each of them carries.

use vstd::prelude::*;

use crate::ecs::components::Components;
use crate::ecs::entities::{
    ancestor, child_list, count_alive, despawn, is_alive, law_descent_is_reflexive_and_transitive,
    link, lists_children, live_entities, new_store, own_entities, parent_links, parent_of, sound,
    spawn_empty, subtree, unlink, valid_entity, Entity, MAX_POPULATION,
};

verus! {

/// What a world holds.
#[verifier::ext_equal]
pub struct WorldView {
    /// The entities, in the order they were spawned.
    pub order: Seq<Entity>,
    /// What each of them carries.
    pub table: Map<Entity, Components>,
    /// The parent of each that has one.
    pub parents: Map<Entity, Entity>,
    /// How many entities there are, counting those the store keeps for itself.
    pub population: nat,
}

struct Record {
    entity: Entity,
    components: Components,
}

/// Entities with their components, and their parents and children.
pub struct SceneWorld {
    store: bevy_ecs::world::World,
    records: Vec<Record>,
}

spec fn order_of(records: Seq<Record>) -> Seq<Entity> {
    records.map_values(|record: Record| record.entity)
}

spec fn table_of(records: Seq<Record>) -> Map<Entity, Components>
    decreases records.len(),
{
    if records.len() == 0 {
        Map::empty()
    } else {
        table_of(records.drop_last()).insert(records.last().entity, records.last().components)
    }
}

impl View for SceneWorld {
    type V = WorldView;

    closed spec fn view(&self) -> WorldView {
        WorldView {
            order: order_of(self.records@),
            table: table_of(self.records@),
            parents: parent_links(self.store),
            population: live_entities(self.store).len(),
        }
    }
}

proof fn lemma_table(records: Seq<Record>)
    requires
        order_of(records).no_duplicates(),
    ensures
        forall|e: Entity| #[trigger]
            table_of(records).contains_key(e) <==> order_of(records).contains(e),
        forall|i: int|
            #![trigger records[i]]
            0 <= i < records.len() ==> table_of(records)[records[i].entity] == records[i].components,
        table_of(records).dom().finite(),
    decreases records.len(),
{
    if records.len() > 0 {
        let rest = records.drop_last();
        let order = order_of(records);
        assert(order_of(rest) =~= order.drop_last());
        assert(order_of(rest).no_duplicates()) by {
            assert forall|i: int, j: int| 0 <= i < j < order.len() - 1 implies order_of(rest)[i]
                != order_of(rest)[j] by {
                assert(order[i] != order[j]);
            }
        }
        lemma_table(rest);
        assert forall|e: Entity| #[trigger] table_of(records).contains_key(e) implies order.contains(
            e,
        ) by {
            if e == records.last().entity {
                assert(order[records.len() - 1] == e);
            } else {
                assert(order_of(rest).contains(e));
                let i = order_of(rest).index_of(e);
                assert(order[i] == e);
            }
        }
        assert forall|e: Entity| order.contains(e) implies #[trigger] table_of(
            records,
        ).contains_key(e) by {
            let i = order.index_of(e);
            if i < rest.len() {
                assert(order_of(rest)[i] == e);
                assert(order_of(rest).contains(e));
            }
        }
        assert forall|i: int| #![trigger records[i]] 0 <= i < records.len() implies table_of(
            records,
        )[records[i].entity] == records[i].components by {
            if i < rest.len() {
                assert(rest[i] == records[i]);
                assert(order[i] != order[records.len() - 1]);
            }
        }
    }
}

/// Taking a record out of a table, and keeping the others.
proof fn lemma_table_is_determined(records: Seq<Record>, table: Map<Entity, Components>)
    requires
        order_of(records).no_duplicates(),
        forall|e: Entity| #[trigger] table.contains_key(e) <==> order_of(records).contains(e),
        forall|i: int|
            #![trigger records[i]]
            0 <= i < records.len() ==> table[records[i].entity] == records[i].components,
    ensures
        table_of(records) == table,
{
    lemma_table(records);
    assert forall|e: Entity| #[trigger] table_of(records).contains_key(e) implies table_of(
        records,
    )[e] == table[e] by {
        let i = order_of(records).index_of(e);
        assert(records[i].entity == e);
    }
    assert(table_of(records) =~= table);
}

impl WorldView {
    /// Whether the entity is alive.
    pub open spec fn alive(self, entity: Entity) -> bool {
        self.table.contains_key(entity)
    }

    /// Whether entities are listed once and counted, and links are between living
    /// ones that are not the same.
    pub open spec fn consistent(self) -> bool {
        &&& self.order.no_duplicates()
        &&& self.table.dom().finite()
        &&& self.table.dom().len() <= self.population
        &&& forall|e: Entity| #[trigger] self.alive(e) <==> self.order.contains(e)
        &&& forall|e: Entity| #[trigger] self.alive(e) ==> valid_entity(e)
        &&& forall|e: Entity| #[trigger]
            self.parents.contains_key(e) ==> {
                &&& self.alive(e)
                &&& self.alive(self.parents[e])
                &&& self.parents[e] != e
            }
    }

    /// The world with one more entity.
    pub open spec fn spawned(self, entity: Entity, components: Components) -> WorldView {
        WorldView {
            order: self.order.push(entity),
            table: self.table.insert(entity, components),
            parents: self.parents,
            population: self.population + 1,
        }
    }

    /// The world without the entities in `dead`.
    pub open spec fn without(self, dead: Set<Entity>) -> WorldView {
        WorldView {
            order: self.order.filter(|e: Entity| !dead.contains(e)),
            table: self.table.remove_keys(dead),
            parents: self.parents.remove_keys(dead),
            population: (self.population - self.table.dom().intersect(dead).len()) as nat,
        }
    }

    /// The world with one entity's components replaced.
    pub open spec fn updated(self, entity: Entity, components: Components) -> WorldView {
        WorldView { table: self.table.insert(entity, components), ..self }
    }

    /// The world with one entity's parent replaced.
    pub open spec fn linked(self, child: Entity, parent: Entity) -> WorldView {
        WorldView { parents: self.parents.insert(child, parent), ..self }
    }

    /// The world with one entity's parent taken away.
    pub open spec fn unlinked(self, child: Entity) -> WorldView {
        WorldView { parents: self.parents.remove(child), ..self }
    }
}

/// Everything below a living entity is alive.
proof fn lemma_dead_are_alive(world: WorldView, entity: Entity)
    requires
        world.consistent(),
        world.alive(entity),
    ensures
        forall|e: Entity| #[trigger]
            subtree(world.parents, entity).contains(e) ==> world.alive(e),
        subtree(world.parents, entity).finite(),
{
    let dead = subtree(world.parents, entity);
    assert forall|e: Entity| #[trigger] dead.contains(e) implies world.alive(e) by {
        let k = choose|k: nat| #[trigger] ancestor(world.parents, e, k) == Some(entity);
        if k > 0 {
            lemma_linked(world.parents, e, k);
        }
    }
    assert(dead.subset_of(world.table.dom()));
    vstd::set_lib::lemma_len_subset(dead, world.table.dom());
}

/// What has an ancestor other than itself has a parent.
proof fn lemma_linked(links: Map<Entity, Entity>, entity: Entity, k: nat)
    requires
        k > 0,
        ancestor(links, entity, k) is Some,
    ensures
        links.contains_key(entity),
    decreases k,
{
    if k == 1 {
        assert(ancestor(links, entity, 0) == Some(entity));
    } else {
        lemma_linked(links, entity, (k - 1) as nat);
    }
}

impl SceneWorld {
    /// Whether the world is in good order.
    pub closed spec fn wf(&self) -> bool {
        &&& sound(self.store)
        &&& live_entities(self.store).len() <= MAX_POPULATION
        &&& self@.order.no_duplicates()
        &&& forall|i: int|
            #![trigger self.records@[i]]
            0 <= i < self.records@.len() ==> live_entities(self.store).contains(
                self.records@[i].entity,
            ) && !own_entities(self.store).contains(self.records@[i].entity)
        &&& forall|e: Entity| #[trigger]
            parent_links(self.store).contains_key(e) ==> self@.order.contains(e)
                && self@.order.contains(parent_links(self.store)[e])
    }

    /// What a world in good order holds is consistent.
    pub proof fn lemma_consistent(&self)
        requires
            self.wf(),
        ensures
            self@.consistent(),
            self@.population <= MAX_POPULATION,
    {
        lemma_table(self.records@);
        assert forall|e: Entity| #[trigger] self@.alive(e) implies valid_entity(e) by {
            let i = self@.order.index_of(e);
            assert(self.records@[i].entity == e);
            assert(live_entities(self.store).contains(e));
        }
        assert(self@.table.dom().subset_of(live_entities(self.store))) by {
            assert forall|e: Entity| self@.table.dom().contains(e) implies live_entities(
                self.store,
            ).contains(e) by {
                let i = self@.order.index_of(e);
                assert(self.records@[i].entity == e);
            }
        }
        vstd::set_lib::lemma_len_subset(self@.table.dom(), live_entities(self.store));
        assert forall|e: Entity| #[trigger] self@.parents.contains_key(e) implies {
            &&& self@.alive(e)
            &&& self@.alive(self@.parents[e])
            &&& self@.parents[e] != e
        } by {
            assert(parent_links(self.store).contains_key(e));
        }
    }

    /// An empty world.
    pub fn new() -> (world: SceneWorld)
        ensures
            world.wf(),
            world@.order.len() == 0,
            world@.table == Map::<Entity, Components>::empty(),
            world@.parents == Map::<Entity, Entity>::empty(),
            world@.population < 0x1_0000,
    {
        let world = SceneWorld { store: new_store(), records: Vec::new() };
        assert(world@.order =~= Seq::<Entity>::empty());
        world
    }

    /// The place of the entity's record.
    fn position(&self, entity: Entity) -> (position: Option<usize>)
        requires
            self.wf(),
        ensures
            match position {
                Some(i) => {
                    &&& i < self.records@.len()
                    &&& self.records@[i as int].entity == entity
                    &&& self@.alive(entity)
                    &&& self@.table[entity] == self.records@[i as int].components
                },
                None => !self@.alive(entity),
            },
    {
        proof {
            lemma_table(self.records@);
        }
        for i in 0..self.records.len()
            invariant
                forall|j: int|
                    0 <= j < i ==> (#[trigger] self.records@[j]).entity != entity,
                order_of(self.records@).no_duplicates(),
                forall|e: Entity| #[trigger]
                    table_of(self.records@).contains_key(e) <==> order_of(self.records@).contains(
                        e,
                    ),
                forall|i: int|
                    #![trigger self.records@[i]]
                    0 <= i < self.records@.len() ==> table_of(
                        self.records@,
                    )[self.records@[i].entity] == self.records@[i].components,
        {
            if self.records[i].entity == entity {
                assert(order_of(self.records@)[i as int] == entity);
                assert(self.records@[i as int].entity == entity);
                return Some(i);
            }
        }
        proof {
            if self@.alive(entity) {
                let i = order_of(self.records@).index_of(entity);
                assert(self.records@[i].entity == entity);
            }
        }
        None
    }

    /// Whether the entity is alive.
    pub fn contains(&self, entity: Entity) -> (answer: bool)
        requires
            self.wf(),
        ensures
            answer == self@.alive(entity),
    {
        self.position(entity).is_some()
    }

    /// What the entity carries.
    pub fn get(&self, entity: Entity) -> (components: Option<&Components>)
        requires
            self.wf(),
        ensures
            match components {
                Some(components) => self@.alive(entity) && *components == self@.table[entity],
                None => !self@.alive(entity),
            },
    {
        match self.position(entity) {
            Some(i) => Some(&self.records[i].components),
            None => None,
        }
    }

    /// Replaces what the entity carries; nothing happens if it is not alive.
    pub fn set(&mut self, entity: Entity, components: Components)
        requires
            old(self).wf(),
        ensures
            final(self).wf(),
            old(self)@.alive(entity) ==> final(self)@ == old(self)@.updated(entity, components),
            !old(self)@.alive(entity) ==> final(self)@ == old(self)@,
    {
        match self.position(entity) {
            Some(i) => {
                let ghost before = self.records@;
                let ghost world = self@;
                self.records[i] = Record { entity, components };
                proof {
                    let after = self.records@;
                    assert(order_of(after) =~= order_of(before));
                    lemma_table(before);
                    assert forall|j: int|
                        #![trigger after[j]]
                        0 <= j < after.len() implies world.table.insert(
                        entity,
                        components,
                    )[after[j].entity] == after[j].components by {
                        if j != i {
                            assert(order_of(before)[j] != order_of(before)[i as int]);
                            assert(after[j] == before[j]);
                        }
                    }
                    assert forall|e: Entity| #[trigger]
                        world.table.insert(entity, components).contains_key(e) <==> order_of(
                            after,
                        ).contains(e) by {
                        assert(world.alive(e) <==> order_of(before).contains(e));
                    }
                    lemma_table_is_determined(after, world.table.insert(entity, components));
                    assert forall|j: int|
                        #![trigger after[j]]
                        0 <= j < after.len() implies live_entities(self.store).contains(
                        after[j].entity,
                    ) by {
                        assert(before[j].entity == after[j].entity);
                    }
                }
            },
            None => {},
        }
    }

    /// Adds an entity that carries `components`, with no parent.
    pub fn spawn(&mut self, components: Components) -> (entity: Entity)
        requires
            old(self).wf(),
            old(self)@.population < MAX_POPULATION,
        ensures
            final(self).wf(),
            !old(self)@.alive(entity),
            valid_entity(entity),
            final(self)@ == old(self)@.spawned(entity, components),
    {
        let ghost before = self.records@;
        let ghost world = self@;
        proof {
            self.lemma_consistent();
        }
        let entity: Entity = spawn_empty(&mut self.store);
        proof {
            if world.alive(entity) {
                let i = world.order.index_of(entity);
                assert(before[i].entity == entity);
            }
            assert(live_entities(self.store).contains(entity));
        }
        self.records.push(Record { entity, components });
        proof {
            let after = self.records@;
            assert(after.drop_last() =~= before);
            assert(order_of(after) =~= world.order.push(entity));
            assert(order_of(after).no_duplicates()) by {
                assert(!world.order.contains(entity));
            }
            assert forall|j: int| #![trigger after[j]] 0 <= j < after.len() implies live_entities(
                self.store,
            ).contains(after[j].entity) by {
                if j < before.len() {
                    assert(before[j] == after[j]);
                }
            }
            assert forall|e: Entity| #[trigger] parent_links(self.store).contains_key(e) implies
                self@.order.contains(e) && self@.order.contains(
                parent_links(self.store)[e],
            ) by {
                let i = world.order.index_of(e);
                let j = world.order.index_of(parent_links(self.store)[e]);
                assert(self@.order[i] == e);
                assert(self@.order[j] == parent_links(self.store)[e]);
            }
        }
        entity
    }

    /// Removes the entity with everything below it; nothing happens if it is not
    /// alive. The answer is whether it was.
    pub fn despawn(&mut self, entity: Entity) -> (was_alive: bool)
        requires
            old(self).wf(),
        ensures
            final(self).wf(),
            was_alive == old(self)@.alive(entity),
            !was_alive ==> final(self)@ == old(self)@,
            was_alive ==> final(self)@ == old(self)@.without(
                subtree(old(self)@.parents, entity),
            ),
    {
        if !self.contains(entity) {
            return false;
        }
        let ghost world = self@;
        let ghost before = self.records@;
        let ghost dead = subtree(world.parents, entity);
        let ghost stood = live_entities(self.store);
        let ghost own = own_entities(self.store);
        proof {
            self.lemma_consistent();
            lemma_table(before);
            let i = world.order.index_of(entity);
            assert(before[i].entity == entity);
            assert(stood.contains(entity));
            lemma_dead_are_alive(world, entity);
            assert forall|e: Entity| dead.contains(e) implies !own.contains(e) by {
                assert(world.alive(e));
                let i = world.order.index_of(e);
                assert(before[i].entity == e);
            }
        }
        let _ = despawn(&mut self.store, entity);
        proof {
            let fallen = world.table.dom().intersect(dead);
            assert(fallen =~= dead);
            assert(dead.subset_of(stood)) by {
                assert forall|e: Entity| dead.contains(e) implies stood.contains(e) by {
                    assert(world.alive(e));
                    let i = world.order.index_of(e);
                    assert(before[i].entity == e);
                }
            }
            assert(stood.intersect(dead) =~= dead);
            vstd::set_lib::lemma_set_difference_len(stood, dead);
        }
        let mut kept: Vec<Record> = Vec::new();
        let mut rest: Vec<Record> = Vec::new();
        std::mem::swap(&mut rest, &mut self.records);
        let ghost survives = |e: Entity| !dead.contains(e);
        assert(before.skip(0) =~= before);
        assert(before.take(0) =~= Seq::<Record>::empty());
        assert(order_of(before.take(0)) =~= Seq::<Entity>::empty());
        assert(order_of(kept@) =~= Seq::<Entity>::empty());
        proof {
            reveal(Seq::filter);
        }
        let ghost mut done: int = 0;
        while rest.len() > 0
            invariant
                self.records@.len() == 0,
                0 <= done <= before.len(),
                rest@ == before.skip(done),
                order_of(kept@) == order_of(before.take(done)).filter(survives),
                survives == (|e: Entity| !dead.contains(e)),
                live_entities(self.store) == stood.difference(dead),
                forall|i: int|
                    #![trigger before[i]]
                    0 <= i < before.len() ==> stood.contains(before[i].entity) && !own.contains(
                        before[i].entity,
                    ) && table_of(before)[before[i].entity] == before[i].components,
                forall|i: int|
                    #![trigger kept@[i]]
                    0 <= i < kept@.len() ==> live_entities(self.store).contains(kept@[i].entity)
                        && !own.contains(kept@[i].entity) && table_of(before)[kept@[i].entity] == kept@[i].components,
            decreases rest.len(),
        {
            let ghost order = order_of(before.take(done));
            let ghost kept_before = kept@;
            let record = rest.remove(0);
            proof {
                assert(before.skip(done)[0] == before[done]);
                assert(record == before[done]);
                assert(rest@ =~= before.skip(done + 1));
                assert(order_of(before.take(done + 1)) =~= order.push(record.entity));
                lemma_filter_push(order, record.entity, survives);
                done = done + 1;
            }
            if is_alive(&self.store, record.entity) {
                kept.push(record);
                assert(order_of(kept@) =~= order_of(kept_before).push(record.entity));
            }
        }
        proof {
            assert(before.take(done) =~= before);
        }
        self.records = kept;
        proof {
            let after = self.records@;
            let order = world.order.filter(survives);
            assert(order_of(after) == order);
            lemma_filter(world.order, survives);
            assert forall|e: Entity| #[trigger]
                world.table.remove_keys(dead).contains_key(e) <==> order_of(after).contains(e) by {
                assert(world.alive(e) <==> world.order.contains(e));
            }
            assert forall|i: int|
                #![trigger after[i]]
                0 <= i < after.len() implies world.table.remove_keys(dead)[after[i].entity]
                == after[i].components by {
                assert(!dead.contains(after[i].entity));
                assert(order_of(after)[i] == after[i].entity);
                assert(order_of(after).contains(after[i].entity));
            }
            lemma_table_is_determined(after, world.table.remove_keys(dead));
            assert forall|e: Entity| #[trigger] parent_links(self.store).contains_key(e) implies
                self@.order.contains(e) && self@.order.contains(
                parent_links(self.store)[e],
            ) by {
                assert(world.parents.contains_key(e));
                let parent = world.parents[e];
                if dead.contains(parent) {
                    assert(ancestor(world.parents, e, 1) == Some(parent)) by {
                        assert(ancestor(world.parents, e, 0) == Some(e));
                        reveal_with_fuel(ancestor, 2);
                    }
                    law_descent_is_reflexive_and_transitive(world.parents, e, parent, entity);
                }
            }
            assert(self@ =~= world.without(dead));
        }
        true
    }

    /// The entity's parent.
    pub fn parent(&self, entity: Entity) -> (parent: Option<Entity>)
        requires
            self.wf(),
        ensures
            parent == (if self@.parents.contains_key(entity) {
                Some(self@.parents[entity])
            } else {
                None
            }),
    {
        parent_of(&self.store, entity)
    }

    /// The entity's children, each once.
    pub fn children(&self, entity: Entity) -> (children: Vec<Entity>)
        requires
            self.wf(),
        ensures
            children@.no_duplicates(),
            lists_children(children@, self@.parents, entity),
    {
        child_list(&self.store, entity)
    }

    /// Gives `child` the parent `parent`, in place of any it had.
    pub fn set_parent(&mut self, child: Entity, parent: Entity)
        requires
            old(self).wf(),
            old(self)@.alive(child),
            old(self)@.alive(parent),
            child != parent,
        ensures
            final(self).wf(),
            final(self)@ == old(self)@.linked(child, parent),
    {
        proof {
            self.lemma_consistent();
            let i = self@.order.index_of(child);
            let j = self@.order.index_of(parent);
            assert(self.records@[i].entity == child);
            assert(self.records@[j].entity == parent);
        }
        link(&mut self.store, child, parent);
    }

    /// Takes the parent of `child` away.
    pub fn clear_parent(&mut self, child: Entity)
        requires
            old(self).wf(),
            old(self)@.alive(child),
        ensures
            final(self).wf(),
            final(self)@ == old(self)@.unlinked(child),
    {
        proof {
            self.lemma_consistent();
            let i = self@.order.index_of(child);
            assert(self.records@[i].entity == child);
        }
        unlink(&mut self.store, child);
    }

    /// How many entities there are, counting those the store keeps for itself.
    pub fn population(&self) -> (count: u32)
        ensures
            count == self@.population,
    {
        count_alive(&self.store)
    }

    /// How many entities there are.
    pub fn len(&self) -> (count: usize)
        ensures
            count == self@.order.len(),
    {
        self.records.len()
    }

    /// The entity spawned as number `i` of those alive.
    pub fn entity_at(&self, i: usize) -> (entity: Entity)
        requires
            i < self@.order.len(),
        ensures
            entity == self@.order[i as int],
    {
        self.records[i].entity
    }

    /// What the entity spawned as number `i` of those alive carries.
    pub fn components_at(&self, i: usize) -> (components: &Components)
        requires
            self.wf(),
            i < self@.order.len(),
        ensures
            *components == self@.table[self@.order[i as int]],
    {
        proof {
            lemma_table(self.records@);
        }
        &self.records[i].components
    }
}

/// Filtering one item more.
pub proof fn lemma_filter_push<T>(items: Seq<T>, item: T, keep: spec_fn(T) -> bool)
    ensures
        items.push(item).filter(keep) == (if keep(item) {
            items.filter(keep).push(item)
        } else {
            items.filter(keep)
        }),
{
    reveal(Seq::filter);
    assert(items.push(item).drop_last() =~= items);
}

/// What filtering keeps.
pub proof fn lemma_filter<T>(items: Seq<T>, keep: spec_fn(T) -> bool)
    ensures
        forall|item: T| #[trigger]
            items.filter(keep).contains(item) <==> items.contains(item) && keep(item),
        items.no_duplicates() ==> items.filter(keep).no_duplicates(),
        items.filter(keep).len() <= items.len(),
    decreases items.len(),
{
    reveal(Seq::filter);
    if items.len() > 0 {
        let rest = items.drop_last();
        lemma_filter(rest, keep);
        let all = items.filter(keep);
        let some = rest.filter(keep);
        assert(items =~= rest.push(items.last()));
        assert forall|item: T| #[trigger] all.contains(item) <==> items.contains(item) && keep(
            item,
        ) by {
            if all.contains(item) {
                let i = all.index_of(item);
                if i < some.len() {
                    assert(some[i] == item);
                    assert(some.contains(item));
                    let j = rest.index_of(item);
                    assert(items[j] == item);
                } else {
                    assert(items[items.len() - 1] == item);
                }
            }
            if items.contains(item) && keep(item) {
                let i = items.index_of(item);
                if i < rest.len() {
                    assert(rest[i] == item);
                    assert(rest.contains(item));
                    assert(some.contains(item));
                    let j = some.index_of(item);
                    assert(all[j] == item);
                } else {
                    assert(all[some.len() as int] == item);
                }
            }
        }
        if items.no_duplicates() {
            assert(rest.no_duplicates()) by {
                assert forall|i: int, j: int| 0 <= i < j < rest.len() implies rest[i]
                    != rest[j] by {
                    assert(items[i] != items[j]);
                }
            }
            if keep(items.last()) {
                assert(!some.contains(items.last())) by {
                    if some.contains(items.last()) {
                        assert(rest.contains(items.last()));
                        let i = rest.index_of(items.last());
                        assert(items[i] == items[items.len() - 1]);
                    }
                }
            }
        }
    }
}

/// What the edits of a world touch. A new entity is listed last, has no parent and changes
/// no other; an update changes the components of its entity alone; linking and unlinking
/// change the parent of the child alone; what is taken out leaves the rest in order, with
/// its components and parents.
pub proof fn law_edits_touch_what_they_name(
    world: WorldView,
    entity: Entity,
    parent: Entity,
    components: Components,
    dead: Set<Entity>,
    other: Entity,
)
    requires
        other != entity,
    ensures
        ({
            let now = world.spawned(entity, components);
            &&& now.order == world.order.push(entity) && now.parents == world.parents
            &&& now.table.contains_key(entity) && now.table[entity] == components
            &&& now.table.contains_key(other) == world.table.contains_key(other)
            &&& world.table.contains_key(other) ==> now.table[other] == world.table[other]
            &&& now.population == world.population + 1
        }),
        ({
            let now = world.updated(entity, components);
            &&& now.order == world.order && now.parents == world.parents && now.population
                == world.population
            &&& now.table.contains_key(entity) && now.table[entity] == components
            &&& now.table.contains_key(other) == world.table.contains_key(other)
            &&& world.table.contains_key(other) ==> now.table[other] == world.table[other]
        }),
        ({
            let now = world.linked(entity, parent);
            let freed = world.unlinked(entity);
            &&& now.order == world.order && now.table == world.table && now.population
                == world.population
            &&& freed.order == world.order && freed.table == world.table && freed.population
                == world.population
            &&& now.parents.contains_key(entity) && now.parents[entity] == parent
            &&& !freed.parents.contains_key(entity)
            &&& now.parents.contains_key(other) == world.parents.contains_key(other)
            &&& freed.parents.contains_key(other) == world.parents.contains_key(other)
            &&& world.parents.contains_key(other) ==> now.parents[other] == world.parents[other]
                && freed.parents[other] == world.parents[other]
        }),
        ({
            let now = world.without(dead);
            &&& now.table.contains_key(other) <==> world.table.contains_key(other)
                && !dead.contains(other)
            &&& now.table.contains_key(other) ==> now.table[other] == world.table[other]
            &&& now.parents.contains_key(other) <==> world.parents.contains_key(other)
                && !dead.contains(other)
            &&& now.parents.contains_key(other) ==> now.parents[other] == world.parents[other]
            &&& now.order.contains(other) <==> world.order.contains(other) && !dead.contains(other)
            &&& (forall|e: Entity| #[trigger] world.order.contains(e) ==> !dead.contains(e))
                ==> now.order == world.order
        }),
        world.alive(entity) <==> world.table.contains_key(entity),
{
    let keep = |e: Entity| !dead.contains(e);
    lemma_filter(world.order, keep);
    if forall|e: Entity| #[trigger] world.order.contains(e) ==> !dead.contains(e) {
        lemma_all_kept(world.order, keep);
    }
}

proof fn lemma_all_kept(items: Seq<Entity>, keep: spec_fn(Entity) -> bool)
    requires
        forall|e: Entity| #[trigger] items.contains(e) ==> keep(e),
    ensures
        items.filter(keep) == items,
    decreases items.len(),
{
    reveal(Seq::filter);
    if items.len() > 0 {
        let rest = items.drop_last();
        assert(items.contains(items.last()));
        assert forall|e: Entity| #[trigger] rest.contains(e) implies keep(e) by {
            let k = rest.index_of(e);
            assert(items[k] == e);
            assert(items.contains(e));
        }
        lemma_all_kept(rest, keep);
        assert(rest.push(items.last()) =~= items);
    }
}

} // verus!
