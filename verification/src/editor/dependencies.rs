//! Which assets a scene depends on, and what in the scene uses them.

use vstd::prelude::*;
use vstd::seq_lib::group_to_multiset_ensures;

use crate::asset_id::{
    asset_id_of, hyphenated, lemma_canonical_text_is_unique, parse_asset_id, AssetId,
};
use crate::ecs::components::{ColliderShape, Components};
use crate::ecs::entities::Entity;
use crate::ecs::world::{lemma_filter, lemma_filter_push, SceneWorld, WorldView};
use crate::editor::assets::AssetIndex;
use crate::order::{is_text_before, lemma_text_order, sort, text_before, Ordered};

verus! {

/// One reference from a component to an asset.
#[derive(Debug, Clone, Copy, PartialEq, Eq)]
pub struct DependencyUse {
    /// The entity that carries the reference.
    pub entity: Entity,
    /// The component and field.
    pub field: &'static str,
}

/// All that uses one asset.
#[derive(Debug, PartialEq, Eq)]
pub struct AssetDependency {
    /// The canonical UUID text of the asset.
    pub id: String,
    /// Where the asset lies, if it is known.
    pub path: Option<String>,
    /// What uses it.
    pub users: Vec<DependencyUse>,
}

impl AssetDependency {
    /// Whether there is no file for the asset.
    pub fn is_missing(&self) -> (answer: bool)
        ensures
            answer == (self.path is None),
    {
        self.path.is_none()
    }
}

/// A reference as it stands in a component.
pub ghost struct Reference {
    /// The text that should be an identifier.
    pub text: Seq<char>,
    /// Who refers to it.
    pub user: DependencyUse,
}

/// The references of the first kind of component: to the file an entity was
/// created from.
pub open spec fn source_references(components: Components, entity: Entity) -> Seq<Reference> {
    match components.asset_source {
        Some(source) => match source.id {
            Some(id) => seq![
                Reference { text: id@, user: DependencyUse { entity, field: "AssetSource.path" } },
            ],
            None => Seq::empty(),
        },
        None => Seq::empty(),
    }
}

/// The references of the second: to a mesh and a material.
pub open spec fn mesh_references(components: Components, entity: Entity) -> Seq<Reference> {
    match components.mesh_source {
        Some(source) => seq![
            Reference {
                text: source.mesh@,
                user: DependencyUse { entity, field: "MeshSource.mesh" },
            },
            Reference {
                text: source.material@,
                user: DependencyUse { entity, field: "MeshSource.material" },
            },
        ],
        None => Seq::empty(),
    }
}

/// The references of the third: to an atlas.
pub open spec fn sprite_references(components: Components, entity: Entity) -> Seq<Reference> {
    match components.sprite_source {
        Some(source) => seq![
            Reference {
                text: source.atlas@,
                user: DependencyUse { entity, field: "SpriteSource.atlas" },
            },
        ],
        None => Seq::empty(),
    }
}

/// The references of the fourth: to a sound.
pub open spec fn sound_references(components: Components, entity: Entity) -> Seq<Reference> {
    match components.audio_emitter {
        Some(emitter) => seq![
            Reference {
                text: emitter.sound@,
                user: DependencyUse { entity, field: "AudioEmitter.sound" },
            },
        ],
        None => Seq::empty(),
    }
}

/// The references of the fifth: to the mesh of a collider.
pub open spec fn collider_references(components: Components, entity: Entity) -> Seq<Reference> {
    match components.collider {
        Some(collider) => match collider.shape {
            ColliderShape::TriMesh { mesh } => seq![
                Reference { text: mesh@, user: DependencyUse { entity, field: "Collider.mesh" } },
            ],
            _ => Seq::empty(),
        },
        None => Seq::empty(),
    }
}

/// The kinds of components that refer to assets, in the order in which they are
/// looked at.
#[derive(Debug, Clone, Copy, PartialEq, Eq, Structural)]
enum Group {
    Source,
    Mesh,
    Sprite,
    Sound,
    Collider,
}

spec fn references(group: Group, components: Components, entity: Entity) -> Seq<Reference> {
    match group {
        Group::Source => source_references(components, entity),
        Group::Mesh => mesh_references(components, entity),
        Group::Sprite => sprite_references(components, entity),
        Group::Sound => sound_references(components, entity),
        Group::Collider => collider_references(components, entity),
    }
}

/// The references of one kind of component on the first `n` entities.
pub open spec fn gathered(
    world: WorldView,
    of: spec_fn(Components, Entity) -> Seq<Reference>,
    n: nat,
) -> Seq<Reference>
    decreases n,
{
    if n == 0 {
        Seq::empty()
    } else {
        let entity = world.order[n - 1];
        gathered(world, of, (n - 1) as nat) + of(world.table[entity], entity)
    }
}

/// All references in the world: by kind of component, and within a kind by entity.
pub open spec fn all_references(world: WorldView) -> Seq<Reference> {
    let n = world.order.len();
    gathered(world, |c: Components, e: Entity| source_references(c, e), n) + gathered(
        world,
        |c: Components, e: Entity| mesh_references(c, e),
        n,
    ) + gathered(world, |c: Components, e: Entity| sprite_references(c, e), n) + gathered(
        world,
        |c: Components, e: Entity| sound_references(c, e),
        n,
    ) + gathered(world, |c: Components, e: Entity| collider_references(c, e), n)
}

/// The users of the asset among the references.
pub open spec fn users_of(references: Seq<Reference>, id: AssetId) -> Seq<DependencyUse>
    decreases references.len(),
{
    if references.len() == 0 {
        Seq::empty()
    } else {
        let rest = users_of(references.drop_last(), id);
        if asset_id_of(references.last().text) == Some(id) {
            rest.push(references.last().user)
        } else {
            rest
        }
    }
}

/// Whether the report on the asset is right.
pub open spec fn reported(
    dependency: AssetDependency,
    id: AssetId,
    references: Seq<Reference>,
    index: AssetIndex,
) -> bool {
    &&& dependency.id@ == hyphenated(id.value)
    &&& dependency.users@ == users_of(references, id)
    &&& dependency.users@.len() > 0
    &&& match dependency.path {
        Some(path) => index.paths().contains_key(id) && path@ == index.paths()[id],
        None => !index.paths().contains_key(id),
    }
}

struct Found {
    id: AssetId,
    user: DependencyUse,
}

spec fn found_in(references: Seq<Reference>) -> Seq<Found>
    decreases references.len(),
{
    if references.len() == 0 {
        Seq::empty()
    } else {
        let rest = found_in(references.drop_last());
        match asset_id_of(references.last().text) {
            Some(id) => rest.push(Found { id, user: references.last().user }),
            None => rest,
        }
    }
}

proof fn lemma_found_in_sum(a: Seq<Reference>, b: Seq<Reference>)
    ensures
        found_in(a + b) == found_in(a) + found_in(b),
    decreases b.len(),
{
    if b.len() == 0 {
        assert(a + b =~= a);
        assert(found_in(a) + found_in(b) =~= found_in(a));
    } else {
        lemma_found_in_sum(a, b.drop_last());
        assert((a + b).drop_last() =~= a + b.drop_last());
        assert(found_in(a + b) =~= found_in(a) + found_in(b));
    }
}

spec fn users_in(found: Seq<Found>, id: AssetId, n: nat) -> Seq<DependencyUse>
    decreases n,
{
    if n == 0 {
        Seq::empty()
    } else {
        let rest = users_in(found, id, (n - 1) as nat);
        if found[n - 1].id == id {
            rest.push(found[n - 1].user)
        } else {
            rest
        }
    }
}

proof fn lemma_users_in_prefix(a: Seq<Found>, b: Seq<Found>, id: AssetId, n: nat)
    requires
        n <= a.len(),
        n <= b.len(),
        forall|i: int| #![trigger a[i]] 0 <= i < n ==> a[i] == b[i],
    ensures
        users_in(a, id, n) == users_in(b, id, n),
    decreases n,
{
    if n > 0 {
        lemma_users_in_prefix(a, b, id, (n - 1) as nat);
        assert(a[n - 1] == b[n - 1]);
    }
}

proof fn lemma_users(references: Seq<Reference>, id: AssetId)
    ensures
        users_in(found_in(references), id, found_in(references).len()) == users_of(references, id),
    decreases references.len(),
{
    if references.len() > 0 {
        lemma_users(references.drop_last(), id);
        let rest = found_in(references.drop_last());
        lemma_users_in_prefix(found_in(references), rest, id, rest.len());
    }
}

proof fn lemma_some_user(found: Seq<Found>, id: AssetId, n: nat, k: int)
    requires
        0 <= k < n <= found.len(),
        found[k].id == id,
    ensures
        users_in(found, id, n).len() > 0,
    decreases n,
{
    if k < n - 1 {
        lemma_some_user(found, id, (n - 1) as nat, k);
    }
}

fn note(found: &mut Vec<Found>, entity: Entity, field: &'static str, text: &str)
    ensures
        final(found)@ == (match asset_id_of(text@) {
            Some(id) => old(found)@.push(Found { id, user: DependencyUse { entity, field } }),
            None => old(found)@,
        }),
{
    match parse_asset_id(text) {
        Some(id) => {
            found.push(Found { id, user: DependencyUse { entity, field } });
        },
        None => {},
    }
}

fn note_all(found: &mut Vec<Found>, group: Group, components: &Components, entity: Entity)
    ensures
        final(found)@ == old(found)@ + found_in(references(group, *components, entity)),
{
    reveal_with_fuel(found_in, 3);
    let ghost before = found@;
    let ghost named = references(group, *components, entity);
    match group {
        Group::Source => match &components.asset_source {
            Some(source) => match &source.id {
                Some(id) => {
                    note(found, entity, "AssetSource.path", id);
                    assert(named.drop_last() =~= Seq::empty());
                },
                None => {},
            },
            None => {},
        },
        Group::Mesh => match &components.mesh_source {
            Some(source) => {
                note(found, entity, "MeshSource.mesh", &source.mesh);
                note(found, entity, "MeshSource.material", &source.material);
                assert(named.drop_last().drop_last() =~= Seq::empty());
            },
            None => {},
        },
        Group::Sprite => match &components.sprite_source {
            Some(source) => {
                note(found, entity, "SpriteSource.atlas", &source.atlas);
                assert(named.drop_last() =~= Seq::empty());
            },
            None => {},
        },
        Group::Sound => match &components.audio_emitter {
            Some(emitter) => {
                note(found, entity, "AudioEmitter.sound", &emitter.sound);
                assert(named.drop_last() =~= Seq::empty());
            },
            None => {},
        },
        Group::Collider => match &components.collider {
            Some(collider) => match &collider.shape {
                ColliderShape::TriMesh { mesh } => {
                    note(found, entity, "Collider.mesh", mesh);
                    assert(named.drop_last() =~= Seq::empty());
                },
                _ => {},
            },
            None => {},
        },
    }
    assert(found@ =~= before + found_in(named));
}

spec fn reader(group: Group) -> spec_fn(Components, Entity) -> Seq<Reference> {
    match group {
        Group::Source => |c: Components, e: Entity| source_references(c, e),
        Group::Mesh => |c: Components, e: Entity| mesh_references(c, e),
        Group::Sprite => |c: Components, e: Entity| sprite_references(c, e),
        Group::Sound => |c: Components, e: Entity| sound_references(c, e),
        Group::Collider => |c: Components, e: Entity| collider_references(c, e),
    }
}

fn gather(found: &mut Vec<Found>, world: &SceneWorld, group: Group)
    requires
        world.wf(),
    ensures
        final(found)@ == old(found)@ + found_in(
            gathered(world@, reader(group), world@.order.len()),
        ),
{
    let ghost before = found@;
    let ghost of = reader(group);
    let count: usize = world.len();
    assert(before + found_in(gathered(world@, of, 0)) =~= before);
    for i in 0..count
        invariant
            world.wf(),
            count == world@.order.len(),
            of == reader(group),
            found@ == before + found_in(gathered(world@, of, i as nat)),
    {
        let entity: Entity = world.entity_at(i);
        let components = world.components_at(i);
        note_all(found, group, components, entity);
        proof {
            let now = of(*components, entity);
            assert(now == references(group, *components, entity));
            lemma_found_in_sum(gathered(world@, of, i as nat), now);
            assert(found@ =~= before + found_in(gathered(world@, of, (i + 1) as nat)));
        }
    }
}

struct IdText {
    id: AssetId,
    text: String,
}

impl Ordered for IdText {
    closed spec fn before(&self, other: &IdText) -> bool {
        text_before(self.text@, other.text@)
    }

    proof fn before_is_asymmetric(a: &IdText, b: &IdText) {
        lemma_text_order(a.text@, b.text@, b.text@);
    }

    proof fn not_before_is_transitive(a: &IdText, b: &IdText, c: &IdText) {
        lemma_text_order(a.text@, b.text@, c.text@);
        lemma_text_order(b.text@, c.text@, a.text@);
        lemma_text_order(c.text@, a.text@, b.text@);
    }

    fn precedes(&self, other: &IdText) -> (answer: bool) {
        is_text_before(&self.text, &other.text)
    }
}

spec fn canonical(ids: Seq<IdText>) -> bool {
    forall|i: int|
        #![trigger ids[i]]
        0 <= i < ids.len() ==> ids[i].text@ == hyphenated(ids[i].id.value) && asset_id_of(
            ids[i].text@,
        ) == Some(ids[i].id)
}

spec fn distinct(ids: Seq<IdText>) -> bool {
    forall|i: int, j: int|
        #![trigger ids[i], ids[j]]
        0 <= i < j < ids.len() ==> ids[i].id != ids[j].id
}

spec fn lists(ids: Seq<IdText>, id: AssetId) -> bool {
    exists|i: int| #![trigger ids[i]] 0 <= i < ids.len() && ids[i].id == id
}

spec fn occurs(found: Seq<Found>, id: AssetId) -> bool {
    exists|k: int| #![trigger found[k]] 0 <= k < found.len() && found[k].id == id
}

/// The identifiers found, each once, in the order of their texts.
fn sorted_ids(found: &Vec<Found>) -> (ids: Vec<IdText>)
    ensures
        canonical(ids@),
        forall|i: int, j: int|
            #![trigger ids@[i], ids@[j]]
            0 <= i < j < ids@.len() ==> text_before(ids@[i].text@, ids@[j].text@),
        forall|k: int| #![trigger found@[k]] 0 <= k < found@.len() ==> lists(ids@, found@[k].id),
        forall|i: int| #![trigger ids@[i]] 0 <= i < ids@.len() ==> occurs(found@, ids@[i].id),
{
    let mut ids: Vec<IdText> = Vec::new();
    for k in 0..found.len()
        invariant
            canonical(ids@),
            distinct(ids@),
            forall|j: int| #![trigger found@[j]] 0 <= j < k ==> lists(ids@, found@[j].id),
            forall|i: int| #![trigger ids@[i]] 0 <= i < ids@.len() ==> occurs(found@, ids@[i].id),
    {
        let id = found[k].id;
        let mut known: bool = false;
        for i in 0..ids.len()
            invariant
                known == exists|j: int| #![trigger ids@[j]] 0 <= j < i && ids@[j].id == id,
        {
            if ids[i].id == id {
                known = true;
            }
        }
        if !known {
            let ghost before = ids@;
            ids.push(IdText { id, text: id.text() });
            assert(ids@[before.len() as int].id == id);
            assert(found@[k as int].id == id);
            assert forall|j: int| #![trigger found@[j]] 0 <= j < k implies lists(
                ids@,
                found@[j].id,
            ) by {
                let i = choose|i: int|
                    #![trigger before[i]]
                    0 <= i < before.len() && before[i].id == found@[j].id;
                assert(ids@[i].id == found@[j].id);
            }
        }
    }
    let ghost unsorted = ids@;
    let ids = sort(ids);
    proof {
        lemma_sorting_keeps(unsorted, ids@);
        assert forall|i: int, j: int|
            #![trigger ids@[i], ids@[j]]
            0 <= i < j < ids@.len() implies text_before(ids@[i].text@, ids@[j].text@) by {
            assert(!ids@[j].before(&ids@[i]));
            lemma_text_order(ids@[i].text@, ids@[j].text@, ids@[j].text@);
            if ids@[i].text@ == ids@[j].text@ {
                lemma_canonical_text_is_unique(ids@[i].id, ids@[j].id);
            }
        }
    }
    ids
}

proof fn lemma_sorting_keeps(unsorted: Seq<IdText>, ids: Seq<IdText>)
    requires
        ids.to_multiset() == unsorted.to_multiset(),
        canonical(unsorted),
        distinct(unsorted),
    ensures
        canonical(ids),
        distinct(ids),
        forall|id: AssetId| lists(unsorted, id) ==> #[trigger] lists(ids, id),
        forall|i: int| #![trigger ids[i]] 0 <= i < ids.len() ==> unsorted.contains(ids[i]),
{
    broadcast use group_to_multiset_ensures;

    assert(unsorted.no_duplicates());
    unsorted.lemma_multiset_has_no_duplicates();
    ids.lemma_multiset_has_no_duplicates_conv();
    assert forall|i: int| #![trigger ids[i]] 0 <= i < ids.len() implies unsorted.contains(
        ids[i],
    ) by {
        assert(ids.to_multiset().contains(ids[i]));
        assert(unsorted.to_multiset().contains(ids[i]));
    }
    assert forall|i: int, j: int|
        #![trigger ids[i], ids[j]]
        0 <= i < j < ids.len() implies ids[i].id != ids[j].id by {
        let a = unsorted.index_of(ids[i]);
        let b = unsorted.index_of(ids[j]);
        assert(unsorted[a] == ids[i] && unsorted[b] == ids[j]);
        assert(ids[i] != ids[j]);
    }
    assert forall|i: int| #![trigger ids[i]] 0 <= i < ids.len() implies ids[i].text@ == hyphenated(
        ids[i].id.value,
    ) && asset_id_of(ids[i].text@) == Some(ids[i].id) by {
        let a = unsorted.index_of(ids[i]);
        assert(unsorted[a] == ids[i]);
    }
    assert forall|id: AssetId| lists(unsorted, id) implies #[trigger] lists(ids, id) by {
        let a = choose|a: int|
            #![trigger unsorted[a]]
            0 <= a < unsorted.len() && unsorted[a].id == id;
        assert(unsorted.to_multiset().contains(unsorted[a]));
        assert(ids.to_multiset().contains(unsorted[a]));
        assert(ids.contains(unsorted[a]));
        let i = ids.index_of(unsorted[a]);
        assert(ids[i].id == id);
    }
}

fn users(found: &Vec<Found>, id: AssetId) -> (users: Vec<DependencyUse>)
    ensures
        users@ == users_in(found@, id, found@.len()),
{
    let mut users: Vec<DependencyUse> = Vec::new();
    for k in 0..found.len()
        invariant
            users@ == users_in(found@, id, k as nat),
    {
        if found[k].id == id {
            users.push(found[k].user);
        }
    }
    users
}

/// Whether the entry of a report is right for some asset.
pub open spec fn is_reported(
    dependency: AssetDependency,
    references: Seq<Reference>,
    index: AssetIndex,
) -> bool {
    exists|id: AssetId| #[trigger] reported(dependency, id, references, index)
}

/// What the report says of the assets that the world refers to: one entry for each,
/// in the order of the identifiers' texts.
pub open spec fn report_is_right(
    report: Seq<AssetDependency>,
    world: WorldView,
    index: AssetIndex,
) -> bool {
    let named = all_references(world);
    &&& forall|i: int, j: int|
        #![trigger report[i], report[j]]
        0 <= i < j < report.len() ==> text_before(report[i].id@, report[j].id@)
    &&& forall|i: int|
        #![trigger report[i]]
        0 <= i < report.len() ==> is_reported(report[i], named, index)
    &&& forall|id: AssetId|
        #![trigger users_of(named, id)]
        users_of(named, id).len() > 0 ==> exists|i: int|
            #![trigger report[i]]
            0 <= i < report.len() && reported(report[i], id, named, index)
}

proof fn lemma_user_is_found(found: Seq<Found>, id: AssetId, n: nat)
    requires
        n <= found.len(),
        users_in(found, id, n).len() > 0,
    ensures
        exists|k: int| #![trigger found[k]] 0 <= k < n && found[k].id == id,
    decreases n,
{
    if n > 0 {
        if found[n - 1].id != id {
            lemma_user_is_found(found, id, (n - 1) as nat);
        }
    }
}

/// Reports every asset that a component in the world refers to, with all that
/// refers to it. A reference that is no identifier is left out.
pub fn scan(world: &SceneWorld, index: &AssetIndex) -> (report: Vec<AssetDependency>)
    requires
        world.wf(),
    ensures
        report_is_right(report@, world@, *index),
{
    let mut found: Vec<Found> = Vec::new();
    gather(&mut found, world, Group::Source);
    gather(&mut found, world, Group::Mesh);
    gather(&mut found, world, Group::Sprite);
    gather(&mut found, world, Group::Sound);
    gather(&mut found, world, Group::Collider);
    let ghost named = all_references(world@);
    proof {
        let n = world@.order.len();
        let a = gathered(world@, reader(Group::Source), n);
        let b = gathered(world@, reader(Group::Mesh), n);
        let c = gathered(world@, reader(Group::Sprite), n);
        let d = gathered(world@, reader(Group::Sound), n);
        let e = gathered(world@, reader(Group::Collider), n);
        lemma_found_in_sum(a, b);
        lemma_found_in_sum(a + b, c);
        lemma_found_in_sum(a + b + c, d);
        lemma_found_in_sum(a + b + c + d, e);
        assert(named == a + b + c + d + e);
        assert(found@ =~= found_in(named));
    }
    let ids = sorted_ids(&found);
    let mut report: Vec<AssetDependency> = Vec::new();
    for i in 0..ids.len()
        invariant
            found@ == found_in(named),
            canonical(ids@),
            forall|i: int| #![trigger ids@[i]] 0 <= i < ids@.len() ==> occurs(found@, ids@[i].id),
            report@.len() == i,
            forall|j: int|
                #![trigger report@[j]]
                0 <= j < i ==> report@[j].id@ == ids@[j].text@ && reported(
                    report@[j],
                    ids@[j].id,
                    named,
                    *index,
                ),
    {
        let id = ids[i].id;
        let users = users(&found, id);
        proof {
            lemma_users(named, id);
            assert(occurs(found@, ids@[i as int].id));
            let k = choose|k: int|
                #![trigger found@[k]]
                0 <= k < found@.len() && found@[k].id == id;
            lemma_some_user(found@, id, found@.len(), k);
        }
        let path: Option<String> = match index.path_for(id) {
            Some(path) => Some(path.to_owned()),
            None => None,
        };
        report.push(AssetDependency { id: ids[i].text.clone(), path, users });
    }
    proof {
        assert forall|i: int, j: int|
            #![trigger report@[i], report@[j]]
            0 <= i < j < report@.len() implies text_before(report@[i].id@, report@[j].id@) by {
            assert(text_before(ids@[i].text@, ids@[j].text@));
        }
        assert forall|i: int| #![trigger report@[i]] 0 <= i < report@.len() implies is_reported(
            report@[i],
            named,
            *index,
        ) by {
            assert(reported(report@[i], ids@[i].id, named, *index));
        }
        assert forall|id: AssetId|
            #![trigger users_of(named, id)]
            users_of(named, id).len() > 0 implies exists|i: int|
            #![trigger report@[i]]
            0 <= i < report@.len() && reported(report@[i], id, named, *index) by {
            lemma_users(named, id);
            lemma_user_is_found(found@, id, found@.len());
            let k = choose|k: int|
                #![trigger found@[k]]
                0 <= k < found@.len() && found@[k].id == id;
            assert(lists(ids@, found@[k].id));
            let i = choose|i: int| #![trigger ids@[i]] 0 <= i < ids@.len() && ids@[i].id == id;
            assert(reported(report@[i], id, named, *index));
        }
    }
    report
}

/// The entries of a report whose assets have no file.
pub open spec fn missing_among(report: Seq<AssetDependency>) -> Seq<AssetDependency> {
    report.filter(|dependency: AssetDependency| dependency.path is None)
}

/// Reports the assets that the world refers to and for which there is no file.
pub fn missing(world: &SceneWorld, index: &AssetIndex) -> (report: Vec<AssetDependency>)
    requires
        world.wf(),
    ensures
        exists|all: Seq<AssetDependency>| #[trigger]
            report_is_right(all, world@, *index) && report@ == missing_among(all),
{
    let mut all = scan(world, index);
    let ghost full = all@;
    let mut report: Vec<AssetDependency> = Vec::new();
    let ghost keep = |dependency: AssetDependency| dependency.path is None;
    proof {
        reveal(Seq::filter);
        assert(full.skip(full.len() as int) =~= Seq::empty());
    }
    let mut reversed: Vec<AssetDependency> = Vec::new();
    while all.len() > 0
        invariant
            all@ + reversed@.reverse() == full,
        decreases all.len(),
    {
        let ghost before = all@;
        let ghost moved = reversed@;
        match all.pop() {
            Some(last) => {
                reversed.push(last);
                assert(all@ + reversed@.reverse() =~= before + moved.reverse());
            },
            None => {},
        }
    }
    assert(full =~= reversed@.reverse());
    while reversed.len() > 0
        invariant
            keep == (|dependency: AssetDependency| dependency.path is None),
            reversed@.len() <= full.len(),
            reversed@.reverse() == full.skip(full.len() - reversed@.len()),
            report@ == full.take(full.len() - reversed@.len()).filter(keep),
        decreases reversed.len(),
    {
        let ghost at = full.len() - reversed@.len();
        let ghost before = reversed@;
        match reversed.pop() {
            Some(first) => {
                proof {
                    assert(first == before.reverse()[0]);
                    assert(first == full[at]);
                    assert(full.take(at + 1) =~= full.take(at).push(first));
                    crate::ecs::world::lemma_filter_push(full.take(at), first, keep);
                    assert(reversed@.reverse() =~= full.skip(at + 1)) by {
                        assert(reversed@.reverse() =~= before.reverse().skip(1));
                    }
                }
                if first.is_missing() {
                    report.push(first);
                }
            },
            None => {},
        }
    }
    assert(full.take(full.len() as int) =~= full);
    report
}

/// Whether a component of the entity names an asset by the text, in the field.
pub open spec fn names_asset(own: Components, text: Seq<char>, field: &'static str) -> bool {
    ||| own.asset_source is Some && own.asset_source->0.id is Some && text
        == (own.asset_source->0.id->0)@ && field == "AssetSource.path"
    ||| own.mesh_source is Some && text == own.mesh_source->0.mesh@ && field == "MeshSource.mesh"
    ||| own.mesh_source is Some && text == own.mesh_source->0.material@ && field
        == "MeshSource.material"
    ||| own.sprite_source is Some && text == own.sprite_source->0.atlas@ && field
        == "SpriteSource.atlas"
    ||| own.audio_emitter is Some && text == own.audio_emitter->0.sound@ && field
        == "AudioEmitter.sound"
    ||| own.collider is Some && own.collider->0.shape is TriMesh && text
        == own.collider->0.shape->mesh@ && field == "Collider.mesh"
}

/// Every asset that a component of the scene names is reported, under its id, with the
/// entity and the field among its users, and with its path if the project has it.
pub proof fn law_every_named_asset_is_reported(
    report: Seq<AssetDependency>,
    world: WorldView,
    index: AssetIndex,
    i: int,
    text: Seq<char>,
    field: &'static str,
    id: AssetId,
) -> (k: int)
    requires
        report_is_right(report, world, index),
        0 <= i < world.order.len(),
        names_asset(world.table[world.order[i]], text, field),
        asset_id_of(text) == Some(id),
    ensures
        0 <= k < report.len(),
        report[k].id@ == hyphenated(id.value),
        report[k].users@.contains(DependencyUse { entity: world.order[i], field }),
        report[k].path is Some <==> index.paths().contains_key(id),
        report[k].path is Some ==> (report[k].path->0)@ == index.paths()[id],
{
    let user = DependencyUse { entity: world.order[i], field };
    let named = all_references(world);
    let reference = Reference { text, user };
    lemma_noted(world, i, text, field);
    assert(named.contains(reference));
    let at = named.index_of(reference);
    lemma_users_of_has(named, id, at);
    let k = choose|k: int|
        #![trigger report[k]]
        0 <= k < report.len() && reported(report[k], id, named, index);
    k
}

/// Whoever is reported as a user of an asset is an entity of the scene whose component names
/// that asset in that field.
pub proof fn law_every_user_names_the_asset(
    report: Seq<AssetDependency>,
    world: WorldView,
    index: AssetIndex,
    k: int,
    u: int,
) -> (found: (int, Seq<char>, AssetId))
    requires
        report_is_right(report, world, index),
        0 <= k < report.len(),
        0 <= u < report[k].users@.len(),
    ensures
        0 <= found.0 < world.order.len(),
        report[k].users@[u].entity == world.order[found.0],
        names_asset(world.table[world.order[found.0]], found.1, report[k].users@[u].field),
        asset_id_of(found.1) == Some(found.2),
        report[k].id@ == hyphenated(found.2.value),
        report[k].path is Some <==> index.paths().contains_key(found.2),
        report[k].path is Some ==> (report[k].path->0)@ == index.paths()[found.2],
{
    let named = all_references(world);
    assert(is_reported(report[k], named, index));
    let id = choose|id: AssetId| #[trigger] reported(report[k], id, named, index);
    let at = lemma_user_of(named, id, u);
    let i = lemma_reference_of(world, named[at]);
    (i, named[at].text, id)
}

proof fn lemma_users_of_has(references: Seq<Reference>, id: AssetId, at: int)
    requires
        0 <= at < references.len(),
        asset_id_of(references[at].text) == Some(id),
    ensures
        users_of(references, id).contains(references[at].user),
        users_of(references, id).len() > 0,
    decreases references.len(),
{
    let rest = references.drop_last();
    let all = users_of(references, id);
    let front = users_of(rest, id);
    if at < rest.len() {
        lemma_users_of_has(rest, id, at);
        let k = front.index_of(references[at].user);
        assert(all[k] == front[k]);
    } else {
        assert(all[front.len() as int] == references[at].user);
    }
}

proof fn lemma_user_of(references: Seq<Reference>, id: AssetId, u: int) -> (at: int)
    requires
        0 <= u < users_of(references, id).len(),
    ensures
        0 <= at < references.len(),
        references[at].user == users_of(references, id)[u],
        asset_id_of(references[at].text) == Some(id),
    decreases references.len(),
{
    let rest = references.drop_last();
    if u < users_of(rest, id).len() {
        lemma_user_of(rest, id, u)
    } else {
        references.len() - 1
    }
}

proof fn lemma_noted(world: WorldView, i: int, text: Seq<char>, field: &'static str)
    requires
        0 <= i < world.order.len(),
        names_asset(world.table[world.order[i]], text, field),
    ensures
        all_references(world).contains(
            Reference { text, user: DependencyUse { entity: world.order[i], field } },
        ),
{
    let e = world.order[i];
    let own = world.table[e];
    let r = Reference { text, user: DependencyUse { entity: e, field } };
    if own.asset_source is Some && own.asset_source->0.id is Some && text
        == (own.asset_source->0.id->0)@ && field == "AssetSource.path" {
        assert(source_references(own, e)[0] == r);
    }
    if own.mesh_source is Some && text == own.mesh_source->0.mesh@ && field
        == "MeshSource.mesh" {
        assert(mesh_references(own, e)[0] == r);
    }
    if own.mesh_source is Some && text == own.mesh_source->0.material@ && field
        == "MeshSource.material" {
        assert(mesh_references(own, e)[1] == r);
    }
    if own.sprite_source is Some && text == own.sprite_source->0.atlas@ && field
        == "SpriteSource.atlas" {
        assert(sprite_references(own, e)[0] == r);
    }
    if own.audio_emitter is Some && text == own.audio_emitter->0.sound@ && field
        == "AudioEmitter.sound" {
        assert(sound_references(own, e)[0] == r);
    }
    if own.collider is Some && own.collider->0.shape is TriMesh && text
        == own.collider->0.shape->mesh@ && field == "Collider.mesh" {
        assert(collider_references(own, e)[0] == r);
    }
    lemma_all_references(world, r);
    assert(world.order[i] == e);
}

proof fn lemma_reference_of(world: WorldView, reference: Reference) -> (i: int)
    requires
        all_references(world).contains(reference),
    ensures
        0 <= i < world.order.len(),
        reference.user.entity == world.order[i],
        names_asset(world.table[world.order[i]], reference.text, reference.user.field),
{
    let at = lemma_all_references(world, reference);
    let i = at.0;
    let e = world.order[i];
    let own = world.table[e];
    assert(at.1 is Source ==> source_references(own, e).contains(reference));
    i
}

proof fn lemma_all_references(world: WorldView, reference: Reference) -> (at: (int, Group))
    ensures
        all_references(world).contains(reference) ==> 0 <= at.0 < world.order.len() && references(
            at.1,
            world.table[world.order[at.0]],
            world.order[at.0],
        ).contains(reference),
        forall|i: int|
            0 <= i < world.order.len() && (references(
                Group::Source,
                world.table[#[trigger] world.order[i]],
                world.order[i],
            ).contains(reference) || references(
                Group::Mesh,
                world.table[world.order[i]],
                world.order[i],
            ).contains(reference) || references(
                Group::Sprite,
                world.table[world.order[i]],
                world.order[i],
            ).contains(reference) || references(
                Group::Sound,
                world.table[world.order[i]],
                world.order[i],
            ).contains(reference) || references(
                Group::Collider,
                world.table[world.order[i]],
                world.order[i],
            ).contains(reference)) ==> all_references(world).contains(reference),
{
    let n = world.order.len();
    let a = gathered(world, |c: Components, e: Entity| source_references(c, e), n);
    let b = gathered(world, |c: Components, e: Entity| mesh_references(c, e), n);
    let c = gathered(world, |c: Components, e: Entity| sprite_references(c, e), n);
    let d = gathered(world, |c: Components, e: Entity| sound_references(c, e), n);
    let f = gathered(world, |c: Components, e: Entity| collider_references(c, e), n);
    lemma_in_sum(a + b + c + d, f, reference);
    lemma_in_sum(a + b + c, d, reference);
    lemma_in_sum(a + b, c, reference);
    lemma_in_sum(a, b, reference);
    let i = lemma_gathered(
        world,
        |c: Components, e: Entity| source_references(c, e),
        n,
        reference,
    );
    let j = lemma_gathered(world, |c: Components, e: Entity| mesh_references(c, e), n, reference);
    let k = lemma_gathered(
        world,
        |c: Components, e: Entity| sprite_references(c, e),
        n,
        reference,
    );
    let l = lemma_gathered(world, |c: Components, e: Entity| sound_references(c, e), n, reference);
    let m = lemma_gathered(
        world,
        |c: Components, e: Entity| collider_references(c, e),
        n,
        reference,
    );
    if a.contains(reference) {
        (i, Group::Source)
    } else if b.contains(reference) {
        (j, Group::Mesh)
    } else if c.contains(reference) {
        (k, Group::Sprite)
    } else if d.contains(reference) {
        (l, Group::Sound)
    } else {
        (m, Group::Collider)
    }
}

proof fn lemma_gathered(
    world: WorldView,
    of: spec_fn(Components, Entity) -> Seq<Reference>,
    n: nat,
    reference: Reference,
) -> (i: int)
    requires
        n <= world.order.len(),
    ensures
        gathered(world, of, n).contains(reference) ==> 0 <= i < n && of(
            world.table[world.order[i]],
            world.order[i],
        ).contains(reference),
        forall|k: int|
            0 <= k < n && of(world.table[#[trigger] world.order[k]], world.order[k]).contains(
                reference,
            ) ==> gathered(world, of, n).contains(reference),
    decreases n,
{
    if n == 0 {
        0
    } else {
        let i = lemma_gathered(world, of, (n - 1) as nat, reference);
        let front = gathered(world, of, (n - 1) as nat);
        lemma_in_sum(front, of(world.table[world.order[n - 1]], world.order[n - 1]), reference);
        if front.contains(reference) {
            i
        } else {
            n - 1
        }
    }
}

proof fn lemma_in_sum(a: Seq<Reference>, b: Seq<Reference>, x: Reference)
    ensures
        (a + b).contains(x) <==> a.contains(x) || b.contains(x),
{
    if a.contains(x) {
        assert((a + b)[a.index_of(x)] == x);
    }
    if b.contains(x) {
        assert((a + b)[a.len() + b.index_of(x)] == x);
    }
    if (a + b).contains(x) {
        let k = (a + b).index_of(x);
        assert(if k < a.len() {
            a[k] == x
        } else {
            b[k - a.len()] == x
        });
    }
}

/// What is missing of a report are the assets without a path, in the order of the report.
pub proof fn law_missing_assets_have_no_path(
    report: Seq<AssetDependency>,
    dependency: AssetDependency,
)
    ensures
        missing_among(report).contains(dependency) <==> report.contains(dependency)
            && dependency.path is None,
        dependency.path is None ==> missing_among(report.push(dependency)) == missing_among(
            report,
        ).push(dependency),
        dependency.path is Some ==> missing_among(report.push(dependency)) == missing_among(report),
{
    let keep = |d: AssetDependency| d.path is None;
    lemma_filter(report, keep);
    lemma_filter_push(report, dependency, keep);
}

} // verus!
