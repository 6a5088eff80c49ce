//! Turning a scene's asset references into things that can be drawn.
//!
//! A mesh is uploaded once and shared by every entity that refers to it. What the
//! importer holds, what the renderer still keeps and how a mesh is uploaded or
//! shared is the host's; which of these is done for an entity is decided here.

use std::collections::HashMap;
use vstd::prelude::*;

use crate::asset_id::{asset_id_of, hyphenated, parse_asset_id, AssetId};
use crate::ecs::components::{Components, RenderHandles, Sprite, SpriteSource, UvRect, Vec2};
use crate::ecs::entities::Entity;
use crate::ecs::scalar::{one, zero, Scalar};
use crate::ecs::world::{lemma_filter, lemma_filter_push, SceneWorld, WorldView};
use crate::text::join3;

verus! {

broadcast use vstd::std_specs::hash::group_hash_axioms;

/// What an asset was decoded to.
#[derive(Debug, Clone, Copy, PartialEq, Eq, Structural)]
pub enum DecodedKind {
    /// A model.
    Mesh {
        /// How many meshes it holds.
        primitives: usize,
    },
    /// An image.
    Texture,
    /// A sound.
    Audio,
}

/// Why a reference cannot be resolved.
#[derive(Debug, PartialEq, Eq)]
pub enum ResolveError {
    /// It is no identifier.
    BadId {
        /// The reference.
        text: String,
    },
    /// The asset is no model.
    NotAMesh {
        /// The asset.
        id: AssetId,
    },
    /// The model holds no mesh.
    NoPrimitives {
        /// The asset.
        id: AssetId,
    },
    /// The asset is no image.
    NotATexture {
        /// The asset.
        id: AssetId,
    },
    /// The renderer refused the mesh.
    Upload {
        /// The renderer's message.
        message: String,
    },
}

impl ResolveError {
    /// The error in words; for what is no identifier, the text itself.
    pub open spec fn text(self) -> Seq<char> {
        match self {
            ResolveError::BadId { text } => text@,
            ResolveError::NotAMesh { id } => "asset "@ + hyphenated(id.value)
                + " is not a mesh (a scene entity referenced it as one)"@,
            ResolveError::NoPrimitives { id } => "glTF asset "@ + hyphenated(id.value)
                + " contains no mesh primitives"@,
            ResolveError::NotATexture { id } => "asset "@ + hyphenated(id.value)
                + " is not a texture (a sprite referenced it as an atlas)"@,
            ResolveError::Upload { message } => message@,
        }
    }

    /// The error in words; for what is no identifier, the text itself.
    pub fn message(&self) -> (text: String)
        ensures
            text@ == self.text(),
    {
        match self {
            ResolveError::BadId { text } => text.clone(),
            ResolveError::NotAMesh { id } => join3(
                "asset ",
                &id.text(),
                " is not a mesh (a scene entity referenced it as one)",
            ),
            ResolveError::NoPrimitives { id } => join3(
                "glTF asset ",
                &id.text(),
                " contains no mesh primitives",
            ),
            ResolveError::NotATexture { id } => join3(
                "asset ",
                &id.text(),
                " is not a texture (a sprite referenced it as an atlas)",
            ),
            ResolveError::Upload { message } => message.clone(),
        }
    }
}

/// Whether the error is what a reference gives that is no identifier.
pub open spec fn bad_id(error: ResolveError, reference: Seq<char>) -> bool {
    error matches ResolveError::BadId { text } && text@ == reference
}

/// Reads a reference.
pub fn asset_id(reference: &str) -> (id: Result<AssetId, ResolveError>)
    ensures
        match id {
            Ok(id) => asset_id_of(reference@) == Some(id),
            Err(error) => asset_id_of(reference@) is None && bad_id(error, reference@),
        },
{
    match parse_asset_id(reference) {
        Some(id) => Ok(id),
        None => Err(ResolveError::BadId { text: reference.to_owned() }),
    }
}

/// What is to be done for a reference to a mesh.
#[derive(Debug, Clone, Copy, PartialEq, Eq, Structural)]
pub enum MeshAction {
    /// Use an earlier upload once more.
    Share(RenderHandles),
    /// Nothing yet: the asset is not decoded.
    Wait,
    /// Upload the model's first mesh.
    Upload(AssetId),
}

/// What is to be done for a reference to the asset. `uploaded` is an earlier upload
/// and `kept` says whether the renderer still keeps it; `decoded` is what the
/// importer holds.
pub open spec fn mesh_action(
    id: AssetId,
    uploaded: Option<RenderHandles>,
    kept: bool,
    decoded: Option<DecodedKind>,
) -> Result<MeshAction, ResolveError> {
    if uploaded is Some && kept {
        Ok(MeshAction::Share(uploaded->0))
    } else {
        match decoded {
            None => Ok(MeshAction::Wait),
            Some(DecodedKind::Mesh { primitives }) => if primitives == 0 {
                Err(ResolveError::NoPrimitives { id })
            } else {
                Ok(MeshAction::Upload(id))
            },
            Some(_) => Err(ResolveError::NotAMesh { id }),
        }
    }
}

/// The meshes uploaded while a scene is resolved.
pub struct EditorResolver {
    uploaded: HashMap<u128, RenderHandles>,
}

/// The entry of a map, if there is one.
pub open spec fn entry_of<V>(map: Map<u128, V>, id: AssetId) -> Option<V> {
    if map.contains_key(id.value) {
        Some(map[id.value])
    } else {
        None
    }
}

impl EditorResolver {
    /// The handles of the uploaded meshes, by the value of the asset's identifier.
    pub closed spec fn shared(&self) -> Map<u128, RenderHandles> {
        self.uploaded@
    }

    /// Nothing uploaded yet.
    pub fn new() -> (resolver: EditorResolver)
        ensures
            resolver.shared() == Map::<u128, RenderHandles>::empty(),
    {
        EditorResolver { uploaded: HashMap::new() }
    }

    /// How many meshes were uploaded.
    pub fn uploaded_count(&self) -> (count: usize)
        ensures
            count == self.shared().dom().len(),
    {
        self.uploaded.len()
    }

    /// The earlier upload of the asset.
    pub fn upload_of(&self, id: AssetId) -> (handles: Option<RenderHandles>)
        ensures
            handles == entry_of(self.shared(), id),
    {
        match self.uploaded.get(&id.value) {
            Some(handles) => Some(*handles),
            None => None,
        }
    }

    /// Resolves a reference to a mesh: an earlier upload is shared while the
    /// renderer keeps it; an asset that is not decoded yet is no failure; a model's
    /// first mesh is uploaded.
    pub fn resolve_mesh(
        &self,
        id: AssetId,
        kept: bool,
        decoded: Option<DecodedKind>,
    ) -> (action: Result<MeshAction, ResolveError>)
        ensures
            action == mesh_action(id, entry_of(self.shared(), id), kept, decoded),
    {
        match self.upload_of(id) {
            Some(handles) => {
                if kept {
                    return Ok(MeshAction::Share(handles));
                }
            },
            None => {},
        }
        match decoded {
            None => Ok(MeshAction::Wait),
            Some(DecodedKind::Mesh { primitives }) => if primitives == 0 {
                Err(ResolveError::NoPrimitives { id })
            } else {
                Ok(MeshAction::Upload(id))
            },
            Some(DecodedKind::Texture) | Some(DecodedKind::Audio) => Err(
                ResolveError::NotAMesh { id },
            ),
        }
    }

    /// Remembers an upload, so that the next entity shares it.
    pub fn remember(&mut self, id: AssetId, handles: RenderHandles)
        ensures
            final(self).shared() == old(self).shared().insert(id.value, handles),
    {
        self.uploaded.insert(id.value, handles);
    }
}

/// A mesh is uploaded once: after an upload has been remembered, every reference to
/// the asset shares it for as long as the renderer keeps it, whatever else is
/// uploaded in between.
pub proof fn law_upload_is_shared(
    shared: Map<u128, RenderHandles>,
    id: AssetId,
    handles: RenderHandles,
    other: AssetId,
    others: RenderHandles,
    decoded: Option<DecodedKind>,
)
    requires
        other != id,
    ensures
        mesh_action(id, entry_of(shared.insert(id.value, handles), id), true, decoded) == Ok::<
            MeshAction,
            ResolveError,
        >(MeshAction::Share(handles)),
        entry_of(shared.insert(id.value, handles).insert(other.value, others), id) == Some(handles),
{
}

/// The whole of an atlas.
pub open spec fn whole_atlas() -> UvRect {
    UvRect { min: Vec2 { x: zero(), y: zero() }, max: Vec2 { x: one(), y: one() } }
}

/// Resolves a reference to an atlas; `decoded` is what the importer holds for it.
/// Regions are not laid out, so every sprite samples the whole texture.
pub fn resolve_sprite_uv(id: AssetId, decoded: Option<DecodedKind>) -> (uv: Result<
    Option<UvRect>,
    ResolveError,
>)
    ensures
        uv == atlas_result(id, decoded),
{
    match decoded {
        None => Ok(None),
        Some(DecodedKind::Texture) => {
            let (o, i) = (Scalar::zero(), Scalar::one());
            Ok(Some(UvRect { min: Vec2 { x: o, y: o }, max: Vec2 { x: i, y: i } }))
        },
        Some(DecodedKind::Mesh { .. }) | Some(DecodedKind::Audio) => Err(
            ResolveError::NotATexture { id },
        ),
    }
}

/// What one pass over the unresolved references did.
#[derive(Debug, Clone, Copy, PartialEq, Eq, Structural)]
pub struct ResolveReport {
    /// How many can be drawn now.
    pub resolved: usize,
    /// How many wait for their assets.
    pub pending: usize,
    /// How many failed.
    pub failed: usize,
}

impl Default for ResolveReport {
    fn default() -> (report: ResolveReport)
        ensures
            report == (ResolveReport { resolved: 0, pending: 0, failed: 0 }),
    {
        ResolveReport { resolved: 0, pending: 0, failed: 0 }
    }
}

impl ResolveReport {
    /// Whether the pass changed anything that has to be drawn again.
    pub fn changed(&self) -> (answer: bool)
        ensures
            answer == (self.resolved > 0),
    {
        self.resolved > 0
    }
}

/// Whether the entity refers to a mesh and has none yet.
pub open spec fn unresolved(world: WorldView, entity: Entity) -> bool {
    world.table[entity].mesh_source is Some && world.table[entity].mesh_renderer is None
}

/// Whether the entity refers to a sprite and has none yet.
pub open spec fn lacks_sprite(world: WorldView, entity: Entity) -> bool {
    world.table[entity].sprite_source is Some && world.table[entity].sprite is None
}

/// The entities that refer to a mesh and have none yet, in order.
pub open spec fn unresolved_meshes(world: WorldView) -> Seq<Entity> {
    world.order.filter(|e: Entity| unresolved(world, e))
}

/// The entities that refer to a sprite and have none yet, in order.
pub open spec fn unresolved_sprites(world: WorldView) -> Seq<Entity> {
    world.order.filter(|e: Entity| lacks_sprite(world, e))
}

/// The entities that refer to a mesh and have none yet, in order.
pub fn pending_meshes(world: &SceneWorld) -> (entities: Vec<Entity>)
    requires
        world.wf(),
    ensures
        entities@ == unresolved_meshes(world@),
{
    let ghost keep = |e: Entity| unresolved(world@, e);
    let mut entities: Vec<Entity> = Vec::new();
    let count: usize = world.len();
    proof {
        reveal(Seq::filter);
        assert(world@.order.take(0) =~= Seq::empty());
    }
    for i in 0..count
        invariant
            world.wf(),
            count == world@.order.len(),
            keep == (|e: Entity| unresolved(world@, e)),
            entities@ == world@.order.take(i as int).filter(keep),
    {
        let entity: Entity = world.entity_at(i);
        proof {
            assert(world@.order.take(i + 1) =~= world@.order.take(i as int).push(entity));
            lemma_filter_push(world@.order.take(i as int), entity, keep);
        }
        let components = world.components_at(i);
        if components.mesh_source.is_some() && components.mesh_renderer.is_none() {
            entities.push(entity);
        }
    }
    assert(world@.order.take(count as int) =~= world@.order);
    entities
}

/// The entities that refer to a sprite and have none yet, in order.
pub fn pending_sprites(world: &SceneWorld) -> (entities: Vec<Entity>)
    requires
        world.wf(),
    ensures
        entities@ == unresolved_sprites(world@),
{
    let ghost keep = |e: Entity| lacks_sprite(world@, e);
    let mut entities: Vec<Entity> = Vec::new();
    let count: usize = world.len();
    proof {
        reveal(Seq::filter);
        assert(world@.order.take(0) =~= Seq::empty());
    }
    for i in 0..count
        invariant
            world.wf(),
            count == world@.order.len(),
            keep == (|e: Entity| lacks_sprite(world@, e)),
            entities@ == world@.order.take(i as int).filter(keep),
    {
        let entity: Entity = world.entity_at(i);
        proof {
            assert(world@.order.take(i + 1) =~= world@.order.take(i as int).push(entity));
            lemma_filter_push(world@.order.take(i as int), entity, keep);
        }
        let components = world.components_at(i);
        if components.sprite_source.is_some() && components.sprite.is_none() {
            entities.push(entity);
        }
    }
    assert(world@.order.take(count as int) =~= world@.order);
    entities
}

/// What came of one reference to a mesh.
pub type MeshResult = Result<Option<RenderHandles>, ResolveError>;

/// What came of one reference to a sprite.
pub type SpriteResult = Result<Option<UvRect>, ResolveError>;

/// What came of a reference.
#[derive(Debug, Clone, Copy, PartialEq, Eq, Structural)]
pub enum Outcome {
    /// It can be drawn now.
    Resolved,
    /// It waits for its asset.
    Pending,
    /// It failed.
    Failed,
}

/// What came of a reference, in short.
pub open spec fn outcome_of<T>(result: Result<Option<T>, ResolveError>) -> Outcome {
    match result {
        Ok(Some(_)) => Outcome::Resolved,
        Ok(None) => Outcome::Pending,
        Err(_) => Outcome::Failed,
    }
}

/// How many of the results came out in the given way.
pub open spec fn count_of<T>(results: Seq<Result<Option<T>, ResolveError>>, outcome: Outcome) -> nat
    decreases results.len(),
{
    if results.len() == 0 {
        0
    } else {
        count_of(results.drop_last(), outcome) + (if outcome_of(results.last()) == outcome {
            1nat
        } else {
            0nat
        })
    }
}

/// Whether the report counts the results.
pub open spec fn reports<T>(
    report: ResolveReport,
    results: Seq<Result<Option<T>, ResolveError>>,
) -> bool {
    &&& report.resolved == count_of(results, Outcome::Resolved)
    &&& report.pending == count_of(results, Outcome::Pending)
    &&& report.failed == count_of(results, Outcome::Failed)
}

/// The world after the first `n` results for meshes were applied: what was resolved can
/// be drawn, and everything else is as it was.
pub open spec fn applied(
    world: WorldView,
    entities: Seq<Entity>,
    results: Seq<MeshResult>,
    n: nat,
) -> WorldView
    decreases n,
{
    if n == 0 {
        world
    } else {
        let rest = applied(world, entities, results, (n - 1) as nat);
        match results[n - 1] {
            Ok(Some(handles)) => rest.updated(
                entities[n - 1],
                Components { mesh_renderer: Some(handles), ..rest.table[entities[n - 1]] },
            ),
            _ => rest,
        }
    }
}

/// The sprite that a reference stands for, with the part of the atlas it shows.
pub open spec fn sprite_from(source: SpriteSource, uv: UvRect) -> Sprite {
    Sprite { size: source.size, uv, color: source.color, z_order: source.z_order }
}

/// The world after the first `n` results for sprites were applied.
pub open spec fn shown(
    world: WorldView,
    entities: Seq<Entity>,
    results: Seq<SpriteResult>,
    n: nat,
) -> WorldView
    decreases n,
{
    if n == 0 {
        world
    } else {
        let rest = shown(world, entities, results, (n - 1) as nat);
        let components = rest.table[entities[n - 1]];
        match results[n - 1] {
            Ok(Some(uv)) => rest.updated(
                entities[n - 1],
                Components {
                    sprite: Some(sprite_from(components.sprite_source->0, uv)),
                    ..components
                },
            ),
            _ => rest,
        }
    }
}

/// Whether the host was asked what it has to be asked: for an earlier upload, whether it
/// gives a further share of it, and else what the asset was decoded to.
pub open spec fn consulted<
    D: Fn(AssetId) -> Option<DecodedKind>,
    S: Fn(RenderHandles) -> bool,
>(
    id: AssetId,
    earlier: Option<RenderHandles>,
    kept: bool,
    found: Option<DecodedKind>,
    decoded: &D,
    share: &S,
) -> bool {
    &&& match earlier {
        Some(handles) => share.ensures((handles,), kept),
        None => !kept,
    }
    &&& if kept {
        found is None
    } else {
        decoded.ensures((id,), found)
    }
}

/// Whether a reference to a mesh was resolved as it is, with the uploads known before
/// and after.
pub open spec fn mesh_step<
    D: Fn(AssetId) -> Option<DecodedKind>,
    S: Fn(RenderHandles) -> bool,
    U: Fn(AssetId) -> Result<RenderHandles, String>,
>(
    before: Map<u128, RenderHandles>,
    after: Map<u128, RenderHandles>,
    reference: Seq<char>,
    result: MeshResult,
    decoded: &D,
    share: &S,
    upload: &U,
) -> bool {
    match asset_id_of(reference) {
        None => after == before && (result matches Err(error) && bad_id(error, reference)),
        Some(id) => exists|kept: bool, found: Option<DecodedKind>|
            {
                &&& #[trigger] consulted(id, entry_of(before, id), kept, found, decoded, share)
                &&& match mesh_action(id, entry_of(before, id), kept, found) {
                    Err(error) => result == Err::<Option<RenderHandles>, ResolveError>(error)
                        && after == before,
                    Ok(MeshAction::Share(handles)) => result == Ok::<
                        Option<RenderHandles>,
                        ResolveError,
                    >(Some(handles)) && after == before,
                    Ok(MeshAction::Wait) => result == Ok::<Option<RenderHandles>, ResolveError>(
                        None,
                    ) && after == before,
                    Ok(MeshAction::Upload(_)) => match result {
                        Ok(Some(handles)) => upload.ensures(
                            (id,),
                            Ok::<RenderHandles, String>(handles),
                        ) && after == before.insert(id.value, handles),
                        Ok(None) => false,
                        Err(error) => (error matches ResolveError::Upload { message }
                            && upload.ensures((id,), Err::<RenderHandles, String>(message)))
                            && after == before,
                    },
                }
            },
    }
}

impl EditorResolver {
    /// Resolves one reference to a mesh. `decoded` says what the importer holds for an
    /// asset, `share` takes a further share of an upload if the renderer still keeps it,
    /// and `upload` uploads a model's first mesh.
    pub fn resolve<
        D: Fn(AssetId) -> Option<DecodedKind>,
        S: Fn(RenderHandles) -> bool,
        U: Fn(AssetId) -> Result<RenderHandles, String>,
    >(&mut self, reference: &str, decoded: &D, share: &S, upload: &U) -> (result: MeshResult)
        requires
            forall|id: AssetId| decoded.requires((id,)),
            forall|handles: RenderHandles| share.requires((handles,)),
            forall|id: AssetId| upload.requires((id,)),
        ensures
            mesh_step(
                old(self).shared(),
                final(self).shared(),
                reference@,
                result,
                decoded,
                share,
                upload,
            ),
    {
        let ghost before = self.shared();
        let id = match asset_id(reference) {
            Ok(id) => id,
            Err(error) => {
                return Err(error);
            },
        };
        let kept: bool = match self.upload_of(id) {
            Some(handles) => share(handles),
            None => false,
        };
        let found: Option<DecodedKind> = if kept {
            None
        } else {
            decoded(id)
        };
        assert(consulted(id, entry_of(before, id), kept, found, decoded, share));
        match self.resolve_mesh(id, kept, found) {
            Ok(MeshAction::Share(handles)) => Ok(Some(handles)),
            Ok(MeshAction::Wait) => Ok(None),
            Ok(MeshAction::Upload(_)) => match upload(id) {
                Ok(handles) => {
                    self.remember(id, handles);
                    Ok(Some(handles))
                },
                Err(message) => Err(ResolveError::Upload { message }),
            },
            Err(error) => Err(error),
        }
    }
}

/// Whether the references of the entities were resolved one after the other, beginning
/// with nothing uploaded.
pub open spec fn mesh_run<
    D: Fn(AssetId) -> Option<DecodedKind>,
    S: Fn(RenderHandles) -> bool,
    U: Fn(AssetId) -> Result<RenderHandles, String>,
>(
    world: WorldView,
    entities: Seq<Entity>,
    uploads: Seq<Map<u128, RenderHandles>>,
    results: Seq<MeshResult>,
    decoded: &D,
    share: &S,
    upload: &U,
) -> bool {
    &&& results.len() == entities.len()
    &&& uploads.len() == entities.len() + 1
    &&& uploads[0] == Map::<u128, RenderHandles>::empty()
    &&& forall|i: int|
        #![trigger results[i]]
        0 <= i < results.len() ==> mesh_step(
            uploads[i],
            uploads[i + 1],
            world.table[entities[i]].mesh_source->0.mesh@,
            results[i],
            decoded,
            share,
            upload,
        )
}

/// What a reference to an atlas gives, with what the importer holds for it.
pub open spec fn atlas_result(id: AssetId, found: Option<DecodedKind>) -> SpriteResult {
    match found {
        None => Ok(None),
        Some(DecodedKind::Texture) => Ok(Some(whole_atlas())),
        Some(_) => Err(ResolveError::NotATexture { id }),
    }
}

/// Whether a reference to a sprite was resolved as it is.
pub open spec fn sprite_step<D: Fn(AssetId) -> Option<DecodedKind>>(
    reference: Seq<char>,
    result: SpriteResult,
    decoded: &D,
) -> bool {
    match asset_id_of(reference) {
        None => result matches Err(error) && bad_id(error, reference),
        Some(id) => exists|found: Option<DecodedKind>| #[trigger]
            decoded.ensures((id,), found) && result == atlas_result(id, found),
    }
}

/// Whether the references of the entities were resolved one after the other.
pub open spec fn sprite_run<D: Fn(AssetId) -> Option<DecodedKind>>(
    world: WorldView,
    entities: Seq<Entity>,
    results: Seq<SpriteResult>,
    decoded: &D,
) -> bool {
    &&& results.len() == entities.len()
    &&& forall|i: int|
        #![trigger results[i]]
        0 <= i < results.len() ==> sprite_step(
            world.table[entities[i]].sprite_source->0.atlas@,
            results[i],
            decoded,
        )
}

/// Resolves one reference to a sprite.
fn resolve_sprite<D: Fn(AssetId) -> Option<DecodedKind>>(
    reference: &str,
    decoded: &D,
) -> (result: SpriteResult)
    requires
        forall|id: AssetId| decoded.requires((id,)),
    ensures
        sprite_step(reference@, result, decoded),
{
    match asset_id(reference) {
        Ok(id) => {
            let found = decoded(id);
            resolve_sprite_uv(id, found)
        },
        Err(error) => Err(error),
    }
}

proof fn lemma_counts_add_up<T>(results: Seq<Result<Option<T>, ResolveError>>)
    ensures
        count_of(results, Outcome::Resolved) + count_of(results, Outcome::Pending) + count_of(
            results,
            Outcome::Failed,
        ) == results.len(),
    decreases results.len(),
{
    if results.len() > 0 {
        lemma_counts_add_up(results.drop_last());
    }
}

/// Whether the worlds agree but for what is drawn.
spec fn same_references(a: WorldView, b: WorldView) -> bool {
    &&& a.order == b.order
    &&& a.table.dom() == b.table.dom()
    &&& forall|e: Entity|
        #![trigger a.table[e]]
        a.alive(e) ==> a.table[e].mesh_source == b.table[e].mesh_source
            && a.table[e].sprite_source == b.table[e].sprite_source
}

proof fn lemma_listed(world: WorldView, keep: spec_fn(Entity) -> bool)
    requires
        world.consistent(),
    ensures
        world.order.filter(keep).len() <= world.order.len(),
        forall|i: int|
            #![trigger world.order.filter(keep)[i]]
            0 <= i < world.order.filter(keep).len() ==> world.alive(world.order.filter(keep)[i])
                && keep(world.order.filter(keep)[i]),
{
    lemma_filter(world.order, keep);
    let listed = world.order.filter(keep);
    assert forall|i: int| #![trigger listed[i]] 0 <= i < listed.len() implies world.alive(listed[i])
        && keep(listed[i]) by {
        assert(listed.contains(listed[i]));
        assert(world.order.contains(listed[i]));
        assert(world.alive(listed[i]) <==> world.order.contains(listed[i]));
    }
}

/// Resolves the references to meshes.
fn resolve_meshes<
    D: Fn(AssetId) -> Option<DecodedKind>,
    S: Fn(RenderHandles) -> bool,
    U: Fn(AssetId) -> Result<RenderHandles, String>,
>(
    world: &mut SceneWorld,
    decoded: &D,
    share: &S,
    upload: &U,
) -> (report: ResolveReport)
    requires
        old(world).wf(),
        forall|id: AssetId| decoded.requires((id,)),
        forall|handles: RenderHandles| share.requires((handles,)),
        forall|id: AssetId| upload.requires((id,)),
    ensures
        final(world).wf(),
        same_references(old(world)@, final(world)@),
        exists|uploads: Seq<Map<u128, RenderHandles>>, results: Seq<MeshResult>|
            {
                &&& #[trigger] mesh_run(
                    old(world)@,
                    unresolved_meshes(old(world)@),
                    uploads,
                    results,
                    decoded,
                    share,
                    upload,
                )
                &&& final(world)@ == applied(
                    old(world)@,
                    unresolved_meshes(old(world)@),
                    results,
                    results.len(),
                )
                &&& reports(report, results)
                &&& results.len() <= old(world)@.order.len()
            },
{
    let ghost before = world@;
    proof {
        world.lemma_consistent();
        lemma_listed(before, |e: Entity| unresolved(before, e));
    }
    let pending = pending_meshes(world);
    let mut report = ResolveReport::default();
    let mut resolver = EditorResolver::new();
    let ghost mut results: Seq<MeshResult> = Seq::empty();
    let ghost mut uploads: Seq<Map<u128, RenderHandles>> = seq![resolver.shared()];
    let count: usize = pending.len();
    for i in 0..count
        invariant
            world.wf(),
            count == pending@.len(),
            pending@ == unresolved_meshes(before),
            forall|id: AssetId| decoded.requires((id,)),
            forall|handles: RenderHandles| share.requires((handles,)),
            forall|id: AssetId| upload.requires((id,)),
            forall|j: int|
                #![trigger pending@[j]]
                0 <= j < count ==> before.alive(pending@[j]) && unresolved(before, pending@[j]),
            uploads.last() == resolver.shared(),
            mesh_run(before, pending@.take(i as int), uploads, results, decoded, share, upload),
            world@ == applied(before, pending@, results, i as nat),
            same_references(before, world@),
            reports(report, results),
            report.resolved + report.pending + report.failed == i,
    {
        let entity: Entity = pending[i];
        let ghost earlier = results;
        let ghost known = uploads;
        let ghost taken = pending@.take(i + 1);
        assert(before.alive(entity) && unresolved(before, entity));
        assert(world@.table.dom().contains(entity));
        assert(world@.alive(entity));
        match world.get(entity) {
            Some(components) => {
                let mut components = components.clone();
                match &components.mesh_source {
                    Some(source) => {
                        let result = resolver.resolve(&source.mesh, decoded, share, upload);
                        proof {
                            assert(before.table[entity].mesh_source
                                == world@.table[entity].mesh_source);
                            results = earlier.push(result);
                            uploads = known.push(resolver.shared());
                            assert(results.drop_last() =~= earlier);
                            assert forall|j: int|
                                #![trigger results[j]]
                                0 <= j < results.len() implies mesh_step(
                                uploads[j],
                                uploads[j + 1],
                                before.table[taken[j]].mesh_source->0.mesh@,
                                results[j],
                                decoded,
                                share,
                                upload,
                            ) by {
                                assert(uploads[j] == known[j]);
                                if j < i {
                                    assert(earlier[j] == results[j]);
                                    assert(uploads[j + 1] == known[j + 1]);
                                    assert(pending@.take(i as int)[j] == taken[j]);
                                }
                            }
                            lemma_applied_prefix(before, pending@, results, earlier, i as nat);
                        }
                        match result {
                            Ok(Some(handles)) => {
                                components.mesh_renderer = Some(handles);
                                world.set(entity, components);
                                report.resolved += 1;
                            },
                            Ok(None) => {
                                report.pending += 1;
                            },
                            Err(_) => {
                                report.failed += 1;
                            },
                        }
                        assert(world@.table.dom() =~= before.table.dom());
                    },
                    None => {},
                }
            },
            None => {},
        }
    }
    proof {
        assert(pending@.take(count as int) =~= pending@);
        assert(mesh_run(before, pending@, uploads, results, decoded, share, upload));
    }
    report
}

/// Resolves the references to sprites.
fn resolve_sprites<D: Fn(AssetId) -> Option<DecodedKind>>(
    world: &mut SceneWorld,
    pending: &Vec<Entity>,
    decoded: &D,
) -> (report: ResolveReport)
    requires
        old(world).wf(),
        forall|j: int|
            #![trigger pending@[j]]
            0 <= j < pending@.len() ==> old(world)@.alive(pending@[j])
                && old(world)@.table[pending@[j]].sprite_source is Some,
        forall|id: AssetId| decoded.requires((id,)),
    ensures
        final(world).wf(),
        exists|results: Seq<SpriteResult>|
            {
                &&& #[trigger] sprite_run(old(world)@, pending@, results, decoded)
                &&& final(world)@ == shown(old(world)@, pending@, results, results.len())
                &&& reports(report, results)
            },
{
    let ghost before = world@;
    let mut report = ResolveReport::default();
    let ghost mut results: Seq<SpriteResult> = Seq::empty();
    let count: usize = pending.len();
    for i in 0..count
        invariant
            world.wf(),
            count == pending@.len(),
            forall|id: AssetId| decoded.requires((id,)),
            forall|j: int|
                #![trigger pending@[j]]
                0 <= j < count ==> before.alive(pending@[j])
                    && before.table[pending@[j]].sprite_source is Some,
            sprite_run(before, pending@.take(i as int), results, decoded),
            world@ == shown(before, pending@, results, i as nat),
            same_references(before, world@),
            reports(report, results),
            report.resolved + report.pending + report.failed == i,
    {
        let entity: Entity = pending[i];
        let ghost earlier = results;
        let ghost taken = pending@.take(i + 1);
        assert(before.alive(entity));
        assert(world@.table.dom().contains(entity));
        assert(world@.alive(entity));
        match world.get(entity) {
            Some(components) => {
                let mut components = components.clone();
                match &components.sprite_source {
                    Some(source) => {
                        let result = resolve_sprite(&source.atlas, decoded);
                        proof {
                            assert(before.table[entity].sprite_source
                                == world@.table[entity].sprite_source);
                            results = earlier.push(result);
                            assert(results.drop_last() =~= earlier);
                            assert forall|j: int|
                                #![trigger results[j]]
                                0 <= j < results.len() implies sprite_step(
                                before.table[taken[j]].sprite_source->0.atlas@,
                                results[j],
                                decoded,
                            ) by {
                                if j < i {
                                    assert(earlier[j] == results[j]);
                                    assert(pending@.take(i as int)[j] == taken[j]);
                                }
                            }
                            lemma_shown_prefix(before, pending@, results, earlier, i as nat);
                        }
                        match result {
                            Ok(Some(uv)) => {
                                components.sprite = Some(
                                    Sprite {
                                        size: source.size,
                                        uv,
                                        color: source.color,
                                        z_order: source.z_order,
                                    },
                                );
                                world.set(entity, components);
                                report.resolved += 1;
                            },
                            Ok(None) => {
                                report.pending += 1;
                            },
                            Err(_) => {
                                report.failed += 1;
                            },
                        }
                        assert(world@.table.dom() =~= before.table.dom());
                    },
                    None => {},
                }
            },
            None => {},
        }
    }
    proof {
        assert(pending@.take(count as int) =~= pending@);
        assert(sprite_run(before, pending@, results, decoded));
    }
    report
}

/// Whether one pass did what it does: every reference to a mesh and every reference to a
/// sprite that was not resolved was tried once, what was resolved can be drawn, and the
/// report counts both.
pub open spec fn passed<
    D: Fn(AssetId) -> Option<DecodedKind>,
    S: Fn(RenderHandles) -> bool,
    U: Fn(AssetId) -> Result<RenderHandles, String>,
>(
    before: WorldView,
    after: WorldView,
    report: ResolveReport,
    uploads: Seq<Map<u128, RenderHandles>>,
    meshes: Seq<MeshResult>,
    images: Seq<SpriteResult>,
    decoded: &D,
    share: &S,
    upload: &U,
) -> bool {
    let drawn = applied(before, unresolved_meshes(before), meshes, meshes.len());
    &&& mesh_run(before, unresolved_meshes(before), uploads, meshes, decoded, share, upload)
    &&& sprite_run(before, unresolved_sprites(before), images, decoded)
    &&& after == shown(drawn, unresolved_sprites(before), images, images.len())
    &&& report.resolved == count_of(meshes, Outcome::Resolved) + count_of(images, Outcome::Resolved)
    &&& report.pending == count_of(meshes, Outcome::Pending) + count_of(images, Outcome::Pending)
    &&& report.failed == count_of(meshes, Outcome::Failed) + count_of(images, Outcome::Failed)
}

/// Resolves every reference to a mesh or a sprite that is not resolved yet. `decoded`
/// says what the importer holds for an asset, `share` takes a further share of an upload
/// if the renderer still keeps it, and `upload` uploads a model's first mesh. A reference
/// that fails keeps its entity as it is, so that a later pass tries again.
pub fn resolve_pending<
    D: Fn(AssetId) -> Option<DecodedKind>,
    S: Fn(RenderHandles) -> bool,
    U: Fn(AssetId) -> Result<RenderHandles, String>,
>(world: &mut SceneWorld, decoded: &D, share: &S, upload: &U) -> (report: ResolveReport)
    requires
        old(world).wf(),
        2 * old(world)@.order.len() <= usize::MAX,
        forall|id: AssetId| decoded.requires((id,)),
        forall|handles: RenderHandles| share.requires((handles,)),
        forall|id: AssetId| upload.requires((id,)),
    ensures
        final(world).wf(),
        exists|
            uploads: Seq<Map<u128, RenderHandles>>,
            meshes: Seq<MeshResult>,
            images: Seq<SpriteResult>,
        | #[trigger]
            passed(
                old(world)@,
                final(world)@,
                report,
                uploads,
                meshes,
                images,
                decoded,
                share,
                upload,
            ),
{
    let ghost before = world@;
    proof {
        world.lemma_consistent();
        lemma_listed(before, |e: Entity| lacks_sprite(before, e));
    }
    let sprites = pending_sprites(world);
    let first = resolve_meshes(world, decoded, share, upload);
    let ghost middle = world@;
    proof {
        assert forall|j: int| #![trigger sprites@[j]] 0 <= j < sprites@.len() implies middle.alive(
            sprites@[j],
        ) && middle.table[sprites@[j]].sprite_source is Some by {
            assert(before.alive(sprites@[j]) && lacks_sprite(before, sprites@[j]));
            assert(middle.table.dom().contains(sprites@[j]));
            assert(before.table[sprites@[j]].sprite_source
                == middle.table[sprites@[j]].sprite_source);
        }
    }
    let second = resolve_sprites(world, &sprites, decoded);
    let ghost (uploads, meshes) = choose|
        uploads: Seq<Map<u128, RenderHandles>>,
        meshes: Seq<MeshResult>,
    |
        {
            &&& #[trigger] mesh_run(
                before,
                unresolved_meshes(before),
                uploads,
                meshes,
                decoded,
                share,
                upload,
            )
            &&& middle == applied(before, unresolved_meshes(before), meshes, meshes.len())
            &&& reports(first, meshes)
            &&& meshes.len() <= before.order.len()
        };
    let ghost images = choose|images: Seq<SpriteResult>|
        {
            &&& #[trigger] sprite_run(middle, sprites@, images, decoded)
            &&& world@ == shown(middle, sprites@, images, images.len())
            &&& reports(second, images)
        };
    proof {
        lemma_counts_add_up(meshes);
        lemma_counts_add_up(images);
        assert(sprite_run(before, sprites@, images, decoded)) by {
            assert forall|i: int| #![trigger images[i]] 0 <= i < images.len() implies sprite_step(
                before.table[sprites@[i]].sprite_source->0.atlas@,
                images[i],
                decoded,
            ) by {
                assert(before.alive(sprites@[i]));
                assert(before.table[sprites@[i]].sprite_source
                    == middle.table[sprites@[i]].sprite_source);
            }
        }
    }
    let report = ResolveReport {
        resolved: first.resolved + second.resolved,
        pending: first.pending + second.pending,
        failed: first.failed + second.failed,
    };
    assert(passed(before, world@, report, uploads, meshes, images, decoded, share, upload));
    report
}

proof fn lemma_upload_stays<
    D: Fn(AssetId) -> Option<DecodedKind>,
    S: Fn(RenderHandles) -> bool,
    U: Fn(AssetId) -> Result<RenderHandles, String>,
>(
    world: WorldView,
    entities: Seq<Entity>,
    uploads: Seq<Map<u128, RenderHandles>>,
    results: Seq<MeshResult>,
    decoded: &D,
    share: &S,
    upload: &U,
    id: AssetId,
    handles: RenderHandles,
    i: int,
    j: int,
)
    requires
        mesh_run(world, entities, uploads, results, decoded, share, upload),
        forall|h: RenderHandles, kept: bool| #[trigger] share.ensures((h,), kept) ==> kept,
        0 <= i <= j <= entities.len(),
        entry_of(uploads[i], id) == Some(handles),
    ensures
        entry_of(uploads[j], id) == Some(handles),
    decreases j - i,
{
    if i < j {
        lemma_upload_stays(
            world,
            entities,
            uploads,
            results,
            decoded,
            share,
            upload,
            id,
            handles,
            i,
            j - 1,
        );
        let k = j - 1;
        let _ = results[k];
        let reference = world.table[entities[k]].mesh_source->0.mesh@;
        assert(mesh_step(uploads[k], uploads[k + 1], reference, results[k], decoded, share, upload));
    }
}

/// In one pass an asset is uploaded once and shared by every entity that refers to it:
/// where the renderer keeps what was uploaded, the second of two references to one asset
/// gets the handles that the first got.
pub proof fn law_pass_uploads_once<
    D: Fn(AssetId) -> Option<DecodedKind>,
    S: Fn(RenderHandles) -> bool,
    U: Fn(AssetId) -> Result<RenderHandles, String>,
>(
    world: WorldView,
    entities: Seq<Entity>,
    uploads: Seq<Map<u128, RenderHandles>>,
    results: Seq<MeshResult>,
    decoded: &D,
    share: &S,
    upload: &U,
    i: int,
    j: int,
    handles: RenderHandles,
)
    requires
        mesh_run(world, entities, uploads, results, decoded, share, upload),
        forall|h: RenderHandles, kept: bool| #[trigger] share.ensures((h,), kept) ==> kept,
        0 <= i < j < entities.len(),
        asset_id_of(world.table[entities[i]].mesh_source->0.mesh@) == asset_id_of(
            world.table[entities[j]].mesh_source->0.mesh@,
        ),
        results[i] == Ok::<Option<RenderHandles>, ResolveError>(Some(handles)),
    ensures
        results[j] == Ok::<Option<RenderHandles>, ResolveError>(Some(handles)),
        uploads[j + 1] == uploads[j],
{
    let first = world.table[entities[i]].mesh_source->0.mesh@;
    let second = world.table[entities[j]].mesh_source->0.mesh@;
    assert(mesh_step(uploads[i], uploads[i + 1], first, results[i], decoded, share, upload));
    let id = asset_id_of(first)->0;
    assert(entry_of(uploads[i + 1], id) == Some(handles));
    lemma_upload_stays(
        world,
        entities,
        uploads,
        results,
        decoded,
        share,
        upload,
        id,
        handles,
        i + 1,
        j,
    );
    assert(mesh_step(uploads[j], uploads[j + 1], second, results[j], decoded, share, upload));
}

proof fn lemma_applied_prefix(
    world: WorldView,
    entities: Seq<Entity>,
    a: Seq<MeshResult>,
    b: Seq<MeshResult>,
    n: nat,
)
    requires
        n <= a.len(),
        n <= b.len(),
        forall|i: int| #![trigger a[i]] 0 <= i < n ==> a[i] == b[i],
    ensures
        applied(world, entities, a, n) == applied(world, entities, b, n),
    decreases n,
{
    if n > 0 {
        lemma_applied_prefix(world, entities, a, b, (n - 1) as nat);
        assert(a[n - 1] == b[n - 1]);
    }
}

proof fn lemma_shown_prefix(
    world: WorldView,
    entities: Seq<Entity>,
    a: Seq<SpriteResult>,
    b: Seq<SpriteResult>,
    n: nat,
)
    requires
        n <= a.len(),
        n <= b.len(),
        forall|i: int| #![trigger a[i]] 0 <= i < n ==> a[i] == b[i],
    ensures
        shown(world, entities, a, n) == shown(world, entities, b, n),
    decreases n,
{
    if n > 0 {
        lemma_shown_prefix(world, entities, a, b, (n - 1) as nat);
        assert(a[n - 1] == b[n - 1]);
    }
}

/// What is done for a mesh that is named: what was uploaded is shared while it is kept; else
/// one that is not decoded yet is waited for, a model with meshes is uploaded, and anything
/// else is refused, a model without meshes for that.
pub proof fn law_meshes_are_shared_before_they_are_uploaded(
    id: AssetId,
    uploaded: Option<RenderHandles>,
    kept: bool,
    decoded: Option<DecodedKind>,
)
    ensures
        ({
            let action = mesh_action(id, uploaded, kept, decoded);
            let share = uploaded is Some && kept;
            &&& share ==> action == Ok::<MeshAction, ResolveError>(MeshAction::Share(uploaded->0))
            &&& !share && decoded is None ==> action == Ok::<MeshAction, ResolveError>(
                MeshAction::Wait,
            )
            &&& !share && decoded is Some && decoded->0 is Mesh && decoded->0->primitives > 0
                ==> action == Ok::<MeshAction, ResolveError>(MeshAction::Upload(id))
            &&& !share && decoded is Some && decoded->0 is Mesh && decoded->0->primitives == 0
                ==> action == Err::<MeshAction, ResolveError>(ResolveError::NoPrimitives { id })
            &&& !share && decoded is Some && !(decoded->0 is Mesh) ==> action == Err::<
                MeshAction,
                ResolveError,
            >(ResolveError::NotAMesh { id })
        }),
{
}

/// A sprite shows the whole of its image, from corner to corner, once that is decoded; what
/// is not an image is refused.
pub proof fn law_sprites_show_the_whole_image(id: AssetId, found: Option<DecodedKind>)
    ensures
        ({
            let none = Scalar { bits: 0 };
            let full = Scalar { bits: 0x3f80_0000 };
            &&& found is None ==> atlas_result(id, found) == Ok::<Option<UvRect>, ResolveError>(
                None,
            )
            &&& found is Some && found->0 is Texture ==> atlas_result(id, found) == Ok::<
                Option<UvRect>,
                ResolveError,
            >(
                Some(
                    UvRect {
                        min: Vec2 { x: none, y: none },
                        max: Vec2 { x: full, y: full },
                    },
                ),
            )
            &&& found is Some && !(found->0 is Texture) ==> atlas_result(id, found) == Err::<
                Option<UvRect>,
                ResolveError,
            >(ResolveError::NotATexture { id })
        }),
{
}

/// What is looked up are the meshes and sprites that are named and not there yet, and no
/// others.
pub proof fn law_only_what_lacks_is_looked_up(world: WorldView, entity: Entity)
    ensures
        unresolved_meshes(world).contains(entity) <==> world.order.contains(entity)
            && world.table[entity].mesh_source is Some && world.table[entity].mesh_renderer is None,
        unresolved_sprites(world).contains(entity) <==> world.order.contains(entity)
            && world.table[entity].sprite_source is Some && world.table[entity].sprite is None,
        world.order.no_duplicates() ==> unresolved_meshes(world).no_duplicates()
            && unresolved_sprites(world).no_duplicates(),
{
    lemma_filter(world.order, |e: Entity| unresolved(world, e));
    lemma_filter(world.order, |e: Entity| lacks_sprite(world, e));
}

/// What a pass leaves of an entity: one that lacked its mesh has the handles that were found
/// for it, if they were; one that lacked its sprite shows the image in the size, the colour
/// and the layer that it is stored with. Nothing else changes.
pub proof fn law_found_assets_are_put_on_their_entities<
    D: Fn(AssetId) -> Option<DecodedKind>,
    S: Fn(RenderHandles) -> bool,
    U: Fn(AssetId) -> Result<RenderHandles, String>,
>(
    before: WorldView,
    after: WorldView,
    report: ResolveReport,
    uploads: Seq<Map<u128, RenderHandles>>,
    meshes: Seq<MeshResult>,
    images: Seq<SpriteResult>,
    decoded: &D,
    share: &S,
    upload: &U,
    entity: Entity,
    i: int,
    j: int,
)
    requires
        passed(before, after, report, uploads, meshes, images, decoded, share, upload),
        before.order.no_duplicates(),
        before.table.contains_key(entity),
    ensures
        ({
            let own = before.table[entity];
            let now = after.table[entity];
            let meshless = unresolved_meshes(before);
            let imageless = unresolved_sprites(before);
            &&& after.order == before.order && after.parents == before.parents
            &&& now == (Components {
                mesh_renderer: now.mesh_renderer,
                sprite: now.sprite,
                ..own
            })
            &&& 0 <= i < meshless.len() && meshless[i] == entity ==> now.mesh_renderer == (
            if meshes[i] is Ok {
                meshes[i]->Ok_0
            } else {
                None
            })
            &&& !meshless.contains(entity) ==> now.mesh_renderer == own.mesh_renderer
            &&& !imageless.contains(entity) ==> now.sprite == own.sprite
            &&& 0 <= j < imageless.len() && imageless[j] == entity ==> {
                let found = images[j] is Ok && images[j]->Ok_0 is Some;
                &&& now.sprite is Some <==> found
                &&& found ==> now.sprite->0.uv == images[j]->Ok_0->0 && now.sprite->0.size
                    == own.sprite_source->0.size && now.sprite->0.color
                    == own.sprite_source->0.color && now.sprite->0.z_order
                    == own.sprite_source->0.z_order
            }
        }),
{
    law_only_what_lacks_is_looked_up(before, entity);
    let meshless = unresolved_meshes(before);
    let imageless = unresolved_sprites(before);
    let drawn = applied(before, meshless, meshes, meshes.len());
    assert forall|k: int| 0 <= k < meshless.len() implies before.order.contains(
        #[trigger] meshless[k],
    ) by {
        assert(meshless.contains(meshless[k]));
        law_only_what_lacks_is_looked_up(before, meshless[k]);
    }
    let at = if 0 <= i < meshless.len() && meshless[i] == entity {
        i
    } else {
        -1
    };
    if meshless.contains(entity) && at < 0 {
        let k = meshless.index_of(entity);
        lemma_applied(before, meshless, meshes, meshes.len(), entity, k);
    } else {
        lemma_applied(before, meshless, meshes, meshes.len(), entity, at);
    }
    if imageless.contains(entity) {
        let k = imageless.index_of(entity);
        lemma_shown(drawn, imageless, images, images.len(), entity, k);
        if 0 <= j < imageless.len() && imageless[j] == entity {
            assert(j == k);
        }
    } else {
        lemma_shown(drawn, imageless, images, images.len(), entity, -1);
    }
}

proof fn lemma_applied(
    world: WorldView,
    entities: Seq<Entity>,
    results: Seq<MeshResult>,
    n: nat,
    entity: Entity,
    at: int,
)
    requires
        n <= entities.len(),
        n <= results.len(),
        entities.no_duplicates(),
        at < 0 ==> !entities.contains(entity),
        at >= 0 ==> at < entities.len() && entities[at] == entity,
    ensures
        ({
            let now = applied(world, entities, results, n);
            let found = 0 <= at < n && results[at] is Ok && results[at]->Ok_0 is Some;
            &&& now.order == world.order && now.parents == world.parents
            &&& now.table[entity] == (if found {
                Components { mesh_renderer: results[at]->Ok_0, ..world.table[entity] }
            } else {
                world.table[entity]
            })
        }),
    decreases n,
{
    if n > 0 {
        lemma_applied(world, entities, results, (n - 1) as nat, entity, at);
        assert(entities.contains(entities[n - 1]));
    }
}

proof fn lemma_shown(
    world: WorldView,
    entities: Seq<Entity>,
    results: Seq<SpriteResult>,
    n: nat,
    entity: Entity,
    at: int,
)
    requires
        n <= entities.len(),
        n <= results.len(),
        entities.no_duplicates(),
        at < 0 ==> !entities.contains(entity),
        at >= 0 ==> at < entities.len() && entities[at] == entity,
    ensures
        ({
            let now = shown(world, entities, results, n);
            let found = 0 <= at < n && results[at] is Ok && results[at]->Ok_0 is Some;
            &&& now.order == world.order && now.parents == world.parents
            &&& now.table[entity] == (if found {
                Components {
                    sprite: Some(
                        sprite_from(
                            world.table[entity].sprite_source->0,
                            results[at]->Ok_0->0,
                        ),
                    ),
                    ..world.table[entity]
                }
            } else {
                world.table[entity]
            })
        }),
    decreases n,
{
    if n > 0 {
        lemma_shown(world, entities, results, (n - 1) as nat, entity, at);
        assert(entities.contains(entities[n - 1]));
    }
}

/// Each look-up counts once: as found, as waited for, or as failed.
pub proof fn law_every_result_counts<T>(
    results: Seq<Result<Option<T>, ResolveError>>,
    result: Result<Option<T>, ResolveError>,
)
    ensures
        count_of(Seq::<Result<Option<T>, ResolveError>>::empty(), Outcome::Resolved) == 0,
        count_of(Seq::<Result<Option<T>, ResolveError>>::empty(), Outcome::Pending) == 0,
        count_of(Seq::<Result<Option<T>, ResolveError>>::empty(), Outcome::Failed) == 0,
        count_of(results.push(result), Outcome::Resolved) == count_of(results, Outcome::Resolved)
            + (if result is Ok && result->Ok_0 is Some {
            1nat
        } else {
            0nat
        }),
        count_of(results.push(result), Outcome::Pending) == count_of(results, Outcome::Pending) + (
        if result is Ok && result->Ok_0 is None {
            1nat
        } else {
            0nat
        }),
        count_of(results.push(result), Outcome::Failed) == count_of(results, Outcome::Failed) + (
        if result is Err {
            1nat
        } else {
            0nat
        }),
{
    assert(results.push(result).drop_last() =~= results);
}

/// What the errors say: which asset was meant, and what it is not.
pub proof fn law_errors_name_the_asset(error: ResolveError)
    ensures
        error matches ResolveError::BadId { text } ==> error.text() == text@,
        error matches ResolveError::NotAMesh { id } ==> error.text() == "asset "@ + hyphenated(
            id.value,
        ) + " is not a mesh (a scene entity referenced it as one)"@,
        error matches ResolveError::NoPrimitives { id } ==> error.text() == "glTF asset "@
            + hyphenated(id.value) + " contains no mesh primitives"@,
        error matches ResolveError::NotATexture { id } ==> error.text() == "asset "@ + hyphenated(
            id.value,
        ) + " is not a texture (a sprite referenced it as an atlas)"@,
        error matches ResolveError::Upload { message } ==> error.text() == message@,
{
}

/// A report counts what was found, is waited for and failed, each by itself.
pub proof fn law_report_counts_the_results<T>(
    report: ResolveReport,
    results: Seq<Result<Option<T>, ResolveError>>,
    result: Result<Option<T>, ResolveError>,
    more: ResolveReport,
)
    requires
        reports(report, results),
        reports(more, results.push(result)),
    ensures
        more.resolved == report.resolved + (if result is Ok && result->Ok_0 is Some {
            1int
        } else {
            0int
        }),
        more.pending == report.pending + (if result is Ok && result->Ok_0 is None {
            1int
        } else {
            0int
        }),
        more.failed == report.failed + (if result is Err {
            1int
        } else {
            0int
        }),
{
    law_every_result_counts(results, result);
}

/// What becomes of a mesh that is named. A name that is no id is an error. What was uploaded
/// before and can still be shared is shared, and nothing is uploaded. Else it is what is
/// decoded that decides: nothing yet is waited for, a model with meshes is uploaded and
/// remembered unless that fails, and anything else is an error.
pub proof fn law_named_meshes_are_looked_up<
    D: Fn(AssetId) -> Option<DecodedKind>,
    S: Fn(RenderHandles) -> bool,
    U: Fn(AssetId) -> Result<RenderHandles, String>,
>(
    before: Map<u128, RenderHandles>,
    after: Map<u128, RenderHandles>,
    reference: Seq<char>,
    result: MeshResult,
    decoded: &D,
    share: &S,
    upload: &U,
    what: spec_fn(AssetId) -> Option<DecodedKind>,
    still: spec_fn(RenderHandles) -> bool,
    put: spec_fn(AssetId) -> Result<RenderHandles, String>,
)
    requires
        mesh_step(before, after, reference, result, decoded, share, upload),
        forall|id: AssetId, found: Option<DecodedKind>| #[trigger]
            decoded.ensures((id,), found) ==> found == what(id),
        forall|handles: RenderHandles, kept: bool| #[trigger]
            share.ensures((handles,), kept) ==> kept == still(handles),
        forall|id: AssetId, done: Result<RenderHandles, String>| #[trigger]
            upload.ensures((id,), done) ==> done == put(id),
    ensures
        ({
            let named = asset_id_of(reference);
            let id = named->0;
            let shared = before.contains_key(id.value) && still(before[id.value]);
            let found = what(id);
            let model = found is Some && found->0 is Mesh;
            let full = model && found->0->primitives > 0;
            &&& named is None ==> after == before && result is Err && result->Err_0 is BadId
                && result->Err_0->text@ == reference
            &&& named is Some && shared ==> after == before && result == Ok::<
                Option<RenderHandles>,
                ResolveError,
            >(Some(before[id.value]))
            &&& named is Some && !shared && found is None ==> after == before && result == Ok::<
                Option<RenderHandles>,
                ResolveError,
            >(None)
            &&& named is Some && !shared && full && put(id) is Ok ==> after == before.insert(
                id.value,
                put(id)->Ok_0,
            ) && result == Ok::<Option<RenderHandles>, ResolveError>(Some(put(id)->Ok_0))
            &&& named is Some && !shared && full && put(id) is Err ==> after == before && result
                == Err::<Option<RenderHandles>, ResolveError>(
                ResolveError::Upload { message: put(id)->Err_0 },
            )
            &&& named is Some && !shared && model && !full ==> after == before && result == Err::<
                Option<RenderHandles>,
                ResolveError,
            >(ResolveError::NoPrimitives { id })
            &&& named is Some && !shared && found is Some && !model ==> after == before && result
                == Err::<Option<RenderHandles>, ResolveError>(ResolveError::NotAMesh { id })
        }),
{
}

/// What becomes of a sprite that is named: a name that is no id is an error; else what is
/// decoded decides, and only an image is shown.
pub proof fn law_named_sprites_are_looked_up<D: Fn(AssetId) -> Option<DecodedKind>>(
    reference: Seq<char>,
    result: SpriteResult,
    decoded: &D,
    what: spec_fn(AssetId) -> Option<DecodedKind>,
)
    requires
        sprite_step(reference, result, decoded),
        forall|id: AssetId, found: Option<DecodedKind>| #[trigger]
            decoded.ensures((id,), found) ==> found == what(id),
    ensures
        ({
            let named = asset_id_of(reference);
            let found = what(named->0);
            &&& named is None ==> result is Err && result->Err_0 is BadId && result->Err_0->text@
                == reference
            &&& named is Some && found is None ==> result is Ok && result->Ok_0 is None
            &&& named is Some && found is Some && found->0 is Texture ==> result is Ok
                && result->Ok_0 is Some
            &&& named is Some && found is Some && !(found->0 is Texture) ==> result == Err::<
                Option<UvRect>,
                ResolveError,
            >(ResolveError::NotATexture { id: named->0 })
        }),
{
}

/// A pass begins with nothing uploaded, and looks up each mesh that is named in turn; what it
/// reports are the meshes and the sprites together.
pub proof fn law_pass_begins_without_uploads<
    D: Fn(AssetId) -> Option<DecodedKind>,
    S: Fn(RenderHandles) -> bool,
    U: Fn(AssetId) -> Result<RenderHandles, String>,
>(
    before: WorldView,
    after: WorldView,
    report: ResolveReport,
    uploads: Seq<Map<u128, RenderHandles>>,
    meshes: Seq<MeshResult>,
    images: Seq<SpriteResult>,
    decoded: &D,
    share: &S,
    upload: &U,
    value: u128,
    i: int,
)
    requires
        passed(before, after, report, uploads, meshes, images, decoded, share, upload),
    ensures
        !uploads[0].contains_key(value),
        meshes.len() == unresolved_meshes(before).len(),
        images.len() == unresolved_sprites(before).len(),
        0 <= i < meshes.len() ==> mesh_step(
            uploads[i],
            uploads[i + 1],
            before.table[unresolved_meshes(before)[i]].mesh_source->0.mesh@,
            meshes[i],
            decoded,
            share,
            upload,
        ),
        0 <= i < images.len() ==> sprite_step(
            before.table[unresolved_sprites(before)[i]].sprite_source->0.atlas@,
            images[i],
            decoded,
        ),
        report.resolved == count_of(meshes, Outcome::Resolved) + count_of(
            images,
            Outcome::Resolved,
        ),
        report.pending == count_of(meshes, Outcome::Pending) + count_of(images, Outcome::Pending),
        report.failed == count_of(meshes, Outcome::Failed) + count_of(images, Outcome::Failed),
        report.resolved + report.pending + report.failed == meshes.len() + images.len(),
{
    lemma_every_result_counts_once(meshes);
    lemma_every_result_counts_once(images);
    if 0 <= i < meshes.len() {
        assert(meshes[i] == meshes[i]);
    }
    if 0 <= i < images.len() {
        assert(images[i] == images[i]);
    }
}

proof fn lemma_every_result_counts_once<T>(results: Seq<Result<Option<T>, ResolveError>>)
    ensures
        count_of(results, Outcome::Resolved) + count_of(results, Outcome::Pending) + count_of(
            results,
            Outcome::Failed,
        ) == results.len(),
    decreases results.len(),
{
    if results.len() > 0 {
        lemma_every_result_counts_once(results.drop_last());
    }
}

} // verus!
