//! Prefabs: one entity captured as data, and the file it is written to.

use vstd::prelude::*;

use crate::ecs::components::{
    Camera, Components, MeshSource, Sprite, SpriteSource, Transform,
};
use crate::ecs::entities::Entity;
use crate::ecs::world::SceneWorld;
use crate::editor::error::EditorError;
use crate::paths::{join, join_of};
use crate::text::{
    alphanumeric, decimal, decimal_text, from_chars, is_alphanumeric, join2, join3, lemma_trim,
    lemma_trimmed_stays, to_chars, trim_chars, trim_of, white_space,
};

verus! {

/// The directory under the assets directory that prefabs are written to.
pub open spec fn prefab_dir() -> Seq<char> {
    "prefabs"@
}

/// The file stem of an entity that has no usable name.
pub open spec fn default_stem() -> Seq<char> {
    "Prefab"@
}

/// One entity as it is stored in a scene or a prefab.
#[derive(Debug, PartialEq, Eq)]
pub struct SceneEntity {
    /// Its name.
    pub name: Option<String>,
    /// Its transform.
    pub transform: Option<Transform>,
    /// Its camera.
    pub camera: Option<Camera>,
    /// The path of the asset file it was created from.
    pub asset_source: Option<String>,
    /// The identifier of that asset.
    pub asset_id: Option<String>,
    /// Whether it is disabled.
    pub disabled: bool,
    /// Whether it does not move.
    pub is_static: bool,
    /// Whether it is locked.
    pub locked: bool,
    /// What its mesh is built from.
    pub mesh_renderer: Option<MeshSource>,
    /// What its sprite is built from.
    pub sprite: Option<SpriteSource>,
    /// Its parent's place in the scene.
    pub parent: Option<usize>,
}

/// The reference that a sprite is stored as. A live sprite's size, tint and layer
/// take precedence over the stored ones.
pub open spec fn stored_sprite(source: Option<SpriteSource>, live: Option<Sprite>) -> Option<
    SpriteSource,
> {
    match (source, live) {
        (Some(source), Some(sprite)) => Some(
            SpriteSource {
                size: sprite.size,
                color: sprite.color,
                z_order: sprite.z_order,
                ..source
            },
        ),
        (source, _) => source,
    }
}

/// Whether the stored entity is what the components say.
pub open spec fn stores(stored: SceneEntity, components: Components) -> bool {
    &&& match (components.name, stored.name) {
        (Some(label), Some(name)) => name == label.0,
        (None, None) => true,
        _ => false,
    }
    &&& stored.transform == components.transform
    &&& stored.camera == components.camera
    &&& match (components.asset_source, stored.asset_source) {
        (Some(source), Some(path)) => path == source.path && stored.asset_id == source.id,
        (None, None) => stored.asset_id is None,
        _ => false,
    }
    &&& stored.disabled == (components.disabled is Some)
    &&& stored.is_static == (components.is_static is Some)
    &&& !stored.locked
    &&& stored.mesh_renderer == components.mesh_source
    &&& stored.sprite == stored_sprite(components.sprite_source, components.sprite)
    &&& stored.parent is None
}

/// Captures an entity: its name, transform, camera, asset reference, markers, and
/// what its mesh and sprite are built from. A lone prefab has no parent.
pub fn capture(world: &SceneWorld, entity: Entity) -> (prefab: Result<SceneEntity, EditorError>)
    requires
        world.wf(),
    ensures
        match prefab {
            Ok(stored) => world@.alive(entity) && stores(stored, world@.table[entity]),
            Err(error) => !world@.alive(entity) && error == EditorError::PrefabEntityMissing,
        },
{
    match world.get(entity) {
        Some(components) => {
            let components = components.clone();
            let name: Option<String> = match components.name {
                Some(label) => Some(label.0),
                None => None,
            };
            let (asset_source, asset_id): (Option<String>, Option<String>) =
                match components.asset_source {
                Some(source) => (Some(source.path), source.id),
                None => (None, None),
            };
            let sprite: Option<SpriteSource> = match (components.sprite_source, components.sprite) {
                (Some(source), Some(live)) => Some(
                    SpriteSource {
                        size: live.size,
                        color: live.color,
                        z_order: live.z_order,
                        ..source
                    },
                ),
                (source, _) => source,
            };
            Ok(
                SceneEntity {
                    name,
                    transform: components.transform,
                    camera: components.camera,
                    asset_source,
                    asset_id,
                    disabled: components.disabled.is_some(),
                    is_static: components.is_static.is_some(),
                    locked: false,
                    mesh_renderer: components.mesh_source,
                    sprite,
                    parent: None,
                },
            )
        },
        None => Err(EditorError::PrefabEntityMissing),
    }
}

/// Whether a character may stand in a file stem.
pub open spec fn kept_char(c: char) -> bool {
    alphanumeric(c) || c == ' ' || c == '-' || c == '_'
}

/// The character, or an underscore in place of one that may not stand in a stem.
pub open spec fn clean_char(c: char) -> char {
    if kept_char(c) {
        c
    } else {
        '_'
    }
}

/// The text with an underscore in place of each character that may not stand in a
/// stem.
pub open spec fn cleaned(name: Seq<char>) -> Seq<char> {
    name.map_values(|c: char| clean_char(c))
}

/// The file stem for a name.
pub open spec fn stem_of(name: Seq<char>) -> Seq<char> {
    let trimmed = trim_of(cleaned(name));
    if trimmed.len() == 0 {
        default_stem()
    } else {
        trimmed
    }
}

/// A file stem for the name: letters, digits, spaces, hyphens and underscores are
/// kept, everything else becomes an underscore, white space around it goes, and
/// where nothing is left the stem is a default one.
pub fn sanitize_stem(name: &str) -> (stem: String)
    ensures
        stem@ == stem_of(name@),
{
    let chars = to_chars(name);
    let mut clean: Vec<char> = Vec::new();
    for i in 0..chars.len()
        invariant
            chars@ == name@,
            clean@ == cleaned(name@.take(i as int)),
    {
        let c = chars[i];
        let keep: bool = is_alphanumeric(c) || c == ' ' || c == '-' || c == '_';
        clean.push(if keep {
            c
        } else {
            '_'
        });
        assert(clean@ =~= cleaned(name@.take(i + 1)));
    }
    assert(name@.take(chars@.len() as int) =~= name@);
    let trimmed = trim_chars(&clean);
    if trimmed.len() == 0 {
        "Prefab".to_owned()
    } else {
        from_chars(&trimmed)
    }
}

/// A stem is never empty, and holds only characters that may stand in a stem, with no
/// white space at either end.
pub proof fn law_stem_is_safe(name: Seq<char>)
    ensures
        ({
            let stem = stem_of(name);
            &&& stem.len() > 0
            &&& forall|i: int| 0 <= i < stem.len() ==> kept_char(#[trigger] stem[i])
            &&& !white_space(stem[0])
            &&& !white_space(stem.last())
        }),
{
    reveal_strlit("Prefab");
    if trim_of(cleaned(name)).len() > 0 {
        let from = lemma_trim(cleaned(name));
        assert forall|i: int| 0 <= i < stem_of(name).len() implies kept_char(
            #[trigger] stem_of(name)[i],
        ) by {
            assert(stem_of(name)[i] == cleaned(name)[from + i]);
        }
    }
}

/// A stem is the stem of itself.
pub proof fn law_stem_of_a_stem_is_itself(name: Seq<char>)
    ensures
        stem_of(stem_of(name)) == stem_of(name),
{
    let stem = stem_of(name);
    law_stem_is_safe(name);
    assert(cleaned(stem) =~= stem) by {
        assert forall|i: int| 0 <= i < stem.len() implies cleaned(stem)[i] == stem[i] by {
            assert(kept_char(stem[i]));
        }
    }
    lemma_trimmed_stays(stem);
}

/// The stem for a captured entity.
pub open spec fn stem_for(name: Option<String>) -> Seq<char> {
    match name {
        Some(name) => stem_of(name@),
        None => default_stem(),
    }
}

/// The file that is tried as number `n`: the plain stem first, then the stem with a
/// number.
pub open spec fn candidate(dir: Seq<char>, stem: Seq<char>, n: nat) -> Seq<char> {
    if n == 0 {
        join_of(dir, stem + ".prefab"@)
    } else {
        join_of(dir, stem + " "@ + decimal_text(n) + ".prefab"@)
    }
}

/// Whether the host may say that a file with the given path exists.
pub open spec fn said<F: Fn(&str) -> bool>(taken: &F, path: Seq<char>, answer: bool) -> bool {
    exists|text: &str| #[trigger] taken.ensures((text,), answer) && text@ == path
}

fn candidate_path(dir: &str, stem: &str, n: u32) -> (path: String)
    ensures
        path@ == candidate(dir@, stem@, n as nat),
{
    if n == 0 {
        join(dir, &join2(stem, ".prefab"))
    } else {
        let numbered = join3(stem, " ", &decimal(n as u64));
        join(dir, &join2(&numbered, ".prefab"))
    }
}

/// The first free file of those for the stem, so that nothing is overwritten.
/// `taken` says whether a file exists. Where every one of the four thousand
/// million candidates is taken, the first of them is returned.
pub fn unique_path<F: Fn(&str) -> bool>(dir: &str, stem: &str, taken: &F) -> (path: String)
    requires
        forall|text: &str| taken.requires((text,)),
    ensures
        (exists|n: nat|
            {
                &&& n <= u32::MAX
                &&& path@ == #[trigger] candidate(dir@, stem@, n)
                &&& said(taken, path@, false)
                &&& forall|k: nat|
                    k < n ==> said(taken, #[trigger] candidate(dir@, stem@, k), true)
            }) || (path@ == candidate(dir@, stem@, 0) && forall|k: nat|
            k <= u32::MAX ==> said(taken, #[trigger] candidate(dir@, stem@, k), true)),
{
    let mut n: u32 = 0;
    loop
        invariant
            forall|text: &str| taken.requires((text,)),
            forall|k: nat| k < n ==> said(taken, #[trigger] candidate(dir@, stem@, k), true),
        decreases u32::MAX - n,
    {
        let path = candidate_path(dir, stem, n);
        if !taken(&path) {
            assert(said(taken, path@, false));
            assert(path@ == candidate(dir@, stem@, n as nat));
            return path;
        }
        assert(said(taken, candidate(dir@, stem@, n as nat), true));
        if n == u32::MAX {
            return candidate_path(dir, stem, 0);
        }
        n += 1;
    }
}

/// The file that a captured entity is written to, under the assets directory.
pub fn prefab_path<F: Fn(&str) -> bool>(
    assets_dir: &str,
    prefab: &SceneEntity,
    taken: &F,
) -> (path: String)
    requires
        forall|text: &str| taken.requires((text,)),
    ensures
        ({
            let dir = join_of(assets_dir@, prefab_dir());
            let stem = stem_for(prefab.name);
            ||| exists|n: nat|
                {
                    &&& n <= u32::MAX
                    &&& path@ == #[trigger] candidate(dir, stem, n)
                    &&& said(taken, path@, false)
                    &&& forall|k: nat|
                        k < n ==> said(taken, #[trigger] candidate(dir, stem, k), true)
                }
            ||| (path@ == candidate(dir, stem, 0) && forall|k: nat|
                k <= u32::MAX ==> said(taken, #[trigger] candidate(dir, stem, k), true))
        }),
{
    let dir = join(assets_dir, "prefabs");
    let stem: String = match &prefab.name {
        Some(name) => sanitize_stem(name),
        None => "Prefab".to_owned(),
    };
    unique_path(&dir, &stem, taken)
}

/// What a prefab keeps of an entity: its name, transform, camera, asset and mesh as they are,
/// and whether it is disabled or static. It is never locked and has no parent. Of a sprite
/// it keeps where the image comes from, with the size, the colour and the layer that the
/// entity shows it with.
pub proof fn law_prefab_keeps_what_is_stored(stored: SceneEntity, own: Components)
    requires
        stores(stored, own),
    ensures
        stored.name is Some <==> own.name is Some,
        own.name is Some ==> stored.name->0 == (own.name->0).0,
        stored.transform == own.transform,
        stored.camera == own.camera,
        stored.asset_source is Some <==> own.asset_source is Some,
        own.asset_source is Some ==> stored.asset_source->0 == own.asset_source->0.path
            && stored.asset_id == own.asset_source->0.id,
        own.asset_source is None ==> stored.asset_id is None,
        stored.disabled <==> own.disabled is Some,
        stored.is_static <==> own.is_static is Some,
        !stored.locked,
        stored.parent is None,
        stored.mesh_renderer == own.mesh_source,
        stored.sprite is Some <==> own.sprite_source is Some,
        own.sprite_source is Some ==> stored.sprite->0.atlas == own.sprite_source->0.atlas
            && stored.sprite->0.region == own.sprite_source->0.region,
        own.sprite_source is Some && own.sprite is Some ==> stored.sprite->0.size
            == own.sprite->0.size && stored.sprite->0.color == own.sprite->0.color
            && stored.sprite->0.z_order == own.sprite->0.z_order,
        own.sprite_source is Some && own.sprite is None ==> stored.sprite == own.sprite_source,
{
}

/// In a file name letters, digits, blanks, hyphens and underscores stay; every other
/// character becomes an underscore. Blanks at the ends go; where nothing is left a name is
/// given.
pub proof fn law_only_unsafe_characters_are_replaced(name: Seq<char>, i: int)
    ensures
        cleaned(name).len() == name.len(),
        0 <= i < name.len() && (alphanumeric(name[i]) || name[i] == ' ' || name[i] == '-'
            || name[i] == '_') ==> cleaned(name)[i] == name[i],
        0 <= i < name.len() && !(alphanumeric(name[i]) || name[i] == ' ' || name[i] == '-'
            || name[i] == '_') ==> cleaned(name)[i] == '_',
        trim_of(cleaned(name)).len() > 0 ==> stem_of(name) == trim_of(cleaned(name)),
        trim_of(cleaned(name)).len() == 0 ==> stem_of(name) == "Prefab"@,
{
}

/// The file of a prefab is named after it, in the directory; where that is taken a number
/// follows the name after a blank, counted from one.
pub proof fn law_taken_names_are_numbered(dir: Seq<char>, stem: Seq<char>, n: nat)
    ensures
        candidate(dir, stem, 0) == join_of(dir, stem + ".prefab"@),
        n > 0 ==> candidate(dir, stem, n) == join_of(
            dir,
            stem.push(' ') + decimal_text(n) + ".prefab"@,
        ),
{
    reveal_strlit(" ");
    assert(stem + " "@ =~= stem.push(' '));
}

/// A prefab without a name is called one all the same; prefabs lie in a directory of their
/// own.
pub proof fn law_prefabs_without_a_name(name: Option<String>)
    ensures
        name is None ==> stem_for(name) == "Prefab"@,
        name is Some ==> stem_for(name) == stem_of((name->0)@),
        prefab_dir() == "prefabs"@,
{
}

} // verus!
