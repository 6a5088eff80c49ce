//! What one rendered frame draws, and in which order.
//!
//! The renderer asks the entity layer which of the scene's meshes, sprites and
//! instances it is to draw. Everything that needs the GPU or floating-point
//! geometry is settled before: a mesh arrives here with whether its handles are
//! registered, whether it is inside the camera frustum, and how deep it lies in
//! the view. What is left is bookkeeping, and it is all here: who casts a
//! shadow, who is drawn alone, who is folded into an instanced draw, in which
//! order blended surfaces are drawn, and the counts that describe the frame.

use vstd::prelude::*;

use crate::asset_id::AssetId;
use crate::ecs::components::RenderHandles;
use crate::ecs::entities::{subtree, Entity};
use crate::ecs::scalar::Scalar;
use crate::ecs::world::{SceneWorld, WorldView};
use crate::order::{
    lemma_sorted, lemma_sorted_is_a_permutation, put_in, sort, sorted, Ordered,
};
use crate::picks::{
    flat, lemma_flat_contains, lemma_flat_len, lemma_picked, lemma_picked_split,
    lemma_total_len_update, picked, total_len,
};

verus! {

/// Minimum group size for GPU batching: a group of visible meshes smaller than
/// this is drawn one mesh at a time, a larger one in a single instanced draw.
pub const MIN_AUTO_BATCH_SIZE: usize = 2;

/// What identifies a drawable: its mesh and its material.
pub type BatchKey = (AssetId, AssetId);

/// How a frame's visible meshes are split: `individuals` are drawn one by one,
/// each entry of `batches` lists meshes that share a mesh and a material and
/// collapse into one instanced draw.
#[derive(Debug, PartialEq, Eq)]
pub struct BatchPlan {
    /// Positions drawn one by one.
    pub individuals: Vec<usize>,
    /// Positions drawn together, by group.
    pub batches: Vec<Vec<usize>>,
}

impl Default for BatchPlan {
    fn default() -> (plan: BatchPlan)
        ensures
            plan.individuals@.len() == 0,
            plan.batches@.len() == 0,
    {
        BatchPlan { individuals: Vec::new(), batches: Vec::new() }
    }
}

/// The first `n` keys without repetitions, in the order of their first
/// occurrences.
pub open spec fn distinct_keys(keys: Seq<BatchKey>, n: nat) -> Seq<BatchKey>
    decreases n,
{
    if n == 0 {
        Seq::empty()
    } else {
        let rest = distinct_keys(keys, (n - 1) as nat);
        if rest.contains(keys[n - 1]) {
            rest
        } else {
            rest.push(keys[n - 1])
        }
    }
}

/// Holds of the positions at which `key` stands.
pub open spec fn stands(keys: Seq<BatchKey>, key: BatchKey) -> spec_fn(int) -> bool {
    |i: int| keys[i] == key
}

/// The positions below `n` at which `key` stands.
pub open spec fn members(keys: Seq<BatchKey>, n: nat, key: BatchKey) -> Seq<usize> {
    picked(n, stands(keys, key))
}

/// The first `n` positions, grouped by key, the groups in the order of their
/// first members.
pub open spec fn groups_below(keys: Seq<BatchKey>, n: nat) -> Seq<Seq<usize>> {
    distinct_keys(keys, n).map_values(|key: BatchKey| members(keys, n, key))
}

/// All positions, grouped by key.
pub open spec fn groups_of(keys: Seq<BatchKey>) -> Seq<Seq<usize>> {
    groups_below(keys, keys.len())
}

/// The groups large enough to be drawn together.
pub open spec fn large_groups(groups: Seq<Seq<usize>>) -> Seq<Seq<usize>>
    decreases groups.len(),
{
    if groups.len() == 0 {
        Seq::empty()
    } else {
        let rest = large_groups(groups.drop_last());
        if groups.last().len() >= MIN_AUTO_BATCH_SIZE {
            rest.push(groups.last())
        } else {
            rest
        }
    }
}

/// The groups too small to be drawn together.
pub open spec fn small_groups(groups: Seq<Seq<usize>>) -> Seq<Seq<usize>>
    decreases groups.len(),
{
    if groups.len() == 0 {
        Seq::empty()
    } else {
        let rest = small_groups(groups.drop_last());
        if groups.last().len() >= MIN_AUTO_BATCH_SIZE {
            rest
        } else {
            rest.push(groups.last())
        }
    }
}

/// The contents of the groups in `batches`.
pub open spec fn group_views(batches: Seq<Vec<usize>>) -> Seq<Seq<usize>> {
    batches.map_values(|batch: Vec<usize>| batch@)
}

impl BatchPlan {
    /// The batches as sequences of positions.
    pub open spec fn batch_views(&self) -> Seq<Seq<usize>> {
        group_views(self.batches@)
    }

    /// Whether this is the plan for `keys`: the groups of positions with the
    /// same key, in the order of their first members, large ones as batches and
    /// the members of the others as individuals.
    pub open spec fn plans(&self, keys: Seq<BatchKey>) -> bool {
        &&& self.batch_views() == large_groups(groups_of(keys))
        &&& self.individuals@ == flat(small_groups(groups_of(keys)))
    }
}

proof fn lemma_distinct_keys(keys: Seq<BatchKey>, n: nat)
    requires
        n <= keys.len(),
    ensures
        distinct_keys(keys, n).len() <= n,
        forall|i: int|
            0 <= i < n ==> distinct_keys(keys, n).contains(#[trigger] keys[i]),
        forall|g: int|
            0 <= g < distinct_keys(keys, n).len() ==> exists|i: int|
                0 <= i < n && keys[i] == #[trigger] distinct_keys(keys, n)[g],
        forall|g: int, h: int|
            #![trigger distinct_keys(keys, n)[g], distinct_keys(keys, n)[h]]
            0 <= g < h < distinct_keys(keys, n).len() ==> distinct_keys(keys, n)[g]
                != distinct_keys(keys, n)[h],
    decreases n,
{
    if n > 0 {
        let m = (n - 1) as nat;
        lemma_distinct_keys(keys, m);
        let rest = distinct_keys(keys, m);
        let all = distinct_keys(keys, n);
        assert forall|i: int| 0 <= i < n implies all.contains(#[trigger] keys[i]) by {
            if i < m {
                assert(rest.contains(keys[i]));
                let g = rest.index_of(keys[i]);
                assert(all[g] == keys[i]);
            } else if !rest.contains(keys[i]) {
                assert(all[rest.len() as int] == keys[i]);
            }
        }
        assert forall|g: int| 0 <= g < all.len() implies exists|i: int|
            0 <= i < n && keys[i] == #[trigger] all[g] by {
            if g < rest.len() {
                assert(rest[g] == all[g]);
                let i = choose|i: int| 0 <= i < m && keys[i] == rest[g];
                assert(keys[i] == all[g]);
            } else {
                assert(keys[n - 1] == all[g]);
            }
        }
        assert forall|g: int, h: int|
            #![trigger all[g], all[h]]
            0 <= g < h < all.len() implies all[g] != all[h] by {
            if h < rest.len() {
                assert(rest[g] == all[g] && rest[h] == all[h]);
            } else {
                assert(rest[g] == all[g]);
                assert(rest.contains(all[g]));
            }
        }
    }
}

/// The groups below one more position: that position joins the group of its
/// key, or begins one.
proof fn lemma_groups_grow(keys: Seq<BatchKey>, n: nat)
    requires
        n < keys.len(),
        keys.len() <= usize::MAX,
    ensures
        distinct_keys(keys, n).contains(keys[n as int]) ==> {
            let g = distinct_keys(keys, n).index_of(keys[n as int]);
            groups_below(keys, n + 1) == groups_below(keys, n).update(
                g,
                groups_below(keys, n)[g].push(n as usize),
            )
        },
        !distinct_keys(keys, n).contains(keys[n as int]) ==> groups_below(keys, n + 1)
            == groups_below(keys, n).push(seq![n as usize]),
{
    let key = keys[n as int];
    let seen = distinct_keys(keys, n);
    let before = groups_below(keys, n);
    let after = groups_below(keys, n + 1);
    lemma_distinct_keys(keys, n);
    if seen.contains(key) {
        let g = seen.index_of(key);
        let expected = before.update(g, before[g].push(n as usize));
        assert forall|h: int| 0 <= h < after.len() implies after[h] == expected[h] by {
            if h < g {
                assert(seen[h] != seen[g]);
            }
            if g < h {
                assert(seen[g] != seen[h]);
            }
        }
        assert(after =~= expected);
    } else {
        let expected = before.push(seq![n as usize]);
        let keep = stands(keys, key);
        let none = picked(n, keep);
        lemma_picked(n, keep);
        if none.len() > 0 {
            assert(keep(none[0] as int));
            assert(seen.contains(keys[none[0] as int]));
        }
        assert(none =~= Seq::<usize>::empty());
        assert(members(keys, n + 1, key) == picked(n + 1, keep));
        assert(members(keys, n + 1, key) =~= seq![n as usize]);
        assert forall|h: int| 0 <= h < after.len() implies after[h] == expected[h] by {
            if h < seen.len() {
                assert(seen.contains(seen[h]));
            } else {
                assert(distinct_keys(keys, n + 1)[h] == key);
                assert(after[h] == members(keys, n + 1, key));
            }
        }
        assert(after =~= expected);
    }
}

/// The groups hold every position once.
proof fn lemma_groups_total(keys: Seq<BatchKey>, n: nat)
    requires
        n <= keys.len(),
        keys.len() <= usize::MAX,
    ensures
        total_len(groups_below(keys, n)) == n,
    decreases n,
{
    if n == 0 {
        assert(groups_below(keys, 0) =~= Seq::<Seq<usize>>::empty());
    } else {
        let m = (n - 1) as nat;
        lemma_groups_total(keys, m);
        lemma_groups_grow(keys, m);
        let before = groups_below(keys, m);
        if distinct_keys(keys, m).contains(keys[m as int]) {
            let g = distinct_keys(keys, m).index_of(keys[m as int]);
            lemma_total_len_update(before, g, before[g].push(m as usize));
        } else {
            let after = before.push(seq![m as usize]);
            assert(after.drop_last() =~= before);
            assert(after.last() == seq![m as usize]);
        }
    }
}

proof fn lemma_large_and_small(groups: Seq<Seq<usize>>)
    ensures
        total_len(large_groups(groups)) + total_len(small_groups(groups)) == total_len(groups),
        forall|b: int|
            0 <= b < large_groups(groups).len() ==> (#[trigger] large_groups(groups)[b]).len()
                >= MIN_AUTO_BATCH_SIZE && groups.contains(large_groups(groups)[b]),
        forall|s: int|
            0 <= s < small_groups(groups).len() ==> (#[trigger] small_groups(groups)[s]).len()
                < MIN_AUTO_BATCH_SIZE && groups.contains(small_groups(groups)[s]),
        forall|g: int|
            0 <= g < groups.len() ==> if (#[trigger] groups[g]).len() >= MIN_AUTO_BATCH_SIZE {
                large_groups(groups).contains(groups[g])
            } else {
                small_groups(groups).contains(groups[g])
            },
    decreases groups.len(),
{
    if groups.len() > 0 {
        let rest = groups.drop_last();
        let last = groups.last();
        lemma_large_and_small(rest);
        let large = large_groups(groups);
        let small = small_groups(groups);
        if last.len() >= MIN_AUTO_BATCH_SIZE {
            assert(large.drop_last() =~= large_groups(rest));
        } else {
            assert(small.drop_last() =~= small_groups(rest));
        }
        assert forall|b: int| 0 <= b < large.len() implies (#[trigger] large[b]).len()
            >= MIN_AUTO_BATCH_SIZE && groups.contains(large[b]) by {
            if b < large_groups(rest).len() {
                assert(large_groups(rest)[b] == large[b]);
                assert(rest.contains(large[b]));
                let g = rest.index_of(large[b]);
                assert(groups[g] == large[b]);
            } else {
                assert(groups[groups.len() - 1] == large[b]);
            }
        }
        assert forall|s: int| 0 <= s < small.len() implies (#[trigger] small[s]).len()
            < MIN_AUTO_BATCH_SIZE && groups.contains(small[s]) by {
            if s < small_groups(rest).len() {
                assert(small_groups(rest)[s] == small[s]);
                assert(rest.contains(small[s]));
                let g = rest.index_of(small[s]);
                assert(groups[g] == small[s]);
            } else {
                assert(groups[groups.len() - 1] == small[s]);
            }
        }
        assert forall|g: int| 0 <= g < groups.len() implies if (#[trigger] groups[g]).len()
            >= MIN_AUTO_BATCH_SIZE {
            large.contains(groups[g])
        } else {
            small.contains(groups[g])
        } by {
            if g < rest.len() {
                assert(rest[g] == groups[g]);
                if rest[g].len() >= MIN_AUTO_BATCH_SIZE {
                    let b = large_groups(rest).index_of(rest[g]);
                    assert(large[b] == groups[g]);
                } else {
                    let s = small_groups(rest).index_of(rest[g]);
                    assert(small[s] == groups[g]);
                }
            } else if last.len() >= MIN_AUTO_BATCH_SIZE {
                assert(large[large.len() - 1] == groups[g]);
            } else {
                assert(small[small.len() - 1] == groups[g]);
            }
        }
    }
}

/// A batch plan draws every mesh exactly once: the individuals and the members
/// of the batches are together as many as the meshes, a mesh is an individual
/// exactly if no other shares its mesh and material, and it is in a batch, with
/// all those that share them and no others, exactly if some other does.
pub proof fn law_batch_plan_draws_each_mesh_once(plan: BatchPlan, keys: Seq<BatchKey>)
    requires
        keys.len() <= usize::MAX,
        plan.plans(keys),
    ensures
        plan.individuals@.len() + total_len(plan.batch_views()) == keys.len(),
        forall|i: usize|
            i < keys.len() ==> (#[trigger] plan.individuals@.contains(i) <==> forall|j: int|
                0 <= j < keys.len() && j != i ==> #[trigger] keys[j] != keys[i as int]),
        forall|b: int, i: usize|
            0 <= b < plan.batch_views().len() ==> (
            #[trigger] plan.batch_views()[b].contains(i) <==> i < keys.len() && keys[i as int]
                == keys[plan.batch_views()[b][0] as int]),
        forall|b: int|
            0 <= b < plan.batch_views().len() ==> (#[trigger] plan.batch_views()[b]).len()
                >= MIN_AUTO_BATCH_SIZE,
{
    let groups = groups_of(keys);
    let seen = distinct_keys(keys, keys.len());
    lemma_groups_total(keys, keys.len());
    lemma_large_and_small(groups);
    lemma_flat_len(small_groups(groups));
    lemma_distinct_keys(keys, keys.len());
    assert forall|b: int, i: usize| 0 <= b < plan.batch_views().len() implies (
    #[trigger] plan.batch_views()[b].contains(i) <==> i < keys.len() && keys[i as int]
        == keys[plan.batch_views()[b][0] as int]) by {
        let batch = plan.batch_views()[b];
        assert(large_groups(groups)[b] == batch);
        assert(groups.contains(batch));
        let g = groups.index_of(batch);
        let keep = stands(keys, seen[g]);
        assert(batch == picked(keys.len(), keep));
        lemma_picked(keys.len(), keep);
        assert(keep(batch[0] as int));
    }
    assert forall|i: usize| i < keys.len() implies (#[trigger] plan.individuals@.contains(i)
        <==> forall|j: int|
        0 <= j < keys.len() && j != i ==> #[trigger] keys[j] != keys[i as int]) by {
        let key = keys[i as int];
        assert(seen.contains(key));
        let g = seen.index_of(key);
        let keep = stands(keys, seen[g]);
        let group = picked(keys.len(), keep);
        assert(groups[g] == group);
        lemma_picked(keys.len(), keep);
        assert(keep(i as int));
        assert(group.contains(i));
        lemma_flat_contains(small_groups(groups), i);
        if plan.individuals@.contains(i) {
            let s = choose|s: int|
                0 <= s < small_groups(groups).len() && (
                #[trigger] small_groups(groups)[s]).contains(i);
            let small = small_groups(groups)[s];
            assert(groups.contains(small));
            let h = groups.index_of(small);
            let other = stands(keys, seen[h]);
            lemma_picked(keys.len(), other);
            assert(small == picked(keys.len(), other));
            assert(other(i as int));
            assert(g == h) by {
                if g < h {
                    assert(seen[g] != seen[h]);
                }
                if h < g {
                    assert(seen[h] != seen[g]);
                }
            }
            assert forall|j: int| 0 <= j < keys.len() && j != i implies #[trigger] keys[j]
                != key by {
                if keys[j] == key {
                    assert(keep(j));
                    assert(group.contains(j as usize));
                    let a = group.index_of(i);
                    let c = group.index_of(j as usize);
                    assert(group[a] == i && group[c] == j as usize);
                    assert(group.len() == 1);
                }
            }
        }
        if forall|j: int|
            0 <= j < keys.len() && j != i ==> #[trigger] keys[j] != keys[i as int] {
            if group.len() >= 2 {
                assert(keep(group[0] as int));
                assert(keep(group[1] as int));
                assert(group[0] < group[1]);
            }
            assert(group.len() < MIN_AUTO_BATCH_SIZE);
            assert(small_groups(groups).contains(groups[g]));
            let s = small_groups(groups).index_of(group);
            assert(small_groups(groups)[s].contains(i));
        }
    }
}

/// Groups `keys`, one mesh and material per visible mesh in encounter order,
/// into a plan. The groups, and the members of each, are in the order of first
/// encounter, so that the draw list is stable from frame to frame.
pub fn plan_auto_batches(keys: &[BatchKey]) -> (plan: BatchPlan)
    ensures
        plan.plans(keys@),
{
    let mut seen: Vec<BatchKey> = Vec::new();
    let mut groups: Vec<Vec<usize>> = Vec::new();
    assert(group_views(groups@) =~= groups_below(keys@, 0));
    for index in 0..keys.len()
        invariant
            seen@ == distinct_keys(keys@, index as nat),
            group_views(groups@) == groups_below(keys@, index as nat),
    {
        let ghost before = group_views(groups@);
        proof {
            lemma_groups_grow(keys@, index as nat);
        }
        match slot_of(&seen, keys[index]) {
            Some(slot) => {
                assert(seen@.index_of(keys@[index as int]) == slot) by {
                    lemma_distinct_keys(keys@, index as nat);
                    let g = seen@.index_of(keys@[index as int]);
                    assert(seen@[g] == seen@[slot as int]);
                    if g < slot {
                        assert(seen@[g] != seen@[slot as int]);
                    }
                    if slot < g {
                        assert(seen@[slot as int] != seen@[g]);
                    }
                }
                assert(before.len() == seen@.len());
                groups[slot].push(index);
                assert(group_views(groups@) =~= before.update(
                    slot as int,
                    before[slot as int].push(index),
                ));
            },
            None => {
                seen.push(keys[index]);
                let mut group: Vec<usize> = Vec::new();
                group.push(index);
                groups.push(group);
                assert(group@ =~= seq![index]);
                assert(group_views(groups@) =~= before.push(seq![index]));
            },
        }
    }
    let ghost all = group_views(groups@);
    let mut individuals: Vec<usize> = Vec::new();
    let mut batches: Vec<Vec<usize>> = Vec::new();
    assert(all.take(0) =~= Seq::<Seq<usize>>::empty());
    assert(group_views(batches@) =~= Seq::<Seq<usize>>::empty());
    for g in 0..groups.len()
        invariant
            all == group_views(groups@),
            group_views(batches@) == large_groups(all.take(g as int)),
            individuals@ == flat(small_groups(all.take(g as int))),
    {
        let ghost batched = group_views(batches@);
        let ghost alone = individuals@;
        let mut group = copy_positions(&groups[g]);
        proof {
            assert(all.take(g + 1).drop_last() =~= all.take(g as int));
            assert(all.take(g + 1).last() == group@);
        }
        if group.len() >= MIN_AUTO_BATCH_SIZE {
            batches.push(group);
            assert(group_views(batches@) =~= batched.push(group@));
        } else {
            let ghost small = small_groups(all.take(g as int));
            let ghost content = group@;
            individuals.append(&mut group);
            assert(small.push(content).drop_last() =~= small);
        }
    }
    assert(all.take(all.len() as int) =~= all);
    BatchPlan { individuals, batches }
}

/// The place of `key` among the keys seen so far.
fn slot_of(seen: &Vec<BatchKey>, key: BatchKey) -> (slot: Option<usize>)
    ensures
        match slot {
            Some(g) => g < seen.len() && seen@[g as int] == key,
            None => !seen@.contains(key),
        },
{
    for g in 0..seen.len()
        invariant
            forall|h: int| 0 <= h < g ==> seen@[h] != key,
    {
        if seen[g].0 == key.0 && seen[g].1 == key.1 {
            return Some(g);
        }
    }
    None
}

fn copy_positions(positions: &Vec<usize>) -> (copy: Vec<usize>)
    ensures
        copy@ == positions@,
{
    let mut copy: Vec<usize> = Vec::new();
    for i in 0..positions.len()
        invariant
            copy@ == positions@.take(i as int),
    {
        copy.push(positions[i]);
    }
    copy
}

/// What one rendered frame did.
///
/// `meshes_total - meshes_drawn` is the number of meshes that frustum culling
/// removed from the scene pass. Every resolved mesh, culled or not, still casts
/// a shadow, so `meshes_total` is also the shadow-caster count. The scene pass
/// draws `(meshes_drawn - auto_batched_drawn) + auto_batches` times for them.
#[derive(Debug, Clone, Copy, PartialEq, Eq, Structural)]
pub struct RenderStats {
    /// Meshes with both their handles registered.
    pub meshes_total: u32,
    /// Of these, how many were inside the camera frustum and so drawn.
    pub meshes_drawn: u32,
    /// Skinned meshes drawn.
    pub skinned_drawn: u32,
    /// Instances of all instanced meshes, before culling.
    pub instances_total: u32,
    /// Of these, how many were inside the camera frustum and so drawn.
    pub instances_drawn: u32,
    /// Instanced draws that merge meshes sharing a mesh and a material.
    pub auto_batches: u32,
    /// Meshes merged into those draws.
    pub auto_batched_drawn: u32,
    /// Plants of all vegetation, before culling.
    pub vegetation_total: u32,
    /// Of these, how many were inside the camera frustum and so drawn.
    pub vegetation_drawn: u32,
    /// Sprites drawn.
    pub sprites_drawn: u32,
}

impl Default for RenderStats {
    fn default() -> (stats: RenderStats)
        ensures
            stats == (RenderStats {
                meshes_total: 0,
                meshes_drawn: 0,
                skinned_drawn: 0,
                instances_total: 0,
                instances_drawn: 0,
                auto_batches: 0,
                auto_batched_drawn: 0,
                vegetation_total: 0,
                vegetation_drawn: 0,
                sprites_drawn: 0,
            }),
    {
        RenderStats {
            meshes_total: 0,
            meshes_drawn: 0,
            skinned_drawn: 0,
            instances_total: 0,
            instances_drawn: 0,
            auto_batches: 0,
            auto_batched_drawn: 0,
            vegetation_total: 0,
            vegetation_drawn: 0,
            sprites_drawn: 0,
        }
    }
}

/// One mesh entity as the frame finds it.
#[derive(Debug, Clone, Copy)]
pub struct MeshInput {
    /// The mesh it draws.
    pub mesh: AssetId,
    /// The material it draws it with.
    pub material: AssetId,
    /// Whether the mesh is registered with the renderer.
    pub mesh_registered: bool,
    /// Whether the material is registered with the renderer.
    pub material_registered: bool,
    /// Whether its bounds reach into the camera frustum.
    pub visible: bool,
    /// Whether its material is blended.
    pub transparent: bool,
    /// How far into the view volume it lies.
    pub depth: Scalar,
}

/// One skinned mesh entity as the frame finds it.
#[derive(Debug, Clone, Copy)]
pub struct SkinnedInput {
    /// Whether the skinned mesh is registered with the renderer.
    pub mesh_registered: bool,
    /// Whether the material is registered with the renderer.
    pub material_registered: bool,
}

/// One instanced mesh or vegetation entity as the frame finds it.
pub struct InstancedInput {
    /// Whether the mesh is registered with the renderer.
    pub mesh_registered: bool,
    /// Whether the material is registered with the renderer.
    pub material_registered: bool,
    /// Of each instance, whether its bounds reach into the camera frustum.
    pub in_view: Vec<bool>,
}

/// One sprite as the frame finds it.
#[derive(Debug, Clone, Copy)]
pub struct SpriteInput {
    /// The sprite's layer.
    pub z_order: Scalar,
    /// How far into the view volume it lies.
    pub depth: Scalar,
    /// The entity that carries it.
    pub entity: u64,
}

/// One instanced draw: the entity it is for and the instances it draws.
pub struct InstancedDraw {
    /// The entity's position in the input.
    pub source: usize,
    /// The positions of the instances inside the camera frustum.
    pub instances: Vec<usize>,
}

impl MeshInput {
    /// Whether both handles are registered.
    pub open spec fn resolved(self) -> bool {
        self.mesh_registered && self.material_registered
    }
}

impl SkinnedInput {
    /// Whether both handles are registered.
    pub open spec fn resolved(self) -> bool {
        self.mesh_registered && self.material_registered
    }
}

impl InstancedInput {
    /// Whether both handles are registered.
    pub open spec fn resolved(self) -> bool {
        self.mesh_registered && self.material_registered
    }

    /// The positions of the instances inside the camera frustum.
    pub open spec fn visible(self) -> Seq<usize> {
        picked(self.in_view@.len(), |i: int| self.in_view@[i])
    }
}

/// Holds of the meshes that cast a shadow.
pub open spec fn casts(meshes: Seq<MeshInput>) -> spec_fn(int) -> bool {
    |i: int| meshes[i].resolved()
}

/// Holds of the meshes that the scene pass draws opaque.
pub open spec fn draws_opaque(meshes: Seq<MeshInput>) -> spec_fn(int) -> bool {
    |i: int| meshes[i].resolved() && meshes[i].visible && !meshes[i].transparent
}

/// Holds of the meshes that the scene pass blends.
pub open spec fn draws_blended(meshes: Seq<MeshInput>) -> spec_fn(int) -> bool {
    |i: int| meshes[i].resolved() && meshes[i].visible && meshes[i].transparent
}

/// Holds of the meshes that frustum culling removes from the scene pass.
pub open spec fn culled(meshes: Seq<MeshInput>) -> spec_fn(int) -> bool {
    |i: int| meshes[i].resolved() && !meshes[i].visible
}

/// Holds of the skinned meshes that are drawn.
pub open spec fn draws_skinned(skinned: Seq<SkinnedInput>) -> spec_fn(int) -> bool {
    |i: int| skinned[i].resolved()
}

/// The keys by which the opaque meshes are batched.
pub open spec fn opaque_keys(meshes: Seq<MeshInput>) -> Seq<BatchKey> {
    picked(meshes.len(), draws_opaque(meshes)).map_values(
        |i: usize| (meshes[i as int].mesh, meshes[i as int].material),
    )
}

/// A blended mesh, ordered by its depth.
#[derive(Debug, Clone, Copy)]
pub struct BlendKey {
    /// How far into the view volume it lies.
    pub depth: Scalar,
    /// Its position in the input.
    pub position: usize,
}

impl Ordered for BlendKey {
    /// The farther surface is drawn first, so that nearer ones blend over it.
    open spec fn before(&self, other: &BlendKey) -> bool {
        self.depth.place() > other.depth.place()
    }

    proof fn before_is_asymmetric(a: &BlendKey, b: &BlendKey) {
    }

    proof fn not_before_is_transitive(a: &BlendKey, b: &BlendKey, c: &BlendKey) {
    }

    fn precedes(&self, other: &BlendKey) -> (answer: bool) {
        self.depth.place_of() > other.depth.place_of()
    }
}

/// A sprite, ordered by its layer, its depth and its entity.
#[derive(Debug, Clone, Copy)]
pub struct SpriteKey {
    /// The sprite.
    pub sprite: SpriteInput,
    /// Its position in the input.
    pub position: usize,
}

impl Ordered for SpriteKey {
    /// Lower layers are drawn first, farther sprites of one layer before nearer
    /// ones, and the entity decides between sprites that nothing else tells
    /// apart.
    open spec fn before(&self, other: &SpriteKey) -> bool {
        let (a, b) = (self.sprite, other.sprite);
        ||| a.z_order.place() < b.z_order.place()
        ||| a.z_order.place() == b.z_order.place() && a.depth.place() > b.depth.place()
        ||| a.z_order.place() == b.z_order.place() && a.depth.place() == b.depth.place() && a.entity
            < b.entity
    }

    proof fn before_is_asymmetric(a: &SpriteKey, b: &SpriteKey) {
    }

    proof fn not_before_is_transitive(a: &SpriteKey, b: &SpriteKey, c: &SpriteKey) {
    }

    fn precedes(&self, other: &SpriteKey) -> (answer: bool) {
        let z: i64 = self.sprite.z_order.place_of();
        let other_z: i64 = other.sprite.z_order.place_of();
        let depth: i64 = self.sprite.depth.place_of();
        let other_depth: i64 = other.sprite.depth.place_of();
        z < other_z || (z == other_z && depth > other_depth) || (z == other_z && depth
            == other_depth && self.sprite.entity < other.sprite.entity)
    }
}

/// The blended meshes with what orders them.
pub open spec fn blend_keys(meshes: Seq<MeshInput>) -> Seq<BlendKey> {
    picked(meshes.len(), draws_blended(meshes)).map_values(
        |i: usize| BlendKey { depth: meshes[i as int].depth, position: i },
    )
}

/// The blended meshes, farthest first; at the same depth in input order.
pub open spec fn blend_order(meshes: Seq<MeshInput>) -> Seq<usize> {
    sorted(blend_keys(meshes)).map_values(|key: BlendKey| key.position)
}

/// The sprites with what orders them.
pub open spec fn sprite_keys(sprites: Seq<SpriteInput>) -> Seq<SpriteKey> {
    Seq::new(
        sprites.len(),
        |i: int| SpriteKey { sprite: sprites[i], position: i as usize },
    )
}

/// The sprites in draw order.
pub open spec fn sprite_order(sprites: Seq<SpriteInput>) -> Seq<usize> {
    sorted(sprite_keys(sprites)).map_values(|key: SpriteKey| key.position)
}

/// The instanced draws: one for each resolved entity with an instance inside
/// the camera frustum, in input order.
pub open spec fn instanced_draws(inputs: Seq<InstancedInput>) -> Seq<(usize, Seq<usize>)>
    decreases inputs.len(),
{
    if inputs.len() == 0 {
        Seq::empty()
    } else {
        let rest = instanced_draws(inputs.drop_last());
        let last = inputs.last();
        if last.resolved() && last.visible().len() > 0 {
            rest.push(((inputs.len() - 1) as usize, last.visible()))
        } else {
            rest
        }
    }
}

/// The instances of all resolved entities.
pub open spec fn instance_total(inputs: Seq<InstancedInput>) -> int
    decreases inputs.len(),
{
    if inputs.len() == 0 {
        0
    } else {
        let last = inputs.last();
        instance_total(inputs.drop_last()) + if last.resolved() {
            last.in_view@.len() as int
        } else {
            0
        }
    }
}

/// The instances that the draws draw.
pub open spec fn instances_in(draws: Seq<(usize, Seq<usize>)>) -> int
    decreases draws.len(),
{
    if draws.len() == 0 {
        0
    } else {
        instances_in(draws.drop_last()) + draws.last().1.len()
    }
}

/// The contents of the draws.
pub open spec fn draw_views(draws: Seq<InstancedDraw>) -> Seq<(usize, Seq<usize>)> {
    draws.map_values(|draw: InstancedDraw| (draw.source, draw.instances@))
}

/// What one frame draws.
pub struct FramePlan {
    /// The meshes drawn into the shadow map.
    pub shadow_casters: Vec<usize>,
    /// The meshes the scene pass draws opaque.
    pub opaque: Vec<usize>,
    /// How the opaque meshes are split into draws, by their positions in
    /// `opaque`.
    pub batching: BatchPlan,
    /// The meshes the scene pass blends, farthest first.
    pub transparent: Vec<usize>,
    /// The skinned meshes drawn.
    pub skinned: Vec<usize>,
    /// The instanced draws.
    pub instanced: Vec<InstancedDraw>,
    /// The vegetation draws.
    pub vegetation: Vec<InstancedDraw>,
    /// The sprites in draw order.
    pub sprites: Vec<usize>,
    /// What the frame did, in numbers.
    pub stats: RenderStats,
}

/// What there may be or not, as a sequence.
pub open spec fn all_of<T>(items: Option<&[T]>) -> Seq<T> {
    match items {
        Some(items) => items@,
        None => Seq::empty(),
    }
}

impl FramePlan {
    /// Whether the draw lists are those of a frame with the given entities.
    pub open spec fn lists(
        &self,
        meshes: Seq<MeshInput>,
        skinned: Seq<SkinnedInput>,
        instanced: Seq<InstancedInput>,
        vegetation: Seq<InstancedInput>,
        sprites: Seq<SpriteInput>,
    ) -> bool {
        &&& self.shadow_casters@ == picked(meshes.len(), casts(meshes))
        &&& self.opaque@ == picked(meshes.len(), draws_opaque(meshes))
        &&& self.batching.plans(opaque_keys(meshes))
        &&& self.transparent@ == blend_order(meshes)
        &&& self.skinned@ == picked(skinned.len(), draws_skinned(skinned))
        &&& draw_views(self.instanced@) == instanced_draws(instanced)
        &&& draw_views(self.vegetation@) == instanced_draws(vegetation)
        &&& self.sprites@ == sprite_order(sprites)
    }

    /// Whether the numbers are those of the draw lists.
    pub open spec fn counts(
        &self,
        instanced: Seq<InstancedInput>,
        vegetation: Seq<InstancedInput>,
    ) -> bool {
        &&& self.stats.meshes_total == self.shadow_casters@.len()
        &&& self.stats.meshes_drawn == self.opaque@.len() + self.transparent@.len()
        &&& self.stats.skinned_drawn == self.skinned@.len()
        &&& self.stats.instances_total == instance_total(instanced)
        &&& self.stats.instances_drawn == instances_in(draw_views(self.instanced@))
        &&& self.stats.auto_batches == self.batching.batches@.len()
        &&& self.stats.auto_batched_drawn == total_len(self.batching.batch_views())
        &&& self.stats.vegetation_total == instance_total(vegetation)
        &&& self.stats.vegetation_drawn == instances_in(draw_views(self.vegetation@))
        &&& self.stats.sprites_drawn == self.sprites@.len()
    }
}

/// The sprites in draw order: lower layers first, farther sprites of one layer
/// before nearer ones, and by entity where nothing else tells them apart.
pub fn extract_sprites(sprites: &[SpriteInput]) -> (order: Vec<usize>)
    ensures
        order@ == sprite_order(sprites@),
        order@.len() == sprites@.len(),
{
    let mut keys: Vec<SpriteKey> = Vec::new();
    for i in 0..sprites.len()
        invariant
            keys@ == sprite_keys(sprites@).take(i as int),
    {
        keys.push(SpriteKey { sprite: sprites[i], position: i });
        assert(keys@ =~= sprite_keys(sprites@).take(i + 1));
    }
    assert(sprite_keys(sprites@).take(sprites@.len() as int) =~= sprite_keys(sprites@));
    proof {
        lemma_sorted(sprite_keys(sprites@));
    }
    let keys = sort(keys);
    let mut order: Vec<usize> = Vec::new();
    for i in 0..keys.len()
        invariant
            keys@ == sorted(sprite_keys(sprites@)),
            order@ == sprite_order(sprites@).take(i as int),
    {
        order.push(keys[i].position);
        assert(order@ =~= sprite_order(sprites@).take(i + 1));
    }
    assert(sprite_order(sprites@).take(keys@.len() as int) =~= sprite_order(sprites@));
    order
}

/// The blended meshes, farthest first; at the same depth in input order.
fn order_blended(meshes: &[MeshInput]) -> (order: Vec<usize>)
    ensures
        order@ == blend_order(meshes@),
        order@.len() == picked(meshes@.len(), draws_blended(meshes@)).len(),
{
    let ghost keep = draws_blended(meshes@);
    let mut keys: Vec<BlendKey> = Vec::new();
    let ghost mut chosen: Seq<usize> = Seq::empty();
    for i in 0..meshes.len()
        invariant
            keep == draws_blended(meshes@),
            chosen == picked(i as nat, keep),
            keys@ == chosen.map_values(
                |i: usize| BlendKey { depth: meshes@[i as int].depth, position: i },
            ),
    {
        let mesh = meshes[i];
        if mesh.mesh_registered && mesh.material_registered && mesh.visible && mesh.transparent {
            keys.push(BlendKey { depth: mesh.depth, position: i });
            proof {
                chosen = chosen.push(i);
            }
        }
    }
    proof {
        assert(keys@ =~= blend_keys(meshes@));
        lemma_sorted(blend_keys(meshes@));
    }
    let keys = sort(keys);
    let mut order: Vec<usize> = Vec::new();
    for i in 0..keys.len()
        invariant
            keys@ == sorted(blend_keys(meshes@)),
            order@ == blend_order(meshes@).take(i as int),
    {
        order.push(keys[i].position);
        assert(order@ =~= blend_order(meshes@).take(i + 1));
    }
    assert(blend_order(meshes@).take(keys@.len() as int) =~= blend_order(meshes@));
    order
}

proof fn lemma_instances(inputs: Seq<InstancedInput>)
    requires
        inputs.len() <= usize::MAX,
    ensures
        0 <= instances_in(instanced_draws(inputs)) <= instance_total(inputs),
    decreases inputs.len(),
{
    if inputs.len() > 0 {
        lemma_instances(inputs.drop_last());
        let rest = instanced_draws(inputs.drop_last());
        let last = inputs.last();
        if last.resolved() {
            let ghost keep = |i: int| last.in_view@[i];
            assert(last.visible() == picked(last.in_view@.len(), keep));
            assert(last.in_view@.len() == last.in_view.len());
            lemma_picked(last.in_view@.len(), keep);
            assert(rest.push(((inputs.len() - 1) as usize, last.visible())).drop_last() =~= rest);
        }
    }
}

/// The instanced draws for `inputs`, and how many instances there are and are
/// drawn.
fn plan_instanced(inputs: &[InstancedInput]) -> (plan: (Vec<InstancedDraw>, u32, u32))
    requires
        instance_total(inputs@) <= u32::MAX,
    ensures
        draw_views(plan.0@) == instanced_draws(inputs@),
        plan.1 == instance_total(inputs@),
        plan.2 == instances_in(draw_views(plan.0@)),
{
    let mut draws: Vec<InstancedDraw> = Vec::new();
    let mut total: u32 = 0;
    let mut drawn: u32 = 0;
    assert(inputs@.take(0) =~= Seq::<InstancedInput>::empty());
    assert(draw_views(draws@) =~= instanced_draws(inputs@.take(0)));
    for i in 0..inputs.len()
        invariant
            instance_total(inputs@) <= u32::MAX,
            draw_views(draws@) == instanced_draws(inputs@.take(i as int)),
            total == instance_total(inputs@.take(i as int)),
            drawn == instances_in(draw_views(draws@)),
    {
        let ghost before = draw_views(draws@);
        proof {
            assert(inputs@.take(i + 1).drop_last() =~= inputs@.take(i as int));
            lemma_instance_total_grows(inputs@, i + 1);
            lemma_instances(inputs@.take(i + 1));
        }
        let input = &inputs[i];
        if input.mesh_registered && input.material_registered {
            total = total + input.in_view.len() as u32;
            let instances = visible_instances(input);
            if instances.len() > 0 {
                assert(before.push((i, instances@)).drop_last() =~= before);
                drawn = drawn + instances.len() as u32;
                draws.push(InstancedDraw { source: i, instances });
                assert(draw_views(draws@) =~= before.push((i, instances@)));
            }
        }
    }
    assert(inputs@.take(inputs@.len() as int) =~= inputs@);
    (draws, total, drawn)
}

pub proof fn lemma_instance_total_grows(inputs: Seq<InstancedInput>, n: int)
    requires
        0 <= n <= inputs.len(),
    ensures
        0 <= instance_total(inputs.take(n)) <= instance_total(inputs),
    decreases inputs.len(),
{
    if n == inputs.len() {
        assert(inputs.take(n) =~= inputs);
        if n > 0 {
            lemma_instance_total_grows(inputs.drop_last(), n - 1);
        }
    } else {
        assert(inputs.drop_last().take(n) =~= inputs.take(n));
        lemma_instance_total_grows(inputs.drop_last(), n);
    }
}

/// The positions of the instances inside the camera frustum.
fn visible_instances(input: &InstancedInput) -> (instances: Vec<usize>)
    ensures
        instances@ == input.visible(),
        instances@.len() <= input.in_view@.len(),
{
    let ghost keep = |i: int| input.in_view@[i];
    let mut instances: Vec<usize> = Vec::new();
    for i in 0..input.in_view.len()
        invariant
            keep == (|i: int| input.in_view@[i]),
            instances@ == picked(i as nat, keep),
            instances@.len() <= i,
    {
        if input.in_view[i] {
            instances.push(i);
        }
    }
    instances
}

/// Plans one frame: which entities it draws, how, in which order, and the
/// numbers that describe it.
///
/// A mesh of which a handle is not registered is skipped. Every other mesh casts
/// a shadow. Those inside the camera frustum are drawn: opaque ones batched
/// where several share a mesh and a material, blended ones one by one from back
/// to front. Skinned meshes are not culled. Without a vegetation or a sprite
/// pipeline (`None`) neither is drawn nor counted.
pub fn plan_frame(
    meshes: &[MeshInput],
    skinned: &[SkinnedInput],
    instanced: &[InstancedInput],
    vegetation: Option<&[InstancedInput]>,
    sprites: Option<&[SpriteInput]>,
) -> (plan: FramePlan)
    requires
        meshes@.len() <= u32::MAX,
        skinned@.len() <= u32::MAX,
        all_of(sprites).len() <= u32::MAX,
        instance_total(instanced@) <= u32::MAX,
        instance_total(all_of(vegetation)) <= u32::MAX,
    ensures
        plan.lists(meshes@, skinned@, instanced@, all_of(vegetation), all_of(sprites)),
        plan.counts(instanced@, all_of(vegetation)),
{
    let ghost casts = casts(meshes@);
    let ghost opaque_of = draws_opaque(meshes@);
    let mut shadow_casters: Vec<usize> = Vec::new();
    let mut opaque: Vec<usize> = Vec::new();
    let mut keys: Vec<BatchKey> = Vec::new();
    for i in 0..meshes.len()
        invariant
            casts == self::casts(meshes@),
            opaque_of == draws_opaque(meshes@),
            shadow_casters@ == picked(i as nat, casts),
            opaque@ == picked(i as nat, opaque_of),
            keys@ == opaque@.map_values(
                |i: usize| (meshes@[i as int].mesh, meshes@[i as int].material),
            ),
    {
        let mesh = meshes[i];
        if mesh.mesh_registered && mesh.material_registered {
            shadow_casters.push(i);
            if mesh.visible && !mesh.transparent {
                opaque.push(i);
                keys.push((mesh.mesh, mesh.material));
            }
        }
    }
    assert(keys@ =~= opaque_keys(meshes@));
    let transparent = order_blended(meshes);
    let batching = plan_auto_batches(&keys);

    let ghost skins = draws_skinned(skinned@);
    let mut skinned_drawn: Vec<usize> = Vec::new();
    for i in 0..skinned.len()
        invariant
            skins == draws_skinned(skinned@),
            skinned_drawn@ == picked(i as nat, skins),
            skinned_drawn@.len() <= i,
    {
        if skinned[i].mesh_registered && skinned[i].material_registered {
            skinned_drawn.push(i);
        }
    }

    let (instanced_list, instances_total, instances_drawn) = plan_instanced(instanced);
    let (vegetation_list, vegetation_total, vegetation_drawn) = match vegetation {
        Some(plants) => plan_instanced(plants),
        None => {
            let none: Vec<InstancedDraw> = Vec::new();
            assert(draw_views(none@) =~= Seq::<(usize, Seq<usize>)>::empty());
            (none, 0, 0)
        },
    };
    let sprite_list = match sprites {
        Some(sprites) => extract_sprites(sprites),
        None => {
            let none: Vec<usize> = Vec::new();
            assert(sprite_keys(Seq::empty()) =~= Seq::<SpriteKey>::empty());
            assert(sprite_order(Seq::empty()) =~= Seq::<usize>::empty());
            none
        },
    };

    proof {
        assert(keys@.len() == keys.len());
        law_batch_plan_draws_each_mesh_once(batching, keys@);
        lemma_total_len_bounds(batching.batch_views());
        lemma_picked(meshes@.len(), casts);
        lemma_picked(meshes@.len(), opaque_of);
        let drawn = |i: int| meshes@[i].resolved() && meshes@[i].visible;
        lemma_picked_split(meshes@.len(), drawn, opaque_of, draws_blended(meshes@));
        lemma_picked_split(meshes@.len(), casts, drawn, culled(meshes@));
    }
    let batched: usize = keys.len() - batching.individuals.len();
    let stats = RenderStats {
        meshes_total: shadow_casters.len() as u32,
        meshes_drawn: (opaque.len() + transparent.len()) as u32,
        skinned_drawn: skinned_drawn.len() as u32,
        instances_total,
        instances_drawn,
        auto_batches: batching.batches.len() as u32,
        auto_batched_drawn: batched as u32,
        vegetation_total,
        vegetation_drawn,
        sprites_drawn: sprite_list.len() as u32,
    };
    FramePlan {
        shadow_casters,
        opaque,
        batching,
        transparent,
        skinned: skinned_drawn,
        instanced: instanced_list,
        vegetation: vegetation_list,
        sprites: sprite_list,
        stats,
    }
}

proof fn lemma_total_len_bounds(groups: Seq<Seq<usize>>)
    requires
        forall|b: int| 0 <= b < groups.len() ==> (#[trigger] groups[b]).len() >= 2,
    ensures
        total_len(groups) >= 2 * groups.len(),
    decreases groups.len(),
{
    if groups.len() > 0 {
        assert(groups[groups.len() - 1].len() >= 2);
        assert forall|b: int| 0 <= b < groups.drop_last().len() implies (
        #[trigger] groups.drop_last()[b]).len() >= 2 by {
            assert(groups.drop_last()[b] == groups[b]);
        }
        lemma_total_len_bounds(groups.drop_last());
    }
}

/// The numbers of a frame add up: the meshes not drawn are those that frustum
/// culling removed; the scene pass draws the meshes that are not batched one by
/// one and each batch once; batching saves at least half of the draws it
/// replaces; and no more is drawn than there is.
pub proof fn law_frame_counts(
    plan: FramePlan,
    meshes: Seq<MeshInput>,
    skinned: Seq<SkinnedInput>,
    instanced: Seq<InstancedInput>,
    vegetation: Seq<InstancedInput>,
    sprites: Seq<SpriteInput>,
)
    requires
        meshes.len() <= usize::MAX,
        instanced.len() <= usize::MAX,
        vegetation.len() <= usize::MAX,
        plan.lists(meshes, skinned, instanced, vegetation, sprites),
        plan.counts(instanced, vegetation),
    ensures
        plan.stats.meshes_total - plan.stats.meshes_drawn == picked(
            meshes.len(),
            culled(meshes),
        ).len(),
        plan.batching.individuals@.len() + plan.transparent@.len() + plan.batching.batches@.len()
            == (plan.stats.meshes_drawn - plan.stats.auto_batched_drawn) + plan.stats.auto_batches,
        2 * plan.stats.auto_batches <= plan.stats.auto_batched_drawn,
        plan.stats.auto_batched_drawn <= plan.stats.meshes_drawn <= plan.stats.meshes_total,
        plan.stats.instances_drawn <= plan.stats.instances_total,
        plan.stats.vegetation_drawn <= plan.stats.vegetation_total,
        plan.stats.sprites_drawn == sprites.len(),
{
    let drawn = |i: int| meshes[i].resolved() && meshes[i].visible;
    lemma_picked_split(meshes.len(), drawn, draws_opaque(meshes), draws_blended(meshes));
    lemma_picked_split(meshes.len(), casts(meshes), drawn, culled(meshes));
    lemma_picked(meshes.len(), draws_opaque(meshes));
    law_batch_plan_draws_each_mesh_once(plan.batching, opaque_keys(meshes));
    lemma_total_len_bounds(plan.batching.batch_views());
    lemma_instances(instanced);
    lemma_instances(vegetation);
    lemma_sorted(blend_keys(meshes));
    lemma_sorted(sprite_keys(sprites));
}

/// Blended surfaces are drawn from back to front: none is drawn before one that
/// lies farther away, and each is drawn once.
pub proof fn law_blended_meshes_are_drawn_back_to_front(meshes: Seq<MeshInput>, i: int, j: int)
    requires
        meshes.len() <= usize::MAX,
        0 <= i < j < blend_order(meshes).len(),
    ensures
        meshes[blend_order(meshes)[i] as int].depth.place() >= meshes[blend_order(
            meshes,
        )[j] as int].depth.place(),
        blend_order(meshes).len() == picked(meshes.len(), draws_blended(meshes)).len(),
{
    broadcast use vstd::seq_lib::group_to_multiset_ensures;

    let keys = blend_keys(meshes);
    let order = sorted(keys);
    lemma_sorted(keys);
    assert(!order[j].before(&order[i]));
    assert forall|k: int| 0 <= k < order.len() implies meshes[(
    #[trigger] order[k]).position as int].depth == order[k].depth by {
        assert(order.to_multiset().count(order[k]) > 0);
        assert(keys.to_multiset().count(order[k]) > 0);
        assert(keys.contains(order[k]));
    }
}

/// Sprites are drawn by layer, within a layer from back to front, and in an
/// order that the input order does not change: the draw order of two sprites is
/// decided by their layers, depths and entities alone.
pub proof fn law_sprite_order(sprites: Seq<SpriteInput>, i: int, j: int)
    requires
        sprites.len() <= usize::MAX,
        0 <= i < j < sprite_order(sprites).len(),
    ensures
        ({
            let a = sprites[sprite_order(sprites)[i] as int];
            let b = sprites[sprite_order(sprites)[j] as int];
            ||| a.z_order.place() < b.z_order.place()
            ||| a.z_order.place() == b.z_order.place() && a.depth.place() > b.depth.place()
            ||| a.z_order.place() == b.z_order.place() && a.depth.place() == b.depth.place()
                && a.entity <= b.entity
        }),
{
    broadcast use vstd::seq_lib::group_to_multiset_ensures;

    let keys = sprite_keys(sprites);
    let order = sorted(keys);
    lemma_sorted(keys);
    assert(!order[j].before(&order[i]));
    assert forall|k: int| 0 <= k < order.len() implies sprites[(
    #[trigger] order[k]).position as int] == order[k].sprite by {
        assert(order.to_multiset().count(order[k]) > 0);
        assert(keys.to_multiset().count(order[k]) > 0);
        assert(keys.contains(order[k]));
    }
}

/// What became of an entity that was to be removed.
#[derive(Debug, Clone, Copy, PartialEq, Eq, Structural)]
pub struct Despawned {
    /// Whether it was alive.
    pub existed: bool,
    /// The handles that the renderer has to release.
    pub released: Option<RenderHandles>,
}

/// Whether the entity was removed with everything below it, if it was alive.
pub open spec fn is_removed(before: WorldView, after: WorldView, entity: Entity) -> bool {
    if before.alive(entity) {
        after == before.without(subtree(before.parents, entity))
    } else {
        after == before
    }
}

/// Removes the entity with everything below it, and gives the handles of its mesh
/// that the renderer has to release.
pub fn despawn_mesh_renderer(world: &mut SceneWorld, entity: Entity) -> (despawned: Despawned)
    requires
        old(world).wf(),
    ensures
        final(world).wf(),
        despawned.existed == old(world)@.alive(entity),
        despawned.released == (if old(world)@.alive(entity) {
            old(world)@.table[entity].mesh_renderer
        } else {
            None
        }),
        is_removed(old(world)@, final(world)@, entity),
{
    let released: Option<RenderHandles> = match world.get(entity) {
        Some(components) => components.mesh_renderer,
        None => None,
    };
    let existed: bool = world.despawn(entity);
    Despawned { existed, released }
}

/// Removes the entity with everything below it, and gives the handles of its skinned mesh
/// that the renderer has to release.
pub fn despawn_skinned_mesh_renderer(world: &mut SceneWorld, entity: Entity) -> (despawned:
    Despawned)
    requires
        old(world).wf(),
    ensures
        final(world).wf(),
        despawned.existed == old(world)@.alive(entity),
        despawned.released == (if old(world)@.alive(entity) {
            old(world)@.table[entity].skinned_mesh_renderer
        } else {
            None
        }),
        is_removed(old(world)@, final(world)@, entity),
{
    let released: Option<RenderHandles> = match world.get(entity) {
        Some(components) => components.skinned_mesh_renderer,
        None => None,
    };
    let existed: bool = world.despawn(entity);
    Despawned { existed, released }
}

/// Removes the entity with everything below it, and gives the handles of its instanced mesh
/// that the renderer has to release.
pub fn despawn_instanced_mesh_renderer(world: &mut SceneWorld, entity: Entity) -> (despawned:
    Despawned)
    requires
        old(world).wf(),
    ensures
        final(world).wf(),
        despawned.existed == old(world)@.alive(entity),
        despawned.released == (if old(world)@.alive(entity) {
            old(world)@.table[entity].instanced_mesh_renderer
        } else {
            None
        }),
        is_removed(old(world)@, final(world)@, entity),
{
    let released: Option<RenderHandles> = match world.get(entity) {
        Some(components) => components.instanced_mesh_renderer,
        None => None,
    };
    let existed: bool = world.despawn(entity);
    Despawned { existed, released }
}

/// Removes the entity with everything below it, and gives the handles of its vegetation
/// that the renderer has to release.
pub fn despawn_vegetation_renderer(world: &mut SceneWorld, entity: Entity) -> (despawned:
    Despawned)
    requires
        old(world).wf(),
    ensures
        final(world).wf(),
        despawned.existed == old(world)@.alive(entity),
        despawned.released == (if old(world)@.alive(entity) {
            old(world)@.table[entity].vegetation_renderer
        } else {
            None
        }),
        is_removed(old(world)@, final(world)@, entity),
{
    let released: Option<RenderHandles> = match world.get(entity) {
        Some(components) => components.vegetation_renderer,
        None => None,
    };
    let existed: bool = world.despawn(entity);
    Despawned { existed, released }
}

/// Which meshes a frame draws, told by the meshes themselves. All of which the mesh and
/// the material are registered cast a shadow. Of these, those in view are drawn: the ones
/// with a blended material blended, the others opaque. A skinned mesh is drawn if both
/// its handles are registered. Each stands in its list once, all but the blended ones in
/// the order of the input.
pub proof fn law_frame_draws_what_is_registered_and_in_view(
    plan: FramePlan,
    meshes: Seq<MeshInput>,
    skinned: Seq<SkinnedInput>,
    instanced: Seq<InstancedInput>,
    vegetation: Seq<InstancedInput>,
    sprites: Seq<SpriteInput>,
)
    requires
        meshes.len() <= usize::MAX,
        skinned.len() <= usize::MAX,
        plan.lists(meshes, skinned, instanced, vegetation, sprites),
    ensures
        forall|i: usize| #[trigger]
            plan.shadow_casters@.contains(i) <==> i < meshes.len()
                && meshes[i as int].mesh_registered && meshes[i as int].material_registered,
        forall|i: usize| #[trigger]
            plan.opaque@.contains(i) <==> i < meshes.len() && meshes[i as int].mesh_registered
                && meshes[i as int].material_registered && meshes[i as int].visible
                && !meshes[i as int].transparent,
        forall|i: usize| #[trigger]
            plan.transparent@.contains(i) <==> i < meshes.len() && meshes[i as int].mesh_registered
                && meshes[i as int].material_registered && meshes[i as int].visible
                && meshes[i as int].transparent,
        forall|i: usize| #[trigger]
            plan.skinned@.contains(i) <==> i < skinned.len() && skinned[i as int].mesh_registered
                && skinned[i as int].material_registered,
        plan.instanced@.len() == instanced_draws(instanced).len(),
        forall|d: int|
            0 <= d < plan.instanced@.len() ==> (#[trigger] plan.instanced@[d]).source
                == instanced_draws(instanced)[d].0 && plan.instanced@[d].instances@
                == instanced_draws(instanced)[d].1,
        plan.vegetation@.len() == instanced_draws(vegetation).len(),
        forall|d: int|
            0 <= d < plan.vegetation@.len() ==> (#[trigger] plan.vegetation@[d]).source
                == instanced_draws(vegetation)[d].0 && plan.vegetation@[d].instances@
                == instanced_draws(vegetation)[d].1,
        plan.transparent@.no_duplicates(),
        forall|p: int, q: int|
            #![trigger plan.shadow_casters@[p], plan.shadow_casters@[q]]
            0 <= p < q < plan.shadow_casters@.len() ==> plan.shadow_casters@[p]
                < plan.shadow_casters@[q],
        forall|p: int, q: int|
            #![trigger plan.opaque@[p], plan.opaque@[q]]
            0 <= p < q < plan.opaque@.len() ==> plan.opaque@[p] < plan.opaque@[q],
        forall|p: int, q: int|
            #![trigger plan.skinned@[p], plan.skinned@[q]]
            0 <= p < q < plan.skinned@.len() ==> plan.skinned@[p] < plan.skinned@[q],
{
    lemma_picked(meshes.len(), casts(meshes));
    lemma_picked(meshes.len(), draws_opaque(meshes));
    lemma_picked(skinned.len(), draws_skinned(skinned));
    lemma_blended(meshes);
    assert forall|d: int| 0 <= d < plan.instanced@.len() implies (
    #[trigger] plan.instanced@[d]).source == instanced_draws(instanced)[d].0
        && plan.instanced@[d].instances@ == instanced_draws(instanced)[d].1 by {
        assert(draw_views(plan.instanced@)[d] == instanced_draws(instanced)[d]);
    }
    assert forall|d: int| 0 <= d < plan.vegetation@.len() implies (
    #[trigger] plan.vegetation@[d]).source == instanced_draws(vegetation)[d].0
        && plan.vegetation@[d].instances@ == instanced_draws(vegetation)[d].1 by {
        assert(draw_views(plan.vegetation@)[d] == instanced_draws(vegetation)[d]);
    }
}

/// The blended meshes are those that are drawn blended, each once.
proof fn lemma_blended(meshes: Seq<MeshInput>)
    requires
        meshes.len() <= usize::MAX,
    ensures
        forall|i: usize| #[trigger]
            blend_order(meshes).contains(i) <==> i < meshes.len() && draws_blended(meshes)(
                i as int,
            ),
        blend_order(meshes).no_duplicates(),
        forall|k: int|
            #![trigger sorted(blend_keys(meshes))[k]]
            0 <= k < sorted(blend_keys(meshes)).len() ==> sorted(blend_keys(meshes))[k].depth
                == meshes[blend_order(meshes)[k] as int].depth && sorted(
                blend_keys(meshes),
            )[k].position == blend_order(meshes)[k],
{
    let keep = draws_blended(meshes);
    let chosen = picked(meshes.len(), keep);
    let keys = blend_keys(meshes);
    let order = sorted(keys);
    let positions = blend_order(meshes);
    lemma_picked(meshes.len(), keep);
    lemma_sorted_is_a_permutation(keys);
    assert(keys.no_duplicates()) by {
        assert forall|i: int, j: int| 0 <= i < j < keys.len() implies keys[i] != keys[j] by {
            assert(keys[i].position == chosen[i] && keys[j].position == chosen[j]);
            assert(chosen[i] < chosen[j]);
        }
    }
    assert forall|k: int|
        #![trigger order[k]]
        0 <= k < order.len() implies order[k].depth == meshes[positions[k] as int].depth
        && order[k].position == positions[k] && keep(positions[k] as int) && positions[k]
        < meshes.len() by {
        assert(order.contains(order[k]));
        let j = keys.index_of(order[k]);
        assert(keys[j] == order[k]);
        assert(keys[j].position == chosen[j]);
    }
    assert forall|i: usize| #[trigger] positions.contains(i) <==> i < meshes.len() && keep(
        i as int,
    ) by {
        if positions.contains(i) {
            let k = positions.index_of(i);
            assert(order[k].position == i);
        }
        if i < meshes.len() && keep(i as int) {
            assert(chosen.contains(i));
            let j = chosen.index_of(i);
            assert(keys.contains(keys[j]));
            assert(order.contains(keys[j]));
            let k = order.index_of(keys[j]);
            assert(order[k] == keys[j]);
            assert(positions[k] == i);
        }
    }
    assert forall|i: int, j: int| 0 <= i < j < positions.len() implies positions[i]
        != positions[j] by {
        assert(order[i] != order[j]);
        assert(order[i].position == positions[i] && order[j].position == positions[j]);
    }
}

/// How the opaque meshes of a frame are merged. Two stand in one batch exactly if they
/// have the same mesh and the same material; one that shares both with no other is drawn
/// alone. Batches come in the order of their first
/// members, and members and single meshes in the order of the input.
pub proof fn law_meshes_are_merged_by_mesh_and_material(
    plan: FramePlan,
    meshes: Seq<MeshInput>,
    skinned: Seq<SkinnedInput>,
    instanced: Seq<InstancedInput>,
    vegetation: Seq<InstancedInput>,
    sprites: Seq<SpriteInput>,
)
    requires
        meshes.len() <= usize::MAX,
        plan.lists(meshes, skinned, instanced, vegetation, sprites),
    ensures
        forall|p: usize|
            p < plan.opaque@.len() ==> (#[trigger] plan.batching.individuals@.contains(p)
                <==> forall|q: int|
                0 <= q < plan.opaque@.len() && q != p ==> meshes[#[trigger] plan.opaque@[q] as int].mesh
                    != meshes[plan.opaque@[p as int] as int].mesh
                    || meshes[plan.opaque@[q] as int].material
                    != meshes[plan.opaque@[p as int] as int].material),
        forall|b: int, p: usize, q: usize|
            #![trigger plan.batching.batches@[b]@.contains(p), plan.batching.batches@[b]@.contains(q)]
            0 <= b < plan.batching.batches@.len() && plan.batching.batches@[b]@.contains(p) ==> {
                &&& p < plan.opaque@.len()
                &&& plan.batching.batches@[b]@.contains(q) <==> q < plan.opaque@.len()
                    && meshes[plan.opaque@[q as int] as int].mesh
                    == meshes[plan.opaque@[p as int] as int].mesh
                    && meshes[plan.opaque@[q as int] as int].material
                    == meshes[plan.opaque@[p as int] as int].material
            },
        forall|b: int|
            0 <= b < plan.batching.batches@.len() ==> (#[trigger] plan.batching.batches@[b])@.len()
                >= 2,
        forall|p: usize|
            p < plan.opaque@.len() ==> #[trigger] plan.batching.individuals@.contains(p) || exists|
                b: int,
            |
                0 <= b < plan.batching.batches@.len()
                    && #[trigger] plan.batching.batches@[b]@.contains(p),
        forall|p: usize| #[trigger]
            plan.batching.individuals@.contains(p) ==> p < plan.opaque@.len(),
        plan.batching.individuals@.len() + total_len(plan.batching.batch_views())
            == plan.opaque@.len(),
        forall|p: int, q: int|
            #![trigger plan.batching.individuals@[p], plan.batching.individuals@[q]]
            0 <= p < q < plan.batching.individuals@.len() ==> plan.batching.individuals@[p]
                < plan.batching.individuals@[q],
        forall|b: int, p: int, q: int|
            #![trigger plan.batching.batches@[b]@[p], plan.batching.batches@[b]@[q]]
            0 <= b < plan.batching.batches@.len() && 0 <= p < q < plan.batching.batches@[b]@.len()
                ==> plan.batching.batches@[b]@[p] < plan.batching.batches@[b]@[q],
        forall|b: int, c: int|
            #![trigger plan.batching.batches@[b], plan.batching.batches@[c]]
            0 <= b < c < plan.batching.batches@.len() ==> plan.batching.batches@[b]@[0]
                < plan.batching.batches@[c]@[0],
{
    lemma_picked(meshes.len(), draws_opaque(meshes));
    lemma_batches_are_ordered(plan.batching, opaque_keys(meshes));
    let keys = opaque_keys(meshes);
    let chosen = picked(meshes.len(), draws_opaque(meshes));
    let batching = plan.batching;
    law_batch_plan_draws_each_mesh_once(batching, keys);
    lemma_batches_hold_the_rest(batching, keys);
    assert(keys.len() == plan.opaque@.len());
    assert forall|p: int| 0 <= p < keys.len() implies #[trigger] keys[p] == (
        meshes[plan.opaque@[p] as int].mesh,
        meshes[plan.opaque@[p] as int].material,
    ) by {}
    assert forall|p: usize| p < plan.opaque@.len() implies (
    #[trigger] batching.individuals@.contains(p) <==> forall|q: int|
        0 <= q < plan.opaque@.len() && q != p ==> meshes[#[trigger] plan.opaque@[q] as int].mesh
            != meshes[plan.opaque@[p as int] as int].mesh
            || meshes[plan.opaque@[q] as int].material
            != meshes[plan.opaque@[p as int] as int].material) by {
        if batching.individuals@.contains(p) {
            assert forall|q: int| 0 <= q < plan.opaque@.len() && q != p implies meshes[
            #[trigger] plan.opaque@[q] as int].mesh != meshes[plan.opaque@[p as int] as int].mesh
                || meshes[plan.opaque@[q] as int].material
                != meshes[plan.opaque@[p as int] as int].material by {
                assert(keys[q] != keys[p as int]);
            }
        } else {
            let q = choose|q: int| 0 <= q < keys.len() && q != p && #[trigger] keys[q] == keys[p as int];
            assert(plan.opaque@[q] == plan.opaque@[q]);
        }
    }
    assert forall|b: int, p: usize, q: usize|
        #![trigger batching.batches@[b]@.contains(p), batching.batches@[b]@.contains(q)]
        0 <= b < batching.batches@.len() && batching.batches@[b]@.contains(p) implies {
        &&& p < plan.opaque@.len()
        &&& batching.batches@[b]@.contains(q) <==> q < plan.opaque@.len()
            && meshes[plan.opaque@[q as int] as int].mesh
            == meshes[plan.opaque@[p as int] as int].mesh
            && meshes[plan.opaque@[q as int] as int].material
            == meshes[plan.opaque@[p as int] as int].material
    } by {
        assert(batching.batch_views()[b] == batching.batches@[b]@);
        assert(batching.batch_views()[b].contains(p));
        assert(batching.batch_views()[b].contains(q) <==> q < keys.len() && keys[q as int]
            == keys[batching.batch_views()[b][0] as int]);
    }
    assert forall|b: int| 0 <= b < batching.batches@.len() implies (
    #[trigger] batching.batches@[b])@.len() >= 2 by {
        assert(batching.batch_views()[b] == batching.batches@[b]@);
    }
    assert forall|p: usize| p < plan.opaque@.len() implies #[trigger] batching.individuals@.contains(
        p,
    ) || exists|b: int|
        0 <= b < batching.batches@.len() && #[trigger] batching.batches@[b]@.contains(p) by {
        if !batching.individuals@.contains(p) {
            let b = choose|b: int|
                0 <= b < batching.batch_views().len() && #[trigger] batching.batch_views()[b].contains(
                    p,
                );
            assert(batching.batches@[b]@.contains(p));
        }
    }
}

/// Whether the groups are in the order of their first members, and each is ascending.
spec fn groups_ordered(groups: Seq<Seq<usize>>) -> bool {
    &&& forall|g: int| #![trigger groups[g]] 0 <= g < groups.len() ==> groups[g].len() > 0
    &&& forall|g: int, p: int, q: int|
        #![trigger groups[g][p], groups[g][q]]
        0 <= g < groups.len() && 0 <= p < q < groups[g].len() ==> groups[g][p] < groups[g][q]
    &&& forall|g: int, h: int|
        #![trigger groups[g], groups[h]]
        0 <= g < h < groups.len() ==> groups[g][0] < groups[h][0]
}

proof fn lemma_groups_are_ordered(keys: Seq<BatchKey>, n: nat)
    requires
        n <= keys.len() <= usize::MAX,
    ensures
        groups_ordered(groups_below(keys, n)),
        forall|g: int, p: int|
            #![trigger groups_below(keys, n)[g][p]]
            0 <= g < groups_below(keys, n).len() && 0 <= p < groups_below(keys, n)[g].len()
                ==> groups_below(keys, n)[g][p] < n,
    decreases n,
{
    if n > 0 {
        let m = (n - 1) as nat;
        lemma_groups_are_ordered(keys, m);
        lemma_groups_grow(keys, m);
        let before = groups_below(keys, m);
        let after = groups_below(keys, n);
        let place = if distinct_keys(keys, m).contains(keys[m as int]) {
            distinct_keys(keys, m).index_of(keys[m as int])
        } else {
            before.len() as int
        };
        assert forall|g: int| 0 <= g < after.len() && g != place implies #[trigger] after[g]
            == before[g] by {}
        assert(place < before.len() ==> after[place] == before[place].push(m as usize));
        assert(place == before.len() ==> after[place] == seq![m as usize]);
        assert(place < before.len() ==> before[place].len() > 0);
        assert forall|g: int, p: int|
            #![trigger after[g][p]]
            0 <= g < after.len() && 0 <= p < after[g].len() implies after[g][p] < n by {
            if g < before.len() && p < before[g].len() {
                assert(after[g][p] == before[g][p]);
            }
        }
        assert forall|g: int, p: int, q: int|
            #![trigger after[g][p], after[g][q]]
            0 <= g < after.len() && 0 <= p < q < after[g].len() implies after[g][p]
            < after[g][q] by {
            assert(after[g][p] == before[g][p]);
            if q < before[g].len() {
                assert(after[g][q] == before[g][q]);
            }
        }
        assert forall|g: int, h: int|
            #![trigger after[g], after[h]]
            0 <= g < h < after.len() implies after[g][0] < after[h][0] by {
            assert(after[g][0] == before[g][0]);
            assert(before[g][0] < m);
            if h < before.len() {
                assert(after[h][0] == before[h][0]);
                assert(before[g].len() > 0 && before[h].len() > 0);
            }
        }
    }
}

proof fn lemma_large_and_small_are_ordered(groups: Seq<Seq<usize>>)
    requires
        groups_ordered(groups),
    ensures
        groups_ordered(large_groups(groups)),
        groups_ordered(small_groups(groups)),
    decreases groups.len(),
{
    if groups.len() > 0 {
        let rest = groups.drop_last();
        assert forall|g: int| 0 <= g < rest.len() implies #[trigger] rest[g] == groups[g] by {}
        assert(groups_ordered(rest)) by {
            assert forall|g: int, p: int, q: int|
                #![trigger rest[g][p], rest[g][q]]
                0 <= g < rest.len() && 0 <= p < q < rest[g].len() implies rest[g][p]
                < rest[g][q] by {
                assert(groups[g][p] < groups[g][q]);
            }
        }
        lemma_large_and_small_are_ordered(rest);
        lemma_large_and_small(rest);
        let last = groups.last();
        assert(last == groups[groups.len() - 1]);
        assert(groups[groups.len() - 1].len() > 0);
        assert forall|p: int, q: int|
            #![trigger last[p], last[q]]
            0 <= p < q < last.len() implies last[p] < last[q] by {
            assert(groups[groups.len() - 1][p] < groups[groups.len() - 1][q]);
        }
        assert(groups =~= rest.push(last));
        lemma_ordered_push(rest, large_groups(rest), last, groups);
        lemma_ordered_push(rest, small_groups(rest), last, groups);
    }
}

/// A group that comes behind all may be put behind some of them.
proof fn lemma_ordered_push(
    rest: Seq<Seq<usize>>,
    some: Seq<Seq<usize>>,
    last: Seq<usize>,
    groups: Seq<Seq<usize>>,
)
    requires
        groups == rest.push(last),
        groups_ordered(groups),
        groups_ordered(some),
        forall|s: int| 0 <= s < some.len() ==> rest.contains(#[trigger] some[s]),
    ensures
        groups_ordered(some.push(last)),
{
    let all = some.push(last);
    assert(groups[groups.len() - 1] == last);
    assert forall|g: int| #![trigger all[g]] 0 <= g < all.len() implies all[g].len() > 0 by {
        if g < some.len() {
            assert(all[g] == some[g]);
        }
    }
    assert forall|g: int, p: int, q: int|
        #![trigger all[g][p], all[g][q]]
        0 <= g < all.len() && 0 <= p < q < all[g].len() implies all[g][p] < all[g][q] by {
        if g < some.len() {
            assert(some[g][p] < some[g][q]);
        } else {
            assert(groups[groups.len() - 1][p] < groups[groups.len() - 1][q]);
        }
    }
    assert forall|g: int, h: int|
        #![trigger all[g], all[h]]
        0 <= g < h < all.len() implies all[g][0] < all[h][0] by {
        assert(all[g] == some[g]);
        if h < some.len() {
            assert(all[h] == some[h]);
        } else {
            let at = rest.index_of(some[g]);
            assert(groups[at] == some[g]);
        }
    }
}

proof fn lemma_flat_singles(groups: Seq<Seq<usize>>)
    requires
        forall|g: int| 0 <= g < groups.len() ==> (#[trigger] groups[g]).len() == 1,
    ensures
        flat(groups).len() == groups.len(),
        forall|g: int| 0 <= g < groups.len() ==> #[trigger] flat(groups)[g] == groups[g][0],
    decreases groups.len(),
{
    if groups.len() > 0 {
        let rest = groups.drop_last();
        assert forall|g: int| 0 <= g < rest.len() implies (#[trigger] rest[g]).len() == 1 by {
            assert(rest[g] == groups[g]);
        }
        lemma_flat_singles(rest);
        assert(groups[groups.len() - 1].len() == 1);
        assert forall|g: int| 0 <= g < groups.len() implies #[trigger] flat(groups)[g]
            == groups[g][0] by {
            if g < rest.len() {
                assert(flat(rest)[g] == rest[g][0]);
            }
        }
    }
}

proof fn lemma_batches_are_ordered(plan: BatchPlan, keys: Seq<BatchKey>)
    requires
        keys.len() <= usize::MAX,
        plan.plans(keys),
    ensures
        forall|p: int, q: int|
            #![trigger plan.individuals@[p], plan.individuals@[q]]
            0 <= p < q < plan.individuals@.len() ==> plan.individuals@[p] < plan.individuals@[q],
        forall|b: int, p: int, q: int|
            #![trigger plan.batches@[b]@[p], plan.batches@[b]@[q]]
            0 <= b < plan.batches@.len() && 0 <= p < q < plan.batches@[b]@.len()
                ==> plan.batches@[b]@[p] < plan.batches@[b]@[q],
        forall|b: int, c: int|
            #![trigger plan.batches@[b], plan.batches@[c]]
            0 <= b < c < plan.batches@.len() ==> plan.batches@[b]@[0] < plan.batches@[c]@[0],
{
    let groups = groups_of(keys);
    lemma_groups_are_ordered(keys, keys.len());
    lemma_large_and_small_are_ordered(groups);
    lemma_large_and_small(groups);
    let small = small_groups(groups);
    let large = large_groups(groups);
    assert forall|g: int| 0 <= g < small.len() implies (#[trigger] small[g]).len() == 1 by {
        assert(small[g].len() > 0);
    }
    lemma_flat_singles(small);
    assert forall|p: int, q: int|
        #![trigger plan.individuals@[p], plan.individuals@[q]]
        0 <= p < q < plan.individuals@.len() implies plan.individuals@[p]
        < plan.individuals@[q] by {
        assert(small[p][0] < small[q][0]);
    }
    assert forall|b: int| 0 <= b < plan.batches@.len() implies (#[trigger] plan.batches@[b])@
        == large[b] by {
        assert(plan.batch_views()[b] == plan.batches@[b]@);
    }
    assert forall|b: int, p: int, q: int|
        #![trigger plan.batches@[b]@[p], plan.batches@[b]@[q]]
        0 <= b < plan.batches@.len() && 0 <= p < q < plan.batches@[b]@.len() implies plan.batches@[b]@[p]
        < plan.batches@[b]@[q] by {
        assert(large[b][p] < large[b][q]);
    }
    assert forall|b: int, c: int|
        #![trigger plan.batches@[b], plan.batches@[c]]
        0 <= b < c < plan.batches@.len() implies plan.batches@[b]@[0] < plan.batches@[c]@[0] by {
        assert(large[b][0] < large[c][0]);
    }
}

/// What is not drawn alone stands in a batch, and what is drawn alone is there.
proof fn lemma_batches_hold_the_rest(plan: BatchPlan, keys: Seq<BatchKey>)
    requires
        keys.len() <= usize::MAX,
        plan.plans(keys),
    ensures
        forall|p: usize|
            p < keys.len() && !#[trigger] plan.individuals@.contains(p) ==> exists|b: int|
                0 <= b < plan.batch_views().len() && #[trigger] plan.batch_views()[b].contains(p),
        forall|p: usize| #[trigger] plan.individuals@.contains(p) ==> p < keys.len(),
{
    let groups = groups_of(keys);
    let seen = distinct_keys(keys, keys.len());
    lemma_distinct_keys(keys, keys.len());
    lemma_large_and_small(groups);
    assert forall|p: usize| p < keys.len() && !#[trigger] plan.individuals@.contains(p) implies exists|
        b: int,
    | 0 <= b < plan.batch_views().len() && #[trigger] plan.batch_views()[b].contains(p) by {
        assert(seen.contains(keys[p as int]));
        let g = seen.index_of(keys[p as int]);
        let keep = stands(keys, seen[g]);
        lemma_picked(keys.len(), keep);
        assert(groups[g] == picked(keys.len(), keep));
        assert(keep(p as int));
        assert(groups[g].contains(p));
        lemma_flat_contains(small_groups(groups), p);
        if groups[g].len() >= MIN_AUTO_BATCH_SIZE {
            let b = large_groups(groups).index_of(groups[g]);
            assert(plan.batch_views()[b].contains(p));
        } else {
            let s = small_groups(groups).index_of(groups[g]);
            assert(small_groups(groups)[s].contains(p));
        }
    }
    assert forall|p: usize| #[trigger] plan.individuals@.contains(p) implies p < keys.len() by {
        lemma_flat_contains(small_groups(groups), p);
        let s = choose|s: int|
            0 <= s < small_groups(groups).len() && (
            #[trigger] small_groups(groups)[s]).contains(p);
        let small = small_groups(groups)[s];
        let h = groups.index_of(small);
        let keep = stands(keys, seen[h]);
        lemma_picked(keys.len(), keep);
        assert(small == picked(keys.len(), keep));
    }
}

/// The draw order of what blends. Of two blended meshes the farther is drawn first, and of
/// two that are as far the one that comes first in the input. Of two sprites the one on
/// the lower layer is drawn first, on one layer the farther, and as far the one of the
/// earlier entity; every sprite is drawn once.
pub proof fn law_blending_order(
    plan: FramePlan,
    meshes: Seq<MeshInput>,
    skinned: Seq<SkinnedInput>,
    instanced: Seq<InstancedInput>,
    vegetation: Seq<InstancedInput>,
    sprites: Seq<SpriteInput>,
    i: int,
    j: int,
)
    requires
        meshes.len() <= usize::MAX,
        sprites.len() <= usize::MAX,
        plan.lists(meshes, skinned, instanced, vegetation, sprites),
        0 <= i < j,
    ensures
        j < plan.transparent@.len() ==> {
            let (a, b) = (plan.transparent@[i], plan.transparent@[j]);
            let (far, near) = (meshes[a as int].depth.place(), meshes[b as int].depth.place());
            far > near || (far == near && a < b)
        },
        j < plan.sprites@.len() ==> {
            let a = sprites[plan.sprites@[i] as int];
            let b = sprites[plan.sprites@[j] as int];
            ||| a.z_order.place() < b.z_order.place()
            ||| a.z_order.place() == b.z_order.place() && a.depth.place() > b.depth.place()
            ||| a.z_order.place() == b.z_order.place() && a.depth.place() == b.depth.place()
                && a.entity <= b.entity
        },
        plan.sprites@.len() == sprites.len(),
        forall|k: usize| #[trigger] plan.sprites@.contains(k) <==> k < sprites.len(),
{
    if j < plan.transparent@.len() {
        lemma_blended(meshes);
        lemma_sorting_is_stable(meshes, i, j);
    }
    if j < plan.sprites@.len() {
        law_sprite_order(sprites, i, j);
    }
    let keys = sprite_keys(sprites);
    lemma_sorted(keys);
    lemma_sorted_is_a_permutation(keys);
    assert forall|k: usize| #[trigger] plan.sprites@.contains(k) <==> k < sprites.len() by {
        let order = sorted(keys);
        if k < sprites.len() {
            assert(keys.contains(keys[k as int]));
            assert(order.contains(keys[k as int]));
            let at = order.index_of(keys[k as int]);
            assert(plan.sprites@[at] == k);
        }
        if plan.sprites@.contains(k) {
            let at = plan.sprites@.index_of(k);
            assert(order.contains(order[at]));
            let from = keys.index_of(order[at]);
            assert(keys[from].position == k);
        }
    }
}

/// Blended meshes at one depth keep their order.
proof fn lemma_sorting_is_stable(meshes: Seq<MeshInput>, i: int, j: int)
    requires
        meshes.len() <= usize::MAX,
        0 <= i < j < blend_order(meshes).len(),
    ensures
        ({
            let (a, b) = (blend_order(meshes)[i], blend_order(meshes)[j]);
            let (far, near) = (meshes[a as int].depth.place(), meshes[b as int].depth.place());
            far > near || (far == near && a < b)
        }),
{
    let keys = blend_keys(meshes);
    let chosen = picked(meshes.len(), draws_blended(meshes));
    lemma_picked(meshes.len(), draws_blended(meshes));
    lemma_blended(meshes);
    assert(forall|p: int, q: int|
        0 <= p < q < keys.len() ==> (#[trigger] keys[p]).position < (#[trigger] keys[q]).position)
        by {
        assert forall|p: int, q: int| 0 <= p < q < keys.len() implies (#[trigger] keys[p]).position
            < (#[trigger] keys[q]).position by {
            assert(chosen[p] < chosen[q]);
        }
    }
    lemma_stable(keys, i, j);
    let order = sorted(keys);
    assert(order[i].depth == meshes[blend_order(meshes)[i] as int].depth);
    assert(order[j].depth == meshes[blend_order(meshes)[j] as int].depth);
}

proof fn lemma_stable(keys: Seq<BlendKey>, i: int, j: int)
    requires
        forall|p: int, q: int|
            0 <= p < q < keys.len() ==> (#[trigger] keys[p]).position < (
            #[trigger] keys[q]).position,
        0 <= i < j < sorted(keys).len(),
    ensures
        ({
            let (a, b) = (sorted(keys)[i], sorted(keys)[j]);
            a.depth.place() > b.depth.place() || (a.depth.place() == b.depth.place() && a.position
                < b.position)
        }),
    decreases keys.len(),
{
    lemma_sorted(keys);
    lemma_sorted_is_a_permutation(keys);
    assert(!sorted(keys)[j].before(&sorted(keys)[i]));
    if keys.len() > 0 {
        let rest = keys.drop_last();
        let last = keys.last();
        lemma_sorted(rest);
        lemma_sorted_is_a_permutation(rest);
        assert forall|p: int, q: int|
            0 <= p < q < rest.len() implies (#[trigger] rest[p]).position < (
        #[trigger] rest[q]).position by {
            assert(rest[p] == keys[p] && rest[q] == keys[q]);
        }
        let placed = lemma_put_in_place(sorted(rest), last);
        let order = sorted(rest);
        assert forall|p: int| 0 <= p < order.len() implies (#[trigger] order[p]).position
            < last.position by {
            assert(order.contains(order[p]));
            let at = rest.index_of(order[p]);
            assert(keys[at].position < keys[keys.len() - 1].position);
        }
        if i != placed && j != placed {
            let (p, q) = (
                if i < placed {
                    i
                } else {
                    i - 1
                },
                if j < placed {
                    j
                } else {
                    j - 1
                },
            );
            lemma_stable(rest, p, q);
        } else if j == placed {
            assert(sorted(keys)[i] == order[i]);
        } else {
            assert(sorted(keys)[j] == order[j - 1]);
            assert(last.before(&order[j - 1]));
        }
    }
}

/// Where an item is put: behind it stands what it is before, and before it the others as
/// they were.
proof fn lemma_put_in_place(items: Seq<BlendKey>, item: BlendKey) -> (placed: int)
    ensures
        0 <= placed <= items.len(),
        put_in(items, item) == items.insert(placed, item),
        forall|p: int|
            #![trigger items[p]]
            placed <= p < items.len() ==> item.before(&items[p]),
    decreases items.len(),
{
    if items.len() > 0 && item.before(&items.last()) {
        let rest = items.drop_last();
        let placed = lemma_put_in_place(rest, item);
        assert(put_in(items, item) =~= items.insert(placed, item));
        assert forall|p: int|
            #![trigger items[p]]
            placed <= p < items.len() implies item.before(&items[p]) by {
            if p < rest.len() {
                assert(rest[p] == items[p]);
            }
        }
        placed
    } else {
        assert(put_in(items, item) =~= items.insert(items.len() as int, item));
        items.len() as int
    }
}

/// Which instances are drawn. An entity has an instanced draw exactly if its mesh and its
/// material are registered and one of its instances is in view, and the draw holds just
/// the instances in view; draws come in the order of their entities.
pub proof fn law_instances_in_view_are_drawn(inputs: Seq<InstancedInput>)
    requires
        inputs.len() <= usize::MAX,
    ensures
        ({
            let draws = instanced_draws(inputs);
            &&& forall|d: int|
                #![trigger draws[d]]
                0 <= d < draws.len() ==> {
                    let input = inputs[draws[d].0 as int];
                    &&& draws[d].0 < inputs.len()
                    &&& input.mesh_registered && input.material_registered
                    &&& draws[d].1.len() > 0
                    &&& forall|k: usize| #[trigger]
                        draws[d].1.contains(k) <==> k < input.in_view@.len()
                            && input.in_view@[k as int]
                    &&& forall|p: int, q: int|
                        #![trigger draws[d].1[p], draws[d].1[q]]
                        0 <= p < q < draws[d].1.len() ==> draws[d].1[p] < draws[d].1[q]
                }
            &&& forall|d: int, e: int|
                #![trigger draws[d], draws[e]]
                0 <= d < e < draws.len() ==> draws[d].0 < draws[e].0
            &&& forall|i: int, k: int|
                #![trigger inputs[i].in_view@[k]]
                0 <= i < inputs.len() && inputs[i].mesh_registered && inputs[i].material_registered
                    && 0 <= k < inputs[i].in_view@.len() && inputs[i].in_view@[k] ==> exists|d: int|
                    0 <= d < draws.len() && (#[trigger] draws[d]).0 == i
        }),
    decreases inputs.len(),
{
    let draws = instanced_draws(inputs);
    if inputs.len() > 0 {
        let rest = inputs.drop_last();
        let last = inputs.last();
        law_instances_in_view_are_drawn(rest);
        let earlier = instanced_draws(rest);
        let keep = |i: int| last.in_view@[i];
        assert(last.in_view@.len() == last.in_view.len());
        assert(last.visible() == picked(last.in_view@.len(), keep));
        lemma_picked(last.in_view@.len(), keep);
        assert forall|d: int|
            #![trigger draws[d]]
            0 <= d < draws.len() implies {
            let input = inputs[draws[d].0 as int];
            &&& draws[d].0 < inputs.len()
            &&& input.mesh_registered && input.material_registered
            &&& draws[d].1.len() > 0
            &&& forall|k: usize| #[trigger]
                draws[d].1.contains(k) <==> k < input.in_view@.len() && input.in_view@[k as int]
            &&& forall|p: int, q: int|
                #![trigger draws[d].1[p], draws[d].1[q]]
                0 <= p < q < draws[d].1.len() ==> draws[d].1[p] < draws[d].1[q]
        } by {
            if d < earlier.len() {
                assert(draws[d] == earlier[d]);
                assert(rest[draws[d].0 as int] == inputs[draws[d].0 as int]);
            } else {
                assert forall|k: usize| #[trigger] draws[d].1.contains(k) <==> k
                    < last.in_view@.len() && last.in_view@[k as int] by {
                    assert(picked(last.in_view@.len(), keep).contains(k) <==> k
                        < last.in_view@.len() && keep(k as int));
                }
            }
        }
        assert forall|d: int, e: int|
            #![trigger draws[d], draws[e]]
            0 <= d < e < draws.len() implies draws[d].0 < draws[e].0 by {
            assert(draws[d] == earlier[d]);
            if e < earlier.len() {
                assert(draws[e] == earlier[e]);
            }
        }
        assert forall|i: int, k: int|
            #![trigger inputs[i].in_view@[k]]
            0 <= i < inputs.len() && inputs[i].mesh_registered && inputs[i].material_registered && 0
                <= k < inputs[i].in_view@.len() && inputs[i].in_view@[k] implies exists|d: int|
            0 <= d < draws.len() && (#[trigger] draws[d]).0 == i by {
            if i < rest.len() {
                assert(rest[i] == inputs[i]);
                assert(rest[i].in_view@[k]);
                let d = choose|d: int| 0 <= d < earlier.len() && (#[trigger] earlier[d]).0 == i;
                assert(draws[d] == earlier[d]);
            } else {
                assert(keep(k));
                assert(picked(last.in_view@.len(), keep).contains(k as usize));
                assert(draws[earlier.len() as int].0 == i);
            }
        }
    }
}

/// The instances are counted entity by entity: none of one that is not registered, and all
/// of any other, in view or not.
pub proof fn law_instances_are_counted(inputs: Seq<InstancedInput>, more: InstancedInput)
    ensures
        instance_total(Seq::empty()) == 0,
        more.mesh_registered && more.material_registered ==> instance_total(inputs.push(more))
            == instance_total(inputs) + more.in_view@.len(),
        !more.mesh_registered || !more.material_registered ==> instance_total(inputs.push(more))
            == instance_total(inputs),
{
    assert(inputs.push(more).drop_last() =~= inputs);
}

/// The numbers of a frame are those of its lists.
pub proof fn law_numbers_are_those_of_the_lists(
    plan: FramePlan,
    instanced: Seq<InstancedInput>,
    vegetation: Seq<InstancedInput>,
)
    requires
        plan.counts(instanced, vegetation),
    ensures
        plan.stats.meshes_total == plan.shadow_casters@.len(),
        plan.stats.meshes_drawn == plan.opaque@.len() + plan.transparent@.len(),
        plan.stats.skinned_drawn == plan.skinned@.len(),
        plan.stats.auto_batches == plan.batching.batches@.len(),
        plan.stats.auto_batched_drawn == total_len(plan.batching.batch_views()),
        plan.stats.sprites_drawn == plan.sprites@.len(),
        plan.stats.instances_total == instance_total(instanced),
        plan.stats.vegetation_total == instance_total(vegetation),
        plan.stats.instances_drawn == total_len(
            plan.instanced@.map_values(|draw: InstancedDraw| draw.instances@),
        ),
        plan.stats.vegetation_drawn == total_len(
            plan.vegetation@.map_values(|draw: InstancedDraw| draw.instances@),
        ),
{
    lemma_instances_are_summed(plan.instanced@);
    lemma_instances_are_summed(plan.vegetation@);
}

proof fn lemma_instances_are_summed(draws: Seq<InstancedDraw>)
    ensures
        instances_in(draw_views(draws)) == total_len(
            draws.map_values(|draw: InstancedDraw| draw.instances@),
        ),
    decreases draws.len(),
{
    let held = |draw: InstancedDraw| draw.instances@;
    if draws.len() > 0 {
        lemma_instances_are_summed(draws.drop_last());
        assert(draw_views(draws).drop_last() =~= draw_views(draws.drop_last()));
        assert(draws.map_values(held).drop_last() =~= draws.drop_last().map_values(held));
    }
}

} // verus!
