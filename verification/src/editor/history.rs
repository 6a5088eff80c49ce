//! Undo and redo by whole snapshots of the world.
//!
//! What a snapshot of a world is, how one is made and how one is brought back is
//! the scene format's business. The history is handed functions for that and
//! decides when they are called and which snapshot is brought back.

use vstd::prelude::*;

use crate::ecs::entities::Entity;
use crate::ecs::world::{SceneWorld, WorldView};
use crate::text::same;

verus! {

/// The most steps that are kept.
pub const HISTORY_LIMIT: usize = 128;

/// One state that can be brought back: the world, and the name of what was
/// selected, since entities get new identities when a world is brought back.
#[derive(Debug)]
pub struct Snapshot<S> {
    /// The world.
    pub scene: S,
    /// The name of the selected entity.
    pub selected_name: Option<String>,
}

/// The name of the selected entity, if it has one.
pub open spec fn selected_name(world: WorldView, selected: Option<Entity>) -> Option<Seq<char>> {
    match selected {
        Some(entity) => if world.alive(entity) && world.table[entity].name is Some {
            Some((world.table[entity].name->0).0@)
        } else {
            None
        },
        None => None,
    }
}

/// Whether the snapshot is one that `capture` made of the world.
pub open spec fn captured<S, F: Fn(&SceneWorld) -> S>(
    snapshot: Snapshot<S>,
    world: SceneWorld,
    selected: Option<Entity>,
    capture: &F,
) -> bool {
    &&& capture.ensures((&world,), snapshot.scene)
    &&& match snapshot.selected_name {
        Some(name) => selected_name(world@, selected) == Some(name@),
        None => selected_name(world@, selected) is None,
    }
}

/// Whether `restore` can be called on every scene, and makes worlds in good order.
pub open spec fn restores<S, G: Fn(&S) -> SceneWorld>(restore: &G) -> bool {
    &&& forall|scene: &S| restore.requires((scene,))
    &&& forall|scene: &S, world: SceneWorld| #[trigger]
        restore.ensures((scene,), world) ==> world.wf()
}

/// Whether the entity's name is the given text.
pub open spec fn is_named(world: WorldView, entity: Entity, name: Seq<char>) -> bool {
    world.table[entity].name matches Some(label) && label.0@ == name
}

/// The first of the first `n` entities that has the given name.
pub open spec fn first_named(world: WorldView, name: Seq<char>, n: nat) -> Option<Entity>
    decreases n,
{
    if n == 0 {
        None
    } else {
        match first_named(world, name, (n - 1) as nat) {
            Some(entity) => Some(entity),
            None => if is_named(world, world.order[n - 1], name) {
                Some(world.order[n - 1])
            } else {
                None
            },
        }
    }
}

/// The first entity with the name.
pub fn find_named(world: &SceneWorld, name: &str) -> (entity: Option<Entity>)
    requires
        world.wf(),
    ensures
        entity == first_named(world@, name@, world@.order.len()),
{
    let count: usize = world.len();
    let mut found: Option<Entity> = None;
    for i in 0..count
        invariant
            world.wf(),
            count == world@.order.len(),
            found == first_named(world@, name@, i as nat),
    {
        if found.is_none() {
            match &world.components_at(i).name {
                Some(label) => {
                    if same(&label.0, name) {
                        found = Some(world.entity_at(i));
                    }
                },
                None => {},
            }
        }
    }
    found
}

impl<S> Snapshot<S> {
    /// Takes a snapshot.
    pub fn capture<F: Fn(&SceneWorld) -> S>(
        world: &SceneWorld,
        selected: Option<Entity>,
        capture: &F,
    ) -> (snapshot: Snapshot<S>)
        requires
            world.wf(),
            capture.requires((world,)),
        ensures
            captured(snapshot, *world, selected, capture),
    {
        let selected_name: Option<String> = match selected {
            Some(entity) => match world.get(entity) {
                Some(components) => match &components.name {
                    Some(name) => Some(name.text()),
                    None => None,
                },
                None => None,
            },
            None => None,
        };
        Snapshot { scene: capture(world), selected_name }
    }

    /// The entity that is selected once the snapshot is back.
    pub open spec fn reselected(self, world: WorldView) -> Option<Entity> {
        match self.selected_name {
            Some(name) => first_named(world, name@, world.order.len()),
            None => None,
        }
    }

    /// Brings the snapshot back: the world is replaced, and the entity with the
    /// name of the one that was selected is selected again.
    pub fn restore<G: Fn(&S) -> SceneWorld>(
        &self,
        world: &mut SceneWorld,
        selected: &mut Option<Entity>,
        restore: &G,
    )
        requires
            restores(restore),
        ensures
            restore.ensures((&self.scene,), *final(world)),
            final(world).wf(),
            *final(selected) == self.reselected(final(world)@),
    {
        *world = restore(&self.scene);
        *selected = match &self.selected_name {
            Some(name) => find_named(world, name),
            None => None,
        };
    }
}

/// An undo/redo stack of snapshots.
pub struct History<S> {
    undo: Vec<Snapshot<S>>,
    redo: Vec<Snapshot<S>>,
    pending: Option<Snapshot<S>>,
}

/// What a history holds.
#[verifier::ext_equal]
pub ghost struct HistoryView<S> {
    /// The states that can be undone to, the latest last.
    pub undo: Seq<Snapshot<S>>,
    /// The states that can be redone to, the next one last.
    pub redo: Seq<Snapshot<S>>,
    /// The state before the edit in progress.
    pub pending: Option<Snapshot<S>>,
}

impl<S> View for History<S> {
    type V = HistoryView<S>;

    closed spec fn view(&self) -> HistoryView<S> {
        HistoryView { undo: self.undo@, redo: self.redo@, pending: self.pending }
    }
}

impl<S> HistoryView<S> {
    /// Whether no more steps are kept than the limit.
    pub open spec fn bounded(self) -> bool {
        self.undo.len() + self.redo.len() <= HISTORY_LIMIT
    }

    /// The history after the edit in progress was found to have changed the world:
    /// the state before it can be undone to, nothing can be redone, and the oldest
    /// step is forgotten if there are too many.
    pub open spec fn committed(self) -> HistoryView<S> {
        let steps = self.undo.push(self.pending->0);
        HistoryView {
            undo: if steps.len() > HISTORY_LIMIT {
                steps.skip(1)
            } else {
                steps
            },
            redo: Seq::empty(),
            pending: None,
        }
    }

    /// The history after one step was undone; `current` is the state before.
    pub open spec fn undone(self, current: Snapshot<S>) -> HistoryView<S> {
        HistoryView { undo: self.undo.drop_last(), redo: self.redo.push(current), pending: None }
    }

    /// The history after one step was redone; `current` is the state before.
    pub open spec fn redone(self, current: Snapshot<S>) -> HistoryView<S> {
        HistoryView { undo: self.undo.push(current), redo: self.redo.drop_last(), pending: None }
    }
}

/// Whether, for some scene captured of the world, `alike` says `answer` of it and of
/// the other scene.
pub open spec fn found_alike<S, F: Fn(&SceneWorld) -> S, E: Fn(&S, &S) -> bool>(
    world: SceneWorld,
    scene: S,
    answer: bool,
    capture: &F,
    alike: &E,
) -> bool {
    exists|current: S| #[trigger]
        capture.ensures((&world,), current) && alike.ensures((&current, &scene), answer)
}

impl<S> Default for History<S> {
    fn default() -> (history: History<S>)
        ensures
            history@.undo.len() == 0,
            history@.redo.len() == 0,
            history@.pending is None,
    {
        History::new()
    }
}

impl<S> History<S> {
    /// An empty history.
    pub fn new() -> (history: History<S>)
        ensures
            history@.undo.len() == 0,
            history@.redo.len() == 0,
            history@.pending is None,
    {
        History { undo: Vec::new(), redo: Vec::new(), pending: None }
    }

    /// Whether there is a step to undo.
    pub fn can_undo(&self) -> (answer: bool)
        ensures
            answer == (self@.undo.len() > 0),
    {
        self.undo.len() > 0
    }

    /// Whether there is a step to redo.
    pub fn can_redo(&self) -> (answer: bool)
        ensures
            answer == (self@.redo.len() > 0),
    {
        self.redo.len() > 0
    }

    /// Makes sure that the state before the current edit has been captured. Called
    /// at the start of a frame.
    pub fn begin_frame<F: Fn(&SceneWorld) -> S>(
        &mut self,
        world: &SceneWorld,
        selected: Option<Entity>,
        capture: &F,
    )
        requires
            world.wf(),
            capture.requires((world,)),
        ensures
            final(self)@.undo == old(self)@.undo,
            final(self)@.redo == old(self)@.redo,
            old(self)@.pending is Some ==> final(self)@.pending == old(self)@.pending,
            old(self)@.pending is None ==> (final(self)@.pending matches Some(snapshot) && captured(
                snapshot,
                *world,
                selected,
                capture,
            )),
    {
        if self.pending.is_none() {
            self.pending = Some(Snapshot::capture(world, selected, capture));
        }
    }

    /// Ends an edit: if the world changed since it began, the state before it
    /// becomes a step that can be undone. Called at the end of a frame in which
    /// nothing is being dragged or typed. Says whether a step was recorded.
    pub fn settle<F: Fn(&SceneWorld) -> S, E: Fn(&S, &S) -> bool>(
        &mut self,
        world: &SceneWorld,
        capture: &F,
        alike: &E,
    ) -> (recorded: bool)
        requires
            world.wf(),
            capture.requires((world,)),
            forall|a: &S, b: &S| alike.requires((a, b)),
        ensures
            recorded ==> old(self)@.pending is Some && final(self)@ == old(self)@.committed(),
            !recorded ==> final(self)@ == (HistoryView { pending: None, ..old(self)@ }),
            old(self)@.pending matches Some(pending) ==> found_alike(
                *world,
                pending.scene,
                !recorded,
                capture,
                alike,
            ),
            old(self)@.bounded() ==> final(self)@.bounded(),
    {
        let ghost before = self@;
        match self.pending.take() {
            Some(pending) => {
                let current = capture(world);
                let unchanged: bool = alike(&current, &pending.scene);
                if unchanged {
                    assert(self@ =~= HistoryView { pending: None, ..before });
                    return false;
                }
                self.undo.push(pending);
                if self.undo.len() > HISTORY_LIMIT {
                    let _ = self.undo.remove(0);
                    assert(self.undo@ =~= before.undo.push(pending).skip(1));
                }
                self.redo.clear();
                assert(self@ =~= before.committed());
                true
            },
            None => false,
        }
    }

    /// Undoes one step, if there is one: the world becomes what it was before the
    /// edit. Says whether there was one.
    pub fn undo<F: Fn(&SceneWorld) -> S, G: Fn(&S) -> SceneWorld>(
        &mut self,
        world: &mut SceneWorld,
        selected: &mut Option<Entity>,
        capture: &F,
        restore: &G,
    ) -> (done: bool)
        requires
            old(world).wf(),
            capture.requires((&*old(world),)),
            restores(restore),
        ensures
            final(world).wf(),
            done == (old(self)@.undo.len() > 0),
            !done ==> {
                &&& final(self)@ == old(self)@
                &&& *final(world) == *old(world)
                &&& *final(selected) == *old(selected)
            },
            done ==> {
                let step = old(self)@.undo.last();
                let current = final(self)@.redo.last();
                &&& final(self)@ == old(self)@.undone(current)
                &&& captured(current, *old(world), *old(selected), capture)
                &&& restore.ensures((&step.scene,), *final(world))
                &&& *final(selected) == step.reselected(final(world)@)
            },
            old(self)@.bounded() ==> final(self)@.bounded(),
    {
        let ghost before = self@;
        match self.undo.pop() {
            Some(step) => {
                let current = Snapshot::capture(world, *selected, capture);
                self.redo.push(current);
                step.restore(world, selected, restore);
                self.pending = None;
                assert(self@ =~= before.undone(current));
                true
            },
            None => false,
        }
    }

    /// Redoes the step that was undone last, if there is one. Says whether there
    /// was one.
    pub fn redo<F: Fn(&SceneWorld) -> S, G: Fn(&S) -> SceneWorld>(
        &mut self,
        world: &mut SceneWorld,
        selected: &mut Option<Entity>,
        capture: &F,
        restore: &G,
    ) -> (done: bool)
        requires
            old(world).wf(),
            capture.requires((&*old(world),)),
            restores(restore),
        ensures
            final(world).wf(),
            done == (old(self)@.redo.len() > 0),
            !done ==> {
                &&& final(self)@ == old(self)@
                &&& *final(world) == *old(world)
                &&& *final(selected) == *old(selected)
            },
            done ==> {
                let step = old(self)@.redo.last();
                let current = final(self)@.undo.last();
                &&& final(self)@ == old(self)@.redone(current)
                &&& captured(current, *old(world), *old(selected), capture)
                &&& restore.ensures((&step.scene,), *final(world))
                &&& *final(selected) == step.reselected(final(world)@)
            },
            old(self)@.bounded() ==> final(self)@.bounded(),
    {
        let ghost before = self@;
        match self.redo.pop() {
            Some(step) => {
                let current = Snapshot::capture(world, *selected, capture);
                self.undo.push(current);
                step.restore(world, selected, restore);
                self.pending = None;
                assert(self@ =~= before.redone(current));
                true
            },
            None => false,
        }
    }
}

/// After an edit has been recorded, the next undo brings back the state from
/// before it, and nothing can be redone.
pub proof fn law_undo_brings_back_the_state_before_the_edit<S>(history: HistoryView<S>)
    requires
        history.pending is Some,
    ensures
        history.committed().undo.len() > 0,
        history.committed().undo.last() == history.pending->0,
        history.committed().redo.len() == 0,
{
}

/// What undo takes away, the next redo brings back; and where the restored world
/// captures as the snapshot that it was restored from, the two leave the history
/// as it was.
pub proof fn law_redo_takes_undo_back<S>(history: HistoryView<S>, current: Snapshot<S>)
    requires
        history.undo.len() > 0,
    ensures
        history.undone(current).redo.last() == current,
        history.undone(current).redone(history.undo.last()) == (HistoryView {
            pending: None,
            ..history
        }),
{
    assert(history.undo.drop_last().push(history.undo.last()) =~= history.undo);
    assert(history.redo.push(current).drop_last() =~= history.redo);
}

/// What redo brings back, the next undo takes away again.
pub proof fn law_undo_takes_redo_back<S>(history: HistoryView<S>, current: Snapshot<S>)
    requires
        history.redo.len() > 0,
    ensures
        history.redone(current).undo.last() == current,
        history.redone(current).undone(history.redo.last()) == (HistoryView {
            pending: None,
            ..history
        }),
{
    assert(history.redo.drop_last().push(history.redo.last()) =~= history.redo);
    assert(history.undo.push(current).drop_last() =~= history.undo);
}

/// No step makes the history longer than its limit, and recording beyond it
/// forgets the oldest step only.
pub proof fn law_history_is_bounded<S>(history: HistoryView<S>, current: Snapshot<S>)
    requires
        history.bounded(),
    ensures
        history.pending is Some ==> history.committed().bounded(),
        history.undo.len() > 0 ==> history.undone(current).bounded(),
        history.redo.len() > 0 ==> history.redone(current).bounded(),
        history.pending is Some && history.undo.len() == HISTORY_LIMIT ==> history.committed().undo
            == history.undo.skip(1).push(history.pending->0),
{
    if history.pending is Some && history.undo.len() == HISTORY_LIMIT {
        assert(history.committed().undo =~= history.undo.skip(1).push(history.pending->0));
    }
}

/// The entity that a name leads to is the first one of the world that carries it; the name
/// leads nowhere exactly if no entity carries it.
pub proof fn law_first_bearer_of_a_name_is_found(world: WorldView, name: Seq<char>) -> (at: int)
    ensures
        ({
            let found = first_named(world, name, world.order.len());
            let bears = |i: int|
                {
                    let own = world.table[world.order[i]].name;
                    own is Some && (own->0).0@ == name
                };
            &&& found is Some ==> 0 <= at < world.order.len() && found == Some(world.order[at])
                && bears(at)
            &&& found is Some ==> forall|i: int| 0 <= i < at ==> !#[trigger] bears(i)
            &&& found is None ==> forall|i: int|
                0 <= i < world.order.len() ==> !#[trigger] bears(i)
        }),
{
    lemma_first_bearer(world, name, world.order.len())
}

proof fn lemma_first_bearer(world: WorldView, name: Seq<char>, n: nat) -> (at: int)
    requires
        n <= world.order.len(),
    ensures
        ({
            let found = first_named(world, name, n);
            &&& found is Some ==> 0 <= at < n && found == Some(world.order[at]) && is_named(
                world,
                world.order[at],
                name,
            )
            &&& found is Some ==> forall|i: int|
                0 <= i < at ==> !is_named(world, #[trigger] world.order[i], name)
            &&& found is None ==> forall|i: int|
                0 <= i < n ==> !is_named(world, #[trigger] world.order[i], name)
        }),
    decreases n,
{
    if n == 0 {
        0
    } else {
        let at = lemma_first_bearer(world, name, (n - 1) as nat);
        if first_named(world, name, (n - 1) as nat) is Some {
            at
        } else {
            n - 1
        }
    }
}

/// What a restored snapshot selects: the first entity that carries the name that was
/// selected when the snapshot was taken, and nothing if what was selected had no name.
pub proof fn law_snapshot_selects_by_name<S, F: Fn(&SceneWorld) -> S>(
    snapshot: Snapshot<S>,
    world: SceneWorld,
    selected: Option<Entity>,
    capture: &F,
    later: WorldView,
    k: int,
)
    requires
        captured(snapshot, world, selected, capture),
        0 <= k < later.order.len(),
    ensures
        capture.ensures((&world,), snapshot.scene),
        ({
            let own = world@.table[selected->0].name;
            let known = selected is Some && world@.table.contains_key(selected->0) && own is Some;
            let other = later.table[later.order[k]].name;
            &&& snapshot.selected_name is Some <==> known
            &&& known ==> (snapshot.selected_name->0)@ == (own->0).0@
            &&& !known ==> snapshot.reselected(later) is None
            &&& known && other is Some && (other->0).0@ == (own->0).0@ ==> snapshot.reselected(
                later,
            ) is Some
            &&& snapshot.reselected(later) is Some ==> {
                let found = later.table[snapshot.reselected(later)->0].name;
                known && found is Some && (found->0).0@ == (own->0).0@
            }
        }),
{
    if snapshot.selected_name is Some {
        let at = lemma_first_bearer(
            later,
            (snapshot.selected_name->0)@,
            later.order.len(),
        );
        assert(later.order[k] == later.order[k]);
    }
}

/// How the steps of a history move. Recording an edit puts the state before it on top of
/// what can be undone, drops what could be redone and, of more than one hundred and
/// twenty-eight, the oldest. Undoing takes the newest step away and puts the state that was
/// left on top of what can be redone; redoing does the reverse. None leaves an edit open.
pub proof fn law_steps_move_between_the_two_stacks<S>(
    history: HistoryView<S>,
    current: Snapshot<S>,
    i: int,
)
    requires
        history.undo.len() <= 128,
    ensures
        history.pending is Some ==> {
            let now = history.committed();
            let shift = if history.undo.len() == 128 {
                1int
            } else {
                0int
            };
            &&& now.pending is None && now.redo.len() == 0
            &&& now.undo.len() == history.undo.len() + 1 - shift
            &&& now.undo[now.undo.len() - 1] == history.pending->0
            &&& 0 <= i < now.undo.len() - 1 ==> now.undo[i] == history.undo[i + shift]
        },
        history.undo.len() > 0 ==> {
            let now = history.undone(current);
            &&& now.pending is None
            &&& now.undo.len() == history.undo.len() - 1
            &&& 0 <= i < now.undo.len() ==> now.undo[i] == history.undo[i]
            &&& now.redo.len() == history.redo.len() + 1
            &&& now.redo[now.redo.len() - 1] == current
            &&& 0 <= i < history.redo.len() ==> now.redo[i] == history.redo[i]
        },
        history.redo.len() > 0 ==> {
            let now = history.redone(current);
            &&& now.pending is None
            &&& now.redo.len() == history.redo.len() - 1
            &&& 0 <= i < now.redo.len() ==> now.redo[i] == history.redo[i]
            &&& now.undo.len() == history.undo.len() + 1
            &&& now.undo[now.undo.len() - 1] == current
            &&& 0 <= i < history.undo.len() ==> now.undo[i] == history.undo[i]
        },
        history.bounded() <==> history.undo.len() + history.redo.len() <= 128,
{
}

/// An edit is recorded exactly if the scene, taken anew, is not like the one before.
pub proof fn law_edits_are_told_by_the_scene<
    S,
    F: Fn(&SceneWorld) -> S,
    E: Fn(&S, &S) -> bool,
>(
    world: SceneWorld,
    scene: S,
    answer: bool,
    capture: &F,
    alike: &E,
    taken: S,
    same: spec_fn(S, S) -> bool,
)
    requires
        found_alike(world, scene, answer, capture, alike),
        forall|s: S| #[trigger] capture.ensures((&world,), s) ==> s == taken,
        forall|a: S, b: S, r: bool| #[trigger] alike.ensures((&a, &b), r) ==> r == same(a, b),
    ensures
        answer == same(taken, scene),
{
    let current = choose|current: S| #[trigger]
        capture.ensures((&world,), current) && alike.ensures((&current, &scene), answer);
    assert(alike.ensures((&current, &scene), answer));
}

} // verus!
