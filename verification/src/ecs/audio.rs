//! Listeners and sound sources: which tracks they need, and when a source starts.
//!
//! The handles of the sound library are the host's; here they are values of a type it
//! chooses.

use vstd::prelude::*;

use crate::ecs::components::{Quat, Transform, Vec3};
use crate::ecs::entities::Entity;
use crate::ecs::propagate::{global_of, global_transform};
use crate::ecs::world::{SceneWorld, WorldView};
use crate::picks::{lemma_picked, picked};

verus! {

/// Something that hears.
#[derive(Debug)]
pub struct AudioListener<H> {
    /// The entity that hears.
    pub entity: Entity,
    /// The listener of the sound library, once it was made.
    pub handle: Option<H>,
}

impl<H> AudioListener<H> {
    /// Whether the sound library knows the listener.
    pub fn is_active(&self) -> (answer: bool)
        ensures
            answer == (self.handle is Some),
    {
        self.handle.is_some()
    }
}

/// What has to be done with the listener in a frame.
#[derive(Debug, Clone, Copy, PartialEq, Eq, Structural)]
pub enum ListenerUpdate {
    /// Nothing: there is none, or none could be made.
    Missing,
    /// It is moved to where its entity is.
    Move {
        /// Where it is.
        position: Vec3,
        /// How it is turned.
        rotation: Quat,
    },
    /// It was just made there.
    Made,
}

/// What became of the listener in a frame.
#[derive(Debug, Clone, Copy, PartialEq, Eq, Structural)]
pub struct ListenerSync {
    /// Which listener counts.
    pub chosen: Option<usize>,
    /// How many more there are, which are passed over.
    pub others: usize,
    /// What has to be done with it.
    pub update: ListenerUpdate,
}

/// The listeners whose entities are somewhere in the world.
pub open spec fn placed_listeners<H>(
    world: WorldView,
    listeners: Seq<AudioListener<H>>,
) -> Seq<usize> {
    picked(listeners.len(), |i: int| global_of(world, listeners[i].entity) is Some)
}

proof fn lemma_placed_listeners<H>(world: WorldView, listeners: Seq<AudioListener<H>>)
    requires
        listeners.len() <= usize::MAX,
    ensures
        forall|i: int|
            0 <= i < placed_listeners(world, listeners).len() ==> (#[trigger] placed_listeners(
                world,
                listeners,
            )[i]) < listeners.len(),
{
    lemma_picked(listeners.len(), |i: int| global_of(world, listeners[i].entity) is Some);
}

/// Whether a listener that is at `place` was made or moved as it is in a frame.
pub open spec fn listener_kept<H, F: Fn(Vec3, Quat) -> Option<H>>(
    before: AudioListener<H>,
    after: AudioListener<H>,
    place: Transform,
    update: ListenerUpdate,
    make: &F,
) -> bool {
    match before.handle {
        Some(_) => after == before && update == (ListenerUpdate::Move {
            position: place.translation,
            rotation: place.rotation,
        }),
        None => {
            &&& make.ensures((place.translation, place.rotation), after.handle)
            &&& after == (AudioListener { handle: after.handle, ..before })
            &&& update == (if after.handle is Some {
                ListenerUpdate::Made
            } else {
                ListenerUpdate::Missing
            })
        },
    }
}

/// Whether the first listener that is somewhere was made or moved, and the others were
/// left alone.
pub open spec fn listener_synced<H, F: Fn(Vec3, Quat) -> Option<H>>(
    world: WorldView,
    before: Seq<AudioListener<H>>,
    after: Seq<AudioListener<H>>,
    sync: ListenerSync,
    make: &F,
) -> bool {
    let placed = placed_listeners(world, before);
    &&& after.len() == before.len()
    &&& if placed.len() == 0 {
        &&& after == before
        &&& sync == (ListenerSync { chosen: None, others: 0, update: ListenerUpdate::Missing })
    } else {
        let first = placed[0] as int;
        &&& sync.chosen == Some(placed[0])
        &&& sync.others == placed.len() - 1
        &&& forall|i: int| 0 <= i < before.len() && i != first ==> #[trigger] after[i] == before[i]
        &&& listener_kept(
            before[first],
            after[first],
            global_of(world, before[first].entity)->0,
            sync.update,
            make,
        )
    }
}

/// Makes or moves the listener. The first one that is somewhere counts. `make` asks the
/// sound library for a listener, which it may refuse.
pub fn sync_listener<H, F: Fn(Vec3, Quat) -> Option<H>>(
    world: &SceneWorld,
    listeners: &mut Vec<AudioListener<H>>,
    make: &F,
) -> (sync: ListenerSync)
    requires
        world.wf(),
        forall|position: Vec3, rotation: Quat| make.requires((position, rotation)),
    ensures
        listener_synced(world@, old(listeners)@, final(listeners)@, sync, make),
{
    let ghost before = listeners@;
    let ghost keep = |i: int| global_of(world@, before[i].entity) is Some;
    let mut placed: Vec<usize> = Vec::new();
    let count: usize = listeners.len();
    for i in 0..count
        invariant
            world.wf(),
            count == listeners@.len(),
            listeners@ == before,
            keep == (|i: int| global_of(world@, before[i].entity) is Some),
            placed@ == picked(i as nat, keep),
    {
        if global_transform(world, listeners[i].entity).is_some() {
            placed.push(i);
        }
    }
    proof {
        lemma_picked(before.len(), keep);
    }
    if placed.len() == 0 {
        return ListenerSync { chosen: None, others: 0, update: ListenerUpdate::Missing };
    }
    let first: usize = placed[0];
    assert(placed@[0] == first);
    let others: usize = placed.len() - 1;
    let place = match global_transform(world, listeners[first].entity) {
        Some(place) => place,
        None => Transform::identity(),
    };
    if listeners[first].is_active() {
        return ListenerSync {
            chosen: Some(first),
            others,
            update: ListenerUpdate::Move {
                position: place.translation,
                rotation: place.rotation,
            },
        };
    }
    let handle = make(place.translation, place.rotation);
    let made: bool = handle.is_some();
    let listener = &mut listeners[first];
    listener.handle = handle;
    let update = if made {
        ListenerUpdate::Made
    } else {
        ListenerUpdate::Missing
    };
    ListenerSync { chosen: Some(first), others, update }
}

/// A source of sound.
#[derive(Debug)]
pub struct AudioEmitter<T> {
    /// The entity that it sounds from.
    pub entity: Entity,
    /// Whether it starts by itself.
    pub autoplay: bool,
    /// The bus it plays on, flat, in place of playing from where it is.
    pub bus: Option<usize>,
    /// Whether a start was asked for and has not been made.
    pub pending: bool,
    /// Whether it has had the start that it makes by itself.
    pub autoplayed: bool,
    /// Whether it was started at least once.
    pub started: bool,
    /// Its track of the sound library, once it was made.
    pub track: Option<T>,
}

impl<T> AudioEmitter<T> {
    /// A source that starts by itself.
    pub fn new(entity: Entity) -> (emitter: AudioEmitter<T>)
        ensures
            emitter == (AudioEmitter::<T> {
                entity,
                autoplay: true,
                bus: None,
                pending: false,
                autoplayed: false,
                started: false,
                track: None,
            }),
    {
        AudioEmitter {
            entity,
            autoplay: true,
            bus: None,
            pending: false,
            autoplayed: false,
            started: false,
            track: None,
        }
    }

    /// A source that is silent until it is told to play.
    pub fn silent(entity: Entity) -> (emitter: AudioEmitter<T>)
        ensures
            emitter == (AudioEmitter::<T> {
                entity,
                autoplay: false,
                bus: None,
                pending: false,
                autoplayed: false,
                started: false,
                track: None,
            }),
    {
        AudioEmitter {
            entity,
            autoplay: false,
            bus: None,
            pending: false,
            autoplayed: false,
            started: false,
            track: None,
        }
    }

    /// The same source, playing on the bus.
    pub fn on_bus(self, bus_index: usize) -> (emitter: AudioEmitter<T>)
        ensures
            emitter == (AudioEmitter { bus: Some(bus_index), ..self }),
    {
        AudioEmitter { bus: Some(bus_index), ..self }
    }

    /// Asks for a start in the next frame.
    pub fn play(&mut self)
        ensures
            *final(self) == (AudioEmitter { pending: true, ..*old(self) }),
    {
        self.pending = true;
    }

    /// Whether the source was started at least once.
    pub fn has_started(&self) -> (answer: bool)
        ensures
            answer == self.started,
    {
        self.started
    }

    /// Whether the source waits for a track: it plays from where it is, and has none.
    pub open spec fn lacks_track(self) -> bool {
        self.track is None && self.bus is None
    }

    /// Whether the source is to be started now.
    pub open spec fn is_due(self) -> bool {
        self.pending || (self.autoplay && !self.autoplayed)
    }

    /// Whether the source can be started: its bus exists, or it has a track.
    pub open spec fn can_play(self, buses: nat) -> bool {
        match self.bus {
            Some(bus) => bus < buses,
            None => self.track is Some,
        }
    }

    /// The source after a frame in which it had its track, if it was to get one. A start
    /// for want of a track is put off; one on a bus that there is not is dropped.
    pub open spec fn ticked(self, buses: nat) -> AudioEmitter<T> {
        if !self.is_due() {
            self
        } else if self.lacks_track() {
            AudioEmitter { pending: true, ..self }
        } else {
            AudioEmitter {
                pending: false,
                autoplayed: true,
                started: self.started || self.can_play(buses),
                ..self
            }
        }
    }

    /// What is done with source number `index` at the given place in such a frame.
    pub open spec fn actions(self, index: usize, position: Vec3, buses: nat) -> Seq<AudioAction> {
        let moves = if self.track is Some {
            seq![AudioAction::MoveTrack { index, position }]
        } else {
            Seq::empty()
        };
        if !self.is_due() {
            moves
        } else {
            match self.bus {
                Some(bus) => if bus < buses {
                    moves.push(AudioAction::PlayOnBus { index, bus })
                } else {
                    moves.push(AudioAction::MissingBus { index, bus })
                },
                None => if self.track is Some {
                    moves.push(AudioAction::PlayOnTrack { index })
                } else {
                    moves
                },
            }
        }
    }

    /// Whether the source got a track, if it is somewhere and lacked one and there is a
    /// listener.
    pub open spec fn given_track<F: Fn(Vec3) -> Option<T>>(
        self,
        after: AudioEmitter<T>,
        place: Option<Transform>,
        listening: bool,
        make: &F,
    ) -> bool {
        if place is Some && listening && self.lacks_track() {
            make.ensures((place->0.translation,), after.track) && after == (AudioEmitter {
                track: after.track,
                ..self
            })
        } else {
            after == self
        }
    }
}

/// Something that is done with a source.
#[derive(Debug, Clone, Copy, PartialEq, Eq, Structural)]
pub enum AudioAction {
    /// Its track is moved to where it is.
    MoveTrack {
        /// The source.
        index: usize,
        /// The place.
        position: Vec3,
    },
    /// It is started on a bus.
    PlayOnBus {
        /// The source.
        index: usize,
        /// The bus.
        bus: usize,
    },
    /// It is started on its track.
    PlayOnTrack {
        /// The source.
        index: usize,
    },
    /// It names a bus that there is not.
    MissingBus {
        /// The source.
        index: usize,
        /// The bus.
        bus: usize,
    },
}

/// What is done with the first `n` sources, each with its track. A source whose entity
/// is nowhere is passed over.
pub open spec fn all_actions<T>(
    world: WorldView,
    emitters: Seq<AudioEmitter<T>>,
    buses: nat,
    n: nat,
) -> Seq<AudioAction>
    decreases n,
{
    if n == 0 {
        Seq::empty()
    } else {
        let before = all_actions(world, emitters, buses, (n - 1) as nat);
        match global_of(world, emitters[n - 1].entity) {
            Some(place) => before + emitters[n - 1].actions(
                (n - 1) as usize,
                place.translation,
                buses,
            ),
            None => before,
        }
    }
}

/// Gives every source that is somewhere and lacks a track one, if there is a listener.
/// `make` asks the sound library, which may refuse.
fn make_tracks<T, F: Fn(Vec3) -> Option<T>>(
    world: &SceneWorld,
    emitters: &mut Vec<AudioEmitter<T>>,
    listening: bool,
    make: &F,
)
    requires
        world.wf(),
        forall|position: Vec3| make.requires((position,)),
    ensures
        final(emitters)@.len() == old(emitters)@.len(),
        forall|i: int|
            0 <= i < old(emitters)@.len() ==> old(emitters)@[i].given_track(
                #[trigger] final(emitters)@[i],
                global_of(world@, old(emitters)@[i].entity),
                listening,
                make,
            ),
{
    if !listening {
        return;
    }
    let ghost before = emitters@;
    let count: usize = emitters.len();
    for i in 0..count
        invariant
            world.wf(),
            count == emitters@.len(),
            before.len() == count,
            listening,
            forall|position: Vec3| make.requires((position,)),
            forall|k: int|
                0 <= k < i ==> before[k].given_track(
                    #[trigger] emitters@[k],
                    global_of(world@, before[k].entity),
                    listening,
                    make,
                ),
            forall|k: int| i <= k < count ==> #[trigger] emitters@[k] == before[k],
    {
        match global_transform(world, emitters[i].entity) {
            Some(place) => {
                let emitter = &mut emitters[i];
                if emitter.track.is_none() && emitter.bus.is_none() {
                    emitter.track = make(place.translation);
                }
            },
            None => {},
        }
    }
}

/// Whether a frame took the sources from one state to the other with the given
/// actions, where `ready` are the sources with their tracks, before any was started.
pub open spec fn audio_step<T, F: Fn(Vec3) -> Option<T>>(
    world: WorldView,
    before: Seq<AudioEmitter<T>>,
    ready: Seq<AudioEmitter<T>>,
    after: Seq<AudioEmitter<T>>,
    actions: Seq<AudioAction>,
    listening: bool,
    buses: nat,
    make: &F,
) -> bool {
    &&& ready.len() == before.len()
    &&& after.len() == before.len()
    &&& forall|i: int|
        0 <= i < before.len() ==> before[i].given_track(
            #[trigger] ready[i],
            global_of(world, before[i].entity),
            listening,
            make,
        )
    &&& forall|i: int|
        0 <= i < before.len() ==> #[trigger] after[i] == (if global_of(
            world,
            before[i].entity,
        ) is Some {
            ready[i].ticked(buses)
        } else {
            ready[i]
        })
    &&& actions == all_actions(world, ready, buses, ready.len())
}

/// Keeps the sources in step with their entities for a frame, and starts those that are
/// due.
fn update_emitters<T, F: Fn(Vec3) -> Option<T>>(
    world: &SceneWorld,
    emitters: &mut Vec<AudioEmitter<T>>,
    listening: bool,
    buses: usize,
    make: &F,
) -> (actions: Vec<AudioAction>)
    requires
        world.wf(),
        forall|position: Vec3| make.requires((position,)),
    ensures
        exists|ready: Seq<AudioEmitter<T>>| #[trigger]
            audio_step(
                world@,
                old(emitters)@,
                ready,
                final(emitters)@,
                actions@,
                listening,
                buses as nat,
                make,
            ),
{
    let ghost before = emitters@;
    make_tracks(world, emitters, listening, make);
    let ghost ready = emitters@;
    let mut actions: Vec<AudioAction> = Vec::new();
    let count: usize = emitters.len();
    assert forall|k: int| 0 <= k < count implies (#[trigger] ready[k]).entity
        == before[k].entity by {}
    for i in 0..count
        invariant
            world.wf(),
            count == emitters@.len(),
            ready.len() == count,
            forall|k: int|
                0 <= k < i ==> #[trigger] emitters@[k] == (if global_of(
                    world@,
                    ready[k].entity,
                ) is Some {
                    ready[k].ticked(buses as nat)
                } else {
                    ready[k]
                }),
            forall|k: int| i <= k < count ==> #[trigger] emitters@[k] == ready[k],
            actions@ == all_actions(world@, ready, buses as nat, i as nat),
    {
        let ghost emitter_now = ready[i as int];
        let ghost so_far = actions@;
        match global_transform(world, emitters[i].entity) {
            Some(place) => {
                let position: Vec3 = place.translation;
                let emitter = &mut emitters[i];
                let has_track: bool = emitter.track.is_some();
                if has_track {
                    actions.push(AudioAction::MoveTrack { index: i, position });
                }
                if emitter.pending || (emitter.autoplay && !emitter.autoplayed) {
                    emitter.pending = false;
                    match emitter.bus {
                        Some(bus) => {
                            emitter.autoplayed = true;
                            if bus < buses {
                                emitter.started = true;
                                actions.push(AudioAction::PlayOnBus { index: i, bus });
                            } else {
                                actions.push(AudioAction::MissingBus { index: i, bus });
                            }
                        },
                        None => {
                            if has_track {
                                emitter.autoplayed = true;
                                emitter.started = true;
                                actions.push(AudioAction::PlayOnTrack { index: i });
                            } else {
                                emitter.pending = true;
                            }
                        },
                    }
                }
                assert(actions@ =~= so_far + emitter_now.actions(i, position, buses as nat));
            },
            None => {},
        }
    }
    assert(audio_step(world@, before, ready, emitters@, actions@, listening, buses as nat, make));
    actions
}

/// What became of the sound in a frame.
#[derive(Debug)]
pub struct AudioFrame {
    /// What became of the listener.
    pub listener: ListenerSync,
    /// What is done with the sources, in order.
    pub actions: Vec<AudioAction>,
}

/// Whether the sound library has the listener that counts.
pub open spec fn hears<H>(listeners: Seq<AudioListener<H>>, sync: ListenerSync) -> bool {
    sync.chosen matches Some(i) && listeners[i as int].handle is Some
}

/// Keeps the listener and the sources in step with their entities for a frame, and
/// starts the sources that are due. First the listener is made or moved. Then each source
/// that lacks a track gets one if there is a listener; those with a track are moved; a
/// source that is due starts on its bus or its track, and one that has neither stays due.
/// What has no place in the world takes no part.
pub fn update_audio<
    H,
    T,
    L: Fn(Vec3, Quat) -> Option<H>,
    F: Fn(Vec3) -> Option<T>,
>(
    world: &SceneWorld,
    listeners: &mut Vec<AudioListener<H>>,
    emitters: &mut Vec<AudioEmitter<T>>,
    buses: usize,
    make_listener: &L,
    make_track: &F,
) -> (frame: AudioFrame)
    requires
        world.wf(),
        forall|position: Vec3, rotation: Quat| make_listener.requires((position, rotation)),
        forall|position: Vec3| make_track.requires((position,)),
    ensures
        listener_synced(
            world@,
            old(listeners)@,
            final(listeners)@,
            frame.listener,
            make_listener,
        ),
        exists|ready: Seq<AudioEmitter<T>>| #[trigger]
            audio_step(
                world@,
                old(emitters)@,
                ready,
                final(emitters)@,
                frame.actions@,
                hears(final(listeners)@, frame.listener),
                buses as nat,
                make_track,
            ),
{
    let ghost before = listeners@;
    proof {
        assert(before.len() == listeners.len());
        lemma_placed_listeners(world@, before);
    }
    let listener = sync_listener(world, listeners, make_listener);
    let listening: bool = match listener.chosen {
        Some(i) => listeners[i].is_active(),
        None => false,
    };
    assert(listening == hears(listeners@, listener));
    let ghost was = emitters@;
    let actions = update_emitters(world, emitters, listening, buses, make_track);
    let frame = AudioFrame { listener, actions };
    proof {
        let heard = hears(listeners@, frame.listener);
        let ready = choose|ready: Seq<AudioEmitter<T>>| #[trigger]
            audio_step(
                world@,
                was,
                ready,
                emitters@,
                frame.actions@,
                heard,
                buses as nat,
                make_track,
            );
        assert(audio_step(
            world@,
            was,
            ready,
            emitters@,
            frame.actions@,
            heard,
            buses as nat,
            make_track,
        ));
    }
    frame
}

/// A source that starts by itself and has somewhere to play starts in the first frame
/// and in no later one, unless it is told to.
pub proof fn law_autoplay_starts_once<T>(emitter: AudioEmitter<T>, buses: nat)
    requires
        emitter.autoplay,
        !emitter.autoplayed,
        emitter.can_play(buses),
    ensures
        emitter.is_due(),
        emitter.ticked(buses).started,
        !emitter.ticked(buses).is_due(),
{
}

/// A source that is due but has no track to play on stays due: the start is put off, not
/// dropped, and whether it was ever started stays as it was.
pub proof fn law_start_is_put_off<T>(emitter: AudioEmitter<T>, buses: nat)
    requires
        emitter.is_due(),
        emitter.lacks_track(),
    ensures
        emitter.ticked(buses).is_due(),
        emitter.ticked(buses).started == emitter.started,
{
}

/// Whether something that is done is the start of a source.
pub open spec fn is_start(action: AudioAction) -> bool {
    action is PlayOnBus || action is PlayOnTrack
}

/// A source counts as started exactly if it did before or is started now, and so never
/// stops counting as started.
pub proof fn law_started_means_started_once<T>(
    emitter: AudioEmitter<T>,
    index: usize,
    position: Vec3,
    buses: nat,
)
    ensures
        emitter.ticked(buses).started <==> emitter.started || exists|i: int|
            0 <= i < emitter.actions(index, position, buses).len() && is_start(
                #[trigger] emitter.actions(index, position, buses)[i],
            ),
{
    let actions = emitter.actions(index, position, buses);
    if emitter.is_due() && emitter.can_play(buses) {
        assert(is_start(actions[actions.len() - 1]));
    }
}

/// The entity hears and sounds only where it has a place in the world: the listener that is
/// used is the first one whose entity is alive and has one. The rest that have one are only
/// counted. A listener that the sound library knows is moved to that place; one that it
/// does not know is made there; no other listener is touched.
pub proof fn law_first_listener_with_a_place_hears<H, F: Fn(Vec3, Quat) -> Option<H>>(
    world: WorldView,
    before: Seq<AudioListener<H>>,
    after: Seq<AudioListener<H>>,
    sync: ListenerSync,
    make: &F,
    k: int,
)
    requires
        listener_synced(world, before, after, sync, make),
        before.len() <= usize::MAX,
        0 <= k < before.len(),
    ensures
        ({
            let entity = before[k].entity;
            let there = world.table.contains_key(entity)
                && world.table[entity].global_transform is Some;
            let place = (world.table[entity].global_transform->0).0;
            &&& there ==> sync.chosen is Some && sync.chosen->0 <= k
            &&& sync.chosen == Some(k as usize) ==> there
            &&& sync.chosen != Some(k as usize) ==> after[k] == before[k]
            &&& sync.chosen == Some(k as usize) ==> after[k].entity == before[k].entity
            &&& sync.chosen == Some(k as usize) && before[k].handle is Some ==> {
                &&& after[k].handle == before[k].handle
                &&& sync.update == (ListenerUpdate::Move {
                    position: place.translation,
                    rotation: place.rotation,
                })
            }
            &&& sync.chosen == Some(k as usize) && before[k].handle is None ==> {
                &&& make.ensures((place.translation, place.rotation), after[k].handle)
                &&& after[k].handle is Some ==> sync.update == ListenerUpdate::Made
                &&& after[k].handle is None ==> sync.update == ListenerUpdate::Missing
            }
        }),
        sync.chosen is Some ==> sync.chosen->0 < before.len(),
        sync.chosen is None ==> sync.update == ListenerUpdate::Missing && sync.others == 0,
{
    let keep = |i: int| global_of(world, before[i].entity) is Some;
    lemma_picked(before.len(), keep);
    let placed = placed_listeners(world, before);
    assert(placed == picked(before.len(), keep));
    if keep(k) {
        assert(placed.contains(k as usize));
        let at = placed.index_of(k as usize);
        assert(placed[0] <= placed[at]);
    }
    if placed.len() > 0 {
        assert(keep(placed[0] as int));
    }
}

/// How many of the first `n` listeners have a place in the world.
pub open spec fn with_a_place<H>(world: WorldView, listeners: Seq<AudioListener<H>>, n: nat) -> nat
    decreases n,
{
    if n == 0 {
        0
    } else {
        let entity = listeners[n - 1].entity;
        with_a_place(world, listeners, (n - 1) as nat) + (if world.table.contains_key(entity)
            && world.table[entity].global_transform is Some {
            1nat
        } else {
            0nat
        })
    }
}

/// All the listeners with a place in the world but the one that is used are counted.
pub proof fn law_other_listeners_are_counted<H, F: Fn(Vec3, Quat) -> Option<H>>(
    world: WorldView,
    before: Seq<AudioListener<H>>,
    after: Seq<AudioListener<H>>,
    sync: ListenerSync,
    make: &F,
)
    requires
        listener_synced(world, before, after, sync, make),
    ensures
        after.len() == before.len(),
        sync.chosen is Some ==> sync.others + 1 == with_a_place(world, before, before.len()),
        sync.chosen is None ==> 0 == with_a_place(world, before, before.len()),
{
    lemma_with_a_place(world, before, before.len());
}

proof fn lemma_with_a_place<H>(world: WorldView, listeners: Seq<AudioListener<H>>, n: nat)
    ensures
        with_a_place(world, listeners, n) == picked(
            n,
            |i: int| global_of(world, listeners[i].entity) is Some,
        ).len(),
    decreases n,
{
    if n > 0 {
        lemma_with_a_place(world, listeners, (n - 1) as nat);
    }
}

/// What a step of the sound sources does to each of them. One whose entity is not alive or
/// has no place in the world stays as it is. Any other that has neither a track nor a bus
/// gets a track made where it is, if there is a listener. It is to start if that was asked
/// for, or if it starts by itself and never did. Then it starts if its bus is there or, with
/// no bus, its track; without either it waits, and on a bus that is not there it is only
/// done with.
pub proof fn law_sources_start_when_due<T, F: Fn(Vec3) -> Option<T>>(
    world: WorldView,
    before: Seq<AudioEmitter<T>>,
    ready: Seq<AudioEmitter<T>>,
    after: Seq<AudioEmitter<T>>,
    actions: Seq<AudioAction>,
    listening: bool,
    buses: nat,
    make: &F,
    i: int,
)
    requires
        audio_step(world, before, ready, after, actions, listening, buses, make),
        0 <= i < before.len(),
    ensures
        after.len() == before.len(),
        ({
            let old = before[i];
            let new = after[i];
            let there = world.table.contains_key(old.entity)
                && world.table[old.entity].global_transform is Some;
            let due = old.pending || (old.autoplay && !old.autoplayed);
            &&& new.entity == old.entity && new.autoplay == old.autoplay && new.bus == old.bus
            &&& !there ==> new == old
            &&& there && listening && old.track is None && old.bus is None ==> make.ensures(
                ((world.table[old.entity].global_transform->0).0.translation,),
                new.track,
            )
            &&& !listening || old.track is Some || old.bus is Some ==> new.track == old.track
            &&& there && !due ==> new.pending == old.pending && new.autoplayed
                == old.autoplayed && new.started == old.started
            &&& there && due && old.bus is None && new.track is None ==> new.pending
                && new.autoplayed == old.autoplayed && new.started == old.started
            &&& there && due && old.bus is None && new.track is Some ==> !new.pending
                && new.autoplayed && new.started
            &&& there && due && old.bus is Some ==> !new.pending && new.autoplayed && (new.started
                <==> old.started || old.bus->0 < buses)
        }),
{
    assert(after[i] == after[i] && ready[i] == ready[i]);
}

/// The sound source that an action is about.
pub open spec fn source_of(action: AudioAction) -> usize {
    match action {
        AudioAction::MoveTrack { index, .. } => index,
        AudioAction::PlayOnBus { index, .. } => index,
        AudioAction::PlayOnTrack { index } => index,
        AudioAction::MissingBus { index, .. } => index,
    }
}

/// What the sound library is told in a step of the sound sources, source by source: to move
/// the track of each that has one and whose entity has a place in the world; to play on
/// each bus that is there, and on each track of a source without a bus, of the sources that
/// are to start. A bus that is not there is reported. A track is moved before it plays.
pub proof fn law_sound_library_is_told<T, F: Fn(Vec3) -> Option<T>>(
    world: WorldView,
    before: Seq<AudioEmitter<T>>,
    ready: Seq<AudioEmitter<T>>,
    after: Seq<AudioEmitter<T>>,
    actions: Seq<AudioAction>,
    listening: bool,
    buses: nat,
    make: &F,
    index: usize,
)
    requires
        audio_step(world, before, ready, after, actions, listening, buses, make),
        before.len() <= usize::MAX,
    ensures
        ({
            let entity = before[index as int].entity;
            let old = before[index as int];
            let there = index < before.len() && world.table.contains_key(entity)
                && world.table[entity].global_transform is Some;
            let due = old.pending || (old.autoplay && !old.autoplayed);
            let track = after[index as int].track is Some;
            &&& forall|position: Vec3| #[trigger]
                actions.contains(AudioAction::MoveTrack { index, position }) <==> there && track
                    && position == (world.table[entity].global_transform->0).0.translation
            &&& forall|bus: usize| #[trigger]
                actions.contains(AudioAction::PlayOnBus { index, bus }) <==> there && due
                    && old.bus == Some(bus) && bus < buses
            &&& forall|bus: usize| #[trigger]
                actions.contains(AudioAction::MissingBus { index, bus }) <==> there && due
                    && old.bus == Some(bus) && bus >= buses
            &&& actions.contains(AudioAction::PlayOnTrack { index }) <==> there && due && track
                && old.bus is None
        }),
        forall|k: int, l: int|
            #![trigger actions[k], actions[l]]
            0 <= k < l < actions.len() ==> source_of(actions[k]) < source_of(actions[l]) || (
            source_of(actions[k]) == source_of(actions[l]) && actions[k] is MoveTrack
                && !(actions[l] is MoveTrack)),
{
    let n = ready.len();
    lemma_all_actions_order(world, ready, buses, n);
    assert forall|a: AudioAction| source_of(a) == index implies (#[trigger] actions.contains(a)
        <==> index < n && global_of(world, ready[index as int].entity) is Some
        && ready[index as int].actions(
        index,
        global_of(world, ready[index as int].entity)->0.translation,
        buses,
    ).contains(a)) by {
        lemma_all_actions_hold(world, ready, buses, n, a);
    }
    if index < before.len() {
        let place = global_of(world, ready[index as int].entity)->0.translation;
        lemma_own_actions(ready[index as int], index, place, buses);
        assert(after[index as int] == after[index as int]);
    }
}

proof fn lemma_own_actions<T>(emitter: AudioEmitter<T>, index: usize, place: Vec3, buses: nat)
    ensures
        ({
            let own = emitter.actions(index, place, buses);
            &&& forall|position: Vec3| #[trigger]
                own.contains(AudioAction::MoveTrack { index, position }) <==> emitter.track is Some
                    && position == place
            &&& forall|bus: usize| #[trigger]
                own.contains(AudioAction::PlayOnBus { index, bus }) <==> emitter.is_due()
                    && emitter.bus == Some(bus) && bus < buses
            &&& forall|bus: usize| #[trigger]
                own.contains(AudioAction::MissingBus { index, bus }) <==> emitter.is_due()
                    && emitter.bus == Some(bus) && bus >= buses
            &&& own.contains(AudioAction::PlayOnTrack { index }) <==> emitter.is_due()
                && emitter.track is Some && emitter.bus is None
        }),
{
    let own = emitter.actions(index, place, buses);
    assert(own.len() <= 2);
    if own.len() > 0 {
        assert(own.contains(own[0]));
        assert(own.contains(own.last()));
    }
}

proof fn lemma_all_actions_hold<T>(
    world: WorldView,
    emitters: Seq<AudioEmitter<T>>,
    buses: nat,
    n: nat,
    action: AudioAction,
)
    requires
        n <= emitters.len() <= usize::MAX,
    ensures
        ({
            let i = source_of(action);
            all_actions(world, emitters, buses, n).contains(action) <==> i < n && global_of(
                world,
                emitters[i as int].entity,
            ) is Some && emitters[i as int].actions(
                i,
                global_of(world, emitters[i as int].entity)->0.translation,
                buses,
            ).contains(action)
        }),
    decreases n,
{
    if n > 0 {
        let m = (n - 1) as nat;
        lemma_all_actions_hold(world, emitters, buses, m, action);
        let before = all_actions(world, emitters, buses, m);
        if global_of(world, emitters[n - 1].entity) is Some {
            let own = emitters[n - 1].actions(
                (n - 1) as usize,
                global_of(world, emitters[n - 1].entity)->0.translation,
                buses,
            );
            lemma_in_sum(before, own, action);
            if own.contains(action) {
                assert(source_of(action) == n - 1);
            }
        }
    }
}

proof fn lemma_in_sum<A>(a: Seq<A>, b: Seq<A>, x: A)
    ensures
        (a + b).contains(x) <==> a.contains(x) || b.contains(x),
{
    if a.contains(x) {
        assert((a + b)[a.index_of(x)] == x);
    }
    if b.contains(x) {
        assert((a + b)[a.len() + b.index_of(x)] == x);
    }
    if (a + b).contains(x) {
        let k = (a + b).index_of(x);
        assert(if k < a.len() {
            a[k] == x
        } else {
            b[k - a.len()] == x
        });
    }
}

proof fn lemma_all_actions_order<T>(
    world: WorldView,
    emitters: Seq<AudioEmitter<T>>,
    buses: nat,
    n: nat,
)
    requires
        n <= emitters.len() <= usize::MAX,
    ensures
        forall|k: int|
            0 <= k < all_actions(world, emitters, buses, n).len() ==> source_of(
                #[trigger] all_actions(world, emitters, buses, n)[k],
            ) < n,
        forall|k: int, l: int|
            #![trigger all_actions(world, emitters, buses, n)[k], all_actions(
                world,
                emitters,
                buses,
                n,
            )[l]]
            0 <= k < l < all_actions(world, emitters, buses, n).len() ==> {
                let a = all_actions(world, emitters, buses, n)[k];
                let b = all_actions(world, emitters, buses, n)[l];
                source_of(a) < source_of(b) || (source_of(a) == source_of(b) && a is MoveTrack
                    && !(b is MoveTrack))
            },
    decreases n,
{
    if n > 0 {
        lemma_all_actions_order(world, emitters, buses, (n - 1) as nat);
    }
}

/// Something hears exactly if a listener is used and the sound library knows it.
pub proof fn law_hearing_needs_a_known_listener<H>(
    listeners: Seq<AudioListener<H>>,
    sync: ListenerSync,
)
    ensures
        hears(listeners, sync) <==> sync.chosen is Some && listeners[sync.chosen->0 as int].handle
            is Some,
{
}

} // verus!
