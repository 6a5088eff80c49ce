//! The clocks of animated entities, and the events they pass.
//!
//! The clock is a single-precision number. Adding to it and wrapping it are left to the
//! host; when a player stops, where it stands then and which events it passed are
//! decided here.

use vstd::prelude::*;

use crate::ecs::entities::Entity;
use crate::ecs::scalar::{one, zero, Scalar};
use crate::ecs::world::{lemma_filter_push, SceneWorld, WorldView};

verus! {

/// The encoding of minus one.
pub const MINUS_ONE_BITS: u32 = 0xbf80_0000;

/// The shortest clip that is played is longer than this.
pub const SHORTEST_CLIP_BITS: u32 = 0x3400_0000;

/// Something that happens at a moment of a clip.
#[derive(Debug, PartialEq, Eq)]
pub struct AnimationEvent {
    /// When, in seconds from the clip's start.
    pub time: Scalar,
    /// What it is called.
    pub name: String,
}

impl AnimationEvent {
    /// An event of the given name at the given time.
    pub fn new(time: Scalar, name: &str) -> (event: AnimationEvent)
        ensures
            event.time == time,
            event.name@ == name@,
    {
        AnimationEvent { time, name: name.to_owned() }
    }
}

/// Plays a clip on an entity.
#[derive(Debug, PartialEq, Eq)]
pub struct AnimationPlayer {
    /// How long the clip is, in seconds.
    pub duration: Scalar,
    /// Where in the clip the player is.
    pub time: Scalar,
    /// How fast it plays; backwards where it is negative.
    pub speed: Scalar,
    /// Whether it starts over at the end.
    pub looping: bool,
    /// Whether its clock runs.
    pub playing: bool,
    /// The events it reports.
    pub events: Vec<AnimationEvent>,
    /// Where it was before it last moved.
    pub previous_time: Scalar,
}

/// Whether the player moves at all: it plays, for a number of seconds, a clip that has
/// a length.
pub open spec fn moves(player: AnimationPlayer, dt: Scalar) -> bool {
    player.playing && dt.finite() && !player.duration.at_most(
        Scalar { bits: SHORTEST_CLIP_BITS },
    )
}

/// Whether a clock that was moved to `advanced` passed the end or the start.
pub open spec fn wraps(player: AnimationPlayer, advanced: Scalar) -> bool {
    player.looping && (player.duration.at_most(advanced) || advanced.less(zero()))
}

/// The speed of one second each second, in the direction of `speed`.
pub open spec fn lap_speed(speed: Scalar) -> Scalar {
    if zero().at_most(speed) {
        one()
    } else {
        Scalar { bits: MINUS_ONE_BITS }
    }
}

/// Whether a clock that was moved to `advanced` went all the way round: it came to
/// `lap`, where it is after one clip length, or farther.
pub open spec fn laps(player: AnimationPlayer, advanced: Scalar, lap: Scalar) -> bool {
    player.looping && if zero().at_most(player.speed) {
        lap.at_most(advanced)
    } else {
        advanced.at_most(lap)
    }
}

/// The player after its clock was moved to `advanced`. `wrapped` is where that is in a
/// clip that starts over.
pub open spec fn moved(
    player: AnimationPlayer,
    advanced: Scalar,
    wrapped: Scalar,
) -> AnimationPlayer {
    if player.looping {
        AnimationPlayer { previous_time: player.time, time: wrapped, ..player }
    } else if player.duration.at_most(advanced) {
        AnimationPlayer {
            previous_time: player.time,
            time: player.duration,
            playing: false,
            ..player
        }
    } else if advanced.at_most(zero()) {
        AnimationPlayer { previous_time: player.time, time: zero(), playing: false, ..player }
    } else {
        AnimationPlayer { previous_time: player.time, time: advanced, ..player }
    }
}

/// Whether a clock that went from one time to the other, forwards or backwards, passed
/// the moment: the start of the way does not count, its end does.
pub open spec fn passes(
    time: Scalar,
    from: Scalar,
    to: Scalar,
    wrapped: bool,
    forwards: bool,
) -> bool {
    if wrapped {
        if forwards {
            from.less(time) || time.at_most(to)
        } else {
            time.less(from) || to.at_most(time)
        }
    } else if forwards {
        from.less(time) && time.at_most(to)
    } else {
        time.less(from) && to.at_most(time)
    }
}

/// Whether the event is reported: its moment was passed, as every moment is on a way
/// all round, and lies in the clip.
pub open spec fn is_crossed(
    event: AnimationEvent,
    from: Scalar,
    to: Scalar,
    wrapped: bool,
    lapped: bool,
    forwards: bool,
    duration: Scalar,
) -> bool {
    &&& lapped || passes(event.time, from, to, wrapped, forwards)
    &&& zero().at_most(event.time)
    &&& event.time.at_most(duration)
}

/// The names of the reported events among the first `n`, in their order.
pub open spec fn crossed(
    events: Seq<AnimationEvent>,
    from: Scalar,
    to: Scalar,
    wrapped: bool,
    lapped: bool,
    forwards: bool,
    duration: Scalar,
    n: nat,
) -> Seq<String>
    decreases n,
{
    if n == 0 {
        Seq::empty()
    } else {
        let before = crossed(
            events,
            from,
            to,
            wrapped,
            lapped,
            forwards,
            duration,
            (n - 1) as nat,
        );
        if is_crossed(events[n - 1], from, to, wrapped, lapped, forwards, duration) {
            before.push(events[n - 1].name)
        } else {
            before
        }
    }
}

/// Whether a player moved as it does, its clock at `advanced` before it was wrapped, and
/// at `lap` after one clip length.
pub open spec fn moved_to<W: Fn(Scalar, Scalar) -> Scalar>(
    before: AnimationPlayer,
    after: AnimationPlayer,
    fired: Seq<String>,
    advanced: Scalar,
    lap: Scalar,
    wrap: &W,
) -> bool {
    &&& before.looping ==> wrap.ensures((advanced, before.duration), after.time)
    &&& after == moved(before, advanced, after.time)
    &&& fired == crossed(
        before.events@,
        before.time,
        after.time,
        wraps(before, advanced),
        laps(before, advanced, lap),
        zero().at_most(before.speed),
        before.duration,
        before.events@.len(),
    )
}

/// Whether a player went on for a time as it does, reporting the given events.
pub open spec fn advanced<
    A: Fn(Scalar, Scalar, Scalar) -> Scalar,
    W: Fn(Scalar, Scalar) -> Scalar,
>(
    before: AnimationPlayer,
    after: AnimationPlayer,
    fired: Seq<String>,
    dt: Scalar,
    run_on: &A,
    wrap: &W,
) -> bool {
    if moves(before, dt) {
        exists|clock: Scalar, lap: Scalar|
            {
                &&& #[trigger] run_on.ensures((before.time, dt, before.speed), clock)
                &&& #[trigger] run_on.ensures(
                    (before.time, before.duration, lap_speed(before.speed)),
                    lap,
                )
                &&& moved_to(before, after, fired, clock, lap, wrap)
            }
    } else {
        after == before && fired == Seq::<String>::empty()
    }
}

impl AnimationPlayer {
    /// A player at the start of a clip of the given length, that starts over.
    pub fn new(duration: Scalar) -> (player: AnimationPlayer)
        ensures
            player.duration == duration,
            player.time == zero(),
            player.speed == one(),
            player.looping,
            player.playing,
            player.events@.len() == 0,
            player.previous_time == zero(),
    {
        AnimationPlayer {
            duration,
            time: Scalar::zero(),
            speed: Scalar::one(),
            looping: true,
            playing: true,
            events: Vec::new(),
            previous_time: Scalar::zero(),
        }
    }

    /// The same player, stopping at the end.
    pub fn once(self) -> (player: AnimationPlayer)
        ensures
            player == (AnimationPlayer { looping: false, ..self }),
    {
        AnimationPlayer { looping: false, ..self }
    }

    /// The same player, reporting the events.
    pub fn with_events(self, events: Vec<AnimationEvent>) -> (player: AnimationPlayer)
        ensures
            player == (AnimationPlayer { events, ..self }),
    {
        AnimationPlayer { events, ..self }
    }

    /// Goes back to the start; whether the clock runs stays as it is.
    pub fn restart(&mut self)
        ensures
            *final(self) == (AnimationPlayer { time: zero(), previous_time: zero(), ..*old(self) }),
    {
        self.time = Scalar::zero();
        self.previous_time = Scalar::zero();
    }

    /// Goes on for `dt` seconds, and gives the names of the events passed on the way.
    /// `run_on` moves a clock by a time at a speed; `wrap` gives where a clock stands in a
    /// clip of a length that starts over.
    pub fn advance<A: Fn(Scalar, Scalar, Scalar) -> Scalar, W: Fn(Scalar, Scalar) -> Scalar>(
        &mut self,
        dt: Scalar,
        run_on: &A,
        wrap: &W,
    ) -> (fired: Vec<String>)
        requires
            forall|time: Scalar, dt: Scalar, speed: Scalar| run_on.requires((time, dt, speed)),
            forall|time: Scalar, duration: Scalar| wrap.requires((time, duration)),
        ensures
            advanced(*old(self), *final(self), fired@, dt, run_on, wrap),
    {
        if !self.playing || !dt.is_finite() {
            return Vec::new();
        }
        let shortest = Scalar { bits: SHORTEST_CLIP_BITS };
        if self.duration.is_at_most(&shortest) {
            return Vec::new();
        }
        let ghost before = *self;
        let nothing = Scalar::zero();
        self.previous_time = self.time;
        let clock: Scalar = run_on(self.time, dt, self.speed);
        let forwards: bool = nothing.is_at_most(&self.speed);
        let along: Scalar = if forwards {
            Scalar::one()
        } else {
            Scalar { bits: MINUS_ONE_BITS }
        };
        let lap: Scalar = run_on(self.time, self.duration, along);
        let mut wrapped: bool = false;
        let mut lapped: bool = false;
        if self.looping {
            lapped = if forwards {
                lap.is_at_most(&clock)
            } else {
                clock.is_at_most(&lap)
            };
            wrapped = self.duration.is_at_most(&clock) || clock.is_less(&nothing);
            self.time = wrap(clock, self.duration);
        } else if self.duration.is_at_most(&clock) {
            self.time = self.duration;
            self.playing = false;
        } else if clock.is_at_most(&nothing) {
            self.time = nothing;
            self.playing = false;
        } else {
            self.time = clock;
        }
        let fired = self.crossed_events(
            self.previous_time,
            self.time,
            wrapped,
            lapped,
            self.duration,
        );
        assert(moved_to(before, *self, fired@, clock, lap, wrap));
        fired
    }

    /// The names of the events that lie on the way from one time to the other.
    fn crossed_events(
        &self,
        from: Scalar,
        to: Scalar,
        wrapped: bool,
        lapped: bool,
        duration: Scalar,
    ) -> (fired: Vec<String>)
        ensures
            fired@ == crossed(
                self.events@,
                from,
                to,
                wrapped,
                lapped,
                zero().at_most(self.speed),
                duration,
                self.events@.len(),
            ),
    {
        let nothing = Scalar::zero();
        let forwards: bool = nothing.is_at_most(&self.speed);
        let mut fired: Vec<String> = Vec::new();
        let count: usize = self.events.len();
        for i in 0..count
            invariant
                count == self.events@.len(),
                nothing == zero(),
                forwards == zero().at_most(self.speed),
                fired@ == crossed(
                    self.events@,
                    from,
                    to,
                    wrapped,
                    lapped,
                    forwards,
                    duration,
                    i as nat,
                ),
        {
            let event = &self.events[i];
            let passed: bool = if lapped {
                true
            } else if wrapped {
                if forwards {
                    from.is_less(&event.time) || event.time.is_at_most(&to)
                } else {
                    event.time.is_less(&from) || to.is_at_most(&event.time)
                }
            } else if forwards {
                from.is_less(&event.time) && event.time.is_at_most(&to)
            } else {
                event.time.is_less(&from) && to.is_at_most(&event.time)
            };
            if passed && nothing.is_at_most(&event.time) && event.time.is_at_most(&duration) {
                fired.push(event.name.clone());
            }
        }
        fired
    }
}

/// The events that an entity's animation passed in a frame.
#[derive(Debug, PartialEq, Eq)]
pub struct AnimationEvents(pub Vec<String>);

impl Default for AnimationEvents {
    fn default() -> (events: AnimationEvents)
        ensures
            events.0@.len() == 0,
    {
        AnimationEvents(Vec::new())
    }
}

impl AnimationEvents {
    /// Whether an event of the name is among them.
    pub fn fired(&self, name: &str) -> (answer: bool)
        ensures
            answer == exists|i: int| 0 <= i < self.0@.len() && (#[trigger] self.0@[i])@ == name@,
    {
        let count: usize = self.0.len();
        for i in 0..count
            invariant
                count == self.0@.len(),
                forall|k: int| 0 <= k < i ==> (#[trigger] self.0@[k])@ != name@,
        {
            if crate::text::same(&self.0[i], name) {
                assert(self.0@[i as int]@ == name@);
                return true;
            }
        }
        false
    }
}

/// An animated entity.
#[derive(Debug)]
pub struct Animated {
    /// The entity.
    pub entity: Entity,
    /// Its player.
    pub player: AnimationPlayer,
    /// Where the events of the frame are noted, if it wants to know them.
    pub events: Option<AnimationEvents>,
}

/// A skin that is to be posed.
#[derive(Debug, Clone, Copy, PartialEq, Eq, Structural)]
pub struct PoseOrder {
    /// The entity's number.
    pub index: usize,
    /// The time in the clip.
    pub time: Scalar,
    /// Whether the end of the clip blends into its start.
    pub looping: bool,
}

/// Whether the entity has a skin to be posed.
pub open spec fn has_skin(world: WorldView, entity: Entity) -> bool {
    world.alive(entity) && world.table[entity].skinned_mesh_renderer is Some
}

/// Whether an entity was updated as it is in a frame; one that is not alive stays as it
/// was.
pub open spec fn animated<
    A: Fn(Scalar, Scalar, Scalar) -> Scalar,
    W: Fn(Scalar, Scalar) -> Scalar,
>(
    world: WorldView,
    before: Animated,
    after: Animated,
    dt: Scalar,
    run_on: &A,
    wrap: &W,
) -> bool {
    if world.alive(before.entity) {
        &&& after.entity == before.entity
        &&& after.events is Some <==> before.events is Some
        &&& exists|fired: Seq<String>| #[trigger]
            advanced(before.player, after.player, fired, dt, run_on, wrap) && (
            after.events matches Some(events) ==> events.0@ == fired)
    } else {
        after == before
    }
}

/// The skins to be posed among the first `n` entities.
pub open spec fn pose_orders(world: WorldView, entities: Seq<Animated>, n: nat) -> Seq<PoseOrder>
    decreases n,
{
    if n == 0 {
        Seq::empty()
    } else {
        let before = pose_orders(world, entities, (n - 1) as nat);
        if has_skin(world, entities[n - 1].entity) {
            before.push(
                PoseOrder {
                    index: (n - 1) as usize,
                    time: entities[n - 1].player.time,
                    looping: entities[n - 1].player.looping,
                },
            )
        } else {
            before
        }
    }
}

proof fn lemma_orders(world: WorldView, a: Seq<Animated>, b: Seq<Animated>, n: nat)
    requires
        n <= a.len(),
        n <= b.len(),
        forall|k: int| 0 <= k < n ==> #[trigger] a[k] == b[k],
    ensures
        pose_orders(world, a, n) == pose_orders(world, b, n),
    decreases n,
{
    if n > 0 {
        lemma_orders(world, a, b, (n - 1) as nat);
    }
}

/// Lets the player of every living entity go on for `dt` seconds, notes the events of
/// the frame, and gives the skins to be posed.
pub fn update_animations<
    A: Fn(Scalar, Scalar, Scalar) -> Scalar,
    W: Fn(Scalar, Scalar) -> Scalar,
>(
    world: &SceneWorld,
    entities: &mut Vec<Animated>,
    dt: Scalar,
    run_on: &A,
    wrap: &W,
) -> (orders: Vec<PoseOrder>)
    requires
        world.wf(),
        forall|time: Scalar, dt: Scalar, speed: Scalar| run_on.requires((time, dt, speed)),
        forall|time: Scalar, duration: Scalar| wrap.requires((time, duration)),
    ensures
        final(entities)@.len() == old(entities)@.len(),
        forall|i: int|
            0 <= i < old(entities)@.len() ==> animated(
                world@,
                old(entities)@[i],
                #[trigger] final(entities)@[i],
                dt,
                run_on,
                wrap,
            ),
        orders@ == pose_orders(world@, final(entities)@, final(entities)@.len()),
{
    let ghost before = entities@;
    let mut orders: Vec<PoseOrder> = Vec::new();
    let count: usize = entities.len();
    for i in 0..count
        invariant
            world.wf(),
            count == entities@.len(),
            before.len() == count,
            forall|time: Scalar, dt: Scalar, speed: Scalar| run_on.requires((time, dt, speed)),
            forall|time: Scalar, duration: Scalar| wrap.requires((time, duration)),
            forall|k: int|
                0 <= k < i ==> animated(
                    world@,
                    before[k],
                    #[trigger] entities@[k],
                    dt,
                    run_on,
                    wrap,
                ),
            forall|k: int| i <= k < count ==> #[trigger] entities@[k] == before[k],
            orders@ == pose_orders(world@, entities@, i as nat),
    {
        let ghost earlier = entities@;
        let (alive, skinned): (bool, bool) = match world.get(entities[i].entity) {
            Some(components) => (true, components.skinned_mesh_renderer.is_some()),
            None => (false, false),
        };
        if alive {
            let entity = &mut entities[i];
            let fired = entity.player.advance(dt, run_on, wrap);
            let ghost names = fired@;
            if entity.events.is_some() {
                entity.events = Some(AnimationEvents(fired));
            }
            let order = PoseOrder {
                index: i,
                time: entity.player.time,
                looping: entity.player.looping,
            };
            proof {
                let (was, now) = (before[i as int], entities@[i as int]);
                assert(advanced(was.player, now.player, names, dt, run_on, wrap));
                assert(animated(world@, was, now, dt, run_on, wrap));
                assert forall|k: int| 0 <= k < i implies #[trigger] entities@[k] == earlier[k] by {}
                lemma_orders(world@, earlier, entities@, i as nat);
            }
            if skinned {
                orders.push(order);
            }
        }
    }
    orders
}

/// Whether a step that goes neither past an end nor all round reports the event.
pub open spec fn is_on_the_way(
    event: AnimationEvent,
    from: Scalar,
    to: Scalar,
    forwards: bool,
    duration: Scalar,
) -> bool {
    is_crossed(event, from, to, false, false, forwards, duration)
}

/// Over two steps in the same direction that do not wrap, an event is reported exactly
/// if it lies on the whole way, and never twice.
pub proof fn law_event_is_reported_once(
    event: AnimationEvent,
    from: Scalar,
    between: Scalar,
    to: Scalar,
    forwards: bool,
    duration: Scalar,
)
    requires
        forwards ==> from.at_most(between) && between.at_most(to),
        !forwards ==> to.at_most(between) && between.at_most(from),
    ensures
        !(is_on_the_way(event, from, between, forwards, duration) && is_on_the_way(
            event,
            between,
            to,
            forwards,
            duration,
        )),
        is_on_the_way(event, from, to, forwards, duration) == (is_on_the_way(
            event,
            from,
            between,
            forwards,
            duration,
        ) || is_on_the_way(event, between, to, forwards, duration)),
{
}

/// A step that wraps but does not go all round reports an event exactly if it lies
/// between the old time and the end of the clip, or between the clip's start and the
/// new time.
pub proof fn law_wrapping_skips_no_event(
    event: AnimationEvent,
    from: Scalar,
    to: Scalar,
    duration: Scalar,
)
    ensures
        is_crossed(event, from, to, true, false, true, duration) == (zero().at_most(event.time)
            && event.time.at_most(duration) && (is_on_the_way(event, from, duration, true, duration)
            || event.time.at_most(to))),
        is_crossed(event, from, to, true, false, false, duration) == (zero().at_most(event.time)
            && event.time.at_most(duration) && (is_on_the_way(event, from, zero(), false, duration)
            || to.at_most(event.time))),
{
}

proof fn lemma_crossed_holds(
    events: Seq<AnimationEvent>,
    from: Scalar,
    to: Scalar,
    wrapped: bool,
    lapped: bool,
    forwards: bool,
    duration: Scalar,
    n: nat,
    i: int,
)
    requires
        0 <= i < n <= events.len(),
        is_crossed(events[i], from, to, wrapped, lapped, forwards, duration),
    ensures
        crossed(events, from, to, wrapped, lapped, forwards, duration, n).contains(events[i].name),
    decreases n,
{
    let rest = crossed(events, from, to, wrapped, lapped, forwards, duration, (n - 1) as nat);
    let all = crossed(events, from, to, wrapped, lapped, forwards, duration, n);
    if i == n - 1 {
        assert(all[all.len() - 1] == events[i].name);
    } else {
        lemma_crossed_holds(
            events,
            from,
            to,
            wrapped,
            lapped,
            forwards,
            duration,
            (n - 1) as nat,
            i,
        );
        let k = rest.index_of(events[i].name);
        assert(all[k] == events[i].name);
    }
}

/// A step of a looping player that goes at least once all round reports every event
/// that lies in the clip.
pub proof fn law_whole_lap_reports_every_event<W: Fn(Scalar, Scalar) -> Scalar>(
    before: AnimationPlayer,
    after: AnimationPlayer,
    fired: Seq<String>,
    clock: Scalar,
    lap: Scalar,
    wrap: &W,
    i: int,
)
    requires
        moved_to(before, after, fired, clock, lap, wrap),
        laps(before, clock, lap),
        0 <= i < before.events@.len(),
        zero().at_most(before.events@[i].time),
        before.events@[i].time.at_most(before.duration),
    ensures
        fired.contains(before.events@[i].name),
{
    lemma_crossed_holds(
        before.events@,
        before.time,
        after.time,
        wraps(before, clock),
        true,
        zero().at_most(before.speed),
        before.duration,
        before.events@.len(),
        i,
    );
}

/// A player that does not start over never leaves its clip: its clock stays between
/// the start and the end, and stands at one of them once it has stopped.
pub proof fn law_one_shot_stays_in_its_clip(player: AnimationPlayer, clock: Scalar)
    requires
        !player.looping,
        player.playing,
        !clock.not_a_number(),
        zero().less(player.duration),
    ensures
        ({
            let after = moved(player, clock, clock);
            &&& zero().at_most(after.time)
            &&& after.time.at_most(player.duration)
            &&& !after.playing ==> after.time == player.duration || after.time == zero()
        }),
{
}

proof fn lemma_crossed_are_filtered(
    events: Seq<AnimationEvent>,
    from: Scalar,
    to: Scalar,
    wrapped: bool,
    lapped: bool,
    forwards: bool,
    duration: Scalar,
    n: nat,
    keep: spec_fn(AnimationEvent) -> bool,
)
    requires
        n <= events.len(),
        forall|event: AnimationEvent| #[trigger]
            keep(event) <==> is_crossed(event, from, to, wrapped, lapped, forwards, duration),
    ensures
        crossed(events, from, to, wrapped, lapped, forwards, duration, n) == events.take(
            n as int,
        ).filter(keep).map_values(|event: AnimationEvent| event.name),
    decreases n,
{
    let name = |event: AnimationEvent| event.name;
    reveal(Seq::filter);
    if n > 0 {
        let m = (n - 1) as nat;
        lemma_crossed_are_filtered(
            events,
            from,
            to,
            wrapped,
            lapped,
            forwards,
            duration,
            m,
            keep,
        );
        let earlier = events.take(m as int).filter(keep);
        assert(events.take(n as int) =~= events.take(m as int).push(events[m as int]));
        lemma_filter_push(events.take(m as int), events[m as int], keep);
        assert(earlier.push(events[m as int]).map_values(name) =~= earlier.map_values(name).push(
            events[m as int].name,
        ));
    }
    assert(crossed(events, from, to, wrapped, lapped, forwards, duration, n) =~= events.take(
        n as int,
    ).filter(keep).map_values(name));
}

/// What a player reports, told by its clock alone. In a step in which it does not start
/// over, these are the events inside the clip whose times lie between the two clock
/// times, the start excluded and the end included, in either direction. If it starts
/// over, they are those from where it stood to the end that it ran over, and those from
/// the other end to where it stands; after a whole lap, all inside the clip. A player
/// that is stopped, whose clip is too short, or that is given no finite time reports
/// none.
pub proof fn law_reported_events_lie_on_the_way<
    A: Fn(Scalar, Scalar, Scalar) -> Scalar,
    W: Fn(Scalar, Scalar) -> Scalar,
>(
    before: AnimationPlayer,
    after: AnimationPlayer,
    fired: Seq<String>,
    dt: Scalar,
    run_on: &A,
    wrap: &W,
    clock: Scalar,
    pace: Scalar,
    lap: Scalar,
)
    requires
        advanced(before, after, fired, dt, run_on, wrap),
        forall|time: Scalar| #[trigger]
            run_on.ensures((before.time, dt, before.speed), time) ==> time == clock,
        forall|time: Scalar| #[trigger]
            run_on.ensures((before.time, before.duration, pace), time) ==> time == lap,
        zero().at_most(before.speed) ==> pace.bits == 0x3f80_0000,
        !zero().at_most(before.speed) ==> pace.bits == 0xbf80_0000,
    ensures
        ({
            let forwards = zero().at_most(before.speed);
            let over = before.looping && (before.duration.at_most(clock) || clock.less(zero()));
            let around = before.looping && if forwards {
                lap.at_most(clock)
            } else {
                clock.at_most(lap)
            };
            let runs = before.playing && dt.finite() && !before.duration.at_most(
                Scalar { bits: 0x3400_0000 },
            );
            fired == before.events@.filter(
                |event: AnimationEvent|
                    {
                        let time = event.time;
                        &&& runs
                        &&& zero().at_most(time) && time.at_most(before.duration)
                        &&& if around {
                            true
                        } else if over && forwards {
                            before.time.less(time) || time.at_most(after.time)
                        } else if over {
                            time.less(before.time) || after.time.at_most(time)
                        } else if forwards {
                            before.time.less(time) && time.at_most(after.time)
                        } else {
                            after.time.at_most(time) && time.less(before.time)
                        }
                    },
            ).map_values(|event: AnimationEvent| event.name)
        }),
{
    let forwards = zero().at_most(before.speed);
    let over = before.looping && (before.duration.at_most(clock) || clock.less(zero()));
    let around = before.looping && if forwards {
        lap.at_most(clock)
    } else {
        clock.at_most(lap)
    };
    let runs = before.playing && dt.finite() && !before.duration.at_most(
        Scalar { bits: 0x3400_0000 },
    );
    let keep = |event: AnimationEvent|
        {
            let time = event.time;
            &&& runs
            &&& zero().at_most(time) && time.at_most(before.duration)
            &&& if around {
                true
            } else if over && forwards {
                before.time.less(time) || time.at_most(after.time)
            } else if over {
                time.less(before.time) || after.time.at_most(time)
            } else if forwards {
                before.time.less(time) && time.at_most(after.time)
            } else {
                after.time.at_most(time) && time.less(before.time)
            }
        };
    let events = before.events@;
    assert(events.take(events.len() as int) =~= events);
    if runs {
        lemma_crossed_are_filtered(
            events,
            before.time,
            after.time,
            over,
            around,
            forwards,
            before.duration,
            events.len(),
            keep,
        );
    } else {
        lemma_nothing_is_kept(events, keep);
        assert(Seq::<AnimationEvent>::empty().map_values(
            |event: AnimationEvent| event.name,
        ) =~= Seq::<String>::empty());
    }
}

proof fn lemma_nothing_is_kept<T>(items: Seq<T>, keep: spec_fn(T) -> bool)
    requires
        forall|item: T| !#[trigger] keep(item),
    ensures
        items.filter(keep) == Seq::<T>::empty(),
    decreases items.len(),
{
    reveal(Seq::filter);
    if items.len() > 0 {
        lemma_nothing_is_kept(items.drop_last(), keep);
    }
}

/// Where the clock of a player stands after a step. A player that starts over stands
/// where the host wraps the clock to, and goes on. One that does not stops at the end or
/// the start of its clip when the clock gets there, and else stands where the clock does.
/// The step remembers where it began, and changes nothing else.
pub proof fn law_clock_stops_or_starts_over<
    A: Fn(Scalar, Scalar, Scalar) -> Scalar,
    W: Fn(Scalar, Scalar) -> Scalar,
>(
    before: AnimationPlayer,
    after: AnimationPlayer,
    fired: Seq<String>,
    dt: Scalar,
    run_on: &A,
    wrap: &W,
    clock: Scalar,
    wrapped: Scalar,
)
    requires
        advanced(before, after, fired, dt, run_on, wrap),
        forall|time: Scalar| #[trigger]
            run_on.ensures((before.time, dt, before.speed), time) ==> time == clock,
        forall|time: Scalar| #[trigger]
            wrap.ensures((clock, before.duration), time) ==> time == wrapped,
    ensures
        after.duration == before.duration,
        after.speed == before.speed,
        after.looping == before.looping,
        after.events == before.events,
        ({
            let runs = before.playing && dt.finite() && !before.duration.at_most(
                Scalar { bits: 0x3400_0000 },
            );
            &&& !runs ==> after == before && fired.len() == 0
            &&& runs ==> after.previous_time == before.time
            &&& runs && before.looping ==> after.time == wrapped && after.playing
            &&& runs && !before.looping && before.duration.at_most(clock) ==> after.time
                == before.duration && !after.playing
            &&& runs && !before.looping && clock.at_most(Scalar { bits: 0 }) && !(
            before.duration.at_most(clock)) ==> after.time.bits == 0 && !after.playing
            &&& runs && !before.looping && !clock.at_most(Scalar { bits: 0 }) && !(
            before.duration.at_most(clock)) ==> after.time == clock && after.playing
        }),
{
}

/// A skinned entity is posed exactly once, by its place among the animated ones, at the
/// time its player stands at and in the way it plays; nothing else is posed, and poses
/// come in the order of the entities.
pub proof fn law_every_skin_is_posed_once(world: WorldView, entities: Seq<Animated>, n: nat)
    requires
        n <= entities.len() <= usize::MAX,
    ensures
        ({
            let orders = pose_orders(world, entities, n);
            &&& forall|k: int|
                #![trigger orders[k]]
                0 <= k < orders.len() ==> {
                    let posed = entities[orders[k].index as int];
                    &&& orders[k].index < n
                    &&& world.table.contains_key(posed.entity)
                    &&& world.table[posed.entity].skinned_mesh_renderer is Some
                    &&& orders[k].time == posed.player.time
                    &&& orders[k].looping == posed.player.looping
                }
            &&& forall|j: int, k: int|
                #![trigger orders[j], orders[k]]
                0 <= j < k < orders.len() ==> orders[j].index < orders[k].index
            &&& forall|i: int|
                #![trigger entities[i]]
                0 <= i < n && world.table.contains_key(entities[i].entity)
                    && world.table[entities[i].entity].skinned_mesh_renderer is Some ==> exists|
                    k: int,
                |
                    0 <= k < orders.len() && (#[trigger] orders[k]).index == i
        }),
    decreases n,
{
    if n > 0 {
        let m = (n - 1) as nat;
        law_every_skin_is_posed_once(world, entities, m);
        let earlier = pose_orders(world, entities, m);
        let orders = pose_orders(world, entities, n);
        assert forall|k: int| 0 <= k < earlier.len() implies orders[k] == #[trigger] earlier[k] by {}
        assert forall|i: int|
            #![trigger entities[i]]
            0 <= i < n && world.table.contains_key(entities[i].entity)
                && world.table[entities[i].entity].skinned_mesh_renderer is Some implies exists|
            k: int,
        |
            0 <= k < orders.len() && (#[trigger] orders[k]).index == i by {
            if i < m {
                let k = choose|k: int| 0 <= k < earlier.len() && (#[trigger] earlier[k]).index == i;
                assert(orders[k] == earlier[k]);
            } else {
                assert(orders[earlier.len() as int].index == i);
            }
        }
        assert forall|j: int, k: int|
            #![trigger orders[j], orders[k]]
            0 <= j < k < orders.len() implies orders[j].index < orders[k].index by {
            assert(orders[j] == earlier[j]);
            if k < earlier.len() {
                assert(orders[k] == earlier[k]);
            }
        }
        assert forall|k: int|
            #![trigger orders[k]]
            0 <= k < orders.len() implies {
            let posed = entities[orders[k].index as int];
            &&& orders[k].index < n
            &&& world.table.contains_key(posed.entity)
            &&& world.table[posed.entity].skinned_mesh_renderer is Some
            &&& orders[k].time == posed.player.time
            &&& orders[k].looping == posed.player.looping
        } by {
            if k < earlier.len() {
                assert(orders[k] == earlier[k]);
            }
        }
    }
}

/// An entity that is gone is left as it is. Of any other the player runs on, and the
/// events it passes take the place of those noted before, where events are noted.
pub proof fn law_noted_events_are_those_of_the_step<
    A: Fn(Scalar, Scalar, Scalar) -> Scalar,
    W: Fn(Scalar, Scalar) -> Scalar,
>(
    world: WorldView,
    before: Animated,
    after: Animated,
    dt: Scalar,
    run_on: &A,
    wrap: &W,
)
    requires
        animated(world, before, after, dt, run_on, wrap),
    ensures
        !world.table.contains_key(before.entity) ==> after == before,
        after.entity == before.entity,
        after.events is Some <==> before.events is Some,
        world.table.contains_key(before.entity) ==> exists|fired: Seq<String>|
            {
                &&& #[trigger] advanced(before.player, after.player, fired, dt, run_on, wrap)
                &&& after.events is Some ==> (after.events->0).0@ == fired
            },
{
}

/// The animation of an entity that is not alive stands still: its clock, its events and what
/// was noted of them stay as they are. One that is alive goes on with its player, and keeps
/// or lacks a place to note events as before.
pub proof fn law_dead_entities_stand_still<
    A: Fn(Scalar, Scalar, Scalar) -> Scalar,
    W: Fn(Scalar, Scalar) -> Scalar,
>(
    world: WorldView,
    before: Animated,
    after: Animated,
    dt: Scalar,
    run_on: &A,
    wrap: &W,
)
    requires
        animated(world, before, after, dt, run_on, wrap),
    ensures
        after.entity == before.entity,
        after.events is Some <==> before.events is Some,
        !world.table.contains_key(before.entity) ==> after == before,
        world.table.contains_key(before.entity) ==> exists|fired: Seq<String>| #[trigger]
            advanced(before.player, after.player, fired, dt, run_on, wrap),
{
}

} // verus!
