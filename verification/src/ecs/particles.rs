//! Pools of particles: how they fill, age and empty, and how they are drawn.
//!
//! Moving one particle, making a new one, and the sums of the spawn count are left to
//! the host; which particles live, and when new ones are made, is decided here.

use vstd::prelude::*;

use crate::ecs::components::{Rgba, Transform, Vec3};
use crate::ecs::entities::Entity;
use crate::ecs::propagate::{
    global_of, global_transform, propagate_transforms, propagated, with_globals,
};
use crate::ecs::scalar::{one, zero, Scalar};
use crate::ecs::tree::acyclic;
use crate::ecs::world::{lemma_filter_push, SceneWorld, WorldView};

verus! {

/// How particles are put over the scene.
#[derive(Debug, Clone, Copy, PartialEq, Eq, Structural)]
pub enum BlendMode {
    /// Covering what is behind them.
    Alpha,
    /// Adding to it.
    Additive,
}

/// How a source makes particles.
#[derive(Debug, Clone, Copy, PartialEq, Eq, Structural)]
pub struct ParticleEmitterConfig {
    /// How many a second.
    pub spawn_rate: Scalar,
    /// How long they live, in seconds.
    pub lifetime: Scalar,
    /// How much longer or shorter, at most.
    pub lifetime_jitter: Scalar,
    /// How fast they start.
    pub initial_speed: Scalar,
    /// How much faster or slower, at most.
    pub speed_jitter: Scalar,
    /// Where they are sent.
    pub direction: Vec3,
    /// How far from there, as an angle.
    pub spread: Scalar,
    /// What accelerates them.
    pub acceleration: Vec3,
    /// How large they start.
    pub start_size: Scalar,
    /// How large they end.
    pub end_size: Scalar,
    /// Their color at the start.
    pub start_color: Rgba,
    /// Their color at the end.
    pub end_color: Rgba,
    /// How many there are at most.
    pub max_particles: usize,
    /// How they are put over the scene.
    pub blend: BlendMode,
    /// The seed of their random numbers.
    pub seed: u64,
}

/// A warm fountain of embers.
pub open spec fn embers() -> ParticleEmitterConfig {
    ParticleEmitterConfig {
        spawn_rate: Scalar { bits: 0x4270_0000 },
        lifetime: Scalar { bits: 0x3fcc_cccd },
        lifetime_jitter: Scalar { bits: 0x3ecc_cccd },
        initial_speed: Scalar { bits: 0x3fb3_3333 },
        speed_jitter: Scalar { bits: 0x3f00_0000 },
        direction: Vec3 { x: zero(), y: one(), z: zero() },
        spread: Scalar { bits: 0x3eb3_3333 },
        acceleration: Vec3 { x: zero(), y: Scalar { bits: 0xbf19_999a }, z: zero() },
        start_size: Scalar { bits: 0x3db8_51ec },
        end_size: Scalar { bits: 0x3ca3_d70a },
        start_color: Rgba {
            r: one(),
            g: Scalar { bits: 0x3f0c_cccd },
            b: Scalar { bits: 0x3e19_999a },
            a: one(),
        },
        end_color: Rgba {
            r: Scalar { bits: 0x3f00_0000 },
            g: Scalar { bits: 0x3d75_c28f },
            b: zero(),
            a: zero(),
        },
        max_particles: 200,
        blend: BlendMode::Additive,
        seed: 0x5645_4745_4d42_5253,
    }
}

impl Default for ParticleEmitterConfig {
    fn default() -> (config: ParticleEmitterConfig)
        ensures
            config == embers(),
    {
        let (o, i) = (Scalar::zero(), Scalar::one());
        ParticleEmitterConfig {
            spawn_rate: Scalar { bits: 0x4270_0000 },
            lifetime: Scalar { bits: 0x3fcc_cccd },
            lifetime_jitter: Scalar { bits: 0x3ecc_cccd },
            initial_speed: Scalar { bits: 0x3fb3_3333 },
            speed_jitter: Scalar { bits: 0x3f00_0000 },
            direction: Vec3 { x: o, y: i, z: o },
            spread: Scalar { bits: 0x3eb3_3333 },
            acceleration: Vec3 { x: o, y: Scalar { bits: 0xbf19_999a }, z: o },
            start_size: Scalar { bits: 0x3db8_51ec },
            end_size: Scalar { bits: 0x3ca3_d70a },
            start_color: Rgba {
                r: i,
                g: Scalar { bits: 0x3f0c_cccd },
                b: Scalar { bits: 0x3e19_999a },
                a: i,
            },
            end_color: Rgba {
                r: Scalar { bits: 0x3f00_0000 },
                g: Scalar { bits: 0x3d75_c28f },
                b: o,
                a: o,
            },
            max_particles: 200,
            blend: BlendMode::Additive,
            seed: 0x5645_4745_4d42_5253,
        }
    }
}

/// A particle.
#[derive(Debug, Clone, Copy, PartialEq, Eq, Structural)]
pub struct Particle {
    /// Where it is.
    pub position: Vec3,
    /// How it moves.
    pub velocity: Vec3,
    /// How old it is.
    pub age: Scalar,
    /// How old it gets.
    pub lifetime: Scalar,
    /// How it is turned.
    pub rotation: Scalar,
    /// How it turns.
    pub rotation_speed: Scalar,
}

impl Particle {
    /// Whether the particle's time is over.
    pub open spec fn dead(self) -> bool {
        self.lifetime.at_most(self.age)
    }

    /// Whether the particle's time is over.
    pub fn is_dead(&self) -> (answer: bool)
        ensures
            answer == self.dead(),
    {
        self.lifetime.is_at_most(&self.age)
    }
}

/// A source of particles, with those that live.
#[derive(Debug)]
pub struct ParticleEmitter {
    /// How it makes them.
    pub config: ParticleEmitterConfig,
    /// Those that live.
    pub particles: Vec<Particle>,
    /// The state of its random numbers.
    pub random_state: u64,
    /// How much of the next particle is due.
    pub spawn_accumulator: Scalar,
}

/// How much is due, and the state of the random numbers.
pub ghost struct SpawnState {
    /// How much of the next particle is due.
    pub due: Scalar,
    /// The state of the random numbers.
    pub random: u64,
}

/// Whether a whole particle is due.
pub open spec fn whole(due: Scalar) -> bool {
    one().at_most(due)
}

/// Whether each particle was moved.
pub open spec fn all_moved<M: Fn(Particle, Vec3, Scalar) -> Particle>(
    before: Seq<Particle>,
    after: Seq<Particle>,
    acceleration: Vec3,
    dt: Scalar,
    step: &M,
) -> bool {
    &&& after.len() == before.len()
    &&& forall|i: int|
        0 <= i < before.len() ==> step.ensures(
            (before[i], acceleration, dt),
            #[trigger] after[i],
        )
}

/// Those of the particles that live.
pub open spec fn living(particles: Seq<Particle>) -> Seq<Particle> {
    particles.filter(|particle: Particle| !particle.dead())
}

/// Whether the particle was made when a whole one was due.
pub open spec fn spawn_step<
    D: Fn(Scalar) -> Scalar,
    N: Fn(&ParticleEmitterConfig, Vec3, u64) -> (Particle, u64),
>(
    before: SpawnState,
    after: SpawnState,
    particle: Particle,
    config: ParticleEmitterConfig,
    origin: Vec3,
    less_one: &D,
    make: &N,
) -> bool {
    &&& whole(before.due)
    &&& less_one.ensures((before.due,), after.due)
    &&& make.ensures((&config, origin, before.random), (particle, after.random))
}

/// Whether the particles were made one after the other, each when a whole one was due.
pub open spec fn spawn_trace<
    D: Fn(Scalar) -> Scalar,
    N: Fn(&ParticleEmitterConfig, Vec3, u64) -> (Particle, u64),
>(
    states: Seq<SpawnState>,
    made: Seq<Particle>,
    config: ParticleEmitterConfig,
    origin: Vec3,
    less_one: &D,
    make: &N,
) -> bool {
    &&& states.len() == made.len() + 1
    &&& forall|k: int|
        0 <= k < made.len() ==> spawn_step(
            states[k],
            states[k + 1],
            #[trigger] made[k],
            config,
            origin,
            less_one,
            make,
        )
}

/// Whether the source filled up as it does, where `kept` are the particles that live on
/// and `made` the new ones.
pub open spec fn filled<
    C: Fn(Scalar, Scalar, Scalar) -> Scalar,
    D: Fn(Scalar) -> Scalar,
    N: Fn(&ParticleEmitterConfig, Vec3, u64) -> (Particle, u64),
>(
    before: ParticleEmitter,
    kept: Seq<Particle>,
    made: Seq<Particle>,
    states: Seq<SpawnState>,
    after: ParticleEmitter,
    origin: Vec3,
    dt: Scalar,
    count_up: &C,
    less_one: &D,
    make: &N,
) -> bool {
    let limit = before.config.max_particles;
    &&& after.config == before.config
    &&& after.particles@ == kept + made
    &&& after.random_state == states.last().random
    &&& states[0].random == before.random_state
    &&& spawn_trace(states, made, before.config, origin, less_one, make)
    &&& if kept.len() >= limit {
        made.len() == 0 && after.spawn_accumulator == zero()
    } else {
        &&& count_up.ensures(
            (before.spawn_accumulator, before.config.spawn_rate.greater(zero()), dt),
            states[0].due,
        )
        &&& kept.len() + made.len() <= limit
        &&& if whole(states.last().due) {
            kept.len() + made.len() == limit && after.spawn_accumulator == zero()
        } else {
            after.spawn_accumulator == states.last().due
        }
    }
}

/// Whether the source went on for a time as it does.
pub open spec fn updated<
    M: Fn(Particle, Vec3, Scalar) -> Particle,
    C: Fn(Scalar, Scalar, Scalar) -> Scalar,
    D: Fn(Scalar) -> Scalar,
    N: Fn(&ParticleEmitterConfig, Vec3, u64) -> (Particle, u64),
>(
    before: ParticleEmitter,
    after: ParticleEmitter,
    origin: Vec3,
    dt: Scalar,
    step: &M,
    count_up: &C,
    less_one: &D,
    make: &N,
) -> bool {
    if dt.at_most(zero()) || !dt.finite() {
        after == before
    } else {
        exists|moved: Seq<Particle>, made: Seq<Particle>, states: Seq<SpawnState>| #[trigger]
            all_moved(before.particles@, moved, before.config.acceleration, dt, step)
                && #[trigger] filled(
                before,
                living(moved),
                made,
                states,
                after,
                origin,
                dt,
                count_up,
                less_one,
                make,
            )
    }
}

/// Whether the host's functions can be called on everything.
pub open spec fn callable<
    M: Fn(Particle, Vec3, Scalar) -> Particle,
    C: Fn(Scalar, Scalar, Scalar) -> Scalar,
    D: Fn(Scalar) -> Scalar,
    N: Fn(&ParticleEmitterConfig, Vec3, u64) -> (Particle, u64),
>(step: &M, count_up: &C, less_one: &D, make: &N) -> bool {
    &&& forall|particle: Particle, by: Vec3, dt: Scalar| step.requires((particle, by, dt))
    &&& forall|due: Scalar, rate: Scalar, dt: Scalar| count_up.requires((due, rate, dt))
    &&& forall|due: Scalar| less_one.requires((due,))
    &&& forall|config: &ParticleEmitterConfig, origin: Vec3, random: u64|
        make.requires((config, origin, random))
}

impl ParticleEmitter {
    /// A source without particles. `random_state` is what its seed gives.
    pub fn new(config: ParticleEmitterConfig, random_state: u64) -> (emitter: ParticleEmitter)
        ensures
            emitter.config == config,
            emitter.particles@.len() == 0,
            emitter.random_state == random_state,
            emitter.spawn_accumulator == zero(),
    {
        ParticleEmitter {
            config,
            particles: Vec::new(),
            random_state,
            spawn_accumulator: Scalar::zero(),
        }
    }

    /// How many particles live.
    pub fn len(&self) -> (count: usize)
        ensures
            count == self.particles@.len(),
    {
        self.particles.len()
    }

    /// Whether none does.
    pub fn is_empty(&self) -> (answer: bool)
        ensures
            answer == (self.particles@.len() == 0),
    {
        self.particles.len() == 0
    }

    /// Goes on for `dt` seconds: moves every particle, drops those whose time is over,
    /// and makes new ones at `origin`, never more than allowed. A time that is not
    /// positive or no number changes nothing.
    ///
    /// `step` moves a particle, `count_up` adds what is due at a rate over a time,
    /// `less_one` takes one off, and `make` makes a particle.
    pub fn update<
        M: Fn(Particle, Vec3, Scalar) -> Particle,
        C: Fn(Scalar, Scalar, Scalar) -> Scalar,
        D: Fn(Scalar) -> Scalar,
        N: Fn(&ParticleEmitterConfig, Vec3, u64) -> (Particle, u64),
    >(
        &mut self,
        origin: Vec3,
        dt: Scalar,
        step: &M,
        count_up: &C,
        less_one: &D,
        make: &N,
    )
        requires
            callable(step, count_up, less_one, make),
        ensures
            updated(*old(self), *final(self), origin, dt, step, count_up, less_one, make),
    {
        let nothing = Scalar::zero();
        if dt.is_at_most(&nothing) || !dt.is_finite() {
            return;
        }
        let ghost before = *self;
        let ghost alive = |particle: Particle| !particle.dead();
        let ghost mut moved: Seq<Particle> = Seq::empty();
        let mut kept: Vec<Particle> = Vec::new();
        let acceleration = self.config.acceleration;
        let count: usize = self.particles.len();
        proof {
            reveal(Seq::filter);
            assert(moved.filter(alive) =~= Seq::empty());
        }
        for i in 0..count
            invariant
                count == self.particles@.len(),
                *self == before,
                acceleration == before.config.acceleration,
                callable(step, count_up, less_one, make),
                alive == (|particle: Particle| !particle.dead()),
                moved.len() == i,
                forall|k: int|
                    0 <= k < i ==> step.ensures(
                        (before.particles@[k], acceleration, dt),
                        #[trigger] moved[k],
                    ),
                kept@ == moved.filter(alive),
        {
            let particle = step(self.particles[i], acceleration, dt);
            proof {
                lemma_filter_push(moved, particle, alive);
                moved = moved.push(particle);
            }
            if !particle.is_dead() {
                kept.push(particle);
            }
        }
        assert(kept@ == living(moved));
        let ghost survivors = kept@;
        let capacity: usize = self.config.max_particles;
        if kept.len() >= capacity {
            self.particles = kept;
            self.spawn_accumulator = nothing;
            proof {
                let states = seq![SpawnState { due: zero(), random: before.random_state }];
                let none = Seq::<Particle>::empty();
                assert(survivors + none =~= survivors);
                assert(filled(
                    before,
                    living(moved),
                    none,
                    states,
                    *self,
                    origin,
                    dt,
                    count_up,
                    less_one,
                    make,
                ));
                assert(all_moved(before.particles@, moved, acceleration, dt, step));
            }
            return;
        }
        let unit = Scalar::one();
        let mut due: Scalar = count_up(
            self.spawn_accumulator,
            self.config.spawn_rate.max(&nothing),
            dt,
        );
        let mut random: u64 = self.random_state;
        let ghost mut states: Seq<SpawnState> = seq![SpawnState { due, random }];
        let ghost mut made: Seq<Particle> = Seq::empty();
        assert(survivors + made =~= survivors);
        while unit.is_at_most(&due) && kept.len() < capacity
            invariant
                unit == one(),
                *self == before,
                callable(step, count_up, less_one, make),
                kept@ == survivors + made,
                survivors.len() + made.len() <= capacity,
                states.len() == made.len() + 1,
                states.last() == (SpawnState { due, random }),
                states[0].random == before.random_state,
                count_up.ensures(
                    (before.spawn_accumulator, before.config.spawn_rate.greater(zero()), dt),
                    states[0].due,
                ),
                spawn_trace(states, made, before.config, origin, less_one, make),
            decreases capacity - kept@.len(),
        {
            let rest: Scalar = less_one(due);
            let (particle, next) = make(&self.config, origin, random);
            let ghost longer = states.push(SpawnState { due: rest, random: next });
            let ghost more = made.push(particle);
            proof {
                assert forall|k: int| 0 <= k < more.len() implies spawn_step(
                    longer[k],
                    longer[k + 1],
                    #[trigger] more[k],
                    before.config,
                    origin,
                    less_one,
                    make,
                ) by {
                    assert(longer[k] == states[k]);
                    if k < made.len() {
                        assert(more[k] == made[k]);
                        assert(longer[k + 1] == states[k + 1]);
                    }
                }
                states = longer;
                made = more;
            }
            kept.push(particle);
            assert(kept@ =~= survivors + made);
            due = rest;
            random = next;
        }
        let full: bool = unit.is_at_most(&due);
        self.particles = kept;
        self.random_state = random;
        self.spawn_accumulator = if full {
            nothing
        } else {
            due
        };
        proof {
            assert(all_moved(before.particles@, moved, acceleration, dt, step));
            assert(filled(
                before,
                living(moved),
                made,
                states,
                *self,
                origin,
                dt,
                count_up,
                less_one,
                make,
            ));
        }
    }

    /// Adds the particles that live to `out`. `draw` gives what is drawn for one.
    pub fn extract_into<P, I: Fn(&ParticleEmitterConfig, &Particle) -> P>(
        &self,
        out: &mut Vec<P>,
        draw: &I,
    )
        requires
            forall|config: &ParticleEmitterConfig, particle: &Particle|
                draw.requires((config, particle)),
        ensures
            final(out)@.len() == old(out)@.len() + self.particles@.len(),
            forall|i: int|
                0 <= i < old(out)@.len() ==> #[trigger] final(out)@[i] == old(out)@[i],
            forall|i: int|
                0 <= i < self.particles@.len() ==> draw.ensures(
                    (&self.config, &#[trigger] self.particles@[i]),
                    final(out)@[old(out)@.len() + i],
                ),
    {
        let ghost start = out@;
        let count: usize = self.particles.len();
        for i in 0..count
            invariant
                count == self.particles@.len(),
                forall|config: &ParticleEmitterConfig, particle: &Particle|
                    draw.requires((config, particle)),
                out@.len() == start.len() + i,
                forall|k: int| 0 <= k < start.len() ==> #[trigger] out@[k] == start[k],
                forall|k: int|
                    0 <= k < i ==> draw.ensures(
                        (&self.config, &#[trigger] self.particles@[k]),
                        out@[start.len() + k],
                    ),
        {
            let drawn = draw(&self.config, &self.particles[i]);
            out.push(drawn);
        }
    }
}

/// A source, and the entity that carries it.
#[derive(Debug)]
pub struct PlacedEmitter {
    /// The entity.
    pub entity: Entity,
    /// The source.
    pub emitter: ParticleEmitter,
}

/// Whether the source went on for `dt` seconds from where its entity is; if that is
/// nowhere, it stayed as it was.
pub open spec fn went_on<
    M: Fn(Particle, Vec3, Scalar) -> Particle,
    C: Fn(Scalar, Scalar, Scalar) -> Scalar,
    D: Fn(Scalar) -> Scalar,
    N: Fn(&ParticleEmitterConfig, Vec3, u64) -> (Particle, u64),
>(
    world: WorldView,
    before: PlacedEmitter,
    after: PlacedEmitter,
    dt: Scalar,
    step: &M,
    count_up: &C,
    less_one: &D,
    make: &N,
) -> bool {
    &&& after.entity == before.entity
    &&& match global_of(world, before.entity) {
        Some(place) => updated(
            before.emitter,
            after.emitter,
            place.translation,
            dt,
            step,
            count_up,
            less_one,
            make,
        ),
        None => after == before,
    }
}

/// Recomputes the world-space transforms, and lets every source go on for `dt` seconds
/// from where its entity is.
pub fn update_particles<
    P: Fn(Transform, Transform) -> Transform,
    M: Fn(Particle, Vec3, Scalar) -> Particle,
    C: Fn(Scalar, Scalar, Scalar) -> Scalar,
    D: Fn(Scalar) -> Scalar,
    N: Fn(&ParticleEmitterConfig, Vec3, u64) -> (Particle, u64),
>(
    world: &mut SceneWorld,
    emitters: &mut Vec<PlacedEmitter>,
    dt: Scalar,
    compose: &P,
    step: &M,
    count_up: &C,
    less_one: &D,
    make: &N,
)
    requires
        old(world).wf(),
        acyclic(old(world)@.parents),
        forall|a: Transform, b: Transform| compose.requires((a, b)),
        callable(step, count_up, less_one, make),
    ensures
        final(world).wf(),
        exists|globals: Map<Entity, Transform>| #[trigger]
            propagated(old(world)@, *compose, globals) && final(world)@ == with_globals(
                old(world)@,
                globals,
            ),
        final(emitters)@.len() == old(emitters)@.len(),
        forall|i: int|
            0 <= i < old(emitters)@.len() ==> went_on(
                final(world)@,
                old(emitters)@[i],
                #[trigger] final(emitters)@[i],
                dt,
                step,
                count_up,
                less_one,
                make,
            ),
{
    propagate_transforms(world, compose);
    let ghost before = emitters@;
    let count: usize = emitters.len();
    for i in 0..count
        invariant
            world.wf(),
            count == emitters@.len(),
            before.len() == count,
            callable(step, count_up, less_one, make),
            forall|k: int|
                0 <= k < i ==> went_on(
                    world@,
                    before[k],
                    #[trigger] emitters@[k],
                    dt,
                    step,
                    count_up,
                    less_one,
                    make,
                ),
            forall|k: int| i <= k < count ==> #[trigger] emitters@[k] == before[k],
    {
        let entity: Entity = emitters[i].entity;
        match global_transform(world, entity) {
            Some(place) => {
                let placed = &mut emitters[i];
                placed.emitter.update(place.translation, dt, step, count_up, less_one, make);
            },
            None => {},
        }
    }
}

/// The particles, each with its source's settings, of the first `n` sources whose
/// entities are alive and that are put over the scene in the given way.
pub open spec fn drawn_in(
    world: WorldView,
    emitters: Seq<PlacedEmitter>,
    blend: BlendMode,
    n: nat,
) -> Seq<(ParticleEmitterConfig, Particle)>
    decreases n,
{
    if n == 0 {
        Seq::empty()
    } else {
        let before = drawn_in(world, emitters, blend, (n - 1) as nat);
        let emitter = emitters[n - 1].emitter;
        if world.alive(emitters[n - 1].entity) && emitter.config.blend == blend {
            before + emitter.particles@.map_values(
                |particle: Particle| (emitter.config, particle),
            )
        } else {
            before
        }
    }
}

/// Whether what is drawn is drawn for the given particles.
pub open spec fn draws<P, I: Fn(&ParticleEmitterConfig, &Particle) -> P>(
    particles: Seq<(ParticleEmitterConfig, Particle)>,
    drawn: Seq<P>,
    draw: &I,
) -> bool {
    &&& drawn.len() == particles.len()
    &&& forall|i: int|
        0 <= i < drawn.len() ==> draw.ensures(
            (&particles[i].0, &particles[i].1),
            #[trigger] drawn[i],
        )
}

/// What is drawn for the particles of all sources on living entities: first those that cover what is
/// behind them, then those that add to it.
pub fn extract_particles<P, I: Fn(&ParticleEmitterConfig, &Particle) -> P>(
    world: &SceneWorld,
    emitters: &[PlacedEmitter],
    draw: &I,
) -> (drawn: (Vec<P>, Vec<P>))
    requires
        world.wf(),
        forall|config: &ParticleEmitterConfig, particle: &Particle|
            draw.requires((config, particle)),
    ensures
        draws(drawn_in(world@, emitters@, BlendMode::Alpha, emitters@.len()), drawn.0@, draw),
        draws(drawn_in(world@, emitters@, BlendMode::Additive, emitters@.len()), drawn.1@, draw),
{
    let mut alpha: Vec<P> = Vec::new();
    let mut additive: Vec<P> = Vec::new();
    let count: usize = emitters.len();
    for i in 0..count
        invariant
            world.wf(),
            count == emitters@.len(),
            forall|config: &ParticleEmitterConfig, particle: &Particle|
                draw.requires((config, particle)),
            draws(drawn_in(world@, emitters@, BlendMode::Alpha, i as nat), alpha@, draw),
            draws(drawn_in(world@, emitters@, BlendMode::Additive, i as nat), additive@, draw),
    {
        if world.contains(emitters[i].entity) {
            let emitter = &emitters[i].emitter;
            match emitter.config.blend {
                BlendMode::Alpha => {
                    let ghost before = alpha@;
                    emitter.extract_into(&mut alpha, draw);
                    proof {
                        lemma_drawn(world@, emitters@, BlendMode::Alpha, i as nat, before, alpha@, draw);
                    }
                },
                BlendMode::Additive => {
                    let ghost before = additive@;
                    emitter.extract_into(&mut additive, draw);
                    proof {
                        lemma_drawn(world@, emitters@, BlendMode::Additive, i as nat, before, additive@, draw);
                    }
                },
            }
        }
    }
    (alpha, additive)
}

proof fn lemma_drawn<P, I: Fn(&ParticleEmitterConfig, &Particle) -> P>(
    world: WorldView,
    emitters: Seq<PlacedEmitter>,
    blend: BlendMode,
    n: nat,
    before: Seq<P>,
    after: Seq<P>,
    draw: &I,
)
    requires
        n < emitters.len(),
        world.alive(emitters[n as int].entity),
        emitters[n as int].emitter.config.blend == blend,
        draws(drawn_in(world, emitters, blend, n), before, draw),
        after.len() == before.len() + emitters[n as int].emitter.particles@.len(),
        forall|i: int| 0 <= i < before.len() ==> #[trigger] after[i] == before[i],
        forall|i: int|
            0 <= i < emitters[n as int].emitter.particles@.len() ==> draw.ensures(
                (
                    &emitters[n as int].emitter.config,
                    &#[trigger] emitters[n as int].emitter.particles@[i],
                ),
                after[before.len() + i],
            ),
    ensures
        draws(drawn_in(world, emitters, blend, n + 1), after, draw),
{
    let emitter = emitters[n as int].emitter;
    let particles = drawn_in(world, emitters, blend, n + 1);
    assert forall|i: int| 0 <= i < after.len() implies draw.ensures(
        (&particles[i].0, &particles[i].1),
        #[trigger] after[i],
    ) by {
        if i < before.len() {
            assert(after[i] == before[i]);
            assert(particles[i] == drawn_in(world, emitters, blend, n)[i]);
        } else {
            let k = i - before.len();
            assert(particles[i] == (emitter.config, emitter.particles@[k]));
        }
    }
}

/// A source never has more particles than allowed, if it had not before.
pub proof fn law_pool_is_bounded<
    M: Fn(Particle, Vec3, Scalar) -> Particle,
    C: Fn(Scalar, Scalar, Scalar) -> Scalar,
    D: Fn(Scalar) -> Scalar,
    N: Fn(&ParticleEmitterConfig, Vec3, u64) -> (Particle, u64),
>(
    before: ParticleEmitter,
    after: ParticleEmitter,
    origin: Vec3,
    dt: Scalar,
    step: &M,
    count_up: &C,
    less_one: &D,
    make: &N,
)
    requires
        updated(before, after, origin, dt, step, count_up, less_one, make),
        before.particles@.len() <= before.config.max_particles,
    ensures
        after.particles@.len() <= after.config.max_particles,
        after.config == before.config,
{
    if !(dt.at_most(zero()) || !dt.finite()) {
        let (moved, made, states) = choose|
            moved: Seq<Particle>,
            made: Seq<Particle>,
            states: Seq<SpawnState>,
        | #[trigger]
            all_moved(before.particles@, moved, before.config.acceleration, dt, step)
                && #[trigger] filled(
                before,
                living(moved),
                made,
                states,
                after,
                origin,
                dt,
                count_up,
                less_one,
                make,
            );
        moved.lemma_filter_len(|particle: Particle| !particle.dead());
    }
}

/// Every particle that lives on after an update is what the host's step makes of one that
/// was there, under the configured acceleration and over the time passed: `go` is that
/// step. Those whose age reached their lifetime are dropped, the others keep their order,
/// and what is new comes behind them. Without time that passes nothing changes.
pub proof fn law_living_particles_are_stepped<
    M: Fn(Particle, Vec3, Scalar) -> Particle,
    C: Fn(Scalar, Scalar, Scalar) -> Scalar,
    D: Fn(Scalar) -> Scalar,
    N: Fn(&ParticleEmitterConfig, Vec3, u64) -> (Particle, u64),
>(
    before: ParticleEmitter,
    after: ParticleEmitter,
    origin: Vec3,
    dt: Scalar,
    step: &M,
    count_up: &C,
    less_one: &D,
    make: &N,
    go: spec_fn(Particle) -> Particle,
)
    requires
        updated(before, after, origin, dt, step, count_up, less_one, make),
        forall|from: Particle, to: Particle| #[trigger]
            step.ensures((from, before.config.acceleration, dt), to) ==> to == go(from),
    ensures
        after.config == before.config,
        dt.finite() && zero().less(dt) ==> {
            let kept = before.particles@.map_values(go).filter(
                |particle: Particle| !particle.lifetime.at_most(particle.age),
            );
            &&& kept.len() <= after.particles@.len()
            &&& after.particles@.take(kept.len() as int) == kept
        },
        !dt.finite() || !zero().less(dt) ==> after == before,
{
    if dt.finite() && zero().less(dt) {
        let (moved, made, states) = choose|
            moved: Seq<Particle>,
            made: Seq<Particle>,
            states: Seq<SpawnState>,
        | #[trigger]
            all_moved(before.particles@, moved, before.config.acceleration, dt, step)
                && #[trigger] filled(
                before,
                living(moved),
                made,
                states,
                after,
                origin,
                dt,
                count_up,
                less_one,
                make,
            );
        assert(all_moved(before.particles@, moved, before.config.acceleration, dt, step));
        assert(moved =~= before.particles@.map_values(go));
        let young = |particle: Particle| !particle.lifetime.at_most(particle.age);
        assert(young =~= (|particle: Particle| !particle.dead()));
        assert(living(moved) == moved.filter(young));
        assert(after.particles@.take(living(moved).len() as int) =~= living(moved));
    } else {
        assert(!dt.finite() || dt.not_a_number() || dt.at_most(zero()));
    }
}

/// How particles are added. Those due are the ones not yet added, counted up at the
/// configured rate (none at a rate below zero) over the time passed. One is made for each
/// whole one that is due, at the origin, from the configuration and the state of the
/// random numbers, as long as there is room. What is due beyond that is kept for the next
/// update, and forgotten once the pool is full.
pub proof fn law_due_particles_are_added<
    M: Fn(Particle, Vec3, Scalar) -> Particle,
    C: Fn(Scalar, Scalar, Scalar) -> Scalar,
    D: Fn(Scalar) -> Scalar,
    N: Fn(&ParticleEmitterConfig, Vec3, u64) -> (Particle, u64),
>(
    before: ParticleEmitter,
    after: ParticleEmitter,
    origin: Vec3,
    dt: Scalar,
    step: &M,
    count_up: &C,
    less_one: &D,
    make: &N,
    go: spec_fn(Particle) -> Particle,
    kept: int,
) -> (trace: (Seq<Scalar>, Seq<u64>))
    requires
        updated(before, after, origin, dt, step, count_up, less_one, make),
        forall|from: Particle, to: Particle| #[trigger]
            step.ensures((from, before.config.acceleration, dt), to) ==> to == go(from),
        dt.finite(),
        zero().less(dt),
        kept == before.particles@.map_values(go).filter(
            |particle: Particle| !particle.lifetime.at_most(particle.age),
        ).len(),
    ensures
        ({
            let (dues, states) = trace;
            let room = before.config.max_particles;
            let rate = before.config.spawn_rate;
            let added = after.particles@.len() - kept;
            &&& dues.len() == added + 1 && states.len() == added + 1
            &&& kept >= room ==> added == 0 && after.spawn_accumulator.bits == 0
            &&& kept < room ==> {
                &&& kept + added <= room
                &&& zero().less(rate) ==> count_up.ensures(
                    (before.spawn_accumulator, rate, dt),
                    dues[0],
                )
                &&& rate.less(zero()) || rate.not_a_number() ==> count_up.ensures(
                    (before.spawn_accumulator, Scalar { bits: 0 }, dt),
                    dues[0],
                )
                &&& one().at_most(dues[added]) ==> kept + added == room
                    && after.spawn_accumulator.bits == 0
                &&& !one().at_most(dues[added]) ==> after.spawn_accumulator == dues[added]
            }
            &&& states[0] == before.random_state
            &&& states[added] == after.random_state
            &&& forall|k: int|
                #![trigger dues[k]]
                #![trigger states[k]]
                0 <= k < added ==> {
                    &&& one().at_most(dues[k])
                    &&& less_one.ensures((dues[k],), dues[k + 1])
                    &&& make.ensures(
                        (&before.config, origin, states[k]),
                        (after.particles@[kept + k], states[k + 1]),
                    )
                }
        }),
{
    let (moved, made, steps) = choose|
        moved: Seq<Particle>,
        made: Seq<Particle>,
        states: Seq<SpawnState>,
    | #[trigger]
        all_moved(before.particles@, moved, before.config.acceleration, dt, step) && #[trigger] filled(
            before,
            living(moved),
            made,
            states,
            after,
            origin,
            dt,
            count_up,
            less_one,
            make,
        );
    assert(all_moved(before.particles@, moved, before.config.acceleration, dt, step));
    assert(moved =~= before.particles@.map_values(go));
    let young = |particle: Particle| !particle.lifetime.at_most(particle.age);
    assert(young =~= (|particle: Particle| !particle.dead()));
    assert(living(moved) == moved.filter(young));
    assert(kept == living(moved).len());
    let added = after.particles@.len() - kept;
    let dues = Seq::new(steps.len(), |k: int| steps[k].due);
    let states = Seq::new(steps.len(), |k: int| steps[k].random);
    assert(dues.len() == states.len());
    assert forall|k: int|
        #![trigger dues[k]]
        #![trigger states[k]]
        0 <= k < added implies {
        &&& one().at_most(dues[k])
        &&& less_one.ensures((dues[k],), dues[k + 1])
        &&& make.ensures(
            (&before.config, origin, states[k]),
            (after.particles@[kept + k], states[k + 1]),
        )
    } by {
        assert(after.particles@[kept + k] == made[k]);
        assert(spawn_step(
            steps[k],
            steps[k + 1],
            made[k],
            before.config,
            origin,
            less_one,
            make,
        ));
    }
    assert(added == made.len());
    assert(dues.len() == added + 1 && states.len() == added + 1);
    assert(dues[added] == steps.last().due && states[added] == steps.last().random);
    (dues, states)
}

/// A source of an entity goes on from where the entity is in the world; one of an entity
/// without a place there, or that is gone, is left as it is.
pub proof fn law_sources_go_on_where_their_entities_are<
    M: Fn(Particle, Vec3, Scalar) -> Particle,
    C: Fn(Scalar, Scalar, Scalar) -> Scalar,
    D: Fn(Scalar) -> Scalar,
    N: Fn(&ParticleEmitterConfig, Vec3, u64) -> (Particle, u64),
>(
    world: WorldView,
    before: PlacedEmitter,
    after: PlacedEmitter,
    dt: Scalar,
    step: &M,
    count_up: &C,
    less_one: &D,
    make: &N,
)
    requires
        went_on(world, before, after, dt, step, count_up, less_one, make),
    ensures
        after.entity == before.entity,
        !world.table.contains_key(before.entity)
            || world.table[before.entity].global_transform is None ==> after == before,
        world.table.contains_key(before.entity)
            && world.table[before.entity].global_transform is Some ==> updated(
            before.emitter,
            after.emitter,
            (world.table[before.entity].global_transform->0).0.translation,
            dt,
            step,
            count_up,
            less_one,
            make,
        ),
{
}

/// What is drawn in a way of blending are the particles of the living entities whose
/// sources blend in it, each with the settings of its source.
pub proof fn law_particles_are_drawn_by_their_blending(
    world: WorldView,
    emitters: Seq<PlacedEmitter>,
    blend: BlendMode,
    n: nat,
    settings: ParticleEmitterConfig,
    particle: Particle,
)
    requires
        n <= emitters.len(),
    ensures
        drawn_in(world, emitters, blend, n).contains((settings, particle)) <==> exists|i: int|
            #![trigger emitters[i]]
            {
                &&& 0 <= i < n
                &&& world.table.contains_key(emitters[i].entity)
                &&& emitters[i].emitter.config == settings
                &&& settings.blend == blend
                &&& emitters[i].emitter.particles@.contains(particle)
            },
        n > 0 && world.table.contains_key(emitters[n - 1].entity)
            && emitters[n - 1].emitter.config.blend == blend ==> drawn_in(
            world,
            emitters,
            blend,
            n,
        ).len() == drawn_in(world, emitters, blend, (n - 1) as nat).len()
            + emitters[n - 1].emitter.particles@.len(),
    decreases n,
{
    let item = (settings, particle);
    let all = drawn_in(world, emitters, blend, n);
    if n > 0 {
        let m = (n - 1) as nat;
        law_particles_are_drawn_by_their_blending(world, emitters, blend, m, settings, particle);
        let earlier = drawn_in(world, emitters, blend, m);
        let emitter = emitters[m as int].emitter;
        let more = emitter.particles@.map_values(
            |particle: Particle| (emitter.config, particle),
        );
        if world.alive(emitters[m as int].entity) && emitter.config.blend == blend {
            assert(all == earlier + more);
            if earlier.contains(item) {
                let k = earlier.index_of(item);
                assert(all[k] == item);
            }
            if emitter.config == settings && emitter.particles@.contains(particle) {
                let k = emitter.particles@.index_of(particle);
                assert(more[k] == item);
                assert(all[earlier.len() + k] == item);
            }
            if all.contains(item) {
                let k = all.index_of(item);
                if k < earlier.len() {
                    assert(earlier[k] == item);
                } else {
                    assert(more[k - earlier.len()] == item);
                    assert(emitter.particles@[k - earlier.len()] == particle);
                }
            }
        }
    }
}

} // verus!
