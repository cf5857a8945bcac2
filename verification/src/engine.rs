//! The two tiers of tracer particles that build the field: every massive cell
//! sends out top-tier particles, and each of those, wherever it arrives, sends
//! out a fan of short-lived second-tier particles that mark the cells they
//! pass.

use crate::config::ConfigError;
use crate::fixed::{
    lemma_trunc_div_odd, lemma_trunc_div_remainder, narrow, saturate, size, trunc_div, Fixed,
    LIMIT, SCALE,
};
use crate::point::{lemma_minus_odd, lemma_scaled_odd, Point, Vec2};
use crate::universe::{
    lemma_contained_cell, lemma_inside_is_representable, lemma_slot_in_range, Cell, Grid,
    Universe,
};
use vstd::arithmetic::div_mod::{
    lemma_div_multiples_vanish, lemma_div_pos_is_pos, lemma_fundamental_div_mod,
    lemma_fundamental_div_mod_converse, lemma_mod_bound,
};
use vstd::prelude::*;

verus! {

/// The part of `value` that each of `count` particles carries.
pub open spec fn share(value: int, count: int) -> int
    recommends
        count > 0,
{
    trunc_div(value, count)
}

/// The number of steps of raw length `step` that cover `distance` whole
/// units, rounded up, and at most `u32::MAX`. A step of no length never
/// covers a distance, so that it takes as many as can be counted, unless
/// there is nothing to cover; a step backward covers nothing in no step.
pub open spec fn steps_to_cover(distance: int, step: int) -> int {
    if step > 0 {
        let exact = (distance * SCALE + step - 1) / step;
        if exact > u32::MAX {
            u32::MAX as int
        } else {
            exact
        }
    } else if step == 0 && distance > 0 {
        u32::MAX as int
    } else {
        0
    }
}

/// What a `ParticleParameters` stands for.
pub struct Tier {
    /// The raw distance a particle covers in one step.
    pub step_size: int,
    /// The number of particles emitted at once.
    pub quantity: nat,
    /// The number of steps a particle lives.
    pub life_span: nat,
}

/// How one tier of particles is emitted and how far each one goes: the
/// distance a particle covers in one step, the number of particles emitted at
/// once, which is never zero, and the number of steps a particle lives.
#[derive(Clone, Copy, Debug, PartialEq, Eq, Structural)]
pub struct ParticleParameters {
    step_size: Fixed,
    quantity: u32,
    life_span: u32,
}

impl View for ParticleParameters {
    type V = Tier;

    closed spec fn view(&self) -> Tier {
        Tier {
            step_size: self.step_size@,
            quantity: self.quantity as nat,
            life_span: self.life_span as nat,
        }
    }
}

impl ParticleParameters {
    /// A tier always emits at least one particle.
    #[verifier::type_invariant]
    pub closed spec fn wf(self) -> bool {
        self.quantity > 0
    }

    /// The parameters of a tier that emits `quantity` particles at once,
    /// which make steps of `step_size` until they have covered
    /// `life_span_steps` units. Refused when no particle would be emitted.
    pub fn new(step_size: Fixed, quantity: u32, life_span_steps: u32) -> (r: Result<
        ParticleParameters,
        ConfigError,
    >)
        ensures
            match r {
                Ok(p) => quantity > 0 && p@ == (Tier {
                    step_size: step_size@,
                    quantity: quantity as nat,
                    life_span: steps_to_cover(life_span_steps as int, step_size@) as nat,
                }),
                Err(e) => quantity == 0 && e == ConfigError::NoParticles,
            },
    {
        if quantity == 0 {
            return Err(ConfigError::NoParticles);
        }
        let step: i128 = step_size.raw() as i128;
        let life_span: u32 = if step > 0 {
            assert(0 <= life_span_steps * SCALE <= u32::MAX * SCALE) by (nonlinear_arith)
                requires
                    0 <= life_span_steps <= u32::MAX,
                    SCALE == 1073741824,
            ;
            let distance: i128 = (life_span_steps as i128) * (SCALE as i128);
            let exact: i128 = (distance + step - 1) / step;
            proof {
                lemma_div_pos_is_pos(distance + step - 1, step as int);
            }
            if exact > u32::MAX as i128 {
                u32::MAX
            } else {
                exact as u32
            }
        } else if step == 0 && life_span_steps > 0 {
            u32::MAX
        } else {
            0
        };
        Ok(ParticleParameters { step_size, quantity, life_span })
    }

    /// The same tier with particles that live `life_span` steps.
    pub fn with_life_span(self, life_span: u32) -> (r: ParticleParameters)
        ensures
            r@ == (Tier { life_span: life_span as nat, ..self@ }),
    {
        proof {
            use_type_invariant(&self);
        }
        ParticleParameters { step_size: self.step_size, quantity: self.quantity, life_span }
    }

    /// The distance a particle covers in one step.
    pub fn step_size(&self) -> (r: Fixed)
        ensures
            r@ == self@.step_size,
    {
        self.step_size
    }

    /// The number of particles emitted at once: the number of directions in
    /// the fan of the tier. It is never zero.
    pub fn quantity(&self) -> (r: u32)
        ensures
            r == self@.quantity,
            r > 0,
    {
        proof {
            use_type_invariant(self);
        }
        self.quantity
    }

    /// The number of steps a particle lives.
    pub fn life_span(&self) -> (r: u32)
        ensures
            r == self@.life_span,
    {
        self.life_span
    }
}

/// What a `Particle` stands for.
pub struct Tracer {
    pub position: Vec2,
    pub speed: Vec2,
    pub value: int,
}

/// A tracer: where it is, the step it makes, and the mass it carries.
#[derive(Clone, Copy, Debug, PartialEq, Eq, Structural)]
pub struct Particle {
    pub position: Point,
    pub speed: Point,
    pub value: Fixed,
}

impl View for Particle {
    type V = Tracer;

    open spec fn view(&self) -> Tracer {
        Tracer { position: self.position@, speed: self.speed@, value: self.value@ }
    }
}

impl Default for Particle {
    fn default() -> (r: Particle)
        ensures
            r@ == (Tracer { position: Vec2::zero(), speed: Vec2::zero(), value: 0 }),
    {
        Particle { position: Point::default(), speed: Point::default(), value: Fixed::zero() }
    }
}

impl Particle {
    /// Makes one step through `universe`.
    pub fn move_in_universe_mut(&mut self, universe: &Universe)
        ensures
            final(self)@ == (Tracer {
                position: universe@.travel(old(self)@.position, old(self)@.speed).0,
                speed: universe@.travel(old(self)@.position, old(self)@.speed).1,
                value: old(self)@.value,
            }),
    {
        let (position, speed) = universe.move_in_universe(self.position, self.speed);
        self.position = position;
        self.speed = speed;
    }
}

impl Grid {
    /// The grid after a particle at `position` that moves by `speed` and
    /// carries `value` has marked the cell it is in: the cell's field loses
    /// `speed` times `value`.
    pub open spec fn deposited(self, position: Vec2, speed: Vec2, value: int) -> Grid {
        let i = self.slot_of(position);
        let cell = self.cells[i];
        self.with_cell(i, Cell { mass: cell.mass, field: cell.field.minus(speed.scaled(value)) })
    }

    /// The grid after a second-tier particle has lived `steps` steps from
    /// `position`: at each step it marks its cell and then moves, and it stops
    /// for good once it is outside the grid.
    pub open spec fn walked(self, position: Vec2, speed: Vec2, value: int, steps: nat) -> Grid
        decreases steps,
    {
        if steps == 0 || !self.contains(position) {
            self
        } else {
            let next = self.travel(position, speed);
            self.deposited(position, speed, value).walked(
                next.0,
                next.1,
                value,
                (steps - 1) as nat,
            )
        }
    }

    /// The grid after one second-tier particle for each of `directions`, in
    /// turn, has walked from `position`.
    pub open spec fn fanned(
        self,
        position: Vec2,
        directions: Seq<Vec2>,
        step: int,
        value: int,
        steps: nat,
    ) -> Grid
        decreases directions.len(),
    {
        if directions.len() == 0 {
            self
        } else {
            self.fanned(position, directions.drop_last(), step, value, steps).walked(
                position,
                directions.last().scaled(step),
                value,
                steps,
            )
        }
    }
}

impl Grid {
    /// The grid after the top-tier particle `tracer` has made one step, and
    /// the particle if it is still inside. Where it arrives inside the grid it
    /// sends out one second-tier particle for each of `directions`, its value
    /// split evenly among them.
    pub open spec fn advanced(self, tracer: Tracer, directions: Seq<Vec2>, step: int, steps: nat) -> (
        Grid,
        Option<Tracer>,
    ) {
        let next = self.travel(tracer.position, tracer.speed);
        if self.contains(next.0) {
            (
                self.fanned(
                    next.0,
                    directions,
                    step,
                    share(tracer.value, directions.len() as int),
                    steps,
                ),
                Some(Tracer { position: next.0, speed: next.1, value: tracer.value }),
            )
        } else {
            (self, None)
        }
    }

    /// The grid after each of `tracers`, in turn, has made one step, and
    /// those of them that are still inside, in their old order.
    pub open spec fn stepped(self, tracers: Seq<Tracer>, directions: Seq<Vec2>, step: int, steps: nat) -> (
        Grid,
        Seq<Tracer>,
    )
        decreases tracers.len(),
    {
        if tracers.len() == 0 {
            (self, Seq::empty())
        } else {
            let before = self.stepped(tracers.drop_last(), directions, step, steps);
            let now = before.0.advanced(tracers.last(), directions, step, steps);
            (
                now.0,
                match now.1 {
                    Some(t) => before.1.push(t),
                    None => before.1,
                },
            )
        }
    }

    /// The middle of the cell in column `x` of row `y`.
    pub open spec fn center(x: int, y: int) -> Vec2 {
        Vec2 { x: saturate(x * SCALE + SCALE / 2), y: saturate(y * SCALE + SCALE / 2) }
    }

    /// The top-tier particles that the first `count` cells send out, row by
    /// row: each cell with mass sends them as `emitted` says.
    pub open spec fn spawned(self, directions: Seq<Vec2>, step: int, count: nat) -> Seq<Tracer>
        decreases count,
    {
        if count == 0 {
            Seq::empty()
        } else {
            let i = count - 1;
            let earlier = self.spawned(directions, step, i as nat);
            if self.cells[i].mass != 0 {
                earlier + emitted(
                    Grid::center(i % self.width, i / self.width),
                    self.cells[i].mass,
                    directions,
                    step,
                )
            } else {
                earlier
            }
        }
    }
}

/// The top-tier particles that a cell of mass `mass` sends out from `from`:
/// one for each of `directions`, with that direction times `step` as its
/// velocity and an even share of the mass as its value.
pub open spec fn emitted(from: Vec2, mass: int, directions: Seq<Vec2>, step: int) -> Seq<Tracer> {
    Seq::new(
        directions.len(),
        |i: int|
            Tracer {
                position: from,
                speed: directions[i].scaled(step),
                value: share(mass, directions.len() as int),
            },
    )
}

/// What a sequence of points stands for.
pub open spec fn points_of(points: Seq<Point>) -> Seq<Vec2> {
    points.map_values(|p: Point| p@)
}

/// What a sequence of particles stands for.
pub open spec fn tracers_of(particles: Seq<Particle>) -> Seq<Tracer> {
    particles.map_values(|p: Particle| p@)
}

/// What a particle that may have left stands for.
pub open spec fn tracer_of(particle: Option<Particle>) -> Option<Tracer> {
    match particle {
        Some(p) => Some(p@),
        None => None,
    }
}

/// Where a step leads depends on the portals alone, not on the cells.
pub proof fn lemma_travel_ignores_cells(g: Grid, h: Grid, point: Vec2, movement: Vec2)
    requires
        g.portals == h.portals,
    ensures
        g.travel(point, movement) == h.travel(point, movement),
{
    reveal(Grid::travel);
}

/// Walks one second-tier particle of mass `mass` from `position` in the
/// direction `dir_sub_graviton`, marking the cells it passes.
pub fn process_sub_graviton(
    universe: &mut Universe,
    position: Point,
    dir_sub_graviton: Point,
    mass: Fixed,
    sub_graviton: &ParticleParameters,
)
    ensures
        final(universe)@ == old(universe)@.walked(
            position@,
            dir_sub_graviton@.scaled(sub_graviton@.step_size),
            mass@,
            sub_graviton@.life_span,
        ),
{
    let mut place = position;
    let mut speed = dir_sub_graviton * sub_graviton.step_size;
    let mut age: u32 = 0;
    while age < sub_graviton.life_span
        invariant
            age <= sub_graviton.life_span,
            universe@.walked(place@, speed@, mass@, (sub_graviton.life_span - age) as nat) == old(
                universe,
            )@.walked(
                position@,
                dir_sub_graviton@.scaled(sub_graviton@.step_size),
                mass@,
                sub_graviton@.life_span,
            ),
        decreases sub_graviton.life_span - age,
    {
        if !place.is_inside(universe) {
            return ;
        }
        let ghost before = universe@;
        let element = universe.get_from_point_mut(place).unwrap();
        element.mass.field = element.mass.field - speed * mass;
        proof {
            assert(universe@ == before.deposited(place@, speed@, mass@));
            lemma_travel_ignores_cells(before, universe@, place@, speed@);
        }
        // Advance the particle.
        let next = universe.move_in_universe(place, speed);
        place = next.0;
        speed = next.1;
        age = age + 1;
    }
}

/// Moves one top-tier particle by one step and sends out its fan, whatever
/// the number of directions.
fn advance(
    universe: &mut Universe,
    particle: Particle,
    sub_graviton: &ParticleParameters,
    fan: &Vec<Point>,
) -> (r: Option<Particle>)
    requires
        fan@.len() > 0,
    ensures
        (final(universe)@, tracer_of(r)) == old(universe)@.advanced(
            particle@,
            points_of(fan@),
            sub_graviton@.step_size,
            sub_graviton@.life_span,
        ),
{
    let mut moved = particle;
    moved.move_in_universe_mut(universe);
    if !moved.position.is_inside(universe) {
        return None;
    }
    let count = fan.len();
    let mass = moved.value.div_int(count);
    let mut i: usize = 0;
    assert(points_of(fan@).take(0) =~= Seq::empty());
    while i < count
        invariant
            i <= count,
            count == fan@.len(),
            universe@ == old(universe)@.fanned(
                moved.position@,
                points_of(fan@).take(i as int),
                sub_graviton@.step_size,
                mass@,
                sub_graviton@.life_span,
            ),
        decreases count - i,
    {
        process_sub_graviton(universe, moved.position, fan[i], mass, sub_graviton);
        proof {
            let directions = points_of(fan@);
            assert(directions.take(i + 1).drop_last() =~= directions.take(i as int));
            assert(directions.take(i + 1).last() == fan@[i as int]@);
        }
        i = i + 1;
    }
    assert(points_of(fan@).take(count as int) =~= points_of(fan@));
    Some(moved)
}

/// Moves every top-tier particle by one step, whatever the number of
/// directions.
fn advance_all(
    universe: &mut Universe,
    gravitons: &Vec<Particle>,
    sub_graviton: &ParticleParameters,
    fan: &Vec<Point>,
) -> (r: Vec<Particle>)
    requires
        fan@.len() > 0,
    ensures
        (final(universe)@, tracers_of(r@)) == old(universe)@.stepped(
            tracers_of(gravitons@),
            points_of(fan@),
            sub_graviton@.step_size,
            sub_graviton@.life_span,
        ),
{
    let mut live: Vec<Particle> = Vec::new();
    let mut i: usize = 0;
    assert(tracers_of(gravitons@).take(0) =~= Seq::empty());
    assert(tracers_of(live@) =~= Seq::empty());
    while i < gravitons.len()
        invariant
            i <= gravitons@.len(),
            fan@.len() > 0,
            (universe@, tracers_of(live@)) == old(universe)@.stepped(
                tracers_of(gravitons@).take(i as int),
                points_of(fan@),
                sub_graviton@.step_size,
                sub_graviton@.life_span,
            ),
        decreases gravitons@.len() - i,
    {
        let ghost before = tracers_of(live@);
        match advance(universe, gravitons[i], sub_graviton, fan) {
            Some(particle) => {
                live.push(particle);
                assert(tracers_of(live@) =~= before.push(particle@));
            },
            None => {},
        }
        proof {
            let tracers = tracers_of(gravitons@);
            assert(tracers.take(i + 1).drop_last() =~= tracers.take(i as int));
            assert(tracers.take(i + 1).last() == gravitons@[i as int]@);
        }
        i = i + 1;
    }
    assert(tracers_of(gravitons@).take(gravitons@.len() as int) =~= tracers_of(gravitons@));
    live
}

/// The middle of the cell in column `x` of row `y`.
pub fn cell_center(x: u32, y: u32) -> (r: Point)
    ensures
        r@ == Grid::center(x as int, y as int),
{
    assert(0 <= x * SCALE + SCALE / 2 <= i128::MAX && 0 <= y * SCALE + SCALE / 2 <= i128::MAX)
        by (nonlinear_arith)
        requires
            0 <= x <= u32::MAX,
            0 <= y <= u32::MAX,
            SCALE == 1073741824,
    ;
    let half: i128 = (SCALE / 2) as i128;
    Point {
        x: narrow((x as i128) * (SCALE as i128) + half),
        y: narrow((y as i128) * (SCALE as i128) + half),
    }
}

/// Adds the top-tier particles of one cell, whatever the number of
/// directions.
fn emit(
    gravitons: &mut Vec<Particle>,
    position: (u32, u32),
    mass: Fixed,
    graviton: &ParticleParameters,
    fan: &Vec<Point>,
)
    requires
        fan@.len() > 0,
    ensures
        tracers_of(final(gravitons)@) == tracers_of(old(gravitons)@) + emitted(
            Grid::center(position.0 as int, position.1 as int),
            mass@,
            points_of(fan@),
            graviton@.step_size,
        ),
{
    let count = fan.len();
    let ghost all = emitted(
        Grid::center(position.0 as int, position.1 as int),
        mass@,
        points_of(fan@),
        graviton@.step_size,
    );
    let from = cell_center(position.0, position.1);
    let value = mass.div_int(count);
    let mut i: usize = 0;
    assert(tracers_of(gravitons@) + all.take(0) =~= tracers_of(gravitons@));
    while i < count
        invariant
            i <= count,
            count == fan@.len(),
            all.len() == count,
            all == emitted(
                Grid::center(position.0 as int, position.1 as int),
                mass@,
                points_of(fan@),
                graviton@.step_size,
            ),
            from@ == Grid::center(position.0 as int, position.1 as int),
            value@ == share(mass@, count as int),
            tracers_of(gravitons@) == tracers_of(old(gravitons)@) + all.take(i as int),
        decreases count - i,
    {
        let ghost before = tracers_of(gravitons@);
        let particle = Particle { position: from, speed: fan[i] * graviton.step_size, value };
        gravitons.push(particle);
        proof {
            assert(particle@ == all[i as int]);
            assert(tracers_of(gravitons@) =~= before.push(particle@));
            assert(all.take(i + 1) =~= all.take(i as int).push(all[i as int]));
            assert(tracers_of(old(gravitons)@) + all.take(i + 1) =~= (tracers_of(old(gravitons)@)
                + all.take(i as int)).push(all[i as int]));
        }
        i = i + 1;
    }
    assert(all.take(count as int) =~= all);
}

/// The top-tier particles of a run, whatever the number of directions.
fn spawn(universe: &Universe, graviton: &ParticleParameters, fan: &Vec<Point>) -> (r:
    Vec<Particle>)
    requires
        fan@.len() > 0,
    ensures
        tracers_of(r@) == universe@.spawned(
            points_of(fan@),
            graviton@.step_size,
            universe@.cells.len(),
        ),
{
    let width = universe.width();
    let height = universe.height();
    let mut gravitons: Vec<Particle> = Vec::new();
    let mut y: u32 = 0;
    assert(tracers_of(gravitons@) =~= Seq::empty());
    while y < height
        invariant
            y <= height,
            fan@.len() > 0,
            universe@.wf(),
            width == universe@.width,
            height == universe@.height,
            tracers_of(gravitons@) == universe@.spawned(
                points_of(fan@),
                graviton@.step_size,
                (y * width) as nat,
            ),
        decreases height - y,
    {
        let mut x: u32 = 0;
        while x < width
            invariant
                x <= width,
                y < height,
                fan@.len() > 0,
                universe@.wf(),
                width == universe@.width,
                height == universe@.height,
                tracers_of(gravitons@) == universe@.spawned(
                    points_of(fan@),
                    graviton@.step_size,
                    (y * width + x) as nat,
                ),
            decreases width - x,
        {
            proof {
                lemma_row_major(x as int, y as int, width as int);
                crate::universe::lemma_slot_in_range(universe@, x as int, y as int);
            }
            let element = universe.index(x, y).unwrap().element().unwrap();
            let mass = element.mass.value;
            if mass.raw() != 0 {
                emit(&mut gravitons, (x, y), mass, graviton, fan);
            }
            x = x + 1;
        }
        assert((y + 1) * width == y * width + width) by (nonlinear_arith);
        y = y + 1;
    }
    assert(height * width == width * height) by (nonlinear_arith);
    gravitons
}

/// Whether `fan` has a direction for each particle of the tier.
pub open spec fn fits(tier: Tier, fan: Seq<Point>) -> bool {
    fan.len() == tier.quantity
}

/// Whether `fan` has a direction for each particle of `tier`, which are
/// never none.
fn fan_fits(tier: &ParticleParameters, fan: &Vec<Point>) -> (r: bool)
    ensures
        r == fits(tier@, fan@),
        r ==> fan@.len() > 0,
{
    fan.len() == tier.quantity() as usize
}

/// Moves one top-tier particle by one step. If it arrives inside the grid it
/// sends out a second-tier particle in each direction of `fan`, with an even
/// share of its value, and is returned; if it has left the grid it is
/// dropped. Refused, with nothing changed, when `fan` has another number of
/// directions than the tier has particles.
pub fn process_graviton(
    universe: &mut Universe,
    particle: Particle,
    sub_graviton: &ParticleParameters,
    fan: &Vec<Point>,
) -> (r: Result<Option<Particle>, ConfigError>)
    ensures
        match r {
            Ok(left) => fits(sub_graviton@, fan@) && (final(universe)@, tracer_of(left)) == old(
                universe,
            )@.advanced(
                particle@,
                points_of(fan@),
                sub_graviton@.step_size,
                sub_graviton@.life_span,
            ),
            Err(e) => {
                &&& !fits(sub_graviton@, fan@)
                &&& e == ConfigError::FanMismatch
                &&& final(universe)@ == old(universe)@
            },
        },
{
    if !fan_fits(sub_graviton, fan) {
        return Err(ConfigError::FanMismatch);
    }
    Ok(advance(universe, particle, sub_graviton, fan))
}

/// Moves every top-tier particle of `gravitons` by one step, each sending out
/// its fan where it arrives. Returns those that are still inside the grid.
/// Refused, with nothing changed, when `fan` has another number of
/// directions than the tier has particles.
pub fn process_gravitons(
    universe: &mut Universe,
    gravitons: &Vec<Particle>,
    sub_graviton: &ParticleParameters,
    fan: &Vec<Point>,
) -> (r: Result<Vec<Particle>, ConfigError>)
    ensures
        match r {
            Ok(live) => fits(sub_graviton@, fan@) && (final(universe)@, tracers_of(live@)) == old(
                universe,
            )@.stepped(
                tracers_of(gravitons@),
                points_of(fan@),
                sub_graviton@.step_size,
                sub_graviton@.life_span,
            ),
            Err(e) => {
                &&& !fits(sub_graviton@, fan@)
                &&& e == ConfigError::FanMismatch
                &&& final(universe)@ == old(universe)@
            },
        },
{
    if !fan_fits(sub_graviton, fan) {
        return Err(ConfigError::FanMismatch);
    }
    Ok(advance_all(universe, gravitons, sub_graviton, fan))
}

/// Adds to `gravitons` the top-tier particles that the cell in column
/// `position.0` of row `position.1` sends out for its mass `mass`: one in
/// each direction of `fan`, each with an even share of the mass. Refused,
/// with nothing added, when `fan` has another number of directions than the
/// tier has particles.
pub fn for_each_mass_point(
    gravitons: &mut Vec<Particle>,
    position: (u32, u32),
    mass: Fixed,
    graviton: &ParticleParameters,
    fan: &Vec<Point>,
) -> (r: Result<(), ConfigError>)
    ensures
        match r {
            Ok(_) => fits(graviton@, fan@) && tracers_of(final(gravitons)@) == tracers_of(
                old(gravitons)@,
            ) + emitted(
                Grid::center(position.0 as int, position.1 as int),
                mass@,
                points_of(fan@),
                graviton@.step_size,
            ),
            Err(e) => !fits(graviton@, fan@) && e == ConfigError::FanMismatch && final(gravitons)@
                == old(gravitons)@,
        },
{
    if !fan_fits(graviton, fan) {
        return Err(ConfigError::FanMismatch);
    }
    emit(gravitons, position, mass, graviton, fan);
    Ok(())
}

/// The top-tier particles of a run: every cell with mass sends out one in
/// each direction of `fan`, the cells taken row by row. Refused when `fan`
/// has another number of directions than the tier has particles.
pub fn spawn_gravitons(universe: &Universe, graviton: &ParticleParameters, fan: &Vec<Point>) -> (r:
    Result<Vec<Particle>, ConfigError>)
    ensures
        match r {
            Ok(gravitons) => fits(graviton@, fan@) && tracers_of(gravitons@) == universe@.spawned(
                points_of(fan@),
                graviton@.step_size,
                universe@.cells.len(),
            ),
            Err(e) => !fits(graviton@, fan@) && e == ConfigError::FanMismatch,
        },
{
    if !fan_fits(graviton, fan) {
        return Err(ConfigError::FanMismatch);
    }
    Ok(spawn(universe, graviton, fan))
}

/// The cell in column `x` of row `y` is number `y * width + x` when rows
/// are counted through one after the other.
pub proof fn lemma_row_major(x: int, y: int, width: int)
    requires
        0 <= x < width,
        0 <= y,
    ensures
        0 <= y * width + x,
        (y * width + x) % width == x,
        (y * width + x) / width == y,
{
    vstd::arithmetic::div_mod::lemma_fundamental_div_mod_converse(y * width + x, width, y, x);
    assert(0 <= y * width) by (nonlinear_arith)
        requires
            0 <= y,
            0 <= width,
    ;
}

impl Tracer {
    /// The same particle carrying the opposite value.
    pub open spec fn mirrored(self) -> Tracer {
        Tracer { value: -self.value, ..self }
    }
}

/// The same particles, each carrying the opposite value.
pub open spec fn mirrored_all(tracers: Seq<Tracer>) -> Seq<Tracer> {
    Seq::new(tracers.len(), |i: int| tracers[i].mirrored())
}

/// The sum of the values that the particles carry.
pub open spec fn total_value(tracers: Seq<Tracer>) -> int
    decreases tracers.len(),
{
    if tracers.len() == 0 {
        0
    } else {
        total_value(tracers.drop_last()) + tracers.last().value
    }
}

/// Even shares of a value that the count divides add up to the value:
/// nothing is lost and nothing is made in splitting it.
pub proof fn lemma_shares_make_whole(value: int, count: int)
    requires
        count > 0,
        value % count == 0,
    ensures
        count * share(value, count) == value,
{
    let k = value / count;
    lemma_fundamental_div_mod(value, count);
    assert(value == count * k);
    if value < 0 {
        assert(-value == count * (-k)) by (nonlinear_arith)
            requires
                value == count * k,
        ;
        lemma_div_multiples_vanish(-k, count);
    }
}

/// Whatever the count, even shares of a value add up to the value less a
/// loss that is smaller than the count and lies on the side of the value.
pub proof fn lemma_shares_lose_little(value: int, count: int)
    requires
        count > 0,
    ensures
        size(value - count * share(value, count)) < count,
        value >= 0 ==> 0 <= count * share(value, count) <= value,
        value <= 0 ==> value <= count * share(value, count) <= 0,
{
    lemma_trunc_div_remainder(value, count);
    let each = share(value, count);
    assert((each >= 0 ==> count * each >= 0) && (each <= 0 ==> count * each <= 0))
        by (nonlinear_arith)
        requires
            count > 0,
    ;
}

/// A cell of the opposite mass sends out the same particles with the
/// opposite values.
pub proof fn lemma_emission_antisymmetric(from: Vec2, mass: int, directions: Seq<Vec2>, step: int)
    ensures
        emitted(from, -mass, directions, step) == mirrored_all(
            emitted(from, mass, directions, step),
        ),
{
    if directions.len() > 0 {
        lemma_share_odd(mass, directions.len() as int);
    }
    assert(emitted(from, -mass, directions, step) =~= mirrored_all(
        emitted(from, mass, directions, step),
    ));
}

/// The values of the first `n` of the particles that a cell sends out add up
/// to `n` shares.
proof fn lemma_total_of_emitted(from: Vec2, mass: int, directions: Seq<Vec2>, step: int, n: int)
    requires
        0 <= n <= directions.len(),
        directions.len() > 0,
    ensures
        total_value(emitted(from, mass, directions, step).take(n)) == n * share(
            mass,
            directions.len() as int,
        ),
    decreases n,
{
    let all = emitted(from, mass, directions, step);
    let each = share(mass, directions.len() as int);
    if n > 0 {
        lemma_total_of_emitted(from, mass, directions, step, n - 1);
        assert(all.take(n).drop_last() =~= all.take(n - 1));
        assert(all.take(n).last() == all[n - 1]);
        assert(n * each == (n - 1) * each + each) by (nonlinear_arith);
    } else {
        assert(all.take(n) =~= Seq::empty());
        assert(n * each == 0) by (nonlinear_arith)
            requires
                n == 0,
        ;
    }
}

/// The particles that a cell sends out carry between them the cell's mass
/// less a loss that is smaller than their number and lies on the side of the
/// mass.
pub proof fn lemma_emission_loses_little(from: Vec2, mass: int, directions: Seq<Vec2>, step: int)
    requires
        directions.len() > 0,
    ensures
        size(mass - total_value(emitted(from, mass, directions, step))) < directions.len(),
{
    let all = emitted(from, mass, directions, step);
    lemma_total_of_emitted(from, mass, directions, step, directions.len() as int);
    assert(all.take(directions.len() as int) =~= all);
    lemma_shares_lose_little(mass, directions.len() as int);
}

/// The particles that a cell sends out carry the cell's whole mass between
/// them, when their number divides the raw mass.
pub proof fn lemma_emission_conserves_mass(from: Vec2, mass: int, directions: Seq<Vec2>, step: int)
    requires
        directions.len() > 0,
        mass % (directions.len() as int) == 0,
    ensures
        total_value(emitted(from, mass, directions, step)) == mass,
{
    let all = emitted(from, mass, directions, step);
    lemma_total_of_emitted(from, mass, directions, step, directions.len() as int);
    assert(all.take(directions.len() as int) =~= all);
    lemma_shares_make_whole(mass, directions.len() as int);
}

/// Splitting the opposite value gives the opposite shares.
pub proof fn lemma_share_odd(value: int, count: int)
    requires
        count > 0,
    ensures
        share(-value, count) == -share(value, count),
{
    lemma_trunc_div_odd(value, count);
}

/// What a second-tier particle takes from a field turns into its opposite
/// when the mass of the cell that it comes from does, whatever the numbers
/// of particles in the two tiers.
pub proof fn lemma_contribution_odd(speed: Vec2, mass: int, gravitons: int, sub_gravitons: int)
    requires
        gravitons > 0,
        sub_gravitons > 0,
    ensures
        speed.scaled(share(share(-mass, gravitons), sub_gravitons)) == speed.scaled(
            share(share(mass, gravitons), sub_gravitons),
        ).negated(),
{
    lemma_share_odd(mass, gravitons);
    lemma_share_odd(share(mass, gravitons), sub_gravitons);
    lemma_scaled_odd(speed, share(share(mass, gravitons), sub_gravitons));
}

impl Grid {
    /// Whether `other` has the size, the portals and the masses of this grid,
    /// so that the two differ in their fields at most.
    pub open spec fn same_frame(self, other: Grid) -> bool {
        &&& other.width == self.width
        &&& other.height == self.height
        &&& other.portals == self.portals
        &&& other.cells.len() == self.cells.len()
        &&& forall|i: int| 0 <= i < self.cells.len() ==> other.cells[i].mass == self.cells[i].mass
    }
}

/// The walk of a second-tier particle changes fields only: the grid keeps its
/// size, its portals and every mass.
pub proof fn lemma_walk_keeps_frame(g: Grid, position: Vec2, speed: Vec2, value: int, steps: nat)
    requires
        g.wf(),
    ensures
        g.same_frame(g.walked(position, speed, value, steps)),
        g.walked(position, speed, value, steps).wf(),
    decreases steps,
{
    if steps > 0 && g.contains(position) {
        lemma_contained_cell(g, position);
        let next = g.travel(position, speed);
        let h = g.deposited(position, speed, value);
        lemma_walk_keeps_frame(h, next.0, next.1, value, (steps - 1) as nat);
    }
}

/// A fan of second-tier particles changes fields only.
pub proof fn lemma_fan_keeps_frame(
    g: Grid,
    position: Vec2,
    directions: Seq<Vec2>,
    step: int,
    value: int,
    steps: nat,
)
    requires
        g.wf(),
    ensures
        g.same_frame(g.fanned(position, directions, step, value, steps)),
        g.fanned(position, directions, step, value, steps).wf(),
    decreases directions.len(),
{
    if directions.len() > 0 {
        lemma_fan_keeps_frame(g, position, directions.drop_last(), step, value, steps);
        let h = g.fanned(position, directions.drop_last(), step, value, steps);
        lemma_walk_keeps_frame(h, position, directions.last().scaled(step), value, steps);
    }
}

/// A step of the top-tier particles changes fields only.
pub proof fn lemma_step_keeps_frame(
    g: Grid,
    tracers: Seq<Tracer>,
    directions: Seq<Vec2>,
    step: int,
    steps: nat,
)
    requires
        g.wf(),
    ensures
        g.same_frame(g.stepped(tracers, directions, step, steps).0),
        g.stepped(tracers, directions, step, steps).0.wf(),
    decreases tracers.len(),
{
    if tracers.len() > 0 {
        lemma_step_keeps_frame(g, tracers.drop_last(), directions, step, steps);
        let h = g.stepped(tracers.drop_last(), directions, step, steps).0;
        let t = tracers.last();
        let next = h.travel(t.position, t.speed);
        lemma_fan_keeps_frame(
            h,
            next.0,
            directions,
            step,
            share(t.value, directions.len() as int),
            steps,
        );
    }
}

/// Marking a cell of the opposite grid with the opposite value gives the
/// opposite of what marking it with the value gives.
pub proof fn lemma_deposit_antisymmetric(
    g: Grid,
    masses: bool,
    position: Vec2,
    speed: Vec2,
    value: int,
)
    requires
        g.wf(),
        g.contains(position),
    ensures
        g.opposite(masses).deposited(position, speed, -value) == g.deposited(
            position,
            speed,
            value,
        ).opposite(masses),
{
    lemma_contained_cell(g, position);
    let i = g.slot_of(position);
    lemma_scaled_odd(speed, value);
    lemma_minus_odd(g.cells[i].field, speed.scaled(value));
    assert(g.opposite(masses).deposited(position, speed, -value).cells =~= g.deposited(
        position,
        speed,
        value,
    ).opposite(masses).cells);
}

/// The walk of a second-tier particle with the opposite value through the
/// opposite grid gives the opposite of its walk with the value.
pub proof fn lemma_walk_antisymmetric(
    g: Grid,
    masses: bool,
    position: Vec2,
    speed: Vec2,
    value: int,
    steps: nat,
)
    requires
        g.wf(),
    ensures
        g.opposite(masses).walked(position, speed, -value, steps) == g.walked(
            position,
            speed,
            value,
            steps,
        ).opposite(masses),
    decreases steps,
{
    if steps > 0 && g.contains(position) {
        lemma_contained_cell(g, position);
        lemma_deposit_antisymmetric(g, masses, position, speed, value);
        lemma_travel_ignores_cells(g, g.opposite(masses), position, speed);
        let next = g.travel(position, speed);
        let h = g.deposited(position, speed, value);
        lemma_walk_antisymmetric(h, masses, next.0, next.1, value, (steps - 1) as nat);
    }
}

/// A fan of second-tier particles with the opposite value over the opposite
/// grid gives the opposite of the fan with the value.
pub proof fn lemma_fan_antisymmetric(
    g: Grid,
    masses: bool,
    position: Vec2,
    directions: Seq<Vec2>,
    step: int,
    value: int,
    steps: nat,
)
    requires
        g.wf(),
    ensures
        g.opposite(masses).fanned(position, directions, step, -value, steps) == g.fanned(
            position,
            directions,
            step,
            value,
            steps,
        ).opposite(masses),
    decreases directions.len(),
{
    if directions.len() > 0 {
        lemma_fan_antisymmetric(g, masses, position, directions.drop_last(), step, value, steps);
        lemma_fan_keeps_frame(g, position, directions.drop_last(), step, value, steps);
        let h = g.fanned(position, directions.drop_last(), step, value, steps);
        lemma_walk_antisymmetric(
            h,
            masses,
            position,
            directions.last().scaled(step),
            value,
            steps,
        );
    }
}

/// The field is antisymmetric under the sign of the masses: when every
/// particle carries the opposite value and the grid starts out as the
/// opposite, with or without its masses, a step leaves the opposite of the
/// grid that it would have left, and the same particles survive.
pub proof fn lemma_step_antisymmetric(
    g: Grid,
    masses: bool,
    tracers: Seq<Tracer>,
    directions: Seq<Vec2>,
    step: int,
    steps: nat,
)
    requires
        g.wf(),
    ensures
        g.opposite(masses).stepped(mirrored_all(tracers), directions, step, steps) == (
            g.stepped(tracers, directions, step, steps).0.opposite(masses),
            mirrored_all(g.stepped(tracers, directions, step, steps).1),
        ),
    decreases tracers.len(),
{
    let opposite = mirrored_all(tracers);
    if tracers.len() == 0 {
        assert(mirrored_all(Seq::<Tracer>::empty()) =~= Seq::<Tracer>::empty());
    } else {
        lemma_step_antisymmetric(g, masses, tracers.drop_last(), directions, step, steps);
        lemma_step_keeps_frame(g, tracers.drop_last(), directions, step, steps);
        assert(opposite.drop_last() =~= mirrored_all(tracers.drop_last()));
        let before = g.stepped(tracers.drop_last(), directions, step, steps);
        let h = before.0;
        let t = tracers.last();
        assert(opposite.last() == t.mirrored());
        lemma_travel_ignores_cells(h, h.opposite(masses), t.position, t.speed);
        let next = h.travel(t.position, t.speed);
        if h.contains(next.0) {
            if directions.len() > 0 {
                lemma_share_odd(t.value, directions.len() as int);
            }
            lemma_fan_antisymmetric(
                h,
                masses,
                next.0,
                directions,
                step,
                share(t.value, directions.len() as int),
                steps,
            );
            lemma_fan_ignores_value_when_empty(
                h.opposite(masses),
                next.0,
                directions,
                step,
                share(-t.value, directions.len() as int),
                -share(t.value, directions.len() as int),
                steps,
            );
            let kept = Tracer { position: next.0, speed: next.1, value: t.value };
            assert(mirrored_all(before.1.push(kept)) =~= mirrored_all(before.1).push(
                kept.mirrored(),
            ));
        }
    }
}

/// A fan is the same for two values that are equal, or in no direction at all.
proof fn lemma_fan_ignores_value_when_empty(
    g: Grid,
    position: Vec2,
    directions: Seq<Vec2>,
    step: int,
    value: int,
    other: int,
    steps: nat,
)
    requires
        directions.len() > 0 ==> value == other,
    ensures
        g.fanned(position, directions, step, value, steps) == g.fanned(
            position,
            directions,
            step,
            other,
            steps,
        ),
{
}

/// The cells of the mirrored grid send out the same particles with the
/// opposite values.
pub proof fn lemma_spawn_antisymmetric(g: Grid, directions: Seq<Vec2>, step: int, count: nat)
    requires
        count <= g.cells.len(),
    ensures
        g.mirrored().spawned(directions, step, count) == mirrored_all(
            g.spawned(directions, step, count),
        ),
    decreases count,
{
    if count == 0 {
        assert(mirrored_all(Seq::<Tracer>::empty()) =~= Seq::<Tracer>::empty());
    } else {
        let i = count - 1;
        lemma_spawn_antisymmetric(g, directions, step, i as nat);
        let earlier = g.spawned(directions, step, i as nat);
        if g.cells[i].mass != 0 {
            let from = Grid::center(i % g.width, i / g.width);
            let sent = emitted(from, g.cells[i].mass, directions, step);
            if directions.len() > 0 {
                lemma_share_odd(g.cells[i].mass, directions.len() as int);
            }
            assert(emitted(from, -g.cells[i].mass, directions, step) =~= mirrored_all(sent));
            assert(mirrored_all(earlier + sent) =~= mirrored_all(earlier) + mirrored_all(sent));
        }
    }
}

/// A step never adds a particle: those that are left are at most as many as
/// there were.
pub proof fn lemma_step_never_adds(
    g: Grid,
    tracers: Seq<Tracer>,
    directions: Seq<Vec2>,
    step: int,
    steps: nat,
)
    ensures
        g.stepped(tracers, directions, step, steps).1.len() <= tracers.len(),
    decreases tracers.len(),
{
    if tracers.len() > 0 {
        lemma_step_never_adds(g, tracers.drop_last(), directions, step, steps);
    }
}

/// A grid without fields is its own opposite, the masses left as they are.
pub proof fn lemma_still_is_its_opposite(g: Grid)
    requires
        g.still(),
    ensures
        g.opposite(false) == g,
{
    assert(g.opposite(false).cells =~= g.cells);
}

/// From one and the same grid without fields, particles that carry the
/// opposite values leave the opposite field in every cell, and the same
/// particles survive.
pub proof fn lemma_step_from_still_antisymmetric(
    g: Grid,
    tracers: Seq<Tracer>,
    directions: Seq<Vec2>,
    step: int,
    steps: nat,
)
    requires
        g.wf(),
        g.still(),
    ensures
        g.stepped(mirrored_all(tracers), directions, step, steps) == (
            g.stepped(tracers, directions, step, steps).0.opposite(false),
            mirrored_all(g.stepped(tracers, directions, step, steps).1),
        ),
{
    lemma_still_is_its_opposite(g);
    lemma_step_antisymmetric(g, false, tracers, directions, step, steps);
}

/// From one and the same grid without fields, a second-tier particle that
/// carries the opposite value leaves the opposite field in every cell.
pub proof fn lemma_walk_from_still_antisymmetric(
    g: Grid,
    position: Vec2,
    speed: Vec2,
    value: int,
    steps: nat,
)
    requires
        g.wf(),
        g.still(),
    ensures
        g.walked(position, speed, -value, steps) == g.walked(position, speed, value, steps).opposite(
            false,
        ),
{
    lemma_still_is_its_opposite(g);
    lemma_walk_antisymmetric(g, false, position, speed, value, steps);
}

/// One mark of a walk: where the particle stood and how it moved on.
pub struct Mark {
    pub position: Vec2,
    pub speed: Vec2,
}

/// The place among the cells of a grid `width` columns wide of the cell
/// that holds the position `p`.
pub open spec fn slot_in(width: int, p: Vec2) -> int {
    p.x / (SCALE as int) + (p.y / (SCALE as int)) * width
}

/// What the marks take in all from the field of the cell at place `c`, when
/// they are made with `value`, before any saturation.
pub open spec fn taken(width: int, marks: Seq<Mark>, value: int, c: int) -> Vec2
    decreases marks.len(),
{
    if marks.len() == 0 {
        Vec2::zero()
    } else {
        let later = taken(width, marks.drop_first(), value, c);
        if slot_in(width, marks[0].position) == c {
            let now = marks[0].speed.scaled(value);
            Vec2 { x: now.x + later.x, y: now.y + later.y }
        } else {
            later
        }
    }
}

/// The most by which the marks can move either coordinate of the field of
/// the cell at place `c` on the way.
pub open spec fn weight(width: int, marks: Seq<Mark>, value: int, c: int) -> int
    decreases marks.len(),
{
    if marks.len() == 0 {
        0
    } else {
        let later = weight(width, marks.drop_first(), value, c);
        if slot_in(width, marks[0].position) == c {
            marks[0].speed.scaled(value).span() + later
        } else {
            later
        }
    }
}

impl Grid {
    /// The marks that a second-tier particle makes in `steps` steps from
    /// `position`: one where it stands before each step, until it is outside
    /// the grid. They do not depend on the value it carries, nor on any cell.
    pub open spec fn trail(self, position: Vec2, speed: Vec2, steps: nat) -> Seq<Mark>
        decreases steps,
    {
        if steps == 0 || !self.contains(position) {
            Seq::empty()
        } else {
            let next = self.travel(position, speed);
            seq![Mark { position, speed }] + self.trail(next.0, next.1, (steps - 1) as nat)
        }
    }

    /// The grid after each of `marks` has been made in turn by a particle
    /// that carries `value`.
    pub open spec fn marked(self, marks: Seq<Mark>, value: int) -> Grid
        decreases marks.len(),
    {
        if marks.len() == 0 {
            self
        } else {
            self.deposited(marks[0].position, marks[0].speed, value).marked(
                marks.drop_first(),
                value,
            )
        }
    }

    /// Whether a walk never stands in the cell at place `c`.
    pub open spec fn avoids(self, position: Vec2, speed: Vec2, steps: nat, c: int) -> bool {
        forall|k: int|
            0 <= k < self.trail(position, speed, steps).len() ==> slot_in(
                self.width,
                #[trigger] self.trail(position, speed, steps)[k].position,
            ) != c
    }

    /// Whether none of the walks of a fan from `position` stands in the cell
    /// at place `c`.
    pub open spec fn fan_avoids(
        self,
        position: Vec2,
        directions: Seq<Vec2>,
        step: int,
        steps: nat,
        c: int,
    ) -> bool {
        forall|i: int|
            0 <= i < directions.len() ==> self.avoids(
                position,
                (#[trigger] directions[i]).scaled(step),
                steps,
                c,
            )
    }

    /// Whether none of the fans that `tracers` send out after their step
    /// stands in the cell at place `c`.
    pub open spec fn step_avoids(
        self,
        tracers: Seq<Tracer>,
        directions: Seq<Vec2>,
        step: int,
        steps: nat,
        c: int,
    ) -> bool {
        forall|j: int|
            0 <= j < tracers.len() ==> self.fan_avoids(
                self.travel((#[trigger] tracers[j]).position, tracers[j].speed).0,
                directions,
                step,
                steps,
                c,
            )
    }

    /// Whether every one of `marks` lies inside the grid.
    pub open spec fn holds_all(self, marks: Seq<Mark>) -> bool {
        forall|k: int| 0 <= k < marks.len() ==> self.contains(#[trigger] marks[k].position)
    }
}

/// The trail of a walk depends on the size and the portals of the grid
/// alone.
pub proof fn lemma_trail_ignores_cells(g: Grid, h: Grid, position: Vec2, speed: Vec2, steps: nat)
    requires
        g.width == h.width,
        g.height == h.height,
        g.portals == h.portals,
    ensures
        g.trail(position, speed, steps) == h.trail(position, speed, steps),
    decreases steps,
{
    if steps > 0 && g.contains(position) {
        lemma_travel_ignores_cells(g, h, position, speed);
        let next = g.travel(position, speed);
        lemma_trail_ignores_cells(g, h, next.0, next.1, (steps - 1) as nat);
    }
}

/// Every mark of a trail lies inside the grid.
pub proof fn lemma_trail_is_inside(g: Grid, position: Vec2, speed: Vec2, steps: nat)
    ensures
        g.holds_all(g.trail(position, speed, steps)),
        g.trail(position, speed, steps).len() <= steps,
    decreases steps,
{
    if steps > 0 && g.contains(position) {
        let next = g.travel(position, speed);
        lemma_trail_is_inside(g, next.0, next.1, (steps - 1) as nat);
        let later = g.trail(next.0, next.1, (steps - 1) as nat);
        let all = g.trail(position, speed, steps);
        assert forall|k: int| 0 <= k < all.len() implies g.contains(#[trigger] all[k].position) by {
            if k > 0 {
                assert(all[k] == later[k - 1]);
            }
        }
    }
}

/// A walk does to the grid what making the marks of its trail does, one
/// after the other.
pub proof fn lemma_walk_makes_its_trail(g: Grid, position: Vec2, speed: Vec2, value: int, steps: nat)
    requires
        g.wf(),
    ensures
        g.walked(position, speed, value, steps) == g.marked(
            g.trail(position, speed, steps),
            value,
        ),
    decreases steps,
{
    if steps > 0 && g.contains(position) {
        lemma_contained_cell(g, position);
        let next = g.travel(position, speed);
        let h = g.deposited(position, speed, value);
        let later = g.trail(next.0, next.1, (steps - 1) as nat);
        let all = g.trail(position, speed, steps);
        lemma_walk_makes_its_trail(h, next.0, next.1, value, (steps - 1) as nat);
        lemma_trail_ignores_cells(g, h, next.0, next.1, (steps - 1) as nat);
        lemma_travel_ignores_cells(g, h, position, speed);
        assert(all.drop_first() =~= later);
        assert(all[0] == Mark { position, speed });
    }
}

/// A cell in which none of the marks lies keeps its mass and its field.
pub proof fn lemma_unmarked_cell_is_kept(g: Grid, marks: Seq<Mark>, value: int, c: int)
    requires
        g.wf(),
        g.holds_all(marks),
        0 <= c < g.cells.len(),
        forall|k: int| 0 <= k < marks.len() ==> slot_in(g.width, #[trigger] marks[k].position) != c,
    ensures
        g.marked(marks, value).cells[c] == g.cells[c],
    decreases marks.len(),
{
    if marks.len() > 0 {
        let first = marks[0];
        let later = marks.drop_first();
        assert(g.contains(first.position));
        lemma_contained_cell(g, first.position);
        assert(slot_in(g.width, first.position) != c);
        let h = g.deposited(first.position, first.speed, value);
        assert forall|k: int| 0 <= k < later.len() implies h.contains(
            #[trigger] later[k].position,
        ) && slot_in(h.width, later[k].position) != c by {
            assert(later[k] == marks[k + 1]);
        }
        lemma_unmarked_cell_is_kept(h, later, value, c);
    }
}

/// A cell that a walk never stands in keeps its mass and its field.
pub proof fn lemma_unvisited_cell_is_kept(
    g: Grid,
    position: Vec2,
    speed: Vec2,
    value: int,
    steps: nat,
    c: int,
)
    requires
        g.wf(),
        0 <= c < g.cells.len(),
        g.avoids(position, speed, steps, c),
    ensures
        g.walked(position, speed, value, steps).cells[c] == g.cells[c],
{
    lemma_walk_makes_its_trail(g, position, speed, value, steps);
    lemma_trail_is_inside(g, position, speed, steps);
    lemma_unmarked_cell_is_kept(g, g.trail(position, speed, steps), value, c);
}

/// The weight of marks is never negative.
pub proof fn lemma_weight_is_not_negative(width: int, marks: Seq<Mark>, value: int, c: int)
    ensures
        weight(width, marks, value, c) >= 0,
    decreases marks.len(),
{
    if marks.len() > 0 {
        lemma_weight_is_not_negative(width, marks.drop_first(), value, c);
    }
}

/// With the opposite value the marks take the opposite from every cell, and
/// weigh the same.
pub proof fn lemma_taken_odd(width: int, marks: Seq<Mark>, value: int, c: int)
    ensures
        taken(width, marks, -value, c) == taken(width, marks, value, c).negated(),
        weight(width, marks, -value, c) == weight(width, marks, value, c),
    decreases marks.len(),
{
    if marks.len() > 0 {
        lemma_taken_odd(width, marks.drop_first(), value, c);
        lemma_scaled_odd(marks[0].speed, value);
    }
}

/// As long as the field of a cell cannot saturate on the way, the marks
/// change it by what they take from it in all, and leave its mass alone.
pub proof fn lemma_marks_add_up(g: Grid, marks: Seq<Mark>, value: int, c: int)
    requires
        g.wf(),
        g.holds_all(marks),
        0 <= c < g.cells.len(),
        g.cells[c].field.span() + weight(g.width, marks, value, c) <= LIMIT,
    ensures
        g.marked(marks, value).cells[c] == (Cell {
            mass: g.cells[c].mass,
            field: Vec2 {
                x: g.cells[c].field.x - taken(g.width, marks, value, c).x,
                y: g.cells[c].field.y - taken(g.width, marks, value, c).y,
            },
        }),
    decreases marks.len(),
{
    if marks.len() > 0 {
        let first = marks[0];
        let later = marks.drop_first();
        assert(g.contains(first.position));
        lemma_contained_cell(g, first.position);
        lemma_weight_is_not_negative(g.width, later, value, c);
        let h = g.deposited(first.position, first.speed, value);
        assert forall|k: int| 0 <= k < later.len() implies h.contains(
            #[trigger] later[k].position,
        ) by {
            assert(later[k] == marks[k + 1]);
        }
        lemma_marks_add_up(h, later, value, c);
    }
}

/// Field accumulation is antisymmetric under the sign of the value: of two
/// walks through one and the same grid that differ in the sign of the value
/// alone, each makes the same marks in the same cells, and they change the
/// field of every cell by opposite amounts, as long as the field of the cell
/// cannot saturate on the way.
pub proof fn lemma_opposite_walks_change_fields_oppositely(
    g: Grid,
    position: Vec2,
    speed: Vec2,
    value: int,
    steps: nat,
    c: int,
)
    requires
        g.wf(),
        0 <= c < g.cells.len(),
        g.cells[c].field.span() + weight(g.width, g.trail(position, speed, steps), value, c)
            <= LIMIT,
    ensures
        ({
            let before = g.cells[c].field;
            let plus = g.walked(position, speed, value, steps).cells[c].field;
            let minus = g.walked(position, speed, -value, steps).cells[c].field;
            &&& minus.x - before.x == -(plus.x - before.x)
            &&& minus.y - before.y == -(plus.y - before.y)
        }),
{
    let marks = g.trail(position, speed, steps);
    lemma_walk_makes_its_trail(g, position, speed, value, steps);
    lemma_walk_makes_its_trail(g, position, speed, -value, steps);
    lemma_trail_is_inside(g, position, speed, steps);
    lemma_taken_odd(g.width, marks, value, c);
    lemma_marks_add_up(g, marks, value, c);
    lemma_marks_add_up(g, marks, -value, c);
}

/// A cell that no walk of a fan stands in keeps its mass and its field.
pub proof fn lemma_fan_keeps_unvisited(
    g: Grid,
    position: Vec2,
    directions: Seq<Vec2>,
    step: int,
    value: int,
    steps: nat,
    c: int,
)
    requires
        g.wf(),
        0 <= c < g.cells.len(),
        g.fan_avoids(position, directions, step, steps, c),
    ensures
        g.fanned(position, directions, step, value, steps).cells[c] == g.cells[c],
    decreases directions.len(),
{
    if directions.len() > 0 {
        let earlier = directions.drop_last();
        assert forall|i: int| 0 <= i < earlier.len() implies g.avoids(
            position,
            (#[trigger] earlier[i]).scaled(step),
            steps,
            c,
        ) by {
            assert(earlier[i] == directions[i]);
        }
        lemma_fan_keeps_unvisited(g, position, earlier, step, value, steps, c);
        lemma_fan_keeps_frame(g, position, earlier, step, value, steps);
        let h = g.fanned(position, earlier, step, value, steps);
        let speed = directions.last().scaled(step);
        assert(directions.last() == directions[directions.len() - 1]);
        assert(g.avoids(position, speed, steps, c));
        lemma_trail_ignores_cells(g, h, position, speed, steps);
        lemma_unvisited_cell_is_kept(h, position, speed, value, steps, c);
    }
}

/// A cell that no walk of a step stands in keeps its mass and its field.
pub proof fn lemma_step_keeps_unvisited(
    g: Grid,
    tracers: Seq<Tracer>,
    directions: Seq<Vec2>,
    step: int,
    steps: nat,
    c: int,
)
    requires
        g.wf(),
        0 <= c < g.cells.len(),
        g.step_avoids(tracers, directions, step, steps, c),
    ensures
        g.stepped(tracers, directions, step, steps).0.cells[c] == g.cells[c],
    decreases tracers.len(),
{
    if tracers.len() > 0 {
        let earlier = tracers.drop_last();
        assert forall|j: int| 0 <= j < earlier.len() implies g.fan_avoids(
            g.travel((#[trigger] earlier[j]).position, earlier[j].speed).0,
            directions,
            step,
            steps,
            c,
        ) by {
            assert(earlier[j] == tracers[j]);
        }
        lemma_step_keeps_unvisited(g, earlier, directions, step, steps, c);
        lemma_step_keeps_frame(g, earlier, directions, step, steps);
        let h = g.stepped(earlier, directions, step, steps).0;
        let t = tracers.last();
        assert(t == tracers[tracers.len() - 1]);
        lemma_travel_ignores_cells(g, h, t.position, t.speed);
        let next = h.travel(t.position, t.speed);
        assert(g.fan_avoids(next.0, directions, step, steps, c));
        if h.contains(next.0) {
            assert forall|i: int| 0 <= i < directions.len() implies h.avoids(
                next.0,
                (#[trigger] directions[i]).scaled(step),
                steps,
                c,
            ) by {
                lemma_trail_ignores_cells(g, h, next.0, directions[i].scaled(step), steps);
                assert(g.avoids(next.0, directions[i].scaled(step), steps, c));
            }
            lemma_fan_keeps_unvisited(
                h,
                next.0,
                directions,
                step,
                share(t.value, directions.len() as int),
                steps,
                c,
            );
        }
    }
}

/// Whether column or row `x` lies wholly further than `r` raw units from the
/// raw coordinate `centre`.
pub open spec fn beyond(x: int, centre: int, r: int) -> bool {
    (x + 1) * SCALE <= centre - r || x * SCALE > centre + r
}

/// Without portals a walk goes straight: at its mark number `k` it has the
/// velocity it set out with and is at most `k` times the size of that
/// velocity from where it started, in each coordinate.
pub proof fn lemma_plain_trail_stays_near(g: Grid, position: Vec2, speed: Vec2, steps: nat)
    requires
        g.wf(),
        g.portals.len() == 0,
    ensures
        forall|k: int|
            0 <= k < g.trail(position, speed, steps).len() ==> {
                let mark = #[trigger] g.trail(position, speed, steps)[k];
                &&& mark.speed == speed
                &&& size(mark.position.x - position.x) <= k * size(speed.x)
                &&& size(mark.position.y - position.y) <= k * size(speed.y)
            },
    decreases steps,
{
    if steps > 0 && g.contains(position) {
        reveal(Grid::travel);
        lemma_inside_is_representable(g, position);
        let next = g.travel(position, speed);
        let later = g.trail(next.0, next.1, (steps - 1) as nat);
        let all = g.trail(position, speed, steps);
        lemma_plain_trail_stays_near(g, next.0, next.1, (steps - 1) as nat);
        assert forall|k: int| 0 <= k < all.len() implies {
            let mark = #[trigger] all[k];
            &&& mark.speed == speed
            &&& size(mark.position.x - position.x) <= k * size(speed.x)
            &&& size(mark.position.y - position.y) <= k * size(speed.y)
        } by {
            if k > 0 {
                assert(all[k] == later[k - 1]);
                assert(k * size(speed.x) == (k - 1) * size(speed.x) + size(speed.x)
                    && k * size(speed.y) == (k - 1) * size(speed.y) + size(speed.y))
                    by (nonlinear_arith);
            } else {
                assert(0 * size(speed.x) == 0 && 0 * size(speed.y) == 0);
            }
        }
    }
}

/// A position inside the grid whose cell is the one in column `x` of row `y`
/// has its coordinates within that column and that row.
pub proof fn lemma_position_of_slot(g: Grid, p: Vec2, x: int, y: int)
    requires
        g.wf(),
        g.contains(p),
        0 <= x < g.width,
        0 <= y < g.height,
        slot_in(g.width, p) == g.slot(x, y),
    ensures
        x * SCALE <= p.x < (x + 1) * SCALE,
        y * SCALE <= p.y < (y + 1) * SCALE,
{
    let unit = SCALE as int;
    lemma_contained_cell(g, p);
    let column = p.x / unit;
    let row = p.y / unit;
    assert(row * g.width == g.width * row && y * g.width == g.width * y) by (nonlinear_arith);
    lemma_fundamental_div_mod_converse(column + row * g.width, g.width, row, column);
    lemma_fundamental_div_mod_converse(x + y * g.width, g.width, y, x);
    lemma_fundamental_div_mod(p.x, unit);
    lemma_fundamental_div_mod(p.y, unit);
    lemma_mod_bound(p.x, unit);
    lemma_mod_bound(p.y, unit);
    assert((x + 1) * unit == unit * x + unit && (y + 1) * unit == unit * y + unit
        && x * unit == unit * x && y * unit == unit * y) by (nonlinear_arith);
}

/// Without portals a walk never stands in a cell whose column or row lies
/// wholly further from its start than it can get in its steps.
pub proof fn lemma_plain_walk_avoids_far_cell(
    g: Grid,
    position: Vec2,
    speed: Vec2,
    steps: nat,
    x: int,
    y: int,
)
    requires
        g.wf(),
        g.portals.len() == 0,
        0 <= x < g.width,
        0 <= y < g.height,
        steps > 0 ==> beyond(x, position.x, (steps - 1) * size(speed.x)) || beyond(
            y,
            position.y,
            (steps - 1) * size(speed.y),
        ),
    ensures
        g.avoids(position, speed, steps, g.slot(x, y)),
{
    let all = g.trail(position, speed, steps);
    lemma_plain_trail_stays_near(g, position, speed, steps);
    lemma_trail_is_inside(g, position, speed, steps);
    assert forall|k: int| 0 <= k < all.len() implies slot_in(g.width, #[trigger] all[k].position)
        != g.slot(x, y) by {
        let q = all[k].position;
        if slot_in(g.width, q) == g.slot(x, y) {
            lemma_position_of_slot(g, q, x, y);
            assert(k * size(speed.x) <= (steps - 1) * size(speed.x) && k * size(speed.y) <= (steps
                - 1) * size(speed.y)) by (nonlinear_arith)
                requires
                    0 <= k <= steps - 1,
                    size(speed.x) >= 0,
                    size(speed.y) >= 0,
            ;
        }
    }
}

/// Without portals a step leaves every far cell as it was: when every
/// particle arrives within `near` raw units of `source` in each coordinate,
/// and no second-tier particle makes more than `stride` raw units a step in
/// either coordinate, a cell whose column or row lies wholly further from
/// `source` than `near` and the strides of a life together keeps its mass and
/// its field.
pub proof fn lemma_plain_step_keeps_far_cell(
    g: Grid,
    tracers: Seq<Tracer>,
    directions: Seq<Vec2>,
    step: int,
    steps: nat,
    source: Vec2,
    near: int,
    stride: int,
    x: int,
    y: int,
)
    requires
        g.wf(),
        g.portals.len() == 0,
        0 <= x < g.width,
        0 <= y < g.height,
        forall|j: int|
            0 <= j < tracers.len() ==> {
                let arrival = (#[trigger] tracers[j]).position.plus(tracers[j].speed);
                size(arrival.x - source.x) <= near && size(arrival.y - source.y) <= near
            },
        forall|i: int|
            0 <= i < directions.len() ==> {
                let speed = (#[trigger] directions[i]).scaled(step);
                size(speed.x) <= stride && size(speed.y) <= stride
            },
        steps > 0 ==> beyond(x, source.x, near + (steps - 1) * stride) || beyond(
            y,
            source.y,
            near + (steps - 1) * stride,
        ),
    ensures
        g.stepped(tracers, directions, step, steps).0.cells[g.slot(x, y)] == g.cells[g.slot(x, y)],
{
    let c = g.slot(x, y);
    lemma_slot_in_range(g, x, y);
    assert forall|j: int| 0 <= j < tracers.len() implies g.fan_avoids(
        g.travel((#[trigger] tracers[j]).position, tracers[j].speed).0,
        directions,
        step,
        steps,
        c,
    ) by {
        reveal(Grid::travel);
        let arrival = tracers[j].position.plus(tracers[j].speed);
        assert(g.travel(tracers[j].position, tracers[j].speed).0 == arrival);
        assert forall|i: int| 0 <= i < directions.len() implies g.avoids(
            arrival,
            (#[trigger] directions[i]).scaled(step),
            steps,
            c,
        ) by {
            let speed = directions[i].scaled(step);
            if steps > 0 {
                assert((steps - 1) * size(speed.x) <= (steps - 1) * stride && (steps - 1) * size(
                    speed.y,
                ) <= (steps - 1) * stride) by (nonlinear_arith)
                    requires
                        steps >= 1,
                        0 <= size(speed.x) <= stride,
                        0 <= size(speed.y) <= stride,
                ;
            }
            lemma_plain_walk_avoids_far_cell(g, arrival, speed, steps, x, y);
        }
    }
    lemma_step_keeps_unvisited(g, tracers, directions, step, steps, c);
}

} // verus!
