//! The grid: a rectangle of cells, each with a mass and an accumulated field,
//! and the portals that join its edges.

use crate::config::ConfigError;
use crate::fixed::{Fixed, LIMIT, SCALE};
use crate::point::{Point, Vec2};
use crate::portal::{
    lemma_no_move_no_crossing, lemma_twin_crossing_keeps_velocity,
    lemma_twin_crossing_stays_in_range, lemma_twin_round_trip, PortalSet, SegmentPair,
};
use vstd::prelude::*;

verus! {

/// What a cell of the grid stands for: the raw mass and the field.
pub struct Cell {
    pub mass: int,
    pub field: Vec2,
}

impl Cell {
    /// The cell without mass and without field.
    pub open spec fn blank() -> Cell {
        Cell { mass: 0, field: Vec2::zero() }
    }

    /// The cell with the opposite field, and with the opposite mass too if
    /// `masses` says so.
    pub open spec fn opposite(self, masses: bool) -> Cell {
        Cell {
            mass: if masses {
                -self.mass
            } else {
                self.mass
            },
            field: self.field.negated(),
        }
    }
}

/// A source strength and the field accumulated at its cell.
#[derive(Clone, Copy, Debug, PartialEq, Eq, Structural)]
pub struct Property {
    pub value: Fixed,
    pub field: Point,
}

impl View for Property {
    type V = Cell;

    open spec fn view(&self) -> Cell {
        Cell { mass: self.value@, field: self.field@ }
    }
}

impl Default for Property {
    fn default() -> (r: Property)
        ensures
            r@ == Cell::blank(),
    {
        Property { value: Fixed::zero(), field: Point::default() }
    }
}

/// The content of one cell.
#[derive(Clone, Copy, Debug, PartialEq, Eq, Structural)]
pub struct Element {
    pub mass: Property,
}

impl View for Element {
    type V = Cell;

    open spec fn view(&self) -> Cell {
        self.mass@
    }
}

impl Default for Element {
    fn default() -> (r: Element)
        ensures
            r@ == Cell::blank(),
    {
        Element { mass: Property::default() }
    }
}

/// A part of the grid; for now always a single cell.
#[derive(Clone, Copy, Debug, PartialEq, Eq, Structural)]
pub enum Region {
    Element(Element),
}

impl View for Region {
    type V = Cell;

    open spec fn view(&self) -> Cell {
        match *self {
            Region::Element(e) => e@,
        }
    }
}

impl Default for Region {
    fn default() -> (r: Region)
        ensures
            r@ == Cell::blank(),
    {
        Region::Element(Element::default())
    }
}

impl Region {
    /// The cell, if the region is one.
    pub fn element(&self) -> (r: Option<Element>)
        ensures
            r == Some(self->0),
    {
        match self {
            Region::Element(e) => Some(*e),
        }
    }

    /// The cell for writing, if the region is one.
    pub fn element_mut(&mut self) -> (r: Option<&mut Element>)
        ensures
            r matches Some(e) && *e == old(self)->0 && *final(self) == Region::Element(*final(e)),
        no_unwind
    {
        match self {
            Region::Element(e) => Some(e),
        }
    }
}

/// What a `Universe` stands for.
pub struct Grid {
    pub width: int,
    pub height: int,
    pub portals: Seq<SegmentPair>,
    pub cells: Seq<Cell>,
}

impl Grid {
    /// The grid has cells, one for each pair of a column and a row, and
    /// every place in it is representable.
    pub open spec fn wf(self) -> bool {
        &&& 0 < self.width <= u32::MAX
        &&& 0 < self.height <= u32::MAX
        &&& self.cells.len() == self.width * self.height
    }

    /// The grid of the given size with blank cells and no portal.
    pub open spec fn blank(width: int, height: int) -> Grid {
        Grid {
            width,
            height,
            portals: Seq::empty(),
            cells: Seq::new((width * height) as nat, |i: int| Cell::blank()),
        }
    }

    /// Whether the position `p` lies in one of the cells.
    pub open spec fn contains(self, p: Vec2) -> bool {
        0 <= p.x < self.width * SCALE && 0 <= p.y < self.height * SCALE
    }

    /// The place in `cells` of the cell in column `x` of row `y`.
    pub open spec fn slot(self, x: int, y: int) -> int {
        x + y * self.width
    }

    /// The place in `cells` of the cell that holds the position `p`.
    pub open spec fn slot_of(self, p: Vec2) -> int {
        self.slot(p.x / (SCALE as int), p.y / (SCALE as int))
    }

    /// The same grid with `cell` at place `i`.
    pub open spec fn with_cell(self, i: int, cell: Cell) -> Grid {
        Grid { cells: self.cells.update(i, cell), ..self }
    }

    /// Whether the rectangle of the given size with its first cell in column
    /// `x` of row `y` has a cell and lies within the grid.
    pub open spec fn holds(self, x: int, y: int, width: int, height: int) -> bool {
        &&& 0 <= x
        &&& 0 <= y
        &&& 0 < width
        &&& 0 < height
        &&& x + width <= self.width
        &&& y + height <= self.height
    }

    /// The cells of that rectangle as a grid of its own, without portals.
    pub open spec fn section(self, x: int, y: int, width: int, height: int) -> Grid {
        Grid {
            width,
            height,
            portals: Seq::empty(),
            cells: Seq::new(
                (width * height) as nat,
                |i: int| self.cells[self.slot(x + i % width, y + i / width)],
            ),
        }
    }

    /// The same grid with every field turned into its opposite, and every
    /// mass too if `masses` says so.
    pub open spec fn opposite(self, masses: bool) -> Grid {
        Grid {
            cells: Seq::new(self.cells.len(), |i: int| self.cells[i].opposite(masses)),
            ..self
        }
    }

    /// The same grid with every mass and every field turned into its opposite.
    pub open spec fn mirrored(self) -> Grid {
        self.opposite(true)
    }

    /// Whether no cell has a field yet.
    pub open spec fn still(self) -> bool {
        forall|i: int| 0 <= i < self.cells.len() ==> (#[trigger] self.cells[i]).field == Vec2::zero()
    }

    /// The same grid with one more portal pair attached.
    pub open spec fn with_portals(self, pair: SegmentPair) -> Grid {
        Grid { portals: self.portals.push(pair), ..self }
    }

    /// Where a particle at `point` that makes the step `movement` arrives, and
    /// the velocity it then has. Only the first portal pair acts.
    #[verifier::opaque]
    pub open spec fn travel(self, point: Vec2, movement: Vec2) -> (Vec2, Vec2) {
        if self.portals.len() == 0 {
            (point.plus(movement), movement)
        } else {
            carry(self.portals[0], point, movement, movement, MAX_CROSSINGS as nat)
        }
    }
}

/// The most crossings that one step resolves after its first.
pub const MAX_CROSSINGS: u32 = 8;

/// The end of a step that still has `movement` to make from `point` at
/// velocity `speed`. A step that crosses no portal ends where the movement
/// leads. After a crossing, what is left of the movement is added where the
/// particle came out if its squared length is at most 1; else it is tried
/// against the portals again, and dropped once `budget` is used up.
pub open spec fn carry(pair: SegmentPair, point: Vec2, speed: Vec2, movement: Vec2, budget: nat) -> (
    Vec2,
    Vec2,
)
    decreases budget,
{
    match pair.cross(point, speed, movement) {
        None => (point.plus(movement), speed),
        Some((position, velocity, rest)) => {
            if rest.magnitude_2() <= SCALE {
                (position.plus(rest), velocity)
            } else if budget == 0 {
                (position, velocity)
            } else {
                carry(pair, position, velocity, rest, (budget - 1) as nat)
            }
        },
    }
}

/// Every column and row of a grid has its own place among the cells.
pub proof fn lemma_slot_in_range(g: Grid, x: int, y: int)
    requires
        g.wf(),
        0 <= x < g.width,
        0 <= y < g.height,
    ensures
        0 <= g.slot(x, y) < g.cells.len(),
{
    assert(0 <= y * g.width && x + y * g.width < g.width * g.height) by (nonlinear_arith)
        requires
            0 <= x < g.width,
            0 <= y < g.height,
    ;
}

/// A position inside the grid lies in a column and a row of the grid.
pub proof fn lemma_contained_cell(g: Grid, p: Vec2)
    requires
        g.wf(),
        g.contains(p),
    ensures
        0 <= p.x / (SCALE as int) < g.width,
        0 <= p.y / (SCALE as int) < g.height,
        0 <= g.slot_of(p) < g.cells.len(),
{
    let s = SCALE as int;
    assert(0 <= p.x / s < g.width) by (nonlinear_arith)
        requires
            0 <= p.x < g.width * s,
            s == 1073741824,
    ;
    assert(0 <= p.y / s < g.height) by (nonlinear_arith)
        requires
            0 <= p.y < g.height * s,
            s == 1073741824,
    ;
    lemma_slot_in_range(g, p.x / s, p.y / s);
}

/// Every position inside a grid is representable.
pub proof fn lemma_inside_is_representable(g: Grid, p: Vec2)
    requires
        g.wf(),
        g.contains(p),
    ensures
        p.wf(),
{
    assert(g.width * SCALE <= LIMIT && g.height * SCALE <= LIMIT) by (nonlinear_arith)
        requires
            g.width <= u32::MAX,
            g.height <= u32::MAX,
            SCALE == 1073741824,
            LIMIT == 4611686018427387904,
    ;
}

/// A step of no length leaves a particle where it is, with no velocity. This
/// holds of every representable position, so of every position inside a
/// grid.
pub proof fn lemma_travel_nowhere(g: Grid, point: Vec2)
    requires
        point.wf(),
    ensures
        g.travel(point, Vec2::zero()) == (point, Vec2::zero()),
{
    reveal(Grid::travel);
    assert(point.plus(Vec2::zero()) == point);
    if g.portals.len() > 0 {
        lemma_no_move_no_crossing(g.portals[0], point, Vec2::zero());
    }
}

/// Whether a step from `point` by `movement` crosses a portal of the pair
/// once and no more: what is left of the movement after the crossing is at
/// most one unit long in the square, or crosses nothing.
pub open spec fn crosses_once(pair: SegmentPair, point: Vec2, movement: Vec2) -> bool {
    pair.cross(point, movement, movement) matches Some((landing, velocity, rest)) && (
    rest.magnitude_2() <= SCALE || pair.cross(landing, velocity, rest) is None)
}

/// A step that crosses once ends where the particle came out, moved on by
/// what was left of the movement, with the velocity that the crossing gave.
pub proof fn lemma_step_of_one_crossing(g: Grid, point: Vec2, movement: Vec2)
    requires
        g.portals.len() > 0,
        crosses_once(g.portals[0], point, movement),
    ensures
        g.portals[0].cross(point, movement, movement) matches Some((landing, velocity, rest))
            && g.travel(point, movement) == (landing.plus(rest), velocity),
{
    reveal(Grid::travel);
    reveal_with_fuel(carry, 2);
}

/// There and back through twin portals, in whole steps. A particle that
/// makes a step which crosses once, and then the opposite step which crosses
/// back once through the portal it came out of, has the opposite velocity,
/// exactly, and is back where it started within twice `slack() + 2` raw
/// units of the portals' vector in each coordinate.
pub proof fn lemma_twin_step_round_trip(g: Grid, point: Vec2, movement: Vec2)
    requires
        g.portals.len() > 0,
        g.portals[0].twins(),
        movement.wf(),
        point.within(LIMIT / 8),
        point.plus(movement).within(LIMIT / 8),
        crosses_once(g.portals[0], point, movement),
        ({
            let pair = g.portals[0];
            let there = g.travel(point, movement).0;
            let back = movement.negated();
            &&& there.plus(back).within(LIMIT / 8)
            &&& crosses_once(pair, there, back)
            &&& pair.passage(point, point.plus(movement)) matches Some((_, exit)) && pair.passage(
                there,
                there.plus(back),
            ) matches Some((entry, _)) && entry == exit
        }),
    ensures
        ({
            let arrival = g.travel(point, movement);
            let home = g.travel(arrival.0, arrival.1.negated());
            let k = 2 * (g.portals[0].a.delta().slack() + 2);
            &&& arrival.1 == movement
            &&& home.1 == movement.negated()
            &&& -k <= home.0.x - point.x <= k
            &&& -k <= home.0.y - point.y <= k
        }),
{
    let pair = g.portals[0];
    let back = movement.negated();
    lemma_step_of_one_crossing(g, point, movement);
    lemma_twin_crossing_stays_in_range(pair, point, movement, movement);
    lemma_twin_crossing_keeps_velocity(pair, point, movement, movement);
    let there = g.travel(point, movement).0;
    lemma_step_of_one_crossing(g, there, back);
    lemma_twin_crossing_stays_in_range(pair, there, back, back);
    lemma_twin_round_trip(pair, point, movement);
}

/// What a sequence of regions stands for.
pub open spec fn cells_of(data: Seq<Region>) -> Seq<Cell> {
    data.map_values(|r: Region| r@)
}

/// What a sequence of portal pairs stands for.
pub open spec fn pairs_of(portals: Seq<PortalSet>) -> Seq<SegmentPair> {
    portals.map_values(|p: PortalSet| p@)
}

/// Replacing one region replaces the cell it stands for, and no other.
proof fn lemma_cells_of_update(data: Seq<Region>, i: int)
    requires
        0 <= i < data.len(),
    ensures
        forall|r: Region| #[trigger]
            cells_of(data.update(i, r)) == cells_of(data).update(i, r@),
{
    assert forall|r: Region| #[trigger]
        cells_of(data.update(i, r)) == cells_of(data).update(i, r@) by {
        assert(cells_of(data.update(i, r)) =~= cells_of(data).update(i, r@));
    }
}

/// A rectangle of cells with the portal pairs attached to it.
#[derive(Debug)]
pub struct Universe {
    width: u32,
    height: u32,
    portals: Vec<PortalSet>,
    data: Vec<Region>,
}

impl View for Universe {
    type V = Grid;

    closed spec fn view(&self) -> Grid {
        Grid {
            width: self.width as int,
            height: self.height as int,
            portals: pairs_of(self.portals@),
            cells: cells_of(self.data@),
        }
    }
}

impl Clone for Universe {
    /// A copy of the universe.
    fn clone(&self) -> (r: Universe)
        ensures
            r@ == self@,
    {
        proof {
            use_type_invariant(self);
        }
        let r = Universe {
            width: self.width,
            height: self.height,
            portals: self.portals.clone(),
            data: self.data.clone(),
        };
        assert(r.portals@ =~= self.portals@);
        assert(r.data@ =~= self.data@);
        r
    }
}

impl Universe {
    /// A universe always has a cell for each pair of a column and a row.
    #[verifier::type_invariant]
    pub closed spec fn wf(self) -> bool {
        self@.wf()
    }

    /// A grid of `width` columns and `height` rows of blank cells, without
    /// portals. Refused when it would have no cell, or more cells than the
    /// machine can count.
    pub fn new(width: u32, height: u32) -> (r: Result<Universe, ConfigError>)
        ensures
            match r {
                Ok(u) => width > 0 && height > 0 && width * height <= usize::MAX && u@
                    == Grid::blank(width as int, height as int),
                Err(e) => if width == 0 || height == 0 {
                    e == ConfigError::EmptyGrid
                } else {
                    e == ConfigError::GridTooLarge && width * height > usize::MAX
                },
            },
    {
        if width == 0 || height == 0 {
            return Err(ConfigError::EmptyGrid);
        }
        assert(width * height <= u64::MAX) by (nonlinear_arith)
            requires
                width <= u32::MAX,
                height <= u32::MAX,
        ;
        let total: u64 = (width as u64) * (height as u64);
        if total > usize::MAX as u64 {
            return Err(ConfigError::GridTooLarge);
        }
        let n: usize = total as usize;
        let mut data: Vec<Region> = Vec::new();
        let mut i: usize = 0;
        while i < n
            invariant
                i <= n,
                data@.len() == i,
                forall|j: int| 0 <= j < i ==> (#[trigger] data@[j])@ == Cell::blank(),
            decreases n - i,
        {
            data.push(Region::default());
            i += 1;
        }
        let u = Universe { width, height, portals: Vec::new(), data };
        assert(u@.cells =~= Grid::blank(width as int, height as int).cells);
        assert(u@.portals =~= Seq::empty());
        Ok(u)
    }

    /// The number of columns.
    pub fn width(&self) -> (r: u32)
        ensures
            r == self@.width,
            self@.wf(),
    {
        proof {
            use_type_invariant(self);
        }
        self.width
    }

    /// The number of rows.
    pub fn height(&self) -> (r: u32)
        ensures
            r == self@.height,
            self@.wf(),
    {
        proof {
            use_type_invariant(self);
        }
        self.height
    }

    /// The place in `data` of the cell in column `x` of row `y`.
    fn slot(&self, x: u32, y: u32) -> (r: usize)
        requires
            x < self@.width,
            y < self@.height,
        ensures
            r == self@.slot(x as int, y as int),
            r < self.data@.len(),
            self@.wf(),
    {
        proof {
            use_type_invariant(self);
            lemma_slot_in_range(self@, x as int, y as int);
            assert(self.data@.len() == self.width * self.height);
            assert(self.data.len() == self.data@.len());
            assert(0 <= y * self.width <= self.width * self.height - self.width)
                by (nonlinear_arith)
                requires
                    0 <= y < self.height,
                    0 <= self.width,
            ;
        }
        x as usize + (y as usize) * (self.width as usize)
    }

    /// The region in column `x` of row `y`, if the grid has it.
    pub fn index(&self, x: u32, y: u32) -> (r: Option<&Region>)
        ensures
            match r {
                Some(region) => x < self@.width && y < self@.height && region@
                    == self@.cells[self@.slot(x as int, y as int)],
                None => !(x < self@.width && y < self@.height),
            },
    {
        if x < self.width && y < self.height {
            let i = self.slot(x, y);
            Some(&self.data[i])
        } else {
            None
        }
    }

    /// The region in column `x` of row `y` for writing, if the grid has it.
    pub fn index_mut(&mut self, x: u32, y: u32) -> (r: Option<&mut Region>)
        ensures
            match r {
                Some(region) => x < old(self)@.width && y < old(self)@.height && (*region)@
                    == old(self)@.cells[old(self)@.slot(x as int, y as int)] && final(self)@
                    == old(self)@.with_cell(
                    old(self)@.slot(x as int, y as int),
                    (*final(region))@,
                ),
                None => !(x < old(self)@.width && y < old(self)@.height) && final(self)@ == old(
                    self,
                )@,
            },
    {
        if x < self.width && y < self.height {
            let i = self.slot(x, y);
            proof {
                lemma_cells_of_update(self.data@, i as int);
            }
            Some(&mut self.data[i])
        } else {
            None
        }
    }

    /// The place in `data` of the cell that holds `point`.
    fn slot_of(&self, point: Point) -> (r: usize)
        requires
            self@.contains(point@),
        ensures
            r == self@.slot_of(point@),
            r < self.data@.len(),
            self@.wf(),
    {
        proof {
            use_type_invariant(self);
            lemma_contained_cell(self@, point@);
        }
        let x: i64 = point.x.raw();
        let y: i64 = point.y.raw();
        self.slot((x / SCALE) as u32, (y / SCALE) as u32)
    }

    /// The cell that holds `point`, if the point lies in the grid.
    pub fn get_from_point(&self, point: Point) -> (r: Option<Element>)
        ensures
            match r {
                Some(e) => self@.contains(point@) && e@ == self@.cells[self@.slot_of(point@)],
                None => !self@.contains(point@),
            },
    {
        if !point.is_inside(self) {
            return None;
        }
        let i = self.slot_of(point);
        self.data[i].element()
    }

    /// The cell that holds `point` for writing, if the point lies in the grid.
    pub fn get_from_point_mut(&mut self, point: Point) -> (r: Option<&mut Element>)
        ensures
            match r {
                Some(e) => old(self)@.contains(point@) && (*e)@
                    == old(self)@.cells[old(self)@.slot_of(point@)] && final(self)@
                    == old(self)@.with_cell(old(self)@.slot_of(point@), (*final(e))@),
                None => !old(self)@.contains(point@) && final(self)@ == old(self)@,
            },
    {
        if !point.is_inside(self) {
            return None;
        }
        let i = self.slot_of(point);
        proof {
            lemma_cells_of_update(self.data@, i as int);
        }
        self.data[i].element_mut()
    }

    /// Attaches one more portal pair.
    pub fn add_portal_set(&mut self, portal: PortalSet)
        ensures
            final(self)@ == old(self)@.with_portals(portal@),
    {
        proof {
            use_type_invariant(&*self);
        }
        let mut portals = self.portals.clone();
        portals.push(portal);
        self.portals = portals;
        assert(self@.portals =~= old(self)@.with_portals(portal@).portals);
    }

    /// Moves a particle at `point` by one step `movement`, through the portals
    /// where the step crosses them. Returns where it arrives and its velocity.
    pub fn move_in_universe(&self, point: Point, movement: Point) -> (r: (Point, Point))
        ensures
            (r.0@, r.1@) == self@.travel(point@, movement@),
    {
        reveal(Grid::travel);
        if self.portals.len() == 0 {
            return (point + movement, movement);
        }
        let pair: PortalSet = self.portals[0];
        let mut position = point;
        let mut speed = movement;
        let mut rest = movement;
        let mut budget: u32 = MAX_CROSSINGS;
        loop
            invariant
                carry(pair@, position@, speed@, rest@, budget as nat) == self@.travel(
                    point@,
                    movement@,
                ),
            decreases budget,
        {
            match pair.cross(position, speed, rest) {
                None => {
                    return (position + rest, speed);
                },
                Some((exit, velocity, left)) => {
                    if left.magnitude_2().raw() <= SCALE {
                        return (exit + left, velocity);
                    }
                    if budget == 0 {
                        return (exit, velocity);
                    }
                    position = exit;
                    speed = velocity;
                    rest = left;
                    budget = budget - 1;
                },
            }
        }
    }

    /// A copy of the rectangle of `width` columns and `height` rows whose
    /// first cell is in column `x` of row `y`, without the portals. Refused
    /// when the rectangle has no cell or does not lie within the grid.
    pub fn section(&self, x: u32, y: u32, width: u32, height: u32) -> (r: Option<Universe>)
        ensures
            match r {
                Some(u) => self@.holds(x as int, y as int, width as int, height as int) && u@
                    == self@.section(x as int, y as int, width as int, height as int),
                None => !self@.holds(x as int, y as int, width as int, height as int),
            },
    {
        proof {
            use_type_invariant(self);
        }
        if width == 0 || height == 0 || x as u64 + width as u64 > self.width as u64 || y as u64
            + height as u64 > self.height as u64 {
            return None;
        }
        assert(width * height <= self.width * self.height) by (nonlinear_arith)
            requires
                0 < width <= self.width,
                0 < height <= self.height,
        ;
        assert(self.data.len() == self.data@.len());
        let n: usize = (width as usize) * (height as usize);
        let mut data: Vec<Region> = Vec::new();
        let mut k: usize = 0;
        while k < n
            invariant
                k <= n,
                n == width * height,
                0 < width,
                0 < height,
                x + width <= self.width,
                y + height <= self.height,
                data@.len() == k,
                forall|j: int|
                    0 <= j < k ==> (#[trigger] data@[j])@ == self@.cells[self@.slot(
                        x + j % (width as int),
                        y + j / (width as int),
                    )],
            decreases n - k,
        {
            let column: usize = k % (width as usize);
            let row: usize = k / (width as usize);
            assert(row < height) by (nonlinear_arith)
                requires
                    row == k / (width as usize),
                    k < width * height,
                    0 < width,
            ;
            let i = self.slot(x + column as u32, y + row as u32);
            data.push(self.data[i]);
            k += 1;
        }
        let u = Universe { width, height, portals: Vec::new(), data };
        assert(u@.cells =~= self@.section(x as int, y as int, width as int, height as int).cells);
        assert(u@.portals =~= Seq::empty());
        Some(u)
    }

    /// The attached portal pairs, oldest first.
    pub fn portals(&self) -> (r: &Vec<PortalSet>)
        ensures
            pairs_of(r@) == self@.portals,
    {
        &self.portals
    }
}

impl Point {
    /// Whether the point lies in one of the cells of `universe`.
    pub fn is_inside(&self, universe: &Universe) -> (r: bool)
        ensures
            r == universe@.contains(self@),
    {
        let x: i128 = self.x.raw() as i128;
        let y: i128 = self.y.raw() as i128;
        let w: i128 = universe.width() as i128;
        let h: i128 = universe.height() as i128;
        assert(w * SCALE <= i128::MAX && h * SCALE <= i128::MAX) by (nonlinear_arith)
            requires
                0 <= w <= u32::MAX,
                0 <= h <= u32::MAX,
                SCALE == 1073741824,
        ;
        0 <= x && x < w * (SCALE as i128) && 0 <= y && y < h * (SCALE as i128)
    }
}

} // verus!
