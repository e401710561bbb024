//! The simulation state and the per-tick pipeline.

use crate::grid::{
    in_bounds, in_bounds_spec, step_spec, Direction, Position, ARENA_HEIGHT, ARENA_WIDTH,
};
use vstd::arithmetic::div_mod::{lemma_fundamental_div_mod, lemma_fundamental_div_mod_converse};
use vstd::prelude::*;
use vstd::relations::injective_on;
use vstd::set_lib::{lemma_int_range, lemma_map_size, set_int_range};

verus! {

/// The tail cell vacated by the most recent movement, where a new segment is
/// appended when the snake grows. Overwritten on every movement.
#[derive(Debug, Copy, Clone)]
pub struct LastTailPosition(pub Option<Position>);

/// Relies on rand::random: a value drawn from the thread-local generator.
/// Nothing is promised of which value comes back.
pub assume_specification<T>[ rand::random::<T> ]() -> (r: T)
    where
        rand::distributions::Standard: rand::distributions::Distribution<T>,
;

/// A uniformly drawn candidate cell of the arena.
fn random_position() -> (p: Position)
    ensures
        in_bounds_spec(p),
{
    let x: u32 = rand::random::<u32>() % ARENA_WIDTH;
    let y: u32 = rand::random::<u32>() % ARENA_HEIGHT;
    Position(x as i32, y as i32)
}

/// Whether `v` holds the position `p`.
pub fn contains_position(v: &Vec<Position>, p: Position) -> (r: bool)
    ensures
        r == v@.contains(p),
{
    let mut i: usize = 0;
    while i < v.len()
        invariant
            0 <= i <= v@.len(),
            forall|k: int| 0 <= k < i ==> v@[k] != p,
        decreases v@.len() - i,
    {
        if v[i] == p {
            return true;
        }
        i = i + 1;
    }
    false
}

/// How many random draws food placement makes before it falls back to a
/// deterministic sweep of the arena.
pub const FOOD_SAMPLE_ATTEMPTS: u32 = 1000;

/// The cell of the arena with index `i`, counting along rows.
pub open spec fn cell_of(i: int) -> Position {
    Position((i % (ARENA_WIDTH as int)) as i32, (i / (ARENA_WIDTH as int)) as i32)
}

/// Pigeonhole: a duplicate-free sequence of arena cells that is not exactly
/// as long as the arena cannot hold every cell, so some indexed cell is
/// missing from it.
proof fn lemma_not_full_misses_a_cell(s: Seq<Position>)
    requires
        s.no_duplicates(),
        forall|k: int| 0 <= k < s.len() ==> in_bounds_spec(#[trigger] s[k]),
        s.len() != ARENA_WIDTH * ARENA_HEIGHT,
    ensures
        exists|i: int|
            0 <= i < ARENA_WIDTH * ARENA_HEIGHT && !s.contains(#[trigger] cell_of(i)),
{
    let total = (ARENA_WIDTH * ARENA_HEIGHT) as int;
    let w = ARENA_WIDTH as int;
    if forall|i: int| 0 <= i < total ==> s.contains(#[trigger] cell_of(i)) {
        let f = |i: int| cell_of(i);
        let idxs = set_int_range(0, total);
        let cells = idxs.map(f);
        lemma_int_range(0, total);
        assert(injective_on(f, idxs)) by {
            assert forall|i: int, j: int|
                idxs.contains(i) && idxs.contains(j) && #[trigger] f(i) == #[trigger] f(j)
                implies i == j by {
                lemma_fundamental_div_mod(i, w);
                lemma_fundamental_div_mod(j, w);
            }
        }
        lemma_map_size(idxs, cells, f);
        assert forall|p: Position| cells.contains(p) implies s.to_set().contains(p) by {
            let i = choose|i: int| idxs.contains(i) && f(i) == p;
            assert(s.contains(p));
        }
        assert forall|p: Position| s.to_set().contains(p) implies cells.contains(p) by {
            let k = choose|k: int| 0 <= k < s.len() && s[k] == p;
            assert(in_bounds_spec(p));
            let i = p.1 * w + p.0;
            lemma_fundamental_div_mod_converse(i, w, p.1 as int, p.0 as int);
            assert(f(i) == p);
            assert(idxs.contains(i));
        }
        assert(cells =~= s.to_set());
        s.unique_seq_to_set();
        assert(s.len() == total);
        assert(false);
    }
}

/// Food placement: a cell of the arena not held by `occupied`, or `None` when
/// `occupied` already fills the arena.
///
/// The full-arena case is recognised up front by count, so it is a non-error
/// no-op rather than a failure. Otherwise a bounded number of uniformly
/// random candidates is drawn, rejecting occupied ones; if every draw is
/// rejected, a deterministic sweep of the arena finds a free cell, so
/// placement always terminates.
pub fn spawn_food(occupied: &Vec<Position>) -> (r: Option<Position>)
    requires
        occupied@.no_duplicates(),
        forall|k: int| 0 <= k < occupied@.len() ==> in_bounds_spec(#[trigger] occupied@[k]),
    ensures
        r is None <==> occupied@.len() == ARENA_WIDTH * ARENA_HEIGHT,
        (match r {
            Some(p) => in_bounds_spec(p) && !occupied@.contains(p),
            None => true,
        }),
{
    if occupied.len() == (ARENA_WIDTH * ARENA_HEIGHT) as usize {
        return None;
    }
    let mut attempts: u32 = 0;
    while attempts < FOOD_SAMPLE_ATTEMPTS
        invariant
            occupied@.len() != ARENA_WIDTH * ARENA_HEIGHT,
        decreases FOOD_SAMPLE_ATTEMPTS - attempts,
    {
        let candidate = random_position();
        if !contains_position(occupied, candidate) {
            return Some(candidate);
        }
        attempts = attempts + 1;
    }
    let mut idx: u32 = 0;
    while idx < ARENA_WIDTH * ARENA_HEIGHT
        invariant
            occupied@.no_duplicates(),
            forall|k: int| 0 <= k < occupied@.len() ==> in_bounds_spec(#[trigger] occupied@[k]),
            occupied@.len() != ARENA_WIDTH * ARENA_HEIGHT,
            0 <= idx <= ARENA_WIDTH * ARENA_HEIGHT,
            forall|i: int| 0 <= i < idx ==> occupied@.contains(#[trigger] cell_of(i)),
        decreases ARENA_WIDTH * ARENA_HEIGHT - idx,
    {
        let candidate = Position((idx % ARENA_WIDTH) as i32, (idx / ARENA_WIDTH) as i32);
        assert(candidate == cell_of(idx as int));
        assert(in_bounds_spec(candidate)) by {
            lemma_fundamental_div_mod(idx as int, ARENA_WIDTH as int);
        }
        if !contains_position(occupied, candidate) {
            return Some(candidate);
        }
        idx = idx + 1;
    }
    proof {
        lemma_not_full_misses_a_cell(occupied@);
        assert(false);
    }
    None
}

/// The segment cells after one movement step: the head advances one cell in
/// direction `d`, and every other segment takes the cell just vacated by the
/// segment ahead of it.
pub open spec fn moved_spec(s: Seq<Position>, d: Direction) -> Seq<Position> {
    Seq::new(s.len(), |i: int| if i == 0 { step_spec(s[0], d) } else { s[i - 1] })
}

/// The head shares a cell with some other segment.
pub open spec fn self_collision(s: Seq<Position>) -> bool {
    exists|i: int| 1 <= i < s.len() && #[trigger] s[i] == s[0]
}

/// Moving out of `s` along `d` ends the round: the new head lands on another
/// segment's new cell, or leaves the arena.
pub open spec fn movement_game_over(s: Seq<Position>, d: Direction) -> bool {
    self_collision(moved_spec(s, d)) || !in_bounds_spec(moved_spec(s, d)[0])
}

/// The heading that results from requesting `requested` while the snake
/// heads `current`: a reversal is refused, anything else is taken.
pub open spec fn spec_apply_heading(current: Direction, requested: Direction) -> Direction {
    if current == requested.opposite_spec() {
        current
    } else {
        requested
    }
}

/// Law: requesting the opposite of the current heading never changes it, so
/// the snake can never be turned back onto its own neck.
pub proof fn lemma_reversal_refused(h: Direction)
    ensures
        spec_apply_heading(h, h.opposite_spec()) == h,
{
}

/// What an entity of the simulation is, for a renderer reading the state.
#[derive(Debug, Copy, Clone, PartialEq, Eq, Structural)]
pub enum EntityKind {
    Head,
    Segment,
    Food,
}

/// What one tick reported: whether food was eaten (a growth event) and
/// whether the round ended and was reset (a game-over event). All events of
/// a tick collapse into these two flags; a reset discards in-flight growth.
pub struct TickOutcome {
    pub growth: bool,
    pub reset: bool,
}

/// The whole simulation state between ticks: the snake's segments from head
/// to tail, its heading, the food cell if any, and the scratch tail record.
pub struct Game {
    pub segments: Vec<Position>,
    pub heading: Direction,
    pub food: Option<Position>,
    pub last_tail: LastTailPosition,
}

impl Game {
    /// The ordered segment cells, index 0 the head.
    pub open spec fn segs(self) -> Seq<Position> {
        self.segments@
    }

    /// Every segment lies inside the arena.
    pub open spec fn segments_in_bounds(self) -> bool {
        forall|i: int| 0 <= i < self.segs().len() ==> in_bounds_spec(#[trigger] self.segs()[i])
    }

    /// No two distinct segments hold the same cell.
    pub open spec fn distinct_segments(self) -> bool {
        forall|i: int, j: int|
            0 <= i < j < self.segs().len() ==> self.segs()[i] != self.segs()[j]
    }

    /// The food cell, when present, lies inside the arena and on no segment.
    pub open spec fn food_disjoint(self) -> bool {
        match self.food {
            Some(p) => in_bounds_spec(p) && !self.segs().contains(p),
            None => true,
        }
    }

    /// The invariant of every state observable between ticks: at least two
    /// segments, all inside the arena, pairwise distinct, and food disjoint
    /// from all of them.
    pub open spec fn well_formed(self) -> bool {
        &&& self.segs().len() >= 2
        &&& self.segments_in_bounds()
        &&& self.distinct_segments()
        &&& self.food_disjoint()
    }

    /// The starting segment cells: head and one body segment.
    pub open spec fn initial_segments() -> Seq<Position> {
        seq![Position(5, 3), Position(5, 2)]
    }

    /// A fresh round: the two starting segments, heading Up, and one food
    /// cell drawn disjoint from them.
    pub fn snake_spawner() -> (g: Game)
        ensures
            g.segs() == Game::initial_segments(),
            g.heading == Direction::Up,
            g.food is Some,
            g.last_tail.0 is None,
            g.well_formed(),
    {
        let mut segments: Vec<Position> = Vec::new();
        segments.push(Position(5, 3));
        segments.push(Position(5, 2));
        proof {
            assert(segments@.no_duplicates());
            assert(forall|k: int|
                0 <= k < segments@.len() ==> in_bounds_spec(#[trigger] segments@[k]));
        }
        let food = spawn_food(&segments);
        let g = Game {
            segments,
            heading: Direction::Up,
            food,
            last_tail: LastTailPosition(None),
        };
        proof {
            assert(g.segs() =~= Game::initial_segments());
        }
        g
    }

    /// Round reset on game over: every segment and the food are discarded and
    /// the starting configuration is respawned. The reset is atomic: no caller
    /// can observe a partially rebuilt state. The scratch tail record is left
    /// as it was.
    pub fn game_over(&mut self)
        ensures
            final(self).segs() == Game::initial_segments(),
            final(self).heading == Direction::Up,
            final(self).food is Some,
            final(self).well_formed(),
            final(self).last_tail.0 == old(self).last_tail.0,
    {
        let fresh = Game::snake_spawner();
        self.segments = fresh.segments;
        self.heading = fresh.heading;
        self.food = fresh.food;
    }

    /// Input filter: take the requested heading unless it is the opposite of
    /// the current one, which would reverse the snake into itself. Movement,
    /// food and the scratch tail record are untouched.
    pub fn apply_heading(&mut self, requested: Direction)
        ensures
            final(self).heading == spec_apply_heading(old(self).heading, requested),
            final(self).segs() == old(self).segs(),
            final(self).food == old(self).food,
            final(self).last_tail.0 == old(self).last_tail.0,
    {
        if !(self.heading == requested.opposite()) {
            self.heading = requested;
        }
    }

    /// Movement Engine: advance the snake one cell along its heading. The
    /// head steps forward; every other segment takes the cell of the segment
    /// ahead of it; the vacated tail cell is recorded for growth. Returns
    /// whether this movement ends the round (self-collision or out of
    /// bounds). Segment count is always preserved, and distinct segments
    /// stay distinct unless the round ends.
    pub fn snake_movement(&mut self) -> (game_over: bool)
        requires
            old(self).segs().len() >= 2,
            old(self).segments_in_bounds(),
        ensures
            final(self).segs() == moved_spec(old(self).segs(), old(self).heading),
            final(self).segs().len() == old(self).segs().len(),
            final(self).heading == old(self).heading,
            final(self).food == old(self).food,
            final(self).last_tail.0 == Some(old(self).segs().last()),
            game_over == movement_game_over(old(self).segs(), old(self).heading),
            old(self).distinct_segments() && !game_over ==> final(self).distinct_segments(),
            !game_over ==> final(self).segments_in_bounds(),
    {
        let ghost prior = self.segments@;
        let ghost d = self.heading;
        let n = self.segments.len();
        let tail = self.segments[n - 1];
        self.last_tail = LastTailPosition(Some(tail));
        let mut i: usize = n - 1;
        while i >= 1
            invariant
                2 <= n,
                n == self.segments@.len(),
                0 <= i <= n - 1,
                self.heading == d,
                self.food == old(self).food,
                self.last_tail.0 == Some(prior.last()),
                prior == old(self).segs(),
                forall|k: int| 0 <= k <= i ==> self.segments@[k] == prior[k],
                forall|k: int| i < k < n ==> self.segments@[k] == prior[k - 1],
            decreases i,
        {
            let ahead = self.segments[i - 1];
            self.segments.set(i, ahead);
            i = i - 1;
        }
        let head = self.segments[0];
        proof {
            assert(head == prior[0]);
            assert(in_bounds_spec(prior[0]));
        }
        let (dx, dy) = self.heading.delta();
        let new_head = Position(head.0 + dx, head.1 + dy);
        self.segments.set(0, new_head);
        let ghost moved = moved_spec(prior, d);
        proof {
            assert(self.segments@ =~= moved);
        }
        let mut over = !in_bounds(new_head);
        let mut j: usize = 1;
        while j < n
            invariant
                2 <= n,
                n == self.segments@.len(),
                1 <= j <= n,
                self.segments@ == moved,
                new_head == moved[0],
                self.heading == d,
                self.food == old(self).food,
                self.last_tail.0 == Some(prior.last()),
                over == (!in_bounds_spec(new_head) || exists|k: int|
                    1 <= k < j && moved[k] == new_head),
            decreases n - j,
        {
            if self.segments[j] == new_head {
                over = true;
            }
            j = j + 1;
        }
        proof {
            assert(over == movement_game_over(prior, d));
            if old(self).distinct_segments() && !over {
                assert forall|a: int, b: int|
                    0 <= a < b < n implies self.segments@[a] != self.segments@[b] by {
                    if a == 0 {
                        assert(moved[b] == prior[b - 1]);
                        if moved[0] == moved[b] {
                            assert(self_collision(moved));
                        }
                    } else {
                        assert(moved[a] == prior[a - 1]);
                        assert(moved[b] == prior[b - 1]);
                    }
                }
            }
            if !over {
                assert forall|k: int|
                    0 <= k < n implies in_bounds_spec(#[trigger] self.segments@[k]) by {
                    if k > 0 {
                        assert(moved[k] == prior[k - 1]);
                    }
                }
            }
        }
        over
    }

    /// Eating Detection: after movement, the head is compared against the
    /// food cell; on a match the food is despawned and a growth event is
    /// reported. Nothing else changes.
    pub fn snake_eating(&mut self) -> (ate: bool)
        requires
            old(self).segs().len() >= 1,
        ensures
            ate == (old(self).food == Some(old(self).segs()[0])),
            ate ==> final(self).food is None,
            !ate ==> final(self).food == old(self).food,
            final(self).segs() == old(self).segs(),
            final(self).heading == old(self).heading,
            final(self).last_tail.0 == old(self).last_tail.0,
    {
        match self.food {
            Some(f) => {
                let head = self.segments[0];
                if f == head {
                    self.food = None;
                    true
                } else {
                    false
                }
            },
            None => false,
        }
    }

    /// Growth/Reset Controller, growth half: on a growth event the snake
    /// gains exactly one segment, appended at the cell the tail vacated this
    /// tick, and replacement food is drawn disjoint from the grown snake
    /// (`None` only when the grown snake fills the arena).
    pub fn snake_growth(&mut self)
        requires
            old(self).last_tail.0 is Some,
            in_bounds_spec(old(self).last_tail.0->Some_0),
            !old(self).segs().contains(old(self).last_tail.0->Some_0),
            old(self).distinct_segments(),
            old(self).segments_in_bounds(),
        ensures
            final(self).segs() == old(self).segs().push(old(self).last_tail.0->Some_0),
            final(self).segs().len() == old(self).segs().len() + 1,
            final(self).heading == old(self).heading,
            final(self).last_tail.0 == old(self).last_tail.0,
            final(self).food is None <==> old(self).segs().len() + 1 == ARENA_WIDTH
                * ARENA_HEIGHT,
            final(self).food_disjoint(),
            final(self).distinct_segments(),
            final(self).segments_in_bounds(),
    {
        let ghost prior = self.segments@;
        let cell = self.last_tail.0.unwrap();
        self.segments.push(cell);
        proof {
            assert(self.segments@ == prior.push(cell));
            assert forall|a: int, b: int|
                0 <= a < b < self.segments@.len() implies self.segments@[a]
                != self.segments@[b] by {
                if b < prior.len() {
                    assert(self.segments@[a] == prior[a] && self.segments@[b] == prior[b]);
                } else {
                    assert(self.segments@[b] == cell && self.segments@[a] == prior[a]);
                    assert(prior.contains(prior[a]));
                }
            }
            assert(self.segments@.no_duplicates());
            assert(forall|k: int|
                0 <= k < self.segments@.len() ==> in_bounds_spec(#[trigger] self.segments@[k]));
        }
        self.food = spawn_food(&self.segments);
    }

    /// One full simulation tick: movement, collision and bounds check,
    /// eating detection, then growth or round reset. A game-over event takes
    /// precedence over a growth event. The state is well formed again when
    /// the tick returns: no partial state is ever observable between ticks.
    pub fn tick(&mut self) -> (out: TickOutcome)
        requires
            old(self).well_formed(),
        ensures
            final(self).well_formed(),
            out.reset == movement_game_over(old(self).segs(), old(self).heading),
            out.growth == (old(self).food == Some(
                moved_spec(old(self).segs(), old(self).heading)[0],
            )),
            out.growth ==> !out.reset,
            out.reset ==> final(self).segs() == Game::initial_segments()
                && final(self).heading == Direction::Up && final(self).food is Some,
            !out.reset ==> final(self).heading == old(self).heading
                && final(self).last_tail.0 == Some(old(self).segs().last()),
            !out.reset && !out.growth ==> final(self).segs() == moved_spec(
                old(self).segs(),
                old(self).heading,
            ) && final(self).food == old(self).food,
            out.growth ==> final(self).segs() == moved_spec(
                old(self).segs(),
                old(self).heading,
            ).push(old(self).segs().last()) && (final(self).food is None
                <==> old(self).segs().len() + 1 == ARENA_WIDTH * ARENA_HEIGHT),
    {
        let ghost prior = self.segments@;
        let ghost d = self.heading;
        let ghost prior_food = self.food;
        let ghost moved = moved_spec(prior, d);
        let over = self.snake_movement();
        let ate = self.snake_eating();
        proof {
            if ate {
                let p = moved[0];
                assert(in_bounds_spec(p));
                if self_collision(moved) {
                    let i = choose|i: int|
                        1 <= i < moved.len() && #[trigger] moved[i] == moved[0];
                    assert(moved[i] == prior[i - 1]);
                    assert(prior.contains(prior[i - 1]));
                    assert(false);
                }
                assert(!over);
            }
        }
        if over {
            self.game_over();
            TickOutcome { growth: ate, reset: true }
        } else if ate {
            proof {
                let t = prior.last();
                assert(prior.contains(prior[prior.len() - 1]));
                assert(in_bounds_spec(t));
                if moved.contains(t) {
                    let k = choose|k: int| 0 <= k < moved.len() && #[trigger] moved[k] == t;
                    if k == 0 {
                        assert(moved[0] == t);
                        assert(false);
                    } else {
                        assert(moved[k] == prior[k - 1]);
                        assert(prior[k - 1] == prior[prior.len() - 1]);
                        assert(false);
                    }
                }
            }
            self.snake_growth();
            TickOutcome { growth: true, reset: false }
        } else {
            proof {
                match prior_food {
                    Some(p) => {
                        assert(self.food == Some(p));
                        if self.segments@.contains(p) {
                            let k = choose|k: int|
                                0 <= k < moved.len() && #[trigger] moved[k] == p;
                            if k == 0 {
                                assert(ate);
                                assert(false);
                            } else {
                                assert(moved[k] == prior[k - 1]);
                                assert(prior.contains(prior[k - 1]));
                                assert(false);
                            }
                        }
                    },
                    None => {},
                }
            }
            TickOutcome { growth: false, reset: false }
        }
    }

    /// Read accessor: the ordered segment cells, head first.
    pub fn segment_positions(&self) -> (r: &Vec<Position>)
        ensures
            r@ == self.segs(),
    {
        &self.segments
    }

    /// Read accessor: the food cell, if any food is live.
    pub fn food_position(&self) -> (r: Option<Position>)
        ensures
            r == self.food,
    {
        self.food
    }

    /// Read accessor: the current heading.
    pub fn current_heading(&self) -> (r: Direction)
        ensures
            r == self.heading,
    {
        self.heading
    }

    /// Read accessor for rendering: every live entity with its kind and
    /// cell, in order: the head, the remaining segments, then the food if
    /// any is live.
    pub fn render_entities(&self) -> (r: Vec<(EntityKind, Position)>)
        requires
            self.segs().len() >= 1,
        ensures
            r@.len() == self.segs().len() + (if self.food is Some {
                1int
            } else {
                0int
            }),
            forall|i: int|
                0 <= i < self.segs().len() ==> #[trigger] r@[i] == (
                    if i == 0 {
                        EntityKind::Head
                    } else {
                        EntityKind::Segment
                    },
                    self.segs()[i],
                ),
            self.food is Some ==> r@.last() == (EntityKind::Food, self.food->Some_0),
    {
        let mut out: Vec<(EntityKind, Position)> = Vec::new();
        let mut i: usize = 0;
        while i < self.segments.len()
            invariant
                0 <= i <= self.segments@.len(),
                out@.len() == i,
                forall|k: int|
                    0 <= k < i ==> #[trigger] out@[k] == (
                        if k == 0 {
                            EntityKind::Head
                        } else {
                            EntityKind::Segment
                        },
                        self.segments@[k],
                    ),
            decreases self.segments@.len() - i,
        {
            let kind = if i == 0 {
                EntityKind::Head
            } else {
                EntityKind::Segment
            };
            let cell = self.segments[i];
            out.push((kind, cell));
            i = i + 1;
        }
        match self.food {
            Some(p) => {
                out.push((EntityKind::Food, p));
            },
            None => {},
        }
        out
    }
}

} // verus!
