//! The movement engine: one step of an agent along its route, and the way a
//! body of several segments follows its head.

use vstd::prelude::*;
use crate::arena::{step_ok, Arena, ArenaView};
use crate::cell::{adjacent, Kind, Occupancy, Position};
use crate::interaction::{edible, interaction_of, resolve, Interaction, Scoreboard};
use crate::planner::{cleared, Target, AI};

verus! {

/// One segment of a body: the entity that shows it, and the cell it is on.
#[derive(Clone, Copy, Debug, PartialEq, Eq, Structural)]
pub struct Segment {
    pub entity: u64,
    pub position: Position,
}

/// A body of one or more segments, head first and tail last.
pub struct Segmented {
    pub segments: Vec<Segment>,
}

/// The cells of a body form a chain: there is at least one, every segment is
/// on a cell next to that of the segment ahead of it or on the same cell, and
/// a cell that holds two segments holds all the segments from the first of
/// them to the tail. Segments share a cell only between a growth and the
/// move that follows it.
pub open spec fn is_chain(p: Seq<Position>) -> bool {
    &&& p.len() >= 1
    &&& forall|i: int| 1 <= i < p.len() ==> #[trigger] link_ok(p, i)
    &&& forall|i: int, j: int, m: int|
        0 <= i < j < p.len() && p[i] == p[j] && i <= m < p.len() ==> #[trigger] same_cell(p, i, j, m)
}

/// Segment `i` is next to the segment ahead of it, or on the same cell.
pub open spec fn link_ok(p: Seq<Position>, i: int) -> bool {
    adjacent(p[i - 1], p[i]) || p[i - 1] == p[i]
}

/// Segment `m` is on the cell of segment `i`.
pub open spec fn same_cell(p: Seq<Position>, i: int, j: int, m: int) -> bool {
    p[m] == p[i]
}

/// The body has grown and not moved since: its last two segments are on one
/// cell.
pub open spec fn pending_growth(p: Seq<Position>) -> bool {
    p.len() >= 2 && p[p.len() - 2] == p[p.len() - 1]
}

/// The cells of a body after its head went to `next`: each other segment is
/// where the one ahead of it was.
pub open spec fn shifted(p: Seq<Position>, next: Position) -> Seq<Position> {
    seq![next] + p.drop_last()
}

/// The arena after a body moved its head to `next`: the head's new cell is
/// held by `tag`, and the cell that the tail left is free, unless the body
/// had grown, in which case a segment is still on it.
pub open spec fn arena_after_shift(
    v: ArenaView,
    p: Seq<Position>,
    next: Position,
    tag: Occupancy,
) -> ArenaView {
    if pending_growth(p) {
        v.with(next, tag)
    } else {
        v.with(next, tag).without(p.last())
    }
}

/// Every cell of the body that lies inside the arena is recorded as held by
/// an occupant of the body's kind.
pub open spec fn holds(v: ArenaView, p: Seq<Position>, kind: Kind) -> bool {
    forall|i: int|
        0 <= i < p.len() && v.in_range(#[trigger] p[i]) ==> v.cells.contains_key(p[i])
            && v.cells[p[i]].spec_kind() == kind
}

/// The route leads on from `head`: every cell of it lies inside the arena,
/// and every step, the first one from `head`, leads to a neighbouring cell.
pub open spec fn route_ok(head: Position, path: Seq<Position>, v: ArenaView) -> bool {
    &&& forall|k: int| 0 <= k < path.len() ==> v.in_range(#[trigger] path[k])
    &&& forall|k: int| 0 <= k < path.len() ==> #[trigger] step_ok(seq![head] + path, k)
}

/// What a movement step came to.
#[derive(Clone, Copy, Debug, PartialEq, Eq, Structural)]
pub enum MoveOutcome {
    /// Nothing to do: the route is empty, or the arena ends here.
    Idle,
    /// The mover went to a free cell.
    Moved,
    /// The mover ate `victim`, scored and went to its cell. The eaten entity
    /// is to be removed; where `grow` is set, the mover asks for one more
    /// segment.
    Ate { victim: Occupancy, grow: bool },
    /// The cell is held by an occupant the mover cannot eat; the move was
    /// given up.
    Blocked(Occupancy),
}

/// The four directions of a step.
#[derive(Clone, Copy, Debug, PartialEq, Eq, Structural)]
pub enum Direction {
    Left,
    Up,
    Right,
    Down,
}

impl Direction {
    /// The change of the x coordinate by one step in this direction.
    pub open spec fn dx(self) -> int {
        match self {
            Direction::Left => -1,
            Direction::Right => 1,
            _ => 0,
        }
    }

    /// The change of the y coordinate by one step in this direction.
    pub open spec fn dy(self) -> int {
        match self {
            Direction::Up => 1,
            Direction::Down => -1,
            _ => 0,
        }
    }
}

/// The direction that the pressed arrow keys ask for: the one axis that is
/// pressed one way. Keys that cancel out, no key, and two axes at once ask
/// for none.
pub open spec fn keys_direction(left: bool, right: bool, up: bool, down: bool) -> Option<Direction> {
    let dx: int = (if right { 1int } else { 0 }) - (if left { 1int } else { 0 });
    let dy: int = (if up { 1int } else { 0 }) - (if down { 1int } else { 0 });
    if dx != 0 && dy != 0 {
        None
    } else if dx < 0 {
        Some(Direction::Left)
    } else if dy > 0 {
        Some(Direction::Up)
    } else if dx > 0 {
        Some(Direction::Right)
    } else if dy < 0 {
        Some(Direction::Down)
    } else {
        None
    }
}

/// The direction that the pressed arrow keys ask for, if any.
pub fn direction_of_keys(left: bool, right: bool, up: bool, down: bool) -> (d: Option<Direction>)
    ensures
        d == keys_direction(left, right, up, down),
{
    let mut delta_x: i32 = 0;
    let mut delta_y: i32 = 0;
    if left {
        delta_x -= 1;
    }
    if right {
        delta_x += 1;
    }
    if up {
        delta_y += 1;
    }
    if down {
        delta_y -= 1;
    }
    if delta_x != 0 && delta_y != 0 {
        return None;
    }
    if delta_x == 0 && delta_y == 0 {
        return None;
    }
    if delta_x < 0 {
        Some(Direction::Left)
    } else if delta_y > 0 {
        Some(Direction::Up)
    } else if delta_x > 0 {
        Some(Direction::Right)
    } else {
        Some(Direction::Down)
    }
}

/// A chain whose head goes to a neighbouring cell that the body is not on
/// stays a chain; and if the body had not grown, no segment is left on the
/// cell that the tail gave up.
pub proof fn lemma_shift_chain(p: Seq<Position>, next: Position)
    requires
        is_chain(p),
        adjacent(p[0], next),
        !p.contains(next),
    ensures
        is_chain(shifted(p, next)),
        shifted(p, next).len() == p.len(),
        pending_growth(p) <==> exists|i: int| 1 <= i < p.len() && #[trigger] p[i - 1] == p[i],
        !pending_growth(p) ==> !shifted(p, next).contains(p.last()),
{
    let q = shifted(p, next);
    let n = p.len() as int;
    assert(q[0] == next);
    assert forall|i: int| 1 <= i < n implies q[i] == p[i - 1] by {}
    assert forall|i: int| 1 <= i < q.len() implies #[trigger] link_ok(q, i) by {
        if i >= 2 {
            assert(link_ok(p, i - 1));
        }
    }
    assert forall|i: int, j: int, m: int|
        0 <= i < j < q.len() && q[i] == q[j] && i <= m < q.len() implies #[trigger] same_cell(
        q,
        i,
        j,
        m,
    ) by {
        if i == 0 {
            assert(p[j - 1] == next);
            assert(p.contains(next));
        } else {
            assert(same_cell(p, i - 1, j - 1, m - 1));
        }
    }
    if pending_growth(p) {
        let i = n - 1;
        assert(p[i - 1] == p[i]);
    }
    if exists|i: int| 1 <= i < p.len() && #[trigger] p[i - 1] == p[i] {
        let i = choose|i: int| 1 <= i < p.len() && #[trigger] p[i - 1] == p[i];
        assert(same_cell(p, i - 1, i, n - 1));
        assert(same_cell(p, i - 1, i, n - 2));
    }
    if !pending_growth(p) && q.contains(p.last()) {
        let k = choose|k: int| 0 <= k < q.len() && q[k] == p.last();
        if k == 0 {
            assert(p[n - 1] == next);
            assert(p.contains(next));
        } else {
            assert(same_cell(p, k - 1, n - 1, n - 2));
        }
    }
}

/// A chain with one more segment on the cell of its tail is a chain.
pub proof fn lemma_grow_chain(p: Seq<Position>)
    requires
        is_chain(p),
    ensures
        is_chain(p.push(p.last())),
        pending_growth(p.push(p.last())),
{
    let q = p.push(p.last());
    let n = p.len() as int;
    assert forall|i: int| 1 <= i < q.len() implies #[trigger] link_ok(q, i) by {
        if i < n {
            assert(link_ok(p, i));
        }
    }
    assert forall|i: int, j: int, m: int|
        0 <= i < j < q.len() && q[i] == q[j] && i <= m < q.len() implies #[trigger] same_cell(
        q,
        i,
        j,
        m,
    ) by {
        if j < n {
            assert(same_cell(p, i, j, if m < n { m } else { n - 1 }));
        } else if i < n - 1 {
            assert(same_cell(p, i, n - 1, if m < n { m } else { n - 1 }));
        }
    }
}

/// A route that was planned from `start` leads on from `start`.
pub proof fn lemma_route_leads_on(
    v: ArenaView,
    start: Position,
    goal: Position,
    path: Seq<Position>,
)
    requires
        cleared(v, start, goal).is_route(start, goal, path),
    ensures
        route_ok(start, path, v),
{
    assert forall|k: int| 0 <= k < path.len() implies v.in_range(#[trigger] path[k]) by {
        assert(cleared(v, start, goal).is_free(path[k]));
    }
}

/// What is left of a route after its first step still leads on, from the
/// cell that the step went to.
pub proof fn lemma_route_rest(head: Position, path: Seq<Position>, v: ArenaView)
    requires
        route_ok(head, path, v),
        path.len() > 0,
    ensures
        route_ok(path[0], path.skip(1), v),
        adjacent(head, path[0]),
        v.in_range(path[0]),
{
    let rest = path.skip(1);
    assert(step_ok(seq![head] + path, 0));
    assert forall|k: int| 0 <= k < rest.len() implies v.in_range(#[trigger] rest[k]) by {
        assert(rest[k] == path[k + 1]);
    }
    assert forall|k: int| 0 <= k < rest.len() implies #[trigger] step_ok(seq![path[0]] + rest, k) by {
        assert(step_ok(seq![head] + path, k + 1));
        assert((seq![path[0]] + rest)[k] == (seq![head] + path)[k + 1]);
        assert((seq![path[0]] + rest)[k + 1] == (seq![head] + path)[k + 2]);
    }
}

impl Segmented {
    /// The cells of the segments, head first.
    pub open spec fn positions(&self) -> Seq<Position> {
        self.segments@.map_values(|s: Segment| s.position)
    }

    /// The entities of the segments, head first.
    pub open spec fn entities(&self) -> Seq<u64> {
        self.segments@.map_values(|s: Segment| s.entity)
    }

    /// The cell of the head.
    pub fn head_position(&self) -> (p: Position)
        requires
            self.segments.len() > 0,
        ensures
            p == self.positions()[0],
    {
        self.segments[0].position
    }

    /// Moves the head to `next` and lets every other segment take the place
    /// of the one ahead of it. The head's new cell is recorded as held by
    /// `tag`; the cell that the tail leaves is freed, unless two segments
    /// shared a cell, as they do after a growth: then a segment is still on
    /// it.
    pub fn advance(&mut self, next: Position, tag: Occupancy, arena: &mut Arena)
        requires
            old(arena).wf(),
            is_chain(old(self).positions()),
            holds(old(arena)@, old(self).positions(), tag.spec_kind()),
            adjacent(old(self).positions()[0], next),
            old(arena)@.is_free(next),
        ensures
            final(arena).wf(),
            final(arena)@ == arena_after_shift(old(arena)@, old(self).positions(), next, tag),
            final(self).positions() == shifted(old(self).positions(), next),
            final(self).entities() == old(self).entities(),
            is_chain(final(self).positions()),
            holds(final(arena)@, final(self).positions(), tag.spec_kind()),
    {
        let ghost p = self.positions();
        let ghost v0 = arena@;
        let n = self.segments.len();
        proof {
            if p.contains(next) {
                let k = choose|k: int| 0 <= k < p.len() && p[k] == next;
                assert(v0.in_range(p[k]));
            }
            lemma_shift_chain(p, next);
        }
        arena.set(next.x, next.y, tag);
        let mut gap = next;
        let mut grown = false;
        let mut i: usize = 0;
        while i < n
            invariant
                n == self.segments.len(),
                n == p.len(),
                n == old(self).segments.len(),
                0 <= i <= n,
                old(self).positions() == p,
                forall|j: int|
                    0 <= j < n ==> (#[trigger] self.segments[j]).entity == old(self).segments[j].entity,
                forall|j: int|
                    0 <= j < i ==> (#[trigger] self.segments[j]).position == shifted(p, next)[j],
                forall|j: int| i <= j < n ==> (#[trigger] self.segments[j]).position == p[j],
                gap == (if i == 0 {
                    next
                } else {
                    p[i - 1]
                }),
                grown <==> exists|j: int| 1 <= j < i && #[trigger] p[j - 1] == p[j],
                !p.contains(next),
            decreases n - i,
        {
            let here = self.segments[i];
            proof {
                assert(shifted(p, next)[i as int] == gap);
                if i == 0 {
                    assert(p.contains(p[0]));
                }
            }
            self.segments.set(i, Segment { entity: here.entity, position: gap });
            if gap == here.position {
                grown = true;
            }
            gap = here.position;
            i += 1;
        }
        proof {
            assert(self.positions() =~= shifted(p, next));
            assert(self.entities() =~= old(self).entities());
            assert(gap == p.last());
        }
        if !grown {
            proof {
                assert(v0.in_range(p[n - 1]) ==> v0.cells.contains_key(p[n - 1]));
            }
            arena.unset(gap.x, gap.y);
        }
        proof {
            let q = shifted(p, next);
            let v2 = arena@;
            assert(v2 == arena_after_shift(v0, p, next, tag));
            assert forall|k: int| 0 <= k < q.len() && v2.in_range(#[trigger] q[k]) implies v2.cells.contains_key(
                q[k],
            ) && v2.cells[q[k]].spec_kind() == tag.spec_kind() by {
                assert(q.contains(q[k]));
                if k > 0 {
                    assert(q[k] == p[k - 1]);
                    assert(v0.in_range(p[k - 1]));
                }
            }
        }
    }
}

/// The body gets one more segment, shown by the entity `new_segment`, on the
/// cell of its tail. The move that follows leaves that segment where it is,
/// so that the body is one cell longer from then on.
pub fn grow_snake(segmented: &mut Segmented, new_segment: u64)
    requires
        old(segmented).segments.len() > 0,
    ensures
        final(segmented).positions() == old(segmented).positions().push(
            old(segmented).positions().last(),
        ),
        final(segmented).entities() == old(segmented).entities().push(new_segment),
        is_chain(old(segmented).positions()) ==> is_chain(final(segmented).positions()),
        pending_growth(final(segmented).positions()),
{
    let tail_position = segmented.segments[segmented.segments.len() - 1].position;
    segmented.segments.push(Segment { entity: new_segment, position: tail_position });
    proof {
        let p = old(segmented).positions();
        assert(segmented.positions() =~= p.push(p.last()));
        assert(segmented.entities() =~= old(segmented).entities().push(new_segment));
        if is_chain(p) {
            lemma_grow_chain(p);
        }
    }
}

/// The snake's head goes to `next_position` and its body follows.
pub fn move_snake_segments(
    snake: u64,
    next_position: Position,
    segments: &mut Segmented,
    arena: &mut Arena,
)
    requires
        old(arena).wf(),
        is_chain(old(segments).positions()),
        holds(old(arena)@, old(segments).positions(), Kind::Snake),
        adjacent(old(segments).positions()[0], next_position),
        old(arena)@.is_free(next_position),
    ensures
        final(arena).wf(),
        final(arena)@ == arena_after_shift(
            old(arena)@,
            old(segments).positions(),
            next_position,
            Occupancy::Snake(snake),
        ),
        final(segments).positions() == shifted(old(segments).positions(), next_position),
        final(segments).entities() == old(segments).entities(),
        is_chain(final(segments).positions()),
        holds(final(arena)@, final(segments).positions(), Kind::Snake),
{
    segments.advance(next_position, Occupancy::Snake(snake), arena);
}

/// What a movement step works on: the route and the target of the mover, the
/// cells of its body, the arena and the scoreboard.
pub struct StepState {
    pub path: Seq<Position>,
    pub target: Option<Target>,
    pub body: Seq<Position>,
    pub arena: ArenaView,
    pub board: Scoreboard,
}

/// One movement step of the mover whose cells are tagged `tag`, and which
/// asks to grow after a meal if `grows` is set.
///
/// With an empty route nothing happens. Otherwise the first cell of the
/// route is taken off it, and what that cell holds decides: onto a free cell
/// the body moves; an occupant the mover eats is removed and counted, and
/// then the body moves; any other occupant blocks, and the mover gives up
/// its route and target without moving.
pub open spec fn step_of(tag: Occupancy, grows: bool, s: StepState) -> (StepState, MoveOutcome) {
    if s.path.len() == 0 {
        (s, MoveOutcome::Idle)
    } else {
        let next = s.path[0];
        match interaction_of(tag.spec_kind(), s.arena.occupant(next)) {
            Interaction::Proceed => (
                StepState {
                    path: s.path.skip(1),
                    body: shifted(s.body, next),
                    arena: arena_after_shift(s.arena, s.body, next, tag),
                    ..s
                },
                MoveOutcome::Moved,
            ),
            Interaction::Consume(o) => (
                StepState {
                    path: s.path.skip(1),
                    body: shifted(s.body, next),
                    arena: arena_after_shift(s.arena.without(next), s.body, next, tag),
                    board: s.board.recorded(tag.spec_kind(), o.spec_kind()),
                    ..s
                },
                MoveOutcome::Ate { victim: o, grow: grows },
            ),
            Interaction::Block(o) => (
                StepState { path: Seq::empty(), target: None, ..s },
                MoveOutcome::Blocked(o),
            ),
        }
    }
}

/// The mongoose's head goes one step by `(delta_x, delta_y)` and its body
/// follows.
pub fn move_mongoose_segments(
    arena: &mut Arena,
    entity: u64,
    segmented: &mut Segmented,
    delta_x: i32,
    delta_y: i32,
)
    requires
        old(arena).wf(),
        is_chain(old(segmented).positions()),
        holds(old(arena)@, old(segmented).positions(), Kind::Mongoose),
        old(arena)@.is_free(
            Position {
                x: (old(segmented).positions()[0].x + delta_x) as i32,
                y: (old(segmented).positions()[0].y + delta_y) as i32,
            },
        ),
        (delta_x == 0 && (delta_y == 1 || delta_y == -1)) || (delta_y == 0 && (delta_x == 1
            || delta_x == -1)),
        old(arena)@.in_range(old(segmented).positions()[0]),
    ensures
        final(arena).wf(),
        final(arena)@ == arena_after_shift(
            old(arena)@,
            old(segmented).positions(),
            Position {
                x: (old(segmented).positions()[0].x + delta_x) as i32,
                y: (old(segmented).positions()[0].y + delta_y) as i32,
            },
            Occupancy::Mongoose(entity),
        ),
        final(segmented).positions() == shifted(
            old(segmented).positions(),
            Position {
                x: (old(segmented).positions()[0].x + delta_x) as i32,
                y: (old(segmented).positions()[0].y + delta_y) as i32,
            },
        ),
        final(segmented).entities() == old(segmented).entities(),
        is_chain(final(segmented).positions()),
        holds(final(arena)@, final(segmented).positions(), Kind::Mongoose),
{
    proof {
        arena.lemma_view_wf();
    }
    let head = segmented.head_position();
    let next = Position { x: head.x + delta_x, y: head.y + delta_y };
    segmented.advance(next, Occupancy::Mongoose(entity), arena);
}

/// The cell that a step of the mongoose in direction `d` leads to, or none
/// where the arena ends.
pub open spec fn mongoose_next(v: ArenaView, head: Position, d: Direction) -> Option<Position> {
    if (head.x == 0 && d == Direction::Left) || (head.y == v.height - 1 && d == Direction::Up) || (
    head.x == v.width - 1 && d == Direction::Right) || (head.y == 0 && d == Direction::Down) {
        None
    } else {
        Some(Position { x: (head.x + d.dx()) as i32, y: (head.y + d.dy()) as i32 })
    }
}

/// One step of the mongoose in the direction that the player asked for. At
/// the end of the arena nothing happens. Otherwise the step is that of
/// `step_of` onto the neighbouring cell: the mongoose moves onto a free
/// cell, eats a berry or a rat and moves, and is blocked by anything else.
pub fn move_mongoose(
    mongoose: u64,
    segments: &mut Segmented,
    direction: Direction,
    arena: &mut Arena,
    scoreboard: &mut Scoreboard,
) -> (outcome: MoveOutcome)
    requires
        old(arena).wf(),
        is_chain(old(segments).positions()),
        holds(old(arena)@, old(segments).positions(), Kind::Mongoose),
        old(arena)@.in_range(old(segments).positions()[0]),
        old(scoreboard).has_room(),
    ensures
        final(arena).wf(),
        is_chain(final(segments).positions()),
        holds(final(arena)@, final(segments).positions(), Kind::Mongoose),
        final(arena)@.in_range(final(segments).positions()[0]),
        final(segments).entities() == old(segments).entities(),
        ({
            let s = StepState {
                path: match mongoose_next(old(arena)@, old(segments).positions()[0], direction) {
                    Some(next) => seq![next],
                    None => Seq::empty(),
                },
                target: None,
                body: old(segments).positions(),
                arena: old(arena)@,
                board: *old(scoreboard),
            };
            let r = step_of(Occupancy::Mongoose(mongoose), false, s);
            &&& outcome == r.1
            &&& final(segments).positions() == r.0.body
            &&& final(arena)@ == r.0.arena
            &&& *final(scoreboard) == r.0.board
        }),
{
    proof {
        arena.lemma_view_wf();
    }
    let head = segments.head_position();
    let at_edge = match direction {
        Direction::Left => head.x == 0,
        Direction::Up => head.y == arena.height() - 1,
        Direction::Right => head.x == arena.width() - 1,
        Direction::Down => head.y == 0,
    };
    if at_edge {
        return MoveOutcome::Idle;
    }
    let (delta_x, delta_y): (i32, i32) = match direction {
        Direction::Left => (-1, 0),
        Direction::Up => (0, 1),
        Direction::Right => (1, 0),
        Direction::Down => (0, -1),
    };
    let x: i32 = head.x + delta_x;
    let y: i32 = head.y + delta_y;
    let ghost next = Position { x, y };
    proof {
        assert(seq![next][0] == next);
        assert(mongoose_next(old(arena)@, head, direction) == Some(next));
    }
    match resolve(Kind::Mongoose, arena.occ(x, y)) {
        Interaction::Proceed => {
            move_mongoose_segments(arena, mongoose, segments, delta_x, delta_y);
            MoveOutcome::Moved
        },
        Interaction::Consume(victim) => {
            arena.unset(x, y);
            proof {
                lemma_holds_without(old(arena)@, segments.positions(), Kind::Mongoose, next);
            }
            move_mongoose_segments(arena, mongoose, segments, delta_x, delta_y);
            scoreboard.record(Kind::Mongoose, victim.kind());
            MoveOutcome::Ate { victim, grow: false }
        },
        Interaction::Block(by) => MoveOutcome::Blocked(by),
    }
}

/// Freeing a cell that holds an occupant of another kind takes nothing from
/// a body.
pub proof fn lemma_holds_without(v: ArenaView, p: Seq<Position>, kind: Kind, cell: Position)
    requires
        holds(v, p, kind),
        v.cells.contains_key(cell),
        v.cells[cell].spec_kind() != kind,
    ensures
        holds(v.without(cell), p, kind),
        !p.contains(cell) || !v.in_range(cell),
{
    assert forall|i: int| 0 <= i < p.len() && v.without(cell).in_range(#[trigger] p[i]) implies v.without(
        cell,
    ).cells.contains_key(p[i]) && v.without(cell).cells[p[i]].spec_kind() == kind by {
        assert(v.in_range(p[i]));
    }
    if p.contains(cell) && v.in_range(cell) {
        let i = choose|i: int| 0 <= i < p.len() && p[i] == cell;
        assert(v.in_range(p[i]));
    }
}

/// One movement step of a snake along its route, as `step_of` says: with an
/// empty route nothing happens; onto a free cell the snake moves; a berry or
/// a rat it eats, scores, asks to grow, and moves; a snake or the mongoose
/// blocks it, and it gives up its route and target.
pub fn move_snake(
    snake: u64,
    ai: &mut AI,
    segments: &mut Segmented,
    arena: &mut Arena,
    scoreboard: &mut Scoreboard,
) -> (outcome: MoveOutcome)
    requires
        old(arena).wf(),
        is_chain(old(segments).positions()),
        holds(old(arena)@, old(segments).positions(), Kind::Snake),
        route_ok(old(segments).positions()[0], old(ai).path@, old(arena)@),
        old(scoreboard).has_room(),
    ensures
        final(arena).wf(),
        is_chain(final(segments).positions()),
        holds(final(arena)@, final(segments).positions(), Kind::Snake),
        route_ok(final(segments).positions()[0], final(ai).path@, final(arena)@),
        final(segments).entities() == old(segments).entities(),
        ({
            let s = StepState {
                path: old(ai).path@,
                target: old(ai).target,
                body: old(segments).positions(),
                arena: old(arena)@,
                board: *old(scoreboard),
            };
            let r = step_of(Occupancy::Snake(snake), true, s);
            &&& outcome == r.1
            &&& final(ai).path@ == r.0.path
            &&& final(ai).target == r.0.target
            &&& final(segments).positions() == r.0.body
            &&& final(arena)@ == r.0.arena
            &&& *final(scoreboard) == r.0.board
        }),
{
    proof {
        arena.lemma_view_wf();
    }
    let ghost path0 = ai.path@;
    let ghost head = segments.positions()[0];
    match ai.path.pop_front() {
        None => MoveOutcome::Idle,
        Some(next_position) => {
            proof {
                lemma_route_rest(head, path0, old(arena)@);
                assert(ai.path@ =~= path0.skip(1));
            }
            let (x, y) = (next_position.x, next_position.y);
            match resolve(Kind::Snake, arena.occ(x, y)) {
                Interaction::Proceed => {
                    move_snake_segments(snake, next_position, segments, arena);
                    MoveOutcome::Moved
                },
                Interaction::Consume(victim) => {
                    arena.unset(x, y);
                    proof {
                        lemma_holds_without(
                            old(arena)@,
                            segments.positions(),
                            Kind::Snake,
                            next_position,
                        );
                    }
                    move_snake_segments(snake, next_position, segments, arena);
                    scoreboard.record(Kind::Snake, victim.kind());
                    MoveOutcome::Ate { victim, grow: true }
                },
                Interaction::Block(by) => {
                    ai.clear();
                    proof {
                        assert(ai.path@ =~= Seq::<Position>::empty());
                    }
                    MoveOutcome::Blocked(by)
                },
            }
        },
    }
}

/// One movement step of a rat along its route, as `step_of` says for a body
/// of one cell: with an empty route nothing happens; onto a free cell the
/// rat moves; a berry it eats, scores, and moves; anything else blocks it,
/// and it gives up its route and target.
pub fn move_rat(
    rat: u64,
    ai: &mut AI,
    position: &mut Position,
    arena: &mut Arena,
    scoreboard: &mut Scoreboard,
) -> (outcome: MoveOutcome)
    requires
        old(arena).wf(),
        holds(old(arena)@, seq![*old(position)], Kind::Rat),
        route_ok(*old(position), old(ai).path@, old(arena)@),
        old(scoreboard).has_room(),
    ensures
        final(arena).wf(),
        holds(final(arena)@, seq![*final(position)], Kind::Rat),
        route_ok(*final(position), final(ai).path@, final(arena)@),
        ({
            let s = StepState {
                path: old(ai).path@,
                target: old(ai).target,
                body: seq![*old(position)],
                arena: old(arena)@,
                board: *old(scoreboard),
            };
            let r = step_of(Occupancy::Rat(rat), false, s);
            &&& outcome == r.1
            &&& final(ai).path@ == r.0.path
            &&& final(ai).target == r.0.target
            &&& seq![*final(position)] == r.0.body
            &&& final(arena)@ == r.0.arena
            &&& *final(scoreboard) == r.0.board
        }),
{
    proof {
        arena.lemma_view_wf();
    }
    let ghost path0 = ai.path@;
    let ghost here = *position;
    let ghost v0 = arena@;
    proof {
        assert(seq![here][0] == here);
    }
    match ai.path.pop_front() {
        None => MoveOutcome::Idle,
        Some(next_position) => {
            proof {
                lemma_route_rest(here, path0, v0);
                assert(ai.path@ =~= path0.skip(1));
                assert(v0.in_range(seq![here][0]) ==> v0.cells.contains_key(here));
            }
            match resolve(Kind::Rat, arena.occ(next_position.x, next_position.y)) {
                Interaction::Proceed => {
                    arena.unset(position.x, position.y);
                    position.x = next_position.x;
                    position.y = next_position.y;
                    arena.set(position.x, position.y, Occupancy::Rat(rat));
                    proof {
                        let tag = Occupancy::Rat(rat);
                        assert(seq![*position] =~= shifted(seq![here], next_position));
                        assert(arena@.cells =~= arena_after_shift(
                            v0,
                            seq![here],
                            next_position,
                            tag,
                        ).cells);
                        assert(seq![*position][0] == next_position);
                    }
                    MoveOutcome::Moved
                },
                Interaction::Consume(victim) => {
                    arena.unset(position.x, position.y);
                    arena.unset(next_position.x, next_position.y);
                    position.x = next_position.x;
                    position.y = next_position.y;
                    arena.set(position.x, position.y, Occupancy::Rat(rat));
                    scoreboard.record(Kind::Rat, victim.kind());
                    proof {
                        let tag = Occupancy::Rat(rat);
                        assert(seq![*position] =~= shifted(seq![here], next_position));
                        assert(arena@.cells =~= arena_after_shift(
                            v0.without(next_position),
                            seq![here],
                            next_position,
                            tag,
                        ).cells);
                        assert(seq![*position][0] == next_position);
                    }
                    MoveOutcome::Ate { victim, grow: false }
                },
                Interaction::Block(by) => {
                    ai.clear();
                    proof {
                        assert(ai.path@ =~= Seq::<Position>::empty());
                    }
                    MoveOutcome::Blocked(by)
                },
            }
        },
    }
}

impl Segmented {
    /// Whether the cells of the body form a chain.
    pub fn is_chain(&self) -> (ok: bool)
        ensures
            ok == is_chain(self.positions()),
    {
        let ghost p = self.positions();
        let n = self.segments.len();
        if n == 0 {
            return false;
        }
        let mut i: usize = 1;
        while i < n
            invariant
                n == self.segments.len(),
                p == self.positions(),
                1 <= i <= n,
                forall|k: int| 1 <= k < i ==> #[trigger] link_ok(p, k),
            decreases n - i,
        {
            let ahead = self.segments[i - 1].position;
            let here = self.segments[i].position;
            if !(ahead.is_adjacent(&here) || ahead == here) {
                proof {
                    assert(!link_ok(p, i as int));
                }
                return false;
            }
            i += 1;
        }
        let mut a: usize = 0;
        while a < n
            invariant
                n == self.segments.len(),
                p == self.positions(),
                0 <= a <= n,
                forall|k: int| 1 <= k < n ==> #[trigger] link_ok(p, k),
                forall|i: int, j: int, m: int|
                    0 <= i < a && i < j < n && p[i] == p[j] && i <= m < n ==> #[trigger] same_cell(
                        p,
                        i,
                        j,
                        m,
                    ),
            decreases n - a,
        {
            let mut b: usize = a + 1;
            let mut twice = false;
            while b < n
                invariant
                    n == self.segments.len(),
                    p == self.positions(),
                    0 <= a < b <= n,
                    twice <==> exists|j: int| a < j < b && p[a as int] == #[trigger] p[j],
                decreases n - b,
            {
                let ghost earlier = twice;
                if self.segments[a].position == self.segments[b].position {
                    twice = true;
                }
                proof {
                    assert(p[a as int] == self.segments[a as int].position);
                    assert(p[b as int] == self.segments[b as int].position);
                    if earlier {
                        let j = choose|j: int| a < j < b && p[a as int] == #[trigger] p[j];
                        assert(a < j < b + 1 && p[a as int] == p[j]);
                    }
                    if exists|j: int| a < j < b + 1 && p[a as int] == #[trigger] p[j] {
                        let j = choose|j: int| a < j < b + 1 && p[a as int] == #[trigger] p[j];
                        if j < b {
                            assert(earlier);
                        }
                    }
                }
                b += 1;
            }
            if twice {
                let mut m: usize = a;
                while m < n
                    invariant
                        n == self.segments.len(),
                        p == self.positions(),
                        0 <= a <= m <= n,
                        exists|j: int| a < j < n && p[a as int] == #[trigger] p[j],
                        forall|k: int| a <= k < m ==> p[k] == p[a as int],
                    decreases n - m,
                {
                    if !(self.segments[m].position == self.segments[a].position) {
                        proof {
                            let j = choose|j: int| a < j < n && p[a as int] == #[trigger] p[j];
                            assert(!same_cell(p, a as int, j, m as int));
                        }
                        return false;
                    }
                    m += 1;
                }
            }
            proof {
                assert forall|i: int, j: int, m: int|
                    0 <= i < a + 1 && i < j < n && p[i] == p[j] && i <= m < n implies #[trigger] same_cell(
                    p,
                    i,
                    j,
                    m,
                ) by {
                    if i == a {
                        assert(twice);
                    }
                }
            }
            a += 1;
        }
        true
    }

    /// Whether every cell of the body that lies inside the arena is recorded
    /// as held by an occupant of the given kind.
    pub fn is_held(&self, arena: &Arena, kind: Kind) -> (ok: bool)
        requires
            arena.wf(),
        ensures
            ok == holds(arena@, self.positions(), kind),
    {
        let ghost p = self.positions();
        let mut i: usize = 0;
        while i < self.segments.len()
            invariant
                arena.wf(),
                p == self.positions(),
                0 <= i <= self.segments.len(),
                forall|k: int|
                    0 <= k < i && arena@.in_range(#[trigger] p[k]) ==> arena@.cells.contains_key(
                        p[k],
                    ) && arena@.cells[p[k]].spec_kind() == kind,
            decreases self.segments.len() - i,
        {
            let cell = self.segments[i].position;
            if !cell_is_held(arena, &cell, kind) {
                proof {
                    assert(p[i as int] == cell);
                    assert(seq![cell][0] == cell);
                }
                return false;
            }
            proof {
                assert(seq![cell][0] == cell);
            }
            i += 1;
        }
        true
    }
}

/// Whether the cell, if it lies inside the arena, is recorded as held by an
/// occupant of the given kind.
pub fn cell_is_held(arena: &Arena, cell: &Position, kind: Kind) -> (ok: bool)
    requires
        arena.wf(),
    ensures
        ok == holds(arena@, seq![*cell], kind),
{
    proof {
        arena.lemma_view_wf();
        assert(seq![*cell][0] == *cell);
    }
    if cell.x < 0 || cell.x >= arena.width() || cell.y < 0 || cell.y >= arena.height() {
        return true;
    }
    match arena.occ(cell.x, cell.y) {
        Some(o) => o.kind() == kind,
        None => false,
    }
}

/// Whether the agent's route leads on from `head`: every cell of it inside
/// the arena, every step to a neighbouring cell.
pub fn route_leads_on(head: &Position, ai: &AI, arena: &Arena) -> (ok: bool)
    requires
        arena.wf(),
    ensures
        ok == route_ok(*head, ai.path@, arena@),
{
    proof {
        arena.lemma_view_wf();
    }
    let ghost full = seq![*head] + ai.path@;
    let mut at = *head;
    let mut k: usize = 0;
    while k < ai.path.len()
        invariant
            arena.wf(),
            full == seq![*head] + ai.path@,
            0 <= k <= ai.path.len(),
            at == full[k as int],
            forall|m: int| 0 <= m < k ==> arena@.in_range(#[trigger] ai.path@[m]),
            forall|m: int| 0 <= m < k ==> #[trigger] step_ok(full, m),
        decreases ai.path.len() - k,
    {
        let next = ai.path[k];
        proof {
            assert(full[k as int + 1] == next);
        }
        let inside = 0 <= next.x && next.x < arena.width() && 0 <= next.y && next.y
            < arena.height();
        if !inside || !at.is_adjacent(&next) {
            proof {
                assert(!arena@.in_range(ai.path@[k as int]) || !step_ok(full, k as int));
            }
            return false;
        }
        at = next;
        k += 1;
    }
    true
}

/// One movement step of a snake and, where it ate, the growth it asked for:
/// the body gets one more segment, shown by the entity `spare`, on the cell
/// of its tail. The number of segments stays on any other step and is one
/// higher after a meal; `spare` is not used where the snake did not eat.
pub fn move_and_grow_snake(
    snake: u64,
    ai: &mut AI,
    segments: &mut Segmented,
    arena: &mut Arena,
    scoreboard: &mut Scoreboard,
    spare: u64,
) -> (outcome: MoveOutcome)
    requires
        old(arena).wf(),
        is_chain(old(segments).positions()),
        holds(old(arena)@, old(segments).positions(), Kind::Snake),
        route_ok(old(segments).positions()[0], old(ai).path@, old(arena)@),
        old(scoreboard).has_room(),
    ensures
        final(arena).wf(),
        is_chain(final(segments).positions()),
        holds(final(arena)@, final(segments).positions(), Kind::Snake),
        route_ok(final(segments).positions()[0], final(ai).path@, final(arena)@),
        ({
            let s = StepState {
                path: old(ai).path@,
                target: old(ai).target,
                body: old(segments).positions(),
                arena: old(arena)@,
                board: *old(scoreboard),
            };
            let r = step_of(Occupancy::Snake(snake), true, s);
            &&& outcome == r.1
            &&& final(ai).path@ == r.0.path
            &&& final(ai).target == r.0.target
            &&& final(arena)@ == r.0.arena
            &&& *final(scoreboard) == r.0.board
            &&& outcome is Ate ==> final(segments).positions() == r.0.body.push(r.0.body.last())
                && final(segments).entities() == old(segments).entities().push(spare)
            &&& !(outcome is Ate) ==> final(segments).positions() == r.0.body
            &&& !(outcome is Ate) ==> final(segments).entities() == old(segments).entities()
        }),
        outcome is Ate ==> final(segments).segments.len() == old(segments).segments.len() + 1,
        !(outcome is Ate) ==> final(segments).segments.len() == old(segments).segments.len(),
{
    let outcome = move_snake(snake, ai, segments, arena, scoreboard);
    let ghost moved = segments.positions();
    match outcome {
        MoveOutcome::Ate { victim: _, grow: _ } => {
            grow_snake(segments, spare);
            proof {
                let p = segments.positions();
                assert forall|i: int| 0 <= i < p.len() && arena@.in_range(#[trigger] p[i]) implies arena@.cells.contains_key(
                    p[i],
                ) && arena@.cells[p[i]].spec_kind() == Kind::Snake by {
                    if i < moved.len() {
                        assert(p[i] == moved[i]);
                    } else {
                        assert(p[i] == moved[moved.len() - 1]);
                    }
                }
                assert(p[0] == moved[0]);
            }
        },
        _ => {},
    }
    outcome
}

/// No cell of the arena holds a segment of both bodies.
pub open spec fn apart(v: ArenaView, first: Seq<Position>, second: Seq<Position>) -> bool {
    forall|i: int, j: int|
        0 <= i < first.len() && 0 <= j < second.len() && v.in_range(#[trigger] first[i]) ==> first[i]
            != #[trigger] second[j]
}

/// Of two movers whose routes lead to the same free cell next, the one that
/// steps first takes the cell, and the other, unless it eats the first,
/// finds the cell held by it: its step is blocked, it gives up its route and
/// target, and its body, the arena and the scoreboard stay as they are. The
/// second body is still held by the arena after the first one has moved, so
/// that its step can be made.
pub proof fn lemma_first_mover_takes_the_cell(
    first_tag: Occupancy,
    first_grows: bool,
    first: StepState,
    second_tag: Occupancy,
    second_grows: bool,
    second: StepState,
)
    requires
        first.path.len() > 0,
        second.path.len() > 0,
        first.path[0] == second.path[0],
        first.arena.is_free(first.path[0]),
        first.body.len() > 0,
        holds(first.arena, first.body, first_tag.spec_kind()),
        holds(first.arena, second.body, second_tag.spec_kind()),
        apart(first.arena, first.body, second.body),
        !edible(second_tag.spec_kind(), first_tag.spec_kind()),
        second.arena == step_of(first_tag, first_grows, first).0.arena,
    ensures
        step_of(first_tag, first_grows, first).1 == MoveOutcome::Moved,
        second.arena.occupant(first.path[0]) == Some(first_tag),
        holds(second.arena, second.body, second_tag.spec_kind()),
        step_of(second_tag, second_grows, second) == (
            StepState { path: Seq::empty(), target: None, ..second },
            MoveOutcome::Blocked(first_tag),
        ),
{
    let c = first.path[0];
    let v = first.arena;
    let tail = first.body.last();
    assert(tail == first.body[first.body.len() - 1]);
    assert(tail != c) by {
        if tail == c {
            assert(v.in_range(first.body[first.body.len() - 1]));
        }
    }
    assert forall|j: int|
        0 <= j < second.body.len() && second.arena.in_range(
            #[trigger] second.body[j],
        ) implies second.arena.cells.contains_key(second.body[j])
        && second.arena.cells[second.body[j]].spec_kind() == second_tag.spec_kind() by {
        assert(v.in_range(second.body[j]));
        assert(second.body[j] != c);
        if v.in_range(tail) {
            assert(first.body[first.body.len() - 1] != second.body[j]);
        }
    }
}

} // verus!
