//! Where new entities come into the arena: the cells of a new body, the
//! places at the edge where snakes enter, and the search for a free cell.

use vstd::prelude::*;
use crate::arena::{Arena, ArenaView};
use crate::cell::{Kind, Occupancy, Position};
use crate::chance::draw_between;
use crate::movement::{holds, is_chain, link_ok, same_cell, Direction, Segment, Segmented};

verus! {

/// The arena after each segment of a body took its cell, tagged with the
/// kind of the body and the entity of the segment.
pub open spec fn placed(v: ArenaView, body: Seq<Segment>, kind: Kind) -> ArenaView
    decreases body.len(),
{
    if body.len() == 0 {
        v
    } else {
        placed(v, body.drop_last(), kind).with(
            body.last().position,
            Occupancy::spec_of(kind, body.last().entity),
        )
    }
}

/// The cells of the segments.
pub open spec fn cells_of(body: Seq<Segment>) -> Seq<Position> {
    body.map_values(|s: Segment| s.position)
}

/// The body can be placed: none of its cells is occupied, and no two of its
/// segments are on one cell of the arena.
pub open spec fn can_place(v: ArenaView, body: Seq<Segment>) -> bool {
    &&& forall|i: int| 0 <= i < body.len() ==> !v.cells.contains_key((#[trigger] body[i]).position)
    &&& forall|i: int, j: int|
        0 <= i < j < body.len() && v.in_range(body[i].position) ==> (#[trigger] body[i]).position
            != (#[trigger] body[j]).position
}

/// Placing a body occupies its cells of the arena, with tags of its kind, and
/// leaves every other cell as it was.
pub proof fn lemma_placed(v: ArenaView, body: Seq<Segment>, kind: Kind, p: Position)
    ensures
        placed(v, body, kind).width == v.width,
        placed(v, body, kind).height == v.height,
        placed(v, body, kind).path_limit == v.path_limit,
        (exists|i: int| 0 <= i < body.len() && (#[trigger] body[i]).position == p) && v.in_range(p)
            ==> placed(v, body, kind).cells.contains_key(p) && placed(
            v,
            body,
            kind,
        ).cells[p].spec_kind() == kind,
        !(exists|i: int| 0 <= i < body.len() && (#[trigger] body[i]).position == p) || !v.in_range(
            p,
        ) ==> placed(v, body, kind).occupant(p) == v.occupant(p),
    decreases body.len(),
{
    if body.len() > 0 {
        let front = body.drop_last();
        lemma_placed(v, front, kind, p);
        if exists|i: int| 0 <= i < body.len() && (#[trigger] body[i]).position == p {
            let i = choose|i: int| 0 <= i < body.len() && (#[trigger] body[i]).position == p;
            if i < front.len() {
                assert(front[i].position == p);
            }
        }
        if exists|i: int| 0 <= i < front.len() && (#[trigger] front[i]).position == p {
            let i = choose|i: int| 0 <= i < front.len() && (#[trigger] front[i]).position == p;
            assert(body[i].position == p);
        }
        if body.last().position != p {
            assert(body[body.len() - 1].position != p);
        } else {
            assert(body[body.len() - 1].position == p);
        }
    }
}

/// Records every segment of the body in the arena, on its cell and tagged
/// with `kind` and the segment's entity. Segments outside the arena leave no
/// record.
pub fn place_body(arena: &mut Arena, body: &Vec<Segment>, kind: Kind)
    requires
        old(arena).wf(),
        can_place(old(arena)@, body@),
    ensures
        final(arena).wf(),
        final(arena)@ == placed(old(arena)@, body@, kind),
        holds(final(arena)@, cells_of(body@), kind),
{
    let ghost v0 = arena@;
    let mut k: usize = 0;
    while k < body.len()
        invariant
            k <= body.len(),
            arena.wf(),
            can_place(v0, body@),
            arena@ == placed(v0, body@.take(k as int), kind),
        decreases body.len() - k,
    {
        let s = body[k];
        proof {
            lemma_placed(v0, body@.take(k as int), kind, s.position);
            if exists|i: int|
                0 <= i < body@.take(k as int).len() && (#[trigger] body@.take(k as int)[i]).position
                    == s.position {
                let i = choose|i: int|
                    0 <= i < body@.take(k as int).len() && (#[trigger] body@.take(
                        k as int,
                    )[i]).position == s.position;
                assert(body@[i].position == body@[k as int].position);
            }
            assert(body@.take(k as int + 1).drop_last() == body@.take(k as int));
        }
        proof {
            assert(arena@.occupant(s.position) == v0.occupant(s.position));
        }
        arena.set(s.position.x, s.position.y, Occupancy::of(kind, s.entity));
        k += 1;
    }
    proof {
        assert(body@.take(body.len() as int) == body@);
        let cells = cells_of(body@);
        assert forall|i: int| 0 <= i < cells.len() && arena@.in_range(#[trigger] cells[i]) implies arena@.cells.contains_key(
            cells[i],
        ) && arena@.cells[cells[i]].spec_kind() == kind by {
            lemma_placed(v0, body@, kind, cells[i]);
            assert(body@[i].position == cells[i]);
        }
    }
}

/// The cell `steps` steps from coordinate `from` along an axis on which one
/// step changes the coordinate by `delta`, which is -1, 0 or 1.
pub open spec fn along(from: int, delta: int, steps: int) -> int {
    if delta > 0 {
        from + steps
    } else if delta < 0 {
        from - steps
    } else {
        from
    }
}

/// The cells of a new snake: `len` cells in a line, the head at `(x, y)` and
/// each further segment one step by `(delta_x, delta_y)` from the one before.
pub open spec fn snake_cells(x: int, y: int, delta_x: int, delta_y: int, len: nat) -> Seq<Position> {
    Seq::new(
        len,
        |k: int| Position { x: along(x, delta_x, k) as i32, y: along(y, delta_y, k) as i32 },
    )
}

/// `(delta_x, delta_y)` is one step along one axis.
pub open spec fn unit_step(delta_x: int, delta_y: int) -> bool {
    (delta_y == 0 && (delta_x == 1 || delta_x == -1)) || (delta_x == 0 && (delta_y == 1 || delta_y
        == -1))
}

/// A line of cells in one direction is a chain.
pub proof fn lemma_line_is_chain(x: int, y: int, delta_x: int, delta_y: int, len: nat)
    requires
        len >= 1,
        unit_step(delta_x, delta_y),
        i32::MIN <= along(x, delta_x, len - 1) <= i32::MAX,
        i32::MIN <= along(y, delta_y, len - 1) <= i32::MAX,
        i32::MIN <= x <= i32::MAX,
        i32::MIN <= y <= i32::MAX,
    ensures
        is_chain(snake_cells(x, y, delta_x, delta_y, len)),
        forall|i: int, j: int|
            0 <= i < j < len ==> snake_cells(x, y, delta_x, delta_y, len)[i] != snake_cells(
                x,
                y,
                delta_x,
                delta_y,
                len,
            )[j],
{
    let p = snake_cells(x, y, delta_x, delta_y, len);
    assert forall|i: int| 1 <= i < p.len() implies #[trigger] link_ok(p, i) by {}
    assert forall|i: int, j: int, m: int|
        0 <= i < j < p.len() && p[i] == p[j] && i <= m < p.len() implies #[trigger] same_cell(
        p,
        i,
        j,
        m,
    ) by {}
}

/// A new snake of `n + 2` segments in a line: its head at `(x, y)`, each
/// further segment one step by `(delta_x, delta_y)` from the one before, the
/// segments shown by `entities` in that order. Every segment is recorded in
/// the arena. A snake that enters at the edge has its head on the edge and
/// its body still outside.
pub fn spawn_snake(
    arena: &mut Arena,
    x: i32,
    y: i32,
    n: i32,
    delta_x: i32,
    delta_y: i32,
    entities: &Vec<u64>,
) -> (snake: Segmented)
    requires
        old(arena).wf(),
        0 <= n,
        entities.len() == n + 2,
        unit_step(delta_x as int, delta_y as int),
        i32::MIN <= along(x as int, delta_x as int, n + 1) <= i32::MAX,
        i32::MIN <= along(y as int, delta_y as int, n + 1) <= i32::MAX,
        forall|k: int|
            0 <= k < n + 2 ==> !old(arena)@.cells.contains_key(
                #[trigger] snake_cells(
                    x as int,
                    y as int,
                    delta_x as int,
                    delta_y as int,
                    (n + 2) as nat,
                )[k],
            ),
    ensures
        final(arena).wf(),
        snake.positions() == snake_cells(
            x as int,
            y as int,
            delta_x as int,
            delta_y as int,
            (n + 2) as nat,
        ),
        snake.entities() == entities@,
        final(arena)@ == placed(old(arena)@, snake.segments@, Kind::Snake),
        is_chain(snake.positions()),
        holds(final(arena)@, snake.positions(), Kind::Snake),
{
    let ghost line = snake_cells(x as int, y as int, delta_x as int, delta_y as int, (n + 2) as nat);
    let mut segments: Vec<Segment> = Vec::new();
    let mut cx: i32 = x;
    let mut cy: i32 = y;
    let mut k: usize = 0;
    while k < entities.len()
        invariant
            0 <= n,
            entities.len() == n + 2,
            k <= entities.len(),
            unit_step(delta_x as int, delta_y as int),
            i32::MIN <= along(x as int, delta_x as int, n + 1) <= i32::MAX,
            i32::MIN <= along(y as int, delta_y as int, n + 1) <= i32::MAX,
            segments.len() == k,
            k < entities.len() ==> cx == along(x as int, delta_x as int, k as int) && cy == along(
                y as int,
                delta_y as int,
                k as int,
            ),
            line == snake_cells(x as int, y as int, delta_x as int, delta_y as int, (n + 2) as nat),
            forall|i: int| 0 <= i < k ==> (#[trigger] segments[i]).position == line[i],
            forall|i: int| 0 <= i < k ==> (#[trigger] segments[i]).entity == entities[i],
        decreases entities.len() - k,
    {
        segments.push(Segment { entity: entities[k], position: Position { x: cx, y: cy } });
        k += 1;
        if k < entities.len() {
            cx += delta_x;
            cy += delta_y;
        }
    }
    let snake = Segmented { segments };
    proof {
        assert(snake.positions() =~= line);
        assert(snake.entities() =~= entities@);
        assert(cells_of(snake.segments@) =~= snake.positions());
        lemma_line_is_chain(x as int, y as int, delta_x as int, delta_y as int, (n + 2) as nat);
        assert forall|i: int| 0 <= i < snake.segments@.len() implies !arena@.cells.contains_key(
            (#[trigger] snake.segments@[i]).position,
        ) by {
            assert(snake.segments@[i].position == line[i]);
        }
        assert forall|i: int, j: int|
            0 <= i < j < snake.segments@.len() && arena@.in_range(
                snake.segments@[i].position,
            ) implies (#[trigger] snake.segments@[i]).position != (
        #[trigger] snake.segments@[j]).position by {
            assert(snake.segments@[i].position == line[i]);
            assert(snake.segments@[j].position == line[j]);
        }
    }
    place_body(arena, &snake.segments, Kind::Snake);
    snake
}

/// The cells of the mongoose at the start: its head in the middle of the
/// arena, its body one cell to the right, its tail below that.
pub open spec fn mongoose_cells(v: ArenaView) -> Seq<Position> {
    let x = v.width / 2;
    let y = v.height / 2;
    seq![
        Position { x: x as i32, y: y as i32 },
        Position { x: (x + 1) as i32, y: y as i32 },
        Position { x: (x + 1) as i32, y: (y - 1) as i32 },
    ]
}

/// The mongoose at the start of a game, its three segments shown by the
/// entities `head`, `body` and `tail`, each recorded in the arena.
pub fn spawn_mongoose(arena: &mut Arena, head: u64, body: u64, tail: u64) -> (mongoose: Segmented)
    requires
        old(arena).wf(),
        forall|k: int|
            0 <= k < 3 ==> !old(arena)@.cells.contains_key(
                #[trigger] mongoose_cells(old(arena)@)[k],
            ),
    ensures
        final(arena).wf(),
        mongoose.positions() == mongoose_cells(old(arena)@),
        mongoose.entities() == seq![head, body, tail],
        final(arena)@ == placed(old(arena)@, mongoose.segments@, Kind::Mongoose),
        is_chain(mongoose.positions()),
        holds(final(arena)@, mongoose.positions(), Kind::Mongoose),
{
    proof {
        arena.lemma_view_wf();
    }
    let x: i32 = arena.width() / 2;
    let y: i32 = arena.height() / 2;
    let mut segments: Vec<Segment> = Vec::new();
    segments.push(Segment { entity: head, position: Position { x, y } });
    segments.push(Segment { entity: body, position: Position { x: x + 1, y } });
    segments.push(Segment { entity: tail, position: Position { x: x + 1, y: y - 1 } });
    let mongoose = Segmented { segments };
    proof {
        let p = mongoose.positions();
        let cells = mongoose_cells(arena@);
        assert(p =~= cells);
        assert(mongoose.entities() =~= seq![head, body, tail]);
        assert(cells_of(mongoose.segments@) =~= p);
        assert forall|i: int| 1 <= i < p.len() implies #[trigger] link_ok(p, i) by {}
        assert forall|i: int, j: int, m: int|
            0 <= i < j < p.len() && p[i] == p[j] && i <= m < p.len() implies #[trigger] same_cell(
            p,
            i,
            j,
            m,
        ) by {}
        assert forall|i: int| 0 <= i < mongoose.segments@.len() implies !arena@.cells.contains_key(
            (#[trigger] mongoose.segments@[i]).position,
        ) by {
            assert(mongoose.segments@[i].position == cells[i]);
        }
    }
    place_body(arena, &mongoose.segments, Kind::Mongoose);
    mongoose
}

/// Where a snake enters: the cell of its head, and the step from each
/// segment to the next, which leads out of the arena.
#[derive(Clone, Copy, Debug, PartialEq, Eq, Structural)]
pub struct Entry {
    pub x: i32,
    pub y: i32,
    pub delta_x: i32,
    pub delta_y: i32,
}

/// The entry on the given side of the arena, at place `p` along that side.
pub open spec fn entry_at(v: ArenaView, side: Direction, p: i32) -> Entry {
    match side {
        Direction::Left => Entry { x: 0, y: p, delta_x: -1i32, delta_y: 0 },
        Direction::Up => Entry { x: p, y: (v.height - 1) as i32, delta_x: 0, delta_y: 1 },
        Direction::Right => Entry { x: (v.width - 1) as i32, y: p, delta_x: 1, delta_y: 0 },
        Direction::Down => Entry { x: p, y: 0, delta_x: 0, delta_y: -1i32 },
    }
}

/// The entry on the given side of the arena, at place `p` along that side.
pub fn snake_entry(arena: &Arena, side: Direction, p: i32) -> (entry: Entry)
    requires
        arena.wf(),
    ensures
        entry == entry_at(arena@, side, p),
{
    proof {
        arena.lemma_view_wf();
    }
    match side {
        Direction::Left => Entry { x: 0, y: p, delta_x: -1, delta_y: 0 },
        Direction::Up => Entry { x: p, y: arena.height() - 1, delta_x: 0, delta_y: 1 },
        Direction::Right => Entry { x: arena.width() - 1, y: p, delta_x: 1, delta_y: 0 },
        Direction::Down => Entry { x: p, y: 0, delta_x: 0, delta_y: -1 },
    }
}

/// The first of the drawn cells that no occupant holds: none before it is
/// unoccupied. There is none where every drawn cell is occupied.
pub fn first_unoccupied(arena: &Arena, draws: &Vec<Position>) -> (found: Option<Position>)
    requires
        arena.wf(),
    ensures
        match found {
            Some(p) => !arena@.cells.contains_key(p) && exists|k: int|
                0 <= k < draws.len() && draws[k] == p && forall|j: int|
                    0 <= j < k ==> arena@.cells.contains_key(#[trigger] draws[j]),
            None => forall|k: int|
                0 <= k < draws.len() ==> arena@.cells.contains_key(#[trigger] draws[k]),
        },
{
    let mut k: usize = 0;
    while k < draws.len()
        invariant
            arena.wf(),
            0 <= k <= draws.len(),
            forall|j: int| 0 <= j < k ==> arena@.cells.contains_key(#[trigger] draws[j]),
        decreases draws.len() - k,
    {
        let cell = draws[k];
        if !arena.isset(cell.x, cell.y) {
            return Some(cell);
        }
        k += 1;
    }
    None
}

/// The bounds between which the coordinates of a cell are drawn when any
/// cell of the arena will do: the least and the greatest x, then the least
/// and the greatest y. An arena without a cell has none.
pub fn cell_bounds(arena: &Arena) -> (b: Option<(i32, i32, i32, i32)>)
    requires
        arena.wf(),
    ensures
        match b {
            Some((x0, x1, y0, y1)) => x0 == 0 && x1 == arena@.width - 1 && y0 == 0 && y1
                == arena@.height - 1 && x0 <= x1 && y0 <= y1,
            None => arena@.width == 0 || arena@.height == 0,
        },
{
    proof {
        arena.lemma_view_wf();
    }
    if arena.width() < 1 || arena.height() < 1 {
        None
    } else {
        Some((0, arena.width() - 1, 0, arena.height() - 1))
    }
}

/// The bounds between which the place of an entry along its side is drawn:
/// from the first place to the last but one of the height. An arena less
/// than two cells high has none.
pub fn entry_bounds(arena: &Arena) -> (b: Option<(i32, i32)>)
    requires
        arena.wf(),
    ensures
        match b {
            Some((low, high)) => low == 0 && high == arena@.height - 2 && low <= high,
            None => arena@.height < 2,
        },
{
    proof {
        arena.lemma_view_wf();
    }
    if arena.height() < 2 {
        None
    } else {
        Some((0, arena.height() - 2))
    }
}

/// The bounds between which the number of a side is drawn.
pub fn side_bounds() -> (b: (i32, i32))
    ensures
        b == (0i32, 3i32),
{
    (0, 3)
}

/// The bounds between which the number of segments that a new snake has
/// between its head and its tail is drawn.
pub fn middle_bounds() -> (b: (i32, i32))
    ensures
        b == (0i32, 3i32),
{
    (0, 3)
}

/// The side with the given number: 0 is left, 1 up, 2 right, and any other
/// number down.
pub open spec fn side_of(number: i32) -> Direction {
    if number == 0 {
        Direction::Left
    } else if number == 1 {
        Direction::Up
    } else if number == 2 {
        Direction::Right
    } else {
        Direction::Down
    }
}

/// The side with the given number.
pub fn side_numbered(number: i32) -> (side: Direction)
    ensures
        side == side_of(number),
{
    if number == 0 {
        Direction::Left
    } else if number == 1 {
        Direction::Up
    } else if number == 2 {
        Direction::Right
    } else {
        Direction::Down
    }
}

/// The head cell of an entry.
pub open spec fn entry_cell(entry: Entry) -> Position {
    Position { x: entry.x, y: entry.y }
}

/// The entry that a draw stands for: the number of its side first, its place
/// along that side second.
pub open spec fn entry_drawn(v: ArenaView, draw: (i32, i32)) -> Entry {
    entry_at(v, side_of(draw.0), draw.1)
}

/// The entry of the first draw whose head cell no occupant holds: the head
/// cell of every draw before it is occupied. There is none where the head
/// cell of every draw is occupied.
pub fn first_free_entry(arena: &Arena, draws: &Vec<(i32, i32)>) -> (found: Option<Entry>)
    requires
        arena.wf(),
    ensures
        match found {
            Some(entry) => !arena@.cells.contains_key(entry_cell(entry)) && exists|k: int|
                0 <= k < draws.len() && entry == entry_drawn(arena@, draws[k]) && forall|j: int|
                    0 <= j < k ==> arena@.cells.contains_key(
                        entry_cell(entry_drawn(arena@, #[trigger] draws[j])),
                    ),
            None => forall|k: int|
                0 <= k < draws.len() ==> arena@.cells.contains_key(
                    entry_cell(entry_drawn(arena@, #[trigger] draws[k])),
                ),
        },
{
    let mut k: usize = 0;
    while k < draws.len()
        invariant
            arena.wf(),
            0 <= k <= draws.len(),
            forall|j: int|
                0 <= j < k ==> arena@.cells.contains_key(
                    entry_cell(entry_drawn(arena@, #[trigger] draws[j])),
                ),
        decreases draws.len() - k,
    {
        let (number, place) = draws[k];
        let entry = snake_entry(arena, side_numbered(number), place);
        if !arena.isset(entry.x, entry.y) {
            return Some(entry);
        }
        k += 1;
    }
    None
}

/// A random entry for a new snake whose head cell is free, and the number
/// of segments it has between head and tail, from none to three. `attempts`
/// entries are drawn, each a side and a place along it, and the first whose
/// head cell is unoccupied is taken; none comes back where the arena is less
/// than two cells high, or where every draw hit an occupied cell.
pub fn find_snake_entry(arena: &Arena, attempts: u32) -> (found: Option<(Entry, i32)>)
    requires
        arena.wf(),
    ensures
        match found {
            Some((entry, n)) => {
                &&& 0 <= n <= 3
                &&& !arena@.cells.contains_key(Position { x: entry.x, y: entry.y })
                &&& exists|side: Direction, p: i32|
                    0 <= p < arena@.height - 1 && entry == #[trigger] entry_at(arena@, side, p)
            },
            None => attempts == 0 || arena@.height < 2 || exists|p: Position|
                arena@.cells.contains_key(p),
        },
{
    let (place_low, place_high) = match entry_bounds(arena) {
        None => {
            return None;
        },
        Some(bounds) => bounds,
    };
    let (middle_low, middle_high) = middle_bounds();
    let n: i32 = draw_between(middle_low, middle_high);
    let (side_low, side_high) = side_bounds();
    let mut draws: Vec<(i32, i32)> = Vec::new();
    let mut tried: u32 = 0;
    while tried < attempts
        invariant
            0 <= tried <= attempts,
            draws.len() == tried,
            place_low == 0,
            place_high == arena@.height - 2,
            place_low <= place_high,
            side_low <= side_high,
            forall|j: int| 0 <= j < draws.len() ==> place_low <= (#[trigger] draws[j]).1 <= place_high,
        decreases attempts - tried,
    {
        let number: i32 = draw_between(side_low, side_high);
        let place: i32 = draw_between(place_low, place_high);
        draws.push((number, place));
        tried += 1;
    }
    match first_free_entry(arena, &draws) {
        Some(entry) => {
            proof {
                let k = choose|k: int|
                    0 <= k < draws.len() && entry == entry_drawn(arena@, draws[k]) && forall|j: int|
                        0 <= j < k ==> arena@.cells.contains_key(
                            entry_cell(entry_drawn(arena@, #[trigger] draws[j])),
                        );
                assert(place_low <= draws[k].1 <= place_high);
                assert(entry == entry_at(arena@, side_of(draws[k].0), draws[k].1));
            }
            Some((entry, n))
        },
        None => {
            proof {
                if attempts > 0 {
                    assert(arena@.cells.contains_key(entry_cell(entry_drawn(arena@, draws[0]))));
                }
            }
            None
        },
    }
}

/// A random free cell of the arena, for a new berry or rat. `attempts` cells
/// of the arena are drawn and the first unoccupied one is taken; none comes
/// back where the arena has no cell, or where every draw hit an occupied
/// cell.
pub fn find_free_cell(arena: &Arena, attempts: u32) -> (found: Option<Position>)
    requires
        arena.wf(),
    ensures
        match found {
            Some(p) => arena@.is_free(p),
            None => attempts == 0 || arena@.width == 0 || arena@.height == 0 || exists|
                p: Position,
            |
                arena@.cells.contains_key(p),
        },
{
    let (x_low, x_high, y_low, y_high) = match cell_bounds(arena) {
        None => {
            return None;
        },
        Some(bounds) => bounds,
    };
    let mut draws: Vec<Position> = Vec::new();
    let mut tried: u32 = 0;
    while tried < attempts
        invariant
            0 <= tried <= attempts,
            draws.len() == tried,
            x_low == 0 && x_high == arena@.width - 1 && x_low <= x_high,
            y_low == 0 && y_high == arena@.height - 1 && y_low <= y_high,
            forall|j: int| 0 <= j < draws.len() ==> arena@.in_range(#[trigger] draws[j]),
        decreases attempts - tried,
    {
        let x: i32 = draw_between(x_low, x_high);
        let y: i32 = draw_between(y_low, y_high);
        draws.push(Position { x, y });
        tried += 1;
    }
    let found = first_unoccupied(arena, &draws);
    proof {
        if found.is_none() && attempts > 0 {
            assert(arena@.cells.contains_key(draws[0]));
        }
    }
    found
}

} // verus!
