//! Which frame of its sprite sheet each segment of a body shows: the head
//! looks where it goes, each body segment is straight or bent, the tail
//! trails.

use vstd::prelude::*;
use crate::cell::Position;
use crate::movement::link_ok;

verus! {

/// Frames per row of a sprite sheet.
pub const SPRITE_SHEET_COLUMNS: usize = 12;

/// Rows of a sprite sheet: heads, body segments, tails.
pub const SPRITE_SHEET_ROWS: usize = 3;

/// First frame of the row of heads.
pub const HEAD: usize = 0;

/// First frame of the row of body segments.
pub const BODY: usize = 12;

/// First frame of the row of tails.
pub const TAIL: usize = 24;

pub const LEFT: usize = 0;

pub const UP: usize = 1;

pub const RIGHT: usize = 2;

pub const DOWN: usize = 3;

pub const CW_LEFT: usize = 4;

pub const CW_UP: usize = 5;

pub const CW_RIGHT: usize = 6;

pub const CW_DOWN: usize = 7;

pub const CCW_LEFT: usize = 8;

pub const CCW_UP: usize = 9;

pub const CCW_RIGHT: usize = 10;

pub const CCW_DOWN: usize = 11;

/// The direction in which a segment on `front` lies from the one behind it
/// on `back`, as the column of its frame; none where both are on one cell.
pub open spec fn facing(front: Position, back: Position) -> Option<usize> {
    if front.x - back.x == -1 {
        Some(LEFT)
    } else if front.x - back.x == 1 {
        Some(RIGHT)
    } else if front.y - back.y == -1 {
        Some(DOWN)
    } else if front.y - back.y == 1 {
        Some(UP)
    } else {
        None
    }
}

/// The column of the frame of a body segment that goes on in `direction`
/// and was reached in direction `came`: the direction itself where the body
/// is straight there, one of the eight bends where it turns, and the first
/// column where the two do not fit together.
pub open spec fn bend(direction: usize, came: usize) -> usize {
    if direction == came && direction <= DOWN {
        direction
    } else if direction == DOWN && came == LEFT {
        CW_LEFT
    } else if direction == LEFT && came == UP {
        CW_UP
    } else if direction == UP && came == RIGHT {
        CW_RIGHT
    } else if direction == RIGHT && came == DOWN {
        CW_DOWN
    } else if direction == UP && came == LEFT {
        CCW_LEFT
    } else if direction == RIGHT && came == UP {
        CCW_UP
    } else if direction == DOWN && came == RIGHT {
        CCW_RIGHT
    } else if direction == LEFT && came == DOWN {
        CCW_DOWN
    } else {
        0
    }
}

/// The direction of segment `k` as seen from the segment behind it.
pub open spec fn facing_at(p: Seq<Position>, k: int) -> usize {
    facing(p[k], p[k + 1]).unwrap()
}

/// The first segment, at or after `from`, that shares its cell with the
/// segment behind it; the last segment where there is none.
pub open spec fn first_shared(p: Seq<Position>, from: int) -> int
    decreases p.len() - from,
{
    if from >= p.len() - 1 {
        p.len() - 1
    } else if p[from] == p[from + 1] {
        from
    } else {
        first_shared(p, from + 1)
    }
}

/// The frame of segment `k` of a body on the cells `p`, whose segments
/// showed the frames `old` before.
///
/// Up to the first segment that shares its cell with the one behind it, the
/// head shows the head frame of its direction, each further segment the
/// body frame for its direction and that of the segment ahead, and the last
/// segment the tail frame of its direction. A segment that shares its cell
/// with the one behind it has just been grown from: it shows a tail frame,
/// the one behind it shows the blank last frame of the first row, and the
/// segments after those keep their frames.
pub open spec fn frame_of(p: Seq<Position>, old: Seq<usize>, k: int) -> int {
    let c = first_shared(p, 0);
    if k == c && c < p.len() - 1 {
        (if c == 0 {
            old[0]
        } else {
            facing_at(p, c - 1)
        }) + TAIL
    } else if k == c + 1 {
        SPRITE_SHEET_COLUMNS - 1
    } else if k > c + 1 {
        old[k] as int
    } else if k == 0 {
        HEAD + facing_at(p, 0)
    } else if k == p.len() - 1 {
        TAIL + facing_at(p, k - 1)
    } else {
        BODY + bend(facing_at(p, k), facing_at(p, k - 1))
    }
}

/// The direction in which a segment on `front` lies from the one behind it
/// on `back`; none where both are on one cell.
pub fn direction_between(front: &Position, back: &Position) -> (d: Option<usize>)
    ensures
        d == facing(*front, *back),
{
    let dx: i64 = front.x as i64 - back.x as i64;
    let dy: i64 = front.y as i64 - back.y as i64;
    if dx == -1 {
        Some(LEFT)
    } else if dx == 1 {
        Some(RIGHT)
    } else if dy == -1 {
        Some(DOWN)
    } else if dy == 1 {
        Some(UP)
    } else {
        None
    }
}

/// The column of the frame of a body segment that goes on in `direction`
/// and was reached in direction `came`.
pub fn bend_frame(direction: usize, came: usize) -> (column: usize)
    ensures
        column == bend(direction, came),
        column < SPRITE_SHEET_COLUMNS,
{
    if direction == came && direction <= DOWN {
        direction
    } else if direction == DOWN && came == LEFT {
        CW_LEFT
    } else if direction == LEFT && came == UP {
        CW_UP
    } else if direction == UP && came == RIGHT {
        CW_RIGHT
    } else if direction == RIGHT && came == DOWN {
        CW_DOWN
    } else if direction == UP && came == LEFT {
        CCW_LEFT
    } else if direction == RIGHT && came == UP {
        CCW_UP
    } else if direction == DOWN && came == RIGHT {
        CCW_RIGHT
    } else if direction == LEFT && came == DOWN {
        CCW_DOWN
    } else {
        0
    }
}

/// Where no segment before `upto` shares its cell with the one behind it,
/// the first one that does comes at or after `upto`.
proof fn lemma_first_shared(p: Seq<Position>, from: int, upto: int)
    requires
        0 <= from <= upto <= p.len() - 1,
        forall|k: int| from <= k < upto ==> p[k] != #[trigger] p[k + 1],
    ensures
        first_shared(p, from) == first_shared(p, upto),
        upto <= first_shared(p, upto) <= p.len() - 1,
    decreases upto - from,
{
    if from < upto {
        assert(p[from] != p[from + 1]);
        lemma_first_shared(p, from + 1, upto);
    } else {
        lemma_first_shared_range(p, upto);
    }
}

/// The first segment that shares its cell, looked for from `from`, is not
/// before `from` and not after the last segment.
proof fn lemma_first_shared_range(p: Seq<Position>, from: int)
    requires
        0 <= from <= p.len() - 1,
    ensures
        from <= first_shared(p, from) <= p.len() - 1,
    decreases p.len() - from,
{
    if from < p.len() - 1 && p[from] != p[from + 1] {
        lemma_first_shared_range(p, from + 1);
    }
}

/// Sets the frame of each segment of a body from the cells of the segments,
/// head first. The body has at least two segments, and each is on the cell
/// next to that of the segment ahead of it or on the same cell.
pub fn set_segment_sprites(positions: &Vec<Position>, frames: &mut Vec<usize>)
    requires
        positions.len() >= 2,
        old(frames).len() == positions.len(),
        forall|i: int| 1 <= i < positions.len() ==> #[trigger] link_ok(positions@, i),
        old(frames)[0] + TAIL <= usize::MAX,
    ensures
        final(frames).len() == positions.len(),
        forall|k: int| 0 <= k < positions.len() ==> #[trigger] final(frames)[k] == frame_of(
            positions@,
            old(frames)@,
            k,
        ),
{
    let ghost p = positions@;
    let ghost before = frames@;
    let n = positions.len();
    let i_tail = n - 2;
    let mut i: usize = 0;
    while i < n - 1
        invariant
            before == old(frames)@,
            n == positions.len(),
            n == frames.len(),
            n >= 2,
            i_tail == n - 2,
            p == positions@,
            before.len() == n,
            before[0] + TAIL <= usize::MAX,
            0 <= i <= n - 1,
            forall|k: int| 1 <= k < n ==> #[trigger] link_ok(p, k),
            forall|k: int| 0 <= k < i ==> p[k] != #[trigger] p[k + 1],
            forall|k: int| 0 <= k < i ==> #[trigger] frames[k] == frame_of(p, before, k),
            i == 0 ==> frames[0] == before[0],
            0 < i < n - 1 ==> frames[i as int] == facing_at(p, i - 1),
            i == n - 1 ==> frames[i as int] == frame_of(p, before, i as int),
            forall|k: int| i < k < n ==> #[trigger] frames[k] == before[k],
        decreases n - 1 - i,
    {
        proof {
            assert(link_ok(p, i as int + 1));
            lemma_first_shared(p, 0, i as int);
        }
        match direction_between(&positions[i], &positions[i + 1]) {
            None => {
                let shown = frames[i];
                let ghost mid = frames@;
                proof {
                    assert(p[i as int] == p[i as int + 1]);
                    assert(first_shared(p, i as int) == i);
                    assert(first_shared(p, 0) == i);
                    if i > 0 {
                        assert(link_ok(p, i as int));
                        assert(p[i as int - 1] != p[i as int]);
                        assert(facing(p[i as int - 1], p[i as int]).is_some());
                    }
                }
                frames.set(i, shown + TAIL);
                frames.set(i + 1, SPRITE_SHEET_COLUMNS - 1);
                proof {
                    assert forall|k: int| 0 <= k < n implies #[trigger] frames[k] == frame_of(
                        p,
                        before,
                        k,
                    ) by {
                        if k < i {
                            assert(mid[k] == frame_of(p, before, k));
                        } else if k > i + 1 {
                            assert(mid[k] == before[k]);
                        }
                    }
                }
                return;
            },
            Some(direction) => {
                proof {
                    assert(p[i as int] != p[i as int + 1]);
                    lemma_first_shared(p, 0, i as int + 1);
                    if i > 0 {
                        assert(link_ok(p, i as int));
                        assert(p[i as int - 1] != p[i as int]);
                        assert(facing(p[i as int - 1], p[i as int]).is_some());
                    }
                }
                if i == 0 {
                    frames.set(i, HEAD + direction);
                } else {
                    let came = frames[i];
                    let column = bend_frame(direction, came);
                    frames.set(i, BODY + column);
                }
                if i == i_tail {
                    frames.set(i + 1, TAIL + direction);
                } else {
                    frames.set(i + 1, direction);
                }
            },
        }
        i += 1;
    }
    proof {
        lemma_first_shared(p, 0, n as int - 1);
    }
}

} // verus!
