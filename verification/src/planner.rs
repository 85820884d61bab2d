//! Route planning: a bounded search for a route over free cells, made on
//! behalf of an agent that stands on the start cell.

use vstd::prelude::*;
use std::collections::VecDeque;
use crate::arena::{Arena, ArenaView};
use crate::cell::Position;

verus! {

/// What an agent is heading for.
#[derive(Clone, Copy, Debug, PartialEq, Eq, Structural)]
pub enum Target {
    /// A fixed cell.
    Position(Position),
    /// A tracked entity, by its identifier.
    Entity(u64),
}

/// The planning state of an agent: the route it follows, next cell first,
/// and what it is heading for.
pub struct AI {
    pub path: VecDeque<Position>,
    pub target: Option<Target>,
}

/// The arena as the search sees it: with the start cell and the goal cell
/// freed, since the agent stands on the one and what it chases may stand on
/// the other.
pub open spec fn cleared(v: ArenaView, start: Position, goal: Position) -> ArenaView {
    v.without(start).without(goal)
}

/// There is a route from `start` to `goal` once both cells are freed.
pub open spec fn has_route(v: ArenaView, start: Position, goal: Position) -> bool {
    exists|path: Seq<Position>| #[trigger] cleared(v, start, goal).is_route(start, goal, path)
}

/// A route found with start and goal freed is no longer than the bound, and
/// every cell on it before the last one is free in the arena as it stands.
pub proof fn lemma_route_bounded_and_clear(
    v: ArenaView,
    start: Position,
    goal: Position,
    path: Seq<Position>,
)
    requires
        cleared(v, start, goal).is_route(start, goal, path),
    ensures
        path.len() <= v.path_limit,
        forall|k: int| 0 <= k < path.len() - 1 ==> v.is_free(#[trigger] path[k]),
{
    let full = seq![start] + path;
    assert forall|k: int| 0 <= k < path.len() - 1 implies v.is_free(#[trigger] path[k]) by {
        assert(cleared(v, start, goal).is_free(path[k]));
        assert(full[0] == start);
        assert(full[k + 1] == path[k]);
        assert(full[path.len() as int] == goal);
    }
}

/// A route from `start` to `goal`, if the search finds one. The two cells
/// are freed for the search and get their occupants back before it returns,
/// so the arena is left as it was. The route leaves out `start`, ends at
/// `goal`, and is no longer than the arena's bound; no route is returned
/// only when there is none within the bound.
pub fn plan(arena: &mut Arena, start: Position, goal: Position) -> (found: Option<Vec<Position>>)
    requires
        old(arena).wf(),
    ensures
        final(arena).wf(),
        final(arena)@ == old(arena)@,
        match found {
            Some(path) => {
                &&& cleared(old(arena)@, start, goal).is_route(start, goal, path@)
                &&& path.len() <= old(arena)@.path_limit
                &&& forall|k: int|
                    0 <= k < path.len() - 1 ==> old(arena)@.is_free(#[trigger] path[k])
            },
            None => !has_route(old(arena)@, start, goal),
        },
{
    proof {
        arena.lemma_view_wf();
    }
    let ghost v0 = arena@;
    let start_occ = arena.unset_maybe(start.x, start.y);
    let goal_occ = arena.unset_maybe(goal.x, goal.y);
    let found = arena.route(start, goal);
    match start_occ {
        Some(occ) => {
            arena.set(start.x, start.y, occ);
        },
        None => {},
    }
    let ghost v3 = arena@;
    proof {
        assert(v0.cells.contains_key(start) ==> v0.in_range(start));
        assert(v0.cells.contains_key(goal) ==> v0.in_range(goal));
        assert(start != goal ==> v3.cells =~= v0.cells.remove(goal));
        assert(start == goal ==> v3.cells =~= v0.cells);
    }
    match goal_occ {
        Some(occ) => {
            arena.set(goal.x, goal.y, occ);
        },
        None => {},
    }
    proof {
        assert(arena@.cells =~= v0.cells);
        if found.is_some() {
            lemma_route_bounded_and_clear(old(arena)@, start, goal, found.unwrap()@);
        }
    }
    found
}

impl Default for AI {
    /// An agent without a route and without a target.
    fn default() -> (ai: AI)
        ensures
            ai.path@.len() == 0,
            ai.target.is_none(),
    {
        AI::new()
    }
}

impl AI {
    /// An agent without a route and without a target.
    pub fn new() -> (ai: AI)
        ensures
            ai.path@.len() == 0,
            ai.target.is_none(),
    {
        AI { path: VecDeque::new(), target: None }
    }

    /// Plans a route from `p` to `goal` and takes it as the agent's route.
    /// Where there is none, the agent keeps the route it had. The arena is
    /// left as it was.
    pub fn plan_path(&mut self, p: &Position, goal: &Position, arena: &mut Arena)
        requires
            old(arena).wf(),
        ensures
            final(arena).wf(),
            final(arena)@ == old(arena)@,
            final(self).target == old(self).target,
            has_route(old(arena)@, *p, *goal) ==> cleared(old(arena)@, *p, *goal).is_route(
                *p,
                *goal,
                final(self).path@,
            ),
            !has_route(old(arena)@, *p, *goal) ==> final(self).path@ == old(self).path@,
    {
        match plan(arena, *p, *goal) {
            Some(route) => {
                let mut path: VecDeque<Position> = VecDeque::new();
                let mut k: usize = 0;
                while k < route.len()
                    invariant
                        k <= route.len(),
                        path@ == route@.take(k as int),
                    decreases route.len() - k,
                {
                    path.push_back(route[k]);
                    proof {
                        assert(route@.take(k as int + 1) == route@.take(k as int).push(route@[k as int]));
                    }
                    k += 1;
                }
                proof {
                    assert(route@.take(route.len() as int) == route@);
                }
                self.path = path;
            },
            None => {},
        }
    }

    /// Drops the route and the target.
    pub fn clear(&mut self)
        ensures
            final(self).path@.len() == 0,
            final(self).target.is_none(),
    {
        self.path.clear();
        self.target = None;
    }
}

} // verus!
