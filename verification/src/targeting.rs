//! Target selection: what an agent without a route decides to head for, by
//! a weighted random policy per kind of agent.

use vstd::prelude::*;
use crate::arena::{Arena, ArenaView};
use crate::cell::Position;
use crate::chance::{draw_between, draw_one};
use crate::movement::{lemma_route_leads_on, route_ok, Segmented};
use crate::planner::{cleared, has_route, Target, AI};
use crate::spawn::first_unoccupied;

verus! {

/// Of ten rolls, a rat chases a berry on those up to this one.
pub const RAT_BERRY_PREFERENCE: u32 = 4;

/// A rat wanders on the rolls that follow, below the sum of this and the
/// berry preference.
pub const RAT_WANDER_PREFERENCE: u32 = 3;

/// Of ten rolls, a snake chases a rat on those up to this one.
pub const SNAKE_RAT_PREFERENCE: u32 = 5;

/// A snake chases a berry on the rolls that follow, up to the sum of this
/// and the rat preference.
pub const SNAKE_BERRY_PREFERENCE: u32 = 2;

/// A snake wanders on the rolls that follow, below the sum of this and the
/// two preferences before it.
pub const SNAKE_WANDER_PREFERENCE: u32 = 2;

/// How many cells a wandering agent tries before it gives up.
pub const WANDER_ATTEMPTS: u32 = 10;

/// What an agent decides to do in one planning cycle.
#[derive(Clone, Copy, Debug, PartialEq, Eq, Structural)]
pub enum Policy {
    ChaseBerry,
    ChaseRat,
    Wander,
    Rest,
}

/// A live entity and the cell it is on.
#[derive(Clone, Copy, Debug, PartialEq, Eq, Structural)]
pub struct Located {
    pub entity: u64,
    pub position: Position,
}

/// The policy of a rat for a roll: rolls 0 to 4 chase a berry, 5 and 6
/// wander, the others rest.
pub open spec fn rat_choice(roll: u32) -> Policy {
    if roll <= 4 {
        Policy::ChaseBerry
    } else if roll < 7 {
        Policy::Wander
    } else {
        Policy::Rest
    }
}

/// The policy of a snake for a roll: rolls 0 to 5 chase a rat, 6 and 7 chase
/// a berry, 8 wanders, the others rest.
pub open spec fn snake_choice(roll: u32) -> Policy {
    if roll <= 5 {
        Policy::ChaseRat
    } else if roll <= 7 {
        Policy::ChaseBerry
    } else if roll < 9 {
        Policy::Wander
    } else {
        Policy::Rest
    }
}

/// The policy of a rat for a roll.
pub fn rat_policy(roll: u32) -> (policy: Policy)
    ensures
        policy == rat_choice(roll),
{
    if roll <= RAT_BERRY_PREFERENCE {
        Policy::ChaseBerry
    } else if roll < RAT_WANDER_PREFERENCE + RAT_BERRY_PREFERENCE {
        Policy::Wander
    } else {
        Policy::Rest
    }
}

/// The policy of a snake for a roll.
pub fn snake_policy(roll: u32) -> (policy: Policy)
    ensures
        policy == snake_choice(roll),
{
    if roll <= SNAKE_RAT_PREFERENCE {
        Policy::ChaseRat
    } else if roll <= SNAKE_BERRY_PREFERENCE + SNAKE_RAT_PREFERENCE {
        Policy::ChaseBerry
    } else if roll < SNAKE_WANDER_PREFERENCE + SNAKE_BERRY_PREFERENCE + SNAKE_RAT_PREFERENCE {
        Policy::Wander
    } else {
        Policy::Rest
    }
}

/// How far apart two cells count for the choice of a target: the difference
/// of their coordinate sums. This is not the number of steps between them:
/// cells on one anti-diagonal count as no distance apart.
pub open spec fn reach(a: Position, b: Position) -> int {
    let d = a.x + a.y - b.x - b.y;
    if d < 0 {
        -d
    } else {
        d
    }
}

/// Whether `b` counts as within `limit` of `a`.
pub fn within_reach(a: &Position, b: &Position, limit: usize) -> (near: bool)
    ensures
        near == (reach(*a, *b) <= limit),
{
    let d: i64 = a.x as i64 + a.y as i64 - b.x as i64 - b.y as i64;
    let distance: u64 = if d < 0 {
        (-d) as u64
    } else {
        d as u64
    };
    distance <= limit as u64
}

/// The entity `e` is one of the candidates within `limit` of `position`.
pub open spec fn is_candidate(
    candidates: Seq<Located>,
    position: Position,
    limit: nat,
    e: u64,
) -> bool {
    exists|i: int|
        0 <= i < candidates.len() && (#[trigger] candidates[i]).entity == e && reach(
            position,
            candidates[i].position,
        ) <= limit
}

/// The entities of the candidates that are within `limit` of `position`, in
/// the order of the candidates and each as often as it occurs among them.
pub open spec fn entities_near(candidates: Seq<Located>, position: Position, limit: nat) -> Seq<u64>
    decreases candidates.len(),
{
    if candidates.len() == 0 {
        Seq::empty()
    } else {
        let rest = entities_near(candidates.drop_last(), position, limit);
        if reach(position, candidates.last().position) <= limit {
            rest.push(candidates.last().entity)
        } else {
            rest
        }
    }
}

/// The entities of the candidates that are within `limit` of `position`, in
/// the order of the candidates.
pub fn entities_within(candidates: &Vec<Located>, position: &Position, limit: usize) -> (near: Vec<
    u64,
>)
    ensures
        near@ == entities_near(candidates@, *position, limit as nat),
        forall|e: u64| near@.contains(e) <==> is_candidate(candidates@, *position, limit as nat, e),
{
    let mut near: Vec<u64> = Vec::new();
    let mut k: usize = 0;
    while k < candidates.len()
        invariant
            k <= candidates.len(),
            near@ == entities_near(candidates@.take(k as int), *position, limit as nat),
            forall|e: u64|
                near@.contains(e) <==> is_candidate(
                    candidates@.take(k as int),
                    *position,
                    limit as nat,
                    e,
                ),
        decreases candidates.len() - k,
    {
        let ghost before = near@;
        let ghost seen = candidates@.take(k as int);
        let ghost seen_next = candidates@.take(k as int + 1);
        let c = candidates[k];
        let close = within_reach(position, &c.position, limit);
        if close {
            near.push(c.entity);
        }
        proof {
            assert(seen_next == seen.push(c));
            assert(seen_next.drop_last() == seen);
            assert(seen_next.last() == c);
            assert forall|e: u64|
                near@.contains(e) <==> is_candidate(seen_next, *position, limit as nat, e) by {
                if near@.contains(e) {
                    let n = choose|n: int| 0 <= n < near@.len() && near@[n] == e;
                    if n < before.len() {
                        assert(before[n] == e);
                        assert(before.contains(e));
                        let i = choose|i: int|
                            0 <= i < seen.len() && (#[trigger] seen[i]).entity == e && reach(
                                *position,
                                seen[i].position,
                            ) <= limit;
                        assert(seen_next[i] == seen[i]);
                    } else {
                        assert(seen_next[k as int] == c);
                    }
                }
                if is_candidate(seen_next, *position, limit as nat, e) {
                    let i = choose|i: int|
                        0 <= i < seen_next.len() && (#[trigger] seen_next[i]).entity == e && reach(
                            *position,
                            seen_next[i].position,
                        ) <= limit;
                    if i < k {
                        assert(seen[i] == seen_next[i]);
                        assert(is_candidate(seen, *position, limit as nat, e));
                        assert(before.contains(e));
                        let n = choose|n: int| 0 <= n < before.len() && before[n] == e;
                        assert(near@[n] == e);
                    } else {
                        assert(near@[near@.len() - 1] == e);
                    }
                }
            }
        }
        k += 1;
    }
    proof {
        assert(candidates@.take(candidates.len() as int) == candidates@);
    }
    near
}

/// One of the candidates within `limit` of `position`, chosen at random, as
/// the entity to chase; none where no candidate is that near.
pub fn choose_random_entity(candidates: &Vec<Located>, position: &Position, limit: usize) -> (target:
    Option<Target>)
    ensures
        match target {
            Some(Target::Entity(e)) => is_candidate(candidates@, *position, limit as nat, e),
            Some(Target::Position(_)) => false,
            None => forall|e: u64| !is_candidate(candidates@, *position, limit as nat, e),
        },
{
    let near = entities_within(candidates, position, limit);
    match draw_one(&near) {
        Some(entity) => Some(Target::Entity(entity)),
        None => {
            proof {
                assert forall|e: u64| !is_candidate(candidates@, *position, limit as nat, e) by {
                    assert(!near@.contains(e));
                }
            }
            None
        },
    }
}

/// The cell lies in the box in which an agent at `position` looks for a cell
/// to wander to: within half the route bound along each axis, and inside
/// the arena.
pub open spec fn in_wander_box(v: ArenaView, position: Position, p: Position) -> bool {
    let half = (v.path_limit / 2) as int;
    &&& v.in_range(p)
    &&& position.x - half <= p.x <= position.x + half
    &&& position.y - half <= p.y <= position.y + half
}

/// The bounds between which the coordinates of a cell to wander to are
/// drawn for an agent at `position`: the least and the greatest x, then the
/// least and the greatest y, of the box around the agent. There are none
/// where the box has no cell.
pub fn wander_bounds(position: &Position, arena: &Arena) -> (b: Option<(i32, i32, i32, i32)>)
    requires
        arena.wf(),
    ensures
        match b {
            Some((x0, x1, y0, y1)) => x0 <= x1 && y0 <= y1 && forall|p: Position|
                in_wander_box(arena@, *position, p) <==> (x0 <= p.x <= x1 && y0 <= p.y <= y1),
            None => forall|p: Position| !in_wander_box(arena@, *position, p),
        },
{
    proof {
        arena.lemma_view_wf();
    }
    let half: i64 = if (arena.path_limit() / 2) as u64 > 0x1_0000_0000u64 {
        0x1_0000_0000
    } else {
        (arena.path_limit() / 2) as i64
    };
    let px: i64 = position.x as i64;
    let py: i64 = position.y as i64;
    let x_min: i64 = if px - half < 0 {
        0
    } else {
        px - half
    };
    let y_min: i64 = if py - half < 0 {
        0
    } else {
        py - half
    };
    let x_max: i64 = if px + half > arena.width() as i64 - 1 {
        arena.width() as i64 - 1
    } else {
        px + half
    };
    let y_max: i64 = if py + half > arena.height() as i64 - 1 {
        arena.height() as i64 - 1
    } else {
        py + half
    };
    proof {
        assert forall|p: Position| in_wander_box(arena@, *position, p) <==> (x_min <= p.x <= x_max
            && y_min <= p.y <= y_max) by {}
    }
    if x_min > x_max || y_min > y_max {
        None
    } else {
        Some((x_min as i32, x_max as i32, y_min as i32, y_max as i32))
    }
}

/// The first of the drawn cells that no occupant holds, as the cell to
/// wander to: every cell drawn before it is occupied. There is none where
/// every drawn cell is occupied.
pub fn first_free(arena: &Arena, draws: &Vec<Position>) -> (target: Option<Target>)
    requires
        arena.wf(),
    ensures
        match target {
            Some(Target::Position(p)) => !arena@.cells.contains_key(p) && exists|k: int|
                0 <= k < draws.len() && draws[k] == p && forall|j: int|
                    0 <= j < k ==> arena@.cells.contains_key(#[trigger] draws[j]),
            Some(Target::Entity(_)) => false,
            None => forall|k: int|
                0 <= k < draws.len() ==> arena@.cells.contains_key(#[trigger] draws[k]),
        },
{
    match first_unoccupied(arena, draws) {
        Some(p) => Some(Target::Position(p)),
        None => None,
    }
}

/// A free cell near `position`, chosen at random, as the cell to wander to.
/// As many cells of the box around the agent are drawn as the agent has
/// attempts, and the first unoccupied one is taken; none comes back where
/// the box has no cell or every draw hit an occupied cell, which cannot
/// happen when the box has a cell and every cell of it is free.
pub fn choose_random_unocc(position: &Position, arena: &Arena) -> (target: Option<Target>)
    requires
        arena.wf(),
    ensures
        match target {
            Some(Target::Position(p)) => arena@.is_free(p) && in_wander_box(arena@, *position, p),
            Some(Target::Entity(_)) => false,
            None => !(exists|p: Position| in_wander_box(arena@, *position, p)) || exists|
                p: Position,
            |
                in_wander_box(arena@, *position, p) && !arena@.is_free(p),
        },
{
    let (x_low, x_high, y_low, y_high) = match wander_bounds(position, arena) {
        None => {
            return None;
        },
        Some(bounds) => bounds,
    };
    let mut draws: Vec<Position> = Vec::new();
    let mut attempts: u32 = 0;
    while attempts < WANDER_ATTEMPTS
        invariant
            0 <= attempts <= WANDER_ATTEMPTS,
            draws.len() == attempts,
            x_low <= x_high,
            y_low <= y_high,
            forall|p: Position|
                in_wander_box(arena@, *position, p) <==> (x_low <= p.x <= x_high && y_low <= p.y
                    <= y_high),
            forall|j: int| 0 <= j < draws.len() ==> in_wander_box(arena@, *position, #[trigger] draws[j]),
        decreases WANDER_ATTEMPTS - attempts,
    {
        let x: i32 = draw_between(x_low, x_high);
        let y: i32 = draw_between(y_low, y_high);
        proof {
            assert(in_wander_box(arena@, *position, Position { x, y }));
        }
        draws.push(Position { x, y });
        attempts += 1;
    }
    let target = first_free(arena, &draws);
    proof {
        match target {
            Some(Target::Position(p)) => {
                assert(draws@.contains(p));
                let k = choose|k: int| 0 <= k < draws@.len() && draws@[k] == p;
                assert(in_wander_box(arena@, *position, draws[k]));
            },
            Some(Target::Entity(_)) => {},
            None => {
                let hit = draws[0];
                assert(in_wander_box(arena@, *position, hit) && !arena@.is_free(hit));
            },
        }
    }
    target
}

/// The cell that a target stands for: the cell itself, or the cell of the
/// first of the live entities that has the target's identifier. An entity
/// that is no longer among them stands for no cell.
pub open spec fn target_cell(target: Option<Target>, entities: Seq<Located>) -> Option<Position>
    decreases entities.len(),
{
    match target {
        None => None,
        Some(Target::Position(p)) => Some(p),
        Some(Target::Entity(e)) => if entities.len() == 0 {
            None
        } else if entities[0].entity == e {
            Some(entities[0].position)
        } else {
            target_cell(target, entities.skip(1))
        },
    }
}

/// The cell that the target stands for, if any.
pub fn resolve_target(target: Option<Target>, entities: &Vec<Located>) -> (goal: Option<Position>)
    ensures
        goal == target_cell(target, entities@),
{
    match target {
        None => None,
        Some(Target::Position(p)) => Some(p),
        Some(Target::Entity(e)) => {
            let mut k: usize = 0;
            proof {
                assert(entities@.skip(0) == entities@);
            }
            while k < entities.len()
                invariant
                    k <= entities.len(),
                    target == Some(Target::Entity(e)),
                    target_cell(target, entities@) == target_cell(target, entities@.skip(k as int)),
                decreases entities.len() - k,
            {
                proof {
                    assert(entities@.skip(k as int)[0] == entities@[k as int]);
                    assert(entities@.skip(k as int).skip(1) == entities@.skip(k as int + 1));
                }
                if entities[k].entity == e {
                    return Some(entities[k].position);
                }
                k += 1;
            }
            None
        },
    }
}

/// What an agent is left with after it took `target` as its target: where
/// the target stands for a cell, the target and a route to that cell, or the
/// route it had if there is none; where it stands for no cell, neither
/// target nor route.
pub open spec fn committed(
    before_path: Seq<Position>,
    position: Position,
    target: Option<Target>,
    entities: Seq<Located>,
    v: ArenaView,
    after_path: Seq<Position>,
    after_target: Option<Target>,
) -> bool {
    match target_cell(target, entities) {
        Some(goal) => {
            &&& after_target == target
            &&& has_route(v, position, goal) ==> cleared(v, position, goal).is_route(
                position,
                goal,
                after_path,
            )
            &&& !has_route(v, position, goal) ==> after_path == before_path
        },
        None => after_target.is_none() && after_path.len() == 0,
    }
}

/// The agent takes `target` as its target and plans a route to the cell it
/// stands for. A target that stands for no cell, such as an entity that is
/// gone, leaves the agent without target and route.
pub fn commit_target(
    ai: &mut AI,
    position: &Position,
    target: Option<Target>,
    entities: &Vec<Located>,
    arena: &mut Arena,
)
    requires
        old(arena).wf(),
    ensures
        final(arena).wf(),
        final(arena)@ == old(arena)@,
        committed(
            old(ai).path@,
            *position,
            target,
            entities@,
            old(arena)@,
            final(ai).path@,
            final(ai).target,
        ),
{
    ai.target = target;
    match resolve_target(target, entities) {
        Some(goal) => {
            ai.plan_path(position, &goal, arena);
        },
        None => {
            ai.clear();
        },
    }
}

/// The bounds between which the roll for a policy is drawn.
pub fn roll_bounds() -> (b: (i32, i32))
    ensures
        b == (0i32, 9i32),
{
    (0, 9)
}

/// A chased entity that is among the candidates stands for the cell of one
/// of them.
proof fn lemma_candidate_has_cell(candidates: Seq<Located>, position: Position, limit: nat, e: u64)
    requires
        is_candidate(candidates, position, limit, e),
    ensures
        target_cell(Some(Target::Entity(e)), candidates).is_some(),
    decreases candidates.len(),
{
    let i = choose|i: int|
        0 <= i < candidates.len() && (#[trigger] candidates[i]).entity == e && reach(
            position,
            candidates[i].position,
        ) <= limit;
    if candidates[0].entity != e {
        assert(candidates.skip(1)[i - 1] == candidates[i]);
        lemma_candidate_has_cell(candidates.skip(1), position, limit, e);
    }
}

/// What a chase after one of `candidates` leaves an agent with: an entity
/// within reach as its target and what `commit_target` makes of it, or, only
/// where no candidate is within reach, neither target nor route.
pub open spec fn chased(
    before_path: Seq<Position>,
    position: Position,
    candidates: Seq<Located>,
    v: ArenaView,
    after_path: Seq<Position>,
    after_target: Option<Target>,
) -> bool {
    match after_target {
        Some(Target::Entity(e)) => is_candidate(candidates, position, v.path_limit, e) && committed(
            before_path,
            position,
            after_target,
            candidates,
            v,
            after_path,
            after_target,
        ),
        Some(Target::Position(_)) => false,
        None => after_path.len() == 0 && forall|e: u64|
            !is_candidate(candidates, position, v.path_limit, e),
    }
}

/// What wandering leaves an agent with: a free cell of its box as its target
/// and what `commit_target` makes of it, or neither target nor route. A cell
/// stands for itself whichever entities live, so none are named here.
pub open spec fn wandered(
    before_path: Seq<Position>,
    position: Position,
    v: ArenaView,
    after_path: Seq<Position>,
    after_target: Option<Target>,
) -> bool {
    match after_target {
        Some(Target::Position(p)) => v.is_free(p) && in_wander_box(v, position, p) && committed(
            before_path,
            position,
            after_target,
            Seq::empty(),
            v,
            after_path,
            after_target,
        ),
        Some(Target::Entity(_)) => false,
        None => after_path.len() == 0,
    }
}

/// The agent chases one of the candidates within reach, chosen at random.
fn chase(ai: &mut AI, position: &Position, candidates: &Vec<Located>, arena: &mut Arena)
    requires
        old(arena).wf(),
    ensures
        final(arena).wf(),
        final(arena)@ == old(arena)@,
        chased(
            old(ai).path@,
            *position,
            candidates@,
            old(arena)@,
            final(ai).path@,
            final(ai).target,
        ),
        old(ai).path@.len() == 0 ==> route_ok(*position, final(ai).path@, old(arena)@),
{
    let target = choose_random_entity(candidates, position, arena.path_limit());
    proof {
        match target {
            Some(Target::Entity(e)) => {
                lemma_candidate_has_cell(candidates@, *position, arena@.path_limit, e);
            },
            _ => {},
        }
    }
    commit_target(ai, position, target, candidates, arena);
    proof {
        if old(ai).path@.len() == 0 {
            lemma_committed_leads_on(
                old(ai).path@,
                *position,
                target,
                candidates@,
                arena@,
                ai.path@,
                ai.target,
            );
        }
    }
}

/// The agent wanders to a free cell of its box, chosen at random.
fn wander(ai: &mut AI, position: &Position, arena: &mut Arena)
    requires
        old(arena).wf(),
    ensures
        final(arena).wf(),
        final(arena)@ == old(arena)@,
        wandered(old(ai).path@, *position, old(arena)@, final(ai).path@, final(ai).target),
        old(ai).path@.len() == 0 ==> route_ok(*position, final(ai).path@, old(arena)@),
{
    let target = choose_random_unocc(position, arena);
    let nobody: Vec<Located> = Vec::new();
    commit_target(ai, position, target, &nobody, arena);
    proof {
        assert(nobody@ == Seq::<Located>::empty());
        if old(ai).path@.len() == 0 {
            lemma_committed_leads_on(
                old(ai).path@,
                *position,
                target,
                nobody@,
                arena@,
                ai.path@,
                ai.target,
            );
        }
    }
}

/// One planning cycle of a rat whose roll is `roll`. By the policy that the
/// roll stands for, the rat chases a berry within reach, wanders to a free
/// cell of its box, or rests, which leaves it without target and route.
pub fn plan_rat_rolled(
    ai: &mut AI,
    position: &Position,
    berries: &Vec<Located>,
    arena: &mut Arena,
    roll: u32,
)
    requires
        old(arena).wf(),
    ensures
        final(arena).wf(),
        final(arena)@ == old(arena)@,
        match rat_choice(roll) {
            Policy::ChaseBerry => chased(
                old(ai).path@,
                *position,
                berries@,
                old(arena)@,
                final(ai).path@,
                final(ai).target,
            ),
            Policy::Wander => wandered(
                old(ai).path@,
                *position,
                old(arena)@,
                final(ai).path@,
                final(ai).target,
            ),
            _ => final(ai).target.is_none() && final(ai).path@.len() == 0,
        },
        old(ai).path@.len() == 0 ==> route_ok(*position, final(ai).path@, old(arena)@),
{
    match rat_policy(roll) {
        Policy::ChaseBerry => {
            chase(ai, position, berries, arena);
        },
        Policy::Wander => {
            wander(ai, position, arena);
        },
        _ => {
            ai.clear();
            proof {
                assert(ai.path@ =~= Seq::<Position>::empty());
            }
        },
    }
}

/// The target is one that a rat at `position` may choose: a berry within
/// reach, or a free cell of the box it wanders in.
pub open spec fn rat_target_ok(
    target: Target,
    position: Position,
    berries: Seq<Located>,
    v: ArenaView,
) -> bool {
    match target {
        Target::Entity(e) => is_candidate(berries, position, v.path_limit, e),
        Target::Position(p) => v.is_free(p) && in_wander_box(v, position, p),
    }
}

/// One planning cycle of a rat. A rat that has a route keeps it. One that
/// has none rolls for its policy and plans by it, as `plan_rat_rolled` says
/// for the roll: it ends with a target it may choose and what
/// `commit_target` makes of it, or without target and route.
pub fn plan_rat(ai: &mut AI, position: &Position, berries: &Vec<Located>, arena: &mut Arena)
    requires
        old(arena).wf(),
    ensures
        final(arena).wf(),
        final(arena)@ == old(arena)@,
        old(ai).path@.len() > 0 ==> final(ai).path@ == old(ai).path@ && final(ai).target == old(
            ai,
        ).target,
        old(ai).path@.len() == 0 ==> match final(ai).target {
            Some(t) => rat_target_ok(t, *position, berries@, old(arena)@) && committed(
                old(ai).path@,
                *position,
                Some(t),
                berries@,
                old(arena)@,
                final(ai).path@,
                final(ai).target,
            ),
            None => final(ai).path@.len() == 0,
        },
        old(ai).path@.len() == 0 ==> route_ok(*position, final(ai).path@, old(arena)@),
{
    if ai.path.len() > 0 {
        return;
    }
    let (low, high) = roll_bounds();
    let roll: i32 = draw_between(low, high);
    plan_rat_rolled(ai, position, berries, arena, roll as u32);
}

/// The route of an agent that had none and took a target leads on from
/// where it stands.
pub proof fn lemma_committed_leads_on(
    before_path: Seq<Position>,
    position: Position,
    target: Option<Target>,
    entities: Seq<Located>,
    v: ArenaView,
    after_path: Seq<Position>,
    after_target: Option<Target>,
)
    requires
        before_path.len() == 0,
        committed(before_path, position, target, entities, v, after_path, after_target),
    ensures
        route_ok(position, after_path, v),
        target_cell(target, entities).is_none() ==> after_target.is_none(),
        target_cell(target, entities).is_some() ==> after_target == target,
{
    match target_cell(target, entities) {
        Some(goal) => {
            if has_route(v, position, goal) {
                lemma_route_leads_on(v, position, goal, after_path);
            }
        },
        None => {},
    }
}

/// The target is one that a snake at `position` may choose: a rat or a
/// berry within reach, or a free cell of the box it wanders in.
pub open spec fn snake_target_ok(
    target: Target,
    position: Position,
    berries: Seq<Located>,
    rats: Seq<Located>,
    v: ArenaView,
) -> bool {
    match target {
        Target::Entity(e) => is_candidate(rats, position, v.path_limit, e) || is_candidate(
            berries,
            position,
            v.path_limit,
            e,
        ),
        Target::Position(p) => v.is_free(p) && in_wander_box(v, position, p),
    }
}

/// One planning cycle of a snake whose roll is `roll`, from the cell of its
/// head. By the policy that the roll stands for, the snake chases a rat
/// within reach, chases a berry within reach, wanders to a free cell of its
/// box, or rests, which leaves it without target and route.
pub fn plan_snake_rolled(
    ai: &mut AI,
    segments: &Segmented,
    berries: &Vec<Located>,
    rats: &Vec<Located>,
    arena: &mut Arena,
    roll: u32,
)
    requires
        old(arena).wf(),
        segments.segments.len() > 0,
    ensures
        final(arena).wf(),
        final(arena)@ == old(arena)@,
        match snake_choice(roll) {
            Policy::ChaseRat => chased(
                old(ai).path@,
                segments.positions()[0],
                rats@,
                old(arena)@,
                final(ai).path@,
                final(ai).target,
            ),
            Policy::ChaseBerry => chased(
                old(ai).path@,
                segments.positions()[0],
                berries@,
                old(arena)@,
                final(ai).path@,
                final(ai).target,
            ),
            Policy::Wander => wandered(
                old(ai).path@,
                segments.positions()[0],
                old(arena)@,
                final(ai).path@,
                final(ai).target,
            ),
            Policy::Rest => final(ai).target.is_none() && final(ai).path@.len() == 0,
        },
        old(ai).path@.len() == 0 ==> route_ok(
            segments.positions()[0],
            final(ai).path@,
            old(arena)@,
        ),
{
    let head = segments.head_position();
    match snake_policy(roll) {
        Policy::ChaseRat => {
            chase(ai, &head, rats, arena);
        },
        Policy::ChaseBerry => {
            chase(ai, &head, berries, arena);
        },
        Policy::Wander => {
            wander(ai, &head, arena);
        },
        Policy::Rest => {
            ai.clear();
            proof {
                assert(ai.path@ =~= Seq::<Position>::empty());
            }
        },
    }
}

/// One planning cycle of a snake, from the cell of its head. A snake that
/// has a route keeps it. One that has none rolls for its policy and plans by
/// it, as `plan_snake_rolled` says for the roll: it ends with a target it
/// may choose and a route to the cell of that target if there is one, or
/// without target and route.
pub fn plan_snake(
    ai: &mut AI,
    segments: &Segmented,
    berries: &Vec<Located>,
    rats: &Vec<Located>,
    arena: &mut Arena,
)
    requires
        old(arena).wf(),
        segments.segments.len() > 0,
    ensures
        final(arena).wf(),
        final(arena)@ == old(arena)@,
        old(ai).path@.len() > 0 ==> final(ai).path@ == old(ai).path@ && final(ai).target == old(
            ai,
        ).target,
        old(ai).path@.len() == 0 ==> match final(ai).target {
            Some(t) => snake_target_ok(t, segments.positions()[0], berries@, rats@, old(arena)@)
                && (committed(
                old(ai).path@,
                segments.positions()[0],
                Some(t),
                rats@,
                old(arena)@,
                final(ai).path@,
                final(ai).target,
            ) || committed(
                old(ai).path@,
                segments.positions()[0],
                Some(t),
                berries@,
                old(arena)@,
                final(ai).path@,
                final(ai).target,
            )),
            None => final(ai).path@.len() == 0,
        },
        old(ai).path@.len() == 0 ==> route_ok(
            segments.positions()[0],
            final(ai).path@,
            old(arena)@,
        ),
{
    if ai.path.len() > 0 {
        return;
    }
    let (low, high) = roll_bounds();
    let roll: i32 = draw_between(low, high);
    plan_snake_rolled(ai, segments, berries, rats, arena, roll as u32);
}

} // verus!
