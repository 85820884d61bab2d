use mongoose::arena::Arena;
use mongoose::cell::{Kind, Occupancy, Position};
use mongoose::interaction::{can_eat, resolve, Interaction, Scoreboard};
use mongoose::movement::{
    cell_is_held, direction_of_keys, grow_snake, move_and_grow_snake, move_mongoose,
    move_mongoose_segments, move_rat, move_snake, move_snake_segments, route_leads_on, Direction,
    MoveOutcome, Segment, Segmented,
};
use mongoose::planner::{Target, AI};

fn at(x: i32, y: i32) -> Position {
    Position { x, y }
}

fn cells(body: &Segmented) -> Vec<Position> {
    body.segments.iter().map(|s| s.position).collect()
}

fn snake_at(arena: &mut Arena, owner: u64, positions: &[(i32, i32)]) -> Segmented {
    let mut segments = Vec::new();
    for (i, (x, y)) in positions.iter().enumerate() {
        arena.set(*x, *y, Occupancy::Snake(owner));
        segments.push(Segment { entity: owner * 100 + i as u64, position: at(*x, *y) });
    }
    Segmented { segments }
}

fn route(ai: &mut AI, waypoints: &[(i32, i32)]) {
    for (x, y) in waypoints {
        ai.path.push_back(at(*x, *y));
    }
}

#[test]
fn body_follows_its_head_onto_a_free_cell() {
    let mut arena = Arena::new(10, 10, 8);
    let mut board = Scoreboard::new();
    let mut body = snake_at(&mut arena, 1, &[(5, 5), (5, 4), (5, 3)]);
    let mut ai = AI::new();
    route(&mut ai, &[(5, 6)]);
    let outcome = move_snake(1, &mut ai, &mut body, &mut arena, &mut board);
    assert_eq!(outcome, MoveOutcome::Moved);
    assert_eq!(cells(&body), vec![at(5, 6), at(5, 5), at(5, 4)]);
    assert!(!arena.isset(5, 3));
    assert_eq!(arena.occ(5, 6), Some(Occupancy::Snake(1)));
    assert!(arena.isset(5, 5));
    assert!(arena.isset(5, 4));
    assert_eq!(body.segments.len(), 3);
    assert_eq!(board, Scoreboard::new());
    assert!(ai.path.is_empty());
}

#[test]
fn eating_a_berry_scores_and_grows_the_snake_once() {
    let mut arena = Arena::new(10, 10, 8);
    let mut board = Scoreboard::new();
    let mut body = snake_at(&mut arena, 1, &[(5, 5), (5, 4), (5, 3)]);
    let mut ai = AI::new();
    route(&mut ai, &[(5, 6), (5, 7), (5, 8), (5, 9)]);
    assert_eq!(move_snake(1, &mut ai, &mut body, &mut arena, &mut board), MoveOutcome::Moved);
    arena.set(5, 7, Occupancy::Berry(42));

    let outcome = move_snake(1, &mut ai, &mut body, &mut arena, &mut board);
    assert_eq!(outcome, MoveOutcome::Ate { victim: Occupancy::Berry(42), grow: true });
    assert_eq!(arena.occ(5, 7), Some(Occupancy::Snake(1)));
    assert_eq!(board.berries_eaten_by_snakes, 1);
    assert_eq!(cells(&body), vec![at(5, 7), at(5, 6), at(5, 5)]);
    assert!(!arena.isset(5, 4));

    grow_snake(&mut body, 777);
    assert_eq!(body.segments.len(), 4);
    assert_eq!(cells(&body), vec![at(5, 7), at(5, 6), at(5, 5), at(5, 5)]);
    assert_eq!(body.segments[3].entity, 777);

    assert_eq!(move_snake(1, &mut ai, &mut body, &mut arena, &mut board), MoveOutcome::Moved);
    assert_eq!(cells(&body), vec![at(5, 8), at(5, 7), at(5, 6), at(5, 5)]);
    assert!(arena.isset(5, 5));
    assert_eq!(body.segments.len(), 4);

    assert_eq!(move_snake(1, &mut ai, &mut body, &mut arena, &mut board), MoveOutcome::Moved);
    assert_eq!(cells(&body), vec![at(5, 9), at(5, 8), at(5, 7), at(5, 6)]);
    assert!(!arena.isset(5, 5));
    assert_eq!(body.segments.len(), 4);
    assert_eq!(board.berries_eaten_by_snakes, 1);
}

#[test]
fn second_agent_is_blocked_at_a_cell_the_first_one_took() {
    let mut arena = Arena::new(6, 6, 8);
    let mut board = Scoreboard::new();
    let mut first = at(1, 2);
    let mut second = at(3, 2);
    arena.set(1, 2, Occupancy::Rat(1));
    arena.set(3, 2, Occupancy::Rat(2));
    let mut ai_first = AI::new();
    let mut ai_second = AI::new();
    ai_first.target = Some(Target::Position(at(2, 2)));
    ai_second.target = Some(Target::Position(at(2, 2)));
    ai_first.plan_path(&at(1, 2), &at(2, 2), &mut arena);
    ai_second.plan_path(&at(3, 2), &at(2, 2), &mut arena);
    assert_eq!(ai_first.path.back(), Some(&at(2, 2)));
    assert_eq!(ai_second.path.back(), Some(&at(2, 2)));
    ai_first.path.clear();
    ai_first.path.push_back(at(2, 2));
    ai_second.path.clear();
    ai_second.path.push_back(at(2, 2));

    assert_eq!(move_rat(1, &mut ai_first, &mut first, &mut arena, &mut board), MoveOutcome::Moved);
    assert_eq!(first, at(2, 2));
    assert_eq!(arena.occ(2, 2), Some(Occupancy::Rat(1)));
    assert!(!arena.isset(1, 2));

    let outcome = move_rat(2, &mut ai_second, &mut second, &mut arena, &mut board);
    assert_eq!(outcome, MoveOutcome::Blocked(Occupancy::Rat(1)));
    assert_eq!(second, at(3, 2));
    assert!(ai_second.path.is_empty());
    assert_eq!(ai_second.target, None);
    assert_eq!(arena.occ(3, 2), Some(Occupancy::Rat(2)));
    assert_eq!(arena.occ(2, 2), Some(Occupancy::Rat(1)));
}

#[test]
fn empty_route_means_no_move() {
    let mut arena = Arena::new(6, 6, 8);
    let mut board = Scoreboard::new();
    let mut body = snake_at(&mut arena, 3, &[(2, 2), (2, 1)]);
    let mut ai = AI::new();
    ai.target = Some(Target::Entity(9));
    assert_eq!(move_snake(3, &mut ai, &mut body, &mut arena, &mut board), MoveOutcome::Idle);
    assert_eq!(cells(&body), vec![at(2, 2), at(2, 1)]);
    assert_eq!(ai.target, Some(Target::Entity(9)));
    let mut rat = at(4, 4);
    arena.set(4, 4, Occupancy::Rat(8));
    let mut rat_ai = AI::new();
    assert_eq!(move_rat(8, &mut rat_ai, &mut rat, &mut arena, &mut board), MoveOutcome::Idle);
    assert_eq!(rat, at(4, 4));
}

#[test]
fn snake_eats_a_rat_and_is_blocked_by_the_mongoose() {
    let mut arena = Arena::new(8, 8, 8);
    let mut board = Scoreboard::new();
    let mut body = snake_at(&mut arena, 1, &[(3, 3), (2, 3)]);
    arena.set(4, 3, Occupancy::Rat(50));
    arena.set(5, 3, Occupancy::Mongoose(60));
    let mut ai = AI::new();
    route(&mut ai, &[(4, 3), (5, 3), (6, 3)]);
    assert_eq!(
        move_snake(1, &mut ai, &mut body, &mut arena, &mut board),
        MoveOutcome::Ate { victim: Occupancy::Rat(50), grow: true }
    );
    assert_eq!(board.rats_eaten_by_snakes, 1);
    assert_eq!(cells(&body), vec![at(4, 3), at(3, 3)]);
    ai.target = Some(Target::Position(at(6, 3)));
    assert_eq!(
        move_snake(1, &mut ai, &mut body, &mut arena, &mut board),
        MoveOutcome::Blocked(Occupancy::Mongoose(60))
    );
    assert_eq!(cells(&body), vec![at(4, 3), at(3, 3)]);
    assert!(ai.path.is_empty());
    assert_eq!(ai.target, None);
    assert_eq!(arena.occ(5, 3), Some(Occupancy::Mongoose(60)));
}

#[test]
fn rat_eats_a_berry_without_growing() {
    let mut arena = Arena::new(6, 6, 8);
    let mut board = Scoreboard::new();
    let mut rat = at(1, 1);
    arena.set(1, 1, Occupancy::Rat(5));
    arena.set(1, 2, Occupancy::Berry(6));
    let mut ai = AI::new();
    route(&mut ai, &[(1, 2)]);
    assert_eq!(
        move_rat(5, &mut ai, &mut rat, &mut arena, &mut board),
        MoveOutcome::Ate { victim: Occupancy::Berry(6), grow: false }
    );
    assert_eq!(rat, at(1, 2));
    assert_eq!(arena.occ(1, 2), Some(Occupancy::Rat(5)));
    assert!(!arena.isset(1, 1));
    assert_eq!(board.berries_eaten_by_rats, 1);
}

#[test]
fn mongoose_steps_eats_and_stops_at_the_edge() {
    let mut arena = Arena::new(4, 4, 8);
    let mut board = Scoreboard::new();
    let mut body = Segmented {
        segments: vec![
            Segment { entity: 10, position: at(2, 2) },
            Segment { entity: 11, position: at(3, 2) },
            Segment { entity: 12, position: at(3, 1) },
        ],
    };
    for s in &body.segments {
        arena.set(s.position.x, s.position.y, Occupancy::Mongoose(s.entity));
    }
    arena.set(2, 3, Occupancy::Berry(70));
    assert_eq!(
        move_mongoose(1, &mut body, Direction::Up, &mut arena, &mut board),
        MoveOutcome::Ate { victim: Occupancy::Berry(70), grow: false }
    );
    assert_eq!(cells(&body), vec![at(2, 3), at(2, 2), at(3, 2)]);
    assert!(!arena.isset(3, 1));
    assert_eq!(board.berries_eaten_by_mongoose, 1);
    assert_eq!(board.score(), Some(1));
    assert_eq!(move_mongoose(1, &mut body, Direction::Up, &mut arena, &mut board), MoveOutcome::Idle);
    assert_eq!(cells(&body), vec![at(2, 3), at(2, 2), at(3, 2)]);
    arena.set(1, 3, Occupancy::Snake(80));
    assert_eq!(
        move_mongoose(1, &mut body, Direction::Left, &mut arena, &mut board),
        MoveOutcome::Blocked(Occupancy::Snake(80))
    );
    assert_eq!(
        move_mongoose(1, &mut body, Direction::Down, &mut arena, &mut board),
        MoveOutcome::Blocked(Occupancy::Mongoose(10))
    );
    assert_eq!(move_mongoose(1, &mut body, Direction::Right, &mut arena, &mut board), MoveOutcome::Moved);
    assert_eq!(cells(&body), vec![at(3, 3), at(2, 3), at(2, 2)]);
    assert_eq!(arena.occ(3, 3), Some(Occupancy::Mongoose(1)));
    assert!(!arena.isset(3, 2));
}

#[test]
fn segment_shifts_on_their_own() {
    let mut arena = Arena::new(6, 6, 8);
    let mut snake = snake_at(&mut arena, 2, &[(1, 1), (1, 0)]);
    move_snake_segments(2, at(2, 1), &mut snake, &mut arena);
    assert_eq!(cells(&snake), vec![at(2, 1), at(1, 1)]);
    assert!(!arena.isset(1, 0));
    let mut goose = Segmented { segments: vec![Segment { entity: 1, position: at(4, 4) }] };
    arena.set(4, 4, Occupancy::Mongoose(1));
    move_mongoose_segments(&mut arena, 1, &mut goose, 0, -1);
    assert_eq!(cells(&goose), vec![at(4, 3)]);
    assert!(!arena.isset(4, 4));
    assert_eq!(arena.occ(4, 3), Some(Occupancy::Mongoose(1)));
}

#[test]
fn a_body_that_enters_from_outside_frees_nothing_there() {
    let mut arena = Arena::new(5, 5, 8);
    let mut snake = snake_at(&mut arena, 4, &[(0, 2), (-1, 2), (-2, 2)]);
    assert!(arena.isset(0, 2));
    move_snake_segments(4, at(1, 2), &mut snake, &mut arena);
    assert_eq!(cells(&snake), vec![at(1, 2), at(0, 2), at(-1, 2)]);
    assert!(arena.isset(0, 2));
    assert!(arena.isset(1, 2));
}

#[test]
fn keys_give_one_direction_or_none() {
    assert_eq!(direction_of_keys(true, false, false, false), Some(Direction::Left));
    assert_eq!(direction_of_keys(false, true, false, false), Some(Direction::Right));
    assert_eq!(direction_of_keys(false, false, true, false), Some(Direction::Up));
    assert_eq!(direction_of_keys(false, false, false, true), Some(Direction::Down));
    assert_eq!(direction_of_keys(false, false, false, false), None);
    assert_eq!(direction_of_keys(true, false, true, false), None);
    assert_eq!(direction_of_keys(true, true, false, false), None);
    assert_eq!(direction_of_keys(true, true, true, false), Some(Direction::Up));
    assert_eq!(direction_of_keys(true, true, true, true), None);
}

#[test]
fn who_eats_whom() {
    assert!(can_eat(Kind::Mongoose, Kind::Berry));
    assert!(can_eat(Kind::Mongoose, Kind::Rat));
    assert!(!can_eat(Kind::Mongoose, Kind::Snake));
    assert!(!can_eat(Kind::Mongoose, Kind::Mongoose));
    assert!(can_eat(Kind::Rat, Kind::Berry));
    assert!(!can_eat(Kind::Rat, Kind::Rat));
    assert!(!can_eat(Kind::Rat, Kind::Snake));
    assert!(!can_eat(Kind::Rat, Kind::Mongoose));
    assert!(can_eat(Kind::Snake, Kind::Berry));
    assert!(can_eat(Kind::Snake, Kind::Rat));
    assert!(!can_eat(Kind::Snake, Kind::Snake));
    assert!(!can_eat(Kind::Snake, Kind::Mongoose));
    assert!(!can_eat(Kind::Berry, Kind::Berry));
    assert!(!can_eat(Kind::Berry, Kind::Rat));
    assert_eq!(resolve(Kind::Rat, None), Interaction::Proceed);
    assert_eq!(
        resolve(Kind::Rat, Some(Occupancy::Berry(3))),
        Interaction::Consume(Occupancy::Berry(3))
    );
    assert_eq!(
        resolve(Kind::Rat, Some(Occupancy::Snake(4))),
        Interaction::Block(Occupancy::Snake(4))
    );
}

#[test]
fn scoreboard_counts_each_pair_and_sums_the_players_score() {
    let mut board = Scoreboard::new();
    board.record(Kind::Mongoose, Kind::Berry);
    board.record(Kind::Mongoose, Kind::Rat);
    board.record(Kind::Mongoose, Kind::Rat);
    board.record(Kind::Rat, Kind::Berry);
    board.record(Kind::Snake, Kind::Berry);
    board.record(Kind::Snake, Kind::Rat);
    board.record(Kind::Snake, Kind::Mongoose);
    assert_eq!(board.berries_eaten_by_mongoose, 1);
    assert_eq!(board.rats_eaten_by_mongoose, 2);
    assert_eq!(board.berries_eaten_by_rats, 1);
    assert_eq!(board.berries_eaten_by_snakes, 1);
    assert_eq!(board.rats_eaten_by_snakes, 1);
    assert_eq!(board.snakes_killed, 0);
    assert_eq!(board.score(), Some(3));
    board.snakes_killed = usize::MAX;
    assert_eq!(board.score(), None);
}

#[test]
fn a_snake_that_eats_is_one_segment_longer_after_the_step() {
    let mut arena = Arena::new(10, 10, 8);
    let mut board = Scoreboard::new();
    let mut body = snake_at(&mut arena, 1, &[(5, 5), (5, 4), (5, 3)]);
    arena.set(5, 6, Occupancy::Berry(42));
    let mut ai = AI::new();
    route(&mut ai, &[(5, 6), (5, 7), (5, 8)]);
    let outcome = move_and_grow_snake(1, &mut ai, &mut body, &mut arena, &mut board, 900);
    assert_eq!(outcome, MoveOutcome::Ate { victim: Occupancy::Berry(42), grow: true });
    assert_eq!(body.segments.len(), 4);
    assert_eq!(cells(&body), vec![at(5, 6), at(5, 5), at(5, 4), at(5, 4)]);
    assert_eq!(body.segments[3].entity, 900);
    assert_eq!(board.berries_eaten_by_snakes, 1);
    let outcome = move_and_grow_snake(1, &mut ai, &mut body, &mut arena, &mut board, 901);
    assert_eq!(outcome, MoveOutcome::Moved);
    assert_eq!(body.segments.len(), 4);
    assert_eq!(cells(&body), vec![at(5, 7), at(5, 6), at(5, 5), at(5, 4)]);
    assert!(arena.isset(5, 4));
    let outcome = move_and_grow_snake(1, &mut ai, &mut body, &mut arena, &mut board, 902);
    assert_eq!(outcome, MoveOutcome::Moved);
    assert_eq!(body.segments.len(), 4);
    assert!(!arena.isset(5, 4));
    assert_eq!(
        move_and_grow_snake(1, &mut ai, &mut body, &mut arena, &mut board, 903),
        MoveOutcome::Idle
    );
    assert_eq!(body.segments.len(), 4);
}

#[test]
fn chains_are_told_from_other_bodies() {
    let body = |cells: &[(i32, i32)]| Segmented {
        segments: cells
            .iter()
            .enumerate()
            .map(|(i, (x, y))| Segment { entity: i as u64, position: at(*x, *y) })
            .collect(),
    };
    assert!(body(&[(1, 1)]).is_chain());
    assert!(body(&[(1, 1), (1, 2), (2, 2)]).is_chain());
    assert!(body(&[(1, 1), (1, 2), (1, 2)]).is_chain());
    assert!(body(&[(1, 1), (1, 1), (1, 1)]).is_chain());
    assert!(!body(&[]).is_chain());
    assert!(!body(&[(1, 1), (2, 2)]).is_chain());
    assert!(!body(&[(1, 1), (1, 3)]).is_chain());
    assert!(!body(&[(1, 1), (1, 1), (1, 2)]).is_chain());
    assert!(!body(&[(1, 1), (1, 2), (1, 1)]).is_chain());
    assert!(!body(&[(1, 1), (1, 2), (2, 2), (2, 1), (1, 1)]).is_chain());
    assert!(!body(&[(1, 2), (1, 1), (1, 2), (1, 2)]).is_chain());
}

#[test]
fn a_body_is_held_when_the_arena_records_its_cells() {
    let mut arena = Arena::new(5, 5, 8);
    let snake = snake_at(&mut arena, 1, &[(0, 2), (-1, 2)]);
    assert!(snake.is_held(&arena, Kind::Snake));
    assert!(!snake.is_held(&arena, Kind::Rat));
    assert!(cell_is_held(&arena, &at(0, 2), Kind::Snake));
    assert!(cell_is_held(&arena, &at(-1, 2), Kind::Snake));
    assert!(cell_is_held(&arena, &at(7, 7), Kind::Berry));
    assert!(!cell_is_held(&arena, &at(1, 1), Kind::Snake));
    arena.unset(0, 2);
    assert!(!snake.is_held(&arena, Kind::Snake));
}

#[test]
fn a_route_leads_on_when_it_steps_from_the_head_inside_the_arena() {
    let arena = Arena::new(5, 5, 8);
    let mut ai = AI::new();
    assert!(route_leads_on(&at(2, 2), &ai, &arena));
    route(&mut ai, &[(2, 3), (3, 3), (3, 4)]);
    assert!(route_leads_on(&at(2, 2), &ai, &arena));
    assert!(!route_leads_on(&at(2, 1), &ai, &arena));
    let mut leaving = AI::new();
    route(&mut leaving, &[(2, 4), (2, 5)]);
    assert!(!route_leads_on(&at(2, 3), &leaving, &arena));
    let mut jumping = AI::new();
    route(&mut jumping, &[(2, 3), (4, 3)]);
    assert!(!route_leads_on(&at(2, 2), &jumping, &arena));
    let mut planned = AI::new();
    let mut grid = Arena::new(5, 5, 8);
    grid.set(0, 0, Occupancy::Rat(1));
    planned.plan_path(&at(0, 0), &at(3, 2), &mut grid);
    assert!(!planned.path.is_empty());
    assert!(route_leads_on(&at(0, 0), &planned, &grid));
}

#[test]
fn fresh_agents_and_scoreboards_are_empty() {
    let ai = AI::default();
    assert!(ai.path.is_empty());
    assert_eq!(ai.target, None);
    assert_eq!(Scoreboard::default(), Scoreboard::new());
    assert!(Scoreboard::default().has_room());
    let mut full = Scoreboard::new();
    full.rats_eaten_by_snakes = usize::MAX;
    assert!(!full.has_room());
    let mut ai = AI::new();
    ai.path.push_back(at(1, 1));
    ai.target = Some(Target::Entity(3));
    ai.clear();
    assert!(ai.path.is_empty());
    assert_eq!(ai.target, None);
}

#[test]
fn of_two_snakes_the_first_takes_the_cell_and_the_second_gives_up() {
    let mut arena = Arena::new(8, 8, 8);
    let mut board = Scoreboard::new();
    let mut first = snake_at(&mut arena, 1, &[(2, 3), (1, 3)]);
    let mut second = snake_at(&mut arena, 2, &[(4, 3), (5, 3), (6, 3)]);
    let mut ai_first = AI::new();
    let mut ai_second = AI::new();
    route(&mut ai_first, &[(3, 3), (3, 4)]);
    route(&mut ai_second, &[(3, 3), (3, 2)]);
    ai_second.target = Some(Target::Position(at(3, 2)));

    assert_eq!(
        move_snake(1, &mut ai_first, &mut first, &mut arena, &mut board),
        MoveOutcome::Moved
    );
    assert_eq!(arena.occ(3, 3), Some(Occupancy::Snake(1)));
    assert_eq!(cells(&first), vec![at(3, 3), at(2, 3)]);
    assert!(second.is_held(&arena, Kind::Snake));

    assert_eq!(
        move_snake(2, &mut ai_second, &mut second, &mut arena, &mut board),
        MoveOutcome::Blocked(Occupancy::Snake(1))
    );
    assert!(ai_second.path.is_empty());
    assert_eq!(ai_second.target, None);
    assert_eq!(cells(&second), vec![at(4, 3), at(5, 3), at(6, 3)]);
    assert!(arena.isset(4, 3) && arena.isset(5, 3) && arena.isset(6, 3));
    assert_eq!(arena.occ(3, 3), Some(Occupancy::Snake(1)));
    assert_eq!(board, Scoreboard::new());
}
