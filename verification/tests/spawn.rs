use mongoose::arena::Arena;
use mongoose::cell::{Kind, Occupancy, Position};
use mongoose::movement::{Direction, Segment};
use mongoose::spawn::{
    cell_bounds, entry_bounds, find_free_cell, find_snake_entry, first_free_entry,
    first_unoccupied, middle_bounds, place_body, side_bounds, side_numbered, snake_entry,
    spawn_mongoose, spawn_snake, Entry,
};

fn at(x: i32, y: i32) -> Position {
    Position { x, y }
}

#[test]
fn mongoose_starts_in_the_middle() {
    let mut arena = Arena::new(20, 20, 8);
    let goose = spawn_mongoose(&mut arena, 1, 2, 3);
    let cells: Vec<Position> = goose.segments.iter().map(|s| s.position).collect();
    assert_eq!(cells, vec![at(10, 10), at(11, 10), at(11, 9)]);
    let ids: Vec<u64> = goose.segments.iter().map(|s| s.entity).collect();
    assert_eq!(ids, vec![1, 2, 3]);
    assert_eq!(arena.occ(10, 10), Some(Occupancy::Mongoose(1)));
    assert_eq!(arena.occ(11, 10), Some(Occupancy::Mongoose(2)));
    assert_eq!(arena.occ(11, 9), Some(Occupancy::Mongoose(3)));
    assert_eq!(goose.head_position(), at(10, 10));
}

#[test]
fn snake_enters_with_its_body_outside() {
    let mut arena = Arena::new(20, 20, 8);
    let snake = spawn_snake(&mut arena, 3, 0, 1, -1, 0, &vec![7, 8, 9]);
    let cells: Vec<Position> = snake.segments.iter().map(|s| s.position).collect();
    assert_eq!(cells, vec![at(3, 0), at(2, 0), at(1, 0)]);
    assert_eq!(arena.occ(3, 0), Some(Occupancy::Snake(7)));
    assert_eq!(arena.occ(2, 0), Some(Occupancy::Snake(8)));
    assert_eq!(arena.occ(1, 0), Some(Occupancy::Snake(9)));

    let edge = spawn_snake(&mut arena, 19, 5, 3, 1, 0, &vec![1, 2, 3, 4, 5]);
    let cells: Vec<Position> = edge.segments.iter().map(|s| s.position).collect();
    assert_eq!(cells, vec![at(19, 5), at(20, 5), at(21, 5), at(22, 5), at(23, 5)]);
    assert_eq!(arena.occ(19, 5), Some(Occupancy::Snake(1)));
    assert!(!arena.isset(20, 5));

    let short = spawn_snake(&mut arena, 4, 19, 0, 0, 1, &vec![11, 12]);
    let cells: Vec<Position> = short.segments.iter().map(|s| s.position).collect();
    assert_eq!(cells, vec![at(4, 19), at(4, 20)]);
}

#[test]
fn entries_lie_on_the_four_sides() {
    let arena = Arena::new(20, 12, 8);
    assert_eq!(
        snake_entry(&arena, Direction::Left, 5),
        Entry { x: 0, y: 5, delta_x: -1, delta_y: 0 }
    );
    assert_eq!(
        snake_entry(&arena, Direction::Up, 5),
        Entry { x: 5, y: 11, delta_x: 0, delta_y: 1 }
    );
    assert_eq!(
        snake_entry(&arena, Direction::Right, 5),
        Entry { x: 19, y: 5, delta_x: 1, delta_y: 0 }
    );
    assert_eq!(
        snake_entry(&arena, Direction::Down, 5),
        Entry { x: 5, y: 0, delta_x: 0, delta_y: -1 }
    );
}

#[test]
fn a_found_entry_is_free_and_on_a_side() {
    let mut arena = Arena::new(8, 8, 8);
    arena.set(0, 3, Occupancy::Berry(1));
    for _ in 0..50 {
        let (entry, n) = find_snake_entry(&arena, 1000).expect("most of the edge is free");
        assert!((0..=3).contains(&n));
        assert!(!arena.isset(entry.x, entry.y));
        let on_left = entry.x == 0 && (entry.delta_x, entry.delta_y) == (-1, 0);
        let on_right = entry.x == 7 && (entry.delta_x, entry.delta_y) == (1, 0);
        let on_top = entry.y == 7 && (entry.delta_x, entry.delta_y) == (0, 1);
        let on_bottom = entry.y == 0 && (entry.delta_x, entry.delta_y) == (0, -1);
        assert!(on_left || on_right || on_top || on_bottom);
        assert!((0..8).contains(&entry.x) && (0..8).contains(&entry.y));
    }
    assert_eq!(find_snake_entry(&arena, 0), None);
    assert_eq!(find_snake_entry(&Arena::new(5, 1, 8), 10), None);
}

#[test]
fn a_found_cell_is_free() {
    let mut arena = Arena::new(3, 2, 8);
    arena.set(0, 0, Occupancy::Rat(1));
    arena.set(1, 0, Occupancy::Rat(2));
    arena.set(2, 0, Occupancy::Rat(3));
    arena.set(0, 1, Occupancy::Rat(4));
    arena.set(1, 1, Occupancy::Rat(5));
    for _ in 0..20 {
        assert_eq!(find_free_cell(&arena, 10_000), Some(at(2, 1)));
    }
    arena.set(2, 1, Occupancy::Rat(6));
    assert_eq!(find_free_cell(&arena, 100), None);
    assert_eq!(find_free_cell(&Arena::new(4, 4, 8), 0), None);
    assert_eq!(find_free_cell(&Arena::new(0, 4, 8), 10), None);
    assert!(find_free_cell(&Arena::new(4, 4, 8), 1).is_some());
}

#[test]
fn placing_a_body_tags_each_cell_with_its_segment() {
    let mut arena = Arena::new(4, 4, 8);
    let body = vec![
        Segment { entity: 5, position: at(1, 1) },
        Segment { entity: 6, position: at(1, 2) },
        Segment { entity: 7, position: at(-1, 2) },
        Segment { entity: 8, position: at(-1, 2) },
    ];
    place_body(&mut arena, &body, Kind::Rat);
    assert_eq!(arena.occ(1, 1), Some(Occupancy::Rat(5)));
    assert_eq!(arena.occ(1, 2), Some(Occupancy::Rat(6)));
    assert_eq!(arena.occ(-1, 2), None);
    assert_eq!(Occupancy::of(Kind::Snake, 3), Occupancy::Snake(3));
    assert_eq!(Occupancy::Berry(4).kind(), Kind::Berry);
    assert_eq!(Occupancy::Mongoose(4).entity(), 4);
}

#[test]
fn bounds_of_the_spawn_draws() {
    let arena = Arena::new(20, 12, 8);
    assert_eq!(cell_bounds(&arena), Some((0, 19, 0, 11)));
    assert_eq!(cell_bounds(&Arena::new(1, 1, 8)), Some((0, 0, 0, 0)));
    assert_eq!(cell_bounds(&Arena::new(0, 12, 8)), None);
    assert_eq!(cell_bounds(&Arena::new(12, 0, 8)), None);
    assert_eq!(entry_bounds(&arena), Some((0, 10)));
    assert_eq!(entry_bounds(&Arena::new(20, 2, 8)), Some((0, 0)));
    assert_eq!(entry_bounds(&Arena::new(20, 1, 8)), None);
    assert_eq!(side_bounds(), (0, 3));
    assert_eq!(middle_bounds(), (0, 3));
}

#[test]
fn sides_by_number() {
    assert_eq!(side_numbered(0), Direction::Left);
    assert_eq!(side_numbered(1), Direction::Up);
    assert_eq!(side_numbered(2), Direction::Right);
    assert_eq!(side_numbered(3), Direction::Down);
    assert_eq!(side_numbered(-1), Direction::Down);
    assert_eq!(side_numbered(4), Direction::Down);
}

#[test]
fn the_first_unoccupied_cell_of_the_draws() {
    let mut arena = Arena::new(4, 4, 8);
    arena.set(0, 0, Occupancy::Rat(1));
    arena.set(1, 0, Occupancy::Rat(2));
    assert_eq!(
        first_unoccupied(&arena, &vec![at(0, 0), at(1, 0), at(2, 0), at(3, 0)]),
        Some(at(2, 0))
    );
    assert_eq!(first_unoccupied(&arena, &vec![at(1, 0), at(0, 0)]), None);
    assert_eq!(first_unoccupied(&arena, &Vec::new()), None);
    assert_eq!(first_unoccupied(&arena, &vec![at(0, 0), at(9, 9)]), Some(at(9, 9)));
}

#[test]
fn the_first_entry_with_a_free_head_cell() {
    let mut arena = Arena::new(8, 6, 8);
    arena.set(0, 3, Occupancy::Berry(1));
    arena.set(7, 2, Occupancy::Berry(2));
    let draws = vec![(0, 3), (2, 2), (1, 4), (3, 0)];
    assert_eq!(
        first_free_entry(&arena, &draws),
        Some(Entry { x: 4, y: 5, delta_x: 0, delta_y: 1 })
    );
    assert_eq!(first_free_entry(&arena, &vec![(2, 2), (0, 3)]), None);
    assert_eq!(first_free_entry(&arena, &Vec::new()), None);
    assert_eq!(
        first_free_entry(&arena, &vec![(3, 1)]),
        Some(Entry { x: 1, y: 0, delta_x: 0, delta_y: -1 })
    );
}
