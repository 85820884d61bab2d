use mongoose::arena::Arena;
use mongoose::cell::{Occupancy, Position};
use mongoose::movement::{Segment, Segmented};
use mongoose::planner::{Target, AI};
use mongoose::targeting::{
    choose_random_entity, choose_random_unocc, commit_target, entities_within, first_free,
    plan_rat, plan_rat_rolled, plan_snake, plan_snake_rolled, rat_policy, resolve_target,
    roll_bounds, snake_policy, wander_bounds, within_reach, Located, Policy,
};

fn at(x: i32, y: i32) -> Position {
    Position { x, y }
}

fn seen(entity: u64, x: i32, y: i32) -> Located {
    Located { entity, position: at(x, y) }
}

#[test]
fn rat_policy_table() {
    for roll in 0..=4 {
        assert_eq!(rat_policy(roll), Policy::ChaseBerry);
    }
    assert_eq!(rat_policy(5), Policy::Wander);
    assert_eq!(rat_policy(6), Policy::Wander);
    for roll in 7..10 {
        assert_eq!(rat_policy(roll), Policy::Rest);
    }
}

#[test]
fn snake_policy_table() {
    for roll in 0..=5 {
        assert_eq!(snake_policy(roll), Policy::ChaseRat);
    }
    assert_eq!(snake_policy(6), Policy::ChaseBerry);
    assert_eq!(snake_policy(7), Policy::ChaseBerry);
    assert_eq!(snake_policy(8), Policy::Wander);
    assert_eq!(snake_policy(9), Policy::Rest);
}

#[test]
fn reach_is_the_difference_of_coordinate_sums() {
    assert!(within_reach(&at(0, 0), &at(4, 4), 8));
    assert!(!within_reach(&at(0, 0), &at(4, 5), 8));
    assert!(within_reach(&at(4, 5), &at(0, 0), 9));
    assert!(within_reach(&at(0, 10), &at(10, 0), 0));
    assert!(within_reach(&at(3, 3), &at(3, 3), 0));
    assert!(!within_reach(&at(i32::MAX, i32::MAX), &at(i32::MIN, i32::MIN), 1000));
    assert!(within_reach(&at(i32::MAX, i32::MIN), &at(i32::MIN, i32::MAX), 0));
}

#[test]
fn entities_within_keeps_the_near_ones_in_order() {
    let all = vec![seen(1, 0, 0), seen(2, 9, 9), seen(3, 2, 1), seen(4, 5, 4)];
    assert_eq!(entities_within(&all, &at(1, 1), 3), vec![1, 3]);
    assert_eq!(entities_within(&all, &at(1, 1), 7), vec![1, 3, 4]);
    assert_eq!(entities_within(&all, &at(1, 1), 0), Vec::<u64>::new());
}

#[test]
fn random_entity_is_one_of_the_near_candidates() {
    let all = vec![seen(1, 0, 0), seen(2, 9, 9), seen(3, 2, 1)];
    for _ in 0..50 {
        match choose_random_entity(&all, &at(1, 1), 3) {
            Some(Target::Entity(e)) => assert!(e == 1 || e == 3),
            other => panic!("no entity chosen: {:?}", other),
        }
    }
    assert_eq!(choose_random_entity(&all, &at(1, 1), 0), None);
    assert_eq!(choose_random_entity(&Vec::new(), &at(1, 1), 8), None);
    assert_eq!(
        choose_random_entity(&vec![seen(7, 4, 4)], &at(4, 4), 0),
        Some(Target::Entity(7))
    );
}

#[test]
fn wander_target_is_a_free_cell_of_the_box() {
    let mut arena = Arena::new(20, 20, 8);
    arena.set(10, 10, Occupancy::Rat(1));
    for _ in 0..50 {
        match choose_random_unocc(&at(10, 10), &arena) {
            Some(Target::Position(p)) => {
                assert!((6..=14).contains(&p.x));
                assert!((6..=14).contains(&p.y));
                assert!(!arena.isset(p.x, p.y));
            }
            None => {}
            other => panic!("not a cell: {:?}", other),
        }
    }
    for _ in 0..20 {
        match choose_random_unocc(&at(0, 19), &arena) {
            Some(Target::Position(p)) => {
                assert!((0..=4).contains(&p.x));
                assert!((15..=19).contains(&p.y));
            }
            other => panic!("every cell of the box is free: {:?}", other),
        }
    }
}

#[test]
fn wander_finds_nothing_where_there_is_nothing() {
    let mut full = Arena::new(3, 3, 8);
    let mut id = 0;
    for x in 0..3 {
        for y in 0..3 {
            full.set(x, y, Occupancy::Berry(id));
            id += 1;
        }
    }
    assert_eq!(choose_random_unocc(&at(1, 1), &full), None);
    let arena = Arena::new(5, 5, 8);
    assert_eq!(choose_random_unocc(&at(100, 100), &arena), None);
    assert_eq!(choose_random_unocc(&at(-100, 2), &arena), None);
    let narrow = Arena::new(5, 5, 1);
    assert_eq!(choose_random_unocc(&at(2, 2), &narrow), Some(Target::Position(at(2, 2))));
    let none = Arena::new(0, 0, 8);
    assert_eq!(choose_random_unocc(&at(0, 0), &none), None);
}

#[test]
fn a_target_stands_for_a_cell_while_its_entity_lives() {
    let live = vec![seen(1, 0, 0), seen(2, 3, 4), seen(2, 9, 9)];
    assert_eq!(resolve_target(None, &live), None);
    assert_eq!(resolve_target(Some(Target::Position(at(7, 7))), &live), Some(at(7, 7)));
    assert_eq!(resolve_target(Some(Target::Entity(2)), &live), Some(at(3, 4)));
    assert_eq!(resolve_target(Some(Target::Entity(5)), &live), None);
    assert_eq!(resolve_target(Some(Target::Entity(1)), &Vec::new()), None);
}

#[test]
fn committing_to_a_lost_entity_clears_the_agent() {
    let mut arena = Arena::new(6, 6, 8);
    arena.set(1, 1, Occupancy::Rat(1));
    let mut ai = AI::new();
    ai.target = Some(Target::Position(at(3, 3)));
    commit_target(&mut ai, &at(1, 1), Some(Target::Entity(9)), &vec![seen(4, 2, 2)], &mut arena);
    assert_eq!(ai.target, None);
    assert!(ai.path.is_empty());
    commit_target(&mut ai, &at(1, 1), Some(Target::Entity(4)), &vec![seen(4, 2, 2)], &mut arena);
    assert_eq!(ai.target, Some(Target::Entity(4)));
    assert_eq!(ai.path.back(), Some(&at(2, 2)));
    assert!(ai.path.len() <= 8);
    assert_eq!(arena.occ(1, 1), Some(Occupancy::Rat(1)));
}

#[test]
fn a_rat_with_a_route_keeps_it() {
    let mut arena = Arena::new(6, 6, 8);
    arena.set(1, 1, Occupancy::Rat(1));
    let mut ai = AI::new();
    ai.path.push_back(at(1, 2));
    ai.target = Some(Target::Position(at(1, 2)));
    plan_rat(&mut ai, &at(1, 1), &vec![seen(4, 2, 2)], &mut arena);
    assert_eq!(ai.path.len(), 1);
    assert_eq!(ai.path[0], at(1, 2));
    assert_eq!(ai.target, Some(Target::Position(at(1, 2))));
}

#[test]
fn a_planning_rat_ends_with_a_route_to_its_target_or_with_nothing() {
    for _ in 0..40 {
        let mut arena = Arena::new(10, 10, 8);
        arena.set(5, 5, Occupancy::Rat(1));
        arena.set(6, 6, Occupancy::Berry(2));
        let berries = vec![seen(2, 6, 6)];
        let mut ai = AI::new();
        plan_rat(&mut ai, &at(5, 5), &berries, &mut arena);
        match ai.target {
            None => assert!(ai.path.is_empty()),
            Some(Target::Entity(e)) => {
                assert_eq!(e, 2);
                assert_eq!(ai.path.back(), Some(&at(6, 6)));
            }
            Some(Target::Position(p)) => {
                assert!(!arena.isset(p.x, p.y));
                assert_eq!(ai.path.back(), Some(&p));
            }
        }
        assert!(ai.path.len() <= 8);
        assert_eq!(arena.occ(5, 5), Some(Occupancy::Rat(1)));
        assert_eq!(arena.occ(6, 6), Some(Occupancy::Berry(2)));
    }
}

#[test]
fn a_planning_snake_chases_rats_and_berries_from_its_head() {
    for _ in 0..40 {
        let mut arena = Arena::new(10, 10, 8);
        let body = Segmented {
            segments: vec![
                Segment { entity: 10, position: at(4, 4) },
                Segment { entity: 11, position: at(3, 4) },
            ],
        };
        arena.set(4, 4, Occupancy::Snake(1));
        arena.set(3, 4, Occupancy::Snake(1));
        arena.set(6, 4, Occupancy::Rat(20));
        arena.set(4, 7, Occupancy::Berry(30));
        let rats = vec![seen(20, 6, 4)];
        let berries = vec![seen(30, 4, 7)];
        let mut ai = AI::new();
        plan_snake(&mut ai, &body, &berries, &rats, &mut arena);
        match ai.target {
            None => assert!(ai.path.is_empty()),
            Some(Target::Entity(20)) => assert_eq!(ai.path.back(), Some(&at(6, 4))),
            Some(Target::Entity(30)) => assert_eq!(ai.path.back(), Some(&at(4, 7))),
            Some(Target::Entity(e)) => panic!("unknown entity {}", e),
            Some(Target::Position(p)) => assert_eq!(ai.path.back(), Some(&p)),
        }
        assert!(!ai.path.contains(&at(3, 4)));
        assert_eq!(arena.occ(6, 4), Some(Occupancy::Rat(20)));
        assert_eq!(arena.occ(4, 7), Some(Occupancy::Berry(30)));
        assert_eq!(arena.occ(4, 4), Some(Occupancy::Snake(1)));
    }
}

#[test]
fn near_entities_keep_their_order_and_their_number() {
    let all = vec![seen(3, 2, 1), seen(1, 0, 0), seen(3, 1, 2), seen(9, 9, 9), seen(1, 0, 0)];
    assert_eq!(entities_within(&all, &at(1, 1), 3), vec![3, 1, 3, 1]);
}

#[test]
fn wander_bounds_are_the_box_cut_to_the_arena() {
    let arena = Arena::new(20, 20, 8);
    assert_eq!(wander_bounds(&at(10, 10), &arena), Some((6, 14, 6, 14)));
    assert_eq!(wander_bounds(&at(0, 19), &arena), Some((0, 4, 15, 19)));
    assert_eq!(wander_bounds(&at(-4, 23), &arena), Some((0, 0, 19, 19)));
    assert_eq!(wander_bounds(&at(-5, 10), &arena), None);
    assert_eq!(wander_bounds(&at(10, 24), &arena), None);
    assert_eq!(wander_bounds(&at(i32::MAX, i32::MIN), &arena), None);
    assert_eq!(wander_bounds(&at(3, 3), &Arena::new(20, 20, 1)), Some((3, 3, 3, 3)));
    assert_eq!(wander_bounds(&at(3, 3), &Arena::new(20, 20, 3)), Some((2, 4, 2, 4)));
    assert_eq!(wander_bounds(&at(0, 0), &Arena::new(0, 5, 8)), None);
    assert_eq!(
        wander_bounds(&at(2, 2), &Arena::new(5, 5, usize::MAX)),
        Some((0, 4, 0, 4))
    );
}

#[test]
fn the_first_unoccupied_draw_is_the_target() {
    let mut arena = Arena::new(6, 6, 8);
    arena.set(1, 1, Occupancy::Rat(1));
    arena.set(2, 2, Occupancy::Berry(2));
    let draws = vec![at(1, 1), at(2, 2), at(3, 3), at(4, 4), at(1, 1)];
    assert_eq!(first_free(&arena, &draws), Some(Target::Position(at(3, 3))));
    assert_eq!(first_free(&arena, &vec![at(2, 2), at(1, 1), at(2, 2)]), None);
    assert_eq!(first_free(&arena, &Vec::new()), None);
    assert_eq!(first_free(&arena, &vec![at(0, 0)]), Some(Target::Position(at(0, 0))));
    let ten = vec![
        at(1, 1), at(2, 2), at(1, 1), at(2, 2), at(1, 1),
        at(2, 2), at(1, 1), at(2, 2), at(1, 1), at(5, 5),
    ];
    assert_eq!(first_free(&arena, &ten), Some(Target::Position(at(5, 5))));
}

#[test]
fn rolls_run_from_nought_to_nine() {
    assert_eq!(roll_bounds(), (0, 9));
}

#[test]
fn a_rat_plans_by_its_roll() {
    for roll in 0..10u32 {
        for _ in 0..10 {
            let mut arena = Arena::new(10, 10, 8);
            arena.set(5, 5, Occupancy::Rat(1));
            arena.set(6, 6, Occupancy::Berry(2));
            arena.set(0, 0, Occupancy::Berry(3));
            let berries = vec![seen(3, 0, 0), seen(2, 6, 6)];
            let mut ai = AI::new();
            ai.target = Some(Target::Entity(77));
            plan_rat_rolled(&mut ai, &at(5, 5), &berries, &mut arena, roll);
            match rat_policy(roll) {
                Policy::ChaseBerry => {
                    assert_eq!(ai.target, Some(Target::Entity(2)));
                    assert_eq!(ai.path.back(), Some(&at(6, 6)));
                }
                Policy::Wander => match ai.target {
                    Some(Target::Position(p)) => {
                        assert!((1..=9).contains(&p.x) && (1..=9).contains(&p.y));
                        assert!(!arena.isset(p.x, p.y));
                        assert_eq!(ai.path.back(), Some(&p));
                    }
                    None => assert!(ai.path.is_empty()),
                    other => panic!("a wandering rat chases nothing: {:?}", other),
                },
                _ => {
                    assert_eq!(ai.target, None);
                    assert!(ai.path.is_empty());
                }
            }
            assert_eq!(arena.occ(5, 5), Some(Occupancy::Rat(1)));
        }
    }
    let mut arena = Arena::new(10, 10, 8);
    arena.set(5, 5, Occupancy::Rat(1));
    let mut ai = AI::new();
    plan_rat_rolled(&mut ai, &at(5, 5), &vec![seen(3, 0, 0)], &mut arena, 0);
    assert_eq!(ai.target, None);
    assert!(ai.path.is_empty());
}

#[test]
fn a_snake_plans_by_its_roll() {
    for roll in 0..10u32 {
        for _ in 0..10 {
            let mut arena = Arena::new(10, 10, 8);
            let body = Segmented {
                segments: vec![
                    Segment { entity: 10, position: at(4, 4) },
                    Segment { entity: 11, position: at(3, 4) },
                ],
            };
            arena.set(4, 4, Occupancy::Snake(1));
            arena.set(3, 4, Occupancy::Snake(1));
            arena.set(6, 4, Occupancy::Rat(20));
            arena.set(4, 7, Occupancy::Berry(30));
            let rats = vec![seen(20, 6, 4)];
            let berries = vec![seen(30, 4, 7)];
            let mut ai = AI::new();
            plan_snake_rolled(&mut ai, &body, &berries, &rats, &mut arena, roll);
            match snake_policy(roll) {
                Policy::ChaseRat => {
                    assert_eq!(ai.target, Some(Target::Entity(20)));
                    assert_eq!(ai.path.back(), Some(&at(6, 4)));
                }
                Policy::ChaseBerry => {
                    assert_eq!(ai.target, Some(Target::Entity(30)));
                    assert_eq!(ai.path.back(), Some(&at(4, 7)));
                }
                Policy::Wander => match ai.target {
                    Some(Target::Position(p)) => {
                        assert!((0..=8).contains(&p.x) && (0..=8).contains(&p.y));
                        assert!(!arena.isset(p.x, p.y));
                    }
                    None => assert!(ai.path.is_empty()),
                    other => panic!("a wandering snake chases nothing: {:?}", other),
                },
                Policy::Rest => {
                    assert_eq!(ai.target, None);
                    assert!(ai.path.is_empty());
                }
            }
        }
    }
}
