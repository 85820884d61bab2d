use mongoose::cell::Position;
use mongoose::sprites::{
    bend_frame, direction_between, set_segment_sprites, BODY, CCW_DOWN, CCW_LEFT, CCW_RIGHT,
    CCW_UP, CW_DOWN, CW_LEFT, CW_RIGHT, CW_UP, DOWN, HEAD, LEFT, RIGHT, SPRITE_SHEET_COLUMNS,
    SPRITE_SHEET_ROWS, TAIL, UP,
};

fn at(x: i32, y: i32) -> Position {
    Position { x, y }
}

#[test]
fn sheet_layout() {
    assert_eq!(SPRITE_SHEET_COLUMNS, 12);
    assert_eq!(SPRITE_SHEET_ROWS, 3);
    assert_eq!((HEAD, BODY, TAIL), (0, 12, 24));
    assert_eq!((LEFT, UP, RIGHT, DOWN), (0, 1, 2, 3));
}

#[test]
fn direction_is_seen_from_the_segment_behind() {
    assert_eq!(direction_between(&at(1, 5), &at(2, 5)), Some(LEFT));
    assert_eq!(direction_between(&at(3, 5), &at(2, 5)), Some(RIGHT));
    assert_eq!(direction_between(&at(2, 4), &at(2, 5)), Some(DOWN));
    assert_eq!(direction_between(&at(2, 6), &at(2, 5)), Some(UP));
    assert_eq!(direction_between(&at(2, 5), &at(2, 5)), None);
    assert_eq!(direction_between(&at(i32::MIN, 0), &at(i32::MAX, 0)), None);
}

#[test]
fn bends_follow_the_table() {
    assert_eq!(bend_frame(LEFT, LEFT), LEFT);
    assert_eq!(bend_frame(UP, UP), UP);
    assert_eq!(bend_frame(RIGHT, RIGHT), RIGHT);
    assert_eq!(bend_frame(DOWN, DOWN), DOWN);
    assert_eq!(bend_frame(DOWN, LEFT), CW_LEFT);
    assert_eq!(bend_frame(LEFT, UP), CW_UP);
    assert_eq!(bend_frame(UP, RIGHT), CW_RIGHT);
    assert_eq!(bend_frame(RIGHT, DOWN), CW_DOWN);
    assert_eq!(bend_frame(UP, LEFT), CCW_LEFT);
    assert_eq!(bend_frame(RIGHT, UP), CCW_UP);
    assert_eq!(bend_frame(DOWN, RIGHT), CCW_RIGHT);
    assert_eq!(bend_frame(LEFT, DOWN), CCW_DOWN);
    assert_eq!(bend_frame(LEFT, RIGHT), 0);
    assert_eq!(bend_frame(UP, DOWN), 0);
    assert_eq!(bend_frame(7, 7), 0);
    assert_eq!(bend_frame(RIGHT, 30), 0);
}

#[test]
fn a_straight_body_shows_head_body_tail() {
    let cells = vec![at(5, 6), at(5, 5), at(5, 4)];
    let mut frames = vec![0, 0, 0];
    set_segment_sprites(&cells, &mut frames);
    assert_eq!(frames, vec![HEAD + UP, BODY + UP, TAIL + UP]);
}

#[test]
fn a_bent_body_shows_its_turns() {
    let cells = vec![at(2, 3), at(2, 2), at(3, 2), at(3, 1)];
    let mut frames = vec![7, 7, 7, 7];
    set_segment_sprites(&cells, &mut frames);
    assert_eq!(frames, vec![HEAD + UP, BODY + CW_UP, BODY + CCW_LEFT, TAIL + UP]);
    let start = vec![at(10, 10), at(11, 10), at(11, 9)];
    let mut frames = vec![0, BODY + CCW_LEFT, TAIL + UP];
    set_segment_sprites(&start, &mut frames);
    assert_eq!(frames, vec![HEAD + LEFT, BODY + CCW_LEFT, TAIL + UP]);
}

#[test]
fn two_segments_are_head_and_tail() {
    let cells = vec![at(1, 1), at(2, 1)];
    let mut frames = vec![5, 9];
    set_segment_sprites(&cells, &mut frames);
    assert_eq!(frames, vec![HEAD + LEFT, TAIL + LEFT]);
}

#[test]
fn a_grown_body_ends_in_a_tail_and_a_blank() {
    let cells = vec![at(5, 7), at(5, 6), at(5, 5), at(5, 5)];
    let mut frames = vec![HEAD + UP, BODY + UP, TAIL + UP, 0];
    set_segment_sprites(&cells, &mut frames);
    assert_eq!(frames, vec![HEAD + UP, BODY + UP, UP + TAIL, SPRITE_SHEET_COLUMNS - 1]);
    let heap = vec![at(1, 1), at(1, 1), at(1, 1)];
    let mut frames = vec![3, 4, 5];
    set_segment_sprites(&heap, &mut frames);
    assert_eq!(frames, vec![3 + TAIL, SPRITE_SHEET_COLUMNS - 1, 5]);
}
