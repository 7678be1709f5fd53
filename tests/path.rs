use greedy_snake::path::{greedy_snake_move, greedy_snake_move_barriers};

#[test]
fn test_food_above() {
    assert_eq!(greedy_snake_move(&[4, 4, 1, 1, 1, 2, 1, 3], &[4, 8]), 0);
}

#[test]
fn test_food_left() {
    assert_eq!(greedy_snake_move(&[4, 4, 8, 8, 8, 7, 8, 6], &[1, 4]), 1);
}

#[test]
fn test_food_down() {
    assert_eq!(greedy_snake_move(&[4, 4, 1, 1, 1, 2, 1, 3], &[4, 1]), 2);
}

#[test]
fn test_food_right() {
    assert_eq!(greedy_snake_move(&[4, 4, 1, 1, 1, 2, 1, 3], &[8, 4]), 3);
}

#[test]
fn test_food_at_head() {
    assert_eq!(greedy_snake_move(&[4, 4, 1, 1, 1, 2, 1, 3], &[4, 4]), 0);
}

#[test]
fn test_all_directions_blocked() {
    let snake = [4, 4, 4, 5, 3, 4, 4, 3, 5, 4, 6, 6];
    assert_eq!(greedy_snake_move(&snake, &[8, 8]), 0);
}

#[test]
fn test_complex_detour() {
    assert_eq!(greedy_snake_move(&[4, 4, 1, 1, 1, 2, 1, 3], &[3, 6]), 0);
}

#[test]
fn test_near_border() {
    assert_eq!(greedy_snake_move(&[1, 1, 2, 2, 2, 3, 2, 4], &[1, 8]), 0);
}

#[test]
fn test_longer_snake() {
    let snake = [4, 4, 8, 8, 8, 7, 8, 6, 8, 5, 8, 4];
    assert_eq!(greedy_snake_move(&snake, &[4, 8]), 0);
}

#[test]
fn tail_cell_is_not_an_obstacle() {
    // the tail (4, 5) moves away, so the path straight up is free
    assert_eq!(greedy_snake_move(&[4, 4, 3, 4, 3, 5, 4, 5], &[4, 8]), 0);
}

#[test]
fn unreachable_food_falls_back_to_first_open_move() {
    // the food is walled in by the body; Up is open
    let snake = [5, 5, 1, 7, 2, 8, 8, 8];
    assert_eq!(greedy_snake_move(&snake, &[1, 8]), 0);
    // Up and Left blocked, Down open
    let snake = [4, 4, 4, 5, 3, 4, 1, 7, 2, 8, 8, 8];
    assert_eq!(greedy_snake_move(&snake, &[1, 8]), 2);
}

#[test]
fn barriers_force_a_detour() {
    // Up is barred; Left and Right both give paths of six moves, Left comes first
    assert_eq!(greedy_snake_move_barriers(&[4, 4, 1, 1, 1, 2, 1, 3], &[4, 8], &[4, 5]), 1);
    // without barriers the way up is straight
    assert_eq!(greedy_snake_move_barriers(&[4, 4, 1, 1, 1, 2, 1, 3], &[4, 8], &[]), 0);
}

#[test]
fn barriers_make_food_unreachable() {
    let barriers = [4, 5, 3, 4, 5, 4, 4, 3];
    assert_eq!(greedy_snake_move_barriers(&[4, 4, 1, 1, 1, 2, 1, 3], &[8, 8], &barriers), -1);
}

#[test]
fn barriers_food_at_head() {
    assert_eq!(greedy_snake_move_barriers(&[4, 4, 1, 1, 1, 2, 1, 3], &[4, 4], &[4, 5]), 0);
}

#[test]
fn barrier_on_food_cell() {
    assert_eq!(greedy_snake_move_barriers(&[4, 4, 1, 1, 1, 2, 1, 3], &[4, 8], &[4, 8]), -1);
}
