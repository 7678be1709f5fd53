use greedy_snake::board::{occupancy_map, parse_food_coords, parse_other_snakes, parse_snake_coords};
use greedy_snake::engine::{greedy_snake_step, Round};
use greedy_snake::grid::free_area_of;
use greedy_snake::score::{compute_food_score, isqrt, predict_contested_food};
use greedy_snake::session::{OpponentRecord, Session};

const NONE: [i32; 8] = [-1, -1, -1, -1, -1, -1, -1, -1];

fn round_of(n: usize, me: Vec<(i64, i64)>, others: Vec<Vec<(i64, i64)>>, foods: Vec<(i64, i64)>) -> Round {
    let danger = occupancy_map(&others, &me, n);
    let k = foods.len();
    let opp_scores = vec![0; others.len()];
    Round {
        n,
        me,
        others,
        opp_scores,
        foods,
        contested: vec![false; k],
        enemy_dist: vec![None; k],
        danger,
        my_score: 0,
        four_way: false,
        duel: false,
    }
}

#[test]
fn parses_bodies_and_foods() {
    assert_eq!(parse_snake_coords(&[4, 4, 4, 3, -1, -1, 9, 9], 0), vec![(4, 4), (4, 3)]);
    assert_eq!(parse_snake_coords(&[0, 4, 4, 3, 4, 2, 4, 1], 0), vec![]);
    let others = parse_other_snakes(&[1, 1, 1, 2, -1, -1, -1, -1, -1, -1, -1, -1, -1, -1, -1, -1, 5, 5, 5, 6, 5, 7, 5, 8]);
    assert_eq!(others, vec![vec![(1, 1), (1, 2)], vec![(5, 5), (5, 6), (5, 7), (5, 8)]]);
    assert_eq!(parse_food_coords(&[3, 3, -1, 2, 7, 1]), vec![(3, 3), (7, 1)]);
}

#[test]
fn integer_square_root() {
    assert_eq!(isqrt(0), 0);
    assert_eq!(isqrt(15), 3);
    assert_eq!(isqrt(16), 4);
    assert_eq!(isqrt(61_000_000), 7810);
}

#[test]
fn flood_fill_counts_reachable_cells() {
    // a wall across column 3 of a 5 x 5 board
    let wall = vec![vec![(3, 1), (3, 2), (3, 3), (3, 4), (3, 5)]];
    let g = occupancy_map(&wall, &vec![], 5);
    assert_eq!(free_area_of(&g, 1, 1), 10);
    assert_eq!(free_area_of(&g, 5, 5), 10);
    // start on the wall or off the board
    assert_eq!(free_area_of(&g, 3, 3), 0);
    assert_eq!(free_area_of(&g, 0, 3), 0);
    let open = occupancy_map(&vec![], &vec![], 4);
    assert_eq!(free_area_of(&open, 2, 2), 16);
}

#[test]
fn food_on_the_cell_scores_one_hundred() {
    let foods = vec![(4, 4), (8, 8)];
    assert_eq!(compute_food_score((4, 4), &foods, &vec![true, true], &vec![Some(0), Some(0)], 5), 100);
}

#[test]
fn food_score_terms() {
    let foods = vec![(3, 3)];
    // contested: -3 * 2 + 10 (near the centre), less the nearest distance 2
    assert_eq!(compute_food_score((4, 4), &foods, &vec![true], &vec![Some(1)], 5), 2);
    // an opponent is nearer: -2 + 10, less 2
    assert_eq!(compute_food_score((4, 4), &foods, &vec![false], &vec![Some(1)], 5), 6);
    // nobody else near: only the pull towards the nearest food
    assert_eq!(compute_food_score((4, 4), &foods, &vec![false], &vec![None], 5), -2);
    // the centre of a four-snake game is (4.5, 4.5): (3, 3) is not near it
    assert_eq!(compute_food_score((4, 4), &foods, &vec![true], &vec![Some(1)], 9), -8);
    // no food at all
    assert_eq!(compute_food_score((4, 4), &vec![], &vec![], &vec![], 5), 0);
}

#[test]
fn contested_food_prediction() {
    let rec = OpponentRecord { id: 0, body: vec![(1, 3), (1, 2), (1, 1)], trajectory: vec![(1, 1), (1, 2), (1, 3)], score: 0 };
    let young = OpponentRecord { id: 1, body: vec![(8, 8)], trajectory: vec![(8, 8)], score: 0 };
    let (contested, enemy) = predict_contested_food(&vec![(1, 6), (5, 5)], &vec![rec, young]);
    // predicted position (1, 5)
    assert_eq!(contested, vec![true, false]);
    assert_eq!(enemy, vec![Some(1), Some(4)]);
}

#[test]
fn cramped_move_scores_minus_one_hundred() {
    let rd = round_of(2, vec![(1, 1), (1, 2), (2, 2)], vec![], vec![]);
    assert_eq!(rd.survival_score((2, 1)), -100_000);
}

#[test]
fn survival_score_of_open_board() {
    let rd = round_of(8, vec![(1, 1)], vec![], vec![]);
    // 64 reachable cells: 50 * sqrt(64) points
    assert_eq!(rd.survival_score((1, 2)), 400_000);
}

#[test]
fn tail_following_is_allowed() {
    let rd = round_of(8, vec![(4, 4), (5, 4), (5, 5), (4, 5)], vec![], vec![]);
    assert!(rd.score_move(0).is_some());
    // a body segment that is not the tail is refused
    assert!(rd.score_move(3).is_none());
    // the tail is refused when food lies on it
    let rd = round_of(8, vec![(4, 4), (5, 4), (5, 5), (4, 5)], vec![], vec![(4, 5)]);
    assert!(rd.score_move(0).is_none());
}

#[test]
fn aggression_trade_and_trap() {
    let mut rd = round_of(8, vec![(3, 1)], vec![vec![(1, 1)]], vec![]);
    rd.my_score = 1;
    // the opponent's head is covered, so its flood fill is 0: trap bonus 3 / 1
    assert_eq!(rd.aggression_score((2, 1)), 1_003_000);
    rd.four_way = true;
    assert_eq!(rd.aggression_score((2, 1)), 103_000);
    rd.my_score = 0;
    assert_eq!(rd.aggression_score((2, 2)), 1_500);
    assert_eq!(rd.aggression_score((5, 5)), 0);
}

#[test]
fn moves_towards_food() {
    let mut s = Session::new();
    let r = greedy_snake_step(&mut s, 8, vec![4, 4, 4, 3, 4, 2, 4, 1], 1, vec![], 1, vec![7, 4], 1);
    assert_eq!(r, 3);
    let mut s = Session::new();
    let r = greedy_snake_step(&mut s, 8, vec![4, 4, 4, 3, 4, 2, 4, 1], 1, vec![], 1, vec![4, 6], 1);
    assert_eq!(r, 0);
    let mut s = Session::new();
    let r = greedy_snake_step(&mut s, 8, vec![4, 4, 5, 4, 6, 4, 7, 4], 1, vec![], 1, vec![1, 4], 1);
    assert_eq!(r, 1);
}

#[test]
fn dead_snake_moves_up_and_keeps_state() {
    let mut s = Session::new();
    let r = greedy_snake_step(&mut s, 8, NONE.to_vec(), 3, vec![1, 1, 1, 2, 1, 3, -1, -1], 1, vec![5, 5], 1);
    assert_eq!(r, 0);
    assert_eq!(s.mode, Some(3));
    assert!(s.records.is_empty());
    assert!(s.last_foods.is_empty());
    assert_eq!(s.next_id, 0);
}

#[test]
fn mode_is_latched_on_first_call() {
    let mut s = Session::new();
    greedy_snake_step(&mut s, 8, vec![4, 4, 4, 3, -1, -1, -1, -1], 1, vec![], 1, vec![7, 7], 1);
    greedy_snake_step(&mut s, 8, vec![4, 5, 4, 4, -1, -1, -1, -1], 3, vec![], 1, vec![7, 7], 2);
    assert_eq!(s.mode, Some(1));
}

#[test]
fn no_legal_move_defaults_to_up() {
    let mut s = Session::new();
    // a one-cell board: every move leaves it
    let r = greedy_snake_step(&mut s, 1, vec![1, 1, -1, -1, -1, -1, -1, -1], 1, vec![], 1, vec![], 1);
    assert_eq!(r, 0);
}

#[test]
fn opponent_identity_is_tracked() {
    let mut s = Session::new();
    let me = vec![8, 1, 8, 2, -1, -1, -1, -1];
    greedy_snake_step(&mut s, 8, me.clone(), 3, vec![6, 6, 6, 5, 6, 4, 6, 3], 1, vec![], 1);
    assert_eq!(s.records[0].id, 0);
    // the same opponent, one step on; a new one in slot 1
    let round2 = vec![6, 7, 6, 6, 6, 5, 6, 4, 2, 5, 2, 6, 2, 7, 2, 8];
    greedy_snake_step(&mut s, 8, me.clone(), 3, round2, 1, vec![], 2);
    assert_eq!(s.records.iter().map(|r| r.id).collect::<Vec<_>>(), vec![0, 1]);
    // slots swapped: ids follow the bodies
    let round3 = vec![2, 4, 2, 5, 2, 6, 2, 7, 6, 8, 6, 7, 6, 6, 6, 5];
    greedy_snake_step(&mut s, 8, me.clone(), 3, round3, 1, vec![], 3);
    assert_eq!(s.records.iter().map(|r| r.id).collect::<Vec<_>>(), vec![1, 0]);
    // opponent 0 is gone; a stranger gets a fresh id, never an old one
    let round4 = vec![2, 3, 2, 4, 2, 5, 2, 6, 4, 1, 3, 1, -1, -1, -1, -1];
    greedy_snake_step(&mut s, 8, me, 3, round4, 1, vec![], 4);
    assert_eq!(s.records.iter().map(|r| r.id).collect::<Vec<_>>(), vec![1, 2]);
    assert_eq!(s.next_id, 3);
}

#[test]
fn trajectory_keeps_five_heads() {
    let mut s = Session::new();
    let me = vec![8, 1, 8, 2, -1, -1, -1, -1];
    for step in 0..7 {
        let y = 1 + step;
        let opp = vec![2, y + 3, 2, y + 2, 2, y + 1, 2, y];
        greedy_snake_step(&mut s, 16, me.clone(), 3, opp, 1, vec![], step);
        assert_eq!(s.records[0].id, 0);
        assert!(s.records[0].trajectory.len() <= 5);
    }
    assert_eq!(s.records[0].trajectory, vec![(2, 6), (2, 7), (2, 8), (2, 9), (2, 10)]);
}

#[test]
fn food_scores_count_heads_on_last_rounds_food() {
    let mut s = Session::new();
    greedy_snake_step(&mut s, 8, vec![4, 4, 4, 3, -1, -1, -1, -1], 1, vec![1, 1, 1, 2, -1, -1, -1, -1], 1, vec![4, 5, 1, 8], 1);
    assert_eq!(s.my_score, 0);
    assert_eq!(s.last_foods, vec![(4, 5), (1, 8)]);
    // both heads now stand on last round's food cells
    greedy_snake_step(&mut s, 8, vec![4, 5, 4, 4, -1, -1, -1, -1], 1, vec![1, 8, 1, 7, -1, -1, -1, -1], 1, vec![6, 6], 2);
    assert_eq!(s.my_score, 1);
    assert_eq!(s.records[0].score, 1);
}
