use y_game::bot::{Bot, INF};
use y_game::game::Game;
use y_game::table::Transpositions;

fn mask(points: &[u32]) -> u128 {
    let mut m = 0u128;
    for &p in points {
        m |= 1u128 << p;
    }
    m
}

fn sample() -> (u128, u128) {
    (mask(&[5, 30, 31, 50]), mask(&[10, 40, 41]))
}

#[test]
fn distances_on_an_empty_board() {
    let d = Bot::distance_from_edges(0, 0);
    assert_eq!(d[0], [0, 8, 0]);
    assert_eq!(d[4], [0, 4, 4]);
    assert_eq!(d[92], [3, 5, 3]);
}

#[test]
fn distances_with_stones() {
    let (red, blue) = sample();
    let d = Bot::distance_from_edges(red, blue);
    assert_eq!(d[5], [0, 2, 5]);
    assert_eq!(d[30], [3, 1, 3]);
    assert_eq!(d[10], [2, 0, 6]);
    assert_eq!(d[92], [2, 2, 5]);
    assert_eq!(d[60], [2, 4, 2]);
}

#[test]
fn side_points_are_at_zero_from_their_side() {
    let (red, blue) = sample();
    let d = Bot::distance_from_edges(red, blue);
    // Before refinement every side point is at 0; refinement only lowers the
    // total, so a point on two sides (a corner) keeps a total of at most its
    // third distance.
    assert!(d[0][0] + d[0][1] + d[0][2] <= 8);
    assert_eq!(d[3][0], 0);
}

#[test]
fn no_strings_on_an_empty_board() {
    assert!(Bot::all_strings(0, 0).is_empty());
}

#[test]
fn one_stone_is_one_string() {
    assert_eq!(Bot::all_strings(1, 0), vec![(8, true)]);
}

#[test]
fn strings_in_order_of_first_point() {
    let (red, blue) = sample();
    assert_eq!(
        Bot::all_strings(red, blue),
        vec![(7, true), (8, false), (7, true), (7, false)]
    );
}

#[test]
fn static_eval_values() {
    assert_eq!(Bot::static_eval((0, 0)), 0);
    assert_eq!(Bot::static_eval((1, 1u128 << 30)), 17);
    let (red, blue) = sample();
    assert_eq!(Bot::static_eval((red, blue)), 0);
}

#[test]
fn static_eval_of_a_connected_red_is_inf() {
    let all = (1u128 << 93) - 1;
    assert_eq!(Bot::static_eval((all - 4, 0)), INF);
    assert_eq!(Bot::static_eval((0, all - 4)), -INF);
}

#[test]
fn eval_at_depth_zero_takes_the_first_free_point() {
    let (red, blue) = sample();
    assert_eq!(Bot::eval((red, blue), 1, 0), (0, 0));
    let all = (1u128 << 93) - 1;
    assert_eq!(Bot::eval((all - 4, 0), 1, 0), (INF, 2));
}

#[test]
fn eval_at_depth_one() {
    let mut t = Transpositions::new();
    assert_eq!(Bot::eval_with_transpos((1, 2), 1, 1, &mut t), (99999951, 16));
    assert_eq!(t.len(), 15);
}

#[test]
fn eval_for_blue_at_depth_one() {
    let (red, blue) = sample();
    let mut t = Transpositions::new();
    assert_eq!(Bot::eval_with_transpos((red, blue), 2, 1, &mut t), (-45, 1));
    assert_eq!(t.len(), 86);
}

#[test]
fn eval_at_depth_two() {
    let mut t = Transpositions::new();
    assert_eq!(Bot::eval_with_transpos((1, 2), 2, 2, &mut t), (15, 16));
    assert_eq!(t.len(), 1330);
}

#[test]
fn minimax_on_an_empty_board() {
    let mut t = Transpositions::new();
    let g = Game::new((0, 0), true);
    assert_eq!(Bot::minimax(g, 1, true, -3 * INF, 3 * INF, &mut t), (99999936, 0));
}

#[test]
fn minimax_answers_from_the_table() {
    let mut t = Transpositions::new();
    t.insert((0, 0, 1), 42);
    let g = Game::new((0, 0), true);
    assert_eq!(Bot::minimax(g, 3, true, -3 * INF, 3 * INF, &mut t), (42, 93));
}

#[test]
fn minimax_of_a_won_game() {
    let mut t = Transpositions::new();
    let red: Vec<u32> = (1..=16).collect();
    let mut g = Game::new((mask(&red), 0), true);
    assert_eq!(g.play(0), Ok(()));
    assert_eq!(Bot::minimax(g, 2, false, -3 * INF, 3 * INF, &mut t), (INF, 93));
}

#[test]
fn minimax_at_depth_zero_is_static() {
    let (red, blue) = sample();
    let mut t = Transpositions::new();
    let g = Game::new((red, blue), true);
    assert_eq!(Bot::minimax(g, 0, true, 0, 0, &mut t), (0, 93));
    assert_eq!(t.len(), 0);
}

#[test]
fn table_read_after_write() {
    let mut t = Transpositions::new();
    assert_eq!(t.get(&(1, 2, 1)), None);
    t.insert((1, 2, 1), 5);
    t.insert((3, 4, 2), -7);
    assert_eq!(t.get(&(1, 2, 1)), Some(5));
    assert_eq!(t.get(&(3, 4, 2)), Some(-7));
    assert_eq!(t.len(), 2);
    t.insert((1, 2, 1), 9);
    assert_eq!(t.get(&(1, 2, 1)), Some(9));
    assert_eq!(t.get(&(1, 2, 2)), None);
    assert_eq!(t.len(), 2);
}
