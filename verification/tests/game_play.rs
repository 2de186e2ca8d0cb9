use y_game::game::{Game, GameError, GameState};

fn mask(points: &[u32]) -> u128 {
    let mut m = 0u128;
    for &p in points {
        m |= 1u128 << p;
    }
    m
}

#[test]
fn new_game_is_fresh() {
    let g = Game::new((3, 8), true);
    assert_eq!(g.boards(), (3, 8));
    assert_eq!(g.state(), GameState::OnGoing);
    assert_eq!(g.player(), 1);
    assert_eq!(g.last_move(), 93);
}

#[test]
fn default_game_is_empty_with_blue_to_move() {
    let g = Game::default();
    assert_eq!(g.boards(), (0, 0));
    assert_eq!(g.player(), 2);
    assert_eq!(g.last_move(), 0);
    assert_eq!(g.state(), GameState::OnGoing);
}

#[test]
fn play_then_get_reads_the_stone() {
    let mut g = Game::new((0, 0), true);
    assert_eq!(g.play(5), Ok(()));
    assert_eq!(g.get(5), 1);
    assert_eq!(g.get(6), 0);
    assert_eq!(g.player(), 2);
    assert_eq!(g.last_move(), 5);
    assert_eq!(g.play(6), Ok(()));
    assert_eq!(g.get(6), 2);
    assert_eq!(g.get(5), 1);
    assert_eq!(g.player(), 1);
    assert_eq!(g.boards(), (mask(&[5]), mask(&[6])));
}

#[test]
fn occupied_point_is_refused_and_nothing_changes() {
    let mut g = Game::new((0, 0), true);
    assert_eq!(g.play(5), Ok(()));
    assert_eq!(g.play(5), Err(GameError::InvalidMove));
    assert_eq!(g.player(), 2);
    assert_eq!(g.last_move(), 5);
    assert_eq!(g.boards(), (mask(&[5]), 0));
}

#[test]
fn point_off_the_board_is_refused() {
    let mut g = Game::new((0, 0), true);
    assert_eq!(g.play(93), Err(GameError::InvalidMove));
    assert_eq!(g.play(200), Err(GameError::InvalidMove));
    assert_eq!(g.boards(), (0, 0));
    assert_eq!(g.player(), 1);
}

#[test]
fn single_stone_does_not_win() {
    let mut g = Game::new((0, 0), true);
    assert_eq!(g.play(4), Ok(()));
    assert_eq!(g.state(), GameState::OnGoing);
    let mut g = Game::new((0, 0), true);
    // A corner touches two sides only.
    assert_eq!(g.play(0), Ok(()));
    assert_eq!(g.state(), GameState::OnGoing);
}

#[test]
fn red_chain_over_three_sides_wins() {
    let red: Vec<u32> = (1..=16).collect();
    let mut g = Game::new((mask(&red), 0), true);
    assert_eq!(g.play(0), Ok(()));
    assert_eq!(g.state(), GameState::RedWin);
    assert_eq!(g.player(), 2);
}

#[test]
fn blue_chain_over_three_sides_wins() {
    let blue: Vec<u32> = (1..=16).collect();
    let mut g = Game::new((0, mask(&blue)), false);
    assert_eq!(g.play(0), Ok(()));
    assert_eq!(g.state(), GameState::RedLose);
}

#[test]
fn chain_missing_a_side_does_not_win() {
    // Points 1..=15 reach sides 0 and 1 but not side 2.
    let red: Vec<u32> = (1..=15).collect();
    let mut g = Game::new((mask(&red), 0), true);
    assert_eq!(g.play(0), Ok(()));
    // Point 0 is a corner on sides 0 and 2, so the chain now spans all three.
    assert_eq!(g.state(), GameState::RedWin);
    let red: Vec<u32> = (2..=15).collect();
    let mut g = Game::new((mask(&red), 0), true);
    assert_eq!(g.play(9), Err(GameError::InvalidMove));
    assert_eq!(g.play(1), Ok(()));
    assert_eq!(g.state(), GameState::OnGoing);
}

#[test]
fn finished_game_refuses_moves() {
    let red: Vec<u32> = (1..=16).collect();
    let mut g = Game::new((mask(&red), 0), true);
    assert_eq!(g.play(0), Ok(()));
    let before = g.boards();
    assert_eq!(g.play(50), Err(GameError::GameEnded));
    assert_eq!(g.play(200), Err(GameError::GameEnded));
    assert_eq!(g.boards(), before);
}

#[test]
fn reset_restores_a_fresh_game() {
    let red: Vec<u32> = (1..=16).collect();
    let mut g = Game::new((mask(&red), 0), true);
    assert_eq!(g.play(0), Ok(()));
    g.reset(7, 9, false);
    assert_eq!(g.boards(), (7, 9));
    assert_eq!(g.state(), GameState::OnGoing);
    assert_eq!(g.player(), 2);
    assert_eq!(g.last_move(), 93);
}

#[test]
fn get_reads_both_colours() {
    let g = Game::new((mask(&[1, 2]), mask(&[3])), true);
    assert_eq!(g.get(1), 1);
    assert_eq!(g.get(2), 1);
    assert_eq!(g.get(3), 2);
    assert_eq!(g.get(4), 0);
    assert_eq!(g.get(127), 0);
}

#[test]
fn update_winner_without_a_move_changes_nothing() {
    let red: Vec<u32> = (0..=16).collect();
    let mut g = Game::new((mask(&red), 0), true);
    g.update_winner();
    assert_eq!(g.state(), GameState::OnGoing);
}

#[test]
fn looking_for_the_winner_twice_decides_the_same() {
    let red: Vec<u32> = (1..=16).collect();
    let mut g = Game::new((mask(&red), 0), true);
    assert_eq!(g.play(0), Ok(()));
    let won = g.state();
    g.update_winner();
    assert_eq!(g.state(), won);
    let mut h = Game::new((0, 0), true);
    assert_eq!(h.play(4), Ok(()));
    h.update_winner();
    h.update_winner();
    assert_eq!(h.state(), GameState::OnGoing);
}
