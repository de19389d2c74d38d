use acpc_server::{BettingType, Game};

fn get_game() -> Game {
    Game::new(
        BettingType::Limit,
        vec![i32::MAX, i32::MAX],
        vec![1, 1],
        vec![2, 4],
        vec![0, 0],
        vec![2, 2],
        2,
        3,
        1,
        vec![0, 1],
    )
    .unwrap()
}

fn get_game_nolimit() -> Game {
    Game::new(
        BettingType::NoLimit,
        vec![20000, 20000, 20000],
        vec![50, 100, 0],
        vec![0, 0, 0, 0],
        vec![2, 0, 0, 0],
        vec![255, 255, 255, 255],
        4,
        13,
        2,
        vec![0, 3, 1, 1],
    )
    .unwrap()
}

#[test]
fn bc_start() {
    let game = get_game();
    assert_eq!(0, game.bc_start(0));
    assert_eq!(0, game.bc_start(1));
}

#[test]
fn sum_board_cards() {
    let game = get_game();
    assert_eq!(0, game.sum_board_cards(0));
    assert_eq!(1, game.sum_board_cards(1));
}

#[test]
fn stack_size() {
    let game = get_game();
    assert_eq!(game.stack_size(0), Ok(i32::MAX));
    assert_eq!(game.stack_size(1), Ok(i32::MAX));
    assert!(game.stack_size(2).is_err());

    let game = get_game_nolimit();
    assert_eq!(game.stack_size(0), Ok(20000));
    assert_eq!(game.stack_size(1), Ok(20000));
    assert_eq!(game.stack_size(2), Ok(20000));
    assert!(game.stack_size(3).is_err());
}

#[test]
fn blind_size() {
    let game = get_game();
    assert_eq!(game.blind_size(0), Ok(1));
    assert_eq!(game.blind_size(1), Ok(1));
    assert!(game.stack_size(2).is_err());
}

#[test]
fn total_money() {
    let game = get_game();
    assert_eq!(game.total_money(), (i32::MAX as i64) * 2);
}
