use acpc_server::{Action, BettingType, Game, State};

fn get_state() -> State {
    let game = Game::new(
        BettingType::NoLimit,
        vec![20000, 20000, 20000],
        vec![50, 100, 0],
        vec![0, 0, 0, 0],
        vec![2, 0, 0, 0],
        vec![255, 255, 255, 255],
        4,
        13,
        2,
        vec![0, 3, 1, 1],
    )
    .unwrap();
    State::new(game)
}

fn play_until_showdown(state: &mut State) {
    loop {
        if state.is_finished() {
            return;
        }
        let action = Action::Call;
        state.do_action(action).unwrap();
    }
}

#[test]
fn new() {
    println!("{:?}", get_state());
}

#[test]
fn value_of_state() {
    let mut state = get_state();
    assert!(state.value_of_state(0).is_err());
    play_until_showdown(&mut state);
    assert_eq!(Ok(0), state.value_of_state(0));
    assert_eq!(Ok(0), state.value_of_state(1));
    assert_eq!(Ok(0), state.value_of_state(2));
    assert!(state.value_of_state(3).is_err());
}

#[test]
fn raise_size() {
    let mut state = get_state();
    assert_eq!(&[50, 100, 0], state.spents());

    assert_eq!(Ok((200, 20000)), state.raise_size());
    state.do_action(Action::Raise(200)).unwrap();
    assert_eq!(&[50, 100, 200], state.spents());

    assert_eq!(Ok((300, 20000)), state.raise_size());
    state.do_action(Action::Raise(1000)).unwrap();
    assert_eq!(&[1000, 100, 200], state.spents());

    assert_eq!(Ok((1800, 20000)), state.raise_size());
    state.do_action(Action::Raise(20000)).unwrap();
    assert_eq!(&[1000, 20000, 200], state.spents());
}

#[test]
fn num_folded() {
    let mut state = get_state();
    assert_eq!(0, state.num_folded());
    assert_eq!(3, state.num_acting_player());
    state.do_action(Action::Fold).unwrap();
    assert_eq!(1, state.num_folded());
    assert_eq!(2, state.num_acting_player());
}

#[test]
fn current_player() {
    let mut state = get_state();
    assert_eq!(2, state.current_player());
    state.do_action(Action::Fold).unwrap();
    assert_eq!(0, state.current_player());
    state.do_action(Action::Raise(200)).unwrap();
    assert_eq!(1, state.current_player());
    state.do_action(Action::Raise(500)).unwrap();
    assert_eq!(0, state.current_player());
}

#[test]
fn player_folded() {
    let mut state = get_state();
    assert_eq!(2, state.current_player());
    assert_eq!(false, state.player_folded(2).unwrap());
    state.do_action(Action::Fold).unwrap();
    assert_eq!(true, state.player_folded(2).unwrap());

    assert_eq!(0, state.current_player());
    assert_eq!(false, state.player_folded(0).unwrap());
    state.do_action(Action::Fold).unwrap();
    assert_eq!(true, state.player_folded(0).unwrap());
    assert_eq!(false, state.player_folded(1).unwrap());
}

#[test]
fn is_valid_action() {
    let mut state = get_state();
    assert_eq!(true, state.is_valid_action(Action::Fold));
    assert_eq!(true, state.is_valid_action(Action::Call));
    assert_eq!(false, state.is_valid_action(Action::Raise(100)));
    assert_eq!(true, state.is_valid_action(Action::Raise(1000)));
    assert_eq!(true, state.is_valid_action(Action::Raise(10000)));
    assert_eq!(false, state.is_valid_action(Action::Raise(20001)));

    state.do_action(Action::Raise(1000)).unwrap();
    assert_eq!(true, state.is_valid_action(Action::Fold));
    assert_eq!(true, state.is_valid_action(Action::Call));
    assert_eq!(false, state.is_valid_action(Action::Raise(100)));
    assert_eq!(false, state.is_valid_action(Action::Raise(1000)));
    assert_eq!(true, state.is_valid_action(Action::Raise(10000)));
    assert_eq!(false, state.is_valid_action(Action::Raise(20001)));
}

#[test]
fn money_and_ante() {
    let mut state = get_state();
    state.do_action(Action::Raise(200)).unwrap(); // 2
    state.do_action(Action::Raise(1000)).unwrap(); // 0
    state.do_action(Action::Call).unwrap(); // 1
    state.do_action(Action::Call).unwrap(); // 2
    state.do_action(Action::Raise(2000)).unwrap(); // 0
    assert_eq!(Ok(18000), state.money(0));
    assert_eq!(Ok(19000), state.money(1));
    assert_eq!(Ok(19000), state.money(2));

    assert_eq!(Ok(2000), state.ante(0));
    assert_eq!(Ok(1000), state.ante(1));
    assert_eq!(Ok(1000), state.ante(2));

    assert_eq!(4000, state.total_spent());
}

#[test]
fn num_called() {
    let mut state = get_state();
    assert_eq!(0, state.num_actions());

    assert_eq!(2, state.current_player());
    state.do_action(Action::Call).unwrap(); // 2
    assert_eq!(1, state.num_called());
    assert_eq!(1, state.num_actions());

    assert_eq!(0, state.current_player());
    state.do_action(Action::Raise(200)).unwrap(); // 0
    assert_eq!(2, state.num_actions());

    assert_eq!(1, state.current_player());
    state.do_action(Action::Raise(1000)).unwrap(); // 1
    assert_eq!(3, state.num_actions());

    assert_eq!(2, state.current_player());
    state.do_action(Action::Call).unwrap(); // 2
    assert_eq!(1, state.num_called());
    assert_eq!(4, state.num_actions());

    assert_eq!(0, state.current_player());
    state.do_action(Action::Raise(2000)).unwrap(); // 0
    assert_eq!(5, state.num_actions());

    assert_eq!(1, state.current_player());
    state.do_action(Action::Call).unwrap(); // 1
    assert_eq!(1, state.num_called());
    assert_eq!(6, state.num_actions());

    assert_eq!(2, state.current_player());
    state.do_action(Action::Fold).unwrap(); // 2
    assert_eq!(0, state.num_called());
    assert_eq!(0, state.num_actions());
}

#[test]
fn board_card() {
    let mut state = get_state();
    assert_eq!(0, state.board_cards().len());
    let board = [17, 19, 23];
    state.set_board_cards(&board);
    assert_eq!(&board[..], state.board_cards());
    let board = [17, 19, 23, 24];
    state.set_board_cards(&board);
    assert_eq!(&board[..], state.board_cards());
    let board = [17, 19, 23, 24, 25];
    state.set_board_cards(&board);
    assert_eq!(&board[..], state.board_cards());
}

#[test]
fn showdown() {
    let hole_cards = [[1, 35], [5, 50], [11, 51]];
    let board = [17, 19, 23, 29, 37];
    let mut state = get_state();
    play_until_showdown(&mut state);
    for (i, cards) in hole_cards.iter().enumerate() {
        state.set_hole_cards(i as u8, cards).unwrap();
    }
    for (i, cards) in hole_cards.iter().enumerate() {
        assert_eq!(Ok(&cards[..]), state.hole_cards(i as u8));
    }
    state.set_board_cards(&board);
    assert_eq!(&board[..], state.board_cards());
    assert_eq!(Ok(-100), state.value_of_state(0)); // lose
    assert_eq!(Ok(50), state.value_of_state(1)); // tie
    assert_eq!(Ok(50), state.value_of_state(2)); // tie
}
