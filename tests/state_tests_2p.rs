use acpc_server::{Action, BettingType, Game, State};

fn get_state() -> State {
    let game = Game::new(
        BettingType::NoLimit,
        vec![20000, 20000],
        vec![100, 50],
        vec![0, 0, 0, 0],
        vec![1, 0, 0, 0],
        vec![255, 255, 255, 255],
        4,
        13,
        2,
        vec![0, 3, 1, 1],
    )
    .unwrap();
    State::new(game)
}

#[test]
fn raise_count() {
    let mut state = get_state();
    state.do_action(Action::Raise(200)).unwrap(); // 1
    state.do_action(Action::Raise(1000)).unwrap(); // 0
    state.do_action(Action::Raise(2000)).unwrap(); // 1
    state.do_action(Action::Call).unwrap(); // 0

    state.do_action(Action::Raise(6000)).unwrap(); // 1
    state.do_action(Action::Raise(12000)).unwrap(); // 1
}

#[test]
fn is_finished() {
    let mut state = get_state();
    println!("stack: {:?} {:?}", state.game().stack_size(0), state.game().stack_size(1));
    println!("blind: {:?} {:?}", state.game().blind_size(0), state.game().blind_size(1));
    println!("raiseSize: {:?}", state.game().raise_size_of(0));
    state.do_action(Action::Raise(20000)).unwrap(); // p1 All-in
    state.do_action(Action::Fold).unwrap(); // p0 Fold
    println!("allin {}", state.num_all_in());
    println!("acting {}", state.num_acting_player());
    assert_eq!(true, state.is_finished());

    let mut state = get_state();
    state.do_action(Action::Raise(20000)).unwrap(); // p1 All-in
    println!("{:?}", state.raise_size());
    state.do_action(Action::Call).unwrap(); // p0 Call
    println!("allin {}", state.num_all_in());
    println!("acting {}", state.num_acting_player());
    assert_eq!(true, state.is_finished());
}
