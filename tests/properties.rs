use acpc_server::{legal_actions, rank_hand, Action, BettingType, Game, GameError, Node, State, Step};

fn holdem_3p() -> State {
    let game = Game::new(
        BettingType::NoLimit,
        vec![20000, 20000, 20000],
        vec![50, 100, 0],
        vec![0, 0, 0, 0],
        vec![2, 0, 0, 0],
        vec![255, 255, 255, 255],
        4,
        13,
        2,
        vec![0, 3, 1, 1],
    )
    .unwrap();
    State::new(game)
}

fn leduc() -> State {
    let game = Game::new(
        BettingType::Limit,
        vec![i32::MAX, i32::MAX],
        vec![1, 1],
        vec![2, 4],
        vec![0, 0],
        vec![2, 2],
        2,
        3,
        1,
        vec![0, 1],
    )
    .unwrap();
    State::new(game)
}

fn holdem_2p() -> State {
    let game = Game::new(
        BettingType::NoLimit,
        vec![20000, 20000],
        vec![100, 50],
        vec![0, 0, 0, 0],
        vec![1, 0, 0, 0],
        vec![255, 255, 255, 255],
        4,
        13,
        2,
        vec![0, 3, 1, 1],
    )
    .unwrap();
    State::new(game)
}

fn call_down(state: &mut State) {
    while !state.is_finished() {
        state.do_action(Action::Call).unwrap();
    }
}

#[test]
fn payoffs_sum_to_zero_at_showdown() {
    let mut state = holdem_3p();
    call_down(&mut state);
    state.set_hole_cards(0, &[1, 35]).unwrap();
    state.set_hole_cards(1, &[5, 50]).unwrap();
    state.set_hole_cards(2, &[11, 51]).unwrap();
    state.set_board_cards(&[17, 19, 23, 29, 37]);
    let total: i64 = (0..3u8).map(|p| state.value_of_state(p).unwrap()).sum();
    assert_eq!(0, total);
}

#[test]
fn odd_chip_goes_to_first_winner() {
    let mut state = holdem_3p();
    state.do_action(Action::Raise(201)).unwrap();
    call_down(&mut state);
    assert_eq!(603, state.total_spent());
    let ranks = [5u32, 5, 1];
    assert_eq!(Ok(101), state.value_with_ranks(0, &ranks));
    assert_eq!(Ok(100), state.value_with_ranks(1, &ranks));
    assert_eq!(Ok(-201), state.value_with_ranks(2, &ranks));
}

#[test]
fn sole_survivor_takes_the_pot() {
    let mut state = holdem_3p();
    state.do_action(Action::Fold).unwrap();
    state.do_action(Action::Fold).unwrap();
    assert!(state.is_finished());
    assert_eq!(Ok(-50), state.value_of_state(0));
    assert_eq!(Ok(50), state.value_of_state(1));
    assert_eq!(Ok(0), state.value_of_state(2));
}

#[test]
fn value_before_the_end_is_not_finished() {
    let state = holdem_3p();
    assert_eq!(Err(GameError::NotFinished), state.value_of_state(0));
    assert_eq!(Err(GameError::NotFinished), state.value_with_ranks(0, &[0, 0, 0]));
}

#[test]
fn invalid_action_changes_nothing() {
    let mut state = holdem_3p();
    let spents = state.spents().to_vec();
    let round = state.get_round();
    let player = state.current_player();
    assert!(!state.is_valid_action(Action::Raise(100)));
    assert_eq!(Err(GameError::InvalidAction), state.do_action(Action::Raise(100)));
    assert_eq!(Err(GameError::InvalidAction), state.do_action(Action::Invalid));
    assert_eq!(&spents[..], state.spents());
    assert_eq!(round, state.get_round());
    assert_eq!(player, state.current_player());
    assert_eq!(0, state.num_actions());
}

#[test]
fn valid_raise_lies_within_bounds() {
    let state = holdem_3p();
    let (lo, hi) = state.raise_size().unwrap();
    for t in [0, 100, 199, 200, 201, 5000, 19999, 20000, 20001] {
        if state.is_valid_action(Action::Raise(t)) {
            assert!(lo <= t && t <= hi);
        }
    }
    assert!(state.is_valid_action(Action::Raise(lo)));
    assert!(state.is_valid_action(Action::Raise(hi)));
}

#[test]
fn folded_player_stays_folded_and_never_acts() {
    let mut state = holdem_3p();
    state.do_action(Action::Fold).unwrap();
    while !state.is_finished() {
        assert_eq!(Ok(true), state.player_folded(2));
        assert_ne!(2, state.current_player());
        state.do_action(Action::Call).unwrap();
    }
    assert_eq!(Ok(true), state.player_folded(2));
}

#[test]
fn acting_players_never_increase() {
    let mut state = holdem_3p();
    let mut acting = state.num_acting_player();
    assert_eq!(3, acting);
    state.do_action(Action::Raise(20000)).unwrap();
    assert_eq!(acting - 1, state.num_acting_player());
    acting = state.num_acting_player();
    state.do_action(Action::Fold).unwrap();
    assert_eq!(acting - 1, state.num_acting_player());
    assert!(!state.is_finished());
    acting = state.num_acting_player();
    state.do_action(Action::Call).unwrap();
    assert!(state.num_acting_player() <= acting);
    assert!(state.is_finished());
}

#[test]
fn queries_repeat_their_answers() {
    let mut state = holdem_3p();
    state.do_action(Action::Raise(300)).unwrap();
    assert_eq!(state.current_player(), state.current_player());
    assert_eq!(state.raise_size(), state.raise_size());
    assert_eq!(state.spents().to_vec(), state.spents().to_vec());
    assert_eq!(Ok((500, 20000)), state.raise_size());
}

#[test]
fn player_index_out_of_range() {
    let state = holdem_3p();
    assert_eq!(Err(GameError::InvalidPlayerIndex), state.spent_of(3));
    assert_eq!(Err(GameError::InvalidPlayerIndex), state.player_folded(7));
    assert_eq!(Err(GameError::InvalidPlayerIndex), state.money(3));
    assert_eq!(Err(GameError::InvalidPlayerIndex), state.game().blind_size(3));
}

#[test]
fn limit_raise_is_fixed_and_capped() {
    let mut state = leduc();
    assert_eq!(0, state.current_player());
    assert_eq!(Ok((3, 3)), state.raise_size());
    assert!(!state.is_valid_action(Action::Raise(2)));
    state.do_action(Action::Raise(3)).unwrap();
    assert_eq!(Ok((5, 5)), state.raise_size());
    state.do_action(Action::Raise(5)).unwrap();
    assert_eq!(Err(GameError::NotRaisable), state.raise_size());
    assert!(!state.is_valid_action(Action::Raise(7)));
    state.do_action(Action::Call).unwrap();
    assert_eq!(1, state.get_round());
    assert_eq!(Ok((9, 9)), state.raise_size());
}

#[test]
fn all_in_call_ends_the_hand() {
    let mut state = holdem_2p();
    assert_eq!(1, state.current_player());
    state.do_action(Action::Raise(20000)).unwrap();
    assert_eq!(Err(GameError::NotRaisable), state.raise_size());
    state.do_action(Action::Call).unwrap();
    assert!(state.is_finished());
    assert_eq!(3, state.get_round());
    assert_eq!(2, state.num_all_in());
    assert_eq!(0, state.num_acting_player());
    assert_eq!(20000, state.max_spend());
}

#[test]
fn new_round_resets_minimum_raise() {
    let mut state = holdem_2p();
    state.do_action(Action::Call).unwrap();
    state.do_action(Action::Call).unwrap();
    assert_eq!(1, state.get_round());
    assert_eq!(0, state.current_player());
    assert_eq!(100, state.current_spent());
    assert_eq!(Ok((200, 20000)), state.raise_size());
}

#[test]
fn game_definition_queries() {
    let state = holdem_3p();
    assert_eq!(3, state.game().number_of_players());
    assert_eq!(4, state.game().num_rounds());
    assert_eq!(60000, state.game().total_money());
    assert_eq!(5, state.game().sum_board_cards(3));
    assert_eq!(4, state.game().bc_start(3));
    assert_eq!(5, state.game().bc_start(9));
    assert_eq!(2, state.game().num_hole_cards());
    assert_eq!(100, state.game().max_blind());
}

#[test]
fn malformed_games_are_refused() {
    let one_player = Game::new(BettingType::NoLimit, vec![100], vec![0], vec![0], vec![0], vec![1], 4, 13, 2, vec![0]);
    assert!(one_player.is_none());
    let blind_over_stack =
        Game::new(BettingType::NoLimit, vec![100, 100], vec![0, 200], vec![0], vec![0], vec![1], 4, 13, 2, vec![0]);
    assert!(blind_over_stack.is_none());
    let zero_limit_raise =
        Game::new(BettingType::Limit, vec![100, 100], vec![0, 1], vec![0], vec![0], vec![1], 4, 13, 2, vec![0]);
    assert!(zero_limit_raise.is_none());
    let too_many_board_cards =
        Game::new(BettingType::NoLimit, vec![100, 100], vec![0, 1], vec![0, 0], vec![0, 0], vec![1, 1], 4, 13, 2, vec![5, 3]);
    assert!(too_many_board_cards.is_none());
}

#[test]
fn hand_ranks_order_poker_hands() {
    assert_eq!(0, rank_hand(&[], 4, 13));
    // a lone ace: high card, key 13
    assert_eq!(13 * 65536, rank_hand(&[48], 4, 13));
    // a pair of aces
    assert_eq!(1048576 + 13 * 65536, rank_hand(&[48, 49], 4, 13));
    let high = rank_hand(&[0, 9, 18, 27, 44], 4, 13);
    let pair = rank_hand(&[0, 1, 18, 27, 44], 4, 13);
    let two_pair = rank_hand(&[0, 1, 18, 19, 44], 4, 13);
    let trips = rank_hand(&[0, 1, 2, 27, 44], 4, 13);
    let straight = rank_hand(&[0, 5, 10, 15, 16], 4, 13);
    let wheel = rank_hand(&[48, 1, 6, 11, 12], 4, 13);
    let flush = rank_hand(&[0, 8, 16, 28, 44], 4, 13);
    let full = rank_hand(&[0, 1, 2, 5, 6], 4, 13);
    let quads = rank_hand(&[0, 1, 2, 3, 44], 4, 13);
    let straight_flush = rank_hand(&[0, 4, 8, 12, 16], 4, 13);
    assert!(high < pair && pair < two_pair && two_pair < trips && trips < straight);
    assert!(wheel < straight && straight < flush && flush < full && full < quads);
    assert!(quads < straight_flush);
    // cards outside the deck are not looked at
    assert_eq!(rank_hand(&[48], 4, 13), rank_hand(&[48, 255], 4, 13));
}

#[test]
fn history_lists_actions_from_the_root() {
    let arena = vec![
        Node { parent: None, player: 0, action: Action::Raise(2) },
        Node { parent: Some(0), player: 1, action: Action::Call },
        Node { parent: Some(1), player: 12, action: Action::Raise(-5) },
    ];
    let leaf = Node { parent: Some(2), player: 0, action: Action::Fold };
    assert_eq!(vec!["P0|Raise(2)", "P1|Call", "P12|Raise(-5)", "P0|Fold"], leaf.history(&arena));
    let root_child = Node { parent: None, player: 1, action: Action::Invalid };
    assert_eq!(vec!["P1|Invalid"], root_child.history(&arena));
}

#[test]
fn legal_actions_follow_the_raise_cap() {
    let mut state = leduc();
    assert_eq!(vec![Action::Fold, Action::Call, Action::Raise(3)], legal_actions(&state));
    state.do_action(Action::Raise(3)).unwrap();
    state.do_action(Action::Raise(5)).unwrap();
    assert_eq!(vec![Action::Fold, Action::Call], legal_actions(&state));
    state.do_action(Action::Fold).unwrap();
    assert!(legal_actions(&state).is_empty());
}

#[test]
fn snapshot_describes_the_hand() {
    let mut state = holdem_3p();
    state.do_action(Action::Call).unwrap();
    state.do_action(Action::Call).unwrap();
    state.do_action(Action::Call).unwrap();
    state.do_action(Action::Raise(300)).unwrap();
    let snap = state.snapshot();
    assert_eq!(1, snap.round);
    assert!(!snap.finished);
    assert_eq!(300, snap.max_spent);
    assert_eq!(vec![300, 100, 100], snap.spent);
    assert_eq!(vec![false, false, false], snap.folded);
    assert_eq!(2, snap.actions.len());
    assert_eq!(3, snap.actions[0].len());
    assert_eq!(Step { player: 0, action: Action::Raise(300) }, snap.actions[1][0]);
    assert_eq!(3, snap.hole.len());
}

fn two_seats(betting: BettingType, stack: Vec<i32>, blind: Vec<i32>, raise: i32) -> State {
    let game = Game::new(betting, stack, blind, vec![raise, raise], vec![0, 0], vec![3, 3], 4, 13, 2, vec![0, 3])
        .unwrap();
    State::new(game)
}

#[test]
fn last_seat_able_to_act_may_still_raise() {
    let mut state = two_seats(BettingType::NoLimit, vec![150, 1000], vec![50, 100], 0);
    assert_eq!(0, state.current_player());
    assert_eq!(Ok((150, 150)), state.raise_size());
    state.do_action(Action::Raise(150)).unwrap();
    assert_eq!(1, state.num_acting_player());
    assert_eq!(Ok((200, 1000)), state.raise_size());
    state.do_action(Action::Raise(500)).unwrap();
    assert!(state.is_finished());
}

#[test]
fn limit_raise_after_short_all_in() {
    let mut state = two_seats(BettingType::Limit, vec![3, 100], vec![1, 2], 2);
    assert_eq!(Ok((3, 3)), state.raise_size());
    state.do_action(Action::Raise(3)).unwrap();
    assert_eq!(Ok((5, 5)), state.raise_size());
}

#[test]
fn no_limit_raises_are_not_capped() {
    let game = Game::new(
        BettingType::NoLimit,
        vec![20000, 20000, 20000],
        vec![50, 100, 0],
        vec![0, 0, 0, 0],
        vec![2, 0, 0, 0],
        vec![1, 1, 1, 1],
        4,
        13,
        2,
        vec![0, 3, 1, 1],
    )
    .unwrap();
    let mut state = State::new(game);
    state.do_action(Action::Raise(200)).unwrap();
    assert_eq!(Ok((300, 20000)), state.raise_size());
    state.do_action(Action::Raise(300)).unwrap();
    assert_eq!(Ok((400, 20000)), state.raise_size());
}

#[test]
fn game_with_nobody_able_to_act_is_refused() {
    let all_blinds = Game::new(
        BettingType::NoLimit,
        vec![100, 100],
        vec![100, 100],
        vec![0, 0],
        vec![0, 0],
        vec![3, 3],
        4,
        13,
        2,
        vec![0, 3],
    );
    assert!(all_blinds.is_none());
    let state = two_seats(BettingType::NoLimit, vec![100, 200], vec![100, 100], 0);
    assert!(!state.is_finished());
    assert_eq!(0, state.get_round());
    assert_eq!(1, state.current_player());
    assert_eq!(1, state.num_all_in());
    assert_eq!(100, state.max_spend());
}

#[test]
fn num_called_restarts_at_each_raise() {
    let mut state = holdem_3p();
    state.do_action(Action::Call).unwrap();
    assert_eq!(1, state.num_called());
    state.do_action(Action::Raise(300)).unwrap();
    assert_eq!(0, state.num_called());
    state.do_action(Action::Call).unwrap();
    assert_eq!(1, state.num_called());
}

#[test]
fn short_all_in_raise_sets_the_next_increment() {
    let game = Game::new(
        BettingType::NoLimit,
        vec![1200, 20000, 20000],
        vec![50, 100, 0],
        vec![0, 0, 0, 0],
        vec![2, 0, 0, 0],
        vec![255, 255, 255, 255],
        4,
        13,
        2,
        vec![0, 3, 1, 1],
    )
    .unwrap();
    let mut state = State::new(game);
    state.do_action(Action::Raise(1000)).unwrap();
    assert_eq!(Ok((1200, 1200)), state.raise_size());
    state.do_action(Action::Raise(1200)).unwrap();
    assert_eq!(Ok((1400, 20000)), state.raise_size());
}
