use vstd::prelude::*;
use vstd::arithmetic::div_mod::{lemma_fundamental_div_mod, lemma_mod_pos_bound};

use crate::hand::{hand_value, rank_hand};
use crate::game::{
    lemma_max_blind_attained,
    lemma_max_blind_bounds, BettingType, Game, GameError, GameView, MAX_ACTIONS_PER_ROUND,
    MAX_BOARD_CARDS,
};

verus! {

/// A card id: its rank times four, plus its suit.
pub type Card = u8;

/// An action a player may take.
#[derive(Debug, Clone, Copy, PartialEq, Eq, Structural, PartialOrd, Ord, Hash)]
pub enum Action {
    /// Give up the hand.
    Fold,
    /// Match the highest commitment (or go all-in if the stack is smaller).
    Call,
    /// Raise so that the player's total commitment this hand becomes the given amount.
    Raise(i32),
    /// Never legal.
    Invalid,
}

/// One logged action: who took it and what it was.
#[derive(Debug, Clone, Copy, PartialEq, Eq, Structural)]
pub struct Step {
    pub player: u8,
    pub action: Action,
}

/// Mathematical model of the betting state of one hand.
pub struct StateView {
    pub hand_id: u32,
    /// Highest commitment so far: what the others must match.
    pub max_spent: int,
    /// Smallest total a no-limit raise may go to.
    pub min_raise_to: int,
    /// Chips each player has committed this hand.
    pub spent: Seq<i32>,
    pub folded: Seq<bool>,
    /// Actions of the current round, in order.
    pub log: Seq<Step>,
    /// Action logs of the rounds already closed.
    pub past: Seq<Seq<Step>>,
    pub round: int,
    pub finished: bool,
    pub board: Seq<Card>,
    pub hole: Seq<Seq<Card>>,
}

/// Player `p` is still in the hand and has chips left to act with.
pub open spec fn can_act(g: GameView, s: StateView, p: int) -> bool {
    !s.folded[p] && s.spent[p] < g.stack[p]
}

/// Folded players among the first `k`.
pub open spec fn count_folded(s: StateView, k: int) -> int
    decreases k,
{
    if k <= 0 {
        0
    } else {
        count_folded(s, k - 1) + if s.folded[k - 1] {
            1int
        } else {
            0
        }
    }
}

/// Players among the first `k` that have not folded and have committed their whole stack.
pub open spec fn count_all_in(g: GameView, s: StateView, k: int) -> int
    decreases k,
{
    if k <= 0 {
        0
    } else {
        count_all_in(g, s, k - 1) + if !s.folded[k - 1] && s.spent[k - 1] >= g.stack[k - 1] {
            1int
        } else {
            0
        }
    }
}

/// Players among the first `k` that can still act.
pub open spec fn count_acting(g: GameView, s: StateView, k: int) -> int
    decreases k,
{
    if k <= 0 {
        0
    } else {
        count_acting(g, s, k - 1) + if can_act(g, s, k - 1) {
            1int
        } else {
            0
        }
    }
}

/// Chips committed by the first `k` players.
pub open spec fn spent_sum(s: StateView, k: int) -> int
    decreases k,
{
    if k <= 0 {
        0
    } else {
        spent_sum(s, k - 1) + s.spent[k - 1] as int
    }
}

/// Raises among the first `k` entries of a log.
pub open spec fn count_raises(log: Seq<Step>, k: int) -> int
    decreases k,
{
    if k <= 0 {
        0
    } else {
        count_raises(log, k - 1) + if log[k - 1].action is Raise {
            1int
        } else {
            0
        }
    }
}

/// Players that have matched the current bet and can still act, counted back from entry
/// `i` of the round's log to the raise that opened the bet (the raiser included).
pub open spec fn called_back(g: GameView, s: StateView, i: int) -> int
    decreases i,
{
    if i <= 0 {
        0
    } else {
        let p = s.log[i - 1].player as int;
        let acting: int = if s.spent[p] < g.stack[p] {
            1
        } else {
            0
        };
        match s.log[i - 1].action {
            Action::Raise(_) => acting,
            Action::Call => called_back(g, s, i - 1) + acting,
            _ => called_back(g, s, i - 1),
        }
    }
}

/// Calls among the first `i` entries of the round's log since the latest raise among them:
/// the players who matched the current bet without raising.
pub open spec fn calls_since_raise(log: Seq<Step>, i: int) -> int
    decreases i,
{
    if i <= 0 {
        0
    } else {
        match log[i - 1].action {
            Action::Raise(_) => 0,
            Action::Call => calls_since_raise(log, i - 1) + 1,
            _ => calls_since_raise(log, i - 1),
        }
    }
}

/// The `j`-th seat after seat `cur`, going round the table.
pub open spec fn seat_after(g: GameView, cur: int, j: int) -> int {
    if cur + 1 + j < g.num_players() {
        cur + 1 + j
    } else {
        cur + 1 + j - g.num_players()
    }
}

/// First seat after `cur`, trying the `j`-th onwards, that can act; `cur` when none can.
pub open spec fn next_from(g: GameView, s: StateView, cur: int, j: int) -> int
    decreases g.num_players() - j,
{
    if j >= g.num_players() {
        cur
    } else if can_act(g, s, seat_after(g, cur, j)) {
        seat_after(g, cur, j)
    } else {
        next_from(g, s, cur, j + 1)
    }
}

/// Seat just before the one that opens the current round.
pub open spec fn round_anchor(g: GameView, s: StateView) -> int {
    let first = g.first_player[s.round] as int;
    if first == 0 {
        g.num_players() - 1
    } else {
        first - 1
    }
}

/// The player to act: the next one able to act after the last actor of the round, or,
/// before anyone has acted in it, from the round's first seat on.
pub open spec fn current_player(g: GameView, s: StateView) -> int {
    if s.log.len() > 0 {
        next_from(g, s, s.log.last().player as int, 0)
    } else {
        next_from(g, s, round_anchor(g, s), 0)
    }
}

pub open spec fn min_int(a: int, b: int) -> int {
    if a < b {
        a
    } else {
        b
    }
}

/// The smallest and largest total the acting player may raise to, or `None` when no raise
/// is possible: the hand is over, a limit game's raise cap for the round is reached, the
/// round's log has no room for a raise and the answers to it, or the player has no chips
/// beyond the current bet.
pub open spec fn raise_bounds(g: GameView, s: StateView) -> Option<(int, int)> {
    if s.finished || (g.betting_type == BettingType::Limit && count_raises(
        s.log,
        s.log.len() as int,
    ) >= g.max_raises[s.round]) || s.log.len() + g.num_players() > MAX_ACTIONS_PER_ROUND {
        None
    } else {
        let stack = g.stack[current_player(g, s)] as int;
        if stack <= s.max_spent {
            None
        } else if g.betting_type == BettingType::Limit {
            let t = min_int(s.max_spent + g.raise_size[s.round], stack);
            Some((t, t))
        } else {
            Some((min_int(s.min_raise_to, stack), stack))
        }
    }
}

/// Whether `a` may be taken by the acting player: the hand goes on, the round's log has
/// room, the player to act can act, and a raise goes to a total within the raise bounds.
pub open spec fn valid_action(g: GameView, s: StateView, a: Action) -> bool {
    &&& !s.finished
    &&& s.log.len() < MAX_ACTIONS_PER_ROUND
    &&& can_act(g, s, current_player(g, s))
    &&& match a {
        Action::Fold => true,
        Action::Call => true,
        Action::Raise(t) => match raise_bounds(g, s) {
            Some((lo, hi)) => lo <= t <= hi,
            None => false,
        },
        Action::Invalid => false,
    }
}

/// The state right after the acting player's commitment or fold is recorded.
pub open spec fn record(g: GameView, s: StateView, a: Action) -> StateView {
    let p = current_player(g, s);
    let logged = StateView { log: s.log.push(Step { player: p as u8, action: a }), ..s };
    match a {
        Action::Fold => StateView { folded: s.folded.update(p, true), ..logged },
        Action::Call => StateView {
            spent: s.spent.update(p, min_int(s.max_spent, g.stack[p] as int) as i32),
            ..logged
        },
        Action::Raise(t) => StateView {
            spent: s.spent.update(p, t),
            max_spent: t as int,
            min_raise_to: if g.betting_type == BettingType::NoLimit {
                2 * t - s.max_spent
            } else {
                s.min_raise_to
            },
            ..logged
        },
        Action::Invalid => logged,
    }
}

/// Smallest no-limit raise total at the start of a later round.
pub open spec fn reopened_min_raise(g: GameView, max_spent: int) -> int {
    let b = g.max_blind(g.num_players() as int);
    (if b > 1 {
        b
    } else {
        1
    }) + max_spent
}

/// Ends the hand or the round when the recorded action closes it.
pub open spec fn settle(g: GameView, s: StateView) -> StateView {
    let n = g.num_players() as int;
    if count_folded(s, n) + 1 >= n {
        StateView { finished: true, ..s }
    } else if called_back(g, s, s.log.len() as int) >= count_acting(g, s, n) {
        if count_acting(g, s, n) > 1 {
            if s.round + 1 < g.num_rounds() {
                StateView {
                    round: s.round + 1,
                    past: s.past.push(s.log),
                    log: Seq::empty(),
                    min_raise_to: reopened_min_raise(g, s.max_spent),
                    ..s
                }
            } else {
                StateView { finished: true, ..s }
            }
        } else if s.round + 1 < g.num_rounds() {
            StateView {
                finished: true,
                round: g.num_rounds() - 1,
                past: s.past.push(s.log),
                log: Seq::empty(),
                ..s
            }
        } else {
            StateView { finished: true, ..s }
        }
    } else {
        s
    }
}

/// The state after the acting player takes the valid action `a`.
pub open spec fn apply_action(g: GameView, s: StateView, a: Action) -> StateView {
    settle(g, record(g, s, a))
}

/// The state at the start of a hand: blinds posted, nobody folded, round 0.
pub open spec fn initial_state(g: GameView) -> StateView {
    let n = g.num_players() as int;
    let mb = g.max_blind(n);
    StateView {
        hand_id: g.hand_id,
        max_spent: mb,
        min_raise_to: if g.betting_type == BettingType::NoLimit {
            if mb > 0 {
                2 * mb
            } else {
                1
            }
        } else {
            0
        },
        spent: g.blind,
        folded: Seq::new(n as nat, |i: int| false),
        log: Seq::empty(),
        past: Seq::empty(),
        round: 0,
        finished: false,
        board: Seq::empty(),
        hole: Seq::new(n as nat, |i: int| Seq::<Card>::empty()),
    }
}

/// Every call or raise among the first `i` entries of the round's log, back to the latest
/// raise, was made by a player who still matches the current bet or is all-in.
pub open spec fn matched_back(g: GameView, s: StateView, i: int) -> bool
    decreases i,
{
    if i <= 0 {
        true
    } else {
        let q = s.log[i - 1].player as int;
        let ok = s.spent[q] >= min_int(s.max_spent, g.stack[q] as int);
        match s.log[i - 1].action {
            Action::Raise(_) => ok,
            Action::Call => ok && matched_back(g, s, i - 1),
            _ => matched_back(g, s, i - 1),
        }
    }
}

/// The round's log has room for every action still needed to close the round: each action
/// other than a raise brings the acting players and those who have matched the bet one
/// closer, and the round closes when they meet.
pub open spec fn log_budget(g: GameView, s: StateView) -> bool {
    let n = g.num_players() as int;
    let open_seats = count_acting(g, s, n) - called_back(g, s, s.log.len() as int);
    &&& s.log.len() + open_seats <= MAX_ACTIONS_PER_ROUND
    &&& (s.log.len() == 0 || open_seats > 0)
}

/// The invariant of a betting state under game `g`.
pub open spec fn state_wf(g: GameView, s: StateView) -> bool {
    let n = g.num_players() as int;
    &&& g.wf()
    &&& s.spent.len() == n
    &&& s.folded.len() == n
    &&& s.hole.len() == n
    &&& 0 <= s.max_spent <= i32::MAX
    &&& forall|p: int| 0 <= p < n ==> 0 <= #[trigger] s.spent[p] <= g.stack[p] && s.spent[p] <= s.max_spent
    &&& exists|p: int| 0 <= p < n && #[trigger] s.spent[p] == s.max_spent
    &&& 0 <= s.round < g.num_rounds()
    &&& s.log.len() <= MAX_ACTIONS_PER_ROUND
    &&& forall|i: int| 0 <= i < s.log.len() ==> (#[trigger] s.log[i].player as int) < n
    &&& 0 <= s.min_raise_to <= 2 * (i32::MAX as int)
    &&& (g.betting_type == BettingType::NoLimit ==> s.max_spent < s.min_raise_to)
    &&& count_folded(s, n) < n
    &&& (!s.finished ==> count_folded(s, n) + 1 < n)
    &&& (!s.finished ==> count_acting(g, s, n) > 0)
    &&& s.board.len() <= MAX_BOARD_CARDS
    &&& forall|p: int| 0 <= p < n ==> (#[trigger] s.hole[p]).len() <= g.num_hole_cards
    &&& matched_back(g, s, s.log.len() as int)
    &&& (!s.finished ==> log_budget(g, s))
    &&& (!s.finished ==> s.log.len() < MAX_ACTIONS_PER_ROUND)
}


pub proof fn lemma_counts_bounded(g: GameView, s: StateView, k: int)
    requires
        0 <= k,
    ensures
        0 <= count_folded(s, k) <= k,
        0 <= count_all_in(g, s, k) <= k,
        0 <= count_acting(g, s, k) <= k,
    decreases k,
{
    if k > 0 {
        lemma_counts_bounded(g, s, k - 1);
    }
}

pub proof fn lemma_acting_positive(g: GameView, s: StateView, q: int, k: int)
    requires
        0 <= q < k,
        can_act(g, s, q),
    ensures
        count_acting(g, s, k) >= 1,
    decreases k,
{
    lemma_counts_bounded(g, s, k - 1);
    if q < k - 1 {
        lemma_acting_positive(g, s, q, k - 1);
    }
}

proof fn lemma_matched_back_mono(g: GameView, s: StateView, t: StateView, i: int)
    requires
        0 <= i <= s.log.len(),
        i <= t.log.len(),
        forall|j: int| 0 <= j < i ==> t.log[j] == s.log[j],
        t.max_spent == s.max_spent,
        t.spent.len() == s.spent.len(),
        forall|j: int| 0 <= j < i ==> (#[trigger] s.log[j].player as int) < s.spent.len(),
        forall|q: int| 0 <= q < s.spent.len() ==> t.spent[q] >= #[trigger] s.spent[q],
        matched_back(g, s, i),
    ensures
        matched_back(g, t, i),
    decreases i,
{
    if i > 0 {
        assert(t.log[i - 1] == s.log[i - 1]);
        let q = s.log[i - 1].player as int;
        assert(t.spent[q] >= s.spent[q]);
        if !(s.log[i - 1].action is Raise) {
            lemma_matched_back_mono(g, s, t, i - 1);
        }
    }
}

/// Changing the commitments keeps the count of players who matched the bet, as long as only
/// seat `p` may change whether it is all-in, and only when it has not matched the bet.
proof fn lemma_called_back_same(g: GameView, s: StateView, t: StateView, p: int, i: int)
    requires
        0 <= i <= s.log.len(),
        i <= t.log.len(),
        forall|j: int| 0 <= j < i ==> t.log[j] == s.log[j],
        forall|j: int| 0 <= j < i ==> (#[trigger] s.log[j].player as int) < s.spent.len(),
        forall|q: int|
            0 <= q < s.spent.len() && q != p ==> (#[trigger] t.spent[q] < g.stack[q]) == (
            s.spent[q] < g.stack[q]),
        (t.spent[p] < g.stack[p]) == (s.spent[p] < g.stack[p]) || s.spent[p] < min_int(
            s.max_spent,
            g.stack[p] as int,
        ),
        matched_back(g, s, i),
    ensures
        called_back(g, t, i) == called_back(g, s, i),
    decreases i,
{
    if i > 0 {
        assert(t.log[i - 1] == s.log[i - 1]);
        let q = s.log[i - 1].player as int;
        if q != p {
            assert((t.spent[q] < g.stack[q]) == (s.spent[q] < g.stack[q]));
        }
        if !(s.log[i - 1].action is Raise) {
            lemma_called_back_same(g, s, t, p, i - 1);
        }
    }
}

proof fn lemma_count_acting_below(g: GameView, s: StateView, q: int, k: int)
    requires
        0 <= q < k,
        !can_act(g, s, q),
    ensures
        count_acting(g, s, k) <= k - 1,
    decreases k,
{
    lemma_counts_bounded(g, s, k - 1);
    if q < k - 1 {
        lemma_count_acting_below(g, s, q, k - 1);
    }
}

/// Recording a legal action keeps the calls and raises of the round matched and leaves
/// room in the log for the actions still needed to close the round.
proof fn lemma_record_budget(g: GameView, s: StateView, a: Action)
    requires
        state_wf(g, s),
        valid_action(g, s, a),
    ensures
        matched_back(g, record(g, s, a), record(g, s, a).log.len() as int),
        record(g, s, a).log.len() + count_acting(g, record(g, s, a), g.num_players() as int)
            - called_back(g, record(g, s, a), record(g, s, a).log.len() as int)
            <= MAX_ACTIONS_PER_ROUND,
{
    let n = g.num_players() as int;
    let p = current_player(g, s);
    lemma_current_player_in_range(g, s);
    let rec = record(g, s, a);
    let len = s.log.len() as int;
    assert(rec.log[len] == Step { player: p as u8, action: a });
    assert forall|j: int| 0 <= j < len implies rec.log[j] == s.log[j] by {
    }
    lemma_called_back_bounded(g, s, len);
    lemma_counts_bounded(g, rec, n);
    assert forall|q: int| 0 <= q < n && q != p implies can_act(g, rec, q) == can_act(g, s, q) by {
    }
    lemma_count_acting_one_seat(g, s, rec, p, n);
    match a {
        Action::Raise(t) => {
            lemma_called_back_bounded(g, rec, len + 1);
            if !can_act(g, rec, p) {
                lemma_count_acting_below(g, rec, p, n);
            }
        },
        _ => {
            assert forall|q: int| 0 <= q < s.spent.len() implies rec.spent[q]
                >= #[trigger] s.spent[q] by {
            }
            lemma_matched_back_mono(g, s, rec, len);
            assert forall|q: int| 0 <= q < s.spent.len() && q != p implies (#[trigger] rec.spent[q]
                < g.stack[q]) == (s.spent[q] < g.stack[q]) by {
            }
            if !((rec.spent[p] < g.stack[p]) == (s.spent[p] < g.stack[p])) {
                assert(s.spent[p] < min_int(s.max_spent, g.stack[p] as int));
            }
            lemma_called_back_same(g, s, rec, p, len);
        },
    }
}

pub proof fn lemma_raises_bounded(log: Seq<Step>, k: int)
    requires
        0 <= k,
    ensures
        0 <= count_raises(log, k) <= k,
    decreases k,
{
    if k > 0 {
        lemma_raises_bounded(log, k - 1);
    }
}

pub proof fn lemma_calls_since_raise_bounded(log: Seq<Step>, i: int)
    requires
        0 <= i,
    ensures
        0 <= calls_since_raise(log, i) <= i,
    decreases i,
{
    if i > 0 {
        lemma_calls_since_raise_bounded(log, i - 1);
    }
}

pub proof fn lemma_called_back_bounded(g: GameView, s: StateView, i: int)
    requires
        0 <= i,
    ensures
        0 <= called_back(g, s, i) <= i,
    decreases i,
{
    if i > 0 {
        lemma_called_back_bounded(g, s, i - 1);
    }
}

pub proof fn lemma_spent_sum_bounds(g: GameView, s: StateView, k: int)
    requires
        state_wf(g, s),
        0 <= k <= g.num_players(),
    ensures
        0 <= spent_sum(s, k) <= k * (i32::MAX as int),
    decreases k,
{
    if k > 0 {
        lemma_spent_sum_bounds(g, s, k - 1);
        assert(0 <= s.spent[k - 1]);
    }
}

pub proof fn lemma_next_from_in_range(g: GameView, s: StateView, cur: int, j: int)
    requires
        0 <= cur < g.num_players(),
        0 <= j,
    ensures
        0 <= next_from(g, s, cur, j) < g.num_players(),
    decreases g.num_players() - j,
{
    if j < g.num_players() {
        lemma_next_from_in_range(g, s, cur, j + 1);
    }
}

pub proof fn lemma_count_folded_none(s: StateView, k: int)
    requires
        0 <= k <= s.folded.len(),
        forall|p: int| 0 <= p < k ==> !s.folded[p],
    ensures
        count_folded(s, k) == 0,
    decreases k,
{
    if k > 0 {
        lemma_count_folded_none(s, k - 1);
    }
}

pub proof fn lemma_count_folded_frame(s: StateView, t: StateView, k: int)
    requires
        s.folded == t.folded,
    ensures
        count_folded(s, k) == count_folded(t, k),
    decreases k,
{
    if k > 0 {
        lemma_count_folded_frame(s, t, k - 1);
    }
}

pub proof fn lemma_count_folded_fold(s: StateView, t: StateView, p: int, k: int)
    requires
        0 <= p < s.folded.len(),
        k <= s.folded.len(),
        !s.folded[p],
        t.folded == s.folded.update(p, true),
    ensures
        count_folded(t, k) == count_folded(s, k) + if p < k {
            1int
        } else {
            0
        },
    decreases k,
{
    if k > 0 {
        lemma_count_folded_fold(s, t, p, k - 1);
    }
}

pub proof fn lemma_called_back_frame(g: GameView, s: StateView, t: StateView, i: int)
    requires
        s.log == t.log,
        s.spent == t.spent,
    ensures
        called_back(g, s, i) == called_back(g, t, i),
    decreases i,
{
    if i > 0 {
        lemma_called_back_frame(g, s, t, i - 1);
    }
}

pub proof fn lemma_count_acting_frame(g: GameView, s: StateView, t: StateView, k: int)
    requires
        s.folded == t.folded,
        s.spent == t.spent,
    ensures
        count_acting(g, s, k) == count_acting(g, t, k),
    decreases k,
{
    if k > 0 {
        lemma_count_acting_frame(g, s, t, k - 1);
    }
}

/// When only seat `p` may change, and it can act afterwards only if it could before, the
/// count of acting players drops by one if `p` stopped acting, else it stays.
pub proof fn lemma_count_acting_one_seat(g: GameView, s: StateView, t: StateView, p: int, k: int)
    requires
        0 <= p,
        forall|q: int| 0 <= q < k && q != p ==> can_act(g, t, q) == can_act(g, s, q),
        can_act(g, t, p) ==> can_act(g, s, p),
    ensures
        count_acting(g, t, k) == count_acting(g, s, k) - if p < k && can_act(g, s, p) && !can_act(
            g,
            t,
            p,
        ) {
            1int
        } else {
            0
        },
    decreases k,
{
    if k > 0 {
        lemma_count_acting_one_seat(g, s, t, p, k - 1);
    }
}

/// Showdown rank of each seat: its private cards together with the board.
pub open spec fn showdown_ranks(g: GameView, s: StateView) -> Seq<u32> {
    Seq::new(
        g.num_players(),
        |p: int| hand_value(s.hole[p] + s.board, g.num_suits, g.num_ranks) as u32,
    )
}

/// Highest rank held by a player among the first `k` who has not folded (0 when none has).
pub open spec fn top_rank(s: StateView, ranks: Seq<u32>, k: int) -> int
    decreases k,
{
    if k <= 0 {
        0
    } else {
        let m = top_rank(s, ranks, k - 1);
        if !s.folded[k - 1] && ranks[k - 1] > m {
            ranks[k - 1] as int
        } else {
            m
        }
    }
}

/// Player `p` has not folded and holds the top rank of the hand.
pub open spec fn is_top(s: StateView, ranks: Seq<u32>, p: int) -> bool {
    !s.folded[p] && ranks[p] == top_rank(s, ranks, s.spent.len() as int)
}

/// Top-rank holders among the first `k` players.
pub open spec fn count_top(s: StateView, ranks: Seq<u32>, k: int) -> int
    decreases k,
{
    if k <= 0 {
        0
    } else {
        count_top(s, ranks, k - 1) + if is_top(s, ranks, k - 1) {
            1int
        } else {
            0
        }
    }
}

/// All chips committed this hand.
pub open spec fn pot(s: StateView) -> int {
    spent_sum(s, s.spent.len() as int)
}

/// Share of the pot of top-rank holder `p`: an even split, the chips left over going one
/// each to the first holders in seat order.
pub open spec fn pot_share(s: StateView, ranks: Seq<u32>, p: int) -> int {
    let k = count_top(s, ranks, s.spent.len() as int);
    pot(s) / k + if count_top(s, ranks, p) < pot(s) % k {
        1int
    } else {
        0
    }
}

/// Net result of the hand for `p`, with `ranks` the showdown ranks of the hands (those of
/// folded players are not looked at).
pub open spec fn payoff(s: StateView, ranks: Seq<u32>, p: int) -> int {
    if s.folded[p] {
        -s.spent[p]
    } else if count_folded(s, s.spent.len() as int) + 1 == s.spent.len() {
        pot(s) - s.spent[p]
    } else if is_top(s, ranks, p) {
        pot_share(s, ranks, p) - s.spent[p]
    } else {
        -s.spent[p]
    }
}

/// Sum of the payoffs of the first `k` players.
pub open spec fn payoff_sum(s: StateView, ranks: Seq<u32>, k: int) -> int
    decreases k,
{
    if k <= 0 {
        0
    } else {
        payoff_sum(s, ranks, k - 1) + payoff(s, ranks, k - 1)
    }
}

pub proof fn lemma_top_rank_attained(s: StateView, ranks: Seq<u32>, k: int)
    requires
        0 <= k <= s.folded.len(),
        count_folded(s, k) < k,
    ensures
        exists|q: int| 0 <= q < k && !s.folded[q] && ranks[q] == top_rank(s, ranks, k),
    decreases k,
{
    lemma_counts_bounded(arbitrary(), s, k - 1);
    if count_folded(s, k - 1) < k - 1 {
        lemma_top_rank_attained(s, ranks, k - 1);
        let q = choose|q: int| 0 <= q < k - 1 && !s.folded[q] && ranks[q] == top_rank(s, ranks, k - 1);
        if !(!s.folded[k - 1] && ranks[k - 1] > top_rank(s, ranks, k - 1)) {
            assert(0 <= q < k && !s.folded[q] && ranks[q] == top_rank(s, ranks, k));
        } else {
            assert(!s.folded[k - 1] && ranks[k - 1] == top_rank(s, ranks, k));
        }
    } else {
        assert(!s.folded[k - 1]);
        lemma_top_rank_ge_base(s, ranks, k - 1);
        assert(!s.folded[k - 1] && ranks[k - 1] == top_rank(s, ranks, k));
    }
}

pub proof fn lemma_top_rank_ge_base(s: StateView, ranks: Seq<u32>, k: int)
    requires
        0 <= k <= s.folded.len(),
        count_folded(s, k) == k,
    ensures
        top_rank(s, ranks, k) == 0,
    decreases k,
{
    if k > 0 {
        lemma_counts_bounded(arbitrary(), s, k - 1);
        lemma_top_rank_ge_base(s, ranks, k - 1);
    }
}

pub proof fn lemma_count_top_bounds(s: StateView, ranks: Seq<u32>, k: int)
    requires
        0 <= k,
    ensures
        0 <= count_top(s, ranks, k) <= k,
    decreases k,
{
    if k > 0 {
        lemma_count_top_bounds(s, ranks, k - 1);
    }
}

pub proof fn lemma_count_top_positive(s: StateView, ranks: Seq<u32>, q: int, k: int)
    requires
        0 <= q < k,
        is_top(s, ranks, q),
    ensures
        count_top(s, ranks, k) >= 1,
    decreases k,
{
    lemma_count_top_bounds(s, ranks, k - 1);
    if q < k - 1 {
        lemma_count_top_positive(s, ranks, q, k - 1);
    }
}

proof fn lemma_payoff_sum_survivor(s: StateView, ranks: Seq<u32>, k: int)
    requires
        0 <= k <= s.spent.len(),
        s.folded.len() == s.spent.len(),
        count_folded(s, s.spent.len() as int) + 1 == s.spent.len(),
    ensures
        payoff_sum(s, ranks, k) == pot(s) * (k - count_folded(s, k)) - spent_sum(s, k),
    decreases k,
{
    if k > 0 {
        lemma_payoff_sum_survivor(s, ranks, k - 1);
        let m = k - 1 - count_folded(s, k - 1);
        let pt = pot(s);
        assert(pt * (m + 1) == pt * m + pt) by (nonlinear_arith);
        assert(payoff_sum(s, ranks, k) == payoff_sum(s, ranks, k - 1) + payoff(s, ranks, k - 1));
        assert(spent_sum(s, k) == spent_sum(s, k - 1) + s.spent[k - 1]);
        if s.folded[k - 1] {
            assert(count_folded(s, k) == count_folded(s, k - 1) + 1);
            assert(k - count_folded(s, k) == m);
        } else {
            assert(count_folded(s, k) == count_folded(s, k - 1));
            assert(payoff(s, ranks, k - 1) == pt - s.spent[k - 1]);
            assert(k - count_folded(s, k) == m + 1);
        }
    } else {
        assert(pot(s) * 0 == 0) by (nonlinear_arith);
    }
}

proof fn lemma_payoff_sum_showdown(s: StateView, ranks: Seq<u32>, k: int)
    requires
        0 <= k <= s.spent.len(),
        s.folded.len() == s.spent.len(),
        count_folded(s, s.spent.len() as int) + 1 != s.spent.len(),
        count_top(s, ranks, s.spent.len() as int) >= 1,
    ensures
        ({
            let big = count_top(s, ranks, s.spent.len() as int);
            payoff_sum(s, ranks, k) == (pot(s) / big) * count_top(s, ranks, k) + min_int(
                count_top(s, ranks, k),
                pot(s) % big,
            ) - spent_sum(s, k)
        }),
    decreases k,
{
    if k > 0 {
        lemma_payoff_sum_showdown(s, ranks, k - 1);
        let big = count_top(s, ranks, s.spent.len() as int);
        let d = pot(s) / big;
        let c = count_top(s, ranks, k - 1);
        assert(d * (c + 1) == d * c + d) by (nonlinear_arith);
        assert(payoff_sum(s, ranks, k) == payoff_sum(s, ranks, k - 1) + payoff(s, ranks, k - 1));
        assert(spent_sum(s, k) == spent_sum(s, k - 1) + s.spent[k - 1]);
        if is_top(s, ranks, k - 1) {
            assert(count_top(s, ranks, k) == c + 1);
        } else {
            assert(count_top(s, ranks, k) == c);
        }
    } else {
        let big = count_top(s, ranks, s.spent.len() as int);
        assert((pot(s) / big) * 0 == 0) by (nonlinear_arith);
    }
}

/// Payoffs are zero-sum: in a finished hand the payoffs of all players add up to 0,
/// whatever ranks the hands have at showdown.
pub proof fn lemma_payoffs_zero_sum(g: GameView, s: StateView, ranks: Seq<u32>)
    requires
        state_wf(g, s),
        s.finished,
        ranks.len() == g.num_players(),
    ensures
        payoff_sum(s, ranks, g.num_players() as int) == 0,
{
    let n = g.num_players() as int;
    if count_folded(s, n) + 1 == n {
        lemma_payoff_sum_survivor(s, ranks, n);
        assert(n - count_folded(s, n) == 1);
        assert(pot(s) * 1 == pot(s)) by (nonlinear_arith);
    } else {
        lemma_top_rank_attained(s, ranks, n);
        let q = choose|q: int| 0 <= q < n && !s.folded[q] && ranks[q] == top_rank(s, ranks, n);
        lemma_count_top_positive(s, ranks, q, n);
        lemma_count_top_bounds(s, ranks, n);
        let big = count_top(s, ranks, n);
        lemma_payoff_sum_showdown(s, ranks, n);
        lemma_spent_sum_bounds(g, s, n);
        lemma_fundamental_div_mod(pot(s), big);
        lemma_mod_pos_bound(pot(s), big);
        assert((pot(s) / big) * big == big * (pot(s) / big)) by (nonlinear_arith);
        assert(min_int(big, pot(s) % big) == pot(s) % big);
        assert(pot(s) == spent_sum(s, n));
    }
}

/// A raise is legal only to a total within the bounds that `raise_bounds` gives for the
/// state it is taken in.
pub proof fn lemma_raise_within_bounds(g: GameView, s: StateView, t: i32)
    requires
        state_wf(g, s),
        valid_action(g, s, Action::Raise(t)),
    ensures
        raise_bounds(g, s) matches Some((lo, hi)) && lo <= t <= hi,
{
}

proof fn lemma_next_from_finds(g: GameView, s: StateView, cur: int, j0: int, j: int)
    requires
        0 <= cur < g.num_players(),
        0 <= j0 <= j < g.num_players(),
        can_act(g, s, seat_after(g, cur, j)),
    ensures
        can_act(g, s, next_from(g, s, cur, j0)),
    decreases j - j0,
{
    if j0 < j && !can_act(g, s, seat_after(g, cur, j0)) {
        lemma_next_from_finds(g, s, cur, j0 + 1, j);
    }
}

proof fn lemma_some_acting(g: GameView, s: StateView, k: int)
    requires
        0 <= k,
        count_acting(g, s, k) > 0,
    ensures
        exists|q: int| 0 <= q < k && can_act(g, s, q),
    decreases k,
{
    if k > 0 && !can_act(g, s, k - 1) {
        lemma_some_acting(g, s, k - 1);
    }
}

proof fn lemma_current_player_in_range(g: GameView, s: StateView)
    requires
        state_wf(g, s),
    ensures
        0 <= current_player(g, s) < g.num_players(),
{
    if s.log.len() > 0 {
        assert(s.log.last() == s.log[s.log.len() - 1]);
        lemma_next_from_in_range(g, s, s.log.last().player as int, 0);
    } else {
        lemma_next_from_in_range(g, s, round_anchor(g, s), 0);
    }
}

/// Whenever some player can still act, the player to act is one of them: in particular
/// it has not folded.
pub proof fn lemma_current_player_can_act(g: GameView, s: StateView)
    requires
        seats_wf(g, s),
        count_acting(g, s, g.num_players() as int) > 0,
    ensures
        can_act(g, s, current_player(g, s)),
        !s.folded[current_player(g, s)],
{
    let n = g.num_players() as int;
    lemma_some_acting(g, s, n);
    let q = choose|q: int| 0 <= q < n && can_act(g, s, q);
    let cur = if s.log.len() > 0 {
        assert(s.log.last() == s.log[s.log.len() - 1]);
        s.log.last().player as int
    } else {
        round_anchor(g, s)
    };
    let j = if q > cur {
        q - cur - 1
    } else {
        q + n - cur - 1
    };
    assert(seat_after(g, cur, j) == q);
    lemma_next_from_finds(g, s, cur, 0, j);
}

/// A fold lasts: after any legal action every player who had folded has still folded.
pub proof fn lemma_fold_persists(g: GameView, s: StateView, a: Action)
    requires
        state_wf(g, s),
        valid_action(g, s, a),
    ensures
        forall|q: int|
            0 <= q < g.num_players() && s.folded[q] ==> #[trigger] apply_action(g, s, a).folded[q],
{
    lemma_current_player_in_range(g, s);
}

/// The number of players able to act never grows with an action, and a fold lowers it by
/// exactly one.
pub proof fn lemma_acting_players_monotone(g: GameView, s: StateView, a: Action)
    requires
        state_wf(g, s),
        valid_action(g, s, a),
    ensures
        count_acting(g, apply_action(g, s, a), g.num_players() as int) <= count_acting(
            g,
            s,
            g.num_players() as int,
        ),
        a == Action::Fold ==> count_acting(g, apply_action(g, s, a), g.num_players() as int)
            == count_acting(g, s, g.num_players() as int) - 1,
{
    let n = g.num_players() as int;
    let p = current_player(g, s);
    lemma_current_player_in_range(g, s);
    let rec = record(g, s, a);
    let done = apply_action(g, s, a);
    assert forall|q: int| 0 <= q < n && q != p implies can_act(g, rec, q) == can_act(g, s, q) by {
    }
    lemma_count_acting_one_seat(g, s, rec, p, n);
    lemma_count_acting_frame(g, rec, done, n);
}

/// The parts of the invariant that locate the player to act.
pub open spec fn seats_wf(g: GameView, s: StateView) -> bool {
    &&& g.wf()
    &&& s.spent.len() == g.num_players()
    &&& s.folded.len() == g.num_players()
    &&& 0 <= s.round < g.num_rounds()
    &&& forall|i: int| 0 <= i < s.log.len() ==> (#[trigger] s.log[i].player as int) < g.num_players()
}

proof fn lemma_apply_seats(g: GameView, s: StateView, a: Action)
    requires
        state_wf(g, s),
        valid_action(g, s, a),
    ensures
        seats_wf(g, apply_action(g, s, a)),
        !apply_action(g, s, a).finished ==> count_acting(
            g,
            apply_action(g, s, a),
            g.num_players() as int,
        ) > 0,
{
    let n = g.num_players() as int;
    lemma_current_player_in_range(g, s);
    let rec = record(g, s, a);
    assert forall|i: int| 0 <= i < rec.log.len() implies (#[trigger] rec.log[i].player as int) < n by {
        if i < s.log.len() {
            assert(rec.log[i] == s.log[i]);
        }
    }
    lemma_called_back_bounded(g, rec, rec.log.len() as int);
    lemma_count_acting_frame(g, rec, apply_action(g, s, a), n);
}

/// After any legal action that does not end the hand, the next player to act is one who
/// can act, so never one who has folded.
pub proof fn lemma_next_actor_not_folded(g: GameView, s: StateView, a: Action)
    requires
        state_wf(g, s),
        valid_action(g, s, a),
        !apply_action(g, s, a).finished,
    ensures
        can_act(g, apply_action(g, s, a), current_player(g, apply_action(g, s, a))),
        !apply_action(g, s, a).folded[current_player(g, apply_action(g, s, a))],
{
    lemma_apply_seats(g, s, a);
    lemma_current_player_can_act(g, apply_action(g, s, a));
}

/// The betting state of one hand under a game definition.
#[derive(Debug, Clone)]
pub struct State {
    game: Game,
    hand_id: u32,
    max_spent: i32,
    min_raise_to: i64,
    spent: Vec<i32>,
    folded: Vec<bool>,
    log: Vec<Step>,
    past: Vec<Vec<Step>>,
    round: u8,
    finished: bool,
    board: Vec<Card>,
    hole: Vec<Vec<Card>>,
}

impl View for State {
    type V = StateView;

    closed spec fn view(&self) -> StateView {
        StateView {
            hand_id: self.hand_id,
            max_spent: self.max_spent as int,
            min_raise_to: self.min_raise_to as int,
            spent: self.spent@,
            folded: self.folded@,
            log: self.log@,
            past: self.past@.map_values(|v: Vec<Step>| v@),
            round: self.round as int,
            finished: self.finished,
            board: self.board@,
            hole: self.hole@.map_values(|v: Vec<Card>| v@),
        }
    }
}

impl State {
    /// The game definition the hand is played under.
    pub closed spec fn rules(&self) -> GameView {
        self.game@
    }

    /// The state satisfies its invariant under its own game.
    pub closed spec fn wf(&self) -> bool {
        state_wf(self.rules(), self@)
    }

    /// What `wf` and `rules` stand for, so that proofs anywhere can use the laws stated
    /// over `state_wf`.
    pub proof fn lemma_wf_unfold(&self)
        ensures
            self.wf() == state_wf(self.rules(), self@),
    {
    }

    /// The game definition the hand is played under.
    pub fn game(&self) -> (r: &Game)
        ensures
            r@ == self.rules(),
    {
        &self.game
    }

    /// Starts a hand: posts the blinds, sets the minimum raise, round 0, not finished.
    pub fn new(game: Game) -> (r: State)
        requires
            game@.wf(),
        ensures
            r.wf(),
            r.rules() == game@,
            r@ == initial_state(game@),
    {
        let ghost g = game@;
        let n = game.number_of_players() as usize;
        let mut spent: Vec<i32> = Vec::new();
        let mut folded: Vec<bool> = Vec::new();
        let mut hole: Vec<Vec<Card>> = Vec::new();
        let mut max_spent: i32 = 0;
        let mut p: usize = 0;
        while p < n
            invariant
                g == game@,
                g.wf(),
                n == g.num_players(),
                p <= n,
                spent@ == g.blind.subrange(0, p as int),
                folded@ == Seq::new(p as nat, |i: int| false),
                hole@.len() == p,
                forall|i: int| 0 <= i < p ==> (#[trigger] hole@[i])@ == Seq::<Card>::empty(),
                max_spent == g.max_blind(p as int),
            decreases n - p,
        {
            proof {
                lemma_max_blind_bounds(g, p as int + 1);
            }
            let b = game.blind_of(p);
            spent.push(b);
            folded.push(false);
            hole.push(Vec::new());
            if b > max_spent {
                max_spent = b;
            }
            p += 1;
            proof {
                assert(spent@ =~= g.blind.subrange(0, p as int));
                assert(folded@ =~= Seq::new(p as nat, |i: int| false));
            }
        }
        proof {
            lemma_max_blind_bounds(g, n as int);
            assert(spent@ =~= g.blind);
            assert(hole@.map_values(|v: Vec<Card>| v@) =~= Seq::new(n as nat, |i: int| Seq::<Card>::empty()));
        }
        let min_raise_to: i64 = if game.betting_type() == BettingType::NoLimit {
            if max_spent > 0 {
                2 * max_spent as i64
            } else {
                1
            }
        } else {
            0
        };
        let hand_id = game.hand_id();
        let mut r = State {
            game,
            hand_id,
            max_spent,
            min_raise_to,
            spent,
            folded,
            log: Vec::new(),
            past: Vec::new(),
            round: 0,
            finished: false,
            board: Vec::new(),
            hole,
        };
        proof {
            let v = r@;
            assert(v.past =~= Seq::<Seq<Step>>::empty());
            assert(count_folded(v, 0) == 0);
            lemma_count_folded_none(v, n as int);
            assert(v.spent == g.blind);
            assert forall|q: int| 0 <= q < n implies 0 <= #[trigger] v.spent[q] <= g.stack[q]
                && v.spent[q] <= v.max_spent by {
                assert(v.spent[q] == g.blind[q]);
                assert(0 <= g.blind[q] <= g.stack[q]);
                assert(g.blind[q] <= g.max_blind(n as int));
            }
            assert(forall|q: int| 0 <= q < n ==> (#[trigger] v.hole[q]).len() <= g.num_hole_cards);
            assert(0 <= v.min_raise_to <= 2 * (i32::MAX as int));
            lemma_max_blind_attained(g, n as int);
            let m = choose|p: int| 0 <= p < n && g.blind[p] == g.max_blind(n as int);
            assert(v.spent[m] == v.max_spent);
            let q = choose|q: int| 0 <= q < n && g.blind[q] < g.stack[q];
            lemma_acting_positive(g, v, q, n as int);
            lemma_counts_bounded(g, v, n as int);
            assert(state_wf(g, v));
        }
        r
    }


    /// Chips `player` has committed this hand.
    pub fn spent_of(&self, player: u8) -> (r: Result<i32, GameError>)
        requires
            self.wf(),
        ensures
            (player as int) < self.rules().num_players() ==> r == Ok::<i32, GameError>(
                self@.spent[player as int],
            ),
            (player as int) >= self.rules().num_players() ==> r == Err::<i32, GameError>(
                GameError::InvalidPlayerIndex,
            ),
    {
        let p = self.game.player_idx(player)?;
        Ok(self.spent[p])
    }

    pub fn player_folded(&self, player: u8) -> (r: Result<bool, GameError>)
        requires
            self.wf(),
        ensures
            (player as int) < self.rules().num_players() ==> r == Ok::<bool, GameError>(
                self@.folded[player as int],
            ),
            (player as int) >= self.rules().num_players() ==> r == Err::<bool, GameError>(
                GameError::InvalidPlayerIndex,
            ),
    {
        let p = self.game.player_idx(player)?;
        Ok(self.folded[p])
    }

    /// Every player's commitment, by seat.
    pub fn spents(&self) -> (r: &[i32])
        ensures
            r@ == self@.spent,
    {
        self.spent.as_slice()
    }

    /// The highest commitment so far: the largest of all players' commitments, a folded
    /// player's included (the big blind may fold while holding it).
    pub fn max_spend(&self) -> (r: i32)
        requires
            self.wf(),
        ensures
            r == self@.max_spent,
            forall|p: int| 0 <= p < self.rules().num_players() ==> self@.spent[p] <= r,
            exists|p: int| 0 <= p < self.rules().num_players() && self@.spent[p] == r,
    {
        self.max_spent
    }

    /// Sum of all players' commitments: the pot.
    pub fn total_spent(&self) -> (r: i64)
        requires
            self.wf(),
        ensures
            r == spent_sum(self@, self.rules().num_players() as int),
    {
        let n = self.spent.len();
        let mut k: usize = 0;
        let mut sum: i64 = 0;
        while k < n
            invariant
                self.wf(),
                n == self.rules().num_players(),
                k <= n,
                sum == spent_sum(self@, k as int),
            decreases n - k,
        {
            proof {
                lemma_spent_sum_bounds(self.rules(), self@, k as int + 1);
            }
            sum = sum + self.spent[k] as i64;
            k += 1;
        }
        sum
    }

    pub fn num_folded(&self) -> (r: u8)
        requires
            self.wf(),
        ensures
            r == count_folded(self@, self.rules().num_players() as int),
    {
        let n = self.folded.len();
        let mut k: usize = 0;
        let mut c: u8 = 0;
        while k < n
            invariant
                self.wf(),
                n == self.rules().num_players(),
                k <= n,
                c == count_folded(self@, k as int),
            decreases n - k,
        {
            proof {
                lemma_counts_bounded(self.rules(), self@, k as int + 1);
            }
            if self.folded[k] {
                c = c + 1;
            }
            k += 1;
        }
        c
    }

    /// Players that have not folded and have committed their whole stack.
    pub fn num_all_in(&self) -> (r: u8)
        requires
            self.wf(),
        ensures
            r == count_all_in(self.rules(), self@, self.rules().num_players() as int),
    {
        let n = self.spent.len();
        let mut k: usize = 0;
        let mut c: u8 = 0;
        while k < n
            invariant
                self.wf(),
                n == self.rules().num_players(),
                k <= n,
                c == count_all_in(self.rules(), self@, k as int),
            decreases n - k,
        {
            proof {
                lemma_counts_bounded(self.rules(), self@, k as int + 1);
            }
            if !self.folded[k] && self.spent[k] >= self.game.stack_of(k) {
                c = c + 1;
            }
            k += 1;
        }
        c
    }

    /// Whether seat `p` can still act.
    fn can_act_at(&self, p: usize) -> (r: bool)
        requires
            self.wf(),
            p < self.rules().num_players(),
        ensures
            r == can_act(self.rules(), self@, p as int),
    {
        !self.folded[p] && self.spent[p] < self.game.stack_of(p)
    }

    /// Players that have not folded and are not all-in.
    pub fn num_acting_player(&self) -> (r: u8)
        requires
            self.wf(),
        ensures
            r == count_acting(self.rules(), self@, self.rules().num_players() as int),
    {
        let n = self.spent.len();
        let mut k: usize = 0;
        let mut c: u8 = 0;
        while k < n
            invariant
                self.wf(),
                n == self.rules().num_players(),
                k <= n,
                c == count_acting(self.rules(), self@, k as int),
            decreases n - k,
        {
            proof {
                lemma_counts_bounded(self.rules(), self@, k as int + 1);
            }
            if self.can_act_at(k) {
                c = c + 1;
            }
            k += 1;
        }
        c
    }

    /// Raises made so far in the current round.
    fn num_raises(&self) -> (r: usize)
        requires
            self.wf(),
        ensures
            r == count_raises(self@.log, self@.log.len() as int),
    {
        let len = self.log.len();
        let mut k: usize = 0;
        let mut c: usize = 0;
        while k < len
            invariant
                len == self@.log.len(),
                k <= len,
                c == count_raises(self@.log, k as int),
            decreases len - k,
        {
            proof {
                lemma_raises_bounded(self@.log, k as int + 1);
            }
            if let Action::Raise(_) = self.log[k].action {
                c = c + 1;
            }
            k += 1;
        }
        c
    }

    /// Players that have matched the current bet in this round and can still act, the
    /// player who made it included: the round closes once this reaches the acting players.
    fn num_closing(&self) -> (r: u8)
        requires
            self.wf(),
        ensures
            r == called_back(self.rules(), self@, self@.log.len() as int),
    {
        let len = self.log.len();
        let mut i: usize = len;
        let mut c: u8 = 0;
        let ghost total = called_back(self.rules(), self@, len as int);
        proof {
            lemma_called_back_bounded(self.rules(), self@, len as int);
        }
        while i > 0
            invariant
                self.wf(),
                len == self@.log.len(),
                i <= len,
                total == called_back(self.rules(), self@, len as int),
                0 <= total <= len,
                0 <= c,
                c + called_back(self.rules(), self@, i as int) == total,
            decreases i,
        {
            proof {
                lemma_called_back_bounded(self.rules(), self@, i as int - 1);
            }
            let step = self.log[i - 1];
            let p = step.player as usize;
            let acting = self.spent[p] < self.game.stack_of(p);
            match step.action {
                Action::Raise(_) => {
                    if acting {
                        c = c + 1;
                    }
                    return c;
                },
                Action::Call => {
                    if acting {
                        c = c + 1;
                    }
                },
                _ => {},
            }
            i -= 1;
        }
        c
    }

    /// Players that matched the current bet in this round without raising; a new raise
    /// starts the count again from 0.
    pub fn num_called(&self) -> (r: u8)
        requires
            self.wf(),
        ensures
            r == calls_since_raise(self@.log, self@.log.len() as int),
    {
        let len = self.log.len();
        let mut i: usize = len;
        let mut c: u8 = 0;
        let ghost total = calls_since_raise(self@.log, len as int);
        proof {
            lemma_calls_since_raise_bounded(self@.log, len as int);
        }
        while i > 0
            invariant
                self.wf(),
                len == self@.log.len(),
                i <= len,
                total == calls_since_raise(self@.log, len as int),
                0 <= total <= len,
                0 <= c,
                c + calls_since_raise(self@.log, i as int) == total,
            decreases i,
        {
            proof {
                lemma_calls_since_raise_bounded(self@.log, i as int - 1);
            }
            match self.log[i - 1].action {
                Action::Raise(_) => {
                    return c;
                },
                Action::Call => {
                    c = c + 1;
                },
                _ => {},
            }
            i -= 1;
        }
        c
    }

    /// Actions taken so far in the current round.
    pub fn num_actions(&self) -> (r: u8)
        requires
            self.wf(),
        ensures
            r == self@.log.len(),
    {
        self.log.len() as u8
    }

    pub fn is_finished(&self) -> (r: bool)
        ensures
            r == self@.finished,
    {
        self.finished
    }

    pub fn get_round(&self) -> (r: u8)
        ensures
            r == self@.round,
    {
        self.round
    }
}


impl State {
    /// First seat after `cur` that can act (`cur` when none can).
    fn next_seat(&self, cur: usize) -> (r: u8)
        requires
            self.wf(),
            cur < self.rules().num_players(),
        ensures
            r == next_from(self.rules(), self@, cur as int, 0),
    {
        let n = self.spent.len();
        let mut j: usize = 0;
        while j < n
            invariant
                self.wf(),
                n == self.rules().num_players(),
                cur < n,
                j <= n,
                next_from(self.rules(), self@, cur as int, 0) == next_from(
                    self.rules(),
                    self@,
                    cur as int,
                    j as int,
                ),
            decreases n - j,
        {
            let c = if cur + 1 + j < n {
                cur + 1 + j
            } else {
                cur + 1 + j - n
            };
            if self.can_act_at(c) {
                return c as u8;
            }
            j += 1;
        }
        cur as u8
    }

    /// The player to act: after the round's last actor, or from the round's first seat.
    pub fn current_player(&self) -> (r: u8)
        requires
            self.wf(),
        ensures
            r == current_player(self.rules(), self@),
            (r as int) < self.rules().num_players(),
            !self@.finished ==> can_act(self.rules(), self@, r as int),
    {
        proof {
            if !self@.finished {
                lemma_current_player_can_act(self.rules(), self@);
            }
        }
        let n = self.spent.len();
        let len = self.log.len();
        let cur: usize = if len > 0 {
            self.log[len - 1].player as usize
        } else {
            let first = self.game.first_player_of(self.round as usize) as usize;
            if first == 0 {
                n - 1
            } else {
                first - 1
            }
        };
        proof {
            lemma_next_from_in_range(self.rules(), self@, cur as int, 0);
        }
        self.next_seat(cur)
    }

    /// Chips committed by the player to act.
    pub fn current_spent(&self) -> (r: i32)
        requires
            self.wf(),
        ensures
            r == self@.spent[current_player(self.rules(), self@)],
    {
        let p = self.current_player();
        self.spent[p as usize]
    }

    /// The smallest and largest totals the player to act may raise to.
    pub fn raise_size(&self) -> (r: Result<(i32, i32), GameError>)
        requires
            self.wf(),
        ensures
            raise_bounds(self.rules(), self@) is None ==> r == Err::<(i32, i32), GameError>(
                GameError::NotRaisable,
            ),
            raise_bounds(self.rules(), self@) matches Some((lo, hi)) ==> r matches Ok((a, b))
                && a == lo && b == hi,
    {
        if self.finished {
            return Err(GameError::NotRaisable);
        }
        let round = self.round as usize;
        let n = self.spent.len();
        if self.game.betting_type() == BettingType::Limit && self.num_raises()
            >= self.game.max_raises_of(round) as usize {
            return Err(GameError::NotRaisable);
        }
        if self.log.len() + n > MAX_ACTIONS_PER_ROUND {
            return Err(GameError::NotRaisable);
        }
        let p = self.current_player() as usize;
        let stack = self.game.stack_of(p);
        if stack <= self.max_spent {
            return Err(GameError::NotRaisable);
        }
        if self.game.betting_type() == BettingType::Limit {
            let to = self.max_spent as i64 + self.game.raise_size_of(round) as i64;
            let t = if to < stack as i64 {
                to as i32
            } else {
                stack
            };
            Ok((t, t))
        } else {
            let lo = if self.min_raise_to < stack as i64 {
                self.min_raise_to as i32
            } else {
                stack
            };
            Ok((lo, stack))
        }
    }

    /// Whether the player to act may take `action` now.
    pub fn is_valid_action(&self, action: Action) -> (r: bool)
        requires
            self.wf(),
        ensures
            r == valid_action(self.rules(), self@, action),
            (action is Fold || action is Call) ==> r == !self@.finished,
    {
        proof {
            if !self@.finished {
                lemma_current_player_can_act(self.rules(), self@);
            }
        }
        if self.finished || self.log.len() >= MAX_ACTIONS_PER_ROUND {
            return false;
        }
        let p = self.current_player() as usize;
        if !self.can_act_at(p) {
            return false;
        }
        match action {
            Action::Fold => true,
            Action::Call => true,
            Action::Raise(t) => match self.raise_size() {
                Ok((lo, hi)) => lo <= t && t <= hi,
                Err(_) => false,
            },
            Action::Invalid => false,
        }
    }
}


/// A recorded action whose round and hand have not been settled yet.
pub open spec fn recorded_wf(g: GameView, s: StateView) -> bool {
    &&& state_wf(g, StateView { finished: true, ..s })
    &&& !s.finished
}

impl State {
    /// Closes the round or the hand when the action just recorded completes it.
    fn settle(&mut self)
        requires
            recorded_wf(old(self).rules(), old(self)@),
            old(self)@.log.len() + count_acting(
                old(self).rules(),
                old(self)@,
                old(self).rules().num_players() as int,
            ) - called_back(old(self).rules(), old(self)@, old(self)@.log.len() as int)
                <= MAX_ACTIONS_PER_ROUND,
        ensures
            final(self).wf(),
            final(self).rules() == old(self).rules(),
            final(self)@ == settle(old(self).rules(), old(self)@),
    {
        let ghost g = self.rules();
        let ghost s0 = self@;
        let n = self.spent.len();
        let nr = self.game.num_rounds() as usize;
        proof {
            lemma_count_folded_frame(s0, StateView { finished: true, ..s0 }, n as int);
            lemma_count_acting_frame(g, s0, StateView { finished: true, ..s0 }, n as int);
            lemma_called_back_bounded(g, s0, s0.log.len() as int);
            lemma_called_back_frame(g, s0, StateView { finished: true, ..s0 }, s0.log.len() as int);
        }
        self.finished = true;
        if self.num_folded() as usize + 1 >= n {
            return;
        }
        let acting = self.num_acting_player();
        if self.num_closing() >= acting {
            if acting > 1 {
                if (self.round as usize) + 1 < nr {
                    let mb = self.game.max_blind();
                    proof {
                        lemma_max_blind_bounds(g, n as int);
                    }
                    let base: i64 = if mb > 1 {
                        mb as i64
                    } else {
                        1
                    };
                    self.round = self.round + 1;
                    let mut closed: Vec<Step> = Vec::new();
                    std::mem::swap(&mut self.log, &mut closed);
                    self.past.push(closed);
                    self.min_raise_to = base + self.max_spent as i64;
                    self.finished = false;
                    proof {
                        assert(self@.past =~= s0.past.push(s0.log));
                        assert(self@.log =~= Seq::<Step>::empty());
                    }
                }
            } else if (self.round as usize) + 1 < nr {
                self.round = (nr - 1) as u8;
                let mut closed: Vec<Step> = Vec::new();
                std::mem::swap(&mut self.log, &mut closed);
                self.past.push(closed);
                proof {
                    assert(self@.past =~= s0.past.push(s0.log));
                    assert(self@.log =~= Seq::<Step>::empty());
                }
            }
        } else {
            self.finished = false;
        }
        proof {
            lemma_count_folded_frame(s0, self@, n as int);
            lemma_count_acting_frame(g, s0, self@, n as int);
            let f = self@;
            lemma_counts_bounded(g, f, n as int);
            lemma_called_back_bounded(g, f, f.log.len() as int);
            if f.log.len() > 0 {
                let s0f = StateView { finished: true, ..s0 };
                assert forall|q: int| 0 <= q < s0f.spent.len() implies f.spent[q]
                    >= #[trigger] s0f.spent[q] by {
                }
                lemma_matched_back_mono(g, s0f, f, f.log.len() as int);
                lemma_called_back_frame(g, s0, f, f.log.len() as int);
                if !f.finished {
                    assert(f.log == s0.log);
                    assert(called_back(g, s0, s0.log.len() as int) < count_acting(g, s0, n as int));
                    assert(log_budget(g, f));
                }
            }
            assert(matched_back(g, f, f.log.len() as int));
            assert(!f.finished ==> log_budget(g, f));
            assert(!f.finished ==> f.log.len() < MAX_ACTIONS_PER_ROUND);
        }
    }

    /// Applies `action` for the player to act, or reports `InvalidAction` and changes nothing.
    pub fn do_action(&mut self, action: Action) -> (r: Result<(), GameError>)
        requires
            old(self).wf(),
        ensures
            final(self).wf(),
            final(self).rules() == old(self).rules(),
            valid_action(old(self).rules(), old(self)@, action) ==> r == Ok::<(), GameError>(())
                && final(self)@ == apply_action(old(self).rules(), old(self)@, action),
            !valid_action(old(self).rules(), old(self)@, action) ==> r == Err::<(), GameError>(
                GameError::InvalidAction,
            ) && final(self)@ == old(self)@,
    {
        if !self.is_valid_action(action) {
            return Err(GameError::InvalidAction);
        }
        let ghost g = self.rules();
        let ghost s0 = self@;
        let n = self.spent.len();
        let p = self.current_player() as usize;
        self.log.push(Step { player: p as u8, action });
        match action {
            Action::Fold => {
                self.folded[p] = true;
                proof {
                    lemma_count_folded_fold(s0, self@, p as int, n as int);
                }
            },
            Action::Call => {
                let stack = self.game.stack_of(p);
                let to = if self.max_spent < stack {
                    self.max_spent
                } else {
                    stack
                };
                self.spent[p] = to;
                proof {
                    lemma_count_folded_frame(s0, self@, n as int);
                }
            },
            Action::Raise(t) => {
                if self.game.betting_type() == BettingType::NoLimit {
                    self.min_raise_to = 2 * (t as i64) - self.max_spent as i64;
                }
                self.max_spent = t;
                self.spent[p] = t;
                proof {
                    lemma_count_folded_frame(s0, self@, n as int);
                }
            },
            Action::Invalid => {},
        }
        proof {
            let s1 = self@;
            assert(s1 == record(g, s0, action));
            assert forall|q: int| 0 <= q < n implies 0 <= #[trigger] s1.spent[q] <= g.stack[q]
                && s1.spent[q] <= s1.max_spent by {
                assert(0 <= s0.spent[q] <= g.stack[q] && s0.spent[q] <= s0.max_spent);
            }
            assert forall|i: int| 0 <= i < s1.log.len() implies (#[trigger] s1.log[i].player as int)
                < n by {
                if i < s0.log.len() {
                    assert(s1.log[i] == s0.log[i]);
                }
            }
            let w = choose|q: int| 0 <= q < n && #[trigger] s0.spent[q] == s0.max_spent;
            let wi = if action is Raise {
                p as int
            } else {
                w
            };
            let s1f = StateView { finished: true, ..s1 };
            assert(s1f.spent[wi] == s1f.max_spent);
            lemma_record_budget(g, s0, action);
            assert forall|q: int| 0 <= q < s1.spent.len() implies s1f.spent[q]
                >= #[trigger] s1.spent[q] by {
            }
            lemma_matched_back_mono(g, s1, s1f, s1.log.len() as int);
            assert(0 <= s1.max_spent <= i32::MAX);
            assert(0 <= s1.min_raise_to <= 2 * (i32::MAX as int));
            assert(g.betting_type == BettingType::NoLimit ==> s1.max_spent < s1.min_raise_to);
            assert(count_folded(s1, n as int) < n);
            assert(forall|q: int| 0 <= q < n ==> (#[trigger] s1.hole[q]).len() <= g.num_hole_cards);
            lemma_count_folded_frame(s1, s1f, n as int);
            assert(state_wf(g, s1f));
            assert(recorded_wf(g, s1));
        }
        self.settle();
        Ok(())
    }
}


impl State {
    /// Highest showdown rank among players that have not folded.
    fn top_rank_of(&self, ranks: &[u32]) -> (r: u32)
        requires
            self.wf(),
            ranks@.len() == self.rules().num_players(),
        ensures
            r == top_rank(self@, ranks@, self.rules().num_players() as int),
    {
        let n = self.spent.len();
        let mut k: usize = 0;
        let mut best: u32 = 0;
        while k < n
            invariant
                self.wf(),
                n == self.rules().num_players(),
                ranks@.len() == n,
                k <= n,
                best == top_rank(self@, ranks@, k as int),
            decreases n - k,
        {
            if !self.folded[k] && ranks[k] > best {
                best = ranks[k];
            }
            k += 1;
        }
        best
    }

    /// Top-rank holders among the first `k` seats.
    fn count_top_upto(&self, ranks: &[u32], best: u32, k: usize) -> (r: i64)
        requires
            self.wf(),
            ranks@.len() == self.rules().num_players(),
            best == top_rank(self@, ranks@, self.rules().num_players() as int),
            k <= self.rules().num_players(),
        ensures
            r == count_top(self@, ranks@, k as int),
    {
        let mut j: usize = 0;
        let mut c: i64 = 0;
        while j < k
            invariant
                self.wf(),
                ranks@.len() == self.rules().num_players(),
                best == top_rank(self@, ranks@, self.rules().num_players() as int),
                k <= self.rules().num_players(),
                j <= k,
                c == count_top(self@, ranks@, j as int),
            decreases k - j,
        {
            proof {
                lemma_count_top_bounds(self@, ranks@, j as int + 1);
            }
            if !self.folded[j] && ranks[j] == best {
                c = c + 1;
            }
            j += 1;
        }
        c
    }

    /// Net result of the finished hand for `player`, given each seat's showdown rank
    /// (higher wins; the ranks of folded seats are not looked at).
    pub fn value_with_ranks(&self, player: u8, ranks: &[u32]) -> (r: Result<i64, GameError>)
        requires
            self.wf(),
            ranks@.len() == self.rules().num_players(),
        ensures
            !self@.finished ==> r == Err::<i64, GameError>(GameError::NotFinished),
            self@.finished && player >= self.rules().num_players() ==> r == Err::<i64, GameError>(
                GameError::InvalidPlayerIndex,
            ),
            self@.finished && player < self.rules().num_players() ==> (r matches Ok(v) && v
                == payoff(self@, ranks@, player as int)),
    {
        if !self.finished {
            return Err(GameError::NotFinished);
        }
        let p = self.game.player_idx(player)?;
        let n = self.spent.len();
        let own = self.spent[p] as i64;
        if self.folded[p] {
            return Ok(-own);
        }
        let pot = self.total_spent();
        proof {
            lemma_spent_sum_bounds(self.rules(), self@, n as int);
        }
        if self.num_folded() as usize + 1 == n {
            return Ok(pot - own);
        }
        let best = self.top_rank_of(ranks);
        if ranks[p] != best {
            return Ok(-own);
        }
        let holders = self.count_top_upto(ranks, best, n);
        let before = self.count_top_upto(ranks, best, p);
        proof {
            lemma_count_top_positive(self@, ranks@, p as int, n as int);
            lemma_count_top_bounds(self@, ranks@, n as int);
            lemma_mod_pos_bound(pot as int, holders as int);
            vstd::arithmetic::div_mod::lemma_div_pos_is_pos(pot as int, holders as int);
            vstd::arithmetic::div_mod::lemma_div_is_ordered_by_denominator(pot as int, 1, holders as int);
        }
        let share = pot / holders + if before < pot % holders {
            1
        } else {
            0
        };
        Ok(share - own)
    }

    /// Commitment of `player` subtracted from their stack: the chips they have left.
    pub fn money(&self, player: u8) -> (r: Result<i32, GameError>)
        requires
            self.wf(),
        ensures
            (player as int) < self.rules().num_players() ==> r == Ok::<i32, GameError>(
                (self.rules().stack[player as int] - self@.spent[player as int]) as i32,
            ),
            (player as int) >= self.rules().num_players() ==> r == Err::<i32, GameError>(
                GameError::InvalidPlayerIndex,
            ),
    {
        let stack = self.game.stack_size(player)?;
        let spent = self.spent_of(player)?;
        Ok(stack - spent)
    }

    /// Chips `player` has put in this hand.
    pub fn ante(&self, player: u8) -> (r: Result<i32, GameError>)
        requires
            self.wf(),
        ensures
            (player as int) < self.rules().num_players() ==> r == Ok::<i32, GameError>(
                self@.spent[player as int],
            ),
            (player as int) >= self.rules().num_players() ==> r == Err::<i32, GameError>(
                GameError::InvalidPlayerIndex,
            ),
    {
        self.spent_of(player)
    }

    /// Records the private cards of `player`.
    pub fn set_hole_cards(&mut self, player: u8, cards: &[Card]) -> (r: Result<(), GameError>)
        requires
            old(self).wf(),
            cards@.len() == old(self).rules().num_hole_cards,
        ensures
            final(self).wf(),
            final(self).rules() == old(self).rules(),
            (player as int) < old(self).rules().num_players() ==> r == Ok::<(), GameError>(())
                && final(self)@ == (StateView {
                hole: old(self)@.hole.update(player as int, cards@),
                ..old(self)@
            }),
            (player as int) >= old(self).rules().num_players() ==> r == Err::<(), GameError>(
                GameError::InvalidPlayerIndex,
            ) && final(self)@ == old(self)@,
    {
        let p = self.game.player_idx(player)?;
        let ghost s0 = self@;
        self.hole[p] = vstd::slice::slice_to_vec(cards);
        proof {
            assert(self@.hole =~= s0.hole.update(p as int, cards@));
            lemma_count_folded_frame(s0, self@, self.rules().num_players() as int);
            lemma_count_acting_frame(self.rules(), s0, self@, self.rules().num_players() as int);
            lemma_called_back_frame(self.rules(), s0, self@, s0.log.len() as int);
            assert forall|q: int| 0 <= q < s0.spent.len() implies self@.spent[q]
                >= #[trigger] s0.spent[q] by {
            }
            lemma_matched_back_mono(self.rules(), s0, self@, s0.log.len() as int);
        }
        Ok(())
    }

    /// The private cards recorded for `player`.
    pub fn hole_cards(&self, player: u8) -> (r: Result<&[Card], GameError>)
        requires
            self.wf(),
        ensures
            (player as int) < self.rules().num_players() ==> (r matches Ok(c) && c@
                == self@.hole[player as int]),
            (player as int) >= self.rules().num_players() ==> (r matches Err(e) && e
                == GameError::InvalidPlayerIndex),
    {
        let p = self.game.player_idx(player)?;
        Ok(self.hole[p].as_slice())
    }

    /// Records the board cards revealed so far.
    pub fn set_board_cards(&mut self, cards: &[Card])
        requires
            old(self).wf(),
            cards@.len() <= MAX_BOARD_CARDS,
        ensures
            final(self).wf(),
            final(self).rules() == old(self).rules(),
            final(self)@ == (StateView { board: cards@, ..old(self)@ }),
    {
        let ghost s0 = self@;
        self.board = vstd::slice::slice_to_vec(cards);
        proof {
            lemma_count_folded_frame(s0, self@, self.rules().num_players() as int);
            lemma_count_acting_frame(self.rules(), s0, self@, self.rules().num_players() as int);
            lemma_called_back_frame(self.rules(), s0, self@, s0.log.len() as int);
            assert forall|q: int| 0 <= q < s0.spent.len() implies self@.spent[q]
                >= #[trigger] s0.spent[q] by {
            }
            lemma_matched_back_mono(self.rules(), s0, self@, s0.log.len() as int);
        }
    }

    /// The board cards revealed so far.
    pub fn board_cards(&self) -> (r: &[Card])
        ensures
            r@ == self@.board,
    {
        self.board.as_slice()
    }

    /// The dealer supplies the cards through the setters; the betting state deals none itself.
    pub fn deal_cards(&self) {
    }
}


impl State {
    /// Showdown rank of each seat's private cards together with the board.
    fn showdown_ranks(&self) -> (r: Vec<u32>)
        requires
            self.wf(),
        ensures
            r@ == showdown_ranks(self.rules(), self@),
    {
        let n = self.hole.len();
        let suits = self.game.num_suits();
        let ranks_in_deck = self.game.num_ranks();
        let mut out: Vec<u32> = Vec::new();
        let mut p: usize = 0;
        while p < n
            invariant
                self.wf(),
                n == self.rules().num_players(),
                suits == self.rules().num_suits,
                ranks_in_deck == self.rules().num_ranks,
                p <= n,
                out@.len() == p,
                forall|j: int|
                    0 <= j < p ==> #[trigger] out@[j] == showdown_ranks(self.rules(), self@)[j],
            decreases n - p,
        {
            let mut cards: Vec<Card> = vstd::slice::slice_to_vec(self.hole[p].as_slice());
            let mut b: usize = 0;
            while b < self.board.len()
                invariant
                    b <= self.board@.len(),
                    p < n,
                    n == self@.hole.len(),
                    cards@ == self@.hole[p as int] + self@.board.subrange(0, b as int),
                decreases self.board@.len() - b,
            {
                cards.push(self.board[b]);
                b += 1;
                proof {
                    assert(cards@ =~= self@.hole[p as int] + self@.board.subrange(0, b as int));
                }
            }
            proof {
                assert(self@.board.subrange(0, b as int) =~= self@.board);
            }
            out.push(rank_hand(cards.as_slice(), suits, ranks_in_deck));
            p += 1;
        }
        proof {
            assert(out@ =~= showdown_ranks(self.rules(), self@));
        }
        out
    }

    /// Net result of the finished hand for `player`: what they won minus what they put in.
    /// A folded player loses their commitment; a player left alone takes everyone else's;
    /// at a showdown the hands (private cards with the board) are ranked and the top-ranked
    /// ones split the pot.
    pub fn value_of_state(&self, player: u8) -> (r: Result<i64, GameError>)
        requires
            self.wf(),
        ensures
            !self@.finished ==> r == Err::<i64, GameError>(GameError::NotFinished),
            self@.finished && player >= self.rules().num_players() ==> r == Err::<i64, GameError>(
                GameError::InvalidPlayerIndex,
            ),
            self@.finished && player < self.rules().num_players() ==> (r matches Ok(v) && v
                == payoff(self@, showdown_ranks(self.rules(), self@), player as int)),
    {
        if !self.finished {
            return Err(GameError::NotFinished);
        }
        let ranks = self.showdown_ranks();
        let r = self.value_with_ranks(player, ranks.as_slice());
        r
    }
}


/// A caller-owned description of a betting state, for logging.
#[derive(Debug, Clone)]
pub struct Snapshot {
    pub hand_id: u32,
    pub round: u8,
    pub finished: bool,
    pub max_spent: i32,
    pub spent: Vec<i32>,
    pub folded: Vec<bool>,
    /// Action logs of every round played so far, the current one last.
    pub actions: Vec<Vec<Step>>,
    pub board: Vec<Card>,
    pub hole: Vec<Vec<Card>>,
}

/// Copies a list of lists.
fn copy_nested<T: Copy>(v: &Vec<Vec<T>>) -> (r: Vec<Vec<T>>)
    ensures
        r@.len() == v@.len(),
        forall|i: int| 0 <= i < v@.len() ==> (#[trigger] r@[i])@ == v@[i]@,
{
    let mut out: Vec<Vec<T>> = Vec::new();
    let mut i: usize = 0;
    while i < v.len()
        invariant
            i <= v@.len(),
            out@.len() == i,
            forall|j: int| 0 <= j < i ==> (#[trigger] out@[j])@ == v@[j]@,
        decreases v@.len() - i,
    {
        out.push(vstd::slice::slice_to_vec(v[i].as_slice()));
        i += 1;
    }
    out
}

impl State {
    /// Describes the state: commitments, folds, every round's actions and the known cards.
    pub fn snapshot(&self) -> (r: Snapshot)
        ensures
            r.hand_id == self@.hand_id,
            r.round == self@.round,
            r.finished == self@.finished,
            r.max_spent == self@.max_spent,
            r.spent@ == self@.spent,
            r.folded@ == self@.folded,
            r.actions@.map_values(|v: Vec<Step>| v@) == self@.past.push(self@.log),
            r.board@ == self@.board,
            r.hole@.map_values(|v: Vec<Card>| v@) == self@.hole,
    {
        let mut actions = copy_nested(&self.past);
        actions.push(vstd::slice::slice_to_vec(self.log.as_slice()));
        let hole = copy_nested(&self.hole);
        proof {
            assert(actions@.map_values(|v: Vec<Step>| v@) =~= self@.past.push(self@.log));
            assert(hole@.map_values(|v: Vec<Card>| v@) =~= self@.hole);
        }
        Snapshot {
            hand_id: self.hand_id,
            round: self.round,
            finished: self.finished,
            max_spent: self.max_spent,
            spent: vstd::slice::slice_to_vec(self.spent.as_slice()),
            folded: vstd::slice::slice_to_vec(self.folded.as_slice()),
            actions,
            board: vstd::slice::slice_to_vec(self.board.as_slice()),
            hole,
        }
    }
}

} // verus!
