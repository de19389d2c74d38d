use vstd::prelude::*;

verus! {

/// Largest number of seats a game may have.
pub const MAX_PLAYERS: usize = 10;

/// Largest number of betting rounds a game may have.
pub const MAX_ROUNDS: usize = 4;

/// Largest number of board cards revealed over a whole hand.
pub const MAX_BOARD_CARDS: usize = 7;

/// Largest number of private cards a player may hold.
pub const MAX_HOLE_CARDS: usize = 3;

/// Largest number of actions logged in one betting round.
pub const MAX_ACTIONS_PER_ROUND: usize = 64;

/// How raises are sized.
#[derive(Debug, Clone, Copy, PartialEq, Eq, Structural)]
pub enum BettingType {
    /// Every raise adds the fixed amount of its round.
    Limit,
    /// A raise may go to any total between the minimum raise and the stack.
    NoLimit,
}

/// Errors reported by the game definition and the betting state.
#[derive(Debug, Clone, Copy, PartialEq, Eq, Structural)]
pub enum GameError {
    /// A player index at or beyond the number of players.
    InvalidPlayerIndex,
    /// An action that is not legal in the current state.
    InvalidAction,
    /// The acting player cannot raise now.
    NotRaisable,
    /// The hand has not finished yet.
    NotFinished,
}

/// Mathematical model of a game definition.
pub struct GameView {
    pub hand_id: u32,
    pub betting_type: BettingType,
    pub stack: Seq<i32>,
    pub blind: Seq<i32>,
    pub raise_size: Seq<i32>,
    pub first_player: Seq<u8>,
    pub max_raises: Seq<u8>,
    pub num_suits: u8,
    pub num_ranks: u8,
    pub num_hole_cards: u8,
    pub num_board_cards: Seq<u8>,
}

impl GameView {
    pub open spec fn num_players(self) -> nat {
        self.stack.len()
    }

    pub open spec fn num_rounds(self) -> nat {
        self.first_player.len()
    }

    /// Board cards revealed in the rounds before round `k` (rounds past the last count nothing).
    pub open spec fn board_sum(self, k: int) -> int
        decreases k,
    {
        if k <= 0 {
            0
        } else {
            self.board_sum(k - 1) + if k - 1 < self.num_rounds() {
                self.num_board_cards[k - 1] as int
            } else {
                0
            }
        }
    }

    /// Sum of the stacks of the first `k` players.
    pub open spec fn stack_sum(self, k: int) -> int
        decreases k,
    {
        if k <= 0 {
            0
        } else {
            self.stack_sum(k - 1) + self.stack[k - 1] as int
        }
    }

    /// Largest blind among the first `k` players (0 when there is none).
    pub open spec fn max_blind(self, k: int) -> int
        decreases k,
    {
        if k <= 0 {
            0
        } else {
            let m = self.max_blind(k - 1);
            let b = self.blind[k - 1] as int;
            if b > m {
                b
            } else {
                m
            }
        }
    }

    pub open spec fn wf(self) -> bool {
        &&& 2 <= self.num_players() <= MAX_PLAYERS
        &&& self.blind.len() == self.num_players()
        &&& 1 <= self.num_rounds() <= MAX_ROUNDS
        &&& self.raise_size.len() == self.num_rounds()
        &&& self.max_raises.len() == self.num_rounds()
        &&& self.num_board_cards.len() == self.num_rounds()
        &&& forall|p: int| 0 <= p < self.num_players() ==> 0 < #[trigger] self.stack[p]
        &&& forall|p: int|
            0 <= p < self.num_players() ==> 0 <= #[trigger] self.blind[p] <= self.stack[p]
        &&& forall|r: int|
            0 <= r < self.num_rounds() ==> {
                &&& (self.first_player[r] as int) < self.num_players()
                &&& self.raise_size[r] >= 0
                &&& (self.betting_type == BettingType::Limit ==> self.raise_size[r] > 0)
            }
        &&& 1 <= self.num_suits <= 4
        &&& 1 <= self.num_ranks <= 13
        &&& self.num_hole_cards as int <= MAX_HOLE_CARDS
        &&& self.board_sum(self.num_rounds() as int) <= MAX_BOARD_CARDS
        &&& self.has_chips_after_blinds()
    }

    /// Some player still has chips after posting their blind, so a hand can be played.
    pub open spec fn has_chips_after_blinds(self) -> bool {
        exists|p: int| 0 <= p < self.num_players() && self.blind[p] < self.stack[p]
    }
}

pub proof fn lemma_board_sum_mono(g: GameView, a: int, b: int)
    requires
        a <= b,
    ensures
        g.board_sum(a) <= g.board_sum(b),
    decreases b - a,
{
    if a < b {
        lemma_board_sum_mono(g, a, b - 1);
    }
}

pub proof fn lemma_board_sum_past_end(g: GameView, k: int)
    requires
        k >= g.num_rounds(),
    ensures
        g.board_sum(k) == g.board_sum(g.num_rounds() as int),
    decreases k,
{
    if k > g.num_rounds() {
        lemma_board_sum_past_end(g, k - 1);
    }
}

pub proof fn lemma_stack_sum_bounds(g: GameView, k: int)
    requires
        0 <= k <= g.num_players(),
        forall|p: int| 0 <= p < g.num_players() ==> 0 < g.stack[p],
    ensures
        0 <= g.stack_sum(k) <= k * (i32::MAX as int),
    decreases k,
{
    if k > 0 {
        lemma_stack_sum_bounds(g, k - 1);
    }
}

pub proof fn lemma_max_blind_bounds(g: GameView, k: int)
    requires
        0 <= k <= g.num_players(),
        g.wf(),
    ensures
        0 <= g.max_blind(k) <= i32::MAX,
        forall|p: int| 0 <= p < k ==> g.blind[p] <= g.max_blind(k),
    decreases k,
{
    if k > 0 {
        lemma_max_blind_bounds(g, k - 1);
    }
}

pub proof fn lemma_max_blind_attained(g: GameView, k: int)
    requires
        1 <= k <= g.num_players(),
        g.wf(),
    ensures
        exists|p: int| 0 <= p < k && g.blind[p] == g.max_blind(k),
    decreases k,
{
    if k == 1 {
        assert(g.max_blind(0) == 0);
        assert(0 <= g.blind[0]);
        assert(g.blind[0] == g.max_blind(1));
    } else {
        lemma_max_blind_attained(g, k - 1);
        let p = choose|p: int| 0 <= p < k - 1 && g.blind[p] == g.max_blind(k - 1);
        if g.blind[k - 1] > g.max_blind(k - 1) {
            assert(g.blind[k - 1] == g.max_blind(k));
        } else {
            assert(g.blind[p] == g.max_blind(k));
        }
    }
}

/// An immutable game definition: seats, stacks, blinds and the schedule of rounds.
#[derive(Debug, Clone)]
pub struct Game {
    hand_id: u32,
    betting_type: BettingType,
    stack: Vec<i32>,
    blind: Vec<i32>,
    raise_size: Vec<i32>,
    first_player: Vec<u8>,
    max_raises: Vec<u8>,
    num_suits: u8,
    num_ranks: u8,
    num_hole_cards: u8,
    num_board_cards: Vec<u8>,
}

impl View for Game {
    type V = GameView;

    closed spec fn view(&self) -> GameView {
        GameView {
            hand_id: self.hand_id,
            betting_type: self.betting_type,
            stack: self.stack@,
            blind: self.blind@,
            raise_size: self.raise_size@,
            first_player: self.first_player@,
            max_raises: self.max_raises@,
            num_suits: self.num_suits,
            num_ranks: self.num_ranks,
            num_hole_cards: self.num_hole_cards,
            num_board_cards: self.num_board_cards@,
        }
    }
}


impl Game {
    /// Builds a validated game definition. The number of players is the length of `stack`,
    /// the number of rounds the length of `first_player`; `first_player` holds seat indices.
    /// Returns `None` when the values do not form a well-formed game.
    #[verifier::loop_isolation(false)]
    pub fn new(
        betting_type: BettingType,
        stack: Vec<i32>,
        blind: Vec<i32>,
        raise_size: Vec<i32>,
        first_player: Vec<u8>,
        max_raises: Vec<u8>,
        num_suits: u8,
        num_ranks: u8,
        num_hole_cards: u8,
        num_board_cards: Vec<u8>,
    ) -> (r: Option<Game>)
        ensures
            ({
                let v = GameView {
                    hand_id: 0,
                    betting_type,
                    stack: stack@,
                    blind: blind@,
                    raise_size: raise_size@,
                    first_player: first_player@,
                    max_raises: max_raises@,
                    num_suits,
                    num_ranks,
                    num_hole_cards,
                    num_board_cards: num_board_cards@,
                };
                &&& r.is_some() <==> v.wf()
                &&& r matches Some(g) ==> g@ == v
            }),
    {
        let ghost v = GameView {
            hand_id: 0,
            betting_type,
            stack: stack@,
            blind: blind@,
            raise_size: raise_size@,
            first_player: first_player@,
            max_raises: max_raises@,
            num_suits,
            num_ranks,
            num_hole_cards,
            num_board_cards: num_board_cards@,
        };
        let n = stack.len();
        let nr = first_player.len();
        if n < 2 || n > MAX_PLAYERS || blind.len() != n || nr < 1 || nr > MAX_ROUNDS
            || raise_size.len() != nr || max_raises.len() != nr || num_board_cards.len() != nr {
            return None;
        }
        if num_suits < 1 || num_suits > 4 || num_ranks < 1 || num_ranks > 13
            || num_hole_cards as usize > MAX_HOLE_CARDS {
            return None;
        }
        let mut p: usize = 0;
        let mut chips_left = false;
        while p < n
            invariant
                p <= n,
                n == stack.len(),
                n == blind.len(),
                v.stack == stack@,
                v.blind == blind@,
                forall|q: int| 0 <= q < p ==> 0 < stack[q] && 0 <= blind[q] <= stack[q],
                chips_left == exists|q: int| 0 <= q < p && blind[q] < stack[q],
            decreases n - p,
        {
            if stack[p] <= 0 || blind[p] < 0 || blind[p] > stack[p] {
                assert(v.stack[p as int] == stack[p as int]);
                return None;
            }
            if blind[p] < stack[p] {
                chips_left = true;
            }
            p += 1;
        }
        if !chips_left {
            return None;
        }
        assert forall|q: int| 0 <= q < n implies 0 < #[trigger] v.stack[q] by {
            assert(v.stack[q] == stack[q]);
        }
        assert forall|q: int| 0 <= q < n implies 0 <= #[trigger] v.blind[q] <= v.stack[q] by {
            assert(v.stack[q] == stack[q]);
            assert(v.blind[q] == blind[q]);
        }
        let mut r: usize = 0;
        let mut total: usize = 0;
        while r < nr
            invariant
                r <= nr,
                nr == first_player.len(),
                nr == raise_size.len(),
                nr == num_board_cards.len(),
                n == v.num_players(),
                v.first_player == first_player@,
                v.raise_size == raise_size@,
                v.num_board_cards == num_board_cards@,
                v.betting_type == betting_type,
                total == v.board_sum(r as int),
                total <= MAX_BOARD_CARDS,
                forall|q: int|
                    0 <= q < r ==> {
                        &&& (first_player[q] as int) < n
                        &&& raise_size[q] >= 0
                        &&& (betting_type == BettingType::Limit ==> raise_size[q] > 0)
                    },
            decreases nr - r,
        {
            if first_player[r] as usize >= n || raise_size[r] < 0 {
                proof {
                    if v.wf() {
                        assert(v.first_player[r as int] == first_player[r as int]);
                        assert(v.raise_size[r as int] == raise_size[r as int]);
                        assert((v.first_player[r as int] as int) < v.num_players());
                    }
                }
                return None;
            }
            if betting_type == BettingType::Limit && raise_size[r] == 0 {
                proof {
                    if v.wf() {
                        assert(v.raise_size[r as int] == raise_size[r as int]);
                        assert(v.raise_size[r as int] > 0);
                    }
                }
                return None;
            }
            total = total + num_board_cards[r] as usize;
            if total > MAX_BOARD_CARDS {
                proof {
                    lemma_board_sum_mono(v, r as int + 1, nr as int);
                }
                return None;
            }
            r += 1;
        }
        Some(
            Game {
                hand_id: 0,
                betting_type,
                stack,
                blind,
                raise_size,
                first_player,
                max_raises,
                num_suits,
                num_ranks,
                num_hole_cards,
                num_board_cards,
            },
        )
    }

    pub fn number_of_players(&self) -> (r: u8)
        requires
            self@.wf(),
        ensures
            r == self@.num_players(),
    {
        self.stack.len() as u8
    }

    pub fn num_rounds(&self) -> (r: u8)
        requires
            self@.wf(),
        ensures
            r == self@.num_rounds(),
    {
        self.first_player.len() as u8
    }

    /// Number of board cards revealed before `round` starts.
    pub fn bc_start(&self, round: u8) -> (r: u8)
        requires
            self@.wf(),
        ensures
            r == self@.board_sum(round as int),
    {
        let nr = self.num_board_cards.len();
        let mut k: usize = 0;
        let mut total: u8 = 0;
        while k < round as usize && k < nr
            invariant
                self@.wf(),
                nr == self@.num_rounds(),
                k <= nr,
                k <= round,
                total == self@.board_sum(k as int),
            decreases nr - k,
        {
            proof {
                lemma_board_sum_mono(self@, k as int + 1, nr as int);
            }
            total = total + self.num_board_cards[k];
            k += 1;
        }
        proof {
            if k < round {
                lemma_board_sum_past_end(self@, round as int);
            }
        }
        total
    }

    /// Number of board cards revealed once `round` has started (cumulative over rounds).
    pub fn sum_board_cards(&self, round: u8) -> (r: u8)
        requires
            self@.wf(),
        ensures
            r == self@.board_sum(round as int + 1),
    {
        let nr = self.num_board_cards.len();
        let mut k: usize = 0;
        let mut total: u8 = 0;
        while k <= round as usize && k < nr
            invariant
                self@.wf(),
                nr == self@.num_rounds(),
                k <= nr,
                k <= round as int + 1,
                total == self@.board_sum(k as int),
            decreases nr - k,
        {
            proof {
                lemma_board_sum_mono(self@, k as int + 1, nr as int);
            }
            total = total + self.num_board_cards[k];
            k += 1;
        }
        proof {
            if k <= round {
                lemma_board_sum_past_end(self@, round as int + 1);
            }
        }
        total
    }

    /// The index of `player` as a seat, or `InvalidPlayerIndex`.
    pub fn player_idx(&self, player: u8) -> (r: Result<usize, GameError>)
        requires
            self@.wf(),
        ensures
            (player as int) < self@.num_players() ==> r == Ok::<usize, GameError>(player as usize),
            (player as int) >= self@.num_players() ==> r == Err::<usize, GameError>(
                GameError::InvalidPlayerIndex,
            ),
    {
        if self.number_of_players() <= player {
            Err(GameError::InvalidPlayerIndex)
        } else {
            Ok(player as usize)
        }
    }

    /// Number of private cards each player holds.
    pub fn num_hole_cards(&self) -> (r: u8)
        ensures
            r == self@.num_hole_cards,
    {
        self.num_hole_cards
    }

    pub fn stack_size(&self, player: u8) -> (r: Result<i32, GameError>)
        requires
            self@.wf(),
        ensures
            (player as int) < self@.num_players() ==> r == Ok::<i32, GameError>(
                self@.stack[player as int],
            ),
            (player as int) >= self@.num_players() ==> r == Err::<i32, GameError>(
                GameError::InvalidPlayerIndex,
            ),
    {
        let p = self.player_idx(player)?;
        Ok(self.stack[p])
    }

    pub fn blind_size(&self, player: u8) -> (r: Result<i32, GameError>)
        requires
            self@.wf(),
        ensures
            (player as int) < self@.num_players() ==> r == Ok::<i32, GameError>(
                self@.blind[player as int],
            ),
            (player as int) >= self@.num_players() ==> r == Err::<i32, GameError>(
                GameError::InvalidPlayerIndex,
            ),
    {
        let p = self.player_idx(player)?;
        Ok(self.blind[p])
    }

    /// Sum of all players' stacks.
    pub fn total_money(&self) -> (r: i64)
        requires
            self@.wf(),
        ensures
            r == self@.stack_sum(self@.num_players() as int),
    {
        let n = self.stack.len();
        let mut k: usize = 0;
        let mut sum: i64 = 0;
        while k < n
            invariant
                self@.wf(),
                n == self@.num_players(),
                k <= n,
                sum == self@.stack_sum(k as int),
            decreases n - k,
        {
            proof {
                lemma_stack_sum_bounds(self@, k as int + 1);
            }
            sum = sum + self.stack[k] as i64;
            k += 1;
        }
        sum
    }

    pub fn hand_id(&self) -> (r: u32)
        ensures
            r == self@.hand_id,
    {
        self.hand_id
    }

    pub fn betting_type(&self) -> (r: BettingType)
        ensures
            r == self@.betting_type,
    {
        self.betting_type
    }

    pub fn num_suits(&self) -> (r: u8)
        ensures
            r == self@.num_suits,
    {
        self.num_suits
    }

    pub fn num_ranks(&self) -> (r: u8)
        ensures
            r == self@.num_ranks,
    {
        self.num_ranks
    }

    /// The largest blind (0 when nobody posts one).
    pub fn max_blind(&self) -> (r: i32)
        requires
            self@.wf(),
        ensures
            r == self@.max_blind(self@.num_players() as int),
    {
        let n = self.blind.len();
        let mut k: usize = 0;
        let mut m: i32 = 0;
        while k < n
            invariant
                self@.wf(),
                n == self@.num_players(),
                k <= n,
                m == self@.max_blind(k as int),
            decreases n - k,
        {
            if self.blind[k] > m {
                m = self.blind[k];
            }
            k += 1;
        }
        m
    }

    /// Stack of seat `p`.
    pub fn stack_of(&self, p: usize) -> (r: i32)
        requires
            self@.wf(),
            p < self@.num_players(),
        ensures
            r == self@.stack[p as int],
    {
        self.stack[p]
    }

    /// Blind of seat `p`.
    pub fn blind_of(&self, p: usize) -> (r: i32)
        requires
            self@.wf(),
            p < self@.num_players(),
        ensures
            r == self@.blind[p as int],
    {
        self.blind[p]
    }

    /// Fixed raise amount of `round` in a limit game.
    pub fn raise_size_of(&self, round: usize) -> (r: i32)
        requires
            self@.wf(),
            round < self@.num_rounds(),
        ensures
            r == self@.raise_size[round as int],
    {
        self.raise_size[round]
    }

    /// Seat that opens `round`.
    pub fn first_player_of(&self, round: usize) -> (r: u8)
        requires
            self@.wf(),
            round < self@.num_rounds(),
        ensures
            r == self@.first_player[round as int],
    {
        self.first_player[round]
    }

    /// Most raises allowed in `round`.
    pub fn max_raises_of(&self, round: usize) -> (r: u8)
        requires
            self@.wf(),
            round < self@.num_rounds(),
        ensures
            r == self@.max_raises[round as int],
    {
        self.max_raises[round]
    }
}

} // verus!
