use vstd::prelude::*;

use crate::state::Card;

verus! {

/// Every hand rank is below this value.
pub const RANK_LIMIT: u32 = 9437184;

/// Number of distinct card ranks the evaluator knows (two to ace).
pub const NUM_RANKS: usize = 13;

/// Number of suits the evaluator knows.
pub const NUM_SUITS: usize = 4;

/// Whether card `c` (its rank times four plus its suit) lies in a deck of `suits` suits of
/// `ranks` ranks.
pub open spec fn in_deck(c: u8, suits: u8, ranks: u8) -> bool {
    (c as int) / 4 < ranks as int && (c as int) % 4 < suits as int
}

/// Cards of rank `r` among the first `k` of `cards`.
pub open spec fn rank_count(cards: Seq<u8>, suits: u8, ranks: u8, r: int, k: int) -> int
    decreases k,
{
    if k <= 0 {
        0
    } else {
        rank_count(cards, suits, ranks, r, k - 1) + if in_deck(cards[k - 1], suits, ranks)
            && cards[k - 1] as int / 4 == r {
            1int
        } else {
            0
        }
    }
}

/// Whether the card of suit `s` and rank `r` is among the first `k` of `cards`.
pub open spec fn holds(cards: Seq<u8>, suits: u8, ranks: u8, s: int, r: int, k: int) -> bool
    decreases k,
{
    k > 0 && (holds(cards, suits, ranks, s, r, k - 1) || (in_deck(cards[k - 1], suits, ranks)
        && cards[k - 1] as int / 4 == r && cards[k - 1] as int % 4 == s))
}

/// The highest rank below `below` marked in `m`, as rank + 1, or 0 when none is.
pub open spec fn top_key(m: Seq<bool>, below: int) -> u32
    decreases below,
{
    if below <= 0 {
        0
    } else if m[below - 1] {
        below as u32
    } else {
        top_key(m, below - 1)
    }
}

/// Up to `k` of the highest ranks below `below` marked in `m`, highest first, as rank + 1.
pub open spec fn keys_top(m: Seq<bool>, below: int, k: int) -> Seq<u32>
    decreases below,
{
    if below <= 0 || k <= 0 {
        Seq::empty()
    } else if m[below - 1] {
        seq![below as u32] + keys_top(m, below - 1, k - 1)
    } else {
        keys_top(m, below - 1, k)
    }
}

/// Ranks marked in `m` below `below`.
pub open spec fn mask_size(m: Seq<bool>, below: int) -> int
    decreases below,
{
    if below <= 0 {
        0
    } else {
        mask_size(m, below - 1) + if m[below - 1] {
            1int
        } else {
            0
        }
    }
}

/// The top (rank + 1) of the highest run of five marked ranks whose top is at most `t`;
/// the ace may play below the two. 0 when there is no run.
pub open spec fn run_top(m: Seq<bool>, t: int) -> u32
    decreases t,
{
    if t < 5 {
        if m[12] && m[0] && m[1] && m[2] && m[3] {
            4
        } else {
            0
        }
    } else if m[t - 1] && m[t - 2] && m[t - 3] && m[t - 4] && m[t - 5] {
        t as u32
    } else {
        run_top(m, t - 1)
    }
}

/// Key `i` of a list of keys, 0 past its end.
pub open spec fn key_at(keys: Seq<u32>, i: int) -> int {
    if i < keys.len() {
        keys[i] as int
    } else {
        0
    }
}

/// A hand category with its first five tie-break keys, as one number in base 16.
pub open spec fn enc(category: int, keys: Seq<u32>) -> int {
    category * 1048576 + key_at(keys, 0) * 65536 + key_at(keys, 1) * 4096 + key_at(keys, 2) * 256
        + key_at(keys, 3) * 16 + key_at(keys, 4)
}

/// Ranks held at least `min` times, leaving out the ranks of keys `ex1` and `ex2`.
pub open spec fn at_least(cnt: Seq<int>, min: int, ex1: u32, ex2: u32) -> Seq<bool> {
    Seq::new(NUM_RANKS as nat, |r: int| cnt[r] >= min && r + 1 != ex1 && r + 1 != ex2)
}

/// Top of the best straight flush in suit `s` (0 for none).
pub open spec fn suit_straight(st: Seq<Seq<bool>>, s: int) -> u32 {
    if mask_size(st[s], NUM_RANKS as int) >= 5 {
        run_top(st[s], NUM_RANKS as int)
    } else {
        0
    }
}

/// Value of the best flush in suit `s` (0 for none).
pub open spec fn suit_flush(st: Seq<Seq<bool>>, s: int) -> int {
    if mask_size(st[s], NUM_RANKS as int) >= 5 {
        enc(5, keys_top(st[s], NUM_RANKS as int, 5))
    } else {
        0
    }
}

/// Best straight flush over the first `k` suits.
pub open spec fn best_straight_flush(st: Seq<Seq<bool>>, k: int) -> u32
    decreases k,
{
    if k <= 0 {
        0
    } else {
        let a = best_straight_flush(st, k - 1);
        let b = suit_straight(st, k - 1);
        if b > a {
            b
        } else {
            a
        }
    }
}

/// Best flush over the first `k` suits.
pub open spec fn best_flush(st: Seq<Seq<bool>>, k: int) -> int
    decreases k,
{
    if k <= 0 {
        0
    } else {
        let a = best_flush(st, k - 1);
        let b = suit_flush(st, k - 1);
        if b > a {
            b
        } else {
            a
        }
    }
}

/// Value of the best poker hand with `cnt[r]` cards of each rank and `st[s][r]` telling
/// whether the card of suit `s` and rank `r` is held. Categories from high to low:
/// straight flush, four of a kind, full house, flush, straight, three of a kind, two pair,
/// pair, high card; ties are broken by the ranks that make the hand, then the kickers.
pub open spec fn profile_value(cnt: Seq<int>, st: Seq<Seq<bool>>) -> int {
    let n = NUM_RANKS as int;
    let sf = best_straight_flush(st, NUM_SUITS as int);
    let q = top_key(at_least(cnt, 4, 0, 0), n);
    let t = top_key(at_least(cnt, 3, 0, 0), n);
    let fp = top_key(at_least(cnt, 2, t, 0), n);
    let fl = best_flush(st, NUM_SUITS as int);
    let run = run_top(at_least(cnt, 1, 0, 0), n);
    let p1 = top_key(at_least(cnt, 2, 0, 0), n);
    let p2 = top_key(at_least(cnt, 2, p1, 0), n);
    if sf > 0 {
        enc(8, seq![sf])
    } else if q > 0 {
        enc(7, seq![q] + keys_top(at_least(cnt, 1, q, 0), n, 1))
    } else if t > 0 && fp > 0 {
        enc(6, seq![t, fp])
    } else if fl > 0 {
        fl
    } else if run > 0 {
        enc(4, seq![run])
    } else if t > 0 {
        enc(3, seq![t] + keys_top(at_least(cnt, 1, t, 0), n, 2))
    } else if p1 > 0 && p2 > 0 {
        enc(2, seq![p1, p2] + keys_top(at_least(cnt, 1, p1, p2), n, 1))
    } else if p1 > 0 {
        enc(1, seq![p1] + keys_top(at_least(cnt, 1, p1, 0), n, 3))
    } else {
        enc(0, keys_top(at_least(cnt, 1, 0, 0), n, 5))
    }
}

/// How many cards of each rank `cards` holds.
pub open spec fn rank_counts(cards: Seq<u8>, suits: u8, ranks: u8) -> Seq<int> {
    Seq::new(NUM_RANKS as nat, |r: int| rank_count(cards, suits, ranks, r, cards.len() as int))
}

/// For each suit and rank, whether `cards` holds that card.
pub open spec fn suited(cards: Seq<u8>, suits: u8, ranks: u8) -> Seq<Seq<bool>> {
    Seq::new(
        NUM_SUITS as nat,
        |s: int|
            Seq::new(NUM_RANKS as nat, |r: int| holds(cards, suits, ranks, s, r, cards.len() as int)),
    )
}

/// The value of the best poker hand among `cards`, where a card is its rank times four plus
/// its suit and cards outside the deck are left out.
pub open spec fn hand_value(cards: Seq<u8>, suits: u8, ranks: u8) -> int {
    profile_value(rank_counts(cards, suits, ranks), suited(cards, suits, ranks))
}

proof fn lemma_run_top_bound(m: Seq<bool>, t: int)
    requires
        t <= NUM_RANKS,
        m.len() == NUM_RANKS,
    ensures
        run_top(m, t) <= NUM_RANKS,
    decreases t,
{
    if t >= 5 {
        lemma_run_top_bound(m, t - 1);
    }
}

/// Whether rank `r` is marked in `m`.
fn marked(m: &Vec<bool>, r: usize) -> (b: bool)
    requires
        m@.len() == NUM_RANKS,
        r < NUM_RANKS,
    ensures
        b == m@[r as int],
{
    m[r]
}

/// The ranks held at least `min` times, leaving out the ranks of keys `ex1` and `ex2`.
fn mask_at_least(counts: &Vec<usize>, min: usize, ex1: u32, ex2: u32) -> (m: Vec<bool>)
    requires
        counts@.len() == NUM_RANKS,
    ensures
        m@ == at_least(counts@.map_values(|x: usize| x as int), min as int, ex1, ex2),
{
    let mut m: Vec<bool> = Vec::new();
    let mut r: usize = 0;
    while r < NUM_RANKS
        invariant
            counts@.len() == NUM_RANKS,
            r <= NUM_RANKS,
            m@.len() == r,
            forall|j: int|
                0 <= j < r ==> #[trigger] m@[j] == (counts@[j] >= min && j + 1 != ex1 && j + 1
                    != ex2),
        decreases NUM_RANKS - r,
    {
        m.push(counts[r] >= min && r as u32 + 1 != ex1 && r as u32 + 1 != ex2);
        r += 1;
    }
    proof {
        assert(m@ =~= at_least(counts@.map_values(|x: usize| x as int), min as int, ex1, ex2));
    }
    m
}

/// The highest marked rank, as rank + 1, or 0.
fn top_key_of(m: &Vec<bool>) -> (r: u32)
    requires
        m@.len() == NUM_RANKS,
    ensures
        r == top_key(m@, NUM_RANKS as int),
        r <= NUM_RANKS,
{
    let mut b: usize = NUM_RANKS;
    while b > 0
        invariant
            m@.len() == NUM_RANKS,
            b <= NUM_RANKS,
            top_key(m@, NUM_RANKS as int) == top_key(m@, b as int),
        decreases b,
    {
        if marked(m, b - 1) {
            return b as u32;
        }
        b -= 1;
    }
    0
}

/// Appends up to `k` of the highest marked ranks, highest first, as rank + 1.
fn push_keys(m: &Vec<bool>, k: usize, keys: &mut Vec<u32>)
    requires
        m@.len() == NUM_RANKS,
        forall|i: int| 0 <= i < old(keys)@.len() ==> old(keys)@[i] <= NUM_RANKS,
    ensures
        final(keys)@ == old(keys)@ + keys_top(m@, NUM_RANKS as int, k as int),
        forall|i: int| 0 <= i < final(keys)@.len() ==> final(keys)@[i] <= NUM_RANKS,
{
    let mut b: usize = NUM_RANKS;
    let mut left: usize = k;
    while b > 0 && left > 0
        invariant
            m@.len() == NUM_RANKS,
            b <= NUM_RANKS,
            left <= k,
            old(keys)@ + keys_top(m@, NUM_RANKS as int, k as int) == keys@ + keys_top(
                m@,
                b as int,
                left as int,
            ),
            forall|i: int| 0 <= i < keys@.len() ==> keys@[i] <= NUM_RANKS,
        decreases b,
    {
        let ghost before = keys@;
        if marked(m, b - 1) {
            keys.push(b as u32);
            left -= 1;
            proof {
                assert(before + keys_top(m@, b as int, left as int + 1) =~= keys@ + keys_top(
                    m@,
                    b as int - 1,
                    left as int,
                ));
            }
        }
        b -= 1;
    }
    proof {
        assert(keys_top(m@, b as int, left as int) =~= Seq::<u32>::empty());
        assert(keys@ + Seq::<u32>::empty() =~= keys@);
    }
}

/// Number of marked ranks.
fn size_of(m: &Vec<bool>) -> (c: usize)
    requires
        m@.len() == NUM_RANKS,
    ensures
        c == mask_size(m@, NUM_RANKS as int),
{
    let mut r: usize = 0;
    let mut c: usize = 0;
    while r < NUM_RANKS
        invariant
            m@.len() == NUM_RANKS,
            r <= NUM_RANKS,
            c <= r,
            c == mask_size(m@, r as int),
        decreases NUM_RANKS - r,
    {
        if marked(m, r) {
            c += 1;
        }
        r += 1;
    }
    c
}

/// Top of the highest run of five marked ranks, or 0.
fn run_top_of(m: &Vec<bool>) -> (r: u32)
    requires
        m@.len() == NUM_RANKS,
    ensures
        r == run_top(m@, NUM_RANKS as int),
        r <= NUM_RANKS,
{
    proof {
        lemma_run_top_bound(m@, NUM_RANKS as int);
    }
    let mut t: usize = NUM_RANKS;
    while t >= 5
        invariant
            m@.len() == NUM_RANKS,
            t <= NUM_RANKS,
            run_top(m@, NUM_RANKS as int) == run_top(m@, t as int),
        decreases t,
    {
        if marked(m, t - 1) && marked(m, t - 2) && marked(m, t - 3) && marked(m, t - 4) && marked(
            m,
            t - 5,
        ) {
            return t as u32;
        }
        t -= 1;
    }
    if marked(m, 12) && marked(m, 0) && marked(m, 1) && marked(m, 2) && marked(m, 3) {
        4
    } else {
        0
    }
}

/// Packs a category and its keys into one number.
fn encode(category: u32, keys: &Vec<u32>) -> (r: u32)
    requires
        category < 9,
        forall|i: int| 0 <= i < keys@.len() ==> keys@[i] <= NUM_RANKS,
    ensures
        r == enc(category as int, keys@),
        r < RANK_LIMIT,
{
    let k0 = if keys.len() > 0 {
        keys[0]
    } else {
        0
    };
    let k1 = if keys.len() > 1 {
        keys[1]
    } else {
        0
    };
    let k2 = if keys.len() > 2 {
        keys[2]
    } else {
        0
    };
    let k3 = if keys.len() > 3 {
        keys[3]
    } else {
        0
    };
    let k4 = if keys.len() > 4 {
        keys[4]
    } else {
        0
    };
    category * 1048576 + k0 * 65536 + k1 * 4096 + k2 * 256 + k3 * 16 + k4
}

/// Packs a category with the keys `first` followed by up to `k` of the highest ranks of `m`.
fn encode_with(category: u32, first: Vec<u32>, m: &Vec<bool>, k: usize) -> (r: u32)
    requires
        category < 9,
        m@.len() == NUM_RANKS,
        forall|i: int| 0 <= i < first@.len() ==> first@[i] <= NUM_RANKS,
    ensures
        r == enc(category as int, first@ + keys_top(m@, NUM_RANKS as int, k as int)),
        r < RANK_LIMIT,
{
    let mut keys = first;
    push_keys(m, k, &mut keys);
    encode(category, &keys)
}

/// The rank of the best poker hand among `cards`: higher ranks beat lower ones and equal
/// ranks tie. A card is its rank times four plus its suit; ids outside the deck of
/// `num_suits` suits and `num_ranks` ranks are left out.
pub fn rank_hand(cards: &[Card], num_suits: u8, num_ranks: u8) -> (r: u32)
    requires
        1 <= num_suits <= NUM_SUITS,
        1 <= num_ranks <= NUM_RANKS,
    ensures
        r == hand_value(cards@, num_suits, num_ranks),
        r < RANK_LIMIT,
{
    let mut counts: Vec<usize> = vec![0usize; 13];
    let mut held: Vec<bool> = vec![false; 52];
    let mut i: usize = 0;
    while i < cards.len()
        invariant
            1 <= num_suits <= NUM_SUITS,
            1 <= num_ranks <= NUM_RANKS,
            i <= cards@.len(),
            counts@.len() == NUM_RANKS,
            held@.len() == NUM_SUITS * NUM_RANKS,
            forall|r: int|
                0 <= r < NUM_RANKS ==> #[trigger] counts@[r] == rank_count(
                    cards@,
                    num_suits,
                    num_ranks,
                    r,
                    i as int,
                ) && counts@[r] <= i,
            forall|s: int, r: int|
                0 <= s < NUM_SUITS && 0 <= r < NUM_RANKS ==> #[trigger] held@[s * 13 + r] == holds(
                    cards@,
                    num_suits,
                    num_ranks,
                    s,
                    r,
                    i as int,
                ),
        decreases cards@.len() - i,
    {
        let c = cards[i] as usize;
        let rank = c / 4;
        let suit = c % 4;
        if rank < num_ranks as usize && suit < num_suits as usize {
            counts[rank] = counts[rank] + 1;
            held[suit * 13 + rank] = true;
        }
        i += 1;
        proof {
            assert forall|s: int, r: int| 0 <= s < NUM_SUITS && 0 <= r < NUM_RANKS implies #[trigger] held@[s * 13 + r]
                == holds(cards@, num_suits, num_ranks, s, r, i as int) by {
                if rank < num_ranks && suit < num_suits {
                    if s != suit || r != rank {
                        assert(s * 13 + r != suit * 13 + rank);
                    }
                }
            }
        }
    }
    let ghost cnt = counts@.map_values(|x: usize| x as int);
    let ghost st = suited(cards@, num_suits, num_ranks);
    proof {
        assert(cnt =~= rank_counts(cards@, num_suits, num_ranks));
    }
    let mut suit_masks: Vec<Vec<bool>> = Vec::new();
    let mut s: usize = 0;
    while s < NUM_SUITS
        invariant
            held@.len() == NUM_SUITS * NUM_RANKS,
            st == suited(cards@, num_suits, num_ranks),
            i == cards@.len(),
            s <= NUM_SUITS,
            suit_masks@.len() == s,
            forall|a: int, r: int|
                0 <= a < NUM_SUITS && 0 <= r < NUM_RANKS ==> #[trigger] held@[a * 13 + r] == holds(
                    cards@,
                    num_suits,
                    num_ranks,
                    a,
                    r,
                    i as int,
                ),
            forall|j: int| 0 <= j < s ==> (#[trigger] suit_masks@[j])@ == st[j],
        decreases NUM_SUITS - s,
    {
        let mut m: Vec<bool> = Vec::new();
        let mut r: usize = 0;
        while r < NUM_RANKS
            invariant
                held@.len() == NUM_SUITS * NUM_RANKS,
                s < NUM_SUITS,
                r <= NUM_RANKS,
                m@.len() == r,
                forall|j: int| 0 <= j < r ==> #[trigger] m@[j] == held@[s * 13 + j],
            decreases NUM_RANKS - r,
        {
            m.push(held[s * 13 + r]);
            r += 1;
        }
        proof {
            assert(m@ =~= st[s as int]);
        }
        suit_masks.push(m);
        s += 1;
    }
    let mut sf: u32 = 0;
    let mut fl: u32 = 0;
    let mut s: usize = 0;
    while s < NUM_SUITS
        invariant
            suit_masks@.len() == NUM_SUITS,
            forall|j: int| 0 <= j < NUM_SUITS ==> (#[trigger] suit_masks@[j])@ == st[j],
            forall|j: int| 0 <= j < NUM_SUITS ==> (#[trigger] st[j]).len() == NUM_RANKS,
            s <= NUM_SUITS,
            sf == best_straight_flush(st, s as int),
            fl == best_flush(st, s as int),
            sf <= NUM_RANKS,
            fl < RANK_LIMIT,
        decreases NUM_SUITS - s,
    {
        let m = &suit_masks[s];
        if size_of(m) >= 5 {
            let t = run_top_of(m);
            if t > sf {
                sf = t;
            }
            let f = encode_with(5, Vec::new(), m, 5);
            proof {
                assert(Seq::<u32>::empty() + keys_top(st[s as int], NUM_RANKS as int, 5)
                    =~= keys_top(st[s as int], NUM_RANKS as int, 5));
            }
            if f > fl {
                fl = f;
            }
        }
        s += 1;
    }
    let ghost n = NUM_RANKS as int;
    if sf > 0 {
        return encode(8, &vec![sf]);
    }
    let q = top_key_of(&mask_at_least(&counts, 4, 0, 0));
    if q > 0 {
        return encode_with(7, vec![q], &mask_at_least(&counts, 1, q, 0), 1);
    }
    let t = top_key_of(&mask_at_least(&counts, 3, 0, 0));
    let fp = top_key_of(&mask_at_least(&counts, 2, t, 0));
    if t > 0 && fp > 0 {
        return encode(6, &vec![t, fp]);
    }
    if fl > 0 {
        return fl;
    }
    let run = run_top_of(&mask_at_least(&counts, 1, 0, 0));
    if run > 0 {
        return encode(4, &vec![run]);
    }
    if t > 0 {
        return encode_with(3, vec![t], &mask_at_least(&counts, 1, t, 0), 2);
    }
    let p1 = top_key_of(&mask_at_least(&counts, 2, 0, 0));
    let p2 = top_key_of(&mask_at_least(&counts, 2, p1, 0));
    if p1 > 0 && p2 > 0 {
        return encode_with(2, vec![p1, p2], &mask_at_least(&counts, 1, p1, p2), 1);
    }
    if p1 > 0 {
        return encode_with(1, vec![p1], &mask_at_least(&counts, 1, p1, 0), 3);
    }
    let r = encode_with(0, Vec::new(), &mask_at_least(&counts, 1, 0, 0), 5);
    proof {
        assert(Seq::<u32>::empty() + keys_top(at_least(cnt, 1, 0, 0), n, 5) =~= keys_top(
            at_least(cnt, 1, 0, 0),
            n,
            5,
        ));
    }
    r
}
} // verus!
