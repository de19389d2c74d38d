use vstd::prelude::*;

use crate::state::{raise_bounds, valid_action, Action, State};
use crate::game::GameView;
use crate::state::StateView;

verus! {

/// A node of a game tree kept in an arena: the action that led to it, who took it, and the
/// index of its parent node (none for a child of the root).
#[derive(Debug, Clone, Copy, PartialEq, Eq, Structural)]
pub struct Node {
    pub parent: Option<usize>,
    pub player: u8,
    pub action: Action,
}

/// Decimal digits of `n` as ASCII bytes.
pub open spec fn decimal_text(n: nat) -> Seq<u8>
    decreases n,
{
    if n < 10 {
        seq![(48 + n) as u8]
    } else {
        decimal_text(n / 10) + seq![(48 + n % 10) as u8]
    }
}

/// An integer in decimal, with a leading minus sign when negative.
pub open spec fn signed_text(v: int) -> Seq<u8> {
    if v < 0 {
        seq![45u8] + decimal_text((-v) as nat)
    } else {
        decimal_text(v as nat)
    }
}

/// How an action is written: `Fold`, `Call`, `Raise(<total>)` or `Invalid`.
pub open spec fn action_text(a: Action) -> Seq<u8> {
    match a {
        Action::Fold => seq![70u8, 111u8, 108u8, 100u8],
        Action::Call => seq![67u8, 97u8, 108u8, 108u8],
        Action::Raise(t) => seq![82u8, 97u8, 105u8, 115u8, 101u8, 40u8] + signed_text(t as int)
            + seq![41u8],
        Action::Invalid => seq![73u8, 110u8, 118u8, 97u8, 108u8, 105u8, 100u8],
    }
}

/// The label of a node: `P<player>|<action>`.
pub open spec fn label_text(n: Node) -> Seq<u8> {
    seq![80u8] + decimal_text(n.player as nat) + seq![124u8] + action_text(n.action)
}

/// The characters of ASCII bytes.
pub open spec fn ascii_chars(b: Seq<u8>) -> Seq<char> {
    b.map_values(|x: u8| x as char)
}

/// Every parent index points to an earlier node of the arena.
pub open spec fn arena_wf(arena: Seq<Node>) -> bool {
    forall|i: int|
        0 <= i < arena.len() ==> (#[trigger] arena[i].parent matches Some(j) ==> j < i)
}

/// The nodes from the root down to node `at`, inclusive.
pub open spec fn path_to(arena: Seq<Node>, at: int) -> Seq<Node>
    decreases at,
{
    if at < 0 || at >= arena.len() {
        Seq::empty()
    } else {
        let above = match arena[at].parent {
            Some(j) => if (j as int) < at {
                path_to(arena, j as int)
            } else {
                Seq::empty()
            },
            None => Seq::empty(),
        };
        above.push(arena[at])
    }
}

proof fn lemma_decimal_ascii(n: nat)
    ensures
        forall|i: int| 0 <= i < decimal_text(n).len() ==> 48 <= #[trigger] decimal_text(n)[i] < 58,
    decreases n,
{
    if n >= 10 {
        lemma_decimal_ascii(n / 10);
        let d = decimal_text(n / 10);
        let t = decimal_text(n);
        assert forall|i: int| 0 <= i < t.len() implies 48 <= #[trigger] t[i] < 58 by {
            if i < d.len() {
                assert(t[i] == d[i]);
            } else {
                assert(t[i] == (48 + n % 10) as u8);
            }
        }
    } else {
        assert(decimal_text(n)[0] == (48 + n) as u8);
    }
}

/// Relies on `String::from_utf8`: ASCII bytes are valid UTF-8, so it succeeds, and the
/// string's characters are the bytes.
#[verifier::external_body]
fn ascii_string(bytes: Vec<u8>) -> (r: Option<String>)
    requires
        forall|i: int| 0 <= i < bytes@.len() ==> bytes@[i] < 128,
    ensures
        r.is_some(),
        r.unwrap()@ == ascii_chars(bytes@),
{
    String::from_utf8(bytes).ok()
}

/// Appends the decimal digits of `v`.
fn push_decimal(v: u64, out: &mut Vec<u8>)
    ensures
        final(out)@ == old(out)@ + decimal_text(v as nat),
    decreases v,
{
    if v >= 10 {
        push_decimal(v / 10, out);
    }
    out.push((48 + v % 10) as u8);
    proof {
        assert(final(out)@ =~= old(out)@ + decimal_text(v as nat));
    }
}

fn push_all(bytes: &[u8], out: &mut Vec<u8>)
    ensures
        final(out)@ == old(out)@ + bytes@,
{
    let mut i: usize = 0;
    while i < bytes.len()
        invariant
            i <= bytes@.len(),
            out@ == old(out)@ + bytes@.subrange(0, i as int),
        decreases bytes@.len() - i,
    {
        out.push(bytes[i]);
        i += 1;
        proof {
            assert(bytes@.subrange(0, i as int) =~= bytes@.subrange(0, i as int - 1).push(
                bytes@[i as int - 1],
            ));
            assert(out@ =~= old(out)@ + bytes@.subrange(0, i as int));
        }
    }
    proof {
        assert(bytes@.subrange(0, bytes@.len() as int) =~= bytes@);
    }
}

/// The label of `node` as a string.
fn label(node: Node) -> (r: String)
    ensures
        r@ == ascii_chars(label_text(node)),
{
    let mut b: Vec<u8> = Vec::new();
    b.push(80u8);
    push_decimal(node.player as u64, &mut b);
    b.push(124u8);
    match node.action {
        Action::Fold => push_all(&[70u8, 111u8, 108u8, 100u8], &mut b),
        Action::Call => push_all(&[67u8, 97u8, 108u8, 108u8], &mut b),
        Action::Raise(t) => {
            push_all(&[82u8, 97u8, 105u8, 115u8, 101u8, 40u8], &mut b);
            if t < 0 {
                b.push(45u8);
                push_decimal((-(t as i64)) as u64, &mut b);
            } else {
                push_decimal(t as u64, &mut b);
            }
            b.push(41u8);
        },
        Action::Invalid => push_all(&[73u8, 110u8, 118u8, 97u8, 108u8, 105u8, 100u8], &mut b),
    }
    proof {
        assert(b@ =~= label_text(node));
        lemma_decimal_ascii(node.player as nat);
        if let Action::Raise(t) = node.action {
            if t < 0 {
                lemma_decimal_ascii((-t) as nat);
            } else {
                lemma_decimal_ascii(t as nat);
            }
        }
        assert(forall|i: int| 0 <= i < b@.len() ==> b@[i] < 128);
    }
    match ascii_string(b) {
        Some(s) => s,
        None => String::new(),
    }
}

/// Appends the labels of the nodes from the root down to node `at`.
fn push_path(arena: &Vec<Node>, at: usize, out: &mut Vec<String>)
    requires
        arena_wf(arena@),
        at < arena@.len(),
    ensures
        final(out)@.len() == old(out)@.len() + path_to(arena@, at as int).len(),
        forall|i: int| 0 <= i < old(out)@.len() ==> final(out)@[i] == old(out)@[i],
        forall|i: int|
            0 <= i < path_to(arena@, at as int).len() ==> #[trigger] final(out)@[old(out)@.len()
                + i]@ == ascii_chars(label_text(path_to(arena@, at as int)[i])),
    decreases at,
{
    let node = arena[at];
    proof {
        assert(arena@[at as int].parent matches Some(j) ==> j < at);
    }
    if let Some(j) = node.parent {
        push_path(arena, j, out);
    }
    out.push(label(node));
}

impl Node {
    /// Labels of the actions from the root down to this node, written `P<player>|<action>`.
    /// Parent indices refer to nodes of `arena`.
    pub fn history(&self, arena: &Vec<Node>) -> (r: Vec<String>)
        requires
            arena_wf(arena@),
            self.parent matches Some(j) ==> j < arena@.len(),
        ensures
            ({
                let path = match self.parent {
                    Some(j) => path_to(arena@, j as int),
                    None => Seq::empty(),
                }.push(*self);
                &&& r@.len() == path.len()
                &&& forall|i: int|
                    0 <= i < path.len() ==> #[trigger] r@[i]@ == ascii_chars(label_text(path[i]))
            }),
    {
        let mut his: Vec<String> = Vec::new();
        if let Some(j) = self.parent {
            push_path(arena, j, &mut his);
            proof {
                assert forall|i: int| 0 <= i < path_to(arena@, j as int).len() implies #[trigger] his@[i]@
                    == ascii_chars(label_text(path_to(arena@, j as int)[i])) by {
                    assert(his@[0 + i] == his@[i]);
                }
            }
        }
        his.push(label(*self));
        his
    }
}


/// Fold, call, and a raise to the smallest legal total, each listed only when legal.
pub open spec fn legal_list(g: GameView, s: StateView) -> Seq<Action> {
    let fold = if valid_action(g, s, Action::Fold) {
        seq![Action::Fold]
    } else {
        Seq::empty()
    };
    let call = if valid_action(g, s, Action::Call) {
        seq![Action::Call]
    } else {
        Seq::empty()
    };
    let raise = match raise_bounds(g, s) {
        Some((lo, _)) => if valid_action(g, s, Action::Raise(lo as i32)) {
            seq![Action::Raise(lo as i32)]
        } else {
            Seq::empty()
        },
        None => Seq::empty(),
    };
    fold + call + raise
}

/// The actions the player to act may take: fold, call and the smallest legal raise.
pub fn legal_actions(state: &State) -> (r: Vec<Action>)
    requires
        state.wf(),
    ensures
        r@ == legal_list(state.rules(), state@),
{
    let mut out: Vec<Action> = Vec::new();
    if state.is_valid_action(Action::Fold) {
        out.push(Action::Fold);
    }
    if state.is_valid_action(Action::Call) {
        out.push(Action::Call);
    }
    if let Ok((lo, _)) = state.raise_size() {
        if state.is_valid_action(Action::Raise(lo)) {
            out.push(Action::Raise(lo));
        }
    }
    proof {
        assert(out@ =~= legal_list(state.rules(), state@));
    }
    out
}

} // verus!
