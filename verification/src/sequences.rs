//! A concrete transition model over byte sequences: an action pushes one
//! byte onto the state, its rollback pops that byte again.  This is the
//! simplest reversible environment; the enumeration scenarios run on it,
//! spanning the full tree of bounded byte sequences.

use vstd::prelude::*;

use crate::ActionsGenerator;
use crate::Environment;
use crate::IsTerminalState;
use crate::ShouldContinueSearch;
use crate::count_uniform_terminal_states;
use crate::generated_actions_invertible;
use crate::inverts_pair;
use crate::upow;

verus! {

/// Environment whose states are byte sequences.  Applying action `a` pushes
/// the byte `a`; rolling it back pops the last byte.  A state is terminal
/// once it holds `max_size` bytes.
pub struct SeqEnvironment {
    pub max_size: usize,
}

impl Environment for SeqEnvironment {
    type State = Vec<u8>;

    type Action = u8;

    open spec fn apply_spec(&self, s: Seq<u8>, a: u8) -> Seq<u8> {
        s.push(a)
    }

    open spec fn rollback_spec(&self, s: Seq<u8>, a: u8) -> Seq<u8> {
        if s.len() == 0 {
            s
        } else {
            s.drop_last()
        }
    }

    fn apply(&self, state: &mut Vec<u8>, action: &u8) {
        state.push(*action);
    }

    fn rollback(&self, state: &mut Vec<u8>, action: &u8) {
        if state.len() > 0 {
            let _ = state.pop();
        }
    }
}

impl IsTerminalState<SeqEnvironment> for SeqEnvironment {
    open spec fn is_terminal_spec(&self, s: Seq<u8>) -> bool {
        s.len() >= self.max_size
    }

    fn is_terminal_state(&self, state: &Vec<u8>) -> (r: bool) {
        state.len() >= self.max_size
    }
}

/// The invertibility law of the byte-sequence model: rolling an action back
/// right after applying it restores exactly the state it was applied to, for
/// every state and every action.  In particular every agent over this
/// environment meets the engine's exact-inverse precondition.
pub proof fn lemma_seq_env_invertible<A: ActionsGenerator<SeqEnvironment>>(env: SeqEnvironment)
    ensures
        forall|s: Seq<u8>, a: u8| #[trigger] inverts_pair(env, s, a),
        generated_actions_invertible::<SeqEnvironment, A>(env),
{
    assert forall|s: Seq<u8>, a: u8| #[trigger] inverts_pair(env, s, a) by {
        assert(env.apply_spec(s, a).drop_last() =~= s);
    }
    assert forall|g: A, s: Seq<u8>, i: int|
        0 <= i < g.actions_spec(s).len() implies inverts_pair(
        env,
        s,
        #[trigger] g.actions_spec(s)[i],
    ) by {
        assert(inverts_pair(env, s, g.actions_spec(s)[i]));
    }
}

/// Agent that offers the eight actions `1 ..= 8` from every state and never
/// prunes: with it the search tree below the empty state is the full tree of
/// byte sequences over that alphabet.
pub struct SeqAgent {}

impl ActionsGenerator<SeqEnvironment> for SeqAgent {
    open spec fn actions_spec(&self, s: Seq<u8>) -> Seq<u8> {
        seq![1u8, 2u8, 3u8, 4u8, 5u8, 6u8, 7u8, 8u8]
    }

    fn generate_actions(&mut self, state: &Vec<u8>) -> (r: Vec<u8>) {
        let mut r: Vec<u8> = Vec::with_capacity(8);
        r.push(1);
        r.push(2);
        r.push(3);
        r.push(4);
        r.push(5);
        r.push(6);
        r.push(7);
        r.push(8);
        proof {
            assert(r@ =~= seq![1u8, 2u8, 3u8, 4u8, 5u8, 6u8, 7u8, 8u8]);
        }
        r
    }
}

impl ShouldContinueSearch<SeqEnvironment> for SeqAgent {
    open spec fn should_continue_spec(&self, s: Seq<u8>) -> bool {
        true
    }

    fn should_continue(&mut self, state: &Vec<u8>) -> (r: bool) {
        true
    }
}

/// Exhaustive enumeration count over the full byte-sequence tree: with the
/// eight actions of [`SeqAgent`] at every state and the sequences of length
/// `depth` terminal, the traversal meets exactly `8 ^ depth` terminal
/// states.
pub fn count_full_seq_tree(depth: usize) -> (count: usize)
    requires
        upow(8, depth as int) <= usize::MAX,
    ensures
        count as int == upow(8, depth as int),
{
    let env = SeqEnvironment { max_size: depth };
    let ghost lvl = |s: Seq<u8>| s.len() as int;
    proof {
        lemma_seq_env_invertible::<SeqAgent>(env);
        assert forall|g: SeqAgent, s: Seq<u8>| (#[trigger] g.actions_spec(s)).len() == 8 by {
        }
        assert forall|g: SeqAgent, s: Seq<u8>, i: int| 0 <= i < 8 implies lvl(
            env.apply_spec(s, #[trigger] g.actions_spec(s)[i]),
        ) == lvl(s) + 1 by {
        }
        assert forall|s: Seq<u8>| #[trigger] env.is_terminal_spec(s) <==> lvl(s)
            >= depth as int by {
        }
    }
    let (count, _) = count_uniform_terminal_states(
        Vec::new(),
        &env,
        SeqAgent {},
        Ghost(8int),
        Ghost(depth as int),
        Ghost(lvl),
    );
    count
}

/// Agent for small enumeration scenarios: it offers the actions
/// `lo ..= hi` from every state, and its continuation policy forbids
/// exploring below any state whose first byte equals `block` (pick a byte
/// outside the action range to disable pruning).
pub struct RangeAgent {
    pub lo: u8,
    pub hi: u8,
    pub block: u8,
}

impl ActionsGenerator<SeqEnvironment> for RangeAgent {
    open spec fn actions_spec(&self, s: Seq<u8>) -> Seq<u8> {
        if self.lo <= self.hi {
            Seq::new((self.hi - self.lo + 1) as nat, |i: int| (self.lo + i) as u8)
        } else {
            Seq::empty()
        }
    }

    fn generate_actions(&mut self, state: &Vec<u8>) -> (r: Vec<u8>) {
        let mut r: Vec<u8> = Vec::new();
        if self.lo <= self.hi {
            let mut a: u8 = self.lo;
            loop
                invariant_except_break
                    r@ =~= self.actions_spec(state@).subrange(0, a - self.lo),
                invariant
                    self.lo <= a <= self.hi,
                ensures
                    r@ =~= self.actions_spec(state@),
                decreases self.hi - a,
            {
                r.push(a);
                proof {
                    assert(r@ =~= self.actions_spec(state@).subrange(0, a - self.lo + 1));
                }
                if a == self.hi {
                    proof {
                        assert(self.actions_spec(state@).subrange(
                            0,
                            self.hi - self.lo + 1,
                        ) =~= self.actions_spec(state@));
                    }
                    break ;
                }
                a = a + 1;
            }
        }
        r
    }
}

impl ShouldContinueSearch<SeqEnvironment> for RangeAgent {
    open spec fn should_continue_spec(&self, s: Seq<u8>) -> bool {
        !(s.len() > 0 && s[0] == self.block)
    }

    fn should_continue(&mut self, state: &Vec<u8>) -> (r: bool) {
        !(state.len() > 0 && state[0] == self.block)
    }
}

} // verus!
