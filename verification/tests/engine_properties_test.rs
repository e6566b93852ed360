use ai_agents::ActionsGenerator;
use ai_agents::Environment;
use ai_agents::IsTerminalState;
use ai_agents::RecursiveStateGenerator;
use ai_agents::RecursiveStateVisitor;
use ai_agents::sequences::RangeAgent;
use ai_agents::sequences::SeqAgent;
use ai_agents::sequences::SeqEnvironment;
use ai_agents::sequences::count_full_seq_tree;

fn count_terminal_states(max_size: usize, agent: RangeAgent) -> usize {
    let env = SeqEnvironment { max_size };
    let mut gen = RecursiveStateGenerator::new(Vec::new(), &env, agent);
    let mut count: usize = 0;
    loop {
        gen.advance();
        if gen.get().is_none() {
            break;
        }
        count = count + 1;
    }
    count
}

// Applying an action and rolling it back restores the state, structurally.
#[test]
fn test_apply_rollback_restores_state() {
    let env = SeqEnvironment { max_size: 4 };
    let mut state: Vec<u8> = vec![3, 1];
    let before = state.clone();
    env.apply(&mut state, &7);
    assert_eq!(state, vec![3, 1, 7]);
    env.rollback(&mut state, &7);
    assert_eq!(state, before);
}

// Branching factor 2 at fixed depth 3 with no pruning: exactly 2^3 = 8
// terminal states are enumerated.
#[test]
fn test_two_by_three_full_enumeration() {
    let agent = RangeAgent { lo: 1, hi: 2, block: 0 };
    assert_eq!(count_terminal_states(3, agent), 8);
}

// Branching factor 2 at depth 3 with a continuation policy that forbids
// exploring below states whose first byte is 1: the left half of the tree is
// suppressed and only 4 of the 8 terminal states remain.
#[test]
fn test_pruning_suppresses_half_of_the_tree() {
    let agent = RangeAgent { lo: 1, hi: 2, block: 1 };
    assert_eq!(count_terminal_states(3, agent), 4);
}

fn reference_preorder_leaves(
    state: &mut Vec<u8>,
    env: &SeqEnvironment,
    agent: &mut RangeAgent,
    out: &mut Vec<Vec<u8>>,
) {
    if env.is_terminal_state(state) {
        out.push(state.clone());
        return;
    }
    for action in agent.generate_actions(state) {
        env.apply(state, &action);
        reference_preorder_leaves(state, env, agent, out);
        env.rollback(state, &action);
    }
}

// The enumeration order equals the order of a naive recursive pre-order
// depth-first traversal that tries the generated actions left to right.
#[test]
fn test_enumeration_order_matches_recursive_reference() {
    let env = SeqEnvironment { max_size: 4 };
    let mut expected: Vec<Vec<u8>> = Vec::new();
    reference_preorder_leaves(
        &mut Vec::new(),
        &env,
        &mut RangeAgent { lo: 1, hi: 3, block: 0 },
        &mut expected,
    );
    assert_eq!(expected.len(), 81);

    let mut gen =
        RecursiveStateGenerator::new(Vec::new(), &env, RangeAgent { lo: 1, hi: 3, block: 0 });
    let mut got: Vec<Vec<u8>> = Vec::new();
    loop {
        gen.advance();
        match gen.get() {
            None => break,
            Some(s) => got.push(s.clone()),
        }
    }
    assert_eq!(got, expected);
}

// The value behind `get` is the engine's own buffer, mutated in place: a
// fresh read after each advance observes the mutated value, and once the
// traversal finishes there is nothing to read.
#[test]
fn test_get_observes_in_place_mutation() {
    let env = SeqEnvironment { max_size: 1 };
    let mut gen =
        RecursiveStateGenerator::new(Vec::new(), &env, RangeAgent { lo: 5, hi: 6, block: 0 });
    gen.advance();
    let first = gen.get().unwrap().clone();
    gen.advance();
    let second = gen.get().unwrap().clone();
    assert_eq!(first, vec![5]);
    assert_eq!(second, vec![6]);
    gen.advance();
    assert!(gen.get().is_none());
    gen.advance();
    assert!(gen.get().is_none());
}

// The proved exhaustive-enumeration count: the full byte-sequence tree with
// branching factor 8 holds 8^depth terminal states.
#[test]
fn test_counted_full_tree_matches_power() {
    assert_eq!(count_full_seq_tree(0), 1);
    assert_eq!(count_full_seq_tree(1), 8);
    assert_eq!(count_full_seq_tree(5), 32768);
}

// Branching factor 1 at depth 50: a single path, so a single terminal
// state, reached with the resume stack 50 deep.
#[test]
fn test_single_branch_deep_tree() {
    let env = SeqEnvironment { max_size: 50 };
    let mut gen =
        RecursiveStateGenerator::new(Vec::new(), &env, RangeAgent { lo: 7, hi: 7, block: 0 });
    let mut count: usize = 0;
    loop {
        gen.advance();
        match gen.get() {
            None => break,
            Some(s) => {
                assert_eq!(s, &vec![7u8; 50]);
                count = count + 1;
            }
        }
    }
    assert_eq!(count, 1);
}

// An agent that generates no action at all marks every node a leaf: with a
// root that is not terminal, nothing is enumerated.
#[test]
fn test_empty_action_range_yields_nothing() {
    let agent = RangeAgent { lo: 2, hi: 1, block: 0 };
    assert_eq!(count_terminal_states(3, agent), 0);
}

// The raw visitor enters the root first and, told to treat every node as a
// leaf, yields the root exactly once before finishing.
#[test]
fn test_visitor_stop_expand_everywhere_yields_root_only() {
    let env = SeqEnvironment { max_size: 5 };
    let mut visitor = RecursiveStateVisitor::new(vec![9], &env, SeqAgent {});
    visitor.advance();
    assert_eq!(visitor.get(), Some(&vec![9u8]));
    visitor.stop_expand_current();
    visitor.advance();
    assert!(visitor.get().is_none());
}
