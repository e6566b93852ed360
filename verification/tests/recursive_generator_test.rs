use ai_agents::ActionsGenerator;
use ai_agents::Environment;
use ai_agents::IsTerminalState;
use ai_agents::RecursiveStateGenerator;
use ai_agents::sequences::SeqAgent;
use ai_agents::sequences::SeqEnvironment;

#[test]
fn test_zero_one_recursive_generator() {
    let env = SeqEnvironment { max_size: 10 };
    let mut gen = RecursiveStateGenerator::new(Vec::new(), &env, SeqAgent {});
    let mut count: usize = 0;
    loop {
        gen.advance();
        if gen.get().is_none() {
            break;
        }
        count = count + 1;
    }

    assert_eq!(count, 1073741824);
}

#[test]
fn test_zero_one_initial_is_terminal() {
    let env = SeqEnvironment { max_size: 0 };
    let mut gen = RecursiveStateGenerator::new(Vec::new(), &env, SeqAgent {});

    let mut count = 0;
    loop {
        gen.advance();
        if gen.get().is_none() {
            break;
        }
        count = count + 1;
    }

    assert_eq!(count, 1);
}

fn generate_01_rec<F: FnMut()>(
    state: &mut Vec<u8>,
    env: &SeqEnvironment,
    agent: &mut SeqAgent,
    func: &mut F,
) {
    if env.is_terminal_state(state) {
        func();
        return;
    } else {
        for action in agent.generate_actions(state) {
            env.apply(state, &action);
            generate_01_rec(state, env, agent, func);
            env.rollback(state, &action);
        }
    }
}

#[test]
fn test_zero_one_simple() {
    let env = SeqEnvironment { max_size: 10 };
    let mut count: usize = 0;
    generate_01_rec(&mut Vec::new(), &env, &mut SeqAgent {}, &mut || count += 1);
    assert_eq!(count, 1073741824);
}

#[test]
fn test_zero_one_recursive_generator_take_while() {
    let env = SeqEnvironment { max_size: 3 };
    let mut gen = RecursiveStateGenerator::new(Vec::new(), &env, SeqAgent {});

    let mut count = 0;
    loop {
        gen.advance();
        match gen.get() {
            None => break,
            Some(s) => {
                if !(s[0] != 4) {
                    break;
                }
                count = count + 1;
            }
        }
    }

    assert_eq!(count, 192);
}
