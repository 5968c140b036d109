use dfa_lexer::lexer::{process_input, LexicalError, DFA};
use dfa_lexer::nfa::NFA;
use dfa_lexer::subset::{determinize, subset_construction};
use dfa_lexer::tokens::Token;

fn dfa_accepts(dfa: &DFA, w: &str) -> bool {
    let mut s = dfa.start;
    for c in w.chars() {
        match dfa.step(s, c) {
            Some(t) => s = t,
            None => return false,
        }
    }
    dfa.accept.contains_key(&s)
}

/// (a|b)*abb with epsilon edges (Thompson-style).
fn abb() -> NFA {
    let mut n = NFA::new(0);
    n.add_transition(0, None, 1);
    n.add_transition(0, None, 7);
    n.add_transition(1, None, 2);
    n.add_transition(1, None, 4);
    n.add_transition(2, Some('a'), 3);
    n.add_transition(4, Some('b'), 5);
    n.add_transition(3, None, 6);
    n.add_transition(5, None, 6);
    n.add_transition(6, None, 1);
    n.add_transition(6, None, 7);
    n.add_transition(7, Some('a'), 8);
    n.add_transition(8, Some('b'), 9);
    n.add_transition(9, Some('b'), 10);
    n.add_accept(10, "ABB".to_string());
    n
}

#[test]
fn closure_follows_epsilon_cycles() {
    let mut n = NFA::new(0);
    n.add_transition(0, None, 1);
    n.add_transition(1, None, 2);
    n.add_transition(2, None, 0);
    n.add_transition(2, None, 3);
    n.add_transition(3, Some('x'), 4);
    assert_eq!(n.epsilon_closure(&vec![0]), vec![0, 1, 2, 3]);
    assert_eq!(n.epsilon_closure(&vec![3]), vec![3]);
    assert_eq!(n.epsilon_closure(&vec![4, 2]), vec![0, 1, 2, 3, 4]);
    assert_eq!(n.epsilon_closure(&vec![]), Vec::<usize>::new());
}

#[test]
fn closure_is_idempotent() {
    let n = abb();
    for s in 0..11usize {
        let once = n.epsilon_closure(&vec![s]);
        let twice = n.epsilon_closure(&once);
        assert_eq!(once, twice);
    }
}

#[test]
fn closure_contains_its_input() {
    let n = abb();
    let input = vec![9, 3, 42];
    let c = n.epsilon_closure(&input);
    for s in input {
        assert!(c.contains(&s));
    }
    assert_eq!(c, vec![1, 2, 3, 4, 6, 7, 9, 42]);
}

#[test]
fn move_set_takes_one_symbol_edge() {
    let n = abb();
    assert_eq!(n.move_set(&vec![0, 1, 2, 4, 7], 'a'), vec![3, 8]);
    assert_eq!(n.move_set(&vec![0, 1, 2, 4, 7], 'b'), vec![5]);
    assert_eq!(n.move_set(&vec![0], 'a'), Vec::<usize>::new());
    assert_eq!(n.move_set(&vec![2, 4], 'z'), Vec::<usize>::new());
}

#[test]
fn join_labels_in_ascending_order() {
    let mut n = NFA::new(0);
    n.add_accept(5, "Y".to_string());
    n.add_accept(3, "X".to_string());
    assert_eq!(n.join_labels(&vec![1, 3, 5]), Some("X, Y".to_string()));
    assert_eq!(n.join_labels(&vec![5]), Some("Y".to_string()));
    assert_eq!(n.join_labels(&vec![0, 1]), None);
}

#[test]
fn construction_numbers_states_breadth_first() {
    let (dfa, sets) = determinize(&abb(), &vec!['a', 'b']);
    assert_eq!(dfa.start, 0);
    assert_eq!(
        sets,
        vec![
            vec![0, 1, 2, 4, 7],
            vec![1, 2, 3, 4, 6, 7, 8],
            vec![1, 2, 4, 5, 6, 7],
            vec![1, 2, 4, 5, 6, 7, 9],
            vec![1, 2, 4, 5, 6, 7, 10],
        ]
    );
    let expected = [(0, 'a', 1), (0, 'b', 2), (1, 'a', 1), (1, 'b', 3), (2, 'a', 1), (2, 'b', 2), (3, 'a', 1), (3, 'b', 4), (4, 'a', 1), (4, 'b', 2)];
    for (s, c, t) in expected {
        assert_eq!(dfa.step(s, c), Some(t));
    }
    assert_eq!(dfa.accept.len(), 1);
    assert_eq!(dfa.accept.get(&4), Some(&"ABB".to_string()));
}

#[test]
fn construction_is_deterministic() {
    let a = determinize(&abb(), &vec!['a', 'b']);
    let b = determinize(&abb(), &vec!['a', 'b']);
    assert_eq!(a.1, b.1);
    assert_eq!(a.0.transitions, b.0.transitions);
    assert_eq!(a.0.accept, b.0.accept);
    assert_eq!(a.0.start, b.0.start);
}

#[test]
fn dfa_language_matches_nfa() {
    let dfa = subset_construction(&abb(), &vec!['a', 'b']);
    let accepted = ["abb", "aabb", "babb", "abababb", "bbbabb"];
    let rejected = ["", "a", "ab", "abba", "bab", "abbb", "ba"];
    for w in accepted {
        assert!(dfa_accepts(&dfa, w), "{}", w);
    }
    for w in rejected {
        assert!(!dfa_accepts(&dfa, w), "{}", w);
    }
}

#[test]
fn merged_accept_states_join_labels() {
    let mut n = NFA::new(0);
    n.add_transition(0, Some('c'), 1);
    n.add_transition(1, None, 5);
    n.add_transition(1, None, 3);
    n.add_accept(3, "X".to_string());
    n.add_accept(5, "Y".to_string());
    let (dfa, sets) = determinize(&n, &vec!['c']);
    assert_eq!(sets, vec![vec![0], vec![1, 3, 5]]);
    assert_eq!(dfa.step(0, 'c'), Some(1));
    assert_eq!(dfa.accept.get(&1), Some(&"X, Y".to_string()));
    assert_eq!(dfa.accept.get(&0), None);
    let tokens = process_input(&dfa, "c c").unwrap();
    assert_eq!(tokens, vec![Token::new("X, Y".to_string(), "c".to_string()); 2]);
}

#[test]
fn accepting_start_without_transitions() {
    let mut n = NFA::new(0);
    n.add_accept(0, "S".to_string());
    let (dfa, sets) = determinize(&n, &vec!['a', 'b']);
    assert_eq!(sets, vec![vec![0]]);
    assert_eq!(dfa.accept.get(&0), Some(&"S".to_string()));
    assert_eq!(dfa.step(0, 'a'), None);
    assert_eq!(dfa.step(0, 'b'), None);
    let err = process_input(&dfa, "a").unwrap_err();
    assert_eq!(err, LexicalError { line: 1, column: 1, ch: 'a' });
    assert_eq!(process_input(&dfa, "  ").unwrap(), vec![]);
}

#[test]
fn empty_alphabet_gives_single_state() {
    let (dfa, sets) = determinize(&abb(), &vec![]);
    assert_eq!(sets, vec![vec![0, 1, 2, 4, 7]]);
    assert_eq!(dfa.step(0, 'a'), None);
    assert!(dfa.accept.is_empty());
}

#[test]
fn unreachable_accept_gives_no_accept_states() {
    let mut n = NFA::new(0);
    n.add_transition(0, Some('a'), 1);
    n.add_accept(7, "Z".to_string());
    let dfa = subset_construction(&n, &vec!['a', 'q']);
    assert!(dfa.accept.is_empty());
    assert_eq!(dfa.step(0, 'a'), Some(1));
    assert_eq!(dfa.step(0, 'q'), None);
}

#[test]
fn symbols_outside_alphabet_are_not_explored() {
    let mut n = NFA::new(0);
    n.add_transition(0, Some('a'), 1);
    n.add_transition(0, Some('b'), 2);
    n.add_accept(2, "B".to_string());
    let (dfa, sets) = determinize(&n, &vec!['a']);
    assert_eq!(sets, vec![vec![0], vec![1]]);
    assert_eq!(dfa.step(0, 'b'), None);
    assert!(dfa.accept.is_empty());
}
