use dfa_lexer::lexer::{compute_line_and_column, process_input, scan_chars, single_char, LexicalError, DFA};
use dfa_lexer::tokens::Token;

fn tok(category: &str, lexeme: &str) -> Token {
    Token::new(category.to_string(), lexeme.to_string())
}

/// Transitions (0,'a')->1, (1,'a')->2; accept {1: "A", 2: "AA"}.
fn double_a() -> DFA {
    let mut dfa = DFA::new(0);
    dfa.add_transition(0, 'a', 1);
    dfa.add_transition(1, 'a', 2);
    dfa.add_accept(1, "A".to_string());
    dfa.add_accept(2, "AA".to_string());
    dfa
}

#[test]
fn test_process_input_accepted() {
    let mut dfa = DFA::new(0);
    dfa.add_transition(0, 'a', 1);
    dfa.add_accept(1, "accepted".to_string());
    let tokens = process_input(&dfa, "a").unwrap();
    assert_eq!(tokens, vec![tok("accepted", "a")]);
}

#[test]
fn longest_match_wins() {
    let tokens = process_input(&double_a(), "aa").unwrap();
    assert_eq!(tokens, vec![tok("AA", "aa")]);
}

#[test]
fn longest_match_then_rest() {
    let tokens = process_input(&double_a(), "aaa").unwrap();
    assert_eq!(tokens, vec![tok("AA", "aa"), tok("A", "a")]);
}

#[test]
fn whitespace_is_skipped() {
    let tokens = process_input(&double_a(), "a  a").unwrap();
    assert_eq!(tokens, vec![tok("A", "a"), tok("A", "a")]);
}

#[test]
fn tabs_newlines_and_unicode_spaces_are_skipped() {
    let tokens = process_input(&double_a(), "\t a\n\u{A0}aa \r\n").unwrap();
    assert_eq!(tokens, vec![tok("A", "a"), tok("AA", "aa")]);
}

#[test]
fn empty_and_blank_input_give_no_tokens() {
    assert_eq!(process_input(&double_a(), "").unwrap(), vec![]);
    assert_eq!(process_input(&double_a(), " \n\t ").unwrap(), vec![]);
}

#[test]
fn error_is_localized() {
    let err = process_input(&double_a(), "a\naZ").unwrap_err();
    assert_eq!(err, LexicalError { line: 2, column: 2, ch: 'Z' });
}

#[test]
fn error_on_first_character() {
    let err = process_input(&double_a(), "b").unwrap_err();
    assert_eq!(err, LexicalError { line: 1, column: 1, ch: 'b' });
}

#[test]
fn backtracks_to_last_accept() {
    // 0 -x-> 1 (accept "X"), 1 -y-> 2 (not accepting), 2 -z-> 3 (accept "XYZ")
    let mut dfa = DFA::new(0);
    dfa.add_transition(0, 'x', 1);
    dfa.add_transition(1, 'y', 2);
    dfa.add_transition(2, 'z', 3);
    dfa.add_accept(1, "X".to_string());
    dfa.add_accept(3, "XYZ".to_string());
    assert_eq!(process_input(&dfa, "xyzx").unwrap(), vec![tok("XYZ", "xyz"), tok("X", "x")]);
    // "xy" then "x": the match from 0 stops at "x", then 'y' starts a failing scan.
    let err = process_input(&dfa, "xyx").unwrap_err();
    assert_eq!(err, LexicalError { line: 1, column: 2, ch: 'y' });
}

#[test]
fn multibyte_characters_are_single_symbols() {
    let mut dfa = DFA::new(0);
    dfa.add_transition(0, 'é', 1);
    dfa.add_transition(1, 'ß', 1);
    dfa.add_accept(1, "W".to_string());
    assert_eq!(process_input(&dfa, "éßß é").unwrap(), vec![tok("W", "éßß"), tok("W", "é")]);
    let err = process_input(&dfa, "é\nßé").unwrap_err();
    assert_eq!(err, LexicalError { line: 2, column: 1, ch: 'ß' });
}

#[test]
fn scan_chars_uses_given_whitespace_flags() {
    let chars = vec!['a', '_', 'a'];
    let ws = vec![false, true, false];
    let tokens = scan_chars(&double_a(), &chars, &ws).unwrap();
    assert_eq!(tokens, vec![tok("A", "a"), tok("A", "a")]);
    let err = scan_chars(&double_a(), &chars, &vec![false, false, false]).unwrap_err();
    assert_eq!(err, LexicalError { line: 1, column: 2, ch: '_' });
}

#[test]
fn line_and_column() {
    let input: Vec<char> = "ab\ncd\n\nx".chars().collect();
    assert_eq!(compute_line_and_column(&input, 0), (1, 1));
    assert_eq!(compute_line_and_column(&input, 1), (1, 2));
    assert_eq!(compute_line_and_column(&input, 2), (1, 3));
    assert_eq!(compute_line_and_column(&input, 3), (2, 1));
    assert_eq!(compute_line_and_column(&input, 4), (2, 2));
    assert_eq!(compute_line_and_column(&input, 6), (3, 1));
    assert_eq!(compute_line_and_column(&input, 7), (4, 1));
}

#[test]
fn transitions_replace_and_lookup() {
    let mut dfa = DFA::new(3);
    assert_eq!(dfa.start, 3);
    assert_eq!(dfa.step(3, 'q'), None);
    dfa.add_transition(3, 'q', 4);
    dfa.add_transition(3, 'r', 5);
    assert_eq!(dfa.step(3, 'q'), Some(4));
    dfa.add_transition(3, 'q', 6);
    assert_eq!(dfa.step(3, 'q'), Some(6));
    assert_eq!(dfa.step(3, 'r'), Some(5));
    assert_eq!(dfa.step(4, 'q'), None);
}

#[test]
fn single_char_fields() {
    assert_eq!(single_char("a"), Some('a'));
    assert_eq!(single_char("é"), Some('é'));
    assert_eq!(single_char(""), None);
    assert_eq!(single_char("ab"), None);
}

#[test]
fn token_new_keeps_fields() {
    let t = Token::new("ID".to_string(), "x1".to_string());
    assert_eq!(t.token_type, "ID");
    assert_eq!(t.lexeme, "x1");
}
