use dfa_lexer::records::{accept_map, read_accept_states};

#[test]
fn reads_accept_states_from_json() {
    let m = read_accept_states("[[0, \"Initial\"], [1, \"double quotes\"], [11, \"ID\"]]").unwrap();
    assert_eq!(m.len(), 3);
    assert_eq!(m.get(&0), Some(&"Initial".to_string()));
    assert_eq!(m.get(&1), Some(&"double quotes".to_string()));
    assert_eq!(m.get(&11), Some(&"ID".to_string()));
}

#[test]
fn later_label_replaces_earlier() {
    let m = read_accept_states("[[2, \"A\"], [3, \"B\"], [2, \"C\"]]").unwrap();
    assert_eq!(m.len(), 2);
    assert_eq!(m.get(&2), Some(&"C".to_string()));
    assert_eq!(m.get(&3), Some(&"B".to_string()));
}

#[test]
fn empty_json_array_gives_no_accept_states() {
    assert!(read_accept_states("[]").unwrap().is_empty());
}

#[test]
fn malformed_json_is_an_error() {
    assert!(read_accept_states("[[0, \"A\"").is_err());
    assert!(read_accept_states("{\"0\": \"A\"}").is_err());
    assert!(read_accept_states("[[-1, \"A\"]]").is_err());
}

#[test]
fn accept_map_from_pairs() {
    let m = accept_map(&vec![(4, "X".to_string()), (4, "Y".to_string()), (0, "Z".to_string())]);
    assert_eq!(m.len(), 2);
    assert_eq!(m.get(&4), Some(&"Y".to_string()));
    assert_eq!(m.get(&0), Some(&"Z".to_string()));
}
