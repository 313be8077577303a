use std::str::FromStr;

use pikevm::regex::AST;
use pikevm::regex_nfa::{
    match_regex_vec, regex_ast_to_rNFA, regex_to_rNFA, replace_match_with, State, StateOffset,
};

#[test]
fn regex_nfa_test_simple() {
    let a = AST::from_str("a").unwrap();

    assert_eq!(regex_ast_to_rNFA(a), vec![StateOffset::Consume('a', 1)])
}

#[test]
fn regex_nfa_test_replace() {
    let mut a = vec![StateOffset::Consume('a', 1), StateOffset::Consume('b', 1)];
    replace_match_with(&mut a, 5);
    assert_eq!(
        a,
        vec![StateOffset::Consume('a', 1), StateOffset::Consume('b', 4)]
    )
}

#[test]
fn regex_nfa_test_concat() {
    let a = AST::from_str("ab").unwrap();

    assert_eq!(
        regex_ast_to_rNFA(a),
        vec![StateOffset::Consume('a', 1), StateOffset::Consume('b', 1)]
    )
}

#[test]
fn regex_nfa_test_opt() {
    let a = AST::from_str("a?").unwrap();

    assert_eq!(
        regex_ast_to_rNFA(a),
        vec![StateOffset::Branch(1, 2), StateOffset::Consume('a', 1)]
    )
}

#[test]
fn regex_nfa_test_oneormore() {
    let a = AST::from_str("a+").unwrap();

    assert_eq!(
        regex_ast_to_rNFA(a),
        vec![StateOffset::Consume('a', 1), StateOffset::Branch(1, -1)]
    )
}

#[test]
fn regex_nfa_test_zeroormore() {
    let a = AST::from_str("a*").unwrap();

    assert_eq!(
        regex_ast_to_rNFA(a),
        vec![StateOffset::Branch(1, 2), StateOffset::Consume('a', -1)]
    )
}

#[test]
fn regex_nfa_test_alter() {
    let a = AST::from_str("a|b").unwrap();

    assert_eq!(
        regex_ast_to_rNFA(a),
        vec![
            StateOffset::Branch(1, 2),
            StateOffset::Consume('a', 2),
            StateOffset::Consume('b', 1)
        ]
    )
}

#[test]
fn regex_nfa_test_alter2() {
    let a = AST::from_str("(ab)|(cd)").unwrap();

    assert_eq!(
        regex_ast_to_rNFA(a),
        vec![
            StateOffset::Branch(1, 3),
            StateOffset::Consume('a', 1),
            StateOffset::Consume('b', 3),
            StateOffset::Consume('c', 1),
            StateOffset::Consume('d', 1)
        ]
    )
}

#[test]
fn test_alter_vec() {
    let a = regex_to_rNFA("(ab)|(cd)").unwrap();

    assert_eq!(
        a,
        vec![
            State::Branch(1, 3),
            State::Consume('a', 2),
            State::Consume('b', 5),
            State::Consume('c', 4),
            State::Consume('d', 5)
        ]
    )
}

#[test]
fn regex_nfa_test_simple_match() {
    let a = regex_to_rNFA("a").unwrap();

    assert!(match_regex_vec(a, "a"))
}

#[test]
fn regex_nfa_test_simple_not_match() {
    let a = regex_to_rNFA("a").unwrap();

    assert!(!match_regex_vec(a, "aa"))
}
