use std::str::FromStr;

use pikevm::regex::{Pass, AST};
use pikevm::regex_dfa::LazyRegexDFA;
use pikevm::regex_nfa::{match_regex_vec, regex_ast_to_rNFA, regex_to_rNFA, replace_match_with, State, StateOffset};

fn accepts(pattern: &str, input: &str) -> bool {
    let nfa = regex_to_rNFA(pattern).unwrap();
    match_regex_vec(nfa, input)
}

#[test]
fn literal_single() {
    assert!(accepts("a", "a"));
    assert!(!accepts("a", "aa"));
    assert!(!accepts("a", ""));
}

#[test]
fn literal_optional() {
    assert!(accepts("a?", ""));
    assert!(accepts("a?", "a"));
    assert!(!accepts("a?", "aa"));
}

#[test]
fn literal_zero_or_more() {
    assert!(accepts("a*", ""));
    assert!(accepts("a*", "aaaa"));
    assert!(!accepts("a*", "aaab"));
}

#[test]
fn literal_one_or_more() {
    assert!(!accepts("a+", ""));
    assert!(accepts("a+", "a"));
    assert!(accepts("a+", "aaa"));
}

#[test]
fn literal_alternation() {
    assert!(accepts("a|b", "a"));
    assert!(accepts("a|b", "b"));
    assert!(!accepts("a|b", "c"));
}

#[test]
fn literal_grouped_alternation() {
    assert!(accepts("(ab)|(cd)", "ab"));
    assert!(accepts("(ab)|(cd)", "cd"));
    assert!(!accepts("(ab)|(cd)", "ac"));
}

#[test]
fn escape_is_literal() {
    assert!(accepts("\\?", "?"));
    assert!(!accepts("\\?", ""));
    assert!(accepts("\\(a\\)", "(a)"));
}

#[test]
fn stacked_quantifiers() {
    assert!(accepts("a?*", ""));
    assert!(accepts("a?*", "a"));
    assert!(accepts("a?*", "aaa"));
    assert!(!accepts("a?*", "b"));
}

#[test]
fn valid_patterns_always_compile() {
    for pat in ["a", "a?", "a*b+", "(a|b)*c", "\\*", "((a))", "a|b|c"] {
        assert!(regex_to_rNFA(pat).is_ok());
    }
}

#[test]
fn error_missing_atom_empty_pattern() {
    let e = Pass::parse("").unwrap_err();
    assert_eq!(e.0, "Missing atom");
    assert_eq!(e.1, 0);
}

#[test]
fn error_missing_atom_after_bar() {
    let e = Pass::parse("a|").unwrap_err();
    assert_eq!(e.0, "Missing atom");
    assert_eq!(e.1, 2);
}

#[test]
fn error_dangling_escape() {
    let e = Pass::parse("a\\").unwrap_err();
    assert_eq!(e.0, "Missing atom");
    assert_eq!(e.1, 2);
}

#[test]
fn error_unmatched_paren() {
    let e = Pass::parse("(ab").unwrap_err();
    assert_eq!(e.0, "Unmatched (");
    assert_eq!(e.1, 0);
}

#[test]
fn error_propagates_through_compiler() {
    let e = regex_to_rNFA("(a").unwrap_err();
    assert_eq!(e.0, "Unmatched (");
    assert_eq!(e.1, 0);
}

#[test]
fn jump_targets_stay_in_range() {
    for pat in ["a", "a?", "a*", "a+", "a|b", "(ab)|(cd)", "(a|b)*c+", "a?*+"] {
        let nfa = regex_to_rNFA(pat).unwrap();
        let n = nfa.len();
        for st in &nfa {
            match *st {
                State::Consume(_, t) => assert!(t <= n),
                State::Branch(x, y) => {
                    assert!(x <= n);
                    assert!(y <= n);
                }
            }
        }
    }
}

#[test]
fn concat_compiles_to_juxtaposition() {
    let left = AST::from_str("a*").unwrap();
    let right = AST::from_str("(b|c)").unwrap();
    let both = AST::Concat(
        Box::new(AST::from_str("a*").unwrap()),
        Box::new(AST::from_str("(b|c)").unwrap()),
    );
    let mut expected = regex_ast_to_rNFA(left);
    expected.extend(regex_ast_to_rNFA(right));
    assert_eq!(regex_ast_to_rNFA(both), expected);
}

#[test]
fn replace_rewrites_both_branch_arms() {
    let mut v = vec![StateOffset::Branch(1, 1)];
    replace_match_with(&mut v, 5);
    assert_eq!(v, vec![StateOffset::Branch(5, 5)]);
}

#[test]
fn concat_folds_to_the_right() {
    let ast = AST::from_str("abc").unwrap();
    match ast {
        AST::Concat(l, r) => {
            assert!(matches!(*l, AST::Letter('a')));
            match *r {
                AST::Concat(l2, r2) => {
                    assert!(matches!(*l2, AST::Letter('b')));
                    assert!(matches!(*r2, AST::Letter('c')));
                }
                _ => panic!("right side of the fold is not a concatenation"),
            }
        }
        _ => panic!("three symbols did not parse to a concatenation"),
    }
}

#[test]
fn matching_is_repeatable() {
    let nfa = regex_to_rNFA("(a|b)*abb").unwrap();
    let first = match_regex_vec(nfa.clone(), "babb");
    let second = match_regex_vec(nfa.clone(), "babb");
    assert_eq!(first, second);
    assert!(first);
    assert!(!match_regex_vec(nfa, "bab"));
}

#[test]
fn pathological_pattern_stays_fast() {
    let mut pattern = String::new();
    for _ in 0..30 {
        pattern.push_str("a?");
    }
    for _ in 0..30 {
        pattern.push('a');
    }
    let nfa = regex_to_rNFA(&pattern).unwrap();
    assert!(match_regex_vec(nfa.clone(), &"a".repeat(30)));
    assert!(match_regex_vec(nfa.clone(), &"a".repeat(45)));
    assert!(match_regex_vec(nfa.clone(), &"a".repeat(60)));
    assert!(!match_regex_vec(nfa.clone(), &"a".repeat(29)));
    assert!(!match_regex_vec(nfa, &"a".repeat(61)));
}

#[test]
fn empty_input_needs_zero_width_pattern() {
    assert!(accepts("a*b*", ""));
    assert!(!accepts("ab", ""));
}

#[test]
fn is_seq_reports_consuming_instructions() {
    assert!(State::Consume('a', 1).is_seq());
    assert!(!State::Branch(0, 1).is_seq());
}

#[test]
fn lazy_dfa_grows_by_one_state() {
    let markers = vec![false, false, true];
    let mut dfa = LazyRegexDFA::new(&markers);
    dfa.new_state(markers.clone());
    dfa.new_state(vec![true, false, false]);
}
