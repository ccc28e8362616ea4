use parse::regex::automaton::DFA;
use parse::regex::transform::to_thompson_postfix;

#[test]
fn literal_whole_string_only() {
    let dfa = DFA::construct_dfa("hello").unwrap();
    assert!(dfa.match_input("hello"));
    assert!(!dfa.match_input("hellox"));
    assert!(!dfa.match_input("hell"));
    assert!(!dfa.match_input(""));
}

#[test]
fn single_literal() {
    let dfa = DFA::construct_dfa("a").unwrap();
    assert!(dfa.match_input("a"));
    assert!(!dfa.match_input("aa"));
    assert!(!dfa.match_input(""));
    assert!(!dfa.match_input("b"));
}

#[test]
fn alternation_binds_loosest() {
    let dfa = DFA::construct_dfa("a|bc").unwrap();
    assert!(dfa.match_input("a"));
    assert!(dfa.match_input("bc"));
    assert!(!dfa.match_input("ab"));
}

#[test]
fn concat_with_repetition() {
    let dfa = DFA::construct_dfa("a(bc)*").unwrap();
    assert!(dfa.match_input("a"));
    assert!(dfa.match_input("abcbc"));
    assert!(!dfa.match_input("ab"));
}

#[test]
fn grouped_alternation_inside_repetition() {
    let dfa = DFA::construct_dfa("(0a(bc)*|d(ef)d*)*(abc)|(123)").unwrap();
    assert!(dfa.match_input("0adefdddd0adefddddabc"));
    assert!(dfa.match_input("123"));
}

#[test]
fn escaped_dot_is_literal() {
    let dfa = DFA::construct_dfa("\\.*abc").unwrap();
    assert!(dfa.match_input(".abc"));
    assert!(dfa.match_input("abc"));
    assert!(dfa.match_input("...abc"));
    assert!(!dfa.match_input("xabc"));
}

#[test]
fn escaped_backslash_is_literal() {
    let dfa = DFA::construct_dfa("\\\\*abc").unwrap();
    assert!(dfa.match_input("\\\\abc"));
    assert!(dfa.match_input("\\abc"));
    assert!(dfa.match_input("abc"));
    assert!(!dfa.match_input(".abc"));
}

#[test]
fn wildcard_matches_any_single_character() {
    let dfa = DFA::construct_dfa("a.c").unwrap();
    for x in ['x', 'a', 'c', '.', '0', '\\', '|', 'z'] {
        let input: String = ['a', x, 'c'].iter().collect();
        assert!(dfa.match_input(&input));
    }
    assert!(!dfa.match_input("ac"));
    assert!(!dfa.match_input("axxc"));
}

#[test]
fn wildcard_repetition() {
    let dfa = DFA::construct_dfa(".*abc").unwrap();
    assert!(dfa.match_input("abc"));
    assert!(dfa.match_input("zzzabc"));
    assert!(dfa.match_input("()|*abc"));
    assert!(!dfa.match_input("ab"));
}

#[test]
fn compiling_twice_accepts_the_same_strings() {
    let d1 = DFA::construct_dfa("a(b|c)*d").unwrap();
    let d2 = DFA::construct_dfa("a(b|c)*d").unwrap();
    assert!(d1.same_structure(&d2));
    for input in ["ad", "abd", "acd", "abcbccd", "a", "d", "abc", "xbd", ""] {
        assert_eq!(d1.match_input(input), d2.match_input(input));
    }
}

#[test]
fn malformed_patterns_fail_to_compile() {
    assert!(DFA::construct_dfa("(ab").is_err());
    assert!(DFA::construct_dfa("").is_err());
    assert!(DFA::construct_dfa("a|").is_err());
    assert!(DFA::construct_dfa("|a").is_err());
    assert!(DFA::construct_dfa("\\").is_err());
    assert!(DFA::construct_dfa("a**").is_err());
    assert!(DFA::construct_dfa("ab)cd").is_err());
    assert!(DFA::construct_dfa("()").is_err());
}

#[test]
fn parse_failures_name_the_reason() {
    assert_eq!(to_thompson_postfix("").unwrap_err(), "expected primary");
    assert_eq!(to_thompson_postfix("a|").unwrap_err(), "expected primary");
    assert_eq!(to_thompson_postfix("*a").unwrap_err(), "expected primary");
    assert_eq!(to_thompson_postfix("\\").unwrap_err(), "dangling escape");
    assert_eq!(to_thompson_postfix("(ab").unwrap_err(), "unmatched grouping");
    assert_eq!(to_thompson_postfix("ab)cd").unwrap_err(), "unmatched grouping");
}

#[test]
fn compile_failures_carry_the_parse_report() {
    assert_eq!(DFA::construct_dfa("").unwrap_err(), "expected primary");
    assert_eq!(DFA::construct_dfa("a|").unwrap_err(), "expected primary");
    assert_eq!(DFA::construct_dfa("\\").unwrap_err(), "dangling escape");
    assert_eq!(DFA::construct_dfa("(ab").unwrap_err(), "unmatched grouping");
    assert_eq!(DFA::construct_dfa("ab)cd").unwrap_err(), "unmatched grouping");
}

#[test]
fn empty_group_fails() {
    assert!(to_thompson_postfix("()").is_err());
    assert!(to_thompson_postfix("a()b").is_err());
}

#[test]
fn nested_groups() {
    let dfa = DFA::construct_dfa("((a))((b)|(c))*").unwrap();
    assert!(dfa.match_input("a"));
    assert!(dfa.match_input("abcb"));
    assert!(!dfa.match_input("b"));
}

#[test]
fn star_matches_empty() {
    let dfa = DFA::construct_dfa("a*").unwrap();
    assert!(dfa.match_input(""));
    assert!(dfa.match_input("a"));
    assert!(dfa.match_input("aaaa"));
    assert!(!dfa.match_input("ab"));
}
