use parse::regex::automaton::{Automaton, NFA};
use parse::regex::automaton::state::State;
use parse::regex::automaton::state::Graph;
use parse::regex::automaton::state::symbols::Symbol;

#[test]
fn build_concat1() {
    let re = "abc";
    let mut g = Graph::new();
    let accept1 = State::new_accept_ref(&mut g);
    let accept2 = State::new_accept_ref(&mut g);
    let accept3 = State::new_accept_ref(&mut g);
    let a1s = State::new_transition_ref(&mut g, Symbol::new_alphabet('a'), Some(accept1));
    let a2s = State::new_transition_ref(&mut g, Symbol::new_alphabet('b'), Some(accept2));
    let a3s = State::new_transition_ref(&mut g, Symbol::new_alphabet('c'), Some(accept3));
    let a1 = Automaton { start_state: a1s, end_state: accept1 };
    let a2 = Automaton { start_state: a2s, end_state: accept2 };
    let a3 = Automaton { start_state: a3s, end_state: accept3 };
    let a = Automaton::concat_automaton(&mut g, &a1, &a2);
    let automaton = Automaton::concat_automaton(&mut g, &a, &a3);
    let expect = NFA { graph: g, automaton };
    let result = NFA::construct_nfa(&re.to_string()).unwrap();

    assert!(result.same_structure(&expect))
}

#[test]
fn build_or1() {
    // `ab|c` is `(ab)|c`: the alternation joins the concatenated `ab` with
    // `c`.
    let re = "ab|c";
    let mut g = Graph::new();
    let accept1 = State::new_accept_ref(&mut g);
    let accept2 = State::new_accept_ref(&mut g);
    let accept3 = State::new_accept_ref(&mut g);
    let a1s = State::new_transition_ref(&mut g, Symbol::new_alphabet('a'), Some(accept1));
    let a2s = State::new_transition_ref(&mut g, Symbol::new_alphabet('b'), Some(accept2));
    let a3s = State::new_transition_ref(&mut g, Symbol::new_alphabet('c'), Some(accept3));
    let a1 = Automaton { start_state: a1s, end_state: accept1 };
    let a2 = Automaton { start_state: a2s, end_state: accept2 };
    let a3 = Automaton { start_state: a3s, end_state: accept3 };
    let ab = Automaton::concat_automaton(&mut g, &a1, &a2);
    let automaton = Automaton::automaton_alternate(&mut g, &ab, &a3);
    let expect = NFA { graph: g, automaton };
    let result = NFA::construct_nfa(&re.to_string()).unwrap();

    assert!(result.same_structure(&expect))
}

#[test]
fn build_asterisk() {
    // `ab*|c` is `(a(b*))|c`.
    let re = "ab*|c";
    let mut g = Graph::new();
    let accept1 = State::new_accept_ref(&mut g);
    let accept2 = State::new_accept_ref(&mut g);
    let accept3 = State::new_accept_ref(&mut g);
    let a1s = State::new_transition_ref(&mut g, Symbol::new_alphabet('a'), Some(accept1));
    let a2s = State::new_transition_ref(&mut g, Symbol::new_alphabet('b'), Some(accept2));
    let a3s = State::new_transition_ref(&mut g, Symbol::new_alphabet('c'), Some(accept3));
    let a1 = Automaton { start_state: a1s, end_state: accept1 };
    let a2 = Automaton { start_state: a2s, end_state: accept2 };
    let a3 = Automaton { start_state: a3s, end_state: accept3 };
    let a2 = Automaton::automaton_zero_or_one(&mut g, &a2);
    let ab = Automaton::automaton_concat(&mut g, &a1, &a2);
    let automaton = Automaton::automaton_alternate(&mut g, &ab, &a3);
    let expect = NFA { graph: g, automaton };
    let result = NFA::construct_nfa(&re.to_string()).unwrap();

    assert!(result.same_structure(&expect))
}

#[test]
fn build_paren() {
    let re = "(ab)*|c";
    let mut g = Graph::new();
    let accept1 = State::new_accept_ref(&mut g);
    let accept2 = State::new_accept_ref(&mut g);
    let accept3 = State::new_accept_ref(&mut g);
    let a1s = State::new_transition_ref(&mut g, Symbol::new_alphabet('a'), Some(accept1));
    let a2s = State::new_transition_ref(&mut g, Symbol::new_alphabet('b'), Some(accept2));
    let a3s = State::new_transition_ref(&mut g, Symbol::new_alphabet('c'), Some(accept3));
    let a1 = Automaton { start_state: a1s, end_state: accept1 };
    let a2 = Automaton { start_state: a2s, end_state: accept2 };
    let a3 = Automaton { start_state: a3s, end_state: accept3 };
    let ab = Automaton::concat_automaton(&mut g, &a1, &a2);
    let ab = Automaton::automaton_zero_or_one(&mut g, &ab);
    let automaton = Automaton::automaton_alternate(&mut g, &ab, &a3);
    let expect = NFA { graph: g, automaton };
    let result = NFA::construct_nfa(&re.to_string()).unwrap();

    assert!(result.same_structure(&expect))
}

#[test]
fn build_char_class_1() {
    let re = "(a.)*|c";
    let mut g = Graph::new();
    let accept1 = State::new_accept_ref(&mut g);
    let accept2 = State::new_accept_ref(&mut g);
    let accept3 = State::new_accept_ref(&mut g);
    let a1s = State::new_transition_ref(&mut g, Symbol::new_alphabet('a'), Some(accept1));
    let a2s = State::new_transition_ref(&mut g, Symbol::new_all_char(), Some(accept2));
    let a3s = State::new_transition_ref(&mut g, Symbol::new_alphabet('c'), Some(accept3));
    let a1 = Automaton { start_state: a1s, end_state: accept1 };
    let a2 = Automaton { start_state: a2s, end_state: accept2 };
    let a3 = Automaton { start_state: a3s, end_state: accept3 };
    let ab = Automaton::concat_automaton(&mut g, &a1, &a2);
    let ab = Automaton::automaton_zero_or_one(&mut g, &ab);
    let automaton = Automaton::automaton_alternate(&mut g, &ab, &a3);
    let expect = NFA { graph: g, automaton };
    let result = NFA::construct_nfa(&re.to_string()).unwrap();

    assert!(result.same_structure(&expect))
}
