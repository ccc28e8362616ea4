use parse::regex::automaton::{Automaton, DFA};
use parse::regex::automaton::state::State;
use parse::regex::automaton::state::Graph;
use parse::regex::automaton::state::symbols::Symbol;

#[test]
fn concat_1() {
    let re = "abc";
    let dfa = DFA::construct_dfa(&re.to_string()).expect("Expect successful dfa construction");
    let mut g = Graph::new();
    let accept = State::new_accept_ref(&mut g);
    let to_accept = State::new_transition_ref(&mut g, Symbol::new_epsilon(), Some(accept));
    let c = State::new_transition_ref(&mut g, Symbol::new_alphabet('c'), Some(to_accept));
    let b = State::new_transition_ref(&mut g, Symbol::new_alphabet('b'), Some(c));
    let a = State::new_transition_ref(&mut g, Symbol::new_alphabet('a'), Some(b));
    let expect = DFA { graph: g, automaton: Automaton { start_state: a, end_state: accept } };

    assert!(dfa.same_structure(&expect))
}

#[test]
fn or_1() {
    // `ab|c` is `(ab)|c`: the start state branches on `a` toward `b` and on
    // `c` straight toward acceptance.
    let re = "ab|c";
    let dfa = DFA::construct_dfa(&re.to_string()).expect("Expect successful dfa construction");
    let mut g = Graph::new();
    let accept = State::new_accept_ref(&mut g);
    let to_accept = State::new_transition_ref(&mut g, Symbol::new_epsilon(), Some(accept));
    let b = State::new_transition_ref(&mut g, Symbol::new_alphabet('b'), Some(to_accept));
    let start = State::new_transition_ref(&mut g, Symbol::new_alphabet('a'), Some(b));
    State::insert_transition_ord(&mut g, start, Symbol::new_alphabet('c'), to_accept);
    let expect = DFA { graph: g, automaton: Automaton { start_state: start, end_state: accept } };

    assert!(dfa.same_structure(&expect))
}

#[test]
fn asterisk_1() {
    let re = "ab*c";
    let dfa = DFA::construct_dfa(&re.to_string()).expect("Expect successful dfa construction");
    let mut g = Graph::new();
    let accept = State::new_accept_ref(&mut g);
    let to_accept = State::new_transition_ref(&mut g, Symbol::new_epsilon(), Some(accept));
    let bs_c = State::new_transition_ref(&mut g, Symbol::new_alphabet('c'), Some(to_accept));
    State::insert_transition_ord(&mut g, bs_c, Symbol::new_alphabet('b'), bs_c);
    let a = State::new_transition_ref(&mut g, Symbol::new_alphabet('a'), Some(bs_c));
    let expect = DFA { graph: g, automaton: Automaton { start_state: a, end_state: accept } };

    assert!(dfa.same_structure(&expect))
}
