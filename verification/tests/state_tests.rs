use parse::regex::automaton::Automaton;
use parse::regex::automaton::state::{Graph, State};
use parse::regex::automaton::state::symbols::{Class, Symbol};

#[test]
fn symbol_contains_table() {
    let a = Symbol::new_alphabet('a');
    let b = Symbol::new_alphabet('b');
    let any = Symbol::new_all_char();
    let eps = Symbol::new_epsilon();
    assert!(a.contains(&a));
    assert!(!a.contains(&b));
    assert!(any.contains(&a));
    assert!(any.contains(&b));
    // A class covers another class with a covered tag, but a concrete
    // character never subsumes a class.
    assert!(any.contains(&any));
    assert!(!a.contains(&any));
    assert!(!any.contains(&eps));
    assert!(eps.contains(&eps));
    assert!(!eps.contains(&a));
    assert!(!a.contains(&eps));
    assert_eq!(any, Symbol::CharClass(Class::All));
}

#[test]
fn identities_follow_creation_order() {
    let mut g = Graph::new();
    let n0 = State::new_accept_ref(&mut g);
    let n1 = State::new_transition_ref(&mut g, Symbol::new_alphabet('x'), Some(n0));
    let n2 = State::new_split_ref(&mut g, Some(n1), Some(n0));
    assert_eq!(n0, 0);
    assert_eq!(n1, 1);
    assert_eq!(n2, 2);
    assert_eq!(g.nodes[0].get_id(), 0);
    assert_eq!(g.nodes[1].get_id(), 1);
    assert_eq!(g.nodes[2].get_id(), 2);
}

#[test]
fn connect_redirects_and_rewrites() {
    let mut g = Graph::new();
    let acc = State::new_accept_ref(&mut g);
    let other = State::new_accept_ref(&mut g);
    let t = State::new_transition_ref(&mut g, Symbol::new_alphabet('a'), Some(acc));
    // Redirecting a transition node rewires every edge.
    State::connect(&mut g, t, other);
    assert_eq!(g.nodes[t].delta(Symbol::new_alphabet('a')), vec![other]);
    // Connecting an accepting node rewrites it in place into an epsilon
    // transition, keeping its identity.
    State::connect(&mut g, acc, other);
    assert_eq!(g.nodes[acc].get_id(), acc);
    assert_eq!(g.nodes[acc].delta(Symbol::new_epsilon()), vec![other]);
}

#[test]
fn ordered_insertion_keeps_canonical_edge_order() {
    let mut g = Graph::new();
    let target = State::new_accept_ref(&mut g);
    let node = State::new_transition_ref(&mut g, Symbol::new_epsilon(), Some(target));
    State::insert_transition_ord(&mut g, node, Symbol::new_alphabet('z'), target);
    State::insert_transition_ord(&mut g, node, Symbol::new_alphabet('a'), target);
    State::insert_transition_ord(&mut g, node, Symbol::new_all_char(), target);
    let labels: Vec<Symbol> = g.nodes[node].adjacent().iter().map(|e| e.0).collect();
    assert_eq!(
        labels,
        vec![
            Symbol::Alphabet('a'),
            Symbol::Alphabet('z'),
            Symbol::CharClass(Class::All),
            Symbol::Epsilon,
        ]
    );
}

#[test]
fn unordered_insertion_appends() {
    let mut g = Graph::new();
    let target = State::new_accept_ref(&mut g);
    let node = State::new_transition_ref(&mut g, Symbol::new_alphabet('z'), Some(target));
    State::insert_transition(&mut g, node, Symbol::new_alphabet('a'), target);
    let labels: Vec<Symbol> = g.nodes[node].adjacent().iter().map(|e| e.0).collect();
    assert_eq!(labels, vec![Symbol::Alphabet('z'), Symbol::Alphabet('a')]);
}

#[test]
fn delta_uses_exact_labels() {
    let mut g = Graph::new();
    let t1 = State::new_accept_ref(&mut g);
    let t2 = State::new_accept_ref(&mut g);
    let node = State::new_transition_ref(&mut g, Symbol::new_alphabet('a'), Some(t1));
    State::insert_transition(&mut g, node, Symbol::new_all_char(), t2);
    assert_eq!(g.nodes[node].delta(Symbol::new_alphabet('a')), vec![t1]);
    assert_eq!(g.nodes[node].delta(Symbol::new_all_char()), vec![t2]);
    assert_eq!(g.nodes[node].delta(Symbol::new_alphabet('b')), Vec::<usize>::new());
    // Containment-based lookup also finds the class edge.
    assert_eq!(g.nodes[node].delta_matching('a'), vec![t1, t2]);
    assert_eq!(g.nodes[node].delta_matching('b'), vec![t2]);
}

#[test]
fn follow_epsilon_stops_at_non_epsilon_nodes_and_terminates_on_cycles() {
    let mut g = Graph::new();
    let acc = State::new_accept_ref(&mut g);
    let lit = State::new_transition_ref(&mut g, Symbol::new_alphabet('a'), Some(acc));
    let mid = State::new_split_ref(&mut g, Some(lit), Some(acc));
    let top = State::new_transition_ref(&mut g, Symbol::new_epsilon(), Some(mid));
    // A cycle back to the top must not prevent termination.
    State::insert_transition(&mut g, mid, Symbol::new_epsilon(), top);
    let closure = State::follow_epsilon(&g, top);
    assert_eq!(closure, vec![lit, acc]);
}

#[test]
fn dfs_visits_each_node_once_in_preorder() {
    let mut g = Graph::new();
    let acc = State::new_accept_ref(&mut g);
    let right = State::new_transition_ref(&mut g, Symbol::new_alphabet('b'), Some(acc));
    let left = State::new_transition_ref(&mut g, Symbol::new_alphabet('a'), Some(right));
    let root = State::new_split_ref(&mut g, Some(left), Some(right));
    let order = State::dfs(&g, root);
    assert_eq!(order, vec![root, left, right, acc]);
}

#[test]
fn alphabet_is_deduplicated_and_skips_classes() {
    let mut g = Graph::new();
    let acc = State::new_accept_ref(&mut g);
    let n3 = State::new_transition_ref(&mut g, Symbol::new_alphabet('a'), Some(acc));
    let n2 = State::new_transition_ref(&mut g, Symbol::new_all_char(), Some(n3));
    let n1 = State::new_transition_ref(&mut g, Symbol::new_alphabet('b'), Some(n2));
    let n0 = State::new_transition_ref(&mut g, Symbol::new_alphabet('a'), Some(n1));
    let automaton = Automaton { start_state: n0, end_state: acc };
    let alphabet = automaton.get_alphabet(&g);
    assert_eq!(alphabet, vec!['a', 'b']);
}
