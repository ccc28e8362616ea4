//! The automaton graph representation shared by the NFA and DFA builders:
//! fragments over an arena of states, and the fragment-composition operators
//! of Thompson's construction.

use vstd::prelude::*;

pub mod dfa;
pub mod nfa;
pub mod state;

pub use dfa::DFA;
pub use nfa::NFA;

use state::{
    all_lt, falses, spec_dfs, sv_connect, Edge, Graph, State, StateV,
};
use state::symbols::Symbol;

verus! {

/// One compiled fragment: a pair of node indices into a [`Graph`].
///
/// `start_state` is where the fragment begins; `end_state` is its single
/// accepting placeholder, possibly rewritten later when the fragment is
/// spliced into a larger one.
#[derive(Clone, Copy, Debug)]
pub struct Automaton {
    pub start_state: usize,
    pub end_state: usize,
}

/// The graph and fragment a fresh two-node transition fragment leaves
/// behind: an accepting end node, then a start node with one edge labeled
/// `symbol` into it.
pub open spec fn sv_transition_fragment(nodes: Seq<StateV>, symbol: Symbol) -> (Seq<
    StateV,
>, Automaton) {
    let end_id = nodes.len() as usize;
    let start_id = (nodes.len() + 1) as usize;
    (
        nodes.push(StateV::Accept(end_id)).push(
            StateV::Transition(seq![(symbol, Some(end_id))], start_id),
        ),
        Automaton { start_state: start_id, end_state: end_id },
    )
}

/// The graph and fragment concatenation leaves behind: the first fragment's
/// end is connected into the second fragment's start.
pub open spec fn sv_concat(nodes: Seq<StateV>, from: Automaton, to: Automaton) -> (Seq<
    StateV,
>, Automaton) {
    (
        nodes.update(
            from.end_state as int,
            sv_connect(nodes[from.end_state as int], to.start_state),
        ),
        Automaton { start_state: from.start_state, end_state: to.end_state },
    )
}

/// The graph and fragment alternation leaves behind: a fresh branch point
/// epsilon-linked to both starts, a fresh shared end, and both fragment ends
/// connected to that end.
pub open spec fn sv_alternate(nodes: Seq<StateV>, a1: Automaton, a2: Automaton) -> (Seq<
    StateV,
>, Automaton) {
    let start_id = nodes.len() as usize;
    let end_id = (nodes.len() + 1) as usize;
    let n1 = nodes.push(
        StateV::Transition(
            seq![
                (Symbol::Epsilon, Some(a1.start_state)),
                (Symbol::Epsilon, Some(a2.start_state)),
            ],
            start_id,
        ),
    ).push(StateV::Accept(end_id));
    let n2 = n1.update(a1.end_state as int, sv_connect(n1[a1.end_state as int], end_id));
    let n3 = n2.update(a2.end_state as int, sv_connect(n2[a2.end_state as int], end_id));
    (n3, Automaton { start_state: start_id, end_state: end_id })
}

/// The graph and fragment zero-or-more leaves behind: a fresh shared end, a
/// fresh branch point into the fragment and to the end, and the fragment's
/// own end rewritten in place to branch back to the fragment's start and to
/// the end — the rewrite that introduces cycles.
pub open spec fn sv_zero_or_more(nodes: Seq<StateV>, a: Automaton) -> (Seq<StateV>, Automaton) {
    let end_id = nodes.len() as usize;
    let start_id = (nodes.len() + 1) as usize;
    let n1 = nodes.push(StateV::Accept(end_id)).push(
        StateV::Transition(
            seq![(Symbol::Epsilon, Some(a.start_state)), (Symbol::Epsilon, Some(end_id))],
            start_id,
        ),
    );
    let n2 = n1.update(
        a.end_state as int,
        StateV::Transition(
            seq![(Symbol::Epsilon, Some(a.start_state)), (Symbol::Epsilon, Some(end_id))],
            a.end_state,
        ),
    );
    (n2, Automaton { start_state: start_id, end_state: end_id })
}

/// Inserts into `acc` every concrete character of `edges` not already
/// present, in edge order.
pub open spec fn alpha_insert(acc: Seq<char>, edges: Seq<Edge>) -> Seq<char>
    decreases edges.len(),
{
    if edges.len() == 0 {
        acc
    } else {
        let acc1 = alpha_insert(acc, edges.drop_last());
        match edges.last().0 {
            Symbol::Alphabet(c) => if acc1.contains(c) {
                acc1
            } else {
                acc1.push(c)
            },
            _ => acc1,
        }
    }
}

/// The distinct concrete characters on the edges of the nodes listed in
/// `order`, in first-encounter order. Class and epsilon labels never
/// contribute.
pub open spec fn spec_alphabet_from(nodes: Seq<StateV>, order: Seq<usize>, acc: Seq<char>) -> Seq<
    char,
>
    decreases order.len(),
{
    if order.len() == 0 {
        acc
    } else {
        spec_alphabet_from(
            nodes,
            order.drop_first(),
            alpha_insert(acc, nodes[order.first() as int].edges()),
        )
    }
}

/// The alphabet of the fragment `a` in graph `nodes`: the distinct concrete
/// characters reachable from its start, in depth-first encounter order.
pub open spec fn spec_alphabet(nodes: Seq<StateV>, start: usize) -> Seq<char> {
    spec_alphabet_from(
        nodes,
        spec_dfs(nodes, seq![start], falses(nodes.len()), Seq::empty()),
        Seq::empty(),
    )
}

/// Whether `v` holds the character `c`.
fn contains_char(v: &Vec<char>, c: char) -> (r: bool)
    ensures
        r == v@.contains(c),
{
    let mut i: usize = 0;
    while i < v.len()
        invariant
            i <= v@.len(),
            forall|k: int| 0 <= k < i ==> v@[k] != c,
        decreases v@.len() - i,
    {
        if v[i] == c {
            return true;
        }
        i += 1;
    }
    false
}

impl Automaton {
    /// Both indices point into a graph of `len` nodes.
    pub open spec fn wf(self, len: int) -> bool {
        self.start_state < len && self.end_state < len
    }

    /// A fresh two-node fragment: one edge labeled `symbol` from a fresh
    /// start node to a fresh accepting node.
    pub fn automaton_transition(g: &mut Graph, symbol: &Symbol) -> (a: Automaton)
        requires
            old(g).wf(),
        ensures
            final(g).wf(),
            (final(g)@, a) == sv_transition_fragment(old(g)@, *symbol),
            final(g)@.len() == old(g)@.len() + 2,
            a.wf(final(g)@.len() as int),
    {
        let end = State::new_accept_ref(g);
        let transition = State::new_transition_ref(g, *symbol, Some(end));
        proof {
            assert(g@ =~= sv_transition_fragment(old(g)@, *symbol).0);
        }
        Automaton { start_state: transition, end_state: end }
    }

    /// Concatenation: connects `from`'s end into `to`'s start; the result
    /// runs from `from`'s start to `to`'s end.
    pub fn concat_automaton(g: &mut Graph, from: &Automaton, to: &Automaton) -> (a: Automaton)
        requires
            old(g).wf(),
            from.wf(old(g)@.len() as int),
            to.wf(old(g)@.len() as int),
        ensures
            final(g).wf(),
            (final(g)@, a) == sv_concat(old(g)@, *from, *to),
            final(g)@.len() == old(g)@.len(),
            a.wf(final(g)@.len() as int),
    {
        State::connect(g, from.end_state, to.start_state);
        proof {
            assert(g@ =~= sv_concat(old(g)@, *from, *to).0);
        }
        Automaton { start_state: from.start_state, end_state: to.end_state }
    }

    /// Concatenation of two fragments.
    pub fn automaton_concat(g: &mut Graph, automaton1: &Automaton, automaton2: &Automaton) -> (a:
        Automaton)
        requires
            old(g).wf(),
            automaton1.wf(old(g)@.len() as int),
            automaton2.wf(old(g)@.len() as int),
        ensures
            final(g).wf(),
            (final(g)@, a) == sv_concat(old(g)@, *automaton1, *automaton2),
            final(g)@.len() == old(g)@.len(),
            a.wf(final(g)@.len() as int),
    {
        Automaton::concat_automaton(g, automaton1, automaton2)
    }

    /// Alternation: a fresh branch point epsilon-linked to both starts, and
    /// a fresh shared end both fragment ends are connected to.
    pub fn automaton_alternate(g: &mut Graph, automaton1: &Automaton, automaton2: &Automaton) -> (a:
        Automaton)
        requires
            old(g).wf(),
            automaton1.wf(old(g)@.len() as int),
            automaton2.wf(old(g)@.len() as int),
        ensures
            final(g).wf(),
            (final(g)@, a) == sv_alternate(old(g)@, *automaton1, *automaton2),
            final(g)@.len() == old(g)@.len() + 2,
            a.wf(final(g)@.len() as int),
    {
        let new_start_state = State::new_split_ref(
            g,
            Some(automaton1.start_state),
            Some(automaton2.start_state),
        );
        let new_end = State::new_accept_ref(g);
        State::connect(g, automaton1.end_state, new_end);
        State::connect(g, automaton2.end_state, new_end);
        proof {
            assert(g@ =~= sv_alternate(old(g)@, *automaton1, *automaton2).0);
        }
        Automaton { start_state: new_start_state, end_state: new_end }
    }

    /// Zero-or-more repetition: a fresh shared end, a fresh branch point
    /// into the fragment and to the end, and the fragment's end rewritten in
    /// place to branch back into the fragment — this is what introduces
    /// cycles in the graph.
    pub fn automaton_zero_or_one(g: &mut Graph, automaton: &Automaton) -> (a: Automaton)
        requires
            old(g).wf(),
            automaton.wf(old(g)@.len() as int),
        ensures
            final(g).wf(),
            (final(g)@, a) == sv_zero_or_more(old(g)@, *automaton),
            final(g)@.len() == old(g)@.len() + 2,
            a.wf(final(g)@.len() as int),
    {
        let new_end = State::new_accept_ref(g);
        let new_start = State::new_split_ref(g, Some(automaton.start_state), Some(new_end));
        g.rewrite_split(automaton.end_state, automaton.start_state, new_end);
        proof {
            assert(g@ =~= sv_zero_or_more(old(g)@, *automaton).0);
        }
        Automaton { start_state: new_start, end_state: new_end }
    }

    /// The distinct concrete characters appearing on edges reachable from
    /// this fragment's start, in depth-first encounter order. Class and
    /// epsilon labels never contribute.
    pub fn get_alphabet(&self, g: &Graph) -> (r: Vec<char>)
        requires
            g.wf(),
            self.wf(g@.len() as int),
        ensures
            r@ == spec_alphabet(g@, self.start_state),
    {
        let flatten_graph = State::dfs(g, self.start_state);
        let ghost order = flatten_graph@;
        let mut acc: Vec<char> = Vec::new();
        let mut i: usize = 0;
        proof {
            assert(order.skip(0) =~= order);
        }
        while i < flatten_graph.len()
            invariant
                g.wf(),
                i <= order.len(),
                flatten_graph@ == order,
                all_lt(order, g@.len() as int),
                spec_alphabet_from(g@, order.skip(i as int), acc@) == spec_alphabet(
                    g@,
                    self.start_state,
                ),
            decreases order.len() - i,
        {
            let node = flatten_graph[i];
            let ghost acc_pre = acc@;
            proof {
                assert(order.skip(i as int).first() == order[i as int]);
                assert(order.skip(i as int).drop_first() =~= order.skip(i as int + 1));
            }
            match &g.nodes[node] {
                State::Accept(_) => {
                    proof {
                        assert(alpha_insert(acc_pre, g@[node as int].edges())
                            == acc_pre);
                    }
                },
                State::Transition(edges, _) => {
                    let mut j: usize = 0;
                    while j < edges.len()
                        invariant
                            j <= edges@.len(),
                            acc@ == alpha_insert(acc_pre, edges@.take(j as int)),
                        decreases edges@.len() - j,
                    {
                        proof {
                            assert(edges@.take(j as int + 1).drop_last() =~= edges@.take(
                                j as int,
                            ));
                            assert(edges@.take(j as int + 1).last() == edges@[j as int]);
                        }
                        match edges[j].0 {
                            Symbol::Alphabet(c) => {
                                if !contains_char(&acc, c) {
                                    acc.push(c);
                                }
                            },
                            _ => {},
                        }
                        j += 1;
                    }
                    proof {
                        assert(edges@.take(edges@.len() as int) =~= edges@);
                    }
                },
            }
            i += 1;
        }
        proof {
            assert(order.skip(order.len() as int) =~= Seq::<usize>::empty());
        }
        acc
    }

    /// Structural equality of two fragments in their graphs: the flattened
    /// reachable node lists agree node for node on labels and on whether
    /// each edge has a target, identities disregarded; the two start nodes
    /// and the two end nodes agree the same way.
    pub fn same_structure(&self, g: &Graph, other: &Automaton, other_g: &Graph) -> (r: bool)
        requires
            g.wf(),
            self.wf(g@.len() as int),
            other_g.wf(),
            other.wf(other_g@.len() as int),
        ensures
            r == spec_same_structure(g@, *self, other_g@, *other),
    {
        let f1 = State::dfs(g, self.start_state);
        let f2 = State::dfs(other_g, other.start_state);
        if f1.len() != f2.len() {
            return false;
        }
        let mut k: usize = 0;
        while k < f1.len()
            invariant
                g.wf(),
                other_g.wf(),
                k <= f1@.len(),
                f1@.len() == f2@.len(),
                all_lt(f1@, g@.len() as int),
                all_lt(f2@, other_g@.len() as int),
                f1@ == spec_dfs(g@, seq![self.start_state], falses(g@.len()), Seq::empty()),
                f2@ == spec_dfs(
                    other_g@,
                    seq![other.start_state],
                    falses(other_g@.len()),
                    Seq::empty(),
                ),
                forall|m: int|
                    0 <= m < k ==> sv_state_eq(
                        g@[#[trigger] f1@[m] as int],
                        other_g@[f2@[m] as int],
                    ),
            decreases f1@.len() - k,
        {
            if !state_eq(&g.nodes[f1[k]], &other_g.nodes[f2[k]]) {
                proof {
                    assert(!sv_state_eq(
                        g@[f1@[k as int] as int],
                        other_g@[f2@[k as int] as int],
                    ));
                }
                return false;
            }
            k += 1;
        }
        if !state_eq(&g.nodes[self.start_state], &other_g.nodes[other.start_state]) {
            return false;
        }
        if !state_eq(&g.nodes[self.end_state], &other_g.nodes[other.end_state]) {
            return false;
        }
        true
    }
}

/// Structural equality of two nodes: same variant; for transition nodes the
/// edge lists agree position by position on the label and on whether a
/// target is present. Identities are disregarded.
pub open spec fn sv_state_eq(a: StateV, b: StateV) -> bool {
    match (a, b) {
        (StateV::Transition(e1, _), StateV::Transition(e2, _)) => {
            &&& e1.len() == e2.len()
            &&& forall|k: int|
                0 <= k < e1.len() ==> (#[trigger] e1[k]).0 == e2[k].0 && (e1[k].1 is Some) == (
                e2[k].1 is Some)
        },
        (StateV::Accept(_), StateV::Accept(_)) => true,
        _ => false,
    }
}

/// Structural equality of two fragments: see [`Automaton::same_structure`].
pub open spec fn spec_same_structure(
    g1: Seq<StateV>,
    a1: Automaton,
    g2: Seq<StateV>,
    a2: Automaton,
) -> bool {
    let f1 = spec_dfs(g1, seq![a1.start_state], falses(g1.len()), Seq::empty());
    let f2 = spec_dfs(g2, seq![a2.start_state], falses(g2.len()), Seq::empty());
    &&& f1.len() == f2.len()
    &&& forall|k: int|
        0 <= k < f1.len() ==> sv_state_eq(g1[#[trigger] f1[k] as int], g2[f2[k] as int])
    &&& sv_state_eq(g1[a1.start_state as int], g2[a2.start_state as int])
    &&& sv_state_eq(g1[a1.end_state as int], g2[a2.end_state as int])
}

/// Structural equality of two nodes.
fn state_eq(s1: &State, s2: &State) -> (r: bool)
    ensures
        r == sv_state_eq(s1@, s2@),
{
    match s1 {
        State::Accept(_) => {
            matches!(s2, State::Accept(_))
        },
        State::Transition(e1, _) => {
            match s2 {
                State::Accept(_) => false,
                State::Transition(e2, _) => {
                    proof {
                        assert(s1@->Transition_0 == e1@);
                        assert(s2@->Transition_0 == e2@);
                    }
                    if e1.len() != e2.len() {
                        return false;
                    }
                    let mut k: usize = 0;
                    while k < e1.len()
                        invariant
                            k <= e1@.len(),
                            e1@.len() == e2@.len(),
                            s1@ is Transition,
                            s2@ is Transition,
                            s1@->Transition_0 == e1@,
                            s2@->Transition_0 == e2@,
                            forall|m: int|
                                0 <= m < k ==> (#[trigger] e1@[m]).0 == e2@[m].0 && (e1@[m].1
                                    is Some) == (e2@[m].1 is Some),
                        decreases e1@.len() - k,
                    {
                        let label_eq = e1[k].0 == e2[k].0;
                        let target_eq = e1[k].1.is_some() == e2[k].1.is_some();
                        if !label_eq || !target_eq {
                            proof {
                                assert(e1@[k as int].0 != e2@[k as int].0 || (e1@[k as int].1
                                    is Some) != (e2@[k as int].1 is Some));
                                assert(s1@->Transition_0 == e1@);
                                assert(s2@->Transition_0 == e2@);
                                assert(!sv_state_eq(s1@, s2@));
                            }
                            return false;
                        }
                        k += 1;
                    }
                    true
                },
            }
        },
    }
}

} // verus!
