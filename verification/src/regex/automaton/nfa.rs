//! Thompson's construction: one pass over the postfix operator sequence,
//! maintaining a stack of automaton fragments.

use vstd::prelude::*;
use vstd::pervasive::unreached;

use super::{
    sv_alternate, sv_concat, sv_transition_fragment, sv_zero_or_more, Automaton,
};
use super::state::{Graph, StateV};
use super::state::symbols::{Class, Symbol};
use crate::regex::transform::{
    is_single, seq_effect, spec_parse, spec_parse_err, to_thompson_postfix, ThompsonOp,
};

verus! {

/// A nondeterministic finite automaton: one graph and one fragment whose end
/// node's identity is the success identity tested by determinization.
#[derive(Debug)]
pub struct NFA {
    pub graph: Graph,
    pub automaton: Automaton,
}

/// One step of the Thompson fold: a literal or wildcard pushes a fresh
/// two-node fragment; repetition rewires the top fragment; alternation and
/// concatenation combine the top two (rightmost popped first). Parenthesis
/// tokens never reach the fold and leave the state unchanged, as does an
/// operator finding too few fragments — the parser's balanced output keeps
/// both unreachable.
pub open spec fn spec_nfa_step(
    nodes: Seq<StateV>,
    stack: Seq<Automaton>,
    op: ThompsonOp,
) -> (Seq<StateV>, Seq<Automaton>) {
    match op {
        ThompsonOp::Primary(c) => {
            let r = sv_transition_fragment(nodes, Symbol::Alphabet(c));
            (r.0, stack.push(r.1))
        },
        ThompsonOp::All => {
            let r = sv_transition_fragment(nodes, Symbol::CharClass(Class::All));
            (r.0, stack.push(r.1))
        },
        ThompsonOp::Asterisk => {
            if stack.len() >= 1 {
                let r = sv_zero_or_more(nodes, stack.last());
                (r.0, stack.drop_last().push(r.1))
            } else {
                (nodes, stack)
            }
        },
        ThompsonOp::Or => {
            if stack.len() >= 2 {
                let a2 = stack.last();
                let a1 = stack.drop_last().last();
                let r = sv_alternate(nodes, a1, a2);
                (r.0, stack.drop_last().drop_last().push(r.1))
            } else {
                (nodes, stack)
            }
        },
        ThompsonOp::Concat => {
            if stack.len() >= 2 {
                let a2 = stack.last();
                let a1 = stack.drop_last().last();
                let r = sv_concat(nodes, a1, a2);
                (r.0, stack.drop_last().drop_last().push(r.1))
            } else {
                (nodes, stack)
            }
        },
        _ => (nodes, stack),
    }
}

/// The Thompson fold over a whole operator sequence, left to right.
pub open spec fn spec_nfa_fold(
    nodes: Seq<StateV>,
    stack: Seq<Automaton>,
    ops: Seq<ThompsonOp>,
) -> (Seq<StateV>, Seq<Automaton>)
    decreases ops.len(),
{
    if ops.len() == 0 {
        (nodes, stack)
    } else {
        let s = spec_nfa_step(nodes, stack, ops.first());
        spec_nfa_fold(s.0, s.1, ops.drop_first())
    }
}

/// The NFA graph and fragment built from a balanced postfix sequence,
/// starting from an empty graph and an empty stack.
pub open spec fn spec_build(ops: Seq<ThompsonOp>) -> (Seq<StateV>, Automaton) {
    let r = spec_nfa_fold(Seq::empty(), Seq::empty(), ops);
    (r.0, r.1.last())
}

impl NFA {
    pub open spec fn wf(self) -> bool {
        &&& self.graph.wf()
        &&& self.automaton.wf(self.graph@.len() as int)
    }

    /// Parses `re` and builds its NFA by Thompson's construction. Fails
    /// exactly when the pattern is malformed, carrying the parser's own
    /// failure report; the parser's balanced output guarantees the fold ends
    /// with exactly one fragment.
    pub fn construct_nfa(re: &str) -> (r: Result<NFA, String>)
        ensures
            r is Ok <==> spec_parse(re@) is Some,
            r matches Ok(nfa) ==> {
                &&& (nfa.graph@, nfa.automaton) == spec_build(spec_parse(re@)->0)
                &&& nfa.wf()
            },
            r matches Err(m) ==> m@ == spec_parse_err(re@),
    {
        let thompson = match to_thompson_postfix(re) {
            Err(e) => {
                return Err(e.to_owned());
            },
            Ok(t) => t,
        };
        let ghost ops = thompson@;
        let mut g = Graph::new();
        let mut stack: Vec<Automaton> = Vec::new();
        let mut i: usize = 0;
        proof {
            assert(ops.skip(0) =~= ops);
            assert(ops.take(0) =~= Seq::<ThompsonOp>::empty());
        }
        while i < thompson.len()
            invariant
                i <= ops.len(),
                thompson@ == ops,
                is_single(ops),
                g.wf(),
                forall|k: int|
                    0 <= k < stack@.len() ==> (#[trigger] stack@[k]).wf(g@.len() as int),
                stack@.len() == seq_effect(ops.take(i as int)),
                spec_nfa_fold(g@, stack@, ops.skip(i as int)) == spec_nfa_fold(
                    Seq::empty(),
                    Seq::empty(),
                    ops,
                ),
            decreases ops.len() - i,
        {
            let ghost g_pre = g@;
            let ghost stack_pre = stack@;
            let op = thompson[i];
            proof {
                assert(ops.skip(i as int).first() == ops[i as int]);
                assert(ops.skip(i as int).drop_first() =~= ops.skip(i as int + 1));
                assert(ops.take(i as int + 1).drop_last() =~= ops.take(i as int));
                assert(ops.take(i as int + 1).last() == ops[i as int]);
                if i as int + 1 < ops.len() {
                    assert(seq_effect(ops.take(i as int + 1)) >= 1);
                } else {
                    assert(ops.take(i as int + 1) =~= ops);
                }
            }
            match op {
                ThompsonOp::Primary(c) => {
                    let symbol = Symbol::new_alphabet(c);
                    let a = Automaton::automaton_transition(&mut g, &symbol);
                    stack.push(a);
                },
                ThompsonOp::All => {
                    let symbol = Symbol::new_all_char();
                    let a = Automaton::automaton_transition(&mut g, &symbol);
                    stack.push(a);
                },
                ThompsonOp::Asterisk => {
                    let automaton = match stack.pop() {
                        Some(a) => a,
                        None => unreached(),
                    };
                    let a = Automaton::automaton_zero_or_one(&mut g, &automaton);
                    stack.push(a);
                },
                ThompsonOp::Or => {
                    let automaton2 = match stack.pop() {
                        Some(a) => a,
                        None => unreached(),
                    };
                    let automaton1 = match stack.pop() {
                        Some(a) => a,
                        None => unreached(),
                    };
                    let a = Automaton::automaton_alternate(&mut g, &automaton1, &automaton2);
                    stack.push(a);
                },
                ThompsonOp::Concat => {
                    let automaton2 = match stack.pop() {
                        Some(a) => a,
                        None => unreached(),
                    };
                    let automaton1 = match stack.pop() {
                        Some(a) => a,
                        None => unreached(),
                    };
                    let a = Automaton::automaton_concat(&mut g, &automaton1, &automaton2);
                    stack.push(a);
                },
                _ => {},
            }
            i += 1;
            proof {
                assert((g@, stack@) == spec_nfa_step(g_pre, stack_pre, ops[i - 1]));
                assert forall|k: int|
                    0 <= k < stack@.len() implies (#[trigger] stack@[k]).wf(
                    g@.len() as int,
                ) by {
                    if k < stack_pre.len() - 2 {
                        assert(stack_pre[k].wf(g_pre.len() as int));
                    }
                }
            }
        }
        proof {
            assert(ops.skip(ops.len() as int) =~= Seq::<ThompsonOp>::empty());
            assert(ops.take(ops.len() as int) =~= ops);
        }
        let automaton = match stack.pop() {
            Some(a) => a,
            None => unreached(),
        };
        Ok(NFA { graph: g, automaton })
    }

    /// Structural equality of two constructed NFAs, identities disregarded.
    pub fn same_structure(&self, other: &NFA) -> (r: bool)
        requires
            self.wf(),
            other.wf(),
        ensures
            r == super::spec_same_structure(
                self.graph@,
                self.automaton,
                other.graph@,
                other.automaton,
            ),
    {
        self.automaton.same_structure(&self.graph, &other.automaton, &other.graph)
    }
}

} // verus!
