//! The automaton's node type and the arena that owns the graph.
//!
//! Nodes live in a [`Graph`]: a growable arena indexed by a stable integer
//! identity. Edges hold indices rather than references, so the cyclic,
//! shared graph that the zero-or-more construction produces needs no shared
//! mutable aliasing. A node's identity is the arena index it was created
//! at; it is never reused or renumbered, even when the node's variant is
//! rewritten in place.

use vstd::prelude::*;

pub mod symbols;

use symbols::Symbol;

verus! {

/// One outgoing edge: a label and an optional target node index.
pub type Edge = (Symbol, Option<usize>);

/// A node of the automaton graph: either a list of labeled outgoing edges,
/// or a terminal accepting node. The `usize` is the node's identity, equal
/// to its index in the owning [`Graph`].
#[derive(Debug)]
pub enum State {
    Transition(Vec<Edge>, usize),
    Accept(usize),
}

/// The mathematical image of a [`State`]: the same shape over `Seq`.
#[verifier::ext_equal]
pub enum StateV {
    Transition(Seq<Edge>, usize),
    Accept(usize),
}

impl View for State {
    type V = StateV;

    open spec fn view(&self) -> StateV {
        match self {
            State::Transition(edges, id) => StateV::Transition(edges@, *id),
            State::Accept(id) => StateV::Accept(*id),
        }
    }
}

impl StateV {
    pub open spec fn id(self) -> usize {
        match self {
            StateV::Transition(_, id) => id,
            StateV::Accept(id) => id,
        }
    }

    pub open spec fn edges(self) -> Seq<Edge> {
        match self {
            StateV::Transition(edges, _) => edges,
            StateV::Accept(_) => Seq::empty(),
        }
    }

    pub open spec fn is_accept(self) -> bool {
        self is Accept
    }

    /// The node sits at index `me` of a graph with `len` nodes: its identity
    /// matches its index and every edge target is in bounds.
    pub open spec fn wf(self, me: int, len: int) -> bool {
        &&& self.id() == me
        &&& forall|k: int|
            0 <= k < self.edges().len() ==> edge_target_ok(#[trigger] self.edges()[k], len)
    }
}

pub open spec fn edge_target_ok(e: Edge, len: int) -> bool {
    e.1 is Some ==> e.1->0 < len
}

/// The targets of the edges of `edges` labeled exactly `sym`, in edge order,
/// skipping edges with no target.
pub open spec fn sv_delta(edges: Seq<Edge>, sym: Symbol) -> Seq<usize>
    decreases edges.len(),
{
    if edges.len() == 0 {
        Seq::empty()
    } else {
        let prev = sv_delta(edges.drop_last(), sym);
        let e = edges.last();
        if e.0 == sym && e.1 is Some {
            prev.push(e.1->0)
        } else {
            prev
        }
    }
}

/// The targets of the edges of `edges` whose label contains the concrete
/// character `c` (an exact character match or a covering class), in edge
/// order, skipping edges with no target.
pub open spec fn sv_delta_matching(edges: Seq<Edge>, c: char) -> Seq<usize>
    decreases edges.len(),
{
    if edges.len() == 0 {
        Seq::empty()
    } else {
        let prev = sv_delta_matching(edges.drop_last(), c);
        let e = edges.last();
        if e.0.spec_contains(Symbol::Alphabet(c)) && e.1 is Some {
            prev.push(e.1->0)
        } else {
            prev
        }
    }
}

/// Every edge redirected to `other`.
pub open spec fn sv_redirect(edges: Seq<Edge>, other: usize) -> Seq<Edge> {
    edges.map_values(|e: Edge| (e.0, Some(other)))
}

/// What `connect` leaves at a node: a transition node keeps its labels but
/// every edge now leads to `other`; an accepting node is rewritten in place
/// into a transition node with a single epsilon edge to `other`. The
/// identity is kept.
pub open spec fn sv_connect(n: StateV, other: usize) -> StateV {
    match n {
        StateV::Transition(edges, id) => StateV::Transition(sv_redirect(edges, other), id),
        StateV::Accept(id) => StateV::Transition(
            seq![(Symbol::Epsilon, Some(other))],
            id,
        ),
    }
}

/// The position ordered insertion uses: the first index whose label is
/// strictly greater than `sym` in the canonical symbol order, or the length
/// if there is none. An equal label therefore ends up after existing equals.
pub open spec fn insert_pos(edges: Seq<Edge>, sym: Symbol) -> int
    decreases edges.len(),
{
    if edges.len() == 0 {
        0
    } else if sym.spec_lt(edges.first().0) {
        0
    } else {
        1 + insert_pos(edges.drop_first(), sym)
    }
}

/// What `insert_transition` leaves at a node: the new edge appended, or an
/// accepting node rewritten into a transition node with that single edge.
pub open spec fn sv_insert(n: StateV, sym: Symbol, other: usize) -> StateV {
    match n {
        StateV::Transition(edges, id) => StateV::Transition(edges.push((sym, Some(other))), id),
        StateV::Accept(id) => StateV::Transition(seq![(sym, Some(other))], id),
    }
}

/// What `insert_transition_ord` leaves at a node: the new edge inserted at
/// its ordered position, or an accepting node rewritten into a transition
/// node with that single edge.
pub open spec fn sv_insert_ord(n: StateV, sym: Symbol, other: usize) -> StateV {
    match n {
        StateV::Transition(edges, id) => StateV::Transition(
            edges.insert(insert_pos(edges, sym), (sym, Some(other))),
            id,
        ),
        StateV::Accept(id) => StateV::Transition(seq![(sym, Some(other))], id),
    }
}

pub proof fn lemma_insert_pos_bounds(edges: Seq<Edge>, sym: Symbol)
    ensures
        0 <= insert_pos(edges, sym) <= edges.len(),
    decreases edges.len(),
{
    if edges.len() > 0 && !sym.spec_lt(edges.first().0) {
        lemma_insert_pos_bounds(edges.drop_first(), sym);
    }
}

/// Every node's identity equals its index and every edge target is in
/// bounds.
pub open spec fn nodes_wf(nodes: Seq<StateV>) -> bool {
    forall|i: int| 0 <= i < nodes.len() ==> (#[trigger] nodes[i]).wf(i, nodes.len() as int)
}

/// Every element of `s` is below `n`.
pub open spec fn all_lt(s: Seq<usize>, n: int) -> bool {
    forall|k: int| 0 <= k < s.len() ==> s[k] < n
}

/// How many entries of `s` are true.
pub open spec fn count_trues(s: Seq<bool>) -> int
    decreases s.len(),
{
    if s.len() == 0 {
        0
    } else {
        count_trues(s.drop_last()) + if s.last() {
            1int
        } else {
            0int
        }
    }
}

pub proof fn lemma_count_trues_le(s: Seq<bool>)
    ensures
        0 <= count_trues(s) <= s.len(),
    decreases s.len(),
{
    if s.len() > 0 {
        lemma_count_trues_le(s.drop_last());
    }
}

pub proof fn lemma_count_trues_update(s: Seq<bool>, i: int)
    requires
        0 <= i < s.len(),
        !s[i],
    ensures
        count_trues(s.update(i, true)) == count_trues(s) + 1,
    decreases s.len(),
{
    let t = s.update(i, true);
    if i == s.len() - 1 {
        assert(t.drop_last() =~= s.drop_last());
    } else {
        assert(t.drop_last() =~= s.drop_last().update(i, true));
        lemma_count_trues_update(s.drop_last(), i);
    }
}

/// A sequence of `n` false entries.
pub open spec fn falses(n: nat) -> Seq<bool> {
    Seq::new(n, |i: int| false)
}

pub proof fn lemma_count_trues_falses(n: nat)
    ensures
        count_trues(falses(n)) == 0,
    decreases n,
{
    if n > 0 {
        assert(falses(n).drop_last() =~= falses((n - 1) as nat));
        lemma_count_trues_falses((n - 1) as nat);
    }
}

pub proof fn lemma_sv_delta_bounds(edges: Seq<Edge>, sym: Symbol, len: int)
    requires
        forall|k: int| 0 <= k < edges.len() ==> edge_target_ok(#[trigger] edges[k], len),
    ensures
        all_lt(sv_delta(edges, sym), len),
    decreases edges.len(),
{
    if edges.len() > 0 {
        lemma_sv_delta_bounds(edges.drop_last(), sym, len);
    }
}

pub proof fn lemma_sv_delta_matching_bounds(edges: Seq<Edge>, c: char, len: int)
    requires
        forall|k: int| 0 <= k < edges.len() ==> edge_target_ok(#[trigger] edges[k], len),
    ensures
        all_lt(sv_delta_matching(edges, c), len),
    decreases edges.len(),
{
    if edges.len() > 0 {
        lemma_sv_delta_matching_bounds(edges.drop_last(), c, len);
    }
}

/// Enqueues every not-yet-visited element of `ts`, marking it visited;
/// mirrors one enqueue pass of the breadth-first traversals.
pub open spec fn bfs_enqueue(ts: Seq<usize>, queue: Seq<usize>, visited: Seq<bool>) -> (Seq<
    usize,
>, Seq<bool>)
    decreases ts.len(),
{
    if ts.len() == 0 {
        (queue, visited)
    } else {
        let t = ts.first();
        if t < visited.len() && !visited[t as int] {
            bfs_enqueue(ts.drop_first(), queue.push(t), visited.update(t as int, true))
        } else {
            bfs_enqueue(ts.drop_first(), queue, visited)
        }
    }
}

pub proof fn lemma_bfs_enqueue_props(ts: Seq<usize>, queue: Seq<usize>, visited: Seq<bool>)
    ensures
        bfs_enqueue(ts, queue, visited).1.len() == visited.len(),
        bfs_enqueue(ts, queue, visited).0.len() >= queue.len(),
        count_trues(bfs_enqueue(ts, queue, visited).1) - count_trues(visited) == bfs_enqueue(
            ts,
            queue,
            visited,
        ).0.len() - queue.len(),
        all_lt(queue, visited.len() as int) ==> all_lt(
            bfs_enqueue(ts, queue, visited).0,
            visited.len() as int,
        ),
    decreases ts.len(),
{
    if ts.len() > 0 {
        let t = ts.first();
        if t < visited.len() && !visited[t as int] {
            lemma_count_trues_update(visited, t as int);
            lemma_bfs_enqueue_props(ts.drop_first(), queue.push(t), visited.update(t as int, true));
        } else {
            lemma_bfs_enqueue_props(ts.drop_first(), queue, visited);
        }
    }
}

/// The breadth-first epsilon traversal, mirrored at the specification level:
/// the queue is processed front to back; a node with no outgoing epsilon
/// edge is collected, any other node has its unvisited epsilon successors
/// enqueued and marked.
pub open spec fn spec_follow(
    nodes: Seq<StateV>,
    queue: Seq<usize>,
    visited: Seq<bool>,
    acc: Seq<usize>,
) -> Seq<usize>
    decreases nodes.len() - count_trues(visited), queue.len(),
        when visited.len() == nodes.len() && all_lt(queue, nodes.len() as int)
{
    if queue.len() == 0 {
        acc
    } else {
        let node = queue.first();
        let ts = sv_delta(nodes[node as int].edges(), Symbol::Epsilon);
        if ts.len() == 0 {
            spec_follow(nodes, queue.drop_first(), visited, acc.push(node))
        } else {
            let qv = bfs_enqueue(ts, queue.drop_first(), visited);
            proof {
                lemma_bfs_enqueue_props(ts, queue.drop_first(), visited);
                lemma_count_trues_le(qv.1);
            }
            spec_follow(nodes, qv.0, qv.1, acc)
        }
    }
}

/// The reversed target list of an edge sequence: what one preorder step
/// appends to the depth-first stack so that the first edge is explored
/// first.
pub open spec fn rev_targets(edges: Seq<Edge>) -> Seq<usize>
    decreases edges.len(),
{
    if edges.len() == 0 {
        Seq::empty()
    } else {
        let rest = rev_targets(edges.drop_first());
        match edges.first().1 {
            Some(t) => rest.push(t),
            None => rest,
        }
    }
}

pub proof fn lemma_rev_targets_bounds(edges: Seq<Edge>, len: int)
    requires
        forall|k: int| 0 <= k < edges.len() ==> edge_target_ok(#[trigger] edges[k], len),
    ensures
        all_lt(rev_targets(edges), len),
    decreases edges.len(),
{
    if edges.len() > 0 {
        lemma_rev_targets_bounds(edges.drop_first(), len);
    }
}

/// The depth-first traversal, mirrored at the specification level: the stack
/// is processed last-in first-out; an unvisited node is collected in
/// preorder and its edge targets are stacked so the first edge is explored
/// first.
pub open spec fn spec_dfs(
    nodes: Seq<StateV>,
    stack: Seq<usize>,
    visited: Seq<bool>,
    acc: Seq<usize>,
) -> Seq<usize>
    decreases nodes.len() - count_trues(visited), stack.len(),
        when visited.len() == nodes.len() && all_lt(stack, nodes.len() as int)
{
    if stack.len() == 0 {
        acc
    } else {
        let node = stack.last();
        let rest = stack.drop_last();
        if visited[node as int] {
            spec_dfs(nodes, rest, visited, acc)
        } else {
            let v1 = visited.update(node as int, true);
            proof {
                lemma_count_trues_update(visited, node as int);
                lemma_count_trues_le(v1);
            }
            spec_dfs(nodes, rest + rev_targets(nodes[node as int].edges()), v1, acc.push(node))
        }
    }
}

/// A vector of `n` false flags.
fn make_false_vec(n: usize) -> (r: Vec<bool>)
    ensures
        r@ =~= falses(n as nat),
{
    let mut r: Vec<bool> = Vec::new();
    let mut i: usize = 0;
    while i < n
        invariant
            i <= n,
            r@ =~= falses(i as nat),
        decreases n - i,
    {
        r.push(false);
        i += 1;
        proof {
            assert(r@ =~= falses(i as nat));
        }
    }
    r
}

/// The arena owning an automaton graph. A node's identity is its index.
#[derive(Debug)]
pub struct Graph {
    pub nodes: Vec<State>,
}

impl View for Graph {
    type V = Seq<StateV>;

    open spec fn view(&self) -> Seq<StateV> {
        self.nodes@.map_values(|s: State| s@)
    }
}

impl Graph {
    /// Every node's identity equals its index and every edge target is in
    /// bounds.
    pub open spec fn wf(self) -> bool {
        nodes_wf(self@)
    }

    pub fn new() -> (g: Graph)
        ensures
            g@ =~= Seq::<StateV>::empty(),
            g.wf(),
    {
        Graph { nodes: Vec::new() }
    }

    pub fn len(&self) -> (r: usize)
        ensures
            r == self@.len(),
    {
        self.nodes.len()
    }

    /// Overwrites the node at `node` with an epsilon branch point to `to1`
    /// and `to2`, keeping its identity. This is the in-place rewrite the
    /// zero-or-more construction applies to a fragment's end node.
    pub fn rewrite_split(&mut self, node: usize, to1: usize, to2: usize)
        requires
            old(self).wf(),
            node < old(self)@.len(),
            to1 < old(self)@.len(),
            to2 < old(self)@.len(),
        ensures
            final(self).wf(),
            final(self)@ =~= old(self)@.update(
                node as int,
                StateV::Transition(
                    seq![(Symbol::Epsilon, Some(to1)), (Symbol::Epsilon, Some(to2))],
                    node,
                ),
            ),
    {
        let st = State::new_split(Some(to1), Some(to2), node);
        self.nodes.set(node, st);
        proof {
            assert(self@ =~= old(self)@.update(
                node as int,
                StateV::Transition(
                    seq![(Symbol::Epsilon, Some(to1)), (Symbol::Epsilon, Some(to2))],
                    node,
                ),
            ));
            assert forall|i: int| 0 <= i < self@.len() implies (#[trigger] self@[i]).wf(
                i,
                self@.len() as int,
            ) by {
                if i != node as int {
                    assert(old(self)@[i].wf(i, old(self)@.len() as int));
                }
            }
        }
    }
}

/// An element-wise copy of an edge list.
fn copy_edges(src: &Vec<Edge>) -> (r: Vec<Edge>)
    ensures
        r@ == src@,
{
    let mut r: Vec<Edge> = Vec::new();
    let mut i: usize = 0;
    while i < src.len()
        invariant
            i <= src.len(),
            r@ == src@.take(i as int),
        decreases src.len() - i,
    {
        r.push(src[i]);
        i += 1;
        proof {
            assert(src@.take(i as int).drop_last() =~= src@.take(i as int - 1));
            assert(r@ =~= src@.take(i as int));
        }
    }
    proof {
        assert(src@.take(src@.len() as int) =~= src@);
    }
    r
}

impl State {
    /// The node's identity, assigned at creation and never renumbered.
    pub fn get_id(&self) -> (r: usize)
        ensures
            r == self@.id(),
    {
        match self {
            State::Transition(_, id) => *id,
            State::Accept(id) => *id,
        }
    }

    /// A transition node with a single edge, carrying identity `id`.
    pub fn new_transition(s: Symbol, to: Option<usize>, id: usize) -> (r: State)
        ensures
            r@ == StateV::Transition(seq![(s, to)], id),
    {
        let r = State::Transition(vec![(s, to)], id);
        proof {
            assert(r@.edges() =~= seq![(s, to)]);
        }
        r
    }

    /// An epsilon branch point: two epsilon edges, carrying identity `id`.
    pub fn new_split(to1: Option<usize>, to2: Option<usize>, id: usize) -> (r: State)
        ensures
            r@ == StateV::Transition(
                seq![(Symbol::Epsilon, to1), (Symbol::Epsilon, to2)],
                id,
            ),
    {
        let r = State::Transition(vec![(Symbol::Epsilon, to1), (Symbol::Epsilon, to2)], id);
        proof {
            assert(r@.edges() =~= seq![(Symbol::Epsilon, to1), (Symbol::Epsilon, to2)]);
        }
        r
    }

    /// A terminal accepting node, carrying identity `id`.
    pub fn new_accept(id: usize) -> (r: State)
        ensures
            r@ == StateV::Accept(id),
    {
        State::Accept(id)
    }

    /// Allocates a fresh transition node in `g` and returns its index.
    pub fn new_transition_ref(g: &mut Graph, s: Symbol, to: Option<usize>) -> (r: usize)
        requires
            old(g).wf(),
            to is Some ==> to->0 < old(g)@.len(),
        ensures
            final(g).wf(),
            r == old(g)@.len(),
            final(g)@ =~= old(g)@.push(StateV::Transition(seq![(s, to)], old(g)@.len() as usize)),
    {
        let id = g.nodes.len();
        let st = State::new_transition(s, to, id);
        g.nodes.push(st);
        proof {
            assert(g@ =~= old(g)@.push(st@));
        }
        id
    }

    /// Allocates a fresh epsilon branch point in `g` and returns its index.
    pub fn new_split_ref(g: &mut Graph, to1: Option<usize>, to2: Option<usize>) -> (r: usize)
        requires
            old(g).wf(),
            to1 is Some ==> to1->0 < old(g)@.len(),
            to2 is Some ==> to2->0 < old(g)@.len(),
        ensures
            final(g).wf(),
            r == old(g)@.len(),
            final(g)@ =~= old(g)@.push(
                StateV::Transition(
                    seq![(Symbol::Epsilon, to1), (Symbol::Epsilon, to2)],
                    old(g)@.len() as usize,
                ),
            ),
    {
        let id = g.nodes.len();
        let st = State::new_split(to1, to2, id);
        g.nodes.push(st);
        proof {
            assert(g@ =~= old(g)@.push(st@));
        }
        id
    }

    /// Allocates a fresh accepting node in `g` and returns its index.
    pub fn new_accept_ref(g: &mut Graph) -> (r: usize)
        requires
            old(g).wf(),
        ensures
            final(g).wf(),
            r == old(g)@.len(),
            final(g)@ =~= old(g)@.push(StateV::Accept(old(g)@.len() as usize)),
    {
        let id = g.nodes.len();
        g.nodes.push(State::Accept(id));
        proof {
            assert(g@ =~= old(g)@.push(StateV::Accept(id)));
        }
        id
    }

    /// Redirects every outgoing edge of node `node` to `other`; an accepting
    /// node is rewritten in place into a transition node with a single
    /// epsilon edge to `other`. The node keeps its identity.
    pub fn connect(g: &mut Graph, node: usize, other: usize)
        requires
            old(g).wf(),
            node < old(g)@.len(),
            other < old(g)@.len(),
        ensures
            final(g).wf(),
            final(g)@ =~= old(g)@.update(node as int, sv_connect(old(g)@[node as int], other)),
    {
        let mut new_edges: Vec<Edge> = Vec::new();
        let mut is_acc = false;
        match &g.nodes[node] {
            State::Accept(_) => {
                is_acc = true;
            },
            State::Transition(edges, _) => {
                let mut i: usize = 0;
                while i < edges.len()
                    invariant
                        i <= edges.len(),
                        new_edges@ == sv_redirect(edges@.take(i as int), other),
                    decreases edges.len() - i,
                {
                    new_edges.push((edges[i].0, Some(other)));
                    i += 1;
                    proof {
                        assert(new_edges@ =~= sv_redirect(edges@.take(i as int), other));
                    }
                }
                proof {
                    assert(edges@.take(edges@.len() as int) =~= edges@);
                }
            },
        }
        if is_acc {
            let st = State::new_transition(Symbol::Epsilon, Some(other), node);
            g.nodes.set(node, st);
        } else {
            g.nodes.set(node, State::Transition(new_edges, node));
        }
        proof {
            assert(g@ =~= old(g)@.update(node as int, sv_connect(old(g)@[node as int], other)));
            assert forall|i: int| 0 <= i < g@.len() implies (#[trigger] g@[i]).wf(
                i,
                g@.len() as int,
            ) by {
                if i != node as int {
                    assert(old(g)@[i].wf(i, old(g)@.len() as int));
                } else {
                    assert(old(g)@[i].wf(i, old(g)@.len() as int));
                    match old(g)@[i] {
                        StateV::Accept(_) => {},
                        StateV::Transition(oe, _) => {
                            assert forall|k: int|
                                0 <= k < g@[i].edges().len() implies edge_target_ok(
                                #[trigger] g@[i].edges()[k],
                                g@.len() as int,
                            ) by {
                                assert(oe =~= old(g)@[i].edges());
                                assert(g@[i].edges()[k] == (oe[k].0, Some(other)));
                            }
                        },
                    }
                }
            }
        }
    }

    /// Appends a new edge labeled `symbol` leading to `other`; an accepting
    /// node is rewritten into a transition node with that single edge.
    pub fn insert_transition(g: &mut Graph, node: usize, symbol: Symbol, other: usize)
        requires
            old(g).wf(),
            node < old(g)@.len(),
            other < old(g)@.len(),
        ensures
            final(g).wf(),
            final(g)@ =~= old(g)@.update(node as int, sv_insert(old(g)@[node as int], symbol, other)),
    {
        let mut is_acc = false;
        let mut edges: Vec<Edge> = Vec::new();
        match &g.nodes[node] {
            State::Accept(_) => {
                is_acc = true;
            },
            State::Transition(es, _) => {
                edges = copy_edges(es);
            },
        }
        if is_acc {
            let st = State::new_transition(symbol, Some(other), node);
            g.nodes.set(node, st);
        } else {
            edges.push((symbol, Some(other)));
            g.nodes.set(node, State::Transition(edges, node));
        }
        proof {
            assert(g@ =~= old(g)@.update(
                node as int,
                sv_insert(old(g)@[node as int], symbol, other),
            ));
            assert forall|i: int| 0 <= i < g@.len() implies (#[trigger] g@[i]).wf(
                i,
                g@.len() as int,
            ) by {
                if i != node as int {
                    assert(old(g)@[i].wf(i, old(g)@.len() as int));
                } else {
                    assert(old(g)@[i].wf(i, old(g)@.len() as int));
                    match old(g)@[i] {
                        StateV::Accept(_) => {},
                        StateV::Transition(oe, _) => {
                            assert forall|k: int|
                                0 <= k < g@[i].edges().len() implies edge_target_ok(
                                #[trigger] g@[i].edges()[k],
                                g@.len() as int,
                            ) by {
                                if k < oe.len() {
                                    assert(oe =~= old(g)@[i].edges());
                                    assert(edge_target_ok(
                                        old(g)@[i].edges()[k],
                                        old(g)@.len() as int,
                                    ));
                                }
                            }
                        },
                    }
                }
            }
        }
    }

    /// Inserts a new edge labeled `symbol` leading to `other` at the position
    /// given by the canonical symbol order, preserving a reproducible edge
    /// order; an accepting node is rewritten into a transition node with that
    /// single edge.
    pub fn insert_transition_ord(g: &mut Graph, node: usize, symbol: Symbol, other: usize)
        requires
            old(g).wf(),
            node < old(g)@.len(),
            other < old(g)@.len(),
        ensures
            final(g).wf(),
            final(g)@ =~= old(g)@.update(
                node as int,
                sv_insert_ord(old(g)@[node as int], symbol, other),
            ),
    {
        let mut is_acc = false;
        let mut edges: Vec<Edge> = Vec::new();
        match &g.nodes[node] {
            State::Accept(_) => {
                is_acc = true;
            },
            State::Transition(es, _) => {
                edges = copy_edges(es);
            },
        }
        if is_acc {
            let st = State::new_transition(symbol, Some(other), node);
            g.nodes.set(node, st);
        } else {
            let ghost all = edges@;
            proof {
                assert(all.skip(0) =~= all);
            }
            let mut j: usize = 0;
            while j < edges.len() && !symbol.lt(&edges[j].0)
                invariant
                    j <= edges.len(),
                    edges@ == all,
                    insert_pos(all, symbol) == j + insert_pos(all.skip(j as int), symbol),
                    forall|k: int| 0 <= k < j ==> !symbol.spec_lt(all[k].0),
                decreases edges.len() - j,
            {
                proof {
                    assert(all.skip(j as int).first() == all[j as int]);
                    assert(all.skip(j as int).drop_first() =~= all.skip(j as int + 1));
                }
                j += 1;
            }
            proof {
                if j < edges.len() {
                    assert(all.skip(j as int).first() == all[j as int]);
                    assert(insert_pos(all.skip(j as int), symbol) == 0);
                } else {
                    assert(all.skip(j as int) =~= Seq::<Edge>::empty());
                }
                assert(insert_pos(all, symbol) == j as int);
            }
            edges.insert(j, (symbol, Some(other)));
            g.nodes.set(node, State::Transition(edges, node));
        }
        proof {
            assert(g@ =~= old(g)@.update(
                node as int,
                sv_insert_ord(old(g)@[node as int], symbol, other),
            ));
            lemma_insert_pos_bounds(old(g)@[node as int].edges(), symbol);
            assert forall|i: int| 0 <= i < g@.len() implies (#[trigger] g@[i]).wf(
                i,
                g@.len() as int,
            ) by {
                if i != node as int {
                    assert(old(g)@[i].wf(i, old(g)@.len() as int));
                } else {
                    assert(old(g)@[i].wf(i, old(g)@.len() as int));
                    match old(g)@[i] {
                        StateV::Accept(_) => {},
                        StateV::Transition(oe, _) => {
                            let pos = insert_pos(oe, symbol);
                            oe.insert_ensures(pos, (symbol, Some(other)));
                            assert forall|k: int|
                                0 <= k < g@[i].edges().len() implies edge_target_ok(
                                #[trigger] g@[i].edges()[k],
                                g@.len() as int,
                            ) by {
                                assert(oe =~= old(g)@[i].edges());
                                if k < pos {
                                    assert(g@[i].edges()[k] == oe[k]);
                                    assert(edge_target_ok(
                                        old(g)@[i].edges()[k],
                                        old(g)@.len() as int,
                                    ));
                                } else if k == pos {
                                    assert(g@[i].edges()[k] == (symbol, Some(other)));
                                } else {
                                    assert(g@[i].edges()[k] == oe[k - 1]);
                                    assert(edge_target_ok(
                                        old(g)@[i].edges()[k - 1],
                                        old(g)@.len() as int,
                                    ));
                                }
                            }
                        },
                    }
                }
            }
        }
    }

    /// A copy of the node's outgoing edge list; empty for an accepting node.
    pub fn adjacent(&self) -> (r: Vec<Edge>)
        ensures
            r@ == self@.edges(),
    {
        match self {
            State::Accept(_) => Vec::new(),
            State::Transition(edges, _) => copy_edges(edges),
        }
    }

    /// The targets of this node's edges labeled exactly `symbol`, in edge
    /// order (structural equality, not containment).
    pub fn delta(&self, symbol: Symbol) -> (r: Vec<usize>)
        ensures
            r@ == sv_delta(self@.edges(), symbol),
    {
        match self {
            State::Accept(_) => Vec::new(),
            State::Transition(edges, _) => {
                let mut r: Vec<usize> = Vec::new();
                let mut i: usize = 0;
                while i < edges.len()
                    invariant
                        i <= edges.len(),
                        r@ == sv_delta(edges@.take(i as int), symbol),
                    decreases edges.len() - i,
                {
                    let e = edges[i];
                    if e.0 == symbol {
                        match e.1 {
                            Some(t) => r.push(t),
                            None => {},
                        }
                    }
                    i += 1;
                    proof {
                        assert(edges@.take(i as int).drop_last() =~= edges@.take(i as int - 1));
                        assert(edges@.take(i as int).last() == edges@[i as int - 1]);
                    }
                }
                proof {
                    assert(edges@.take(edges@.len() as int) =~= edges@);
                }
                r
            },
        }
    }

    /// The targets of this node's edges whose label contains the concrete
    /// character `c`: an exact character match or a covering class.
    pub fn delta_matching(&self, c: char) -> (r: Vec<usize>)
        ensures
            r@ == sv_delta_matching(self@.edges(), c),
    {
        match self {
            State::Accept(_) => Vec::new(),
            State::Transition(edges, _) => {
                let mut r: Vec<usize> = Vec::new();
                let mut i: usize = 0;
                while i < edges.len()
                    invariant
                        i <= edges.len(),
                        r@ == sv_delta_matching(edges@.take(i as int), c),
                    decreases edges.len() - i,
                {
                    let e = edges[i];
                    if e.0.contains(&Symbol::Alphabet(c)) {
                        match e.1 {
                            Some(t) => r.push(t),
                            None => {},
                        }
                    }
                    i += 1;
                    proof {
                        assert(edges@.take(i as int).drop_last() =~= edges@.take(i as int - 1));
                        assert(edges@.take(i as int).last() == edges@[i as int - 1]);
                    }
                }
                proof {
                    assert(edges@.take(edges@.len() as int) =~= edges@);
                }
                r
            },
        }
    }

    /// Breadth-first traversal from `start` following only epsilon edges:
    /// returns the first non-epsilon-reachable nodes, in the order the
    /// traversal reaches them. Visited identities are tracked, so the
    /// traversal terminates on cyclic graphs and never duplicates an entry.
    pub fn follow_epsilon(g: &Graph, start: usize) -> (r: Vec<usize>)
        requires
            g.wf(),
            start < g@.len(),
        ensures
            r@ == spec_follow(g@, seq![start], falses(g@.len()), Seq::empty()),
            all_lt(r@, g@.len() as int),
    {
        let n = g.nodes.len();
        let mut visited: Vec<bool> = make_false_vec(n);
        let mut queue: Vec<usize> = Vec::new();
        queue.push(start);
        let mut qi: usize = 0;
        let mut acc: Vec<usize> = Vec::new();
        proof {
            assert(queue@ =~= seq![start]);
            assert(queue@.skip(0) =~= queue@);
            lemma_count_trues_falses(n as nat);
        }
        while qi < queue.len()
            invariant
                g.wf(),
                visited@.len() == g@.len(),
                qi <= queue@.len(),
                all_lt(queue@, g@.len() as int),
                all_lt(acc@, g@.len() as int),
                0 <= count_trues(visited@) <= visited@.len(),
                spec_follow(g@, queue@.skip(qi as int), visited@, acc@) == spec_follow(
                    g@,
                    seq![start],
                    falses(g@.len()),
                    Seq::empty(),
                ),
            decreases g@.len() - count_trues(visited@), queue@.len() - qi,
        {
            let ghost q_pre = queue@;
            let ghost v_pre = visited@;
            let ghost a_pre = acc@;
            let node = queue[qi];
            qi += 1;
            proof {
                assert(q_pre.skip(qi - 1).first() == q_pre[qi - 1]);
                assert(q_pre.skip(qi - 1).drop_first() =~= q_pre.skip(qi as int));
                assert(g@[node as int].wf(node as int, g@.len() as int));
                lemma_sv_delta_bounds(g@[node as int].edges(), Symbol::Epsilon, g@.len() as int);
            }
            let ts = g.nodes[node].delta(Symbol::Epsilon);
            proof {
                assert(all_lt(q_pre.skip(qi - 1), g@.len() as int));
                assert(all_lt(q_pre.skip(qi as int), g@.len() as int));
            }
            if ts.len() == 0 {
                acc.push(node);
                proof {
                    assert(spec_follow(g@, queue@.skip(qi as int), visited@, acc@)
                        == spec_follow(g@, q_pre.skip(qi - 1), v_pre, a_pre));
                }
            } else {
                let ghost q0 = queue@.skip(qi as int);
                let mut k: usize = 0;
                proof {
                    assert(ts@.skip(0) =~= ts@);
                }
                while k < ts.len()
                    invariant
                        k <= ts@.len(),
                        visited@.len() == g@.len(),
                        all_lt(ts@, g@.len() as int),
                        all_lt(queue@, g@.len() as int),
                        qi <= queue@.len(),
                        bfs_enqueue(ts@.skip(k as int), queue@.skip(qi as int), visited@)
                            == bfs_enqueue(ts@, q0, v_pre),
                    decreases ts@.len() - k,
                {
                    let t = ts[k];
                    proof {
                        assert(ts@.skip(k as int).first() == ts@[k as int]);
                        assert(ts@.skip(k as int).drop_first() =~= ts@.skip(k as int + 1));
                    }
                    let ghost q_in = queue@;
                    if !visited[t] {
                        visited.set(t, true);
                        queue.push(t);
                        proof {
                            assert(queue@.skip(qi as int) =~= q_in.skip(qi as int).push(t));
                        }
                    }
                    k += 1;
                }
                proof {
                    assert(ts@.skip(ts@.len() as int) =~= Seq::<usize>::empty());
                    lemma_bfs_enqueue_props(ts@, q0, v_pre);
                    lemma_count_trues_le(visited@);
                    assert(spec_follow(g@, queue@.skip(qi as int), visited@, acc@)
                        == spec_follow(g@, q_pre.skip(qi - 1), v_pre, a_pre));
                }
            }
        }
        proof {
            assert(queue@.skip(queue@.len() as int) =~= Seq::<usize>::empty());
        }
        acc
    }

    /// Depth-first traversal from `start`: every reachable node, each
    /// identity exactly once, in preorder with edges explored in list order.
    pub fn dfs(g: &Graph, start: usize) -> (r: Vec<usize>)
        requires
            g.wf(),
            start < g@.len(),
        ensures
            r@ == spec_dfs(g@, seq![start], falses(g@.len()), Seq::empty()),
            all_lt(r@, g@.len() as int),
    {
        let n = g.nodes.len();
        let mut visited: Vec<bool> = make_false_vec(n);
        let mut stack: Vec<usize> = Vec::new();
        stack.push(start);
        let mut acc: Vec<usize> = Vec::new();
        proof {
            assert(stack@ =~= seq![start]);
            lemma_count_trues_falses(n as nat);
        }
        while stack.len() > 0
            invariant
                g.wf(),
                visited@.len() == g@.len(),
                all_lt(stack@, g@.len() as int),
                all_lt(acc@, g@.len() as int),
                0 <= count_trues(visited@) <= visited@.len(),
                spec_dfs(g@, stack@, visited@, acc@) == spec_dfs(
                    g@,
                    seq![start],
                    falses(g@.len()),
                    Seq::empty(),
                ),
            decreases g@.len() - count_trues(visited@), stack@.len(),
        {
            let ghost s_pre = stack@;
            let ghost v_pre = visited@;
            let node = match stack.pop() {
                Some(v) => v,
                None => 0,
            };
            proof {
                assert(s_pre.last() == node);
                assert(stack@ =~= s_pre.drop_last());
            }
            if !visited[node] {
                visited.set(node, true);
                acc.push(node);
                proof {
                    lemma_count_trues_update(v_pre, node as int);
                    lemma_count_trues_le(visited@);
                    assert(g@[node as int].wf(node as int, g@.len() as int));
                    lemma_rev_targets_bounds(g@[node as int].edges(), g@.len() as int);
                }
                let ghost rest = stack@;
                let ghost nlen = g@.len() as int;
                match &g.nodes[node] {
                    State::Accept(_) => {
                        proof {
                            assert(rest + rev_targets(g@[node as int].edges()) =~= rest);
                        }
                    },
                    State::Transition(edges, _) => {
                        let mut j: usize = edges.len();
                        proof {
                            assert(edges@.skip(j as int) =~= Seq::<Edge>::empty());
                            assert(stack@ =~= rest + rev_targets(edges@.skip(j as int)));
                        }
                        while j > 0
                            invariant
                                j <= edges@.len(),
                                all_lt(stack@, nlen),
                                forall|kk: int|
                                    0 <= kk < edges@.len() ==> edge_target_ok(
                                        #[trigger] edges@[kk],
                                        nlen,
                                    ),
                                stack@ =~= rest + rev_targets(edges@.skip(j as int)),
                            decreases j,
                        {
                            j -= 1;
                            proof {
                                assert(edges@.skip(j as int).first() == edges@[j as int]);
                                assert(edges@.skip(j as int).drop_first() =~= edges@.skip(
                                    j as int + 1,
                                ));
                            }
                            match edges[j].1 {
                                Some(t) => {
                                    stack.push(t);
                                },
                                None => {},
                            }
                            proof {
                                assert(stack@ =~= rest + rev_targets(edges@.skip(j as int)));
                            }
                        }
                        proof {
                            assert(edges@.skip(0) =~= edges@);
                        }
                    },
                }
            }
        }
        acc
    }
}

} // verus!
