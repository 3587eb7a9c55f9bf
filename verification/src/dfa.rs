//! The automaton of the test cases: a graph whose states are joined by transitions
//! labelled with the text of a grapheme, held in a `petgraph::stable_graph::StableGraph`.
//! Each test case is a path from the initial state to an accepting state; the
//! minimization removes dead ends and merges the states that accept the same words,
//! and neither changes what the automaton accepts.
use crate::cluster::GraphemeCluster;
use crate::grapheme::{grapheme_models, GraphemeModel};
use crate::text::str_eq;
use petgraph::graph::NodeIndex;
use petgraph::stable_graph::StableGraph;
use petgraph::visit::EdgeRef;
use petgraph::{Directed, Direction};
use vstd::prelude::*;

verus! {

broadcast use vstd::seq::group_seq_axioms, vstd::seq_lib::group_seq_properties;

#[verifier::external_type_specification]
#[verifier::external_body]
#[verifier::reject_recursive_types(N)]
#[verifier::reject_recursive_types(E)]
#[verifier::reject_recursive_types(Ty)]
#[verifier::reject_recursive_types(Ix)]
pub struct ExStableGraph<N, E, Ty, Ix>(StableGraph<N, E, Ty, Ix>);

#[verifier::external_type_specification]
#[verifier::external_body]
pub struct ExDirected(Directed);

/// The graph of an automaton: states weighted by whether they accept, transitions
/// weighted by the text of a grapheme, indices of machine-word size.
pub type Graph = StableGraph<bool, String, Directed, usize>;

/// The states of a graph: the weight of each node that the graph holds, by its index.
pub uninterp spec fn graph_states(g: Graph) -> Map<int, bool>;

/// The transitions of a graph: the source, the target and the weight of each edge
/// that the graph holds, by its index.
pub uninterp spec fn graph_transitions(g: Graph) -> Map<int, (int, int, Seq<char>)>;

/// Whether some transition leads from `from` to `to` under `label`.
pub open spec fn has_transition(
    t: Map<int, (int, int, Seq<char>)>,
    from: int,
    to: int,
    label: Seq<char>,
) -> bool {
    exists|e: int| #[trigger] t.dom().contains(e) && t[e] == (from, to, label)
}

/// Whether some transition leads from `from` to `to`.
pub open spec fn joins(t: Map<int, (int, int, Seq<char>)>, from: int, to: int) -> bool {
    exists|e: int| #[trigger] t.dom().contains(e) && t[e].0 == from && t[e].1 == to
}

/// An empty graph, made with `StableGraph::default`.
#[verifier::external_body]
fn graph_new() -> (empty: Graph)
    ensures
        graph_states(empty) =~= Map::empty(),
        graph_transitions(empty) =~= Map::empty(),
{
    StableGraph::default()
}

/// Adds a node with `StableGraph::add_node`: its index is one that no node held, and
/// no edge changes.
#[verifier::external_body]
fn graph_add_state(g: &mut Graph, accepting: bool) -> (s: usize)
    ensures
        !graph_states(*old(g)).dom().contains(s as int),
        graph_states(*final(g)) == graph_states(*old(g)).insert(s as int, accepting),
        graph_transitions(*final(g)) == graph_transitions(*old(g)),
{
    g.add_node(accepting).index()
}

/// Adds an edge with `StableGraph::add_edge`, which panics where an endpoint is not a
/// node of the graph: its index is one that no edge held, and no node changes.
#[verifier::external_body]
fn graph_add_transition(g: &mut Graph, from: usize, to: usize, label: String) -> (e: usize)
    requires
        graph_states(*old(g)).dom().contains(from as int),
        graph_states(*old(g)).dom().contains(to as int),
    ensures
        !graph_transitions(*old(g)).dom().contains(e as int),
        graph_transitions(*final(g)) == graph_transitions(*old(g)).insert(
            e as int,
            (from as int, to as int, label@),
        ),
        graph_states(*final(g)) == graph_states(*old(g)),
{
    g.add_edge(NodeIndex::new(from), NodeIndex::new(to), label).index()
}

/// Sets the weight of a node through `StableGraph`'s `IndexMut`, which panics where
/// the node is not in the graph; no edge changes.
#[verifier::external_body]
fn graph_set_accepting(g: &mut Graph, s: usize, accepting: bool)
    requires
        graph_states(*old(g)).dom().contains(s as int),
    ensures
        graph_states(*final(g)) == graph_states(*old(g)).insert(s as int, accepting),
        graph_transitions(*final(g)) == graph_transitions(*old(g)),
{
    g[NodeIndex::new(s)] = accepting;
}

/// The weight of a node, read through `StableGraph`'s `Index`, which panics where the
/// node is not in the graph.
#[verifier::external_body]
fn graph_is_accepting(g: &Graph, s: usize) -> (b: bool)
    requires
        graph_states(*g).dom().contains(s as int),
    ensures
        b == graph_states(*g)[s as int],
{
    g[NodeIndex::new(s)]
}

/// The weight and the target of each edge that leaves a node, as
/// `StableGraph::edges_directed` walks them in the outgoing direction: each edge from
/// the node is there, and nothing else; the target of each is a node of the graph,
/// as the graph removes the edges of a node with the node.
#[verifier::external_body]
fn graph_outgoing(g: &Graph, s: usize) -> (v: Vec<(String, usize)>)
    ensures
        forall|i: int|
            0 <= i < v@.len() ==> #[trigger] has_transition(
                graph_transitions(*g),
                s as int,
                v@[i].1 as int,
                v@[i].0@,
            ),
        forall|e: int|
            #[trigger] graph_transitions(*g).dom().contains(e) && graph_transitions(*g)[e].0
                == s ==> exists|i: int|
                0 <= i < v@.len() && #[trigger] v@[i].1 == graph_transitions(*g)[e].1
                    && v@[i].0@ == graph_transitions(*g)[e].2,
        forall|i: int| 0 <= i < v@.len() ==> graph_states(*g).dom().contains(#[trigger] v@[i].1 as int),
{
    g.edges_directed(NodeIndex::new(s), Direction::Outgoing).map(
        |e| (e.weight().clone(), e.target().index()),
    ).collect()
}

/// The source, the target and the weight of each edge, as `StableGraph::edge_indices`
/// walks them: each edge of the graph is there, and nothing else; its endpoints are
/// nodes of the graph, as the graph removes the edges of a node with the node.
#[verifier::external_body]
fn graph_transition_list(g: &Graph) -> (v: Vec<(usize, usize, String)>)
    ensures
        forall|i: int|
            0 <= i < v@.len() ==> #[trigger] has_transition(
                graph_transitions(*g),
                v@[i].0 as int,
                v@[i].1 as int,
                v@[i].2@,
            ),
        forall|e: int|
            #[trigger] graph_transitions(*g).dom().contains(e) ==> exists|i: int|
                0 <= i < v@.len() && #[trigger] v@[i].0 == graph_transitions(*g)[e].0
                    && v@[i].1 == graph_transitions(*g)[e].1 && v@[i].2@ == graph_transitions(
                    *g,
                )[e].2,
        forall|i: int|
            0 <= i < v@.len() ==> graph_states(*g).dom().contains(#[trigger] v@[i].0 as int)
                && graph_states(*g).dom().contains(v@[i].1 as int),
{
    g.edge_indices().map(
        |e| {
            let (a, b) = g.edge_endpoints(e).unwrap();
            (a.index(), b.index(), g[e].clone())
        },
    ).collect()
}

/// The number of edges, as `StableGraph::edge_count` gives it.
#[verifier::external_body]
fn graph_transition_count(g: &Graph) -> (n: usize)
    ensures
        n == graph_transitions(*g).dom().len(),
{
    g.edge_count()
}

/// The number of nodes, as `StableGraph::node_count` gives it.
#[verifier::external_body]
fn graph_state_count(g: &Graph) -> (n: usize)
    ensures
        n == graph_states(*g).dom().len(),
{
    g.node_count()
}

/// The indices of the nodes, as `StableGraph::node_indices` gives them: each node of
/// the graph is there once, and nothing else. An index is a position in the graph's
/// vector of nodes, whose length std keeps below `isize::MAX`, so no index is
/// `usize::MAX`.
#[verifier::external_body]
fn graph_state_indices(g: &Graph) -> (v: Vec<usize>)
    ensures
        v@.no_duplicates(),
        forall|i: int| 0 <= i < v@.len() ==> #[trigger] v@[i] < usize::MAX,
        forall|i: int| 0 <= i < v@.len() ==> graph_states(*g).dom().contains(#[trigger] v@[i] as int),
        forall|n: int|
            #[trigger] graph_states(*g).dom().contains(n) ==> exists|i: int|
                0 <= i < v@.len() && #[trigger] v@[i] as int == n,
{
    g.node_indices().map(|n| n.index()).collect()
}

/// Whether the graph holds a node, as `StableGraph::contains_node` tells.
#[verifier::external_body]
fn graph_contains_state(g: &Graph, s: usize) -> (b: bool)
    ensures
        b == graph_states(*g).dom().contains(s as int),
{
    g.contains_node(NodeIndex::new(s))
}

/// The source of each edge that enters a node, as `StableGraph::edges_directed` walks
/// them in the incoming direction: each edge into the node is there, and nothing else.
#[verifier::external_body]
fn graph_incoming(g: &Graph, s: usize) -> (v: Vec<usize>)
    ensures
        forall|i: int|
            0 <= i < v@.len() ==> #[trigger] joins(graph_transitions(*g), v@[i] as int, s as int),
        forall|e: int|
            #[trigger] graph_transitions(*g).dom().contains(e) && graph_transitions(*g)[e].1
                == s ==> exists|i: int|
                0 <= i < v@.len() && #[trigger] v@[i] as int == graph_transitions(*g)[e].0,
{
    g.edges_directed(NodeIndex::new(s), Direction::Incoming).map(|e| e.source().index()).collect()
}

/// The transitions that neither leave nor enter a state.
pub open spec fn without_state(
    t: Map<int, (int, int, Seq<char>)>,
    n: int,
) -> Map<int, (int, int, Seq<char>)> {
    Map::new(|e: int| t.dom().contains(e) && t[e].0 != n && t[e].1 != n, |e: int| t[e])
}

/// The transitions that join no state of `removed`.
pub open spec fn transitions_kept(
    t: Map<int, (int, int, Seq<char>)>,
    removed: Set<int>,
) -> Map<int, (int, int, Seq<char>)> {
    Map::new(|e: int| t.dom().contains(e) && !removed.contains(t[e].0) && !removed.contains(t[e].1), |e: int| t[e])
}

/// Some transition leads into `n`.
pub open spec fn entered(t: Map<int, (int, int, Seq<char>)>, n: int) -> bool {
    exists|e: int| #[trigger] t.dom().contains(e) && t[e].1 == n
}

/// Removes a node with `StableGraph::remove_node`, and with it each edge that leaves
/// or enters it; the other nodes and edges keep their indices.
#[verifier::external_body]
fn graph_remove_state(g: &mut Graph, s: usize)
    ensures
        graph_states(*final(g)) == graph_states(*old(g)).remove(s as int),
        graph_transitions(*final(g)) == without_state(graph_transitions(*old(g)), s as int),
{
    g.remove_node(NodeIndex::new(s));
}

/// The word of a grapheme cluster: the text of each of its graphemes, in order.
pub open spec fn cluster_word(graphemes: Seq<GraphemeModel>) -> Seq<Seq<char>> {
    graphemes.map_values(|g: GraphemeModel| g.value())
}

/// The words of a sequence of grapheme clusters.
pub open spec fn cluster_words(clusters: Seq<GraphemeCluster>) -> Set<Seq<Seq<char>>> {
    Set::new(
        |w: Seq<Seq<char>>|
            exists|i: int| 0 <= i < clusters.len() && cluster_word(#[trigger] clusters[i]@.graphemes) == w,
    )
}

/// Whether a word leads from state `s` to an accepting state: the empty word where
/// `s` accepts, another word where a transition from `s` labelled with its first
/// grapheme leads to a state from which the rest of the word does.
pub open spec fn accepts_from(
    states: Map<int, bool>,
    transitions: Map<int, (int, int, Seq<char>)>,
    s: int,
    w: Seq<Seq<char>>,
) -> bool
    decreases w.len(),
{
    if w.len() == 0 {
        states.dom().contains(s) && states[s]
    } else {
        exists|e: int|
            #[trigger] transitions.dom().contains(e) && transitions[e].0 == s && transitions[e].2
                == w[0] && accepts_from(states, transitions, transitions[e].1, w.drop_first())
    }
}

/// From a state that does not accept and that no transition leaves, no word leads to
/// acceptance.
proof fn lemma_dead_state_accepts_nothing(
    st: Map<int, bool>,
    tr: Map<int, (int, int, Seq<char>)>,
    n: int,
    w: Seq<Seq<char>>,
)
    requires
        !(st.dom().contains(n) && st[n]),
        forall|e: int| #[trigger] tr.dom().contains(e) ==> tr[e].0 != n,
    ensures
        !accepts_from(st, tr, n, w),
{
    if w.len() > 0 {
        assert(!exists|e: int|
            #[trigger] tr.dom().contains(e) && tr[e].0 == n && tr[e].2 == w[0] && accepts_from(
                st,
                tr,
                tr[e].1,
                w.drop_first(),
            ));
    }
}

/// Removing a state that no transition enters, or that does not accept and that no
/// transition leaves, changes what leads to acceptance from no other state.
proof fn lemma_remove_dead_state(
    st: Map<int, bool>,
    tr: Map<int, (int, int, Seq<char>)>,
    n: int,
    s: int,
    w: Seq<Seq<char>>,
)
    requires
        s != n,
        (forall|e: int| #[trigger] tr.dom().contains(e) ==> tr[e].1 != n) || (!(st.dom().contains(n)
            && st[n]) && forall|e: int| #[trigger] tr.dom().contains(e) ==> tr[e].0 != n),
    ensures
        accepts_from(st, tr, s, w) == accepts_from(st.remove(n), without_state(tr, n), s, w),
    decreases w.len(),
{
    let tr2 = without_state(tr, n);
    let st2 = st.remove(n);
    if w.len() > 0 {
        if accepts_from(st, tr, s, w) {
            let e = choose|e: int|
                #[trigger] tr.dom().contains(e) && tr[e].0 == s && tr[e].2 == w[0] && accepts_from(
                    st,
                    tr,
                    tr[e].1,
                    w.drop_first(),
                );
            if tr[e].1 == n {
                lemma_dead_state_accepts_nothing(st, tr, n, w.drop_first());
            }
            lemma_remove_dead_state(st, tr, n, tr[e].1, w.drop_first());
            assert(tr2.dom().contains(e));
        }
        if accepts_from(st2, tr2, s, w) {
            let e = choose|e: int|
                #[trigger] tr2.dom().contains(e) && tr2[e].0 == s && tr2[e].2 == w[0] && accepts_from(
                    st2,
                    tr2,
                    tr2[e].1,
                    w.drop_first(),
                );
            lemma_remove_dead_state(st, tr, n, tr[e].1, w.drop_first());
            assert(tr.dom().contains(e));
        }
    }
}

/// A partition of the states, given by a class for each state index, that merging
/// keeps what is accepted: every state has a class; the states of a class agree on
/// acceptance; each transition from a state is matched, from every state of its class,
/// by a transition under the same grapheme into the class of its target; and each
/// transition joins two states.
#[verifier::opaque]
pub open spec fn is_congruence(
    st: Map<int, bool>,
    tr: Map<int, (int, int, Seq<char>)>,
    c: Seq<usize>,
) -> bool {
    &&& forall|n: int| #[trigger] st.dom().contains(n) ==> 0 <= n < c.len()
    &&& forall|n: int, m: int|
        #[trigger] st.dom().contains(n) && #[trigger] st.dom().contains(m) && c[n] == c[m] ==> st[n]
            == st[m]
    &&& forall|e: int| #[trigger]
        tr.dom().contains(e) ==> st.dom().contains(tr[e].0) && st.dom().contains(tr[e].1)
    &&& forall|e: int, m: int|
        tr.dom().contains(e) && st.dom().contains(m) && c[m] == c[tr[e].0] ==> #[trigger] matched_from(
            tr,
            c,
            e,
            m,
        )
}

/// Some transition from `m` under the grapheme of transition `e` leads into the class
/// of the target of `e`.
pub open spec fn matched_from(tr: Map<int, (int, int, Seq<char>)>, c: Seq<usize>, e: int, m: int) -> bool {
    exists|f: int|
        #[trigger] tr.dom().contains(f) && tr[f].0 == m && tr[f].2 == tr[e].2 && c[tr[f].1] == c[tr[e].1]
}

/// The graph of the classes (`st2`, `tr2`) stands for that of the states (`st`, `tr`)
/// with class `cl` as state `nn[cl]`: a class accepts where its states do, each
/// transition between states is one between their classes, and each transition
/// between classes comes from one between states.
#[verifier::opaque]
pub open spec fn is_quotient(
    st: Map<int, bool>,
    tr: Map<int, (int, int, Seq<char>)>,
    c: Seq<usize>,
    st2: Map<int, bool>,
    tr2: Map<int, (int, int, Seq<char>)>,
    nn: Seq<usize>,
) -> bool {
    &&& forall|n: int|
        #[trigger] st.dom().contains(n) ==> c[n] < nn.len() && st2.dom().contains(nn[c[n] as int] as int)
            && st2[nn[c[n] as int] as int] == st[n]
    &&& forall|i: int, j: int| 0 <= i < nn.len() && 0 <= j < nn.len() && #[trigger] nn[i] == #[trigger] nn[j] ==> i == j
    &&& forall|e: int|
        #[trigger] tr.dom().contains(e) ==> has_transition(
            tr2,
            nn[c[tr[e].0] as int] as int,
            nn[c[tr[e].1] as int] as int,
            tr[e].2,
        )
    &&& forall|f: int|
        #[trigger] tr2.dom().contains(f) ==> exists|e: int|
            #[trigger] tr.dom().contains(e) && tr2[f] == (
                nn[c[tr[e].0] as int] as int,
                nn[c[tr[e].1] as int] as int,
                tr[e].2,
            )
}

/// The transitions of a congruence join states.
proof fn lemma_congruence_ends(st: Map<int, bool>, tr: Map<int, (int, int, Seq<char>)>, c: Seq<usize>, e: int)
    requires
        is_congruence(st, tr, c),
        tr.dom().contains(e),
    ensures
        st.dom().contains(tr[e].0),
        st.dom().contains(tr[e].1),
{
    reveal(is_congruence);
}

/// A transition is matched from each state of its source's class.
proof fn lemma_congruence_step(
    st: Map<int, bool>,
    tr: Map<int, (int, int, Seq<char>)>,
    c: Seq<usize>,
    e: int,
    m: int,
) -> (f: int)
    requires
        is_congruence(st, tr, c),
        tr.dom().contains(e),
        st.dom().contains(m),
        c[m] == c[tr[e].0],
    ensures
        tr.dom().contains(f),
        tr[f].0 == m,
        tr[f].2 == tr[e].2,
        c[tr[f].1] == c[tr[e].1],
{
    assert(matched_from(tr, c, e, m)) by {
        reveal(is_congruence);
    }
    choose|f: int|
        #[trigger] tr.dom().contains(f) && tr[f].0 == m && tr[f].2 == tr[e].2 && c[tr[f].1] == c[tr[e].1]
}

/// The class of a state stands for it, accepting where it does.
proof fn lemma_quotient_state(
    st: Map<int, bool>,
    tr: Map<int, (int, int, Seq<char>)>,
    c: Seq<usize>,
    st2: Map<int, bool>,
    tr2: Map<int, (int, int, Seq<char>)>,
    nn: Seq<usize>,
    n: int,
)
    requires
        is_quotient(st, tr, c, st2, tr2, nn),
        st.dom().contains(n),
    ensures
        c[n] < nn.len(),
        st2.dom().contains(nn[c[n] as int] as int),
        st2[nn[c[n] as int] as int] == st[n],
{
    reveal(is_quotient);
}

/// Distinct classes stand as distinct states.
proof fn lemma_quotient_injective(
    st: Map<int, bool>,
    tr: Map<int, (int, int, Seq<char>)>,
    c: Seq<usize>,
    st2: Map<int, bool>,
    tr2: Map<int, (int, int, Seq<char>)>,
    nn: Seq<usize>,
    i: int,
    j: int,
)
    requires
        is_quotient(st, tr, c, st2, tr2, nn),
        0 <= i < nn.len(),
        0 <= j < nn.len(),
        nn[i] == nn[j],
    ensures
        i == j,
{
    reveal(is_quotient);
    assert(nn[i] == nn[j]);
}

/// Each transition between states is one between their classes.
proof fn lemma_quotient_edge(
    st: Map<int, bool>,
    tr: Map<int, (int, int, Seq<char>)>,
    c: Seq<usize>,
    st2: Map<int, bool>,
    tr2: Map<int, (int, int, Seq<char>)>,
    nn: Seq<usize>,
    e: int,
)
    requires
        is_quotient(st, tr, c, st2, tr2, nn),
        tr.dom().contains(e),
    ensures
        has_transition(tr2, nn[c[tr[e].0] as int] as int, nn[c[tr[e].1] as int] as int, tr[e].2),
{
    reveal(is_quotient);
}

/// Each transition between classes comes from one between states.
proof fn lemma_quotient_source(
    st: Map<int, bool>,
    tr: Map<int, (int, int, Seq<char>)>,
    c: Seq<usize>,
    st2: Map<int, bool>,
    tr2: Map<int, (int, int, Seq<char>)>,
    nn: Seq<usize>,
    f: int,
) -> (e: int)
    requires
        is_quotient(st, tr, c, st2, tr2, nn),
        tr2.dom().contains(f),
    ensures
        tr.dom().contains(e),
        tr2[f] == (nn[c[tr[e].0] as int] as int, nn[c[tr[e].1] as int] as int, tr[e].2),
{
    reveal(is_quotient);
    assert(tr2.dom().contains(f));
    choose|e: int|
        #[trigger] tr.dom().contains(e) && tr2[f] == (
            nn[c[tr[e].0] as int] as int,
            nn[c[tr[e].1] as int] as int,
            tr[e].2,
        )
}

/// What leads from a state to acceptance leads from its class to acceptance.
proof fn lemma_quotient_keeps(
    st: Map<int, bool>,
    tr: Map<int, (int, int, Seq<char>)>,
    c: Seq<usize>,
    st2: Map<int, bool>,
    tr2: Map<int, (int, int, Seq<char>)>,
    nn: Seq<usize>,
    s: int,
    w: Seq<Seq<char>>,
)
    requires
        is_congruence(st, tr, c),
        is_quotient(st, tr, c, st2, tr2, nn),
        st.dom().contains(s),
        accepts_from(st, tr, s, w),
    ensures
        accepts_from(st2, tr2, nn[c[s] as int] as int, w),
    decreases w.len(),
{
    let x = nn[c[s] as int] as int;
    lemma_quotient_state(st, tr, c, st2, tr2, nn, s);
    if w.len() > 0 {
        let e = choose|e: int|
            #[trigger] tr.dom().contains(e) && tr[e].0 == s && tr[e].2 == w[0] && accepts_from(
                st,
                tr,
                tr[e].1,
                w.drop_first(),
            );
        let t = tr[e].1;
        lemma_congruence_ends(st, tr, c, e);
        lemma_quotient_keeps(st, tr, c, st2, tr2, nn, t, w.drop_first());
        lemma_quotient_edge(st, tr, c, st2, tr2, nn, e);
        let f = choose|f: int|
            #[trigger] tr2.dom().contains(f) && tr2[f] == (x, nn[c[t] as int] as int, w[0]);
        assert(tr2.dom().contains(f) && tr2[f].0 == x && tr2[f].2 == w[0] && accepts_from(
            st2,
            tr2,
            tr2[f].1,
            w.drop_first(),
        ));
    }
}

/// What leads from a class to acceptance leads from each of its states to acceptance.
proof fn lemma_quotient_adds_nothing(
    st: Map<int, bool>,
    tr: Map<int, (int, int, Seq<char>)>,
    c: Seq<usize>,
    st2: Map<int, bool>,
    tr2: Map<int, (int, int, Seq<char>)>,
    nn: Seq<usize>,
    s: int,
    w: Seq<Seq<char>>,
)
    requires
        is_congruence(st, tr, c),
        is_quotient(st, tr, c, st2, tr2, nn),
        st.dom().contains(s),
        accepts_from(st2, tr2, nn[c[s] as int] as int, w),
    ensures
        accepts_from(st, tr, s, w),
    decreases w.len(),
{
    let x = nn[c[s] as int] as int;
    lemma_quotient_state(st, tr, c, st2, tr2, nn, s);
    if w.len() > 0 {
        let f = choose|f: int|
            #[trigger] tr2.dom().contains(f) && tr2[f].0 == x && tr2[f].2 == w[0] && accepts_from(
                st2,
                tr2,
                tr2[f].1,
                w.drop_first(),
            );
        let e = lemma_quotient_source(st, tr, c, st2, tr2, nn, f);
        let a = tr[e].0;
        let b = tr[e].1;
        lemma_congruence_ends(st, tr, c, e);
        lemma_quotient_state(st, tr, c, st2, tr2, nn, a);
        lemma_quotient_injective(st, tr, c, st2, tr2, nn, c[a] as int, c[s] as int);
        let g = lemma_congruence_step(st, tr, c, e, s);
        let t = tr[g].1;
        lemma_congruence_ends(st, tr, c, g);
        lemma_quotient_adds_nothing(st, tr, c, st2, tr2, nn, t, w.drop_first());
        assert(tr.dom().contains(g) && tr[g].0 == s && tr[g].2 == w[0] && accepts_from(
            st,
            tr,
            tr[g].1,
            w.drop_first(),
        ));
    }
}

/// Some transition from `b` under `label` leads into class `class`.
pub open spec fn matched_in_class(tr: Map<int, (int, int, Seq<char>)>, c: Seq<usize>, b: int, label: Seq<char>, class: usize) -> bool {
    exists|f: int|
        #[trigger] tr.dom().contains(f) && tr[f].0 == b && tr[f].2 == label && 0 <= tr[f].1 < c.len() && c[tr[f].1]
            == class
}

/// Each transition from `a` leads into a class, and some transition from `b` under
/// the same grapheme leads into the same class.
pub open spec fn sig_covers(tr: Map<int, (int, int, Seq<char>)>, c: Seq<usize>, a: int, b: int) -> bool {
    forall|e: int|
        #[trigger] tr.dom().contains(e) && tr[e].0 == a ==> 0 <= tr[e].1 < c.len() && matched_in_class(
            tr,
            c,
            b,
            tr[e].2,
            c[tr[e].1],
        )
}

/// Two states lead under the same graphemes into the same classes.
pub open spec fn same_class_signature(tr: Map<int, (int, int, Seq<char>)>, c: Seq<usize>, a: int, b: int) -> bool {
    sig_covers(tr, c, a, b) && sig_covers(tr, c, b, a)
}

/// Each entry of `x` leads into a class, and some entry of `y` under the same
/// grapheme leads into the same class.
pub open spec fn vec_covers(x: Seq<(String, usize)>, y: Seq<(String, usize)>, c: Seq<usize>) -> bool {
    forall|i: int|
        0 <= i < x.len() ==> (#[trigger] x[i]).1 < c.len() && exists|j: int|
            0 <= j < y.len() && (#[trigger] y[j]).1 < c.len() && c[y[j].1 as int] == c[x[i].1 as int] && y[j].0@
                == x[i].0@
}

/// The transitions of two states, listed completely, cover each other as the
/// states do.
proof fn lemma_vec_covers(tr: Map<int, (int, int, Seq<char>)>, c: Seq<usize>, a: int, b: int, x: Seq<(String, usize)>, y: Seq<(String, usize)>)
    requires
        forall|i: int| 0 <= i < x.len() ==> #[trigger] has_transition(tr, a, x[i].1 as int, x[i].0@),
        forall|e: int|
            #[trigger] tr.dom().contains(e) && tr[e].0 == a ==> exists|i: int|
                0 <= i < x.len() && #[trigger] x[i].1 == tr[e].1 && x[i].0@ == tr[e].2,
        forall|i: int| 0 <= i < y.len() ==> #[trigger] has_transition(tr, b, y[i].1 as int, y[i].0@),
        forall|e: int|
            #[trigger] tr.dom().contains(e) && tr[e].0 == b ==> exists|i: int|
                0 <= i < y.len() && #[trigger] y[i].1 == tr[e].1 && y[i].0@ == tr[e].2,
    ensures
        vec_covers(x, y, c) == sig_covers(tr, c, a, b),
{
    if vec_covers(x, y, c) {
        assert forall|e: int| #[trigger] tr.dom().contains(e) && tr[e].0 == a implies 0 <= tr[e].1 < c.len()
            && matched_in_class(tr, c, b, tr[e].2, c[tr[e].1]) by {
            let i = choose|i: int| 0 <= i < x.len() && #[trigger] x[i].1 == tr[e].1 && x[i].0@ == tr[e].2;
            assert(x[i].1 < c.len());
            let j = choose|j: int|
                0 <= j < y.len() && (#[trigger] y[j]).1 < c.len() && c[y[j].1 as int] == c[x[i].1 as int] && y[j].0@
                    == x[i].0@;
            assert(has_transition(tr, b, y[j].1 as int, y[j].0@));
            let f = choose|f: int| #[trigger] tr.dom().contains(f) && tr[f] == (b, y[j].1 as int, y[j].0@);
            assert(tr.dom().contains(f) && tr[f].0 == b && tr[f].2 == tr[e].2 && 0 <= tr[f].1 < c.len() && c[tr[f].1]
                == c[tr[e].1]);
        }
    }
    if sig_covers(tr, c, a, b) {
        assert forall|i: int| 0 <= i < x.len() implies (#[trigger] x[i]).1 < c.len() && exists|j: int|
            0 <= j < y.len() && (#[trigger] y[j]).1 < c.len() && c[y[j].1 as int] == c[x[i].1 as int] && y[j].0@
                == x[i].0@ by {
            assert(has_transition(tr, a, x[i].1 as int, x[i].0@));
            let e = choose|e: int| #[trigger] tr.dom().contains(e) && tr[e] == (a, x[i].1 as int, x[i].0@);
            assert(tr.dom().contains(e) && tr[e].0 == a);
            let f = choose|f: int|
                #[trigger] tr.dom().contains(f) && tr[f].0 == b && tr[f].2 == tr[e].2 && 0 <= tr[f].1 < c.len()
                    && c[tr[f].1] == c[tr[e].1];
            let j = choose|j: int| 0 <= j < y.len() && #[trigger] y[j].1 == tr[f].1 && y[j].0@ == tr[f].2;
        }
    }
}

/// Some word leads to acceptance from one of two states and not from the other.
pub open spec fn differ(st: Map<int, bool>, tr: Map<int, (int, int, Seq<char>)>, n: int, m: int) -> bool {
    exists|w: Seq<Seq<char>>| accepts_from(st, tr, n, w) != accepts_from(st, tr, m, w)
}

/// Some word leads from a state to acceptance.
pub open spec fn live(st: Map<int, bool>, tr: Map<int, (int, int, Seq<char>)>, n: int) -> bool {
    exists|w: Seq<Seq<char>>| accepts_from(st, tr, n, w)
}

/// A deterministic graph that holds its initial state, whose states all lead to
/// acceptance.
pub open spec fn trimmed(st: Map<int, bool>, tr: Map<int, (int, int, Seq<char>)>, init: int) -> bool {
    &&& is_deterministic(tr)
    &&& st.dom().contains(init)
    &&& forall|n: int| #[trigger] st.dom().contains(n) ==> live(st, tr, n)
}

/// Where the graph before was trimmed, no two states after accept the same words.
pub open spec fn minimal_if_trimmed(
    st: Map<int, bool>,
    tr: Map<int, (int, int, Seq<char>)>,
    init: int,
    st2: Map<int, bool>,
    tr2: Map<int, (int, int, Seq<char>)>,
) -> bool {
    trimmed(st, tr, init) ==> forall|x: int, y: int|
        #[trigger] st2.dom().contains(x) && #[trigger] st2.dom().contains(y) && x != y ==> differ(st2, tr2, x, y)
}

/// In a deterministic graph, a word that begins with the grapheme of a transition
/// leads to acceptance from its source where the rest does from its target.
proof fn lemma_deterministic_step(st: Map<int, bool>, tr: Map<int, (int, int, Seq<char>)>, e: int, u: Seq<Seq<char>>)
    requires
        is_deterministic(tr),
        tr.dom().contains(e),
    ensures
        accepts_from(st, tr, tr[e].0, seq![tr[e].2] + u) == accepts_from(st, tr, tr[e].1, u),
{
    let w = seq![tr[e].2] + u;
    assert(w.drop_first() =~= u);
    assert(w[0] == tr[e].2);
    if accepts_from(st, tr, tr[e].0, w) {
        let f = choose|f: int|
            #[trigger] tr.dom().contains(f) && tr[f].0 == tr[e].0 && tr[f].2 == w[0] && accepts_from(
                st,
                tr,
                tr[f].1,
                w.drop_first(),
            );
        assert(tr[f].1 == tr[e].1);
    }
}

/// No word that begins with a grapheme that no transition from a state carries leads
/// from that state to acceptance.
proof fn lemma_no_step(st: Map<int, bool>, tr: Map<int, (int, int, Seq<char>)>, m: int, g: Seq<char>, u: Seq<Seq<char>>)
    requires
        !has_label(tr, m, g),
    ensures
        !accepts_from(st, tr, m, seq![g] + u),
{
    let w = seq![g] + u;
    assert(w[0] == g);
    if accepts_from(st, tr, m, w) {
        let f = choose|f: int|
            #[trigger] tr.dom().contains(f) && tr[f].0 == m && tr[f].2 == w[0] && accepts_from(
                st,
                tr,
                tr[f].1,
                w.drop_first(),
            );
        assert(has_label(tr, m, g));
    }
}

/// States whose classes differ differ.
pub open spec fn classes_separate(st: Map<int, bool>, tr: Map<int, (int, int, Seq<char>)>, c: Seq<usize>) -> bool {
    forall|n: int, m: int|
        #[trigger] st.dom().contains(n) && #[trigger] st.dom().contains(m) && c[n] != c[m] ==> differ(st, tr, n, m)
}

/// In a deterministic graph whose states all lead to acceptance, and whose classes
/// separate only states that differ, a state that does not match a transition of
/// another into the same class differs from it.
proof fn lemma_cover_separates(st: Map<int, bool>, tr: Map<int, (int, int, Seq<char>)>, c: Seq<usize>, n: int, m: int)
    requires
        is_deterministic(tr),
        st.dom().contains(n),
        st.dom().contains(m),
        forall|x: int| #[trigger] st.dom().contains(x) ==> live(st, tr, x) && 0 <= x < c.len(),
        forall|e: int| #[trigger] tr.dom().contains(e) && (tr[e].0 == n || tr[e].0 == m) ==> st.dom().contains(tr[e].1),
        classes_separate(st, tr, c),
        !sig_covers(tr, c, n, m),
    ensures
        differ(st, tr, n, m),
{
    let e = choose|e: int|
        #[trigger] tr.dom().contains(e) && tr[e].0 == n && !(0 <= tr[e].1 < c.len() && matched_in_class(
            tr,
            c,
            m,
            tr[e].2,
            c[tr[e].1],
        ));
    let t = tr[e].1;
    let g = tr[e].2;
    assert(st.dom().contains(t));
    assert(live(st, tr, t));
    let u = choose|u: Seq<Seq<char>>| accepts_from(st, tr, t, u);
    lemma_deterministic_step(st, tr, e, u);
    if has_label(tr, m, g) {
        let f = choose|f: int| #[trigger] tr.dom().contains(f) && tr[f].0 == m && tr[f].2 == g;
        let t2 = tr[f].1;
        assert(st.dom().contains(t2));
        assert(c[t2] != c[t]);
        assert(differ(st, tr, t, t2));
        let w = choose|w: Seq<Seq<char>>| accepts_from(st, tr, t, w) != accepts_from(st, tr, t2, w);
        lemma_deterministic_step(st, tr, e, w);
        lemma_deterministic_step(st, tr, f, w);
        assert(accepts_from(st, tr, n, seq![g] + w) != accepts_from(st, tr, m, seq![g] + w));
    } else {
        lemma_no_step(st, tr, m, g, u);
        assert(accepts_from(st, tr, n, seq![g] + u) != accepts_from(st, tr, m, seq![g] + u));
    }
}

/// Under the same conditions, two states of one class whose transitions do not
/// lead under the same graphemes into the same classes differ.
proof fn lemma_signature_separates(st: Map<int, bool>, tr: Map<int, (int, int, Seq<char>)>, c: Seq<usize>, n: int, m: int)
    requires
        is_deterministic(tr),
        st.dom().contains(n),
        st.dom().contains(m),
        forall|x: int| #[trigger] st.dom().contains(x) ==> live(st, tr, x) && 0 <= x < c.len(),
        forall|e: int| #[trigger] tr.dom().contains(e) && (tr[e].0 == n || tr[e].0 == m) ==> st.dom().contains(tr[e].1),
        classes_separate(st, tr, c),
        !same_class_signature(tr, c, n, m),
    ensures
        differ(st, tr, n, m),
{
    if !sig_covers(tr, c, n, m) {
        lemma_cover_separates(st, tr, c, n, m);
    } else {
        lemma_cover_separates(st, tr, c, m, n);
        let w = choose|w: Seq<Seq<char>>| accepts_from(st, tr, m, w) != accepts_from(st, tr, n, w);
        assert(accepts_from(st, tr, n, w) != accepts_from(st, tr, m, w));
    }
}

/// Whether two states lead under the same graphemes into the same classes.
fn same_signature(g: &Graph, a: usize, b: usize, c: &Vec<usize>) -> (r: bool)
    ensures
        r == same_class_signature(graph_transitions(*g), c@, a as int, b as int),
        forall|e: int|
            #[trigger] graph_transitions(*g).dom().contains(e) && (graph_transitions(*g)[e].0 == a
                || graph_transitions(*g)[e].0 == b) ==> graph_states(*g).dom().contains(graph_transitions(*g)[e].1),
{
    let out_a = graph_outgoing(g, a);
    let out_b = graph_outgoing(g, b);
    proof {
        let tr = graph_transitions(*g);
        assert forall|e: int| #[trigger] tr.dom().contains(e) && (tr[e].0 == a || tr[e].0 == b) implies graph_states(
            *g,
        ).dom().contains(tr[e].1) by {
            if tr[e].0 == a {
                let i = choose|i: int| 0 <= i < out_a@.len() && #[trigger] out_a@[i].1 == tr[e].1 && out_a@[i].0@ == tr[e].2;
            } else {
                let i = choose|i: int| 0 <= i < out_b@.len() && #[trigger] out_b@[i].1 == tr[e].1 && out_b@[i].0@ == tr[e].2;
            }
        }
        lemma_vec_covers(graph_transitions(*g), c@, a as int, b as int, out_a@, out_b@);
        lemma_vec_covers(graph_transitions(*g), c@, b as int, a as int, out_b@, out_a@);
    }
    covers_signature(&out_a, &out_b, c) && covers_signature(&out_b, &out_a, c)
}

/// Whether each transition of `x` is matched in `y` by one under the same grapheme
/// into the same class.
fn covers_signature(x: &Vec<(String, usize)>, y: &Vec<(String, usize)>, c: &Vec<usize>) -> (r: bool)
    ensures
        r == vec_covers(x@, y@, c@),
{
    let mut i: usize = 0;
    while i < x.len()
        invariant
            i <= x@.len(),
            forall|k: int|
                0 <= k < i ==> (#[trigger] x@[k]).1 < c@.len() && exists|j: int|
                    0 <= j < y@.len() && (#[trigger] y@[j]).1 < c@.len() && c@[y@[j].1 as int] == c@[x@[k].1 as int]
                        && y@[j].0@ == x@[k].0@,
        decreases x.len() - i,
    {
        let t = x[i].1;
        if t >= c.len() {
            proof {
                assert(!((x@[i as int]).1 < c@.len()));
            }
            return false;
        }
        let mut found = false;
        let mut j: usize = 0;
        while j < y.len()
            invariant
                i < x@.len(),
                j <= y@.len(),
                t == x@[i as int].1,
                t < c@.len(),
                found ==> exists|j2: int|
                    0 <= j2 < y@.len() && (#[trigger] y@[j2]).1 < c@.len() && c@[y@[j2].1 as int] == c@[t as int]
                        && y@[j2].0@ == x@[i as int].0@,
                !found ==> forall|j2: int|
                    0 <= j2 < j ==> !((#[trigger] y@[j2]).1 < c@.len() && c@[y@[j2].1 as int] == c@[t as int]
                        && y@[j2].0@ == x@[i as int].0@),
            ensures
                found ==> exists|j2: int|
                    0 <= j2 < y@.len() && (#[trigger] y@[j2]).1 < c@.len() && c@[y@[j2].1 as int] == c@[t as int]
                        && y@[j2].0@ == x@[i as int].0@,
                !found ==> forall|j2: int|
                    0 <= j2 < y@.len() ==> !((#[trigger] y@[j2]).1 < c@.len() && c@[y@[j2].1 as int] == c@[t as int]
                        && y@[j2].0@ == x@[i as int].0@),
            decreases y.len() - j,
        {
            let u = y[j].1;
            if u < c.len() && c[u] == c[t] && str_eq(y[j].0.as_str(), x[i].0.as_str()) {
                found = true;
                break;
            }
            j = j + 1;
        }
        if !found {
            proof {
                assert(!(exists|j2: int|
                    0 <= j2 < y@.len() && (#[trigger] y@[j2]).1 < c@.len() && c@[y@[j2].1 as int] == c@[x@[i as int].1 as int]
                        && y@[j2].0@ == x@[i as int].0@));
                assert(0 <= i < x@.len());
                let xi = x@[i as int];
            }
            return false;
        }
        i = i + 1;
    }
    true
}

/// The states of a class of a congruence agree on acceptance.
proof fn lemma_congruence_uniform(
    st: Map<int, bool>,
    tr: Map<int, (int, int, Seq<char>)>,
    c: Seq<usize>,
    n: int,
    m: int,
)
    requires
        is_congruence(st, tr, c),
        st.dom().contains(n),
        st.dom().contains(m),
        c[n] == c[m],
    ensures
        st[n] == st[m],
        0 <= n < c.len(),
{
    reveal(is_congruence);
}

/// A state of a congruence has a class.
proof fn lemma_congruence_class(st: Map<int, bool>, tr: Map<int, (int, int, Seq<char>)>, c: Seq<usize>, n: int)
    requires
        is_congruence(st, tr, c),
        st.dom().contains(n),
    ensures
        0 <= n < c.len(),
{
    reveal(is_congruence);
}

/// Two states of one class that lead under the same graphemes into the same classes.
pub open spec fn related(tr: Map<int, (int, int, Seq<char>)>, c: Seq<usize>, x: int, y: int) -> bool {
    c[x] == c[y] && same_class_signature(tr, c, x, y)
}

/// Covering is transitive.
proof fn lemma_sig_covers_trans(tr: Map<int, (int, int, Seq<char>)>, c: Seq<usize>, a: int, b: int, d: int)
    requires
        sig_covers(tr, c, a, b),
        sig_covers(tr, c, b, d),
    ensures
        sig_covers(tr, c, a, d),
{
    assert forall|e: int| #[trigger] tr.dom().contains(e) && tr[e].0 == a implies 0 <= tr[e].1 < c.len()
        && matched_in_class(tr, c, d, tr[e].2, c[tr[e].1]) by {
        let f = choose|f: int|
            #[trigger] tr.dom().contains(f) && tr[f].0 == b && tr[f].2 == tr[e].2 && 0 <= tr[f].1 < c.len()
                && c[tr[f].1] == c[tr[e].1];
        assert(tr.dom().contains(f) && tr[f].0 == b);
        let h = choose|h: int|
            #[trigger] tr.dom().contains(h) && tr[h].0 == d && tr[h].2 == tr[f].2 && 0 <= tr[h].1 < c.len()
                && c[tr[h].1] == c[tr[f].1];
        assert(tr.dom().contains(h) && tr[h].0 == d && tr[h].2 == tr[e].2 && 0 <= tr[h].1 < c.len()
            && c[tr[h].1] == c[tr[e].1]);
    }
}

/// Relatedness is transitive.
proof fn lemma_related_trans(tr: Map<int, (int, int, Seq<char>)>, c: Seq<usize>, x: int, y: int, z: int)
    requires
        related(tr, c, x, y),
        related(tr, c, y, z),
    ensures
        related(tr, c, x, z),
{
    lemma_sig_covers_trans(tr, c, x, y, z);
    lemma_sig_covers_trans(tr, c, z, y, x);
}

/// State `x` stands for some class.
pub open spec fn stands_for_class(nn: Seq<usize>, x: int) -> bool {
    exists|cl: int| 0 <= cl < nn.len() && #[trigger] nn[cl] as int == x
}

/// Some state has a class at least `cl`.
pub open spec fn class_reached(st: Map<int, bool>, c: Seq<usize>, cl: int) -> bool {
    exists|n: int| #[trigger] st.dom().contains(n) && cl <= c[n]
}

/// Some state listed before position `i` has class `x`.
pub open spec fn used_before(nodes: Seq<usize>, d: Seq<usize>, i: int, x: int) -> bool {
    exists|k: int| 0 <= k < i && d[#[trigger] nodes[k] as int] == x
}

/// Some listed state has class `id`.
pub open spec fn used_by_listed(nodes: Seq<usize>, c: Seq<usize>, id: usize) -> bool {
    exists|k: int| 0 <= k < nodes.len() && c[#[trigger] nodes[k] as int] == id
}

/// Some state has class `id`.
pub open spec fn used_by_state(st: Map<int, bool>, c: Seq<usize>, id: usize) -> bool {
    exists|n: int| #[trigger] st.dom().contains(n) && c[n] == id
}

/// A list of distinct states has as many entries as the graph has states.
proof fn lemma_nodes_len(st: Map<int, bool>, nodes: Seq<usize>)
    requires
        nodes.no_duplicates(),
        forall|k: int| 0 <= k < nodes.len() ==> st.dom().contains(#[trigger] nodes[k] as int),
        forall|n: int|
            #[trigger] st.dom().contains(n) ==> exists|k: int| 0 <= k < nodes.len() && #[trigger] nodes[k] as int == n,
    ensures
        st.dom().finite(),
        nodes.len() == st.dom().len(),
{
    let m = nodes.map_values(|x: usize| x as int);
    assert(m.no_duplicates()) by {
        assert forall|i: int, j: int| 0 <= i < m.len() && 0 <= j < m.len() && i != j implies m[i] != m[j] by {
            assert(nodes[i] != nodes[j]);
        }
    }
    assert(m.to_set() =~= st.dom()) by {
        assert forall|n: int| st.dom().contains(n) implies m.to_set().contains(n) by {
            let k = choose|k: int| 0 <= k < nodes.len() && #[trigger] nodes[k] as int == n;
            assert(m[k] == n);
        }
    }
    m.unique_seq_to_set();
    vstd::seq_lib::seq_to_set_is_finite(m);
}

/// The classes of the listed states after one round of refinement: two states share
/// a class where they shared one and lead under the same graphemes into the same
/// classes; a state's class is the position of the first state found so.
fn refine(g: &Graph, nodes: &Vec<usize>, c: &Vec<usize>) -> (next: Vec<usize>)
    requires
        nodes@.no_duplicates(),
        forall|k: int| 0 <= k < nodes@.len() ==> (#[trigger] nodes@[k]) < c@.len(),
    ensures
        next@.len() == c@.len(),
        forall|k: int, l: int|
            0 <= k < nodes@.len() && 0 <= l < nodes@.len() && k != l ==> (next@[#[trigger] nodes@[k] as int]
                == next@[#[trigger] nodes@[l] as int]) == related(
                graph_transitions(*g),
                c@,
                nodes@[k] as int,
                nodes@[l] as int,
            ),
{
    let ghost tr = graph_transitions(*g);
    let ghost bound = c@.len();
    let mut next: Vec<usize> = Vec::new();
    let mut q: usize = 0;
    while q < c.len()
        invariant
            q <= c@.len(),
            next@.len() == q,
        decreases c.len() - q,
    {
        next.push(c[q]);
        q = q + 1;
    }
    let mut i: usize = 0;
    while i < nodes.len()
        invariant
            i <= nodes@.len(),
            c@.len() == bound,
            next@.len() == bound,
            tr == graph_transitions(*g),
            nodes@.no_duplicates(),
            forall|k: int| 0 <= k < nodes@.len() ==> (#[trigger] nodes@[k]) < bound,
            forall|k: int| 0 <= k < i ==> next@[#[trigger] nodes@[k] as int] <= k,
            forall|k: int, l: int|
                0 <= k < i && 0 <= l < i && k != l ==> (next@[#[trigger] nodes@[k] as int] == next@[#[trigger] nodes@[l] as int])
                    == related(tr, c@, nodes@[k] as int, nodes@[l] as int),
        decreases nodes.len() - i,
    {
        let ni = nodes[i];
        let mut class = i;
        let mut found = false;
        let mut j: usize = 0;
        while j < i
            invariant
                j <= i,
                i < nodes@.len(),
                ni == nodes@[i as int],
                c@.len() == bound,
                next@.len() == bound,
                tr == graph_transitions(*g),
                forall|k: int| 0 <= k < nodes@.len() ==> (#[trigger] nodes@[k]) < bound,
                !found ==> class == i,
                !found ==> forall|k: int| 0 <= k < j ==> !related(tr, c@, #[trigger] nodes@[k] as int, ni as int),
                found ==> exists|k: int| 0 <= k < i && related(tr, c@, #[trigger] nodes@[k] as int, ni as int) && class == next@[nodes@[k] as int],
            ensures
                !found ==> class == i,
                !found ==> forall|k: int| 0 <= k < i ==> !related(tr, c@, #[trigger] nodes@[k] as int, ni as int),
                found ==> exists|k: int| 0 <= k < i && related(tr, c@, #[trigger] nodes@[k] as int, ni as int) && class == next@[nodes@[k] as int],
            decreases i - j,
        {
            let nj = nodes[j];
            if c[nj] == c[ni] && same_signature(g, nj, ni, c) {
                class = next[nj];
                found = true;
                break;
            }
            j = j + 1;
        }
        let ghost before = next@;
        next[ni] = class;
        proof {
            assert forall|k: int| 0 <= k < i implies before[#[trigger] nodes@[k] as int] == next@[nodes@[k] as int] by {
                assert(nodes@[k] != nodes@[i as int]);
            }
            assert forall|k: int| 0 <= k < i + 1 implies next@[#[trigger] nodes@[k] as int] <= k by {
                if k == i {
                    if found {
                        let k2 = choose|k2: int| 0 <= k2 < i && related(tr, c@, #[trigger] nodes@[k2] as int, ni as int) && class == before[nodes@[k2] as int];
                    }
                }
            }
            assert forall|k: int, l: int|
                0 <= k < i + 1 && 0 <= l < i + 1 && k != l implies (next@[#[trigger] nodes@[k] as int] == next@[#[trigger] nodes@[l] as int])
                    == related(tr, c@, nodes@[k] as int, nodes@[l] as int) by {
                if k == i || l == i {
                    let o = if k == i { l } else { k };
                    assert(next@[nodes@[i as int] as int] == class);
                    if found {
                        let k2 = choose|k2: int| 0 <= k2 < i && related(tr, c@, #[trigger] nodes@[k2] as int, ni as int) && class == before[nodes@[k2] as int];
                        let x = nodes@[o] as int;
                        let y = nodes@[k2] as int;
                        let z = ni as int;
                        if o != k2 {
                            assert((before[x] == before[y]) == related(tr, c@, x, y));
                            if related(tr, c@, x, y) {
                                lemma_related_trans(tr, c@, x, y, z);
                            }
                            if related(tr, c@, x, z) {
                                lemma_related_trans(tr, c@, x, z, y);
                            }
                        }
                        assert(related(tr, c@, z, x) == related(tr, c@, x, z));
                    } else {
                        assert(!related(tr, c@, nodes@[o] as int, ni as int));
                        assert(next@[nodes@[o] as int] <= o);
                    }
                }
            }
        }
        i = i + 1;
    }
    next
}

/// Classes numbered from zero without gaps, in the order of the listed states: two
/// listed states share a class where they shared one, every class is that of a listed
/// state, and there are no more classes than states.
fn dense_classes(nodes: &Vec<usize>, c: &Vec<usize>) -> (r: (Vec<usize>, usize))
    requires
        nodes@.no_duplicates(),
        forall|k: int| 0 <= k < nodes@.len() ==> (#[trigger] nodes@[k]) < c@.len(),
    ensures
        r.0@.len() == c@.len(),
        r.1 <= nodes@.len(),
        forall|k: int, l: int|
            0 <= k < nodes@.len() && 0 <= l < nodes@.len() ==> (r.0@[#[trigger] nodes@[k] as int] == r.0@[#[trigger] nodes@[l] as int])
                == (c@[nodes@[k] as int] == c@[nodes@[l] as int]),
        forall|k: int| 0 <= k < nodes@.len() ==> r.0@[#[trigger] nodes@[k] as int] < r.1,
        forall|id: usize| id < r.1 ==> #[trigger] used_by_listed(nodes@, r.0@, id),
{
    let mut d: Vec<usize> = Vec::new();
    let mut q: usize = 0;
    while q < c.len()
        invariant
            q <= c@.len(),
            d@.len() == q,
        decreases c.len() - q,
    {
        d.push(0);
        q = q + 1;
    }
    let mut seen: Vec<usize> = Vec::new();
    let mut i: usize = 0;
    while i < nodes.len()
        invariant
            i <= nodes@.len(),
            d@.len() == c@.len(),
            seen@.len() <= i,
            nodes@.no_duplicates(),
            seen@.no_duplicates(),
            forall|k: int| 0 <= k < nodes@.len() ==> (#[trigger] nodes@[k]) < c@.len(),
            forall|k: int| 0 <= k < i ==> d@[#[trigger] nodes@[k] as int] < seen@.len() && seen@[d@[nodes@[k] as int] as int] == c@[nodes@[k] as int],
            forall|x: int| 0 <= x < seen@.len() ==> #[trigger] used_before(nodes@, d@, i as int, x),
        decreases nodes.len() - i,
    {
        let v = c[nodes[i]];
        let p = position(&seen, v);
        if p == seen.len() {
            seen.push(v);
        }
        let ghost before = d@;
        d[nodes[i]] = p;
        proof {
            assert forall|k: int| 0 <= k < i implies before[#[trigger] nodes@[k] as int] == d@[nodes@[k] as int] by {
                assert(nodes@[k] != nodes@[i as int]);
            }
            assert forall|x: int| 0 <= x < seen@.len() implies #[trigger] used_before(nodes@, d@, i + 1, x) by {
                if x == p {
                    assert(d@[nodes@[i as int] as int] == x);
                } else {
                    assert(used_before(nodes@, before, i as int, x));
                    let k = choose|k: int| 0 <= k < i && before[#[trigger] nodes@[k] as int] == x;
                    assert(d@[nodes@[k] as int] == x);
                }
            }
        }
        i = i + 1;
    }
    proof {
        assert forall|k: int, l: int|
            0 <= k < nodes@.len() && 0 <= l < nodes@.len() implies (d@[#[trigger] nodes@[k] as int] == d@[#[trigger] nodes@[l] as int])
                == (c@[nodes@[k] as int] == c@[nodes@[l] as int]) by {
            if c@[nodes@[k] as int] == c@[nodes@[l] as int] && d@[nodes@[k] as int] != d@[nodes@[l] as int] {
                assert(seen@[d@[nodes@[k] as int] as int] == seen@[d@[nodes@[l] as int] as int]);
            }
        }
        assert forall|id: usize| id < seen@.len() implies #[trigger] used_by_listed(nodes@, d@, id) by {
            assert(used_before(nodes@, d@, i as int, id as int));
            let k = choose|k: int| 0 <= k < i && d@[#[trigger] nodes@[k] as int] == id as int;
        }
    }
    (d, seen.len())
}

/// Whether each two listed states of one class lead under the same graphemes into the
/// same classes.
fn is_stable(g: &Graph, nodes: &Vec<usize>, c: &Vec<usize>) -> (b: bool)
    requires
        forall|k: int| 0 <= k < nodes@.len() ==> (#[trigger] nodes@[k]) < c@.len(),
    ensures
        b == forall|k: int, l: int|
            0 <= k < nodes@.len() && 0 <= l < nodes@.len() && c@[#[trigger] nodes@[k] as int] == c@[#[trigger] nodes@[l] as int]
                ==> related(graph_transitions(*g), c@, nodes@[k] as int, nodes@[l] as int),
{
    let ghost tr = graph_transitions(*g);
    let mut k: usize = 0;
    while k < nodes.len()
        invariant
            k <= nodes@.len(),
            tr == graph_transitions(*g),
            forall|x: int| 0 <= x < nodes@.len() ==> (#[trigger] nodes@[x]) < c@.len(),
            forall|x: int, l: int|
                0 <= x < k && 0 <= l < nodes@.len() && c@[#[trigger] nodes@[x] as int] == c@[#[trigger] nodes@[l] as int]
                    ==> related(tr, c@, nodes@[x] as int, nodes@[l] as int),
        decreases nodes.len() - k,
    {
        let mut l: usize = 0;
        while l < nodes.len()
            invariant
                k < nodes@.len(),
                l <= nodes@.len(),
                tr == graph_transitions(*g),
                forall|x: int| 0 <= x < nodes@.len() ==> (#[trigger] nodes@[x]) < c@.len(),
                forall|x: int, y: int|
                    0 <= x < k && 0 <= y < nodes@.len() && c@[#[trigger] nodes@[x] as int] == c@[#[trigger] nodes@[y] as int]
                        ==> related(tr, c@, nodes@[x] as int, nodes@[y] as int),
                forall|y: int|
                    0 <= y < l && c@[nodes@[k as int] as int] == c@[#[trigger] nodes@[y] as int] ==> related(
                        tr,
                        c@,
                        nodes@[k as int] as int,
                        nodes@[y] as int,
                    ),
            decreases nodes.len() - l,
        {
            if c[nodes[k]] == c[nodes[l]] && !same_signature(g, nodes[k], nodes[l], c) {
                proof {
                    assert(!related(tr, c@, nodes@[k as int] as int, nodes@[l as int] as int));
                    assert(c@[nodes@[k as int] as int] == c@[nodes@[l as int] as int]);
                }
                return false;
            }
            l = l + 1;
        }
        k = k + 1;
    }
    true
}

/// A refinement that parts two states of a class has more classes.
proof fn lemma_finer_has_more(nodes: Seq<usize>, c: Seq<usize>, s: nat, c2: Seq<usize>, s2: nat, k0: int, l0: int)
    requires
        forall|k: int| 0 <= k < nodes.len() ==> c[#[trigger] nodes[k] as int] < s,
        forall|id: usize| id < s ==> #[trigger] used_by_listed(nodes, c, id),
        forall|k: int| 0 <= k < nodes.len() ==> c2[#[trigger] nodes[k] as int] < s2,
        forall|id: usize| id < s2 ==> #[trigger] used_by_listed(nodes, c2, id),
        forall|k: int, l: int|
            0 <= k < nodes.len() && 0 <= l < nodes.len() && c2[#[trigger] nodes[k] as int] == c2[#[trigger] nodes[l] as int]
                ==> c[nodes[k] as int] == c[nodes[l] as int],
        0 <= k0 < nodes.len(),
        0 <= l0 < nodes.len(),
        c[nodes[k0] as int] == c[nodes[l0] as int],
        c2[nodes[k0] as int] != c2[nodes[l0] as int],
        s2 <= usize::MAX,
        s <= usize::MAX,
    ensures
        s2 > s,
{
    let pick = |id2: int| choose|k: int| 0 <= k < nodes.len() && c2[#[trigger] nodes[k] as int] == id2;
    let f = |id2: int| c[nodes[pick(id2)] as int] as int;
    let dom = vstd::set_lib::set_int_range(0, s2 as int).remove(c2[nodes[l0] as int] as int);
    vstd::set_lib::lemma_int_range(0, s2 as int);
    let img = dom.map(f);
    vstd::set_lib::lemma_map_size_bound(dom, img, f);
    vstd::set_lib::lemma_int_range(0, s as int);
    let target = vstd::set_lib::set_int_range(0, s as int);
    assert forall|id: int| target.contains(id) implies img.contains(id) by {
        let idu = id as usize;
        assert(used_by_listed(nodes, c, idu));
        let k = choose|k: int| 0 <= k < nodes.len() && c[#[trigger] nodes[k] as int] == idu;
        let id2 = if c2[nodes[k] as int] == c2[nodes[l0] as int] { c2[nodes[k0] as int] as int } else { c2[nodes[k] as int] as int };
        assert(id2 < s2);
        assert(used_by_listed(nodes, c2, id2 as usize));
        let p = pick(id2);
        assert(0 <= p < nodes.len() && c2[nodes[p] as int] == id2);
        if c2[nodes[k] as int] == c2[nodes[l0] as int] {
            assert(c[nodes[k] as int] == c[nodes[l0] as int]);
            assert(c2[nodes[p] as int] == c2[nodes[k0] as int]);
            assert(c[nodes[p] as int] == c[nodes[k0] as int]);
        } else {
            assert(c2[nodes[p] as int] == c2[nodes[k] as int]);
            assert(c[nodes[p] as int] == c[nodes[k] as int]);
        }
        assert(c[nodes[p] as int] == idu);
        assert(idu as int == id);
        assert(f(id2) == id);
        assert(dom.contains(id2));
    }
    vstd::set_lib::lemma_len_subset(target, img);
}

/// The classes of the states by refinement until stable: at first, accepting states and
/// the others; then, in each round, two states stay together where they were together
/// and lead under the same graphemes into the same classes, until each two states of
/// a class do. The classes form a congruence, numbered from zero without gaps, no
/// more than the states; in a deterministic graph whose states all lead to acceptance,
/// states of different classes differ.
fn equivalence_classes(g: &Graph) -> (p: (Vec<usize>, usize))
    ensures
        is_congruence(graph_states(*g), graph_transitions(*g), p.0@),
        graph_states(*g).dom().finite(),
        p.1 <= graph_states(*g).dom().len(),
        forall|n: int| #[trigger] graph_states(*g).dom().contains(n) ==> p.0@[n] < p.1,
        forall|id: usize| id < p.1 ==> #[trigger] used_by_state(graph_states(*g), p.0@, id),
        is_deterministic(graph_transitions(*g)) && (forall|n: int| #[trigger] graph_states(*g).dom().contains(n)
            ==> live(graph_states(*g), graph_transitions(*g), n)) ==> classes_separate(
            graph_states(*g),
            graph_transitions(*g),
            p.0@,
        ),
{
    let ghost st = graph_states(*g);
    let ghost tr = graph_transitions(*g);
    let nodes = graph_state_indices(g);
    let edges = graph_transition_list(g);
    proof {
        assert forall|e: int| #[trigger] tr.dom().contains(e) implies st.dom().contains(tr[e].0) && st.dom().contains(tr[e].1) by {
            let q = choose|q: int|
                0 <= q < edges@.len() && #[trigger] edges@[q].0 == tr[e].0 && edges@[q].1 == tr[e].1 && edges@[q].2@
                    == tr[e].2;
        }
        lemma_nodes_len(st, nodes@);
    }
    let mut bound: usize = 0;
    let mut i: usize = 0;
    while i < nodes.len()
        invariant
            i <= nodes@.len(),
            st == graph_states(*g),
            forall|k: int| 0 <= k < i ==> (#[trigger] nodes@[k]) < bound,
            forall|k: int| 0 <= k < nodes@.len() ==> st.dom().contains(#[trigger] nodes@[k] as int),
            forall|k: int| 0 <= k < nodes@.len() ==> #[trigger] nodes@[k] < usize::MAX,
        decreases nodes.len() - i,
    {
        if nodes[i] >= bound {
            bound = nodes[i] + 1;
        }
        i = i + 1;
    }
    let mut c0: Vec<usize> = Vec::new();
    while c0.len() < bound
        invariant
            c0@.len() <= bound,
        decreases bound - c0.len(),
    {
        c0.push(0);
    }
    let mut i: usize = 0;
    while i < nodes.len()
        invariant
            i <= nodes@.len(),
            c0@.len() == bound,
            st == graph_states(*g),
            nodes@.no_duplicates(),
            forall|k: int| 0 <= k < nodes@.len() ==> (#[trigger] nodes@[k]) < bound,
            forall|k: int| 0 <= k < nodes@.len() ==> st.dom().contains(#[trigger] nodes@[k] as int),
            forall|k: int| 0 <= k < i ==> c0@[#[trigger] nodes@[k] as int] == if st[nodes@[k] as int] { 0usize } else { 1usize },
        decreases nodes.len() - i,
    {
        let n = nodes[i];
        let v: usize = if graph_is_accepting(g, n) {
            0
        } else {
            1
        };
        c0[n] = v;
        proof {
            assert forall|k: int| 0 <= k < i + 1 implies c0@[#[trigger] nodes@[k] as int] == if st[nodes@[k] as int] { 0usize } else { 1usize } by {
                if k < i {
                    assert(nodes@[k] != nodes@[i as int]);
                }
            }
        }
        i = i + 1;
    }
    let (mut c, mut count) = dense_classes(&nodes, &c0);
    proof {
        assert forall|k: int, l: int|
            0 <= k < nodes@.len() && 0 <= l < nodes@.len() && c@[#[trigger] nodes@[k] as int] == c@[#[trigger] nodes@[l] as int]
                implies st[nodes@[k] as int] == st[nodes@[l] as int] by {
            assert(c0@[nodes@[k] as int] == c0@[nodes@[l] as int]);
        }
        if is_deterministic(tr) {
            assert forall|n: int, m: int|
                #[trigger] st.dom().contains(n) && #[trigger] st.dom().contains(m) && c@[n] != c@[m] implies differ(st, tr, n, m) by {
                let k = choose|k: int| 0 <= k < nodes@.len() && #[trigger] nodes@[k] as int == n;
                let l = choose|l: int| 0 <= l < nodes@.len() && #[trigger] nodes@[l] as int == m;
                let e = Seq::<Seq<char>>::empty();
                assert(c0@[nodes@[k] as int] != c0@[nodes@[l] as int]);
                assert(accepts_from(st, tr, n, e) != accepts_from(st, tr, m, e));
            }
        }
    }
    let mut stable = is_stable(g, &nodes, &c);
    while !stable
        invariant
            c@.len() == bound,
            count <= nodes@.len(),
            st == graph_states(*g),
            tr == graph_transitions(*g),
            nodes@.no_duplicates(),
            forall|k: int| 0 <= k < nodes@.len() ==> (#[trigger] nodes@[k]) < bound,
            forall|k: int| 0 <= k < nodes@.len() ==> st.dom().contains(#[trigger] nodes@[k] as int),
            forall|n: int|
                #[trigger] st.dom().contains(n) ==> exists|k: int| 0 <= k < nodes@.len() && #[trigger] nodes@[k] as int == n,
            forall|e: int| #[trigger] tr.dom().contains(e) ==> st.dom().contains(tr[e].0) && st.dom().contains(tr[e].1),
            forall|k: int| 0 <= k < nodes@.len() ==> c@[#[trigger] nodes@[k] as int] < count,
            forall|id: usize| id < count ==> #[trigger] used_by_listed(nodes@, c@, id),
            forall|k: int, l: int|
                0 <= k < nodes@.len() && 0 <= l < nodes@.len() && c@[#[trigger] nodes@[k] as int] == c@[#[trigger] nodes@[l] as int]
                    ==> st[nodes@[k] as int] == st[nodes@[l] as int],
            is_deterministic(tr) && (forall|n: int| #[trigger] st.dom().contains(n) ==> live(st, tr, n)) ==> classes_separate(st, tr, c@),
            stable == forall|k: int, l: int|
                0 <= k < nodes@.len() && 0 <= l < nodes@.len() && c@[#[trigger] nodes@[k] as int] == c@[#[trigger] nodes@[l] as int]
                    ==> related(tr, c@, nodes@[k] as int, nodes@[l] as int),
        decreases nodes.len() - count,
    {
        let next = refine(g, &nodes, &c);
        let (c2, count2) = dense_classes(&nodes, &next);
        proof {
            let (k0, l0) = choose|k: int, l: int|
                0 <= k < nodes@.len() && 0 <= l < nodes@.len() && c@[#[trigger] nodes@[k] as int] == c@[#[trigger] nodes@[l] as int]
                    && !related(tr, c@, nodes@[k] as int, nodes@[l] as int);
            assert(k0 != l0) by {
                if k0 == l0 {
                    assert forall|e: int| #[trigger] tr.dom().contains(e) && tr[e].0 == nodes@[k0] as int implies 0 <= tr[e].1 < c@.len()
                        && matched_in_class(tr, c@, nodes@[k0] as int, tr[e].2, c@[tr[e].1]) by {
                        let x = choose|x: int| 0 <= x < nodes@.len() && #[trigger] nodes@[x] as int == tr[e].1;
                        assert(tr.dom().contains(e));
                    }
                }
            }
            assert forall|k: int, l: int|
                0 <= k < nodes@.len() && 0 <= l < nodes@.len() && c2@[#[trigger] nodes@[k] as int] == c2@[#[trigger] nodes@[l] as int]
                    implies c@[nodes@[k] as int] == c@[nodes@[l] as int] by {
                if k != l {
                    assert(next@[nodes@[k] as int] == next@[nodes@[l] as int]);
                }
            }
            assert(next@[nodes@[k0] as int] != next@[nodes@[l0] as int]);
            assert(c2@[nodes@[k0] as int] != c2@[nodes@[l0] as int]);
            lemma_finer_has_more(nodes@, c@, count as nat, c2@, count2 as nat, k0, l0);
            assert forall|k: int, l: int|
                0 <= k < nodes@.len() && 0 <= l < nodes@.len() && c2@[#[trigger] nodes@[k] as int] == c2@[#[trigger] nodes@[l] as int]
                    implies st[nodes@[k] as int] == st[nodes@[l] as int] by {
                if k != l {
                    assert(next@[nodes@[k] as int] == next@[nodes@[l] as int]);
                    assert(c@[nodes@[k] as int] == c@[nodes@[l] as int]);
                }
            }
            if is_deterministic(tr) && (forall|n: int| #[trigger] st.dom().contains(n) ==> live(st, tr, n)) {
                assert forall|n: int, m: int|
                    #[trigger] st.dom().contains(n) && #[trigger] st.dom().contains(m) && c2@[n] != c2@[m] implies differ(st, tr, n, m) by {
                    let k = choose|k: int| 0 <= k < nodes@.len() && #[trigger] nodes@[k] as int == n;
                    let l = choose|l: int| 0 <= l < nodes@.len() && #[trigger] nodes@[l] as int == m;
                    assert(k != l);
                    assert(next@[nodes@[k] as int] != next@[nodes@[l] as int]);
                    assert(!related(tr, c@, n, m));
                    if c@[n] == c@[m] {
                        assert forall|x: int| #[trigger] st.dom().contains(x) implies live(st, tr, x) && 0 <= x < c@.len() by {
                            let y = choose|y: int| 0 <= y < nodes@.len() && #[trigger] nodes@[y] as int == x;
                        }
                        lemma_signature_separates(st, tr, c@, n, m);
                    }
                }
            }
        }
        c = c2;
        count = count2;
        stable = is_stable(g, &nodes, &c);
    }
    proof {
        reveal(is_congruence);
        assert forall|n: int| #[trigger] st.dom().contains(n) implies 0 <= n < c@.len() by {
            let k = choose|k: int| 0 <= k < nodes@.len() && #[trigger] nodes@[k] as int == n;
        }
        assert forall|n: int, m: int|
            #[trigger] st.dom().contains(n) && #[trigger] st.dom().contains(m) && c@[n] == c@[m] implies st[n] == st[m] by {
            let k = choose|k: int| 0 <= k < nodes@.len() && #[trigger] nodes@[k] as int == n;
            let l = choose|l: int| 0 <= l < nodes@.len() && #[trigger] nodes@[l] as int == m;
            assert(c@[nodes@[k] as int] == c@[nodes@[l] as int]);
        }
        assert forall|e: int, m: int|
            tr.dom().contains(e) && st.dom().contains(m) && c@[m] == c@[tr[e].0] implies #[trigger] matched_from(tr, c@, e, m) by {
            let k = choose|k: int| 0 <= k < nodes@.len() && #[trigger] nodes@[k] as int == tr[e].0;
            let l = choose|l: int| 0 <= l < nodes@.len() && #[trigger] nodes@[l] as int == m;
            assert(c@[nodes@[k] as int] == c@[nodes@[l] as int]);
            assert(related(tr, c@, tr[e].0, m));
            assert(sig_covers(tr, c@, tr[e].0, m));
            assert(tr.dom().contains(e) && tr[e].0 == tr[e].0);
            let f = choose|f: int|
                #[trigger] tr.dom().contains(f) && tr[f].0 == m && tr[f].2 == tr[e].2 && 0 <= tr[f].1 < c@.len() && c@[tr[f].1]
                    == c@[tr[e].1];
        }
        assert forall|n: int| #[trigger] st.dom().contains(n) implies c@[n] < count by {
            let k = choose|k: int| 0 <= k < nodes@.len() && #[trigger] nodes@[k] as int == n;
        }
        assert forall|id: usize| id < count implies #[trigger] used_by_state(st, c@, id) by {
            assert(used_by_listed(nodes@, c@, id));
            let k = choose|k: int| 0 <= k < nodes@.len() && c@[#[trigger] nodes@[k] as int] == id;
            assert(st.dom().contains(nodes@[k] as int));
        }
    }
    (c, count)
}

/// Whether the graph has a transition from `a` to `b` under `label`.
fn has_edge(g: &Graph, a: usize, b: usize, label: &str) -> (found: bool)
    ensures
        found ==> has_transition(graph_transitions(*g), a as int, b as int, label@),
{
    let out = graph_outgoing(g, a);
    let mut q: usize = 0;
    while q < out.len()
        invariant
            q <= out@.len(),
            forall|i: int|
                0 <= i < out@.len() ==> #[trigger] has_transition(
                    graph_transitions(*g),
                    a as int,
                    out@[i].1 as int,
                    out@[i].0@,
                ),
        decreases out.len() - q,
    {
        if out[q].1 == b && str_eq(out[q].0.as_str(), label) {
            proof {
                assert(has_transition(graph_transitions(*g), a as int, out@[q as int].1 as int, out@[q as int].0@));
            }
            return true;
        }
        q = q + 1;
    }
    false
}

/// The graph of the classes of a congruence: a state for each class, accepting where
/// the states of the class do, and a transition between two classes under each
/// grapheme that leads from a state of the one into a state of the other; with the
/// state that stands for each class. `None` where the classes cannot be counted in a
/// machine word.
fn quotient(g: &Graph, c: &Vec<usize>) -> (r: Option<(Graph, Vec<usize>)>)
    requires
        is_congruence(graph_states(*g), graph_transitions(*g), c@),
    ensures
        r matches Some(q) ==> is_quotient(
            graph_states(*g),
            graph_transitions(*g),
            c@,
            graph_states(q.0),
            graph_transitions(q.0),
            q.1@,
        ),
        r matches Some(q) ==> forall|x: int| #[trigger] graph_states(q.0).dom().contains(x) ==> stands_for_class(q.1@, x),
        r matches Some(q) ==> forall|cl: int| 0 <= cl < q.1@.len() ==> #[trigger] class_reached(graph_states(*g), c@, cl),
        r matches Some(q) ==> graph_states(q.0).dom().finite() && graph_states(q.0).dom().len() == q.1@.len(),
        (forall|n: int| #[trigger] graph_states(*g).dom().contains(n) ==> c@[n] < usize::MAX) ==> r is Some,
{
    let ghost st = graph_states(*g);
    let ghost tr = graph_transitions(*g);
    let nodes = graph_state_indices(g);
    let edges = graph_transition_list(g);
    let mut k: usize = 0;
    let mut i: usize = 0;
    while i < nodes.len()
        invariant
            i <= nodes@.len(),
            st == graph_states(*g),
            tr == graph_transitions(*g),
            is_congruence(st, tr, c@),
            forall|x: int| 0 <= x < nodes@.len() ==> st.dom().contains(#[trigger] nodes@[x] as int),
            forall|x: int| 0 <= x < i ==> (#[trigger] nodes@[x]) < c@.len() && c@[nodes@[x] as int] < k,
            k == 0 || exists|x: int| 0 <= x < i && c@[#[trigger] nodes@[x] as int] == k - 1,
        decreases nodes.len() - i,
    {
        proof {
            lemma_congruence_class(st, tr, c@, nodes@[i as int] as int);
        }
        let cl = c[nodes[i]];
        if cl >= k {
            if cl == usize::MAX {
                proof {
                    assert(st.dom().contains(nodes@[i as int] as int));
                }
                return None;
            }
            k = cl + 1;
        }
        i = i + 1;
    }
    proof {
        if k > 0 {
            let x = choose|x: int| 0 <= x < nodes@.len() && c@[#[trigger] nodes@[x] as int] == k - 1;
        }
    }
    let ghost top: int = if k > 0 { choose|x: int| 0 <= x < nodes@.len() && c@[#[trigger] nodes@[x] as int] == k - 1 } else { 0 };
    let mut g2 = graph_new();
    let mut nn: Vec<usize> = Vec::new();
    let mut cl: usize = 0;
    while cl < k
        invariant
            cl <= k,
            nn@.len() == cl,
            graph_states(g2).dom().finite(),
            graph_states(g2).dom().len() == cl,
            forall|x: int| #[trigger] graph_states(g2).dom().contains(x) ==> exists|y: int|
                0 <= y < cl && #[trigger] nn@[y] as int == x,
            st == graph_states(*g),
            tr == graph_transitions(*g),
            is_congruence(st, tr, c@),
            forall|x: int| 0 <= x < nodes@.len() ==> st.dom().contains(#[trigger] nodes@[x] as int),
            forall|x: int| 0 <= x < nodes@.len() ==> (#[trigger] nodes@[x]) < c@.len() && c@[nodes@[x] as int] < k,
            graph_transitions(g2) == Map::<int, (int, int, Seq<char>)>::empty(),
            forall|n: int|
                #[trigger] st.dom().contains(n) ==> exists|y: int| 0 <= y < nodes@.len() && #[trigger] nodes@[y] as int == n,
            forall|x: int, y: int| 0 <= x < cl && 0 <= y < cl && #[trigger] nn@[x] == #[trigger] nn@[y] ==> x == y,
            forall|x: int| 0 <= x < cl ==> graph_states(g2).dom().contains(#[trigger] nn@[x] as int),
            forall|n: int|
                #[trigger] st.dom().contains(n) && c@[n] < cl ==> graph_states(g2)[nn@[c@[n] as int] as int] == st[n],
        decreases k - cl,
    {
        let mut accepting = false;
        let mut rep: usize = nodes.len();
        let mut j: usize = 0;
        while j < nodes.len()
            invariant
                j <= nodes@.len(),
                rep <= nodes@.len(),
                st == graph_states(*g),
                tr == graph_transitions(*g),
                is_congruence(st, tr, c@),
                forall|x: int| 0 <= x < nodes@.len() ==> st.dom().contains(#[trigger] nodes@[x] as int),
                forall|x: int| 0 <= x < nodes@.len() ==> (#[trigger] nodes@[x]) < c@.len() && c@[nodes@[x] as int] < k,
                rep == nodes@.len() ==> forall|x: int| 0 <= x < j ==> c@[#[trigger] nodes@[x] as int] != cl,
                rep < nodes@.len() ==> c@[nodes@[rep as int] as int] == cl && accepting == st[nodes@[rep as int] as int],
            decreases nodes.len() - j,
        {
            if rep == nodes.len() && c[nodes[j]] == cl {
                accepting = graph_is_accepting(g, nodes[j]);
                rep = j;
            }
            j = j + 1;
        }
        let ghost old_states = graph_states(g2);
        let ghost old_nn = nn@;
        let x = graph_add_state(&mut g2, accepting);
        nn.push(x);
        proof {
            assert forall|z: int| #[trigger] graph_states(g2).dom().contains(z) implies exists|y: int|
                0 <= y < cl + 1 && #[trigger] nn@[y] as int == z by {
                if z == x as int {
                    assert(nn@[cl as int] as int == z);
                } else {
                    assert(old_states.dom().contains(z));
                    let y = choose|y: int| 0 <= y < cl && #[trigger] old_nn[y] as int == z;
                    assert(nn@[y] == old_nn[y]);
                }
            }
            assert forall|n: int| #[trigger] st.dom().contains(n) && c@[n] < cl + 1 implies graph_states(g2)[nn@[c@[n] as int] as int]
                == st[n] by {
                if c@[n] == cl {
                    assert(nn@[cl as int] == x);
                    let y = choose|y: int| 0 <= y < nodes@.len() && #[trigger] nodes@[y] as int == n;
                    if rep < nodes@.len() {
                        lemma_congruence_uniform(st, tr, c@, n, nodes@[rep as int] as int);
                    } else {
                        assert(c@[nodes@[y] as int] != cl);
                    }
                } else {
                    assert(old_states.dom().contains(nn@[c@[n] as int] as int));
                }
            }
            assert forall|a: int, b: int| 0 <= a < cl + 1 && 0 <= b < cl + 1 && #[trigger] nn@[a] == #[trigger] nn@[b] implies a
                == b by {
                if a < cl && b == cl {
                    assert(old_states.dom().contains(nn@[a] as int));
                }
                if b < cl && a == cl {
                    assert(old_states.dom().contains(nn@[b] as int));
                }
            }
        }
        cl = cl + 1;
    }
    let ghost st2_nodes = graph_states(g2);
    let mut q: usize = 0;
    while q < edges.len()
        invariant
            q <= edges@.len(),
            nn@.len() == k,
            graph_states(g2) == st2_nodes,
            st2_nodes.dom().finite(),
            st2_nodes.dom().len() == k,
            forall|x: int| #[trigger] st2_nodes.dom().contains(x) ==> exists|y: int|
                0 <= y < k && #[trigger] nn@[y] as int == x,
            st == graph_states(*g),
            tr == graph_transitions(*g),
            is_congruence(st, tr, c@),
            forall|x: int| 0 <= x < nodes@.len() ==> st.dom().contains(#[trigger] nodes@[x] as int),
            forall|x: int| 0 <= x < nodes@.len() ==> (#[trigger] nodes@[x]) < c@.len() && c@[nodes@[x] as int] < k,
            forall|x: int, y: int| 0 <= x < k && 0 <= y < k && #[trigger] nn@[x] == #[trigger] nn@[y] ==> x == y,
            forall|x: int| 0 <= x < k ==> graph_states(g2).dom().contains(#[trigger] nn@[x] as int),
            forall|n: int|
                #[trigger] st.dom().contains(n) && c@[n] < k ==> graph_states(g2)[nn@[c@[n] as int] as int] == st[n],
            forall|n: int|
                #[trigger] st.dom().contains(n) ==> exists|y: int| 0 <= y < nodes@.len() && #[trigger] nodes@[y] as int == n,
            forall|p: int|
                0 <= p < edges@.len() ==> #[trigger] has_transition(
                    tr,
                    edges@[p].0 as int,
                    edges@[p].1 as int,
                    edges@[p].2@,
                ),
            forall|p: int|
                0 <= p < q ==> #[trigger] has_transition(
                    graph_transitions(g2),
                    nn@[c@[edges@[p].0 as int] as int] as int,
                    nn@[c@[edges@[p].1 as int] as int] as int,
                    edges@[p].2@,
                ),
            forall|f: int|
                #[trigger] graph_transitions(g2).dom().contains(f) ==> exists|e: int|
                    #[trigger] tr.dom().contains(e) && graph_transitions(g2)[f] == (
                        nn@[c@[tr[e].0] as int] as int,
                        nn@[c@[tr[e].1] as int] as int,
                        tr[e].2,
                    ),
        decreases edges.len() - q,
    {
        let s = edges[q].0;
        let t = edges[q].1;
        let ghost e = choose|e: int|
            #[trigger] tr.dom().contains(e) && tr[e] == (s as int, t as int, edges@[q as int].2@);
        proof {
            assert(has_transition(tr, s as int, t as int, edges@[q as int].2@));
            lemma_congruence_ends(st, tr, c@, e);
            lemma_congruence_class(st, tr, c@, s as int);
            lemma_congruence_class(st, tr, c@, t as int);
            let y = choose|y: int| 0 <= y < nodes@.len() && #[trigger] nodes@[y] as int == s as int;
            let z = choose|z: int| 0 <= z < nodes@.len() && #[trigger] nodes@[z] as int == t as int;
        }
        let a = nn[c[s]];
        let b = nn[c[t]];
        if !has_edge(&g2, a, b, edges[q].2.as_str()) {
            let ghost old_tr2 = graph_transitions(g2);
            let label = edges[q].2.clone();
            proof {
                assert(label@ == edges@[q as int].2@);
            }
            let f = graph_add_transition(&mut g2, a, b, label);
            proof {
                assert forall|p: int|
                    0 <= p < q + 1 implies #[trigger] has_transition(
                    graph_transitions(g2),
                    nn@[c@[edges@[p].0 as int] as int] as int,
                    nn@[c@[edges@[p].1 as int] as int] as int,
                    edges@[p].2@,
                ) by {
                    if p < q {
                        assert(has_transition(
                            old_tr2,
                            nn@[c@[edges@[p].0 as int] as int] as int,
                            nn@[c@[edges@[p].1 as int] as int] as int,
                            edges@[p].2@,
                        ));
                        let h = choose|h: int| #[trigger] old_tr2.dom().contains(h) && old_tr2[h] == (
                            nn@[c@[edges@[p].0 as int] as int] as int,
                            nn@[c@[edges@[p].1 as int] as int] as int,
                            edges@[p].2@,
                        );
                        assert(graph_transitions(g2).dom().contains(h));
                    } else {
                        assert(graph_transitions(g2).dom().contains(f as int));
                    }
                }
                assert forall|h: int|
                    #[trigger] graph_transitions(g2).dom().contains(h) implies exists|e2: int|
                    #[trigger] tr.dom().contains(e2) && graph_transitions(g2)[h] == (
                        nn@[c@[tr[e2].0] as int] as int,
                        nn@[c@[tr[e2].1] as int] as int,
                        tr[e2].2,
                    ) by {
                    if h == f {
                        assert(tr.dom().contains(e));
                    } else {
                        assert(old_tr2.dom().contains(h));
                    }
                }
            }
        }
        q = q + 1;
    }
    proof {
        reveal(is_quotient);
        let st2 = graph_states(g2);
        let tr2 = graph_transitions(g2);
        assert forall|n: int| #[trigger] st.dom().contains(n) implies c@[n] < nn@.len() && st2.dom().contains(
            nn@[c@[n] as int] as int,
        ) && st2[nn@[c@[n] as int] as int] == st[n] by {
            let y = choose|y: int| 0 <= y < nodes@.len() && #[trigger] nodes@[y] as int == n;
        }
        assert forall|e: int| #[trigger] tr.dom().contains(e) implies has_transition(
            tr2,
            nn@[c@[tr[e].0] as int] as int,
            nn@[c@[tr[e].1] as int] as int,
            tr[e].2,
        ) by {
            let p = choose|p: int|
                0 <= p < edges@.len() && #[trigger] edges@[p].0 == tr[e].0 && edges@[p].1 == tr[e].1
                    && edges@[p].2@ == tr[e].2;
        }
        assert forall|x: int| #[trigger] st2.dom().contains(x) implies stands_for_class(nn@, x) by {
            assert(st2_nodes.dom().contains(x));
            let y = choose|y: int| 0 <= y < k && #[trigger] nn@[y] as int == x;
            assert(0 <= y < nn@.len() && nn@[y] as int == x);
        }
        assert forall|cl: int| 0 <= cl < nn@.len() implies #[trigger] class_reached(st, c@, cl) by {
            assert(st.dom().contains(nodes@[top] as int) && cl <= c@[nodes@[top] as int]);
        }
    }
    Some((g2, nn))
}

/// Some transition leaves `s` under `label`.
pub open spec fn has_label(t: Map<int, (int, int, Seq<char>)>, s: int, label: Seq<char>) -> bool {
    exists|e: int| #[trigger] t.dom().contains(e) && t[e].0 == s && t[e].2 == label
}

/// No two transitions leave a state under the same grapheme for different targets.
pub open spec fn is_deterministic(t: Map<int, (int, int, Seq<char>)>) -> bool {
    forall|e: int, f: int|
        #[trigger] t.dom().contains(e) && #[trigger] t.dom().contains(f) && t[e].0 == t[f].0 && t[e].2
            == t[f].2 ==> t[e].1 == t[f].1
}

/// What the difference accepts from a pair of states: what leads from `l` to
/// acceptance in the first automaton and, where `both`, not from `r` in the second.
pub open spec fn difference_from(
    sa: Map<int, bool>,
    ta: Map<int, (int, int, Seq<char>)>,
    sb: Map<int, bool>,
    tb: Map<int, (int, int, Seq<char>)>,
    l: int,
    r: int,
    both: bool,
    w: Seq<Seq<char>>,
) -> bool {
    accepts_from(sa, ta, l, w) && !(both && accepts_from(sb, tb, r, w))
}

/// The states of a product graph: state `pnode[p]` stands for the pair `prod[p]` of
/// positions in the state lists `a` and `b` (the second one counting where the flag
/// holds), and accepts where the first state does and, with the flag, the second does
/// not.
pub open spec fn product_states_ok(
    sa: Map<int, bool>,
    sb: Map<int, bool>,
    sr: Map<int, bool>,
    a: Seq<usize>,
    b: Seq<usize>,
    prod: Seq<(usize, usize, bool)>,
    pnode: Seq<usize>,
    owner: Map<int, int>,
) -> bool {
    &&& pnode.len() == prod.len()
    &&& forall|p: int|
        0 <= p < prod.len() ==> sr.dom().contains(#[trigger] pnode[p] as int) && owner.dom().contains(
            pnode[p] as int,
        ) && owner[pnode[p] as int] == p && prod[p].0 < a.len() && (prod[p].2 ==> prod[p].1 < b.len())
            && sr[pnode[p] as int] == ((sa.dom().contains(a[prod[p].0 as int] as int) && sa[a[prod[p].0 as int] as int])
            && !(prod[p].2 && sb.dom().contains(b[prod[p].1 as int] as int) && sb[b[prod[p].1 as int] as int]))
}

/// A transition between two pairs under `g`: the first states are joined under `g`;
/// the second ones too where the target pair has the flag; and where it has not, the
/// source pair has no second state that `g` leaves.
pub open spec fn product_step(
    ta: Map<int, (int, int, Seq<char>)>,
    tb: Map<int, (int, int, Seq<char>)>,
    a: Seq<usize>,
    b: Seq<usize>,
    x: (usize, usize, bool),
    y: (usize, usize, bool),
    g: Seq<char>,
) -> bool {
    &&& has_transition(ta, a[x.0 as int] as int, a[y.0 as int] as int, g)
    &&& y.2 ==> x.2 && has_transition(tb, b[x.1 as int] as int, b[y.1 as int] as int, g)
    &&& !y.2 ==> !(x.2 && has_label(tb, b[x.1 as int] as int, g))
}

/// Each transition of the product graph is a step between the pairs of its states.
pub open spec fn product_transitions_sound(
    ta: Map<int, (int, int, Seq<char>)>,
    tb: Map<int, (int, int, Seq<char>)>,
    tr: Map<int, (int, int, Seq<char>)>,
    a: Seq<usize>,
    b: Seq<usize>,
    prod: Seq<(usize, usize, bool)>,
    pnode: Seq<usize>,
    owner: Map<int, int>,
) -> bool {
    forall|f: int|
        #[trigger] tr.dom().contains(f) ==> owner.dom().contains(tr[f].0) && owner.dom().contains(tr[f].1)
            && 0 <= owner[tr[f].0] < prod.len() && 0 <= owner[tr[f].1] < prod.len() && tr[f].0
            == pnode[owner[tr[f].0]] && tr[f].1 == pnode[owner[tr[f].1]] && product_step(
            ta,
            tb,
            a,
            b,
            prod[owner[tr[f].0]],
            prod[owner[tr[f].1]],
            tr[f].2,
        )
}

/// From the state of pair `p`, each transition of its first state is followed.
pub open spec fn product_pair_complete(
    ta: Map<int, (int, int, Seq<char>)>,
    tr: Map<int, (int, int, Seq<char>)>,
    a: Seq<usize>,
    prod: Seq<(usize, usize, bool)>,
    pnode: Seq<usize>,
    owner: Map<int, int>,
    p: int,
) -> bool {
    forall|e: int|
        #[trigger] ta.dom().contains(e) && ta[e].0 == a[prod[p].0 as int] ==> exists|f: int|
            #[trigger] tr.dom().contains(f) && tr[f].0 == pnode[p] && tr[f].2 == ta[e].2 && a[prod[owner[tr[f].1]].0 as int]
                == ta[e].1
}

/// From each state of the product graph, the difference is accepted.
proof fn lemma_product(
    sa: Map<int, bool>,
    ta: Map<int, (int, int, Seq<char>)>,
    sb: Map<int, bool>,
    tb: Map<int, (int, int, Seq<char>)>,
    sr: Map<int, bool>,
    tr: Map<int, (int, int, Seq<char>)>,
    a: Seq<usize>,
    b: Seq<usize>,
    prod: Seq<(usize, usize, bool)>,
    pnode: Seq<usize>,
    owner: Map<int, int>,
    p: int,
    w: Seq<Seq<char>>,
)
    requires
        product_states_ok(sa, sb, sr, a, b, prod, pnode, owner),
        product_transitions_sound(ta, tb, tr, a, b, prod, pnode, owner),
        forall|q: int| 0 <= q < prod.len() ==> #[trigger] product_pair_complete(ta, tr, a, prod, pnode, owner, q),
        is_deterministic(tb),
        0 <= p < prod.len(),
    ensures
        accepts_from(sr, tr, pnode[p] as int, w) == difference_from(
            sa,
            ta,
            sb,
            tb,
            a[prod[p].0 as int] as int,
            b[prod[p].1 as int] as int,
            prod[p].2,
            w,
        ),
    decreases w.len(),
{
    let x = pnode[p] as int;
    let l = a[prod[p].0 as int] as int;
    let r = b[prod[p].1 as int] as int;
    assert(sr.dom().contains(x) && owner[x] == p);
    if w.len() > 0 {
        if accepts_from(sr, tr, x, w) {
            let f = choose|f: int|
                #[trigger] tr.dom().contains(f) && tr[f].0 == x && tr[f].2 == w[0] && accepts_from(
                    sr,
                    tr,
                    tr[f].1,
                    w.drop_first(),
                );
            let q = owner[tr[f].1];
            assert(owner[tr[f].0] == p);
            lemma_product(sa, ta, sb, tb, sr, tr, a, b, prod, pnode, owner, q, w.drop_first());
            let l2 = a[prod[q].0 as int] as int;
            let e = choose|e: int| #[trigger] ta.dom().contains(e) && ta[e] == (l, l2, w[0]);
            assert(ta.dom().contains(e) && ta[e].0 == l && ta[e].2 == w[0] && accepts_from(
                sa,
                ta,
                ta[e].1,
                w.drop_first(),
            ));
            if prod[p].2 && accepts_from(sb, tb, r, w) {
                let h = choose|h: int|
                    #[trigger] tb.dom().contains(h) && tb[h].0 == r && tb[h].2 == w[0] && accepts_from(
                        sb,
                        tb,
                        tb[h].1,
                        w.drop_first(),
                    );
                if prod[q].2 {
                    let r2 = b[prod[q].1 as int] as int;
                    let k = choose|k: int| #[trigger] tb.dom().contains(k) && tb[k] == (r, r2, w[0]);
                    assert(tb.dom().contains(k) && tb.dom().contains(h));
                    assert(tb[h].1 == tb[k].1);
                } else {
                    assert(has_label(tb, r, w[0]));
                }
            }
        }
        if difference_from(sa, ta, sb, tb, l, r, prod[p].2, w) {
            let e = choose|e: int|
                #[trigger] ta.dom().contains(e) && ta[e].0 == l && ta[e].2 == w[0] && accepts_from(
                    sa,
                    ta,
                    ta[e].1,
                    w.drop_first(),
                );
            assert(product_pair_complete(ta, tr, a, prod, pnode, owner, p));
            let f = choose|f: int|
                #[trigger] tr.dom().contains(f) && tr[f].0 == pnode[p] && tr[f].2 == ta[e].2 && a[prod[owner[tr[f].1]].0 as int]
                    == ta[e].1;
            let q = owner[tr[f].1];
            lemma_product(sa, ta, sb, tb, sr, tr, a, b, prod, pnode, owner, q, w.drop_first());
            if prod[q].2 && accepts_from(sb, tb, b[prod[q].1 as int] as int, w.drop_first()) {
                assert(owner[tr[f].0] == p);
                let r2 = b[prod[q].1 as int] as int;
                let k = choose|k: int| #[trigger] tb.dom().contains(k) && tb[k] == (r, r2, w[0]);
                assert(tb.dom().contains(k) && tb[k].0 == r && tb[k].2 == w[0] && accepts_from(
                    sb,
                    tb,
                    tb[k].1,
                    w.drop_first(),
                ));
            }
            assert(tr.dom().contains(f) && tr[f].0 == x && tr[f].2 == w[0] && accepts_from(
                sr,
                tr,
                tr[f].1,
                w.drop_first(),
            ));
        }
    }
}

/// Whether a pair is listed.
pub open spec fn pair_listed(prod: Seq<(usize, usize, bool)>, key: (usize, usize, bool)) -> bool {
    exists|p: int| 0 <= p < prod.len() && prod[p] == key
}

/// Whether no two transitions leave a state under the same grapheme for different
/// targets.
fn check_deterministic(g: &Graph) -> (b: bool)
    ensures
        b == is_deterministic(graph_transitions(*g)),
{
    let ghost tr = graph_transitions(*g);
    let edges = graph_transition_list(g);
    let mut p: usize = 0;
    while p < edges.len()
        invariant
            p <= edges@.len(),
            tr == graph_transitions(*g),
            forall|i: int|
                0 <= i < edges@.len() ==> #[trigger] has_transition(
                    tr,
                    edges@[i].0 as int,
                    edges@[i].1 as int,
                    edges@[i].2@,
                ),
            forall|x: int, y: int|
                0 <= x < p && 0 <= y < edges@.len() && #[trigger] edges@[x].0 == #[trigger] edges@[y].0
                    && edges@[x].2@ == edges@[y].2@ ==> edges@[x].1 == edges@[y].1,
        decreases edges.len() - p,
    {
        let mut q: usize = 0;
        while q < edges.len()
            invariant
                p < edges@.len(),
                q <= edges@.len(),
                tr == graph_transitions(*g),
                forall|i: int|
                    0 <= i < edges@.len() ==> #[trigger] has_transition(
                        tr,
                        edges@[i].0 as int,
                        edges@[i].1 as int,
                        edges@[i].2@,
                    ),
                forall|y: int|
                    0 <= y < q && edges@[p as int].0 == #[trigger] edges@[y].0 && edges@[p as int].2@
                        == edges@[y].2@ ==> edges@[p as int].1 == edges@[y].1,
            decreases edges.len() - q,
        {
            if edges[p].0 == edges[q].0 && edges[p].1 != edges[q].1 && str_eq(
                edges[p].2.as_str(),
                edges[q].2.as_str(),
            ) {
                proof {
                    assert(has_transition(tr, edges@[p as int].0 as int, edges@[p as int].1 as int, edges@[p as int].2@));
                    assert(has_transition(tr, edges@[q as int].0 as int, edges@[q as int].1 as int, edges@[q as int].2@));
                    let e = choose|e: int| #[trigger] tr.dom().contains(e) && tr[e] == (
                        edges@[p as int].0 as int,
                        edges@[p as int].1 as int,
                        edges@[p as int].2@,
                    );
                    let f = choose|f: int| #[trigger] tr.dom().contains(f) && tr[f] == (
                        edges@[q as int].0 as int,
                        edges@[q as int].1 as int,
                        edges@[q as int].2@,
                    );
                    assert(tr.dom().contains(e) && tr.dom().contains(f) && tr[e].0 == tr[f].0 && tr[e].2 == tr[f].2);
                }
                return false;
            }
            q = q + 1;
        }
        p = p + 1;
    }
    proof {
        assert forall|e: int, f: int|
            #[trigger] tr.dom().contains(e) && #[trigger] tr.dom().contains(f) && tr[e].0 == tr[f].0 && tr[e].2
                == tr[f].2 implies tr[e].1 == tr[f].1 by {
            let x = choose|x: int|
                0 <= x < edges@.len() && #[trigger] edges@[x].0 == tr[e].0 && edges@[x].1 == tr[e].1
                    && edges@[x].2@ == tr[e].2;
            let y = choose|y: int|
                0 <= y < edges@.len() && #[trigger] edges@[y].0 == tr[f].0 && edges@[y].1 == tr[f].1
                    && edges@[y].2@ == tr[f].2;
            assert(edges@[x].0 == edges@[y].0);
        }
    }
    true
}

/// The first position that holds `x`, or the length where none does.
fn position(v: &Vec<usize>, x: usize) -> (p: usize)
    ensures
        p <= v@.len(),
        p < v@.len() ==> v@[p as int] == x,
        p == v@.len() ==> forall|i: int| 0 <= i < v@.len() ==> v@[i] != x,
{
    let mut i: usize = 0;
    while i < v.len()
        invariant
            i <= v@.len(),
            forall|k: int| 0 <= k < i ==> v@[k] != x,
        decreases v.len() - i,
    {
        if v[i] == x {
            return i;
        }
        i = i + 1;
    }
    i
}

/// The first position that holds `key`, or the length where none does.
fn find_pair(v: &Vec<(usize, usize, bool)>, key: (usize, usize, bool)) -> (p: usize)
    ensures
        p <= v@.len(),
        p < v@.len() ==> v@[p as int] == key,
        p == v@.len() ==> forall|i: int| 0 <= i < v@.len() ==> v@[i] != key,
{
    let mut i: usize = 0;
    while i < v.len()
        invariant
            i <= v@.len(),
            forall|k: int| 0 <= k < i ==> v@[k] != key,
        decreases v.len() - i,
    {
        if v[i].0 == key.0 && v[i].1 == key.1 && v[i].2 == key.2 {
            return i;
        }
        i = i + 1;
    }
    i
}

/// The target of the first transition in `out` under `label`.
fn find_label_target(out: &Vec<(String, usize)>, label: &str) -> (r: Option<usize>)
    ensures
        r matches Some(t) ==> exists|i: int| 0 <= i < out@.len() && #[trigger] out@[i].1 == t && out@[i].0@ == label@,
        r is None ==> forall|i: int| 0 <= i < out@.len() ==> (#[trigger] out@[i]).0@ != label@,
{
    let mut i: usize = 0;
    while i < out.len()
        invariant
            i <= out@.len(),
            forall|k: int| 0 <= k < i ==> (#[trigger] out@[k]).0@ != label@,
        decreases out.len() - i,
    {
        if str_eq(out[i].0.as_str(), label) {
            return Some(out[i].1);
        }
        i = i + 1;
    }
    None
}

/// Some state has word `x`.
pub open spec fn has_path(p: Map<int, Seq<Seq<char>>>, x: Seq<Seq<char>>) -> bool {
    exists|n: int| p.dom().contains(n) && p[n] == x
}

/// A word leads along the transitions from state `s` to state `x`.
pub open spec fn leads(tr: Map<int, (int, int, Seq<char>)>, s: int, w: Seq<Seq<char>>, x: int) -> bool
    decreases w.len(),
{
    if w.len() == 0 {
        s == x
    } else {
        exists|e: int|
            #[trigger] tr.dom().contains(e) && tr[e].0 == s && tr[e].2 == w[0] && leads(tr, tr[e].1, w.drop_first(), x)
    }
}

/// Some word leads from `init` to `x`.
pub open spec fn reachable(tr: Map<int, (int, int, Seq<char>)>, init: int, x: int) -> bool {
    exists|w: Seq<Seq<char>>| #[trigger] leads(tr, init, w, x)
}

/// Every state is reached from `init`.
pub open spec fn all_reachable(st: Map<int, bool>, tr: Map<int, (int, int, Seq<char>)>, init: int) -> bool {
    forall|x: int| #[trigger] st.dom().contains(x) ==> reachable(tr, init, x)
}

/// A path between two other states keeps going where a state that no transition
/// enters, or that no transition leaves, is removed.
proof fn lemma_leads_without(tr: Map<int, (int, int, Seq<char>)>, n: int, a: int, w: Seq<Seq<char>>, x: int)
    requires
        a != n,
        x != n,
        (forall|e: int| #[trigger] tr.dom().contains(e) ==> tr[e].1 != n) || (forall|e: int|
            #[trigger] tr.dom().contains(e) ==> tr[e].0 != n),
        leads(tr, a, w, x),
    ensures
        leads(without_state(tr, n), a, w, x),
    decreases w.len(),
{
    if w.len() > 0 {
        let e = choose|e: int|
            #[trigger] tr.dom().contains(e) && tr[e].0 == a && tr[e].2 == w[0] && leads(tr, tr[e].1, w.drop_first(), x);
        let b = tr[e].1;
        if b == n {
            let rest = w.drop_first();
            if rest.len() > 0 {
                let f = choose|f: int|
                    #[trigger] tr.dom().contains(f) && tr[f].0 == b && tr[f].2 == rest[0] && leads(tr, tr[f].1, rest.drop_first(), x);
                assert(tr.dom().contains(f));
            }
            assert(tr.dom().contains(e));
        }
        lemma_leads_without(tr, n, b, w.drop_first(), x);
        let t2 = without_state(tr, n);
        assert(t2.dom().contains(e));
    }
}

/// A path between states is one between their classes.
proof fn lemma_quotient_leads(
    st: Map<int, bool>,
    tr: Map<int, (int, int, Seq<char>)>,
    c: Seq<usize>,
    st2: Map<int, bool>,
    tr2: Map<int, (int, int, Seq<char>)>,
    nn: Seq<usize>,
    a: int,
    w: Seq<Seq<char>>,
    x: int,
)
    requires
        is_congruence(st, tr, c),
        is_quotient(st, tr, c, st2, tr2, nn),
        st.dom().contains(a),
        leads(tr, a, w, x),
    ensures
        leads(tr2, nn[c[a] as int] as int, w, nn[c[x] as int] as int),
    decreases w.len(),
{
    if w.len() > 0 {
        let e = choose|e: int|
            #[trigger] tr.dom().contains(e) && tr[e].0 == a && tr[e].2 == w[0] && leads(tr, tr[e].1, w.drop_first(), x);
        lemma_congruence_ends(st, tr, c, e);
        lemma_quotient_leads(st, tr, c, st2, tr2, nn, tr[e].1, w.drop_first(), x);
        lemma_quotient_edge(st, tr, c, st2, tr2, nn, e);
        let f = choose|f: int|
            #[trigger] tr2.dom().contains(f) && tr2[f] == (nn[c[a] as int] as int, nn[c[tr[e].1] as int] as int, w[0]);
        assert(tr2.dom().contains(f) && tr2[f].0 == nn[c[a] as int] as int && tr2[f].2 == w[0]);
    }
}

/// A deterministic finite automaton over graphemes, as a graph of states and
/// transitions; it is built from the test cases so that it accepts exactly them.
pub struct DFA {
    graph: Graph,
    initial_state: usize,
    /// The word that leads from the initial state to each state.
    paths: Ghost<Map<int, Seq<Seq<char>>>>,
    /// The words inserted so far.
    words: Ghost<Set<Seq<Seq<char>>>>,
}

impl DFA {
    /// The states of the automaton: whether each accepts, by its index.
    pub closed spec fn states(&self) -> Map<int, bool> {
        graph_states(self.graph)
    }

    /// The transitions of the automaton: source, target and grapheme, by index.
    pub closed spec fn transitions(&self) -> Map<int, (int, int, Seq<char>)> {
        graph_transitions(self.graph)
    }

    /// The index of the initial state.
    pub closed spec fn initial(&self) -> int {
        self.initial_state as int
    }

    /// The words that the automaton accepts.
    pub open spec fn language(&self) -> Set<Seq<Seq<char>>> {
        Set::new(
            |w: Seq<Seq<char>>| accepts_from(self.states(), self.transitions(), self.initial(), w),
        )
    }

    /// Each state is reached from the initial state by its word, along the transitions;
    /// each state but the initial one has a transition into it; the accepting states
    /// are those of the inserted words.
    spec fn well_formed(&self) -> bool {
        let st = graph_states(self.graph);
        let tr = graph_transitions(self.graph);
        let p = self.paths@;
        &&& st.dom() == p.dom()
        &&& p.dom().contains(self.initial_state as int)
        &&& p[self.initial_state as int] == Seq::<Seq<char>>::empty()
        &&& forall|e: int| #[trigger]
            tr.dom().contains(e) ==> p.dom().contains(tr[e].0) && p.dom().contains(tr[e].1)
                && p[tr[e].1] == p[tr[e].0].push(tr[e].2)
        &&& forall|n: int|
            #[trigger] p.dom().contains(n) && n != self.initial_state ==> exists|e: int|
                #[trigger] tr.dom().contains(e) && tr[e].1 == n
        &&& forall|n: int| #[trigger] p.dom().contains(n) && st[n] ==> self.words@.contains(p[n])
        &&& forall|w: Seq<Seq<char>>|
            #[trigger] self.words@.contains(w) ==> exists|n: int|
                #[trigger] p.dom().contains(n) && st[n] && p[n] == w
    }

    /// No two transitions leave a state under one grapheme, no two states have one
    /// word, and each prefix of each inserted word is the word of a state.
    spec fn trie_ok(&self) -> bool {
        let p = self.paths@;
        &&& is_deterministic(graph_transitions(self.graph))
        &&& forall|n: int, m: int|
            #[trigger] p.dom().contains(n) && #[trigger] p.dom().contains(m) && p[n] == p[m] ==> n == m
        &&& forall|w: Seq<Seq<char>>, k: int|
            self.words@.contains(w) && 0 <= k <= w.len() ==> #[trigger] has_path(p, w.take(k))
    }

    /// The word of each state but the initial one is a prefix of a word of `ws`.
    spec fn on_words(&self, ws: Set<Seq<Seq<char>>>) -> bool {
        forall|n: int|
            #[trigger] self.paths@.dom().contains(n) && n != self.initial_state ==> exists|w: Seq<Seq<char>>, k: int|
                ws.contains(w) && 0 <= k <= w.len() && #[trigger] w.take(k) == self.paths@[n]
    }

    /// From a state whose word is a prefix of an inserted word, the rest of that word
    /// leads to acceptance.
    proof fn lemma_rest_accepted(&self, n: int, w: Seq<Seq<char>>, k: int)
        requires
            self.well_formed(),
            self.trie_ok(),
            self.words@.contains(w),
            0 <= k <= w.len(),
            self.paths@.dom().contains(n),
            self.paths@[n] == w.take(k),
        ensures
            accepts_from(self.states(), self.transitions(), n, w.skip(k)),
        decreases w.len() - k,
    {
        let p = self.paths@;
        let st = self.states();
        let tr = self.transitions();
        if k == w.len() {
            assert(w.take(k) =~= w);
            let m = choose|m: int| #[trigger] p.dom().contains(m) && st[m] && p[m] == w;
            assert(m == n);
            assert(w.skip(k).len() == 0);
        } else {
            assert(has_path(p, w.take(k + 1)));
            let m = choose|m: int| p.dom().contains(m) && p[m] == w.take(k + 1);
            assert(m != self.initial_state) by {
                assert(p[m].len() == k + 1);
            }
            let e = choose|e: int| #[trigger] tr.dom().contains(e) && tr[e].1 == m;
            let q = tr[e].0;
            assert(p[m] == p[q].push(tr[e].2));
            assert(p[q] =~= p[m].drop_last());
            assert(w.take(k + 1).drop_last() =~= w.take(k));
            assert(q == n);
            assert(tr[e].2 == p[m].last());
            self.lemma_rest_accepted(m, w, k + 1);
            assert(w.skip(k).drop_first() =~= w.skip(k + 1));
            assert(w.skip(k)[0] == w[k]);
            assert(tr.dom().contains(e) && tr[e].0 == n && tr[e].2 == w.skip(k)[0] && accepts_from(st, tr, tr[e].1, w.skip(k).drop_first()));
        }
    }

    /// A trie of at least one word is trimmed.
    proof fn lemma_trie_trimmed(&self)
        requires
            self.well_formed(),
            self.trie_ok(),
            self.on_words(self.words@),
            exists|w: Seq<Seq<char>>| self.words@.contains(w),
        ensures
            trimmed(self.states(), self.transitions(), self.initial()),
    {
        let p = self.paths@;
        assert forall|n: int| #[trigger] self.states().dom().contains(n) implies live(self.states(), self.transitions(), n) by {
            if n == self.initial_state {
                let w = choose|w: Seq<Seq<char>>| self.words@.contains(w);
                assert(w.take(0) =~= p[n]);
                self.lemma_rest_accepted(n, w, 0);
            } else {
                let (w, k) = choose|w: Seq<Seq<char>>, k: int|
                    self.words@.contains(w) && 0 <= k <= w.len() && #[trigger] w.take(k) == p[n];
                self.lemma_rest_accepted(n, w, k);
            }
        }
    }

    /// Each state of a well-formed automaton is reached from the initial state by its
    /// word.
    proof fn lemma_path_leads(&self, n: int)
        requires
            self.well_formed(),
            self.paths@.dom().contains(n),
        ensures
            leads(self.transitions(), self.initial(), self.paths@[n], n),
        decreases self.paths@[n].len(),
    {
        let tr = self.transitions();
        let p = self.paths@;
        if n == self.initial_state {
        } else {
            let e = choose|e: int| #[trigger] tr.dom().contains(e) && tr[e].1 == n;
            let q = tr[e].0;
            self.lemma_path_leads(q);
            self.lemma_leads_push(self.initial(), p[q], q, e);
        }
    }

    /// A path followed by a transition from its end is a path.
    proof fn lemma_leads_push(&self, a: int, w: Seq<Seq<char>>, q: int, e: int)
        requires
            leads(self.transitions(), a, w, q),
            self.transitions().dom().contains(e),
            self.transitions()[e].0 == q,
        ensures
            leads(self.transitions(), a, w.push(self.transitions()[e].2), self.transitions()[e].1),
        decreases w.len(),
    {
        let tr = self.transitions();
        let v = w.push(tr[e].2);
        if w.len() == 0 {
            assert(v.drop_first() =~= Seq::<Seq<char>>::empty());
            assert(v[0] == tr[e].2);
            assert(leads(tr, tr[e].1, v.drop_first(), tr[e].1));
        } else {
            let f = choose|f: int|
                #[trigger] tr.dom().contains(f) && tr[f].0 == a && tr[f].2 == w[0] && leads(tr, tr[f].1, w.drop_first(), q);
            self.lemma_leads_push(tr[f].1, w.drop_first(), q, e);
            assert(v.drop_first() =~= w.drop_first().push(tr[e].2));
            assert(v[0] == w[0]);
            assert(tr.dom().contains(f) && tr[f].0 == a && tr[f].2 == v[0] && leads(tr, tr[f].1, v.drop_first(), tr[e].1));
        }
    }

    /// What leads from a state to acceptance, appended to the state's word, is an
    /// inserted word.
    #[verifier::spinoff_prover]
    proof fn lemma_accepted_words(&self, s: int, u: Seq<Seq<char>>)
        requires
            self.well_formed(),
            self.paths@.dom().contains(s),
            accepts_from(self.states(), self.transitions(), s, u),
        ensures
            self.words@.contains(self.paths@[s] + u),
        decreases u.len(),
    {
        let st = self.states();
        let tr = self.transitions();
        if u.len() == 0 {
            assert(self.paths@[s] + u =~= self.paths@[s]);
        } else {
            let e = choose|e: int|
                #[trigger] tr.dom().contains(e) && tr[e].0 == s && tr[e].2 == u[0] && accepts_from(
                    st,
                    tr,
                    tr[e].1,
                    u.drop_first(),
                );
            self.lemma_accepted_words(tr[e].1, u.drop_first());
            assert(self.paths@[tr[e].1] + u.drop_first() =~= self.paths@[s] + u);
        }
    }

    /// What leads from a state to acceptance leads there from the initial state after
    /// the state's word.
    #[verifier::spinoff_prover]
    proof fn lemma_reached_words(&self, n: int, u: Seq<Seq<char>>)
        requires
            self.well_formed(),
            self.paths@.dom().contains(n),
            accepts_from(self.states(), self.transitions(), n, u),
        ensures
            accepts_from(self.states(), self.transitions(), self.initial(), self.paths@[n] + u),
        decreases self.paths@[n].len(),
    {
        let st = self.states();
        let tr = self.transitions();
        if n == self.initial_state {
            assert(self.paths@[n] + u =~= u);
        } else {
            let e = choose|e: int| #[trigger] tr.dom().contains(e) && tr[e].1 == n;
            let par = tr[e].0;
            let g = tr[e].2;
            let v = seq![g] + u;
            assert(v.drop_first() =~= u);
            assert(v[0] == g);
            assert(accepts_from(st, tr, par, v));
            self.lemma_reached_words(par, v);
            assert(self.paths@[par] + v =~= self.paths@[n] + u);
        }
    }

    /// A well-formed automaton accepts exactly the inserted words.
    proof fn lemma_language(&self)
        requires
            self.well_formed(),
        ensures
            self.language() =~= self.words@,
    {
        let st = self.states();
        let tr = self.transitions();
        let p = self.paths@;
        assert forall|w: Seq<Seq<char>>| #[trigger] self.language().contains(w) implies self.words@.contains(
            w,
        ) by {
            self.lemma_accepted_words(self.initial(), w);
            assert(p[self.initial()] + w =~= w);
        }
        assert forall|w: Seq<Seq<char>>| #[trigger] self.words@.contains(w) implies self.language().contains(
            w,
        ) by {
            let n = choose|n: int| #[trigger] p.dom().contains(n) && st[n] && p[n] == w;
            assert(accepts_from(st, tr, n, Seq::<Seq<char>>::empty()));
            self.lemma_reached_words(n, Seq::<Seq<char>>::empty());
            assert(p[n] + Seq::<Seq<char>>::empty() =~= w);
        }
    }

    /// An automaton with its initial state alone, which does not accept.
    fn new() -> (d: Self)
        ensures
            d.well_formed(),
            d.trie_ok(),
            d.on_words(d.words@),
            d.words@ == Set::<Seq<Seq<char>>>::empty(),
            d.paths@.dom() == set![d.initial_state as int],
    {
        let mut graph = graph_new();
        let initial_state = graph_add_state(&mut graph, false);
        let ghost paths = Map::<int, Seq<Seq<char>>>::empty().insert(
            initial_state as int,
            Seq::<Seq<char>>::empty(),
        );
        let d = DFA {
            graph,
            initial_state,
            paths: Ghost(paths),
            words: Ghost(Set::<Seq<Seq<char>>>::empty()),
        };
        proof {
            assert(graph_states(d.graph).dom() =~= paths.dom());
            assert(paths.dom() =~= set![initial_state as int]);
        }
        d
    }

    /// Adds a state that does not accept, and a transition under `label` from `current`
    /// to it.
    fn add_new_state(&mut self, current: usize, label: String, Ghost(target): Ghost<Seq<Seq<char>>>) -> (next: usize)
        requires
            old(self).well_formed(),
            old(self).trie_ok(),
            old(self).on_words(old(self).words@.insert(target)),
            old(self).paths@.dom().contains(current as int),
            !has_label(graph_transitions(old(self).graph), current as int, label@),
            old(self).paths@[current as int].len() < target.len(),
            target.take(old(self).paths@[current as int].len() as int + 1) == old(self).paths@[current as int].push(label@),
        ensures
            final(self).well_formed(),
            final(self).trie_ok(),
            final(self).on_words(old(self).words@.insert(target)),
            final(self).words@ == old(self).words@,
            final(self).paths@.dom().contains(next as int),
            final(self).paths@[next as int] == old(self).paths@[current as int].push(label@),
            final(self).initial_state == old(self).initial_state,
            old(self).paths@.dom().subset_of(final(self).paths@.dom()),
            forall|n: int| #[trigger] old(self).paths@.dom().contains(n) ==> final(self).paths@[n] == old(self).paths@[n],
    {
        let ghost old_paths = self.paths@;
        let ghost old_states = graph_states(self.graph);
        let ghost old_transitions = graph_transitions(self.graph);
        let next = graph_add_state(&mut self.graph, false);
        let ghost word = old_paths[current as int].push(label@);
        proof {
            self.paths@ = old_paths.insert(next as int, word);
        }
        let e = graph_add_transition(&mut self.graph, current, next, label);
        proof {
            let st = graph_states(self.graph);
            let tr = graph_transitions(self.graph);
            let p = self.paths@;
            assert(st.dom() =~= p.dom());
            assert forall|f: int| #[trigger]
                tr.dom().contains(f) implies p.dom().contains(tr[f].0) && p.dom().contains(tr[f].1)
                && p[tr[f].1] == p[tr[f].0].push(tr[f].2) by {
                if f != e {
                    assert(old_transitions.dom().contains(f));
                    assert(old_transitions[f] == tr[f]);
                }
            }
            assert forall|n: int|
                #[trigger] p.dom().contains(n) && n != self.initial_state implies exists|f: int|
                #[trigger] tr.dom().contains(f) && tr[f].1 == n by {
                if n == next {
                    assert(tr.dom().contains(e as int));
                } else {
                    let f = choose|f: int| #[trigger] old_transitions.dom().contains(f) && old_transitions[f].1 == n;
                    assert(tr.dom().contains(f));
                }
            }
            assert forall|n: int| #[trigger] p.dom().contains(n) && st[n] implies self.words@.contains(
                p[n],
            ) by {
                assert(n != next);
                assert(old_paths.dom().contains(n));
            }
            assert forall|w: Seq<Seq<char>>| #[trigger] self.words@.contains(w) implies exists|n: int|
                #[trigger] p.dom().contains(n) && st[n] && p[n] == w by {
                let n = choose|n: int| #[trigger] old_paths.dom().contains(n) && old_states[n] && old_paths[n] == w;
                assert(n != next);
                assert(p.dom().contains(n));
            }
            // No two transitions leave a state under one grapheme.
            assert forall|f: int, h: int|
                #[trigger] tr.dom().contains(f) && #[trigger] tr.dom().contains(h) && tr[f].0 == tr[h].0 && tr[f].2
                    == tr[h].2 implies tr[f].1 == tr[h].1 by {
                if f != e && h != e {
                    assert(old_transitions.dom().contains(f) && old_transitions.dom().contains(h));
                } else if f == e && h != e {
                    assert(old_transitions.dom().contains(h));
                    assert(has_label(old_transitions, current as int, label@));
                } else if h == e && f != e {
                    assert(old_transitions.dom().contains(f));
                    assert(has_label(old_transitions, current as int, label@));
                }
            }
            // No two states have one word.
            assert forall|n: int, m: int|
                #[trigger] p.dom().contains(n) && #[trigger] p.dom().contains(m) && p[n] == p[m] implies n == m by {
                if n != m && (n == next || m == next) {
                    let o = if n == next { m } else { n };
                    assert(old_paths.dom().contains(o));
                    assert(p[o] == word);
                    assert(o != self.initial_state) by {
                        assert(word.len() > 0);
                    }
                    let f = choose|f: int| #[trigger] old_transitions.dom().contains(f) && old_transitions[f].1 == o;
                    let q = old_transitions[f].0;
                    assert(old_paths[o] == old_paths[q].push(old_transitions[f].2));
                    assert(old_paths[q] =~= word.drop_last());
                    assert(old_paths[current as int] =~= word.drop_last());
                    assert(q == current);
                    assert(old_transitions[f].2 == word.last());
                    assert(has_label(old_transitions, current as int, label@));
                }
            }
            assert forall|w: Seq<Seq<char>>, k: int|
                self.words@.contains(w) && 0 <= k <= w.len() implies #[trigger] has_path(p, w.take(k)) by {
                assert(has_path(old_paths, w.take(k)));
                let n = choose|n: int| old_paths.dom().contains(n) && old_paths[n] == w.take(k);
                assert(p.dom().contains(n) && p[n] == w.take(k));
            }
            assert forall|n: int|
                #[trigger] p.dom().contains(n) && n != self.initial_state implies exists|w: Seq<Seq<char>>, k: int|
                    old(self).words@.insert(target).contains(w) && 0 <= k <= w.len() && #[trigger] w.take(k) == p[n] by {
                if n == next {
                    let k: int = old_paths[current as int].len() as int + 1;
                    assert(target.take(k) == p[n]);
                } else {
                    assert(old_paths.dom().contains(n));
                    let (w, k) = choose|w: Seq<Seq<char>>, k: int|
                        old(self).words@.insert(target).contains(w) && 0 <= k <= w.len() && #[trigger] w.take(k) == old_paths[n];
                    assert(w.take(k) == p[n]);
                }
            }
        }
        next
    }

    /// The state that `label` leads to from `current`: the target of an existing
    /// transition under `label`, or a new state.
    fn get_next_state(&mut self, current: usize, label: String, Ghost(target): Ghost<Seq<Seq<char>>>) -> (next: usize)
        requires
            old(self).well_formed(),
            old(self).trie_ok(),
            old(self).on_words(old(self).words@.insert(target)),
            old(self).paths@.dom().contains(current as int),
            old(self).paths@[current as int].len() < target.len(),
            target.take(old(self).paths@[current as int].len() as int + 1) == old(self).paths@[current as int].push(label@),
        ensures
            final(self).well_formed(),
            final(self).trie_ok(),
            final(self).on_words(old(self).words@.insert(target)),
            final(self).words@ == old(self).words@,
            final(self).paths@.dom().contains(next as int),
            final(self).paths@[next as int] == old(self).paths@[current as int].push(label@),
            final(self).initial_state == old(self).initial_state,
            old(self).paths@.dom().subset_of(final(self).paths@.dom()),
            forall|n: int| #[trigger] old(self).paths@.dom().contains(n) ==> final(self).paths@[n] == old(self).paths@[n],
    {
        let outgoing = graph_outgoing(&self.graph, current);
        let mut j: usize = 0;
        while j < outgoing.len()
            invariant
                j <= outgoing@.len(),
                self.well_formed(),
                self.trie_ok(),
                self.on_words(old(self).words@.insert(target)),
                self == old(self),
                self.paths@.dom().contains(current as int),
                forall|i: int| 0 <= i < j ==> (#[trigger] outgoing@[i]).0@ != label@,
                forall|i: int|
                    0 <= i < outgoing@.len() ==> #[trigger] has_transition(
                        graph_transitions(self.graph),
                        current as int,
                        outgoing@[i].1 as int,
                        outgoing@[i].0@,
                    ),
            decreases outgoing.len() - j,
        {
            if str_eq(outgoing[j].0.as_str(), label.as_str()) {
                let to = outgoing[j].1;
                proof {
                    let tr = graph_transitions(self.graph);
                    assert(has_transition(tr, current as int, to as int, outgoing@[j as int].0@));
                    let e = choose|e: int| #[trigger]
                        tr.dom().contains(e) && tr[e] == (
                            current as int,
                            to as int,
                            outgoing@[j as int].0@,
                        );
                    assert(tr.dom().contains(e));
                }
                return to;
            }
            j = j + 1;
        }
        proof {
            let tr = graph_transitions(self.graph);
            if has_label(tr, current as int, label@) {
                let e = choose|e: int| #[trigger] tr.dom().contains(e) && tr[e].0 == current as int && tr[e].2 == label@;
                let i = choose|i: int|
                    0 <= i < outgoing@.len() && #[trigger] outgoing@[i].1 == tr[e].1 && outgoing@[i].0@ == tr[e].2;
            }
        }
        self.add_new_state(current, label, Ghost(target))
    }

    /// Adds the path of a grapheme cluster, whose last state accepts.
    fn insert(&mut self, cluster: &GraphemeCluster)
        requires
            old(self).well_formed(),
            old(self).trie_ok(),
            old(self).on_words(old(self).words@),
        ensures
            final(self).well_formed(),
            final(self).trie_ok(),
            final(self).on_words(final(self).words@),
            final(self).words@ == old(self).words@.insert(cluster_word(cluster@.graphemes)),
    {
        let ghost word = cluster_word(cluster@.graphemes);
        let graphemes = cluster.graphemes();
        let mut current = self.initial_state;
        let mut i: usize = 0;
        while i < graphemes.len()
            invariant
                i <= graphemes@.len(),
                grapheme_models(graphemes@) == cluster@.graphemes,
                word == cluster_word(cluster@.graphemes),
                self.well_formed(),
                self.trie_ok(),
                self.on_words(old(self).words@.insert(word)),
                self.words@ == old(self).words@,
                self.paths@.dom().contains(current as int),
                self.paths@[current as int] == word.take(i as int),
                forall|k: int| 0 <= k <= i ==> #[trigger] has_path(self.paths@, word.take(k)),
            decreases graphemes.len() - i,
        {
            let label = graphemes[i].value();
            proof {
                assert(word[i as int] == graphemes@[i as int]@.value());
                assert(word.take(i + 1) =~= word.take(i as int).push(label@));
                assert(word.len() == graphemes@.len());
            }
            let ghost before = self.paths@;
            current = self.get_next_state(current, label, Ghost(word));
            proof {
                assert forall|k: int| 0 <= k <= i + 1 implies #[trigger] has_path(self.paths@, word.take(k)) by {
                    if k == i + 1 {
                        assert(self.paths@.dom().contains(current as int) && self.paths@[current as int] == word.take(k));
                    } else {
                        assert(has_path(before, word.take(k)));
                        let n = choose|n: int| before.dom().contains(n) && before[n] == word.take(k);
                        assert(self.paths@.dom().contains(n) && self.paths@[n] == word.take(k));
                    }
                }
            }
            i = i + 1;
        }
        proof {
            assert(word.take(i as int) =~= word);
        }
        let ghost old_paths = self.paths@;
        let ghost old_states = graph_states(self.graph);
        let ghost old_words = self.words@;
        graph_set_accepting(&mut self.graph, current, true);
        proof {
            self.words@ = old_words.insert(word);
            let st = graph_states(self.graph);
            let p = self.paths@;
            assert(st.dom() =~= p.dom());
            assert forall|n: int| #[trigger] p.dom().contains(n) && st[n] implies self.words@.contains(
                p[n],
            ) by {
                if n != current {
                    assert(old_states[n]);
                }
            }
            assert forall|w: Seq<Seq<char>>| #[trigger] self.words@.contains(w) implies exists|n: int|
                #[trigger] p.dom().contains(n) && st[n] && p[n] == w by {
                if w == word {
                    assert(p.dom().contains(current as int) && st[current as int]);
                } else {
                    let n = choose|n: int| #[trigger] old_paths.dom().contains(n) && old_states[n] && old_paths[n] == w;
                    assert(p.dom().contains(n) && st[n]);
                }
            }
            assert forall|w: Seq<Seq<char>>, k: int|
                self.words@.contains(w) && 0 <= k <= w.len() implies #[trigger] has_path(p, w.take(k)) by {
                if w != word {
                    assert(old_words.contains(w));
                }
            }
        }
    }

    /// The minimal automaton of the grapheme clusters: it accepts exactly their words,
    /// every state is reached from the initial one, and no two of its states accept
    /// the same words.
    pub fn from(grapheme_clusters: &Vec<GraphemeCluster>) -> (d: Self)
        ensures
            d.language() == cluster_words(grapheme_clusters@),
            forall|x: int, y: int|
                #[trigger] d.states().dom().contains(x) && #[trigger] d.states().dom().contains(y) && x != y ==> differ(
                    d.states(),
                    d.transitions(),
                    x,
                    y,
                ),
            all_reachable(d.states(), d.transitions(), d.initial()),
    {
        let mut d = DFA::new();
        let ghost init = d.initial_state as int;
        let mut i: usize = 0;
        while i < grapheme_clusters.len()
            invariant
                i <= grapheme_clusters@.len(),
                d.well_formed(),
                d.trie_ok(),
                d.on_words(d.words@),
                i == 0 ==> d.paths@.dom() == set![init],
                i == 0 ==> d.initial_state == init,
                d.words@ =~= Set::new(
                    |w: Seq<Seq<char>>|
                        exists|k: int|
                            0 <= k < i && cluster_word(#[trigger] grapheme_clusters@[k]@.graphemes) == w,
                ),
            decreases grapheme_clusters.len() - i,
        {
            let ghost before = d.words@;
            d.insert(&grapheme_clusters[i]);
            proof {
                let w_i = cluster_word(grapheme_clusters@[i as int]@.graphemes);
                assert forall|w: Seq<Seq<char>>| #[trigger] d.words@.contains(w) == (exists|k: int|
                    0 <= k < i + 1 && cluster_word(#[trigger] grapheme_clusters@[k]@.graphemes) == w) by {
                    if w == w_i {
                        assert(cluster_word(grapheme_clusters@[i as int]@.graphemes) == w);
                    }
                    if exists|k: int|
                        0 <= k < i + 1 && cluster_word(#[trigger] grapheme_clusters@[k]@.graphemes) == w {
                        let k = choose|k: int|
                            0 <= k < i + 1 && cluster_word(#[trigger] grapheme_clusters@[k]@.graphemes) == w;
                        if k < i {
                            assert(before.contains(w));
                        }
                    }
                }
            }
            i = i + 1;
        }
        proof {
            d.lemma_language();
            assert(d.words@ =~= cluster_words(grapheme_clusters@));
            if i > 0 {
                assert(d.words@.contains(cluster_word(grapheme_clusters@[0]@.graphemes)));
                d.lemma_trie_trimmed();
            }
            assert forall|x: int| #[trigger] d.states().dom().contains(x) implies reachable(d.transitions(), d.initial(), x) by {
                d.lemma_path_leads(x);
            }
        }
        let ghost before = d.states();
        d.minimize();
        proof {
            if i == 0 {
                assert(before.dom() =~= set![init]);
                assert forall|x: int, y: int|
                    #[trigger] d.states().dom().contains(x) && #[trigger] d.states().dom().contains(y) && x != y implies differ(
                        d.states(),
                        d.transitions(),
                        x,
                        y,
                    ) by {
                    let s2 = d.states().dom();
                    assert(s2.len() <= 1);
                    assert(s2.remove(x).contains(y));
                    assert(s2.remove(x).len() == s2.len() - 1);
                }
            }
        }
        d
    }

    /// The number of states.
    pub fn state_count(&self) -> (n: usize)
        ensures
            n == self.states().dom().len(),
    {
        graph_state_count(&self.graph)
    }

    /// The index of the initial state.
    pub fn initial_state(&self) -> (s: usize)
        ensures
            s == self.initial(),
    {
        self.initial_state
    }

    /// Whether a state accepts.
    pub fn is_final_state(&self, state: usize) -> (b: bool)
        requires
            self.states().dom().contains(state as int),
        ensures
            b == self.states()[state as int],
    {
        graph_is_accepting(&self.graph, state)
    }

    /// The grapheme and the target of each transition that leaves a state.
    pub fn outgoing_edges(&self, state: usize) -> (v: Vec<(String, usize)>)
        ensures
            forall|i: int|
                0 <= i < v@.len() ==> #[trigger] has_transition(
                    self.transitions(),
                    state as int,
                    v@[i].1 as int,
                    v@[i].0@,
                ),
            forall|e: int|
                #[trigger] self.transitions().dom().contains(e) && self.transitions()[e].0 == state
                    ==> exists|i: int|
                    0 <= i < v@.len() && #[trigger] v@[i].1 == self.transitions()[e].1
                        && v@[i].0@ == self.transitions()[e].2,
    {
        graph_outgoing(&self.graph, state)
    }

    /// Removes the states from which no word leads to acceptance and those that no
    /// transition enters, but the initial state, examining each state in turn and again
    /// each target of a removed state. What the automaton accepts stays the same; the
    /// states left are old ones with their old acceptance, the transitions left are
    /// the old ones that join no removed state, and each state left but the initial
    /// one has a transition into it.
    pub fn remove_dead_ends(&mut self)
        ensures
            final(self).language() == old(self).language(),
            final(self).initial() == old(self).initial(),
            final(self).states().dom().subset_of(old(self).states().dom()),
            forall|n: int| #[trigger] final(self).states().dom().contains(n) ==> final(self).states()[n] == old(self).states()[n],
            old(self).states().dom().contains(old(self).initial()) ==> final(self).states().dom().contains(final(self).initial()),
            final(self).transitions() == transitions_kept(
                old(self).transitions(),
                old(self).states().dom().difference(final(self).states().dom()),
            ),
            forall|n: int|
                #[trigger] final(self).states().dom().contains(n) && n != final(self).initial() ==> entered(
                    final(self).transitions(),
                    n,
                ),
            forall|n: int, w: Seq<Seq<char>>|
                final(self).states().dom().contains(n) ==> #[trigger] accepts_from(
                    final(self).states(),
                    final(self).transitions(),
                    n,
                    w,
                ) == accepts_from(old(self).states(), old(self).transitions(), n, w),
            old(self).states().dom().finite(),
            all_reachable(old(self).states(), old(self).transitions(), old(self).initial()) ==> all_reachable(
                final(self).states(),
                final(self).transitions(),
                final(self).initial(),
            ),
    {
        let ghost lang = self.language();
        let ghost st0 = self.states();
        let ghost tr0 = self.transitions();
        let mut queue = graph_state_indices(&self.graph);
        proof {
            let st = graph_states(self.graph);
            assert(st.dom() =~= queue@.map_values(|q: usize| q as int).to_set()) by {
                assert forall|n: int| st.dom().contains(n) implies queue@.map_values(
                    |q: usize| q as int,
                ).to_set().contains(n) by {
                    let i = choose|i: int| 0 <= i < queue@.len() && #[trigger] queue@[i] as int == n;
                    assert(queue@.map_values(|q: usize| q as int)[i] == n);
                }
            }
            vstd::seq_lib::seq_to_set_is_finite(queue@.map_values(|q: usize| q as int));
            assert(tr0 =~= transitions_kept(tr0, st0.dom().difference(st0.dom())));
        }
        let mut head: usize = 0;
        while head < queue.len()
            invariant
                head <= queue@.len(),
                graph_states(self.graph).dom().finite(),
                self.initial() == old(self).initial(),
                st0 == old(self).states(),
                tr0 == old(self).transitions(),
                forall|w: Seq<Seq<char>>|
                    accepts_from(self.states(), self.transitions(), self.initial(), w) == lang.contains(w),
                forall|n: int, w: Seq<Seq<char>>|
                    self.states().dom().contains(n) ==> #[trigger] accepts_from(self.states(), self.transitions(), n, w)
                        == accepts_from(st0, tr0, n, w),
                st0.dom().finite(),
                all_reachable(st0, tr0, self.initial()) ==> all_reachable(self.states(), self.transitions(), self.initial()),
                self.states().dom().subset_of(st0.dom()),
                forall|n: int| #[trigger] self.states().dom().contains(n) ==> self.states()[n] == st0[n],
                st0.dom().contains(self.initial()) ==> self.states().dom().contains(self.initial()),
                self.transitions() == transitions_kept(tr0, st0.dom().difference(self.states().dom())),
                forall|n: int|
                    #[trigger] self.states().dom().contains(n) && n != self.initial() && !entered(self.transitions(), n)
                        ==> exists|i: int| head <= i < queue@.len() && #[trigger] queue@[i] as int == n,
            decreases graph_states(self.graph).dom().len(), queue@.len() - head,
        {
            let state = queue[head];
            let ghost h = head;
            head = head + 1;
            if !graph_contains_state(&self.graph, state) || state == self.initial_state {
                proof {
                    assert forall|n: int|
                        #[trigger] self.states().dom().contains(n) && n != self.initial() && !entered(self.transitions(), n)
                            implies exists|i: int| head <= i < queue@.len() && #[trigger] queue@[i] as int == n by {
                        let i = choose|i: int| h <= i < queue@.len() && #[trigger] queue@[i] as int == n;
                        assert(i != h);
                    }
                }
                continue;
            }
            let outgoing = graph_outgoing(&self.graph, state);
            let incoming = graph_incoming(&self.graph, state);
            let is_final = graph_is_accepting(&self.graph, state);
            let has_outgoing = outgoing.len() > 0;
            let has_incoming = incoming.len() > 0;
            if (has_outgoing || is_final) && has_incoming {
                proof {
                    assert(joins(self.transitions(), incoming@[0] as int, state as int));
                    assert(entered(self.transitions(), state as int)) by {
                        let f = choose|f: int| #[trigger] self.transitions().dom().contains(f) && self.transitions()[f].0 == incoming@[0] as int && self.transitions()[f].1 == state as int;
                        assert(self.transitions().dom().contains(f) && self.transitions()[f].1 == state as int);
                    }
                    assert forall|n: int|
                        #[trigger] self.states().dom().contains(n) && n != self.initial() && !entered(self.transitions(), n)
                            implies exists|i: int| head <= i < queue@.len() && #[trigger] queue@[i] as int == n by {
                        let i = choose|i: int| h <= i < queue@.len() && #[trigger] queue@[i] as int == n;
                        assert(i != h);
                    }
                }
                continue;
            }
            let ghost st = graph_states(self.graph);
            let ghost tr = graph_transitions(self.graph);
            proof {
                if !has_incoming {
                    assert forall|e: int| #[trigger] tr.dom().contains(e) implies tr[e].1 != state by {
                        if tr[e].1 == state {
                            let i = choose|i: int| 0 <= i < incoming@.len() && #[trigger] incoming@[i] as int == tr[e].0;
                        }
                    }
                } else {
                    assert forall|e: int| #[trigger] tr.dom().contains(e) implies tr[e].0 != state by {
                        if tr[e].0 == state {
                            let i = choose|i: int|
                                0 <= i < outgoing@.len() && #[trigger] outgoing@[i].1 == tr[e].1
                                    && outgoing@[i].0@ == tr[e].2;
                        }
                    }
                }
                assert forall|w: Seq<Seq<char>>|
                    accepts_from(st, tr, self.initial(), w) == accepts_from(
                        st.remove(state as int),
                        without_state(tr, state as int),
                        self.initial(),
                        w,
                    ) by {
                    lemma_remove_dead_state(st, tr, state as int, self.initial(), w);
                }
                if all_reachable(st0, tr0, self.initial()) {
                    assert forall|x: int| #[trigger] st.remove(state as int).dom().contains(x) implies reachable(
                        without_state(tr, state as int),
                        self.initial(),
                        x,
                    ) by {
                        assert(st.dom().contains(x));
                        let w = choose|w: Seq<Seq<char>>| #[trigger] leads(tr, self.initial(), w, x);
                        lemma_leads_without(tr, state as int, self.initial(), w, x);
                    }
                }
                assert forall|n: int, w: Seq<Seq<char>>|
                    st.remove(state as int).dom().contains(n) implies #[trigger] accepts_from(
                        st.remove(state as int),
                        without_state(tr, state as int),
                        n,
                        w,
                    ) == accepts_from(st0, tr0, n, w) by {
                    lemma_remove_dead_state(st, tr, state as int, n, w);
                }
            }
            let ghost q0 = queue@;
            let mut k: usize = 0;
            while k < outgoing.len()
                invariant
                    k <= outgoing@.len(),
                    head <= q0.len(),
                    queue@.len() == q0.len() + k,
                    forall|i: int| 0 <= i < q0.len() ==> queue@[i] == q0[i],
                    forall|i: int| 0 <= i < k ==> queue@[q0.len() + i] == (#[trigger] outgoing@[i]).1,
                decreases outgoing.len() - k,
            {
                queue.push(outgoing[k].1);
                k = k + 1;
            }
            graph_remove_state(&mut self.graph, state);
            proof {
                let st2 = graph_states(self.graph);
                let tr2 = graph_transitions(self.graph);
                assert(st0.dom().difference(st2.dom()) =~= st0.dom().difference(st.dom()).insert(state as int));
                assert(tr2 =~= transitions_kept(tr0, st0.dom().difference(st2.dom())));
                assert forall|n: int|
                    #[trigger] st2.dom().contains(n) && n != self.initial() && !entered(tr2, n) implies exists|i: int|
                    head <= i < queue@.len() && #[trigger] queue@[i] as int == n by {
                    if entered(tr, n) {
                        let e = choose|e: int| #[trigger] tr.dom().contains(e) && tr[e].1 == n;
                        assert(!tr2.dom().contains(e));
                        assert(tr[e].0 == state);
                        let i = choose|i: int|
                            0 <= i < outgoing@.len() && #[trigger] outgoing@[i].1 == tr[e].1 && outgoing@[i].0@ == tr[e].2;
                        assert(queue@[q0.len() + i] == outgoing@[i].1);
                    } else {
                        let i = choose|i: int| h <= i < q0.len() && #[trigger] q0[i] as int == n;
                        assert(i != h);
                        assert(queue@[i] == q0[i]);
                    }
                }
            }
        }
        proof {
            assert forall|n: int|
                #[trigger] self.states().dom().contains(n) && n != self.initial() implies entered(self.transitions(), n) by {
                if !entered(self.transitions(), n) {
                    let i = choose|i: int| head <= i < queue@.len() && #[trigger] queue@[i] as int == n;
                }
            }
        }
    }

    /// The number of transitions.
    pub fn transition_count(&self) -> (n: usize)
        ensures
            n == self.transitions().dom().len(),
    {
        graph_transition_count(&self.graph)
    }

    /// Merges the states that accept the same words: the classes of the states are
    /// refined until states of a class agree on acceptance and lead under the same
    /// graphemes into the same classes, and each class becomes one state. What the
    /// automaton accepts stays the same, and the states do not grow in number; where
    /// the automaton is deterministic and each of its states leads to acceptance, no
    /// two states are left that accept the same words.
    fn deduplicate_equivalent_states(&mut self)
        ensures
            final(self).language() == old(self).language(),
            old(self).states().dom().finite() ==> final(self).states().dom().finite()
                && final(self).states().dom().len() <= old(self).states().dom().len(),
            minimal_if_trimmed(old(self).states(), old(self).transitions(), old(self).initial(), final(self).states(), final(self).transitions()),
            all_reachable(old(self).states(), old(self).transitions(), old(self).initial()) ==> all_reachable(
                final(self).states(),
                final(self).transitions(),
                final(self).initial(),
            ),
    {
        if !graph_contains_state(&self.graph, self.initial_state) {
            return;
        }
        let ghost st = graph_states(self.graph);
        let ghost tr = graph_transitions(self.graph);
        let ghost lang = self.language();
        let classes = equivalence_classes(&self.graph);
        match classes {
            (c, count) => {
                proof {
                    assert forall|n: int| #[trigger] st.dom().contains(n) implies c@[n] < usize::MAX by {
                        assert(c@[n] < count);
                    }
                }
                match quotient(&self.graph, &c) {
                    None => {},
                    Some((g2, nn)) => {
                        let init = self.initial_state;
                        proof {
                            lemma_congruence_class(st, tr, c@, init as int);
                            lemma_quotient_state(st, tr, c@, graph_states(g2), graph_transitions(g2), nn@, init as int);
                        }
                        let init2 = nn[c[init]];
                        let ghost st2 = graph_states(g2);
                        let ghost tr2 = graph_transitions(g2);
                        proof {
                            assert forall|w: Seq<Seq<char>>|
                                accepts_from(st, tr, init as int, w) == accepts_from(st2, tr2, init2 as int, w) by {
                                if accepts_from(st, tr, init as int, w) {
                                    lemma_quotient_keeps(st, tr, c@, st2, tr2, nn@, init as int, w);
                                }
                                if accepts_from(st2, tr2, init2 as int, w) {
                                    lemma_quotient_adds_nothing(st, tr, c@, st2, tr2, nn@, init as int, w);
                                }
                            }
                            if nn@.len() > 0 {
                                let top = nn@.len() - 1;
                                assert(class_reached(st, c@, top));
                                let n = choose|n: int| #[trigger] st.dom().contains(n) && top <= c@[n];
                                assert(c@[n] < count);
                            }
                            if all_reachable(st, tr, init as int) {
                                assert forall|x: int| #[trigger] st2.dom().contains(x) implies reachable(tr2, init2 as int, x) by {
                                    assert(stands_for_class(nn@, x));
                                    let cx = choose|cl: int| 0 <= cl < nn@.len() && #[trigger] nn@[cl] as int == x;
                                    assert(class_reached(st, c@, cx));
                                    let mx = choose|n: int| #[trigger] st.dom().contains(n) && cx <= c@[n];
                                    assert(c@[mx] < count);
                                    assert(used_by_state(st, c@, cx as usize));
                                    let n1 = choose|n: int| #[trigger] st.dom().contains(n) && c@[n] == cx as usize;
                                    assert(reachable(tr, init as int, n1));
                                    let w = choose|w: Seq<Seq<char>>| #[trigger] leads(tr, init as int, w, n1);
                                    lemma_quotient_leads(st, tr, c@, st2, tr2, nn@, init as int, w, n1);
                                    lemma_quotient_state(st, tr, c@, st2, tr2, nn@, n1);
                                    assert(leads(tr2, init2 as int, w, x));
                                }
                            }
                            if is_deterministic(tr) && (forall|n: int| #[trigger] st.dom().contains(n) ==> live(st, tr, n)) {
                                assert(classes_separate(st, tr, c@));
                                assert forall|x: int, y: int|
                                    #[trigger] st2.dom().contains(x) && #[trigger] st2.dom().contains(y) && x != y implies differ(st2, tr2, x, y) by {
                                    assert(stands_for_class(nn@, x) && stands_for_class(nn@, y));
                                    let cx = choose|cl: int| 0 <= cl < nn@.len() && #[trigger] nn@[cl] as int == x;
                                    let cy = choose|cl: int| 0 <= cl < nn@.len() && #[trigger] nn@[cl] as int == y;
                                    assert(class_reached(st, c@, cx));
                                    assert(class_reached(st, c@, cy));
                                    let mx = choose|n: int| #[trigger] st.dom().contains(n) && cx <= c@[n];
                                    let my = choose|n: int| #[trigger] st.dom().contains(n) && cy <= c@[n];
                                    assert(c@[mx] < count && c@[my] < count);
                                    let idx = cx as usize;
                                    let idy = cy as usize;
                                    assert(idx < count && idy < count);
                                    assert(used_by_state(st, c@, idx));
                                    assert(used_by_state(st, c@, idy));
                                    let n1 = choose|n: int| #[trigger] st.dom().contains(n) && c@[n] == idx;
                                    let n2 = choose|n: int| #[trigger] st.dom().contains(n) && c@[n] == idy;
                                    assert(c@[n1] != c@[n2]);
                                    assert(differ(st, tr, n1, n2));
                                    let w = choose|w: Seq<Seq<char>>| accepts_from(st, tr, n1, w) != accepts_from(st, tr, n2, w);
                                    lemma_quotient_state(st, tr, c@, st2, tr2, nn@, n1);
                                    lemma_quotient_state(st, tr, c@, st2, tr2, nn@, n2);
                                    assert(nn@[c@[n1] as int] as int == x);
                                    assert(nn@[c@[n2] as int] as int == y);
                                    if accepts_from(st, tr, n1, w) {
                                        lemma_quotient_keeps(st, tr, c@, st2, tr2, nn@, n1, w);
                                    } else {
                                        lemma_quotient_keeps(st, tr, c@, st2, tr2, nn@, n2, w);
                                    }
                                    if accepts_from(st2, tr2, x, w) {
                                        lemma_quotient_adds_nothing(st, tr, c@, st2, tr2, nn@, n1, w);
                                    }
                                    if accepts_from(st2, tr2, y, w) {
                                        lemma_quotient_adds_nothing(st, tr, c@, st2, tr2, nn@, n2, w);
                                    }
                                    assert(accepts_from(st2, tr2, x, w) != accepts_from(st2, tr2, y, w));
                                }
                            }
                        }
                        self.graph = g2;
                        self.initial_state = init2;
                        proof {
                            assert(self.language() =~= lang);
                        }
                    },
                }
            },
        }
    }

    /// Minimizes the automaton: removes its dead ends and merges the states that
    /// accept the same words. What it accepts stays the same, and its states do not
    /// grow in number; where every state is reached from the initial one, every state
    /// left is; where the automaton is deterministic and each of its states leads to
    /// acceptance, no two states are left that accept the same words.
    pub fn minimize(&mut self)
        ensures
            final(self).language() == old(self).language(),
            old(self).states().dom().finite(),
            final(self).states().dom().finite(),
            final(self).states().dom().len() <= old(self).states().dom().len(),
            minimal_if_trimmed(old(self).states(), old(self).transitions(), old(self).initial(), final(self).states(), final(self).transitions()),
            all_reachable(old(self).states(), old(self).transitions(), old(self).initial()) ==> all_reachable(
                final(self).states(),
                final(self).transitions(),
                final(self).initial(),
            ),
    {
        let ghost st0 = self.states();
        let ghost tr0 = self.transitions();
        let ghost init0 = self.initial();
        self.remove_dead_ends();
        proof {
            let st1 = self.states();
            let tr1 = self.transitions();
            vstd::set_lib::lemma_len_subset(st1.dom(), st0.dom());
            if trimmed(st0, tr0, init0) {
                assert forall|e: int, f: int|
                    #[trigger] tr1.dom().contains(e) && #[trigger] tr1.dom().contains(f) && tr1[e].0 == tr1[f].0
                        && tr1[e].2 == tr1[f].2 implies tr1[e].1 == tr1[f].1 by {
                    assert(tr0.dom().contains(e) && tr0.dom().contains(f));
                }
                assert forall|n: int| #[trigger] st1.dom().contains(n) implies live(st1, tr1, n) by {
                    let w = choose|w: Seq<Seq<char>>| accepts_from(st0, tr0, n, w);
                    assert(accepts_from(st1, tr1, n, w));
                }
                assert(trimmed(st1, tr1, self.initial()));
            }
        }
        self.deduplicate_equivalent_states();
    }

    /// The automaton of the words that this one accepts and `other` does not: its
    /// states stand for pairs of a state of each, or for a state of this one alone once
    /// `other` has no transition to follow; then `minimize` removes its dead ends and
    /// merges its equivalent states. `None`
    /// where `other` is not deterministic, or where either automaton lacks its initial
    /// state.
    pub fn subtract(&self, other: &Self) -> (r: Option<Self>)
        ensures
            (r is Some) == (is_deterministic(other.transitions()) && self.states().dom().contains(
                self.initial(),
            ) && other.states().dom().contains(other.initial())),
            r matches Some(d) ==> d.language() == self.language().difference(other.language()),
    {
        if !graph_contains_state(&self.graph, self.initial_state) || !graph_contains_state(
            &other.graph,
            other.initial_state,
        ) || !check_deterministic(&other.graph) {
            return None;
        }
        let ghost sa = graph_states(self.graph);
        let ghost ta = graph_transitions(self.graph);
        let ghost sb = graph_states(other.graph);
        let ghost tb = graph_transitions(other.graph);
        let a = graph_state_indices(&self.graph);
        let b = graph_state_indices(&other.graph);
        let mut prod: Vec<(usize, usize, bool)> = Vec::new();
        let mut i: usize = 0;
        while i < a.len()
            invariant
                i <= a@.len(),
                forall|p: int|
                    0 <= p < prod@.len() ==> (#[trigger] prod@[p]).0 < a@.len() && (prod@[p].2 ==> prod@[p].1
                        < b@.len()),
                forall|x: usize, y: usize| x < i && y < b@.len() ==> #[trigger] pair_listed(prod@, (x, y, true)),
            decreases a.len() - i,
        {
            let mut j: usize = 0;
            while j < b.len()
                invariant
                    i < a@.len(),
                    j <= b@.len(),
                    forall|p: int|
                        0 <= p < prod@.len() ==> (#[trigger] prod@[p]).0 < a@.len() && (prod@[p].2 ==> prod@[p].1
                            < b@.len()),
                    forall|x: usize, y: usize|
                        (x < i && y < b@.len()) || (x == i && y < j) ==> #[trigger] pair_listed(prod@, (x, y, true)),
                decreases b.len() - j,
            {
                let ghost before = prod@;
                prod.push((i, j, true));
                proof {
                    assert forall|x: usize, y: usize|
                        (x < i && y < b@.len()) || (x == i && y < j + 1) implies #[trigger] pair_listed(
                        prod@,
                        (x, y, true),
                    ) by {
                        if x == i && y == j {
                            assert(prod@[before.len() as int] == (x, y, true));
                        } else {
                            assert(pair_listed(before, (x, y, true)));
                            let p = choose|p: int| 0 <= p < before.len() && before[p] == (x, y, true);
                            assert(prod@[p] == before[p]);
                        }
                    }
                }
                j = j + 1;
            }
            i = i + 1;
        }
        let mut i: usize = 0;
        while i < a.len()
            invariant
                i <= a@.len(),
                forall|p: int|
                    0 <= p < prod@.len() ==> (#[trigger] prod@[p]).0 < a@.len() && (prod@[p].2 ==> prod@[p].1
                        < b@.len()),
                forall|x: usize, y: usize| x < a@.len() && y < b@.len() ==> #[trigger] pair_listed(prod@, (x, y, true)),
                forall|x: usize| x < i ==> #[trigger] pair_listed(prod@, (x, 0usize, false)),
            decreases a.len() - i,
        {
            let ghost before = prod@;
            prod.push((i, 0, false));
            proof {
                assert forall|x: usize, y: usize| x < a@.len() && y < b@.len() implies #[trigger] pair_listed(
                    prod@,
                    (x, y, true),
                ) by {
                    assert(pair_listed(before, (x, y, true)));
                    let p = choose|p: int| 0 <= p < before.len() && before[p] == (x, y, true);
                    assert(prod@[p] == before[p]);
                }
                assert forall|x: usize| x < i + 1 implies #[trigger] pair_listed(prod@, (x, 0usize, false)) by {
                    if x == i {
                        assert(prod@[before.len() as int] == (x, 0usize, false));
                    } else {
                        assert(pair_listed(before, (x, 0usize, false)));
                        let p = choose|p: int| 0 <= p < before.len() && before[p] == (x, 0usize, false);
                        assert(prod@[p] == before[p]);
                    }
                }
            }
            i = i + 1;
        }
        let mut g = graph_new();
        let mut pnode: Vec<usize> = Vec::new();
        let ghost mut owner: Map<int, int> = Map::empty();
        let mut p: usize = 0;
        while p < prod.len()
            invariant
                p <= prod@.len(),
                pnode@.len() == p,
                sa == graph_states(self.graph),
                sb == graph_states(other.graph),
                owner.dom() == graph_states(g).dom(),
                graph_transitions(g) == Map::<int, (int, int, Seq<char>)>::empty(),
                forall|i: int| 0 <= i < a@.len() ==> sa.dom().contains(#[trigger] a@[i] as int),
                forall|i: int| 0 <= i < b@.len() ==> sb.dom().contains(#[trigger] b@[i] as int),
                forall|q: int|
                    0 <= q < prod@.len() ==> (#[trigger] prod@[q]).0 < a@.len() && (prod@[q].2 ==> prod@[q].1
                        < b@.len()),
                forall|q: int|
                    0 <= q < p ==> graph_states(g).dom().contains(#[trigger] pnode@[q] as int) && owner[pnode@[q] as int]
                        == q && graph_states(g)[pnode@[q] as int] == ((sa.dom().contains(a@[prod@[q].0 as int] as int)
                        && sa[a@[prod@[q].0 as int] as int]) && !(prod@[q].2 && sb.dom().contains(
                        b@[prod@[q].1 as int] as int,
                    ) && sb[b@[prod@[q].1 as int] as int])),
            decreases prod.len() - p,
        {
            let x = prod[p].0;
            let y = prod[p].1;
            let both = prod[p].2;
            let accept_a = graph_is_accepting(&self.graph, a[x]);
            let accept = if both {
                accept_a && !graph_is_accepting(&other.graph, b[y])
            } else {
                accept_a
            };
            let ghost old_states = graph_states(g);
            let n = graph_add_state(&mut g, accept);
            proof {
                owner = owner.insert(n as int, p as int);
            }
            pnode.push(n);
            proof {
                assert forall|q: int| 0 <= q < p + 1 implies graph_states(g).dom().contains(#[trigger] pnode@[q] as int)
                    && owner[pnode@[q] as int] == q && graph_states(g)[pnode@[q] as int] == ((sa.dom().contains(
                    a@[prod@[q].0 as int] as int,
                ) && sa[a@[prod@[q].0 as int] as int]) && !(prod@[q].2 && sb.dom().contains(
                    b@[prod@[q].1 as int] as int,
                ) && sb[b@[prod@[q].1 as int] as int])) by {
                    if q < p {
                        assert(old_states.dom().contains(pnode@[q] as int));
                    }
                }
            }
            p = p + 1;
        }
        let mut p: usize = 0;
        while p < prod.len()
            invariant
                p <= prod@.len(),
                sa == graph_states(self.graph),
                ta == graph_transitions(self.graph),
                sb == graph_states(other.graph),
                tb == graph_transitions(other.graph),
                product_states_ok(sa, sb, graph_states(g), a@, b@, prod@, pnode@, owner),
                product_transitions_sound(ta, tb, graph_transitions(g), a@, b@, prod@, pnode@, owner),
                forall|q: int|
                    0 <= q < p ==> #[trigger] product_pair_complete(ta, graph_transitions(g), a@, prod@, pnode@, owner, q),
                forall|q: int|
                    0 <= q < prod@.len() ==> (#[trigger] prod@[q]).0 < a@.len() && (prod@[q].2 ==> prod@[q].1
                        < b@.len()),
                forall|i: int| 0 <= i < a@.len() ==> sa.dom().contains(#[trigger] a@[i] as int),
                forall|i: int| 0 <= i < b@.len() ==> sb.dom().contains(#[trigger] b@[i] as int),
                forall|n: int|
                    #[trigger] sa.dom().contains(n) ==> exists|i: int| 0 <= i < a@.len() && #[trigger] a@[i] as int == n,
                forall|n: int|
                    #[trigger] sb.dom().contains(n) ==> exists|i: int| 0 <= i < b@.len() && #[trigger] b@[i] as int == n,
                forall|x: usize, y: usize| x < a@.len() && y < b@.len() ==> #[trigger] pair_listed(prod@, (x, y, true)),
                forall|x: usize| x < a@.len() ==> #[trigger] pair_listed(prod@, (x, 0usize, false)),
            decreases prod.len() - p,
        {
            let x = prod[p].0;
            let y = prod[p].1;
            let both = prod[p].2;
            let out_a = graph_outgoing(&self.graph, a[x]);
            let out_b = if both {
                graph_outgoing(&other.graph, b[y])
            } else {
                Vec::new()
            };
            let mut k: usize = 0;
            while k < out_a.len()
                invariant
                    k <= out_a@.len(),
                    p < prod@.len(),
                    x == prod@[p as int].0,
                    y == prod@[p as int].1,
                    both == prod@[p as int].2,
                    sa == graph_states(self.graph),
                    ta == graph_transitions(self.graph),
                    sb == graph_states(other.graph),
                    tb == graph_transitions(other.graph),
                    product_states_ok(sa, sb, graph_states(g), a@, b@, prod@, pnode@, owner),
                    product_transitions_sound(ta, tb, graph_transitions(g), a@, b@, prod@, pnode@, owner),
                    forall|q: int|
                        0 <= q < p ==> #[trigger] product_pair_complete(ta, graph_transitions(g), a@, prod@, pnode@, owner, q),
                    forall|q: int|
                        0 <= q < prod@.len() ==> (#[trigger] prod@[q]).0 < a@.len() && (prod@[q].2 ==> prod@[q].1
                            < b@.len()),
                    x < a@.len(),
                    both ==> y < b@.len(),
                    forall|i: int| 0 <= i < a@.len() ==> sa.dom().contains(#[trigger] a@[i] as int),
                    forall|i: int| 0 <= i < b@.len() ==> sb.dom().contains(#[trigger] b@[i] as int),
                    forall|n: int|
                        #[trigger] sa.dom().contains(n) ==> exists|i: int| 0 <= i < a@.len() && #[trigger] a@[i] as int == n,
                    forall|n: int|
                        #[trigger] sb.dom().contains(n) ==> exists|i: int| 0 <= i < b@.len() && #[trigger] b@[i] as int == n,
                    forall|x: usize, y: usize| x < a@.len() && y < b@.len() ==> #[trigger] pair_listed(prod@, (x, y, true)),
                    forall|x: usize| x < a@.len() ==> #[trigger] pair_listed(prod@, (x, 0usize, false)),
                    forall|i: int|
                        0 <= i < out_a@.len() ==> #[trigger] has_transition(ta, a@[x as int] as int, out_a@[i].1 as int, out_a@[i].0@),
                    forall|i: int| 0 <= i < out_a@.len() ==> sa.dom().contains(#[trigger] out_a@[i].1 as int),
                    both ==> forall|i: int|
                        0 <= i < out_b@.len() ==> #[trigger] has_transition(tb, b@[y as int] as int, out_b@[i].1 as int, out_b@[i].0@),
                    both ==> forall|i: int| 0 <= i < out_b@.len() ==> sb.dom().contains(#[trigger] out_b@[i].1 as int),
                    both ==> forall|e: int|
                        #[trigger] tb.dom().contains(e) && tb[e].0 == b@[y as int] ==> exists|i: int|
                            0 <= i < out_b@.len() && #[trigger] out_b@[i].1 == tb[e].1 && out_b@[i].0@ == tb[e].2,
                    forall|i: int|
                        0 <= i < k ==> exists|f: int|
                            #[trigger] graph_transitions(g).dom().contains(f) && graph_transitions(g)[f].0 == pnode@[p as int]
                                && graph_transitions(g)[f].2 == (#[trigger] out_a@[i]).0@ && a@[prod@[owner[graph_transitions(g)[f].1]].0 as int]
                                == out_a@[i].1,
                decreases out_a.len() - k,
            {
                let l2 = out_a[k].1;
                let pl = position(&a, l2);
                proof {
                    let i = choose|i: int| 0 <= i < a@.len() && #[trigger] a@[i] as int == l2 as int;
                }
                let key = if both {
                    match find_label_target(&out_b, out_a[k].0.as_str()) {
                        Some(r2) => {
                            let pr = position(&b, r2);
                            proof {
                                let i = choose|i: int|
                                    0 <= i < out_b@.len() && #[trigger] out_b@[i].1 == r2 && out_b@[i].0@ == out_a@[k as int].0@;
                                assert(sb.dom().contains(out_b@[i].1 as int));
                                let j = choose|j: int| 0 <= j < b@.len() && #[trigger] b@[j] as int == r2 as int;
                                assert(has_transition(tb, b@[y as int] as int, out_b@[i].1 as int, out_b@[i].0@));
                                assert(has_transition(tb, b@[y as int] as int, b@[pr as int] as int, out_a@[k as int].0@));
                            }
                            (pl, pr, true)
                        },
                        None => {
                            proof {
                                if has_label(tb, b@[y as int] as int, out_a@[k as int].0@) {
                                    let e = choose|e: int|
                                        #[trigger] tb.dom().contains(e) && tb[e].0 == b@[y as int] as int && tb[e].2
                                            == out_a@[k as int].0@;
                                    let i = choose|i: int|
                                        0 <= i < out_b@.len() && #[trigger] out_b@[i].1 == tb[e].1 && out_b@[i].0@ == tb[e].2;
                                    assert(out_b@[i].0@ != out_a@[k as int].0@);
                                }
                            }
                            (pl, 0usize, false)
                        },
                    }
                } else {
                    (pl, 0usize, false)
                };
                let q = find_pair(&prod, key);
                proof {
                    assert(pair_listed(prod@, key));
                }
                let ghost old_tr = graph_transitions(g);
                let label = out_a[k].0.clone();
                proof {
                    assert(label@ == out_a@[k as int].0@);
                    assert(has_transition(ta, a@[x as int] as int, out_a@[k as int].1 as int, out_a@[k as int].0@));
                    assert(product_step(ta, tb, a@, b@, prod@[p as int], prod@[q as int], label@));
                    assert(owner[pnode@[p as int] as int] == p && owner[pnode@[q as int] as int] == q);
                }
                let f = graph_add_transition(&mut g, pnode[p], pnode[q], label);
                proof {
                    let tr = graph_transitions(g);
                    assert forall|h: int| #[trigger] tr.dom().contains(h) implies owner.dom().contains(tr[h].0)
                        && owner.dom().contains(tr[h].1) && 0 <= owner[tr[h].0] < prod@.len() && 0 <= owner[tr[h].1]
                        < prod@.len() && tr[h].0 == pnode@[owner[tr[h].0]] && tr[h].1 == pnode@[owner[tr[h].1]]
                        && product_step(ta, tb, a@, b@, prod@[owner[tr[h].0]], prod@[owner[tr[h].1]], tr[h].2) by {
                        if h != f {
                            assert(old_tr.dom().contains(h));
                        }
                    }
                    assert forall|q2: int|
                        0 <= q2 < p implies #[trigger] product_pair_complete(ta, tr, a@, prod@, pnode@, owner, q2) by {
                        assert(product_pair_complete(ta, old_tr, a@, prod@, pnode@, owner, q2));
                        assert forall|e: int|
                            #[trigger] ta.dom().contains(e) && ta[e].0 == a@[prod@[q2].0 as int] implies exists|h: int|
                            #[trigger] tr.dom().contains(h) && tr[h].0 == pnode@[q2] && tr[h].2 == ta[e].2
                                && a@[prod@[owner[tr[h].1]].0 as int] == ta[e].1 by {
                            let h = choose|h: int|
                                #[trigger] old_tr.dom().contains(h) && old_tr[h].0 == pnode@[q2] && old_tr[h].2 == ta[e].2
                                    && a@[prod@[owner[old_tr[h].1]].0 as int] == ta[e].1;
                            assert(tr.dom().contains(h));
                        }
                    }
                    assert forall|i: int|
                        0 <= i < k + 1 implies exists|h: int|
                        #[trigger] tr.dom().contains(h) && tr[h].0 == pnode@[p as int] && tr[h].2 == (
                        #[trigger] out_a@[i]).0@ && a@[prod@[owner[tr[h].1]].0 as int] == out_a@[i].1 by {
                        if i < k {
                            let h = choose|h: int|
                                #[trigger] old_tr.dom().contains(h) && old_tr[h].0 == pnode@[p as int] && old_tr[h].2 == (
                                #[trigger] out_a@[i]).0@ && a@[prod@[owner[old_tr[h].1]].0 as int] == out_a@[i].1;
                            assert(tr.dom().contains(h));
                        } else {
                            assert(tr.dom().contains(f as int));
                        }
                    }
                }
                k = k + 1;
            }
            proof {
                let tr = graph_transitions(g);
                assert forall|e: int|
                    #[trigger] ta.dom().contains(e) && ta[e].0 == a@[prod@[p as int].0 as int] implies exists|h: int|
                    #[trigger] tr.dom().contains(h) && tr[h].0 == pnode@[p as int] && tr[h].2 == ta[e].2
                        && a@[prod@[owner[tr[h].1]].0 as int] == ta[e].1 by {
                    let i = choose|i: int|
                        0 <= i < out_a@.len() && #[trigger] out_a@[i].1 == ta[e].1 && out_a@[i].0@ == ta[e].2;
                    assert(exists|h: int|
                        #[trigger] tr.dom().contains(h) && tr[h].0 == pnode@[p as int] && tr[h].2 == (
                        #[trigger] out_a@[i]).0@ && a@[prod@[owner[tr[h].1]].0 as int] == out_a@[i].1);
                }
                assert(product_pair_complete(ta, tr, a@, prod@, pnode@, owner, p as int));
            }
            p = p + 1;
        }
        let ia = position(&a, self.initial_state);
        let ib = position(&b, other.initial_state);
        proof {
            let i = choose|i: int| 0 <= i < a@.len() && #[trigger] a@[i] as int == self.initial_state as int;
            let j = choose|j: int| 0 <= j < b@.len() && #[trigger] b@[j] as int == other.initial_state as int;
            assert(pair_listed(prod@, (ia, ib, true)));
        }
        let p0 = find_pair(&prod, (ia, ib, true));
        let init = pnode[p0];
        let mut d = DFA {
            graph: g,
            initial_state: init,
            paths: Ghost(Map::empty()),
            words: Ghost(Set::empty()),
        };
        proof {
            assert forall|w: Seq<Seq<char>>|
                #[trigger] d.language().contains(w) == self.language().difference(other.language()).contains(w) by {
                lemma_product(
                    sa,
                    ta,
                    sb,
                    tb,
                    graph_states(d.graph),
                    graph_transitions(d.graph),
                    a@,
                    b@,
                    prod@,
                    pnode@,
                    owner,
                    p0 as int,
                    w,
                );
            }
            assert(d.language() =~= self.language().difference(other.language()));
        }
        d.minimize();
        Some(d)
    }
}

} // verus!
