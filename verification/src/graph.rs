//! The symbol graph: nodes keyed by name, edges from each node to the words
//! that it refers to (`edges_down`) and back (`edges_up`), and the trees that
//! `find_trees` gathers.

use vstd::prelude::*;
use crate::graph_node::{
    GraphNode, GraphNodeTreeType, GraphNodeView, clone_words, node_apply_tags,
};
use crate::word::{GraphNodeWord, WordView, word_lt};
use crate::listing::{AsmParser, listing_ok, parse_lines, entry_views};
use crate::graph_node::{entry_words_ok, nodes_of_entries, node_views};
use crate::text::split_lines;
use crate::word_map::{
    WordMap, keys_sorted, lemma_get_after_insert, lemma_get_after_remove, pcontains, lemma_pget_value,
    lemma_pinsert_sorted, lemma_pinsert_values, lemma_premove_sorted, lemma_premove_values, pget,
    pinsert, premove,
};

verus! {

/// Nodes by name, in ascending name order.
pub type NodeSeq = Seq<(WordView, GraphNodeView)>;

/// Edge lists by node name, in ascending name order.
pub type EdgeSeq = Seq<(WordView, Seq<WordView>)>;

/// Trees by root name, in ascending name order.
pub type TreeSeq = Seq<(WordView, TreeView)>;

/// Options of a graph.
#[derive(Clone, Copy, Debug, PartialEq, Eq, Structural)]
pub struct GraphOptions {
    pub debug: bool,
}

/// A tree: a root node and the nodes that hang below it.
pub struct Tree {
    pub root: GraphNode,
    pub nodes: WordMap<GraphNode>,
}

/// The mathematical value of a [`Tree`].
#[verifier::ext_equal]
pub struct TreeView {
    pub root: GraphNodeView,
    pub nodes: NodeSeq,
}

impl DeepView for Tree {
    type V = TreeView;

    open spec fn deep_view(&self) -> TreeView {
        TreeView { root: self.root@, nodes: self.nodes@ }
    }
}

/// The symbol graph.
pub struct Graph {
    pub options: GraphOptions,
    pub nodes: WordMap<GraphNode>,
    pub edges_up: WordMap<Vec<GraphNodeWord>>,
    pub edges_down: WordMap<Vec<GraphNodeWord>>,
    pub grouped_nodes: WordMap<GraphNode>,
    pub trees: WordMap<Tree>,
}

/// The mathematical value of a [`Graph`].
#[verifier::ext_equal]
pub struct GraphView {
    pub options: GraphOptions,
    pub nodes: NodeSeq,
    pub edges_up: EdgeSeq,
    pub edges_down: EdgeSeq,
    pub grouped_nodes: NodeSeq,
    pub trees: TreeSeq,
}

impl View for Graph {
    type V = GraphView;

    open spec fn view(&self) -> GraphView {
        GraphView {
            options: self.options,
            nodes: self.nodes@,
            edges_up: self.edges_up@,
            edges_down: self.edges_down@,
            grouped_nodes: self.grouped_nodes@,
            trees: self.trees@,
        }
    }
}

/// Every map of the graph keeps its keys strictly ascending, and every node
/// is stored under its own name.
pub open spec fn graph_wf(g: GraphView) -> bool {
    &&& keys_sorted(g.nodes)
    &&& nodes_named(g.nodes)
    &&& keys_sorted(g.edges_up)
    &&& keys_sorted(g.edges_down)
    &&& keys_sorted(g.grouped_nodes)
    &&& keys_sorted(g.trees)
    &&& forall|i: int| 0 <= i < g.trees.len() ==> tree_wf(#[trigger] g.trees[i].1)
}

/// A tree's node map keeps its keys strictly ascending.
pub open spec fn tree_wf(t: TreeView) -> bool {
    keys_sorted(t.nodes)
}

/// The edge list of `k`, or the empty list.
pub open spec fn edges_of(e: EdgeSeq, k: WordView) -> Seq<WordView> {
    match pget(e, k) {
        Some(v) => v,
        None => seq![],
    }
}

/// `add_edge`: `to` appended to the words below `from`, and `from` to the
/// callers above `to`.
pub open spec fn spec_add_edge(g: GraphView, from: WordView, to: WordView) -> GraphView {
    GraphView {
        edges_down: pinsert(g.edges_down, from, edges_of(g.edges_down, from).push(to)),
        edges_up: pinsert(g.edges_up, to, edges_of(g.edges_up, to).push(from)),
        ..g
    }
}

/// `remove_related_edges`: both edge lists of `k` taken out.
pub open spec fn spec_remove_related_edges(g: GraphView, k: WordView) -> GraphView {
    GraphView { edges_up: premove(g.edges_up, k), edges_down: premove(g.edges_down, k), ..g }
}

/// The words of `v` other than `w`, in order.
pub open spec fn without_word(v: Seq<WordView>, w: WordView) -> Seq<WordView> {
    v.filter(not_word(w))
}

/// The test that keeps a word: it differs from `w`.
pub open spec fn not_word(w: WordView) -> spec_fn(WordView) -> bool {
    |x: WordView| x != w
}

/// `remove_edge`: `to` taken out of the words below `from`, and `from` out of
/// the words above `to`, where those lists exist.
pub open spec fn spec_remove_edge(g: GraphView, from: WordView, to: WordView) -> GraphView {
    GraphView {
        edges_down: match pget(g.edges_down, from) {
            Some(e) => pinsert(g.edges_down, from, without_word(e, to)),
            None => g.edges_down,
        },
        edges_up: match pget(g.edges_up, to) {
            Some(e) => pinsert(g.edges_up, to, without_word(e, from)),
            None => g.edges_up,
        },
        ..g
    }
}

/// A map with the single entry `k` → `edges_of(e, k)` (`edges_in`,
/// `edges_out`).
pub open spec fn single_edge_map(e: EdgeSeq, k: WordView) -> EdgeSeq {
    seq![(k, edges_of(e, k))]
}

/// A copy of an edge list map.
pub fn clone_edges(m: &WordMap<Vec<GraphNodeWord>>) -> (r: WordMap<Vec<GraphNodeWord>>)
    requires
        m.wf(),
    ensures
        r.wf(),
        r@ == m@,
{
    let mut r: WordMap<Vec<GraphNodeWord>> = WordMap::new();
    let mut i: usize = 0;
    while i < m.len()
        invariant
            m.wf(),
            r.wf(),
            i <= m@.len(),
            r@ == m@.take(i as int),
        decreases m@.len() - i,
    {
        proof {
            if i > 0 {
                assert(word_lt(m@[i - 1].0, m@[i as int].0));
            }
        }
        let k = m.key_at(i).duplicate();
        let v = clone_words(m.value_at(i));
        r.push_last(k, v);
        i = i + 1;
        assert(r@ =~= m@.take(i as int));
    }
    assert(m@.take(m@.len() as int) =~= m@);
    r
}

/// A copy of a node map.
pub fn clone_nodes(m: &WordMap<GraphNode>) -> (r: WordMap<GraphNode>)
    requires
        m.wf(),
    ensures
        r.wf(),
        r@ == m@,
{
    let mut r: WordMap<GraphNode> = WordMap::new();
    let mut i: usize = 0;
    while i < m.len()
        invariant
            m.wf(),
            r.wf(),
            i <= m@.len(),
            r@ == m@.take(i as int),
        decreases m@.len() - i,
    {
        proof {
            if i > 0 {
                assert(word_lt(m@[i - 1].0, m@[i as int].0));
            }
        }
        let k = m.key_at(i).duplicate();
        let v = m.value_at(i).duplicate();
        r.push_last(k, v);
        i = i + 1;
        assert(r@ =~= m@.take(i as int));
    }
    assert(m@.take(m@.len() as int) =~= m@);
    r
}

impl Graph {
    /// An empty graph with the given options.
    pub fn new(options: GraphOptions) -> (g: Graph)
        ensures
            graph_wf(g@),
            g@.options == options,
            g@.nodes.len() == 0,
            g@.edges_up.len() == 0,
            g@.edges_down.len() == 0,
            g@.grouped_nodes.len() == 0,
            g@.trees.len() == 0,
    {
        Graph {
            options,
            nodes: WordMap::new(),
            edges_up: WordMap::new(),
            edges_down: WordMap::new(),
            grouped_nodes: WordMap::new(),
            trees: WordMap::new(),
        }
    }

    /// The words that refer to `node` (`edges_in`): a map with the single
    /// entry `node` → its callers, or the empty list.
    pub fn edges_in(&self, node: &GraphNodeWord) -> (r: WordMap<Vec<GraphNodeWord>>)
        requires
            graph_wf(self@),
        ensures
            r.wf(),
            r@ == single_edge_map(self@.edges_up, node@),
    {
        let mut ret: WordMap<Vec<GraphNodeWord>> = WordMap::new();
        let found: Vec<GraphNodeWord> = match self.edges_up.get(node) {
            Some(f) => clone_words(f),
            None => Vec::new(),
        };
        assert(found.deep_view() =~= edges_of(self@.edges_up, node@));
        ret.push_last(node.duplicate(), found);
        assert(ret@ =~= single_edge_map(self@.edges_up, node@));
        ret
    }

    /// The words that `node` refers to (`edges_out`): a map with the single
    /// entry `node` → its words, or the empty list.
    pub fn edges_out(&self, node: &GraphNodeWord) -> (r: WordMap<Vec<GraphNodeWord>>)
        requires
            graph_wf(self@),
        ensures
            r.wf(),
            r@ == single_edge_map(self@.edges_down, node@),
    {
        let mut ret: WordMap<Vec<GraphNodeWord>> = WordMap::new();
        let found: Vec<GraphNodeWord> = match self.edges_down.get(node) {
            Some(f) => clone_words(f),
            None => Vec::new(),
        };
        assert(found.deep_view() =~= edges_of(self@.edges_down, node@));
        ret.push_last(node.duplicate(), found);
        assert(ret@ =~= single_edge_map(self@.edges_down, node@));
        ret
    }

    /// Records that `from` refers to `to` (`add_edge`); see [`spec_add_edge`].
    pub fn add_edge(&mut self, from: &GraphNodeWord, to: &GraphNodeWord)
        requires
            graph_wf(old(self)@),
        ensures
            graph_wf(final(self)@),
            final(self)@ == spec_add_edge(old(self)@, from@, to@),
    {
        let mut down: Vec<GraphNodeWord> = match self.edges_down.get(from) {
            Some(edge) => clone_words(edge),
            None => Vec::new(),
        };
        let ghost d0 = down.deep_view();
        down.push(to.duplicate());
        assert(down.deep_view() =~= d0.push(to@));
        assert(d0 =~= edges_of(old(self)@.edges_down, from@));
        self.edges_down.insert(from.duplicate(), down);
        match self.edges_up.get(to) {
            Some(edge) => {
                let mut up = clone_words(edge);
                let ghost u0 = up.deep_view();
                up.push(from.duplicate());
                assert(up.deep_view() =~= u0.push(from@));
                self.edges_up.insert(to.duplicate(), up);
            },
            None => {
                let mut up: Vec<GraphNodeWord> = Vec::new();
                up.push(from.duplicate());
                assert(up.deep_view() =~= seq![from@]);
                self.edges_up.insert(to.duplicate(), up);
            },
        }
        assert(self@ =~= spec_add_edge(old(self)@, from@, to@));
    }

    /// Takes out both edge lists of `node` (`remove_related_edges`).
    pub fn remove_related_edges(&mut self, node: &GraphNodeWord)
        requires
            graph_wf(old(self)@),
        ensures
            graph_wf(final(self)@),
            final(self)@ == spec_remove_related_edges(old(self)@, node@),
    {
        self.edges_up.remove(node);
        self.edges_down.remove(node);
        assert(self@ =~= spec_remove_related_edges(old(self)@, node@));
    }

    /// Takes the edge `from` → `to` out of both lists (`remove_edge`).
    pub fn remove_edge(&mut self, from: &GraphNodeWord, to: &GraphNodeWord)
        requires
            graph_wf(old(self)@),
        ensures
            graph_wf(final(self)@),
            final(self)@ == spec_remove_edge(old(self)@, from@, to@),
    {
        match self.edges_down.get(from) {
            Some(found) => {
                let kept = filter_out(found, to);
                self.edges_down.insert(from.duplicate(), kept);
            },
            None => {},
        }
        match self.edges_up.get(to) {
            Some(found) => {
                let kept = filter_out(found, from);
                self.edges_up.insert(to.duplicate(), kept);
            },
            None => {},
        }
        assert(self@ =~= spec_remove_edge(old(self)@, from@, to@));
    }

    /// Adds or replaces a node under its name (`add_node`).
    pub fn add_node(&mut self, node: GraphNode)
        requires
            graph_wf(old(self)@),
        ensures
            graph_wf(final(self)@),
            final(self)@ == (GraphView {
                nodes: pinsert(old(self)@.nodes, node@.name, node@),
                ..old(self)@
            }),
    {
        let ghost nv = node@;
        let name = node.name.duplicate();
        self.nodes.insert(name, node);
        assert(self@ =~= (GraphView { nodes: pinsert(old(self)@.nodes, nv.name, nv), ..old(self)@ }));
        assert forall|x: WordView| (#[trigger] pget(self@.nodes, x) matches Some(n) ==> n.name == x) by {
            lemma_get_after_insert(old(self)@.nodes, nv.name, nv, x);
        }
    }

    /// Takes out and returns the node under `node` (`pop_node`).
    pub fn pop_node(&mut self, node: GraphNodeWord) -> (r: Option<GraphNode>)
        requires
            graph_wf(old(self)@),
        ensures
            graph_wf(final(self)@),
            final(self)@ == (GraphView { nodes: premove(old(self)@.nodes, node@), ..old(self)@ }),
            r matches Some(n) ==> pget(old(self)@.nodes, node@) == Some(n@),
            r is None ==> pget(old(self)@.nodes, node@) is None,
    {
        let r = self.nodes.remove(&node);
        assert(self@ =~= (GraphView { nodes: premove(old(self)@.nodes, node@), ..old(self)@ }));
        proof { lemma_remove_node(old(self)@.nodes, node@); }
        r
    }
}

/// The words of `v` other than `w`.
pub fn filter_out(v: &Vec<GraphNodeWord>, w: &GraphNodeWord) -> (r: Vec<GraphNodeWord>)
    ensures
        r.deep_view() == without_word(v.deep_view(), w@),
{
    let ghost f = not_word(w@);
    let ghost vv = v.deep_view();
    let mut r: Vec<GraphNodeWord> = Vec::new();
    let mut i: usize = 0;
    while i < v.len()
        invariant
            i <= v@.len(),
            vv == v.deep_view(),
            f == not_word(w@),
            r.deep_view() == vv.take(i as int).filter(f),
        decreases v@.len() - i,
    {
        proof {
            assert(vv.take(i + 1) =~= vv.take(i as int).push(vv[i as int]));
            vv.take(i as int).lemma_filter_push(vv[i as int], f);
        }
        if !v[i].same(w) {
            let ghost r0 = r.deep_view();
            r.push(v[i].duplicate());
            assert(r.deep_view() =~= r0.push(vv[i as int]));
        }
        i = i + 1;
    }
    assert(vv.take(vv.len() as int) =~= vv);
    r
}


/// The nodes with each value replaced by `f` of it; keys unchanged.
pub open spec fn map_nodes(s: NodeSeq, f: spec_fn(GraphNodeView) -> GraphNodeView) -> NodeSeq {
    s.map_values(|p: (WordView, GraphNodeView)| (p.0, f(p.1)))
}

/// `init_called_by` on one node: its callers, where `edges_up` lists any.
pub open spec fn with_callers(up: EdgeSeq, n: GraphNodeView) -> GraphNodeView {
    match pget(up, n.name) {
        Some(c) => GraphNodeView { called_by: c, ..n },
        None => n,
    }
}

/// The tree type that `init_tree_status` gives a node: nodes already in a
/// tree (`TreeInit`, `TreeMult`) become `TreeRoot`, `TreeSimple` or
/// `TreeMult` by their number of callers; every other node is classified by
/// its number of callers (none, one, more) and whether it refers to words.
pub open spec fn tree_status(n: GraphNodeView) -> GraphNodeTreeType {
    let callers = n.called_by.len();
    let words = n.word.len();
    if n.tree_type == GraphNodeTreeType::TreeMult || n.tree_type == GraphNodeTreeType::TreeInit {
        if callers == 0 {
            GraphNodeTreeType::TreeRoot
        } else if callers == 1 {
            GraphNodeTreeType::TreeSimple
        } else {
            GraphNodeTreeType::TreeMult
        }
    } else if words == 0 {
        if callers == 0 {
            GraphNodeTreeType::Orphan
        } else if callers == 1 {
            GraphNodeTreeType::LeafSimple
        } else {
            GraphNodeTreeType::LeafMult
        }
    } else if callers == 0 {
        GraphNodeTreeType::Root
    } else if callers == 1 {
        GraphNodeTreeType::NodeSimple
    } else {
        GraphNodeTreeType::NodeMult
    }
}

/// The counts of nodes outside trees that `init_tree_status` classifies as
/// `Orphan`, `LeafSimple`, `LeafMult`, `Root`, `NodeSimple` and `NodeMult`,
/// in this order.
pub open spec fn tree_statistics(s: NodeSeq) -> (nat, nat, nat, nat, nat, nat)
    decreases s.len(),
{
    if s.len() == 0 {
        (0, 0, 0, 0, 0, 0)
    } else {
        let (a, b, c, d, e, f) = tree_statistics(s.drop_last());
        let n = s.last().1;
        if n.tree_type == GraphNodeTreeType::TreeMult || n.tree_type == GraphNodeTreeType::TreeInit {
            (a, b, c, d, e, f)
        } else {
            match tree_status(n) {
                GraphNodeTreeType::Orphan => (a + 1, b, c, d, e, f),
                GraphNodeTreeType::LeafSimple => (a, b + 1, c, d, e, f),
                GraphNodeTreeType::LeafMult => (a, b, c + 1, d, e, f),
                GraphNodeTreeType::Root => (a, b, c, d + 1, e, f),
                GraphNodeTreeType::NodeSimple => (a, b, c, d, e + 1, f),
                _ => (a, b, c, d, e, f + 1),
            }
        }
    }
}

/// The six counts as numbers.
pub open spec fn stats_view(t: (usize, usize, usize, usize, usize, usize)) -> (
    nat,
    nat,
    nat,
    nat,
    nat,
    nat,
) {
    (t.0 as nat, t.1 as nat, t.2 as nat, t.3 as nat, t.4 as nat, t.5 as nat)
}

/// `init_tree_status` on one node.
pub open spec fn with_tree_status(n: GraphNodeView) -> GraphNodeView {
    GraphNodeView { tree_type: tree_status(n), ..n }
}

/// The names of the nodes with tree type `t`, in key order.
pub open spec fn names_with_tree_type(s: NodeSeq, t: GraphNodeTreeType) -> Seq<WordView>
    decreases s.len(),
{
    if s.len() == 0 {
        seq![]
    } else {
        let rest = names_with_tree_type(s.drop_last(), t);
        if s.last().1.tree_type == t {
            rest.push(s.last().1.name)
        } else {
            rest
        }
    }
}

/// Inserts, for each word of `ks` in order, its edge list in `e` (or the
/// empty list) into `acc`.
pub open spec fn collect_edges(acc: EdgeSeq, e: EdgeSeq, ks: Seq<WordView>) -> EdgeSeq
    decreases ks.len(),
{
    if ks.len() == 0 {
        acc
    } else {
        let a = collect_edges(acc, e, ks.drop_last());
        pinsert(a, ks.last(), edges_of(e, ks.last()))
    }
}

/// The keys of `e` whose edge list holds `w`, in key order.
pub open spec fn keys_listing(e: EdgeSeq, w: WordView) -> Seq<WordView>
    decreases e.len(),
{
    if e.len() == 0 {
        seq![]
    } else {
        let rest = keys_listing(e.drop_last(), w);
        if e.last().1.contains(w) {
            rest.push(e.last().0)
        } else {
            rest
        }
    }
}

/// `add_edge` from `from` to each word of `ws`, in order.
pub open spec fn add_edges(g: GraphView, from: WordView, ws: Seq<WordView>) -> GraphView
    decreases ws.len(),
{
    if ws.len() == 0 {
        g
    } else {
        spec_add_edge(add_edges(g, from, ws.drop_last()), from, ws.last())
    }
}

/// `init_edges` over the nodes `ns`, in order: every word of a node becomes
/// an edge from the node's name.
pub open spec fn edges_from_nodes(g: GraphView, ns: NodeSeq) -> GraphView
    decreases ns.len(),
{
    if ns.len() == 0 {
        g
    } else {
        let h = edges_from_nodes(g, ns.drop_last());
        add_edges(h, ns.last().1.name, ns.last().1.word)
    }
}

proof fn lemma_same_keys_sorted<A, B>(s: Seq<(WordView, A)>, t: Seq<(WordView, B)>)
    requires
        keys_sorted(s),
        s.len() == t.len(),
        forall|i: int| 0 <= i < s.len() ==> #[trigger] t[i].0 == s[i].0,
    ensures
        keys_sorted(t),
{
    assert forall|i: int, j: int| 0 <= i < j < t.len() implies word_lt(
        #[trigger] t[i].0,
        #[trigger] t[j].0,
    ) by {
        assert(t[i].0 == s[i].0 && t[j].0 == s[j].0);
    }
}

proof fn lemma_add_edge_wf(g: GraphView, from: WordView, to: WordView)
    requires
        graph_wf(g),
    ensures
        graph_wf(spec_add_edge(g, from, to)),
        spec_add_edge(g, from, to).nodes == g.nodes,
{
    lemma_pinsert_sorted(g.edges_down, from, edges_of(g.edges_down, from).push(to));
    lemma_pinsert_sorted(g.edges_up, to, edges_of(g.edges_up, to).push(from));
}

proof fn lemma_add_edges_wf(g: GraphView, from: WordView, ws: Seq<WordView>)
    requires
        graph_wf(g),
    ensures
        graph_wf(add_edges(g, from, ws)),
        add_edges(g, from, ws).nodes == g.nodes,
    decreases ws.len(),
{
    if ws.len() > 0 {
        lemma_add_edges_wf(g, from, ws.drop_last());
        lemma_add_edge_wf(add_edges(g, from, ws.drop_last()), from, ws.last());
    }
}

/// `init_edges` keeps the graph's maps ordered and changes no node.
pub proof fn lemma_edges_from_nodes_preserves(g: GraphView, ns: NodeSeq)
    requires
        graph_wf(g),
    ensures
        graph_wf(edges_from_nodes(g, ns)),
        edges_from_nodes(g, ns).nodes == g.nodes,
    decreases ns.len(),
{
    if ns.len() > 0 {
        lemma_edges_from_nodes_preserves(g, ns.drop_last());
        lemma_add_edges_wf(edges_from_nodes(g, ns.drop_last()), ns.last().1.name, ns.last().1.word);
    }
}

impl Graph {
    /// Tags every node (`apply_tags`).
    pub fn apply_tags(&mut self)
        requires
            graph_wf(old(self)@),
        ensures
            graph_wf(final(self)@),
            final(self)@ == (GraphView {
                nodes: map_nodes(old(self)@.nodes, |n: GraphNodeView| node_apply_tags(n)),
                ..old(self)@
            }),
    {
        let ghost f = |n: GraphNodeView| node_apply_tags(n);
        let ghost s0 = self@.nodes;
        let n = self.nodes.len();
        let mut i: usize = 0;
        while i < n
            invariant
                n == s0.len(),
                i <= n,
                f == (|n: GraphNodeView| node_apply_tags(n)),
                keys_sorted(s0),
                self@ == (GraphView { nodes: self@.nodes, ..old(self)@ }),
                self@.nodes.len() == n,
                forall|k: int| 0 <= k < i ==> #[trigger] self@.nodes[k] == (s0[k].0, f(s0[k].1)),
                forall|k: int| i <= k < n ==> #[trigger] self@.nodes[k] == s0[k],
            decreases n - i,
        {
            let mut node = self.nodes.value_at(i).duplicate();
            node.apply_tags();
            self.nodes.set_value_at(i, node);
            i = i + 1;
        }
        assert(self@.nodes =~= map_nodes(s0, f));
        proof {
            lemma_same_keys_sorted(s0, self@.nodes);
            lemma_map_nodes_named(s0, f);
        }
        assert(self@ =~= (GraphView { nodes: map_nodes(s0, f), ..old(self)@ }));
    }

    /// Copies each node's callers from `edges_up` (`init_called_by`).
    pub fn init_called_by(&mut self)
        requires
            graph_wf(old(self)@),
        ensures
            graph_wf(final(self)@),
            final(self)@ == (GraphView {
                nodes: map_nodes(old(self)@.nodes, |n: GraphNodeView| with_callers(old(self)@.edges_up, n)),
                ..old(self)@
            }),
    {
        let lookup_edges = clone_edges(&self.edges_up);
        let ghost up = old(self)@.edges_up;
        let ghost f = |n: GraphNodeView| with_callers(up, n);
        let ghost s0 = self@.nodes;
        let n = self.nodes.len();
        let mut i: usize = 0;
        while i < n
            invariant
                n == s0.len(),
                i <= n,
                lookup_edges.wf(),
                lookup_edges@ == up,
                f == (|n: GraphNodeView| with_callers(up, n)),
                keys_sorted(s0),
                self@ == (GraphView { nodes: self@.nodes, ..old(self)@ }),
                self@.nodes.len() == n,
                forall|k: int| 0 <= k < i ==> #[trigger] self@.nodes[k] == (s0[k].0, f(s0[k].1)),
                forall|k: int| i <= k < n ==> #[trigger] self@.nodes[k] == s0[k],
            decreases n - i,
        {
            let mut node = self.nodes.value_at(i).duplicate();
            match lookup_edges.get(&node.name) {
                Some(found_callers) => {
                    node.called_by = clone_words(found_callers);
                    assert(node@ =~= with_callers(up, s0[i as int].1));
                },
                None => {},
            }
            self.nodes.set_value_at(i, node);
            i = i + 1;
        }
        assert(self@.nodes =~= map_nodes(s0, f));
        proof {
            lemma_same_keys_sorted(s0, self@.nodes);
            lemma_map_nodes_named(s0, f);
        }
        assert(self@ =~= (GraphView { nodes: map_nodes(s0, f), ..old(self)@ }));
    }

    /// Classifies every node in the call tree (`init_tree_status`); see
    /// [`tree_status`]. Returns the counts of the classes of the nodes outside
    /// trees (see [`tree_statistics`]), which are reported in debug mode.
    pub fn init_tree_status(&mut self) -> (stats: (usize, usize, usize, usize, usize, usize))
        requires
            graph_wf(old(self)@),
        ensures
            graph_wf(final(self)@),
            final(self)@ == (GraphView {
                nodes: map_nodes(old(self)@.nodes, |n: GraphNodeView| with_tree_status(n)),
                ..old(self)@
            }),
            stats_view(stats) == tree_statistics(old(self)@.nodes),
    {
        let ghost f = |n: GraphNodeView| with_tree_status(n);
        let ghost s0 = self@.nodes;
        let n = self.nodes.len();
        let mut stats: (usize, usize, usize, usize, usize, usize) = (0, 0, 0, 0, 0, 0);
        let mut i: usize = 0;
        while i < n
            invariant
                n == s0.len(),
                i <= n,
                f == (|n: GraphNodeView| with_tree_status(n)),
                keys_sorted(s0),
                self@ == (GraphView { nodes: self@.nodes, ..old(self)@ }),
                self@.nodes.len() == n,
                forall|k: int| 0 <= k < i ==> #[trigger] self@.nodes[k] == (s0[k].0, f(s0[k].1)),
                forall|k: int| i <= k < n ==> #[trigger] self@.nodes[k] == s0[k],
                stats_view(stats) == tree_statistics(s0.take(i as int)),
                stats.0 <= i && stats.1 <= i && stats.2 <= i && stats.3 <= i && stats.4 <= i
                    && stats.5 <= i,
            decreases n - i,
        {
            proof {
                assert(s0.take(i + 1).drop_last() =~= s0.take(i as int));
            }
            let mut node = self.nodes.value_at(i).duplicate();
            let callers = node.called_by.len();
            let words = node.word.len();
            if node.tree_type == GraphNodeTreeType::TreeMult || node.tree_type
                == GraphNodeTreeType::TreeInit {
                node.tree_type =
                if callers == 0 {
                    GraphNodeTreeType::TreeRoot
                } else if callers == 1 {
                    GraphNodeTreeType::TreeSimple
                } else {
                    GraphNodeTreeType::TreeMult
                };
            } else {
                if words == 0 {
                    if callers == 0 {
                        stats.0 = stats.0 + 1;
                        node.tree_type = GraphNodeTreeType::Orphan;
                    } else if callers == 1 {
                        stats.1 = stats.1 + 1;
                        node.tree_type = GraphNodeTreeType::LeafSimple;
                    } else {
                        stats.2 = stats.2 + 1;
                        node.tree_type = GraphNodeTreeType::LeafMult;
                    }
                } else if callers == 0 {
                    stats.3 = stats.3 + 1;
                    node.tree_type = GraphNodeTreeType::Root;
                } else if callers == 1 {
                    stats.4 = stats.4 + 1;
                    node.tree_type = GraphNodeTreeType::NodeSimple;
                } else {
                    stats.5 = stats.5 + 1;
                    node.tree_type = GraphNodeTreeType::NodeMult;
                }
            }
            assert(node@ =~= with_tree_status(s0[i as int].1));
            self.nodes.set_value_at(i, node);
            i = i + 1;
        }
        assert(s0.take(n as int) =~= s0);
        assert(self@.nodes =~= map_nodes(s0, f));
        proof {
            lemma_same_keys_sorted(s0, self@.nodes);
            lemma_map_nodes_named(s0, f);
        }
        assert(self@ =~= (GraphView { nodes: map_nodes(s0, f), ..old(self)@ }));
        stats
    }

    /// The names of the nodes with tree type `tree_type`, in key order
    /// (`nodes_by_tree_type`).
    pub fn nodes_by_tree_type(&self, tree_type: GraphNodeTreeType) -> (r: Vec<GraphNodeWord>)
        ensures
            r.deep_view() == names_with_tree_type(self@.nodes, tree_type),
    {
        let mut r: Vec<GraphNodeWord> = Vec::new();
        let mut i: usize = 0;
        while i < self.nodes.len()
            invariant
                i <= self@.nodes.len(),
                r.deep_view() == names_with_tree_type(self@.nodes.take(i as int), tree_type),
            decreases self@.nodes.len() - i,
        {
            proof {
                assert(self@.nodes.take(i + 1).drop_last() =~= self@.nodes.take(i as int));
            }
            let node = self.nodes.value_at(i);
            if node.tree_type == tree_type {
                let ghost r0 = r.deep_view();
                r.push(node.name.duplicate());
                assert(r.deep_view() =~= r0.push(node.name@));
            }
            i = i + 1;
        }
        assert(self@.nodes.take(self@.nodes.len() as int) =~= self@.nodes);
        r
    }

    fn collect_edges_for(e: &WordMap<Vec<GraphNodeWord>>, found: &Vec<GraphNodeWord>) -> (r:
        WordMap<Vec<GraphNodeWord>>)
        requires
            e.wf(),
        ensures
            r.wf(),
            r@ == collect_edges(Seq::empty(), e@, found.deep_view()),
    {
        let mut ret: WordMap<Vec<GraphNodeWord>> = WordMap::new();
        let ghost ks = found.deep_view();
        let mut i: usize = 0;
        while i < found.len()
            invariant
                e.wf(),
                ret.wf(),
                ks == found.deep_view(),
                i <= found@.len(),
                ret@ == collect_edges(Seq::empty(), e@, ks.take(i as int)),
            decreases found@.len() - i,
        {
            proof {
                assert(ks.take(i + 1).drop_last() =~= ks.take(i as int));
            }
            let k = &found[i];
            let v: Vec<GraphNodeWord> = match e.get(k) {
                Some(f) => clone_words(f),
                None => Vec::new(),
            };
            assert(v.deep_view() =~= edges_of(e@, k@));
            ret.insert(k.duplicate(), v);
            i = i + 1;
        }
        assert(ks.take(ks.len() as int) =~= ks);
        ret
    }

    /// The words below each node of tree type `tree_type`
    /// (`edges_out_by_tree_type`).
    pub fn edges_out_by_tree_type(&self, tree_type: GraphNodeTreeType) -> (r: WordMap<
        Vec<GraphNodeWord>,
    >)
        requires
            graph_wf(self@),
        ensures
            r.wf(),
            r@ == collect_edges(
                Seq::empty(),
                self@.edges_down,
                names_with_tree_type(self@.nodes, tree_type),
            ),
    {
        let found = self.nodes_by_tree_type(tree_type);
        Graph::collect_edges_for(&self.edges_down, &found)
    }

    /// The words above each node of tree type `tree_type`
    /// (`edges_in_by_tree_type`).
    pub fn edges_in_by_tree_type(&self, tree_type: GraphNodeTreeType) -> (r: WordMap<
        Vec<GraphNodeWord>,
    >)
        requires
            graph_wf(self@),
        ensures
            r.wf(),
            r@ == collect_edges(
                Seq::empty(),
                self@.edges_up,
                names_with_tree_type(self@.nodes, tree_type),
            ),
    {
        let found = self.nodes_by_tree_type(tree_type);
        Graph::collect_edges_for(&self.edges_up, &found)
    }

    /// The keys of `lookup_edges` whose list holds the name of the node that
    /// `lookup_nodes` has under `node`; empty where it has none
    /// (`lookup_edges_in`).
    pub fn lookup_edges_in(
        lookup_nodes: &WordMap<GraphNode>,
        lookup_edges: &WordMap<Vec<GraphNodeWord>>,
        node: &GraphNodeWord,
    ) -> (r: Vec<GraphNodeWord>)
        requires
            lookup_nodes.wf(),
        ensures
            r.deep_view() == match pget(lookup_nodes@, node@) {
                Some(n) => keys_listing(lookup_edges@, n.name),
                None => Seq::<WordView>::empty(),
            },
    {
        match lookup_nodes.get(node) {
            Some(found_node) => {
                let name = &found_node.name;
                let mut r: Vec<GraphNodeWord> = Vec::new();
                let mut i: usize = 0;
                while i < lookup_edges.len()
                    invariant
                        i <= lookup_edges@.len(),
                        r.deep_view() == keys_listing(lookup_edges@.take(i as int), name@),
                    decreases lookup_edges@.len() - i,
                {
                    proof {
                        assert(lookup_edges@.take(i + 1).drop_last() =~= lookup_edges@.take(i as int));
                    }
                    let v = lookup_edges.value_at(i);
                    let mut j: usize = 0;
                    let mut hit = false;
                    while j < v.len()
                        invariant
                            j <= v@.len(),
                            i < lookup_edges@.len(),
                            v.deep_view() == lookup_edges@[i as int].1,
                            hit == (exists|k: int| 0 <= k < j && v.deep_view()[k] == name@),
                        decreases v@.len() - j,
                    {
                        assert(v.deep_view()[j as int] == v@[j as int]@);
                        if v[j].same(name) {
                            hit = true;
                        }
                        j = j + 1;
                    }
                    proof {
                        if hit {
                            let k = choose|k: int| 0 <= k < j && v.deep_view()[k] == name@;
                            assert(lookup_edges@[i as int].1[k] == name@);
                        }
                        if lookup_edges@[i as int].1.contains(name@) {
                            let k = choose|k: int| 0 <= k < lookup_edges@[i as int].1.len() && lookup_edges@[i as int].1[k] == name@;
                            assert(v.deep_view()[k] == name@);
                        }
                    }
                    if hit {
                        let ghost r0 = r.deep_view();
                        r.push(lookup_edges.key_at(i).duplicate());
                        assert(r.deep_view() =~= r0.push(lookup_edges@[i as int].0));
                    }
                    i = i + 1;
                }
                assert(lookup_edges@.take(lookup_edges@.len() as int) =~= lookup_edges@);
                r
            },
            None => {
                let r: Vec<GraphNodeWord> = Vec::new();
                assert(r.deep_view() =~= Seq::<WordView>::empty());
                r
            },
        }
    }

    /// The edge list of `node` in `lookup_edges`, or the empty list
    /// (`lookup_edges_out`).
    pub fn lookup_edges_out(lookup_edges: &WordMap<Vec<GraphNodeWord>>, node: GraphNodeWord) -> (r:
        Vec<GraphNodeWord>)
        requires
            lookup_edges.wf(),
        ensures
            r.deep_view() == edges_of(lookup_edges@, node@),
    {
        match lookup_edges.get(&node) {
            Some(found) => clone_words(found),
            None => {
                let r: Vec<GraphNodeWord> = Vec::new();
                assert(r.deep_view() =~= Seq::<WordView>::empty());
                r
            },
        }
    }

    /// Adds an edge from every node to each word that it refers to, node by
    /// node in key order (`init_edges`).
    pub fn init_edges(&mut self)
        requires
            graph_wf(old(self)@),
        ensures
            graph_wf(final(self)@),
            final(self)@ == edges_from_nodes(old(self)@, old(self)@.nodes),
    {
        let lookup_nodes = clone_nodes(&self.nodes);
        let ghost ns = lookup_nodes@;
        let mut i: usize = 0;
        while i < lookup_nodes.len()
            invariant
                lookup_nodes.wf(),
                ns == lookup_nodes@,
                ns == old(self)@.nodes,
                graph_wf(old(self)@),
                i <= ns.len(),
                graph_wf(self@),
                self@ == edges_from_nodes(old(self)@, ns.take(i as int)),
            decreases ns.len() - i,
        {
            proof {
                assert(ns.take(i + 1).drop_last() =~= ns.take(i as int));
            }
            let node = lookup_nodes.value_at(i);
            let ghost start = self@;
            let mut j: usize = 0;
            assert(node.word.deep_view().take(0) =~= Seq::<WordView>::empty());
            while j < node.word.len()
                invariant
                    j <= node.word@.len(),
                    graph_wf(self@),
                    graph_wf(start),
                    self@ == add_edges(start, node.name@, node.word.deep_view().take(j as int)),
                decreases node.word@.len() - j,
            {
                proof {
                    assert(node.word.deep_view().take(j + 1).drop_last() =~= node.word.deep_view().take(j as int));
                }
                let called = node.word[j].duplicate();
                self.add_edge(&node.name, &called);
                j = j + 1;
            }
            assert(node.word.deep_view().take(node.word@.len() as int) =~= node.word.deep_view());
            i = i + 1;
        }
        assert(ns.take(ns.len() as int) =~= ns);
    }
}


/// `Tree::add_node`: the node stored under its name.
pub open spec fn tree_add(t: TreeView, n: GraphNodeView) -> TreeView {
    TreeView { nodes: pinsert(t.nodes, n.name, n), ..t }
}

/// Each entry of `s`, in order, inserted into `acc`.
pub open spec fn insert_all(acc: NodeSeq, s: NodeSeq) -> NodeSeq
    decreases s.len(),
{
    if s.len() == 0 {
        acc
    } else {
        pinsert(insert_all(acc, s.drop_last()), s.last().0, s.last().1)
    }
}

/// `Tree::consume_tree`: the other tree's root and then its nodes inserted.
pub open spec fn tree_consume(t: TreeView, other: TreeView) -> TreeView {
    TreeView {
        nodes: insert_all(pinsert(t.nodes, other.root.name, other.root), other.nodes),
        ..t
    }
}

proof fn lemma_insert_all_sorted(acc: NodeSeq, s: NodeSeq)
    requires
        keys_sorted(acc),
    ensures
        keys_sorted(insert_all(acc, s)),
    decreases s.len(),
{
    if s.len() > 0 {
        lemma_insert_all_sorted(acc, s.drop_last());
        lemma_pinsert_sorted(insert_all(acc, s.drop_last()), s.last().0, s.last().1);
    }
}

impl Tree {
    /// A tree of the single node `node` (`new_from_node`).
    pub fn new_from_node(node: GraphNode) -> (t: Tree)
        ensures
            t.deep_view() == (TreeView { root: node@, nodes: Seq::empty() }),
            tree_wf(t.deep_view()),
    {
        Tree { root: node, nodes: WordMap::new() }
    }

    /// Stores `node` under its name; returns the name (`add_node`).
    pub fn add_node(&mut self, node: GraphNode) -> (name: GraphNodeWord)
        requires
            tree_wf(old(self).deep_view()),
        ensures
            tree_wf(final(self).deep_view()),
            final(self).deep_view() == tree_add(old(self).deep_view(), node@),
            name@ == node@.name,
    {
        let name = node.name.duplicate();
        let ghost nv = node@;
        self.nodes.insert(name.duplicate(), node);
        assert(self.deep_view() =~= tree_add(old(self).deep_view(), nv));
        name
    }

    /// Takes in another tree: its root, then its nodes (`consume_tree`).
    pub fn consume_tree(&mut self, tree: Tree)
        requires
            tree_wf(old(self).deep_view()),
            tree_wf(tree.deep_view()),
        ensures
            tree_wf(final(self).deep_view()),
            final(self).deep_view() == tree_consume(old(self).deep_view(), tree.deep_view()),
    {
        let ghost other = tree.deep_view();
        let Tree { root, nodes } = tree;
        self.add_node(root);
        let ghost start = self.nodes@;
        let mut i: usize = 0;
        while i < nodes.len()
            invariant
                i <= nodes@.len(),
                nodes@ == other.nodes,
                nodes.wf(),
                self.nodes.wf(),
                keys_sorted(start),
                self.root@ == old(self).root@,
                self.nodes@ == insert_all(start, other.nodes.take(i as int)),
            decreases nodes@.len() - i,
        {
            proof {
                assert(other.nodes.take(i + 1).drop_last() =~= other.nodes.take(i as int));
            }
            let k = nodes.key_at(i).duplicate();
            let v = nodes.value_at(i).duplicate();
            self.nodes.insert(k, v);
            i = i + 1;
        }
        assert(other.nodes.take(other.nodes.len() as int) =~= other.nodes);
        assert(self.deep_view() =~= tree_consume(old(self).deep_view(), other));
    }
}

/// Some word of `vector` names a node of tree type `LeafSimple` or
/// `TreeSimple`.
pub open spec fn has_simple_leaf(nodes: NodeSeq, vector: Seq<WordView>) -> bool {
    exists|i: int|
        0 <= i < vector.len() && (pget(nodes, #[trigger] vector[i]) matches Some(n) && (n.tree_type
            == GraphNodeTreeType::LeafSimple || n.tree_type == GraphNodeTreeType::TreeSimple))
}

/// One leaf of `find_trees`: the node under `leaf` (if any) is taken out of
/// the graph; a `TreeSimple` node brings in its own tree (taken out of
/// `trees`) where it has one, and is lost otherwise; any other node joins the
/// tree. A leaf that joins takes its edge lists with it.
pub open spec fn absorb_leaf(g: GraphView, t: TreeView, leaf: WordView) -> (GraphView, TreeView) {
    match pget(g.nodes, leaf) {
        None => (g, t),
        Some(l) => {
            let g1 = GraphView { nodes: premove(g.nodes, leaf), ..g };
            if l.tree_type == GraphNodeTreeType::TreeSimple {
                match pget(g1.trees, l.name) {
                    Some(pt) => (
                        spec_remove_related_edges(
                            GraphView { trees: premove(g1.trees, l.name), ..g1 },
                            l.name,
                        ),
                        tree_consume(t, pt),
                    ),
                    None => (g1, t),
                }
            } else {
                (spec_remove_related_edges(g1, l.name), tree_add(t, l))
            }
        },
    }
}

/// `absorb_leaf` for each word of `vector`, in order.
pub open spec fn absorb_leaves(g: GraphView, t: TreeView, vector: Seq<WordView>) -> (
    GraphView,
    TreeView,
)
    decreases vector.len(),
{
    if vector.len() == 0 {
        (g, t)
    } else {
        let (g2, t2) = absorb_leaves(g, t, vector.drop_last());
        absorb_leaf(g2, t2, vector.last())
    }
}

/// One entry `key` → `vector` of `find_trees`: where a word of `vector`
/// names a simple leaf and `key` names a node, that node becomes the root
/// of a new tree (tree type `TreeInit`, its words kept in the tree), is put
/// back into the graph with its words cleared, absorbs the nodes of
/// `vector`, and the tree is stored under the root's name.
pub open spec fn find_trees_step(g: GraphView, key: WordView, vector: Seq<WordView>) -> GraphView {
    if has_simple_leaf(g.nodes, vector) && pget(g.nodes, key) is Some {
        let tn = pget(g.nodes, key).unwrap();
        let root = GraphNodeView { tree_type: GraphNodeTreeType::TreeInit, ..tn };
        let g1 = GraphView {
            nodes: pinsert(premove(g.nodes, key), root.name, GraphNodeView { word: seq![], ..root }),
            ..g
        };
        let t0 = TreeView { root, nodes: seq![] };
        let (g2, t2) = absorb_leaves(g1, t0, vector);
        GraphView { trees: pinsert(g2.trees, t2.root.name, t2), ..g2 }
    } else {
        g
    }
}

/// `find_trees_step` for each entry of `e`, in order.
pub open spec fn find_trees_scan(g: GraphView, e: EdgeSeq) -> GraphView
    decreases e.len(),
{
    if e.len() == 0 {
        g
    } else {
        let h = find_trees_scan(g, e.drop_last());
        find_trees_step(h, e.last().0, e.last().1)
    }
}

/// `find_trees`: `find_trees_step` for each entry of `edges_down` as it was
/// when the call began, in key order.
pub open spec fn spec_find_trees(g: GraphView) -> GraphView {
    find_trees_scan(g, g.edges_down)
}

impl Graph {
    fn has_simple_leaf_exec(&self, vector: &Vec<GraphNodeWord>) -> (b: bool)
        requires
            graph_wf(self@),
        ensures
            b == has_simple_leaf(self@.nodes, vector.deep_view()),
    {
        let ghost vv = vector.deep_view();
        let mut i: usize = 0;
        while i < vector.len()
            invariant
                graph_wf(self@),
                vv == vector.deep_view(),
                i <= vector@.len(),
                forall|k: int|
                    0 <= k < i ==> !(pget(self@.nodes, #[trigger] vv[k]) matches Some(n) && (
                    n.tree_type == GraphNodeTreeType::LeafSimple || n.tree_type
                        == GraphNodeTreeType::TreeSimple)),
            decreases vector@.len() - i,
        {
            assert(vv[i as int] == vector@[i as int]@);
            match self.nodes.get(&vector[i]) {
                Some(real_node) => {
                    if real_node.has_tree_type(GraphNodeTreeType::LeafSimple)
                        || real_node.has_tree_type(GraphNodeTreeType::TreeSimple) {
                        return true;
                    }
                },
                None => {},
            }
            i = i + 1;
        }
        false
    }

    /// Gathers trees (`find_trees`); see [`spec_find_trees`]. Returns the
    /// numbers that it reports: nodes before, nodes after, and trees after.
    pub fn find_trees(&mut self) -> (counts: (usize, usize, usize))
        requires
            graph_wf(old(self)@),
        ensures
            graph_wf(final(self)@),
            final(self)@ == spec_find_trees(old(self)@),
            counts.0 == old(self)@.nodes.len(),
            counts.1 == final(self)@.nodes.len(),
            counts.2 == final(self)@.trees.len(),
    {
        let nodes_in_graph = self.nodes.len();
        let edges = clone_edges(&self.edges_down);
        let ghost e = edges@;
        let mut i: usize = 0;
        while i < edges.len()
            invariant
                edges.wf(),
                e == edges@,
                e == old(self)@.edges_down,
                i <= e.len(),
                graph_wf(self@),
                self@ == find_trees_scan(old(self)@, e.take(i as int)),
            decreases e.len() - i,
        {
            proof {
                assert(e.take(i + 1).drop_last() =~= e.take(i as int));
            }
            let node = edges.key_at(i);
            let vector = edges.value_at(i);
            let ghost g0 = self@;
            if self.has_simple_leaf_exec(vector) {
                match self.pop_node(node.duplicate()) {
                    Some(tree_node) => {
                        let mut tree_node = tree_node;
                        tree_node.tree_type = GraphNodeTreeType::TreeInit;
                        let mut tree = Tree::new_from_node(tree_node.duplicate());
                        tree_node.word.clear();
                        let ghost rv = tree.root@;
                        assert(tree_node@ =~= (GraphNodeView { word: seq![], ..rv }));
                        self.add_node(tree_node);
                        assert(self@ =~= (GraphView {
                            nodes: pinsert(premove(g0.nodes, node@), rv.name, GraphNodeView { word: seq![], ..rv }),
                            ..g0
                        }));
                        let ghost vv = vector.deep_view();
                        let ghost g1 = self@;
                        let ghost t0 = tree.deep_view();
                        let mut j: usize = 0;
                        while j < vector.len()
                            invariant
                                j <= vector@.len(),
                                vv == vector.deep_view(),
                                graph_wf(self@),
                                tree_wf(tree.deep_view()),
                                (self@, tree.deep_view()) == absorb_leaves(g1, t0, vv.take(j as int)),
                            decreases vector@.len() - j,
                        {
                            proof {
                                assert(vv.take(j + 1).drop_last() =~= vv.take(j as int));
                                assert(vv[j as int] == vector@[j as int]@);
                            }
                            let ghost gj = self@;
                            match self.pop_node(vector[j].duplicate()) {
                                Some(leaf) => {
                                    if leaf.tree_type == GraphNodeTreeType::TreeSimple {
                                        let ghost gp = self@;
                                        match self.trees.remove(&leaf.name) {
                                            Some(popped_tree) => {
                                                proof {
                                                    lemma_pget_value(gp.trees, leaf.name@, |t: TreeView| tree_wf(t));
                                                    lemma_premove_values(gp.trees, leaf.name@, |t: TreeView| tree_wf(t));
                                                }
                                                tree.consume_tree(popped_tree);
                                                self.remove_related_edges(&leaf.name);
                                            },
                                            None => {
                                                assert(self@ =~= gp);
                                            },
                                        }
                                    } else {
                                        let name = tree.add_node(leaf);
                                        self.remove_related_edges(&name);
                                    }
                                },
                                None => {},
                            }
                            j = j + 1;
                        }
                        assert(vv.take(vv.len() as int) =~= vv);
                        let ghost g2 = self@;
                        let root_name = tree.root.name.duplicate();
                        proof {
                            lemma_pinsert_values(g2.trees, root_name@, tree.deep_view(), |t: TreeView| tree_wf(t));
                        }
                        self.trees.insert(root_name, tree);
                    },
                    None => {},
                }
            }
            i = i + 1;
        }
        assert(e.take(e.len() as int) =~= e);
        (nodes_in_graph, self.nodes.len(), self.trees.len())
    }
}

/// A listing that `from_files` accepts: it parses, and the
/// names and words of its entries are valid words.
pub open spec fn listing_readable(src: Seq<char>) -> bool {
    &&& listing_ok(src)
    &&& forall|i: int|
        0 <= i < parse_lines(split_lines(src)).len() ==> entry_words_ok(
            #[trigger] parse_lines(split_lines(src))[i],
        )
}

/// The nodes of one listing.
pub open spec fn nodes_of_listing(src: Seq<char>) -> Seq<GraphNodeView> {
    nodes_of_entries(parse_lines(split_lines(src)))
}

/// Each node of `ns`, in order, stored under its name in `acc`.
pub open spec fn insert_nodes(acc: NodeSeq, ns: Seq<GraphNodeView>) -> NodeSeq
    decreases ns.len(),
{
    if ns.len() == 0 {
        acc
    } else {
        pinsert(insert_nodes(acc, ns.drop_last()), ns.last().name, ns.last())
    }
}

/// The nodes of all listings, file after file; a later node replaces an
/// earlier one of the same name.
pub open spec fn nodes_of_files(files: Seq<Seq<char>>) -> NodeSeq
    decreases files.len(),
{
    if files.len() == 0 {
        seq![]
    } else {
        insert_nodes(nodes_of_files(files.drop_last()), nodes_of_listing(files.last()))
    }
}

impl Graph {
    /// Whether `from_files` accepts `source` (what its `requires` asks).
    pub fn listing_is_readable(source: &str) -> (b: bool)
        ensures
            b == listing_readable(source@),
    {
        if !AsmParser::listing_is_parsable(source) {
            return false;
        }
        let entries = AsmParser::parse(source);
        let mut i: usize = 0;
        while i < entries.0.len()
            invariant
                i <= entries.0@.len(),
                entries@ == parse_lines(split_lines(source@)),
                entries@ == entry_views(entries.0@),
                forall|k: int| 0 <= k < i ==> entry_words_ok(#[trigger] entries@[k]),
            decreases entries.0@.len() - i,
        {
            let e = &entries.0[i];
            assert(entries@[i as int] == e@);
            let ok_name = match &e.name {
                Some(n) => GraphNodeWord::text_is_word(n.as_str()),
                None => true,
            };
            let ok_word = match &e.word {
                Some(w) => GraphNodeWord::text_is_word(w.as_str()),
                None => true,
            };
            if !(ok_name && ok_word) {
                return false;
            }
            i = i + 1;
        }
        true
    }

    /// Builds a graph from the text of assembly listings (`from_files`): the
    /// nodes of every listing stored under their names; no edges or trees.
    pub fn from_files(options: GraphOptions, files: &Vec<String>) -> (g: Graph)
        requires
            forall|i: int| 0 <= i < files@.len() ==> listing_readable(#[trigger] files@[i]@),
        ensures
            graph_wf(g@),
            g@ == (GraphView {
                options,
                nodes: nodes_of_files(crate::text::string_views(files@)),
                edges_up: Seq::empty(),
                edges_down: Seq::empty(),
                grouped_nodes: Seq::empty(),
                trees: Seq::empty(),
            }),
    {
        let ghost fv = crate::text::string_views(files@);
        let mut nodes: WordMap<GraphNode> = WordMap::new();
        let mut f: usize = 0;
        while f < files.len()
            invariant
                f <= files@.len(),
                fv == crate::text::string_views(files@),
                forall|i: int| 0 <= i < files@.len() ==> listing_readable(#[trigger] files@[i]@),
                nodes.wf(),
                nodes@ == nodes_of_files(fv.take(f as int)),
            decreases files@.len() - f,
        {
            proof {
                assert(fv.take(f + 1).drop_last() =~= fv.take(f as int));
                assert(fv[f as int] == files@[f as int]@);
            }
            let entries = AsmParser::parse(files[f].as_str());
            let tmp_nodes = entries.to_nodes();
            let ghost ns = tmp_nodes@;
            let ghost start = nodes@;
            let list = tmp_nodes.into_vec();
            let mut j: usize = 0;
            while j < list.len()
                invariant
                    j <= list@.len(),
                    node_views(list@) == ns,
                    nodes.wf(),
                    nodes@ == insert_nodes(start, ns.take(j as int)),
                decreases list@.len() - j,
            {
                proof {
                    assert(ns.take(j + 1).drop_last() =~= ns.take(j as int));
                    assert(ns[j as int] == list@[j as int]@);
                }
                let n = list[j].duplicate();
                let name = n.name.duplicate();
                nodes.insert(name, n);
                j = j + 1;
            }
            assert(ns.take(ns.len() as int) =~= ns);
            assert(ns == nodes_of_listing(fv[f as int]));
            f = f + 1;
        }
        assert(fv.take(fv.len() as int) =~= fv);
        proof { lemma_nodes_of_files_named(fv); }
        let mut g = Graph::new(options);
        g.nodes = nodes;
        g
    }
}


/// `add_edge` appends `to` to the words below `from` and `from` to the
/// callers above `to`, and leaves every other list as it was.
pub proof fn lemma_add_edge_lists(g: GraphView, from: WordView, to: WordView)
    requires
        graph_wf(g),
    ensures
        edges_of(spec_add_edge(g, from, to).edges_down, from) == edges_of(g.edges_down, from).push(
            to,
        ),
        forall|k: WordView|
            k != from ==> #[trigger] edges_of(spec_add_edge(g, from, to).edges_down, k) == edges_of(
                g.edges_down,
                k,
            ),
        edges_of(spec_add_edge(g, from, to).edges_up, to) == edges_of(g.edges_up, to).push(from),
        forall|k: WordView|
            k != to ==> #[trigger] edges_of(spec_add_edge(g, from, to).edges_up, k) == edges_of(
                g.edges_up,
                k,
            ),
        spec_add_edge(g, from, to).nodes == g.nodes,
        spec_add_edge(g, from, to).trees == g.trees,
{
    let h = spec_add_edge(g, from, to);
    let d = edges_of(g.edges_down, from).push(to);
    lemma_get_after_insert(g.edges_down, from, d, from);
    assert forall|k: WordView| k != from implies #[trigger] edges_of(h.edges_down, k) == edges_of(
        g.edges_down,
        k,
    ) by {
        lemma_get_after_insert(g.edges_down, from, d, k);
    }
    let u = edges_of(g.edges_up, to).push(from);
    lemma_get_after_insert(g.edges_up, to, u, to);
    assert forall|k: WordView| k != to implies #[trigger] edges_of(h.edges_up, k) == edges_of(
        g.edges_up,
        k,
    ) by {
        lemma_get_after_insert(g.edges_up, to, u, k);
    }
}

/// After `remove_edge(from, to)`, `to` is no longer below `from`, nor `from`
/// above `to`.
pub proof fn lemma_remove_edge_lists(g: GraphView, from: WordView, to: WordView)
    requires
        graph_wf(g),
    ensures
        !edges_of(spec_remove_edge(g, from, to).edges_down, from).contains(to),
        !edges_of(spec_remove_edge(g, from, to).edges_up, to).contains(from),
{
    let h = spec_remove_edge(g, from, to);
    match pget(g.edges_down, from) {
        Some(e) => {
            lemma_get_after_insert(g.edges_down, from, without_word(e, to), from);
            let f = not_word(to);
            assert forall|i: int| 0 <= i < without_word(e, to).len() implies #[trigger] without_word(
                e,
                to,
            )[i] != to by {
                e.lemma_filter_pred(f, i);
            }
        },
        None => {},
    }
    match pget(g.edges_up, to) {
        Some(e) => {
            lemma_get_after_insert(g.edges_up, to, without_word(e, from), to);
            let f = not_word(from);
            assert forall|i: int| 0 <= i < without_word(e, from).len() implies #[trigger] without_word(
                e,
                from,
            )[i] != from by {
                e.lemma_filter_pred(f, i);
            }
        },
        None => {},
    }
}

/// What a node becomes by `init_tree_status` depends on nothing but its
/// numbers of callers and words, for a node not in a tree (neither
/// `TreeInit` nor `TreeMult`); so a second `init_tree_status` keeps what the
/// first gave such a node.
pub proof fn lemma_tree_status_stable(n: GraphNodeView)
    requires
        n.tree_type != GraphNodeTreeType::TreeInit,
        n.tree_type != GraphNodeTreeType::TreeMult,
    ensures
        with_tree_status(with_tree_status(n)) == with_tree_status(n),
        forall|m: GraphNodeView|
            m.called_by.len() == n.called_by.len() && m.word.len() == n.word.len()
                && m.tree_type != GraphNodeTreeType::TreeInit && m.tree_type
                != GraphNodeTreeType::TreeMult ==> #[trigger] tree_status(m) == tree_status(n),
{
    assert(with_tree_status(with_tree_status(n)) =~= with_tree_status(n));
}


/// Every node is stored under its own name (as `add_node` and `from_files`
/// store them).
pub open spec fn nodes_named(s: NodeSeq) -> bool {
    forall|k: WordView| (#[trigger] pget(s, k) matches Some(n) ==> n.name == k)
}

/// Every key of `a` is a key of `b`.
pub open spec fn keys_within(a: NodeSeq, b: NodeSeq) -> bool {
    forall|k: WordView| #[trigger] pcontains(a, k) ==> pcontains(b, k)
}

proof fn lemma_remove_node(s: NodeSeq, k: WordView)
    requires
        keys_sorted(s),
        nodes_named(s),
    ensures
        keys_sorted(premove(s, k)),
        nodes_named(premove(s, k)),
        keys_within(premove(s, k), s),
{
    lemma_premove_sorted(s, k);
    assert forall|x: WordView| (#[trigger] pget(premove(s, k), x) matches Some(n) ==> n.name == x) by {
        lemma_get_after_remove(s, k, x);
    }
    assert forall|x: WordView| #[trigger] pcontains(premove(s, k), x) implies pcontains(s, x) by {
        lemma_get_after_remove(s, k, x);
    }
}

proof fn lemma_keys_within_trans(a: NodeSeq, b: NodeSeq, c: NodeSeq)
    requires
        keys_within(a, b),
        keys_within(b, c),
    ensures
        keys_within(a, c),
{
    assert forall|x: WordView| #[trigger] pcontains(a, x) implies pcontains(c, x) by {
        assert(pcontains(b, x));
    }
}

proof fn lemma_absorb_leaf_nodes(g: GraphView, t: TreeView, leaf: WordView)
    requires
        keys_sorted(g.nodes),
        nodes_named(g.nodes),
    ensures
        keys_sorted(absorb_leaf(g, t, leaf).0.nodes),
        nodes_named(absorb_leaf(g, t, leaf).0.nodes),
        keys_within(absorb_leaf(g, t, leaf).0.nodes, g.nodes),
{
    match pget(g.nodes, leaf) {
        None => {
            assert forall|x: WordView| #[trigger] pcontains(g.nodes, x) implies pcontains(g.nodes, x) by {}
        },
        Some(l) => {
            lemma_remove_node(g.nodes, leaf);
        },
    }
}

proof fn lemma_absorb_leaves_nodes(g: GraphView, t: TreeView, vector: Seq<WordView>)
    requires
        keys_sorted(g.nodes),
        nodes_named(g.nodes),
    ensures
        keys_sorted(absorb_leaves(g, t, vector).0.nodes),
        nodes_named(absorb_leaves(g, t, vector).0.nodes),
        keys_within(absorb_leaves(g, t, vector).0.nodes, g.nodes),
    decreases vector.len(),
{
    if vector.len() == 0 {
        assert forall|x: WordView| #[trigger] pcontains(g.nodes, x) implies pcontains(g.nodes, x) by {}
    } else {
        lemma_absorb_leaves_nodes(g, t, vector.drop_last());
        let (g2, t2) = absorb_leaves(g, t, vector.drop_last());
        lemma_absorb_leaf_nodes(g2, t2, vector.last());
        lemma_keys_within_trans(absorb_leaf(g2, t2, vector.last()).0.nodes, g2.nodes, g.nodes);
    }
}

proof fn lemma_find_trees_step_nodes(g: GraphView, key: WordView, vector: Seq<WordView>)
    requires
        keys_sorted(g.nodes),
        nodes_named(g.nodes),
    ensures
        keys_sorted(find_trees_step(g, key, vector).nodes),
        nodes_named(find_trees_step(g, key, vector).nodes),
        keys_within(find_trees_step(g, key, vector).nodes, g.nodes),
{
    if has_simple_leaf(g.nodes, vector) && pget(g.nodes, key) is Some {
        let tn = pget(g.nodes, key).unwrap();
        assert(tn.name == key);
        let root = GraphNodeView { tree_type: GraphNodeTreeType::TreeInit, ..tn };
        let cleared = GraphNodeView { word: seq![], ..root };
        lemma_remove_node(g.nodes, key);
        let r = premove(g.nodes, key);
        let n1 = pinsert(r, root.name, cleared);
        lemma_pinsert_sorted(r, root.name, cleared);
        assert forall|x: WordView| (#[trigger] pget(n1, x) matches Some(n) ==> n.name == x) by {
            lemma_get_after_insert(r, root.name, cleared, x);
        }
        assert forall|x: WordView| #[trigger] pcontains(n1, x) implies pcontains(g.nodes, x) by {
            lemma_get_after_insert(r, root.name, cleared, x);
            if x != root.name {
                assert(pcontains(r, x));
            } else {
                assert(pget(g.nodes, key) is Some);
            }
        }
        let g1 = GraphView { nodes: n1, ..g };
        let t0 = TreeView { root, nodes: seq![] };
        lemma_absorb_leaves_nodes(g1, t0, vector);
        lemma_keys_within_trans(absorb_leaves(g1, t0, vector).0.nodes, n1, g.nodes);
    } else {
        assert forall|x: WordView| #[trigger] pcontains(g.nodes, x) implies pcontains(g.nodes, x) by {}
    }
}

proof fn lemma_find_trees_scan_nodes(g: GraphView, e: EdgeSeq)
    requires
        keys_sorted(g.nodes),
        nodes_named(g.nodes),
    ensures
        keys_sorted(find_trees_scan(g, e).nodes),
        nodes_named(find_trees_scan(g, e).nodes),
        keys_within(find_trees_scan(g, e).nodes, g.nodes),
    decreases e.len(),
{
    if e.len() == 0 {
        assert forall|x: WordView| #[trigger] pcontains(g.nodes, x) implies pcontains(g.nodes, x) by {}
    } else {
        lemma_find_trees_scan_nodes(g, e.drop_last());
        let h = find_trees_scan(g, e.drop_last());
        lemma_find_trees_step_nodes(h, e.last().0, e.last().1);
        lemma_keys_within_trans(find_trees_step(h, e.last().0, e.last().1).nodes, h.nodes, g.nodes);
    }
}

/// `find_trees` creates no node: where every node is stored under its own
/// name, every node name after the call was one before it, and every node
/// is still stored under its own name.
pub proof fn lemma_find_trees_adds_no_node(g: GraphView, k: WordView)
    requires
        keys_sorted(g.nodes),
        nodes_named(g.nodes),
    ensures
        pcontains(spec_find_trees(g).nodes, k) ==> pcontains(g.nodes, k),
        nodes_named(spec_find_trees(g).nodes),
        keys_sorted(spec_find_trees(g).nodes),
{
    lemma_find_trees_scan_nodes(g, g.edges_down);
}


proof fn lemma_lower_bound_same_keys<A, B>(s: Seq<(WordView, A)>, t: Seq<(WordView, B)>, k: WordView)
    requires
        s.len() == t.len(),
        forall|i: int| 0 <= i < s.len() ==> #[trigger] t[i].0 == s[i].0,
    ensures
        crate::word_map::lower_bound(s, k) == crate::word_map::lower_bound(t, k),
    decreases s.len(),
{
    if s.len() > 0 {
        assert(s.last().0 == t.last().0);
        let s2 = s.drop_last();
        let t2 = t.drop_last();
        assert forall|i: int| 0 <= i < s2.len() implies #[trigger] t2[i].0 == s2[i].0 by {
            assert(t2[i] == t[i] && s2[i] == s[i]);
        }
        lemma_lower_bound_same_keys(s2, t2, k);
    }
}

/// `map_nodes` keeps the keys and their order, and maps the value under
/// each key.
pub proof fn lemma_map_nodes(s: NodeSeq, f: spec_fn(GraphNodeView) -> GraphNodeView, k: WordView)
    ensures
        pget(map_nodes(s, f), k) == match pget(s, k) {
            Some(n) => Some(f(n)),
            None => None,
        },
        keys_sorted(s) ==> keys_sorted(map_nodes(s, f)),
{
    let t = map_nodes(s, f);
    assert forall|i: int| 0 <= i < s.len() implies #[trigger] t[i].0 == s[i].0 by {}
    lemma_lower_bound_same_keys(s, t, k);
    crate::word_map::lemma_lower_bound_range(s, k);
    if keys_sorted(s) {
        lemma_same_keys_sorted(s, t);
    }
}

/// `map_nodes` with a function that keeps names keeps every node stored
/// under its own name, and the same keys.
pub proof fn lemma_map_nodes_named(s: NodeSeq, f: spec_fn(GraphNodeView) -> GraphNodeView)
    requires
        nodes_named(s),
        forall|n: GraphNodeView| #[trigger] f(n).name == n.name,
    ensures
        nodes_named(map_nodes(s, f)),
        keys_within(map_nodes(s, f), s),
        keys_sorted(s) ==> keys_sorted(map_nodes(s, f)),
{
    assert forall|x: WordView| (#[trigger] pget(map_nodes(s, f), x) matches Some(n) ==> n.name == x) by {
        lemma_map_nodes(s, f, x);
    }
    assert forall|x: WordView| #[trigger] pcontains(map_nodes(s, f), x) implies pcontains(s, x) by {
        lemma_map_nodes(s, f, x);
    }
    lemma_map_nodes(s, f, WordView::Address(0));
}

proof fn lemma_insert_nodes_named(acc: NodeSeq, ns: Seq<GraphNodeView>)
    requires
        keys_sorted(acc),
        nodes_named(acc),
    ensures
        keys_sorted(insert_nodes(acc, ns)),
        nodes_named(insert_nodes(acc, ns)),
    decreases ns.len(),
{
    if ns.len() > 0 {
        lemma_insert_nodes_named(acc, ns.drop_last());
        let a = insert_nodes(acc, ns.drop_last());
        let n = ns.last();
        lemma_pinsert_sorted(a, n.name, n);
        assert forall|x: WordView| (#[trigger] pget(pinsert(a, n.name, n), x) matches Some(m) ==> m.name == x) by {
            lemma_get_after_insert(a, n.name, n, x);
        }
    }
}

/// `from_files` stores every node under its own name, keys ascending.
pub proof fn lemma_nodes_of_files_named(files: Seq<Seq<char>>)
    ensures
        keys_sorted(nodes_of_files(files)),
        nodes_named(nodes_of_files(files)),
    decreases files.len(),
{
    if files.len() > 0 {
        lemma_nodes_of_files_named(files.drop_last());
        lemma_insert_nodes_named(nodes_of_files(files.drop_last()), nodes_of_listing(files.last()));
    } else {
        assert forall|x: WordView| (#[trigger] pget(Seq::<(WordView, GraphNodeView)>::empty(), x) matches Some(m) ==> m.name == x) by {}
    }
}

/// Outside any tree: neither `TreeInit` nor `TreeMult`.
pub open spec fn outside_trees(n: GraphNodeView) -> bool {
    n.tree_type != GraphNodeTreeType::TreeInit && n.tree_type != GraphNodeTreeType::TreeMult
}

/// The number of nodes of `s` that meet `p`.
pub open spec fn count_nodes(s: NodeSeq, p: spec_fn(GraphNodeView) -> bool) -> nat
    decreases s.len(),
{
    if s.len() == 0 {
        0
    } else {
        count_nodes(s.drop_last(), p) + if p(s.last().1) {
            1nat
        } else {
            0nat
        }
    }
}

/// `init_tree_status` classifies each node by its callers and words alone,
/// and changes nothing else of it: a node of a tree (`TreeInit`, `TreeMult`)
/// becomes `TreeRoot`, `TreeSimple` or `TreeMult` as it has no caller, one,
/// or two and more; any other node with no word becomes `Orphan`,
/// `LeafSimple` or `LeafMult`, and one with words `Root`, `NodeSimple` or
/// `NodeMult`, in the same way. So a node with two or more callers is never
/// a simple leaf.
pub proof fn lemma_init_tree_status_classes(s: NodeSeq, k: WordView)
    ensures
        pget(s, k) is None ==> pget(map_nodes(s, |x: GraphNodeView| with_tree_status(x)), k) is None,
        pget(s, k) matches Some(n) ==> ({
            let r = pget(map_nodes(s, |x: GraphNodeView| with_tree_status(x)), k);
            let m = r.unwrap();
            let callers = n.called_by.len();
            &&& r is Some
            &&& m.name == n.name && m.tag == n.tag && m.byte == n.byte
            &&& m.byte_as_str == n.byte_as_str && m.word == n.word && m.called_by == n.called_by
            &&& !outside_trees(n) ==> m.tree_type == if callers == 0 {
                GraphNodeTreeType::TreeRoot
            } else if callers == 1 {
                GraphNodeTreeType::TreeSimple
            } else {
                GraphNodeTreeType::TreeMult
            }
            &&& outside_trees(n) && n.word.len() == 0 ==> m.tree_type == if callers == 0 {
                GraphNodeTreeType::Orphan
            } else if callers == 1 {
                GraphNodeTreeType::LeafSimple
            } else {
                GraphNodeTreeType::LeafMult
            }
            &&& outside_trees(n) && n.word.len() > 0 ==> m.tree_type == if callers == 0 {
                GraphNodeTreeType::Root
            } else if callers == 1 {
                GraphNodeTreeType::NodeSimple
            } else {
                GraphNodeTreeType::NodeMult
            }
        }),
{
    lemma_map_nodes(s, |x: GraphNodeView| with_tree_status(x), k);
}

/// The statistics of `init_tree_status` count the nodes outside trees by
/// class: no word and no caller, one caller, two or more callers; then words
/// and no caller, one caller, two or more callers.
pub proof fn lemma_tree_statistics_counts(s: NodeSeq)
    ensures
        tree_statistics(s) == (
            count_nodes(s, |n: GraphNodeView| outside_trees(n) && n.word.len() == 0 && n.called_by.len() == 0),
            count_nodes(s, |n: GraphNodeView| outside_trees(n) && n.word.len() == 0 && n.called_by.len() == 1),
            count_nodes(s, |n: GraphNodeView| outside_trees(n) && n.word.len() == 0 && n.called_by.len() >= 2),
            count_nodes(s, |n: GraphNodeView| outside_trees(n) && n.word.len() > 0 && n.called_by.len() == 0),
            count_nodes(s, |n: GraphNodeView| outside_trees(n) && n.word.len() > 0 && n.called_by.len() == 1),
            count_nodes(s, |n: GraphNodeView| outside_trees(n) && n.word.len() > 0 && n.called_by.len() >= 2),
        ),
    decreases s.len(),
{
    if s.len() > 0 {
        lemma_tree_statistics_counts(s.drop_last());
    }
}

proof fn lemma_scan_without_simple_leaf(g: GraphView, e: EdgeSeq)
    requires
        forall|i: int, j: int|
            0 <= i < e.len() && 0 <= j < e[i].1.len() ==> !(pget(g.nodes, #[trigger] e[i].1[j]) matches Some(
                n,
            ) && (n.tree_type == GraphNodeTreeType::LeafSimple || n.tree_type
                == GraphNodeTreeType::TreeSimple)),
    ensures
        find_trees_scan(g, e) == g,
    decreases e.len(),
{
    if e.len() > 0 {
        let e2 = e.drop_last();
        assert forall|i: int, j: int|
            0 <= i < e2.len() && 0 <= j < e2[i].1.len() implies !(pget(g.nodes, #[trigger] e2[i].1[j]) matches Some(
                n,
            ) && (n.tree_type == GraphNodeTreeType::LeafSimple || n.tree_type
                == GraphNodeTreeType::TreeSimple)) by {
            assert(e2[i] == e[i]);
        }
        lemma_scan_without_simple_leaf(g, e2);
        let v = e.last().1;
        assert forall|j: int| 0 <= j < v.len() implies !(pget(g.nodes, #[trigger] v[j]) matches Some(n) && (
            n.tree_type == GraphNodeTreeType::LeafSimple || n.tree_type == GraphNodeTreeType::TreeSimple)) by {
            assert(e.last() == e[e.len() - 1]);
            assert(e[e.len() - 1].1[j] == v[j]);
        }
        assert(!has_simple_leaf(g.nodes, v));
    }
}

/// Only a simple leaf starts a tree: where no word below any node names a
/// node of tree type `LeafSimple` or `TreeSimple` (a `LeafMult` or any other
/// class may be named), `find_trees` changes nothing: no tree is made and no
/// node leaves the graph.
pub proof fn lemma_find_trees_needs_simple_leaf(g: GraphView)
    requires
        forall|i: int, j: int|
            0 <= i < g.edges_down.len() && 0 <= j < g.edges_down[i].1.len() ==> !(pget(
                g.nodes,
                #[trigger] g.edges_down[i].1[j],
            ) matches Some(n) && (n.tree_type == GraphNodeTreeType::LeafSimple || n.tree_type
                == GraphNodeTreeType::TreeSimple)),
    ensures
        spec_find_trees(g) == g,
{
    lemma_scan_without_simple_leaf(g, g.edges_down);
}

} // verus!
