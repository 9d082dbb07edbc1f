//! The `estreya` commands: their arguments, the decisions of the directory
//! crawl, and the graph analysis that the `graph` command runs.

use vstd::prelude::*;
use crate::graph::{
    Graph, GraphOptions, GraphView, edges_from_nodes, lemma_find_trees_adds_no_node,
    lemma_map_nodes_named, lemma_nodes_of_files_named, listing_readable, map_nodes, nodes_named,
    nodes_of_files, spec_find_trees, with_callers, with_tree_status,
};
use crate::word::WordView;
use crate::word_map::pcontains;
use crate::graph_node::{GraphNodeView, node_apply_tags};
use crate::text::string_views;
use crate::word_map::keys_sorted;

verus! {

/// Arguments of `create-file`.
pub struct EstreyaComCreateFileArgs {
    pub config: String,
    pub symbol: String,
}

/// Arguments of `set-size`.
pub struct EstreyaComSizeArgs {
    pub config: String,
    pub name: String,
    pub new_size: u32,
}

/// Arguments of `rename`.
pub struct EstreyaComRenameArgs {
    pub config: String,
    pub old_name: String,
    pub new_name: String,
}

/// Arguments of `graph`.
pub struct EstreyaComGraphArgs {
    pub config_path: String,
    pub asm_dir: String,
    pub dry_run: bool,
}

/// The subcommands of `estreya`.
pub enum EstreyaCommand {
    Rename(EstreyaComRenameArgs),
    Graph(EstreyaComGraphArgs),
}

/// Arguments of `estreya`.
pub struct EstreyaArgs {
    pub command: EstreyaCommand,
}

/// The handler that `estreya` hands its subcommand to.
#[derive(Clone, Copy, Debug, PartialEq, Eq, Structural)]
pub enum EstreyaTask {
    Rename,
    Graph,
}

impl EstreyaArgs {
    /// Which handler runs the subcommand (`run`).
    pub fn run(&self) -> (t: EstreyaTask)
        ensures
            self.command is Rename ==> t == EstreyaTask::Rename,
            self.command is Graph ==> t == EstreyaTask::Graph,
    {
        match &self.command {
            EstreyaCommand::Rename(_) => EstreyaTask::Rename,
            EstreyaCommand::Graph(_) => EstreyaTask::Graph,
        }
    }
}

/// One entry of a directory listing.
pub struct DirItem {
    pub path: String,
    pub is_dir: bool,
}

/// The mathematical value of a [`DirItem`].
pub struct DirItemView {
    pub path: Seq<char>,
    pub is_dir: bool,
}

impl View for DirItem {
    type V = DirItemView;

    open spec fn view(&self) -> DirItemView {
        DirItemView { path: self.path@, is_dir: self.is_dir }
    }
}

/// The views of a listing.
pub open spec fn item_views(v: Seq<DirItem>) -> Seq<DirItemView> {
    v.map_values(|d: DirItem| d@)
}

/// The number of entries still to visit.
pub open spec fn item_count(frames: Seq<Seq<DirItemView>>) -> nat
    decreases frames.len(),
{
    if frames.len() == 0 {
        0
    } else {
        item_count(frames.drop_last()) + frames.last().len()
    }
}

/// The crawl from a state: the entries of the innermost open directory are
/// visited in order; a file is recorded; a directory stops the crawl with
/// its path (to be listed next); an exhausted directory is closed. `None`
/// where every directory is exhausted.
pub open spec fn crawl_next(frames: Seq<Seq<DirItemView>>, files: Seq<Seq<char>>) -> (
    Seq<Seq<DirItemView>>,
    Seq<Seq<char>>,
    Option<Seq<char>>,
)
    decreases item_count(frames) + frames.len(),
{
    if frames.len() == 0 {
        (frames, files, None)
    } else if frames.last().len() == 0 {
        crawl_next(frames.drop_last(), files)
    } else {
        let it = frames.last()[0];
        let fr = frames.update(frames.len() - 1, frames.last().drop_first());
        proof {
            assert(fr.drop_last() =~= frames.drop_last());
        }
        if it.is_dir {
            (fr, files, Some(it.path))
        } else {
            crawl_next(fr, files.push(it.path))
        }
    }
}

/// What the crawl asks for next.
pub enum CrawlAction {
    /// List this directory and hand its entries to `dir_crawler`.
    ReadDir(String),
    /// The crawl is over: every file found, in order.
    Done(Vec<String>),
}

/// The state of a directory crawl: the entries still to visit in each open
/// directory (innermost last) and the files found so far.
pub struct DirCrawl {
    frames: Vec<Vec<DirItem>>,
    files: Vec<String>,
}

impl DirCrawl {
    /// The entries still to visit in each open directory, in order.
    pub closed spec fn frames(&self) -> Seq<Seq<DirItemView>> {
        self.frames@.map_values(|f: Vec<DirItem>| item_views(f@).reverse())
    }

    /// The files found so far.
    pub closed spec fn files(&self) -> Seq<Seq<char>> {
        string_views(self.files@)
    }

    /// A crawl that has visited nothing.
    pub fn new() -> (c: DirCrawl)
        ensures
            c.frames() == Seq::<Seq<DirItemView>>::empty(),
            c.files() == Seq::<Seq<char>>::empty(),
    {
        let c = DirCrawl { frames: Vec::new(), files: Vec::new() };
        assert(c.frames() =~= Seq::<Seq<DirItemView>>::empty());
        assert(c.files() =~= Seq::<Seq<char>>::empty());
        c
    }
}

fn reversed(v: Vec<DirItem>) -> (r: Vec<DirItem>)
    ensures
        item_views(r@).reverse() == item_views(v@),
{
    let ghost iv = item_views(v@);
    let mut v = v;
    let mut r: Vec<DirItem> = Vec::new();
    while v.len() > 0
        invariant
            item_views(v@) + item_views(r@).reverse() == iv,
        decreases v@.len(),
    {
        let ghost before_v = item_views(v@);
        let ghost before_r = item_views(r@);
        let x = v.pop().unwrap();
        let ghost xv = x@;
        r.push(x);
        assert(item_views(v@) =~= before_v.drop_last());
        assert(item_views(r@) =~= before_r.push(xv));
        assert(item_views(r@).reverse() =~= seq![xv] + before_r.reverse());
        assert(before_v =~= before_v.drop_last().push(xv));
        assert(item_views(v@) + item_views(r@).reverse() =~= before_v + before_r.reverse());
    }
    assert(item_views(v@) =~= Seq::<DirItemView>::empty());
    assert(item_views(r@).reverse() =~= iv);
    r
}

fn clone_paths(v: &Vec<String>) -> (r: Vec<String>)
    ensures
        r@ == v@,
{
    crate::graph_node::clone_strings(v)
}

impl EstreyaComGraphArgs {
    /// One step of the directory crawl (`dir_crawler`): the listing of the
    /// directory that was asked for (the root's listing first) opens a new
    /// innermost directory; the crawl then runs until it needs another
    /// directory listed or is over. See [`crawl_next`].
    pub fn dir_crawler(crawl: &mut DirCrawl, listing: Vec<DirItem>) -> (a: CrawlAction)
        ensures
            ({
                let (fr, fi, next) = crawl_next(
                    old(crawl).frames().push(item_views(listing@)),
                    old(crawl).files(),
                );
                &&& final(crawl).frames() == fr
                &&& final(crawl).files() == fi
                &&& match a {
                    CrawlAction::ReadDir(p) => next == Some(p@),
                    CrawlAction::Done(v) => next is None && string_views(v@) == fi,
                }
            }),
    {
        let ghost lv = item_views(listing@);
        let frame = reversed(listing);
        crawl.frames.push(frame);
        assert(crawl.frames() =~= old(crawl).frames().push(lv));
        let ghost target = crawl_next(crawl.frames(), crawl.files());
        loop
            invariant
                crawl_next(crawl.frames(), crawl.files()) == target,
                target == crawl_next(old(crawl).frames().push(lv), old(crawl).files()),
                lv == item_views(listing@),
            decreases item_count(crawl.frames()) + crawl.frames().len(),
        {
            let ghost fr0 = crawl.frames();
            let ghost fi0 = crawl.files();
            if crawl.frames.len() == 0 {
                let files = clone_paths(&crawl.files);
                assert(target == (crawl.frames(), crawl.files(), Option::<Seq<char>>::None));
                return CrawlAction::Done(files);
            }
            let last = crawl.frames.len() - 1;
            assert(fr0.last() == item_views(crawl.frames@[last as int]@).reverse());
            if crawl.frames[last].len() == 0 {
                crawl.frames.pop();
                assert(crawl.frames() =~= fr0.drop_last());
                assert(item_count(crawl.frames()) + crawl.frames().len() < item_count(fr0) + fr0.len());
            } else {
                let mut top = crawl.frames.pop().unwrap();
                let ghost tv = item_views(top@);
                let it = top.pop().unwrap();
                let ghost itv = it@;
                assert(item_views(top@) =~= tv.drop_last());
                assert(tv.reverse()[0] == itv);
                assert(item_views(top@).reverse() =~= tv.reverse().drop_first());
                crawl.frames.push(top);
                assert(crawl.frames() =~= fr0.update(fr0.len() - 1, fr0.last().drop_first()));
                if it.is_dir {
                    assert(target == (crawl.frames(), crawl.files(), Some(itv.path)));
                    return CrawlAction::ReadDir(it.path);
                } else {
                    crawl.files.push(it.path);
                    assert(crawl.files() =~= fi0.push(itv.path));
                    proof {
                        let fr = fr0.update(fr0.len() - 1, fr0.last().drop_first());
                        assert(fr.drop_last() =~= fr0.drop_last());
                    }
                }
            }
        }
    }
}

/// `apply_tags` on a graph.
pub open spec fn tagged(g: GraphView) -> GraphView {
    GraphView { nodes: map_nodes(g.nodes, |n: GraphNodeView| node_apply_tags(n)), ..g }
}

/// `init_called_by` on a graph.
pub open spec fn with_called_by(g: GraphView) -> GraphView {
    GraphView { nodes: map_nodes(g.nodes, |n: GraphNodeView| with_callers(g.edges_up, n)), ..g }
}

/// `init_tree_status` on a graph.
pub open spec fn with_tree_statuses(g: GraphView) -> GraphView {
    GraphView { nodes: map_nodes(g.nodes, |n: GraphNodeView| with_tree_status(n)), ..g }
}

/// `k` rounds of `init_tree_status` followed by `find_trees`.
pub open spec fn tree_rounds(g: GraphView, k: nat) -> GraphView
    decreases k,
{
    if k == 0 {
        g
    } else {
        tree_rounds(spec_find_trees(with_tree_statuses(g)), (k - 1) as nat)
    }
}

/// What `find_trees` reports in each of `k` rounds from `g` on: nodes before,
/// nodes after, trees after.
pub open spec fn round_counts(g: GraphView, k: nat) -> Seq<(nat, nat, nat)>
    decreases k,
{
    if k == 0 {
        seq![]
    } else {
        let h = with_tree_statuses(g);
        let r = spec_find_trees(h);
        seq![(h.nodes.len(), r.nodes.len(), r.trees.len())] + round_counts(r, (k - 1) as nat)
    }
}

/// The graph before the rounds of tree gathering: nodes read, tagged, edges
/// added, callers recorded.
pub open spec fn graph_prepared(files: Seq<Seq<char>>) -> GraphView {
    let g0 = GraphView {
        options: GraphOptions { debug: false },
        nodes: nodes_of_files(files),
        edges_up: Seq::empty(),
        edges_down: Seq::empty(),
        grouped_nodes: Seq::empty(),
        trees: Seq::empty(),
    };
    let g1 = tagged(g0);
    let g2 = edges_from_nodes(g1, g1.nodes);
    with_called_by(g2)
}

/// Count triples as numbers.
pub open spec fn counts_view(v: Seq<(usize, usize, usize)>) -> Seq<(nat, nat, nat)> {
    v.map_values(|t: (usize, usize, usize)| (t.0 as nat, t.1 as nat, t.2 as nat))
}

/// The analysis of the `graph` command on the given listings: nodes read,
/// tagged, edges added, callers recorded, then ten rounds of tree status and
/// tree gathering.
pub open spec fn graph_analysis(files: Seq<Seq<char>>) -> GraphView {
    tree_rounds(graph_prepared(files), 10)
}

impl EstreyaComGraphArgs {
    /// The analysis that the `graph` command runs on the text of the listings
    /// that the crawl found (`run`); see [`graph_analysis`]. Returns the graph
    /// and what `find_trees` reports in each round.
    pub fn run(&self, sources: &Vec<String>) -> (r: (Graph, Vec<(usize, usize, usize)>))
        requires
            forall|i: int| 0 <= i < sources@.len() ==> listing_readable(#[trigger] sources@[i]@),
        ensures
            crate::graph::graph_wf(r.0@),
            r.0@ == graph_analysis(string_views(sources@)),
            counts_view(r.1@) == round_counts(graph_prepared(string_views(sources@)), 10),
    {
        let mut graph = Graph::from_files(GraphOptions { debug: false }, sources);
        graph.apply_tags();
        graph.init_edges();
        graph.init_called_by();
        let ghost g3 = graph@;
        let mut report: Vec<(usize, usize, usize)> = Vec::new();
        let mut counter: u32 = 10;
        assert(counts_view(report@) + round_counts(g3, 10) =~= round_counts(g3, 10));
        while counter > 0
            invariant
                counter <= 10,
                crate::graph::graph_wf(graph@),
                tree_rounds(g3, 10) == tree_rounds(graph@, counter as nat),
                counts_view(report@) + round_counts(graph@, counter as nat) == round_counts(g3, 10),
            decreases counter,
        {
            let ghost before = graph@;
            let ghost rv = counts_view(report@);
            graph.init_tree_status();
            let counts = graph.find_trees();
            report.push(counts);
            assert(counts_view(report@) =~= rv.push((counts.0 as nat, counts.1 as nat, counts.2 as nat)));
            assert(rv.push((counts.0 as nat, counts.1 as nat, counts.2 as nat)) + round_counts(graph@, (counter - 1) as nat)
                =~= rv + round_counts(before, counter as nat));
            counter = counter - 1;
        }
        assert(counts_view(report@) =~= counts_view(report@) + round_counts(graph@, 0));
        (graph, report)
    }
}


proof fn lemma_tree_rounds_nodes(g: GraphView, k: nat, x: WordView)
    requires
        keys_sorted(g.nodes),
        nodes_named(g.nodes),
    ensures
        keys_sorted(tree_rounds(g, k).nodes),
        nodes_named(tree_rounds(g, k).nodes),
        pcontains(tree_rounds(g, k).nodes, x) ==> pcontains(g.nodes, x),
    decreases k,
{
    if k > 0 {
        let f = |n: GraphNodeView| with_tree_status(n);
        lemma_map_nodes_named(g.nodes, f);
        let h = with_tree_statuses(g);
        lemma_find_trees_adds_no_node(h, x);
        let r = spec_find_trees(h);
        lemma_tree_rounds_nodes(r, (k - 1) as nat, x);
        if pcontains(tree_rounds(g, k).nodes, x) {
            assert(pcontains(r.nodes, x));
            assert(pcontains(h.nodes, x));
        }
    }
}

/// The analysis of the `graph` command only ever takes nodes out: every
/// node of its result is stored under its own name, and that name is the
/// name of a node read from the listings.
pub proof fn lemma_graph_analysis_removes_only(files: Seq<Seq<char>>, x: WordView)
    ensures
        nodes_named(graph_analysis(files).nodes),
        pcontains(graph_analysis(files).nodes, x) ==> pcontains(nodes_of_files(files), x),
{
    lemma_nodes_of_files_named(files);
    let g0 = GraphView {
        options: GraphOptions { debug: false },
        nodes: nodes_of_files(files),
        edges_up: Seq::empty(),
        edges_down: Seq::empty(),
        grouped_nodes: Seq::empty(),
        trees: Seq::empty(),
    };
    let ft = |n: GraphNodeView| node_apply_tags(n);
    lemma_map_nodes_named(g0.nodes, ft);
    let g1 = tagged(g0);
    assert(crate::graph::graph_wf(g1));
    crate::graph::lemma_edges_from_nodes_preserves(g1, g1.nodes);
    assert(graph_prepared(files) == with_called_by(edges_from_nodes(g1, g1.nodes)));
    let g2 = edges_from_nodes(g1, g1.nodes);
    let fc = |n: GraphNodeView| with_callers(g2.edges_up, n);
    lemma_map_nodes_named(g2.nodes, fc);
    let g3 = with_called_by(g2);
    lemma_tree_rounds_nodes(g3, 10, x);
    if pcontains(graph_analysis(files).nodes, x) {
        assert(pcontains(g3.nodes, x));
        assert(pcontains(g2.nodes, x));
        assert(pcontains(g1.nodes, x));
    }
}

} // verus!

verus! {

/// A directory tree: a file, or a directory with its entries in listing
/// order.
pub enum FsEntry {
    File(Seq<char>),
    Dir(Seq<char>, Seq<FsEntry>),
}

/// The listing entry of a tree entry.
pub open spec fn entry_item(e: FsEntry) -> DirItemView {
    match e {
        FsEntry::File(p) => DirItemView { path: p, is_dir: false },
        FsEntry::Dir(p, _) => DirItemView { path: p, is_dir: true },
    }
}

/// The listing of a sequence of tree entries.
pub open spec fn items_of(s: Seq<FsEntry>) -> Seq<DirItemView> {
    s.map_values(|e: FsEntry| entry_item(e))
}

/// The listings of a stack of entry sequences.
pub open spec fn frames_of(tf: Seq<Seq<FsEntry>>) -> Seq<Seq<DirItemView>> {
    tf.map_values(|s: Seq<FsEntry>| items_of(s))
}

/// The files of a sequence of tree entries, depth first, in listing order.
pub open spec fn files_in(s: Seq<FsEntry>) -> Seq<Seq<char>>
    decreases s,
{
    if s.len() == 0 {
        seq![]
    } else {
        let rest = files_in(s.subrange(1, s.len() as int));
        match s[0] {
            FsEntry::File(p) => seq![p] + rest,
            FsEntry::Dir(_, kids) => files_in(kids) + rest,
        }
    }
}

/// The number of entries in a sequence of tree entries, nested ones
/// included.
pub open spec fn tree_size(s: Seq<FsEntry>) -> nat
    decreases s,
{
    if s.len() == 0 {
        0
    } else {
        let rest = tree_size(s.subrange(1, s.len() as int));
        match s[0] {
            FsEntry::File(_) => 1 + rest,
            FsEntry::Dir(_, kids) => 1 + tree_size(kids) + rest,
        }
    }
}

/// The number of entries in a stack of entry sequences.
pub open spec fn frames_size(tf: Seq<Seq<FsEntry>>) -> nat
    decreases tf.len(),
{
    if tf.len() == 0 {
        0
    } else {
        frames_size(tf.drop_last()) + tree_size(tf.last())
    }
}

/// The files still to be found from a stack: the innermost sequence first.
pub open spec fn pending(tf: Seq<Seq<FsEntry>>) -> Seq<Seq<char>>
    decreases tf.len(),
{
    if tf.len() == 0 {
        seq![]
    } else {
        files_in(tf.last()) + pending(tf.drop_last())
    }
}

/// `crawl_next` on a stack of tree entries: the same steps, and where a
/// directory stops the crawl, its entries.
pub open spec fn tree_next(tf: Seq<Seq<FsEntry>>, files: Seq<Seq<char>>) -> (
    Seq<Seq<FsEntry>>,
    Seq<Seq<char>>,
    Option<(Seq<char>, Seq<FsEntry>)>,
)
    decreases frames_size(tf) + tf.len(),
{
    if tf.len() == 0 {
        (tf, files, None)
    } else if tf.last().len() == 0 {
        tree_next(tf.drop_last(), files)
    } else {
        let it = tf.last()[0];
        let rest = tf.last().subrange(1, tf.last().len() as int);
        let fr = tf.update(tf.len() - 1, rest);
        proof {
            assert(fr.drop_last() =~= tf.drop_last());
            assert(tf.last() =~= seq![it] + rest);
        }
        match it {
            FsEntry::Dir(p, kids) => (fr, files, Some((p, kids))),
            FsEntry::File(p) => tree_next(fr, files.push(p)),
        }
    }
}

/// The crawl answered with the entries of each directory it asks for: the
/// files it ends with.
pub open spec fn crawl_answered(tf: Seq<Seq<FsEntry>>, files: Seq<Seq<char>>) -> Seq<Seq<char>>
    decreases frames_size(tf),
{
    let (tf2, files2, next) = tree_next(tf, files);
    match next {
        None => files2,
        Some((_, kids)) => {
            proof {
                lemma_tree_next_size(tf, files);
            }
            crawl_answered(tf2.push(kids), files2)
        },
    }
}

/// The size of a stack whose innermost sequence is replaced.
pub proof fn lemma_frames_size_update(tf: Seq<Seq<FsEntry>>, s: Seq<FsEntry>)
    requires
        tf.len() > 0,
    ensures
        frames_size(tf.update(tf.len() - 1, s)) == frames_size(tf.drop_last()) + tree_size(s),
{
    assert(tf.update(tf.len() - 1, s).drop_last() =~= tf.drop_last());
}

/// A directory that the crawl stops at leaves fewer entries in the stack
/// once its own entries are pushed.
pub proof fn lemma_tree_next_size(tf: Seq<Seq<FsEntry>>, files: Seq<Seq<char>>)
    ensures
        tree_next(tf, files).2 matches Some((_, kids)) ==> frames_size(
            tree_next(tf, files).0.push(kids),
        ) < frames_size(tf),
        tree_next(tf, files).2 is None ==> true,
    decreases frames_size(tf) + tf.len(),
{
    if tf.len() > 0 {
        if tf.last().len() == 0 {
            lemma_tree_next_size(tf.drop_last(), files);
            assert(frames_size(tf) == frames_size(tf.drop_last()));
        } else {
            let it = tf.last()[0];
            let rest = tf.last().subrange(1, tf.last().len() as int);
            let fr = tf.update(tf.len() - 1, rest);
            lemma_frames_size_update(tf, rest);
            assert(fr.drop_last() =~= tf.drop_last());
            match it {
                FsEntry::Dir(p, kids) => {
                    assert(fr.push(kids).drop_last() =~= fr);
                },
                FsEntry::File(p) => {
                    lemma_tree_next_size(fr, files.push(p));
                },
            }
        }
    }
}

/// The steps on tree entries are the crawl's own steps on their listings.
pub proof fn lemma_tree_next_mirrors_crawl(tf: Seq<Seq<FsEntry>>, files: Seq<Seq<char>>)
    ensures
        crawl_next(frames_of(tf), files) == ({
            let (tf2, files2, next) = tree_next(tf, files);
            (
                frames_of(tf2),
                files2,
                match next {
                    Some((p, _)) => Some(p),
                    None => None,
                },
            )
        }),
    decreases frames_size(tf) + tf.len(),
{
    let fs = frames_of(tf);
    if tf.len() > 0 {
        if tf.last().len() == 0 {
            assert(frames_of(tf.drop_last()) =~= fs.drop_last());
            lemma_tree_next_mirrors_crawl(tf.drop_last(), files);
        } else {
            let it = tf.last()[0];
            let rest = tf.last().subrange(1, tf.last().len() as int);
            let fr = tf.update(tf.len() - 1, rest);
            lemma_frames_size_update(tf, rest);
            assert(fs.last() == items_of(tf.last()));
            assert(fs.last()[0] == entry_item(it));
            assert(items_of(rest) =~= items_of(tf.last()).drop_first());
            assert(frames_of(fr) =~= fs.update(fs.len() - 1, fs.last().drop_first()));
            match it {
                FsEntry::Dir(p, kids) => {},
                FsEntry::File(p) => {
                    lemma_tree_next_mirrors_crawl(fr, files.push(p));
                },
            }
        }
    }
}

proof fn lemma_files_in_step(s: Seq<FsEntry>)
    requires
        s.len() > 0,
    ensures
        files_in(s) == match s[0] {
            FsEntry::File(p) => seq![p] + files_in(s.subrange(1, s.len() as int)),
            FsEntry::Dir(_, kids) => files_in(kids) + files_in(s.subrange(1, s.len() as int)),
        },
{
}

proof fn lemma_tree_next_pending(tf: Seq<Seq<FsEntry>>, files: Seq<Seq<char>>)
    ensures
        ({
            let (tf2, files2, next) = tree_next(tf, files);
            match next {
                None => files2 == files + pending(tf),
                Some((_, kids)) => files2 + files_in(kids) + pending(tf2) == files + pending(tf),
            }
        }),
    decreases frames_size(tf) + tf.len(),
{
    if tf.len() == 0 {
        assert(files + pending(tf) =~= files);
    } else if tf.last().len() == 0 {
        lemma_tree_next_pending(tf.drop_last(), files);
        assert(pending(tf) =~= pending(tf.drop_last()));
    } else {
        let it = tf.last()[0];
        let rest = tf.last().subrange(1, tf.last().len() as int);
        let fr = tf.update(tf.len() - 1, rest);
        lemma_frames_size_update(tf, rest);
        assert(fr.drop_last() =~= tf.drop_last());
        lemma_files_in_step(tf.last());
        match it {
            FsEntry::Dir(p, kids) => {
                assert(files + files_in(kids) + pending(fr) =~= files + pending(tf));
            },
            FsEntry::File(p) => {
                lemma_tree_next_pending(fr, files.push(p));
                assert(files.push(p) + pending(fr) =~= files + pending(tf));
            },
        }
    }
}

proof fn lemma_crawl_answered(tf: Seq<Seq<FsEntry>>, files: Seq<Seq<char>>)
    ensures
        crawl_answered(tf, files) == files + pending(tf),
    decreases frames_size(tf),
{
    lemma_tree_next_pending(tf, files);
    let (tf2, files2, next) = tree_next(tf, files);
    match next {
        None => {},
        Some((_, kids)) => {
            lemma_tree_next_size(tf, files);
            lemma_crawl_answered(tf2.push(kids), files2);
            assert(tf2.push(kids).drop_last() =~= tf2);
            assert(pending(tf2.push(kids)) =~= files_in(kids) + pending(tf2));
            assert(files2 + pending(tf2.push(kids)) =~= files2 + files_in(kids) + pending(tf2));
        },
    }
}

/// The crawl walks a directory tree depth first: started on the root's
/// entries and answered, each time it asks, with the entries of that
/// directory, it ends with exactly the tree's files, each directory's files
/// in its place in the listing. (`lemma_tree_next_mirrors_crawl` shows that
/// the steps on tree entries are the crawl's own.)
pub proof fn lemma_crawl_depth_first(root: Seq<FsEntry>)
    ensures
        crawl_answered(seq![root], seq![]) == files_in(root),
{
    lemma_crawl_answered(seq![root], seq![]);
    assert(seq![root].drop_last() =~= Seq::<Seq<FsEntry>>::empty());
    assert(pending(Seq::<Seq<FsEntry>>::empty()) == Seq::<Seq<char>>::empty());
    assert(pending(seq![root]) == files_in(root) + pending(Seq::<Seq<FsEntry>>::empty()));
    assert(Seq::<Seq<char>>::empty() + pending(seq![root]) =~= files_in(root));
}

} // verus!
