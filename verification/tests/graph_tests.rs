use ds_decomp::estreya::{
    CrawlAction, DirCrawl, DirItem, EstreyaArgs, EstreyaComGraphArgs, EstreyaComRenameArgs,
    EstreyaCommand, EstreyaTask,
};
use ds_decomp::graph::{Graph, GraphOptions, Tree};
use ds_decomp::graph_node::{GraphFileType, GraphNode, GraphNodeTag, GraphNodeTreeType};
use ds_decomp::listing::AsmParser;
use ds_decomp::word::GraphNodeWord;
use ds_decomp::word_map::WordMap;

const LISTING: &str = "\
func_a:
    bl func_b
    bl func_c
func_b:
    bx lr
func_c:
    .word data_d
data_d:
    .byte 0x41
";

fn w(s: &str) -> GraphNodeWord {
    GraphNodeWord::from_string(s.to_string())
}

fn names(v: &[GraphNodeWord]) -> Vec<String> {
    v.iter().map(|x| x.to_text()).collect()
}

fn keys_n(m: &WordMap<GraphNode>) -> Vec<String> {
    (0..m.len()).map(|i| m.key_at(i).to_text()).collect()
}

fn keys_e(m: &WordMap<Vec<GraphNodeWord>>) -> Vec<String> {
    (0..m.len()).map(|i| m.key_at(i).to_text()).collect()
}

fn keys_t(m: &WordMap<Tree>) -> Vec<String> {
    (0..m.len()).map(|i| m.key_at(i).to_text()).collect()
}

fn node<'a>(g: &'a Graph, name: &str) -> &'a GraphNode {
    g.nodes.get(&w(name)).expect("node present")
}

#[test]
fn to_nodes_groups_entries_by_definition() {
    let nodes = AsmParser::parse(LISTING).to_nodes().into_vec();
    let n: Vec<String> = nodes.iter().map(|n| n.name.to_text()).collect();
    assert_eq!(n, vec!["func_a", "func_b", "func_c", "data_d"]);
    assert_eq!(names(&nodes[0].word), vec!["func_b", "func_c"]);
    assert!(nodes[1].word.is_empty());
    // every node but the last is cleaned
    assert!(nodes[0].byte_as_str.is_empty());
    assert_eq!(nodes[3].byte_as_str, vec!["".to_string(), "A".to_string()]);
    assert_eq!(nodes[3].byte, vec![0x41]);
}

#[test]
fn to_nodes_without_definitions_keeps_the_dummy() {
    let nodes = AsmParser::parse("    .word x\n    .word y\n").to_nodes().into_vec();
    assert_eq!(nodes.len(), 1);
    assert_eq!(nodes[0].name.to_text(), "GRAPH_DUMMY_START");
    assert_eq!(names(&nodes[0].word), vec!["x", "y"]);
}

#[test]
fn to_nodes_drops_entries_before_the_first_definition() {
    let nodes = AsmParser::parse("    .word x\nf:\n    .word y\n").to_nodes().into_vec();
    assert_eq!(nodes.len(), 1);
    assert_eq!(nodes[0].name.to_text(), "f");
    assert_eq!(names(&nodes[0].word), vec!["y"]);
}

#[test]
fn from_files_keys_nodes_by_name_in_order() {
    assert!(Graph::listing_is_readable(LISTING));
    let g = Graph::from_files(GraphOptions { debug: false }, &vec![LISTING.to_string()]);
    assert_eq!(keys_n(&g.nodes), vec!["data_d", "func_a", "func_b", "func_c"]);
    assert_eq!(g.edges_down.len(), 0);
    assert_eq!(g.trees.len(), 0);
    // a later file replaces a node of the same name
    let g = Graph::from_files(
        GraphOptions { debug: true },
        &vec![LISTING.to_string(), "func_b:\n    .word z\n0x10:\n".to_string()],
    );
    assert_eq!(keys_n(&g.nodes), vec!["0x10", "data_d", "func_a", "func_b", "func_c"]);
    assert_eq!(names(&node(&g, "func_b").word), vec!["z"]);
    assert!(g.options.debug);
}

#[test]
fn listing_with_bad_address_is_unreadable() {
    assert!(!Graph::listing_is_readable("0xzz:\n"));
    assert!(!Graph::listing_is_readable("f:\n    .word 0x123456789\n"));
}

#[test]
fn apply_tags_marks_collections_addresses_and_files() {
    let src = "\
coll:
    .word a
    .word b
    .byte 0, 0
addr:
    .word a
file:
    .byte 0x61, 0x2e, 0x4e, 0x63, 0x4c, 0x72, 0x20, 0
plain:
    .byte 1
";
    let mut g = Graph::from_files(GraphOptions { debug: false }, &vec![src.to_string()]);
    g.apply_tags();
    assert_eq!(node(&g, "coll").tag.0, vec![GraphNodeTag::Collection]);
    assert_eq!(node(&g, "addr").tag.0, vec![GraphNodeTag::Address]);
    assert_eq!(node(&g, "file").tag.0, vec![GraphNodeTag::File(GraphFileType::Nclr)]);
    assert!(node(&g, "plain").tag.0.is_empty());
}

#[test]
fn is_file_reads_the_last_segment() {
    let mut n = GraphNode::named(w("n"));
    n.byte_as_str = vec!["data/bg.".to_string(), "CARC \0".to_string()];
    assert_eq!(n.is_file(), Some(GraphFileType::Carc));
    n.byte_as_str = vec!["bmg".to_string()];
    assert_eq!(n.is_file(), Some(GraphFileType::Bmg));
    n.byte_as_str = vec!["x.nbfpx".to_string()];
    assert_eq!(n.is_file(), None);
    n.byte_as_str = vec!["x.nbfp.".to_string()];
    assert_eq!(n.is_file(), None);
}

#[test]
fn padding_and_sizes() {
    let mut n = GraphNode::named(w("n"));
    assert!(n.byte_are_padding());
    n.byte = vec![0, 0, 3];
    assert_eq!(n.byte_size(), 3);
    assert!(!n.byte_are_padding());
    n.word = vec![w("a"), w("b")];
    assert!(!n.is_collection());
    n.byte = vec![0, 0];
    assert!(n.is_collection());
    assert!(!n.is_address());
    n.byte.clear();
    n.word.pop();
    assert!(n.is_address());
    assert!(n.has_tree_type(GraphNodeTreeType::Init));
}

#[test]
fn clean_removes_empty_texts() {
    let mut n = GraphNode::named(w("n"));
    n.byte_as_str = vec!["".to_string(), "a".to_string(), "".to_string(), "b".to_string()];
    n.word = vec![w("zeta"), w(""), w("0x20"), w("alpha"), w("0x3"), w("alpha")];
    n.clean();
    assert_eq!(n.byte_as_str, vec!["a".to_string(), "b".to_string()]);
    assert_eq!(names(&n.word), vec!["0x3", "0x20", "alpha", "alpha", "zeta"]);
    n.clean();
    assert_eq!(n.byte_as_str, vec!["a".to_string(), "b".to_string()]);
    assert_eq!(names(&n.word), vec!["0x3", "0x20", "alpha", "alpha", "zeta"]);
}

#[test]
fn to_nodes_sorts_the_words_of_finished_nodes() {
    let nodes = AsmParser::parse("f:\n    bl zed\n    bl abc\ng:\n    bl zed\n    bl abc\n")
        .to_nodes()
        .into_vec();
    assert_eq!(names(&nodes[0].word), vec!["abc", "zed"]);
    // the last node is not cleaned
    assert_eq!(names(&nodes[1].word), vec!["zed", "abc"]);
}

fn prepared() -> Graph {
    let mut g = Graph::from_files(GraphOptions { debug: false }, &vec![LISTING.to_string()]);
    g.apply_tags();
    g.init_edges();
    g.init_called_by();
    g
}

#[test]
fn init_edges_and_called_by() {
    let g = prepared();
    assert_eq!(keys_e(&g.edges_down), vec!["func_a", "func_c"]);
    assert_eq!(names(g.edges_down.get(&w("func_a")).unwrap()), vec!["func_b", "func_c"]);
    assert_eq!(names(g.edges_down.get(&w("func_c")).unwrap()), vec!["data_d"]);
    assert_eq!(keys_e(&g.edges_up), vec!["data_d", "func_b", "func_c"]);
    assert_eq!(names(&node(&g, "data_d").called_by), vec!["func_c"]);
    assert_eq!(names(&node(&g, "func_b").called_by), vec!["func_a"]);
    assert!(node(&g, "func_a").called_by.is_empty());
}

#[test]
fn init_tree_status_classifies_by_callers_and_words() {
    let mut g = prepared();
    let stats = g.init_tree_status();
    assert_eq!(stats, (0, 2, 0, 1, 1, 0));
    assert_eq!(node(&g, "data_d").tree_type, GraphNodeTreeType::LeafSimple);
    assert_eq!(node(&g, "func_a").tree_type, GraphNodeTreeType::Root);
    assert_eq!(node(&g, "func_b").tree_type, GraphNodeTreeType::LeafSimple);
    assert_eq!(node(&g, "func_c").tree_type, GraphNodeTreeType::NodeSimple);
    let leaves = g.nodes_by_tree_type(GraphNodeTreeType::LeafSimple);
    assert_eq!(names(&leaves), vec!["data_d", "func_b"]);
    let out = g.edges_out_by_tree_type(GraphNodeTreeType::NodeSimple);
    assert_eq!(keys_e(&out), vec!["func_c"]);
    assert_eq!(names(out.value_at(0)), vec!["data_d"]);
    let inn = g.edges_in_by_tree_type(GraphNodeTreeType::LeafSimple);
    assert_eq!(keys_e(&inn), vec!["data_d", "func_b"]);
    assert_eq!(names(inn.value_at(1)), vec!["func_a"]);
}

#[test]
fn init_tree_status_for_tree_nodes() {
    let mut g = Graph::new(GraphOptions { debug: false });
    let mut a = GraphNode::named(w("a"));
    a.tree_type = GraphNodeTreeType::TreeInit;
    let mut b = GraphNode::named(w("b"));
    b.tree_type = GraphNodeTreeType::TreeMult;
    b.called_by = vec![w("x")];
    let mut c = GraphNode::named(w("c"));
    c.tree_type = GraphNodeTreeType::TreeInit;
    c.called_by = vec![w("x"), w("y")];
    g.add_node(a);
    g.add_node(b);
    g.add_node(c);
    assert_eq!(g.init_tree_status(), (0, 0, 0, 0, 0, 0));
    assert_eq!(node(&g, "a").tree_type, GraphNodeTreeType::TreeRoot);
    assert_eq!(node(&g, "b").tree_type, GraphNodeTreeType::TreeSimple);
    assert_eq!(node(&g, "c").tree_type, GraphNodeTreeType::TreeMult);
    // a second round classifies TreeRoot and TreeSimple nodes afresh
    g.init_tree_status();
    assert_eq!(node(&g, "a").tree_type, GraphNodeTreeType::Orphan);
    assert_eq!(node(&g, "b").tree_type, GraphNodeTreeType::LeafSimple);
    assert_eq!(node(&g, "c").tree_type, GraphNodeTreeType::TreeMult);
}

#[test]
fn find_trees_gathers_leaves_under_their_root() {
    let mut g = prepared();
    g.init_tree_status();
    assert_eq!(g.find_trees(), (4, 2, 1));
    assert_eq!(keys_n(&g.nodes), vec!["data_d", "func_a"]);
    assert_eq!(node(&g, "func_a").tree_type, GraphNodeTreeType::TreeInit);
    assert!(node(&g, "func_a").word.is_empty());
    assert_eq!(keys_t(&g.trees), vec!["func_a"]);
    let t: &Tree = g.trees.get(&w("func_a")).unwrap();
    assert_eq!(t.root.name.to_text(), "func_a");
    assert_eq!(names(&t.root.word), vec!["func_b", "func_c"]);
    assert_eq!(keys_n(&t.nodes), vec!["func_b", "func_c"]);
    assert_eq!(keys_e(&g.edges_up), vec!["data_d"]);
    assert_eq!(keys_e(&g.edges_down), vec!["func_a"]);
}

#[test]
fn graph_command_analysis_runs_ten_rounds() {
    let args = EstreyaComGraphArgs {
        config_path: "config.yaml".to_string(),
        asm_dir: "asm".to_string(),
        dry_run: false,
    };
    let (g, report) = args.run(&vec![LISTING.to_string()]);
    assert_eq!(report.len(), 10);
    assert_eq!(report[0], (4, 2, 1));
    assert!(report[1..].iter().all(|r| *r == (2, 2, 1)));
    assert_eq!(keys_n(&g.nodes), vec!["data_d", "func_a"]);
    assert_eq!(node(&g, "data_d").tree_type, GraphNodeTreeType::LeafSimple);
    assert_eq!(node(&g, "func_a").tree_type, GraphNodeTreeType::Orphan);
    assert_eq!(node(&g, "func_a").tag.0, vec![GraphNodeTag::Collection]);
    assert_eq!(keys_t(&g.trees), vec!["func_a"]);
}

#[test]
fn tree_simple_leaves_bring_their_trees() {
    let mut g = Graph::new(GraphOptions { debug: false });
    let mut top = GraphNode::named(w("top"));
    top.word = vec![w("mid")];
    let mut mid = GraphNode::named(w("mid"));
    mid.tree_type = GraphNodeTreeType::TreeSimple;
    let mut sub = Tree::new_from_node(GraphNode::named(w("mid")));
    sub.add_node(GraphNode::named(w("leaf")));
    g.trees.insert(w("mid"), sub);
    g.add_node(top);
    g.add_node(mid);
    g.add_edge(&w("top"), &w("mid"));
    g.find_trees();
    assert_eq!(keys_n(&g.nodes), vec!["top"]);
    assert_eq!(keys_t(&g.trees), vec!["top"]);
    let t = g.trees.get(&w("top")).unwrap();
    assert_eq!(keys_n(&t.nodes), vec!["leaf", "mid"]);
}

#[test]
fn add_edge_records_both_directions() {
    let mut g = Graph::new(GraphOptions { debug: false });
    g.add_edge(&w("a"), &w("b"));
    assert_eq!(names(g.edges_down.get(&w("a")).unwrap()), vec!["b"]);
    assert_eq!(names(g.edges_up.get(&w("b")).unwrap()), vec!["a"]);
    // a second edge into `b` appends its caller to the list above `b`
    g.add_edge(&w("c"), &w("b"));
    assert_eq!(names(g.edges_up.get(&w("b")).unwrap()), vec!["a", "c"]);
    assert_eq!(names(g.edges_down.get(&w("c")).unwrap()), vec!["b"]);
}

#[test]
fn remove_edge_and_related_edges() {
    let mut g = Graph::new(GraphOptions { debug: false });
    g.add_edge(&w("a"), &w("b"));
    g.add_edge(&w("a"), &w("c"));
    g.remove_edge(&w("a"), &w("b"));
    assert_eq!(names(g.edges_down.get(&w("a")).unwrap()), vec!["c"]);
    assert!(g.edges_up.get(&w("b")).unwrap().is_empty());
    g.remove_edge(&w("x"), &w("y"));
    assert!(g.edges_down.get(&w("x")).is_none());
    g.remove_related_edges(&w("a"));
    assert!(g.edges_down.get(&w("a")).is_none());
}

#[test]
fn edges_in_and_out_are_single_entry_maps() {
    let mut g = Graph::new(GraphOptions { debug: false });
    g.add_edge(&w("a"), &w("b"));
    let out = g.edges_out(&w("a"));
    assert_eq!(keys_e(&out), vec!["a"]);
    assert_eq!(names(out.value_at(0)), vec!["b"]);
    let inn = g.edges_in(&w("a"));
    assert_eq!(keys_e(&inn), vec!["a"]);
    assert!(inn.value_at(0).is_empty());
    assert_eq!(names(&Graph::lookup_edges_out(&g.edges_down, w("a"))), vec!["b"]);
    assert!(Graph::lookup_edges_out(&g.edges_down, w("q")).is_empty());
}

#[test]
fn lookup_edges_in_lists_referring_keys() {
    let mut g = Graph::new(GraphOptions { debug: false });
    g.add_node(GraphNode::named(w("b")));
    g.add_edge(&w("a"), &w("b"));
    g.add_edge(&w("c"), &w("b"));
    g.add_edge(&w("c"), &w("d"));
    let r = Graph::lookup_edges_in(&g.nodes, &g.edges_down, &w("b"));
    assert_eq!(names(&r), vec!["a", "c"]);
    assert!(Graph::lookup_edges_in(&g.nodes, &g.edges_down, &w("d")).is_empty());
}

#[test]
fn pop_node_returns_what_add_node_stored() {
    let mut g = Graph::new(GraphOptions { debug: false });
    let mut n = GraphNode::named(w("0x20"));
    n.byte = vec![7];
    g.add_node(n);
    let back = g.pop_node(w("0x20")).unwrap();
    assert_eq!(back.byte, vec![7]);
    assert!(g.pop_node(w("0x20")).is_none());
    assert_eq!(g.nodes.len(), 0);
}

#[test]
fn word_map_keeps_keys_sorted() {
    let mut m: WordMap<Vec<GraphNodeWord>> = WordMap::new();
    for k in ["m", "0x5", "b", "0x1", "z", "b"] {
        m.insert(w(k), vec![w(k)]);
    }
    assert_eq!(keys_e(&m), vec!["0x1", "0x5", "b", "m", "z"]);
    assert!(m.contains_key(&w("m")));
    assert!(m.remove(&w("m")).is_some());
    assert!(!m.contains_key(&w("m")));
    assert!(m.remove(&w("m")).is_none());
    assert_eq!(m.insert(w("b"), vec![]).map(|v| v.len()), Some(1));
    assert_eq!(m.find(&w("c")), Err(3));
    assert_eq!(m.find(&w("b")), Ok(2));
}

#[test]
fn tree_consume_takes_root_and_nodes() {
    let mut t = Tree::new_from_node(GraphNode::named(w("r")));
    let name = t.add_node(GraphNode::named(w("x")));
    assert_eq!(name.to_text(), "x");
    let mut other = Tree::new_from_node(GraphNode::named(w("o")));
    other.add_node(GraphNode::named(w("p")));
    t.consume_tree(other);
    assert_eq!(keys_n(&t.nodes), vec!["o", "p", "x"]);
    assert_eq!(t.root.name.to_text(), "r");
}

fn crawl(fs: &[(&str, Vec<(&str, bool)>)], root: &str) -> Vec<String> {
    let listing = |p: &str| -> Vec<DirItem> {
        fs.iter()
            .find(|(d, _)| *d == p)
            .map(|(_, v)| {
                v.iter()
                    .map(|(n, d)| DirItem { path: format!("{}/{}", p, n), is_dir: *d })
                    .collect()
            })
            .unwrap_or_default()
    };
    let mut state = DirCrawl::new();
    let mut next = listing(root);
    loop {
        match EstreyaComGraphArgs::dir_crawler(&mut state, next) {
            CrawlAction::ReadDir(p) => next = listing(&p),
            CrawlAction::Done(files) => return files,
        }
    }
}

#[test]
fn dir_crawler_walks_depth_first() {
    let fs = vec![
        ("asm", vec![("a.s", false), ("sub", true), ("z.s", false)]),
        ("asm/sub", vec![("b.s", false), ("deep", true), ("empty", true)]),
        ("asm/sub/deep", vec![("c.s", false)]),
        ("asm/sub/empty", vec![]),
    ];
    assert_eq!(
        crawl(&fs, "asm"),
        vec!["asm/a.s", "asm/sub/b.s", "asm/sub/deep/c.s", "asm/z.s"]
    );
    assert!(crawl(&[("e", vec![])], "e").is_empty());
}

#[test]
fn estreya_dispatches_subcommands() {
    let rename = EstreyaArgs {
        command: EstreyaCommand::Rename(EstreyaComRenameArgs {
            config: "c".to_string(),
            old_name: "a".to_string(),
            new_name: "b".to_string(),
        }),
    };
    assert_eq!(rename.run(), EstreyaTask::Rename);
    let graph = EstreyaArgs {
        command: EstreyaCommand::Graph(EstreyaComGraphArgs {
            config_path: "c".to_string(),
            asm_dir: "d".to_string(),
            dry_run: true,
        }),
    };
    assert_eq!(graph.run(), EstreyaTask::Graph);
}

#[test]
fn apply_tags_adds_one_tag_per_call() {
    let mut n = GraphNode::named(w("n"));
    n.word = vec![w("a")];
    n.apply_tags();
    assert_eq!(n.tag.0, vec![GraphNodeTag::Address]);
    n.apply_tags();
    assert_eq!(n.tag.0, vec![GraphNodeTag::Address, GraphNodeTag::Address]);
    let mut m = GraphNode::named(w("m"));
    m.apply_tags();
    assert!(m.tag.0.is_empty());
}

#[test]
fn map_reads_give_back_writes() {
    let mut m: WordMap<Vec<GraphNodeWord>> = WordMap::new();
    m.insert(w("k"), vec![w("v1")]);
    m.insert(w("j"), vec![w("v2")]);
    m.insert(w("k"), vec![w("v3")]);
    assert_eq!(names(m.get(&w("k")).unwrap()), vec!["v3"]);
    assert_eq!(names(m.get(&w("j")).unwrap()), vec!["v2"]);
    m.remove(&w("k"));
    assert!(m.get(&w("k")).is_none());
    assert_eq!(names(m.get(&w("j")).unwrap()), vec!["v2"]);
}

#[test]
fn find_trees_never_adds_nodes() {
    let mut g = prepared();
    let before = keys_n(&g.nodes);
    for _ in 0..3 {
        g.init_tree_status();
        g.find_trees();
        for k in keys_n(&g.nodes) {
            assert!(before.contains(&k));
        }
    }
}
