use ds_decomp::references::{
    FunctionType, Graph, GraphEntries, GraphEntry, GraphNode, GraphNodeStatus, GraphNodeType,
    GraphParser,
};

fn parse(line: &str) -> GraphEntry {
    assert!(GraphEntry::line_is_parsable(line), "{:?} should parse", line);
    GraphEntry::from_str(line)
}

#[test]
fn graph_entry_local_label() {
    let e = parse(".L_0200: .word data_x");
    assert_eq!(e.name.as_deref(), Some(".L_0200"));
    assert!(e.label);
    assert_eq!(e.word.as_deref(), Some("data_x"));
    let e = parse(".L_0200:");
    assert!(e.word.is_none());
}

#[test]
fn graph_entry_word_and_definition() {
    let e = parse("    .word func_x");
    assert_eq!(e.name.as_deref(), Some("func_x"));
    assert_eq!(e.word.as_deref(), Some("func_x"));
    assert!(!e.label);
    let e = parse("func_x:");
    assert_eq!(e.name.as_deref(), Some("func_x"));
    assert!(e.word.is_none());
    let e = parse("func_y: .word z");
    assert_eq!(e.name.as_deref(), Some("func_y"));
    assert!(!e.label);
    assert_eq!(e.word.as_deref(), Some("z"));
    let e = parse("data_02100000: .word func_02000000");
    assert_eq!(e.name.as_deref(), Some("data_02100000"));
    assert!(!e.label);
    assert!(e.byte.is_none());
    assert!(e.byte_as_str.is_none());
    assert_eq!(e.word.as_deref(), Some("func_02000000"));
    let e = parse("func_w: .word");
    assert_eq!(e.name.as_deref(), Some("func_w"));
    assert!(e.word.is_none());
}

#[test]
fn graph_entry_bytes() {
    let e = parse("    .byte 0x68, 0x69");
    assert_eq!(e.byte, Some(vec![0x68, 0x69]));
    assert_eq!(e.byte_as_str.as_deref(), Some("hi"));
    assert!(e.name.is_none());
    assert_eq!(e.to_display(), "N/A\tLabel: false\nData:\t\t[68, 69]\nAsString:\t\thi\n");
}

#[test]
fn graph_entry_refused_lines() {
    assert!(!GraphEntry::line_is_parsable(".L_1"));
    assert!(!GraphEntry::line_is_parsable(".L_1: .word"));
    assert!(!GraphEntry::line_is_parsable("    .word"));
    assert!(!GraphEntry::line_is_parsable("nocolon"));
    assert!(!GraphEntry::line_is_parsable(""));
}

#[test]
fn graph_entry_display_of_definition() {
    assert_eq!(parse("f:").to_display(), "f\tLabel:false\n");
    assert_eq!(parse(".L_1:").to_display(), ".L_1\tLabel:true\n");
}

#[test]
fn graph_parser_entries_and_from_file() {
    let src = "f:\n    push {lr}\n    .word g\n.L_1: .word h\n";
    assert!(GraphParser::listing_is_parsable(src));
    let entries = GraphParser::entries(src).into_vec();
    assert_eq!(entries.len(), 3);
    assert_eq!(entries[1].name.as_deref(), Some("g"));
    let out = Graph::from_file(src);
    assert_eq!(out, vec!["f\tLabel:false\n", "g\tLabel:false\n", ".L_1\tLabel:true\n"]);
    assert!(!GraphParser::listing_is_parsable("x: y\nbad\n    .word\n"));
}

#[test]
fn graph_entries_and_nodes() {
    let mut es = GraphEntries::new();
    es.add(parse("a:"));
    assert_eq!(es.into_vec().len(), 1);
    let n = GraphNode::new("main".to_string());
    assert_eq!(n.name, "main");
    assert_eq!(n.status, GraphNodeStatus::PreInit);
    assert_eq!(n.node_type, GraphNodeType::Data);
    assert!(n.children.is_empty());
    assert_ne!(GraphNodeType::Function(FunctionType::Arm), GraphNodeType::Function(FunctionType::Thumb));
    assert!(Graph::new().nodes.is_empty());
}
