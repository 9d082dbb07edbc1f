//! Assembly symbol-graph analysis: parsing of assembler listings into
//! entries, grouping them into nodes, and classifying the call graph.

pub mod text;
pub mod num;
pub mod utf16;
pub mod word;
pub mod word_map;
pub mod listing;
pub mod graph_node;
pub mod graph;
pub mod references;
pub mod estreya;
