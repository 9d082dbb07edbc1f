//! The reference scanner: definitions, local labels and data directives of a
//! listing read into `GraphEntry` values, and printed one by one.

use vstd::prelude::*;
use crate::listing::{
    byte_operand, byte_operand_value, byte_pat, byte_values, colon_pat, entry_text,
    entry_text_string, lemma_views_index, local_pat, pat_byte, pat_colon, pat_local, pat_word,
    word_pat,
};
use crate::text::{
    chars_of, contains, ends_with, has_infix, has_suffix, lines_of, slice_range, split_lines,
    split_whitespace, split_ws, string_of, views, without_suffix,
};
use crate::utf16::{from_utf16, utf16_decode};

verus! {

/// The progress of a node's scan.
#[derive(Clone, Copy, Debug, PartialEq, Eq, Structural)]
pub enum GraphNodeStatus {
    PreInit,
    ScanningChildren,
    Grouping,
    Finished,
}

/// The instruction set of a function.
#[derive(Clone, Copy, Debug, PartialEq, Eq, Structural)]
pub enum FunctionType {
    Arm,
    Thumb,
}

/// The kind of a node.
#[derive(Clone, Copy, Debug, PartialEq, Eq, Structural)]
pub enum GraphNodeType {
    Function(FunctionType),
    ThumbFunction,
    Local,
    Data,
}

/// A node of the reference graph.
#[derive(Debug)]
pub struct GraphNode {
    pub name: String,
    pub status: GraphNodeStatus,
    pub node_type: GraphNodeType,
    pub children: Vec<String>,
}

/// The reference graph.
#[derive(Debug)]
pub struct Graph {
    pub nodes: Vec<GraphNode>,
}

impl GraphNode {
    /// A node with the given name, status `PreInit`, type `Data` and no
    /// children (`new`).
    pub fn new(name: String) -> (n: GraphNode)
        ensures
            n.name == name,
            n.status == GraphNodeStatus::PreInit,
            n.node_type == GraphNodeType::Data,
            n.children@.len() == 0,
    {
        GraphNode {
            name,
            status: GraphNodeStatus::PreInit,
            node_type: GraphNodeType::Data,
            children: Vec::new(),
        }
    }
}

/// The mathematical value of a [`GraphEntry`].
pub struct GraphEntryView {
    pub name: Option<Seq<char>>,
    pub label: bool,
    pub byte: Option<Seq<u16>>,
    pub byte_as_str: Option<Seq<char>>,
    pub word: Option<Seq<char>>,
}

/// A definition, label or directive line: `NAME:` with an optional word.
#[derive(Debug)]
pub struct GraphEntry {
    pub name: Option<String>,
    pub label: bool,
    pub byte: Option<Vec<u16>>,
    pub byte_as_str: Option<String>,
    /// `None` for a label to jump to (`.L_1234:`) or a bare definition
    /// (`func_x:`); the word of its `.word` directive for an entry that holds
    /// one (`.L_5678: .word data_x`, `data_y: .word func_z`).
    pub word: Option<String>,
}

impl View for GraphEntry {
    type V = GraphEntryView;

    open spec fn view(&self) -> GraphEntryView {
        GraphEntryView {
            name: crate::listing::opt_view(self.name),
            label: self.label,
            byte: match self.byte {
                Some(b) => Some(b@),
                None => None,
            },
            byte_as_str: crate::listing::opt_view(self.byte_as_str),
            word: crate::listing::opt_view(self.word),
        }
    }
}

/// The lines that `GraphEntry::from_str` accepts: those whose tokens have the
/// form that their first token calls for.
pub open spec fn ref_line_ok(line: Seq<char>) -> bool {
    let t = split_ws(line);
    &&& t.len() >= 1
    &&& if contains(t[0], pat_local()) {
        ends_with(t[0], pat_colon()) && (t.len() > 1 ==> t.len() >= 3)
    } else if contains(t[0], pat_byte()) {
        &&& t.len() >= 2
        &&& forall|i: int| 1 <= i < t.len() ==> (#[trigger] byte_operand(t[i])) is Some
        &&& utf16_decode(byte_values(t.skip(1))) is Some
    } else if contains(t[0], pat_word()) {
        t.len() >= 2
    } else {
        ends_with(t[0], pat_colon())
    }
}

/// What `GraphEntry::from_str` makes of a line (for lines with
/// `ref_line_ok`): a local label with its name and the third token as its
/// word; `.byte` data; a `.word` directive named and worded by its operand;
/// otherwise a definition named by the first token, whose word is the operand
/// of the `.word` directive that follows it, if any.
pub open spec fn ref_parse(line: Seq<char>) -> GraphEntryView {
    let t = split_ws(line);
    if contains(t[0], pat_local()) {
        GraphEntryView {
            name: Some(without_suffix(t[0], pat_colon())),
            label: true,
            byte: None,
            byte_as_str: None,
            word: if t.len() > 1 {
                Some(t[2])
            } else {
                None
            },
        }
    } else if contains(t[0], pat_byte()) {
        let bytes = byte_values(t.skip(1));
        GraphEntryView {
            name: None,
            label: false,
            byte: Some(bytes),
            byte_as_str: Some(utf16_decode(bytes).unwrap()),
            word: None,
        }
    } else if contains(t[0], pat_word()) {
        GraphEntryView { name: Some(t[1]), label: false, byte: None, byte_as_str: None, word: Some(t[1]) }
    } else {
        GraphEntryView {
            name: Some(without_suffix(t[0], pat_colon())),
            label: false,
            byte: None,
            byte_as_str: None,
            word: if t.len() > 2 && contains(t[1], pat_word()) {
                Some(t[2])
            } else {
                None
            },
        }
    }
}

impl GraphEntry {
    /// Whether `from_str` accepts `source` (what its `requires` asks).
    pub fn line_is_parsable(source: &str) -> (b: bool)
        ensures
            b == ref_line_ok(source@),
    {
        let chars = chars_of(source);
        let t = split_whitespace(chars.as_slice());
        let ghost tv = split_ws(source@);
        assert(views(t@) == tv);
        if t.len() < 1 {
            return false;
        }
        proof { lemma_views_index(t@, 0); }
        if has_infix(t[0].as_slice(), local_pat().as_slice()) {
            has_suffix(t[0].as_slice(), colon_pat().as_slice()) && (t.len() <= 1 || t.len() >= 3)
        } else if has_infix(t[0].as_slice(), byte_pat().as_slice()) {
            if t.len() < 2 {
                return false;
            }
            let mut bytes: Vec<u16> = Vec::new();
            let mut i: usize = 1;
            while i < t.len()
                invariant
                    1 <= i <= t@.len(),
                    views(t@) == tv,
                    tv == split_ws(source@),
                    tv.len() >= 2,
                    !contains(tv[0], pat_local()),
                    contains(tv[0], pat_byte()),
                    bytes@.len() == i - 1,
                    forall|k: int| 1 <= k < i ==> (#[trigger] byte_operand(tv[k])) is Some,
                    bytes@ == byte_values(tv.skip(1).take(i - 1)),
                decreases t@.len() - i,
            {
                proof { lemma_views_index(t@, i as int); }
                match byte_operand_value(t[i].as_slice()) {
                    Some(b) => {
                        bytes.push(b);
                        assert(bytes@ =~= byte_values(tv.skip(1).take(i as int)));
                    },
                    None => {
                        assert(byte_operand(tv[i as int]) is None);
                        assert(!(forall|k: int| 1 <= k < tv.len() ==> (#[trigger] byte_operand(tv[k])) is Some));
                        return false;
                    },
                }
                i = i + 1;
            }
            assert(tv.skip(1).take(t@.len() - 1) =~= tv.skip(1));
            from_utf16(bytes.as_slice()).is_some()
        } else if has_infix(t[0].as_slice(), word_pat().as_slice()) {
            t.len() >= 2
        } else {
            has_suffix(t[0].as_slice(), colon_pat().as_slice())
        }
    }

    /// Parses one line (`from_str`).
    pub fn from_str(source: &str) -> (e: GraphEntry)
        requires
            ref_line_ok(source@),
        ensures
            e@ == ref_parse(source@),
    {
        let chars = chars_of(source);
        let t = split_whitespace(chars.as_slice());
        let ghost tv = split_ws(source@);
        assert(views(t@) == tv);
        proof { lemma_views_index(t@, 0); }
        if has_infix(t[0].as_slice(), local_pat().as_slice()) {
            let name = slice_range(t[0].as_slice(), 0, t[0].len() - 1);
            assert(name@ =~= without_suffix(tv[0], pat_colon()));
            let word = if t.len() > 1 {
                proof { lemma_views_index(t@, 2); }
                Some(string_of(t[2].as_slice()))
            } else {
                None
            };
            GraphEntry { name: Some(string_of(name.as_slice())), label: true, byte: None, byte_as_str: None, word }
        } else if has_infix(t[0].as_slice(), byte_pat().as_slice()) {
            let mut bytes: Vec<u16> = Vec::new();
            let mut i: usize = 1;
            while i < t.len()
                invariant
                    1 <= i <= t@.len(),
                    views(t@) == tv,
                    tv == split_ws(source@),
                    ref_line_ok(source@),
                    tv.len() >= 2,
                    !contains(tv[0], pat_local()),
                    contains(tv[0], pat_byte()),
                    bytes@.len() == i - 1,
                    bytes@ == byte_values(tv.skip(1).take(i - 1)),
                decreases t@.len() - i,
            {
                proof { lemma_views_index(t@, i as int); }
                assert(byte_operand(tv[i as int]) is Some);
                match byte_operand_value(t[i].as_slice()) {
                    Some(b) => {
                        bytes.push(b);
                        assert(bytes@ =~= byte_values(tv.skip(1).take(i as int)));
                    },
                    None => {
                        assert(false);
                    },
                }
                i = i + 1;
            }
            assert(tv.skip(1).take(t@.len() - 1) =~= tv.skip(1));
            let text = match from_utf16(bytes.as_slice()) {
                Some(s) => s,
                None => {
                    assert(false);
                    String::new()
                },
            };
            GraphEntry { name: None, label: false, byte: Some(bytes), byte_as_str: Some(text), word: None }
        } else if has_infix(t[0].as_slice(), word_pat().as_slice()) {
            proof { lemma_views_index(t@, 1); }
            GraphEntry {
                name: Some(string_of(t[1].as_slice())),
                label: false,
                byte: None,
                byte_as_str: None,
                word: Some(string_of(t[1].as_slice())),
            }
        } else {
            let name = slice_range(t[0].as_slice(), 0, t[0].len() - 1);
            assert(name@ =~= without_suffix(tv[0], pat_colon()));
            let word = if t.len() > 2 && has_infix(t[1].as_slice(), word_pat().as_slice()) {
                proof {
                    lemma_views_index(t@, 1);
                    lemma_views_index(t@, 2);
                }
                Some(string_of(t[2].as_slice()))
            } else {
                None
            };
            GraphEntry { name: Some(string_of(name.as_slice())), label: false, byte: None, byte_as_str: None, word }
        }
    }

    /// The `Display` text.
    pub fn to_display(&self) -> (s: String)
        ensures
            s@ == entry_text(self@.name, self.label, self@.byte, self@.byte_as_str),
    {
        entry_text_string(&self.name, self.label, &self.byte, &self.byte_as_str)
    }
}

/// Simple vector collection for [`GraphEntry`].
#[derive(Debug)]
pub struct GraphEntries(pub Vec<GraphEntry>);

/// The views of a sequence of entries.
pub open spec fn graph_entry_views(v: Seq<GraphEntry>) -> Seq<GraphEntryView> {
    v.map_values(|e: GraphEntry| e@)
}

impl View for GraphEntries {
    type V = Seq<GraphEntryView>;

    open spec fn view(&self) -> Seq<GraphEntryView> {
        graph_entry_views(self.0@)
    }
}

impl GraphEntries {
    /// The empty collection.
    pub fn new() -> (r: GraphEntries)
        ensures
            r@ == Seq::<GraphEntryView>::empty(),
    {
        let r = GraphEntries(Vec::new());
        assert(r@ =~= Seq::<GraphEntryView>::empty());
        r
    }

    /// Appends an entry (`add`).
    pub fn add(&mut self, x: GraphEntry)
        ensures
            final(self)@ == old(self)@.push(x@),
    {
        self.0.push(x);
        assert(self@ =~= old(self)@.push(x@));
    }

    /// The entries, in order (`into_iter`).
    pub fn into_vec(self) -> (v: Vec<GraphEntry>)
        ensures
            graph_entry_views(v@) == self@,
    {
        self.0
    }
}

/// The lines that the scanner reads: those with `:`, `.word` or `.byte`.
pub open spec fn ref_line_selected(l: Seq<char>) -> bool {
    contains(l, pat_colon()) || contains(l, pat_word()) || contains(l, pat_byte())
}

/// A listing on which the scanner returns: every selected line parses.
pub open spec fn ref_listing_ok(src: Seq<char>) -> bool {
    forall|i: int|
        0 <= i < split_lines(src).len() && ref_line_selected(#[trigger] split_lines(src)[i])
            ==> ref_line_ok(split_lines(src)[i])
}

/// The entries of the selected lines, in order.
pub open spec fn ref_parse_lines(ls: Seq<Seq<char>>) -> Seq<GraphEntryView>
    decreases ls.len(),
{
    if ls.len() == 0 {
        seq![]
    } else {
        let rest = ref_parse_lines(ls.drop_last());
        if ref_line_selected(ls.last()) {
            rest.push(ref_parse(ls.last()))
        } else {
            rest
        }
    }
}

fn ref_select_line(l: &[char]) -> (b: bool)
    ensures
        b == ref_line_selected(l@),
{
    has_infix(l, colon_pat().as_slice()) || has_infix(l, word_pat().as_slice()) || has_infix(
        l,
        byte_pat().as_slice(),
    )
}

/// Reads the entries of a listing.
pub struct GraphParser;

impl GraphParser {
    /// Whether `entries` accepts `source` (what its `requires` asks).
    pub fn listing_is_parsable(source: &str) -> (b: bool)
        ensures
            b == ref_listing_ok(source@),
    {
        let chars = chars_of(source);
        let lines = lines_of(chars.as_slice());
        let ghost ls = split_lines(source@);
        let mut i: usize = 0;
        while i < lines.len()
            invariant
                views(lines@) == ls,
                ls == split_lines(source@),
                i <= lines@.len(),
                forall|k: int|
                    0 <= k < i && ref_line_selected(#[trigger] ls[k]) ==> ref_line_ok(ls[k]),
            decreases lines@.len() - i,
        {
            proof { lemma_views_index(lines@, i as int); }
            if ref_select_line(lines[i].as_slice()) {
                let text = string_of(lines[i].as_slice());
                if !GraphEntry::line_is_parsable(text.as_str()) {
                    return false;
                }
            }
            i = i + 1;
        }
        true
    }

    /// The entries of the selected lines of a listing (`entries`).
    pub fn entries(source: &str) -> (r: GraphEntries)
        requires
            ref_listing_ok(source@),
        ensures
            r@ == ref_parse_lines(split_lines(source@)),
    {
        let chars = chars_of(source);
        let lines = lines_of(chars.as_slice());
        let ghost ls = split_lines(source@);
        let mut defs = GraphEntries::new();
        let mut i: usize = 0;
        while i < lines.len()
            invariant
                views(lines@) == ls,
                ls == split_lines(source@),
                ref_listing_ok(source@),
                i <= lines@.len(),
                defs@ == ref_parse_lines(ls.take(i as int)),
            decreases lines@.len() - i,
        {
            proof {
                lemma_views_index(lines@, i as int);
                assert(ls.take(i + 1).drop_last() =~= ls.take(i as int));
            }
            if ref_select_line(lines[i].as_slice()) {
                let text = string_of(lines[i].as_slice());
                assert(ref_line_ok(ls[i as int]));
                defs.add(GraphEntry::from_str(text.as_str()));
            }
            i = i + 1;
        }
        assert(ls.take(lines@.len() as int) =~= ls);
        defs
    }
}

/// The texts that `from_file` prints, one per entry.
pub open spec fn entry_texts(es: Seq<GraphEntryView>) -> Seq<Seq<char>> {
    es.map_values(|e: GraphEntryView| entry_text(e.name, e.label, e.byte, e.byte_as_str))
}

impl Graph {
    /// An empty graph (`new`).
    pub fn new() -> (g: Graph)
        ensures
            g.nodes@.len() == 0,
    {
        Graph { nodes: Vec::new() }
    }

    /// The `Display` texts of the entries of a listing, in order: what
    /// `from_file` prints, one per line.
    pub fn from_file(source: &str) -> (r: Vec<String>)
        requires
            ref_listing_ok(source@),
        ensures
            crate::text::string_views(r@) == entry_texts(ref_parse_lines(split_lines(source@))),
    {
        let entries = GraphParser::entries(source).into_vec();
        let ghost es = graph_entry_views(entries@);
        let mut r: Vec<String> = Vec::new();
        let mut i: usize = 0;
        while i < entries.len()
            invariant
                i <= entries@.len(),
                es == graph_entry_views(entries@),
                crate::text::string_views(r@) == entry_texts(es.take(i as int)),
            decreases entries@.len() - i,
        {
            let ghost r0 = crate::text::string_views(r@);
            assert(es[i as int] == entries@[i as int]@);
            assert(es.take(i + 1) =~= es.take(i as int).push(es[i as int]));
            let d = entries[i].to_display();
            let ghost e = es[i as int];
            assert(entry_texts(es.take(i + 1)) =~= entry_texts(es.take(i as int)).push(
                entry_text(e.name, e.label, e.byte, e.byte_as_str),
            ));
            r.push(d);
            assert(crate::text::string_views(r@) =~= r0.push(d@));
            assert(crate::text::string_views(r@) =~= entry_texts(es.take(i + 1)));
            i = i + 1;
        }
        assert(es.take(es.len() as int) =~= es);
        r
    }
}

} // verus!
