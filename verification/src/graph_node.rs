//! Nodes of the symbol graph: one per definition of a listing, with the data
//! that it holds (`.byte`), the words that it refers to (`.word`, branches),
//! its tags and its place in the call tree.

use vstd::prelude::*;
use crate::listing::{AsmEntries, AsmEntry, AsmEntryView, entry_views};
use crate::text::{chars_of, string_of, string_views};
use crate::word::{GraphNodeWord, WordOrder, WordView, lemma_word_order, word_from_text, word_lt};

verus! {

/// The file types that `.byte` data may name (matched without regard to
/// ASCII case).
#[derive(Clone, Copy, Debug, PartialEq, Eq, Structural)]
pub enum GraphFileType {
    Carc,
    Nclr,
    Nscr,
    Bmg,
    Ncer,
    Bnll,
    Bnbl,
    Ncgr,
    Nbfc,
    Nbfp,
}

/// A tag of a node.
#[derive(Clone, Copy, Debug, PartialEq, Eq, Structural)]
pub enum GraphNodeTag {
    Address,
    File(GraphFileType),
    Collection,
}

/// The place of a node in the call tree.
#[derive(Clone, Copy, Debug, PartialEq, Eq, Structural)]
pub enum GraphNodeTreeType {
    Init,
    Orphan,
    LeafSimple,
    LeafMult,
    Root,
    NodeSimple,
    NodeMult,
    TreeRoot,
    TreeInit,
    TreeSimple,
    TreeMult,
}

/// The tags of a node.
#[derive(Debug)]
pub struct GraphNodeTags(pub Vec<GraphNodeTag>);

/// A node: a definition of the listing with what follows it up to the next
/// definition.
#[derive(Debug)]
pub struct GraphNode {
    pub name: GraphNodeWord,
    pub tag: GraphNodeTags,
    pub byte: Vec<u16>,
    pub byte_as_str: Vec<String>,
    pub word: Vec<GraphNodeWord>,
    pub called_by: Vec<GraphNodeWord>,
    pub tree_type: GraphNodeTreeType,
}

/// The mathematical value of a [`GraphNode`].
#[verifier::ext_equal]
pub struct GraphNodeView {
    pub name: WordView,
    pub tag: Seq<GraphNodeTag>,
    pub byte: Seq<u16>,
    pub byte_as_str: Seq<Seq<char>>,
    pub word: Seq<WordView>,
    pub called_by: Seq<WordView>,
    pub tree_type: GraphNodeTreeType,
}

impl View for GraphNode {
    type V = GraphNodeView;

    open spec fn view(&self) -> GraphNodeView {
        GraphNodeView {
            name: self.name@,
            tag: self.tag.0@,
            byte: self.byte@,
            byte_as_str: string_views(self.byte_as_str@),
            word: self.word.deep_view(),
            called_by: self.called_by.deep_view(),
            tree_type: self.tree_type,
        }
    }
}

impl DeepView for GraphNode {
    type V = GraphNodeView;

    open spec fn deep_view(&self) -> GraphNodeView {
        self@
    }
}

/// A node with the given name and every other field empty (`Default`).
pub open spec fn blank_node(name: WordView) -> GraphNodeView {
    GraphNodeView {
        name,
        tag: seq![],
        byte: seq![],
        byte_as_str: seq![],
        word: seq![],
        called_by: seq![],
        tree_type: GraphNodeTreeType::Init,
    }
}

/// The words of an entry's text are valid (no `0x` text that is no address).
pub open spec fn entry_words_ok(e: AsmEntryView) -> bool {
    &&& (e.name matches Some(n) ==> word_from_text(n) is Some)
    &&& (e.word matches Some(w) ==> word_from_text(w) is Some)
}

/// `GraphNode::from_entry`.
pub open spec fn node_from_entry(e: AsmEntryView) -> GraphNodeView {
    GraphNodeView {
        name: word_from_text(e.name.unwrap_or(seq![])).unwrap(),
        byte: e.byte.unwrap_or(seq![]),
        byte_as_str: seq![e.byte_as_str.unwrap_or(seq![])],
        word: match e.word {
            Some(w) => seq![word_from_text(w).unwrap()],
            None => seq![],
        },
        ..blank_node(word_from_text(e.name.unwrap_or(seq![])).unwrap())
    }
}

/// `GraphNode::consume_entry`: the entry's data and word appended; tags,
/// callers and tree type reset.
pub open spec fn node_consume(n: GraphNodeView, e: AsmEntryView) -> GraphNodeView {
    GraphNodeView {
        byte: n.byte + e.byte.unwrap_or(seq![]),
        byte_as_str: match e.byte_as_str {
            Some(s) => n.byte_as_str.push(s),
            None => n.byte_as_str,
        },
        word: match e.word {
            Some(w) => n.word.push(word_from_text(w).unwrap()),
            None => n.word,
        },
        ..blank_node(n.name)
    }
}

/// `GraphNode::clean`: empty strings taken out of `byte_as_str`; empty
/// words taken out of `word`, and the words sorted.
pub open spec fn node_clean(n: GraphNodeView) -> GraphNodeView {
    GraphNodeView {
        byte_as_str: n.byte_as_str.filter(nonempty_text()),
        word: sort_words(n.word.filter(nonempty_word())),
        ..n
    }
}

/// A word that is not the empty symbol.
pub open spec fn word_nonempty(w: WordView) -> bool {
    !(w matches WordView::Symbol(t) && t.len() == 0)
}

/// The test that keeps a word: it is not the empty symbol.
pub open spec fn nonempty_word() -> spec_fn(WordView) -> bool {
    |w: WordView| word_nonempty(w)
}

/// `x` placed into `s` after every word that is not above it (from the end:
/// before the trailing words above `x`).
pub open spec fn insert_in_order(s: Seq<WordView>, x: WordView) -> Seq<WordView>
    decreases s.len(),
{
    if s.len() == 0 {
        seq![x]
    } else if word_lt(x, s.last()) {
        insert_in_order(s.drop_last(), x).push(s.last())
    } else {
        s.push(x)
    }
}

/// The words of `s` in ascending order; equal words keep their order (a
/// stable sort).
pub open spec fn sort_words(s: Seq<WordView>) -> Seq<WordView>
    decreases s.len(),
{
    if s.len() == 0 {
        seq![]
    } else {
        insert_in_order(sort_words(s.drop_last()), s.last())
    }
}

/// No word is above a word that follows it.
pub open spec fn words_sorted(s: Seq<WordView>) -> bool {
    forall|i: int, j: int| 0 <= i < j < s.len() ==> !word_lt(#[trigger] s[j], #[trigger] s[i])
}

/// `x` is below `y` in the order of words.
pub fn word_below(x: &GraphNodeWord, y: &GraphNodeWord) -> (b: bool)
    ensures
        b == word_lt(x@, y@),
{
    match x.compare(y) {
        WordOrder::Less => true,
        _ => false,
    }
}

proof fn lemma_insert_at(s: Seq<WordView>, x: WordView, p: int)
    requires
        0 <= p <= s.len(),
        forall|k: int| p <= k < s.len() ==> word_lt(x, #[trigger] s[k]),
        p == 0 || !word_lt(x, s[p - 1]),
    ensures
        insert_in_order(s, x) == s.insert(p, x),
    decreases s.len(),
{
    if s.len() == 0 {
        assert(s.insert(p, x) =~= seq![x]);
    } else if s.len() == p {
        assert(s.insert(p, x) =~= s.push(x));
    } else {
        let t = s.drop_last();
        assert forall|k: int| p <= k < t.len() implies word_lt(x, #[trigger] t[k]) by {
            assert(t[k] == s[k]);
        }
        lemma_insert_at(t, x, p);
        assert(s.insert(p, x) =~= t.insert(p, x).push(s.last()));
    }
}


/// The test that keeps a string: it is not empty.
pub open spec fn nonempty_text() -> spec_fn(Seq<char>) -> bool {
    |s: Seq<char>| s.len() > 0
}

/// The name of the node that collects entries before the first definition.
pub open spec fn dummy_name() -> Seq<char> {
    seq![
        'G', 'R', 'A', 'P', 'H', '_', 'D', 'U', 'M', 'M', 'Y', '_', 'S', 'T', 'A', 'R', 'T',
    ]
}

/// State of `to_nodes` after some entries: the finished nodes, the node under
/// construction, and whether a definition has been seen.
pub open spec fn nodes_scan(es: Seq<AsmEntryView>) -> (Seq<GraphNodeView>, GraphNodeView, bool)
    decreases es.len(),
{
    if es.len() == 0 {
        (seq![], blank_node(WordView::Symbol(dummy_name())), false)
    } else {
        let (done, node, switch) = nodes_scan(es.drop_last());
        let e = es.last();
        if e.name is Some {
            (if switch {
                done.push(node_clean(node))
            } else {
                done
            }, node_from_entry(e), true)
        } else {
            (done, node_consume(node, e), switch)
        }
    }
}

/// `AsmEntries::to_nodes`: each definition opens a node that takes the
/// following unnamed entries; every node but the last is cleaned; entries
/// before the first definition are dropped, unless there is no definition
/// at all, in which case they make up a single node named
/// `GRAPH_DUMMY_START`.
pub open spec fn nodes_of_entries(es: Seq<AsmEntryView>) -> Seq<GraphNodeView> {
    let (done, node, _switch) = nodes_scan(es);
    done.push(node)
}

/// A collection of nodes.
#[derive(Debug)]
pub struct GraphNodes(pub Vec<GraphNode>);

/// The views of a sequence of nodes.
pub open spec fn node_views(v: Seq<GraphNode>) -> Seq<GraphNodeView> {
    v.map_values(|n: GraphNode| n@)
}

impl View for GraphNodes {
    type V = Seq<GraphNodeView>;

    open spec fn view(&self) -> Seq<GraphNodeView> {
        node_views(self.0@)
    }
}

impl GraphNodes {
    /// The empty collection.
    pub fn new() -> (r: GraphNodes)
        ensures
            r@ == Seq::<GraphNodeView>::empty(),
    {
        let r = GraphNodes(Vec::new());
        assert(r@ =~= Seq::<GraphNodeView>::empty());
        r
    }

    /// Appends a node.
    pub fn push(&mut self, item: GraphNode)
        ensures
            final(self)@ == old(self)@.push(item@),
    {
        self.0.push(item);
        assert(self@ =~= old(self)@.push(item@));
    }

    /// The nodes, in order (`into_iter`).
    pub fn into_vec(self) -> (v: Vec<GraphNode>)
        ensures
            node_views(v@) == self@,
    {
        self.0
    }
}

/// A copy of a vector of words.
pub fn clone_words(v: &Vec<GraphNodeWord>) -> (r: Vec<GraphNodeWord>)
    ensures
        r.deep_view() == v.deep_view(),
        r@ == v@,
{
    let mut r: Vec<GraphNodeWord> = Vec::new();
    let mut i: usize = 0;
    while i < v.len()
        invariant
            i <= v@.len(),
            r@ == v@.take(i as int),
        decreases v@.len() - i,
    {
        r.push(v[i].duplicate());
        i = i + 1;
        assert(r@ =~= v@.take(i as int));
    }
    assert(r@ =~= v@);
    r
}

/// A copy of a vector of strings.
pub fn clone_strings(v: &Vec<String>) -> (r: Vec<String>)
    ensures
        r@ == v@,
{
    let mut r: Vec<String> = Vec::new();
    let mut i: usize = 0;
    while i < v.len()
        invariant
            i <= v@.len(),
            r@ == v@.take(i as int),
        decreases v@.len() - i,
    {
        r.push(v[i].clone());
        i = i + 1;
        assert(r@ =~= v@.take(i as int));
    }
    assert(r@ =~= v@);
    r
}

impl GraphNode {
    /// A node with the given name and every other field empty.
    pub fn named(name: GraphNodeWord) -> (n: GraphNode)
        ensures
            n@ == blank_node(name@),
            n.name == name,
    {
        let n = GraphNode {
            name,
            tag: GraphNodeTags(Vec::new()),
            byte: Vec::new(),
            byte_as_str: Vec::new(),
            word: Vec::new(),
            called_by: Vec::new(),
            tree_type: GraphNodeTreeType::Init,
        };
        assert(n@ =~= blank_node(name@));
        n
    }

    /// A copy of this node.
    pub fn duplicate(&self) -> (n: GraphNode)
        ensures
            n@ == self@,
    {
        GraphNode {
            name: self.name.duplicate(),
            tag: GraphNodeTags(self.tag.0.clone()),
            byte: self.byte.clone(),
            byte_as_str: clone_strings(&self.byte_as_str),
            word: clone_words(&self.word),
            called_by: clone_words(&self.called_by),
            tree_type: self.tree_type,
        }
    }

    /// A node from a definition entry (`from_entry`).
    pub fn from_entry(entry: AsmEntry) -> (n: GraphNode)
        requires
            entry_words_ok(entry@),
        ensures
            n@ == node_from_entry(entry@),
    {
        let name_text = match &entry.name {
            Some(x) => x.clone(),
            None => String::new(),
        };
        let byte = entry.byte();
        let mut byte_as_str: Vec<String> = Vec::new();
        byte_as_str.push(entry.byte_as_str());
        let mut word: Vec<GraphNodeWord> = Vec::new();
        match entry.word_as_graph_node_word() {
            Some(w) => word.push(w),
            None => {},
        }
        let mut n = GraphNode::named(GraphNodeWord::from_string(name_text));
        n.byte = byte;
        n.byte_as_str = byte_as_str;
        n.word = word;
        assert(n@ =~= node_from_entry(entry@));
        n
    }

    /// Appends an unnamed entry to this node (`consume_entry`); tags, callers
    /// and tree type are reset.
    pub fn consume_entry(self, entry: AsmEntry) -> (n: GraphNode)
        requires
            entry.name is None,
            entry_words_ok(entry@),
        ensures
            n@ == node_consume(self@, entry@),
    {
        let ghost old_view = self@;
        let mut byte = self.byte;
        let mut byte_as_str = self.byte_as_str;
        let mut word = self.word;
        match &entry.byte {
            Some(e_byte) => {
                let mut i: usize = 0;
                let ghost b0 = byte@;
                while i < e_byte.len()
                    invariant
                        i <= e_byte@.len(),
                        byte@ == b0 + e_byte@.take(i as int),
                    decreases e_byte@.len() - i,
                {
                    byte.push(e_byte[i]);
                    i = i + 1;
                    assert(byte@ =~= b0 + e_byte@.take(i as int));
                }
                assert(e_byte@.take(e_byte@.len() as int) =~= e_byte@);
            },
            None => {
                assert(byte@ =~= byte@ + Seq::<u16>::empty());
            },
        }
        let ghost s0 = byte_as_str@;
        match &entry.byte_as_str {
            Some(s) => {
                byte_as_str.push(s.clone());
                assert(string_views(byte_as_str@) =~= string_views(s0).push(s@));
            },
            None => {},
        }
        let ghost w0 = word@;
        match entry.word_as_graph_node_word() {
            Some(w) => {
                word.push(w);
                assert(word.deep_view() =~= w0.map_values(|x: GraphNodeWord| x@).push(w@));
            },
            None => {},
        }
        let mut n = GraphNode::named(self.name);
        n.byte = byte;
        n.byte_as_str = byte_as_str;
        n.word = word;
        assert(n@ =~= node_consume(old_view, entry@));
        n
    }

    /// Takes the empty strings out of `byte_as_str` and the empty words out
    /// of `word`, and sorts the words (`clean`).
    pub fn clean(&mut self)
        ensures
            final(self)@ == node_clean(old(self)@),
    {
        let ghost old_view = self@;
        let mut kept: Vec<String> = Vec::new();
        let mut i: usize = 0;
        let ghost f = nonempty_text();
        while i < self.byte_as_str.len()
            invariant
                i <= self.byte_as_str@.len(),
                self@ == old_view,
                f == nonempty_text(),
                string_views(kept@) == string_views(self.byte_as_str@).take(i as int).filter(f),
            decreases self.byte_as_str@.len() - i,
        {
            let ghost sv = string_views(self.byte_as_str@);
            proof {
                assert(sv.take(i + 1) =~= sv.take(i as int).push(sv[i as int]));
                sv.take(i as int).lemma_filter_push(sv[i as int], f);
            }
            if self.byte_as_str[i].as_str().is_empty() == false {
                kept.push(self.byte_as_str[i].clone());
                assert(string_views(kept@) =~= sv.take(i + 1).filter(f));
            } else {
                assert(string_views(kept@) =~= sv.take(i + 1).filter(f));
            }
            i = i + 1;
        }
        assert(string_views(self.byte_as_str@).take(self.byte_as_str@.len() as int) =~= string_views(self.byte_as_str@));
        self.byte_as_str = kept;
        let ghost g = nonempty_word();
        let ghost wv = self.word.deep_view();
        let mut sorted: Vec<GraphNodeWord> = Vec::new();
        let mut i: usize = 0;
        while i < self.word.len()
            invariant
                i <= self.word@.len(),
                wv == self.word.deep_view(),
                wv == old_view.word,
                g == nonempty_word(),
                sorted.deep_view() == sort_words(wv.take(i as int).filter(g)),
            decreases self.word@.len() - i,
        {
            proof {
                assert(wv.take(i + 1) =~= wv.take(i as int).push(wv[i as int]));
                wv.take(i as int).lemma_filter_push(wv[i as int], g);
                assert(wv[i as int] == self.word@[i as int]@);
            }
            let x = &self.word[i];
            let empty = match x {
                GraphNodeWord::Symbol(t) => t.as_str().is_empty(),
                GraphNodeWord::Address(_) => false,
            };
            if !empty {
                let ghost sv = sorted.deep_view();
                let mut p: usize = sorted.len();
                while p > 0 && word_below(x, &sorted[p - 1])
                    invariant
                        p <= sorted@.len(),
                        sv == sorted.deep_view(),
                        forall|k: int| p <= k < sv.len() ==> word_lt(x@, #[trigger] sv[k]),
                    decreases p,
                {
                    p = p - 1;
                }
                proof {
                    lemma_insert_at(sv, x@, p as int);
                    let prev = wv.take(i as int).filter(g);
                    assert(prev.push(x@).drop_last() =~= prev);
                }
                sorted.insert(p, x.duplicate());
                assert(sorted.deep_view() =~= sv.insert(p as int, x@));
            }
            i = i + 1;
        }
        assert(wv.take(wv.len() as int) =~= wv);
        self.word = sorted;
        assert(self@ =~= node_clean(old_view));
    }
}

impl AsmEntries {
    /// Groups the entries into nodes (`to_nodes`): see [`nodes_of_entries`].
    pub fn to_nodes(&self) -> (nodes: GraphNodes)
        requires
            forall|i: int| 0 <= i < self@.len() ==> entry_words_ok(#[trigger] self@[i]),
        ensures
            nodes@ == nodes_of_entries(self@),
    {
        let mut nodes = GraphNodes::new();
        let mut switch = false;
        let dummy = vec![
            'G', 'R', 'A', 'P', 'H', '_', 'D', 'U', 'M', 'M', 'Y', '_', 'S', 'T', 'A', 'R', 'T',
        ];
        assert(dummy@ =~= dummy_name());
        let mut node = GraphNode::named(GraphNodeWord::Symbol(string_of(dummy.as_slice())));
        let mut i: usize = 0;
        assert(self@.take(0) =~= Seq::<AsmEntryView>::empty());
        while i < self.0.len()
            invariant
                i <= self.0@.len(),
                self@ == entry_views(self.0@),
                forall|k: int| 0 <= k < self@.len() ==> entry_words_ok(#[trigger] self@[k]),
                (nodes@, node@, switch) == nodes_scan(self@.take(i as int)),
            decreases self.0@.len() - i,
        {
            let entry = self.0[i].duplicate();
            proof {
                assert(self@[i as int] == entry@);
                assert(self@.take(i + 1).drop_last() =~= self@.take(i as int));
            }
            if entry.name.is_some() {
                if switch {
                    node.clean();
                    nodes.push(node);
                } else {
                    switch = true;
                }
                node = GraphNode::from_entry(entry);
            } else {
                node = node.consume_entry(entry);
            }
            i = i + 1;
        }
        assert(self@.take(self.0@.len() as int) =~= self@);
        nodes.push(node);
        nodes
    }
}


/// All strings of `v` joined.
pub open spec fn concat_all(v: Seq<Seq<char>>) -> Seq<char>
    decreases v.len(),
{
    if v.len() == 0 {
        seq![]
    } else {
        concat_all(v.drop_last()) + v.last()
    }
}

/// `trim_end_matches([' ', '\0'])`.
pub open spec fn trim_end_padding(s: Seq<char>) -> Seq<char>
    decreases s.len(),
{
    if s.len() > 0 && (s.last() == ' ' || s.last() == '\0') {
        trim_end_padding(s.drop_last())
    } else {
        s
    }
}

/// `split('.').next_back()`: the text after the last `.`.
pub open spec fn last_segment(s: Seq<char>) -> Seq<char>
    decreases s.len(),
{
    if s.len() == 0 {
        s
    } else if s.last() == '.' {
        seq![]
    } else {
        last_segment(s.drop_last()).push(s.last())
    }
}

/// `a` equals the ASCII text given in lower case as `lower` and in upper
/// case as `upper`, without regard to ASCII case.
pub open spec fn matches_lower(a: Seq<char>, lower: Seq<char>, upper: Seq<char>) -> bool {
    a.len() == lower.len() && a.len() == upper.len() && forall|i: int|
        0 <= i < a.len() ==> (#[trigger] a[i] == lower[i] || a[i] == upper[i])
}

/// The lower-case names of the file types, in declaration order.
pub open spec fn file_type_names() -> Seq<Seq<char>> {
    seq![
        seq!['c', 'a', 'r', 'c'],
        seq!['n', 'c', 'l', 'r'],
        seq!['n', 's', 'c', 'r'],
        seq!['b', 'm', 'g'],
        seq!['n', 'c', 'e', 'r'],
        seq!['b', 'n', 'l', 'l'],
        seq!['b', 'n', 'b', 'l'],
        seq!['n', 'c', 'g', 'r'],
        seq!['n', 'b', 'f', 'c'],
        seq!['n', 'b', 'f', 'p'],
    ]
}

/// The upper-case names of the file types, in declaration order.
pub open spec fn file_type_upper_names() -> Seq<Seq<char>> {
    seq![
        seq!['C', 'A', 'R', 'C'],
        seq!['N', 'C', 'L', 'R'],
        seq!['N', 'S', 'C', 'R'],
        seq!['B', 'M', 'G'],
        seq!['N', 'C', 'E', 'R'],
        seq!['B', 'N', 'L', 'L'],
        seq!['B', 'N', 'B', 'L'],
        seq!['N', 'C', 'G', 'R'],
        seq!['N', 'B', 'F', 'C'],
        seq!['N', 'B', 'F', 'P'],
    ]
}

/// The file types in declaration order.
pub open spec fn file_types() -> Seq<GraphFileType> {
    seq![
        GraphFileType::Carc,
        GraphFileType::Nclr,
        GraphFileType::Nscr,
        GraphFileType::Bmg,
        GraphFileType::Ncer,
        GraphFileType::Bnll,
        GraphFileType::Bnbl,
        GraphFileType::Ncgr,
        GraphFileType::Nbfc,
        GraphFileType::Nbfp,
    ]
}

/// The first file type whose name matches `seg` from index `i` on.
pub open spec fn file_type_from(seg: Seq<char>, i: int) -> Option<GraphFileType>
    decreases 10 - i,
{
    if i < 0 || i >= 10 {
        None
    } else if matches_lower(seg, file_type_names()[i], file_type_upper_names()[i]) {
        Some(file_types()[i])
    } else {
        file_type_from(seg, i + 1)
    }
}

/// The `EnumString` parse (ASCII case ignored) of a lower-cased segment.
/// Lower-casing first changes no outcome: no file type name holds a letter
/// that a non-ASCII character lower-cases to.
pub open spec fn file_type_of(seg: Seq<char>) -> Option<GraphFileType> {
    file_type_from(seg, 0)
}

/// `is_file`: the file type named after the last `.` of the node's text,
/// with trailing spaces and NULs ignored.
pub open spec fn node_file_type(n: GraphNodeView) -> Option<GraphFileType> {
    file_type_of(last_segment(trim_end_padding(concat_all(n.byte_as_str))))
}

/// Every data value is zero.
pub open spec fn all_padding(b: Seq<u16>) -> bool {
    forall|i: int| 0 <= i < b.len() ==> #[trigger] b[i] == 0
}

/// `is_collection`: more than one word, and no data but padding.
pub open spec fn node_is_collection(n: GraphNodeView) -> bool {
    n.word.len() != 0 && n.word.len() != 1 && (n.byte.len() == 0 || all_padding(n.byte))
}

/// `is_address`: exactly one word and no data.
pub open spec fn node_is_address(n: GraphNodeView) -> bool {
    n.word.len() != 0 && n.byte.len() == 0 && n.word.len() == 1
}

/// The tag that `apply_tags` adds, if any.
pub open spec fn tag_for(n: GraphNodeView) -> Option<GraphNodeTag> {
    if node_is_collection(n) {
        Some(GraphNodeTag::Collection)
    } else if node_is_address(n) {
        Some(GraphNodeTag::Address)
    } else {
        match node_file_type(n) {
            Some(ft) => Some(GraphNodeTag::File(ft)),
            None => None,
        }
    }
}

/// `GraphNode::apply_tags`.
pub open spec fn node_apply_tags(n: GraphNodeView) -> GraphNodeView {
    match tag_for(n) {
        Some(t) => GraphNodeView { tag: n.tag.push(t), ..n },
        None => n,
    }
}

fn file_type_name_chars() -> (v: Vec<Vec<char>>)
    ensures
        v@.len() == 10,
        forall|i: int| 0 <= i < 10 ==> (#[trigger] v@[i])@ == file_type_names()[i],
{
    let v = vec![
        vec!['c', 'a', 'r', 'c'],
        vec!['n', 'c', 'l', 'r'],
        vec!['n', 's', 'c', 'r'],
        vec!['b', 'm', 'g'],
        vec!['n', 'c', 'e', 'r'],
        vec!['b', 'n', 'l', 'l'],
        vec!['b', 'n', 'b', 'l'],
        vec!['n', 'c', 'g', 'r'],
        vec!['n', 'b', 'f', 'c'],
        vec!['n', 'b', 'f', 'p'],
    ];
    assert forall|i: int| 0 <= i < 10 implies (#[trigger] v@[i])@ == file_type_names()[i] by {
        assert(v@[0]@ =~= file_type_names()[0]);
        assert(v@[1]@ =~= file_type_names()[1]);
        assert(v@[2]@ =~= file_type_names()[2]);
        assert(v@[3]@ =~= file_type_names()[3]);
        assert(v@[4]@ =~= file_type_names()[4]);
        assert(v@[5]@ =~= file_type_names()[5]);
        assert(v@[6]@ =~= file_type_names()[6]);
        assert(v@[7]@ =~= file_type_names()[7]);
        assert(v@[8]@ =~= file_type_names()[8]);
        assert(v@[9]@ =~= file_type_names()[9]);
    }
    v
}

fn file_type_upper_chars() -> (v: Vec<Vec<char>>)
    ensures
        v@.len() == 10,
        forall|i: int| 0 <= i < 10 ==> (#[trigger] v@[i])@ == file_type_upper_names()[i],
{
    let v = vec![
        vec!['C', 'A', 'R', 'C'],
        vec!['N', 'C', 'L', 'R'],
        vec!['N', 'S', 'C', 'R'],
        vec!['B', 'M', 'G'],
        vec!['N', 'C', 'E', 'R'],
        vec!['B', 'N', 'L', 'L'],
        vec!['B', 'N', 'B', 'L'],
        vec!['N', 'C', 'G', 'R'],
        vec!['N', 'B', 'F', 'C'],
        vec!['N', 'B', 'F', 'P'],
    ];
    assert forall|i: int| 0 <= i < 10 implies (#[trigger] v@[i])@ == file_type_upper_names()[i] by {
        assert(v@[0]@ =~= file_type_upper_names()[0]);
        assert(v@[1]@ =~= file_type_upper_names()[1]);
        assert(v@[2]@ =~= file_type_upper_names()[2]);
        assert(v@[3]@ =~= file_type_upper_names()[3]);
        assert(v@[4]@ =~= file_type_upper_names()[4]);
        assert(v@[5]@ =~= file_type_upper_names()[5]);
        assert(v@[6]@ =~= file_type_upper_names()[6]);
        assert(v@[7]@ =~= file_type_upper_names()[7]);
        assert(v@[8]@ =~= file_type_upper_names()[8]);
        assert(v@[9]@ =~= file_type_upper_names()[9]);
    }
    v
}

fn file_type_at(i: usize) -> (t: GraphFileType)
    requires
        i < 10,
    ensures
        t == file_types()[i as int],
{
    match i {
        0 => GraphFileType::Carc,
        1 => GraphFileType::Nclr,
        2 => GraphFileType::Nscr,
        3 => GraphFileType::Bmg,
        4 => GraphFileType::Ncer,
        5 => GraphFileType::Bnll,
        6 => GraphFileType::Bnbl,
        7 => GraphFileType::Ncgr,
        8 => GraphFileType::Nbfc,
        _ => GraphFileType::Nbfp,
    }
}

fn matches_lower_exec(a: &[char], lower: &[char], upper: &[char]) -> (b: bool)
    ensures
        b == matches_lower(a@, lower@, upper@),
{
    if a.len() != lower.len() || a.len() != upper.len() {
        return false;
    }
    let mut i: usize = 0;
    while i < a.len()
        invariant
            a@.len() == lower@.len(),
            a@.len() == upper@.len(),
            i <= a@.len(),
            forall|k: int| 0 <= k < i ==> (#[trigger] a@[k] == lower@[k] || a@[k] == upper@[k]),
        decreases a@.len() - i,
    {
        if !(a[i] == lower[i] || a[i] == upper[i]) {
            return false;
        }
        i = i + 1;
    }
    true
}

/// The file type that a segment names (`GraphFileType::from_str`).
pub fn file_type_from_segment(seg: &[char]) -> (r: Option<GraphFileType>)
    ensures
        r == file_type_of(seg@),
{
    let names = file_type_name_chars();
    let uppers = file_type_upper_chars();
    let mut i: usize = 0;
    while i < 10
        invariant
            i <= 10,
            names@.len() == 10,
            uppers@.len() == 10,
            forall|k: int| 0 <= k < 10 ==> (#[trigger] names@[k])@ == file_type_names()[k],
            forall|k: int| 0 <= k < 10 ==> (#[trigger] uppers@[k])@ == file_type_upper_names()[k],
            file_type_of(seg@) == file_type_from(seg@, i as int),
        decreases 10 - i,
    {
        assert(names@[i as int]@ == file_type_names()[i as int]);
        assert(uppers@[i as int]@ == file_type_upper_names()[i as int]);
        if matches_lower_exec(seg, names[i].as_slice(), uppers[i].as_slice()) {
            return Some(file_type_at(i));
        }
        i = i + 1;
    }
    None
}

impl GraphNode {
    /// The number of data values (`byte_size`).
    pub fn byte_size(&self) -> (n: usize)
        ensures
            n == self@.byte.len(),
    {
        self.byte.len()
    }

    /// Every data value is zero (`byte_are_padding`).
    pub fn byte_are_padding(&self) -> (b: bool)
        ensures
            b == all_padding(self@.byte),
    {
        let mut i: usize = 0;
        while i < self.byte.len()
            invariant
                i <= self.byte@.len(),
                forall|k: int| 0 <= k < i ==> #[trigger] self.byte@[k] == 0,
            decreases self.byte@.len() - i,
        {
            if self.byte[i] != 0 {
                return false;
            }
            i = i + 1;
        }
        true
    }

    /// More than one word and no data but padding (`is_collection`).
    pub fn is_collection(&self) -> (b: bool)
        ensures
            b == node_is_collection(self@),
    {
        !self.word.is_empty() && self.word.len() != 1 && (self.byte.is_empty()
            || self.byte_are_padding())
    }

    /// Exactly one word and no data (`is_address`).
    pub fn is_address(&self) -> (b: bool)
        ensures
            b == node_is_address(self@),
    {
        !self.word.is_empty() && self.byte.is_empty() && self.word.len() == 1
    }

    /// The file type that the node's text names (`is_file`).
    pub fn is_file(&self) -> (r: Option<GraphFileType>)
        ensures
            r == node_file_type(self@),
    {
        let ghost sv = string_views(self.byte_as_str@);
        let mut all: Vec<char> = Vec::new();
        let mut i: usize = 0;
        while i < self.byte_as_str.len()
            invariant
                i <= self.byte_as_str@.len(),
                sv == string_views(self.byte_as_str@),
                all@ == concat_all(sv.take(i as int)),
            decreases self.byte_as_str@.len() - i,
        {
            let part = chars_of(self.byte_as_str[i].as_str());
            let mut j: usize = 0;
            let ghost base = all@;
            while j < part.len()
                invariant
                    j <= part@.len(),
                    all@ == base + part@.take(j as int),
                decreases part@.len() - j,
            {
                all.push(part[j]);
                j = j + 1;
                assert(all@ =~= base + part@.take(j as int));
            }
            proof {
                assert(part@.take(part@.len() as int) =~= part@);
                assert(sv.take(i + 1).drop_last() =~= sv.take(i as int));
            }
            i = i + 1;
        }
        assert(sv.take(sv.len() as int) =~= sv);
        let mut end: usize = all.len();
        assert(all@.take(end as int) =~= all@);
        while end > 0 && (all[end - 1] == ' ' || all[end - 1] == '\0')
            invariant
                end <= all@.len(),
                trim_end_padding(all@) == trim_end_padding(all@.take(end as int)),
            decreases end,
        {
            assert(all@.take(end as int).drop_last() =~= all@.take(end - 1));
            end = end - 1;
        }
        let ghost trimmed = all@.take(end as int);
        assert(all@ == concat_all(sv));
        assert(trim_end_padding(trimmed) == trimmed);
        assert(trim_end_padding(concat_all(sv)) == trimmed);
        let mut start: usize = end;
        assert(trimmed.subrange(end as int, end as int) =~= Seq::<char>::empty());
        assert(trimmed.take(end as int) =~= trimmed);
        assert(last_segment(trimmed) + Seq::<char>::empty() =~= last_segment(trimmed));
        while start > 0 && all[start - 1] != '.'
            invariant
                start <= end <= all@.len(),
                trimmed == all@.take(end as int),
                forall|k: int| start <= k < end ==> all@[k] != '.',
                last_segment(trimmed) == last_segment(trimmed.take(start as int)) + trimmed.subrange(start as int, end as int),
            decreases start,
        {
            proof {
                let t = trimmed.take(start as int);
                assert(t.drop_last() =~= trimmed.take(start - 1));
                assert(trimmed.subrange(start - 1, end as int) =~= seq![t.last()] + trimmed.subrange(start as int, end as int));
                assert(last_segment(t) == last_segment(t.drop_last()).push(t.last()));
                assert(last_segment(trimmed.take(start - 1)).push(t.last()) + trimmed.subrange(start as int, end as int)
                    =~= last_segment(trimmed.take(start - 1)) + trimmed.subrange(start - 1, end as int));
            }
            start = start - 1;
        }
        proof {
            let t = trimmed.take(start as int);
            if start > 0 {
                assert(t.last() == '.');
            }
            assert(last_segment(t) =~= Seq::<char>::empty());
            assert(last_segment(trimmed) =~= trimmed.subrange(start as int, end as int));
        }
        let seg = crate::text::slice_range(all.as_slice(), start, end);
        assert(seg@ =~= all@.subrange(start as int, end as int));
        assert(seg@ =~= last_segment(trimmed));
        assert(self@.byte_as_str == sv);
        file_type_from_segment(seg.as_slice())
    }

    /// Adds a tag (`add_tag`).
    pub fn add_tag(&mut self, tag: GraphNodeTag)
        ensures
            final(self)@ == (GraphNodeView { tag: old(self)@.tag.push(tag), ..old(self)@ }),
    {
        self.tag.0.push(tag);
        assert(self@ =~= (GraphNodeView { tag: old(self)@.tag.push(tag), ..old(self)@ }));
    }

    /// Tags the node (`apply_tags`): collection, else address, else the file
    /// type that its text names, else nothing.
    pub fn apply_tags(&mut self)
        ensures
            final(self)@ == node_apply_tags(old(self)@),
    {
        if self.is_collection() {
            self.add_tag(GraphNodeTag::Collection);
        } else if self.is_address() {
            self.add_tag(GraphNodeTag::Address);
        } else {
            match self.is_file() {
                Some(file_type) => self.add_tag(GraphNodeTag::File(file_type)),
                None => {},
            }
        }
    }

    /// Whether the node has the given tree type (`has_tree_type`).
    pub fn has_tree_type(&self, tree_type: GraphNodeTreeType) -> (b: bool)
        ensures
            b == (self.tree_type == tree_type),
    {
        self.tree_type == tree_type
    }
}


/// The names of the definitions among `es`, in order, as words.
pub open spec fn defined_names(es: Seq<AsmEntryView>) -> Seq<WordView>
    decreases es.len(),
{
    if es.len() == 0 {
        seq![]
    } else if es.last().name is Some {
        defined_names(es.drop_last()).push(word_from_text(es.last().name.unwrap()).unwrap())
    } else {
        defined_names(es.drop_last())
    }
}

/// The names of a sequence of nodes.
pub open spec fn node_names(ns: Seq<GraphNodeView>) -> Seq<WordView> {
    ns.map_values(|n: GraphNodeView| n.name)
}

proof fn lemma_nodes_scan_names(es: Seq<AsmEntryView>)
    ensures
        nodes_scan(es).2 == (defined_names(es).len() > 0),
        nodes_scan(es).2 ==> node_names(nodes_scan(es).0).push(nodes_scan(es).1.name)
            == defined_names(es),
        !nodes_scan(es).2 ==> nodes_scan(es).0.len() == 0 && nodes_scan(es).1.name
            == WordView::Symbol(dummy_name()),
    decreases es.len(),
{
    if es.len() > 0 {
        lemma_nodes_scan_names(es.drop_last());
        let (done, node, switch) = nodes_scan(es.drop_last());
        let e = es.last();
        if e.name is Some {
            if switch {
                assert(node_names(done.push(node_clean(node))) =~= node_names(done).push(node.name));
                assert(node_names(done.push(node_clean(node))).push(node_from_entry(e).name)
                    =~= defined_names(es));
            } else {
                assert(node_names(done).push(node_from_entry(e).name) =~= defined_names(es));
            }
        }
    }
}

/// `to_nodes` makes one node per definition, named after it, in order; with
/// no definition at all, it makes the single node `GRAPH_DUMMY_START`.
pub proof fn lemma_nodes_follow_definitions(es: Seq<AsmEntryView>)
    ensures
        defined_names(es).len() > 0 ==> node_names(nodes_of_entries(es)) == defined_names(es),
        defined_names(es).len() == 0 ==> node_names(nodes_of_entries(es)) == seq![
            WordView::Symbol(dummy_name()),
        ],
{
    lemma_nodes_scan_names(es);
    let (done, node, switch) = nodes_scan(es);
    assert(node_names(done.push(node)) =~= node_names(done).push(node.name));
    if !switch {
        assert(node_names(done.push(node)) =~= seq![WordView::Symbol(dummy_name())]);
    }
}

/// `clean` leaves no empty text and no empty word, keeps the other texts in
/// order, sorts the words that it keeps, and a second `clean` changes
/// nothing.
pub proof fn lemma_clean(n: GraphNodeView)
    ensures
        forall|i: int|
            0 <= i < node_clean(n).byte_as_str.len() ==> (#[trigger] node_clean(n).byte_as_str[i]).len()
                > 0,
        forall|i: int|
            0 <= i < node_clean(n).word.len() ==> word_nonempty(#[trigger] node_clean(n).word[i]),
        words_sorted(node_clean(n).word),
        node_clean(n).word.to_multiset() == n.word.filter(nonempty_word()).to_multiset(),
        node_clean(node_clean(n)) == node_clean(n),
{
    let f = nonempty_text();
    let c = n.byte_as_str.filter(f);
    assert forall|i: int| 0 <= i < c.len() implies (#[trigger] c[i]).len() > 0 by {
        n.byte_as_str.lemma_filter_pred(f, i);
    }
    lemma_filter_keeps_all(c, f);
    let g = nonempty_word();
    let w = n.word.filter(g);
    assert forall|i: int| 0 <= i < w.len() implies word_nonempty(#[trigger] w[i]) by {
        n.word.lemma_filter_pred(g, i);
    }
    lemma_sort_words(w);
    let sw = sort_words(w);
    assert forall|i: int| 0 <= i < sw.len() implies word_nonempty(#[trigger] sw[i]) by {
        assert(sw.to_multiset().count(sw[i]) > 0) by {
            broadcast use vstd::seq_lib::to_multiset_contains;
            assert(sw.contains(sw[i]));
        }
        assert(w.to_multiset().count(sw[i]) > 0);
        broadcast use vstd::seq_lib::to_multiset_contains;
        assert(w.contains(sw[i]));
    }
    assert forall|i: int| 0 <= i < sw.len() implies g(#[trigger] sw[i]) by {}
    lemma_filter_keeps_all(sw, g);
    lemma_sort_words(sw);
    assert(node_clean(node_clean(n)) =~= node_clean(n));
}

proof fn lemma_filter_keeps_all<A>(s: Seq<A>, f: spec_fn(A) -> bool)
    requires
        forall|i: int| 0 <= i < s.len() ==> f(#[trigger] s[i]),
    ensures
        s.filter(f) == s,
    decreases s.len(),
{
    if s.len() > 0 {
        let t = s.drop_last();
        assert forall|i: int| 0 <= i < t.len() implies f(#[trigger] t[i]) by {
            assert(t[i] == s[i]);
        }
        lemma_filter_keeps_all(t, f);
        assert(s =~= t.push(s.last()));
        t.lemma_filter_push(s.last(), f);
    } else {
        assert(s.filter(f) =~= s);
    }
}

proof fn lemma_insert_content(s: Seq<WordView>, x: WordView)
    ensures
        insert_in_order(s, x).len() == s.len() + 1,
        forall|i: int|
            0 <= i < insert_in_order(s, x).len() ==> #[trigger] insert_in_order(s, x)[i] == x
                || s.contains(insert_in_order(s, x)[i]),
        insert_in_order(s, x).to_multiset() == s.to_multiset().insert(x),
    decreases s.len(),
{
    broadcast use vstd::seq_lib::to_multiset_build;

    if s.len() > 0 {
        let t = s.drop_last();
        lemma_insert_content(t, x);
        let r = insert_in_order(s, x);
        if word_lt(x, s.last()) {
            let r0 = insert_in_order(t, x);
            assert forall|i: int| 0 <= i < r.len() implies #[trigger] r[i] == x || s.contains(r[i]) by {
                if i < r0.len() {
                    assert(r[i] == r0[i]);
                    if r0[i] != x {
                        let k = choose|k: int| 0 <= k < t.len() && t[k] == r0[i];
                        assert(s[k] == t[k]);
                    }
                } else {
                    assert(s[s.len() - 1] == r[i]);
                }
            }
            assert(s =~= t.push(s.last()));
            assert(r.to_multiset() =~= r0.to_multiset().insert(s.last()));
            assert(s.to_multiset() =~= t.to_multiset().insert(s.last()));
            assert(r.to_multiset() =~= s.to_multiset().insert(x));
        } else {
            assert forall|i: int| 0 <= i < r.len() implies #[trigger] r[i] == x || s.contains(r[i]) by {
                if i < s.len() {
                    assert(r[i] == s[i]);
                }
            }
            assert(r.to_multiset() =~= s.to_multiset().insert(x));
        }
    } else {
        assert(s =~= Seq::<WordView>::empty());
        assert(Seq::<WordView>::empty().push(x) =~= seq![x]);
        assert(insert_in_order(s, x).to_multiset() =~= s.to_multiset().insert(x));
    }
}

proof fn lemma_insert_sorted(s: Seq<WordView>, x: WordView)
    requires
        words_sorted(s),
    ensures
        words_sorted(insert_in_order(s, x)),
    decreases s.len(),
{
    if s.len() > 0 {
        let t = s.drop_last();
        let last = s.last();
        let r = insert_in_order(s, x);
        if word_lt(x, last) {
            assert(words_sorted(t)) by {
                assert forall|i: int, j: int| 0 <= i < j < t.len() implies !word_lt(#[trigger] t[j], #[trigger] t[i]) by {
                    assert(t[i] == s[i] && t[j] == s[j]);
                }
            }
            lemma_insert_sorted(t, x);
            lemma_insert_content(t, x);
            let r0 = insert_in_order(t, x);
            assert forall|i: int, j: int| 0 <= i < j < r.len() implies !word_lt(#[trigger] r[j], #[trigger] r[i]) by {
                if j < r0.len() {
                    assert(r[i] == r0[i] && r[j] == r0[j]);
                } else {
                    assert(r[j] == last);
                    assert(r[i] == r0[i]);
                    if r0[i] == x {
                        lemma_word_order(x, last, x);
                    } else {
                        let k = choose|k: int| 0 <= k < t.len() && t[k] == r0[i];
                        assert(s[k] == t[k]);
                        assert(!word_lt(s[s.len() - 1], s[k]));
                    }
                }
            }
        } else {
            assert forall|i: int, j: int| 0 <= i < j < r.len() implies !word_lt(#[trigger] r[j], #[trigger] r[i]) by {
                if j < s.len() {
                    assert(r[i] == s[i] && r[j] == s[j]);
                } else {
                    assert(r[j] == x);
                    assert(r[i] == s[i]);
                    if i < s.len() - 1 {
                        assert(!word_lt(s[s.len() - 1], s[i]));
                    }
                    lemma_word_order(x, s[i], last);
                    lemma_word_order(s[i], x, last);
                    lemma_word_order(x, last, s[i]);
                    lemma_word_order(s[i], last, x);
                }
            }
        }
    }
}

/// `sort_words` puts the words in ascending order and keeps each of them:
/// the result is sorted and holds the same words, as often as the input.
pub proof fn lemma_sort_words(s: Seq<WordView>)
    ensures
        words_sorted(sort_words(s)),
        sort_words(s).to_multiset() == s.to_multiset(),
        words_sorted(s) ==> sort_words(s) == s,
    decreases s.len(),
{
    broadcast use vstd::seq_lib::to_multiset_build;

    if s.len() > 0 {
        let t = s.drop_last();
        lemma_sort_words(t);
        lemma_insert_sorted(sort_words(t), s.last());
        lemma_insert_content(sort_words(t), s.last());
        assert(s =~= t.push(s.last()));
        if words_sorted(s) {
            assert(words_sorted(t)) by {
                assert forall|i: int, j: int| 0 <= i < j < t.len() implies !word_lt(#[trigger] t[j], #[trigger] t[i]) by {
                    assert(t[i] == s[i] && t[j] == s[j]);
                }
            }
            if t.len() > 0 {
                assert(!word_lt(s[s.len() - 1], s[s.len() - 2]));
                assert(t.last() == s[s.len() - 2]);
            }
            assert(insert_in_order(t, s.last()) =~= s);
        }
    } else {
        assert(s =~= Seq::<WordView>::empty());
    }
}

/// `apply_tags` adds at most one tag and changes nothing else; a node is
/// never both a collection and an address.
pub proof fn lemma_apply_tags_one_tag(n: GraphNodeView)
    ensures
        node_apply_tags(n).tag == n.tag || node_apply_tags(n).tag == n.tag.push(
            tag_for(n).unwrap(),
        ),
        node_apply_tags(n).tag.len() <= n.tag.len() + 1,
        (GraphNodeView { tag: n.tag, ..node_apply_tags(n) }) == n,
        !(node_is_collection(n) && node_is_address(n)),
{
    assert((GraphNodeView { tag: n.tag, ..node_apply_tags(n) }) =~= n);
}

/// The name of a file type in lower case, as its variant is written.
pub open spec fn file_type_name(t: GraphFileType) -> Seq<char> {
    match t {
        GraphFileType::Carc => seq!['c', 'a', 'r', 'c'],
        GraphFileType::Nclr => seq!['n', 'c', 'l', 'r'],
        GraphFileType::Nscr => seq!['n', 's', 'c', 'r'],
        GraphFileType::Bmg => seq!['b', 'm', 'g'],
        GraphFileType::Ncer => seq!['n', 'c', 'e', 'r'],
        GraphFileType::Bnll => seq!['b', 'n', 'l', 'l'],
        GraphFileType::Bnbl => seq!['b', 'n', 'b', 'l'],
        GraphFileType::Ncgr => seq!['n', 'c', 'g', 'r'],
        GraphFileType::Nbfc => seq!['n', 'b', 'f', 'c'],
        GraphFileType::Nbfp => seq!['n', 'b', 'f', 'p'],
    }
}

/// `a` is the lower-case text `lower` but for the case of ASCII letters.
pub open spec fn same_ignoring_ascii_case(a: Seq<char>, lower: Seq<char>) -> bool {
    a.len() == lower.len() && forall|i: int|
        0 <= i < a.len() ==> ((#[trigger] a[i]) == lower[i] || ('A' <= a[i] && a[i] <= 'Z' && a[i]
            as int + 32 == lower[i] as int))
}

/// No ASCII capital letter in `s`.
pub open spec fn no_capitals(s: Seq<char>) -> bool {
    forall|i: int| 0 <= i < s.len() ==> !('A' <= (#[trigger] s[i]) && s[i] <= 'Z')
}

proof fn lemma_lower_upper_pair(l: Seq<char>, u: Seq<char>)
    requires
        l.len() == u.len(),
        forall|k: int|
            0 <= k < l.len() ==> 'a' <= #[trigger] l[k] && l[k] <= 'z' && 'A' <= u[k] && u[k] <= 'Z'
                && u[k] as int + 32 == l[k] as int,
    ensures
        no_capitals(l),
        forall|a: Seq<char>| #[trigger] matches_lower(a, l, u) == same_ignoring_ascii_case(a, l),
{
    assert forall|a: Seq<char>| #[trigger] matches_lower(a, l, u) == same_ignoring_ascii_case(a, l) by {
        if same_ignoring_ascii_case(a, l) {
            assert forall|k: int| 0 <= k < a.len() implies (#[trigger] a[k] == l[k] || a[k] == u[k]) by {
                if a[k] != l[k] {
                    assert(a[k] as int == u[k] as int);
                }
            }
        }
    }
}

proof fn lemma_file_type_table(i: int)
    requires
        0 <= i < 10,
    ensures
        file_type_names()[i] == file_type_name(file_types()[i]),
        no_capitals(file_type_names()[i]),
        forall|a: Seq<char>|
            #[trigger] matches_lower(a, file_type_names()[i], file_type_upper_names()[i])
                == same_ignoring_ascii_case(a, file_type_names()[i]),
        forall|j: int| 0 <= j < 10 && j != i ==> file_type_names()[i] != #[trigger] file_type_names()[j],
        forall|j: int| 0 <= j < 10 && j != i ==> file_types()[i] != #[trigger] file_types()[j],
{
    lemma_lower_upper_pair(file_type_names()[i], file_type_upper_names()[i]);
}

proof fn lemma_same_ignoring_case_unique(a: Seq<char>, x: Seq<char>, y: Seq<char>)
    requires
        same_ignoring_ascii_case(a, x),
        same_ignoring_ascii_case(a, y),
        no_capitals(x),
        no_capitals(y),
    ensures
        x == y,
{
    assert forall|k: int| 0 <= k < x.len() implies #[trigger] x[k] == y[k] by {
        assert(a[k] == x[k] || ('A' <= a[k] && a[k] <= 'Z' && a[k] as int + 32 == x[k] as int));
        assert(a[k] == y[k] || ('A' <= a[k] && a[k] <= 'Z' && a[k] as int + 32 == y[k] as int));
        assert(!('A' <= x[k] && x[k] <= 'Z'));
        assert(!('A' <= y[k] && y[k] <= 'Z'));
        assert(x[k] as int == y[k] as int);
    }
    assert(x =~= y);
}

proof fn lemma_file_type_from(seg: Seq<char>, i: int, t: GraphFileType)
    requires
        0 <= i <= 10,
    ensures
        file_type_from(seg, i) == Some(t) <==> (same_ignoring_ascii_case(seg, file_type_name(t))
            && exists|j: int| i <= j < 10 && #[trigger] file_types()[j] == t),
    decreases 10 - i,
{
    if i < 10 {
        lemma_file_type_from(seg, i + 1, t);
        lemma_file_type_table(i);
        let ti = file_types()[i];
        if exists|j: int| i <= j < 10 && #[trigger] file_types()[j] == t {
            let j = choose|j: int| i <= j < 10 && #[trigger] file_types()[j] == t;
            lemma_file_type_table(j);
            if j != i {
                assert(exists|j2: int| i + 1 <= j2 < 10 && #[trigger] file_types()[j2] == t);
                if same_ignoring_ascii_case(seg, file_type_name(t)) && same_ignoring_ascii_case(
                    seg,
                    file_type_names()[i],
                ) {
                    lemma_same_ignoring_case_unique(seg, file_type_names()[i], file_type_names()[j]);
                }
            }
        }
        if exists|j: int| i + 1 <= j < 10 && #[trigger] file_types()[j] == t {
            let j = choose|j: int| i + 1 <= j < 10 && #[trigger] file_types()[j] == t;
            assert(i <= j < 10);
        }
    }
}

/// A segment names a file type exactly when it is that type's name without
/// regard to ASCII case: `nscr`, `NSCR` and `Nscr` all give `Nscr`, and
/// nothing else does.
pub proof fn lemma_file_type_by_name(seg: Seq<char>, t: GraphFileType)
    ensures
        file_type_of(seg) == Some(t) <==> same_ignoring_ascii_case(seg, file_type_name(t)),
{
    lemma_file_type_from(seg, 0, t);
    let j: int = match t {
        GraphFileType::Carc => 0,
        GraphFileType::Nclr => 1,
        GraphFileType::Nscr => 2,
        GraphFileType::Bmg => 3,
        GraphFileType::Ncer => 4,
        GraphFileType::Bnll => 5,
        GraphFileType::Bnbl => 6,
        GraphFileType::Ncgr => 7,
        GraphFileType::Nbfc => 8,
        GraphFileType::Nbfp => 9,
    };
    assert(file_types()[j] == t);
}


/// The `.byte` data of a run of entries, one entry after another.
pub open spec fn entries_data(es: Seq<AsmEntryView>) -> Seq<u16>
    decreases es.len(),
{
    if es.len() == 0 {
        seq![]
    } else {
        entries_data(es.drop_last()) + match es.last().byte {
            Some(b) => b,
            None => seq![],
        }
    }
}

proof fn lemma_open_node_data(es: Seq<AsmEntryView>, d: int)
    requires
        0 <= d < es.len(),
        es[d].name is Some,
        forall|i: int| d < i < es.len() ==> (#[trigger] es[i]).name is None,
    ensures
        nodes_scan(es).1.byte == entries_data(es.skip(d)),
    decreases es.len(),
{
    let e = es.last();
    if es.len() == d + 1 {
        assert(es.skip(d).drop_last() =~= Seq::<AsmEntryView>::empty());
        assert(entries_data(es.skip(d)) =~= entries_data(Seq::<AsmEntryView>::empty()) + match e.byte {
            Some(b) => b,
            None => seq![],
        });
    } else {
        assert(es.drop_last()[d] == es[d]);
        assert forall|i: int| d < i < es.drop_last().len() implies (#[trigger] es.drop_last()[i]).name is None by {
            assert(es.drop_last()[i] == es[i]);
        }
        lemma_open_node_data(es.drop_last(), d);
        assert(es.skip(d).drop_last() =~= es.drop_last().skip(d));
        assert(es.skip(d).last() == e);
    }
}

proof fn lemma_start_node_data(es: Seq<AsmEntryView>)
    requires
        forall|i: int| 0 <= i < es.len() ==> (#[trigger] es[i]).name is None,
    ensures
        nodes_scan(es).1.byte == entries_data(es),
        nodes_scan(es).0.len() == 0,
        !nodes_scan(es).2,
    decreases es.len(),
{
    if es.len() > 0 {
        assert forall|i: int| 0 <= i < es.drop_last().len() implies (#[trigger] es.drop_last()[i]).name is None by {
            assert(es.drop_last()[i] == es[i]);
        }
        lemma_start_node_data(es.drop_last());
        assert(es.last() == es[es.len() - 1]);
    }
}

/// A node's data is the `.byte` data of its definition and of the entries
/// that follow it, appended in order: for the last definition of a listing
/// (at `d`), the last node holds the data of every entry from `d` on; with no
/// definition at all (`d` outside the listing), the single node holds the
/// data of every entry.
pub proof fn lemma_node_data_appends(es: Seq<AsmEntryView>, d: int)
    requires
        0 <= d < es.len() ==> es[d].name is Some,
        forall|i: int| 0 <= i < es.len() && i != d && (i > d || !(0 <= d < es.len()))
            ==> (#[trigger] es[i]).name is None,
    ensures
        0 <= d < es.len() ==> nodes_of_entries(es).last().byte == entries_data(es.skip(d)),
        !(0 <= d < es.len()) ==> nodes_of_entries(es).len() == 1
            && nodes_of_entries(es)[0].byte == entries_data(es),
{
    if 0 <= d < es.len() {
        lemma_open_node_data(es, d);
    } else {
        lemma_start_node_data(es);
    }
}

/// Consuming an entry appends its `.byte` data: the node's data before the
/// call is kept as a prefix, and what follows it is exactly the entry's data.
pub proof fn lemma_consume_appends_data(n: GraphNodeView, e: AsmEntryView)
    ensures
        node_consume(n, e).byte.len() == n.byte.len() + entries_data(seq![e]).len(),
        node_consume(n, e).byte.take(n.byte.len() as int) == n.byte,
        node_consume(n, e).byte.skip(n.byte.len() as int) == entries_data(seq![e]),
{
    assert(seq![e].drop_last() =~= Seq::<AsmEntryView>::empty());
    assert(seq![e].last() == e);
    assert(entries_data(Seq::<AsmEntryView>::empty()) == Seq::<u16>::empty());
    let b = entries_data(seq![e]);
    assert(b =~= e.byte.unwrap_or(seq![]));
    assert(node_consume(n, e).byte.take(n.byte.len() as int) =~= n.byte);
    assert(node_consume(n, e).byte.skip(n.byte.len() as int) =~= b);
}

} // verus!
