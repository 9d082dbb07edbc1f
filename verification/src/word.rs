//! `GraphNodeWord`: the name of a node or the target of a reference, either
//! a numeric address or a symbol, with the order that keys the graph's maps.

use vstd::prelude::*;
use crate::num::{
    hex_chars, hex_digits, hex_prefix, lemma_hex_digits_value, parse_bounded, parse_unsigned,
};
use crate::text::{has_prefix, slice_range, starts_with, string_of, without_prefix, chars_of};

verus! {

/// A word: an address (written `0x..` in the source) or a symbol name.
#[derive(Debug)]
pub enum GraphNodeWord {
    Address(u32),
    Symbol(String),
}

/// The mathematical value of a [`GraphNodeWord`].
pub enum WordView {
    Address(u32),
    Symbol(Seq<char>),
}

impl View for GraphNodeWord {
    type V = WordView;

    open spec fn view(&self) -> WordView {
        match self {
            GraphNodeWord::Address(a) => WordView::Address(*a),
            GraphNodeWord::Symbol(s) => WordView::Symbol(s@),
        }
    }
}

/// Lexicographic order on character sequences by code point (the order of
/// `String`).
pub open spec fn seq_lt(a: Seq<char>, b: Seq<char>) -> bool
    decreases a.len(),
{
    if a.len() == 0 {
        b.len() > 0
    } else if b.len() == 0 {
        false
    } else if a[0] < b[0] {
        true
    } else if a[0] == b[0] {
        seq_lt(a.drop_first(), b.drop_first())
    } else {
        false
    }
}

/// The derived order of `GraphNodeWord`: every address before every symbol,
/// addresses by value, symbols lexicographically.
pub open spec fn word_lt(a: WordView, b: WordView) -> bool {
    match (a, b) {
        (WordView::Address(x), WordView::Address(y)) => x < y,
        (WordView::Address(_), WordView::Symbol(_)) => true,
        (WordView::Symbol(_), WordView::Address(_)) => false,
        (WordView::Symbol(x), WordView::Symbol(y)) => seq_lt(x, y),
    }
}

pub proof fn lemma_seq_lt_irreflexive(a: Seq<char>)
    ensures
        !seq_lt(a, a),
    decreases a.len(),
{
    if a.len() > 0 {
        lemma_seq_lt_irreflexive(a.drop_first());
    }
}

pub proof fn lemma_seq_lt_transitive(a: Seq<char>, b: Seq<char>, c: Seq<char>)
    requires
        seq_lt(a, b),
        seq_lt(b, c),
    ensures
        seq_lt(a, c),
    decreases a.len(),
{
    if a.len() > 0 && b.len() > 0 && c.len() > 0 && a[0] == b[0] && b[0] == c[0] {
        lemma_seq_lt_transitive(a.drop_first(), b.drop_first(), c.drop_first());
    }
}

pub proof fn lemma_seq_lt_total(a: Seq<char>, b: Seq<char>)
    ensures
        seq_lt(a, b) || seq_lt(b, a) || a == b,
    decreases a.len(),
{
    if a.len() > 0 && b.len() > 0 && a[0] == b[0] {
        lemma_seq_lt_total(a.drop_first(), b.drop_first());
        if a.drop_first() == b.drop_first() {
            assert(a =~= seq![a[0]] + a.drop_first());
            assert(b =~= seq![b[0]] + b.drop_first());
        }
    } else if a.len() == 0 && b.len() == 0 {
        assert(a =~= b);
    } else if a.len() > 0 && b.len() > 0 {
        assert(a[0] != b[0]);
    }
}

/// `word_lt` is a strict total order.
pub proof fn lemma_word_order(a: WordView, b: WordView, c: WordView)
    ensures
        !word_lt(a, a),
        word_lt(a, b) && word_lt(b, c) ==> word_lt(a, c),
        word_lt(a, b) || word_lt(b, a) || a == b,
        word_lt(a, b) ==> !word_lt(b, a),
{
    match (a, b, c) {
        (WordView::Symbol(x), WordView::Symbol(y), WordView::Symbol(z)) => {
            lemma_seq_lt_irreflexive(x);
            lemma_seq_lt_total(x, y);
            if seq_lt(x, y) && seq_lt(y, z) {
                lemma_seq_lt_transitive(x, y, z);
            }
            if seq_lt(x, y) && seq_lt(y, x) {
                lemma_seq_lt_transitive(x, y, x);
            }
        },
        (WordView::Symbol(x), WordView::Symbol(y), _) => {
            lemma_seq_lt_irreflexive(x);
            lemma_seq_lt_total(x, y);
            if seq_lt(x, y) && seq_lt(y, x) {
                lemma_seq_lt_transitive(x, y, x);
            }
        },
        (WordView::Symbol(x), _, _) => {
            lemma_seq_lt_irreflexive(x);
        },
        _ => {},
    }
}

/// The outcome of comparing two words.
pub enum WordOrder {
    Less,
    Same,
    Greater,
}

/// Three-way comparison of character slices in `seq_lt` order.
pub fn compare_chars(a: &[char], b: &[char]) -> (r: WordOrder)
    ensures
        r is Less <==> seq_lt(a@, b@),
        r is Same <==> a@ == b@,
        r is Greater <==> seq_lt(b@, a@),
{
    let mut i: usize = 0;
    assert(a@.skip(0) =~= a@);
    assert(b@.skip(0) =~= b@);
    assert(a@.take(0) =~= b@.take(0));
    while i < a.len() && i < b.len() && a[i] == b[i]
        invariant
            i <= a@.len(),
            i <= b@.len(),
            a@.take(i as int) == b@.take(i as int),
            seq_lt(a@, b@) == seq_lt(a@.skip(i as int), b@.skip(i as int)),
            seq_lt(b@, a@) == seq_lt(b@.skip(i as int), a@.skip(i as int)),
        decreases a@.len() - i,
    {
        proof {
            assert(a@.skip(i as int).drop_first() =~= a@.skip(i + 1));
            assert(b@.skip(i as int).drop_first() =~= b@.skip(i + 1));
            assert(a@.take(i + 1) =~= a@.take(i as int).push(a@[i as int]));
            assert(b@.take(i + 1) =~= b@.take(i as int).push(b@[i as int]));
        }
        i = i + 1;
    }
    proof {
        lemma_seq_lt_irreflexive(a@);
        if seq_lt(a@, b@) && seq_lt(b@, a@) {
            lemma_seq_lt_transitive(a@, b@, a@);
        }
    }
    if i == a.len() && i == b.len() {
        assert(a@ =~= a@.take(i as int));
        assert(b@ =~= b@.take(i as int));
        proof { lemma_seq_lt_irreflexive(b@); }
        WordOrder::Same
    } else if i == a.len() {
        assert(a@.skip(i as int).len() == 0);
        proof {
            if a@ == b@ {
                assert(a@.len() == b@.len());
            }
        }
        WordOrder::Less
    } else if i == b.len() {
        assert(b@.skip(i as int).len() == 0);
        WordOrder::Greater
    } else {
        assert(a@.skip(i as int)[0] == a@[i as int]);
        assert(b@.skip(i as int)[0] == b@[i as int]);
        if a[i] < b[i] {
            WordOrder::Less
        } else {
            WordOrder::Greater
        }
    }
}

/// The text of a word in `0x` form: the address that it denotes, or `None`
/// where the text after `0x` is no hexadecimal `u32`.
pub open spec fn word_from_text(s: Seq<char>) -> Option<WordView> {
    if starts_with(s, hex_prefix()) {
        match parse_bounded(without_prefix(s, hex_prefix()), 16, 0xffff_ffff) {
            Some(v) => Some(WordView::Address(v as u32)),
            None => None,
        }
    } else {
        Some(WordView::Symbol(s))
    }
}

/// How a word is displayed: `{:#x}` for an address, the symbol itself
/// otherwise.
pub open spec fn word_text(w: WordView) -> Seq<char> {
    match w {
        WordView::Address(a) => hex_prefix() + hex_digits(a as nat),
        WordView::Symbol(s) => s,
    }
}

impl GraphNodeWord {
    /// `From<String>`: a `0x`-prefixed hexadecimal address, or a symbol.
    /// Text whose part after `0x` is no hexadecimal `u32` is no word; it is
    /// left out by `requires`.
    pub fn from_string(value: String) -> (w: GraphNodeWord)
        requires
            word_from_text(value@) is Some,
        ensures
            Some(w@) == word_from_text(value@),
            !starts_with(value@, hex_prefix()) ==> w == GraphNodeWord::Symbol(value),
    {
        let chars = chars_of(value.as_str());
        let p = vec!['0', 'x'];
        assert(p@ =~= hex_prefix());
        if has_prefix(chars.as_slice(), p.as_slice()) {
            let rest = slice_range(chars.as_slice(), 2, chars.len());
            assert(rest@ =~= without_prefix(value@, hex_prefix()));
            match parse_unsigned(rest.as_slice(), 16, 0xffff_ffff) {
                Some(a) => GraphNodeWord::Address(a),
                None => {
                    proof {
                        assert(false);
                    }
                    GraphNodeWord::Symbol(value)
                },
            }
        } else {
            GraphNodeWord::Symbol(value)
        }
    }

    /// Whether `from_string` accepts `value`.
    pub fn text_is_word(value: &str) -> (b: bool)
        ensures
            b == word_from_text(value@) is Some,
    {
        let chars = chars_of(value);
        let p = vec!['0', 'x'];
        assert(p@ =~= hex_prefix());
        if has_prefix(chars.as_slice(), p.as_slice()) {
            let rest = slice_range(chars.as_slice(), 2, chars.len());
            assert(rest@ =~= without_prefix(value@, hex_prefix()));
            parse_unsigned(rest.as_slice(), 16, 0xffff_ffff).is_some()
        } else {
            true
        }
    }

    /// `FromStr`: the same as `from_string` on a copy of `s`.
    pub fn from_str(s: &str) -> (w: GraphNodeWord)
        requires
            word_from_text(s@) is Some,
        ensures
            Some(w@) == word_from_text(s@),
    {
        let chars = chars_of(s);
        GraphNodeWord::from_string(string_of(chars.as_slice()))
    }

    /// `Display`: `{:#x}` for an address, the symbol itself otherwise.
    pub fn to_text(&self) -> (s: String)
        ensures
            s@ == word_text(self@),
    {
        match self {
            GraphNodeWord::Address(a) => {
                let mut v = vec!['0', 'x'];
                let mut h = hex_chars(*a as u64);
                v.append(&mut h);
                assert(v@ =~= word_text(self@));
                string_of(v.as_slice())
            },
            GraphNodeWord::Symbol(s) => s.clone(),
        }
    }

    /// A copy of this word.
    pub fn duplicate(&self) -> (w: GraphNodeWord)
        ensures
            w == *self,
    {
        match self {
            GraphNodeWord::Address(a) => GraphNodeWord::Address(*a),
            GraphNodeWord::Symbol(s) => GraphNodeWord::Symbol(s.clone()),
        }
    }

    /// The derived `Default`: the empty symbol.
    pub fn empty() -> (w: GraphNodeWord)
        ensures
            w@ == WordView::Symbol(Seq::empty()),
    {
        GraphNodeWord::Symbol(String::new())
    }

    /// Three-way comparison in the derived order.
    pub fn compare(&self, other: &GraphNodeWord) -> (r: WordOrder)
        ensures
            r is Less <==> word_lt(self@, other@),
            r is Same <==> self@ == other@,
            r is Greater <==> word_lt(other@, self@),
    {
        match (self, other) {
            (GraphNodeWord::Address(x), GraphNodeWord::Address(y)) => {
                if *x < *y {
                    WordOrder::Less
                } else if *x == *y {
                    WordOrder::Same
                } else {
                    WordOrder::Greater
                }
            },
            (GraphNodeWord::Address(_), GraphNodeWord::Symbol(_)) => WordOrder::Less,
            (GraphNodeWord::Symbol(_), GraphNodeWord::Address(_)) => WordOrder::Greater,
            (GraphNodeWord::Symbol(x), GraphNodeWord::Symbol(y)) => {
                let a = chars_of(x.as_str());
                let b = chars_of(y.as_str());
                compare_chars(a.as_slice(), b.as_slice())
            },
        }
    }

    /// `==` on words.
    pub fn same(&self, other: &GraphNodeWord) -> (b: bool)
        ensures
            b == (self@ == other@),
    {
        match self.compare(other) {
            WordOrder::Same => true,
            _ => false,
        }
    }
}

/// Displaying a word and reading the text back gives the word again, for
/// every word but a symbol whose own text begins with `0x`.
pub proof fn lemma_word_text_round_trip(w: WordView)
    requires
        !(w matches WordView::Symbol(s) && starts_with(s, hex_prefix())),
    ensures
        word_from_text(word_text(w)) == Some(w),
{
    if let WordView::Address(a) = w {
        let t = word_text(w);
        lemma_hex_digits_value(a as nat);
        assert(t.take(2) =~= hex_prefix());
        assert(without_prefix(t, hex_prefix()) =~= hex_digits(a as nat));
    }
}

} // verus!

verus! {

impl DeepView for GraphNodeWord {
    type V = WordView;

    open spec fn deep_view(&self) -> WordView {
        self@
    }
}

} // verus!
