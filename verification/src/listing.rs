//! Assembly listings: one `AsmEntry` per directive or definition line, and
//! the parser that reads a listing into `AsmEntries`.

use vstd::prelude::*;
use crate::num::{hex_chars, hex_digits, parse_u16, parse_u16_spec};
use crate::text::{
    chars_of, contains, ends_with, has_infix, has_prefix, has_suffix, lines_of, slice_range,
    split_lines, split_whitespace, split_ws, starts_with, string_of, trim_start, trim_start_chars,
    views, without_suffix,
};
use crate::utf16::{from_utf16, utf16_decode};
use crate::word::{GraphNodeWord, word_from_text};

verus! {

/// `.L_`: the prefix of local labels.
pub open spec fn pat_local() -> Seq<char> {
    seq!['.', 'L', '_']
}

/// `.byte`
pub open spec fn pat_byte() -> Seq<char> {
    seq!['.', 'b', 'y', 't', 'e']
}

/// `.word`
pub open spec fn pat_word() -> Seq<char> {
    seq!['.', 'w', 'o', 'r', 'd']
}

/// `.space`
pub open spec fn pat_space() -> Seq<char> {
    seq!['.', 's', 'p', 'a', 'c', 'e']
}

/// `:`
pub open spec fn pat_colon() -> Seq<char> {
    seq![':']
}

/// `,`
pub open spec fn pat_comma() -> Seq<char> {
    seq![',']
}

/// `b`: the first letter of branch instructions.
pub open spec fn pat_branch() -> Seq<char> {
    seq!['b']
}

pub(crate) fn local_pat() -> (v: Vec<char>)
    ensures
        v@ == pat_local(),
{
    let v = vec!['.', 'L', '_'];
    assert(v@ =~= pat_local());
    v
}

pub(crate) fn byte_pat() -> (v: Vec<char>)
    ensures
        v@ == pat_byte(),
{
    let v = vec!['.', 'b', 'y', 't', 'e'];
    assert(v@ =~= pat_byte());
    v
}

pub(crate) fn word_pat() -> (v: Vec<char>)
    ensures
        v@ == pat_word(),
{
    let v = vec!['.', 'w', 'o', 'r', 'd'];
    assert(v@ =~= pat_word());
    v
}

fn space_pat() -> (v: Vec<char>)
    ensures
        v@ == pat_space(),
{
    let v = vec!['.', 's', 'p', 'a', 'c', 'e'];
    assert(v@ =~= pat_space());
    v
}

pub(crate) fn colon_pat() -> (v: Vec<char>)
    ensures
        v@ == pat_colon(),
{
    let v = vec![':'];
    assert(v@ =~= pat_colon());
    v
}

fn comma_pat() -> (v: Vec<char>)
    ensures
        v@ == pat_comma(),
{
    let v = vec![','];
    assert(v@ =~= pat_comma());
    v
}

fn branch_pat() -> (v: Vec<char>)
    ensures
        v@ == pat_branch(),
{
    let v = vec!['b'];
    assert(v@ =~= pat_branch());
    v
}

/// The register names that a branch may take as its operand.
pub open spec fn register_names() -> Seq<Seq<char>> {
    seq![
        seq!['r', '0'],
        seq!['r', '1'],
        seq!['r', '2'],
        seq!['r', '3'],
        seq!['r', '4'],
        seq!['r', '5'],
        seq!['r', '6'],
        seq!['r', '7'],
        seq!['r', '8'],
        seq!['r', '9'],
        seq!['r', '1', '0'],
        seq!['r', '1', '1'],
        seq!['l', 'r'],
        seq!['i', 'p'],
        seq!['p', 'c'],
    ]
}

/// A branch operand that names a register, with or without one trailing
/// comma.
pub open spec fn is_register_operand(t: Seq<char>) -> bool {
    register_names().contains(t) || (t.len() > 0 && t.last() == ','
        && register_names().contains(t.drop_last()))
}

/// The value of one operand of `.byte`: a number, possibly followed by one
/// comma; `None` where the text is no such operand.
pub open spec fn byte_operand(x: Seq<char>) -> Option<nat> {
    if contains(x, pat_comma()) {
        if ends_with(x, pat_comma()) {
            parse_u16_spec(without_suffix(x, pat_comma()))
        } else {
            None
        }
    } else {
        parse_u16_spec(x)
    }
}

/// The values of the operands of `.byte`.
pub open spec fn byte_values(ops: Seq<Seq<char>>) -> Seq<u16> {
    ops.map_values(|x: Seq<char>| byte_operand(x).unwrap_or(0) as u16)
}

/// The mathematical value of an [`AsmEntry`].
pub struct AsmEntryView {
    pub name: Option<Seq<char>>,
    pub label: bool,
    pub bss: bool,
    pub byte: Option<Seq<u16>>,
    pub byte_as_str: Option<Seq<char>>,
    pub word: Option<Seq<char>>,
}

/// An entry with every field empty.
pub open spec fn blank_entry() -> AsmEntryView {
    AsmEntryView { name: None, label: false, bss: false, byte: None, byte_as_str: None, word: None }
}

/// The lines that `AsmEntry::from_str` accepts: those whose tokens have the
/// form that their first token calls for.
pub open spec fn asm_line_ok(line: Seq<char>) -> bool {
    let t = split_ws(line);
    &&& t.len() >= 1
    &&& if starts_with(t[0], pat_local()) {
        t.len() != 2
    } else if contains(t[0], pat_byte()) {
        &&& t.len() >= 2
        &&& forall|i: int| 1 <= i < t.len() ==> (#[trigger] byte_operand(t[i])) is Some
        &&& utf16_decode(byte_values(t.skip(1))) is Some
    } else if contains(t[0], pat_word()) {
        t.len() >= 2
    } else if starts_with(t[0], pat_branch()) && t.len() < 2 {
        false
    } else if starts_with(t[0], pat_branch()) && !starts_with(t[1], pat_local()) {
        true
    } else if t.len() == 3 && contains(t[1], pat_space()) {
        ends_with(t[0], pat_colon())
    } else if ends_with(t[0], pat_colon()) {
        !contains(without_suffix(t[0], pat_colon()), pat_local())
    } else {
        true
    }
}

/// What `AsmEntry::from_str` makes of a line (for lines with `asm_line_ok`).
pub open spec fn asm_parse(line: Seq<char>) -> Option<AsmEntryView> {
    let t = split_ws(line);
    if starts_with(t[0], pat_local()) {
        if t.len() == 1 || t.len() == 4 {
            None
        } else {
            Some(AsmEntryView { label: true, word: Some(t[2]), ..blank_entry() })
        }
    } else if contains(t[0], pat_byte()) {
        let bytes = byte_values(t.skip(1));
        Some(
            AsmEntryView {
                byte: Some(bytes),
                byte_as_str: Some(utf16_decode(bytes).unwrap()),
                ..blank_entry()
            },
        )
    } else if contains(t[0], pat_word()) {
        Some(AsmEntryView { word: Some(t[1]), ..blank_entry() })
    } else if starts_with(t[0], pat_branch()) && !starts_with(t[1], pat_local()) {
        if is_register_operand(t[1]) {
            None
        } else {
            Some(AsmEntryView { label: true, word: Some(t[1]), ..blank_entry() })
        }
    } else if t.len() == 3 && contains(t[1], pat_space()) {
        Some(AsmEntryView { name: Some(without_suffix(t[0], pat_colon())), ..blank_entry() })
    } else if ends_with(t[0], pat_colon()) {
        Some(AsmEntryView { name: Some(without_suffix(t[0], pat_colon())), ..blank_entry() })
    } else {
        None
    }
}

/// The `{:x?}` text of a list of numbers: `[1a, 2b]`.
pub open spec fn hex_list_text(v: Seq<u16>) -> Seq<char> {
    seq!['['] + hex_list_items(v) + seq![']']
}

/// The items of `hex_list_text`, separated by `, `.
pub open spec fn hex_list_items(v: Seq<u16>) -> Seq<char>
    decreases v.len(),
{
    if v.len() == 0 {
        seq![]
    } else if v.len() == 1 {
        hex_digits(v[0] as nat)
    } else {
        hex_list_items(v.drop_last()) + seq![',', ' '] + hex_digits(v.last() as nat)
    }
}

/// The text of a `bool`.
pub open spec fn bool_text(b: bool) -> Seq<char> {
    if b {
        seq!['t', 'r', 'u', 'e']
    } else {
        seq!['f', 'a', 'l', 's', 'e']
    }
}

/// The `Display` text of an entry.
pub open spec fn entry_text(
    name: Option<Seq<char>>,
    label: bool,
    byte: Option<Seq<u16>>,
    byte_as_str: Option<Seq<char>>,
) -> Seq<char> {
    let head = match name {
        Some(n) => n + seq!['\t', 'L', 'a', 'b', 'e', 'l', ':'] + bool_text(label) + seq!['\n'],
        None => seq!['N', '/', 'A', '\t', 'L', 'a', 'b', 'e', 'l', ':', ' '] + bool_text(label)
            + seq!['\n'],
    };
    let data = match byte {
        Some(b) => seq!['D', 'a', 't', 'a', ':', '\t', '\t'] + hex_list_text(b) + seq!['\n'],
        None => seq![],
    };
    let text = match byte_as_str {
        Some(s) => seq!['A', 's', 'S', 't', 'r', 'i', 'n', 'g', ':', '\t', '\t'] + s + seq!['\n'],
        None => seq![],
    };
    head + data + text
}

fn push_all(v: &mut Vec<char>, s: &[char])
    ensures
        final(v)@ == old(v)@ + s@,
{
    let mut i: usize = 0;
    while i < s.len()
        invariant
            i <= s@.len(),
            v@ == old(v)@ + s@.take(i as int),
        decreases s@.len() - i,
    {
        v.push(s[i]);
        i = i + 1;
        assert(s@.take(i as int) =~= s@.take((i - 1) as int).push(s@[i - 1]));
        assert(v@ =~= old(v)@ + s@.take(i as int));
    }
    assert(s@.take(s@.len() as int) =~= s@);
}

fn bool_chars(b: bool) -> (v: Vec<char>)
    ensures
        v@ == bool_text(b),
{
    let v = if b {
        vec!['t', 'r', 'u', 'e']
    } else {
        vec!['f', 'a', 'l', 's', 'e']
    };
    assert(v@ =~= bool_text(b));
    v
}

fn hex_list_chars(b: &[u16]) -> (v: Vec<char>)
    ensures
        v@ == hex_list_text(b@),
{
    let mut v = vec!['['];
    let mut i: usize = 0;
    assert(b@.take(0) =~= Seq::<u16>::empty());
    assert(v@ =~= seq!['['] + hex_list_items(b@.take(0)));
    while i < b.len()
        invariant
            i <= b@.len(),
            v@ == seq!['['] + hex_list_items(b@.take(i as int)),
        decreases b@.len() - i,
    {
        let ghost before = v@;
        if i > 0 {
            let sep = vec![',', ' '];
            push_all(&mut v, sep.as_slice());
        }
        let h = hex_chars(b[i] as u64);
        push_all(&mut v, h.as_slice());
        proof {
            let t = b@.take(i + 1);
            assert(t.drop_last() =~= b@.take(i as int));
            if i == 0 {
                assert(v@ =~= seq!['['] + hex_list_items(t));
            } else {
                assert(v@ =~= seq!['['] + hex_list_items(t));
            }
        }
        i = i + 1;
    }
    v.push(']');
    assert(b@.take(b@.len() as int) =~= b@);
    assert(v@ =~= hex_list_text(b@));
    v
}

/// The `Display` text of an entry as a string.
pub fn entry_text_string(
    name: &Option<String>,
    label: bool,
    byte: &Option<Vec<u16>>,
    byte_as_str: &Option<String>,
) -> (s: String)
    ensures
        s@ == entry_text(
            match name {
                Some(n) => Some(n@),
                None => None,
            },
            label,
            match byte {
                Some(b) => Some(b@),
                None => None,
            },
            match byte_as_str {
                Some(t) => Some(t@),
                None => None,
            },
        ),
{
    let mut v: Vec<char> = Vec::new();
    match name {
        Some(n) => {
            let nc = chars_of(n.as_str());
            push_all(&mut v, nc.as_slice());
            let l = vec!['\t', 'L', 'a', 'b', 'e', 'l', ':'];
            push_all(&mut v, l.as_slice());
        },
        None => {
            let l = vec!['N', '/', 'A', '\t', 'L', 'a', 'b', 'e', 'l', ':', ' '];
            push_all(&mut v, l.as_slice());
        },
    }
    let bc = bool_chars(label);
    push_all(&mut v, bc.as_slice());
    v.push('\n');
    let ghost head = v@;
    match byte {
        Some(b) => {
            let l = vec!['D', 'a', 't', 'a', ':', '\t', '\t'];
            push_all(&mut v, l.as_slice());
            let h = hex_list_chars(b.as_slice());
            push_all(&mut v, h.as_slice());
            v.push('\n');
        },
        None => {},
    }
    let ghost data = v@;
    match byte_as_str {
        Some(t) => {
            let l = vec!['A', 's', 'S', 't', 'r', 'i', 'n', 'g', ':', '\t', '\t'];
            push_all(&mut v, l.as_slice());
            let tc = chars_of(t.as_str());
            push_all(&mut v, tc.as_slice());
            v.push('\n');
        },
        None => {},
    }
    assert(v@ =~= entry_text(
        match name {
            Some(n) => Some(n@),
            None => None,
        },
        label,
        match byte {
            Some(b) => Some(b@),
            None => None,
        },
        match byte_as_str {
            Some(t) => Some(t@),
            None => None,
        },
    ));
    string_of(v.as_slice())
}


/// One line of an assembly listing: a definition (`name:`), a local label
/// with its `.word`, a `.byte` or `.word` directive, or a branch target.
#[derive(Debug)]
pub struct AsmEntry {
    pub name: Option<String>,
    pub label: bool,
    pub bss: bool,
    pub byte: Option<Vec<u16>>,
    pub byte_as_str: Option<String>,
    pub word: Option<String>,
}

/// The view of an optional string.
pub open spec fn opt_view(o: Option<String>) -> Option<Seq<char>> {
    match o {
        Some(s) => Some(s@),
        None => None,
    }
}

impl View for AsmEntry {
    type V = AsmEntryView;

    open spec fn view(&self) -> AsmEntryView {
        AsmEntryView {
            name: opt_view(self.name),
            label: self.label,
            bss: self.bss,
            byte: match self.byte {
                Some(b) => Some(b@),
                None => None,
            },
            byte_as_str: opt_view(self.byte_as_str),
            word: opt_view(self.word),
        }
    }
}

/// The value of one `.byte` operand, `None` where the text is no operand.
pub(crate) fn byte_operand_value(x: &[char]) -> (r: Option<u16>)
    ensures
        r matches Some(v) ==> byte_operand(x@) == Some(v as nat),
        r is None ==> byte_operand(x@) is None,
{
    let comma = comma_pat();
    if has_infix(x, comma.as_slice()) {
        if has_suffix(x, comma.as_slice()) {
            let core = slice_range(x, 0, x.len() - 1);
            assert(core@ =~= without_suffix(x@, pat_comma()));
            parse_u16(core.as_slice())
        } else {
            None
        }
    } else {
        parse_u16(x)
    }
}

/// Whether a branch operand names a register.
fn register_operand(t: &[char]) -> (b: bool)
    ensures
        b == is_register_operand(t@),
{
    let names: Vec<Vec<char>> = vec![
        vec!['r', '0'],
        vec!['r', '1'],
        vec!['r', '2'],
        vec!['r', '3'],
        vec!['r', '4'],
        vec!['r', '5'],
        vec!['r', '6'],
        vec!['r', '7'],
        vec!['r', '8'],
        vec!['r', '9'],
        vec!['r', '1', '0'],
        vec!['r', '1', '1'],
        vec!['l', 'r'],
        vec!['i', 'p'],
        vec!['p', 'c'],
    ];
    assert(views(names@) =~= register_names());
    let core_len: usize = if t.len() > 0 && t[t.len() - 1] == ',' {
        t.len() - 1
    } else {
        t.len()
    };
    let mut i: usize = 0;
    assert(t@.take(t@.len() as int) =~= t@);
    while i < names.len()
        invariant
            views(names@) == register_names(),
            i <= names@.len(),
            core_len <= t@.len(),
            core_len == if t@.len() > 0 && t@.last() == ',' {
                t@.len() - 1
            } else {
                t@.len() as int
            },
            forall|k: int|
                0 <= k < i ==> #[trigger] register_names()[k] != t@ && register_names()[k]
                    != t@.take(core_len as int),
        decreases names@.len() - i,
    {
        assert(names@[i as int]@ == register_names()[i as int]);
        assert(t@.take(t@.len() as int) =~= t@);
        let n = names[i].as_slice();
        if n.len() == t.len() && has_prefix(t, n) {
            assert(t@.take(n@.len() as int) =~= t@);
            assert(register_names().contains(t@));
            return true;
        }
        if core_len < t.len() && n.len() == core_len && has_prefix(t, n) {
            assert(t@.drop_last() =~= t@.take(core_len as int));
            assert(register_names().contains(t@.drop_last()));
            return true;
        }
        proof {
            if register_names()[i as int] == t@.take(core_len as int) && core_len < t@.len() {
                assert(t@.take(core_len as int).len() == core_len);
            }
        }
        i = i + 1;
    }
    proof {
        if core_len < t@.len() {
            assert(t@.drop_last() =~= t@.take(core_len as int));
        }
    }
    false
}

/// The view of a vector of token vectors.
pub(crate) proof fn lemma_views_index(v: Seq<Vec<char>>, i: int)
    requires
        0 <= i < v.len(),
    ensures
        views(v)[i] == v[i]@,
{
}

impl AsmEntry {
    /// An entry with every field empty.
    pub fn blank() -> (e: AsmEntry)
        ensures
            e@ == blank_entry(),
    {
        AsmEntry { name: None, label: false, bss: false, byte: None, byte_as_str: None, word: None }
    }

    /// Whether `from_str` accepts `source` (what its `requires` asks).
    pub fn line_is_parsable(source: &str) -> (b: bool)
        ensures
            b == asm_line_ok(source@),
    {
        let chars = chars_of(source);
        let t = split_whitespace(chars.as_slice());
        let ghost tv = split_ws(source@);
        assert(views(t@) == tv);
        if t.len() < 1 {
            return false;
        }
        proof { lemma_views_index(t@, 0); }
        if has_prefix(t[0].as_slice(), local_pat().as_slice()) {
            t.len() != 2
        } else if has_infix(t[0].as_slice(), byte_pat().as_slice()) {
            if t.len() < 2 {
                return false;
            }
            let mut bytes: Vec<u16> = Vec::new();
            let mut i: usize = 1;
            while i < t.len()
                invariant
                    1 <= i <= t@.len(),
                    views(t@) == tv,
                    tv == split_ws(source@),
                    tv.len() >= 2,
                    !starts_with(tv[0], pat_local()),
                    contains(tv[0], pat_byte()),
                    bytes@.len() == i - 1,
                    forall|k: int| 1 <= k < i ==> (#[trigger] byte_operand(tv[k])) is Some,
                    bytes@ == byte_values(tv.skip(1).take(i - 1)),
                decreases t@.len() - i,
            {
                proof { lemma_views_index(t@, i as int); }
                match byte_operand_value(t[i].as_slice()) {
                    Some(b) => {
                        bytes.push(b);
                        assert(bytes@ =~= byte_values(tv.skip(1).take(i as int)));
                    },
                    None => {
                        assert(byte_operand(tv[i as int]) is None);
                        assert(!(forall|k: int| 1 <= k < tv.len() ==> (#[trigger] byte_operand(tv[k])) is Some));
                        return false;
                    },
                }
                i = i + 1;
            }
            assert(tv.skip(1).take(t@.len() - 1) =~= tv.skip(1));
            from_utf16(bytes.as_slice()).is_some()
        } else if has_infix(t[0].as_slice(), word_pat().as_slice()) {
            t.len() >= 2
        } else if has_prefix(t[0].as_slice(), branch_pat().as_slice()) && t.len() < 2 {
            false
        } else if has_prefix(t[0].as_slice(), branch_pat().as_slice()) && {
            proof { lemma_views_index(t@, 1); }
            !has_prefix(t[1].as_slice(), local_pat().as_slice())
        } {
            true
        } else if t.len() == 3 && {
            proof { lemma_views_index(t@, 1); }
            has_infix(t[1].as_slice(), space_pat().as_slice())
        } {
            has_suffix(t[0].as_slice(), colon_pat().as_slice())
        } else if has_suffix(t[0].as_slice(), colon_pat().as_slice()) {
            let name = slice_range(t[0].as_slice(), 0, t[0].len() - 1);
            assert(name@ =~= without_suffix(tv[0], pat_colon()));
            !has_infix(name.as_slice(), local_pat().as_slice())
        } else {
            true
        }
    }

    /// Parses one line of a listing (`from_str`). `None` for lines that
    /// define nothing: bare local labels, local labels with three operands,
    /// branches to registers, and lines that match no form.
    pub fn from_str(source: &str) -> (r: Option<AsmEntry>)
        requires
            asm_line_ok(source@),
        ensures
            r matches Some(e) ==> asm_parse(source@) == Some(e@),
            r is None ==> asm_parse(source@) is None,
    {
        let chars = chars_of(source);
        let t = split_whitespace(chars.as_slice());
        let ghost tv = split_ws(source@);
        assert(views(t@) == tv);
        proof { lemma_views_index(t@, 0); }
        if has_prefix(t[0].as_slice(), local_pat().as_slice()) {
            if t.len() == 1 || t.len() == 4 {
                return None;
            }
            proof { lemma_views_index(t@, 2); }
            let mut e = AsmEntry::blank();
            e.label = true;
            e.word = Some(string_of(t[2].as_slice()));
            return Some(e);
        } else if has_infix(t[0].as_slice(), byte_pat().as_slice()) {
            let mut bytes: Vec<u16> = Vec::new();
            let mut i: usize = 1;
            while i < t.len()
                invariant
                    1 <= i <= t@.len(),
                    views(t@) == tv,
                    tv == split_ws(source@),
                    asm_line_ok(source@),
                    tv.len() >= 2,
                    !starts_with(tv[0], pat_local()),
                    contains(tv[0], pat_byte()),
                    bytes@.len() == i - 1,
                    bytes@ == byte_values(tv.skip(1).take(i - 1)),
                decreases t@.len() - i,
            {
                proof { lemma_views_index(t@, i as int); }
                assert(byte_operand(tv[i as int]) is Some);
                match byte_operand_value(t[i].as_slice()) {
                    Some(b) => {
                        bytes.push(b);
                        assert(bytes@ =~= byte_values(tv.skip(1).take(i as int)));
                    },
                    None => {
                        assert(false);
                    },
                }
                i = i + 1;
            }
            assert(tv.skip(1).take(t@.len() - 1) =~= tv.skip(1));
            let text = match from_utf16(bytes.as_slice()) {
                Some(s) => s,
                None => {
                    assert(false);
                    String::new()
                },
            };
            let mut e = AsmEntry::blank();
            e.byte = Some(bytes);
            e.byte_as_str = Some(text);
            return Some(e);
        } else if has_infix(t[0].as_slice(), word_pat().as_slice()) {
            proof { lemma_views_index(t@, 1); }
            let mut e = AsmEntry::blank();
            e.word = Some(string_of(t[1].as_slice()));
            return Some(e);
        } else if has_prefix(t[0].as_slice(), branch_pat().as_slice()) && {
            proof { lemma_views_index(t@, 1); }
            !has_prefix(t[1].as_slice(), local_pat().as_slice())
        } {
            if register_operand(t[1].as_slice()) {
                return None;
            }
            let mut e = AsmEntry::blank();
            e.label = true;
            e.word = Some(string_of(t[1].as_slice()));
            return Some(e);
        } else if t.len() == 3 && {
            proof { lemma_views_index(t@, 1); }
            has_infix(t[1].as_slice(), space_pat().as_slice())
        } {
            let name = slice_range(t[0].as_slice(), 0, t[0].len() - 1);
            assert(name@ =~= without_suffix(tv[0], pat_colon()));
            let mut e = AsmEntry::blank();
            e.name = Some(string_of(name.as_slice()));
            return Some(e);
        } else if has_suffix(t[0].as_slice(), colon_pat().as_slice()) {
            let name = slice_range(t[0].as_slice(), 0, t[0].len() - 1);
            assert(name@ =~= without_suffix(tv[0], pat_colon()));
            let mut e = AsmEntry::blank();
            e.name = Some(string_of(name.as_slice()));
            return Some(e);
        } else {
            return None;
        }
    }

    /// The text of the `.byte` data, or the empty string.
    pub fn byte_as_str(&self) -> (s: String)
        ensures
            s@ == match self.byte_as_str {
                Some(t) => t@,
                None => Seq::<char>::empty(),
            },
    {
        match &self.byte_as_str {
            Some(t) => t.clone(),
            None => String::new(),
        }
    }

    /// The `.byte` data, or nothing.
    pub fn byte(&self) -> (v: Vec<u16>)
        ensures
            v@ == match self.byte {
                Some(b) => b@,
                None => Seq::<u16>::empty(),
            },
    {
        match &self.byte {
            Some(b) => b.clone(),
            None => Vec::new(),
        }
    }

    /// The word operand as a [`GraphNodeWord`].
    pub fn word_as_graph_node_word(&self) -> (w: Option<GraphNodeWord>)
        requires
            self.word matches Some(t) ==> word_from_text(t@) is Some,
        ensures
            match self.word {
                Some(t) => w matches Some(x) && Some(x@) == word_from_text(t@),
                None => w is None,
            },
    {
        match &self.word {
            Some(t) => Some(GraphNodeWord::from_string(t.clone())),
            None => None,
        }
    }

    /// The `Display` text.
    pub fn to_display(&self) -> (s: String)
        ensures
            s@ == entry_text(self@.name, self.label, self@.byte, self@.byte_as_str),
    {
        entry_text_string(&self.name, self.label, &self.byte, &self.byte_as_str)
    }

    /// A copy of this entry.
    pub fn duplicate(&self) -> (e: AsmEntry)
        ensures
            e@ == self@,
    {
        AsmEntry {
            name: match &self.name {
                Some(n) => Some(n.clone()),
                None => None,
            },
            label: self.label,
            bss: self.bss,
            byte: match &self.byte {
                Some(b) => Some(b.clone()),
                None => None,
            },
            byte_as_str: match &self.byte_as_str {
                Some(t) => Some(t.clone()),
                None => None,
            },
            word: match &self.word {
                Some(t) => Some(t.clone()),
                None => None,
            },
        }
    }
}


/// The lines that the parser reads: definitions (`:`), `.word`, `.byte`,
/// `.space`, and lines that begin with `b` after white space.
pub open spec fn line_selected(l: Seq<char>) -> bool {
    ||| contains(l, pat_colon())
    ||| contains(l, pat_word())
    ||| contains(l, pat_byte())
    ||| contains(l, pat_space())
    ||| starts_with(trim_start(l), pat_branch())
}

/// A listing on which the parser returns: every selected line parses.
pub open spec fn listing_ok(src: Seq<char>) -> bool {
    forall|i: int|
        0 <= i < split_lines(src).len() && line_selected(#[trigger] split_lines(src)[i])
            ==> asm_line_ok(split_lines(src)[i])
}

/// The entries of a sequence of lines, in order.
pub open spec fn parse_lines(ls: Seq<Seq<char>>) -> Seq<AsmEntryView>
    decreases ls.len(),
{
    if ls.len() == 0 {
        seq![]
    } else {
        let rest = parse_lines(ls.drop_last());
        let l = ls.last();
        if line_selected(l) {
            match asm_parse(l) {
                Some(e) => rest.push(e),
                None => rest,
            }
        } else {
            rest
        }
    }
}

/// The views of a sequence of entries.
pub open spec fn entry_views(v: Seq<AsmEntry>) -> Seq<AsmEntryView> {
    v.map_values(|e: AsmEntry| e@)
}

/// Simple vector collection for [`AsmEntry`].
pub struct AsmEntries(pub Vec<AsmEntry>);

impl View for AsmEntries {
    type V = Seq<AsmEntryView>;

    open spec fn view(&self) -> Seq<AsmEntryView> {
        entry_views(self.0@)
    }
}

impl AsmEntries {
    /// The empty collection.
    pub fn new() -> (r: AsmEntries)
        ensures
            r@ == Seq::<AsmEntryView>::empty(),
    {
        let r = AsmEntries(Vec::new());
        assert(r@ =~= Seq::<AsmEntryView>::empty());
        r
    }

    /// Appends an entry.
    pub fn add(&mut self, x: AsmEntry)
        ensures
            final(self)@ == old(self)@.push(x@),
    {
        self.0.push(x);
        assert(self@ =~= old(self)@.push(x@));
    }

    /// The entries, in order (`into_iter`).
    pub fn into_vec(self) -> (v: Vec<AsmEntry>)
        ensures
            entry_views(v@) == self@,
    {
        self.0
    }
}

/// Whether a line is selected by the parser.
pub fn select_line(l: &[char]) -> (b: bool)
    ensures
        b == line_selected(l@),
{
    has_infix(l, colon_pat().as_slice()) || has_infix(l, word_pat().as_slice()) || has_infix(
        l,
        byte_pat().as_slice(),
    ) || has_infix(l, space_pat().as_slice()) || {
        let tr = trim_start_chars(l);
        has_prefix(tr.as_slice(), branch_pat().as_slice())
    }
}

/// Parses an assembly listing line by line into [`AsmEntries`].
pub struct AsmParser;

impl AsmParser {
    /// Whether `parse` accepts `source` (what its `requires` asks).
    pub fn listing_is_parsable(source: &str) -> (b: bool)
        ensures
            b == listing_ok(source@),
    {
        let chars = chars_of(source);
        let lines = lines_of(chars.as_slice());
        let ghost ls = split_lines(source@);
        let mut i: usize = 0;
        while i < lines.len()
            invariant
                views(lines@) == ls,
                ls == split_lines(source@),
                i <= lines@.len(),
                forall|k: int|
                    0 <= k < i && line_selected(#[trigger] ls[k]) ==> asm_line_ok(ls[k]),
            decreases lines@.len() - i,
        {
            proof { lemma_views_index(lines@, i as int); }
            if select_line(lines[i].as_slice()) {
                let text = string_of(lines[i].as_slice());
                if !AsmEntry::line_is_parsable(text.as_str()) {
                    return false;
                }
            }
            i = i + 1;
        }
        true
    }

    /// Parses a listing: the entries of its selected lines, in order.
    pub fn parse(source: &str) -> (r: AsmEntries)
        requires
            listing_ok(source@),
        ensures
            r@ == parse_lines(split_lines(source@)),
    {
        let chars = chars_of(source);
        let lines = lines_of(chars.as_slice());
        let ghost ls = split_lines(source@);
        let mut defs = AsmEntries::new();
        let mut i: usize = 0;
        while i < lines.len()
            invariant
                views(lines@) == ls,
                ls == split_lines(source@),
                listing_ok(source@),
                i <= lines@.len(),
                defs@ == parse_lines(ls.take(i as int)),
            decreases lines@.len() - i,
        {
            proof {
                lemma_views_index(lines@, i as int);
                assert(ls.take(i + 1).drop_last() =~= ls.take(i as int));
            }
            if select_line(lines[i].as_slice()) {
                let text = string_of(lines[i].as_slice());
                assert(asm_line_ok(ls[i as int]));
                match AsmEntry::from_str(text.as_str()) {
                    Some(e) => defs.add(e),
                    None => {},
                }
            }
            i = i + 1;
        }
        assert(ls.take(lines@.len() as int) =~= ls);
        defs
    }
}

/// The registers a branch can go through: `r0` to `r11`, `lr`, `ip` and `pc`.
pub open spec fn is_core_register(s: Seq<char>) -> bool {
    ||| s == seq!['l', 'r']
    ||| s == seq!['i', 'p']
    ||| s == seq!['p', 'c']
    ||| (s.len() == 2 && s[0] == 'r' && '0' <= s[1] && s[1] <= '9')
    ||| (s.len() == 3 && s[0] == 'r' && s[1] == '1' && (s[2] == '0' || s[2] == '1'))
}

proof fn lemma_register_names_are_core(x: Seq<char>)
    ensures
        register_names().contains(x) == is_core_register(x),
{
    let r = register_names();
    assert forall|i: int| 0 <= i < 15 implies is_core_register(#[trigger] r[i]) by {
        if i == 0 { assert(r[0][1] == '0'); }
        else if i == 1 { assert(r[1][1] == '1'); }
        else if i == 2 { assert(r[2][1] == '2'); }
        else if i == 3 { assert(r[3][1] == '3'); }
        else if i == 4 { assert(r[4][1] == '4'); }
        else if i == 5 { assert(r[5][1] == '5'); }
        else if i == 6 { assert(r[6][1] == '6'); }
        else if i == 7 { assert(r[7][1] == '7'); }
        else if i == 8 { assert(r[8][1] == '8'); }
        else if i == 9 { assert(r[9][1] == '9'); }
        else if i == 10 { assert(r[10][2] == '0'); }
        else if i == 11 { assert(r[11][2] == '1'); }
        else if i == 12 { assert(r[12] == seq!['l', 'r']); }
        else if i == 13 { assert(r[13] == seq!['i', 'p']); }
        else { assert(r[14] == seq!['p', 'c']); }
    }
    if is_core_register(x) {
        let k: int = if x == seq!['l', 'r'] {
            12
        } else if x == seq!['i', 'p'] {
            13
        } else if x == seq!['p', 'c'] {
            14
        } else if x.len() == 3 {
            if x[2] == '0' { 10 } else { 11 }
        } else if x[1] == '0' { 0 }
        else if x[1] == '1' { 1 }
        else if x[1] == '2' { 2 }
        else if x[1] == '3' { 3 }
        else if x[1] == '4' { 4 }
        else if x[1] == '5' { 5 }
        else if x[1] == '6' { 6 }
        else if x[1] == '7' { 7 }
        else if x[1] == '8' { 8 }
        else { 9 };
        assert(r[k] =~= x);
    }
}

/// A branch through a register defines nothing: for a line whose first
/// token is a branch (`b...`) and whose operand is not a local label, the
/// line is accepted, and it gives no entry exactly when the operand is one of
/// `r0`..`r11`, `lr`, `ip`, `pc` (with or without one trailing comma);
/// any other operand gives a label entry whose word is the operand.
pub proof fn lemma_branch_to_register(line: Seq<char>)
    requires
        split_ws(line).len() >= 2,
        starts_with(split_ws(line)[0], pat_branch()),
        !contains(split_ws(line)[0], pat_byte()),
        !contains(split_ws(line)[0], pat_word()),
        !starts_with(split_ws(line)[1], pat_local()),
    ensures
        asm_line_ok(line),
        ({
            let op = split_ws(line)[1];
            let through_register = is_core_register(op) || (op.len() > 0 && op.last() == ','
                && is_core_register(op.drop_last()));
            &&& asm_parse(line) is None <==> through_register
            &&& !through_register ==> asm_parse(line) == Some(
                AsmEntryView { label: true, word: Some(op), ..blank_entry() },
            )
        }),
{
    let t = split_ws(line);
    assert(t[0].take(1)[0] == t[0][0]);
    if starts_with(t[0], pat_local()) {
        assert(t[0].take(3)[0] == t[0][0]);
    }
    lemma_register_names_are_core(t[1]);
    if t[1].len() > 0 {
        lemma_register_names_are_core(t[1].drop_last());
    }
}

} // verus!
