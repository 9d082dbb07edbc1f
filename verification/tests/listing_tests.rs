use ds_decomp::listing::{AsmEntries, AsmEntry, AsmParser};
use ds_decomp::num::{hex_chars, parse_u16};
use ds_decomp::text::{chars_of, lines_of, split_whitespace, string_of};
use ds_decomp::utf16::from_utf16;
use ds_decomp::word::{GraphNodeWord, WordOrder};

fn chars(s: &str) -> Vec<char> {
    s.chars().collect()
}

fn words(v: &[Vec<char>]) -> Vec<String> {
    v.iter().map(|t| t.iter().collect()).collect()
}

#[test]
fn split_whitespace_drops_runs_of_blanks() {
    let t = split_whitespace(&chars("  .byte 0x41,\t0x42  \n"));
    assert_eq!(words(&t), vec![".byte", "0x41,", "0x42"]);
    assert!(split_whitespace(&chars(" \t ")).is_empty());
    // U+3000 is white space too.
    let t = split_whitespace(&chars("a\u{3000}b"));
    assert_eq!(words(&t), vec!["a", "b"]);
}

#[test]
fn lines_of_matches_str_lines() {
    for s in ["a\nb", "a\r\nb\n", "", "\n", "a\r", "x\n\ny\r\n\r\n", "\r\n"] {
        let ours = words(&lines_of(&chars(s)));
        let std: Vec<String> = s.lines().map(|l| l.to_string()).collect();
        assert_eq!(ours, std, "lines of {:?}", s);
    }
}

#[test]
fn chars_and_strings_round_trip() {
    let v = chars_of("héllo");
    assert_eq!(v, vec!['h', 'é', 'l', 'l', 'o']);
    assert_eq!(string_of(&v), "héllo");
}

#[test]
fn parse_u16_reads_hex_and_decimal() {
    assert_eq!(parse_u16(&chars("0x1A")), Some(26));
    assert_eq!(parse_u16(&chars("0xff")), Some(255));
    assert_eq!(parse_u16(&chars("12")), Some(12));
    assert_eq!(parse_u16(&chars("+5")), Some(5));
    assert_eq!(parse_u16(&chars("65535")), Some(65535));
    assert_eq!(parse_u16(&chars("65536")), None);
    assert_eq!(parse_u16(&chars("0x10000")), None);
    assert_eq!(parse_u16(&chars("0x")), None);
    assert_eq!(parse_u16(&chars("")), None);
    assert_eq!(parse_u16(&chars("+")), None);
    assert_eq!(parse_u16(&chars("-1")), None);
    assert_eq!(parse_u16(&chars("1a")), None);
    assert_eq!(parse_u16(&chars("0X10")), None);
}

#[test]
fn hex_chars_are_lower_case_without_prefix() {
    assert_eq!(hex_chars(0).iter().collect::<String>(), "0");
    assert_eq!(hex_chars(0xbeef).iter().collect::<String>(), "beef");
    assert_eq!(hex_chars(u32::MAX as u64).iter().collect::<String>(), format!("{:x}", u32::MAX));
}

#[test]
fn from_utf16_decodes_pairs_and_refuses_lone_surrogates() {
    assert_eq!(from_utf16(&[0x48, 0x69]), Some("Hi".to_string()));
    assert_eq!(from_utf16(&[0xD83D, 0xDE00]), Some("\u{1F600}".to_string()));
    assert_eq!(from_utf16(&[0xD83D]), None);
    assert_eq!(from_utf16(&[0xDE00, 0x41]), None);
    assert_eq!(from_utf16(&[]), Some(String::new()));
    let sample: Vec<u16> = "añ€😀".encode_utf16().collect();
    assert_eq!(from_utf16(&sample), String::from_utf16(&sample).ok());
}

#[test]
fn word_from_string_reads_addresses_and_symbols() {
    let w = GraphNodeWord::from_string("0x0200abcd".to_string());
    assert!(matches!(w, GraphNodeWord::Address(0x0200abcd)));
    let w = GraphNodeWord::from_string("0xFF".to_string());
    assert!(matches!(w, GraphNodeWord::Address(255)));
    let w = GraphNodeWord::from_string("func_0200".to_string());
    assert!(matches!(w, GraphNodeWord::Symbol(ref s) if s == "func_0200"));
    assert!(GraphNodeWord::text_is_word("0x12"));
    assert!(!GraphNodeWord::text_is_word("0xzz"));
    assert!(!GraphNodeWord::text_is_word("0x100000000"));
    assert!(GraphNodeWord::text_is_word("data_x"));
}

#[test]
fn word_text_is_hash_hex_or_symbol() {
    assert_eq!(GraphNodeWord::Address(0x2000000).to_text(), "0x2000000");
    assert_eq!(GraphNodeWord::Address(0).to_text(), "0x0");
    assert_eq!(GraphNodeWord::Symbol("abc".to_string()).to_text(), "abc");
    assert_eq!(GraphNodeWord::empty().to_text(), "");
}

#[test]
fn word_text_round_trip() {
    for w in [GraphNodeWord::Address(0x1234), GraphNodeWord::Symbol("sym".to_string())] {
        let back = GraphNodeWord::from_string(w.to_text());
        assert!(back.same(&w));
    }
}

#[test]
fn words_order_addresses_before_symbols() {
    let a = GraphNodeWord::Address(5);
    let b = GraphNodeWord::Address(7);
    let s = GraphNodeWord::Symbol("a".to_string());
    let t = GraphNodeWord::Symbol("ab".to_string());
    let u = GraphNodeWord::Symbol("b".to_string());
    assert!(matches!(a.compare(&b), WordOrder::Less));
    assert!(matches!(b.compare(&s), WordOrder::Less));
    assert!(matches!(s.compare(&t), WordOrder::Less));
    assert!(matches!(u.compare(&t), WordOrder::Greater));
    assert!(matches!(t.compare(&t.duplicate()), WordOrder::Same));
}

fn parse(line: &str) -> Option<AsmEntry> {
    assert!(AsmEntry::line_is_parsable(line), "{:?} should parse", line);
    AsmEntry::from_str(line)
}

#[test]
fn asm_entry_definition() {
    let e = parse("func_02000000:").unwrap();
    assert_eq!(e.name.as_deref(), Some("func_02000000"));
    assert!(!e.label);
    assert!(e.word.is_none());
}

#[test]
fn asm_entry_word_directive() {
    let e = parse("    .word data_0211ffe0").unwrap();
    assert_eq!(e.word.as_deref(), Some("data_0211ffe0"));
    assert!(e.name.is_none());
    assert!(!e.label);
}

#[test]
fn asm_entry_byte_directive() {
    let e = parse("    .byte 0x41, 0x42, 67").unwrap();
    assert_eq!(e.byte, Some(vec![0x41, 0x42, 67]));
    assert_eq!(e.byte_as_str.as_deref(), Some("ABC"));
    assert_eq!(e.byte(), vec![0x41, 0x42, 67]);
    assert_eq!(e.byte_as_str(), "ABC");
}

#[test]
fn asm_entry_local_label_with_word() {
    let e = parse(".L_02001234: .word func_02000000").unwrap();
    assert!(e.label);
    assert!(e.name.is_none());
    assert_eq!(e.word.as_deref(), Some("func_02000000"));
    assert!(parse(".L_02001234:").is_none());
    assert!(parse(".L_1: .word a b").is_none());
}

#[test]
fn asm_entry_branches() {
    let e = parse("    bl func_02001000").unwrap();
    assert!(e.label);
    assert_eq!(e.word.as_deref(), Some("func_02001000"));
    assert!(parse("    bx lr").is_none());
    assert!(parse("    blx r3").is_none());
    assert!(parse("    bx r10,").is_none());
    // a branch to a local label falls through to the other forms
    assert!(parse("    b .L_0200").is_none());
}

#[test]
fn asm_entry_space_and_other_lines() {
    let e = parse("data_02100000: .space 0x20").unwrap();
    assert_eq!(e.name.as_deref(), Some("data_02100000"));
    assert!(parse("    ldr r0, [r1]").is_none());
    assert!(parse("    mov r0, #0").is_none());
}

#[test]
fn asm_entry_refused_lines() {
    assert!(!AsmEntry::line_is_parsable(""));
    assert!(!AsmEntry::line_is_parsable(".L_1234: .word"));
    assert!(!AsmEntry::line_is_parsable("    .byte"));
    assert!(!AsmEntry::line_is_parsable("    .byte 1,2"));
    assert!(!AsmEntry::line_is_parsable("    .byte 0x100000"));
    assert!(!AsmEntry::line_is_parsable("    .byte 0xD800"));
    assert!(!AsmEntry::line_is_parsable("    .word"));
    assert!(!AsmEntry::line_is_parsable("b"));
    assert!(!AsmEntry::line_is_parsable("foo.L_x:"));
    assert!(!AsmEntry::line_is_parsable("foo .space 4"));
    assert!(!AsmEntry::line_is_parsable("b .L_x.space y"));
    assert!(AsmEntry::line_is_parsable("b .L_1 .space"));
}

#[test]
fn asm_entry_display_text() {
    let e = parse("    .byte 0x41, 0x2a").unwrap();
    assert_eq!(e.to_display(), "N/A\tLabel: false\nData:\t\t[41, 2a]\nAsString:\t\tA*\n");
    let e = parse("name:").unwrap();
    assert_eq!(e.to_display(), "name\tLabel:false\n");
    let e = parse("    bl target").unwrap();
    assert_eq!(e.to_display(), "N/A\tLabel: true\n");
}

#[test]
fn asm_parser_selects_and_parses_lines() {
    let src = "\
    .include \"macros.inc\"
func_02000000:
    push {r4, lr}
    bl func_02000100
    bx lr
    .word data_02100000
data_02100000:
    .byte 0x41, 0x42
";
    assert!(AsmParser::listing_is_parsable(src));
    let entries = AsmParser::parse(src).into_vec();
    let names: Vec<Option<String>> = entries.iter().map(|e| e.name.clone()).collect();
    assert_eq!(entries.len(), 5);
    assert_eq!(names[0].as_deref(), Some("func_02000000"));
    assert_eq!(entries[1].word.as_deref(), Some("func_02000100"));
    assert_eq!(entries[2].word.as_deref(), Some("data_02100000"));
    assert_eq!(names[3].as_deref(), Some("data_02100000"));
    assert_eq!(entries[4].byte_as_str.as_deref(), Some("AB"));
}

#[test]
fn asm_parser_refuses_a_panicking_listing() {
    assert!(!AsmParser::listing_is_parsable("ok:\n    .word\n"));
}

#[test]
fn asm_entries_collects_in_order() {
    let mut entries = AsmEntries::new();
    entries.add(AsmEntry::blank());
    let mut e = AsmEntry::blank();
    e.label = true;
    entries.add(e);
    let v = entries.into_vec();
    assert_eq!(v.len(), 2);
    assert!(!v[0].label && v[1].label);
}

#[test]
fn word_of_entry() {
    let e = parse("    .word 0x10").unwrap();
    assert!(matches!(e.word_as_graph_node_word(), Some(GraphNodeWord::Address(16))));
    let e = parse("x:").unwrap();
    assert!(e.word_as_graph_node_word().is_none());
}

#[test]
fn parse_u16_reads_back_every_hex_form() {
    for n in 0..=u16::MAX {
        let mut text = vec!['0', 'x'];
        text.extend(hex_chars(n as u64));
        assert_eq!(parse_u16(&text), Some(n));
    }
}

#[test]
fn address_words_read_back_their_text() {
    for a in [0u32, 1, 0xabc, 0x0200_0000, u32::MAX] {
        let w = GraphNodeWord::Address(a);
        assert!(matches!(GraphNodeWord::from_string(w.to_text()), GraphNodeWord::Address(b) if b == a));
    }
    // a symbol whose text begins with 0x does not come back as a symbol
    let s = GraphNodeWord::Symbol("0x10".to_string());
    assert!(matches!(GraphNodeWord::from_string(s.to_text()), GraphNodeWord::Address(16)));
}
