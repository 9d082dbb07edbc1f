//! Parsing and printing of unsigned integers in decimal and hexadecimal.

use vstd::prelude::*;
use crate::text::{has_prefix, slice_range, starts_with, without_prefix};

verus! {

/// The value of `c` as a hexadecimal digit (either case), if it is one.
pub open spec fn hex_digit_val(c: char) -> Option<nat> {
    if '0' <= c && c <= '9' {
        Some((c as nat - '0' as nat) as nat)
    } else if 'a' <= c && c <= 'f' {
        Some((c as nat - 'a' as nat + 10) as nat)
    } else if 'A' <= c && c <= 'F' {
        Some((c as nat - 'A' as nat + 10) as nat)
    } else {
        None
    }
}

/// `c` is a digit in base `radix`.
pub open spec fn is_digit_in(c: char, radix: nat) -> bool {
    hex_digit_val(c) matches Some(d) && d < radix
}

/// The value of a string of digits in base `radix`.
pub open spec fn digits_value(s: Seq<char>, radix: nat) -> nat
    decreases s.len(),
{
    if s.len() == 0 {
        0
    } else {
        digits_value(s.drop_last(), radix) * radix + hex_digit_val(s.last()).unwrap_or(0)
    }
}

/// The digits of an unsigned number: the text after an optional `+`.
pub open spec fn unsigned_digits(s: Seq<char>) -> Seq<char> {
    if s.len() > 0 && s[0] == '+' {
        s.drop_first()
    } else {
        s
    }
}

/// `from_str_radix` on an unsigned type, before the range check: an optional
/// `+`, then one or more digits of the radix.
pub open spec fn unsigned_parse(s: Seq<char>, radix: nat) -> Option<nat> {
    let d = unsigned_digits(s);
    if d.len() > 0 && (forall|i: int| 0 <= i < d.len() ==> is_digit_in(#[trigger] d[i], radix)) {
        Some(digits_value(d, radix))
    } else {
        None
    }
}

/// `from_str_radix` for an unsigned type whose largest value is `max`.
pub open spec fn parse_bounded(s: Seq<char>, radix: nat, max: nat) -> Option<nat> {
    match unsigned_parse(s, radix) {
        Some(v) => if v <= max {
            Some(v)
        } else {
            None
        },
        None => None,
    }
}

/// The prefix `0x`.
pub open spec fn hex_prefix() -> Seq<char> {
    seq!['0', 'x']
}

/// The number that `parse_u16` reads from `s`: hexadecimal after a `0x`
/// prefix, decimal otherwise.
pub open spec fn parse_u16_spec(s: Seq<char>) -> Option<nat> {
    if starts_with(s, hex_prefix()) {
        parse_bounded(without_prefix(s, hex_prefix()), 16, 0xffff)
    } else {
        parse_bounded(s, 10, 0xffff)
    }
}

/// The lower-case hexadecimal digit for `d < 16`.
pub open spec fn hex_char(d: nat) -> char {
    if d < 10 {
        (('0' as nat) + d) as char
    } else {
        (('a' as nat) + d - 10) as char
    }
}

/// The lower-case hexadecimal digits of `n`, without leading zeros (`{:x}`).
pub open spec fn hex_digits(n: nat) -> Seq<char>
    decreases n,
{
    if n < 16 {
        seq![hex_char(n)]
    } else {
        hex_digits(n / 16).push(hex_char(n % 16))
    }
}

proof fn lemma_digits_value_grows(s: Seq<char>, k: int, radix: nat)
    requires
        0 <= k <= s.len(),
        radix >= 1,
    ensures
        digits_value(s.take(k), radix) <= digits_value(s, radix),
    decreases s.len() - k,
{
    if k < s.len() {
        lemma_digits_value_grows(s, k + 1, radix);
        let t = s.take(k + 1);
        assert(t.drop_last() =~= s.take(k));
        let a = digits_value(s.take(k), radix);
        assert(a * radix >= a) by (nonlinear_arith)
            requires
                radix >= 1,
        ;
    } else {
        assert(s.take(k) =~= s);
    }
}

proof fn lemma_hex_char_val(d: nat)
    requires
        d < 16,
    ensures
        hex_digit_val(hex_char(d)) == Some(d),
        hex_char(d) != '+',
{
}

/// The hexadecimal digits of `n` read back give `n`.
pub proof fn lemma_hex_digits_value(n: nat)
    ensures
        digits_value(hex_digits(n), 16) == n,
        hex_digits(n).len() > 0,
        forall|i: int|
            0 <= i < hex_digits(n).len() ==> is_digit_in(#[trigger] hex_digits(n)[i], 16),
        hex_digits(n)[0] != '+',
    decreases n,
{
    if n < 16 {
        lemma_hex_char_val(n);
        assert(hex_digits(n).drop_last() =~= Seq::<char>::empty());
        assert(digits_value(Seq::<char>::empty(), 16) == 0);
        assert(digits_value(hex_digits(n), 16) == 0 * 16 + n);
    } else {
        lemma_hex_char_val(n % 16);
        lemma_hex_digits_value(n / 16);
        let h = hex_digits(n);
        assert(h.drop_last() =~= hex_digits(n / 16));
        assert(h.last() == hex_char(n % 16));
        assert(digits_value(h, 16) == digits_value(hex_digits(n / 16), 16) * 16 + n % 16);
        assert((n / 16) * 16 == 16 * (n / 16)) by (nonlinear_arith);
        assert(n == 16 * (n / 16) + n % 16) by {
            vstd::arithmetic::div_mod::lemma_fundamental_div_mod(n as int, 16);
        }
        assert forall|i: int| 0 <= i < h.len() implies is_digit_in(#[trigger] h[i], 16) by {
            if i < h.len() - 1 {
                assert(h[i] == hex_digits(n / 16)[i]);
            }
        }
    }
}

/// `parse_u16` reads back the `0x` form of every 16-bit value.
pub proof fn lemma_parse_u16_reads_hex(n: nat)
    requires
        n <= 0xffff,
    ensures
        parse_u16_spec(hex_prefix() + hex_digits(n)) == Some(n),
{
    let s = hex_prefix() + hex_digits(n);
    lemma_hex_digits_value(n);
    assert(s.take(2) =~= hex_prefix());
    assert(without_prefix(s, hex_prefix()) =~= hex_digits(n));
    assert(unsigned_digits(hex_digits(n)) == hex_digits(n));
}

/// Parses an unsigned number in base `radix`; `None` where `from_str_radix`
/// fails for a type whose largest value is `max`.
pub fn parse_unsigned(s: &[char], radix: u32, max: u32) -> (r: Option<u32>)
    requires
        2 <= radix <= 16,
    ensures
        r matches Some(v) ==> parse_bounded(s@, radix as nat, max as nat) == Some(v as nat),
        r is None ==> parse_bounded(s@, radix as nat, max as nat) is None,
{
    let start: usize = if s.len() > 0 && s[0] == '+' {
        1
    } else {
        0
    };
    let ghost d = unsigned_digits(s@);
    assert(d =~= s@.skip(start as int));
    if start >= s.len() {
        return None;
    }
    let mut acc: u64 = 0;
    let mut i: usize = start;
    while i < s.len()
        invariant
            start <= i <= s@.len(),
            d == s@.skip(start as int),
            d == unsigned_digits(s@),
            2 <= radix <= 16,
            acc <= max,
            acc == digits_value(d.take(i - start), radix as nat),
            forall|k: int| 0 <= k < i - start ==> is_digit_in(#[trigger] d[k], radix as nat),
        decreases s@.len() - i,
    {
        let c = s[i];
        let dv: u32 = if '0' <= c && c <= '9' {
            (c as u32) - ('0' as u32)
        } else if 'a' <= c && c <= 'f' {
            (c as u32) - ('a' as u32) + 10
        } else if 'A' <= c && c <= 'F' {
            (c as u32) - ('A' as u32) + 10
        } else {
            16
        };
        assert(d[i - start] == c);
        if dv >= radix {
            assert(!is_digit_in(d[i - start], radix as nat));
            assert(!(forall|k: int| 0 <= k < d.len() ==> is_digit_in(#[trigger] d[k], radix as nat)));
            assert(unsigned_parse(s@, radix as nat) is None);
            return None;
        }
        assert(hex_digit_val(c) == Some(dv as nat));
        assert(acc * (radix as u64) <= 0xffff_ffffu64 * 16) by (nonlinear_arith)
            requires
                acc <= 0xffff_ffffu64,
                radix <= 16,
        ;
        let next: u64 = acc * (radix as u64) + (dv as u64);
        proof {
            assert(d.take(i - start + 1).drop_last() =~= d.take(i - start));
        }
        assert(next == digits_value(d.take(i - start + 1), radix as nat));
        if next > max as u64 {
            proof {
                lemma_digits_value_grows(d, i - start + 1, radix as nat);
            }
            assert(digits_value(d, radix as nat) > max);
            assert(unsigned_parse(s@, radix as nat) is None || unsigned_parse(s@, radix as nat) == Some(digits_value(d, radix as nat)));
            return None;
        }
        acc = next;
        i = i + 1;
    }
    assert(d.take(s@.len() - start) =~= d);
    Some(acc as u32)
}

/// `parse_u16`: a `0x`-prefixed hexadecimal or a decimal number that fits in
/// 16 bits.
pub fn parse_u16(s: &[char]) -> (r: Option<u16>)
    ensures
        r matches Some(v) ==> parse_u16_spec(s@) == Some(v as nat),
        r is None ==> parse_u16_spec(s@) is None,
{
    let p = vec!['0', 'x'];
    assert(p@ =~= hex_prefix());
    let r = if has_prefix(s, p.as_slice()) {
        let rest = slice_range(s, 2, s.len());
        assert(rest@ =~= without_prefix(s@, hex_prefix()));
        parse_unsigned(rest.as_slice(), 16, 0xffff)
    } else {
        parse_unsigned(s, 10, 0xffff)
    };
    match r {
        Some(v) => Some(v as u16),
        None => None,
    }
}

/// Lower-case hexadecimal digit for `d < 16`.
pub fn hex_char_of(d: u64) -> (c: char)
    requires
        d < 16,
    ensures
        c == hex_char(d as nat),
{
    let table = vec!['0', '1', '2', '3', '4', '5', '6', '7', '8', '9', 'a', 'b', 'c', 'd', 'e', 'f'];
    let c = table[d as usize];
    proof {
        assert(table@ =~= seq![
            '0', '1', '2', '3', '4', '5', '6', '7', '8', '9', 'a', 'b', 'c', 'd', 'e', 'f',
        ]);
        if d < 10 {
            assert(c as nat == '0' as nat + d);
        } else {
            assert(c as nat == 'a' as nat + d - 10);
        }
    }
    c
}

/// The lower-case hexadecimal digits of `n` (`{:x}`).
pub fn hex_chars(n: u64) -> (v: Vec<char>)
    ensures
        v@ == hex_digits(n as nat),
    decreases n,
{
    if n < 16 {
        let mut v = Vec::new();
        v.push(hex_char_of(n));
        assert(v@ =~= hex_digits(n as nat));
        v
    } else {
        let mut v = hex_chars(n / 16);
        v.push(hex_char_of(n % 16));
        v
    }
}

} // verus!
