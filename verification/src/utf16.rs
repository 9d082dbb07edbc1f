//! UTF-16 decoding (`String::from_utf16`).

use vstd::prelude::*;
use crate::text::string_of;

verus! {

/// `u` is a Unicode scalar value.
pub open spec fn is_scalar(u: nat) -> bool {
    u < 0xD800 || (0xE000 <= u && u <= 0x10FFFF)
}

/// `r` with `o` in front, or `None` where `r` is `None`.
pub open spec fn prepend(o: Seq<char>, r: Option<Seq<char>>) -> Option<Seq<char>> {
    match r {
        Some(t) => Some(o + t),
        None => None,
    }
}

/// The characters that a UTF-16 code unit sequence encodes, or `None` where it
/// holds an unpaired surrogate.
pub open spec fn utf16_decode(v: Seq<u16>) -> Option<Seq<char>>
    decreases v.len(),
{
    if v.len() == 0 {
        Some(seq![])
    } else {
        let w = v[0] as nat;
        if w < 0xD800 || w > 0xDFFF {
            prepend(seq![w as char], utf16_decode(v.drop_first()))
        } else if w <= 0xDBFF && v.len() >= 2 && 0xDC00 <= v[1] && v[1] <= 0xDFFF {
            let cp = 0x10000 + (w - 0xD800) * 0x400 + (v[1] - 0xDC00);
            prepend(seq![cp as char], utf16_decode(v.skip(2)))
        } else {
            None
        }
    }
}

/// The character with code `u`, where `u` is a scalar value.
/// Trusted: calls `char::from_u32`, which std documents as returning the
/// char with that code exactly when `u` is a Unicode scalar value.
#[verifier::external_body]
fn char_from_u32(u: u32) -> (r: Option<char>)
    ensures
        r is Some <==> is_scalar(u as nat),
        r matches Some(c) ==> c == u as char,
{
    char::from_u32(u)
}

proof fn lemma_prepend_assoc(a: Seq<char>, b: Seq<char>, r: Option<Seq<char>>)
    ensures
        prepend(a, prepend(b, r)) == prepend(a + b, r),
{
    if let Some(t) = r {
        assert(a + (b + t) =~= (a + b) + t);
    }
}

/// `String::from_utf16`: the decoded string, or `None` on an unpaired
/// surrogate.
pub fn from_utf16(v: &[u16]) -> (r: Option<String>)
    ensures
        r matches Some(s) ==> utf16_decode(v@) == Some(s@),
        r is None ==> utf16_decode(v@) is None,
{
    let mut out: Vec<char> = Vec::new();
    let mut i: usize = 0;
    assert(v@.skip(0) =~= v@);
    assert(out@ + Seq::<char>::empty() =~= Seq::<char>::empty());
    while i < v.len()
        invariant
            i <= v@.len(),
            utf16_decode(v@) == prepend(out@, utf16_decode(v@.skip(i as int))),
        decreases v@.len() - i,
    {
        let w = v[i];
        let ghost rest = v@.skip(i as int);
        if w < 0xD800 || w > 0xDFFF {
            let c = char_from_u32(w as u32);
            let c = match c {
                Some(c) => c,
                None => {
                    return None;
                },
            };
            proof {
                assert(rest.drop_first() =~= v@.skip(i + 1));
                lemma_prepend_assoc(out@, seq![c], utf16_decode(v@.skip(i + 1)));
            }
            out.push(c);
            i = i + 1;
        } else if w <= 0xDBFF && i + 1 < v.len() && 0xDC00 <= v[i + 1] && v[i + 1] <= 0xDFFF {
            let lo = v[i + 1];
            let cp: u32 = 0x10000 + ((w as u32) - 0xD800) * 0x400 + ((lo as u32) - 0xDC00);
            let c = char_from_u32(cp);
            let c = match c {
                Some(c) => c,
                None => {
                    return None;
                },
            };
            proof {
                assert(rest.skip(2) =~= v@.skip(i + 2));
                lemma_prepend_assoc(out@, seq![c], utf16_decode(v@.skip(i + 2)));
            }
            out.push(c);
            i = i + 2;
        } else {
            return None;
        }
    }
    assert(v@.skip(v@.len() as int) =~= Seq::<u16>::empty());
    assert(out@ + Seq::<char>::empty() =~= out@);
    Some(string_of(out.as_slice()))
}

} // verus!
