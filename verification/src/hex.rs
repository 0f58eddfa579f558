//! Hex text for raw keys: `decode` reads pairs of hex digits, `encode`
//! writes them lowercase.

use vstd::prelude::*;

use crate::text::{chars_of, string_of, strip_chars, trim_white};

verus! {

broadcast use vstd::string::group_string_axioms;

/// How many bytes UTF-8 takes for a character.
pub open spec fn utf8_width(c: char) -> nat {
    let u = c as u32;
    if u < 0x80 {
        1
    } else if u < 0x800 {
        2
    } else if u < 0x10000 {
        3
    } else {
        4
    }
}

/// How many bytes UTF-8 takes for a text (`str::len`).
pub open spec fn utf8_len(s: Seq<char>) -> nat
    decreases s.len(),
{
    if s.len() == 0 {
        0
    } else {
        utf8_width(s[0]) + utf8_len(s.drop_first())
    }
}

/// Every two-byte step through the text, from the start, lands on a
/// character boundary: the text is cut into pairs of one-byte characters
/// and single two-byte characters. (Slicing such a text two bytes at a time
/// never cuts a character.)
pub open spec fn pairs_aligned(t: Seq<char>) -> bool
    decreases t.len(),
{
    if t.len() == 0 {
        true
    } else if utf8_width(t[0]) == 1 {
        if t.len() == 1 {
            true
        } else if utf8_width(t[1]) == 1 {
            pairs_aligned(t.skip(2))
        } else {
            false
        }
    } else if utf8_width(t[0]) == 2 {
        pairs_aligned(t.drop_first())
    } else {
        false
    }
}

/// The value of a hex digit, either case.
pub open spec fn hex_digit(c: char) -> Option<u8> {
    let u = c as u32;
    if 0x30 <= u <= 0x39 {
        Some((u - 0x30) as u8)
    } else if 0x61 <= u <= 0x66 {
        Some((u - 0x61 + 10) as u8)
    } else if 0x41 <= u <= 0x46 {
        Some((u - 0x41 + 10) as u8)
    } else {
        None
    }
}

/// `u8::from_str_radix` on a two-character text: two hex digits, or a
/// `+` sign followed by one.
pub open spec fn pair_value(a: char, b: char) -> Option<u8> {
    if a == '+' {
        hex_digit(b)
    } else {
        match (hex_digit(a), hex_digit(b)) {
            (Some(x), Some(y)) => Some((16 * x + y) as u8),
            _ => None,
        }
    }
}

/// The bytes that the pairs of a text read as, or `None` when some pair is
/// no number (a two-byte character is never one).
pub open spec fn decode_pairs(t: Seq<char>) -> Option<Seq<u8>>
    decreases t.len(),
{
    if t.len() == 0 {
        Some(Seq::empty())
    } else if t.len() >= 2 && utf8_width(t[0]) == 1 && utf8_width(t[1]) == 1 {
        match (pair_value(t[0], t[1]), decode_pairs(t.skip(2))) {
            (Some(v), Some(rest)) => Some(seq![v] + rest),
            _ => None,
        }
    } else {
        None
    }
}

fn width_of(c: char) -> (w: usize)
    ensures
        w == utf8_width(c),
{
    let u = c as u32;
    if u < 0x80 {
        1
    } else if u < 0x800 {
        2
    } else if u < 0x10000 {
        3
    } else {
        4
    }
}

fn digit_value(c: char) -> (r: Option<u8>)
    ensures
        r == hex_digit(c),
{
    let u = c as u32;
    if 0x30 <= u && u <= 0x39 {
        Some((u - 0x30) as u8)
    } else if 0x61 <= u && u <= 0x66 {
        Some((u - 0x61 + 10) as u8)
    } else if 0x41 <= u && u <= 0x46 {
        Some((u - 0x41 + 10) as u8)
    } else {
        None
    }
}

fn pair_of(a: char, b: char) -> (r: Option<u8>)
    ensures
        r == pair_value(a, b),
{
    if a == '+' {
        digit_value(b)
    } else {
        match (digit_value(a), digit_value(b)) {
            (Some(x), Some(y)) => Some(16 * x + y),
            _ => None,
        }
    }
}

proof fn lemma_utf8_len_skip(t: Seq<char>, i: int)
    requires
        0 <= i < t.len(),
    ensures
        utf8_len(t.skip(i)) == utf8_width(t[i]) + utf8_len(t.skip(i + 1)),
{
    assert(t.skip(i).drop_first() =~= t.skip(i + 1));
}

/// `s.trim()` read as pairs of hex digits. On an odd number of bytes the
/// error is "odd length"; on a pair that is no hex number it is "invalid
/// digit found in string".
pub fn decode(s: &str) -> (r: Result<Vec<u8>, String>)
    requires
        utf8_len(trim_white(s@)) % 2 == 1 || pairs_aligned(trim_white(s@)),
    ensures
        ({
            let t = trim_white(s@);
            if utf8_len(t) % 2 == 1 {
                r matches Err(m) && m@ == "odd length"@
            } else {
                match decode_pairs(t) {
                    Some(b) => r matches Ok(v) && v@ == b,
                    None => r matches Err(m) && m@ == "invalid digit found in string"@,
                }
            }
        }),
{
    let cs = chars_of(s);
    let t = strip_chars(cs.as_slice(), true, ' ');
    let ghost tv = t@;
    let mut odd = false;
    let mut i: usize = 0;
    assert(tv.skip(0) =~= tv);
    while i < t.len()
        invariant
            tv == t@,
            i <= tv.len(),
            (utf8_len(tv) - utf8_len(tv.skip(i as int))) % 2 == (if odd {
                1int
            } else {
                0int
            }),
        decreases tv.len() - i,
    {
        proof {
            lemma_utf8_len_skip(tv, i as int);
        }
        if width_of(t[i]) % 2 == 1 {
            odd = !odd;
        }
        i = i + 1;
    }
    assert(tv.skip(i as int).len() == 0);
    if odd {
        return Err("odd length".to_string());
    }
    let mut out: Vec<u8> = Vec::new();
    let mut j: usize = 0;
    assert(tv.skip(0) =~= tv);
    while j < t.len()
        invariant
            tv == t@,
            tv == trim_white(s@),
            utf8_len(tv) % 2 == 0,
            j <= tv.len(),
            decode_pairs(tv) == match decode_pairs(tv.skip(j as int)) {
                Some(rest) => Some(out@ + rest),
                None => None::<Seq<u8>>,
            },
        decreases tv.len() - j,
    {
        let ghost rest = tv.skip(j as int);
        if j + 1 < t.len() && width_of(t[j]) == 1 && width_of(t[j + 1]) == 1 {
            assert(rest[0] == tv[j as int] && rest[1] == tv[j + 1]);
            assert(rest.skip(2) =~= tv.skip(j + 2));
            match pair_of(t[j], t[j + 1]) {
                Some(v) => {
                    let ghost before = out@;
                    out.push(v);
                    assert(out@ =~= before + seq![v]);
                    assert forall|x: Seq<u8>| before + (seq![v] + x) =~= out@ + x by {}
                },
                None => {
                    return Err("invalid digit found in string".to_string());
                },
            }
            j = j + 2;
        } else {
            if j + 1 < t.len() {
                assert(rest[0] == tv[j as int] && rest[1] == tv[j + 1]);
            }
            return Err("invalid digit found in string".to_string());
        }
    }
    assert(tv.skip(j as int) =~= Seq::<char>::empty());
    assert(out@ + Seq::<u8>::empty() =~= out@);
    Ok(out)
}

/// The lowercase hex digit of a value below 16.
pub open spec fn hex_char(d: u8) -> char {
    if d < 10 {
        (('0' as u32) + d) as char
    } else {
        (('a' as u32) + d - 10) as char
    }
}

/// Each byte as two lowercase hex digits.
pub open spec fn hex_text(b: Seq<u8>) -> Seq<char>
    decreases b.len(),
{
    if b.len() == 0 {
        Seq::empty()
    } else {
        seq![hex_char(b[0] / 16), hex_char(b[0] % 16)] + hex_text(b.drop_first())
    }
}

fn hex_char_of(d: u8) -> (c: char)
    requires
        d < 16,
    ensures
        c == hex_char(d),
{
    if d < 10 {
        (('0' as u8) + d) as char
    } else {
        (('a' as u8) + d - 10) as char
    }
}

/// Each byte as two lowercase hex digits.
pub fn encode(bytes: &[u8]) -> (r: String)
    ensures
        r@ == hex_text(bytes@),
{
    let mut out: Vec<char> = Vec::new();
    let mut k: usize = 0;
    assert(bytes@.skip(0) =~= bytes@);
    assert(out@ + hex_text(bytes@) =~= hex_text(bytes@));
    while k < bytes.len()
        invariant
            k <= bytes@.len(),
            hex_text(bytes@) == out@ + hex_text(bytes@.skip(k as int)),
        decreases bytes@.len() - k,
    {
        let b = bytes[k];
        let ghost rest = bytes@.skip(k as int);
        assert(rest[0] == b);
        assert(rest.drop_first() =~= bytes@.skip(k + 1));
        let ghost before = out@;
        out.push(hex_char_of(b / 16));
        out.push(hex_char_of(b % 16));
        assert(out@ =~= before + seq![hex_char(b / 16), hex_char(b % 16)]);
        assert(before + (seq![hex_char(b / 16), hex_char(b % 16)] + hex_text(bytes@.skip(k + 1)))
            =~= out@ + hex_text(bytes@.skip(k + 1)));
        k = k + 1;
    }
    assert(bytes@.skip(k as int) =~= Seq::<u8>::empty());
    assert(out@ + Seq::<char>::empty() =~= out@);
    string_of(out.as_slice())
}

proof fn lemma_hex_char(d: u8)
    requires
        d < 16,
    ensures
        hex_digit(hex_char(d)) == Some(d),
        utf8_width(hex_char(d)) == 1,
        hex_char(d) != '+',
        !crate::text::is_white_space(hex_char(d)),
{
}

proof fn lemma_hex_text(b: Seq<u8>)
    ensures
        hex_text(b).len() == 2 * b.len(),
        utf8_len(hex_text(b)) == 2 * b.len(),
        pairs_aligned(hex_text(b)),
        decode_pairs(hex_text(b)) == Some(b),
        forall|i: int| 0 <= i < hex_text(b).len() ==> !crate::text::is_white_space(#[trigger] hex_text(b)[i]),
    decreases b.len(),
{
    if b.len() > 0 {
        let t = hex_text(b);
        let hi = b[0] / 16;
        let lo = b[0] % 16;
        lemma_hex_char(hi);
        lemma_hex_char(lo);
        lemma_hex_text(b.drop_first());
        let rest = hex_text(b.drop_first());
        assert(t.skip(2) =~= rest);
        assert(t.drop_first().drop_first() =~= rest);
        assert(t.drop_first()[0] == t[1]);
        assert(utf8_len(t.drop_first()) == 1 + utf8_len(rest));
        assert(t[0] == hex_char(hi));
        assert(t[1] == hex_char(lo));
        assert(pair_value(t[0], t[1]) == Some(b[0]));
        assert(seq![b[0]] + b.drop_first() =~= b);
        assert forall|i: int| 0 <= i < t.len() implies !crate::text::is_white_space(#[trigger] t[i]) by {
            if i >= 2 {
                assert(t[i] == rest[i - 2]);
            }
        }
    }
}

proof fn lemma_strip_nothing(s: Seq<char>)
    requires
        forall|i: int| 0 <= i < s.len() ==> !crate::text::is_white_space(#[trigger] s[i]),
    ensures
        trim_white(s) == s,
{
    if s.len() > 0 {
        assert(!crate::text::is_white_space(s[0]));
        assert(!crate::text::is_white_space(s[s.len() - 1]));
    }
}

/// Hex text reads back as the bytes it was written from:
/// `decode(&encode(b)) == Ok(b)` (and `decode` may be called on it).
pub proof fn law_hex_roundtrip(b: Seq<u8>)
    ensures
        trim_white(hex_text(b)) == hex_text(b),
        utf8_len(hex_text(b)) % 2 == 0,
        pairs_aligned(hex_text(b)),
        decode_pairs(hex_text(b)) == Some(b),
{
    lemma_hex_text(b);
    lemma_strip_nothing(hex_text(b));
}

} // verus!
