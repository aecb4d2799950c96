//! JSON string escaping over raw bytes.
//!
//! Each byte of a message is mapped to either itself, a two-byte short escape
//! (`\b`, `\t`, `\n`, `\f`, `\r`, `\"`, `\\`), or a six-byte numeric escape
//! (`\u00XX`) for the remaining control bytes.  Bytes at or above 0x20 other
//! than the quote and the backslash pass through unchanged, so multi-byte
//! UTF-8 sequences are never disturbed.

use vstd::prelude::*;

verus! {

/// The escape class of a byte: 0 for "no escape", 0x75 (the letter u) for a
/// numeric escape, and otherwise the letter of the two-byte short escape.
pub open spec fn escape_code(b: u8) -> u8 {
    if b == 0x08 {
        0x62u8
    } else if b == 0x09 {
        0x74u8
    } else if b == 0x0a {
        0x6eu8
    } else if b == 0x0c {
        0x66u8
    } else if b == 0x0d {
        0x72u8
    } else if b < 0x20 {
        0x75u8
    } else if b == 0x22 {
        0x22u8
    } else if b == 0x5c {
        0x5cu8
    } else {
        0
    }
}

/// Lower-case hexadecimal digit for a value below 16.
pub open spec fn hex_digit(n: u8) -> u8 {
    if n < 10 {
        (0x30 + n) as u8
    } else {
        (0x57 + n) as u8
    }
}

/// The bytes emitted for one input byte inside a JSON string.
pub open spec fn escape_of(b: u8) -> Seq<u8> {
    let c = escape_code(b);
    if c == 0 {
        seq![b]
    } else if c == 0x75u8 {
        seq![0x5cu8, 0x75u8, 0x30u8, 0x30u8, hex_digit((b / 16) as u8), hex_digit((b % 16) as u8)]
    } else {
        seq![0x5cu8, c]
    }
}

/// The escaped form of a whole byte sequence.
pub open spec fn escaped(s: Seq<u8>) -> Seq<u8>
    decreases s.len(),
{
    if s.len() == 0 {
        seq![]
    } else {
        escape_of(s.first()) + escaped(s.drop_first())
    }
}

/// Escaping distributes over concatenation.
pub proof fn lemma_escaped_concat(a: Seq<u8>, b: Seq<u8>)
    ensures
        escaped(a + b) == escaped(a) + escaped(b),
    decreases a.len(),
{
    if a.len() == 0 {
        assert(a + b =~= b);
        assert(escaped(a) + escaped(b) =~= escaped(b));
    } else {
        lemma_escaped_concat(a.drop_first(), b);
        assert((a + b).drop_first() =~= a.drop_first() + b);
        assert(escaped(a) + escaped(b) =~= escape_of(a.first()) + (escaped(a.drop_first())
            + escaped(b)));
    }
}

/// Appending one byte appends its escape expansion.
pub proof fn lemma_escaped_push(a: Seq<u8>, x: u8)
    ensures
        escaped(a.push(x)) == escaped(a) + escape_of(x),
{
    lemma_escaped_concat(a, seq![x]);
    assert(a.push(x) =~= a + seq![x]);
    assert(seq![x].drop_first() =~= Seq::<u8>::empty());
    assert(escaped(seq![x]) == escape_of(x) + escaped(Seq::<u8>::empty()));
    assert(escape_of(x) + Seq::<u8>::empty() =~= escape_of(x));
}

/// A run of bytes that need no escape passes through unchanged.
pub proof fn lemma_escaped_clear_run(s: Seq<u8>)
    requires
        forall|j: int| 0 <= j < s.len() ==> escape_code(#[trigger] s[j]) == 0,
    ensures
        escaped(s) == s,
    decreases s.len(),
{
    if s.len() > 0 {
        lemma_escaped_clear_run(s.drop_first());
        assert(escape_of(s.first()) =~= seq![s.first()]);
        assert(seq![s.first()] + s.drop_first() =~= s);
    }
}

/// The byte denoted by a short escape letter; 0 when the letter is not one
/// the encoder emits.
pub open spec fn short_unescape(c: u8) -> u8 {
    if c == 0x62u8 {
        0x08
    } else if c == 0x74u8 {
        0x09
    } else if c == 0x6eu8 {
        0x0a
    } else if c == 0x66u8 {
        0x0c
    } else if c == 0x72u8 {
        0x0d
    } else if c == 0x22u8 {
        0x22
    } else if c == 0x5cu8 {
        0x5c
    } else {
        0
    }
}

/// The value of a lower-case hexadecimal digit; 16 when the byte is no digit.
pub open spec fn hex_val(h: u8) -> u8 {
    if 0x30 <= h <= 0x39 {
        (h - 0x30) as u8
    } else if 0x61 <= h <= 0x66 {
        (h - 0x57) as u8
    } else {
        16
    }
}

/// A decoder for the escape alphabet the encoder emits: literal bytes, the
/// short escapes, and `\u00XX`.  `None` marks input that no escaped string
/// produced, such as a backslash followed by an unknown letter.
pub open spec fn unescape(s: Seq<u8>) -> Option<Seq<u8>>
    decreases s.len(),
{
    if s.len() == 0 {
        Some(seq![])
    } else if s.first() == 0x5cu8 {
        if s.len() >= 2 && s[1] == 0x75u8 {
            if s.len() >= 6 && s[2] == 0x30u8 && s[3] == 0x30u8 && hex_val(s[4]) < 16 && hex_val(s[5])
                < 16 {
                match unescape(s.skip(6)) {
                    Some(t) => Some(seq![(hex_val(s[4]) * 16 + hex_val(s[5])) as u8] + t),
                    None => None,
                }
            } else {
                None
            }
        } else if s.len() >= 2 && short_unescape(s[1]) != 0 {
            match unescape(s.skip(2)) {
                Some(t) => Some(seq![short_unescape(s[1])] + t),
                None => None,
            }
        } else {
            None
        }
    } else if s.first() == 0x22u8 {
        None
    } else {
        match unescape(s.skip(1)) {
            Some(t) => Some(seq![s.first()] + t),
            None => None,
        }
    }
}

proof fn lemma_unescape_prepend(b: u8, t: Seq<u8>, u: Seq<u8>)
    requires
        unescape(t) == Some(u),
    ensures
        unescape(escape_of(b) + t) == Some(seq![b] + u),
{
    let e = escape_of(b) + t;
    let c = escape_code(b);
    if c == 0 {
        assert(e.first() == b);
        assert(e.skip(1) =~= t);
    } else if c == 0x75u8 {
        assert(e.first() == 0x5cu8 && e[1] == 0x75u8 && e[2] == 0x30u8 && e[3] == 0x30u8);
        assert(e[4] == hex_digit((b / 16) as u8) && e[5] == hex_digit((b % 16) as u8));
        assert(hex_val(hex_digit((b / 16) as u8)) == b / 16);
        assert(hex_val(hex_digit((b % 16) as u8)) == b % 16);
        assert(e.skip(6) =~= t);
        assert((hex_val(e[4]) * 16 + hex_val(e[5])) as u8 == b);
    } else {
        assert(e.first() == 0x5cu8 && e[1] == c);
        assert(c != 0x75u8);
        assert(short_unescape(c) == b);
        assert(e.skip(2) =~= t);
    }
}

/// Escaping loses nothing: decoding the escaped form of any byte sequence
/// gives the sequence back, whatever bytes it held.
pub proof fn lemma_escape_round_trip(s: Seq<u8>)
    ensures
        unescape(escaped(s)) == Some(s),
    decreases s.len(),
{
    if s.len() == 0 {
        assert(escaped(s) =~= Seq::<u8>::empty());
    } else {
        lemma_escape_round_trip(s.drop_first());
        lemma_unescape_prepend(s.first(), escaped(s.drop_first()), s.drop_first());
        assert(seq![s.first()] + s.drop_first() =~= s);
    }
}

/// Escape class of a byte, as a run-time lookup.
pub fn from_escape_table(b: u8) -> (c: u8)
    ensures
        c == escape_code(b),
{
    if b == 0x08 {
        0x62u8
    } else if b == 0x09 {
        0x74u8
    } else if b == 0x0a {
        0x6eu8
    } else if b == 0x0c {
        0x66u8
    } else if b == 0x0d {
        0x72u8
    } else if b < 0x20 {
        0x75u8
    } else if b == 0x22 {
        0x22u8
    } else if b == 0x5c {
        0x5cu8
    } else {
        0
    }
}

/// Lower-case hexadecimal digit of a value below 16, as run-time code.
pub fn hex_digit_of(n: u8) -> (h: u8)
    requires
        n < 16,
    ensures
        h == hex_digit(n),
{
    if n < 10 {
        0x30 + n
    } else {
        0x57 + n
    }
}

} // verus!
