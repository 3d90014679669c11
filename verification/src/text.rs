//! UTF-8 handling for the two string shapes.
//!
//! Length-prefixed strings are validated after their extent is known;
//! end-marked strings are located by scanning for the fixed two-byte
//! marker, which is invalid UTF-8 in every position and so can never
//! occur inside a correctly encoded payload (proved below).

use vstd::prelude::*;
use vstd::utf8::{
    decode_first_codepoint, decode_first_scalar, encode_scalar, is_char_boundary,
    is_char_boundary_iff_not_is_continuation_byte, is_continuation_byte, is_scalar,
    length_of_first_scalar, pop_first_scalar, valid_first_scalar, valid_utf8, valid_utf8_split,
};

use crate::{END_MARKER_FIRST, END_MARKER_SECOND};

verus! {

/// Relies on char::from_u32: it returns Some exactly for Unicode scalar
/// values (at most 0x10FFFF and outside the surrogate range), and the
/// char it returns casts back to the argument.
#[verifier::external_body]
pub(crate) fn char_from_u32(u: u32) -> (r: Option<char>)
    ensures
        match r {
            Some(c) => is_scalar(u) && c as u32 == u,
            None => !is_scalar(u),
        },
{
    char::from_u32(u)
}

/// The UTF-8 bytes of one character, between one and four of them.
pub fn encode_char_utf8(c: char) -> (r: Vec<u8>)
    ensures
        r@ == encode_scalar(c as u32),
        1 <= r@.len() <= 4,
{
    proof {
        vstd::utf8::char_is_scalar(c);
    }
    let u = c as u32;
    let mut out: Vec<u8> = Vec::new();
    if u <= 0x7F {
        out.push((u & 0x7F) as u8);
        proof {
            assert(out@ =~= encode_scalar(u));
        }
    } else if u <= 0x7FF {
        out.push(0xC0 | (((u >> 6) & 0x1F) as u8));
        out.push(0x80 | ((u & 0x3F) as u8));
        proof {
            assert(out@ =~= encode_scalar(u));
        }
    } else if u <= 0xFFFF {
        out.push(0xE0 | (((u >> 12) & 0x0F) as u8));
        out.push(0x80 | (((u >> 6) & 0x3F) as u8));
        out.push(0x80 | ((u & 0x3F) as u8));
        proof {
            assert(out@ =~= encode_scalar(u));
        }
    } else {
        out.push(0xF0 | (((u >> 18) & 0x7) as u8));
        out.push(0x80 | (((u >> 12) & 0x3F) as u8));
        out.push(0x80 | (((u >> 6) & 0x3F) as u8));
        out.push(0x80 | ((u & 0x3F) as u8));
        proof {
            assert(out@ =~= encode_scalar(u));
        }
    }
    out
}

/// Reads the first UTF-8 scalar of `s[from..to]`: its code point and its
/// width in bytes, or nothing when the range does not begin with a
/// well-formed scalar encoding.
pub fn scalar_at(s: &[u8], from: usize, to: usize) -> (r: Option<(u32, usize)>)
    requires
        from <= to <= s@.len(),
    ensures
        ({
            let sub = s@.subrange(from as int, to as int);
            match r {
                Some(pair) => {
                    &&& valid_first_scalar(sub)
                    &&& pair.0 == decode_first_scalar(sub)
                    &&& pair.1 == length_of_first_scalar(sub)
                    &&& 1 <= pair.1 <= 4
                    &&& from + pair.1 <= to
                },
                None => !valid_first_scalar(sub),
            }
        }),
{
    let ghost sub = s@.subrange(from as int, to as int);
    if from >= to {
        return None;
    }
    let b0 = s[from];
    proof {
        assert(sub[0] == b0);
    }
    if b0 <= 0x7F {
        Some(((b0 & 0x7F) as u32, 1))
    } else if 0xC0 <= b0 && b0 <= 0xDF {
        if from + 1 >= to {
            return None;
        }
        let b1 = s[from + 1];
        proof {
            assert(sub[1] == b1);
        }
        if !(0x80 <= b1 && b1 <= 0xBF) {
            return None;
        }
        let code: u32 = (((b0 & 0x1F) as u32) << 6) | ((b1 & 0x3F) as u32);
        if code < 0x80 {
            // an overlong two-byte form of a one-byte value
            return None;
        }
        proof {
            assert((((b0 & 0x1F) as u32) << 6) | ((b1 & 0x3F) as u32) <= 0x7FF) by (bit_vector);
        }
        Some((code, 2))
    } else if 0xE0 <= b0 && b0 <= 0xEF {
        if to - from < 3 {
            return None;
        }
        let b1 = s[from + 1];
        let b2 = s[from + 2];
        proof {
            assert(sub[1] == b1 && sub[2] == b2);
        }
        if !(0x80 <= b1 && b1 <= 0xBF) || !(0x80 <= b2 && b2 <= 0xBF) {
            return None;
        }
        let code: u32 = (((b0 & 0x0F) as u32) << 12) | (((b1 & 0x3F) as u32) << 6) | ((b2
            & 0x3F) as u32);
        if code < 0x800 {
            return None;
        }
        if 0xD800 <= code && code <= 0xDFFF {
            return None;
        }
        proof {
            assert((((b0 & 0x0F) as u32) << 12) | (((b1 & 0x3F) as u32) << 6) | ((b2
                & 0x3F) as u32) <= 0xFFFF) by (bit_vector);
        }
        Some((code, 3))
    } else if 0xF0 <= b0 && b0 <= 0xF7 {
        if to - from < 4 {
            return None;
        }
        let b1 = s[from + 1];
        let b2 = s[from + 2];
        let b3 = s[from + 3];
        proof {
            assert(sub[1] == b1 && sub[2] == b2 && sub[3] == b3);
        }
        if !(0x80 <= b1 && b1 <= 0xBF) || !(0x80 <= b2 && b2 <= 0xBF) || !(0x80 <= b3 && b3
            <= 0xBF) {
            return None;
        }
        let code: u32 = (((b0 & 0x07) as u32) << 18) | (((b1 & 0x3F) as u32) << 12) | (((b2
            & 0x3F) as u32) << 6) | ((b3 & 0x3F) as u32);
        if code < 0x10000 || code > 0x10FFFF {
            return None;
        }
        Some((code, 4))
    } else {
        // a continuation byte, or a byte no UTF-8 form assigns
        None
    }
}

/// Decides whether `s[from..to]` is valid UTF-8.
pub fn validate_utf8_range(s: &[u8], from: usize, to: usize) -> (r: bool)
    requires
        from <= to <= s@.len(),
    ensures
        r == valid_utf8(s@.subrange(from as int, to as int)),
{
    let mut pos = from;
    while pos < to
        invariant
            from <= pos <= to <= s@.len(),
            valid_utf8(s@.subrange(from as int, to as int)) == valid_utf8(
                s@.subrange(pos as int, to as int),
            ),
        decreases to - pos,
    {
        match scalar_at(s, pos, to) {
            Some((_code, width)) => {
                proof {
                    let cur = s@.subrange(pos as int, to as int);
                    let next = s@.subrange(pos as int + width as int, to as int);
                    assert(pop_first_scalar(cur) =~= next);
                }
                pos = pos + width;
            },
            None => {
                return false;
            },
        }
    }
    proof {
        assert(s@.subrange(pos as int, to as int) =~= Seq::<u8>::empty());
    }
    true
}

/// The position of the first end-marker pair in `s`, if any.
pub open spec fn find_marker(s: Seq<u8>) -> Option<nat>
    decreases s.len(),
{
    if s.len() < 2 {
        None
    } else if s[0] == END_MARKER_FIRST && s[1] == END_MARKER_SECOND {
        Some(0)
    } else {
        match find_marker(s.drop_first()) {
            Some(i) => Some((i + 1) as nat),
            None => None,
        }
    }
}

/// What [`find_marker`] finds is the first marker pair; when it finds
/// nothing, there is none.
pub proof fn lemma_find_marker_characterization(s: Seq<u8>)
    ensures
        match find_marker(s) {
            Some(i) => {
                &&& i + 1 < s.len()
                &&& s[i as int] == END_MARKER_FIRST
                &&& s[i as int + 1] == END_MARKER_SECOND
                &&& forall|j: int|
                    0 <= j < i ==> !(#[trigger] s[j] == END_MARKER_FIRST && s[j + 1]
                        == END_MARKER_SECOND)
            },
            None => forall|j: int|
                0 <= j && j + 1 < s.len() ==> !(#[trigger] s[j] == END_MARKER_FIRST && s[j + 1]
                    == END_MARKER_SECOND),
        },
    decreases s.len(),
{
    if s.len() < 2 {
    } else if s[0] == END_MARKER_FIRST && s[1] == END_MARKER_SECOND {
    } else {
        let d = s.drop_first();
        lemma_find_marker_characterization(d);
        match find_marker(d) {
            Some(i) => {
                assert forall|j: int|
                    0 <= j < i + 1 implies !(#[trigger] s[j] == END_MARKER_FIRST && s[j + 1]
                    == END_MARKER_SECOND) by {
                    if j >= 1 {
                        assert(d[j - 1] == s[j] && d[j] == s[j + 1]);
                    }
                }
            },
            None => {
                assert forall|j: int|
                    0 <= j && j + 1 < s.len() implies !(#[trigger] s[j] == END_MARKER_FIRST && s[j
                    + 1] == END_MARKER_SECOND) by {
                    if j >= 1 {
                        assert(d[j - 1] == s[j] && d[j] == s[j + 1]);
                    }
                }
            },
        }
    }
}

/// In valid UTF-8 no byte pair forms the end marker: the marker's first
/// byte opens a two-byte scalar, whose continuation byte can never be the
/// marker's second byte.
pub proof fn lemma_utf8_no_marker_at(s: Seq<u8>, i: int)
    requires
        valid_utf8(s),
        0 <= i,
        i + 1 < s.len(),
    ensures
        !(s[i] == END_MARKER_FIRST && s[i + 1] == END_MARKER_SECOND),
{
    if s[i] == END_MARKER_FIRST {
        is_char_boundary_iff_not_is_continuation_byte(s, i);
        assert(is_char_boundary(s, i));
        valid_utf8_split(s, i);
        let t = s.subrange(i, s.len() as int);
        assert(valid_utf8(t));
        assert(t.len() >= 2);
        assert(t[0] == s[i] && t[1] == s[i + 1]);
        assert(valid_first_scalar(t));
        assert(is_continuation_byte(t[1]));
    }
}

/// The end marker on its own is not valid UTF-8: its first byte demands a
/// continuation byte, and its second byte is not one.
pub proof fn lemma_end_marker_not_utf8()
    ensures
        !valid_utf8(seq![END_MARKER_FIRST, END_MARKER_SECOND]),
{
    let m = seq![END_MARKER_FIRST, END_MARKER_SECOND];
    assert(m.len() == 2 && m[0] == 0xD8 && m[1] == 0x00);
}

/// Scanning a valid UTF-8 payload followed by the end marker finds the
/// marker exactly at the payload's end: the true terminator, never an
/// accidental internal pair.
pub proof fn lemma_find_marker_after_utf8(b: Seq<u8>, rest: Seq<u8>)
    requires
        valid_utf8(b),
    ensures
        find_marker(b + seq![END_MARKER_FIRST, END_MARKER_SECOND] + rest) == Some(b.len()),
{
    let s = b + seq![END_MARKER_FIRST, END_MARKER_SECOND] + rest;
    lemma_find_marker_characterization(s);
    assert(s[b.len() as int] == END_MARKER_FIRST && s[b.len() as int + 1] == END_MARKER_SECOND);
    assert forall|j: int| 0 <= j < b.len() implies !(#[trigger] s[j] == END_MARKER_FIRST && s[j
        + 1] == END_MARKER_SECOND) by {
        if j + 1 < b.len() {
            assert(s[j] == b[j] && s[j + 1] == b[j + 1]);
            lemma_utf8_no_marker_at(b, j);
        } else {
            // the pair straddles the payload's end: its second byte is the
            // marker's first byte, which is not the marker's second byte
            assert(s[j + 1] == END_MARKER_FIRST);
        }
    }
    match find_marker(s) {
        Some(i) => {
            if i < b.len() {
                assert(!(s[i as int] == END_MARKER_FIRST && s[i as int + 1] == END_MARKER_SECOND));
            }
            if i > b.len() {
                assert(!(s[b.len() as int] == END_MARKER_FIRST && s[b.len() as int + 1]
                    == END_MARKER_SECOND));
            }
        },
        None => {
            assert(!(s[b.len() as int] == END_MARKER_FIRST && s[b.len() as int + 1]
                == END_MARKER_SECOND));
        },
    }
}

/// Finds the first end-marker pair in `s[from..to]`, as an offset from
/// `from`.
pub fn find_marker_from(s: &[u8], from: usize, to: usize) -> (r: Option<usize>)
    requires
        from <= to <= s@.len(),
    ensures
        ({
            let sub = s@.subrange(from as int, to as int);
            match r {
                Some(i) => find_marker(sub) == Some(i as nat),
                None => find_marker(sub) is None,
            }
        }),
{
    let ghost sub = s@.subrange(from as int, to as int);
    proof {
        lemma_find_marker_characterization(sub);
    }
    if to - from < 2 {
        return None;
    }
    let mut pos = from;
    // scan pair by pair; the invariant records that no earlier pair matched
    while pos + 1 < to
        invariant
            from <= pos,
            pos + 1 <= to,
            to <= s@.len(),
            sub == s@.subrange(from as int, to as int),
            forall|j: int|
                0 <= j < pos - from ==> !(#[trigger] sub[j] == END_MARKER_FIRST && sub[j + 1]
                    == END_MARKER_SECOND),
        decreases to - pos,
    {
        if s[pos] == END_MARKER_FIRST && s[pos + 1] == END_MARKER_SECOND {
            proof {
                assert(sub[pos - from] == s@[pos as int] && sub[pos - from + 1] == s@[pos as int
                    + 1]);
                lemma_find_marker_characterization(sub);
                match find_marker(sub) {
                    Some(i) => {
                        if i < pos - from {
                            assert(!(sub[i as int] == END_MARKER_FIRST && sub[i as int + 1]
                                == END_MARKER_SECOND));
                        }
                        if i > pos - from {
                            assert(!(sub[pos - from] == END_MARKER_FIRST && sub[pos - from + 1]
                                == END_MARKER_SECOND));
                        }
                    },
                    None => {
                        assert(!(sub[pos - from] == END_MARKER_FIRST && sub[pos - from + 1]
                            == END_MARKER_SECOND));
                    },
                }
            }
            return Some(pos - from);
        }
        proof {
            assert(sub[pos - from] == s@[pos as int] && sub[pos - from + 1] == s@[pos as int + 1]);
        }
        pos = pos + 1;
    }
    proof {
        lemma_find_marker_characterization(sub);
        if find_marker(sub) is Some {
            let i = find_marker(sub).unwrap();
            assert(!(sub[i as int] == END_MARKER_FIRST && sub[i as int + 1] == END_MARKER_SECOND));
        }
    }
    None
}

} // verus!
