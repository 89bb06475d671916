//! Boundary-safe UTF-8 decoding: a code point may arrive split over several
//! reads, so the bytes of an unfinished one are held until it is complete.
use vstd::prelude::*;
use vstd::utf8::*;

verus! {

/// What the bytes of one code point, as received so far, amount to.
pub enum ScalarStep {
    /// exactly one well-formed scalar encoding
    Complete,
    /// the start of a well-formed encoding that misses bytes
    Partial,
    /// no well-formed encoding can start this way
    Invalid,
}

/// The number of bytes of a well-formed scalar encoding led by `b`, or 0
/// when no well-formed encoding starts with `b`.
pub open spec fn lead_width(b: u8) -> nat {
    if b <= 0x7f {
        1
    } else if 0xc2 <= b <= 0xdf {
        2
    } else if 0xe0 <= b <= 0xef {
        3
    } else if 0xf0 <= b <= 0xf4 {
        4
    } else {
        0
    }
}

/// The range that the byte after the lead byte `lead` must fall in; some
/// leads narrow the continuation range so that no overlong form, surrogate
/// or value past U+10FFFF can be spelled.
pub open spec fn second_byte_fits(lead: u8, b: u8) -> bool {
    if lead == 0xe0 {
        0xa0 <= b <= 0xbf
    } else if lead == 0xed {
        0x80 <= b <= 0x9f
    } else if lead == 0xf0 {
        0x90 <= b <= 0xbf
    } else if lead == 0xf4 {
        0x80 <= b <= 0x8f
    } else {
        is_continuation_byte(b)
    }
}

/// `c` holds exactly the encoding of one scalar.
pub open spec fn whole_scalar(c: Seq<u8>) -> bool {
    valid_first_scalar(c) && length_of_first_scalar(c) == c.len()
}

/// `c` is the start of a well-formed scalar encoding that still misses
/// bytes: its lead byte announces a longer encoding, the second byte fits
/// the lead and the rest are continuation bytes.
pub open spec fn truncated_scalar(c: Seq<u8>) -> bool {
    &&& 1 <= c.len() < lead_width(c[0])
    &&& c.len() >= 2 ==> second_byte_fits(c[0], c[1])
    &&& forall|i: int| 2 <= i < c.len() ==> is_continuation_byte(#[trigger] c[i])
}

pub open spec fn scalar_step(c: Seq<u8>) -> ScalarStep {
    if whole_scalar(c) {
        ScalarStep::Complete
    } else if truncated_scalar(c) {
        ScalarStep::Partial
    } else {
        ScalarStep::Invalid
    }
}

fn is_continuation(b: u8) -> (r: bool)
    ensures
        r == is_continuation_byte(b),
{
    0x80 <= b && b <= 0xbf
}

fn width_of_lead(b: u8) -> (r: usize)
    ensures
        r == lead_width(b),
{
    if b <= 0x7f {
        1
    } else if 0xc2 <= b && b <= 0xdf {
        2
    } else if 0xe0 <= b && b <= 0xef {
        3
    } else if 0xf0 <= b && b <= 0xf4 {
        4
    } else {
        0
    }
}

fn fits_after(lead: u8, b: u8) -> (r: bool)
    ensures
        r == second_byte_fits(lead, b),
{
    if lead == 0xe0 {
        0xa0 <= b && b <= 0xbf
    } else if lead == 0xed {
        0x80 <= b && b <= 0x9f
    } else if lead == 0xf0 {
        0x90 <= b && b <= 0xbf
    } else if lead == 0xf4 {
        0x80 <= b && b <= 0x8f
    } else {
        is_continuation(b)
    }
}

proof fn lemma_bits_overlong_two(b1: u8, b2: u8)
    by (bit_vector)
    requires
        0xc0 <= b1 <= 0xc1,
    ensures
        ((((b1 & 0x1f) as u32) << 6) | ((b2 & 0x3f) as u32)) < 0x80,
{
}

proof fn lemma_bits_three(b1: u8, b2: u8, b3: u8)
    by (bit_vector)
    requires
        0x80 <= b2 <= 0xbf,
    ensures
        b1 == 0xe0 && b2 < 0xa0 ==> ((((b1 & 0x0f) as u32) << 12) | (((b2 & 0x3f) as u32) << 6)
            | ((b3 & 0x3f) as u32)) < 0x800,
        b1 == 0xed && b2 >= 0xa0 ==> 0xd800 <= ((((b1 & 0x0f) as u32) << 12) | (((b2 & 0x3f)
            as u32) << 6) | ((b3 & 0x3f) as u32)) <= 0xdfff,
{
}

proof fn lemma_bits_four(b1: u8, b2: u8, b3: u8, b4: u8)
    by (bit_vector)
    requires
        0x80 <= b2 <= 0xbf,
    ensures
        b1 == 0xf0 && b2 < 0x90 ==> ((((b1 & 0x07) as u32) << 18) | (((b2 & 0x3f) as u32) << 12)
            | (((b3 & 0x3f) as u32) << 6) | ((b4 & 0x3f) as u32)) < 0x10000,
        (b1 == 0xf4 && b2 >= 0x90) || (0xf5 <= b1 <= 0xf7) ==> ((((b1 & 0x07) as u32) << 18) | (((
        b2 & 0x3f) as u32) << 12) | (((b3 & 0x3f) as u32) << 6) | ((b4 & 0x3f) as u32))
            > 0x10ffff,
{
}

/// The bytes of one whole scalar: the lead announces exactly their number,
/// the second fits the lead, the rest are continuation bytes.
pub proof fn lemma_whole_scalar_shape(c: Seq<u8>)
    requires
        whole_scalar(c),
    ensures
        lead_width(c[0]) == c.len(),
        1 <= c.len() <= 4,
        c.len() >= 2 ==> second_byte_fits(c[0], c[1]),
        forall|i: int| 1 <= i < c.len() ==> is_continuation_byte(#[trigger] c[i]),
{
    if c.len() == 2 {
        if c[0] <= 0xc1 {
            lemma_bits_overlong_two(c[0], c[1]);
        }
    } else if c.len() == 3 {
        lemma_bits_three(c[0], c[1], c[2]);
    } else if c.len() == 4 {
        lemma_bits_four(c[0], c[1], c[2], c[3]);
    }
}

/// Classifies the bytes of one code point received so far.
pub fn classify_scalar(c: &[u8]) -> (r: ScalarStep)
    requires
        1 <= c@.len() <= 4,
    ensures
        r == scalar_step(c@),
{
    proof {
        if whole_scalar(c@) {
            lemma_whole_scalar_shape(c@);
        }
    }
    let w = width_of_lead(c[0]);
    if w == 0 || c.len() > w {
        return ScalarStep::Invalid;
    }
    if c.len() >= 2 && !fits_after(c[0], c[1]) {
        return ScalarStep::Invalid;
    }
    let mut i: usize = 2;
    while i < c.len()
        invariant
            2 <= i,
            i <= c@.len() || c@.len() < 2,
            c@.len() <= 4,
            c@.len() >= 2 ==> second_byte_fits(c@[0], c@[1]),
            forall|k: int| 2 <= k < i && k < c@.len() ==> is_continuation_byte(#[trigger] c@[k]),
            !whole_scalar(c@) || lead_width(c@[0]) == c@.len(),
        decreases c@.len() - i,
    {
        if !is_continuation(c[i]) {
            return ScalarStep::Invalid;
        }
        i = i + 1;
    }
    if c.len() < w {
        return ScalarStep::Partial;
    }
    let cp: u32 = if w == 1 {
        (c[0] & 0x7f) as u32
    } else if w == 2 {
        (((c[0] & 0x1f) as u32) << 6) | ((c[1] & 0x3f) as u32)
    } else if w == 3 {
        (((c[0] & 0x0f) as u32) << 12) | (((c[1] & 0x3f) as u32) << 6) | ((c[2] & 0x3f) as u32)
    } else {
        (((c[0] & 0x07) as u32) << 18) | (((c[1] & 0x3f) as u32) << 12) | (((c[2] & 0x3f) as u32)
            << 6) | ((c[3] & 0x3f) as u32)
    };
    assert(cp == decode_first_codepoint(c@));
    let not_overlong = if w == 2 {
        0x80 <= cp
    } else if w == 3 {
        0x800 <= cp
    } else if w == 4 {
        0x10000 <= cp && cp <= 0x10ffff
    } else {
        true
    };
    let not_surrogate = !(0xd800 <= cp && cp <= 0xdfff);
    if not_overlong && not_surrogate {
        ScalarStep::Complete
    } else {
        ScalarStep::Invalid
    }
}

/// Appending the encoding of one scalar to well-formed UTF-8 keeps it well-formed.
pub proof fn lemma_extend_by_scalar(text: Seq<u8>, c: Seq<u8>)
    requires
        valid_utf8(text),
        whole_scalar(c),
    ensures
        valid_utf8(text + c),
{
    assert(pop_first_scalar(c) =~= Seq::<u8>::empty());
    assert(valid_utf8(pop_first_scalar(c)));
    assert(valid_utf8(c));
    valid_utf8_concat(text, c);
}

} // verus!
