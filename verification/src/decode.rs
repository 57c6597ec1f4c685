//! Incremental UTF-8 decoding of a byte stream.
//!
//! The stream is cut into units. A unit begins with a lead byte and spans as
//! many bytes as the lead byte announces; a byte that cannot begin a character
//! is a unit by itself. A unit that encodes a character yields it; any other
//! unit is dropped whole.
use vstd::prelude::*;
use vstd::utf8::*;

verus! {

/// What feeding one byte to a [`Decoder`] gave.
#[derive(Clone, Copy, Debug, PartialEq, Eq, Structural)]
pub enum Decoded {
    /// The byte belongs to a unit that is not complete yet.
    Partial,
    /// The byte completed a unit that encodes no character; the unit is dropped.
    Skipped,
    /// The byte completed the encoding of this character.
    Char(char),
}

/// The number of bytes of the unit that `lead` begins, or 0 where `lead` cannot
/// begin a character.
pub open spec fn unit_width(lead: u8) -> nat {
    if lead <= 0x7f {
        1
    } else if 0xc2 <= lead <= 0xdf {
        2
    } else if 0xe0 <= lead <= 0xef {
        3
    } else if 0xf0 <= lead <= 0xf4 {
        4
    } else {
        0
    }
}

/// The bytes held back form the beginning of a unit that still lacks bytes.
pub open spec fn unit_open(held: Seq<u8>) -> bool {
    held.len() == 0 || held.len() < unit_width(held[0])
}

/// The unit has all its bytes.
pub open spec fn unit_complete(unit: Seq<u8>) -> bool {
    unit.len() > 0 && unit.len() >= unit_width(unit[0])
}

/// The character that a complete unit encodes, if it encodes one.
pub open spec fn unit_char(unit: Seq<u8>) -> Option<char> {
    if unit.len() > 0 && unit.len() == unit_width(unit[0]) && valid_first_scalar(unit) {
        Some(decode_first_scalar(unit) as char)
    } else {
        None
    }
}

/// The bytes held back after `b` has followed `held`.
pub open spec fn feed_held(held: Seq<u8>, b: u8) -> Seq<u8> {
    if unit_complete(held.push(b)) {
        Seq::empty()
    } else {
        held.push(b)
    }
}

/// What `b` gives when it follows `held`.
pub open spec fn feed_out(held: Seq<u8>, b: u8) -> Decoded {
    if !unit_complete(held.push(b)) {
        Decoded::Partial
    } else {
        match unit_char(held.push(b)) {
            Some(c) => Decoded::Char(c),
            None => Decoded::Skipped,
        }
    }
}

/// The characters that come out when `bytes` are fed, one after another, to a
/// decoder that holds `held`.
pub open spec fn decoded(held: Seq<u8>, bytes: Seq<u8>) -> Seq<char>
    decreases bytes.len(),
{
    if bytes.len() == 0 {
        Seq::empty()
    } else {
        let rest = decoded(feed_held(held, bytes[0]), bytes.drop_first());
        match feed_out(held, bytes[0]) {
            Decoded::Char(c) => seq![c] + rest,
            _ => rest,
        }
    }
}

/// The bytes that a decoder holds back after it held `held` and was fed
/// `bytes`, one after another.
pub open spec fn held_after(held: Seq<u8>, bytes: Seq<u8>) -> Seq<u8>
    decreases bytes.len(),
{
    if bytes.len() == 0 {
        held
    } else {
        held_after(feed_held(held, bytes[0]), bytes.drop_first())
    }
}

/// `char::from_u32` of std: the character whose scalar value is `v`, and
/// nothing where `v` is a surrogate or lies above 0x10FFFF.
#[verifier::external_body]
fn char_of(v: u32) -> (c: Option<char>)
    ensures
        c == (if is_scalar(v) { Some(v as char) } else { None::<char> }),
{
    char::from_u32(v)
}

fn width_of(lead: u8) -> (w: usize)
    ensures
        w == unit_width(lead),
{
    if lead <= 0x7f {
        1
    } else if 0xc2 <= lead && lead <= 0xdf {
        2
    } else if 0xe0 <= lead && lead <= 0xef {
        3
    } else if 0xf0 <= lead && lead <= 0xf4 {
        4
    } else {
        0
    }
}

fn is_continuation(b: u8) -> (r: bool)
    ensures
        r == is_continuation_byte(b),
{
    0x80 <= b && b <= 0xbf
}

/// Decodes a unit that has all its bytes.
fn decode_unit(unit: &Vec<u8>) -> (c: Option<char>)
    requires
        unit.len() > 0,
        unit.len() == unit_width(unit[0]),
    ensures
        c == unit_char(unit@),
{
    let b0 = unit[0];
    let w = unit.len();
    if w == 1 {
        let cp: u32 = (b0 & 0x7f) as u32;
        assert(cp <= 0x7f) by (bit_vector)
            requires
                cp == (b0 & 0x7f) as u32,
        ;
        char_of(cp)
    } else if w == 2 {
        let b1 = unit[1];
        if !is_continuation(b1) {
            return None;
        }
        let cp: u32 = (((b0 & 0x1f) as u32) << 6) | ((b1 & 0x3f) as u32);
        assert(0x80 <= cp <= 0x7ff) by (bit_vector)
            requires
                cp == (((b0 & 0x1f) as u32) << 6) | ((b1 & 0x3f) as u32),
                0xc2 <= b0 <= 0xdf,
        ;
        char_of(cp)
    } else if w == 3 {
        let b1 = unit[1];
        let b2 = unit[2];
        if !is_continuation(b1) || !is_continuation(b2) {
            return None;
        }
        let cp: u32 = (((b0 & 0x0f) as u32) << 12) | (((b1 & 0x3f) as u32) << 6) | ((b2
            & 0x3f) as u32);
        assert(cp <= 0xffff) by (bit_vector)
            requires
                cp == (((b0 & 0x0f) as u32) << 12) | (((b1 & 0x3f) as u32) << 6) | ((b2
                    & 0x3f) as u32),
        ;
        if cp < 0x800 {
            return None;
        }
        char_of(cp)
    } else {
        let b1 = unit[1];
        let b2 = unit[2];
        let b3 = unit[3];
        if !is_continuation(b1) || !is_continuation(b2) || !is_continuation(b3) {
            return None;
        }
        let cp: u32 = (((b0 & 0x07) as u32) << 18) | (((b1 & 0x3f) as u32) << 12) | (((b2
            & 0x3f) as u32) << 6) | ((b3 & 0x3f) as u32);
        if cp < 0x10000 {
            return None;
        }
        char_of(cp)
    }
}

/// A decoder that is fed one byte at a time and holds back the bytes of a unit
/// until the unit is complete.
#[derive(Debug)]
pub struct Decoder {
    held: Vec<u8>,
}

impl View for Decoder {
    type V = Seq<u8>;

    /// The bytes held back.
    closed spec fn view(&self) -> Seq<u8> {
        self.held@
    }
}

impl Decoder {
    /// The decoder holds nothing, or the beginning of a unit that lacks bytes.
    pub open spec fn wf(&self) -> bool {
        unit_open(self@)
    }

    /// A decoder that holds nothing.
    pub fn new() -> (d: Decoder)
        ensures
            d@ == Seq::<u8>::empty(),
            d.wf(),
    {
        Decoder { held: Vec::new() }
    }

    /// Whether no unit is under way.
    pub fn is_idle(&self) -> (r: bool)
        ensures
            r == (self@.len() == 0),
    {
        self.held.len() == 0
    }

    /// Takes the next byte of the stream.
    pub fn feed(&mut self, b: u8) -> (out: Decoded)
        requires
            old(self).wf(),
        ensures
            final(self).wf(),
            final(self)@ == feed_held(old(self)@, b),
            out == feed_out(old(self)@, b),
    {
        self.held.push(b);
        let w = width_of(self.held[0]);
        if w == 0 {
            self.held.clear();
            return Decoded::Skipped;
        }
        if self.held.len() < w {
            return Decoded::Partial;
        }
        let c = decode_unit(&self.held);
        self.held.clear();
        match c {
            Some(ch) => Decoded::Char(ch),
            None => Decoded::Skipped,
        }
    }

    /// Drops the bytes held back: the unit under way will not be completed.
    pub fn reset(&mut self)
        ensures
            final(self)@ == Seq::<u8>::empty(),
            final(self).wf(),
    {
        self.held.clear();
    }
}

proof fn lemma_width_2_lead(b0: u8, b1: u8)
    by (bit_vector)
    requires
        0xc0 <= b0 <= 0xdf,
        ((((b0 & 0x1f) as u32) << 6) | ((b1 & 0x3f) as u32)) >= 0x80,
    ensures
        0xc2 <= b0,
{
}

proof fn lemma_width_4_lead(b0: u8, b1: u8, b2: u8, b3: u8)
    by (bit_vector)
    requires
        0xf0 <= b0 <= 0xf7,
        ((((b0 & 0x07) as u32) << 18) | (((b1 & 0x3f) as u32) << 12) | (((b2 & 0x3f) as u32)
            << 6) | ((b3 & 0x3f) as u32)) <= 0x10ffff,
    ensures
        b0 <= 0xf4,
{
}

/// Where bytes begin with the encoding of a character, the unit that their
/// first byte announces is that encoding.
pub proof fn lemma_unit_of_first_scalar(bytes: Seq<u8>)
    requires
        valid_first_scalar(bytes),
    ensures
        unit_width(bytes[0]) == length_of_first_scalar(bytes),
        unit_width(bytes[0]) <= bytes.len(),
        unit_char(bytes.take(length_of_first_scalar(bytes))) == Some(
            decode_first_scalar(bytes) as char,
        ),
{
    let w = length_of_first_scalar(bytes);
    if is_leading_byte_width_2(bytes[0]) {
        lemma_width_2_lead(bytes[0], bytes[1]);
    } else if is_leading_byte_width_4(bytes[0]) {
        lemma_width_4_lead(bytes[0], bytes[1], bytes[2], bytes[3]);
    }
    let unit = bytes.take(w);
    assert(forall|i: int| 0 <= i < w ==> unit[i] == bytes[i]);
}

/// A decoder that holds the first `i` bytes of a unit and is fed the rest of
/// the stream yields what the unit encodes, and then what the stream behind
/// the unit gives to a decoder that holds nothing.
pub proof fn lemma_decoded_unit(bytes: Seq<u8>, i: int)
    requires
        bytes.len() > 0,
        0 <= i < unit_width(bytes[0]) <= bytes.len(),
    ensures
        decoded(bytes.take(i), bytes.skip(i)) == (match unit_char(
            bytes.take(unit_width(bytes[0]) as int),
        ) {
            Some(c) => seq![c],
            None => Seq::<char>::empty(),
        }) + decoded(Seq::empty(), bytes.skip(unit_width(bytes[0]) as int)),
        held_after(bytes.take(i), bytes.skip(i)) == held_after(
            Seq::empty(),
            bytes.skip(unit_width(bytes[0]) as int),
        ),
    decreases unit_width(bytes[0]) - i,
{
    let w = unit_width(bytes[0]) as int;
    let held = bytes.take(i);
    let rest = bytes.skip(i);
    assert(rest[0] == bytes[i]);
    assert(held.push(rest[0]) =~= bytes.take(i + 1));
    assert(bytes.take(i + 1)[0] == bytes[0]);
    assert(rest.drop_first() =~= bytes.skip(i + 1));
    if i + 1 < w {
        lemma_decoded_unit(bytes, i + 1);
    }
}

/// A stream that ends inside a unit yields nothing from that unit: a decoder
/// that holds its first `i` bytes and is fed the others holds them all.
pub proof fn lemma_decoded_open_unit(bytes: Seq<u8>, i: int)
    requires
        0 <= i <= bytes.len(),
        unit_open(bytes),
    ensures
        decoded(bytes.take(i), bytes.skip(i)) == Seq::<char>::empty(),
        held_after(bytes.take(i), bytes.skip(i)) == bytes,
    decreases bytes.len() - i,
{
    if i < bytes.len() {
        let rest = bytes.skip(i);
        assert(rest[0] == bytes[i]);
        assert(bytes.take(i).push(rest[0]) =~= bytes.take(i + 1));
        assert(bytes.take(i + 1)[0] == bytes[0]);
        assert(rest.drop_first() =~= bytes.skip(i + 1));
        lemma_decoded_open_unit(bytes, i + 1);
    } else {
        assert(bytes.take(i) =~= bytes);
    }
}

/// On well-formed UTF-8 the decoder drops nothing: fed the bytes from a
/// standing start, it yields exactly the characters that they encode, and
/// holds nothing back at the end.
pub proof fn lemma_decodes_utf8(bytes: Seq<u8>)
    requires
        valid_utf8(bytes),
    ensures
        decoded(Seq::empty(), bytes) == decode_utf8(bytes),
        held_after(Seq::empty(), bytes) == Seq::<u8>::empty(),
    decreases bytes.len(),
{
    if bytes.len() > 0 {
        let w = length_of_first_scalar(bytes);
        lemma_unit_of_first_scalar(bytes);
        lemma_decoded_unit(bytes, 0);
        assert(bytes.take(0) =~= Seq::<u8>::empty());
        assert(bytes.skip(0) =~= bytes);
        assert(bytes.skip(w) =~= pop_first_scalar(bytes));
        lemma_decodes_utf8(pop_first_scalar(bytes));
    }
}

/// Every text survives the way through its UTF-8 encoding and the decoder.
pub proof fn lemma_decodes_encoded_text(text: Seq<char>)
    ensures
        decoded(Seq::empty(), encode_utf8(text)) == text,
        held_after(Seq::empty(), encode_utf8(text)) == Seq::<u8>::empty(),
{
    encode_utf8_valid_utf8(text);
    encode_utf8_decode_utf8(text);
    lemma_decodes_utf8(encode_utf8(text));
}

} // verus!
