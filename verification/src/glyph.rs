//! The mapping between a byte and its glyph.
//!
//! A glyph is four bytes long. The first two bytes are the same for all glyphs. The 256 byte
//! values fall into five contiguous bands: the third byte of a glyph names the band, and the
//! fourth byte counts up from the band's floor.
use vstd::prelude::*;
use vstd::relations::injective_on;
use vstd::set_lib::{lemma_int_range, lemma_map_size, set_int_range};
use vstd::utf8::encode_scalar;

verus! {

/// First byte of every glyph.
pub const LEAD: u8 = 240;

/// Second byte of every glyph.
pub const SECOND: u8 = 159;

/// Third byte of the glyphs of the lowest band; each further band adds one.
pub const FIRST_BAND: u8 = 143;

/// Number of bands.
pub const BANDS: u8 = 5;

/// Code point whose four-byte encoding is the glyph of byte 0.
pub const BASE: u32 = 127991;

/// The band that holds byte `b`, counted from 0.
pub open spec fn band_of(b: u8) -> int {
    if b < 9 {
        0
    } else if b < 73 {
        1
    } else if b < 137 {
        2
    } else if b < 201 {
        3
    } else {
        4
    }
}

/// The lowest byte value of band `k`.
pub open spec fn band_start(k: int) -> int {
    if k == 0 {
        0
    } else if k == 1 {
        9
    } else if k == 2 {
        73
    } else if k == 3 {
        137
    } else {
        201
    }
}

/// How many byte values band `k` holds.
pub open spec fn band_len(k: int) -> int {
    if k == 0 {
        9
    } else if k == 4 {
        55
    } else {
        64
    }
}

/// The fourth byte of the glyph that stands for the lowest byte value of band `k`.
pub open spec fn band_floor(k: int) -> int {
    if k == 0 {
        183
    } else {
        128
    }
}

/// The glyph that stands for byte `b`.
pub open spec fn glyph_of(b: u8) -> Seq<u8> {
    let k = band_of(b);
    seq![LEAD, SECOND, (FIRST_BAND + k) as u8, (band_floor(k) + (b - band_start(k))) as u8]
}

/// Whether `s` is one of the 256 glyphs: four bytes, the two fixed ones first, then a band and a
/// fourth byte inside that band's range.
pub open spec fn is_glyph(s: Seq<u8>) -> bool {
    &&& s.len() == 4
    &&& s[0] == LEAD
    &&& s[1] == SECOND
    &&& FIRST_BAND <= s[2] < FIRST_BAND + BANDS
    &&& band_floor(s[2] - FIRST_BAND) <= s[3] < band_floor(s[2] - FIRST_BAND) + band_len(
        s[2] - FIRST_BAND,
    )
}

/// The byte that glyph `s` stands for.
pub open spec fn glyph_value(s: Seq<u8>) -> u8
    recommends
        is_glyph(s),
{
    (band_start(s[2] - FIRST_BAND) + (s[3] - band_floor(s[2] - FIRST_BAND))) as u8
}

/// What decoding the four bytes `s` gives: the byte of a glyph, and nothing for anything else.
pub open spec fn decode_glyph(s: Seq<u8>) -> Option<u8> {
    if is_glyph(s) {
        Some(glyph_value(s))
    } else {
        None
    }
}

/// The four bytes handed to the decoder are not a glyph.
#[derive(Debug, Clone, Copy, PartialEq, Eq, Structural)]
pub struct DecodeError;

/// Encodes one byte as its glyph.
pub fn to_emoticon(byte: u8) -> (glyph: [u8; 4])
    ensures
        glyph@ == glyph_of(byte),
{
    // Counted from 9, the bands above the lowest are 64 wide each, so division finds the band
    // and the remainder the place in it. For the lowest band the subtraction wraps round: the
    // remainder still gives the place, and the mask turns the quotient into -1.
    let mask: u8 = if byte < 9 { 255 } else { 0 };
    let shifted: u8 = byte.wrapping_sub(9);
    let third_add: u8 = shifted / 64 | mask;
    let fourth_add: u8 = shifted % 64;
    assert(third_add == if byte < 9 { 255 } else { shifted / 64 }) by (bit_vector)
        requires
            third_add == shifted / 64 | mask,
            mask == if byte < 9 { 255u8 } else { 0u8 },
    ;
    let glyph: [u8; 4] = [240, 159, 144u8.wrapping_add(third_add), 128u8.wrapping_add(fourth_add)];
    assert(glyph@ =~= glyph_of(byte));
    glyph
}

/// Decodes the glyph held in the first four bytes of `emo`.
///
/// Bytes after the fourth are not looked at.
pub fn from_emoticon(emo: &[u8]) -> (res: Result<u8, DecodeError>)
    requires
        emo@.len() >= 4,
    ensures
        res == match decode_glyph(emo@.take(4)) {
            Some(b) => Ok::<u8, DecodeError>(b),
            None => Err(DecodeError),
        },
{
    match (emo[0], emo[1], emo[2], emo[3]) {
        (240, 159, 143, last) if 183 <= last && last < 192 => Ok(last - 183),
        (240, 159, 144, last) if 128 <= last && last < 192 => Ok(last - 128 + 9),
        (240, 159, 145, last) if 128 <= last && last < 192 => Ok(last - 128 + 73),
        (240, 159, 146, last) if 128 <= last && last < 192 => Ok(last - 128 + 137),
        (240, 159, 147, last) if 128 <= last && last < 183 => Ok(last - 128 + 201),
        _ => Err(DecodeError),
    }
}

/// The set of all glyphs.
pub open spec fn glyphs() -> Set<Seq<u8>> {
    Set::new(|s: Seq<u8>| is_glyph(s))
}

/// Decoding the glyph of a byte gives that byte back.
pub proof fn lemma_round_trip(b: u8)
    ensures
        is_glyph(glyph_of(b)),
        glyph_value(glyph_of(b)) == b,
        decode_glyph(glyph_of(b)) == Some(b),
{
}

/// A glyph is the glyph of the byte that it decodes to.
pub proof fn lemma_glyph_of_value(s: Seq<u8>)
    requires
        is_glyph(s),
    ensures
        glyph_of(glyph_value(s)) == s,
{
    assert(glyph_of(glyph_value(s)) =~= s);
}

/// Two bytes with the same glyph are the same byte.
pub proof fn lemma_glyph_injective(a: u8, b: u8)
    requires
        glyph_of(a) == glyph_of(b),
    ensures
        a == b,
{
    lemma_round_trip(a);
    lemma_round_trip(b);
}

/// Four bytes decode exactly when they are the glyph of some byte.
pub proof fn lemma_decodes_iff_encoded(s: Seq<u8>)
    ensures
        decode_glyph(s) is Some <==> exists|b: u8| s == #[trigger] glyph_of(b),
{
    if is_glyph(s) {
        lemma_glyph_of_value(s);
    }
    if exists|b: u8| s == #[trigger] glyph_of(b) {
        let b = choose|b: u8| s == #[trigger] glyph_of(b);
        lemma_round_trip(b);
    }
}

/// There are exactly 256 glyphs, one for each byte.
pub proof fn lemma_glyph_count()
    ensures
        glyphs().finite(),
        glyphs().len() == 256,
{
    let bytes = set_int_range(0, 256);
    let encode = |i: int| glyph_of(i as u8);
    lemma_int_range(0, 256);
    assert(injective_on(encode, bytes)) by {
        assert forall|i: int, j: int|
            bytes.contains(i) && bytes.contains(j) && #[trigger] encode(i) == #[trigger] encode(
                j,
            ) implies i == j by {
            lemma_glyph_injective(i as u8, j as u8);
        }
    }
    assert(bytes.map(encode) =~= glyphs()) by {
        assert forall|s: Seq<u8>| glyphs().contains(s) implies bytes.map(encode).contains(s) by {
            lemma_glyph_of_value(s);
            let i = glyph_value(s) as int;
            assert(bytes.contains(i) && s == encode(i));
        }
        assert forall|s: Seq<u8>| bytes.map(encode).contains(s) implies glyphs().contains(s) by {
            let i = choose|i: int| bytes.contains(i) && s == encode(i);
            lemma_round_trip(i as u8);
        }
    }
    lemma_map_size(bytes, glyphs(), encode);
}

/// The glyph of byte `b` is the UTF-8 encoding of the code point `BASE + b`.
pub proof fn lemma_glyph_is_utf8(b: u8)
    ensures
        glyph_of(b) == encode_scalar((BASE + b) as u32),
{
    let c: u32 = (BASE + b) as u32;
    assert(0xF0u8 | ((c >> 18) & 0x7) as u8 == 240u8 && 0x80u8 | ((c >> 12) & 0x3F) as u8 == 159u8
        && 0x80u8 | ((c >> 6) & 0x3F) as u8 == 128u8 + (c / 64u32) % 64u32 && 0x80u8 | (c
        & 0x3F) as u8 == 128u8 + c % 64u32) by (bit_vector)
        requires
            127991u32 <= c <= 128246u32,
    ;
    assert(glyph_of(b) =~= encode_scalar(c));
}

} // verus!
