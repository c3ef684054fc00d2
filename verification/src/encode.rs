//! Encoding of a stream, one chunk at a time.
//!
//! Every byte of the input becomes the four bytes of its glyph. Nothing is kept between chunks,
//! so a stream may be cut into chunks anywhere.
use crate::glyph::{glyph_of, to_emoticon};
use vstd::prelude::*;

verus! {

/// The encoding of `bytes`: the glyphs of its bytes, one after the other.
pub open spec fn encoded(bytes: Seq<u8>) -> Seq<u8> {
    Seq::new(4 * bytes.len(), |i: int| glyph_of(bytes[i / 4])[i % 4])
}

/// Encoding a stream piece by piece gives the encoding of the whole stream.
pub proof fn lemma_encoded_concat(a: Seq<u8>, b: Seq<u8>)
    ensures
        encoded(a + b) == encoded(a) + encoded(b),
{
    assert(encoded(a + b) =~= encoded(a) + encoded(b));
}

/// The encoding of a stream that is cut into any number of chunks is the encodings of the
/// chunks, one after the other.
pub proof fn lemma_encoded_chunks(chunks: Seq<Seq<u8>>)
    ensures
        encoded(chunks.flatten()) == chunks.map_values(|c: Seq<u8>| encoded(c)).flatten(),
    decreases chunks.len(),
{
    let each = |c: Seq<u8>| encoded(c);
    if chunks.len() == 0 {
        assert(encoded(chunks.flatten()) =~= Seq::<u8>::empty());
    } else {
        let rest = chunks.drop_first();
        lemma_encoded_chunks(rest);
        lemma_encoded_concat(chunks.first(), rest.flatten());
        assert(chunks.map_values(each).drop_first() =~= rest.map_values(each));
    }
}

/// Appends the encoding of `input` to `out`.
pub fn encode_into(input: &[u8], out: &mut Vec<u8>)
    ensures
        final(out)@ == old(out)@ + encoded(input@),
        final(out)@.len() == old(out)@.len() + 4 * input@.len(),
{
    let ghost before = out@;
    let mut i: usize = 0;
    while i < input.len()
        invariant
            i <= input@.len(),
            out@ == before + encoded(input@.take(i as int)),
        decreases input@.len() - i,
    {
        let glyph: [u8; 4] = to_emoticon(input[i]);
        out.push(glyph[0]);
        out.push(glyph[1]);
        out.push(glyph[2]);
        out.push(glyph[3]);
        proof {
            let done = input@.take(i as int);
            lemma_encoded_concat(done, seq![input@[i as int]]);
            assert(input@.take(i + 1) =~= done + seq![input@[i as int]]);
            assert(encoded(seq![input@[i as int]]) =~= glyph@);
            assert(out@ =~= before + encoded(done) + glyph@);
        }
        i += 1;
    }
    assert(input@.take(i as int) =~= input@);
}

} // verus!
