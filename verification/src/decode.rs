//! Decoding of a stream, one chunk at a time.
//!
//! The input is read in groups of four bytes, and each group must be a glyph. A chunk may end
//! inside a group: a [`Decoder`] keeps the bytes of the group that was cut short, at most three
//! of them, and completes the group from the next chunk.
use crate::encode::encoded;
use crate::glyph::{from_emoticon, glyph_of, glyph_value, is_glyph, lemma_round_trip, DecodeError};
use vstd::prelude::*;
use vstd::slice::slice_subrange;

verus! {

/// The `k`-th group of four bytes of `s`.
pub open spec fn glyph_at(s: Seq<u8>, k: int) -> Seq<u8> {
    s.subrange(4 * k, 4 * k + 4)
}

/// Whether every complete group of four bytes of `s` is a glyph. Up to three bytes at the end
/// belong to no complete group and are not looked at.
pub open spec fn well_formed(s: Seq<u8>) -> bool {
    forall|k: int| 0 <= k < s.len() / 4 ==> is_glyph(#[trigger] glyph_at(s, k))
}

/// The bytes at the end of `s` that belong to no complete group of four.
pub open spec fn leftover(s: Seq<u8>) -> Seq<u8> {
    s.skip(4 * (s.len() as int / 4))
}

/// What decoding `s` gives. Decoding takes group after group of four bytes from the front of
/// `s`, and stops where fewer than four bytes are left, or at the first group that is not a
/// glyph.
pub open spec fn decoded(s: Seq<u8>) -> Seq<u8>
    decreases s.len(),
{
    if s.len() >= 4 && is_glyph(s.take(4)) {
        seq![glyph_value(s.take(4))] + decoded(s.skip(4))
    } else {
        Seq::empty()
    }
}

/// What a decoder that holds `pending` gives when it is fed `chunks` one after the other: the
/// bytes that come out and, unless a chunk made decoding fail, the bytes that stay pending.
pub open spec fn fed(pending: Seq<u8>, chunks: Seq<Seq<u8>>) -> (Seq<u8>, Option<Seq<u8>>)
    decreases chunks.len(),
{
    if chunks.len() == 0 {
        (Seq::empty(), Some(pending))
    } else {
        let input = pending + chunks.first();
        if well_formed(input) {
            let later = fed(leftover(input), chunks.drop_first());
            (decoded(input) + later.0, later.1)
        } else {
            (decoded(input), None)
        }
    }
}

/// Moves bytes of `chunk`, from the offset `from` on, behind the first `held` bytes of `carry`,
/// until `carry` holds four bytes or `chunk` ends. Returns the carry and how many bytes it holds.
fn top_up(carry: [u8; 4], held: usize, chunk: &[u8], from: usize) -> (res: ([u8; 4], usize))
    requires
        held <= 4,
        from <= chunk@.len(),
    ensures
        held <= res.1 <= 4,
        res.1 - held <= chunk@.len() - from,
        res.1 == 4 || res.1 - held == chunk@.len() - from,
        res.0@.take(res.1 as int) == carry@.take(held as int) + chunk@.subrange(
            from as int,
            from + res.1 - held,
        ),
{
    let mut filled: [u8; 4] = carry;
    let mut n: usize = held;
    let mut at: usize = from;
    while n < 4 && at < chunk.len()
        invariant
            held <= n <= 4,
            at == from + (n - held),
            at <= chunk@.len(),
            forall|j: int| 0 <= j < held ==> filled@[j] == carry@[j],
            forall|j: int| held <= j < n ==> filled@[j] == chunk@[from + (j - held)],
        decreases 4 - n,
    {
        filled[n] = chunk[at];
        n += 1;
        at += 1;
    }
    assert(filled@.take(n as int) =~= carry@.take(held as int) + chunk@.subrange(
        from as int,
        at as int,
    ));
    (filled, n)
}

/// What decoding keeps between two chunks: the first bytes of a glyph whose other bytes have
/// not been read yet. There are never more than three of them.
#[derive(Debug)]
pub struct Decoder {
    carry: [u8; 4],
    remain: usize,
}

impl Decoder {
    #[verifier::type_invariant]
    spec fn carry_is_short(self) -> bool {
        self.remain < 4
    }

    /// The bytes that wait for the rest of their glyph.
    pub closed spec fn pending(self) -> Seq<u8> {
        self.carry@.take(self.remain as int)
    }

    /// A decoder at the start of a stream, with nothing pending.
    pub fn new() -> (decoder: Decoder)
        ensures
            decoder.pending() == Seq::<u8>::empty(),
    {
        Decoder { carry: [0, 0, 0, 0], remain: 0 }
    }

    /// The number of pending bytes.
    pub fn remain(&self) -> (n: usize)
        ensures
            n == self.pending().len(),
            n < 4,
    {
        proof {
            use_type_invariant(self);
        }
        self.remain
    }

    /// Decodes the next chunk of a stream.
    ///
    /// The pending bytes and `chunk` together are the input. Its groups of four bytes are
    /// decoded in order and the bytes they stand for are appended to `out`, up to the first
    /// group that is not a glyph. If every complete group is a glyph, the decoder for the next
    /// chunk is returned, with the bytes after the last complete group pending. If one is not,
    /// the stream cannot be decoded any further and the error is returned.
    pub fn feed(self, chunk: &[u8], out: &mut Vec<u8>) -> (res: Result<Decoder, DecodeError>)
        ensures
            final(out)@ == old(out)@ + decoded(self.pending() + chunk@),
            match res {
                Ok(next) => {
                    &&& well_formed(self.pending() + chunk@)
                    &&& next.pending() == leftover(self.pending() + chunk@)
                    &&& next.pending().len() == (self.pending().len() + chunk@.len()) % 4
                    &&& final(out)@.len() == old(out)@.len() + (self.pending().len()
                        + chunk@.len()) / 4
                },
                Err(_) => !well_formed(self.pending() + chunk@),
            },
    {
        let ghost input = self.pending() + chunk@;
        proof {
            use_type_invariant(&self);
            lemma_decoded_glyphs(input);
        }
        // The first group: what is pending, completed from the chunk.
        let (first, held) = top_up(self.carry, self.remain, chunk, 0);
        assert(first@.take(held as int) =~= input.take(held as int));
        if held < 4 {
            assert(leftover(input) =~= input);
            return Ok(Decoder { carry: first, remain: held });
        }
        let mut pos: usize = 4 - self.remain;
        proof {
            lemma_first_group(input);
            assert(first@.take(4) =~= input.take(4));
            assert(input.skip(4) =~= chunk@.skip(pos as int));
        }
        match from_emoticon(&first) {
            Ok(byte) => {
                out.push(byte);
            },
            Err(e) => {
                return Err(e);
            },
        }
        assert(old(out)@ + decoded(input) =~= out@ + decoded(chunk@.skip(pos as int)));
        // The groups that lie inside the chunk.
        let ghost mut groups: int = 1;
        while chunk.len() - pos >= 4
            invariant
                input == self.pending() + chunk@,
                pos <= chunk@.len(),
                self.pending().len() + pos == 4 * groups,
                forall|k: int| 0 <= k < groups ==> is_glyph(#[trigger] glyph_at(input, k)),
                old(out)@ + decoded(input) == out@ + decoded(chunk@.skip(pos as int)),
            decreases chunk@.len() - pos,
        {
            let ghost rest = chunk@.skip(pos as int);
            let group = slice_subrange(chunk, pos, pos + 4);
            proof {
                assert(group@.take(4) =~= rest.take(4));
                assert(rest.take(4) =~= glyph_at(input, groups));
                assert(rest.skip(4) =~= chunk@.skip(pos + 4));
            }
            match from_emoticon(group) {
                Ok(byte) => {
                    out.push(byte);
                },
                Err(e) => {
                    assert(out@ + decoded(rest) =~= out@);
                    return Err(e);
                },
            }
            assert(old(out)@ + decoded(input) =~= out@ + decoded(rest.skip(4)));
            pos += 4;
            proof {
                groups = groups + 1;
            }
        }
        // What is left belongs to a glyph that the next chunk completes.
        let (carry, remain) = top_up(first, 0, chunk, pos);
        proof {
            assert(out@ + decoded(chunk@.skip(pos as int)) =~= out@);
            assert(leftover(input) =~= chunk@.skip(pos as int));
            assert(carry@.take(remain as int) =~= chunk@.skip(pos as int));
        }
        Ok(Decoder { carry, remain })
    }
}

/// How a stream of at least four bytes relates to the stream after its first group.
proof fn lemma_first_group(s: Seq<u8>)
    requires
        s.len() >= 4,
    ensures
        glyph_at(s, 0) == s.take(4),
        well_formed(s) <==> is_glyph(s.take(4)) && well_formed(s.skip(4)),
        leftover(s) == leftover(s.skip(4)),
{
    let rest = s.skip(4);
    assert(glyph_at(s, 0) =~= s.take(4));
    assert(leftover(s) =~= leftover(rest));
    assert forall|k: int| 0 <= k < rest.len() / 4 implies #[trigger] glyph_at(rest, k) == glyph_at(
        s,
        k + 1,
    ) by {
        assert(glyph_at(rest, k) =~= glyph_at(s, k + 1));
    }
    if is_glyph(s.take(4)) && well_formed(rest) {
        assert forall|k: int| 0 <= k < s.len() / 4 implies is_glyph(#[trigger] glyph_at(s, k)) by {
            if k > 0 {
                assert(glyph_at(rest, k - 1) == glyph_at(s, k));
            }
        }
    }
    if well_formed(s) {
        assert(is_glyph(glyph_at(s, 0)));
        assert forall|k: int| 0 <= k < rest.len() / 4 implies is_glyph(
            #[trigger] glyph_at(rest, k),
        ) by {
            assert(is_glyph(glyph_at(s, k + 1)));
        }
    }
}

/// The decoded bytes are the values of the groups of `s`, in order, up to the end of the last
/// complete group or to the first group that is not a glyph. All of `s` is decoded exactly when
/// `s` is well formed.
pub proof fn lemma_decoded_glyphs(s: Seq<u8>)
    ensures
        decoded(s).len() <= s.len() / 4,
        forall|k: int|
            0 <= k < decoded(s).len() ==> is_glyph(#[trigger] glyph_at(s, k)) && decoded(s)[k]
                == glyph_value(glyph_at(s, k)),
        decoded(s).len() < s.len() / 4 ==> !is_glyph(glyph_at(s, decoded(s).len() as int)),
        well_formed(s) <==> decoded(s).len() == s.len() / 4,
    decreases s.len(),
{
    if s.len() >= 4 {
        let rest = s.skip(4);
        lemma_first_group(s);
        if is_glyph(s.take(4)) {
            lemma_decoded_glyphs(rest);
            assert forall|k: int| 0 <= k < decoded(s).len() implies is_glyph(
                #[trigger] glyph_at(s, k),
            ) && decoded(s)[k] == glyph_value(glyph_at(s, k)) by {
                if k > 0 {
                    assert(glyph_at(rest, k - 1) =~= glyph_at(s, k));
                }
            }
            if decoded(s).len() < s.len() / 4 {
                let stop = decoded(rest).len() as int;
                assert(glyph_at(rest, stop) =~= glyph_at(s, stop + 1));
            }
        }
    }
}

/// Decoding a stream in two pieces. The first piece `a` is decoded as far as its complete groups
/// go; what is left over of it is put in front of the second piece `b`. If `a` is well formed,
/// the two outputs together are the output for the whole stream, and so is what is left over at
/// the end. If it is not, decoding the whole stream stops where decoding `a` stopped.
pub proof fn lemma_decoded_concat(a: Seq<u8>, b: Seq<u8>)
    ensures
        well_formed(a + b) <==> well_formed(a) && well_formed(leftover(a) + b),
        well_formed(a) ==> decoded(a + b) == decoded(a) + decoded(leftover(a) + b),
        well_formed(a) ==> leftover(a + b) == leftover(leftover(a) + b),
        !well_formed(a) ==> decoded(a + b) == decoded(a),
    decreases a.len(),
{
    if a.len() < 4 {
        assert(leftover(a) =~= a);
        assert(decoded(a) + decoded(a + b) =~= decoded(a + b));
    } else {
        let rest = a.skip(4);
        lemma_first_group(a);
        lemma_first_group(a + b);
        assert((a + b).take(4) =~= a.take(4));
        assert((a + b).skip(4) =~= rest + b);
        if is_glyph(a.take(4)) {
            lemma_decoded_concat(rest, b);
            if well_formed(a) {
                assert(decoded(a + b) =~= decoded(a) + decoded(leftover(a) + b));
            }
        }
    }
}

/// Splitting the input between two reads does not change the result. A decoder holds `pending`
/// and is fed `stream`, either in one piece or cut at the offset `at`, wherever that falls
/// inside a glyph. Either way the same bytes come out, the same bytes stay pending, and
/// decoding fails in the one case exactly when it fails in the other.
pub proof fn lemma_feed_split(pending: Seq<u8>, stream: Seq<u8>, at: int)
    requires
        0 <= at <= stream.len(),
    ensures
        ({
            let whole = pending + stream;
            let first = pending + stream.take(at);
            let second = leftover(first) + stream.skip(at);
            &&& well_formed(whole) <==> well_formed(first) && well_formed(second)
            &&& well_formed(first) ==> decoded(whole) == decoded(first) + decoded(second)
            &&& well_formed(first) ==> leftover(whole) == leftover(second)
            &&& !well_formed(first) ==> decoded(whole) == decoded(first)
        }),
{
    let first = pending + stream.take(at);
    assert(first + stream.skip(at) =~= pending + stream);
    lemma_decoded_concat(first, stream.skip(at));
}

/// However a stream is cut into chunks, feeding the chunks one after the other gives what
/// feeding the whole stream at once gives: the same bytes come out, and either the same bytes
/// stay pending or decoding fails both ways.
pub proof fn lemma_fed_chunks(pending: Seq<u8>, chunks: Seq<Seq<u8>>)
    requires
        pending.len() < 4,
    ensures
        fed(pending, chunks).0 == decoded(pending + chunks.flatten()),
        fed(pending, chunks).1 == if well_formed(pending + chunks.flatten()) {
            Some(leftover(pending + chunks.flatten()))
        } else {
            None
        },
    decreases chunks.len(),
{
    if chunks.len() == 0 {
        assert(pending + chunks.flatten() =~= pending);
        assert(leftover(pending) =~= pending);
    } else {
        let input = pending + chunks.first();
        let rest = chunks.drop_first();
        assert(input + rest.flatten() =~= pending + chunks.flatten());
        lemma_decoded_concat(input, rest.flatten());
        if well_formed(input) {
            lemma_fed_chunks(leftover(input), rest);
        }
    }
}

/// Decoding undoes encoding, whatever follows the last glyph: the encoding of `bytes`, followed
/// by up to three more bytes, is well formed and decodes to `bytes`, and the bytes that follow
/// are left over.
pub proof fn lemma_stream_round_trip(bytes: Seq<u8>, extra: Seq<u8>)
    requires
        extra.len() < 4,
    ensures
        well_formed(encoded(bytes) + extra),
        decoded(encoded(bytes) + extra) == bytes,
        leftover(encoded(bytes) + extra) == extra,
    decreases bytes.len(),
{
    let s = encoded(bytes) + extra;
    if bytes.len() == 0 {
        assert(leftover(s) =~= extra);
        assert(decoded(s) =~= bytes);
    } else {
        let rest = bytes.drop_first();
        lemma_stream_round_trip(rest, extra);
        lemma_first_group(s);
        lemma_round_trip(bytes[0]);
        assert(s.take(4) =~= glyph_of(bytes[0]));
        assert(s.skip(4) =~= encoded(rest) + extra);
        assert(decoded(s) =~= bytes);
    }
}

} // verus!
