use base100::{encode_into, to_emoticon, DecodeError, Decoder};

/// Every byte value once, then a few more bytes, so that chunk ends fall everywhere.
fn sample() -> Vec<u8> {
    let mut bytes: Vec<u8> = Vec::new();
    for i in 0..256 {
        bytes.push(i as u8);
    }
    bytes.extend_from_slice(&[0, 255, 8, 9, 200, 201, 72]);
    bytes
}

fn encode(bytes: &[u8]) -> Vec<u8> {
    let mut out: Vec<u8> = Vec::new();
    encode_into(bytes, &mut out);
    out
}

/// Feeds `chunks` to a fresh decoder, one after the other. Gives what came out, and how many
/// bytes were left pending, or the error.
fn decode_chunks(chunks: &[&[u8]]) -> (Vec<u8>, Result<usize, DecodeError>) {
    let mut out: Vec<u8> = Vec::new();
    let mut decoder = Decoder::new();
    for chunk in chunks {
        match decoder.feed(chunk, &mut out) {
            Ok(next) => decoder = next,
            Err(e) => return (out, Err(e)),
        }
    }
    (out, Ok(decoder.remain()))
}

#[test]
fn encode_gives_four_bytes_per_byte() {
    assert_eq!(encode(&[]), Vec::<u8>::new());
    assert_eq!(encode(&[0]), vec![240, 159, 143, 183]);
    assert_eq!(encode(&[0, 255]), vec![240, 159, 143, 183, 240, 159, 147, 182]);
    assert_eq!(
        encode(&[104, 105, 10]),
        vec![240, 159, 145, 159, 240, 159, 145, 160, 240, 159, 144, 129]
    );
    assert_eq!(encode(&sample()).len(), 4 * sample().len());
}

#[test]
fn encode_is_glyph_after_glyph() {
    let bytes = sample();
    let stream = encode(&bytes);
    for (i, byte) in bytes.iter().enumerate() {
        assert_eq!(stream[4 * i..4 * i + 4], to_emoticon(*byte));
    }
}

#[test]
fn encode_appends_to_what_is_there() {
    let mut out: Vec<u8> = vec![1, 2, 3];
    encode_into(&[9], &mut out);
    assert_eq!(out, vec![1, 2, 3, 240, 159, 144, 128]);
    encode_into(&[], &mut out);
    assert_eq!(out, vec![1, 2, 3, 240, 159, 144, 128]);
}

#[test]
fn encode_in_chunks_equals_one_shot() {
    let bytes = sample();
    let whole = encode(&bytes);
    for size in [1usize, 2, 3, 4, 5, 7, 64, 65, 255, 256, 1000] {
        let mut out: Vec<u8> = Vec::new();
        for chunk in bytes.chunks(size) {
            encode_into(chunk, &mut out);
        }
        assert_eq!(out, whole);
    }
    for at in 0..bytes.len() + 1 {
        let mut out: Vec<u8> = Vec::new();
        encode_into(&bytes[..at], &mut out);
        encode_into(&bytes[at..], &mut out);
        assert_eq!(out, whole);
    }
}

#[test]
fn encode_large_input_in_chunks() {
    let mut bytes: Vec<u8> = Vec::new();
    for i in 0..200_000 {
        bytes.push((i * 7 + i / 256) as u8);
    }
    let whole = encode(&bytes);
    assert_eq!(whole.len(), 800_000);
    let mut out: Vec<u8> = Vec::new();
    for chunk in bytes.chunks(65536) {
        encode_into(chunk, &mut out);
    }
    assert_eq!(out, whole);
    assert_eq!(decode_chunks(&[&whole]), (bytes, Ok(0)));
}

#[test]
fn decode_undoes_encode() {
    let bytes = sample();
    let stream = encode(&bytes);
    assert_eq!(decode_chunks(&[&stream]), (bytes, Ok(0)));
    assert_eq!(decode_chunks(&[&[240, 159, 143, 183]]), (vec![0], Ok(0)));
    assert_eq!(decode_chunks(&[&[240, 159, 147, 182]]), (vec![255], Ok(0)));
    assert_eq!(
        decode_chunks(&[&[240, 159, 145, 159, 240, 159, 145, 160, 240, 159, 144, 129]]),
        (vec![104, 105, 10], Ok(0))
    );
}

#[test]
fn new_decoder_has_nothing_pending() {
    assert_eq!(Decoder::new().remain(), 0);
    assert_eq!(decode_chunks(&[]), (Vec::new(), Ok(0)));
    assert_eq!(decode_chunks(&[&[]]), (Vec::new(), Ok(0)));
}

#[test]
fn decode_split_at_every_offset() {
    let bytes = sample();
    let stream = encode(&bytes);
    let whole = decode_chunks(&[&stream]);
    assert_eq!(whole, (bytes, Ok(0)));
    for at in 0..stream.len() + 1 {
        assert_eq!(decode_chunks(&[&stream[..at], &stream[at..]]), whole);
    }
}

#[test]
fn decode_split_inside_one_glyph() {
    let glyph: [u8; 4] = to_emoticon(137);
    for at in 0..5 {
        assert_eq!(decode_chunks(&[&glyph[..at], &glyph[at..]]), (vec![137], Ok(0)));
    }
    let mut out: Vec<u8> = Vec::new();
    let first = Decoder::new().feed(&glyph[..3], &mut out).unwrap();
    assert_eq!(out, Vec::<u8>::new());
    assert_eq!(first.remain(), 3);
    let second = first.feed(&glyph[3..], &mut out).unwrap();
    assert_eq!(out, vec![137]);
    assert_eq!(second.remain(), 0);
}

#[test]
fn decode_split_in_three() {
    let bytes = sample();
    let stream = encode(&bytes[..12]);
    for a in 0..stream.len() + 1 {
        for b in a..stream.len() + 1 {
            assert_eq!(
                decode_chunks(&[&stream[..a], &stream[a..b], &stream[b..]]),
                (bytes[..12].to_vec(), Ok(0))
            );
        }
    }
}

#[test]
fn decode_one_byte_at_a_time() {
    let bytes = sample();
    let stream = encode(&bytes);
    let mut out: Vec<u8> = Vec::new();
    let mut decoder = Decoder::new();
    for (i, byte) in stream.iter().enumerate() {
        decoder = decoder.feed(&[*byte], &mut out).unwrap();
        assert_eq!(decoder.remain(), (i + 1) % 4);
        assert_eq!(out.len(), (i + 1) / 4);
    }
    assert_eq!(out, bytes);
}

#[test]
fn decode_in_chunks_of_any_size() {
    let bytes = sample();
    let stream = encode(&bytes);
    for size in [1usize, 2, 3, 4, 5, 6, 7, 8, 9, 13, 64, 1000, 4096] {
        let chunks: Vec<&[u8]> = stream.chunks(size).collect();
        assert_eq!(decode_chunks(&chunks), (bytes.clone(), Ok(0)));
    }
}

#[test]
fn trailing_bytes_are_dropped() {
    let bytes = sample();
    let stream = encode(&bytes);
    assert_eq!(decode_chunks(&[&stream]), (bytes.clone(), Ok(0)));
    let tails: [&[u8]; 6] = [&[7], &[240], &[7, 7], &[240, 159], &[0, 1, 2], &[240, 159, 143]];
    for tail in tails {
        let mut longer = stream.clone();
        longer.extend_from_slice(tail);
        assert_eq!(decode_chunks(&[&longer]), (bytes.clone(), Ok(tail.len())));
        assert_eq!(decode_chunks(&[&stream, tail]), (bytes.clone(), Ok(tail.len())));
    }
    assert_eq!(decode_chunks(&[&[1, 2, 3]]), (Vec::new(), Ok(3)));
}

#[test]
fn malformed_glyph_stops_decoding() {
    let mut stream = encode(&[10, 20, 30, 40]);
    stream[11] = 10;
    assert_eq!(decode_chunks(&[&stream]), (vec![10, 20], Err(DecodeError)));
    for at in 0..stream.len() + 1 {
        assert_eq!(
            decode_chunks(&[&stream[..at], &stream[at..]]),
            (vec![10, 20], Err(DecodeError))
        );
    }
    assert_eq!(decode_chunks(&[&[240, 159, 143, 182]]), (Vec::new(), Err(DecodeError)));
    assert_eq!(decode_chunks(&[&[240, 159, 147, 183]]), (Vec::new(), Err(DecodeError)));
    assert_eq!(decode_chunks(&[b"text"]), (Vec::new(), Err(DecodeError)));
}

#[test]
fn malformed_glyph_across_chunks() {
    let mut out: Vec<u8> = Vec::new();
    let decoder = Decoder::new().feed(&[240, 159], &mut out).unwrap();
    assert_eq!(decoder.remain(), 2);
    assert!(decoder.feed(&[143, 182, 240, 159, 143, 183], &mut out).is_err());
    assert_eq!(out, Vec::<u8>::new());
}

#[test]
fn decode_appends_to_what_is_there() {
    let mut out: Vec<u8> = vec![1, 2, 3];
    let decoder = Decoder::new().feed(&[240, 159, 144, 128, 240], &mut out).unwrap();
    assert_eq!(out, vec![1, 2, 3, 9]);
    assert_eq!(decoder.remain(), 1);
}
