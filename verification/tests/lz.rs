use orz::consts::{LZ_CHUNK_OVERHEAD, LZ_CHUNK_SIZE, LZ_ITEM_MAX_SIZE};
use orz::lz::{hash1, hash2};
use orz::{DecodeError, LZCfg, LZDecoder, LZEncoder};

const START: usize = 4;

fn cfg() -> LZCfg {
    LZCfg { match_depth: 16, lazy_match_depth1: 8, lazy_match_depth2: 4 }
}

fn text_of(data: &[u8]) -> Vec<u8> {
    let mut text = vec![0u8; START];
    text.extend_from_slice(data);
    text
}

fn encode_all(encoder: &mut LZEncoder, cfg: &LZCfg, text: &[u8]) -> Vec<Vec<u8>> {
    let mut chunks = Vec::new();
    let mut pos = START;
    while pos < text.len() {
        let mut target = vec![0u8; LZ_CHUNK_OVERHEAD + LZ_ITEM_MAX_SIZE * (text.len() - pos)];
        let (end, size) = encoder.encode(cfg, text, &mut target, pos);
        assert!(pos < end && end <= text.len());
        target.truncate(size);
        chunks.push(target);
        pos = end;
    }
    chunks
}

fn decode_all(decoder: &mut LZDecoder, chunks: &[Vec<u8>], room: usize) -> Vec<u8> {
    let mut text = vec![0u8; room];
    let mut pos = START;
    for chunk in chunks {
        let (end, size) = decoder.decode(chunk, &mut text, pos).unwrap();
        assert_eq!(size, chunk.len());
        pos = end;
    }
    text.truncate(pos);
    text
}

fn round_trip(data: &[u8], cfg: &LZCfg) -> usize {
    let text = text_of(data);
    let chunks = encode_all(&mut LZEncoder::default(), cfg, &text);
    let back = decode_all(&mut LZDecoder::default(), &chunks, text.len());
    assert_eq!(back, text);
    chunks.iter().map(|c| c.len()).sum()
}

fn noise(n: usize, seed: u32) -> Vec<u8> {
    let mut x = seed;
    (0..n)
        .map(|_| {
            x = x.wrapping_mul(1664525).wrapping_add(1013904223);
            (x >> 24) as u8
        })
        .collect()
}

fn prose(n: usize) -> Vec<u8> {
    let words = ["the ", "quick ", "brown ", "fox ", "jumps ", "over ", "a ", "lazy ", "dog. "];
    let mut x: u32 = 7;
    let mut out = Vec::new();
    while out.len() < n {
        x = x.wrapping_mul(1664525).wrapping_add(1013904223);
        out.extend_from_slice(words[(x >> 20) as usize % words.len()].as_bytes());
    }
    out.truncate(n);
    out
}

#[test]
fn a_small_chunk_has_these_bytes() {
    let text = text_of(b"aab");
    let mut target = vec![0xeeu8; 1200];
    let (end, size) = LZEncoder::default().encode(&cfg(), &text, &mut target, START);
    assert_eq!(end, 7);
    assert_eq!(size, 1102);
    assert_eq!(&target[0..6], &[97, 0, 98, 0, 0, 0]);
    assert_eq!(&target[776..778], &[388u16 as u8, 1]);
    assert_eq!(&target[778..786], &[0, 0, 0, 7, 0, 0, 0, 3]);
    assert_eq!(target[786], 0x11);
    assert!(target[787..1101].iter().all(|&b| b == 0));
    assert_eq!(target[1101], 0x20);
    assert!(target[1102..].iter().all(|&b| b == 0xee));
}

#[test]
fn an_empty_chunk_is_accepted() {
    let text = text_of(b"");
    let mut target = vec![0u8; 1101];
    let mut encoder = LZEncoder::default();
    assert_eq!(encoder.encode(&cfg(), &text, &mut target, START), (4, 1101));
    let mut back = text.clone();
    assert_eq!(LZDecoder::default().decode(&target, &mut back, START), Ok((4, 1101)));
    assert_eq!(encoder.encode(&cfg(), &text, &mut target, START), (4, 323));
}

#[test]
fn nothing_to_encode_needs_no_context() {
    let mut target = vec![0u8; LZ_CHUNK_OVERHEAD];
    assert_eq!(LZEncoder::default().encode(&cfg(), &[], &mut target, 0), (0, 1101));
    assert_eq!(LZDecoder::default().decode(&target, &mut [], 0), Ok((0, 1101)));
}

#[test]
fn a_position_behind_the_text_has_nothing_to_encode() {
    let mut target = vec![0u8; LZ_CHUNK_OVERHEAD];
    let mut encoder = LZEncoder::default();
    assert_eq!(encoder.encode(&cfg(), &[7, 7, 7, 7], &mut target, 9), (9, 1101));
    let symbols: Vec<u16> = (0..389).map(|i| u16::from_le_bytes([target[2 * i], target[2 * i + 1]])).collect();
    assert_eq!(symbols, (0..389).collect::<Vec<u16>>());
    assert_eq!(&target[778..786], &[0, 0, 0, 4, 0, 0, 0, 0]);
    let mut text = [1, 2];
    let mut decoder = LZDecoder::default();
    assert_eq!(decoder.decode(&target, &mut text, 9), Ok((4, 1101)));
    assert_eq!(text, [1, 2]);
    assert_eq!(encoder.encode(&cfg(), &[7, 7, 7, 7], &mut target, 9), (9, 323));
    assert_eq!(&target[..8], &[0, 0, 0, 4, 0, 0, 0, 0]);
    assert_eq!(decoder.decode(&target[..323], &mut text, 3), Ok((3, 323)));
}

#[test]
fn a_target_that_reaches_to_the_end_of_the_chunk_suffices() {
    let text = text_of(&noise(LZ_CHUNK_SIZE + 1000, 5));
    let mut target = vec![0u8; LZ_CHUNK_OVERHEAD + LZ_ITEM_MAX_SIZE * LZ_CHUNK_SIZE];
    let (end, size) = LZEncoder::default().encode(&cfg(), &text, &mut target, START);
    assert!(end < text.len());
    let mut back = text[..START].to_vec();
    back.resize(end, 0);
    assert_eq!(LZDecoder::default().decode(&target[..size], &mut back, START), Ok((end, size)));
    assert_eq!(back, &text[..end]);
}

#[test]
fn full_chunks_bound_the_number_of_chunks() {
    let n = 2 * LZ_CHUNK_SIZE + 10;
    let chunks = encode_all(&mut LZEncoder::default(), &cfg(), &text_of(&noise(n, 6)));
    assert!(!chunks.is_empty() && LZ_CHUNK_SIZE * chunks.len() < n + LZ_CHUNK_SIZE);
}

#[test]
fn contexts_are_made_of_the_last_bytes() {
    assert_eq!(hash1(b".a", 1), 0x61);
    assert_eq!(hash1(b"za", 1), 0x61 + 128);
    assert_eq!(hash1(b"x9\xe1", 2), hash1(b"Za", 1));
    assert_eq!(hash2(b".ab", 2), 0x62 + 128 * 0x61);
    assert_eq!(hash2(b"abc", 2), hash2(b"--abc", 4));
    assert_eq!(hash2(b"\xff\xff\xff", 2), 127 + 128 * 127);
    assert_eq!(hash2(b"z\xff\xff", 2), 32767);
}

#[test]
fn a_rejected_first_chunk_is_a_first_chunk() {
    let mut target = vec![0u8; LZ_CHUNK_OVERHEAD];
    LZEncoder::default().encode(&cfg(), &[], &mut target, 0);
    let mut decoder = LZDecoder::default();
    assert_eq!(decoder.decode(&[], &mut [], 0), Err(DecodeError::InvalidData));
    assert_eq!(decoder.decode(&target[778..], &mut [], 0), Ok((0, 323)));
}

#[test]
fn short_texts_round_trip() {
    round_trip(b"a", &cfg());
    round_trip(b"ab", &cfg());
    round_trip(b"abcabcabcabc", &cfg());
    round_trip(&[0; 5], &cfg());
    round_trip(&[255; 1], &cfg());
}

#[test]
fn every_byte_round_trips() {
    let data: Vec<u8> = (0..=255u8).collect();
    round_trip(&data, &cfg());
}

#[test]
fn runs_round_trip_and_shrink() {
    let size = round_trip(&[b'x'; 20000], &cfg());
    assert!(size < 1500);
}

#[test]
fn noise_round_trips() {
    round_trip(&noise(20000, 1), &cfg());
}

#[test]
fn prose_round_trips_and_shrinks() {
    let size = round_trip(&prose(50000), &cfg());
    assert!(size < 20000);
}

#[test]
fn depths_do_not_change_what_is_decoded() {
    let data = prose(8000);
    for (a, b, c) in [(0, 0, 0), (1, 0, 0), (1, 1, 1), (64, 32, 16), (usize::MAX, usize::MAX, usize::MAX)] {
        round_trip(&data, &LZCfg { match_depth: a, lazy_match_depth1: b, lazy_match_depth2: c });
    }
}

#[test]
fn no_search_means_no_match() {
    let none = LZCfg { match_depth: 0, lazy_match_depth1: 0, lazy_match_depth2: 0 };
    let data = noise(3000, 5);
    let mut doubled = data.clone();
    doubled.extend_from_slice(&data);
    assert!(round_trip(&doubled, &cfg()) < round_trip(&doubled, &none));
}

#[test]
fn a_chunk_ends_when_it_is_full() {
    let none = LZCfg { match_depth: 0, lazy_match_depth1: 0, lazy_match_depth2: 0 };
    let text = text_of(&noise(LZ_CHUNK_SIZE + 70000, 9));
    let mut encoder = LZEncoder::default();
    let mut decoder = LZDecoder::default();
    let mut target = vec![0u8; LZ_CHUNK_OVERHEAD + LZ_ITEM_MAX_SIZE * LZ_CHUNK_SIZE];
    let mut back = vec![0u8; text.len()];
    let (end1, size1) = encoder.encode(&none, &text, &mut target, START);
    assert!(end1 - START >= LZ_CHUNK_SIZE && end1 < text.len());
    assert_eq!(&target[782..786], &[0, 16, 0, 0]);
    assert_eq!(decoder.decode(&target[..size1], &mut back, START), Ok((end1, size1)));
    let (end2, size2) = encoder.encode(&none, &text, &mut target, end1);
    assert_eq!(end2, text.len());
    assert_eq!(decoder.decode(&target[..size2], &mut back, end1), Ok((end2, size2)));
    assert_eq!(back, text);
}

#[test]
fn coders_stay_in_step_when_the_text_moves() {
    let data = prose(30000);
    let text = text_of(&data);
    let mut encoder = LZEncoder::default();
    let mut decoder = LZDecoder::default();
    let chunks = encode_all(&mut encoder, &cfg(), &text);
    let back = decode_all(&mut decoder, &chunks, text.len());
    assert_eq!(back, text);

    let keep = 10000;
    let shift = text.len() - keep;
    encoder.forward(shift);
    decoder.forward(shift);
    let mut moved = text[shift..].to_vec();
    moved.extend_from_slice(&data[..9000]);
    let mut target = vec![0u8; LZ_CHUNK_OVERHEAD + LZ_ITEM_MAX_SIZE * 9000];
    let (end, size) = encoder.encode(&cfg(), &moved, &mut target, keep);
    assert_eq!(end, moved.len());
    let mut moved_back = back[shift..].to_vec();
    moved_back.resize(moved.len(), 0);
    assert_eq!(decoder.decode(&target[..size], &mut moved_back, keep), Ok((end, size)));
    assert_eq!(moved_back, moved);
    assert!(size < 3000);
}

#[test]
fn text_behind_the_chunk_is_left_alone() {
    let text = text_of(b"hello hello hello");
    let chunks = encode_all(&mut LZEncoder::default(), &cfg(), &text);
    let mut back = vec![0xaau8; text.len() + 9];
    back[..START].copy_from_slice(&text[..START]);
    let (end, _) = LZDecoder::default().decode(&chunks[0], &mut back, START).unwrap();
    assert_eq!(end, text.len());
    assert_eq!(&back[..end], &text[..]);
    assert!(back[end..].iter().all(|&b| b == 0xaa));
}

#[test]
fn a_truncated_chunk_is_rejected() {
    let text = text_of(&prose(500));
    let chunk = encode_all(&mut LZEncoder::default(), &cfg(), &text).remove(0);
    for size in [0, 1, 777, 778, 785, 786, 980, 1100, 1101, chunk.len() - 5] {
        let mut back = vec![0u8; text.len()];
        let r = LZDecoder::default().decode(&chunk[..size], &mut back, START);
        assert_eq!(r, Err(DecodeError::InvalidData));
    }
}

#[test]
fn a_rank_that_is_no_symbol_is_rejected() {
    let text = text_of(b"abc");
    let mut chunk = encode_all(&mut LZEncoder::default(), &cfg(), &text).remove(0);
    chunk[0] = 133;
    chunk[1] = 1;
    let mut back = vec![0u8; text.len()];
    let r = LZDecoder::default().decode(&chunk, &mut back, START);
    assert_eq!(r, Err(DecodeError::InvalidData));
}

#[test]
fn an_impossible_code_table_is_rejected() {
    let text = text_of(b"abc");
    let chunk = encode_all(&mut LZEncoder::default(), &cfg(), &text).remove(0);
    for at in [790, 985] {
        let mut broken = chunk.clone();
        broken[at] = 0x11;
        broken[at + 1] = 0x11;
        let mut back = vec![0u8; text.len()];
        let r = LZDecoder::default().decode(&broken, &mut back, START);
        assert_eq!(r, Err(DecodeError::InvalidData));
    }
}

#[test]
fn a_code_of_no_symbol_is_rejected() {
    let text = text_of(b"aaa");
    let mut chunk = encode_all(&mut LZEncoder::default(), &cfg(), &text).remove(0);
    assert_eq!(chunk[786] >> 4, 1);
    chunk[1101] = 0xff;
    let mut back = vec![0u8; text.len()];
    let r = LZDecoder::default().decode(&chunk, &mut back, START);
    assert_eq!(r, Err(DecodeError::InvalidData));
}

#[test]
fn a_text_without_room_is_rejected() {
    let text = text_of(&prose(300));
    let chunk = encode_all(&mut LZEncoder::default(), &cfg(), &text).remove(0);
    let mut back = vec![0u8; text.len() - 1];
    let r = LZDecoder::default().decode(&chunk, &mut back, START);
    assert_eq!(r, Err(DecodeError::InvalidData));
}

/// A chunk of one item, whose rank has a code of one bit, as has the length
/// code when there is one.
fn one_item(first: bool, rank: usize, len_code: Option<usize>) -> Vec<u8> {
    let mut chunk: Vec<u8> = Vec::new();
    if first {
        for v in 0..389u16 {
            chunk.extend_from_slice(&v.to_le_bytes());
        }
    }
    chunk.extend_from_slice(&u32::MAX.to_be_bytes());
    chunk.extend_from_slice(&1u32.to_be_bytes());
    let mut lens = vec![0u8; 195 + 120];
    lens[rank / 2] = if rank % 2 == 0 { 0x10 } else { 0x01 };
    if let Some(code) = len_code {
        lens[195 + code / 2] = if code % 2 == 0 { 0x10 } else { 0x01 };
    }
    chunk.extend_from_slice(&lens);
    chunk.push(0);
    chunk
}

#[test]
fn a_match_with_a_new_bucket_copies_from_the_start() {
    let mut text = *b"abcd....!";
    let chunk = one_item(true, 255, None);
    assert_eq!(LZDecoder::default().decode(&chunk, &mut text, START), Ok((8, 1102)));
    assert_eq!(&text, b"abcdabcd!");
}

#[test]
fn a_match_may_be_longer_than_those_that_are_searched_for() {
    let mut text = b"abcd".to_vec();
    text.resize(4 + 243 + 1, b'!');
    let mut decoder = LZDecoder::default();
    assert_eq!(decoder.decode(&one_item(true, 260, Some(239)), &mut text, START), Ok((247, 1102)));
    assert_eq!(&text[..247], &b"abcd".repeat(62)[..247]);
    assert_eq!(text[247], b'!');
    let mut short = b"abcd".to_vec();
    short.resize(4 + 242, b'!');
    let r = LZDecoder::default().decode(&one_item(true, 260, Some(239)), &mut short, START);
    assert_eq!(r, Err(DecodeError::InvalidData));
}

#[test]
fn a_length_of_no_code_is_taken_as_it_is_read() {
    let mut text = vec![7u8; 4 + 65535 + 4 + 1];
    text[70] = 1;
    let r = LZDecoder::default().decode(&one_item(true, 260, None), &mut text, START);
    assert_eq!(r, Ok((65543, 1102)));
    assert!(text.iter().all(|&b| b == 7));
}

#[test]
fn a_match_with_a_later_position_is_rejected() {
    let mut text = vec![0u8; 200];
    let mut decoder = LZDecoder::default();
    assert_eq!(decoder.decode(&one_item(true, 388, None), &mut text, 100), Ok((101, 1102)));
    let r = decoder.decode(&one_item(false, 255, None), &mut text, START);
    assert_eq!(r, Err(DecodeError::InvalidData));
}

#[test]
fn arbitrary_bytes_never_stop_the_decoder() {
    for seed in 0..40 {
        let bytes = noise(1500, seed);
        let mut text = vec![0u8; 5000];
        let r = LZDecoder::default().decode(&bytes, &mut text, START);
        if let Ok((end, size)) = r {
            assert!(end <= text.len() && size <= bytes.len());
        }
    }
}

#[test]
fn damaged_chunks_never_stop_the_decoder() {
    let text = text_of(&prose(600));
    let chunk = encode_all(&mut LZEncoder::default(), &cfg(), &text).remove(0);
    for i in (0..chunk.len()).step_by(53) {
        let mut broken = chunk.clone();
        broken[i] ^= 0x55;
        let mut back = vec![0u8; text.len()];
        let r = LZDecoder::default().decode(&broken, &mut back, START);
        if let Ok((end, size)) = r {
            assert!(end <= back.len() && size <= broken.len());
        }
        assert_eq!(&back[..START], &text[..START]);
    }
}
