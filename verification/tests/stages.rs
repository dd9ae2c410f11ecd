use orz::bits::Bits;
use orz::codelen::{check_code, compute_code_lens};
use orz::huffman::{HuffmanDecoder, HuffmanEncoder, INVALID_SYMBOL};
use orz::matchfinder::{Bucket, BucketMatcher};
use orz::roid::{roid_decode, roid_encode};
use orz::stats::{count_symbols, sort_by_frequency, write_ranks};

#[test]
fn bits_are_written_most_significant_first() {
    let mut bits = Bits::default();
    let mut out = Vec::new();
    bits.put(3, 0b101);
    bits.put(5, 0b00011);
    bits.put(4, 0b1111);
    assert_eq!(bits.bit_len(), 12);
    bits.save_u32(&mut out);
    assert!(out.is_empty());
    bits.save_all(&mut out);
    assert_eq!(out, [0xa3, 0xf0]);
}

#[test]
fn a_full_word_is_saved_at_once() {
    let mut bits = Bits::default();
    let mut out = Vec::new();
    bits.put(32, 0x01020304);
    bits.put(7, 0x55);
    bits.save_u32(&mut out);
    assert_eq!(out, [1, 2, 3, 4]);
    assert_eq!(bits.bit_len(), 7);
    assert_eq!(bits.get(7), 0x55);
}

#[test]
fn bits_are_read_and_continue_with_zeros() {
    let bytes = [0x12, 0x34, 0x56, 0x78, 0x9a];
    let mut bits = Bits::default();
    let mut pos = 0;
    bits.load_u32(&bytes, &mut pos);
    assert_eq!(pos, 4);
    assert_eq!(bits.get(4), 1);
    assert_eq!(bits.get(12), 0x234);
    assert_eq!(bits.peek(8), 0x56);
    bits.skip(8);
    bits.load_u32(&bytes, &mut pos);
    assert_eq!(pos, 8);
    assert_eq!(bits.get(20), 0x789a0);
    assert_eq!(bits.get(0), 0);
    bits.load_u32(&bytes, &mut pos);
    bits.load_u32(&bytes, &mut pos);
    assert_eq!(pos, 12);
}

#[test]
fn code_lengths_follow_the_weights() {
    assert_eq!(compute_code_lens(&[5, 1, 1, 2, 0]), [1, 3, 3, 2, 0]);
    assert_eq!(compute_code_lens(&[0, 7, 0]), [0, 1, 0]);
    assert_eq!(compute_code_lens(&[0, 0]), [0, 0]);
    assert_eq!(compute_code_lens(&[3, 3]), [1, 1]);
}

#[test]
fn deep_trees_are_flattened() {
    let mut weights = vec![1u32, 1];
    while weights.len() < 30 {
        weights.push(weights[weights.len() - 1] + weights[weights.len() - 2]);
    }
    let lens = compute_code_lens(&weights);
    assert_eq!(
        lens,
        [
            14, 14, 14, 14, 13, 13, 13, 13, 13, 13, 13, 13, 12, 11, 10, 10, 9, 9, 8, 8, 7, 7, 6, 6, 5,
            5, 3, 3, 3, 1
        ]
    );
    assert!(check_code(&lens));
}

#[test]
fn too_many_short_codes_are_no_code() {
    assert!(check_code(&vec![1, 1]));
    assert!(check_code(&vec![1, 2, 3]));
    assert!(!check_code(&vec![1, 1, 15]));
    assert!(!check_code(&vec![16]));
    assert!(check_code(&vec![0; 10]));
}

#[test]
fn codes_are_canonical() {
    let mut out = Vec::new();
    let encoder = HuffmanEncoder::new(&[5, 1, 1, 2, 0], &mut out);
    assert_eq!(out, [0x13, 0x32, 0x00]);
    let mut bits = Bits::default();
    for symbol in [0, 3, 1, 2] {
        encoder.encode_to_bits(symbol, &mut bits);
    }
    let mut body = Vec::new();
    bits.save_all(&mut body);
    assert_eq!(body, [0x5b, 0x80]);
}

#[test]
fn codes_are_decoded() {
    let table = [0x13, 0x32, 0x00];
    let mut pos = 0;
    let decoder = HuffmanDecoder::new(5, &table, &mut pos).unwrap();
    assert_eq!(pos, 3);
    let body = [0x5b, 0x80];
    let mut bits = Bits::default();
    let mut at = 0;
    bits.load_u32(&body, &mut at);
    for symbol in [0, 3, 1, 2] {
        assert_eq!(decoder.decode_from_bits(&mut bits), symbol);
    }
}

#[test]
fn an_unused_code_decodes_to_no_symbol() {
    let mut pos = 1;
    let decoder = HuffmanDecoder::new(2, &[0xff, 0x10], &mut pos).unwrap();
    assert_eq!(pos, 2);
    let mut bits = Bits::default();
    let mut at = 0;
    bits.load_u32(&[0x7f, 0xff], &mut at);
    assert_eq!(decoder.decode_from_bits(&mut bits), 0);
    assert_eq!(decoder.decode_from_bits(&mut bits), INVALID_SYMBOL);
    assert_eq!(bits.bit_len(), 31);
}

#[test]
fn a_bad_code_table_gives_no_decoder() {
    let mut pos = 0;
    assert!(HuffmanDecoder::new(3, &[0x11], &mut pos).is_none());
    assert!(HuffmanDecoder::new(3, &[0x11, 0x10], &mut pos).is_none());
    assert_eq!(pos, 0);
}

#[test]
fn offsets_fall_into_classes() {
    assert_eq!(roid_encode(0), (0, 0, 0));
    assert_eq!(roid_encode(1), (1, 0, 0));
    assert_eq!(roid_encode(2), (2, 1, 0));
    assert_eq!(roid_encode(3), (2, 1, 1));
    assert_eq!(roid_encode(4), (3, 1, 0));
    assert_eq!(roid_encode(6), (4, 2, 0));
    assert_eq!(roid_encode(4093), (21, 10, 1023));
    assert_eq!(roid_decode(0), (0, 0));
    assert_eq!(roid_decode(21), (3070, 10));
}

#[test]
fn classes_cover_all_offsets() {
    for offset in 0..4094u16 {
        let (roid, bitlen, bits) = roid_encode(offset);
        assert_eq!((roid_decode(roid).0 + bits, roid_decode(roid).1), (offset, bitlen));
        assert!(bits < 1 << bitlen);
    }
}

#[test]
fn a_bucket_remembers_matches() {
    let mut bucket = Bucket::default();
    assert_eq!(bucket.get_match_pos_and_match_len(0), (0, 4, 4));
    bucket.update(10, 0, 0);
    bucket.update(20, 0, 7);
    assert_eq!(bucket.get_match_pos_and_match_len(0), (20, 7, 4));
    assert_eq!(bucket.get_match_pos_and_match_len(1), (10, 7, 8));
    assert_eq!(bucket.get_match_pos_and_match_len(2), (0, 4, 4));
    bucket.forward(15);
    assert_eq!(bucket.get_match_pos_and_match_len(0), (5, 7, 4));
    assert_eq!(bucket.get_match_pos_and_match_len(1), (0, 7, 8));
}

#[test]
fn the_oldest_item_leaves_a_full_bucket() {
    let mut bucket = Bucket::default();
    for pos in 1..=4094 + 5 {
        bucket.update(pos, 0, 0);
    }
    assert_eq!(bucket.get_match_pos_and_match_len(0).0, 4099);
    assert_eq!(bucket.get_match_pos_and_match_len(4093).0, 6);
}

#[test]
fn the_longest_match_is_found() {
    let text = b"....abcdef|abcd|abcdefg";
    let mut bucket = Bucket::default();
    let mut matcher = BucketMatcher::default();
    bucket.update(4, 0, 0);
    matcher.update(&bucket, text, 4);
    bucket.update(11, 0, 0);
    matcher.update(&bucket, text, 11);
    let m = matcher.find_match(&bucket, text, 16, 8);
    assert_eq!((m.reduced_offset, m.match_len, m.match_len_expected, m.match_len_min), (1, 6, 4, 4));
    let m = matcher.find_match(&bucket, text, 16, 1);
    assert_eq!((m.reduced_offset, m.match_len), (0, 4));
    assert_eq!(matcher.find_match(&bucket, text, 16, 0).match_len, 0);
    assert_eq!(matcher.find_match(&bucket, text, 17, 8).match_len, 0);
    assert!(matcher.has_lazy_match(&bucket, text, 16, 6, 2));
    assert!(!matcher.has_lazy_match(&bucket, text, 16, 6, 1));
    assert!(!matcher.has_lazy_match(&bucket, text, 16, 7, 2));
}

#[test]
fn the_newest_of_equal_matches_is_found() {
    let text = b"....wxyz|wxyz|wxyz!";
    let mut bucket = Bucket::default();
    let mut matcher = BucketMatcher::default();
    bucket.update(4, 0, 0);
    matcher.update(&bucket, text, 4);
    bucket.update(9, 0, 0);
    matcher.update(&bucket, text, 9);
    let m = matcher.find_match(&bucket, text, 14, 8);
    assert_eq!((m.reduced_offset, m.match_len), (0, 4));
}

#[test]
fn a_matched_item_needs_a_longer_match() {
    let text = b"....abcdef|abcd|abcdefg";
    let mut bucket = Bucket::default();
    let mut matcher = BucketMatcher::default();
    bucket.update(4, 0, 0);
    matcher.update(&bucket, text, 4);
    bucket.update(11, 0, 6);
    matcher.update(&bucket, text, 11);
    let m = matcher.find_match(&bucket, text, 16, 8);
    assert_eq!((m.reduced_offset, m.match_len), (0, 4));
}

#[test]
fn forwarding_drops_items_that_fell_off() {
    let text = b"....abcdef|abcd|abcdefg";
    let mut bucket = Bucket::default();
    let mut matcher = BucketMatcher::default();
    bucket.update(4, 0, 0);
    matcher.update(&bucket, text, 4);
    bucket.update(11, 0, 0);
    matcher.update(&bucket, text, 11);
    bucket.forward(6);
    matcher.forward(&bucket);
    let m = matcher.find_match(&bucket, &text[6..], 10, 8);
    assert_eq!((m.reduced_offset, m.match_len), (0, 4));
    bucket.forward(6);
    matcher.forward(&bucket);
    assert_eq!(matcher.find_match(&bucket, &text[12..], 4, 8).match_len, 0);
}

#[test]
fn frequent_symbols_come_first() {
    let symbols = vec![5, 3, 5, 388, 3, 5];
    let counts = count_symbols(&symbols, 389);
    assert_eq!((counts[5], counts[3], counts[388], counts[0]), (3, 2, 1, 0));
    let order = sort_by_frequency(&symbols);
    assert_eq!(&order[..6], &[5, 3, 388, 0, 1, 2]);
    assert_eq!(order.len(), 389);
    let mut out = vec![9];
    write_ranks(&order, &mut out);
    assert_eq!(&out[..7], &[9, 5, 0, 3, 0, 132, 1]);
    assert_eq!(out.len(), 779);
}
