use orz::consts::MTF_NUM_SYMBOLS;
use orz::mtf::MTFCoder;

fn identity() -> Vec<u16> {
    (0..MTF_NUM_SYMBOLS as u16).collect()
}

#[test]
fn encode_gives_the_rank_without_the_unlikely_symbol() {
    let mut coder = MTFCoder::from_vs(&identity());
    assert_eq!(coder.encode(5, 300), 5);
    let mut coder = MTFCoder::from_vs(&identity());
    assert_eq!(coder.encode(5, 0), 4);
    let mut coder = MTFCoder::from_vs(&identity());
    assert_eq!(coder.encode(5, 5), 388);
}

#[test]
fn a_symbol_near_the_front_moves_up_in_one_exchange() {
    let mut coder = MTFCoder::from_vs(&identity());
    assert_eq!(coder.encode(10, 388), 10);
    assert_eq!(coder.encode(10, 388), 6);
    assert_eq!(coder.encode(10, 388), 3);
    assert_eq!(coder.encode(6, 388), 10);
}

#[test]
fn a_symbol_further_back_moves_up_in_two_exchanges() {
    let mut coder = MTFCoder::from_vs(&identity());
    assert_eq!(coder.encode(100, 388), 100);
    let mut peek = coder;
    assert_eq!(peek.encode(100, 388), 60);
    let mut peek = coder;
    assert_eq!(peek.encode(60, 388), 80);
    let mut peek = coder;
    assert_eq!(peek.encode(80, 388), 100);
}

#[test]
fn decode_reads_the_same_ranks() {
    let mut coder = MTFCoder::from_vs(&identity());
    assert_eq!(coder.decode(4, 0), 5);
    let mut coder = MTFCoder::from_vs(&identity());
    assert_eq!(coder.decode(388, 7), 7);
    let mut coder = MTFCoder::from_vs(&identity());
    assert_eq!(coder.decode(389, 7), 7);
}

#[test]
fn decode_undoes_encode() {
    let mut vs = identity();
    vs.reverse();
    let mut encoder = MTFCoder::from_vs(&vs);
    let mut decoder = encoder;
    let mut x: u32 = 12345;
    for _ in 0..5000 {
        x = x.wrapping_mul(1103515245).wrapping_add(12345);
        let v = ((x >> 8) % 389) as u16;
        let unlikely = ((x >> 17) % 389) as u16;
        let i = encoder.encode(v, unlikely);
        assert!(i < 389);
        assert_eq!(decoder.decode(i, unlikely), v);
    }
}

#[test]
fn encode_undoes_decode() {
    let mut encoder = MTFCoder::from_vs(&identity());
    let mut decoder = encoder;
    for i in 0..389u16 {
        let v = decoder.decode(i, 17);
        assert_eq!(encoder.encode(v, 17), i);
    }
}

#[test]
fn repeated_symbols_take_their_last_rank() {
    let mut vs = identity();
    vs[20] = 3;
    let mut coder = MTFCoder::from_vs(&vs);
    assert_eq!(coder.encode(3, 388), 20);
    let mut coder = MTFCoder::from_vs(&vs);
    assert_eq!(coder.encode(20, 388), 0);
}

#[test]
fn only_as_many_entries_count_as_there_are_symbols() {
    let mut vs = identity();
    vs.push(3);
    vs.push(3);
    let mut coder = MTFCoder::from_vs(&vs);
    let mut plain = MTFCoder::from_vs(&identity());
    assert_eq!(coder.encode(3, 0), 2);
    assert_eq!(plain.encode(3, 0), 2);
}

#[test]
fn update_promotes_a_symbol() {
    let mut coder = MTFCoder::from_vs(&identity());
    coder.update(10, 10);
    assert_eq!(coder.encode(10, 388), 6);
    let mut other = MTFCoder::from_vs(&identity());
    other.update(100, 100);
    assert_eq!(other.encode(60, 388), 80);
}
