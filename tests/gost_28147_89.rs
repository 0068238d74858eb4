use ciphers::gost_28147_89::{
    simple_repl_decode, simple_repl_encode, sum_m0, sum_m1, sum_t1, sum_t2, xor_32, xor_64, Key,
    State,
};

fn sample_key() -> Key {
    Key([
        0x0123, 0x4567, 0x89AB, 0xCDEF, 0x0123, 0x4567, 0x89AB, 0xCDEF,
    ])
}

const MESSAGE: &[u8] =
    b"Hello world, this is a message that is hopefully sufficently long to make encoding & decoding work";

#[test]
fn eqeqeqeq() {
    let key = Key([
        0x0123, 0x4567, 0x89AB, 0xCDEF, 0x0123, 0x4567, 0x89AB, 0xCDEF,
    ]);

    let state = State::with(key);
    let inpt = 0x01829732;
    let r1 = state.substitute(inpt);
    let r2 = state.subs_2(inpt);

    assert_eq!(r1, r2)
}

#[test]
fn summ() {
    let r = sum_m1(0x01, 0x0E);
    assert_eq!(r, 0x0F);
    let r = sum_m1(0xFFFFFFFF, 0x03);
    assert_eq!(r, 0x03);
    let r = sum_m1(0xFFFFFFFF, 0x00);
    assert_eq!(r, 0x00);
}

#[test]
fn cmp_summ() {
    for a in u32::MAX - 20..=u32::MAX {
        for b in 0..16 {
            assert_eq!(sum_t1(a, b), sum_t2(a, b));
        }
    }
}

#[test]
fn substitution_strategies_agree_on_edge_values() {
    let state = State::with(sample_key());
    for x in [0u32, 0xFFFF_FFFF, 0x0182_9732, 0x8000_0001, 0x0F0F_F0F0, 0x1234_5678] {
        assert_eq!(state.substitute(x), state.subs_2(x));
    }
}

#[test]
fn substitution_strategies_agree_on_a_sweep() {
    let state = State::with(Key([0; 8]));
    let mut x: u32 = 0;
    for _ in 0..100_000 {
        assert_eq!(state.substitute(x), state.subs_2(x));
        x = x.wrapping_mul(2_654_435_761).wrapping_add(40_503);
    }
}

#[test]
fn substitution_exact_values() {
    let state = State::with(sample_key());
    assert_eq!(state.substitute(0), 0x7654_3210);
    assert_eq!(state.subs_2(0), 0x7654_3210);
    assert_eq!(state.substitute(0xFFFF_FFFF), 0xFFFF_FFFF);
    assert_eq!(state.substitute(0x0182_9732), 0x7182_9732);
    assert_eq!(State::default().subs_2(0x0182_9732), 0x7182_9732);
}

#[test]
fn modular_addition_values() {
    assert_eq!(sum_m0(0xFFFF_FFFF, 2), 1);
    assert_eq!(sum_m0(5, 7), 12);
    assert_eq!(sum_m1(0xFFFF_FFFF, 0xFFFF_FFFF), 0xFFFF_FFFF);
    assert_eq!(sum_m1(0xFFFF_FFFE, 1), 0);
    assert_eq!(sum_m1(0xFFFF_FFFE, 0), 0xFFFF_FFFE);
    assert_eq!(sum_t1(0xFFFF_FFFF, 3), 3);
    assert_eq!(sum_t2(1, 14), 15);
}

#[test]
fn xor_values() {
    assert_eq!(xor_32(0xF0F0_0000, 0x0FF0_0001), 0xFF00_0001);
    assert_eq!(xor_64(u64::MAX, 0x0123_4567_89AB_CDEF), 0xFEDC_BA98_7654_3210);
}

#[test]
fn encode_known_blocks() {
    let mut data: Vec<u8> = (0..8).collect();
    simple_repl_encode(&mut data, sample_key());
    assert_eq!(data, vec![0x3a, 0xdf, 0x14, 0xd2, 0x1f, 0x1b, 0x8d, 0xef]);

    let mut zeros = vec![0u8; 8];
    simple_repl_encode(&mut zeros, sample_key());
    assert_eq!(zeros, vec![0x56, 0x1a, 0x14, 0xce, 0x60, 0xbb, 0x32, 0x27]);
}

#[test]
fn decode_known_block() {
    let mut data = vec![0x3a, 0xdf, 0x14, 0xd2, 0x1f, 0x1b, 0x8d, 0xef];
    simple_repl_decode(&mut data, sample_key());
    assert_eq!(data, (0..8).collect::<Vec<u8>>());
}

#[test]
fn message_round_trip() {
    let mut data = MESSAGE.to_vec();
    simple_repl_encode(&mut data, sample_key());
    assert_ne!(&data[..96], &MESSAGE[..96]);
    simple_repl_decode(&mut data, sample_key());
    assert_eq!(data, MESSAGE);
}

#[test]
fn whole_block_round_trip() {
    let key = Key([
        0xDEAD_BEEF, 1, 2, 3, 0xFFFF_FFFF, 0x8000_0000, 77, 0x1357_9BDF,
    ]);
    let original = MESSAGE[..96].to_vec();
    let mut data = original.clone();
    simple_repl_encode(&mut data, key);
    assert_ne!(data, original);
    simple_repl_decode(&mut data, key);
    assert_eq!(data, original);
}

#[test]
fn equal_blocks_encode_equally() {
    let mut data = b"ABCDEFGHABCDEFGHabcdefgh".to_vec();
    simple_repl_encode(&mut data, sample_key());
    assert_eq!(data[0..8], data[8..16]);
    assert_ne!(data[0..8], data[16..24]);
}

#[test]
fn trailing_partial_block_is_untouched() {
    for r in 1..8usize {
        let original: Vec<u8> = (0..(16 + r) as u8).collect();
        let mut data = original.clone();
        simple_repl_encode(&mut data, sample_key());
        assert_eq!(data[16..], original[16..]);
        assert_ne!(data[..8], original[..8]);
        assert_ne!(data[8..16], original[8..16]);
    }
    let mut message = MESSAGE.to_vec();
    simple_repl_encode(&mut message, sample_key());
    assert_eq!(message[96..], MESSAGE[96..]);
}

#[test]
fn short_and_empty_buffers_are_untouched() {
    let mut empty: Vec<u8> = Vec::new();
    simple_repl_encode(&mut empty, sample_key());
    assert!(empty.is_empty());
    let mut short = vec![1u8, 2, 3, 4, 5, 6, 7];
    simple_repl_decode(&mut short, sample_key());
    assert_eq!(short, vec![1, 2, 3, 4, 5, 6, 7]);
}

#[test]
fn decode_then_encode_round_trip() {
    let original = MESSAGE.to_vec();
    let mut data = original.clone();
    simple_repl_decode(&mut data, sample_key());
    assert_ne!(data, original);
    simple_repl_encode(&mut data, sample_key());
    assert_eq!(data, original);
}
