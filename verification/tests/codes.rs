use bvgraph::bits::{BitOrder, UnbufferedBitStreamRead, WordReader};
use bvgraph::codes::{int2nat, nat2int};
use bvgraph::writer::BitStreamWrite;
use bvgraph::Error;

fn reader_of(w: BitStreamWrite, order: BitOrder) -> UnbufferedBitStreamRead {
    UnbufferedBitStreamRead::new(WordReader::new(w.into_words()), order)
}

const SAMPLES: [u64; 12] = [0, 1, 2, 3, 5, 7, 63, 64, 100, 1023, 1 << 20, 4294967295];

#[test]
fn gamma_roundtrip_both_orders() {
    for &order in &[BitOrder::M2L, BitOrder::L2M] {
        let mut w = BitStreamWrite::new(order);
        for &x in SAMPLES.iter() {
            w.write_gamma(x);
        }
        let mut r = reader_of(w, order);
        for &x in SAMPLES.iter() {
            assert_eq!(r.read_gamma().unwrap(), x);
        }
    }
}

#[test]
fn gamma_of_zero_is_one_bit() {
    let mut w = BitStreamWrite::new(BitOrder::M2L);
    w.write_gamma(0);
    assert_eq!(w.len(), 1);
    let mut r = reader_of(w, BitOrder::M2L);
    assert_eq!(r.read_gamma().unwrap(), 0);
}

#[test]
fn gamma_length_formula() {
    // gamma of x takes 2 * floor(log2(x + 1)) + 1 bits.
    let mut w = BitStreamWrite::new(BitOrder::M2L);
    w.write_gamma(0);
    assert_eq!(w.len(), 1);
    let mut w = BitStreamWrite::new(BitOrder::M2L);
    w.write_gamma(2);
    assert_eq!(w.len(), 3);
    let mut w = BitStreamWrite::new(BitOrder::M2L);
    w.write_gamma(100);
    assert_eq!(w.len(), 13);
}

#[test]
fn delta_roundtrip_both_orders() {
    for &order in &[BitOrder::M2L, BitOrder::L2M] {
        let mut w = BitStreamWrite::new(order);
        for &x in SAMPLES.iter() {
            w.write_delta(x);
        }
        let mut r = reader_of(w, order);
        for &x in SAMPLES.iter() {
            assert_eq!(r.read_delta().unwrap(), x);
        }
    }
}

#[test]
fn zeta_roundtrip_all_k() {
    for k in 1..=7u64 {
        for &order in &[BitOrder::M2L, BitOrder::L2M] {
            let mut w = BitStreamWrite::new(order);
            for &x in SAMPLES.iter() {
                w.write_zeta(x, k);
            }
            let mut r = reader_of(w, order);
            for &x in SAMPLES.iter() {
                assert_eq!(r.read_zeta(k).unwrap(), x, "k={}", k);
            }
        }
    }
}

#[test]
fn rice_roundtrip() {
    // the unary quotient is written bit by bit, so keep x >> k modest
    let cases: [(u64, u64); 8] = [
        (0, 0),
        (1, 0),
        (17, 0),
        (5, 3),
        (100, 3),
        (1023, 7),
        (123456, 10),
        (4294967295, 24),
    ];
    for &(x, k) in cases.iter() {
        for &order in &[BitOrder::M2L, BitOrder::L2M] {
            let mut w = BitStreamWrite::new(order);
            w.write_rice(x, k);
            let mut r = reader_of(w, order);
            assert_eq!(r.read_rice(k).unwrap(), x, "x={} k={}", x, k);
        }
    }
}

#[test]
fn minimal_binary_roundtrip() {
    for &z in &[1u64, 2, 3, 5, 7, 8, 100, 1000, 65536] {
        for &order in &[BitOrder::M2L, BitOrder::L2M] {
            let mut w = BitStreamWrite::new(order);
            for x in 0..z.min(50) {
                w.write_minimal_binary(x, z);
            }
            let mut r = reader_of(w, order);
            for x in 0..z.min(50) {
                assert_eq!(r.read_minimal_binary(z), x, "z={}", z);
            }
        }
    }
}

#[test]
fn unary_roundtrip_and_eof() {
    let mut w = BitStreamWrite::new(BitOrder::M2L);
    for x in [0u64, 1, 5, 63, 64, 200] {
        w.write_unary(x);
    }
    let mut r = reader_of(w, BitOrder::M2L);
    for x in [0u64, 1, 5, 63, 64, 200] {
        assert_eq!(r.read_unary().unwrap(), x);
    }
    // past the written bits only zero padding remains: no unary terminates
    assert_eq!(r.read_unary(), Err(Error::UnexpectedEof));
}

#[test]
fn read_bits_zero_and_too_many() {
    let mut w = BitStreamWrite::new(BitOrder::M2L);
    w.write_bits(0xDEAD, 16);
    let mut r = reader_of(w, BitOrder::M2L);
    assert_eq!(r.read_bits(0).unwrap(), 0);
    assert_eq!(r.read_bits(65), Err(Error::BadArgument));
    assert_eq!(r.read_bits(16).unwrap(), 0xDEAD);
}

#[test]
fn codes_straddle_word_boundary() {
    // 60 bits of padding push the next code across the first 64-bit word.
    for &order in &[BitOrder::M2L, BitOrder::L2M] {
        let mut w = BitStreamWrite::new(order);
        w.write_bits(0, 60);
        w.write_gamma(1 << 20);
        w.write_rice(123456, 5);
        let mut r = reader_of(w, order);
        assert_eq!(r.read_bits(60).unwrap(), 0);
        assert_eq!(r.read_gamma().unwrap(), 1 << 20);
        assert_eq!(r.read_rice(5).unwrap(), 123456);
    }
}

#[test]
fn seek_then_read_matches_linear_read() {
    let mut w = BitStreamWrite::new(BitOrder::M2L);
    w.write_gamma(7);
    w.write_gamma(1000);
    w.write_gamma(42);
    let words = w.into_words();
    // linear: consume two codes, then read the third
    let mut lin = UnbufferedBitStreamRead::new(WordReader::new(words.clone()), BitOrder::M2L);
    lin.read_gamma().unwrap();
    lin.read_gamma().unwrap();
    let p = lin.get_position();
    let from_linear = lin.read_gamma().unwrap();
    // seek straight to the recorded position and read
    let mut skp = UnbufferedBitStreamRead::new(WordReader::new(words), BitOrder::M2L);
    skp.seek_bit(p);
    assert_eq!(skp.read_gamma().unwrap(), from_linear);
    assert_eq!(from_linear, 42);
}

#[test]
fn gamma_overlong_is_corrupt() {
    // 70 zero bits and a one: a unary prefix far beyond any 64-bit value.
    let mut w = BitStreamWrite::new(BitOrder::M2L);
    w.write_unary(70);
    let mut r = reader_of(w, BitOrder::M2L);
    assert_eq!(r.read_gamma(), Err(Error::CorruptStream));
}

#[test]
fn nat2int_int2nat_inverse() {
    for i in [-1000i64, -95, -3, -2, -1, 0, 1, 2, 3, 95, 1000, i64::MIN, i64::MAX] {
        assert_eq!(nat2int(int2nat(i)), i);
    }
    for u in [0u64, 1, 2, 3, 4, 5, 189, 1000, u64::MAX] {
        assert_eq!(int2nat(nat2int(u)), u);
    }
    assert_eq!(int2nat(0), 0);
    assert_eq!(int2nat(-1), 1);
    assert_eq!(int2nat(1), 2);
    assert_eq!(int2nat(-95), 189);
    assert_eq!(nat2int(2), 1);
    assert_eq!(nat2int(3), -2);
}
