//! Word reader and bit reader.
//!
//! A [`WordReader`] presents a finite vector of 64-bit logical words as an
//! infinite stream: reading past the end yields zero words.  An
//! [`UnbufferedBitStreamRead`] sits on top of it and delivers single bits,
//! fixed-width bit groups and unary codes, in either bit order.

use vstd::prelude::*;
use vstd::arithmetic::power2::*;
use vstd::arithmetic::div_mod::lemma_fundamental_div_mod;
use vstd::bits::{lemma_u64_shl_is_mul, lemma_u64_pow2_no_overflow};
use crate::Error;

verus! {

/// Bit order within a word: `M2L` delivers the most significant bit of a
/// word first, `L2M` the least significant.
#[derive(Clone, Copy, Debug, PartialEq, Eq, Structural)]
pub enum BitOrder {
    M2L,
    L2M,
}

/// The bit the stream delivers at absolute index `i`, under the
/// infinite-zero-padding model: every bit past the backing reads as zero.
pub open spec fn bit_at(ws: Seq<u64>, order: BitOrder, i: int) -> bool {
    if 0 <= i < ws.len() * 64 {
        let w = ws[i / 64];
        let off = (i % 64) as u64;
        match order {
            BitOrder::M2L => (w >> (63 - off)) & 1 == 1,
            BitOrder::L2M => (w >> off) & 1 == 1,
        }
    } else {
        false
    }
}

/// The `n` bits delivered starting at `pos`, in delivery order.
pub open spec fn bits_at(ws: Seq<u64>, order: BitOrder, pos: int, n: int) -> Seq<bool> {
    Seq::new(n as nat, |j: int| bit_at(ws, order, pos + j))
}

/// The value of a group of delivered bits: under `M2L` the first bit is the
/// most significant, under `L2M` the first bit is the least significant.
pub open spec fn seq_val(bs: Seq<bool>, order: BitOrder) -> nat
    decreases bs.len(),
{
    if bs.len() == 0 {
        0
    } else {
        match order {
            BitOrder::M2L => 2 * seq_val(bs.drop_last(), order) + (if bs.last() {
                1nat
            } else {
                0nat
            }),
            BitOrder::L2M => seq_val(bs.drop_last(), order) + (if bs.last() {
                pow2((bs.len() - 1) as nat)
            } else {
                0nat
            }),
        }
    }
}

/// The value of the `n` bits delivered starting at `pos`.
pub open spec fn bits_val(ws: Seq<u64>, order: BitOrder, pos: int, n: int) -> nat {
    seq_val(bits_at(ws, order, pos, n), order)
}

/// Reading a unary code at `pos`: the count of zero bits before the first
/// one bit, with the position just past that one bit.  `None` when no one
/// bit exists before the end of the backing (the zero padding never
/// terminates a unary code).
pub open spec fn spec_unary(ws: Seq<u64>, order: BitOrder, pos: int) -> Option<(nat, int)>
    decreases ws.len() * 64 - pos,
{
    if pos < 0 || pos >= ws.len() * 64 {
        None
    } else if bit_at(ws, order, pos) {
        Some((0nat, pos + 1))
    } else {
        match spec_unary(ws, order, pos + 1) {
            None => None,
            Some((x, p)) => Some(((x + 1) as nat, p)),
        }
    }
}


/// The word holding bit index `64 * i`, zero past the backing.
pub open spec fn word_of(ws: Seq<u64>, i: int) -> u64 {
    if 0 <= i < ws.len() {
        ws[i]
    } else {
        0u64
    }
}

pub proof fn lemma_bit_at_word(ws: Seq<u64>, order: BitOrder, widx: int, off: u64)
    requires
        0 <= widx,
        off < 64,
    ensures
        bit_at(ws, order, widx * 64 + off) == match order {
            BitOrder::M2L => (word_of(ws, widx) >> (63 - off)) & 1 == 1,
            BitOrder::L2M => (word_of(ws, widx) >> off) & 1 == 1,
        },
{
    let i = widx * 64 + off;
    assert(i / 64 == widx && i % 64 == off as int) by (nonlinear_arith)
        requires
            0 <= widx,
            0 <= off < 64,
            i == widx * 64 + off,
    ;
    if widx >= ws.len() {
        assert(i >= ws.len() * 64) by (nonlinear_arith)
            requires
                widx >= ws.len(),
                i == widx * 64 + off,
                0 <= off,
        ;
        assert((0u64 >> ((63 - off) as u64)) & 1 == 0) by (bit_vector);
        assert((0u64 >> off) & 1 == 0) by (bit_vector);
    } else {
        assert(i < ws.len() * 64) by (nonlinear_arith)
            requires
                widx < ws.len(),
                i == widx * 64 + off,
                off < 64,
        ;
    }
}

pub proof fn lemma_bits_val_step(ws: Seq<u64>, order: BitOrder, pos: int, n: int)
    requires
        n >= 1,
    ensures
        bits_val(ws, order, pos, n) == match order {
            BitOrder::M2L => 2 * bits_val(ws, order, pos, n - 1) + (if bit_at(ws, order, pos + n - 1) {
                1nat
            } else {
                0nat
            }),
            BitOrder::L2M => bits_val(ws, order, pos, n - 1) + (if bit_at(ws, order, pos + n - 1) {
                pow2((n - 1) as nat)
            } else {
                0nat
            }),
        },
{
    let bs = bits_at(ws, order, pos, n);
    assert(bs.drop_last() =~= bits_at(ws, order, pos, n - 1));
    assert(bs.last() == bit_at(ws, order, pos + n - 1));
}

pub proof fn lemma_bits_val_bound(ws: Seq<u64>, order: BitOrder, pos: int, n: int)
    requires
        n >= 0,
    ensures
        bits_val(ws, order, pos, n) < pow2(n as nat),
    decreases n,
{
    if n == 0 {
        assert(pow2(0) == 1) by {
            lemma2_to64();
        }
    } else {
        lemma_bits_val_bound(ws, order, pos, n - 1);
        lemma_bits_val_step(ws, order, pos, n);
        lemma_pow2_unfold(n as nat);
    }
}

/// A group of delivered bits splits at any point `k`: the value of the whole
/// is the value of the two halves combined according to the bit order.
pub proof fn lemma_bits_val_split(ws: Seq<u64>, order: BitOrder, pos: int, k: int, n: int)
    requires
        0 <= k <= n,
    ensures
        bits_val(ws, order, pos, n) == match order {
            BitOrder::M2L => bits_val(ws, order, pos, k) * pow2((n - k) as nat) + bits_val(
                ws,
                order,
                pos + k,
                n - k,
            ),
            BitOrder::L2M => bits_val(ws, order, pos, k) + bits_val(ws, order, pos + k, n - k)
                * pow2(k as nat),
        },
    decreases n - k,
{
    if n == k {
        assert(pow2(0) == 1) by {
            lemma2_to64();
        }
        assert(bits_at(ws, order, pos + k, 0) =~= Seq::<bool>::empty());
        assert(bits_val(ws, order, pos + k, 0) == 0);
        assert(bits_val(ws, order, pos, k) * pow2(0) == bits_val(ws, order, pos, k) * 1);
        assert(0nat * pow2(k as nat) == 0) by (nonlinear_arith);
        assert(bits_val(ws, order, pos, n) == bits_val(ws, order, pos, k) * pow2((n - k) as nat)
            + bits_val(ws, order, pos + k, n - k));
        assert(bits_val(ws, order, pos, n) == bits_val(ws, order, pos, k) + bits_val(
            ws,
            order,
            pos + k,
            n - k,
        ) * pow2(k as nat));
    } else {
        lemma_bits_val_split(ws, order, pos, k, n - 1);
        lemma_bits_val_step(ws, order, pos, n);
        lemma_bits_val_step(ws, order, pos + k, n - k);
        let b: nat = if bit_at(ws, order, pos + n - 1) {
            1nat
        } else {
            0nat
        };
        let hk = bits_val(ws, order, pos, k);
        let t1 = bits_val(ws, order, pos + k, n - 1 - k);
        match order {
            BitOrder::M2L => {
                assert(bits_val(ws, order, pos + k, n - k) == 2 * t1 + b);
                assert(bits_val(ws, order, pos, n) == 2 * (hk * pow2((n - 1 - k) as nat) + t1) + b);
                lemma_pow2_unfold((n - k) as nat);
                assert(pow2((n - k) as nat) == 2 * pow2((n - 1 - k) as nat));
                assert(2 * (hk * pow2((n - 1 - k) as nat) + t1) + b == hk * (2 * pow2((n - 1
                    - k) as nat)) + (2 * t1 + b)) by (nonlinear_arith);
                assert(bits_val(ws, order, pos, n) == hk * pow2((n - k) as nat) + bits_val(
                    ws,
                    order,
                    pos + k,
                    n - k,
                ));
            },
            BitOrder::L2M => {
                assert(bits_val(ws, order, pos + k, n - k) == t1 + b * pow2((n - 1 - k) as nat));
                assert(bits_val(ws, order, pos, n) == hk + t1 * pow2(k as nat) + b * pow2((n
                    - 1) as nat));
                lemma_pow2_adds((n - 1 - k) as nat, k as nat);
                assert(pow2((n - 1 - k) as nat) * pow2(k as nat) == pow2((n - 1) as nat));
                assert((t1 + b * pow2((n - 1 - k) as nat)) * pow2(k as nat) == t1 * pow2(k as nat)
                    + b * (pow2((n - 1 - k) as nat) * pow2(k as nat))) by (nonlinear_arith);
                assert(bits_val(ws, order, pos, n) == hk + bits_val(ws, order, pos + k, n - k)
                    * pow2(k as nat));
            },
        }
    }
}

/// The single-word bit-group extraction identity for `M2L`.
proof fn lemma_word_extract_m2l(ws: Seq<u64>, widx: int, off: u64, n: u64)
    requires
        0 <= widx,
        off < 64,
        1 <= n <= 64,
        off + n <= 64,
    ensures
        (word_of(ws, widx) << off) >> ((64 - n) as u64) == bits_val(
            ws,
            BitOrder::M2L,
            widx * 64 + off,
            n as int,
        ),
    decreases n,
{
    let w = word_of(ws, widx);
    let pos = widx * 64 + off;
    if n == 1 {
        lemma_bits_val_step(ws, BitOrder::M2L, pos, 1);
        lemma_bit_at_word(ws, BitOrder::M2L, widx, off);
        assert((w << off) >> 63u64 == (if (w >> ((63 - off) as u64)) & 1 == 1 {
            1u64
        } else {
            0u64
        })) by (bit_vector)
            requires
                off < 64,
        ;
    } else {
        lemma_word_extract_m2l(ws, widx, off, (n - 1) as u64);
        lemma_bits_val_step(ws, BitOrder::M2L, pos, n as int);
        lemma_bit_at_word(ws, BitOrder::M2L, widx, (off + n - 1) as u64);
        assert((w << off) >> ((64 - n) as u64) == 2 * ((w << off) >> ((64 - (n - 1)) as u64)) + (
        if (w >> ((64 - off - n) as u64)) & 1 == 1 {
            1u64
        } else {
            0u64
        })) by (bit_vector)
            requires
                off < 64,
                2 <= n <= 64,
                off + n <= 64,
        ;
        assert((63 - ((off + n - 1) as u64) as int) == (64 - off - n) as u64 as int);
    }
}

/// The single-word bit-group extraction identity for `L2M`.
#[verifier::rlimit(50)]
proof fn lemma_word_extract_l2m(ws: Seq<u64>, widx: int, off: u64, n: u64)
    requires
        0 <= widx,
        off < 64,
        1 <= n <= 64,
        off + n <= 64,
    ensures
        (word_of(ws, widx) << ((64 - n - off) as u64)) >> ((64 - n) as u64) == bits_val(
            ws,
            BitOrder::L2M,
            widx * 64 + off,
            n as int,
        ),
    decreases n,
{
    let w = word_of(ws, widx);
    let pos = widx * 64 + off;
    if n == 1 {
        lemma_bits_val_step(ws, BitOrder::L2M, pos, 1);
        lemma_bit_at_word(ws, BitOrder::L2M, widx, off);
        assert(pow2(0) == 1) by {
            lemma2_to64();
        }
        assert((w << ((63 - off) as u64)) >> 63u64 == (if (w >> off) & 1 == 1 {
            1u64
        } else {
            0u64
        })) by (bit_vector)
            requires
                off < 64,
        ;
    } else {
        lemma_word_extract_l2m(ws, widx, off, (n - 1) as u64);
        lemma_bits_val_step(ws, BitOrder::L2M, pos, n as int);
        lemma_bit_at_word(ws, BitOrder::L2M, widx, (off + n - 1) as u64);
        lemma_u64_pow2_no_overflow((n - 1) as nat);
        lemma_u64_shl_is_mul(1u64, (n - 1) as u64);
        assert((w << ((64 - n - off) as u64)) >> ((64 - n) as u64) == ((w << ((64 - (n - 1)
            - off) as u64)) >> ((64 - (n - 1)) as u64)) + (if (w >> ((off + n - 1) as u64)) & 1
            == 1 {
            1u64 << ((n - 1) as u64)
        } else {
            0u64
        })) by (bit_vector)
            requires
                off < 64,
                2 <= n <= 64,
                off + n <= 64,
        ;
    }
}


/// The double-word bit-group extraction identity for `M2L`: the group
/// spans the boundary between words `widx` and `widx + 1`.
#[verifier::rlimit(100)]
proof fn lemma_peek_double_m2l(ws: Seq<u64>, widx: int, off: u64, n: u64)
    requires
        0 <= widx,
        off < 64,
        n <= 64,
        off + n > 64,
    ensures
        ((word_of(ws, widx) << off) >> ((64 - n) as u64)) | (word_of(ws, widx + 1) >> ((128 - off
            - n) as u64)) == bits_val(ws, BitOrder::M2L, widx * 64 + off, n as int),
{
    let w0 = word_of(ws, widx);
    let w1 = word_of(ws, widx + 1);
    let p = widx * 64 + off;
    let k: u64 = (64 - off) as u64;
    let n2: u64 = (off + n - 64) as u64;
    lemma_bits_val_split(ws, BitOrder::M2L, p, k as int, n as int);
    lemma_word_extract_m2l(ws, widx, off, k);
    lemma_word_extract_m2l(ws, widx + 1, 0, n2);
    assert((widx + 1) * 64 == p + k) by (nonlinear_arith)
        requires
            p == widx * 64 + off,
            k == 64 - off,
    ;
    let x = (w0 << off) >> ((64 - k) as u64);
    let y = (w1 << 0u64) >> ((64 - n2) as u64);
    assert(x == bits_val(ws, BitOrder::M2L, p, k as int));
    assert(y == bits_val(ws, BitOrder::M2L, p + k, n2 as int));
    lemma_bits_val_bound(ws, BitOrder::M2L, p, k as int);
    lemma_bits_val_bound(ws, BitOrder::M2L, p + k, n2 as int);
    assert((w0 << off) >> ((64 - n) as u64) == ((w0 << off) >> ((64 - k) as u64)) << n2)
        by (bit_vector)
        requires
            1 <= off < 64,
            n <= 64,
            off + n > 64,
            k == 64 - off,
            n2 == off + n - 64,
    ;
    assert(w1 << 0u64 == w1) by (bit_vector);
    assert((128 - off - n) as u64 == (64 - n2) as u64);
    lemma_pow2_adds(k as nat, n2 as nat);
    pow2_le_max64(n as nat);
    assert(x * pow2(n2 as nat) <= u64::MAX) by (nonlinear_arith)
        requires
            x < pow2(k as nat),
            pow2(k as nat) * pow2(n2 as nat) == pow2(n as nat),
            pow2(n as nat) <= u64::MAX + 1,
            pow2(n2 as nat) >= 1,
    ;
    lemma_u64_shl_is_mul(x, n2);
    lemma_u64_pow2_no_overflow(n2 as nat);
    lemma_u64_shl_is_mul(1u64, n2);
    assert((x << n2) | y == (x << n2) + y) by (bit_vector)
        requires
            y < (1u64 << n2),
            n2 < 64,
    ;
}

/// The double-word bit-group extraction identity for `L2M`.
#[verifier::rlimit(100)]
proof fn lemma_peek_double_l2m(ws: Seq<u64>, widx: int, off: u64, n: u64)
    requires
        0 <= widx,
        off < 64,
        n <= 64,
        off + n > 64,
    ensures
        ((word_of(ws, widx + 1) << ((128 - off - n) as u64)) >> ((64 - n) as u64)) | (word_of(
            ws,
            widx,
        ) >> off) == bits_val(ws, BitOrder::L2M, widx * 64 + off, n as int),
{
    let w0 = word_of(ws, widx);
    let w1 = word_of(ws, widx + 1);
    let p = widx * 64 + off;
    let k: u64 = (64 - off) as u64;
    let n2: u64 = (off + n - 64) as u64;
    lemma_bits_val_split(ws, BitOrder::L2M, p, k as int, n as int);
    lemma_word_extract_l2m(ws, widx, off, k);
    lemma_word_extract_l2m(ws, widx + 1, 0, n2);
    assert((widx + 1) * 64 == p + k) by (nonlinear_arith)
        requires
            p == widx * 64 + off,
            k == 64 - off,
    ;
    let x = (w0 << ((64 - k - off) as u64)) >> ((64 - k) as u64);
    let y = (w1 << ((64 - n2) as u64)) >> ((64 - n2) as u64);
    assert(x == bits_val(ws, BitOrder::L2M, p, k as int));
    assert(y == bits_val(ws, BitOrder::L2M, p + k, n2 as int));
    assert(x == w0 >> off) by (bit_vector)
        requires
            x == (w0 << ((64 - k - off) as u64)) >> ((64 - k) as u64),
            1 <= off < 64,
            k == 64 - off,
    ;
    lemma_bits_val_bound(ws, BitOrder::L2M, p, k as int);
    lemma_bits_val_bound(ws, BitOrder::L2M, p + k, n2 as int);
    assert((w1 << ((64 - n2) as u64)) >> ((64 - n) as u64) == ((w1 << ((64 - n2) as u64)) >> ((64
        - n2) as u64)) << ((64 - off) as u64)) by (bit_vector)
        requires
            1 <= off < 64,
            n <= 64,
            off + n > 64,
            n2 == off + n - 64,
    ;
    assert((128 - off - n) as u64 == (64 - n2) as u64);
    lemma_pow2_adds(n2 as nat, k as nat);
    pow2_le_max64(n as nat);
    assert(y * pow2(k as nat) <= u64::MAX) by (nonlinear_arith)
        requires
            y < pow2(n2 as nat),
            pow2(n2 as nat) * pow2(k as nat) == pow2(n as nat),
            pow2(n as nat) <= u64::MAX + 1,
            pow2(k as nat) >= 1,
    ;
    lemma_u64_shl_is_mul(y, k);
    lemma_u64_pow2_no_overflow(k as nat);
    lemma_u64_shl_is_mul(1u64, k);
    assert((y << k) | x == (y << k) + x) by (bit_vector)
        requires
            x < (1u64 << k),
            k < 64,
    ;
}

/// `pow2` of at most 64 fits the range of `u64` values plus one.
pub proof fn pow2_le_max64(n: nat)
    requires
        n <= 64,
    ensures
        pow2(n) <= u64::MAX + 1,
        pow2(n) >= 1,
{
    lemma_pow2_pos(n);
    if n < 64 {
        lemma_pow2_strictly_increases(n, 64);
    }
    lemma2_to64();
    lemma2_to64_rest();
}

/// A unary code that terminates: the bits from `pos` up to `q` are all
/// zero and the bit at `q` is one, so the code decodes to `q - pos`.
pub proof fn lemma_unary_found(ws: Seq<u64>, order: BitOrder, pos: int, q: int)
    requires
        0 <= pos <= q,
        q < ws.len() * 64,
        forall|j: int| pos <= j < q ==> !bit_at(ws, order, j),
        bit_at(ws, order, q),
    ensures
        spec_unary(ws, order, pos) == Some::<(nat, int)>(((q - pos) as nat, q + 1)),
    decreases q - pos,
{
    if pos == q {
    } else {
        lemma_unary_found(ws, order, pos + 1, q);
    }
}

/// A unary code that never terminates before the end of the backing.
pub proof fn lemma_unary_none(ws: Seq<u64>, order: BitOrder, pos: int)
    requires
        0 <= pos,
        forall|j: int| pos <= j < ws.len() * 64 ==> !bit_at(ws, order, j),
    ensures
        spec_unary(ws, order, pos) is None,
    decreases ws.len() * 64 - pos,
{
    if pos < ws.len() * 64 {
        lemma_unary_none(ws, order, pos + 1);
    }
}

/// The bit pattern behind a decoded unary code: zeros up to the
/// terminating one bit, which lies inside the backing.
pub proof fn lemma_unary_bits(ws: Seq<u64>, order: BitOrder, pos: int)
    ensures
        match spec_unary(ws, order, pos) {
            Some((x, p)) => {
                &&& p == pos + x + 1
                &&& 0 <= pos
                &&& pos + x < ws.len() * 64
                &&& bit_at(ws, order, pos + x)
                &&& forall|j: int| pos <= j < pos + x ==> !bit_at(ws, order, j)
            },
            None => true,
        },
    decreases ws.len() * 64 - pos,
{
    if 0 <= pos < ws.len() * 64 && !bit_at(ws, order, pos) {
        lemma_unary_bits(ws, order, pos + 1);
    }
}

/// The value of a single delivered bit, under either order.
pub proof fn lemma_bits_val_one(ws: Seq<u64>, order: BitOrder, pos: int)
    ensures
        bits_val(ws, order, pos, 1) == if bit_at(ws, order, pos) {
            1nat
        } else {
            0nat
        },
{
    lemma_bits_val_step(ws, order, pos, 1);
    assert(bits_at(ws, order, pos, 0) =~= Seq::<bool>::empty());
    assert(pow2(0) == 1) by {
        lemma2_to64();
    }
}

/// Shape of a decoded unary code: the new position sits just past the
/// terminating one bit.
pub proof fn lemma_unary_shape(ws: Seq<u64>, order: BitOrder, pos: int)
    ensures
        match spec_unary(ws, order, pos) {
            Some((x, p)) => p == pos + x + 1 && 0 <= pos && p <= ws.len() * 64,
            None => true,
        },
    decreases ws.len() * 64 - pos,
{
    if 0 <= pos < ws.len() * 64 && !bit_at(ws, order, pos) {
        lemma_unary_shape(ws, order, pos + 1);
    }
}


/// The value of a byte string read big-endian: the first byte is the most
/// significant.
pub open spec fn be_word(bs: Seq<u8>) -> int
    decreases bs.len(),
{
    if bs.len() == 0 {
        0
    } else {
        be_word(bs.drop_last()) * 256 + bs.last()
    }
}

/// The `i`-th eight-byte chunk of a byte region, zero-padded past the end.
pub open spec fn chunk8(bs: Seq<u8>, i: int) -> Seq<u8> {
    Seq::new(8, |j: int| if 8 * i + j < bs.len() {
        bs[8 * i + j]
    } else {
        0u8
    })
}

/// A big-endian byte value fits the width of its string.
proof fn lemma_be_word_bound(bs: Seq<u8>)
    ensures
        0 <= be_word(bs) < pow2((8 * bs.len()) as nat),
    decreases bs.len(),
{
    if bs.len() == 0 {
        lemma2_to64();
    } else {
        lemma_be_word_bound(bs.drop_last());
        lemma_pow2_adds((8 * (bs.len() - 1)) as nat, 8);
        lemma2_to64();
        assert(be_word(bs.drop_last()) * 256 + bs.last() < pow2((8 * (bs.len() - 1)) as nat)
            * 256) by (nonlinear_arith)
            requires
                be_word(bs.drop_last()) < pow2((8 * (bs.len() - 1)) as nat),
                bs.last() < 256,
        ;
        assert(be_word(bs.drop_last()) * 256 >= 0) by (nonlinear_arith)
            requires
                be_word(bs.drop_last()) >= 0,
        ;
    }
}

/// A finite backing of 64-bit logical words, read as an infinite stream
/// that yields zero words past the end.
pub struct WordReader {
    words: Vec<u64>,
    position: usize,
}

impl WordReader {
    /// The backing words.
    pub closed spec fn spec_words(&self) -> Seq<u64> {
        self.words@
    }

    /// The index of the next word to be read.
    pub closed spec fn spec_position(&self) -> int {
        self.position as int
    }

    /// Wrap a vector of logical words, positioned at the first word.
    pub fn new(words: Vec<u64>) -> (r: Self)
        ensures
            r.spec_words() == words@,
            r.spec_position() == 0,
    {
        WordReader { words, position: 0 }
    }

    /// Move the cursor to an absolute word index; O(1).
    pub fn set_position(&mut self, word_index: usize)
        ensures
            final(self).spec_words() == old(self).spec_words(),
            final(self).spec_position() == word_index as int,
    {
        self.position = word_index;
    }

    /// Read the word under the cursor and advance; past the end of the
    /// backing the stream is an infinite run of zero words.
    pub fn read_next_word(&mut self) -> (w: u64)
        requires
            old(self).spec_position() < usize::MAX,
        ensures
            final(self).spec_words() == old(self).spec_words(),
            final(self).spec_position() == old(self).spec_position() + 1,
            w == if old(self).spec_position() < old(self).spec_words().len() {
                old(self).spec_words()[old(self).spec_position()]
            } else {
                0u64
            },
    {
        let w: u64 = if self.position < self.words.len() {
            self.words[self.position]
        } else {
            0
        };
        self.position = self.position + 1;
        w
    }


    /// Present a byte region as 64-bit logical words, each assembled from
    /// eight bytes with the given byte significance; missing bytes past the
    /// end read as zero.  `big` means the first byte of each group is the
    /// most significant.
    pub fn from_bytes(bytes: &Vec<u8>, big: bool) -> (r: Self)
        requires
            bytes@.len() + 8 <= usize::MAX,
        ensures
            r.spec_position() == 0,
            r.spec_words().len() == (bytes@.len() + 7) / 8,
            forall|i: int|
                0 <= i < r.spec_words().len() ==> (#[trigger] r.spec_words()[i]) as int == be_word(
                    if big {
                        chunk8(bytes@, i)
                    } else {
                        chunk8(bytes@, i).reverse()
                    },
                ),
    {
        let nw = (bytes.len() + 7) / 8;
        let mut words: Vec<u64> = Vec::new();
        let mut i: usize = 0;
        while i < nw
            invariant
                0 <= i <= nw,
                bytes@.len() + 8 <= usize::MAX,
                nw == (bytes@.len() + 7) / 8,
                words@.len() == i,
                forall|t: int|
                    0 <= t < i ==> (#[trigger] words@[t]) as int == be_word(
                        if big {
                            chunk8(bytes@, t)
                        } else {
                            chunk8(bytes@, t).reverse()
                        },
                    ),
            decreases nw - i,
        {
            let ghost ch = if big {
                chunk8(bytes@, i as int)
            } else {
                chunk8(bytes@, i as int).reverse()
            };
            let mut w: u64 = 0;
            let mut j: usize = 0;
            proof {
                assert(ch.len() == 8);
                assert(ch.take(0) =~= Seq::<u8>::empty());
            }
            while j < 8
                invariant
                    0 <= j <= 8,
                    i < nw,
                    nw == (bytes@.len() + 7) / 8,
                    bytes@.len() + 8 <= usize::MAX,
                    ch == (if big {
                        chunk8(bytes@, i as int)
                    } else {
                        chunk8(bytes@, i as int).reverse()
                    }),
                    w as int == be_word(ch.take(j as int)),
                decreases 8 - j,
            {
                proof {
                    vstd::arithmetic::div_mod::lemma_fundamental_div_mod(
                        (bytes@.len() + 7) as int,
                        8,
                    );
                    vstd::arithmetic::div_mod::lemma_mod_bound((bytes@.len() + 7) as int, 8);
                    assert(nw as int == (bytes@.len() + 7) as int / 8);
                    assert(8 * (i as int) + 8 <= bytes@.len() + 8) by (nonlinear_arith)
                        requires
                            i < nw,
                            (bytes@.len() + 7) as int == 8 * (nw as int) + ((bytes@.len()
                                + 7) as int) % 8,
                            0 <= ((bytes@.len() + 7) as int) % 8 < 8,
                    ;
                }
                let src: usize = if big {
                    8 * i + j
                } else {
                    8 * i + 7 - j
                };
                let b: u8 = if src < bytes.len() {
                    bytes[src]
                } else {
                    0
                };
                proof {
                    assert(ch.take(j + 1).drop_last() =~= ch.take(j as int));
                    assert(ch.take(j + 1).last() == ch[j as int]);
                    assert(ch[j as int] == b);
                    lemma_be_word_bound(ch.take(j as int));
                    lemma2_to64();
                    lemma2_to64_rest();
                    if j < 7 {
                        lemma_pow2_strictly_increases((8 * j) as nat, 56);
                    }
                    assert(be_word(ch.take(j as int)) * 256 + b <= (pow2(56) - 1) * 256 + 255)
                        by (nonlinear_arith)
                        requires
                            be_word(ch.take(j as int)) <= pow2(56) - 1,
                            b <= 255,
                    ;
                }
                w = w * 256 + (b as u64);
                j = j + 1;
            }
            proof {
                assert(ch.take(8) =~= ch);
            }
            words.push(w);
            i = i + 1;
        }
        WordReader { words, position: 0 }
    }

    /// The number of words in the backing.
    pub fn len(&self) -> (r: usize)
        ensures
            r == self.spec_words().len(),
    {
        self.words.len()
    }
}

/// A bit reader over a seekable word stream.  It keeps only an absolute bit
/// index and pulls one or two words from the backing per operation.
pub struct UnbufferedBitStreamRead {
    data: WordReader,
    bit_idx: usize,
    order: BitOrder,
}

impl UnbufferedBitStreamRead {
    /// The words of the backing stream.
    pub closed spec fn spec_words(&self) -> Seq<u64> {
        self.data.spec_words()
    }

    /// The absolute index of the next bit to be delivered.
    pub closed spec fn spec_pos(&self) -> int {
        self.bit_idx as int
    }

    /// The bit order of this reader.
    pub closed spec fn spec_order(&self) -> BitOrder {
        self.order
    }

    /// The reader's cursor does not move and its backing does not change.
    pub open spec fn stable_from(&self, prev: &Self) -> bool {
        &&& self.spec_words() == prev.spec_words()
        &&& self.spec_order() == prev.spec_order()
        &&& self.spec_pos() == prev.spec_pos()
    }

    /// Create a bit reader on a word stream, positioned at bit 0.
    pub fn new(data: WordReader, order: BitOrder) -> (r: Self)
        ensures
            r.spec_words() == data.spec_words(),
            r.spec_order() == order,
            r.spec_pos() == 0,
    {
        UnbufferedBitStreamRead { data, bit_idx: 0, order }
    }

    /// The current absolute bit position.
    pub fn get_position(&self) -> (r: usize)
        ensures
            r as int == self.spec_pos(),
    {
        self.bit_idx
    }

    /// Move the cursor to an absolute bit index; O(1).
    pub fn seek_bit(&mut self, bit_index: usize)
        ensures
            final(self).spec_words() == old(self).spec_words(),
            final(self).spec_order() == old(self).spec_order(),
            final(self).spec_pos() == bit_index as int,
    {
        self.bit_idx = bit_index;
    }

    /// Advance the cursor by `n_bits` without delivering anything.
    pub fn skip_bits(&mut self, n_bits: u8)
        requires
            old(self).spec_pos() + n_bits <= usize::MAX,
        ensures
            final(self).spec_words() == old(self).spec_words(),
            final(self).spec_order() == old(self).spec_order(),
            final(self).spec_pos() == old(self).spec_pos() + n_bits,
    {
        self.bit_idx = self.bit_idx + n_bits as usize;
    }

    /// Deliver the next `n_bits` bits as a right-aligned value without
    /// consuming them.  More than 64 bits cannot be asked for.
    pub fn peek_bits(&mut self, n_bits: u8) -> (r: Result<u64, Error>)
        ensures
            final(self).stable_from(old(self)),
            match r {
                Ok(v) => n_bits <= 64 && v as nat == bits_val(
                    old(self).spec_words(),
                    old(self).spec_order(),
                    old(self).spec_pos(),
                    n_bits as int,
                ),
                Err(e) => n_bits > 64 && e == Error::BadArgument,
            },
    {
        if n_bits > 64 {
            return Err(Error::BadArgument);
        }
        if n_bits == 0 {
            proof {
                assert(bits_at(self.spec_words(), self.spec_order(), self.spec_pos(), 0)
                    =~= Seq::<bool>::empty());
            }
            return Ok(0);
        }
        let ghost ws = self.spec_words();
        let ghost pos = self.spec_pos();
        let widx: usize = self.bit_idx / 64;
        let off: u64 = (self.bit_idx % 64) as u64;
        let n: u64 = n_bits as u64;
        proof {
            lemma_fundamental_div_mod(self.bit_idx as int, 64);
            assert(pos == widx * 64 + off);
        }
        self.data.set_position(widx);
        if off + n <= 64 {
            let word = self.data.read_next_word();
            proof {
                assert(word == word_of(ws, widx as int));
            }
            match self.order {
                BitOrder::M2L => {
                    let res = (word << off) >> (64 - n);
                    proof {
                        lemma_word_extract_m2l(ws, widx as int, off, n);
                    }
                    Ok(res)
                },
                BitOrder::L2M => {
                    let res = (word << (64 - n - off)) >> (64 - n);
                    proof {
                        lemma_word_extract_l2m(ws, widx as int, off, n);
                    }
                    Ok(res)
                },
            }
        } else {
            let w0 = self.data.read_next_word();
            let w1 = self.data.read_next_word();
            proof {
                assert(w0 == word_of(ws, widx as int));
                assert(w1 == word_of(ws, widx as int + 1));
            }
            match self.order {
                BitOrder::M2L => {
                    let res = ((w0 << off) >> (64 - n)) | (w1 >> (128 - off - n));
                    proof {
                        lemma_peek_double_m2l(ws, widx as int, off, n);
                    }
                    Ok(res)
                },
                BitOrder::L2M => {
                    let res = ((w1 << (128 - off - n)) >> (64 - n)) | (w0 >> off);
                    proof {
                        lemma_peek_double_l2m(ws, widx as int, off, n);
                    }
                    Ok(res)
                },
            }
        }
    }

    /// Deliver and consume the next `n_bits` bits.
    pub fn read_bits(&mut self, n_bits: u8) -> (r: Result<u64, Error>)
        requires
            old(self).spec_pos() + n_bits <= usize::MAX,
        ensures
            final(self).spec_words() == old(self).spec_words(),
            final(self).spec_order() == old(self).spec_order(),
            match r {
                Ok(v) => {
                    &&& n_bits <= 64
                    &&& v as nat == bits_val(
                        old(self).spec_words(),
                        old(self).spec_order(),
                        old(self).spec_pos(),
                        n_bits as int,
                    )
                    &&& final(self).spec_pos() == old(self).spec_pos() + n_bits
                },
                Err(e) => {
                    &&& n_bits > 64
                    &&& e == Error::BadArgument
                    &&& final(self).spec_pos() == old(self).spec_pos()
                },
            },
    {
        let res = self.peek_bits(n_bits);
        match res {
            Ok(v) => {
                self.skip_bits(n_bits);
                Ok(v)
            },
            Err(e) => Err(e),
        }
    }

    /// Deliver and consume a unary code: the count of zero bits before the
    /// first one bit.  The zero padding past the backing never terminates a
    /// unary code, so running into it reports the end of the stream and
    /// leaves the cursor where it was.
    pub fn read_unary(&mut self) -> (r: Result<u64, Error>)
        requires
            old(self).spec_words().len() * 64 <= usize::MAX,
        ensures
            final(self).spec_words() == old(self).spec_words(),
            final(self).spec_order() == old(self).spec_order(),
            match r {
                Ok(x) => spec_unary(
                    old(self).spec_words(),
                    old(self).spec_order(),
                    old(self).spec_pos(),
                ) == Some((x as nat, final(self).spec_pos())),
                Err(e) => {
                    &&& e == Error::UnexpectedEof
                    &&& spec_unary(
                        old(self).spec_words(),
                        old(self).spec_order(),
                        old(self).spec_pos(),
                    ) is None
                    &&& final(self).spec_pos() == old(self).spec_pos()
                },
            },
    {
        let ghost ws = self.spec_words();
        let ghost order0 = self.spec_order();
        let nwords = self.data.len();
        let total: usize = nwords * 64;
        let start = self.bit_idx;
        if start >= total {
            return Err(Error::UnexpectedEof);
        }
        let mut cur = start;
        while cur < total
            invariant
                ws == old(self).spec_words(),
                order0 == old(self).spec_order(),
                start == old(self).spec_pos(),
                self.spec_words() == ws,
                self.spec_order() == order0,
                self.bit_idx == start,
                total == ws.len() * 64,
                start <= cur <= total,
                forall|j: int| start <= j < cur ==> !bit_at(ws, order0, j),
            decreases total - cur,
        {
            let widx: usize = cur / 64;
            let off: u64 = (cur % 64) as u64;
            proof {
                lemma_fundamental_div_mod(cur as int, 64);
                assert(cur as int == widx * 64 + off);
                lemma_bit_at_word(ws, order0, widx as int, off);
            }
            self.data.set_position(widx);
            let w = self.data.read_next_word();
            proof {
                assert(w == word_of(ws, widx as int));
            }
            let found: bool = match self.order {
                BitOrder::M2L => (w >> (63 - off)) & 1 == 1,
                BitOrder::L2M => (w >> off) & 1 == 1,
            };
            if found {
                proof {
                    lemma_unary_found(ws, order0, start as int, cur as int);
                }
                let res = (cur - start) as u64;
                self.bit_idx = cur + 1;
                return Ok(res);
            }
            cur = cur + 1;
        }
        proof {
            lemma_unary_none(ws, order0, start as int);
        }
        Err(Error::UnexpectedEof)
    }
}

} // verus!
