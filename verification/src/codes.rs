//! Universal codes on top of the bit reader: unary, gamma, delta, zeta,
//! Rice and minimal binary, together with the signed/unsigned value map
//! used for reference-frame offsets.
//!
//! Each decoder has a specification-level twin that says exactly which value
//! a well-formed stream yields and where the cursor lands; the executable
//! reader is proved against it.  A decoder fails with `UnexpectedEof` only
//! when the terminating one bit of a unary part lies past the backing, and
//! with `CorruptStream` when the decoded value cannot fit a 64-bit word.

use vstd::prelude::*;
use vstd::arithmetic::power2::*;
use vstd::bits::{lemma_u64_shl_is_mul, lemma_u64_pow2_no_overflow};
use crate::Error;
use crate::bits::{BitOrder, bit_at, bits_val, spec_unary, lemma_unary_shape, lemma_bits_val_bound, pow2_le_max64, UnbufferedBitStreamRead};

verus! {

/// Floor of the base-2 logarithm; 0 for inputs below 2.
pub open spec fn log2_floor(x: nat) -> nat
    decreases x,
{
    if x < 2 {
        0
    } else {
        1 + log2_floor(x / 2)
    }
}

/// Ceiling of the base-2 logarithm of `z`, for `z >= 1`.
pub open spec fn ceil_log2(z: nat) -> nat {
    if z <= 1 {
        0
    } else {
        log2_floor((z - 1) as nat) + 1
    }
}

/// Reading a gamma code at `pos`: a unary length `l`, then `l` bits that
/// complete the value `x + 1` whose leading one bit was elided.
pub open spec fn spec_gamma(ws: Seq<u64>, order: BitOrder, pos: int) -> Option<(nat, int)> {
    match spec_unary(ws, order, pos) {
        None => None,
        Some((l, p)) => if l <= 63 {
            Some(((pow2(l) - 1 + bits_val(ws, order, p, l as int)) as nat, p + l))
        } else {
            None
        },
    }
}

/// Reading a delta code at `pos`: the bit length is gamma-coded, then the
/// trailing bits follow as in gamma.
pub open spec fn spec_delta(ws: Seq<u64>, order: BitOrder, pos: int) -> Option<(nat, int)> {
    match spec_gamma(ws, order, pos) {
        None => None,
        Some((l, p)) => if l <= 63 {
            Some(((pow2(l) - 1 + bits_val(ws, order, p, l as int)) as nat, p + l))
        } else {
            None
        },
    }
}

/// Reading a zeta code with shrinking parameter `k` at `pos`: a unary `h`,
/// then `h * k + k` bits holding `x + 1`.
pub open spec fn spec_zeta(ws: Seq<u64>, order: BitOrder, pos: int, k: int) -> Option<(nat, int)> {
    match spec_unary(ws, order, pos) {
        None => None,
        Some((h, p)) => {
            let nb = (h + 1) * k;
            if nb <= 64 {
                let v = bits_val(ws, order, p, nb);
                if v >= 1 {
                    Some(((v - 1) as nat, p + nb))
                } else {
                    None
                }
            } else {
                None
            }
        },
    }
}

/// Reading a Rice code with parameter `k` at `pos`: a unary quotient, then
/// `k` bits of remainder.
pub open spec fn spec_rice(ws: Seq<u64>, order: BitOrder, pos: int, k: int) -> Option<(nat, int)> {
    match spec_unary(ws, order, pos) {
        None => None,
        Some((q, p)) => {
            let r = bits_val(ws, order, p, k);
            if q * pow2(k as nat) + r <= u64::MAX {
                Some(((q * pow2(k as nat) + r) as nat, p + k))
            } else {
                None
            }
        },
    }
}

/// Reading a minimal binary code for a value in `[0, z)` at `pos`: with
/// `s = ceil(log2(z))` and `m = 2^s - z`, either `s - 1` bits below `m`, or
/// `s` bits shifted up by `m`.  The zero padding always completes it.
pub open spec fn spec_min_binary(ws: Seq<u64>, order: BitOrder, pos: int, z: int) -> (nat, int) {
    if z <= 1 {
        (0nat, pos)
    } else {
        let s = ceil_log2(z as nat) as int;
        let m = pow2(s as nat) - z;
        let v = bits_val(ws, order, pos, s - 1);
        if v < m {
            (v, pos + s - 1)
        } else {
            let b: nat = if bit_at(ws, order, pos + s - 1) {
                1nat
            } else {
                0nat
            };
            ((2 * v + b - m) as nat, pos + s)
        }
    }
}

/// The natural-to-integer map of the format: even naturals are nonnegative
/// halves, odd naturals are negative halves.
pub open spec fn spec_nat2int(u: int) -> int {
    if u % 2 == 0 {
        u / 2
    } else {
        -((u + 1) / 2)
    }
}

/// The integer-to-natural map, inverse of [`spec_nat2int`].
pub open spec fn spec_int2nat(i: int) -> int {
    if i >= 0 {
        2 * i
    } else {
        -2 * i - 1
    }
}

/// Map a decoded natural to the signed offset it denotes.
pub fn nat2int(u: u64) -> (r: i64)
    ensures
        r as int == spec_nat2int(u as int),
{
    if u & 1 == 0 {
        proof {
            assert(u & 1 == u % 2) by (bit_vector);
            assert(u >> 1u64 == u / 2) by (bit_vector);
        }
        (u >> 1) as i64
    } else {
        proof {
            assert(u & 1 == u % 2) by (bit_vector);
            assert(u >> 1u64 == u / 2) by (bit_vector);
            assert(u % 2 == 1 ==> (u + 1) / 2 == u / 2 + 1) by (nonlinear_arith);
        }
        -((u >> 1) as i64) - 1
    }
}

/// Map a signed offset to the natural the format stores for it.
pub fn int2nat(i: i64) -> (r: u64)
    ensures
        r as int == spec_int2nat(i as int),
{
    if i >= 0 {
        (i as u64) * 2
    } else {
        ((-(i + 1)) as u64) * 2 + 1
    }
}

/// The two maps invert each other: storing any signed offset and decoding
/// it yields the offset back.
pub proof fn lemma_nat2int_of_int2nat(i: int)
    ensures
        spec_nat2int(spec_int2nat(i)) == i,
{
    if i >= 0 {
        assert((2 * i) % 2 == 0 && (2 * i) / 2 == i) by (nonlinear_arith);
    } else {
        assert((-2 * i - 1) % 2 == 1) by (nonlinear_arith);
        assert(((-2 * i - 1) + 1) / 2 == -i) by (nonlinear_arith);
    }
}

/// The two maps invert each other the other way round: every natural is the
/// stored form of exactly the signed offset it decodes to.  Together with
/// [`lemma_nat2int_of_int2nat`] this makes the pair a bijection between the
/// integers and the naturals.
pub proof fn lemma_int2nat_of_nat2int(u: int)
    requires
        u >= 0,
    ensures
        spec_int2nat(spec_nat2int(u)) == u,
{
    if u % 2 == 0 {
        assert(2 * (u / 2) == u) by (nonlinear_arith)
            requires
                u % 2 == 0 && u >= 0,
        ;
    } else {
        assert(u % 2 == 1 ==> (u + 1) / 2 >= 1 && -2 * (-((u + 1) / 2)) - 1 == u)
            by (nonlinear_arith)
            requires
                u % 2 == 1 && u >= 0,
        ;
    }
}


/// Bounds characterizing the floor logarithm.
pub proof fn lemma_log2_floor_bounds(x: nat)
    requires
        x >= 1,
    ensures
        pow2(log2_floor(x)) <= x,
        x < pow2(log2_floor(x) + 1),
    decreases x,
{
    if x < 2 {
        lemma2_to64();
    } else {
        lemma_log2_floor_bounds(x / 2);
        lemma_pow2_unfold(log2_floor(x));
        lemma_pow2_unfold(log2_floor(x) + 1);
        assert(pow2(log2_floor(x / 2)) <= x / 2 ==> 2 * pow2(log2_floor(x / 2)) <= x)
            by (nonlinear_arith)
            requires
                x >= 2,
        ;
        assert(x / 2 < pow2(log2_floor(x / 2) + 1) ==> x < 2 * pow2(log2_floor(x / 2) + 1))
            by (nonlinear_arith)
            requires
                x >= 2,
        ;
    }
}

/// Bounds characterizing the ceiling logarithm, for `z >= 2`.
pub proof fn lemma_ceil_log2_bounds(z: nat)
    requires
        z >= 2,
    ensures
        ceil_log2(z) >= 1,
        z <= pow2(ceil_log2(z)),
        pow2((ceil_log2(z) - 1) as nat) < z,
{
    lemma_log2_floor_bounds((z - 1) as nat);
}


/// Compute the floor of the base-2 logarithm of a positive word.
pub fn log2_floor_u64(v: u64) -> (l: u64)
    requires
        v >= 1,
    ensures
        l as nat == log2_floor(v as nat),
        l <= 63,
{
    let mut l: u64 = 0;
    let mut t: u64 = v;
    proof {
        lemma2_to64();
    }
    while t >= 2
        invariant
            t >= 1,
            t as nat == (v as nat) / pow2(l as nat),
            pow2(l as nat) <= v as nat,
            log2_floor(v as nat) == l + log2_floor(t as nat),
            l <= 63,
        decreases t,
    {
        proof {
            lemma_pow2_pos(l as nat);
            lemma_pow2_unfold((l + 1) as nat);
            vstd::arithmetic::div_mod::lemma_fundamental_div_mod(v as int, pow2(l as nat) as int);
            vstd::arithmetic::div_mod::lemma_mod_bound(v as int, pow2(l as nat) as int);
            vstd::arithmetic::div_mod::lemma_div_denominator(v as int, pow2(l as nat) as int, 2);
            assert(pow2((l + 1) as nat) <= v as nat) by (nonlinear_arith)
                requires
                    (v as nat) / pow2(l as nat) >= 2,
                    pow2(l as nat) >= 1,
                    pow2((l + 1) as nat) == 2 * pow2(l as nat),
                    v as nat == pow2(l as nat) * ((v as nat) / pow2(l as nat)) + (v as nat) % pow2(
                        l as nat,
                    ),
                    (v as nat) % pow2(l as nat) >= 0,
            ;
            if l + 1 > 63 {
                pow2_le_max64(64);
                assert(pow2(64) > u64::MAX) by {
                    lemma2_to64_rest();
                }
                assert(false);
            }
        }
        t = t / 2;
        l = l + 1;
    }
    l
}

/// Compute the ceiling of the base-2 logarithm of `z`, together with the
/// power of two it names.
pub fn ceil_log2_u64(z: u64) -> (r: (u64, u64))
    requires
        2 <= z <= 0x8000_0000_0000_0000u64,
    ensures
        r.0 as nat == ceil_log2(z as nat),
        r.1 as nat == pow2(r.0 as nat),
        1 <= r.0 <= 63,
        z <= r.1,
{
    let mut s: u64 = 0;
    let mut p: u64 = 1;
    proof {
        lemma2_to64();
        lemma2_to64_rest();
    }
    while p < z
        invariant
            s <= 63,
            p == pow2(s as nat),
            z <= 0x8000_0000_0000_0000u64,
            s == 0 || pow2((s - 1) as nat) < z,
            pow2(63) == 0x8000_0000_0000_0000u64,
        decreases 64 - s,
    {
        proof {
            if s >= 63 {
                assert(false);
            }
            lemma_pow2_unfold((s + 1) as nat);
            lemma_pow2_strictly_increases(s as nat, (s + 1) as nat);
        }
        p = p * 2;
        s = s + 1;
    }
    proof {
        lemma_ceil_log2_bounds(z as nat);
        let cl = ceil_log2(z as nat);
        if (s as nat) < cl {
            lemma_pow2_strictly_increases(s as nat, cl);
            if s as nat <= cl - 1 && s as nat != cl - 1 {
                lemma_pow2_strictly_increases(s as nat, (cl - 1) as nat);
            }
            assert(pow2(s as nat) <= pow2((cl - 1) as nat) < z);
        }
        if (s as nat) > cl {
            lemma_pow2_strictly_increases(cl, s as nat);
            lemma_pow2_strictly_increases(cl, (s - 1) as nat);
        }
        assert(s as nat == cl);
    }
    (s, p)
}

impl UnbufferedBitStreamRead {
    /// The backing is small enough that any in-range code read stays within
    /// the address space; a machine limit, not a format one.
    pub open spec fn fits(&self) -> bool {
        self.spec_words().len() * 64 + 192 <= usize::MAX
    }

    /// Deliver and consume a gamma code.
    pub fn read_gamma(&mut self) -> (r: Result<u64, Error>)
        requires
            old(self).fits(),
        ensures
            final(self).spec_words() == old(self).spec_words(),
            final(self).spec_order() == old(self).spec_order(),
            match r {
                Ok(x) => spec_gamma(
                    old(self).spec_words(),
                    old(self).spec_order(),
                    old(self).spec_pos(),
                ) == Some((x as nat, final(self).spec_pos())),
                Err(e) => {
                    &&& spec_gamma(
                        old(self).spec_words(),
                        old(self).spec_order(),
                        old(self).spec_pos(),
                    ) is None
                    &&& final(self).spec_pos() == old(self).spec_pos()
                    &&& e == (if spec_unary(
                        old(self).spec_words(),
                        old(self).spec_order(),
                        old(self).spec_pos(),
                    ) is None {
                        Error::UnexpectedEof
                    } else {
                        Error::CorruptStream
                    })
                },
            },
    {
        let ghost ws = self.spec_words();
        let ghost order0 = self.spec_order();
        let start = self.get_position();
        proof {
            lemma_unary_shape(ws, order0, start as int);
        }
        match self.read_unary() {
            Err(e) => Err(e),
            Ok(l) => {
                if l > 63 {
                    self.seek_bit(start);
                    return Err(Error::CorruptStream);
                }
                match self.read_bits(l as u8) {
                    Err(e) => {
                        proof {
                            assert(false);
                        }
                        Err(e)
                    },
                    Ok(fixed) => {
                        proof {
                            lemma_bits_val_bound(ws, order0, start as int + 1 + l, l as int);
                            lemma_u64_pow2_no_overflow(l as nat);
                            lemma_u64_shl_is_mul(1u64, l);
                            pow2_le_max64((l + 1) as nat);
                            lemma_pow2_unfold((l + 1) as nat);
                        }
                        Ok((1u64 << l) - 1 + fixed)
                    },
                }
            },
        }
    }

    /// Deliver and consume a delta code.
    pub fn read_delta(&mut self) -> (r: Result<u64, Error>)
        requires
            old(self).fits(),
        ensures
            final(self).spec_words() == old(self).spec_words(),
            final(self).spec_order() == old(self).spec_order(),
            match r {
                Ok(x) => spec_delta(
                    old(self).spec_words(),
                    old(self).spec_order(),
                    old(self).spec_pos(),
                ) == Some((x as nat, final(self).spec_pos())),
                Err(e) => {
                    &&& spec_delta(
                        old(self).spec_words(),
                        old(self).spec_order(),
                        old(self).spec_pos(),
                    ) is None
                    &&& final(self).spec_pos() == old(self).spec_pos()
                    &&& e == (if spec_unary(
                        old(self).spec_words(),
                        old(self).spec_order(),
                        old(self).spec_pos(),
                    ) is None {
                        Error::UnexpectedEof
                    } else {
                        Error::CorruptStream
                    })
                },
            },
    {
        let ghost ws = self.spec_words();
        let ghost order0 = self.spec_order();
        let start = self.get_position();
        proof {
            lemma_unary_shape(ws, order0, start as int);
        }
        match self.read_gamma() {
            Err(e) => Err(e),
            Ok(l) => {
                if l > 63 {
                    self.seek_bit(start);
                    return Err(Error::CorruptStream);
                }
                match self.read_bits(l as u8) {
                    Err(e) => {
                        proof {
                            assert(false);
                        }
                        Err(e)
                    },
                    Ok(fixed) => {
                        proof {
                            lemma_bits_val_bound(ws, order0, self.spec_pos() - l, l as int);
                            lemma_u64_pow2_no_overflow(l as nat);
                            lemma_u64_shl_is_mul(1u64, l);
                            pow2_le_max64((l + 1) as nat);
                            lemma_pow2_unfold((l + 1) as nat);
                        }
                        Ok((1u64 << l) - 1 + fixed)
                    },
                }
            },
        }
    }

    /// Deliver and consume a zeta code with shrinking parameter `k`.
    pub fn read_zeta(&mut self, k: u64) -> (r: Result<u64, Error>)
        requires
            old(self).fits(),
            1 <= k <= 7,
        ensures
            final(self).spec_words() == old(self).spec_words(),
            final(self).spec_order() == old(self).spec_order(),
            match r {
                Ok(x) => spec_zeta(
                    old(self).spec_words(),
                    old(self).spec_order(),
                    old(self).spec_pos(),
                    k as int,
                ) == Some((x as nat, final(self).spec_pos())),
                Err(e) => {
                    &&& spec_zeta(
                        old(self).spec_words(),
                        old(self).spec_order(),
                        old(self).spec_pos(),
                        k as int,
                    ) is None
                    &&& final(self).spec_pos() == old(self).spec_pos()
                    &&& e == (if spec_unary(
                        old(self).spec_words(),
                        old(self).spec_order(),
                        old(self).spec_pos(),
                    ) is None {
                        Error::UnexpectedEof
                    } else {
                        Error::CorruptStream
                    })
                },
            },
    {
        let ghost ws = self.spec_words();
        let ghost order0 = self.spec_order();
        let start = self.get_position();
        proof {
            lemma_unary_shape(ws, order0, start as int);
        }
        match self.read_unary() {
            Err(e) => Err(e),
            Ok(h) => {
                if h > 63 {
                    proof {
                        assert((h + 1) * (k as int) > 64) by (nonlinear_arith)
                            requires
                                h >= 64,
                                k >= 1,
                        ;
                    }
                    self.seek_bit(start);
                    return Err(Error::CorruptStream);
                }
                proof {
                    assert((h + 1) * (k as int) <= 448) by (nonlinear_arith)
                        requires
                            h <= 63,
                            k <= 7,
                    ;
                }
                let nb = (h + 1) * k;
                if nb > 64 {
                    self.seek_bit(start);
                    return Err(Error::CorruptStream);
                }
                match self.read_bits(nb as u8) {
                    Err(e) => {
                        proof {
                            assert(false);
                        }
                        Err(e)
                    },
                    Ok(v) => {
                        if v == 0 {
                            self.seek_bit(start);
                            Err(Error::CorruptStream)
                        } else {
                            Ok(v - 1)
                        }
                    },
                }
            },
        }
    }

    /// Deliver and consume a Rice code with parameter `k`.
    pub fn read_rice(&mut self, k: u64) -> (r: Result<u64, Error>)
        requires
            old(self).fits(),
            k <= 63,
        ensures
            final(self).spec_words() == old(self).spec_words(),
            final(self).spec_order() == old(self).spec_order(),
            match r {
                Ok(x) => spec_rice(
                    old(self).spec_words(),
                    old(self).spec_order(),
                    old(self).spec_pos(),
                    k as int,
                ) == Some((x as nat, final(self).spec_pos())),
                Err(e) => {
                    &&& spec_rice(
                        old(self).spec_words(),
                        old(self).spec_order(),
                        old(self).spec_pos(),
                        k as int,
                    ) is None
                    &&& final(self).spec_pos() == old(self).spec_pos()
                    &&& e == (if spec_unary(
                        old(self).spec_words(),
                        old(self).spec_order(),
                        old(self).spec_pos(),
                    ) is None {
                        Error::UnexpectedEof
                    } else {
                        Error::CorruptStream
                    })
                },
            },
    {
        let ghost ws = self.spec_words();
        let ghost order0 = self.spec_order();
        let start = self.get_position();
        proof {
            lemma_unary_shape(ws, order0, start as int);
            lemma_u64_pow2_no_overflow(k as nat);
            lemma_u64_shl_is_mul(1u64, k);
        }
        match self.read_unary() {
            Err(e) => Err(e),
            Ok(q) => {
                proof {
                    lemma_bits_val_bound(ws, order0, self.spec_pos(), k as int);
                }
                if k > 0 && q >= (1u64 << (64 - k)) {
                    proof {
                        lemma_u64_pow2_no_overflow((64 - k) as nat);
                        lemma_u64_shl_is_mul(1u64, (64 - k) as u64);
                        lemma_pow2_adds((64 - k) as nat, k as nat);
                        lemma2_to64_rest();
                        assert(q * pow2(k as nat) + bits_val(ws, order0, self.spec_pos(), k as int)
                            > u64::MAX) by (nonlinear_arith)
                            requires
                                q >= pow2((64 - k) as nat),
                                pow2((64 - k) as nat) * pow2(k as nat) == pow2(64),
                                pow2(64) == u64::MAX + 1,
                                pow2(k as nat) >= 1,
                                bits_val(ws, order0, self.spec_pos(), k as int) >= 0,
                        ;
                    }
                    self.seek_bit(start);
                    return Err(Error::CorruptStream);
                }
                proof {
                    if k > 0 {
                        lemma_u64_pow2_no_overflow((64 - k) as nat);
                        lemma_u64_shl_is_mul(1u64, (64 - k) as u64);
                        lemma_pow2_adds((64 - k) as nat, k as nat);
                        lemma2_to64_rest();
                        assert(q * pow2(k as nat) + bits_val(ws, order0, self.spec_pos(), k as int)
                            <= u64::MAX) by (nonlinear_arith)
                            requires
                                q < pow2((64 - k) as nat),
                                pow2((64 - k) as nat) * pow2(k as nat) == pow2(64),
                                pow2(64) == u64::MAX + 1,
                                bits_val(ws, order0, self.spec_pos(), k as int) < pow2(k as nat),
                        ;
                    } else {
                        lemma2_to64();
                        assert(q * pow2(0) == q) by (nonlinear_arith)
                            requires
                                pow2(0) == 1,
                        ;
                    }
                }
                match self.read_bits(k as u8) {
                    Err(e) => {
                        proof {
                            assert(false);
                        }
                        Err(e)
                    },
                    Ok(rem) => {
                        proof {
                            lemma_u64_shl_is_mul(q, k);
                        }
                        Ok((q << k) + rem)
                    },
                }
            },
        }
    }

    /// Deliver and consume a minimal binary code for a value in `[0, z)`.
    /// The zero padding always completes it, so it cannot fail.
    pub fn read_minimal_binary(&mut self, z: u64) -> (r: u64)
        requires
            old(self).spec_pos() + 64 <= usize::MAX,
            1 <= z <= 0x8000_0000_0000_0000u64,
        ensures
            final(self).spec_words() == old(self).spec_words(),
            final(self).spec_order() == old(self).spec_order(),
            spec_min_binary(
                old(self).spec_words(),
                old(self).spec_order(),
                old(self).spec_pos(),
                z as int,
            ) == (r as nat, final(self).spec_pos()),
    {
        let ghost ws = self.spec_words();
        let ghost order0 = self.spec_order();
        if z == 1 {
            return 0;
        }
        let mut s: u64 = 0;
        let mut p: u64 = 1;
        proof {
            lemma2_to64();
            lemma2_to64_rest();
        }
        while p < z
            invariant
                s <= 63,
                p == pow2(s as nat),
                z <= 0x8000_0000_0000_0000u64,
                s == 0 || pow2((s - 1) as nat) < z,
                pow2(63) == 0x8000_0000_0000_0000u64,
            decreases 64 - s,
        {
            proof {
                if s >= 63 {
                    assert(false);
                }
                lemma_pow2_unfold((s + 1) as nat);
                lemma_pow2_strictly_increases(s as nat, (s + 1) as nat);
            }
            p = p * 2;
            s = s + 1;
        }
        proof {
            lemma_ceil_log2_bounds(z as nat);
            let cl = ceil_log2(z as nat);
            if (s as nat) < cl {
                lemma_pow2_strictly_increases(s as nat, cl);
                if s as nat <= cl - 1 && s as nat != cl - 1 {
                    lemma_pow2_strictly_increases(s as nat, (cl - 1) as nat);
                }
                assert(pow2(s as nat) <= pow2((cl - 1) as nat) < z);
            }
            if (s as nat) > cl {
                lemma_pow2_strictly_increases(cl, s as nat);
                lemma_pow2_strictly_increases(cl, (s - 1) as nat);
            }
            assert(s as nat == cl);
        }
        let m = p - z;
        match self.read_bits((s - 1) as u8) {
            Err(e) => {
                proof {
                    assert(false);
                }
                0
            },
            Ok(v) => {
                if v < m {
                    v
                } else {
                    proof {
                        lemma_bits_val_bound(ws, order0, self.spec_pos() - (s - 1), s as int - 1);
                        lemma_pow2_unfold(s as nat);
                        crate::bits::lemma_bits_val_one(ws, order0, self.spec_pos());
                    }
                    match self.read_bits(1) {
                        Err(e) => {
                            proof {
                                assert(false);
                            }
                            0
                        },
                        Ok(b) => 2 * v + b - m,
                    }
                }
            },
        }
    }
}

} // verus!
