//! Bit writer producing streams the readers decode.
//!
//! Every code-writing method promises, in its contract, that the bits it
//! appends decode back to exactly the written value at the position where
//! writing started, and that they occupy exactly the documented number of
//! bits.  Reading back what was encoded therefore returns the original
//! value, for every value, by contract alone.

use vstd::prelude::*;
use vstd::arithmetic::power2::*;
use vstd::bits::{lemma_u64_shl_is_mul, lemma_u64_pow2_no_overflow};
use crate::bits::{
    BitOrder, bit_at, bits_at, bits_val, spec_unary, lemma_bits_val_step, lemma_unary_bits,
    lemma_unary_found,
};
use crate::codes::{
    log2_floor, ceil_log2, spec_gamma, spec_delta, spec_zeta, spec_rice, spec_min_binary,
    lemma_log2_floor_bounds, lemma_ceil_log2_bounds, log2_floor_u64, ceil_log2_u64,
};

verus! {

/// Two streams deliver the same bits on a range.
pub open spec fn same_bits(ws1: Seq<u64>, ws2: Seq<u64>, order: BitOrder, pos: int, n: int) -> bool {
    forall|j: int| pos <= j < pos + n ==> bit_at(ws1, order, j) == bit_at(ws2, order, j)
}

/// The value of a group of bits depends only on the bits in its range.
pub proof fn lemma_bits_val_stable(ws1: Seq<u64>, ws2: Seq<u64>, order: BitOrder, pos: int, n: int)
    requires
        n >= 0,
        same_bits(ws1, ws2, order, pos, n),
    ensures
        bits_val(ws1, order, pos, n) == bits_val(ws2, order, pos, n),
{
    {
        assert forall|i: int| 0 <= i < n implies bits_at(ws1, order, pos, n)[i] == bits_at(
            ws2,
            order,
            pos,
            n,
        )[i] by {
            assert(bit_at(ws1, order, pos + i) == bit_at(ws2, order, pos + i));
        }
        assert(bits_at(ws1, order, pos, n) =~= bits_at(ws2, order, pos, n));
    }
}


/// A decoded unary code depends only on the bits it covers.
pub proof fn lemma_unary_stable(ws1: Seq<u64>, ws2: Seq<u64>, order: BitOrder, pos: int)
    requires
        spec_unary(ws1, order, pos) is Some,
        same_bits(ws1, ws2, order, pos, spec_unary(ws1, order, pos)->Some_0.1 - pos),
    ensures
        spec_unary(ws2, order, pos) == spec_unary(ws1, order, pos),
{
    lemma_unary_bits(ws1, order, pos);
    let (x, p) = spec_unary(ws1, order, pos)->Some_0;
    assert forall|j: int| pos <= j < pos + x implies !bit_at(ws2, order, j) by {
        assert(bit_at(ws2, order, j) == bit_at(ws1, order, j));
    }
    assert(bit_at(ws2, order, pos + x) == bit_at(ws1, order, pos + x));
    assert(pos + x < ws2.len() * 64);
    lemma_unary_found(ws2, order, pos, pos + x);
}

/// A decoded gamma code depends only on the bits it covers.
pub proof fn lemma_gamma_stable(ws1: Seq<u64>, ws2: Seq<u64>, order: BitOrder, pos: int)
    requires
        spec_gamma(ws1, order, pos) is Some,
        same_bits(ws1, ws2, order, pos, spec_gamma(ws1, order, pos)->Some_0.1 - pos),
    ensures
        spec_gamma(ws2, order, pos) == spec_gamma(ws1, order, pos),
{
    lemma_unary_bits(ws1, order, pos);
    let (l, p) = spec_unary(ws1, order, pos)->Some_0;
    assert forall|j: int| pos <= j < p implies bit_at(ws1, order, j) == bit_at(
        ws2,
        order,
        j,
    ) by {
        assert(bit_at(ws2, order, j) == bit_at(ws1, order, j));
    }
    lemma_unary_stable(ws1, ws2, order, pos);
    lemma_bits_val_stable(ws1, ws2, order, p, l as int);
}

/// A growing stream of bits, packed into 64-bit words in the given order.
pub struct BitStreamWrite {
    words: Vec<u64>,
    bit_len: usize,
    order: BitOrder,
}

impl BitStreamWrite {
    /// The words written so far.
    pub closed spec fn spec_words(&self) -> Seq<u64> {
        self.words@
    }

    /// The number of bits written so far.
    pub closed spec fn spec_len(&self) -> int {
        self.bit_len as int
    }

    /// The bit order of this writer.
    pub closed spec fn spec_order(&self) -> BitOrder {
        self.order
    }

    /// Well-formed: the bit count fits the words tightly and every bit past
    /// it is still zero, so appending never disturbs what was written.
    pub open spec fn wf(&self) -> bool {
        &&& self.spec_len() <= self.spec_words().len() * 64
        &&& self.spec_words().len() * 64 < self.spec_len() + 64
        &&& forall|i: int|
            self.spec_len() <= i < self.spec_words().len() * 64 ==> !bit_at(
                self.spec_words(),
                self.spec_order(),
                i,
            )
    }

    /// An empty stream in the given bit order.
    pub fn new(order: BitOrder) -> (r: Self)
        ensures
            r.wf(),
            r.spec_len() == 0,
            r.spec_order() == order,
    {
        BitStreamWrite { words: Vec::new(), bit_len: 0, order }
    }

    /// The number of bits written so far.
    pub fn len(&self) -> (r: usize)
        ensures
            r as int == self.spec_len(),
    {
        self.bit_len
    }

    /// Hand the written words over, for a reader to consume.
    pub fn into_words(self) -> (r: Vec<u64>)
        ensures
            r@ == self.spec_words(),
    {
        self.words
    }

    /// Append a single bit.
    pub fn push_bit(&mut self, b: bool)
        requires
            old(self).wf(),
            old(self).spec_len() + 64 <= usize::MAX,
        ensures
            final(self).wf(),
            final(self).spec_order() == old(self).spec_order(),
            final(self).spec_len() == old(self).spec_len() + 1,
            same_bits(
                final(self).spec_words(),
                old(self).spec_words(),
                old(self).spec_order(),
                0,
                old(self).spec_len(),
            ),
            bit_at(final(self).spec_words(), final(self).spec_order(), old(self).spec_len()) == b,
    {
        let ghost oldws = self.words@;
        let ghost order0 = self.order;
        let ghost oldlen = self.bit_len as int;
        if self.bit_len == self.words.len() * 64 {
            self.words.push(0);
            proof {
                assert forall|j: int| 0 <= j < oldlen + 64 implies bit_at(
                    self.words@,
                    order0,
                    j,
                ) == bit_at(oldws, order0, j) by {
                    lemma_widx(j);
                    if j < oldlen {
                        assert(j / 64 < oldws.len()) by (nonlinear_arith)
                            requires
                                j < oldws.len() * 64,
                                j == 64 * (j / 64) + j % 64,
                                0 <= j % 64 < 64,
                        ;
                    } else {
                        assert(j / 64 >= oldws.len()) by (nonlinear_arith)
                            requires
                                j >= oldws.len() * 64,
                                j == 64 * (j / 64) + j % 64,
                                0 <= j % 64 < 64,
                        ;
                        lemma_zero_word_bit(order0, (j % 64) as u64);
                        if j / 64 == oldws.len() {
                            assert(self.words@[j / 64] == 0);
                        }
                    }
                }
            }
        }
        let ghost wsmid = self.words@;
        proof {
            assert forall|i: int| oldlen <= i < wsmid.len() * 64 implies !bit_at(
                wsmid,
                order0,
                i,
            ) by {
                assert(bit_at(wsmid, order0, i) == bit_at(oldws, order0, i));
            }
        }
        let widx: usize = self.bit_len / 64;
        let off: u64 = (self.bit_len % 64) as u64;
        proof {
            lemma_widx(self.bit_len as int);
            assert(widx < wsmid.len()) by (nonlinear_arith)
                requires
                    self.bit_len < wsmid.len() * 64,
                    self.bit_len == 64 * (widx as int) + off,
                    0 <= off < 64,
                    widx == self.bit_len as int / 64,
            ;
        }
        if b {
            let w = self.words[widx];
            let mask: u64 = match self.order {
                BitOrder::M2L => 1u64 << (63 - off),
                BitOrder::L2M => 1u64 << off,
            };
            let neu = w | mask;
            self.words.set(widx, neu);
            proof {
                assert forall|j: int|
                    0 <= j < wsmid.len() * 64 && j != oldlen implies bit_at(
                    self.words@,
                    order0,
                    j,
                ) == bit_at(wsmid, order0, j) by {
                    lemma_other_bits(wsmid, self.words@, order0, widx as int, off, j);
                }
                lemma_set_bit(wsmid, self.words@, order0, widx as int, off);
            }
        } else {
            proof {
                assert(!bit_at(wsmid, order0, oldlen));
            }
        }
        self.bit_len = self.bit_len + 1;
        proof {
            assert forall|i: int|
                self.bit_len <= i < self.words@.len() * 64 implies !bit_at(
                self.words@,
                order0,
                i,
            ) by {
                assert(bit_at(self.words@, order0, i) == bit_at(wsmid, order0, i));
                assert(!bit_at(wsmid, order0, i));
            }
        }
    }

    /// Append the `n`-bit group encoding `v`, most significant bit first
    /// under `M2L`, least significant first under `L2M`.
    pub fn write_bits(&mut self, v: u64, n: u8)
        requires
            old(self).wf(),
            n <= 64,
            (v as nat) < pow2(n as nat),
            old(self).spec_len() + n + 64 <= usize::MAX,
        ensures
            final(self).wf(),
            final(self).spec_order() == old(self).spec_order(),
            final(self).spec_len() == old(self).spec_len() + n,
            same_bits(
                final(self).spec_words(),
                old(self).spec_words(),
                old(self).spec_order(),
                0,
                old(self).spec_len(),
            ),
            bits_val(
                final(self).spec_words(),
                old(self).spec_order(),
                old(self).spec_len(),
                n as int,
            ) == v as nat,
    {
        let ghost order0 = self.spec_order();
        let ghost start = self.spec_len();
        let ghost ws0 = self.spec_words();
        let nn: u64 = n as u64;
        let mut i: u64 = 0;
        proof {
            assert(bits_at(self.spec_words(), order0, start, 0) =~= Seq::<bool>::empty());
            lemma_pow2_pos(nn as nat);
            assert((v as nat) / pow2(nn as nat) == 0) by (nonlinear_arith)
                requires
                    (v as nat) < pow2(nn as nat),
                    pow2(nn as nat) >= 1,
            ;
            lemma2_to64();
            assert((v as nat) % pow2(0) == 0) by (nonlinear_arith)
                requires
                    pow2(0) == 1,
            ;
        }
        while i < nn
            invariant
                self.wf(),
                self.spec_order() == order0,
                order0 == old(self).spec_order(),
                nn == n as u64,
                n <= 64,
                0 <= i <= nn,
                self.spec_len() == start + i,
                start == old(self).spec_len(),
                start + n + 64 <= usize::MAX,
                ws0 == old(self).spec_words(),
                same_bits(self.spec_words(), ws0, order0, 0, start),
                bits_val(self.spec_words(), order0, start, i as int) == match order0 {
                    BitOrder::M2L => (v as nat) / pow2((nn - i) as nat),
                    BitOrder::L2M => (v as nat) % pow2(i as nat),
                },
            decreases nn - i,
        {
            let bit: bool = match self.order {
                BitOrder::M2L => (v >> ((nn - 1 - i) as u64)) & 1 == 1,
                BitOrder::L2M => (v >> i) & 1 == 1,
            };
            let ghost prews = self.spec_words();
            self.push_bit(bit);
            proof {
                lemma_bits_val_stable(self.spec_words(), prews, order0, start, i as int);
                lemma_bits_val_step(self.spec_words(), order0, start, i as int + 1);
                assert forall|j: int| 0 <= j < start implies bit_at(self.spec_words(), order0, j)
                    == bit_at(ws0, order0, j) by {
                    assert(bit_at(self.spec_words(), order0, j) == bit_at(prews, order0, j));
                }
                let bn: nat = if bit {
                    1nat
                } else {
                    0nat
                };
                let si: u64 = (nn - 1 - i) as u64;
                lemma_pow2_pos(si as nat);
                lemma_pow2_pos(i as nat);
                match order0 {
                    BitOrder::M2L => {
                        vstd::bits::lemma_u64_shr_is_div(v, si);
                        assert((v >> si) & 1 == (v >> si) % 2) by (bit_vector);
                        let q = (v as nat) / pow2(si as nat);
                        vstd::arithmetic::div_mod::lemma_fundamental_div_mod(q as int, 2);
                        lemma_pow2_unfold((nn - i) as nat);
                        vstd::arithmetic::div_mod::lemma_div_denominator(
                            v as int,
                            pow2(si as nat) as int,
                            2,
                        );
                        assert(pow2(si as nat) * 2 == pow2((nn - i) as nat));
                        assert((v as nat) / pow2((nn - i) as nat) == q / 2);
                        assert(bits_val(self.spec_words(), order0, start, i as int + 1) == 2 * (q
                            / 2) + q % 2);
                    },
                    BitOrder::L2M => {
                        lemma_u64_pow2_no_overflow(i as nat);
                        vstd::bits::lemma_u64_shr_is_div(v, i);
                        assert((v >> i) & 1 == (v >> i) % 2) by (bit_vector);
                        let m = pow2(i as nat);
                        let q = (v as nat) / m;
                        let r = (v as nat) % m;
                        vstd::arithmetic::div_mod::lemma_fundamental_div_mod(v as int, m as int);
                        vstd::arithmetic::div_mod::lemma_fundamental_div_mod(q as int, 2);
                        lemma_pow2_unfold((i + 1) as nat);
                        assert(v as int == (q / 2) * (2 * m) + ((q % 2) * m + r))
                            by (nonlinear_arith)
                            requires
                                v as int == q * (m as int) + r,
                                q as int == 2 * (q as int / 2) + q as int % 2,
                        ;
                        assert(0 <= (q % 2) * m + r < 2 * m) by (nonlinear_arith)
                            requires
                                0 <= r < m,
                                0 <= q % 2 <= 1,
                                m >= 1,
                        ;
                        vstd::arithmetic::div_mod::lemma_fundamental_div_mod_converse(
                            v as int,
                            2 * m as int,
                            (q as int) / 2,
                            (q as int % 2) * m as int + r as int,
                        );
                        assert((v as nat) % pow2((i + 1) as nat) == (q % 2) * m + r);
                        assert(bits_val(self.spec_words(), order0, start, i as int + 1)
                            == bits_val(prews, order0, start, i as int) + bn * m);
                        assert(bn == q % 2);
                    },
                }
            }
            i = i + 1;
        }
        proof {
            lemma2_to64();
            match order0 {
                BitOrder::M2L => {
                    assert((v as nat) / pow2(0) == v as nat) by (nonlinear_arith)
                        requires
                            pow2(0) == 1,
                    ;
                },
                BitOrder::L2M => {
                    vstd::arithmetic::div_mod::lemma_small_mod(v as nat, pow2(nn as nat));
                },
            }
        }
    }

    /// Append the unary code of `x`: `x` zero bits and a closing one bit.
    pub fn write_unary(&mut self, x: u64)
        requires
            old(self).wf(),
            old(self).spec_len() + x + 65 <= usize::MAX,
        ensures
            final(self).wf(),
            final(self).spec_order() == old(self).spec_order(),
            final(self).spec_len() == old(self).spec_len() + x + 1,
            same_bits(
                final(self).spec_words(),
                old(self).spec_words(),
                old(self).spec_order(),
                0,
                old(self).spec_len(),
            ),
            spec_unary(final(self).spec_words(), old(self).spec_order(), old(self).spec_len())
                == Some((x as nat, old(self).spec_len() + x + 1)),
    {
        let ghost order0 = self.spec_order();
        let ghost start = self.spec_len();
        let ghost ws0 = self.spec_words();
        let mut i: u64 = 0;
        while i < x
            invariant
                self.wf(),
                self.spec_order() == order0,
                order0 == old(self).spec_order(),
                0 <= i <= x,
                self.spec_len() == start + i,
                start == old(self).spec_len(),
                start + x + 65 <= usize::MAX,
                ws0 == old(self).spec_words(),
                same_bits(self.spec_words(), ws0, order0, 0, start),
                forall|j: int|
                    start <= j < start + i ==> !bit_at(self.spec_words(), order0, j),
            decreases x - i,
        {
            let ghost prews = self.spec_words();
            self.push_bit(false);
            proof {
                assert forall|j: int| 0 <= j < start implies bit_at(self.spec_words(), order0, j)
                    == bit_at(ws0, order0, j) by {
                    assert(bit_at(self.spec_words(), order0, j) == bit_at(prews, order0, j));
                }
                assert forall|j: int|
                    start <= j < start + i + 1 implies !bit_at(self.spec_words(), order0, j) by {
                    if j < start + i {
                        assert(bit_at(self.spec_words(), order0, j) == bit_at(prews, order0, j));
                    }
                }
            }
            i = i + 1;
        }
        let ghost prews = self.spec_words();
        self.push_bit(true);
        proof {
            assert forall|j: int| 0 <= j < start implies bit_at(self.spec_words(), order0, j)
                == bit_at(ws0, order0, j) by {
                assert(bit_at(self.spec_words(), order0, j) == bit_at(prews, order0, j));
            }
            assert forall|j: int|
                start <= j < start + x implies !bit_at(self.spec_words(), order0, j) by {
                assert(bit_at(self.spec_words(), order0, j) == bit_at(prews, order0, j));
            }
            assert(start + x < self.spec_words().len() * 64);
            lemma_unary_found(self.spec_words(), order0, start, start + x);
        }
    }

    /// Append the gamma code of `x`.  What was appended decodes back to
    /// exactly `x` at the old end of the stream, and is
    /// `2 * floor(log2(x + 1)) + 1` bits long.
    pub fn write_gamma(&mut self, x: u64)
        requires
            old(self).wf(),
            x < u64::MAX,
            old(self).spec_len() + 256 <= usize::MAX,
        ensures
            final(self).wf(),
            final(self).spec_order() == old(self).spec_order(),
            same_bits(
                final(self).spec_words(),
                old(self).spec_words(),
                old(self).spec_order(),
                0,
                old(self).spec_len(),
            ),
            spec_gamma(final(self).spec_words(), old(self).spec_order(), old(self).spec_len())
                == Some((x as nat, final(self).spec_len())),
            final(self).spec_len() == old(self).spec_len() + 2 * log2_floor((x + 1) as nat) + 1,
    {
        let ghost order0 = self.spec_order();
        let ghost start = self.spec_len();
        let ghost ws0 = self.spec_words();
        let l = log2_floor_u64(x + 1);
        proof {
            lemma_log2_floor_bounds((x + 1) as nat);
            lemma_u64_pow2_no_overflow(l as nat);
            lemma_u64_shl_is_mul(1u64, l);
        }
        self.write_unary(l);
        let ghost wsmid = self.spec_words();
        let fixed = (x + 1) - (1u64 << l);
        proof {
            lemma_pow2_unfold((l + 1) as nat);
        }
        self.write_bits(fixed, l as u8);
        proof {
            assert forall|j: int| 0 <= j < start implies bit_at(self.spec_words(), order0, j)
                == bit_at(ws0, order0, j) by {
                assert(bit_at(self.spec_words(), order0, j) == bit_at(wsmid, order0, j));
            }
            assert forall|j: int| start <= j < start + l + 1 implies bit_at(wsmid, order0, j)
                == bit_at(self.spec_words(), order0, j) by {
                assert(bit_at(self.spec_words(), order0, j) == bit_at(wsmid, order0, j));
            }
            lemma_unary_stable(wsmid, self.spec_words(), order0, start);
        }
    }

    /// Append the delta code of `x`: the gamma code of the bit length, then
    /// the trailing bits.  What was appended decodes back to exactly `x`.
    pub fn write_delta(&mut self, x: u64)
        requires
            old(self).wf(),
            x < u64::MAX,
            old(self).spec_len() + 512 <= usize::MAX,
        ensures
            final(self).wf(),
            final(self).spec_order() == old(self).spec_order(),
            same_bits(
                final(self).spec_words(),
                old(self).spec_words(),
                old(self).spec_order(),
                0,
                old(self).spec_len(),
            ),
            spec_delta(final(self).spec_words(), old(self).spec_order(), old(self).spec_len())
                == Some((x as nat, final(self).spec_len())),
            final(self).spec_len() == old(self).spec_len() + 2 * log2_floor(
                (log2_floor((x + 1) as nat) + 1) as nat,
            ) + 1 + log2_floor((x + 1) as nat),
    {
        let ghost order0 = self.spec_order();
        let ghost start = self.spec_len();
        let ghost ws0 = self.spec_words();
        let l = log2_floor_u64(x + 1);
        proof {
            lemma_log2_floor_bounds((x + 1) as nat);
            lemma_u64_pow2_no_overflow(l as nat);
            lemma_u64_shl_is_mul(1u64, l);
        }
        self.write_gamma(l);
        let ghost wsmid = self.spec_words();
        let fixed = (x + 1) - (1u64 << l);
        proof {
            lemma_pow2_unfold((l + 1) as nat);
            lemma_log2_floor_bounds((l + 1) as nat);
            lemma2_to64();
            if log2_floor((l + 1) as nat) > 6 {
                lemma_pow2_strictly_increases(6, log2_floor((l + 1) as nat));
            }
        }
        self.write_bits(fixed, l as u8);
        proof {
            assert forall|j: int| 0 <= j < start implies bit_at(self.spec_words(), order0, j)
                == bit_at(ws0, order0, j) by {
                assert(bit_at(self.spec_words(), order0, j) == bit_at(wsmid, order0, j));
            }
            assert forall|j: int|
                start <= j < spec_gamma(wsmid, order0, start)->Some_0.1 implies bit_at(
                wsmid,
                order0,
                j,
            ) == bit_at(self.spec_words(), order0, j) by {
                assert(bit_at(self.spec_words(), order0, j) == bit_at(wsmid, order0, j));
            }
            lemma_gamma_stable(wsmid, self.spec_words(), order0, start);
        }
    }

    /// Append the zeta code of `x` with shrinking parameter `k`: a unary
    /// block count, then the split value in full.  What was appended decodes
    /// back to exactly `x`.
    pub fn write_zeta(&mut self, x: u64, k: u64)
        requires
            old(self).wf(),
            1 <= k <= 7,
            x < 0x0200_0000_0000_0000u64,
            old(self).spec_len() + 256 <= usize::MAX,
        ensures
            final(self).wf(),
            final(self).spec_order() == old(self).spec_order(),
            same_bits(
                final(self).spec_words(),
                old(self).spec_words(),
                old(self).spec_order(),
                0,
                old(self).spec_len(),
            ),
            spec_zeta(
                final(self).spec_words(),
                old(self).spec_order(),
                old(self).spec_len(),
                k as int,
            ) == Some((x as nat, final(self).spec_len())),
            final(self).spec_len() == old(self).spec_len() + (log2_floor((x + 1) as nat) as int
                / k as int + 1) * (k + 1),
    {
        let ghost order0 = self.spec_order();
        let ghost start = self.spec_len();
        let ghost ws0 = self.spec_words();
        let l = log2_floor_u64(x + 1);
        proof {
            lemma_log2_floor_bounds((x + 1) as nat);
            if l >= 58 {
                lemma_pow2_strictly_increases(57, l as nat);
                lemma2_to64_rest();
                assert(false);
            }
            vstd::arithmetic::div_mod::lemma_fundamental_div_mod(l as int, k as int);
            vstd::arithmetic::div_mod::lemma_mod_bound(l as int, k as int);
        }
        let h = l / k;
        proof {
            assert((h + 1) * (k as int) <= l + k && l < (h + 1) * (k as int)) by (nonlinear_arith)
                requires
                    h == l as int / k as int,
                    l as int == (k as int) * (l as int / k as int) + (l as int) % (k as int),
                    0 <= (l as int) % (k as int) < k as int,
                    1 <= k <= 7,
                    l < 58,
            ;
        }
        let nb = (h + 1) * k;
        self.write_unary(h);
        let ghost wsmid = self.spec_words();
        proof {
            let nbk = (h + 1) * (k as int);
            if l + 1 < nbk {
                lemma_pow2_strictly_increases((l + 1) as nat, nbk as nat);
            }
        }
        self.write_bits(x + 1, nb as u8);
        proof {
            assert forall|j: int| 0 <= j < start implies bit_at(self.spec_words(), order0, j)
                == bit_at(ws0, order0, j) by {
                assert(bit_at(self.spec_words(), order0, j) == bit_at(wsmid, order0, j));
            }
            assert forall|j: int| start <= j < start + h + 1 implies bit_at(wsmid, order0, j)
                == bit_at(self.spec_words(), order0, j) by {
                assert(bit_at(self.spec_words(), order0, j) == bit_at(wsmid, order0, j));
            }
            lemma_unary_stable(wsmid, self.spec_words(), order0, start);
            assert((h + 1) + (h + 1) * (k as int) == (h + 1) * (k as int + 1)) by (nonlinear_arith);
        }
    }

    /// Append the Rice code of `x` with parameter `k`: the unary quotient
    /// `x >> k`, then `k` bits of remainder.  What was appended decodes back
    /// to exactly `x`.
    pub fn write_rice(&mut self, x: u64, k: u64)
        requires
            old(self).wf(),
            k <= 63,
            old(self).spec_len() + (x >> k) + 192 <= usize::MAX,
        ensures
            final(self).wf(),
            final(self).spec_order() == old(self).spec_order(),
            same_bits(
                final(self).spec_words(),
                old(self).spec_words(),
                old(self).spec_order(),
                0,
                old(self).spec_len(),
            ),
            spec_rice(
                final(self).spec_words(),
                old(self).spec_order(),
                old(self).spec_len(),
                k as int,
            ) == Some((x as nat, final(self).spec_len())),
            final(self).spec_len() == old(self).spec_len() + (x >> k) + 1 + k,
    {
        let ghost order0 = self.spec_order();
        let ghost start = self.spec_len();
        let ghost ws0 = self.spec_words();
        let q = x >> k;
        proof {
            vstd::bits::lemma_u64_shr_is_div(x, k);
            lemma_u64_pow2_no_overflow(k as nat);
            lemma_pow2_pos(k as nat);
            vstd::arithmetic::div_mod::lemma_fundamental_div_mod(x as int, pow2(k as nat) as int);
            vstd::arithmetic::div_mod::lemma_mod_bound(x as int, pow2(k as nat) as int);
            lemma_u64_shl_is_mul(q, k);
        }
        let r = x - (q << k);
        self.write_unary(q);
        let ghost wsmid = self.spec_words();
        self.write_bits(r, k as u8);
        proof {
            assert forall|j: int| 0 <= j < start implies bit_at(self.spec_words(), order0, j)
                == bit_at(ws0, order0, j) by {
                assert(bit_at(self.spec_words(), order0, j) == bit_at(wsmid, order0, j));
            }
            assert forall|j: int| start <= j < start + q + 1 implies bit_at(wsmid, order0, j)
                == bit_at(self.spec_words(), order0, j) by {
                assert(bit_at(self.spec_words(), order0, j) == bit_at(wsmid, order0, j));
            }
            lemma_unary_stable(wsmid, self.spec_words(), order0, start);
        }
    }

    /// Append the minimal binary code of `x` for the range `[0, z)`.  What
    /// was appended decodes back to exactly `x`.
    pub fn write_minimal_binary(&mut self, x: u64, z: u64)
        requires
            old(self).wf(),
            1 <= z <= 0x8000_0000_0000_0000u64,
            x < z,
            old(self).spec_len() + 256 <= usize::MAX,
        ensures
            final(self).wf(),
            final(self).spec_order() == old(self).spec_order(),
            same_bits(
                final(self).spec_words(),
                old(self).spec_words(),
                old(self).spec_order(),
                0,
                old(self).spec_len(),
            ),
            spec_min_binary(
                final(self).spec_words(),
                old(self).spec_order(),
                old(self).spec_len(),
                z as int,
            ) == (x as nat, final(self).spec_len()),
            final(self).spec_len() == old(self).spec_len() + (if z == 1 {
                0int
            } else if (x as nat) < pow2(ceil_log2(z as nat)) - z {
                ceil_log2(z as nat) - 1
            } else {
                ceil_log2(z as nat) as int
            }),
    {
        let ghost order0 = self.spec_order();
        let ghost start = self.spec_len();
        let ghost ws0 = self.spec_words();
        if z == 1 {
            return ;
        }
        let (s, p) = ceil_log2_u64(z);
        proof {
            lemma_ceil_log2_bounds(z as nat);
        }
        let m = p - z;
        if x < m {
            proof {
                assert(pow2((s - 1) as nat) < z);
                lemma_pow2_unfold(s as nat);
            }
            self.write_bits(x, (s - 1) as u8);
        } else {
            let hi = (x + m) / 2;
            let b = (x + m) % 2;
            proof {
                vstd::arithmetic::div_mod::lemma_fundamental_div_mod((x + m) as int, 2);
                lemma_pow2_unfold(s as nat);
                assert(hi < pow2((s - 1) as nat) && hi >= m) by (nonlinear_arith)
                    requires
                        (x + m) as int == 2 * ((x + m) as int / 2) + (x + m) as int % 2,
                        0 <= (x + m) as int % 2 < 2,
                        hi == (x + m) as int / 2,
                        x + m < 2 * pow2((s - 1) as nat),
                        x >= m,
                        m >= 0,
                ;
            }
            self.write_bits(hi, (s - 1) as u8);
            let ghost wsmid = self.spec_words();
            proof {
                lemma2_to64();
            }
            self.write_bits(b, 1);
            proof {
                assert forall|j: int| start <= j < start + s - 1 implies bit_at(
                    wsmid,
                    order0,
                    j,
                ) == bit_at(self.spec_words(), order0, j) by {
                    assert(bit_at(self.spec_words(), order0, j) == bit_at(wsmid, order0, j));
                }
                lemma_bits_val_stable(wsmid, self.spec_words(), order0, start, s as int - 1);
                crate::bits::lemma_bits_val_one(self.spec_words(), order0, start + s - 1);
                assert forall|j: int| 0 <= j < start implies bit_at(self.spec_words(), order0, j)
                    == bit_at(ws0, order0, j) by {
                    assert(bit_at(self.spec_words(), order0, j) == bit_at(wsmid, order0, j));
                }
            }
        }
    }
}

/// Division and remainder by the word size behave as expected.
proof fn lemma_widx(i: int)
    requires
        i >= 0,
    ensures
        i == 64 * (i / 64) + i % 64,
        0 <= i % 64 < 64,
        i / 64 >= 0,
{
    vstd::arithmetic::div_mod::lemma_fundamental_div_mod(i, 64);
}

/// A zero word delivers only zero bits.
proof fn lemma_zero_word_bit(order: BitOrder, off: u64)
    requires
        off < 64,
    ensures
        (0u64 >> ((63 - off) as u64)) & 1 == 0,
        (0u64 >> off) & 1 == 0,
{
    assert((0u64 >> ((63 - off) as u64)) & 1 == 0) by (bit_vector);
    assert((0u64 >> off) & 1 == 0) by (bit_vector);
}

/// The word mask that makes bit `off` of a word read as one.
pub open spec fn bit_mask(order: BitOrder, off: u64) -> u64 {
    match order {
        BitOrder::M2L => 1u64 << ((63 - off) as u64),
        BitOrder::L2M => 1u64 << off,
    }
}

/// Setting one bit of one word leaves every other delivered bit unchanged.
proof fn lemma_other_bits(
    wsmid: Seq<u64>,
    wsnew: Seq<u64>,
    order: BitOrder,
    widx: int,
    off: u64,
    j: int,
)
    requires
        0 <= widx < wsmid.len(),
        off < 64,
        wsnew == wsmid.update(widx, wsmid[widx] | bit_mask(order, off)),
        0 <= j < wsmid.len() * 64,
        j != widx * 64 + off,
    ensures
        bit_at(wsnew, order, j) == bit_at(wsmid, order, j),
{
    lemma_widx(j);
    assert(0 <= j / 64 < wsmid.len()) by (nonlinear_arith)
        requires
            0 <= j < wsmid.len() * 64,
            j == 64 * (j / 64) + j % 64,
            0 <= j % 64 < 64,
    ;
    if j / 64 == widx {
        let w = wsmid[widx];
        let jo: u64 = (j % 64) as u64;
        assert(jo != off);
        assert(((w | (1u64 << ((63 - off) as u64))) >> ((63 - jo) as u64)) & 1 == (w >> ((63
            - jo) as u64)) & 1) by (bit_vector)
            requires
                off < 64,
                jo < 64,
                jo != off,
        ;
        assert(((w | (1u64 << off)) >> jo) & 1 == (w >> jo) & 1) by (bit_vector)
            requires
                off < 64,
                jo < 64,
                jo != off,
        ;
    }
}

/// Setting one bit of one word makes exactly that delivered bit read one.
proof fn lemma_set_bit(wsmid: Seq<u64>, wsnew: Seq<u64>, order: BitOrder, widx: int, off: u64)
    requires
        0 <= widx < wsmid.len(),
        off < 64,
        wsnew == wsmid.update(widx, wsmid[widx] | bit_mask(order, off)),
    ensures
        bit_at(wsnew, order, widx * 64 + off),
{
    let i = widx * 64 + off;
    assert(i / 64 == widx && i % 64 == off as int) by (nonlinear_arith)
        requires
            0 <= widx,
            0 <= off < 64,
            i == widx * 64 + off,
    ;
    assert(i < wsmid.len() * 64) by (nonlinear_arith)
        requires
            widx < wsmid.len(),
            i == widx * 64 + off,
            off < 64,
    ;
    let w = wsmid[widx];
    assert(((w | (1u64 << ((63 - off) as u64))) >> ((63 - off) as u64)) & 1 == 1) by (bit_vector)
        requires
            off < 64,
    ;
    assert(((w | (1u64 << off)) >> off) & 1 == 1) by (bit_vector)
        requires
            off < 64,
    ;
}

} // verus!
