//! Interpretation of the textual properties that accompany a graph on
//! disk: the decoder's configuration is declared there as key=value lines.
//! The values arrive here as plain byte strings; a number, a code token or
//! an endianness token that cannot be understood is a format mismatch.

use vstd::prelude::*;
use crate::Error;
use crate::bits::BitOrder;
use crate::bvcodec::{Code, CompFlags};

verus! {

/// The numeric value of a string of decimal digits, most significant
/// first.
pub open spec fn digits_val(s: Seq<u8>) -> int
    decreases s.len(),
{
    if s.len() == 0 {
        0
    } else {
        digits_val(s.drop_last()) * 10 + (s.last() - 48)
    }
}

/// Every byte is a decimal digit.
pub open spec fn all_digits(s: Seq<u8>) -> bool {
    forall|i: int| 0 <= i < s.len() ==> 48 <= #[trigger] s[i] <= 57
}

/// Parse a decimal number.  It succeeds exactly on nonempty all-digit
/// strings whose value fits the machine.
pub fn parse_usize(s: &Vec<u8>) -> (r: Result<usize, Error>)
    ensures
        match r {
            Ok(v) => s@.len() > 0 && all_digits(s@) && v as int == digits_val(s@),
            Err(e) => e == Error::FormatMismatch && (s@.len() == 0 || !all_digits(s@)
                || digits_val(s@) > usize::MAX),
        },
{
    if s.len() == 0 {
        return Err(Error::FormatMismatch);
    }
    let mut acc: usize = 0;
    let mut i: usize = 0;
    proof {
        assert(s@.take(0) =~= Seq::<u8>::empty());
    }
    while i < s.len()
        invariant
            0 <= i <= s@.len(),
            all_digits(s@.take(i as int)),
            acc as int == digits_val(s@.take(i as int)),
        decreases s@.len() - i,
    {
        let ghost pre = s@.take(i as int);
        let b = s[i];
        if b < 48 || b > 57 {
            proof {
                assert(!all_digits(s@));
            }
            return Err(Error::FormatMismatch);
        }
        let d = (b - 48) as usize;
        if acc > (usize::MAX - d) / 10 {
            proof {
                vstd::arithmetic::div_mod::lemma_fundamental_div_mod(
                    (usize::MAX - d) as int,
                    10,
                );
                vstd::arithmetic::div_mod::lemma_mod_bound((usize::MAX - d) as int, 10);
                assert(acc * 10 + d > usize::MAX) by (nonlinear_arith)
                    requires
                        acc as int > ((usize::MAX - d) as int) / 10,
                        (usize::MAX - d) as int == 10 * (((usize::MAX - d) as int) / 10) + (
                        (usize::MAX - d) as int) % 10,
                        0 <= ((usize::MAX - d) as int) % 10 < 10,
                ;
                assert(s@.take(i + 1).drop_last() =~= pre);
                assert(s@.take(i + 1).last() == s@[i as int]);
                assert(digits_val(s@.take(i + 1)) == acc * 10 + d);
                if all_digits(s@) {
                    assert(all_digits(s@.take(i + 1)));
                    lemma_digits_val_grows(s@, i as int + 1, s@.len() as int);
                    assert(s@.take(s@.len() as int) =~= s@);
                    assert(digits_val(s@) >= digits_val(s@.take(i + 1)));
                }
            }
            return Err(Error::FormatMismatch);
        }
        proof {
            vstd::arithmetic::div_mod::lemma_fundamental_div_mod((usize::MAX - d) as int, 10);
            vstd::arithmetic::div_mod::lemma_mod_bound((usize::MAX - d) as int, 10);
            assert(acc * 10 + d <= usize::MAX) by (nonlinear_arith)
                requires
                    acc as int <= ((usize::MAX - d) as int) / 10,
                    (usize::MAX - d) as int == 10 * (((usize::MAX - d) as int) / 10) + ((usize::MAX
                        - d) as int) % 10,
                    0 <= ((usize::MAX - d) as int) % 10 < 10,
            ;
            assert(s@.take(i + 1).drop_last() =~= pre);
            assert(s@.take(i + 1).last() == s@[i as int]);
        }
        acc = acc * 10 + d;
        i = i + 1;
    }
    proof {
        assert(s@.take(s@.len() as int) =~= s@);
    }
    Ok(acc)
}

/// A longer digit string never names a smaller number: appending digits
/// cannot shrink the value.
proof fn lemma_digits_val_grows(s: Seq<u8>, i: int, j: int)
    requires
        0 <= i <= j <= s.len(),
        all_digits(s.take(i)),
        forall|t: int| i <= t < j ==> 48 <= #[trigger] s[t] <= 57,
        digits_val(s.take(i)) >= 0,
    ensures
        digits_val(s.take(j)) >= digits_val(s.take(i)),
    decreases j - i,
{
    if i < j {
        assert(s.take(i + 1).drop_last() =~= s.take(i));
        assert(digits_val(s.take(i + 1)) == digits_val(s.take(i)) * 10 + (s[i] - 48));
        assert(digits_val(s.take(i)) * 10 >= digits_val(s.take(i))) by (nonlinear_arith)
            requires
                digits_val(s.take(i)) >= 0,
        ;
        assert(all_digits(s.take(i + 1)));
        lemma_digits_val_grows(s, i + 1, j);
    } else {
        assert(s.take(j) =~= s.take(i));
    }
}

/// The recognized code tokens, as byte strings.
pub open spec fn spec_code_token(t: Seq<u8>) -> Option<Code> {
    if t == seq![85u8, 78u8, 65u8, 82u8, 89u8] {  // UNARY
        Some(Code::Unary)
    } else if t == seq![71u8, 65u8, 77u8, 77u8, 65u8] {  // GAMMA
        Some(Code::Gamma)
    } else if t == seq![68u8, 69u8, 76u8, 84u8, 65u8] {  // DELTA
        Some(Code::Delta)
    } else if t.len() == 6 && t.take(5) == seq![90u8, 69u8, 84u8, 65u8, 95u8] && 49 <= t[5] <= 55 {
        // ZETA_k for k in 1..=7
        Some(Code::Zeta { k: (t[5] - 48) as u64 })
    } else {
        None
    }
}

/// Parse a code token such as `GAMMA` or `ZETA_3`.  It succeeds exactly on
/// the recognized tokens, and the resulting code is well formed.
pub fn parse_code(s: &Vec<u8>) -> (r: Result<Code, Error>)
    ensures
        match r {
            Ok(c) => spec_code_token(s@) == Some(c) && c.wf(),
            Err(e) => e == Error::FormatMismatch && spec_code_token(s@) is None,
        },
{
    proof {
        assert(seq![85u8, 78u8, 65u8, 82u8, 89u8].len() == 5);
        assert(seq![71u8, 65u8, 77u8, 77u8, 65u8].len() == 5);
        assert(seq![68u8, 69u8, 76u8, 84u8, 65u8].len() == 5);
    }
    if s.len() == 5 {
        if s[0] == 85 && s[1] == 78 && s[2] == 65 && s[3] == 82 && s[4] == 89 {
            proof {
                assert(s@ =~= seq![85u8, 78u8, 65u8, 82u8, 89u8]);
            }
            return Ok(Code::Unary);
        }
        if s[0] == 71 && s[1] == 65 && s[2] == 77 && s[3] == 77 && s[4] == 65 {
            proof {
                assert(s@ =~= seq![71u8, 65u8, 77u8, 77u8, 65u8]);
            }
            return Ok(Code::Gamma);
        }
        if s[0] == 68 && s[1] == 69 && s[2] == 76 && s[3] == 84 && s[4] == 65 {
            proof {
                assert(s@ =~= seq![68u8, 69u8, 76u8, 84u8, 65u8]);
            }
            return Ok(Code::Delta);
        }
        proof {
            assert(s@ != seq![85u8, 78u8, 65u8, 82u8, 89u8]);
            assert(s@ != seq![71u8, 65u8, 77u8, 77u8, 65u8]);
            assert(s@ != seq![68u8, 69u8, 76u8, 84u8, 65u8]);
        }
        return Err(Error::FormatMismatch);
    }
    if s.len() == 6 {
        if s[0] == 90 && s[1] == 69 && s[2] == 84 && s[3] == 65 && s[4] == 95 && 49 <= s[5]
            && s[5] <= 55 {
            proof {
                assert(s@.take(5) =~= seq![90u8, 69u8, 84u8, 65u8, 95u8]);
            }
            return Ok(Code::Zeta { k: (s[5] - 48) as u64 });
        }
        proof {
            if s@.take(5) == seq![90u8, 69u8, 84u8, 65u8, 95u8] {
                assert(s@.take(5)[0] == 90 && s@.take(5)[1] == 69 && s@.take(5)[2] == 84
                    && s@.take(5)[3] == 65 && s@.take(5)[4] == 95);
            }
        }
        return Err(Error::FormatMismatch);
    }
    Err(Error::FormatMismatch)
}

/// The recognized endianness tokens: `BIG` and `LITTLE`.  A big-endian
/// stream is read most significant bit first, a little-endian one least
/// significant bit first.
pub open spec fn spec_endianness_token(t: Seq<u8>) -> Option<BitOrder> {
    if t == seq![66u8, 73u8, 71u8] {  // BIG
        Some(BitOrder::M2L)
    } else if t == seq![76u8, 73u8, 84u8, 84u8, 76u8, 69u8] {  // LITTLE
        Some(BitOrder::L2M)
    } else {
        None
    }
}

/// Parse an endianness token.
pub fn parse_endianness(s: &Vec<u8>) -> (r: Result<BitOrder, Error>)
    ensures
        match r {
            Ok(o) => spec_endianness_token(s@) == Some(o),
            Err(e) => e == Error::FormatMismatch && spec_endianness_token(s@) is None,
        },
{
    proof {
        assert(seq![66u8, 73u8, 71u8].len() == 3);
        assert(seq![76u8, 73u8, 84u8, 84u8, 76u8, 69u8].len() == 6);
    }
    if s.len() == 3 && s[0] == 66 && s[1] == 73 && s[2] == 71 {
        proof {
            assert(s@ =~= seq![66u8, 73u8, 71u8]);
        }
        return Ok(BitOrder::M2L);
    }
    if s.len() == 6 && s[0] == 76 && s[1] == 73 && s[2] == 84 && s[3] == 84 && s[4] == 76
        && s[5] == 69 {
        proof {
            assert(s@ =~= seq![76u8, 73u8, 84u8, 84u8, 76u8, 69u8]);
        }
        return Ok(BitOrder::L2M);
    }
    proof {
        if s@ == seq![66u8, 73u8, 71u8] {
            assert(s@[0] == 66 && s@[1] == 73 && s@[2] == 71);
        }
        if s@ == seq![76u8, 73u8, 84u8, 84u8, 76u8, 69u8] {
            assert(s@[0] == 76);
        }
    }
    Err(Error::FormatMismatch)
}


/// Which element of the code table a compressionflags entry names, and the
/// table with that element replaced; `None` for an unknown element name.
pub open spec fn spec_apply_flag(f: CompFlags, key: Seq<u8>, c: Code) -> Option<CompFlags> {
    if key == seq![111u8, 117u8, 116u8, 100u8, 101u8, 103u8, 114u8, 101u8, 101u8] {
        Some(CompFlags { outdegree: c, ..f })
    } else if key == seq![114u8, 101u8, 102u8, 101u8, 114u8, 101u8, 110u8, 99u8, 101u8, 95u8, 111u8, 102u8, 102u8, 115u8, 101u8, 116u8] {
        Some(CompFlags { reference_offset: c, ..f })
    } else if key == seq![98u8, 108u8, 111u8, 99u8, 107u8, 95u8, 99u8, 111u8, 117u8, 110u8, 116u8] {
        Some(CompFlags { block_count: c, ..f })
    } else if key == seq![98u8, 108u8, 111u8, 99u8, 107u8, 115u8] {
        Some(CompFlags { blocks: c, ..f })
    } else if key == seq![105u8, 110u8, 116u8, 101u8, 114u8, 118u8, 97u8, 108u8, 95u8, 99u8, 111u8, 117u8, 110u8, 116u8] {
        Some(CompFlags { interval_count: c, ..f })
    } else if key == seq![105u8, 110u8, 116u8, 101u8, 114u8, 118u8, 97u8, 108u8, 95u8, 115u8, 116u8, 97u8, 114u8, 116u8] {
        Some(CompFlags { interval_start: c, ..f })
    } else if key == seq![105u8, 110u8, 116u8, 101u8, 114u8, 118u8, 97u8, 108u8, 95u8, 108u8, 101u8, 110u8] {
        Some(CompFlags { interval_len: c, ..f })
    } else if key == seq![102u8, 105u8, 114u8, 115u8, 116u8, 95u8, 114u8, 101u8, 115u8, 105u8, 100u8, 117u8, 97u8, 108u8] {
        Some(CompFlags { first_residual: c, ..f })
    } else if key == seq![114u8, 101u8, 115u8, 105u8, 100u8, 117u8, 97u8, 108u8] {
        Some(CompFlags { residual: c, ..f })
    } else {
        None
    }
}

/// Apply one `element=CODE` entry of the compressionflags declaration to a
/// code table.  It succeeds exactly on the nine element names of the
/// format, replacing only the named element.
pub fn apply_flag(flags: &mut CompFlags, s: &Vec<u8>, c: Code) -> (ok: bool)
    ensures
        match spec_apply_flag(*old(flags), s@, c) {
            Some(f2) => ok && *final(flags) == f2,
            None => !ok && *final(flags) == *old(flags),
        },
{
    if s.len() == 9 && s[0] == 111 && s[1] == 117 && s[2] == 116 && s[3] == 100 && s[4] == 101 && s[5] == 103 && s[6] == 114 && s[7] == 101 && s[8] == 101 {
        proof {
            assert(s@ =~= seq![111u8, 117u8, 116u8, 100u8, 101u8, 103u8, 114u8, 101u8, 101u8]);
        }
        flags.outdegree = c;
        return true;
    }
    if s.len() == 16 && s[0] == 114 && s[1] == 101 && s[2] == 102 && s[3] == 101 && s[4] == 114 && s[5] == 101 && s[6] == 110 && s[7] == 99 && s[8] == 101 && s[9] == 95 && s[10] == 111 && s[11] == 102 && s[12] == 102 && s[13] == 115 && s[14] == 101 && s[15] == 116 {
        proof {
            assert(s@ =~= seq![114u8, 101u8, 102u8, 101u8, 114u8, 101u8, 110u8, 99u8, 101u8, 95u8, 111u8, 102u8, 102u8, 115u8, 101u8, 116u8]);
        }
        flags.reference_offset = c;
        return true;
    }
    if s.len() == 11 && s[0] == 98 && s[1] == 108 && s[2] == 111 && s[3] == 99 && s[4] == 107 && s[5] == 95 && s[6] == 99 && s[7] == 111 && s[8] == 117 && s[9] == 110 && s[10] == 116 {
        proof {
            assert(s@ =~= seq![98u8, 108u8, 111u8, 99u8, 107u8, 95u8, 99u8, 111u8, 117u8, 110u8, 116u8]);
        }
        flags.block_count = c;
        return true;
    }
    if s.len() == 6 && s[0] == 98 && s[1] == 108 && s[2] == 111 && s[3] == 99 && s[4] == 107 && s[5] == 115 {
        proof {
            assert(s@ =~= seq![98u8, 108u8, 111u8, 99u8, 107u8, 115u8]);
        }
        flags.blocks = c;
        return true;
    }
    if s.len() == 14 && s[0] == 105 && s[1] == 110 && s[2] == 116 && s[3] == 101 && s[4] == 114 && s[5] == 118 && s[6] == 97 && s[7] == 108 && s[8] == 95 && s[9] == 99 && s[10] == 111 && s[11] == 117 && s[12] == 110 && s[13] == 116 {
        proof {
            assert(s@ =~= seq![105u8, 110u8, 116u8, 101u8, 114u8, 118u8, 97u8, 108u8, 95u8, 99u8, 111u8, 117u8, 110u8, 116u8]);
        }
        flags.interval_count = c;
        return true;
    }
    if s.len() == 14 && s[0] == 105 && s[1] == 110 && s[2] == 116 && s[3] == 101 && s[4] == 114 && s[5] == 118 && s[6] == 97 && s[7] == 108 && s[8] == 95 && s[9] == 115 && s[10] == 116 && s[11] == 97 && s[12] == 114 && s[13] == 116 {
        proof {
            assert(s@ =~= seq![105u8, 110u8, 116u8, 101u8, 114u8, 118u8, 97u8, 108u8, 95u8, 115u8, 116u8, 97u8, 114u8, 116u8]);
        }
        flags.interval_start = c;
        return true;
    }
    if s.len() == 12 && s[0] == 105 && s[1] == 110 && s[2] == 116 && s[3] == 101 && s[4] == 114 && s[5] == 118 && s[6] == 97 && s[7] == 108 && s[8] == 95 && s[9] == 108 && s[10] == 101 && s[11] == 110 {
        proof {
            assert(s@ =~= seq![105u8, 110u8, 116u8, 101u8, 114u8, 118u8, 97u8, 108u8, 95u8, 108u8, 101u8, 110u8]);
        }
        flags.interval_len = c;
        return true;
    }
    if s.len() == 14 && s[0] == 102 && s[1] == 105 && s[2] == 114 && s[3] == 115 && s[4] == 116 && s[5] == 95 && s[6] == 114 && s[7] == 101 && s[8] == 115 && s[9] == 105 && s[10] == 100 && s[11] == 117 && s[12] == 97 && s[13] == 108 {
        proof {
            assert(s@ =~= seq![102u8, 105u8, 114u8, 115u8, 116u8, 95u8, 114u8, 101u8, 115u8, 105u8, 100u8, 117u8, 97u8, 108u8]);
        }
        flags.first_residual = c;
        return true;
    }
    if s.len() == 8 && s[0] == 114 && s[1] == 101 && s[2] == 115 && s[3] == 105 && s[4] == 100 && s[5] == 117 && s[6] == 97 && s[7] == 108 {
        proof {
            assert(s@ =~= seq![114u8, 101u8, 115u8, 105u8, 100u8, 117u8, 97u8, 108u8]);
        }
        flags.residual = c;
        return true;
    }
    proof {
        if s@ == seq![111u8, 117u8, 116u8, 100u8, 101u8, 103u8, 114u8, 101u8, 101u8] {
            assert(s@[0] == 111 && s@.len() == 9 && s@[8] == 101);
        }
        if s@ == seq![114u8, 101u8, 102u8, 101u8, 114u8, 101u8, 110u8, 99u8, 101u8, 95u8, 111u8, 102u8, 102u8, 115u8, 101u8, 116u8] {
            assert(s@[0] == 114 && s@.len() == 16 && s@[15] == 116);
        }
        if s@ == seq![98u8, 108u8, 111u8, 99u8, 107u8, 95u8, 99u8, 111u8, 117u8, 110u8, 116u8] {
            assert(s@[0] == 98 && s@.len() == 11 && s@[10] == 116);
        }
        if s@ == seq![98u8, 108u8, 111u8, 99u8, 107u8, 115u8] {
            assert(s@[0] == 98 && s@.len() == 6 && s@[5] == 115);
        }
        if s@ == seq![105u8, 110u8, 116u8, 101u8, 114u8, 118u8, 97u8, 108u8, 95u8, 99u8, 111u8, 117u8, 110u8, 116u8] {
            assert(s@[0] == 105 && s@.len() == 14 && s@[13] == 116);
        }
        if s@ == seq![105u8, 110u8, 116u8, 101u8, 114u8, 118u8, 97u8, 108u8, 95u8, 115u8, 116u8, 97u8, 114u8, 116u8] {
            assert(s@[0] == 105 && s@.len() == 14 && s@[13] == 116);
        }
        if s@ == seq![105u8, 110u8, 116u8, 101u8, 114u8, 118u8, 97u8, 108u8, 95u8, 108u8, 101u8, 110u8] {
            assert(s@[0] == 105 && s@.len() == 12 && s@[11] == 110);
        }
        if s@ == seq![102u8, 105u8, 114u8, 115u8, 116u8, 95u8, 114u8, 101u8, 115u8, 105u8, 100u8, 117u8, 97u8, 108u8] {
            assert(s@[0] == 102 && s@.len() == 14 && s@[13] == 108);
        }
        if s@ == seq![114u8, 101u8, 115u8, 105u8, 100u8, 117u8, 97u8, 108u8] {
            assert(s@[0] == 114 && s@.len() == 8 && s@[7] == 108);
        }
    }
    false
}

} // verus!
