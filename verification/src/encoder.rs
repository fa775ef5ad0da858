//! A graph encoder, and the stability lemmas behind it.
//!
//! The encoder turns one sorted successor list per node into a compressed
//! stream, sending every list through the residual path with gamma codes
//! throughout.  Its contract states the write→read roundtrip: the whole
//! stream decodes back to exactly the given lists.
//!
//! The stability lemmas say that every decode — a code, a run of codes, a
//! stage, a node, a prefix of nodes — depends only on the bits it covers,
//! so appending further nodes never disturbs what was already encoded.

use vstd::prelude::*;
use vstd::arithmetic::power2::*;
use crate::Error;
use crate::bits::{BitOrder, spec_unary, lemma_unary_bits};
use crate::bvcodec::{Code, CompFlags, spec_code};
use crate::bvgraph::{
    spec_read_codes, spec_intervals_rest, spec_residuals_rest, spec_stage_copied,
    spec_stage_intervals, spec_stage_residuals, spec_decode_rest, spec_decode_node,
    spec_decode_prefix, valid_list, leq_usize, lemma_valid_list_len, BVGraphSequential,
};
use crate::codes::{
    spec_gamma, spec_delta, spec_zeta, log2_floor, lemma_log2_floor_bounds, spec_nat2int,
    spec_int2nat, int2nat, lemma_nat2int_of_int2nat,
};
use crate::writer::{
    same_bits, lemma_bits_val_stable, lemma_unary_stable, lemma_gamma_stable, BitStreamWrite,
};

verus! {

/// A decoded code value always moves the cursor forward.
pub proof fn lemma_code_advances(ws: Seq<u64>, order: BitOrder, pos: int, c: Code)
    ensures
        match spec_code(ws, order, pos, c) {
            Some((x, p)) => p > pos,
            None => true,
        },
{
    lemma_unary_bits(ws, order, pos);
    match c {
        Code::Unary => {},
        Code::Gamma => {},
        Code::Delta => {
            if spec_gamma(ws, order, pos) is Some {
            }
        },
        Code::Zeta { k } => {},
    }
}

/// A decoded delta code depends only on the bits it covers.
proof fn lemma_delta_stable(ws1: Seq<u64>, ws2: Seq<u64>, order: BitOrder, pos: int)
    requires
        spec_delta(ws1, order, pos) is Some,
        same_bits(ws1, ws2, order, pos, spec_delta(ws1, order, pos)->Some_0.1 - pos),
    ensures
        spec_delta(ws2, order, pos) == spec_delta(ws1, order, pos),
{
    let (l, p) = spec_gamma(ws1, order, pos)->Some_0;
    lemma_unary_bits(ws1, order, pos);
    lemma_gamma_stable(ws1, ws2, order, pos);
    lemma_bits_val_stable(ws1, ws2, order, p, l as int);
}

/// A decoded zeta code depends only on the bits it covers.
proof fn lemma_zeta_stable(ws1: Seq<u64>, ws2: Seq<u64>, order: BitOrder, pos: int, k: int)
    requires
        1 <= k,
        spec_zeta(ws1, order, pos, k) is Some,
        same_bits(ws1, ws2, order, pos, spec_zeta(ws1, order, pos, k)->Some_0.1 - pos),
    ensures
        spec_zeta(ws2, order, pos, k) == spec_zeta(ws1, order, pos, k),
{
    let (h, p) = spec_unary(ws1, order, pos)->Some_0;
    lemma_unary_bits(ws1, order, pos);
    lemma_unary_stable(ws1, ws2, order, pos);
    lemma_bits_val_stable(ws1, ws2, order, p, (h + 1) * k);
}

/// A decoded code of any kind depends only on the bits it covers.
pub proof fn lemma_spec_code_stable(
    ws1: Seq<u64>,
    ws2: Seq<u64>,
    order: BitOrder,
    pos: int,
    c: Code,
)
    requires
        c.wf(),
        spec_code(ws1, order, pos, c) is Some,
        same_bits(ws1, ws2, order, pos, spec_code(ws1, order, pos, c)->Some_0.1 - pos),
    ensures
        spec_code(ws2, order, pos, c) == spec_code(ws1, order, pos, c),
{
    match c {
        Code::Unary => {
            lemma_unary_stable(ws1, ws2, order, pos);
        },
        Code::Gamma => {
            lemma_gamma_stable(ws1, ws2, order, pos);
        },
        Code::Delta => {
            lemma_delta_stable(ws1, ws2, order, pos);
        },
        Code::Zeta { k } => {
            lemma_zeta_stable(ws1, ws2, order, pos, k as int);
        },
    }
}


/// A decoded run of codes never moves the cursor backward.
pub proof fn lemma_read_codes_advances(
    ws: Seq<u64>,
    order: BitOrder,
    c: Code,
    pos: int,
    count: nat,
)
    ensures
        match spec_read_codes(ws, order, c, pos, count) {
            Some((xs, p)) => p >= pos,
            None => true,
        },
    decreases count,
{
    if count > 0 {
        lemma_code_advances(ws, order, pos, c);
        if spec_code(ws, order, pos, c) is Some {
            let (x, p1) = spec_code(ws, order, pos, c)->Some_0;
            lemma_read_codes_advances(ws, order, c, p1, (count - 1) as nat);
        }
    }
}

/// A decoded run of codes depends only on the bits it covers.
pub proof fn lemma_read_codes_stable(
    ws1: Seq<u64>,
    ws2: Seq<u64>,
    order: BitOrder,
    c: Code,
    pos: int,
    count: nat,
)
    requires
        c.wf(),
        spec_read_codes(ws1, order, c, pos, count) is Some,
        same_bits(
            ws1,
            ws2,
            order,
            pos,
            spec_read_codes(ws1, order, c, pos, count)->Some_0.1 - pos,
        ),
    ensures
        spec_read_codes(ws2, order, c, pos, count) == spec_read_codes(ws1, order, c, pos, count),
    decreases count,
{
    if count > 0 {
        let (x, p1) = spec_code(ws1, order, pos, c)->Some_0;
        lemma_code_advances(ws1, order, pos, c);
        lemma_read_codes_advances(ws1, order, c, p1, (count - 1) as nat);
        lemma_spec_code_stable(ws1, ws2, order, pos, c);
        lemma_read_codes_stable(ws1, ws2, order, c, p1, (count - 1) as nat);
    }
}

/// Decoded interval runs never move the cursor backward.
pub proof fn lemma_intervals_rest_advances(
    ws: Seq<u64>,
    order: BitOrder,
    flags: CompFlags,
    pos: int,
    count: nat,
    prev_end: int,
    lmin: int,
    n: int,
)
    ensures
        match spec_intervals_rest(ws, order, flags, pos, count, prev_end, lmin, n) {
            Some((items, p)) => p >= pos,
            None => true,
        },
    decreases count,
{
    if count > 0 {
        lemma_code_advances(ws, order, pos, flags.interval_start);
        if spec_code(ws, order, pos, flags.interval_start) is Some {
            let (gap, p1) = spec_code(ws, order, pos, flags.interval_start)->Some_0;
            lemma_code_advances(ws, order, p1, flags.interval_len);
            if spec_code(ws, order, p1, flags.interval_len) is Some {
                let (dl, p2) = spec_code(ws, order, p1, flags.interval_len)->Some_0;
                lemma_intervals_rest_advances(
                    ws,
                    order,
                    flags,
                    p2,
                    (count - 1) as nat,
                    prev_end + 1 + gap + dl + lmin,
                    lmin,
                    n,
                );
            }
        }
    }
}

/// Decoded interval runs depend only on the bits they cover.
pub proof fn lemma_intervals_rest_stable(
    ws1: Seq<u64>,
    ws2: Seq<u64>,
    order: BitOrder,
    flags: CompFlags,
    pos: int,
    count: nat,
    prev_end: int,
    lmin: int,
    n: int,
)
    requires
        flags.wf(),
        spec_intervals_rest(ws1, order, flags, pos, count, prev_end, lmin, n) is Some,
        same_bits(
            ws1,
            ws2,
            order,
            pos,
            spec_intervals_rest(ws1, order, flags, pos, count, prev_end, lmin, n)->Some_0.1 - pos,
        ),
    ensures
        spec_intervals_rest(ws2, order, flags, pos, count, prev_end, lmin, n)
            == spec_intervals_rest(ws1, order, flags, pos, count, prev_end, lmin, n),
    decreases count,
{
    if count > 0 {
        let (gap, p1) = spec_code(ws1, order, pos, flags.interval_start)->Some_0;
        let (dl, p2) = spec_code(ws1, order, p1, flags.interval_len)->Some_0;
        lemma_code_advances(ws1, order, pos, flags.interval_start);
        lemma_code_advances(ws1, order, p1, flags.interval_len);
        lemma_intervals_rest_advances(
            ws1,
            order,
            flags,
            p2,
            (count - 1) as nat,
            prev_end + 1 + gap + dl + lmin,
            lmin,
            n,
        );
        lemma_spec_code_stable(ws1, ws2, order, pos, flags.interval_start);
        lemma_spec_code_stable(ws1, ws2, order, p1, flags.interval_len);
        lemma_intervals_rest_stable(
            ws1,
            ws2,
            order,
            flags,
            p2,
            (count - 1) as nat,
            prev_end + 1 + gap + dl + lmin,
            lmin,
            n,
        );
    }
}

/// Decoded residual runs never move the cursor backward.
pub proof fn lemma_residuals_rest_advances(
    ws: Seq<u64>,
    order: BitOrder,
    c: Code,
    pos: int,
    count: nat,
    prevval: int,
    n: int,
)
    ensures
        match spec_residuals_rest(ws, order, c, pos, count, prevval, n) {
            Some((items, p)) => p >= pos,
            None => true,
        },
    decreases count,
{
    if count > 0 {
        lemma_code_advances(ws, order, pos, c);
        if spec_code(ws, order, pos, c) is Some {
            let (gap, p1) = spec_code(ws, order, pos, c)->Some_0;
            lemma_residuals_rest_advances(
                ws,
                order,
                c,
                p1,
                (count - 1) as nat,
                prevval + 1 + gap,
                n,
            );
        }
    }
}

/// Decoded residual runs depend only on the bits they cover.
pub proof fn lemma_residuals_rest_stable(
    ws1: Seq<u64>,
    ws2: Seq<u64>,
    order: BitOrder,
    c: Code,
    pos: int,
    count: nat,
    prevval: int,
    n: int,
)
    requires
        c.wf(),
        spec_residuals_rest(ws1, order, c, pos, count, prevval, n) is Some,
        same_bits(
            ws1,
            ws2,
            order,
            pos,
            spec_residuals_rest(ws1, order, c, pos, count, prevval, n)->Some_0.1 - pos,
        ),
    ensures
        spec_residuals_rest(ws2, order, c, pos, count, prevval, n) == spec_residuals_rest(
            ws1,
            order,
            c,
            pos,
            count,
            prevval,
            n,
        ),
    decreases count,
{
    if count > 0 {
        let (gap, p1) = spec_code(ws1, order, pos, c)->Some_0;
        lemma_code_advances(ws1, order, pos, c);
        lemma_residuals_rest_advances(ws1, order, c, p1, (count - 1) as nat, prevval + 1 + gap, n);
        lemma_spec_code_stable(ws1, ws2, order, pos, c);
        lemma_residuals_rest_stable(
            ws1,
            ws2,
            order,
            c,
            p1,
            (count - 1) as nat,
            prevval + 1 + gap,
            n,
        );
    }
}


/// A decoded copied stage never moves the cursor backward.
proof fn lemma_stage_copied_advances(
    ws: Seq<u64>,
    order: BitOrder,
    flags: CompFlags,
    pos: int,
    r: nat,
    prevref: Seq<usize>,
)
    ensures
        match spec_stage_copied(ws, order, flags, pos, r, prevref) {
            Some((c, p)) => p >= pos,
            None => true,
        },
{
    if r != 0 {
        lemma_code_advances(ws, order, pos, flags.block_count);
        if spec_code(ws, order, pos, flags.block_count) is Some {
            let (bc, p3) = spec_code(ws, order, pos, flags.block_count)->Some_0;
            lemma_read_codes_advances(ws, order, flags.blocks, p3, bc);
        }
    }
}

/// A decoded copied stage depends only on the bits it covers.
proof fn lemma_stage_copied_stable(
    ws1: Seq<u64>,
    ws2: Seq<u64>,
    order: BitOrder,
    flags: CompFlags,
    pos: int,
    r: nat,
    prevref: Seq<usize>,
)
    requires
        flags.wf(),
        spec_stage_copied(ws1, order, flags, pos, r, prevref) is Some,
        same_bits(
            ws1,
            ws2,
            order,
            pos,
            spec_stage_copied(ws1, order, flags, pos, r, prevref)->Some_0.1 - pos,
        ),
    ensures
        spec_stage_copied(ws2, order, flags, pos, r, prevref) == spec_stage_copied(
            ws1,
            order,
            flags,
            pos,
            r,
            prevref,
        ),
{
    if r != 0 {
        let (bc, p3) = spec_code(ws1, order, pos, flags.block_count)->Some_0;
        lemma_code_advances(ws1, order, pos, flags.block_count);
        lemma_read_codes_advances(ws1, order, flags.blocks, p3, bc);
        lemma_spec_code_stable(ws1, ws2, order, pos, flags.block_count);
        if bc != 0 {
            lemma_read_codes_stable(ws1, ws2, order, flags.blocks, p3, bc);
        }
    }
}

/// A decoded interval stage never moves the cursor backward.
proof fn lemma_stage_intervals_advances(
    ws: Seq<u64>,
    order: BitOrder,
    flags: CompFlags,
    pos: int,
    v: int,
    lmin: int,
    n: int,
    needed: bool,
)
    ensures
        match spec_stage_intervals(ws, order, flags, pos, v, lmin, n, needed) {
            Some((items, p)) => p >= pos,
            None => true,
        },
{
    if needed {
        lemma_code_advances(ws, order, pos, flags.interval_count);
        if spec_code(ws, order, pos, flags.interval_count) is Some {
            let (ic, p6) = spec_code(ws, order, pos, flags.interval_count)->Some_0;
            lemma_code_advances(ws, order, p6, flags.interval_start);
            if ic != 0 && spec_code(ws, order, p6, flags.interval_start) is Some {
                let (g0, p7) = spec_code(ws, order, p6, flags.interval_start)->Some_0;
                lemma_code_advances(ws, order, p7, flags.interval_len);
                if spec_code(ws, order, p7, flags.interval_len) is Some {
                    let (dl0, p8) = spec_code(ws, order, p7, flags.interval_len)->Some_0;
                    lemma_intervals_rest_advances(
                        ws,
                        order,
                        flags,
                        p8,
                        (ic - 1) as nat,
                        v + spec_nat2int(g0 as int) + dl0 + lmin,
                        lmin,
                        n,
                    );
                }
            }
        }
    }
}

/// A decoded interval stage depends only on the bits it covers.
proof fn lemma_stage_intervals_stable(
    ws1: Seq<u64>,
    ws2: Seq<u64>,
    order: BitOrder,
    flags: CompFlags,
    pos: int,
    v: int,
    lmin: int,
    n: int,
    needed: bool,
)
    requires
        flags.wf(),
        spec_stage_intervals(ws1, order, flags, pos, v, lmin, n, needed) is Some,
        same_bits(
            ws1,
            ws2,
            order,
            pos,
            spec_stage_intervals(ws1, order, flags, pos, v, lmin, n, needed)->Some_0.1 - pos,
        ),
    ensures
        spec_stage_intervals(ws2, order, flags, pos, v, lmin, n, needed) == spec_stage_intervals(
            ws1,
            order,
            flags,
            pos,
            v,
            lmin,
            n,
            needed,
        ),
{
    if needed {
        let (ic, p6) = spec_code(ws1, order, pos, flags.interval_count)->Some_0;
        lemma_code_advances(ws1, order, pos, flags.interval_count);
        if ic == 0 {
            lemma_spec_code_stable(ws1, ws2, order, pos, flags.interval_count);
        } else {
            let (g0, p7) = spec_code(ws1, order, p6, flags.interval_start)->Some_0;
            let (dl0, p8) = spec_code(ws1, order, p7, flags.interval_len)->Some_0;
            let st0 = v + spec_nat2int(g0 as int);
            lemma_code_advances(ws1, order, p6, flags.interval_start);
            lemma_code_advances(ws1, order, p7, flags.interval_len);
            lemma_intervals_rest_advances(
                ws1,
                order,
                flags,
                p8,
                (ic - 1) as nat,
                st0 + dl0 + lmin,
                lmin,
                n,
            );
            lemma_spec_code_stable(ws1, ws2, order, pos, flags.interval_count);
            lemma_spec_code_stable(ws1, ws2, order, p6, flags.interval_start);
            lemma_spec_code_stable(ws1, ws2, order, p7, flags.interval_len);
            lemma_intervals_rest_stable(
                ws1,
                ws2,
                order,
                flags,
                p8,
                (ic - 1) as nat,
                st0 + dl0 + lmin,
                lmin,
                n,
            );
        }
    }
}

/// A decoded residual stage never moves the cursor backward.
proof fn lemma_stage_residuals_advances(
    ws: Seq<u64>,
    order: BitOrder,
    flags: CompFlags,
    pos: int,
    v: int,
    n: int,
    left: nat,
)
    ensures
        match spec_stage_residuals(ws, order, flags, pos, v, n, left) {
            Some((items, p)) => p >= pos,
            None => true,
        },
{
    if left != 0 {
        lemma_code_advances(ws, order, pos, flags.first_residual);
        if spec_code(ws, order, pos, flags.first_residual) is Some {
            let (fr, p11) = spec_code(ws, order, pos, flags.first_residual)->Some_0;
            lemma_residuals_rest_advances(
                ws,
                order,
                flags.residual,
                p11,
                (left - 1) as nat,
                v + spec_nat2int(fr as int),
                n,
            );
        }
    }
}

/// A decoded residual stage depends only on the bits it covers.
proof fn lemma_stage_residuals_stable(
    ws1: Seq<u64>,
    ws2: Seq<u64>,
    order: BitOrder,
    flags: CompFlags,
    pos: int,
    v: int,
    n: int,
    left: nat,
)
    requires
        flags.wf(),
        spec_stage_residuals(ws1, order, flags, pos, v, n, left) is Some,
        same_bits(
            ws1,
            ws2,
            order,
            pos,
            spec_stage_residuals(ws1, order, flags, pos, v, n, left)->Some_0.1 - pos,
        ),
    ensures
        spec_stage_residuals(ws2, order, flags, pos, v, n, left) == spec_stage_residuals(
            ws1,
            order,
            flags,
            pos,
            v,
            n,
            left,
        ),
{
    if left != 0 {
        let (fr, p11) = spec_code(ws1, order, pos, flags.first_residual)->Some_0;
        let rv0 = v + spec_nat2int(fr as int);
        lemma_code_advances(ws1, order, pos, flags.first_residual);
        lemma_residuals_rest_advances(ws1, order, flags.residual, p11, (left - 1) as nat, rv0, n);
        lemma_spec_code_stable(ws1, ws2, order, pos, flags.first_residual);
        lemma_residuals_rest_stable(
            ws1,
            ws2,
            order,
            flags.residual,
            p11,
            (left - 1) as nat,
            rv0,
            n,
        );
    }
}

/// The rest of a decoded node never moves the cursor backward.
pub proof fn lemma_decode_rest_advances(
    ws: Seq<u64>,
    order: BitOrder,
    flags: CompFlags,
    lmin: int,
    n: int,
    v: int,
    pos: int,
    d: nat,
    r: nat,
    prevref: Seq<usize>,
)
    ensures
        match spec_decode_rest(ws, order, flags, lmin, n, v, pos, d, r, prevref) {
            Some((l, p)) => p >= pos,
            None => true,
        },
{
    reveal(spec_decode_rest);
    lemma_stage_copied_advances(ws, order, flags, pos, r, prevref);
    if spec_stage_copied(ws, order, flags, pos, r, prevref) is Some {
        let (copied, p5) = spec_stage_copied(ws, order, flags, pos, r, prevref)->Some_0;
        let needed = d - copied.len() > 0 && lmin != 0;
        lemma_stage_intervals_advances(ws, order, flags, p5, v, lmin, n, needed);
        if copied.len() <= d && spec_stage_intervals(ws, order, flags, p5, v, lmin, n, needed)
            is Some {
            let (ints, p10) = spec_stage_intervals(ws, order, flags, p5, v, lmin, n, needed)
                ->Some_0;
            if copied.len() + ints.len() <= d {
                lemma_stage_residuals_advances(
                    ws,
                    order,
                    flags,
                    p10,
                    v,
                    n,
                    (d - copied.len() - ints.len()) as nat,
                );
            }
        }
    }
}

/// The rest of a decoded node depends only on the bits it covers.
#[verifier::rlimit(100)]
pub proof fn lemma_decode_rest_stable(
    ws1: Seq<u64>,
    ws2: Seq<u64>,
    order: BitOrder,
    flags: CompFlags,
    lmin: int,
    n: int,
    v: int,
    pos: int,
    d: nat,
    r: nat,
    prevref: Seq<usize>,
)
    requires
        flags.wf(),
        spec_decode_rest(ws1, order, flags, lmin, n, v, pos, d, r, prevref) is Some,
        same_bits(
            ws1,
            ws2,
            order,
            pos,
            spec_decode_rest(ws1, order, flags, lmin, n, v, pos, d, r, prevref)->Some_0.1 - pos,
        ),
    ensures
        spec_decode_rest(ws2, order, flags, lmin, n, v, pos, d, r, prevref) == spec_decode_rest(
            ws1,
            order,
            flags,
            lmin,
            n,
            v,
            pos,
            d,
            r,
            prevref,
        ),
{
    reveal(spec_decode_rest);
    let (copied, p5) = spec_stage_copied(ws1, order, flags, pos, r, prevref)->Some_0;
    let needed = d - copied.len() > 0 && lmin != 0;
    let (ints, p10) = spec_stage_intervals(ws1, order, flags, p5, v, lmin, n, needed)->Some_0;
    let left = (d - copied.len() - ints.len()) as nat;
    lemma_stage_copied_advances(ws1, order, flags, pos, r, prevref);
    lemma_stage_intervals_advances(ws1, order, flags, p5, v, lmin, n, needed);
    lemma_stage_residuals_advances(ws1, order, flags, p10, v, n, left);
    lemma_stage_copied_stable(ws1, ws2, order, flags, pos, r, prevref);
    lemma_stage_intervals_stable(ws1, ws2, order, flags, p5, v, lmin, n, needed);
    lemma_stage_residuals_stable(ws1, ws2, order, flags, p10, v, n, left);
}

/// A decoded node depends only on the bits it covers.
pub proof fn lemma_decode_node_stable(
    ws1: Seq<u64>,
    ws2: Seq<u64>,
    order: BitOrder,
    flags: CompFlags,
    w: int,
    lmin: int,
    n: int,
    v: int,
    pos: int,
    prevs: Seq<Seq<usize>>,
)
    requires
        flags.wf(),
        spec_decode_node(ws1, order, flags, w, lmin, n, v, pos, prevs) is Some,
        same_bits(
            ws1,
            ws2,
            order,
            pos,
            spec_decode_node(ws1, order, flags, w, lmin, n, v, pos, prevs)->Some_0.1 - pos,
        ),
    ensures
        spec_decode_node(ws2, order, flags, w, lmin, n, v, pos, prevs) == spec_decode_node(
            ws1,
            order,
            flags,
            w,
            lmin,
            n,
            v,
            pos,
            prevs,
        ),
{
    let (d, p1) = spec_code(ws1, order, pos, flags.outdegree)->Some_0;
    lemma_code_advances(ws1, order, pos, flags.outdegree);
    if d == 0 {
        lemma_spec_code_stable(ws1, ws2, order, pos, flags.outdegree);
    } else {
        let rp = if w != 0 {
            spec_code(ws1, order, p1, flags.reference_offset)
        } else {
            Some((0nat, p1))
        };
        let (r, p2) = rp->Some_0;
        if w != 0 {
            lemma_code_advances(ws1, order, p1, flags.reference_offset);
        }
        let prevref = if r == 0 {
            Seq::<usize>::empty()
        } else {
            prevs[v - r]
        };
        lemma_decode_rest_advances(ws1, order, flags, lmin, n, v, p2, d, r, prevref);
        lemma_spec_code_stable(ws1, ws2, order, pos, flags.outdegree);
        if w != 0 {
            lemma_spec_code_stable(ws1, ws2, order, p1, flags.reference_offset);
        }
        lemma_decode_rest_stable(ws1, ws2, order, flags, lmin, n, v, p2, d, r, prevref);
    }
}

/// A decoded node never moves the cursor backward.
pub proof fn lemma_decode_node_advances(
    ws: Seq<u64>,
    order: BitOrder,
    flags: CompFlags,
    w: int,
    lmin: int,
    n: int,
    v: int,
    pos: int,
    prevs: Seq<Seq<usize>>,
)
    ensures
        match spec_decode_node(ws, order, flags, w, lmin, n, v, pos, prevs) {
            Some((l, p)) => p >= pos,
            None => true,
        },
{
    lemma_code_advances(ws, order, pos, flags.outdegree);
    if spec_code(ws, order, pos, flags.outdegree) is Some {
        let (d, p1) = spec_code(ws, order, pos, flags.outdegree)->Some_0;
        if d != 0 {
            let rp = if w != 0 {
                spec_code(ws, order, p1, flags.reference_offset)
            } else {
                Some((0nat, p1))
            };
            if w != 0 {
                lemma_code_advances(ws, order, p1, flags.reference_offset);
            }
            if rp is Some {
                let (r, p2) = rp->Some_0;
                let prevref = if r == 0 {
                    Seq::<usize>::empty()
                } else {
                    prevs[v - r]
                };
                lemma_decode_rest_advances(ws, order, flags, lmin, n, v, p2, d, r, prevref);
            }
        }
    }
}

/// A decoded prefix of nodes depends only on the bits it covers, so
/// appending further nodes to a stream never disturbs it.
pub proof fn lemma_decode_prefix_stable(
    ws1: Seq<u64>,
    ws2: Seq<u64>,
    order: BitOrder,
    flags: CompFlags,
    w: int,
    lmin: int,
    n: int,
    v: int,
)
    requires
        flags.wf(),
        spec_decode_prefix(ws1, order, flags, w, lmin, n, v) is Some,
        same_bits(
            ws1,
            ws2,
            order,
            0,
            spec_decode_prefix(ws1, order, flags, w, lmin, n, v)->Some_0.1,
        ),
    ensures
        spec_decode_prefix(ws2, order, flags, w, lmin, n, v) == spec_decode_prefix(
            ws1,
            order,
            flags,
            w,
            lmin,
            n,
            v,
        ),
    decreases v,
{
    if v > 0 {
        let (ls, p) = spec_decode_prefix(ws1, order, flags, w, lmin, n, v - 1)->Some_0;
        lemma_decode_node_advances(ws1, order, flags, w, lmin, n, v - 1, p, ls);
        lemma_prefix_pos_nonneg(ws1, order, flags, w, lmin, n, v - 1);
        lemma_decode_prefix_stable(ws1, ws2, order, flags, w, lmin, n, v - 1);
        lemma_decode_node_stable(ws1, ws2, order, flags, w, lmin, n, v - 1, p, ls);
    }
}

/// The position after a decoded prefix is never negative.
proof fn lemma_prefix_pos_nonneg(
    ws: Seq<u64>,
    order: BitOrder,
    flags: CompFlags,
    w: int,
    lmin: int,
    n: int,
    v: int,
)
    ensures
        match spec_decode_prefix(ws, order, flags, w, lmin, n, v) {
            Some((ls, p)) => p >= 0,
            None => true,
        },
    decreases v,
{
    if v > 0 {
        lemma_prefix_pos_nonneg(ws, order, flags, w, lmin, n, v - 1);
        if spec_decode_prefix(ws, order, flags, w, lmin, n, v - 1) is Some {
            let (ls, p) = spec_decode_prefix(ws, order, flags, w, lmin, n, v - 1)->Some_0;
            lemma_decode_node_advances(ws, order, flags, w, lmin, n, v - 1, p, ls);
        }
    }
}


/// The total number of successors over all lists.
pub open spec fn total_arcs(ls: Seq<Seq<usize>>) -> int
    decreases ls.len(),
{
    if ls.len() == 0 {
        0
    } else {
        total_arcs(ls.drop_last()) + ls.last().len()
    }
}

/// A usable graph for `n` nodes: one well-formed successor list per node.
pub open spec fn graph_wf(ls: Seq<Seq<usize>>, n: int) -> bool {
    &&& ls.len() == n
    &&& forall|v: int| 0 <= v < n ==> valid_list(#[trigger] ls[v], n)
}

/// Taking one more list adds exactly its length to the total.
proof fn lemma_total_arcs_take(ls: Seq<Seq<usize>>, v: int)
    requires
        0 <= v < ls.len(),
    ensures
        total_arcs(ls.take(v + 1)) == total_arcs(ls.take(v)) + ls[v].len(),
{
    assert(ls.take(v + 1).drop_last() =~= ls.take(v));
    assert(ls.take(v + 1).last() == ls[v]);
}

/// The total is never negative.
proof fn lemma_total_arcs_nonneg(ls: Seq<Seq<usize>>)
    ensures
        total_arcs(ls) >= 0,
    decreases ls.len(),
{
    if ls.len() > 0 {
        lemma_total_arcs_nonneg(ls.drop_last());
    }
}

/// The total of a prefix never exceeds the total, and neither is negative.
proof fn lemma_total_arcs_bounds(ls: Seq<Seq<usize>>, v: int)
    requires
        0 <= v <= ls.len(),
    ensures
        0 <= total_arcs(ls.take(v)) <= total_arcs(ls),
    decreases ls.len() - v,
{
    lemma_total_arcs_nonneg(ls.take(v));
    if v == ls.len() {
        assert(ls.take(v) =~= ls);
    } else {
        lemma_total_arcs_take(ls, v);
        lemma_total_arcs_bounds(ls, v + 1);
    }
}

/// The elements of a well-formed list grow with their indices.
proof fn lemma_valid_lt(s: Seq<usize>, n: int, i: int, j: int)
    requires
        valid_list(s, n),
        0 <= i < j < s.len(),
    ensures
        s[i] < s[j],
    decreases j - i,
{
    if i + 1 < j {
        lemma_valid_lt(s, n, i, j - 1);
    }
}

/// A well-formed list is already in sorted order, so sorting returns it
/// unchanged.
proof fn lemma_valid_sort_identity(s: Seq<usize>, n: int)
    requires
        valid_list(s, n),
    ensures
        s.sort_by(leq_usize()) == s,
{
    assert forall|i: int, j: int| 0 <= i < j < s.len() implies #[trigger] leq_usize()(
        s[i],
        s[j],
    ) by {
        lemma_valid_lt(s, n, i, j);
    }
    s.lemma_sort_by_ensures(leq_usize());
    vstd::seq_lib::lemma_sorted_unique(s.sort_by(leq_usize()), s, leq_usize());
}

/// The gamma code of any value a word can carry is at most 127 bits long.
proof fn lemma_gamma_len_bound(x: nat)
    requires
        x < u64::MAX,
    ensures
        2 * log2_floor((x + 1) as nat) + 1 <= 127,
{
    lemma_log2_floor_bounds((x + 1) as nat);
    let lf = log2_floor((x + 1) as nat);
    if lf > 63 {
        if lf > 64 {
            lemma_pow2_strictly_increases(64, lf);
        }
        lemma2_to64_rest();
        assert(pow2(64) <= pow2(lf));
        assert(false);
    }
}

/// One more residual after a decoded run: reading one more gap appends the
/// value it names.
#[verifier::rlimit(100)]
proof fn lemma_residuals_snoc(
    ws: Seq<u64>,
    order: BitOrder,
    c: Code,
    pos: int,
    t: nat,
    prev: int,
    n: int,
)
    requires
        0 <= prev,
        n <= usize::MAX,
        spec_residuals_rest(ws, order, c, pos, t, prev, n) is Some,
        ({
            let (items, p) = spec_residuals_rest(ws, order, c, pos, t, prev, n)->Some_0;
            let lastv: int = if items.len() == 0 {
                prev
            } else {
                items.last() as int
            };
            &&& spec_code(ws, order, p, c) is Some
            &&& 0 <= lastv + 1 + spec_code(ws, order, p, c)->Some_0.0 < n
        }),
    ensures
        ({
            let (items, p) = spec_residuals_rest(ws, order, c, pos, t, prev, n)->Some_0;
            let (g, p2) = spec_code(ws, order, p, c)->Some_0;
            let lastv: int = if items.len() == 0 {
                prev
            } else {
                items.last() as int
            };
            spec_residuals_rest(ws, order, c, pos, (t + 1) as nat, prev, n) == Some(
                (items.push((lastv + 1 + g) as usize), p2),
            )
        }),
    decreases t,
{
    let (items, p) = spec_residuals_rest(ws, order, c, pos, t, prev, n)->Some_0;
    let (g, p2) = spec_code(ws, order, p, c)->Some_0;
    if t == 0 {
        assert(items =~= Seq::<usize>::empty());
        assert(p == pos);
        let val = prev + 1 + g;
        assert(spec_residuals_rest(ws, order, c, p2, 0, val, n) == Some(
            (Seq::<usize>::empty(), p2),
        ));
        assert(spec_residuals_rest(ws, order, c, pos, 1, prev, n) == Some(
            (seq![val as usize] + Seq::<usize>::empty(), p2),
        ));
        assert(seq![val as usize] + Seq::<usize>::empty() =~= items.push(val as usize));
    } else {
        let (g0, q) = spec_code(ws, order, pos, c)->Some_0;
        let val0 = prev + 1 + g0;
        let inner = spec_residuals_rest(ws, order, c, q, (t - 1) as nat, val0, n);
        assert(inner is Some);
        let (items0, pi) = inner->Some_0;
        assert(items == seq![val0 as usize] + items0);
        assert(pi == p);
        let lastv: int = if items.len() == 0 {
            prev
        } else {
            items.last() as int
        };
        let lastv0: int = if items0.len() == 0 {
            val0
        } else {
            items0.last() as int
        };
        assert(items.len() == 1 + items0.len());
        if items0.len() == 0 {
            assert(items.last() == val0 as usize);
        } else {
            assert(items.last() == items0.last());
        }
        assert(lastv == lastv0);
        lemma_residuals_snoc(ws, order, c, q, (t - 1) as nat, val0, n);
        let val = lastv0 + 1 + g;
        assert(spec_residuals_rest(ws, order, c, q, t, val0, n) == Some(
            (items0.push(val as usize), p2),
        ));
        assert(spec_residuals_rest(ws, order, c, pos, (t + 1) as nat, prev, n) == Some(
            (seq![val0 as usize] + items0.push(val as usize), p2),
        ));
        assert(seq![val0 as usize] + items0.push(val as usize) =~= items.push(val as usize));
    }
}


/// The all-gamma code table the encoder produces streams for.
pub open spec fn gamma_flags() -> CompFlags {
    CompFlags {
        outdegree: Code::Gamma,
        reference_offset: Code::Gamma,
        block_count: Code::Gamma,
        blocks: Code::Gamma,
        interval_count: Code::Gamma,
        interval_start: Code::Gamma,
        interval_len: Code::Gamma,
        first_residual: Code::Gamma,
        residual: Code::Gamma,
    }
}


/// Append the gap codes for every successor after the first: at the old
/// end of the stream they decode, as a residual run seeded with the first
/// successor, to exactly the rest of the list.
#[verifier::rlimit(100)]
fn write_gaps(wtr: &mut BitStreamWrite, list: &Vec<usize>, n: usize)
    requires
        old(wtr).wf(),
        valid_list(list@, n as int),
        list@.len() >= 1,
        old(wtr).spec_len() + 127 * (list@.len() as int) + 300 <= usize::MAX,
    ensures
        final(wtr).wf(),
        final(wtr).spec_order() == old(wtr).spec_order(),
        same_bits(
            final(wtr).spec_words(),
            old(wtr).spec_words(),
            old(wtr).spec_order(),
            0,
            old(wtr).spec_len(),
        ),
        final(wtr).spec_len() <= old(wtr).spec_len() + 127 * (list@.len() as int - 1),
        spec_residuals_rest(
            final(wtr).spec_words(),
            old(wtr).spec_order(),
            Code::Gamma,
            old(wtr).spec_len(),
            (list@.len() - 1) as nat,
            list@[0] as int,
            n as int,
        ) == Some((list@.subrange(1, list@.len() as int), final(wtr).spec_len())),
{
    let ghost order0 = wtr.spec_order();
    let ghost pos1 = wtr.spec_len();
    let ghost ws0 = wtr.spec_words();
    let d = list.len();
    let first = list[0];
    proof {
        assert(list@.subrange(1, 1) =~= Seq::<usize>::empty());
    }
    let mut j: usize = 1;
    while j < d
        invariant
            wtr.wf(),
            wtr.spec_order() == order0,
            order0 == old(wtr).spec_order(),
            1 <= j <= d,
            d == list@.len(),
            valid_list(list@, n as int),
            first == list@[0],
            pos1 == old(wtr).spec_len(),
            ws0 == old(wtr).spec_words(),
            pos1 + 127 * (d as int) + 300 <= usize::MAX,
            wtr.spec_len() <= pos1 + 127 * (j - 1),
            same_bits(wtr.spec_words(), ws0, order0, 0, pos1),
            spec_residuals_rest(
                wtr.spec_words(),
                order0,
                Code::Gamma,
                pos1,
                (j - 1) as nat,
                first as int,
                n as int,
            ) == Some((list@.subrange(1, j as int), wtr.spec_len())),
        decreases d - j,
    {
        proof {
            assert(list@[j - 1] < list@[j as int]);
        }
        let gap = list[j] - list[j - 1] - 1;
        let ghost wsq = wtr.spec_words();
        wtr.write_gamma(gap as u64);
        proof {
            lemma_gamma_len_bound(gap as nat);
            lemma_residuals_rest_advances(
                wsq,
                order0,
                Code::Gamma,
                pos1,
                (j - 1) as nat,
                first as int,
                n as int,
            );
            lemma_residuals_rest_stable(
                wsq,
                wtr.spec_words(),
                order0,
                Code::Gamma,
                pos1,
                (j - 1) as nat,
                first as int,
                n as int,
            );
            assert forall|i: int| 0 <= i < pos1 implies crate::bits::bit_at(
                wtr.spec_words(),
                order0,
                i,
            ) == crate::bits::bit_at(ws0, order0, i) by {
                assert(crate::bits::bit_at(wtr.spec_words(), order0, i) == crate::bits::bit_at(
                    wsq,
                    order0,
                    i,
                ));
            }
            let items = list@.subrange(1, j as int);
            if items.len() > 0 {
                assert(items.last() == list@[j - 1]);
            }
            assert(list@[j - 1] + 1 + gap == list@[j as int]);
            lemma_residuals_snoc(
                wtr.spec_words(),
                order0,
                Code::Gamma,
                pos1,
                (j - 1) as nat,
                first as int,
                n as int,
            );
            assert(list@.subrange(1, j + 1) =~= list@.subrange(1, j as int).push(
                list@[j as int],
            ));
        }
        j = j + 1;
    }
}


/// Assembling a residual-only node: when the head codes read the degree, a
/// zero reference, a zero interval count (when enabled) and the first
/// residual, and the gaps reconstruct the rest of the list, the node
/// decodes to exactly the list, whatever the earlier nodes carry.
#[verifier::rlimit(100)]
proof fn lemma_assemble_residual_node(
    ws: Seq<u64>,
    order: BitOrder,
    w: int,
    lmin: int,
    n: int,
    v: int,
    start: int,
    pa: int,
    pb: int,
    pc: int,
    pos1: int,
    d: nat,
    off: nat,
    list: Seq<usize>,
    flen: int,
)
    requires
        valid_list(list, n),
        d == list.len(),
        1 <= d <= n,
        0 <= v < n,
        0 <= w,
        off == spec_int2nat(list[0] as int - v),
        spec_code(ws, order, start, gamma_flags().outdegree) == Some((d, pa)),
        w != 0 ==> spec_code(ws, order, pa, gamma_flags().reference_offset) == Some((0nat, pb)),
        w == 0 ==> pb == pa,
        lmin != 0 ==> spec_code(ws, order, pb, gamma_flags().interval_count) == Some((0nat, pc)),
        lmin == 0 ==> pc == pb,
        spec_code(ws, order, pc, gamma_flags().first_residual) == Some((off, pos1)),
        spec_residuals_rest(ws, order, Code::Gamma, pos1, (d - 1) as nat, list[0] as int, n)
            == Some((list.subrange(1, d as int), flen)),
    ensures
        forall|prevs: Seq<Seq<usize>>|
            #[trigger] spec_decode_node(ws, order, gamma_flags(), w, lmin, n, v, start, prevs)
                == Some((list, flen)),
{
    reveal(spec_decode_rest);
    let flags = gamma_flags();
    let first = list[0];
    assert(spec_stage_copied(ws, order, flags, pb, 0nat, Seq::<usize>::empty()) == Some(
        (Seq::<usize>::empty(), pb),
    ));
    assert(spec_stage_intervals(ws, order, flags, pb, v, lmin, n, lmin != 0) == Some(
        (Seq::<usize>::empty(), pc),
    ));
    lemma_nat2int_of_int2nat(first as int - v);
    assert(v + spec_nat2int(off as int) == first as int);
    assert(seq![first] + list.subrange(1, d as int) =~= list);
    assert(spec_stage_residuals(ws, order, flags, pc, v, n, d) == Some((list, flen)));
    assert((Seq::<usize>::empty() + Seq::<usize>::empty() + list) =~= list);
    lemma_valid_sort_identity(list, n);
    assert(spec_decode_rest(ws, order, flags, lmin, n, v, pb, d, 0nat, Seq::<usize>::empty())
        == Some((list, flen)));
    assert forall|prevs: Seq<Seq<usize>>|
        #[trigger] spec_decode_node(ws, order, flags, w, lmin, n, v, start, prevs) == Some(
        (list, flen),
    ) by {
        assert(spec_code(ws, order, start, flags.outdegree) == Some((d, pa)));
    }
}


/// A decoded empty node: a zero out-degree alone.
proof fn lemma_assemble_empty_node(
    ws: Seq<u64>,
    order: BitOrder,
    w: int,
    lmin: int,
    n: int,
    v: int,
    start: int,
    pa: int,
)
    requires
        n >= 0,
        spec_code(ws, order, start, gamma_flags().outdegree) == Some((0nat, pa)),
    ensures
        forall|prevs: Seq<Seq<usize>>|
            #[trigger] spec_decode_node(ws, order, gamma_flags(), w, lmin, n, v, start, prevs)
                == Some((Seq::<usize>::empty(), pa)),
{
    assert forall|prevs: Seq<Seq<usize>>|
        #[trigger] spec_decode_node(ws, order, gamma_flags(), w, lmin, n, v, start, prevs)
            == Some((Seq::<usize>::empty(), pa)) by {
        assert(spec_code(ws, order, start, gamma_flags().outdegree) == Some((0nat, pa)));
    }
}

/// Append the head of a node with successors, after its out-degree: a zero
/// reference offset when the window is enabled, a zero interval count when
/// intervals are enabled, and the first residual anchored at the node.
#[verifier::rlimit(100)]
fn write_head(wtr: &mut BitStreamWrite, v: usize, n: usize, w: usize, lmin: usize, first: usize)
    -> (gp: Ghost<(int, int)>)
    requires
        old(wtr).wf(),
        v < n,
        first < n,
        (n as int) <= 0x4000_0000_0000_0000,
        old(wtr).spec_len() + 127 * 3 + 300 <= usize::MAX,
    ensures
        final(wtr).wf(),
        final(wtr).spec_order() == old(wtr).spec_order(),
        same_bits(
            final(wtr).spec_words(),
            old(wtr).spec_words(),
            old(wtr).spec_order(),
            0,
            old(wtr).spec_len(),
        ),
        final(wtr).spec_len() <= old(wtr).spec_len() + 127 * 3,
        ({
            let (pb, pc) = gp@;
            &&& old(wtr).spec_len() <= pb <= pc <= final(wtr).spec_len()
            &&& (w != 0 ==> spec_code(
                final(wtr).spec_words(),
                old(wtr).spec_order(),
                old(wtr).spec_len(),
                gamma_flags().reference_offset,
            ) == Some((0nat, pb)))
            &&& (w == 0 ==> pb == old(wtr).spec_len())
            &&& (lmin != 0 ==> spec_code(
                final(wtr).spec_words(),
                old(wtr).spec_order(),
                pb,
                gamma_flags().interval_count,
            ) == Some((0nat, pc)))
            &&& (lmin == 0 ==> pc == pb)
            &&& spec_code(
                final(wtr).spec_words(),
                old(wtr).spec_order(),
                pc,
                gamma_flags().first_residual,
            ) == Some(
                (spec_int2nat(first as int - v as int) as nat, final(wtr).spec_len() as int),
            )
        }),
{
    let ghost order0 = wtr.spec_order();
    let ghost start = wtr.spec_len();
    let ghost ws0 = wtr.spec_words();
    if w != 0 {
        wtr.write_gamma(0);
        proof {
            lemma_gamma_len_bound(0);
        }
    }
    let ghost pb = wtr.spec_len();
    if lmin != 0 {
        let ghost wsp = wtr.spec_words();
        wtr.write_gamma(0);
        proof {
            lemma_gamma_len_bound(0);
            if w != 0 {
                lemma_gamma_stable(wsp, wtr.spec_words(), order0, start);
            }
            assert forall|i: int| 0 <= i < start implies crate::bits::bit_at(
                wtr.spec_words(),
                order0,
                i,
            ) == crate::bits::bit_at(ws0, order0, i) by {
                assert(crate::bits::bit_at(wtr.spec_words(), order0, i) == crate::bits::bit_at(
                    wsp,
                    order0,
                    i,
                ));
            }
        }
    }
    let ghost pc = wtr.spec_len();
    let off = int2nat((first as i64) - (v as i64));
    let ghost wsp = wtr.spec_words();
    wtr.write_gamma(off);
    proof {
        lemma_gamma_len_bound(off as nat);
        if w != 0 {
            lemma_gamma_stable(wsp, wtr.spec_words(), order0, start);
        }
        if lmin != 0 {
            lemma_gamma_stable(wsp, wtr.spec_words(), order0, pb);
        }
        assert forall|i: int| 0 <= i < start implies crate::bits::bit_at(
            wtr.spec_words(),
            order0,
            i,
        ) == crate::bits::bit_at(ws0, order0, i) by {
            assert(crate::bits::bit_at(wtr.spec_words(), order0, i) == crate::bits::bit_at(
                wsp,
                order0,
                i,
            ));
        }
    }
    Ghost((pb, pc))
}

/// Append one node's encoding: the out-degree and, when the node has
/// successors, a zero reference offset (when the window is enabled), a zero
/// interval count (when intervals are enabled), and the whole list through
/// the residual path, every element gamma-coded.  At the old end of the
/// stream the appended bits decode back to exactly the given list, whatever
/// lists the earlier nodes carry.
#[verifier::rlimit(100)]
fn encode_node(
    wtr: &mut BitStreamWrite,
    list: &Vec<usize>,
    v: usize,
    n: usize,
    w: usize,
    lmin: usize,
)
    requires
        old(wtr).wf(),
        valid_list(list@, n as int),
        v < n,
        (n as int) <= 0x4000_0000_0000_0000,
        old(wtr).spec_len() + 127 * (list@.len() as int + 4) + 300 <= usize::MAX,
    ensures
        final(wtr).wf(),
        final(wtr).spec_order() == old(wtr).spec_order(),
        same_bits(
            final(wtr).spec_words(),
            old(wtr).spec_words(),
            old(wtr).spec_order(),
            0,
            old(wtr).spec_len(),
        ),
        final(wtr).spec_len() <= old(wtr).spec_len() + 127 * (list@.len() as int + 3),
        forall|prevs: Seq<Seq<usize>>|
            #[trigger] spec_decode_node(
                final(wtr).spec_words(),
                old(wtr).spec_order(),
                gamma_flags(),
                w as int,
                lmin as int,
                n as int,
                v as int,
                old(wtr).spec_len(),
                prevs,
            ) == Some((list@, final(wtr).spec_len())),
{
    let ghost order0 = wtr.spec_order();
    let ghost start = wtr.spec_len();
    let ghost flags = gamma_flags();
    let ghost ws0 = wtr.spec_words();
    let d = list.len();
    proof {
        lemma_valid_list_len(list@, n as int);
    }
    wtr.write_gamma(d as u64);
    let ghost pa = wtr.spec_len();
    proof {
        lemma_gamma_len_bound(d as nat);
    }
    if d == 0 {
        proof {
            assert(list@ =~= Seq::<usize>::empty());
            lemma_assemble_empty_node(
                wtr.spec_words(),
                order0,
                w as int,
                lmin as int,
                n as int,
                v as int,
                start,
                pa,
            );
        }
        return ;
    }
    let first = list[0];
    let ghost ws1 = wtr.spec_words();
    let gp = write_head(wtr, v, n, w, lmin, first);
    let ghost pb = gp@.0;
    let ghost pc = gp@.1;
    let ghost pos1 = wtr.spec_len();
    proof {
        lemma_gamma_stable(ws1, wtr.spec_words(), order0, start);
        assert forall|i: int| 0 <= i < start implies crate::bits::bit_at(
            wtr.spec_words(),
            order0,
            i,
        ) == crate::bits::bit_at(ws0, order0, i) by {
            assert(crate::bits::bit_at(wtr.spec_words(), order0, i) == crate::bits::bit_at(
                ws1,
                order0,
                i,
            ));
        }
    }
    let ghost ws2 = wtr.spec_words();
    write_gaps(wtr, list, n);
    proof {
        lemma_gamma_stable(ws2, wtr.spec_words(), order0, start);
        if w != 0 {
            lemma_gamma_stable(ws2, wtr.spec_words(), order0, pa);
        }
        if lmin != 0 {
            lemma_gamma_stable(ws2, wtr.spec_words(), order0, pb);
        }
        lemma_gamma_stable(ws2, wtr.spec_words(), order0, pc);
        assert forall|i: int| 0 <= i < start implies crate::bits::bit_at(
            wtr.spec_words(),
            order0,
            i,
        ) == crate::bits::bit_at(ws0, order0, i) by {
            assert(crate::bits::bit_at(wtr.spec_words(), order0, i) == crate::bits::bit_at(
                ws2,
                order0,
                i,
            ));
        }
        lemma_assemble_residual_node(
            wtr.spec_words(),
            order0,
            w as int,
            lmin as int,
            n as int,
            v as int,
            start,
            pa,
            pb,
            pc,
            pos1,
            d as nat,
            spec_int2nat(first as int - v as int) as nat,
            list@,
            wtr.spec_len() as int,
        );
    }
}



/// Extending a decoded prefix by one freshly appended node.
#[verifier::rlimit(100)]
proof fn lemma_prefix_extend(
    ws1: Seq<u64>,
    ws2: Seq<u64>,
    order: BitOrder,
    flags: CompFlags,
    w: int,
    lmin: int,
    n: int,
    v: int,
    list: Seq<usize>,
    flen: int,
)
    requires
        flags.wf(),
        v >= 0,
        spec_decode_prefix(ws1, order, flags, w, lmin, n, v) is Some,
        same_bits(
            ws1,
            ws2,
            order,
            0,
            spec_decode_prefix(ws1, order, flags, w, lmin, n, v)->Some_0.1,
        ),
        forall|prevs: Seq<Seq<usize>>|
            #[trigger] spec_decode_node(
                ws2,
                order,
                flags,
                w,
                lmin,
                n,
                v,
                spec_decode_prefix(ws1, order, flags, w, lmin, n, v)->Some_0.1,
                prevs,
            ) == Some((list, flen)),
    ensures
        spec_decode_prefix(ws2, order, flags, w, lmin, n, v + 1) == Some(
            (spec_decode_prefix(ws1, order, flags, w, lmin, n, v)->Some_0.0.push(list), flen),
        ),
{
    lemma_decode_prefix_stable(ws1, ws2, order, flags, w, lmin, n, v);
}

/// Encode a whole graph, given as one well-formed successor list per node,
/// into a compressed stream: gamma codes throughout, no references, every
/// list through the residual path.  The write→read roundtrip is the
/// identity: the returned handle's stream decodes, node by node, to
/// exactly the given lists, and the advertised arc count is their total
/// length.  It fails exactly when some list is not a well-formed successor
/// list for this node count.
#[verifier::rlimit(100)]
pub fn encode_graph(lists: &Vec<Vec<usize>>, w: usize, lmin: usize) -> (r: Result<
    BVGraphSequential,
    Error,
>)
    requires
        (lists@.len() as int) * 2 + 130 <= usize::MAX,
        (lists@.len() as int) <= 0x4000_0000_0000_0000,
        w < usize::MAX,
        127 * (total_arcs(lists@.map_values(|l: Vec<usize>| l@)) + 4 * lists@.len()) + 900
            <= usize::MAX,
    ensures
        match r {
            Ok(g) => {
                &&& graph_wf(lists@.map_values(|l: Vec<usize>| l@), lists@.len() as int)
                &&& g.wf()
                &&& g.spec_order() == BitOrder::M2L
                &&& g.spec_flags() == gamma_flags()
                &&& g.spec_w() == w as int
                &&& g.spec_lmin() == lmin as int
                &&& g.spec_n() == lists@.len() as int
                &&& (match g.spec_arcs() {
                    Some(a) => a as int == total_arcs(lists@.map_values(|l: Vec<usize>| l@)),
                    None => false,
                })
                &&& spec_decode_prefix(
                    g.spec_words(),
                    BitOrder::M2L,
                    gamma_flags(),
                    w as int,
                    lmin as int,
                    lists@.len() as int,
                    lists@.len() as int,
                ) is Some
                &&& spec_decode_prefix(
                    g.spec_words(),
                    BitOrder::M2L,
                    gamma_flags(),
                    w as int,
                    lmin as int,
                    lists@.len() as int,
                    lists@.len() as int,
                )->Some_0.0 == lists@.map_values(|l: Vec<usize>| l@)
            },
            Err(e) => e == Error::BadArgument && !graph_wf(
                lists@.map_values(|l: Vec<usize>| l@),
                lists@.len() as int,
            ),
        },
{
    let ghost views = lists@.map_values(|l: Vec<usize>| l@);
    let n = lists.len();
    let mut v: usize = 0;
    while v < n
        invariant
            0 <= v <= n,
            n == lists@.len(),
            views == lists@.map_values(|l: Vec<usize>| l@),
            forall|t: int| 0 <= t < v ==> valid_list(#[trigger] views[t], n as int),
        decreases n - v,
    {
        let ok = crate::bvgraph::valid_check(&lists[v], n);
        proof {
            assert(views[v as int] == lists@[v as int]@);
        }
        if !ok {
            return Err(Error::BadArgument);
        }
        v = v + 1;
    }
    let mut wtr = BitStreamWrite::new(BitOrder::M2L);
    let mut arcs: usize = 0;
    let mut v: usize = 0;
    proof {
        assert(views.take(0) =~= Seq::<Seq<usize>>::empty());
    }
    while v < n
        invariant
            0 <= v <= n,
            n == lists@.len(),
            views == lists@.map_values(|l: Vec<usize>| l@),
            graph_wf(views, n as int),
            (n as int) * 2 + 130 <= usize::MAX,
            (n as int) <= 0x4000_0000_0000_0000,
            w < usize::MAX,
            127 * (total_arcs(views) + 4 * (n as int)) + 900 <= usize::MAX,
            wtr.wf(),
            wtr.spec_order() == BitOrder::M2L,
            arcs as int == total_arcs(views.take(v as int)),
            wtr.spec_len() <= 127 * (total_arcs(views.take(v as int)) + 4 * (v as int)),
            spec_decode_prefix(
                wtr.spec_words(),
                BitOrder::M2L,
                gamma_flags(),
                w as int,
                lmin as int,
                n as int,
                v as int,
            ) == Some((views.take(v as int), wtr.spec_len())),
        decreases n - v,
    {
        let ghost wsp = wtr.spec_words();
        let ghost lenp = wtr.spec_len();
        proof {
            lemma_total_arcs_bounds(views, v as int);
            lemma_total_arcs_take(views, v as int);
            lemma_total_arcs_bounds(views, v as int + 1);
            assert(views[v as int] == lists@[v as int]@);
            assert(lenp + 127 * (views[v as int].len() as int + 4) + 300 <= usize::MAX)
                by (nonlinear_arith)
                requires
                    lenp <= 127 * (total_arcs(views.take(v as int)) + 4 * (v as int)),
                    total_arcs(views.take(v as int + 1)) == total_arcs(views.take(v as int))
                        + views[v as int].len(),
                    total_arcs(views.take(v as int + 1)) <= total_arcs(views),
                    0 <= total_arcs(views.take(v as int)),
                    v < n,
                    127 * (total_arcs(views) + 4 * (n as int)) + 900 <= usize::MAX,
            ;
        }
        encode_node(&mut wtr, &lists[v], v, n, w, lmin);
        proof {
            assert(wtr.spec_len() <= 127 * (total_arcs(views.take(v as int + 1)) + 4 * (v as int
                + 1))) by (nonlinear_arith)
                requires
                    wtr.spec_len() <= lenp + 127 * (views[v as int].len() as int + 3),
                    lenp <= 127 * (total_arcs(views.take(v as int)) + 4 * (v as int)),
                    total_arcs(views.take(v as int + 1)) == total_arcs(views.take(v as int))
                        + views[v as int].len(),
            ;
        }
        proof {
            lemma_prefix_extend(
                wsp,
                wtr.spec_words(),
                BitOrder::M2L,
                gamma_flags(),
                w as int,
                lmin as int,
                n as int,
                v as int,
                views[v as int],
                wtr.spec_len() as int,
            );
            assert(views.take(v as int + 1) =~= views.take(v as int).push(views[v as int]));
        }
        arcs = arcs + lists[v].len();
        v = v + 1;
    }
    proof {
        assert(views.take(n as int) =~= views);
    }
    let words = wtr.into_words();
    let flags = CompFlags::all_gamma();
    proof {
        assert(flags == gamma_flags());
    }
    Ok(BVGraphSequential::new(words, BitOrder::M2L, flags, w, lmin, n, Some(arcs)))
}

} // verus!
