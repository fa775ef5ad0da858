//! The compressed-graph decoder: reconstructing a node's successor list
//! from its out-degree, copy blocks taken from a referenced earlier list,
//! interval runs and residual deltas.
//!
//! The meaning of the format is given by specification functions: what list
//! a well-formed stream yields for node `v` at a position, given the lists
//! of the nodes before it, and where the next node's encoding starts.  The
//! executable decoders are proved against them.

use vstd::prelude::*;
use crate::Error;
use crate::bits::{BitOrder, UnbufferedBitStreamRead, WordReader};
use crate::bvcodec::{Code, CompFlags, spec_code};
use crate::codes::{spec_nat2int, nat2int};

verus! {

/// The ordering in which successor lists are kept.
pub open spec fn leq_usize() -> spec_fn(usize, usize) -> bool {
    |a: usize, b: usize| a <= b
}

/// A well-formed successor list for a graph of `n` nodes: strictly
/// increasing values, all below `n`.
pub open spec fn valid_list(s: Seq<usize>, n: int) -> bool {
    &&& forall|i: int| 0 <= i < s.len() ==> (#[trigger] s[i] as int) < n
    &&& forall|i: int| 0 <= i < s.len() - 1 ==> (#[trigger] s[i] as int) < s[i + 1]
}

/// The consecutive run of `len` values starting at `start`.
pub open spec fn run_of(start: int, len: int) -> Seq<usize> {
    Seq::new(len as nat, |j: int| (start + j) as usize)
}

/// Reading `count` consecutive values of one code.
pub open spec fn spec_read_codes(
    ws: Seq<u64>,
    order: BitOrder,
    c: Code,
    pos: int,
    count: nat,
) -> Option<(Seq<nat>, int)>
    decreases count,
{
    if count == 0 {
        Some((Seq::empty(), pos))
    } else {
        match spec_code(ws, order, pos, c) {
            None => None,
            Some((x, p)) => match spec_read_codes(ws, order, c, p, (count - 1) as nat) {
                None => None,
                Some((xs, p2)) => Some((seq![x] + xs, p2)),
            },
        }
    }
}

/// The copied part of a node's list, from block `i` on: blocks alternate
/// between copied and skipped ranges of the referenced list, the lengths of
/// the blocks after the first being stored off by one; after the last block
/// the tail of the referenced list is copied when the block count is even.
pub open spec fn spec_copy_rest(prev: Seq<usize>, blocks: Seq<nat>, i: int, idx: int) -> Option<
    Seq<usize>,
>
    decreases blocks.len() - i,
{
    if i >= blocks.len() {
        if blocks.len() % 2 == 0 {
            Some(prev.skip(idx))
        } else {
            Some(Seq::empty())
        }
    } else {
        let end = idx + blocks[i] + 1;
        if end > prev.len() {
            None
        } else {
            match spec_copy_rest(prev, blocks, i + 1, end) {
                None => None,
                Some(t) => if i % 2 == 0 {
                    Some(prev.subrange(idx, end) + t)
                } else {
                    Some(t)
                },
            }
        }
    }
}

/// The copied part of a node's list: the first block, of stored length,
/// is copied, then the remaining blocks alternate.
pub open spec fn spec_copied(prev: Seq<usize>, blocks: Seq<nat>) -> Option<Seq<usize>>
    recommends
        blocks.len() >= 1,
{
    if blocks.len() == 0 {
        None
    } else {
        let b0 = blocks[0] as int;
        if b0 > prev.len() {
            None
        } else {
            match spec_copy_rest(prev, blocks, 1, b0) {
                None => None,
                Some(t) => Some(prev.take(b0) + t),
            }
        }
    }
}

/// The interval runs after the first one: each is stored as a gap from the
/// end of the previous one (off by one) and a length above the minimum.
pub open spec fn spec_intervals_rest(
    ws: Seq<u64>,
    order: BitOrder,
    flags: CompFlags,
    pos: int,
    count: nat,
    prev_end: int,
    lmin: int,
    n: int,
) -> Option<(Seq<usize>, int)>
    decreases count,
{
    if count == 0 {
        Some((Seq::empty(), pos))
    } else {
        match spec_code(ws, order, pos, flags.interval_start) {
            None => None,
            Some((gap, p1)) => match spec_code(ws, order, p1, flags.interval_len) {
                None => None,
                Some((dl, p2)) => {
                    let st = prev_end + 1 + gap;
                    let len = dl + lmin;
                    if st + len > n {
                        None
                    } else {
                        match spec_intervals_rest(
                            ws,
                            order,
                            flags,
                            p2,
                            (count - 1) as nat,
                            st + len,
                            lmin,
                            n,
                        ) {
                            None => None,
                            Some((items, pend)) => Some((run_of(st, len) + items, pend)),
                        }
                    }
                },
            },
        }
    }
}

/// The residuals after the first one: each is stored as the gap to the
/// previous successor, minus one.
pub open spec fn spec_residuals_rest(
    ws: Seq<u64>,
    order: BitOrder,
    c: Code,
    pos: int,
    count: nat,
    prevval: int,
    n: int,
) -> Option<(Seq<usize>, int)>
    decreases count,
{
    if count == 0 {
        Some((Seq::empty(), pos))
    } else {
        match spec_code(ws, order, pos, c) {
            None => None,
            Some((gap, p)) => {
                let val = prevval + 1 + gap;
                if val >= n {
                    None
                } else {
                    match spec_residuals_rest(ws, order, c, p, (count - 1) as nat, val, n) {
                        None => None,
                        Some((items, pend)) => Some((seq![val as usize] + items, pend)),
                    }
                }
            },
        }
    }
}

/// The copied stage of a node's encoding: nothing without a reference,
/// else the whole referenced list or the blocks applied to it.
pub open spec fn spec_stage_copied(
    ws: Seq<u64>,
    order: BitOrder,
    flags: CompFlags,
    pos: int,
    r: nat,
    prevref: Seq<usize>,
) -> Option<(Seq<usize>, int)> {
    if r == 0 {
        Some((Seq::<usize>::empty(), pos))
    } else {
        match spec_code(ws, order, pos, flags.block_count) {
            None => None,
            Some((bc, p3)) => if bc == 0 {
                Some((prevref, p3))
            } else {
                match spec_read_codes(ws, order, flags.blocks, p3, bc) {
                    None => None,
                    Some((bs, p4)) => match spec_copied(prevref, bs) {
                        None => None,
                        Some(c) => Some((c, p4)),
                    },
                }
            },
        }
    }
}

/// The interval stage of a node's encoding: when successors are still
/// missing and intervals are enabled, a count followed by the runs, the
/// first anchored at `v` by a signed offset.
pub open spec fn spec_stage_intervals(
    ws: Seq<u64>,
    order: BitOrder,
    flags: CompFlags,
    pos: int,
    v: int,
    lmin: int,
    n: int,
    needed: bool,
) -> Option<(Seq<usize>, int)> {
    if !needed {
        Some((Seq::<usize>::empty(), pos))
    } else {
        match spec_code(ws, order, pos, flags.interval_count) {
            None => None,
            Some((ic, p6)) => if ic == 0 {
                Some((Seq::<usize>::empty(), p6))
            } else {
                match spec_code(ws, order, p6, flags.interval_start) {
                    None => None,
                    Some((g0, p7)) => match spec_code(ws, order, p7, flags.interval_len) {
                        None => None,
                        Some((dl0, p8)) => {
                            let st0 = v + spec_nat2int(g0 as int);
                            let len0 = dl0 + lmin;
                            if st0 < 0 || st0 + len0 > n {
                                None
                            } else {
                                match spec_intervals_rest(
                                    ws,
                                    order,
                                    flags,
                                    p8,
                                    (ic - 1) as nat,
                                    st0 + len0,
                                    lmin,
                                    n,
                                ) {
                                    None => None,
                                    Some((items, p9)) => Some(
                                        (run_of(st0, len0 as int) + items, p9),
                                    ),
                                }
                            }
                        },
                    },
                }
            },
        }
    }
}

/// The residual stage of a node's encoding: the `left` successors not yet
/// accounted for, the first anchored at `v` by a signed offset, the rest as
/// gaps.
pub open spec fn spec_stage_residuals(
    ws: Seq<u64>,
    order: BitOrder,
    flags: CompFlags,
    pos: int,
    v: int,
    n: int,
    left: nat,
) -> Option<(Seq<usize>, int)> {
    if left == 0 {
        Some((Seq::<usize>::empty(), pos))
    } else {
        match spec_code(ws, order, pos, flags.first_residual) {
            None => None,
            Some((fr, p11)) => {
                let rv0 = v + spec_nat2int(fr as int);
                if rv0 < 0 || rv0 >= n {
                    None
                } else {
                    match spec_residuals_rest(
                        ws,
                        order,
                        flags.residual,
                        p11,
                        (left - 1) as nat,
                        rv0,
                        n,
                    ) {
                        None => None,
                        Some((items, p12)) => Some((seq![rv0 as usize] + items, p12)),
                    }
                }
            },
        }
    }
}

/// A node's list from the point where its out-degree `d` and reference
/// offset `r` are known: the copied part, the interval runs, the residuals,
/// merged into one sorted list.  `None` on any structure that violates an
/// invariant of the format.
#[verifier::opaque]
pub open spec fn spec_decode_rest(
    ws: Seq<u64>,
    order: BitOrder,
    flags: CompFlags,
    lmin: int,
    n: int,
    v: int,
    pos: int,
    d: nat,
    r: nat,
    prevref: Seq<usize>,
) -> Option<(Seq<usize>, int)> {
    match spec_stage_copied(ws, order, flags, pos, r, prevref) {
        None => None,
        Some((copied, p5)) => {
            if copied.len() > d {
                None
            } else {
                match spec_stage_intervals(
                    ws,
                    order,
                    flags,
                    p5,
                    v,
                    lmin,
                    n,
                    d - copied.len() > 0 && lmin != 0,
                ) {
                    None => None,
                    Some((ints, p10)) => {
                        if copied.len() + ints.len() > d {
                            None
                        } else {
                            match spec_stage_residuals(
                                ws,
                                order,
                                flags,
                                p10,
                                v,
                                n,
                                (d - copied.len() - ints.len()) as nat,
                            ) {
                                None => None,
                                Some((res, pend)) => {
                                    let merged = (copied + ints + res).sort_by(leq_usize());
                                    if merged.len() == d && valid_list(merged, n) {
                                        Some((merged, pend))
                                    } else {
                                        None
                                    }
                                },
                            }
                        }
                    },
                }
            }
        },
    }
}

/// The decoded head of a node's encoding names a reference farther back
/// than the window, or than the node itself, allows.
pub open spec fn spec_ref_out_of_window(
    ws: Seq<u64>,
    order: BitOrder,
    flags: CompFlags,
    w: int,
    n: int,
    v: int,
    pos: int,
) -> bool {
    match spec_code(ws, order, pos, flags.outdegree) {
        Some((d, p1)) => 1 <= d <= n && (match (if w != 0 {
            spec_code(ws, order, p1, flags.reference_offset)
        } else {
            Some((0nat, p1))
        }) {
            Some((r, p2)) => r > v || r > w,
            None => false,
        }),
        None => false,
    }
}

/// A node's whole encoding at `pos`: the out-degree, the reference offset
/// when the window is enabled, then the rest.  `prevs` holds the lists of
/// the nodes before `v`.
pub open spec fn spec_decode_node(
    ws: Seq<u64>,
    order: BitOrder,
    flags: CompFlags,
    w: int,
    lmin: int,
    n: int,
    v: int,
    pos: int,
    prevs: Seq<Seq<usize>>,
) -> Option<(Seq<usize>, int)>
    recommends
        prevs.len() == v,
{
    match spec_code(ws, order, pos, flags.outdegree) {
        None => None,
        Some((d, p1)) => if d > n {
            None
        } else if d == 0 {
            Some((Seq::empty(), p1))
        } else {
            let rp = if w != 0 {
                spec_code(ws, order, p1, flags.reference_offset)
            } else {
                Some((0nat, p1))
            };
            match rp {
                None => None,
                Some((r, p2)) => {
                    if r > v || r > w {
                        None
                    } else {
                        let prevref = if r == 0 {
                            Seq::<usize>::empty()
                        } else {
                            prevs[v - r]
                        };
                        spec_decode_rest(ws, order, flags, lmin, n, v, p2, d, r, prevref)
                    }
                },
            }
        },
    }
}

/// The lists of the first `v` nodes and the position where node `v`'s
/// encoding starts, decoding from bit 0.
pub open spec fn spec_decode_prefix(
    ws: Seq<u64>,
    order: BitOrder,
    flags: CompFlags,
    w: int,
    lmin: int,
    n: int,
    v: int,
) -> Option<(Seq<Seq<usize>>, int)>
    decreases v,
{
    if v <= 0 {
        Some((Seq::empty(), 0))
    } else {
        match spec_decode_prefix(ws, order, flags, w, lmin, n, v - 1) {
            None => None,
            Some((ls, p)) => match spec_decode_node(ws, order, flags, w, lmin, n, v - 1, p, ls) {
                None => None,
                Some((l, p2)) => Some((ls.push(l), p2)),
            },
        }
    }
}


/// Sort a vector ascending; the result is the specification-level sort of
/// its old contents.
pub fn sort_vec(v: &mut Vec<usize>)
    ensures
        final(v)@ == old(v)@.sort_by(leq_usize()),
{
    let ghost orig = v@;
    let mut out: Vec<usize> = Vec::new();
    proof {
        broadcast use vstd::seq_lib::group_to_multiset_ensures;

        assert(out@.to_multiset().add(v@.to_multiset()) =~= orig.to_multiset());
    }
    while v.len() > 0
        invariant
            out@.to_multiset().add(v@.to_multiset()) == orig.to_multiset(),
            vstd::relations::sorted_by(out@, leq_usize()),
            forall|i: int, j: int|
                0 <= i < out@.len() && 0 <= j < v@.len() ==> out@[i] <= v@[j],
        decreases v.len(),
    {
        let mut mi: usize = 0;
        let mut j: usize = 1;
        while j < v.len()
            invariant
                0 <= mi < j <= v@.len(),
                forall|t: int| 0 <= t < j ==> v@[mi as int] <= v@[t],
            decreases v.len() - j,
        {
            if v[j] < v[mi] {
                mi = j;
            }
            j = j + 1;
        }
        let ghost prevv = v@;
        let ghost prevout = out@;
        let x = v.remove(mi);
        out.push(x);
        proof {
            broadcast use vstd::seq_lib::group_to_multiset_ensures;

            assert(prevv.remove(mi as int).to_multiset() =~= prevv.to_multiset().remove(x));
            assert(out@.to_multiset() =~= prevout.to_multiset().insert(x));
            assert(out@.to_multiset().add(v@.to_multiset()) =~= orig.to_multiset());
            assert(vstd::relations::sorted_by(out@, leq_usize())) by {
                assert forall|a: int, b: int| 0 <= a < b < out@.len() implies leq_usize()(
                    out@[a],
                    out@[b],
                ) by {
                    if b < out@.len() - 1 {
                        assert(vstd::relations::sorted_by(prevout, leq_usize()));
                    }
                }
            }
            assert forall|a: int, b: int|
                0 <= a < out@.len() && 0 <= b < v@.len() implies out@[a] <= v@[b] by {
                let src: int = if b < mi as int {
                    b
                } else {
                    b + 1
                };
                assert(v@[b] == prevv[src]);
                if a < out@.len() - 1 {
                    assert(prevout[a] <= prevv[src]);
                }
            }
        }
    }
    proof {
        broadcast use vstd::seq_lib::group_to_multiset_ensures;

        orig.lemma_sort_by_ensures(leq_usize());
        assert(v@.to_multiset().len() == 0);
        assert(v@.len() == 0);
        assert(out@.to_multiset() =~= orig.sort_by(leq_usize()).to_multiset());
        vstd::seq_lib::lemma_sorted_unique(out@, orig.sort_by(leq_usize()), leq_usize());
    }
    *v = out;
}


/// Append `prev[from..to]` to `out`.
fn extend_range(out: &mut Vec<usize>, prev: &Vec<usize>, from: usize, to: usize)
    requires
        from <= to <= prev@.len(),
        old(out)@.len() + to <= usize::MAX,
    ensures
        final(out)@ == old(out)@ + prev@.subrange(from as int, to as int),
{
    let ghost base = out@;
    let mut i = from;
    while i < to
        invariant
            from <= i <= to <= prev@.len(),
            out@ == base + prev@.subrange(from as int, i as int),
        decreases to - i,
    {
        let x = prev[i];
        out.push(x);
        proof {
            assert(base + prev@.subrange(from as int, i + 1) =~= (base + prev@.subrange(
                from as int,
                i as int,
            )).push(x));
        }
        i = i + 1;
    }
    proof {
        assert(out@ =~= base + prev@.subrange(from as int, to as int));
    }
}

/// Append the whole of `other` to `out`.
fn extend_vec(out: &mut Vec<usize>, other: &Vec<usize>)
    requires
        old(out)@.len() + other@.len() <= usize::MAX,
    ensures
        final(out)@ == old(out)@ + other@,
{
    extend_range(out, other, 0, other.len());
    proof {
        assert(other@.subrange(0, other@.len() as int) =~= other@);
    }
}

/// Append the run `start..start + len` to `out`.
fn extend_run(out: &mut Vec<usize>, start: usize, len: usize)
    requires
        start + len <= usize::MAX,
        old(out)@.len() + len <= usize::MAX,
    ensures
        final(out)@ == old(out)@ + run_of(start as int, len as int),
{
    let ghost base = out@;
    let mut j: usize = 0;
    while j < len
        invariant
            0 <= j <= len,
            start + len <= usize::MAX,
            out@ == base + run_of(start as int, j as int),
        decreases len - j,
    {
        out.push(start + j);
        proof {
            assert(base + run_of(start as int, j + 1) =~= (base + run_of(start as int, j as int)).push((start + j) as usize));
        }
        j = j + 1;
    }
    proof {
        assert(out@ =~= base + run_of(start as int, len as int));
    }
}

/// Read `count` consecutive values of one code.
fn read_values(reader: &mut UnbufferedBitStreamRead, c: Code, count: u64) -> (r: Result<
    Vec<u64>,
    Error,
>)
    requires
        old(reader).fits(),
        c.wf(),
    ensures
        final(reader).spec_words() == old(reader).spec_words(),
        final(reader).spec_order() == old(reader).spec_order(),
        match r {
            Ok(vs) => {
                &&& vs@.len() == count
                &&& spec_read_codes(
                    old(reader).spec_words(),
                    old(reader).spec_order(),
                    c,
                    old(reader).spec_pos(),
                    count as nat,
                ) == Some((vs@.map_values(|x: u64| x as nat), final(reader).spec_pos()))
            },
            Err(e) => (e == Error::UnexpectedEof || e == Error::CorruptStream)
                && spec_read_codes(
                old(reader).spec_words(),
                old(reader).spec_order(),
                c,
                old(reader).spec_pos(),
                count as nat,
            ) is None,
        },
{
    let ghost ws = reader.spec_words();
    let ghost order0 = reader.spec_order();
    let ghost pos0 = reader.spec_pos();
    let mut vs: Vec<u64> = Vec::new();
    let mut i: u64 = 0;
    proof {
        assert(vs@.map_values(|x: u64| x as nat) =~= Seq::<nat>::empty());
    }
    while i < count
        invariant
            0 <= i <= count,
            vs@.len() == i,
            reader.fits(),
            reader.spec_words() == ws,
            reader.spec_order() == order0,
            ws == old(reader).spec_words(),
            order0 == old(reader).spec_order(),
            pos0 == old(reader).spec_pos(),
            c.wf(),
            match spec_read_codes(ws, order0, c, reader.spec_pos(), (count - i) as nat) {
                None => spec_read_codes(ws, order0, c, pos0, count as nat) is None,
                Some((xs, p)) => spec_read_codes(ws, order0, c, pos0, count as nat) == Some(
                    (vs@.map_values(|x: u64| x as nat) + xs, p),
                ),
            },
        decreases count - i,
    {
        let ghost pre = vs@.map_values(|x: u64| x as nat);
        match reader.read_code(c) {
            Err(e) => {
                return Err(e);
            },
            Ok(x) => {
                vs.push(x);
                proof {
                    assert(vs@.map_values(|y: u64| y as nat) =~= pre.push(x as nat));
                    if spec_read_codes(ws, order0, c, reader.spec_pos(), (count - i - 1) as nat)
                        is Some {
                        let (xs, p) = spec_read_codes(
                            ws,
                            order0,
                            c,
                            reader.spec_pos(),
                            (count - i - 1) as nat,
                        )->Some_0;
                        assert(pre + (seq![x as nat] + xs) =~= pre.push(x as nat) + xs);
                    }
                }
            },
        }
        i = i + 1;
    }
    proof {
        assert(vs@.map_values(|x: u64| x as nat) + Seq::<nat>::empty() =~= vs@.map_values(
            |x: u64| x as nat,
        ));
    }
    Ok(vs)
}

/// Rebuild the copied part of a node's list from its block lengths.
fn copy_blocks(prev: &Vec<usize>, bs: &Vec<u64>) -> (r: Result<Vec<usize>, Error>)
    requires
        bs@.len() >= 1,
        prev@.len() * 2 + 2 <= usize::MAX,
    ensures
        match r {
            Ok(out) => spec_copied(prev@, bs@.map_values(|x: u64| x as nat)) == Some(out@),
            Err(e) => spec_copied(prev@, bs@.map_values(|x: u64| x as nat)) is None && e
                == Error::CorruptStream,
        },
{
    let ghost bsn = bs@.map_values(|x: u64| x as nat);
    let b0u = bs[0];
    if b0u > prev.len() as u64 {
        return Err(Error::CorruptStream);
    }
    let b0 = b0u as usize;
    let mut out: Vec<usize> = Vec::new();
    extend_range(&mut out, prev, 0, b0);
    proof {
        assert(out@ =~= prev@.take(b0 as int));
    }
    let mut idx: usize = b0;
    let mut i: usize = 1;
    while i < bs.len()
        invariant
            1 <= i <= bs@.len(),
            idx <= prev@.len(),
            prev@.len() * 2 + 2 <= usize::MAX,
            out@.len() <= idx,
            bsn == bs@.map_values(|x: u64| x as nat),
            b0 == bsn[0],
            b0 <= prev@.len(),
            match spec_copy_rest(prev@, bsn, i as int, idx as int) {
                None => spec_copied(prev@, bsn) is None,
                Some(t) => spec_copied(prev@, bsn) == Some(out@ + t),
            },
        decreases bs@.len() - i,
    {
        let bu = bs[i];
        if bu >= prev.len() as u64 || idx + (bu as usize) + 1 > prev.len() {
            return Err(Error::CorruptStream);
        }
        let end = idx + (bu as usize) + 1;
        let ghost preout = out@;
        if i % 2 == 0 {
            extend_range(&mut out, prev, idx, end);
        }
        proof {
            if spec_copy_rest(prev@, bsn, i as int + 1, end as int) is Some {
                let t = spec_copy_rest(prev@, bsn, i as int + 1, end as int)->Some_0;
                if i % 2 == 0 {
                    assert(preout + (prev@.subrange(idx as int, end as int) + t) =~= out@ + t);
                }
            }
        }
        idx = end;
        i = i + 1;
    }
    if bs.len() % 2 == 0 {
        let ghost preout = out@;
        let plen = prev.len();
        extend_range(&mut out, prev, idx, plen);
        proof {
            assert(prev@.subrange(idx as int, prev@.len() as int) =~= prev@.skip(idx as int));
        }
    } else {
        proof {
            assert(out@ + Seq::<usize>::empty() =~= out@);
        }
    }
    Ok(out)
}


/// Read the interval runs after the first one.
#[verifier::rlimit(100)]
fn read_intervals_rest(
    reader: &mut UnbufferedBitStreamRead,
    flags: &CompFlags,
    count: u64,
    prev_end: usize,
    lmin: usize,
    n: usize,
) -> (r: Result<Vec<usize>, Error>)
    requires
        old(reader).fits(),
        flags.wf(),
        prev_end <= n,
        (n as int) * 2 + 130 <= usize::MAX,
    ensures
        final(reader).spec_words() == old(reader).spec_words(),
        final(reader).spec_order() == old(reader).spec_order(),
        match r {
            Ok(out) => out@.len() + prev_end <= n && spec_intervals_rest(
                old(reader).spec_words(),
                old(reader).spec_order(),
                *flags,
                old(reader).spec_pos(),
                count as nat,
                prev_end as int,
                lmin as int,
                n as int,
            ) == Some((out@, final(reader).spec_pos())),
            Err(e) => (e == Error::UnexpectedEof || e == Error::CorruptStream)
                && spec_intervals_rest(
                old(reader).spec_words(),
                old(reader).spec_order(),
                *flags,
                old(reader).spec_pos(),
                count as nat,
                prev_end as int,
                lmin as int,
                n as int,
            ) is None,
        },
{
    let ghost ws = reader.spec_words();
    let ghost order0 = reader.spec_order();
    let ghost pos0 = reader.spec_pos();
    let mut out: Vec<usize> = Vec::new();
    let mut pe: usize = prev_end;
    let mut i: u64 = 0;
    while i < count
        invariant
            0 <= i <= count,
            pe <= n,
            prev_end <= pe,
            (n as int) * 2 + 130 <= usize::MAX,
            out@.len() + prev_end <= pe,
            flags.wf(),
            reader.fits(),
            reader.spec_words() == ws,
            reader.spec_order() == order0,
            ws == old(reader).spec_words(),
            order0 == old(reader).spec_order(),
            pos0 == old(reader).spec_pos(),
            match spec_intervals_rest(
                ws,
                order0,
                *flags,
                reader.spec_pos(),
                (count - i) as nat,
                pe as int,
                lmin as int,
                n as int,
            ) {
                None => spec_intervals_rest(
                    ws,
                    order0,
                    *flags,
                    pos0,
                    count as nat,
                    prev_end as int,
                    lmin as int,
                    n as int,
                ) is None,
                Some((items, p)) => spec_intervals_rest(
                    ws,
                    order0,
                    *flags,
                    pos0,
                    count as nat,
                    prev_end as int,
                    lmin as int,
                    n as int,
                ) == Some((out@ + items, p)),
            },
        decreases count - i,
    {
        let gap = match reader.read_code(flags.interval_start) {
            Err(e) => {
                return Err(e);
            },
            Ok(g) => g,
        };
        let dl = match reader.read_code(flags.interval_len) {
            Err(e) => {
                return Err(e);
            },
            Ok(d) => d,
        };
        let st128: u128 = pe as u128 + 1 + gap as u128;
        let len128: u128 = dl as u128 + lmin as u128;
        if st128 + len128 > n as u128 {
            return Err(Error::CorruptStream);
        }
        let st = st128 as usize;
        let ln = len128 as usize;
        let ghost preout = out@;
        extend_run(&mut out, st, ln);
        proof {
            if spec_intervals_rest(
                ws,
                order0,
                *flags,
                reader.spec_pos(),
                (count - i - 1) as nat,
                st as int + ln as int,
                lmin as int,
                n as int,
            ) is Some {
                let (items, p) = spec_intervals_rest(
                    ws,
                    order0,
                    *flags,
                    reader.spec_pos(),
                    (count - i - 1) as nat,
                    st as int + ln as int,
                    lmin as int,
                    n as int,
                )->Some_0;
                assert(preout + (run_of(st as int, ln as int) + items) =~= out@ + items);
            }
        }
        pe = st + ln;
        i = i + 1;
    }
    proof {
        assert(out@ + Seq::<usize>::empty() =~= out@);
    }
    Ok(out)
}

/// Read the residuals after the first one.
#[verifier::rlimit(100)]
fn read_residuals_rest(
    reader: &mut UnbufferedBitStreamRead,
    c: Code,
    count: u64,
    first: usize,
    n: usize,
) -> (r: Result<Vec<usize>, Error>)
    requires
        old(reader).fits(),
        c.wf(),
        first < n,
        (n as int) * 2 + 130 <= usize::MAX,
    ensures
        final(reader).spec_words() == old(reader).spec_words(),
        final(reader).spec_order() == old(reader).spec_order(),
        match r {
            Ok(out) => out@.len() + first < n && spec_residuals_rest(
                old(reader).spec_words(),
                old(reader).spec_order(),
                c,
                old(reader).spec_pos(),
                count as nat,
                first as int,
                n as int,
            ) == Some((out@, final(reader).spec_pos())),
            Err(e) => (e == Error::UnexpectedEof || e == Error::CorruptStream)
                && spec_residuals_rest(
                old(reader).spec_words(),
                old(reader).spec_order(),
                c,
                old(reader).spec_pos(),
                count as nat,
                first as int,
                n as int,
            ) is None,
        },
{
    let ghost ws = reader.spec_words();
    let ghost order0 = reader.spec_order();
    let ghost pos0 = reader.spec_pos();
    let mut out: Vec<usize> = Vec::new();
    let mut pv: usize = first;
    let mut i: u64 = 0;
    while i < count
        invariant
            0 <= i <= count,
            pv < n,
            first <= pv,
            (n as int) * 2 + 130 <= usize::MAX,
            out@.len() + first <= pv,
            c.wf(),
            reader.fits(),
            reader.spec_words() == ws,
            reader.spec_order() == order0,
            ws == old(reader).spec_words(),
            order0 == old(reader).spec_order(),
            pos0 == old(reader).spec_pos(),
            match spec_residuals_rest(
                ws,
                order0,
                c,
                reader.spec_pos(),
                (count - i) as nat,
                pv as int,
                n as int,
            ) {
                None => spec_residuals_rest(
                    ws,
                    order0,
                    c,
                    pos0,
                    count as nat,
                    first as int,
                    n as int,
                ) is None,
                Some((items, p)) => spec_residuals_rest(
                    ws,
                    order0,
                    c,
                    pos0,
                    count as nat,
                    first as int,
                    n as int,
                ) == Some((out@ + items, p)),
            },
        decreases count - i,
    {
        let gap = match reader.read_code(c) {
            Err(e) => {
                return Err(e);
            },
            Ok(g) => g,
        };
        let val128: u128 = pv as u128 + 1 + gap as u128;
        if val128 >= n as u128 {
            return Err(Error::CorruptStream);
        }
        let val = val128 as usize;
        let ghost preout = out@;
        out.push(val);
        proof {
            if spec_residuals_rest(
                ws,
                order0,
                c,
                reader.spec_pos(),
                (count - i - 1) as nat,
                val as int,
                n as int,
            ) is Some {
                let (items, p) = spec_residuals_rest(
                    ws,
                    order0,
                    c,
                    reader.spec_pos(),
                    (count - i - 1) as nat,
                    val as int,
                    n as int,
                )->Some_0;
                assert(preout + (seq![val] + items) =~= out@ + items);
            }
        }
        pv = val;
        i = i + 1;
    }
    proof {
        assert(out@ + Seq::<usize>::empty() =~= out@);
    }
    Ok(out)
}


/// Check that a list is a well-formed successor list.
pub(crate) fn valid_check(results: &Vec<usize>, n: usize) -> (r: bool)
    ensures
        r == valid_list(results@, n as int),
{
    let mut i: usize = 0;
    while i < results.len()
        invariant
            0 <= i <= results@.len(),
            forall|t: int| 0 <= t < i ==> (#[trigger] results@[t] as int) < n,
            forall|t: int|
                0 <= t < i && t < results@.len() - 1 ==> (#[trigger] results@[t] as int)
                    < results@[t + 1],
        decreases results@.len() - i,
    {
        if results[i] >= n {
            return false;
        }
        if i + 1 < results.len() && results[i] >= results[i + 1] {
            return false;
        }
        i = i + 1;
    }
    true
}

/// Decode the copied stage.
fn decode_stage_copied(
    reader: &mut UnbufferedBitStreamRead,
    flags: &CompFlags,
    r: usize,
    prev: &Vec<usize>,
    n: usize,
) -> (res: Result<Vec<usize>, Error>)
    requires
        old(reader).fits(),
        flags.wf(),
        prev@.len() <= n,
        (n as int) * 2 + 130 <= usize::MAX,
    ensures
        final(reader).spec_words() == old(reader).spec_words(),
        final(reader).spec_order() == old(reader).spec_order(),
        match res {
            Ok(out) => spec_stage_copied(
                old(reader).spec_words(),
                old(reader).spec_order(),
                *flags,
                old(reader).spec_pos(),
                r as nat,
                prev@,
            ) == Some((out@, final(reader).spec_pos())),
            Err(e) => (e == Error::UnexpectedEof || e == Error::CorruptStream)
                && spec_stage_copied(
                old(reader).spec_words(),
                old(reader).spec_order(),
                *flags,
                old(reader).spec_pos(),
                r as nat,
                prev@,
            ) is None,
        },
{
    if r == 0 {
        let results: Vec<usize> = Vec::new();
        proof {
            assert(results@ =~= Seq::<usize>::empty());
        }
        return Ok(results);
    }
    let bc = match reader.read_code(flags.block_count) {
        Err(e) => {
            return Err(e);
        },
        Ok(x) => x,
    };
    if bc == 0 {
        let mut results: Vec<usize> = Vec::new();
        extend_vec(&mut results, prev);
        proof {
            assert(results@ =~= prev@);
        }
        Ok(results)
    } else {
        let bs = match read_values(reader, flags.blocks, bc) {
            Err(e) => {
                return Err(e);
            },
            Ok(x) => x,
        };
        match copy_blocks(prev, &bs) {
            Err(e) => Err(e),
            Ok(x) => Ok(x),
        }
    }
}

/// Decode the interval stage.
fn decode_stage_intervals(
    reader: &mut UnbufferedBitStreamRead,
    flags: &CompFlags,
    v: usize,
    lmin: usize,
    n: usize,
    needed: bool,
) -> (res: Result<Vec<usize>, Error>)
    requires
        old(reader).fits(),
        flags.wf(),
        v < n,
        (n as int) * 2 + 130 <= usize::MAX,
    ensures
        final(reader).spec_words() == old(reader).spec_words(),
        final(reader).spec_order() == old(reader).spec_order(),
        match res {
            Ok(out) => out@.len() <= n && spec_stage_intervals(
                old(reader).spec_words(),
                old(reader).spec_order(),
                *flags,
                old(reader).spec_pos(),
                v as int,
                lmin as int,
                n as int,
                needed,
            ) == Some((out@, final(reader).spec_pos())),
            Err(e) => (e == Error::UnexpectedEof || e == Error::CorruptStream)
                && spec_stage_intervals(
                old(reader).spec_words(),
                old(reader).spec_order(),
                *flags,
                old(reader).spec_pos(),
                v as int,
                lmin as int,
                n as int,
                needed,
            ) is None,
        },
{
    let mut results: Vec<usize> = Vec::new();
    proof {
        assert(results@ =~= Seq::<usize>::empty());
    }
    if !needed {
        return Ok(results);
    }
    let ic = match reader.read_code(flags.interval_count) {
        Err(e) => {
            return Err(e);
        },
        Ok(x) => x,
    };
    if ic == 0 {
        return Ok(results);
    }
    let g0 = match reader.read_code(flags.interval_start) {
        Err(e) => {
            return Err(e);
        },
        Ok(x) => x,
    };
    let dl0 = match reader.read_code(flags.interval_len) {
        Err(e) => {
            return Err(e);
        },
        Ok(x) => x,
    };
    let off0 = nat2int(g0);
    let st0i: i128 = v as i128 + off0 as i128;
    let len0: u128 = dl0 as u128 + lmin as u128;
    if st0i < 0 || st0i + len0 as i128 > n as i128 {
        return Err(Error::CorruptStream);
    }
    let st0 = st0i as usize;
    let l0 = len0 as usize;
    extend_run(&mut results, st0, l0);
    let rest = match read_intervals_rest(reader, flags, ic - 1, st0 + l0, lmin, n) {
        Err(e) => {
            return Err(e);
        },
        Ok(x) => x,
    };
    extend_vec(&mut results, &rest);
    proof {
        assert(results@ =~= run_of(st0 as int, l0 as int) + rest@);
    }
    Ok(results)
}

/// Decode the residual stage.
fn decode_stage_residuals(
    reader: &mut UnbufferedBitStreamRead,
    flags: &CompFlags,
    v: usize,
    n: usize,
    left: usize,
) -> (res: Result<Vec<usize>, Error>)
    requires
        old(reader).fits(),
        flags.wf(),
        v < n,
        (n as int) * 2 + 130 <= usize::MAX,
    ensures
        final(reader).spec_words() == old(reader).spec_words(),
        final(reader).spec_order() == old(reader).spec_order(),
        match res {
            Ok(out) => out@.len() <= n && spec_stage_residuals(
                old(reader).spec_words(),
                old(reader).spec_order(),
                *flags,
                old(reader).spec_pos(),
                v as int,
                n as int,
                left as nat,
            ) == Some((out@, final(reader).spec_pos())),
            Err(e) => (e == Error::UnexpectedEof || e == Error::CorruptStream)
                && spec_stage_residuals(
                old(reader).spec_words(),
                old(reader).spec_order(),
                *flags,
                old(reader).spec_pos(),
                v as int,
                n as int,
                left as nat,
            ) is None,
        },
{
    let mut results: Vec<usize> = Vec::new();
    proof {
        assert(results@ =~= Seq::<usize>::empty());
    }
    if left == 0 {
        return Ok(results);
    }
    let fr = match reader.read_code(flags.first_residual) {
        Err(e) => {
            return Err(e);
        },
        Ok(x) => x,
    };
    let offr = nat2int(fr);
    let rv0i: i128 = v as i128 + offr as i128;
    if rv0i < 0 || rv0i >= n as i128 {
        return Err(Error::CorruptStream);
    }
    let rv0 = rv0i as usize;
    results.push(rv0);
    let rest = match read_residuals_rest(reader, flags.residual, (left - 1) as u64, rv0, n) {
        Err(e) => {
            return Err(e);
        },
        Ok(x) => x,
    };
    extend_vec(&mut results, &rest);
    proof {
        assert(results@ =~= seq![rv0] + rest@);
    }
    Ok(results)
}

/// Decode the remainder of one node's encoding, after its out-degree `d`
/// and reference offset `r` are known: the copy blocks applied to the
/// referenced list `prev`, the interval runs, the residuals, merged into
/// one sorted list.  Exactly the streams the format allows decode; any
/// structure violating an invariant of the format is reported as corrupt.
#[verifier::rlimit(100)]
fn decode_rest(
    reader: &mut UnbufferedBitStreamRead,
    flags: &CompFlags,
    lmin: usize,
    n: usize,
    v: usize,
    d: usize,
    r: usize,
    prev: &Vec<usize>,
) -> (res: Result<Vec<usize>, Error>)
    requires
        old(reader).fits(),
        flags.wf(),
        v < n,
        1 <= d <= n,
        r <= v,
        prev@.len() <= n,
        (n as int) * 2 + 130 <= usize::MAX,
    ensures
        final(reader).spec_words() == old(reader).spec_words(),
        final(reader).spec_order() == old(reader).spec_order(),
        match res {
            Ok(out) => out@.len() == d && valid_list(out@, n as int) && spec_decode_rest(
                old(reader).spec_words(),
                old(reader).spec_order(),
                *flags,
                lmin as int,
                n as int,
                v as int,
                old(reader).spec_pos(),
                d as nat,
                r as nat,
                prev@,
            ) == Some((out@, final(reader).spec_pos())),
            Err(e) => (e == Error::UnexpectedEof || e == Error::CorruptStream)
                && spec_decode_rest(
                old(reader).spec_words(),
                old(reader).spec_order(),
                *flags,
                lmin as int,
                n as int,
                v as int,
                old(reader).spec_pos(),
                d as nat,
                r as nat,
                prev@,
            ) is None,
        },
{
    proof {
        reveal(spec_decode_rest);
    }
    let mut results = match decode_stage_copied(reader, flags, r, prev, n) {
        Err(e) => {
            return Err(e);
        },
        Ok(x) => x,
    };
    let ghost copied = results@;
    if results.len() > d {
        return Err(Error::CorruptStream);
    }
    let needed = d - results.len() > 0 && lmin != 0;
    let ints = match decode_stage_intervals(reader, flags, v, lmin, n, needed) {
        Err(e) => {
            return Err(e);
        },
        Ok(x) => x,
    };
    extend_vec(&mut results, &ints);
    if results.len() > d {
        return Err(Error::CorruptStream);
    }
    let left = d - results.len();
    let resid = match decode_stage_residuals(reader, flags, v, n, left) {
        Err(e) => {
            return Err(e);
        },
        Ok(x) => x,
    };
    extend_vec(&mut results, &resid);
    proof {
        assert(results@ =~= copied + ints@ + resid@);
    }
    sort_vec(&mut results);
    if results.len() != d {
        return Err(Error::CorruptStream);
    }
    if !valid_check(&results, n) {
        return Err(Error::CorruptStream);
    }
    Ok(results)
}


/// The positions of a strictly increasing list grow at least as fast as
/// the indices.
proof fn lemma_valid_ge(s: Seq<usize>, n: int, i: int)
    requires
        valid_list(s, n),
        0 <= i < s.len(),
    ensures
        s[i] as int >= i,
    decreases i,
{
    if i > 0 {
        lemma_valid_ge(s, n, i - 1);
    }
}

/// A well-formed successor list of a graph with `n` nodes has at most `n`
/// entries.
pub proof fn lemma_valid_list_len(s: Seq<usize>, n: int)
    requires
        valid_list(s, n),
        n >= 0,
    ensures
        s.len() <= n,
{
    if s.len() > n {
        lemma_valid_ge(s, n, n);
    }
}

/// Two distinct indices less than one window apart fall in different
/// window slots.
proof fn lemma_mod_window(u: int, cur: int, m: int)
    requires
        m >= 1,
        cur - m < u < cur,
        0 <= u,
    ensures
        u % m != cur % m,
{
    vstd::arithmetic::div_mod::lemma_fundamental_div_mod(u, m);
    vstd::arithmetic::div_mod::lemma_fundamental_div_mod(cur, m);
    vstd::arithmetic::div_mod::lemma_mod_bound(u, m);
    vstd::arithmetic::div_mod::lemma_mod_bound(cur, m);
    if u % m == cur % m {
        assert(false) by (nonlinear_arith)
            requires
                u == m * (u / m) + u % m,
                cur == m * (cur / m) + cur % m,
                u % m == cur % m,
                cur - m < u < cur,
                m >= 1,
        ;
    }
}

/// A sequential iterator over the nodes of a compressed graph and their
/// successor lists, keeping a circular window of the last lists for
/// references to copy from.
pub struct WebgraphSequentialIter {
    codes_reader: UnbufferedBitStreamRead,
    flags: CompFlags,
    backrefs: Vec<Vec<usize>>,
    compression_window: usize,
    min_interval_length: usize,
    number_of_nodes: usize,
    current_node: usize,
    hist: Ghost<Seq<Seq<usize>>>,
}

impl WebgraphSequentialIter {
    /// The backing words of the stream.
    pub closed spec fn spec_words(&self) -> Seq<u64> {
        self.codes_reader.spec_words()
    }

    /// The bit order of the stream.
    pub closed spec fn spec_order(&self) -> BitOrder {
        self.codes_reader.spec_order()
    }

    /// The code choices.
    pub closed spec fn spec_flags(&self) -> CompFlags {
        self.flags
    }

    /// The window size.
    pub closed spec fn spec_w(&self) -> int {
        self.compression_window as int
    }

    /// The minimum interval length.
    pub closed spec fn spec_lmin(&self) -> int {
        self.min_interval_length as int
    }

    /// The number of nodes.
    pub closed spec fn spec_n(&self) -> int {
        self.number_of_nodes as int
    }

    /// The next node to be decoded.
    pub closed spec fn spec_curr(&self) -> int {
        self.current_node as int
    }

    /// The lists decoded so far.
    pub closed spec fn spec_hist(&self) -> Seq<Seq<usize>> {
        self.hist@
    }

    /// The current bit position of the reader.
    pub closed spec fn spec_pos(&self) -> int {
        self.codes_reader.spec_pos()
    }

    /// The number of window slots.
    pub closed spec fn spec_slots(&self) -> int {
        self.backrefs@.len() as int
    }

    /// The list kept in window slot `i`.
    pub closed spec fn spec_slot(&self, i: int) -> Seq<usize> {
        self.backrefs@[i]@
    }

    /// The iterator is consistent: the stream decodes to the history up to
    /// the current node, and the window holds the last lists.
    pub open spec fn wf(&self) -> bool {
        &&& self.spec_flags().wf()
        &&& self.spec_words().len() * 64 + 192 <= usize::MAX
        &&& self.spec_n() * 2 + 130 <= usize::MAX
        &&& 0 <= self.spec_w() < usize::MAX
        &&& self.spec_curr() <= self.spec_n()
        &&& self.spec_hist().len() == self.spec_curr()
        &&& spec_decode_prefix(
            self.spec_words(),
            self.spec_order(),
            self.spec_flags(),
            self.spec_w(),
            self.spec_lmin(),
            self.spec_n(),
            self.spec_curr(),
        ) == Some((self.spec_hist(), self.spec_pos()))
        &&& forall|u: int|
            0 <= u < self.spec_curr() ==> valid_list(#[trigger] self.spec_hist()[u], self.spec_n())
        &&& self.spec_slots() == self.spec_w() + 1
        &&& forall|u: int|
            self.spec_curr() - self.spec_w() <= u < self.spec_curr() && 0 <= u ==> #[trigger] self.spec_slot(
                u % (self.spec_w() + 1),
            ) == self.spec_hist()[u]
    }

    /// Create an iterator positioned on node 0 of a stream.
    pub fn new(
        codes_reader: UnbufferedBitStreamRead,
        compression_window: usize,
        min_interval_length: usize,
        number_of_nodes: usize,
        flags: CompFlags,
    ) -> (r: Self)
        requires
            codes_reader.fits(),
            codes_reader.spec_pos() == 0,
            flags.wf(),
            (number_of_nodes as int) * 2 + 130 <= usize::MAX,
            compression_window < usize::MAX,
        ensures
            r.wf(),
            r.spec_words() == codes_reader.spec_words(),
            r.spec_order() == codes_reader.spec_order(),
            r.spec_flags() == flags,
            r.spec_w() == compression_window as int,
            r.spec_lmin() == min_interval_length as int,
            r.spec_n() == number_of_nodes as int,
            r.spec_curr() == 0,
    {
        let mut backrefs: Vec<Vec<usize>> = Vec::new();
        let mut i: usize = 0;
        while i < compression_window + 1
            invariant
                compression_window < usize::MAX,
                0 <= i <= compression_window + 1,
                backrefs@.len() == i,
            decreases compression_window + 1 - i,
        {
            backrefs.push(Vec::new());
            i = i + 1;
        }
        WebgraphSequentialIter {
            codes_reader,
            flags,
            backrefs,
            compression_window,
            min_interval_length,
            number_of_nodes,
            current_node: 0,
            hist: Ghost(Seq::empty()),
        }
    }

    /// The current bit offset in the stream.
    pub fn get_bit_pos(&self) -> (r: usize)
        ensures
            r as int == self.spec_pos(),
    {
        self.codes_reader.get_position()
    }

    /// The number of nodes of the graph being walked.
    pub fn num_nodes(&self) -> (r: usize)
        ensures
            r as int == self.spec_n(),
    {
        self.number_of_nodes
    }

    /// The next node to be decoded.
    pub fn current_node(&self) -> (r: usize)
        ensures
            r as int == self.spec_curr(),
    {
        self.current_node
    }


    /// Store a freshly decoded list in its window slot and advance the
    /// cursor, keeping the window consistent with the history.
    fn store_and_advance(&mut self, out: Vec<usize>)
        requires
            old(self).spec_curr() < old(self).spec_n(),
            old(self).spec_hist().len() == old(self).spec_curr(),
            out@.len() <= old(self).spec_n(),
            old(self).spec_n() * 2 + 130 <= usize::MAX,
            0 <= old(self).spec_w() < usize::MAX,
            old(self).spec_slots() == old(self).spec_w() + 1,
            forall|u: int|
                old(self).spec_curr() - old(self).spec_w() <= u < old(self).spec_curr() && 0 <= u
                    ==> #[trigger] old(self).spec_slot(u % (old(self).spec_w() + 1)) == old(
                    self,
                ).spec_hist()[u],
        ensures
            final(self).spec_words() == old(self).spec_words(),
            final(self).spec_order() == old(self).spec_order(),
            final(self).spec_flags() == old(self).spec_flags(),
            final(self).spec_w() == old(self).spec_w(),
            final(self).spec_lmin() == old(self).spec_lmin(),
            final(self).spec_n() == old(self).spec_n(),
            final(self).spec_pos() == old(self).spec_pos(),
            final(self).spec_curr() == old(self).spec_curr() + 1,
            final(self).spec_hist() == old(self).spec_hist().push(out@),
            final(self).spec_slots() == final(self).spec_w() + 1,
            forall|u: int|
                final(self).spec_curr() - final(self).spec_w() <= u < final(self).spec_curr() && 0
                    <= u ==> #[trigger] final(self).spec_slot(u % (final(self).spec_w() + 1))
                    == final(self).spec_hist()[u],
    {
        let ghost hist0 = self.hist@;
        let cur = self.current_node;
        let w = self.compression_window;
        let mut copy: Vec<usize> = Vec::new();
        extend_vec(&mut copy, &out);
        proof {
            assert(copy@ =~= out@);
        }
        let slot = cur % (w + 1);
        self.backrefs.set(slot, copy);
        self.current_node = cur + 1;
        proof {
            self.hist@ = hist0.push(out@);
            assert forall|u: int|
                self.spec_curr() - self.spec_w() <= u < self.spec_curr() && 0 <= u implies #[trigger] self.spec_slot(
                u % (self.spec_w() + 1),
            ) == self.spec_hist()[u] by {
                if u == cur as int {
                    assert(u % (self.spec_w() + 1) == slot as int);
                    assert(self.spec_slot(slot as int) == out@);
                    assert(self.spec_hist()[u] == out@);
                } else {
                    lemma_mod_window(u, cur as int, w as int + 1);
                    assert(self.spec_slot(u % (self.spec_w() + 1)) == old(self).spec_slot(
                        u % (self.spec_w() + 1),
                    ));
                }
            }
        }
    }

    /// Decode the successors of the next node in the stream and advance.
    #[verifier::rlimit(100)]
    pub fn next_successors(&mut self) -> (res: Result<Vec<usize>, Error>)
        requires
            old(self).wf(),
            old(self).spec_curr() < old(self).spec_n(),
        ensures
            final(self).spec_words() == old(self).spec_words(),
            final(self).spec_order() == old(self).spec_order(),
            final(self).spec_flags() == old(self).spec_flags(),
            final(self).spec_w() == old(self).spec_w(),
            final(self).spec_lmin() == old(self).spec_lmin(),
            final(self).spec_n() == old(self).spec_n(),
            match res {
                Ok(out) => {
                    &&& final(self).wf()
                    &&& final(self).spec_curr() == old(self).spec_curr() + 1
                    &&& final(self).spec_hist() == old(self).spec_hist().push(out@)
                    &&& valid_list(out@, old(self).spec_n())
                    &&& spec_decode_node(
                        old(self).spec_words(),
                        old(self).spec_order(),
                        old(self).spec_flags(),
                        old(self).spec_w(),
                        old(self).spec_lmin(),
                        old(self).spec_n(),
                        old(self).spec_curr(),
                        old(self).spec_pos(),
                        old(self).spec_hist(),
                    ) == Some((out@, final(self).spec_pos()))
                },
                Err(e) => {
                    &&& spec_decode_node(
                        old(self).spec_words(),
                        old(self).spec_order(),
                        old(self).spec_flags(),
                        old(self).spec_w(),
                        old(self).spec_lmin(),
                        old(self).spec_n(),
                        old(self).spec_curr(),
                        old(self).spec_pos(),
                        old(self).spec_hist(),
                    ) is None
                    &&& (e == Error::UnexpectedEof || e == Error::CorruptStream)
                    &&& (spec_ref_out_of_window(
                        old(self).spec_words(),
                        old(self).spec_order(),
                        old(self).spec_flags(),
                        old(self).spec_w(),
                        old(self).spec_n(),
                        old(self).spec_curr(),
                        old(self).spec_pos(),
                    ) ==> e == Error::CorruptStream)
                },
            },
    {
        let ghost ws = self.spec_words();
        let ghost order0 = self.spec_order();
        let ghost hist0 = self.hist@;
        let cur = self.current_node;
        let n = self.number_of_nodes;
        let w = self.compression_window;
        let lmin = self.min_interval_length;
        let deg = match self.codes_reader.read_code(self.flags.outdegree) {
            Err(e) => {
                return Err(e);
            },
            Ok(x) => x,
        };
        if deg > n as u64 {
            return Err(Error::CorruptStream);
        }
        let d = deg as usize;
        let out: Vec<usize>;
        if d == 0 {
            out = Vec::new();
            proof {
                assert(out@ =~= Seq::<usize>::empty());
            }
        } else {
            let r: u64 = if w != 0 {
                match self.codes_reader.read_code(self.flags.reference_offset) {
                    Err(e) => {
                        return Err(e);
                    },
                    Ok(x) => x,
                }
            } else {
                0
            };
            if r > cur as u64 || r > w as u64 {
                return Err(Error::CorruptStream);
            }
            let ru = r as usize;
            let empty_list: Vec<usize> = Vec::new();
            let prev: &Vec<usize> = if ru > 0 {
                &self.backrefs[(cur - ru) % (w + 1)]
            } else {
                &empty_list
            };
            proof {
                if ru > 0 {
                    let m = old(self).spec_w() + 1;
                    let u = cur - ru;
                    assert(old(self).spec_slot(u % m) == old(self).spec_hist()[u as int]);
                    assert(self.backrefs@ == old(self).backrefs@);
                    assert(prev@ == old(self).spec_slot(u % m));
                    assert(prev@ == hist0[cur - ru]);
                    lemma_valid_list_len(hist0[cur - ru], n as int);
                } else {
                    assert(prev@ =~= Seq::<usize>::empty());
                }
            }
            out = match decode_rest(
                &mut self.codes_reader,
                &self.flags,
                lmin,
                n,
                cur,
                d,
                ru,
                prev,
            ) {
                Err(e) => {
                    return Err(e);
                },
                Ok(x) => x,
            };
        }
        proof {
            if d == 0 {
                assert(valid_list(out@, n as int));
            }
        }
        let mut copy: Vec<usize> = Vec::new();
        extend_vec(&mut copy, &out);
        proof {
            assert(copy@ =~= out@);
            assert(self.backrefs@ == old(self).backrefs@);
            assert forall|u: int|
                self.spec_curr() - self.spec_w() <= u < self.spec_curr() && 0 <= u implies #[trigger] self.spec_slot(
                u % (self.spec_w() + 1),
            ) == self.spec_hist()[u] by {
                assert(old(self).spec_slot(u % (old(self).spec_w() + 1)) == old(
                    self,
                ).spec_hist()[u]);
            }
        }
        self.store_and_advance(out);
        proof {
            assert forall|u: int|
                0 <= u < self.spec_curr() implies valid_list(
                #[trigger] self.spec_hist()[u],
                self.spec_n(),
            ) by {
                if u < cur as int {
                    assert(self.spec_hist()[u] == hist0[u]);
                }
            }
        }
        Ok(copy)
    }
}


/// Copy a word vector.
fn copy_words(src: &Vec<u64>) -> (r: Vec<u64>)
    ensures
        r@ == src@,
{
    let mut out: Vec<u64> = Vec::new();
    let mut i: usize = 0;
    while i < src.len()
        invariant
            0 <= i <= src@.len(),
            out@ == src@.take(i as int),
        decreases src@.len() - i,
    {
        let x = src[i];
        out.push(x);
        proof {
            assert(src@.take(i + 1) =~= src@.take(i as int).push(x));
        }
        i = i + 1;
    }
    proof {
        assert(src@.take(src@.len() as int) =~= src@);
    }
    out
}

/// Decoding a longer prefix settles every shorter one: the lists agree and
/// the shorter prefix also decodes.
pub proof fn lemma_prefix_prefix(
    ws: Seq<u64>,
    order: BitOrder,
    flags: CompFlags,
    w: int,
    lmin: int,
    n: int,
    u: int,
    v: int,
)
    requires
        0 <= u <= v,
        spec_decode_prefix(ws, order, flags, w, lmin, n, v) is Some,
    ensures
        spec_decode_prefix(ws, order, flags, w, lmin, n, u) is Some,
        spec_decode_prefix(ws, order, flags, w, lmin, n, v)->Some_0.0.len() == v,
        spec_decode_prefix(ws, order, flags, w, lmin, n, v)->Some_0.0.subrange(0, u)
            == spec_decode_prefix(ws, order, flags, w, lmin, n, u)->Some_0.0,
    decreases v,
{
    if v == 0 {
        assert(spec_decode_prefix(ws, order, flags, w, lmin, n, 0)->Some_0.0.subrange(0, 0)
            =~= Seq::<Seq<usize>>::empty());
    } else {
        lemma_prefix_prefix(ws, order, flags, w, lmin, n, if u < v {
            u
        } else {
            v - 1
        }, v - 1);
        let lsv = spec_decode_prefix(ws, order, flags, w, lmin, n, v)->Some_0.0;
        let lsv1 = spec_decode_prefix(ws, order, flags, w, lmin, n, v - 1)->Some_0.0;
        assert(lsv.subrange(0, v - 1) =~= lsv1);
        if u < v {
            assert(lsv.subrange(0, u) =~= lsv1.subrange(0, u));
        } else {
            assert(lsv.subrange(0, v) =~= lsv);
        }
    }
}

/// A prefix that fails to decode never recovers at a longer length.
pub proof fn lemma_prefix_none_mono(
    ws: Seq<u64>,
    order: BitOrder,
    flags: CompFlags,
    w: int,
    lmin: int,
    n: int,
    u: int,
    v: int,
)
    requires
        0 <= u <= v,
        spec_decode_prefix(ws, order, flags, w, lmin, n, u) is None,
    ensures
        spec_decode_prefix(ws, order, flags, w, lmin, n, v) is None,
    decreases v,
{
    if v > u {
        lemma_prefix_none_mono(ws, order, flags, w, lmin, n, u, v - 1);
    }
}

/// The successor list of node `v`, for a stream whose first `v + 1` nodes
/// decode.
pub open spec fn spec_node_list(
    ws: Seq<u64>,
    order: BitOrder,
    flags: CompFlags,
    w: int,
    lmin: int,
    n: int,
    v: int,
) -> Seq<usize> {
    spec_decode_prefix(ws, order, flags, w, lmin, n, v + 1)->Some_0.0[v]
}

/// An offsets table is valid for a stream when the whole stream decodes
/// and entry `v` is the bit position where node `v`'s encoding starts.
pub open spec fn valid_offsets(
    ws: Seq<u64>,
    order: BitOrder,
    flags: CompFlags,
    w: int,
    lmin: int,
    n: int,
    offs: Seq<usize>,
) -> bool {
    &&& offs.len() == n
    &&& spec_decode_prefix(ws, order, flags, w, lmin, n, n) is Some
    &&& forall|v: int|
        0 <= v < n ==> (#[trigger] offs[v]) as int == spec_decode_prefix(
            ws,
            order,
            flags,
            w,
            lmin,
            n,
            v,
        )->Some_0.1
}

/// Random access agrees with the sequential scan: for every node, the list
/// the recursive random-access decoder is specified to return is exactly
/// the list the full sequential scan yields at that node.
pub proof fn lemma_random_matches_scan(
    ws: Seq<u64>,
    order: BitOrder,
    flags: CompFlags,
    w: int,
    lmin: int,
    n: int,
    v: int,
)
    requires
        0 <= v < n,
        spec_decode_prefix(ws, order, flags, w, lmin, n, n) is Some,
    ensures
        spec_decode_prefix(ws, order, flags, w, lmin, n, v + 1) is Some,
        spec_decode_prefix(ws, order, flags, w, lmin, n, n)->Some_0.0[v] == spec_node_list(
            ws,
            order,
            flags,
            w,
            lmin,
            n,
            v,
        ),
{
    lemma_prefix_prefix(ws, order, flags, w, lmin, n, v + 1, n);
    let lsn = spec_decode_prefix(ws, order, flags, w, lmin, n, n)->Some_0.0;
    let lsv = spec_decode_prefix(ws, order, flags, w, lmin, n, v + 1)->Some_0.0;
    assert(lsn.subrange(0, v + 1)[v] == lsn[v]);
}

/// Decode node `v` by random access: seek to its offset, read its head,
/// resolve the reference chain recursively up to `depth` more levels, and
/// decode the rest.
#[verifier::rlimit(100)]
fn decode_node_at(
    reader: &mut UnbufferedBitStreamRead,
    flags: &CompFlags,
    w: usize,
    lmin: usize,
    n: usize,
    offsets: &Vec<usize>,
    v: usize,
    depth: usize,
) -> (res: Result<Vec<usize>, Error>)
    requires
        old(reader).fits(),
        flags.wf(),
        v < n,
        (n as int) * 2 + 130 <= usize::MAX,
        valid_offsets(
            old(reader).spec_words(),
            old(reader).spec_order(),
            *flags,
            w as int,
            lmin as int,
            n as int,
            offsets@,
        ),
    ensures
        final(reader).spec_words() == old(reader).spec_words(),
        final(reader).spec_order() == old(reader).spec_order(),
        match res {
            Ok(out) => out@ == spec_node_list(
                old(reader).spec_words(),
                old(reader).spec_order(),
                *flags,
                w as int,
                lmin as int,
                n as int,
                v as int,
            ) && valid_list(out@, n as int),
            Err(e) => depth < v && e == Error::CorruptStream,
        },
    decreases v,
{
    let ghost ws = reader.spec_words();
    let ghost order0 = reader.spec_order();
    let ghost fl = *flags;
    proof {
        lemma_prefix_prefix(ws, order0, fl, w as int, lmin as int, n as int, v as int, n as int);
        lemma_prefix_prefix(
            ws,
            order0,
            fl,
            w as int,
            lmin as int,
            n as int,
            v as int + 1,
            n as int,
        );
    }
    let ghost lists_v = spec_decode_prefix(ws, order0, fl, w as int, lmin as int, n as int, v as int)->Some_0.0;
    let ghost pos_v = spec_decode_prefix(ws, order0, fl, w as int, lmin as int, n as int, v as int)->Some_0.1;
    proof {
        assert(spec_decode_node(
            ws,
            order0,
            fl,
            w as int,
            lmin as int,
            n as int,
            v as int,
            pos_v,
            lists_v,
        ) is Some);
    }
    reader.seek_bit(offsets[v]);
    let deg = match reader.read_code(flags.outdegree) {
        Err(e) => {
            proof {
                assert(false);
            }
            return Err(e);
        },
        Ok(x) => x,
    };
    let d = deg as usize;
    if d == 0 {
        let out: Vec<usize> = Vec::new();
        proof {
            assert(out@ =~= Seq::<usize>::empty());
        }
        return Ok(out);
    }
    let r: u64 = if w != 0 {
        match reader.read_code(flags.reference_offset) {
            Err(e) => {
                proof {
                    assert(false);
                }
                return Err(e);
            },
            Ok(x) => x,
        }
    } else {
        0
    };
    let ru = r as usize;
    let mut prev: Vec<usize> = Vec::new();
    if ru > 0 {
        if depth == 0 {
            return Err(Error::CorruptStream);
        }
        let back = reader.get_position();
        prev = match decode_node_at(reader, flags, w, lmin, n, offsets, v - ru, depth - 1) {
            Err(e) => {
                return Err(e);
            },
            Ok(x) => x,
        };
        reader.seek_bit(back);
        proof {
            lemma_random_matches_scan(
                ws,
                order0,
                fl,
                w as int,
                lmin as int,
                n as int,
                v as int - ru,
            );
            lemma_prefix_prefix(
                ws,
                order0,
                fl,
                w as int,
                lmin as int,
                n as int,
                v as int - ru + 1,
                v as int,
            );
            assert(prev@ == lists_v[v - ru]);
        }
    }
    proof {
        if ru > 0 {
            assert(valid_list(lists_v[v - ru], n as int)) by {
                lemma_node_lists_valid(ws, order0, fl, w as int, lmin as int, n as int, v as int, v as int - ru);
            }
            lemma_valid_list_len(lists_v[v - ru], n as int);
        }
    }
    match decode_rest(reader, flags, lmin, n, v, d, ru, &prev) {
        Err(e) => {
            proof {
                assert(false);
            }
            Err(e)
        },
        Ok(out) => Ok(out),
    }
}

/// A successfully decoded node yields a well-formed list.
#[verifier::rlimit(100)]
proof fn lemma_decode_node_valid(
    ws: Seq<u64>,
    order: BitOrder,
    flags: CompFlags,
    w: int,
    lmin: int,
    n: int,
    v: int,
    pos: int,
    prevs: Seq<Seq<usize>>,
)
    requires
        spec_decode_node(ws, order, flags, w, lmin, n, v, pos, prevs) is Some,
    ensures
        valid_list(
            spec_decode_node(ws, order, flags, w, lmin, n, v, pos, prevs)->Some_0.0,
            n,
        ),
{
    reveal(spec_decode_rest);
}

/// Every list a decoded prefix holds is well formed.
#[verifier::rlimit(100)]
proof fn lemma_node_lists_valid(
    ws: Seq<u64>,
    order: BitOrder,
    flags: CompFlags,
    w: int,
    lmin: int,
    n: int,
    v: int,
    u: int,
)
    requires
        0 <= u < v,
        spec_decode_prefix(ws, order, flags, w, lmin, n, v) is Some,
    ensures
        valid_list(spec_decode_prefix(ws, order, flags, w, lmin, n, v)->Some_0.0[u], n),
    decreases v,
{
    if u < v - 1 {
        lemma_prefix_prefix(ws, order, flags, w, lmin, n, v - 1, v);
        lemma_node_lists_valid(ws, order, flags, w, lmin, n, v - 1, u);
        let lsv = spec_decode_prefix(ws, order, flags, w, lmin, n, v)->Some_0.0;
        assert(lsv.subrange(0, v - 1)[u] == lsv[u]);
    } else {
        let ls1 = spec_decode_prefix(ws, order, flags, w, lmin, n, v - 1)->Some_0.0;
        let p1 = spec_decode_prefix(ws, order, flags, w, lmin, n, v - 1)->Some_0.1;
        lemma_decode_node_valid(ws, order, flags, w, lmin, n, v - 1, p1, ls1);
        lemma_prefix_prefix(ws, order, flags, w, lmin, n, v - 1, v - 1);
        let nl = spec_decode_node(ws, order, flags, w, lmin, n, v - 1, p1, ls1)->Some_0.0;
        assert(spec_decode_prefix(ws, order, flags, w, lmin, n, v)->Some_0.0 == ls1.push(nl));
        assert(ls1.push(nl)[v - 1] == nl);
    }
}


/// A read-only handle on a compressed graph: the bitstream backing, the
/// code choices, the compression window, the minimum interval length, the
/// node count and an optional arc count.
#[derive(Clone)]
pub struct BVGraphSequential {
    words: Vec<u64>,
    order: BitOrder,
    flags: CompFlags,
    compression_window: usize,
    min_interval_length: usize,
    number_of_nodes: usize,
    number_of_arcs: Option<usize>,
}

impl BVGraphSequential {
    /// The backing words.
    pub closed spec fn spec_words(&self) -> Seq<u64> {
        self.words@
    }

    /// The bit order.
    pub closed spec fn spec_order(&self) -> BitOrder {
        self.order
    }

    /// The code choices.
    pub closed spec fn spec_flags(&self) -> CompFlags {
        self.flags
    }

    /// The window size.
    pub closed spec fn spec_w(&self) -> int {
        self.compression_window as int
    }

    /// The minimum interval length.
    pub closed spec fn spec_lmin(&self) -> int {
        self.min_interval_length as int
    }

    /// The number of nodes.
    pub closed spec fn spec_n(&self) -> int {
        self.number_of_nodes as int
    }

    /// The advertised arc count, when present.
    pub closed spec fn spec_arcs(&self) -> Option<usize> {
        self.number_of_arcs
    }

    /// The handle's parameters stay within the machine's limits.
    pub open spec fn wf(&self) -> bool {
        &&& self.spec_flags().wf()
        &&& self.spec_words().len() * 64 + 192 <= usize::MAX
        &&& self.spec_n() * 2 + 130 <= usize::MAX
        &&& 0 <= self.spec_w() < usize::MAX
    }

    /// Create a graph handle from a bitstream backing and its declared
    /// parameters.
    pub fn new(
        words: Vec<u64>,
        order: BitOrder,
        flags: CompFlags,
        compression_window: usize,
        min_interval_length: usize,
        number_of_nodes: usize,
        number_of_arcs: Option<usize>,
    ) -> (r: Self)
        requires
            flags.wf(),
            words@.len() * 64 + 192 <= usize::MAX,
            (number_of_nodes as int) * 2 + 130 <= usize::MAX,
            compression_window < usize::MAX,
        ensures
            r.wf(),
            r.spec_words() == words@,
            r.spec_order() == order,
            r.spec_flags() == flags,
            r.spec_w() == compression_window as int,
            r.spec_lmin() == min_interval_length as int,
            r.spec_n() == number_of_nodes as int,
            r.spec_arcs() == number_of_arcs,
    {
        BVGraphSequential {
            words,
            order,
            flags,
            compression_window,
            min_interval_length,
            number_of_nodes,
            number_of_arcs,
        }
    }

    /// The number of nodes in the graph.
    pub fn num_nodes(&self) -> (r: usize)
        ensures
            r as int == self.spec_n(),
    {
        self.number_of_nodes
    }

    /// The advertised number of arcs, when the properties carried one.
    pub fn num_arcs_hint(&self) -> (r: Option<usize>)
        ensures
            r == self.spec_arcs(),
    {
        self.number_of_arcs
    }

    /// A sequential iterator positioned on node 0.
    pub fn iter(&self) -> (r: WebgraphSequentialIter)
        requires
            self.wf(),
        ensures
            r.wf(),
            r.spec_words() == self.spec_words(),
            r.spec_order() == self.spec_order(),
            r.spec_flags() == self.spec_flags(),
            r.spec_w() == self.spec_w(),
            r.spec_lmin() == self.spec_lmin(),
            r.spec_n() == self.spec_n(),
            r.spec_curr() == 0,
    {
        let w = copy_words(&self.words);
        let reader = UnbufferedBitStreamRead::new(WordReader::new(w), self.order);
        WebgraphSequentialIter::new(
            reader,
            self.compression_window,
            self.min_interval_length,
            self.number_of_nodes,
            self.flags,
        )
    }

    /// A sequential iterator positioned on node `from`, decoding and
    /// discarding the earlier nodes.
    pub fn iter_from(&self, from: usize) -> (r: Result<WebgraphSequentialIter, Error>)
        requires
            self.wf(),
            from <= self.spec_n(),
        ensures
            match r {
                Ok(it) => {
                    &&& it.wf()
                    &&& it.spec_words() == self.spec_words()
                    &&& it.spec_order() == self.spec_order()
                    &&& it.spec_flags() == self.spec_flags()
                    &&& it.spec_w() == self.spec_w()
                    &&& it.spec_lmin() == self.spec_lmin()
                    &&& it.spec_n() == self.spec_n()
                    &&& it.spec_curr() == from as int
                },
                Err(_) => spec_decode_prefix(
                    self.spec_words(),
                    self.spec_order(),
                    self.spec_flags(),
                    self.spec_w(),
                    self.spec_lmin(),
                    self.spec_n(),
                    from as int,
                ) is None,
            },
    {
        let mut it = self.iter();
        let mut i: usize = 0;
        while i < from
            invariant
                0 <= i <= from,
                from <= self.spec_n(),
                self.wf(),
                it.wf(),
                it.spec_words() == self.spec_words(),
                it.spec_order() == self.spec_order(),
                it.spec_flags() == self.spec_flags(),
                it.spec_w() == self.spec_w(),
                it.spec_lmin() == self.spec_lmin(),
                it.spec_n() == self.spec_n(),
                it.spec_curr() == i as int,
            decreases from - i,
        {
            match it.next_successors() {
                Err(e) => {
                    proof {
                        lemma_prefix_none_mono(
                            self.spec_words(),
                            self.spec_order(),
                            self.spec_flags(),
                            self.spec_w(),
                            self.spec_lmin(),
                            self.spec_n(),
                            i as int + 1,
                            from as int,
                        );
                    }
                    return Err(e);
                },
                Ok(_) => {},
            }
            i = i + 1;
        }
        Ok(it)
    }

    /// The successor list of node `v` by random access: seek to its offset
    /// and decode, resolving the reference chain recursively up to
    /// `max_ref_depth` levels.  With depth at least `v` it cannot run out.
    pub fn successors(&self, v: usize, offsets: &Vec<usize>, max_ref_depth: usize) -> (r: Result<
        Vec<usize>,
        Error,
    >)
        requires
            self.wf(),
            v < self.spec_n(),
            valid_offsets(
                self.spec_words(),
                self.spec_order(),
                self.spec_flags(),
                self.spec_w(),
                self.spec_lmin(),
                self.spec_n(),
                offsets@,
            ),
        ensures
            match r {
                Ok(out) => {
                    &&& out@ == spec_node_list(
                        self.spec_words(),
                        self.spec_order(),
                        self.spec_flags(),
                        self.spec_w(),
                        self.spec_lmin(),
                        self.spec_n(),
                        v as int,
                    )
                    &&& valid_list(out@, self.spec_n())
                },
                Err(e) => max_ref_depth < v && e == Error::CorruptStream,
            },
    {
        let w = copy_words(&self.words);
        let mut reader = UnbufferedBitStreamRead::new(WordReader::new(w), self.order);
        decode_node_at(
            &mut reader,
            &self.flags,
            self.compression_window,
            self.min_interval_length,
            self.number_of_nodes,
            offsets,
            v,
            max_ref_depth,
        )
    }

    /// An iterator over the out-degrees of the nodes, in node order.
    pub fn iter_degrees(&self) -> (r: DegreesIter)
        requires
            self.wf(),
        ensures
            r.spec_inner().wf(),
            r.spec_inner().spec_words() == self.spec_words(),
            r.spec_inner().spec_order() == self.spec_order(),
            r.spec_inner().spec_flags() == self.spec_flags(),
            r.spec_inner().spec_w() == self.spec_w(),
            r.spec_inner().spec_lmin() == self.spec_lmin(),
            r.spec_inner().spec_n() == self.spec_n(),
            r.spec_inner().spec_curr() == 0,
    {
        DegreesIter::new(self.iter())
    }

    /// Scan the whole graph once and collect, for each node, the bit
    /// position where its encoding starts: a valid offsets table for random
    /// access.
    pub fn build_offsets(&self) -> (r: Result<Vec<usize>, Error>)
        requires
            self.wf(),
        ensures
            match r {
                Ok(offs) => valid_offsets(
                    self.spec_words(),
                    self.spec_order(),
                    self.spec_flags(),
                    self.spec_w(),
                    self.spec_lmin(),
                    self.spec_n(),
                    offs@,
                ),
                Err(_) => spec_decode_prefix(
                    self.spec_words(),
                    self.spec_order(),
                    self.spec_flags(),
                    self.spec_w(),
                    self.spec_lmin(),
                    self.spec_n(),
                    self.spec_n(),
                ) is None,
            },
    {
        let mut it = self.iter();
        let mut offs: Vec<usize> = Vec::new();
        let n = self.number_of_nodes;
        let mut i: usize = 0;
        while i < n
            invariant
                0 <= i <= n,
                n as int == self.spec_n(),
                self.wf(),
                it.wf(),
                it.spec_words() == self.spec_words(),
                it.spec_order() == self.spec_order(),
                it.spec_flags() == self.spec_flags(),
                it.spec_w() == self.spec_w(),
                it.spec_lmin() == self.spec_lmin(),
                it.spec_n() == self.spec_n(),
                it.spec_curr() == i as int,
                offs@.len() == i,
                forall|u: int|
                    0 <= u < i ==> (#[trigger] offs@[u]) as int == spec_decode_prefix(
                        self.spec_words(),
                        self.spec_order(),
                        self.spec_flags(),
                        self.spec_w(),
                        self.spec_lmin(),
                        self.spec_n(),
                        u,
                    )->Some_0.1,
            decreases n - i,
        {
            let p = it.get_bit_pos();
            offs.push(p);
            match it.next_successors() {
                Err(e) => {
                    proof {
                        lemma_prefix_none_mono(
                            self.spec_words(),
                            self.spec_order(),
                            self.spec_flags(),
                            self.spec_w(),
                            self.spec_lmin(),
                            self.spec_n(),
                            i as int + 1,
                            self.spec_n(),
                        );
                    }
                    return Err(e);
                },
                Ok(_) => {},
            }
            i = i + 1;
        }
        Ok(offs)
    }
}

/// An iterator yielding only the out-degree of each node in turn; the rest
/// of each node's encoding is still consumed so the cursor always stands at
/// the start of the next node.
pub struct DegreesIter {
    inner: WebgraphSequentialIter,
}

impl DegreesIter {
    /// The underlying sequential iterator.
    pub closed spec fn spec_inner(&self) -> WebgraphSequentialIter {
        self.inner
    }

    /// Wrap a sequential iterator.
    pub fn new(inner: WebgraphSequentialIter) -> (r: Self)
        ensures
            r.spec_inner() == inner,
    {
        DegreesIter { inner }
    }

    /// The next node whose degree will be yielded.
    pub fn current_node(&self) -> (r: usize)
        ensures
            r as int == self.spec_inner().spec_curr(),
    {
        self.inner.current_node()
    }

    /// The current bit offset in the stream: for a consistent iterator this
    /// is exactly the bit position where the next node's encoding starts,
    /// the entry the offsets table holds for it.
    pub fn get_bit_pos(&self) -> (r: usize)
        ensures
            r as int == self.spec_inner().spec_pos(),
            self.spec_inner().wf() ==> spec_decode_prefix(
                self.spec_inner().spec_words(),
                self.spec_inner().spec_order(),
                self.spec_inner().spec_flags(),
                self.spec_inner().spec_w(),
                self.spec_inner().spec_lmin(),
                self.spec_inner().spec_n(),
                self.spec_inner().spec_curr(),
            ) == Some((self.spec_inner().spec_hist(), r as int)),
    {
        self.inner.get_bit_pos()
    }

    /// The degree of the next node: the same value a full decoding of that
    /// node yields as its list length.  It fails exactly when the node's
    /// encoding fails to decode.
    pub fn next_degree(&mut self) -> (res: Result<usize, Error>)
        requires
            old(self).spec_inner().wf(),
            old(self).spec_inner().spec_curr() < old(self).spec_inner().spec_n(),
        ensures
            final(self).spec_inner().spec_words() == old(self).spec_inner().spec_words(),
            final(self).spec_inner().spec_order() == old(self).spec_inner().spec_order(),
            final(self).spec_inner().spec_flags() == old(self).spec_inner().spec_flags(),
            final(self).spec_inner().spec_w() == old(self).spec_inner().spec_w(),
            final(self).spec_inner().spec_lmin() == old(self).spec_inner().spec_lmin(),
            final(self).spec_inner().spec_n() == old(self).spec_inner().spec_n(),
            match res {
                Ok(d) => {
                    &&& final(self).spec_inner().wf()
                    &&& final(self).spec_inner().spec_curr() == old(self).spec_inner().spec_curr()
                        + 1
                    &&& d as int == spec_node_list(
                        old(self).spec_inner().spec_words(),
                        old(self).spec_inner().spec_order(),
                        old(self).spec_inner().spec_flags(),
                        old(self).spec_inner().spec_w(),
                        old(self).spec_inner().spec_lmin(),
                        old(self).spec_inner().spec_n(),
                        old(self).spec_inner().spec_curr(),
                    ).len()
                },
                Err(e) => {
                    &&& spec_decode_node(
                        old(self).spec_inner().spec_words(),
                        old(self).spec_inner().spec_order(),
                        old(self).spec_inner().spec_flags(),
                        old(self).spec_inner().spec_w(),
                        old(self).spec_inner().spec_lmin(),
                        old(self).spec_inner().spec_n(),
                        old(self).spec_inner().spec_curr(),
                        old(self).spec_inner().spec_pos(),
                        old(self).spec_inner().spec_hist(),
                    ) is None
                    &&& (e == Error::UnexpectedEof || e == Error::CorruptStream)
                },
            },
    {
        let ghost pre = self.inner;
        match self.inner.next_successors() {
            Err(e) => Err(e),
            Ok(out) => {
                proof {
                    let v = pre.spec_curr();
                    assert(spec_decode_prefix(
                        pre.spec_words(),
                        pre.spec_order(),
                        pre.spec_flags(),
                        pre.spec_w(),
                        pre.spec_lmin(),
                        pre.spec_n(),
                        v + 1,
                    ) == Some((pre.spec_hist().push(out@), self.inner.spec_pos())));
                    assert(pre.spec_hist().push(out@)[v] == out@);
                }
                Ok(out.len())
            },
        }
    }
}

} // verus!