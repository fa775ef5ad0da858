//! Composition of permutations: applying several maps of `[0, L)` in order
//! gives a single merged map.

use vstd::prelude::*;
use crate::Error;

verus! {

/// Where index `i` lands after the first `k` maps are applied in order;
/// an escape from the range is marked and never recovers.
pub open spec fn chain(ps: Seq<Seq<usize>>, k: int, i: int) -> int
    decreases k,
{
    if k <= 0 {
        i
    } else {
        let j = chain(ps, k - 1, i);
        if 0 <= j < ps[k - 1].len() {
            ps[k - 1][j] as int
        } else {
            -1
        }
    }
}

/// A usable family of maps: at least one, all of the same length, every
/// entry inside the common range.
pub open spec fn perms_wf(ps: Seq<Seq<usize>>) -> bool {
    &&& ps.len() > 0
    &&& forall|k: int| 0 <= k < ps.len() ==> (#[trigger] ps[k]).len() == ps[0].len()
    &&& forall|k: int, i: int|
        0 <= k < ps.len() && 0 <= i < ps[k].len() ==> (#[trigger] ps[k][i] as int) < ps[0].len()
}

/// Compose the given permutations in order of application: entry `i` of
/// the result is where `i` lands after walking through every map.  It
/// succeeds exactly on a usable family.
pub fn merge_perms(perms: &Vec<Vec<usize>>) -> (r: Result<Vec<usize>, Error>)
    ensures
        match r {
            Ok(out) => {
                &&& perms_wf(perms@.map_values(|p: Vec<usize>| p@))
                &&& out@.len() == perms@[0]@.len()
                &&& forall|i: int|
                    0 <= i < out@.len() ==> (#[trigger] out@[i]) as int == chain(
                        perms@.map_values(|p: Vec<usize>| p@),
                        perms@.len() as int,
                        i,
                    )
            },
            Err(e) => e == Error::BadArgument && !perms_wf(
                perms@.map_values(|p: Vec<usize>| p@),
            ),
        },
{
    let ghost views = perms@.map_values(|p: Vec<usize>| p@);
    if perms.len() == 0 {
        return Err(Error::BadArgument);
    }
    let l = perms[0].len();
    let mut k: usize = 0;
    while k < perms.len()
        invariant
            0 <= k <= perms@.len(),
            views == perms@.map_values(|p: Vec<usize>| p@),
            perms@.len() > 0,
            l == views[0].len(),
            forall|t: int| 0 <= t < k ==> (#[trigger] views[t]).len() == l,
            forall|t: int, i: int|
                0 <= t < k && 0 <= i < views[t].len() ==> (#[trigger] views[t][i] as int) < l,
        decreases perms@.len() - k,
    {
        if perms[k].len() != l {
            proof {
                assert(views[k as int] == perms@[k as int]@);
            }
            return Err(Error::BadArgument);
        }
        proof {
            assert(views[k as int] == perms@[k as int]@);
        }
        let mut i: usize = 0;
        while i < l
            invariant
                0 <= i <= l,
                k < perms@.len(),
                views == perms@.map_values(|p: Vec<usize>| p@),
                views[k as int].len() == l,
                forall|t: int| 0 <= t < i ==> (#[trigger] views[k as int][t] as int) < l,
            decreases l - i,
        {
            if perms[k][i] >= l {
                proof {
                    assert(views[k as int][i as int] == perms@[k as int]@[i as int]);
                }
                return Err(Error::BadArgument);
            }
            proof {
                assert(views[k as int][i as int] == perms@[k as int]@[i as int]);
            }
            i = i + 1;
        }
        k = k + 1;
    }
    let mut out: Vec<usize> = Vec::new();
    let mut i: usize = 0;
    while i < l
        invariant
            0 <= i <= l,
            views == perms@.map_values(|p: Vec<usize>| p@),
            perms_wf(views),
            l == views[0].len(),
            out@.len() == i,
            forall|t: int|
                0 <= t < i ==> (#[trigger] out@[t]) as int == chain(
                    views,
                    perms@.len() as int,
                    t,
                ),
        decreases l - i,
    {
        let mut v: usize = i;
        let mut k: usize = 0;
        while k < perms.len()
            invariant
                0 <= k <= perms@.len(),
                views == perms@.map_values(|p: Vec<usize>| p@),
                perms_wf(views),
                l == views[0].len(),
                i < l,
                v < l,
                v as int == chain(views, k as int, i as int),
            decreases perms@.len() - k,
        {
            proof {
                assert(views[k as int] == perms@[k as int]@);
                assert(views[k as int].len() == l);
                assert((views[k as int][v as int] as int) < l);
            }
            v = perms[k][v];
            k = k + 1;
        }
        out.push(v);
        i = i + 1;
    }
    Ok(out)
}

} // verus!
