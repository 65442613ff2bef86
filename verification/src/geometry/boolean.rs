//! Splitting a stroke's points into fragments by a per-point test.
use vstd::prelude::*;

verus! {

/// Cuts strokes by sweeps and lassos.
pub struct BooleanSlicer;

/// `rs` splits `flags` into maximal runs of equal flags `[a, b)` with their
/// flag, in order.
pub open spec fn is_run_partition(rs: Seq<(usize, usize, bool)>, flags: Seq<bool>) -> bool {
    &&& flags.len() == 0 <==> rs.len() == 0
    &&& rs.len() > 0 ==> rs[0].0 == 0 && rs.last().1 == flags.len()
    &&& forall|k: int| 0 <= k < rs.len() ==> (#[trigger] rs[k]).0 < rs[k].1
    &&& forall|k: int| 0 <= k < rs.len() - 1 ==> (#[trigger] rs[k]).1 == rs[k + 1].0 && rs[k].2 != rs[k + 1].2
    &&& forall|k: int, j: int| 0 <= k < rs.len() && (#[trigger] rs[k]).0 <= j < rs[k].1 ==> #[trigger] flags[j] == rs[k].2
}

/// The point ranges of the runs whose points all fail the test and that
/// hold at least two points.
pub open spec fn gap_ranges(rs: Seq<(usize, usize, bool)>) -> Seq<(usize, usize)>
    decreases rs.len(),
{
    if rs.len() == 0 {
        Seq::empty()
    } else {
        let r = rs.last();
        if !r.2 && r.1 - r.0 >= 2 {
            gap_ranges(rs.drop_last()).push((r.0, r.1))
        } else {
            gap_ranges(rs.drop_last())
        }
    }
}

/// The fragments of the runs with flag `v`: each run with its following
/// point (where the stroke crosses over), the last run alone when it has at
/// least two points.
pub open spec fn crossing_ranges(rs: Seq<(usize, usize, bool)>, n: int, v: bool) -> Seq<(usize, usize)>
    decreases rs.len(),
{
    if rs.len() == 0 {
        Seq::empty()
    } else {
        let r = rs.last();
        let rest = crossing_ranges(rs.drop_last(), n, v);
        if r.2 != v {
            rest
        } else if r.1 < n {
            rest.push((r.0, (r.1 + 1) as usize))
        } else if r.1 - r.0 >= 2 {
            rest.push((r.0, r.1))
        } else {
            rest
        }
    }
}

impl BooleanSlicer {
    /// The maximal runs of equal flags, in order.
    pub fn runs(flags: &Vec<bool>) -> (r: Vec<(usize, usize, bool)>)
        ensures
            is_run_partition(r@, flags@),
    {
        let mut r: Vec<(usize, usize, bool)> = Vec::new();
        let n = flags.len();
        if n == 0 {
            return r;
        }
        let mut start: usize = 0;
        let mut i: usize = 1;
        while i < n
            invariant
                0 < n == flags@.len(),
                start < i <= n,
                r@.len() > 0 ==> r@[0].0 == 0 && r@.last().1 == start && r@.last().2 != flags@[start as int],
                r@.len() == 0 ==> start == 0,
                forall|k: int| 0 <= k < r@.len() ==> (#[trigger] r@[k]).0 < r@[k].1,
                forall|k: int| 0 <= k < r@.len() - 1 ==> (#[trigger] r@[k]).1 == r@[k + 1].0 && r@[k].2 != r@[k + 1].2,
                forall|k: int, j: int| 0 <= k < r@.len() && (#[trigger] r@[k]).0 <= j < r@[k].1 ==> #[trigger] flags@[j] == r@[k].2,
                forall|j: int| start <= j < i ==> #[trigger] flags@[j] == flags@[start as int],
            decreases n - i,
        {
            if flags[i] != flags[start] {
                r.push((start, i, flags[start]));
                start = i;
            }
            i = i + 1;
        }
        r.push((start, n, flags[start]));
        r
    }

    /// The fragments left of a stroke by an eraser sweep: the ranges of at
    /// least two consecutive points that the sweep does not touch.
    pub fn sweep_fragments(hit: &Vec<bool>) -> (r: Vec<(usize, usize)>)
        ensures
            exists|rs: Seq<(usize, usize, bool)>| #[trigger] is_run_partition(rs, hit@) && r@ == gap_ranges(rs),
    {
        let rs = Self::runs(hit);
        let mut r: Vec<(usize, usize)> = Vec::new();
        for k in 0..rs.len()
            invariant
                is_run_partition(rs@, hit@),
                r@ == gap_ranges(rs@.take(k as int)),
        {
            proof {
                assert(rs@.take(k + 1).drop_last() =~= rs@.take(k as int));
            }
            let (a, b, v) = rs[k];
            if !v && b - a >= 2 {
                r.push((a, b));
            }
        }
        proof {
            assert(rs@.take(rs@.len() as int) =~= rs@);
        }
        r
    }

    /// The fragments of a stroke cut by a lasso: ranges inside and ranges
    /// outside. A fragment ends on the first point past the lasso's edge, so
    /// neighbouring fragments share that point.
    pub fn lasso_fragments(inside: &Vec<bool>) -> (r: (Vec<(usize, usize)>, Vec<(usize, usize)>))
        ensures
            exists|rs: Seq<(usize, usize, bool)>| {
                &&& #[trigger] is_run_partition(rs, inside@)
                &&& r.0@ == crossing_ranges(rs, inside@.len() as int, true)
                &&& r.1@ == crossing_ranges(rs, inside@.len() as int, false)
            },
    {
        let rs = Self::runs(inside);
        let n = inside.len();
        let mut ins: Vec<(usize, usize)> = Vec::new();
        let mut outs: Vec<(usize, usize)> = Vec::new();
        for k in 0..rs.len()
            invariant
                n == inside@.len(),
                is_run_partition(rs@, inside@),
                ins@ == crossing_ranges(rs@.take(k as int), n as int, true),
                outs@ == crossing_ranges(rs@.take(k as int), n as int, false),
        {
            proof {
                assert(rs@.take(k + 1).drop_last() =~= rs@.take(k as int));
                assert(rs@[k as int].1 <= n) by {
                    if k < rs@.len() - 1 {
                        assert(rs@[k as int].1 == rs@[k + 1].0);
                        assert(rs@[k + 1].0 < rs@[k + 1].1);
                        lemma_run_ends_bounded(rs@, inside@, k + 1);
                    }
                }
            }
            let (a, b, v) = rs[k];
            let range = if b < n { (a, b + 1) } else { (a, b) };
            if b < n || b - a >= 2 {
                if v {
                    ins.push(range);
                } else {
                    outs.push(range);
                }
            }
        }
        proof {
            assert(rs@.take(rs@.len() as int) =~= rs@);
        }
        (ins, outs)
    }
}

/// Every run of a partition ends within the flags.
proof fn lemma_run_ends_bounded(rs: Seq<(usize, usize, bool)>, flags: Seq<bool>, k: int)
    requires
        is_run_partition(rs, flags),
        0 <= k < rs.len(),
    ensures
        rs[k].1 <= flags.len(),
    decreases rs.len() - k,
{
    if k < rs.len() - 1 {
        assert(rs[k].1 == rs[k + 1].0);
        lemma_run_ends_bounded(rs, flags, k + 1);
    }
}

} // verus!
