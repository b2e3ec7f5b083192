//! Scored layouts. A successful plan is summarised as a `Solution`, and
//! accepted solutions are ranked by worst-case build height, then by the
//! share of degenerate (zero build height) wells.

use vstd::prelude::*;
use vstd::seq_lib::group_seq_properties;
use crate::ratio::Ratio;
use crate::planner::Well;

verus! {

/// Number of wells in `s` with build height zero.
pub open spec fn count_zero(s: Seq<Well>) -> nat
    decreases s.len(),
{
    if s.len() == 0 {
        0
    } else {
        count_zero(s.drop_last()) + if s.last().build_height == 0 {
            1nat
        } else {
            0nat
        }
    }
}

/// A layout has at most as many zero wells as wells.
pub proof fn lemma_count_zero_le(s: Seq<Well>)
    ensures
        count_zero(s) <= s.len(),
    decreases s.len(),
{
    if s.len() > 0 {
        lemma_count_zero_le(s.drop_last());
    }
}

/// Maximum build height over a nonempty layout.
pub open spec fn max_build(s: Seq<Well>) -> int
    decreases s.len(),
{
    if s.len() <= 1 {
        s[0].build_height as int
    } else {
        let m = max_build(s.drop_last());
        if s.last().build_height > m {
            s.last().build_height as int
        } else {
            m
        }
    }
}

/// The scored summary of one successful layout. The zero percentage is kept
/// exactly, as the pair `(zero_wells, well_count)`.
#[derive(Clone, Copy, PartialEq, Eq, Structural, Debug)]
pub struct Solution {
    pub n: usize,
    pub r: i32,
    pub f: i32,
    pub w: Ratio,
    pub max_build_height: i32,
    pub zero_wells: usize,
    pub well_count: usize,
}

impl Solution {
    /// Validity: a nonempty layout of bounded size, a zero count within it,
    /// and a width whose parts are small enough that cross-multiplied width
    /// sums stay inside `u64`.
    pub open spec fn wf(self) -> bool {
        &&& self.w.wf()
        &&& self.w.num <= 0x100000
        &&& self.w.den <= 0x100000
        &&& 1 <= self.well_count <= 46340
        &&& self.zero_wells <= self.well_count
    }

    /// The share of zero-build-height wells, as the exact rational
    /// `100 * zero_wells / well_count`.
    pub fn zero_percentage(&self) -> (p: Ratio)
        requires
            self.wf(),
        ensures
            p == (Ratio { num: (100 * self.zero_wells) as u64, den: self.well_count as u64 }),
            p.wf(),
    {
        Ratio { num: 100 * (self.zero_wells as u64), den: self.well_count as u64 }
    }
}

/// Ranking of solutions: lower worst-case build height first, then lower
/// zero percentage (compared exactly by cross-multiplication).
pub open spec fn sol_le(a: Solution, b: Solution) -> bool {
    a.max_build_height < b.max_build_height || (a.max_build_height == b.max_build_height
        && a.zero_wells * b.well_count <= b.zero_wells * a.well_count)
}

/// The ranking is total.
pub proof fn lemma_sol_le_total(a: Solution, b: Solution)
    requires
        a.wf(),
        b.wf(),
    ensures
        sol_le(a, b) || sol_le(b, a),
{
}

/// The ranking is transitive.
pub proof fn lemma_sol_le_trans(a: Solution, b: Solution, c: Solution)
    requires
        a.wf(),
        b.wf(),
        c.wf(),
        sol_le(a, b),
        sol_le(b, c),
    ensures
        sol_le(a, c),
{
    if a.max_build_height == b.max_build_height && b.max_build_height == c.max_build_height {
        assert(a.zero_wells * c.well_count <= c.zero_wells * a.well_count) by (nonlinear_arith)
            requires
                a.zero_wells * b.well_count <= b.zero_wells * a.well_count,
                b.zero_wells * c.well_count <= c.zero_wells * b.well_count,
                a.well_count >= 1,
                b.well_count >= 1,
                c.well_count >= 1,
        ;
    }
}

/// Decides `sol_le` executably.
pub fn sol_le_exec(a: &Solution, b: &Solution) -> (r: bool)
    requires
        a.wf(),
        b.wf(),
    ensures
        r == sol_le(*a, *b),
{
    if a.max_build_height < b.max_build_height {
        true
    } else if a.max_build_height == b.max_build_height {
        proof {
            assert(a.zero_wells * b.well_count <= 46340 * 46340 && b.zero_wells * a.well_count
                <= 46340 * 46340) by (nonlinear_arith)
                requires
                    0 <= a.zero_wells <= 46340,
                    0 <= b.zero_wells <= 46340,
                    1 <= a.well_count <= 46340,
                    1 <= b.well_count <= 46340,
            ;
        }
        (a.zero_wells as u64) * (b.well_count as u64) <= (b.zero_wells as u64) * (a.well_count
            as u64)
    } else {
        false
    }
}

/// Scores one layout: its maximum build height and its zero-well count.
pub fn score_layout(n: usize, r: i32, f: i32, w: Ratio, wells: &Vec<Well>) -> (s: Solution)
    requires
        1 <= wells@.len() <= 46340,
        w.wf(),
    ensures
        s.n == n && s.r == r && s.f == f && s.w == w,
        s.max_build_height as int == max_build(wells@),
        s.zero_wells == count_zero(wells@),
        s.well_count == wells@.len(),
{
    let mut max_bh: i32 = wells[0].build_height;
    let mut zeros: usize = if wells[0].build_height == 0 {
        1
    } else {
        0
    };
    proof {
        assert(wells@.take(1) =~= seq![wells@[0]]);
        assert(count_zero(seq![wells@[0]]) == count_zero(Seq::<Well>::empty())
            + if wells@[0].build_height == 0 { 1nat } else { 0nat }) by {
            assert(seq![wells@[0]].drop_last() =~= Seq::<Well>::empty());
        }
    }
    let mut i: usize = 1;
    while i < wells.len()
        invariant
            1 <= i <= wells@.len() <= 46340,
            max_bh as int == max_build(wells@.take(i as int)),
            zeros == count_zero(wells@.take(i as int)),
            zeros <= i,
        decreases wells@.len() - i,
    {
        proof {
            let pre = wells@.take(i as int);
            let cur = wells@.take(i as int + 1);
            assert(cur.drop_last() =~= pre);
            assert(cur.last() == wells@[i as int]);
            assert(cur.len() > 1);
        }
        if wells[i].build_height > max_bh {
            max_bh = wells[i].build_height;
        }
        if wells[i].build_height == 0 {
            zeros += 1;
        }
        i += 1;
    }
    proof {
        assert(wells@.take(wells@.len() as int) =~= wells@);
    }
    Solution {
        n,
        r,
        f,
        w,
        max_build_height: max_bh,
        zero_wells: zeros,
        well_count: wells.len(),
    }
}

/// Sorts solutions by `sol_le`: the result is ordered and holds the same
/// solutions (as a multiset) as the input.
pub fn sort_solutions(v: Vec<Solution>) -> (out: Vec<Solution>)
    requires
        forall|i: int| 0 <= i < v@.len() ==> (#[trigger] v@[i]).wf(),
    ensures
        out@.len() == v@.len(),
        out@.to_multiset() == v@.to_multiset(),
        forall|i: int, j: int| 0 <= i < j < out@.len() ==> sol_le(out@[i], out@[j]),
        forall|i: int| 0 <= i < out@.len() ==> (#[trigger] out@[i]).wf(),
{
    broadcast use group_seq_properties;

    let mut rem = v;
    let mut out: Vec<Solution> = Vec::new();
    proof {
        assert(out@.to_multiset().add(rem@.to_multiset()) =~= v@.to_multiset());
    }
    while rem.len() > 0
        invariant
            forall|i: int| 0 <= i < rem@.len() ==> (#[trigger] rem@[i]).wf(),
            forall|i: int| 0 <= i < out@.len() ==> (#[trigger] out@[i]).wf(),
            out@.to_multiset().add(rem@.to_multiset()) == v@.to_multiset(),
            out@.len() + rem@.len() == v@.len(),
            forall|i: int, j: int| 0 <= i < j < out@.len() ==> sol_le(out@[i], out@[j]),
            forall|i: int, j: int|
                0 <= i < out@.len() && 0 <= j < rem@.len() ==> sol_le(
                    #[trigger] out@[i],
                    #[trigger] rem@[j],
                ),
        decreases rem@.len(),
    {
        let mut best: usize = 0;
        let mut k: usize = 1;
        while k < rem.len()
            invariant
                forall|i: int| 0 <= i < rem@.len() ==> (#[trigger] rem@[i]).wf(),
                rem@.len() > 0,
                best < k <= rem@.len(),
                forall|j: int| 0 <= j < k ==> sol_le(rem@[best as int], #[trigger] rem@[j]),
            decreases rem@.len() - k,
        {
            if !sol_le_exec(&rem[best], &rem[k]) {
                proof {
                    lemma_sol_le_total(rem@[best as int], rem@[k as int]);
                    assert forall|j: int| 0 <= j < k + 1 implies sol_le(
                        rem@[k as int],
                        #[trigger] rem@[j],
                    ) by {
                        if j < k {
                            lemma_sol_le_trans(rem@[k as int], rem@[best as int], rem@[j]);
                        }
                    }
                }
                best = k;
            }
            k += 1;
        }
        let ghost rem_pre = rem@;
        let ghost out_pre = out@;
        let ghost picked = rem@[best as int];
        let x = rem.remove(best);
        out.push(x);
        proof {
            rem_pre.to_multiset_ensures();
            out_pre.to_multiset_ensures();
            assert(out@ == out_pre.push(x));
            assert(out@.to_multiset() == out_pre.to_multiset().insert(x));
            assert(rem@.to_multiset() == rem_pre.to_multiset().remove(picked));
            assert(rem_pre.to_multiset().count(picked) > 0) by {
                assert(rem_pre.contains(picked));
            }
            assert(out@.to_multiset().add(rem@.to_multiset()) =~= v@.to_multiset());
            assert forall|i: int, j: int|
                0 <= i < out@.len() && 0 <= j < rem@.len() implies sol_le(
                #[trigger] out@[i],
                #[trigger] rem@[j],
            ) by {
                if i < out@.len() - 1 {
                    if j < best {
                        assert(rem@[j] == rem_pre[j]);
                    } else {
                        assert(rem@[j] == rem_pre[j + 1]);
                    }
                } else {
                    assert(out@[i] == picked);
                    if j < best {
                        assert(rem@[j] == rem_pre[j]);
                    } else {
                        assert(rem@[j] == rem_pre[j + 1]);
                    }
                }
            }
        }
    }
    out
}

} // verus!
