//! The layout evaluator: runs the fold planner across a parameter grid,
//! records every success as a scored solution, tallies failures, and keeps
//! the solutions whose zero percentage falls in the acceptance band, ranked.

use vstd::prelude::*;
use vstd::seq_lib::group_seq_properties;
use crate::ratio::Ratio;
use crate::planner::{calculate, plan_spec};
use crate::solution::{
    count_zero, max_build, score_layout, sol_le, sort_solutions, Solution,
};

verus! {

/// One candidate prime with its known primitive roots and derived width.
#[derive(Clone, Debug)]
pub struct PrimeEntry {
    pub n: usize,
    pub roots: Vec<i32>,
    pub w: Ratio,
}

/// The evaluator's configuration: the parameter grid and the acceptance
/// band on the zero percentage.
#[derive(Clone, Debug)]
pub struct SweepConfig {
    pub entries: Vec<PrimeEntry>,
    pub fold_factors: Vec<i32>,
    /// Lower edge of the acceptance band, in percent.
    pub accept_lo: u32,
    /// Upper edge of the acceptance band, in percent.
    pub accept_hi: u32,
}

impl SweepConfig {
    /// Validity of the grid: primes and roots in planner range, widths with
    /// bounded parts, nonnegative fold factors, and list sizes small enough
    /// that the tally of grid points fits in `u64`.
    pub open spec fn wf(self) -> bool {
        &&& self.entries@.len() <= 0x10000
        &&& self.fold_factors@.len() <= 0x10000
        &&& forall|i: int|
            0 <= i < self.entries@.len() ==> {
                let e = #[trigger] self.entries@[i];
                &&& 3 <= e.n <= 46340
                &&& e.w.wf()
                &&& e.w.num <= 0x100000
                &&& e.w.den <= 0x100000
                &&& e.roots@.len() <= 0x10000
                &&& forall|j: int| 0 <= j < e.roots@.len() ==> 1 <= #[trigger] e.roots@[j] < e.n
            }
        &&& forall|k: int| 0 <= k < self.fold_factors@.len() ==> 0 <= #[trigger] self.fold_factors@[k]
    }
}

/// One point of the parameter grid.
#[derive(Clone, Copy, PartialEq, Eq, Structural, Debug)]
pub struct GridPoint {
    pub n: usize,
    pub r: i32,
    pub f: i32,
    pub w: Ratio,
}

/// The row of grid points for one root: one point per fold factor, in order.
pub open spec fn fs_row(n: usize, r: i32, w: Ratio, fs: Seq<i32>) -> Seq<GridPoint> {
    fs.map_values(|f: i32| GridPoint { n, r, f, w })
}

/// The grid points of one prime: its roots in order, each with every fold
/// factor.
pub open spec fn roots_block(n: usize, w: Ratio, roots: Seq<i32>, fs: Seq<i32>) -> Seq<GridPoint>
    decreases roots.len(),
{
    if roots.len() == 0 {
        Seq::empty()
    } else {
        roots_block(n, w, roots.drop_last(), fs) + fs_row(n, roots.last(), w, fs)
    }
}

/// The whole grid: every `(n, r, f)` combination, in configuration order.
pub open spec fn grid(entries: Seq<PrimeEntry>, fs: Seq<i32>) -> Seq<GridPoint>
    decreases entries.len(),
{
    if entries.len() == 0 {
        Seq::empty()
    } else {
        grid(entries.drop_last(), fs) + roots_block(
            entries.last().n,
            entries.last().w,
            entries.last().roots@,
            fs,
        )
    }
}

/// The planner succeeds at this grid point.
pub open spec fn point_ok(g: GridPoint) -> bool {
    plan_spec(g.n as int, g.r as int, g.f as int, g.w) is Ok
}

/// The scored solution of a successful grid point.
pub open spec fn success_of(g: GridPoint) -> Solution {
    let wells = plan_spec(g.n as int, g.r as int, g.f as int, g.w)->Ok_0;
    Solution {
        n: g.n,
        r: g.r,
        f: g.f,
        w: g.w,
        max_build_height: max_build(wells) as i32,
        zero_wells: count_zero(wells) as usize,
        well_count: wells.len() as usize,
    }
}

/// The scored solutions of the successful points of `gs`, in grid order.
pub open spec fn successes_of(gs: Seq<GridPoint>) -> Seq<Solution> {
    gs.filter(|g: GridPoint| point_ok(g)).map_values(|g: GridPoint| success_of(g))
}

/// The zero percentage of `s` lies in the band `[lo, hi]` percent.
pub open spec fn accepted_pred(s: Solution, lo: int, hi: int) -> bool {
    lo * s.well_count <= 100 * s.zero_wells <= hi * s.well_count
}

/// The solutions of `ss` inside the acceptance band, in order.
pub open spec fn accepted_of(ss: Seq<Solution>, lo: int, hi: int) -> Seq<Solution> {
    ss.filter(|s: Solution| accepted_pred(s, lo, hi))
}

/// What one sweep returns: the ranked accepted solutions, every successful
/// solution in grid order, and the failure tally.
pub struct SweepOutcome {
    pub accepted: Vec<Solution>,
    pub successes: Vec<Solution>,
    pub error_count: u64,
}

/// A block's point count is the number of roots times the number of fold
/// factors.
proof fn lemma_roots_block_len(n: usize, w: Ratio, roots: Seq<i32>, fs: Seq<i32>)
    ensures
        roots_block(n, w, roots, fs).len() == roots.len() * fs.len(),
    decreases roots.len(),
{
    if roots.len() > 0 {
        lemma_roots_block_len(n, w, roots.drop_last(), fs);
        assert(roots.len() * fs.len() == (roots.len() - 1) * fs.len() + fs.len())
            by (nonlinear_arith);
    }
}

/// A bounded configuration yields a grid small enough to tally in `u64`.
proof fn lemma_grid_len(entries: Seq<PrimeEntry>, fs: Seq<i32>)
    requires
        forall|i: int| 0 <= i < entries.len() ==> (#[trigger] entries[i]).roots@.len() <= 0x10000,
        fs.len() <= 0x10000,
    ensures
        grid(entries, fs).len() <= entries.len() * 0x100000000,
    decreases entries.len(),
{
    if entries.len() > 0 {
        lemma_grid_len(entries.drop_last(), fs);
        lemma_roots_block_len(entries.last().n, entries.last().w, entries.last().roots@, fs);
        assert(entries.last().roots@.len() * fs.len() <= 0x10000 * 0x10000
            && (entries.len() - 1) * 0x100000000 + 0x100000000 == entries.len() * 0x100000000)
            by (nonlinear_arith)
            requires
                entries.last().roots@.len() <= 0x10000,
                fs.len() <= 0x10000,
                entries.len() >= 1,
        ;
    }
}

/// Successes distribute over grid concatenation.
proof fn lemma_successes_app(a: Seq<GridPoint>, b: Seq<GridPoint>)
    ensures
        successes_of(a + b) == successes_of(a) + successes_of(b),
{
    broadcast use vstd::prelude::Seq::filter_distributes_over_add;

    let pred = |g: GridPoint| point_ok(g);
    assert((a + b).filter(pred) == a.filter(pred) + b.filter(pred));
    assert(successes_of(a + b) =~= successes_of(a) + successes_of(b));
}

/// The successes of a single grid point: its scored solution when the
/// planner succeeds, nothing when it fails.
proof fn lemma_successes_single(g: GridPoint)
    ensures
        point_ok(g) ==> successes_of(seq![g]) == seq![success_of(g)],
        !point_ok(g) ==> successes_of(seq![g]) == Seq::<Solution>::empty(),
{
    reveal_with_fuel(Seq::filter, 3);
    let pred = |g2: GridPoint| point_ok(g2);
    assert(seq![g].drop_last() =~= Seq::<GridPoint>::empty());
    assert(seq![g].last() == g);
    if point_ok(g) {
        assert(seq![g].filter(pred) =~= seq![g]);
        assert(successes_of(seq![g]) =~= seq![success_of(g)]);
    } else {
        assert(seq![g].filter(pred) =~= Seq::<GridPoint>::empty());
        assert(successes_of(seq![g]) =~= Seq::<Solution>::empty());
    }
}

/// The acceptance filter distributes over appending one solution.
proof fn lemma_accepted_push(ss: Seq<Solution>, x: Solution, lo: int, hi: int)
    ensures
        accepted_pred(x, lo, hi) ==> accepted_of(ss.push(x), lo, hi) == accepted_of(ss, lo, hi)
            + seq![x],
        !accepted_pred(x, lo, hi) ==> accepted_of(ss.push(x), lo, hi) == accepted_of(ss, lo, hi),
{
    reveal_with_fuel(Seq::filter, 2);
    let pred = |s: Solution| accepted_pred(s, lo, hi);
    assert(ss.push(x).drop_last() =~= ss);
    assert(ss.push(x).last() == x);
    if accepted_pred(x, lo, hi) {
        assert(accepted_of(ss.push(x), lo, hi) =~= accepted_of(ss, lo, hi) + seq![x]);
    } else {
        assert(accepted_of(ss.push(x), lo, hi) =~= accepted_of(ss, lo, hi));
    }
}

/// Runs the fold planner over every `(n, r, f)` grid point.
///
/// The successes come back scored, in grid order; the error count tallies
/// exactly the failing points; the accepted list holds exactly the
/// successes whose zero percentage lies in the acceptance band, ranked by
/// `sol_le` (worst-case height first, zero percentage as tie-break).
#[verifier::loop_isolation(false)]
pub fn evaluate(cfg: &SweepConfig) -> (r: SweepOutcome)
    requires
        cfg.wf(),
    ensures
        r.successes@ == successes_of(grid(cfg.entries@, cfg.fold_factors@)),
        r.successes@.len() + r.error_count == grid(cfg.entries@, cfg.fold_factors@).len(),
        forall|k: int| 0 <= k < r.successes@.len() ==> (#[trigger] r.successes@[k]).wf(),
        r.accepted@.to_multiset() == accepted_of(
            r.successes@,
            cfg.accept_lo as int,
            cfg.accept_hi as int,
        ).to_multiset(),
        forall|i: int, j: int|
            0 <= i < j < r.accepted@.len() ==> sol_le(r.accepted@[i], r.accepted@[j]),
        forall|k: int| 0 <= k < r.accepted@.len() ==> (#[trigger] r.accepted@[k]).wf(),
{
    broadcast use group_seq_properties;

    let ghost fs = cfg.fold_factors@;
    let ghost lo = cfg.accept_lo as int;
    let ghost hi = cfg.accept_hi as int;
    let mut successes: Vec<Solution> = Vec::new();
    let mut accepted_raw: Vec<Solution> = Vec::new();
    let mut error_count: u64 = 0;
    proof {
        assert(grid(cfg.entries@.take(0), fs) =~= Seq::<GridPoint>::empty());
        assert(successes@ =~= successes_of(grid(cfg.entries@.take(0), fs)));
        assert(accepted_raw@ =~= accepted_of(successes@, lo, hi));
    }
    let mut i: usize = 0;
    while i < cfg.entries.len()
        invariant
            i <= cfg.entries@.len(),
            successes@ == successes_of(grid(cfg.entries@.take(i as int), fs)),
            successes@.len() + error_count == grid(cfg.entries@.take(i as int), fs).len(),
            error_count <= grid(cfg.entries@.take(i as int), fs).len(),
            forall|k: int| 0 <= k < successes@.len() ==> (#[trigger] successes@[k]).wf(),
            accepted_raw@ == accepted_of(successes@, lo, hi),
            forall|k: int| 0 <= k < accepted_raw@.len() ==> (#[trigger] accepted_raw@[k]).wf(),
        decreases cfg.entries@.len() - i,
    {
        let entry_n = cfg.entries[i].n;
        let entry_w = cfg.entries[i].w;
        let ghost roots = cfg.entries@[i as int].roots@;
        let ghost gpre = grid(cfg.entries@.take(i as int), fs);
        proof {
            lemma_grid_len(cfg.entries@.take(i as int), fs);
        }
        let num_roots = cfg.entries[i].roots.len();
        let mut j: usize = 0;
        while j < num_roots
            invariant
                j <= roots.len(),
                num_roots == roots.len(),
                entry_n == cfg.entries@[i as int].n,
                entry_w == cfg.entries@[i as int].w,
                roots == cfg.entries@[i as int].roots@,
                successes@ == successes_of(gpre + roots_block(entry_n, entry_w, roots.take(j as int), fs)),
                successes@.len() + error_count == (gpre + roots_block(
                    entry_n,
                    entry_w,
                    roots.take(j as int),
                    fs,
                )).len(),
                forall|k: int| 0 <= k < successes@.len() ==> (#[trigger] successes@[k]).wf(),
                accepted_raw@ == accepted_of(successes@, lo, hi),
                forall|k: int| 0 <= k < accepted_raw@.len() ==> (#[trigger] accepted_raw@[k]).wf(),
            decreases roots.len() - j,
        {
            let root = cfg.entries[i].roots[j];
            let ghost bpre = roots_block(entry_n, entry_w, roots.take(j as int), fs);
            proof {
                lemma_roots_block_len(entry_n, entry_w, roots.take(j as int), fs);
                lemma_grid_len(cfg.entries@.take(i as int), fs);
                assert(roots.take(j as int).len() * fs.len() <= 0x10000 * 0x10000)
                    by (nonlinear_arith)
                    requires
                        roots.take(j as int).len() <= 0x10000,
                        fs.len() <= 0x10000,
                ;
            }
            let num_fs = cfg.fold_factors.len();
            let mut k: usize = 0;
            while k < num_fs
                invariant
                    k <= fs.len(),
                    num_fs == fs.len(),
                    entry_n == cfg.entries@[i as int].n,
                    entry_w == cfg.entries@[i as int].w,
                    roots == cfg.entries@[i as int].roots@,
                    j < roots.len(),
                    root == roots[j as int],
                    successes@ == successes_of(
                        gpre + bpre + fs_row(entry_n, root, entry_w, fs.take(k as int)),
                    ),
                    successes@.len() + error_count == (gpre + bpre + fs_row(
                        entry_n,
                        root,
                        entry_w,
                        fs.take(k as int),
                    )).len(),
                    forall|kk: int| 0 <= kk < successes@.len() ==> (#[trigger] successes@[kk]).wf(),
                    accepted_raw@ == accepted_of(successes@, lo, hi),
                    forall|kk: int|
                        0 <= kk < accepted_raw@.len() ==> (#[trigger] accepted_raw@[kk]).wf(),
                decreases fs.len() - k,
            {
                let f = cfg.fold_factors[k];
                let ghost g = GridPoint { n: entry_n, r: root, f, w: entry_w };
                let ghost row_pre = fs_row(entry_n, root, entry_w, fs.take(k as int));
                proof {
                    assert(fs_row(entry_n, root, entry_w, fs.take(k as int + 1)) =~= row_pre.push(
                        g,
                    ));
                    assert(gpre + bpre + row_pre.push(g) =~= (gpre + bpre + row_pre) + seq![g]);
                    lemma_successes_app(gpre + bpre + row_pre, seq![g]);
                    lemma_successes_single(g);
                }
                match calculate(entry_n, root, f, entry_w) {
                    Ok(wells) => {
                        let s = score_layout(entry_n, root, f, entry_w, &wells);
                        proof {
                            crate::solution::lemma_count_zero_le(wells@);
                            assert(s == success_of(g));
                            assert(s.wf());
                        }
                        let ghost succ_pre = successes@;
                        successes.push(s);
                        proof {
                            assert(successes@ =~= succ_pre + seq![s]);
                            assert(successes@ == successes_of(
                                gpre + bpre + fs_row(entry_n, root, entry_w, fs.take(k as int + 1)),
                            ));
                            lemma_accepted_push(succ_pre, s, lo, hi);
                            assert(succ_pre.push(s) =~= successes@);
                        }
                        let in_band = accept_check(&s, cfg.accept_lo, cfg.accept_hi);
                        if in_band {
                            accepted_raw.push(s);
                            proof {
                                assert(accepted_raw@ =~= accepted_of(succ_pre, lo, hi) + seq![s]);
                                assert(accepted_raw@ == accepted_of(successes@, lo, hi));
                            }
                        } else {
                            proof {
                                assert(accepted_raw@ == accepted_of(successes@, lo, hi));
                            }
                        }
                    },
                    Err(_e) => {
                        proof {
                            assert(!point_ok(g));
                            assert(successes@ == successes_of(
                                gpre + bpre + fs_row(entry_n, root, entry_w, fs.take(k as int + 1)),
                            ));
                            lemma_grid_len(cfg.entries@.take(i as int), fs);
                            assert((gpre + bpre + row_pre).len() < 0x20000000000000)
                                by (nonlinear_arith)
                                requires
                                    gpre.len() <= cfg.entries@.take(i as int).len()
                                        * 0x100000000,
                                    cfg.entries@.take(i as int).len() <= 0x10000,
                                    bpre.len() <= 0x10000 * 0x10000,
                                    row_pre.len() <= 0x10000,
                            ;
                        }
                        error_count += 1;
                    },
                }
                k += 1;
            }
            j += 1;
            proof {
                assert(fs.take(fs.len() as int) =~= fs);
                assert(roots_block(entry_n, entry_w, roots.take(j as int), fs) =~= bpre + fs_row(
                    entry_n,
                    root,
                    entry_w,
                    fs,
                )) by {
                    assert(roots.take(j as int).drop_last() =~= roots.take(j as int - 1));
                    assert(roots.take(j as int).last() == roots[j as int - 1]);
                }
                assert(gpre + (bpre + fs_row(entry_n, root, entry_w, fs)) =~= (gpre + bpre)
                    + fs_row(entry_n, root, entry_w, fs));
            }
        }
        i += 1;
        proof {
            assert(roots.take(roots.len() as int) =~= roots);
            assert(grid(cfg.entries@.take(i as int), fs) =~= gpre + roots_block(
                entry_n,
                entry_w,
                roots,
                fs,
            )) by {
                assert(cfg.entries@.take(i as int).drop_last() =~= cfg.entries@.take(i as int - 1));
                assert(cfg.entries@.take(i as int).last() == cfg.entries@[i as int - 1]);
            }
        }
    }
    proof {
        assert(cfg.entries@.take(cfg.entries@.len() as int) =~= cfg.entries@);
    }
    let accepted = sort_solutions(accepted_raw);
    SweepOutcome { accepted, successes, error_count }
}

/// Decides whether a solution's zero percentage lies in `[lo, hi]` percent.
fn accept_check(s: &Solution, lo: u32, hi: u32) -> (r: bool)
    requires
        s.wf(),
    ensures
        r == accepted_pred(*s, lo as int, hi as int),
{
    proof {
        assert((lo as int) * (s.well_count as int) <= 0x100000000 * 46340 && (hi as int)
            * (s.well_count as int) <= 0x100000000 * 46340) by (nonlinear_arith)
            requires
                lo <= u32::MAX,
                hi <= u32::MAX,
                s.well_count <= 46340,
        ;
    }
    let lw: u64 = (lo as u64) * (s.well_count as u64);
    let hw: u64 = (hi as u64) * (s.well_count as u64);
    let zz: u64 = 100 * (s.zero_wells as u64);
    lw <= zz && zz <= hw
}

} // verus!
