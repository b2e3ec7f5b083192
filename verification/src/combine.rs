//! The solution combiner: searches multisets of scored layouts whose widths
//! sum into a target band, aggregates their statistics exactly, and ranks
//! the results by worst-case height and distance from the preferred centre.

use vstd::prelude::*;
use vstd::math::abs;
use vstd::arithmetic::mul::lemma_mul_inequality;
use vstd::arithmetic::div_mod::lemma_fundamental_div_mod;
use crate::ratio::Ratio;
use crate::solution::Solution;

verus! {

/// Configuration of the combination search.
#[derive(Clone, Copy, PartialEq, Eq, Structural, Debug)]
pub struct CombineConfig {
    /// Minimum width a solution must have to participate.
    pub threshold: u32,
    /// Lower edge of the target total-width band.
    pub band_lo: u32,
    /// Upper edge of the target total-width band.
    pub band_hi: u32,
    /// Preferred total width, used as the ranking tie-break.
    pub center: u32,
}

impl CombineConfig {
    /// Bounds keep every cross-multiplied width comparison inside `u64`.
    pub open spec fn wf(self) -> bool {
        &&& 1 <= self.threshold <= 1000000
        &&& self.band_lo <= self.band_hi <= 1000000
        &&& self.center <= 1000000
    }
}

/// A multiset of solutions (members with repeat counts) whose total width
/// lies in the target band, with exact aggregates.
#[derive(Clone, Debug, PartialEq)]
pub struct CombinedSolution {
    /// The distinct member solutions with their repeat counts.
    pub members: Vec<(Solution, usize)>,
    /// Maximum `max_build_height` over the member solutions.
    pub combined_max_height: i32,
    /// Exact total width: the sum of each member's width times its count.
    pub total_width: Ratio,
    /// Total zero-build-height wells over all repeats.
    pub zero_wells: u64,
    /// Total wells over all repeats.
    pub total_wells: u64,
}

impl CombinedSolution {
    /// The combined zero percentage, as the exact rational
    /// `100 * zero_wells / total_wells`.
    pub fn combined_zero_percentage(&self) -> (p: Ratio)
        requires
            1 <= self.total_wells,
            self.zero_wells <= self.total_wells,
            self.total_wells <= 0x100000000,
        ensures
            p == (Ratio { num: (100 * self.zero_wells) as u64, den: self.total_wells }),
            p.wf(),
    {
        Ratio { num: 100 * self.zero_wells, den: self.total_wells }
    }
}

/// A solution is combinable when its width reaches the threshold.
pub open spec fn combinable(s: Solution, threshold: int) -> bool {
    s.w.ge_int(threshold)
}

/// `tw` lies inside the band `[lo, hi]`.
pub open spec fn in_band(tw: Ratio, lo: int, hi: int) -> bool {
    lo * tw.den <= tw.num <= hi * tw.den
}

/// Width of `cnt` copies of `s`.
pub open spec fn homo_width(s: Solution, cnt: int) -> Ratio {
    Ratio { num: (cnt * s.w.num) as u64, den: s.w.den }
}

/// Width of `c1` copies of `s1` plus `c2` copies of `s2`, over the common
/// denominator.
pub open spec fn pair_width(s1: Solution, c1: int, s2: Solution, c2: int) -> Ratio {
    Ratio {
        num: (c1 * s1.w.num * s2.w.den + c2 * s2.w.num * s1.w.den) as u64,
        den: (s1.w.den * s2.w.den) as u64,
    }
}

/// Magnitude bounds on a combined total width; they keep the ranking's
/// cross-multiplications inside `u128`.
pub open spec fn width_bounds(c: CombinedSolution) -> bool {
    &&& c.total_width.wf()
    &&& c.total_width.num <= 0x400000000000
    &&& c.total_width.den <= 0x10000000000
}

/// Shape of a valid combination: one or two members, aggregates computed
/// exactly from them, and the maximum height equal to the members' maximum.
pub open spec fn combined_wf(c: CombinedSolution) -> bool {
    &&& width_bounds(c)
    &&& (if c.members@.len() == 1 {
        {
            let s = c.members@[0].0;
            let cnt = c.members@[0].1 as int;
            &&& s.wf()
            &&& c.combined_max_height == s.max_build_height
            &&& c.zero_wells == s.zero_wells * cnt
            &&& c.total_wells == s.well_count * cnt
            &&& c.total_width == homo_width(s, cnt)
        }
    } else {
        {
            let s1 = c.members@[0].0;
            let c1 = c.members@[0].1 as int;
            let s2 = c.members@[1].0;
            let c2 = c.members@[1].1 as int;
            &&& c.members@.len() == 2
            &&& s1.wf()
            &&& s2.wf()
            &&& c1 <= 20
            &&& c2 <= 20
            &&& c1 + c2 >= 2
            &&& c.combined_max_height == vstd::math::max(
                s1.max_build_height as int,
                s2.max_build_height as int,
            )
            &&& c.zero_wells == s1.zero_wells * c1 + s2.zero_wells * c2
            &&& c.total_wells == s1.well_count * c1 + s2.well_count * c2
            &&& c.total_width == pair_width(s1, c1, s2, c2)
        }
    })
}

/// Every member solution of `ms` comes from the pool.
pub open spec fn members_from(ms: Seq<(Solution, usize)>, pool: Seq<Solution>) -> bool {
    forall|m: int| 0 <= m < ms.len() ==> pool.contains((#[trigger] ms[m]).0)
}

/// Ranking of combinations: lower combined height first, then total width
/// closer to the preferred centre (compared exactly).
pub open spec fn comb_le(a: CombinedSolution, b: CombinedSolution, center: int) -> bool {
    a.combined_max_height < b.combined_max_height || (a.combined_max_height
        == b.combined_max_height && abs(a.total_width.num - center * a.total_width.den)
        * b.total_width.den <= abs(b.total_width.num - center * b.total_width.den)
        * a.total_width.den)
}

/// The ranking is total.
pub proof fn lemma_comb_le_total(a: CombinedSolution, b: CombinedSolution, center: int)
    ensures
        comb_le(a, b, center) || comb_le(b, a, center),
{
}

/// The ranking is transitive.
pub proof fn lemma_comb_le_trans(
    a: CombinedSolution,
    b: CombinedSolution,
    c: CombinedSolution,
    center: int,
)
    requires
        a.total_width.wf(),
        b.total_width.wf(),
        c.total_width.wf(),
        comb_le(a, b, center),
        comb_le(b, c, center),
    ensures
        comb_le(a, c, center),
{
    if a.combined_max_height == b.combined_max_height && b.combined_max_height
        == c.combined_max_height {
        let da = abs(a.total_width.num - center * a.total_width.den) as int;
        let db = abs(b.total_width.num - center * b.total_width.den) as int;
        let dc = abs(c.total_width.num - center * c.total_width.den) as int;
        assert(da * c.total_width.den <= dc * a.total_width.den) by (nonlinear_arith)
            requires
                da * b.total_width.den <= db * a.total_width.den,
                db * c.total_width.den <= dc * b.total_width.den,
                da >= 0,
                db >= 0,
                dc >= 0,
                a.total_width.den >= 1,
                b.total_width.den >= 1,
                c.total_width.den >= 1,
        ;
    }
}

/// Decides `comb_le` executably.
pub fn comb_le_exec(a: &CombinedSolution, b: &CombinedSolution, center: u32) -> (r: bool)
    requires
        width_bounds(*a),
        width_bounds(*b),
        center <= 1000000,
    ensures
        r == comb_le(*a, *b, center as int),
{
    if a.combined_max_height < b.combined_max_height {
        true
    } else if a.combined_max_height == b.combined_max_height {
        proof {
            assert((center as int) * (a.total_width.den as int) <= 0x4000000000000000
                && (center as int) * (b.total_width.den as int) <= 0x4000000000000000)
                by (nonlinear_arith)
                requires
                    center <= 1000000,
                    a.total_width.den <= 0x10000000000,
                    b.total_width.den <= 0x10000000000,
            ;
        }
        let ca: u64 = (center as u64) * a.total_width.den;
        let cb: u64 = (center as u64) * b.total_width.den;
        let da: u64 = if a.total_width.num >= ca {
            a.total_width.num - ca
        } else {
            ca - a.total_width.num
        };
        let db: u64 = if b.total_width.num >= cb {
            b.total_width.num - cb
        } else {
            cb - b.total_width.num
        };
        proof {
            assert(da == abs(a.total_width.num - (center as int) * a.total_width.den));
            assert(db == abs(b.total_width.num - (center as int) * b.total_width.den));
            assert((da as int) * (b.total_width.den as int) <= 0x100000000000000000000000000
                && (db as int) * (a.total_width.den as int) <= 0x100000000000000000000000000)
                by (nonlinear_arith)
                requires
                    da <= u64::MAX,
                    db <= u64::MAX,
                    a.total_width.den <= 0x10000000000,
                    b.total_width.den <= 0x10000000000,
            ;
        }
        (da as u128) * (b.total_width.den as u128) <= (db as u128) * (a.total_width.den as u128)
    } else {
        false
    }
}

/// Sorts combinations by `comb_le`: the result is ordered and holds the same
/// combinations (as a multiset) as the input.
pub fn sort_combined(v: Vec<CombinedSolution>, center: u32) -> (out: Vec<CombinedSolution>)
    requires
        center <= 1000000,
        forall|i: int| 0 <= i < v@.len() ==> width_bounds(#[trigger] v@[i]),
    ensures
        out@.len() == v@.len(),
        out@.to_multiset() == v@.to_multiset(),
        forall|i: int, j: int|
            0 <= i < j < out@.len() ==> comb_le(out@[i], out@[j], center as int),
{
    broadcast use vstd::seq_lib::group_seq_properties;

    let mut rem = v;
    let mut out: Vec<CombinedSolution> = Vec::new();
    proof {
        assert(out@.to_multiset().add(rem@.to_multiset()) =~= v@.to_multiset());
    }
    while rem.len() > 0
        invariant
            center <= 1000000,
            forall|i: int| 0 <= i < rem@.len() ==> width_bounds(#[trigger] rem@[i]),
            forall|i: int| 0 <= i < out@.len() ==> width_bounds(#[trigger] out@[i]),
            out@.to_multiset().add(rem@.to_multiset()) == v@.to_multiset(),
            out@.len() + rem@.len() == v@.len(),
            forall|i: int, j: int|
                0 <= i < j < out@.len() ==> comb_le(out@[i], out@[j], center as int),
            forall|i: int, j: int|
                0 <= i < out@.len() && 0 <= j < rem@.len() ==> comb_le(
                    #[trigger] out@[i],
                    #[trigger] rem@[j],
                    center as int,
                ),
        decreases rem@.len(),
    {
        let mut best: usize = 0;
        let mut k: usize = 1;
        while k < rem.len()
            invariant
                center <= 1000000,
                forall|i: int| 0 <= i < rem@.len() ==> width_bounds(#[trigger] rem@[i]),
                rem@.len() > 0,
                best < k <= rem@.len(),
                forall|j: int|
                    0 <= j < k ==> comb_le(rem@[best as int], #[trigger] rem@[j], center as int),
            decreases rem@.len() - k,
        {
            if !comb_le_exec(&rem[best], &rem[k], center) {
                proof {
                    lemma_comb_le_total(rem@[best as int], rem@[k as int], center as int);
                    assert forall|j: int| 0 <= j < k + 1 implies comb_le(
                        rem@[k as int],
                        #[trigger] rem@[j],
                        center as int,
                    ) by {
                        if j < k {
                            lemma_comb_le_trans(
                                rem@[k as int],
                                rem@[best as int],
                                rem@[j],
                                center as int,
                            );
                        }
                    }
                }
                best = k;
            }
            k += 1;
        }
        let ghost rem_pre = rem@;
        let ghost out_pre = out@;
        let ghost picked = rem@[best as int];
        let x = rem.remove(best);
        out.push(x);
        proof {
            rem_pre.to_multiset_ensures();
            out_pre.to_multiset_ensures();
            assert(out@ == out_pre.push(x));
            assert(out@.to_multiset() == out_pre.to_multiset().insert(x));
            assert(rem@.to_multiset() == rem_pre.to_multiset().remove(picked));
            assert(rem_pre.to_multiset().count(picked) > 0) by {
                assert(rem_pre.contains(picked));
            }
            assert(out@.to_multiset().add(rem@.to_multiset()) =~= v@.to_multiset());
            assert forall|i: int, j: int|
                0 <= i < out@.len() && 0 <= j < rem@.len() implies comb_le(
                #[trigger] out@[i],
                #[trigger] rem@[j],
                center as int,
            ) by {
                if j < best {
                    assert(rem@[j] == rem_pre[j]);
                } else {
                    assert(rem@[j] == rem_pre[j + 1]);
                }
                if i == out@.len() - 1 {
                    assert(out@[i] == picked);
                }
            }
        }
    }
    out
}

/// An element of one sequence with the same multiset is in the other.
proof fn lemma_multiset_carries(
    a: Seq<CombinedSolution>,
    b: Seq<CombinedSolution>,
    x: CombinedSolution,
)
    requires
        a.to_multiset() == b.to_multiset(),
        a.contains(x),
    ensures
        b.contains(x),
{
    a.to_multiset_ensures();
    b.to_multiset_ensures();
    assert(a.to_multiset().count(x) > 0);
}

/// `cnt` copies of `s` land in the band `[lo, hi]` (stated without casts).
pub open spec fn homo_in_band(s: Solution, cnt: int, lo: int, hi: int) -> bool {
    lo * s.w.den <= cnt * s.w.num <= hi * s.w.den
}

/// A homogeneous combination the search owes an entry for.
pub open spec fn homo_guard(pool: Seq<Solution>, cfg: CombineConfig, idx: int, cnt: int) -> bool {
    &&& 0 <= idx < pool.len()
    &&& combinable(pool[idx], cfg.threshold as int)
    &&& 0 <= cnt
    &&& homo_in_band(pool[idx], cnt, cfg.band_lo as int, cfg.band_hi as int)
}

/// `out` holds an entry of `cnt` copies of `pool[idx]`.
pub open spec fn has_homo(
    out: Seq<CombinedSolution>,
    pool: Seq<Solution>,
    idx: int,
    cnt: int,
) -> bool {
    exists|k: int|
        0 <= k < out.len() && (#[trigger] out[k]).members@ == seq![(pool[idx], cnt as usize)]
}

/// A pairwise combination the search owes an entry for.
pub open spec fn pair_guard(
    pool: Seq<Solution>,
    cfg: CombineConfig,
    i: int,
    j: int,
    c1: int,
    c2: int,
) -> bool {
    &&& 0 <= i < j < pool.len()
    &&& combinable(pool[i], cfg.threshold as int)
    &&& combinable(pool[j], cfg.threshold as int)
    &&& 0 <= c1 <= 20
    &&& 0 <= c2 <= 20
    &&& c1 + c2 >= 2
    &&& cfg.band_lo * (pool[i].w.den * pool[j].w.den) <= c1 * pool[i].w.num * pool[j].w.den + c2
        * pool[j].w.num * pool[i].w.den <= cfg.band_hi * (pool[i].w.den * pool[j].w.den)
}

/// `out` holds an entry of `c1` copies of `pool[i]` and `c2` of `pool[j]`.
pub open spec fn has_pair(
    out: Seq<CombinedSolution>,
    pool: Seq<Solution>,
    i: int,
    j: int,
    c1: int,
    c2: int,
) -> bool {
    exists|k: int|
        0 <= k < out.len() && (#[trigger] out[k]).members@ == seq![
            (pool[i], c1 as usize),
            (pool[j], c2 as usize),
        ]
}

/// Every entry of `out` is a valid, in-band combination of pool members.
pub open spec fn all_valid(
    out: Seq<CombinedSolution>,
    pool: Seq<Solution>,
    cfg: CombineConfig,
) -> bool {
    forall|k: int|
        0 <= k < out.len() ==> combined_wf(#[trigger] out[k]) && in_band(
            out[k].total_width,
            cfg.band_lo as int,
            cfg.band_hi as int,
        ) && members_from(out[k].members@, pool)
}

/// Every owed homogeneous entry for pool indices below `i` is present.
pub open spec fn homo_done_upto(
    out: Seq<CombinedSolution>,
    pool: Seq<Solution>,
    cfg: CombineConfig,
    i: int,
) -> bool {
    forall|idx: int, cnt: int|
        idx < i && #[trigger] homo_guard(pool, cfg, idx, cnt) ==> has_homo(out, pool, idx, cnt)
}

/// Every owed pairwise entry before position `(i, j)` of the scan is present.
pub open spec fn pair_done_upto(
    out: Seq<CombinedSolution>,
    pool: Seq<Solution>,
    cfg: CombineConfig,
    i: int,
    j: int,
) -> bool {
    forall|a: int, b: int, c1: int, c2: int|
        (a < i || (a == i && b < j)) && #[trigger] pair_guard(pool, cfg, a, b, c1, c2)
            ==> has_pair(out, pool, a, b, c1, c2)
}

/// Searches combinations of the given solutions whose total widths land in
/// the configured band.
///
/// Two bounded strategies, as the search defines them: repeats of one
/// combinable solution, and mixed pairs of two distinct combinable solutions
/// with each repeat count in `[0, 20]` (at least two members in all, with the
/// inner count scan pruned once the width passes the band, which the width's
/// monotone growth makes lossless). The result is exactly the owed entries —
/// every returned combination is valid and in band, every owed one is
/// present — ranked by `comb_le` around the configured centre.
#[verifier::loop_isolation(false)]
pub fn find_combined_solutions(solutions: &Vec<Solution>, cfg: CombineConfig) -> (out: Vec<
    CombinedSolution,
>)
    requires
        forall|i: int| 0 <= i < solutions@.len() ==> (#[trigger] solutions@[i]).wf(),
        cfg.wf(),
    ensures
        all_valid(out@, solutions@, cfg),
        forall|idx: int, cnt: int|
            #[trigger] homo_guard(solutions@, cfg, idx, cnt) ==> has_homo(
                out@,
                solutions@,
                idx,
                cnt,
            ),
        forall|i: int, j: int, c1: int, c2: int|
            #[trigger] pair_guard(solutions@, cfg, i, j, c1, c2) ==> has_pair(
                out@,
                solutions@,
                i,
                j,
                c1,
                c2,
            ),
        forall|i: int, j: int|
            0 <= i < j < out@.len() ==> comb_le(out@[i], out@[j], cfg.center as int),
{
    broadcast use vstd::seq_lib::group_seq_properties;

    let ghost pool = solutions@;
    let lo64: u64 = cfg.band_lo as u64;
    let hi64: u64 = cfg.band_hi as u64;
    let mut found: Vec<CombinedSolution> = Vec::new();

    let mut i: usize = 0;
    while i < solutions.len()
        invariant
            i <= pool.len(),
            all_valid(found@, pool, cfg),
            homo_done_upto(found@, pool, cfg, i as int),
        decreases pool.len() - i,
    {
        let s = solutions[i];
        if s.w.ge(cfg.threshold as i64) {
            proof {
                assert(s.w.num >= s.w.den && s.w.num >= 1 && lo64 * s.w.den <= 0x10000000000
                    && hi64 * s.w.den <= 0x10000000000) by (nonlinear_arith)
                    requires
                        s.w.num >= cfg.threshold * s.w.den,
                        1 <= cfg.threshold,
                        1 <= s.w.den <= 0x100000,
                        lo64 <= 1000000,
                        hi64 <= 1000000,
                ;
            }
            let lod: u64 = lo64 * s.w.den;
            let hid: u64 = hi64 * s.w.den;
            let min_c: u64 = (lod + s.w.num - 1) / s.w.num;
            let max_c: u64 = hid / s.w.num;
            proof {
                lemma_fundamental_div_mod(lod as int + s.w.num - 1, s.w.num as int);
                lemma_fundamental_div_mod(hid as int, s.w.num as int);
                vstd::arithmetic::div_mod::lemma_mod_bound(lod as int + s.w.num - 1, s.w.num as int);
                vstd::arithmetic::div_mod::lemma_mod_bound(hid as int, s.w.num as int);
                lemma_mul_inequality(lo64 as int, hi64 as int, s.w.den as int);
                assert(min_c <= max_c + 1) by (nonlinear_arith)
                    requires
                        s.w.num >= 1,
                        s.w.num * min_c <= lod + s.w.num - 1,
                        hid <= s.w.num * max_c + s.w.num - 1,
                        lod <= hid,
                ;
            }
            let mut cnt: u64 = min_c;
            while cnt <= max_c
                invariant
                    min_c <= cnt <= max_c + 1,
                    all_valid(found@, pool, cfg),
                    homo_done_upto(found@, pool, cfg, i as int),
                    forall|c: int|
                        min_c <= c < cnt && #[trigger] homo_in_band(
                            s,
                            c,
                            cfg.band_lo as int,
                            cfg.band_hi as int,
                        ) ==> has_homo(found@, pool, i as int, c),
                decreases max_c + 1 - cnt,
            {
                proof {
                    lemma_mul_inequality(cnt as int, max_c as int, s.w.num as int);
                    lemma_mul_inequality(max_c as int, hid as int, s.w.num as int);
                    assert(max_c * s.w.num <= hid);
                }
                let twn: u64 = cnt * s.w.num;
                if twn >= lod && twn <= hid {
                    proof {
                        assert(cnt <= hi64) by (nonlinear_arith)
                            requires
                                cnt * s.w.num <= hi64 * s.w.den,
                                s.w.num >= s.w.den >= 1,
                                cnt >= 0,
                        ;
                        assert((s.zero_wells as int) * (cnt as int) <= 46340 * 1000000
                            && (s.well_count as int) * (cnt as int) <= 46340 * 1000000)
                            by (nonlinear_arith)
                            requires
                                s.zero_wells <= 46340,
                                s.well_count <= 46340,
                                0 <= cnt <= 1000000,
                        ;
                    }
                    let mut ms: Vec<(Solution, usize)> = Vec::new();
                    ms.push((s, cnt as usize));
                    let combo = CombinedSolution {
                        members: ms,
                        combined_max_height: s.max_build_height,
                        total_width: Ratio { num: twn, den: s.w.den },
                        zero_wells: (s.zero_wells as u64) * cnt,
                        total_wells: (s.well_count as u64) * cnt,
                    };
                    let ghost found_pre = found@;
                    found.push(combo);
                    proof {
                        assert(combo.members@ =~= seq![(pool[i as int], cnt as usize)]);
                        assert(combined_wf(combo));
                        assert(members_from(combo.members@, pool)) by {
                            assert(pool[i as int] == combo.members@[0].0);
                        }
                        assert(found@ == found_pre.push(combo));
                        assert forall|k: int| 0 <= k < found@.len() implies combined_wf(
                            #[trigger] found@[k],
                        ) && in_band(found@[k].total_width, cfg.band_lo as int, cfg.band_hi as int)
                            && members_from(found@[k].members@, pool) by {
                            if k < found_pre.len() {
                                assert(found@[k] == found_pre[k]);
                            }
                        }
                        assert forall|idx: int, cnt2: int|
                            idx < i as int && #[trigger] homo_guard(pool, cfg, idx, cnt2)
                                implies has_homo(found@, pool, idx, cnt2) by {
                            let k = choose|k: int|
                                0 <= k < found_pre.len() && (#[trigger] found_pre[k]).members@
                                    == seq![(pool[idx], cnt2 as usize)];
                            assert(found@[k].members@ == seq![(pool[idx], cnt2 as usize)]);
                        }
                        assert(found@[found@.len() - 1].members@ == seq![
                            (pool[i as int], cnt as usize),
                        ]);
                        assert forall|c: int|
                            min_c <= c < cnt + 1 && #[trigger] homo_in_band(
                                s,
                                c,
                                cfg.band_lo as int,
                                cfg.band_hi as int,
                            ) implies has_homo(found@, pool, i as int, c) by {
                            if c < cnt {
                                let k = choose|k: int|
                                    0 <= k < found_pre.len() && (#[trigger] found_pre[k]).members@
                                        == seq![(pool[i as int], c as usize)];
                                assert(found@[k].members@ == seq![(pool[i as int], c as usize)]);
                            } else {
                                assert(found@[found@.len() - 1].members@ == seq![
                                    (pool[i as int], c as usize),
                                ]);
                            }
                        }
                    }
                }
                cnt += 1;
            }
            proof {
                assert forall|c: int|
                    0 <= c && #[trigger] homo_in_band(s, c, cfg.band_lo as int, cfg.band_hi as int)
                    implies min_c <= c <= max_c by {
                    if c < min_c {
                        assert(c * s.w.num < lod) by (nonlinear_arith)
                            requires
                                0 <= c <= min_c - 1,
                                s.w.num >= 1,
                                s.w.num * min_c <= lod + s.w.num - 1,
                        ;
                    }
                    if c > max_c {
                        assert(c * s.w.num > hid) by (nonlinear_arith)
                            requires
                                c >= max_c + 1,
                                s.w.num >= 1,
                                hid <= s.w.num * max_c + s.w.num - 1,
                        ;
                    }
                }
            }
        }
        i += 1;
        proof {
            assert forall|idx: int, cnt2: int|
                idx < i as int && #[trigger] homo_guard(pool, cfg, idx, cnt2) implies has_homo(
                found@,
                pool,
                idx,
                cnt2,
            ) by {
                if idx == i as int - 1 {
                    assert(homo_in_band(pool[idx], cnt2, cfg.band_lo as int, cfg.band_hi as int));
                }
            }
        }
    }

    let mut i: usize = 0;
    while i < solutions.len()
        invariant
            i <= pool.len(),
            all_valid(found@, pool, cfg),
            homo_done_upto(found@, pool, cfg, pool.len() as int),
            pair_done_upto(found@, pool, cfg, i as int, 0),
        decreases pool.len() - i,
    {
        let s1 = solutions[i];
        if s1.w.ge(cfg.threshold as i64) {
            let mut j: usize = i + 1;
            while j < solutions.len()
                invariant
                    i < j <= pool.len(),
                    all_valid(found@, pool, cfg),
                    homo_done_upto(found@, pool, cfg, pool.len() as int),
                    pair_done_upto(found@, pool, cfg, i as int, j as int),
                decreases pool.len() - j,
            {
                let s2 = solutions[j];
                if s2.w.ge(cfg.threshold as i64) {
                    proof {
                        assert(1 <= s1.w.den * s2.w.den <= 0x10000000000 && s1.w.num * s2.w.den
                            <= 0x10000000000 && s2.w.num * s1.w.den <= 0x10000000000)
                            by (nonlinear_arith)
                            requires
                                1 <= s1.w.den <= 0x100000,
                                1 <= s2.w.den <= 0x100000,
                                s1.w.num <= 0x100000,
                                s2.w.num <= 0x100000,
                        ;
                        assert(lo64 * (s1.w.den * s2.w.den) <= 0x1000000000000000 && hi64 * (
                        s1.w.den * s2.w.den) <= 0x1000000000000000) by (nonlinear_arith)
                            requires
                                1 <= s1.w.den * s2.w.den <= 0x10000000000,
                                lo64 <= 1000000,
                                hi64 <= 1000000,
                        ;
                    }
                    let d12: u64 = s1.w.den * s2.w.den;
                    let a1: u64 = s1.w.num * s2.w.den;
                    let a2: u64 = s2.w.num * s1.w.den;
                    let lod: u64 = lo64 * d12;
                    let hid: u64 = hi64 * d12;
                    let mut c1: u64 = 0;
                    while c1 <= 20
                        invariant
                            c1 <= 21,
                            all_valid(found@, pool, cfg),
                            homo_done_upto(found@, pool, cfg, pool.len() as int),
                            pair_done_upto(found@, pool, cfg, i as int, j as int),
                            forall|cc1: int, cc2: int|
                                cc1 < c1 && #[trigger] pair_guard(
                                    pool,
                                    cfg,
                                    i as int,
                                    j as int,
                                    cc1,
                                    cc2,
                                ) ==> has_pair(found@, pool, i as int, j as int, cc1, cc2),
                        decreases 21 - c1,
                    {
                        let mut c2: u64 = 0;
                        let mut over = false;
                        while c2 <= 20 && !over
                            invariant
                                c2 <= 21,
                                all_valid(found@, pool, cfg),
                                homo_done_upto(found@, pool, cfg, pool.len() as int),
                                pair_done_upto(found@, pool, cfg, i as int, j as int),
                                forall|cc1: int, cc2: int|
                                    cc1 < c1 && #[trigger] pair_guard(
                                        pool,
                                        cfg,
                                        i as int,
                                        j as int,
                                        cc1,
                                        cc2,
                                    ) ==> has_pair(found@, pool, i as int, j as int, cc1, cc2),
                                forall|cc2: int|
                                    0 <= cc2 < c2 && #[trigger] pair_guard(
                                        pool,
                                        cfg,
                                        i as int,
                                        j as int,
                                        c1 as int,
                                        cc2,
                                    ) ==> has_pair(found@, pool, i as int, j as int, c1 as int, cc2),
                                over ==> c1 * a1 + c2 * a2 > hid,
                            decreases (if over { 0int } else { 1int }), 21 - c2,
                        {
                            proof {
                                assert(c1 * a1 <= 20 * 0x10000000000 && c2 * a2 <= 20
                                    * 0x10000000000) by (nonlinear_arith)
                                    requires
                                        0 <= c1 <= 20,
                                        0 <= c2 <= 20,
                                        0 <= a1 <= 0x10000000000,
                                        0 <= a2 <= 0x10000000000,
                                ;
                            }
                            let twn: u64 = c1 * a1 + c2 * a2;
                            if c1 + c2 >= 2 && twn > hid {
                                over = true;
                            } else {
                                if c1 + c2 >= 2 && twn >= lod && twn <= hid {
                                    proof {
                                        assert(s1.zero_wells * c1 <= 46340 * 20 && s2.zero_wells
                                            * c2 <= 46340 * 20 && s1.well_count * c1 <= 46340 * 20
                                            && s2.well_count * c2 <= 46340 * 20)
                                            by (nonlinear_arith)
                                            requires
                                                s1.zero_wells <= 46340,
                                                s2.zero_wells <= 46340,
                                                s1.well_count <= 46340,
                                                s2.well_count <= 46340,
                                                0 <= c1 <= 20,
                                                0 <= c2 <= 20,
                                        ;
                                    }
                                    let cmh = if s1.max_build_height >= s2.max_build_height {
                                        s1.max_build_height
                                    } else {
                                        s2.max_build_height
                                    };
                                    let mut ms: Vec<(Solution, usize)> = Vec::new();
                                    ms.push((s1, c1 as usize));
                                    ms.push((s2, c2 as usize));
                                    let combo = CombinedSolution {
                                        members: ms,
                                        combined_max_height: cmh,
                                        total_width: Ratio { num: twn, den: d12 },
                                        zero_wells: (s1.zero_wells as u64) * c1 + (s2.zero_wells
                                            as u64) * c2,
                                        total_wells: (s1.well_count as u64) * c1 + (s2.well_count
                                            as u64) * c2,
                                    };
                                    let ghost found_pre = found@;
                                    found.push(combo);
                                    proof {
                                        assert(c1 * s1.w.num * s2.w.den == c1 * (a1 as int) && c2
                                            * s2.w.num * s1.w.den == c2 * (a2 as int))
                                            by (nonlinear_arith)
                                            requires
                                                a1 == s1.w.num * s2.w.den,
                                                a2 == s2.w.num * s1.w.den,
                                        ;
                                        assert(combo.members@ =~= seq![
                                            (pool[i as int], c1 as usize),
                                            (pool[j as int], c2 as usize),
                                        ]);
                                        assert(combined_wf(combo));
                                        assert(members_from(combo.members@, pool)) by {
                                            assert(pool[i as int] == combo.members@[0].0);
                                            assert(pool[j as int] == combo.members@[1].0);
                                        }
                                        assert(found@ == found_pre.push(combo));
                                        assert forall|k: int| 0 <= k < found@.len() implies
                                            combined_wf(#[trigger] found@[k]) && in_band(
                                            found@[k].total_width,
                                            cfg.band_lo as int,
                                            cfg.band_hi as int,
                                        ) && members_from(found@[k].members@, pool) by {
                                            if k < found_pre.len() {
                                                assert(found@[k] == found_pre[k]);
                                            }
                                        }
                                        assert forall|idx: int, cnt2: int|
                                            idx < pool.len() as int && #[trigger] homo_guard(
                                                pool,
                                                cfg,
                                                idx,
                                                cnt2,
                                            ) implies has_homo(found@, pool, idx, cnt2) by {
                                            let k = choose|k: int|
                                                0 <= k < found_pre.len() && (#[trigger]
                                                found_pre[k]).members@ == seq![
                                                    (pool[idx], cnt2 as usize),
                                                ];
                                            assert(found@[k].members@ == seq![
                                                (pool[idx], cnt2 as usize),
                                            ]);
                                        }
                                        assert forall|a: int, b: int, cc1: int, cc2: int|
                                            (a < i as int || (a == i as int && b < j as int))
                                                && #[trigger] pair_guard(pool, cfg, a, b, cc1, cc2)
                                                implies has_pair(found@, pool, a, b, cc1, cc2) by {
                                            let k = choose|k: int|
                                                0 <= k < found_pre.len() && (#[trigger]
                                                found_pre[k]).members@ == seq![
                                                    (pool[a], cc1 as usize),
                                                    (pool[b], cc2 as usize),
                                                ];
                                            assert(found@[k].members@ == seq![
                                                (pool[a], cc1 as usize),
                                                (pool[b], cc2 as usize),
                                            ]);
                                        }
                                        assert forall|cc1: int, cc2: int|
                                            cc1 < c1 && #[trigger] pair_guard(
                                                pool,
                                                cfg,
                                                i as int,
                                                j as int,
                                                cc1,
                                                cc2,
                                            ) implies has_pair(
                                            found@,
                                            pool,
                                            i as int,
                                            j as int,
                                            cc1,
                                            cc2,
                                        ) by {
                                            let k = choose|k: int|
                                                0 <= k < found_pre.len() && (#[trigger]
                                                found_pre[k]).members@ == seq![
                                                    (pool[i as int], cc1 as usize),
                                                    (pool[j as int], cc2 as usize),
                                                ];
                                            assert(found@[k].members@ == seq![
                                                (pool[i as int], cc1 as usize),
                                                (pool[j as int], cc2 as usize),
                                            ]);
                                        }
                                        assert(found@[found@.len() - 1].members@ == seq![
                                            (pool[i as int], c1 as usize),
                                            (pool[j as int], c2 as usize),
                                        ]);
                                        assert forall|cc2: int|
                                            0 <= cc2 < c2 + 1 && #[trigger] pair_guard(
                                                pool,
                                                cfg,
                                                i as int,
                                                j as int,
                                                c1 as int,
                                                cc2,
                                            ) implies has_pair(
                                            found@,
                                            pool,
                                            i as int,
                                            j as int,
                                            c1 as int,
                                            cc2,
                                        ) by {
                                            if cc2 < c2 {
                                                let k = choose|k: int|
                                                    0 <= k < found_pre.len() && (#[trigger]
                                                    found_pre[k]).members@ == seq![
                                                        (pool[i as int], c1 as usize),
                                                        (pool[j as int], cc2 as usize),
                                                    ];
                                                assert(found@[k].members@ == seq![
                                                    (pool[i as int], c1 as usize),
                                                    (pool[j as int], cc2 as usize),
                                                ]);
                                            } else {
                                                assert(found@[found@.len() - 1].members@ == seq![
                                                    (pool[i as int], c1 as usize),
                                                    (pool[j as int], cc2 as usize),
                                                ]);
                                            }
                                        }
                                    }
                                }
                                proof {
                                    assert(c1 * s1.w.num * s2.w.den == c1 * (a1 as int) && c2
                                        * s2.w.num * s1.w.den == c2 * (a2 as int))
                                        by (nonlinear_arith)
                                        requires
                                            a1 == s1.w.num * s2.w.den,
                                            a2 == s2.w.num * s1.w.den,
                                    ;
                                }
                                c2 += 1;
                            }
                        }
                        proof {
                            assert forall|cc2: int|
                                0 <= cc2 <= 20 && #[trigger] pair_guard(
                                    pool,
                                    cfg,
                                    i as int,
                                    j as int,
                                    c1 as int,
                                    cc2,
                                ) implies has_pair(found@, pool, i as int, j as int, c1 as int, cc2)
                                by {
                                if cc2 >= c2 {
                                    if over {
                                        assert(c1 * s1.w.num * s2.w.den == c1 * (a1 as int) && cc2
                                            * s2.w.num * s1.w.den == cc2 * (a2 as int))
                                            by (nonlinear_arith)
                                            requires
                                                a1 == s1.w.num * s2.w.den,
                                                a2 == s2.w.num * s1.w.den,
                                        ;
                                        assert(c1 * a1 + c2 * a2 > hid);
                                        lemma_mul_inequality(c2 as int, cc2, a2 as int);
                                        assert(false);
                                    }
                                }
                            }
                            assert forall|cc1: int, cc2: int|
                                cc1 < c1 + 1 && #[trigger] pair_guard(
                                    pool,
                                    cfg,
                                    i as int,
                                    j as int,
                                    cc1,
                                    cc2,
                                ) implies has_pair(found@, pool, i as int, j as int, cc1, cc2) by {
                            }
                        }
                        c1 += 1;
                    }
                }
                j += 1;
                proof {
                    assert forall|a: int, b: int, cc1: int, cc2: int|
                        (a < i as int || (a == i as int && b < j as int)) && #[trigger] pair_guard(
                            pool,
                            cfg,
                            a,
                            b,
                            cc1,
                            cc2,
                        ) implies has_pair(found@, pool, a, b, cc1, cc2) by {
                    }
                }
            }
        }
        i += 1;
        proof {
            assert forall|a: int, b: int, cc1: int, cc2: int|
                (a < i as int || (a == i as int && b < 0)) && #[trigger] pair_guard(
                    pool,
                    cfg,
                    a,
                    b,
                    cc1,
                    cc2,
                ) implies has_pair(found@, pool, a, b, cc1, cc2) by {
            }
        }
    }

    let ghost found_all = found@;
    let out = sort_combined(found, cfg.center);
    proof {
        assert forall|k: int| 0 <= k < out@.len() implies combined_wf(#[trigger] out@[k])
            && in_band(out@[k].total_width, cfg.band_lo as int, cfg.band_hi as int)
            && members_from(out@[k].members@, pool) by {
            assert(out@.contains(out@[k]));
            lemma_multiset_carries(out@, found_all, out@[k]);
            let k2 = choose|k2: int| 0 <= k2 < found_all.len() && found_all[k2] == out@[k];
        }
        assert forall|idx: int, cnt: int|
            #[trigger] homo_guard(pool, cfg, idx, cnt) implies has_homo(out@, pool, idx, cnt) by {
            let k = choose|k: int|
                0 <= k < found_all.len() && (#[trigger] found_all[k]).members@ == seq![
                    (pool[idx], cnt as usize),
                ];
            assert(found_all.contains(found_all[k]));
            lemma_multiset_carries(found_all, out@, found_all[k]);
            let k2 = choose|k2: int| 0 <= k2 < out@.len() && out@[k2] == found_all[k];
            assert(out@[k2].members@ == seq![(pool[idx], cnt as usize)]);
        }
        assert forall|a: int, b: int, c1: int, c2: int|
            #[trigger] pair_guard(pool, cfg, a, b, c1, c2) implies has_pair(
            out@,
            pool,
            a,
            b,
            c1,
            c2,
        ) by {
            let k = choose|k: int|
                0 <= k < found_all.len() && (#[trigger] found_all[k]).members@ == seq![
                    (pool[a], c1 as usize),
                    (pool[b], c2 as usize),
                ];
            assert(found_all.contains(found_all[k]));
            lemma_multiset_carries(found_all, out@, found_all[k]);
            let k2 = choose|k2: int| 0 <= k2 < out@.len() && out@[k2] == found_all[k];
            assert(out@[k2].members@ == seq![(pool[a], c1 as usize), (pool[b], c2 as usize)]);
        }
    }
    out
}

} // verus!
