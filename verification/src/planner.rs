//! The fold planner: walks the wells strictly left to right and resolves each
//! well's height deficit by recording a fold on a neighbouring well.
//!
//! The walk order is part of the contract: each step may mutate a neighbour
//! that a later step reads, so the whole pass is modelled as a sequential
//! step function (`plan_step`) folded over the well indices (`plan_upto`),
//! and `calculate` is proved to return exactly that model's result.

use vstd::prelude::*;
use crate::ratio::Ratio;
use crate::depths::{
    depth_seq, max_depth, raw_of, seq_max_from, mod_exp,
    lemma_seq_max_from_ge, lemma_seq_max_from_push,
};

verus! {

/// The fold mark on a well: `Left(d)` means the well to its left folded a
/// depth of `d` into it, `Right(d)` the well to its right. A well hosts at
/// most one neighbour's fold.
#[derive(Clone, Copy, PartialEq, Eq, Structural, Debug)]
pub enum FoldState {
    Unset,
    Left(i32),
    Right(i32),
}

/// One position in a layout of `n - 1` wells.
#[derive(Clone, Copy, PartialEq, Eq, Structural, Debug)]
pub struct Well {
    /// `r^i mod n` for well index `i`.
    pub depth: i32,
    /// Maximum depth over the layout minus this well's depth.
    pub raw_height: i32,
    /// Which neighbour, if any, folded into this well, and how deep.
    pub fold: FoldState,
    /// Usable height once this well's own deficit is resolved.
    pub build_height: i32,
}

/// Why a plan failed. Every failure aborts the whole plan call.
#[derive(Clone, Copy, PartialEq, Eq, Structural, Debug)]
pub enum FoldError {
    /// The required fold depth does not fit inside any neighbour's width.
    FoldTooDeep { well: usize, required_depth: i32 },
    /// A boundary well's single neighbour already hosts a fold.
    NeighborAlreadyFolded { well: usize, neighbor: usize },
    /// A boundary well's single neighbour is not as wide as the well width.
    NeighborTooNarrow { well: usize, neighbor: usize },
    /// An interior well found both neighbours unavailable; the flags record
    /// which check failed on which side.
    NoAvailableNeighbor {
        well: usize,
        left_folded: bool,
        left_no_space: bool,
        right_folded: bool,
        right_no_space: bool,
    },
}

/// The index of the well at which a plan failed.
pub open spec fn err_well(e: FoldError) -> int {
    match e {
        FoldError::FoldTooDeep { well, .. } => well as int,
        FoldError::NeighborAlreadyFolded { well, .. } => well as int,
        FoldError::NeighborTooNarrow { well, .. } => well as int,
        FoldError::NoAvailableNeighbor { well, .. } => well as int,
    }
}

/// Depth a deficient well must fold away: 0 when the raw height covers the
/// fold factor `f`, otherwise the deficit `f - raw` clamped to `n`.
pub open spec fn required_depth(raw: int, f: int, n: int) -> int {
    if raw >= f {
        0
    } else if f - raw <= n {
        f - raw
    } else {
        n
    }
}

/// Build height of a well: raw height minus the fold factor, compensated by
/// the required fold depth. Negative when the deficit exceeds the clamp.
pub open spec fn build_of(raw: int, f: int, n: int) -> int {
    raw - f + required_depth(raw, f, n)
}

/// `w` with its build height replaced.
pub open spec fn with_build(w: Well, b: int) -> Well {
    Well { depth: w.depth, raw_height: w.raw_height, fold: w.fold, build_height: b as i32 }
}

/// `w` with its fold mark replaced.
pub open spec fn with_fold(w: Well, st: FoldState) -> Well {
    Well { depth: w.depth, raw_height: w.raw_height, fold: st, build_height: w.build_height }
}

/// One step of the planner at well `i`: fixes the well's build height and,
/// if a fold is required, records it on the chosen neighbour or fails.
/// Interior wells prefer the left neighbour when both sides are available.
pub open spec fn plan_step(s: Seq<Well>, i: int, n: int, f: int, w: Ratio) -> Result<
    Seq<Well>,
    FoldError,
> {
    let nw = s.len() as int;
    let raw = s[i].raw_height as int;
    let rfd = required_depth(raw, f, n);
    let s1 = s.update(i, with_build(s[i], build_of(raw, f, n)));
    if rfd == 0 {
        Ok(s1)
    } else if w.le_int(rfd) {
        Err(FoldError::FoldTooDeep { well: i as usize, required_depth: rfd as i32 })
    } else if i == 0 {
        if !(s1[1].fold is Unset) {
            Err(FoldError::NeighborAlreadyFolded { well: i as usize, neighbor: 1 })
        } else if w.gt_int(s1[1].raw_height as int) {
            Err(FoldError::NeighborTooNarrow { well: i as usize, neighbor: 1 })
        } else {
            Ok(s1.update(1, with_fold(s1[1], FoldState::Left(rfd as i32))))
        }
    } else if i == nw - 1 {
        if !(s1[nw - 2].fold is Unset) {
            Err(FoldError::NeighborAlreadyFolded { well: i as usize, neighbor: (nw - 2) as usize })
        } else if w.gt_int(s1[nw - 2].raw_height as int) {
            Err(FoldError::NeighborTooNarrow { well: i as usize, neighbor: (nw - 2) as usize })
        } else {
            Ok(s1.update(nw - 2, with_fold(s1[nw - 2], FoldState::Right(rfd as i32))))
        }
    } else {
        let build = s1[i].build_height as int;
        let left_folded = s1[i - 1].fold is Right;
        let right_folded = s1[i + 1].fold is Left;
        let left_space = w.lt_int(s1[i - 1].raw_height - build);
        let right_space = w.lt_int(s1[i + 1].raw_height - build);
        let can_left = !left_folded && left_space;
        let can_right = !right_folded && right_space;
        if !can_left && !can_right {
            Err(FoldError::NoAvailableNeighbor {
                well: i as usize,
                left_folded,
                left_no_space: !left_space,
                right_folded,
                right_no_space: !right_space,
            })
        } else if !can_left {
            Ok(s1.update(i + 1, with_fold(s1[i + 1], FoldState::Left(rfd as i32))))
        } else {
            Ok(s1.update(i - 1, with_fold(s1[i - 1], FoldState::Right(rfd as i32))))
        }
    }
}

/// The planner's state after processing wells `0 .. k`, or the first error.
pub open spec fn plan_upto(s0: Seq<Well>, n: int, f: int, w: Ratio, k: nat) -> Result<
    Seq<Well>,
    FoldError,
>
    decreases k,
{
    if k == 0 {
        Ok(s0)
    } else {
        match plan_upto(s0, n, f, w, (k - 1) as nat) {
            Ok(s) => plan_step(s, k - 1 as int, n, f, w),
            Err(e) => Err(e),
        }
    }
}

/// The wells before planning: depths and raw heights filled in, no folds,
/// build heights zero.
pub open spec fn initial_wells(n: int, r: int) -> Seq<Well> {
    Seq::new(
        (n - 1) as nat,
        |i: int| Well {
            depth: depth_seq(n, r)[i] as i32,
            raw_height: raw_of(n, r, i) as i32,
            fold: FoldState::Unset,
            build_height: 0,
        },
    )
}

/// The full plan for one parameter tuple.
pub open spec fn plan_spec(n: int, r: int, f: int, w: Ratio) -> Result<Seq<Well>, FoldError> {
    plan_upto(initial_wells(n, r), n, f, w, (n - 1) as nat)
}

/// Frame of a successful step at `i`: lengths, depths and raw heights are
/// untouched; only well `i`'s build height is set, and at most one fold mark
/// changes — the chosen neighbour's, in the direction facing well `i`.
pub proof fn lemma_step_frame(s: Seq<Well>, i: int, n: int, f: int, w: Ratio)
    requires
        s.len() >= 2,
        0 <= i < s.len(),
        plan_step(s, i, n, f, w) is Ok,
    ensures
        ({
            let t = plan_step(s, i, n, f, w)->Ok_0;
            let rfd = required_depth(s[i].raw_height as int, f, n);
            &&& t.len() == s.len()
            &&& forall|j: int|
                0 <= j < s.len() ==> (#[trigger] t[j]).depth == s[j].depth
                    && t[j].raw_height == s[j].raw_height
            &&& forall|j: int|
                0 <= j < s.len() && j != i ==> (#[trigger] t[j]).build_height
                    == s[j].build_height
            &&& t[i].build_height == with_build(s[i], build_of(s[i].raw_height as int, f, n))
                .build_height
            &&& forall|j: int|
                0 <= j < s.len() && (#[trigger] t[j]).fold != s[j].fold ==> (j == i - 1
                    && t[j].fold == FoldState::Right(rfd as i32)) || (j == i + 1 && t[j].fold
                    == FoldState::Left(rfd as i32))
        }),
{
}

/// At-most-one-fold law, deterministic half: a boundary well whose single
/// neighbour already hosts a fold fails with `NeighborAlreadyFolded` instead
/// of overwriting it.
pub proof fn lemma_boundary_reuse_fails(s: Seq<Well>, i: int, n: int, f: int, w: Ratio)
    requires
        s.len() >= 2,
        i == 0 || i == s.len() - 1,
        0 <= i < s.len(),
        required_depth(s[i].raw_height as int, f, n) > 0,
        !w.le_int(required_depth(s[i].raw_height as int, f, n)),
        !(s[if i == 0 { 1int } else { s.len() - 2 }].fold is Unset),
    ensures
        plan_step(s, i, n, f, w) == Err::<Seq<Well>, FoldError>(
            FoldError::NeighborAlreadyFolded {
                well: i as usize,
                neighbor: if i == 0 { 1 } else { (s.len() - 2) as usize },
            },
        ),
{
}

/// At-most-one-fold law, preservation half: a successful step never changes
/// a fold mark that points toward the processed well, nor any mark on wells
/// away from its two neighbours. The one configuration left out is an
/// interior step folding onto a neighbour whose mark points away from it;
/// there the planner's availability test does not see the mark and the step
/// replaces it.
pub proof fn lemma_fold_marks_stable(s: Seq<Well>, i: int, n: int, f: int, w: Ratio, j: int)
    requires
        s.len() >= 2,
        0 <= i < s.len(),
        0 <= j < s.len(),
        plan_step(s, i, n, f, w) is Ok,
        !(s[j].fold is Unset),
        !(j == i - 1 && s[j].fold is Left && 0 < i < s.len() - 1),
        !(j == i + 1 && s[j].fold is Right && 0 < i < s.len() - 1),
    ensures
        plan_step(s, i, n, f, w)->Ok_0[j].fold == s[j].fold,
{
}

/// Fail-fast law: once the planner has failed, every longer prefix returns
/// the very same error — wells after the failing one are never examined.
pub proof fn lemma_plan_fail_fast(s0: Seq<Well>, n: int, f: int, w: Ratio, k: nat, m: nat)
    requires
        k <= m,
        plan_upto(s0, n, f, w, k) is Err,
    ensures
        plan_upto(s0, n, f, w, m) == plan_upto(s0, n, f, w, k),
    decreases m,
{
    if m > k {
        lemma_plan_fail_fast(s0, n, f, w, k, (m - 1) as nat);
    }
}

/// Fail-fast law, locus half: an error arising within the first `k` steps
/// names the well it arose at, the prefix before that well succeeded, and
/// that well's own step produced the error.
pub proof fn lemma_plan_error_locus(s0: Seq<Well>, n: int, f: int, w: Ratio, k: nat)
    requires
        k <= usize::MAX,
        plan_upto(s0, n, f, w, k) is Err,
    ensures
        ({
            let e = plan_upto(s0, n, f, w, k)->Err_0;
            &&& 0 <= err_well(e) < k
            &&& plan_upto(s0, n, f, w, err_well(e) as nat) is Ok
            &&& plan_step(plan_upto(s0, n, f, w, err_well(e) as nat)->Ok_0, err_well(e), n, f, w)
                == Err::<Seq<Well>, FoldError>(e)
        }),
    decreases k,
{
    if k > 0 {
        if plan_upto(s0, n, f, w, (k - 1) as nat) is Err {
            lemma_plan_error_locus(s0, n, f, w, (k - 1) as nat);
        } else {
            let e = plan_upto(s0, n, f, w, k)->Err_0;
            assert(err_well(e) == k - 1);
        }
    }
}

/// Shape of a successful prefix: depths and raw heights are those of the
/// initial state, build heights of processed wells follow `build_of`, and
/// unprocessed wells still hold their initial build height.
pub proof fn lemma_upto_ok_shape(s0: Seq<Well>, n: int, f: int, w: Ratio, k: nat)
    requires
        s0.len() >= 2,
        k <= s0.len(),
        2 <= n,
        0 <= f <= i32::MAX,
        forall|j: int| 0 <= j < s0.len() ==> 0 <= (#[trigger] s0[j]).raw_height,
        plan_upto(s0, n, f, w, k) is Ok,
    ensures
        ({
            let t = plan_upto(s0, n, f, w, k)->Ok_0;
            &&& t.len() == s0.len()
            &&& forall|j: int|
                0 <= j < s0.len() ==> (#[trigger] t[j]).depth == s0[j].depth
                    && t[j].raw_height == s0[j].raw_height
            &&& forall|j: int|
                0 <= j < k ==> (#[trigger] t[j]).build_height
                    == build_of(s0[j].raw_height as int, f, n)
            &&& forall|j: int|
                k <= j < s0.len() ==> (#[trigger] t[j]).build_height == s0[j].build_height
        }),
    decreases k,
{
    if k > 0 {
        lemma_upto_ok_shape(s0, n, f, w, (k - 1) as nat);
        let s = plan_upto(s0, n, f, w, (k - 1) as nat)->Ok_0;
        lemma_step_frame(s, k - 1 as int, n, f, w);
        let raw = s0[k - 1 as int].raw_height as int;
        assert(i32::MIN <= build_of(raw, f, n) <= i32::MAX);
    }
}

/// Plans the layout for one parameter tuple `(n, r, f, w)`.
///
/// On success the returned wells are exactly the sequential model's result:
/// depths are `r^i mod n`, raw heights their distance from the tallest
/// depth, build heights follow `build_of`, and folds sit where the model
/// placed them. On failure the model's first error is returned and no
/// layout is produced.
pub fn calculate(n: usize, r: i32, f: i32, w: Ratio) -> (result: Result<Vec<Well>, FoldError>)
    requires
        3 <= n <= 46340,
        1 <= r < n,
        0 <= f,
        w.wf(),
    ensures
        match result {
            Ok(v) => plan_spec(n as int, r as int, f as int, w) == Ok::<Seq<Well>, FoldError>(v@),
            Err(e) => plan_spec(n as int, r as int, f as int, w) == Err::<Seq<Well>, FoldError>(
                e,
            ),
        },
        result matches Ok(v) ==> v@.len() == n - 1,
        result matches Ok(v) ==> forall|j: int|
            0 <= j < n - 1 ==> (#[trigger] v@[j]).depth == depth_seq(n as int, r as int)[j]
                && v@[j].raw_height == raw_of(n as int, r as int, j) && v@[j].build_height
                == build_of(raw_of(n as int, r as int, j), f as int, n as int),
{
    let num_wells = n - 1;
    let n32: i32 = n as i32;
    let ghost ni = n as int;
    let ghost ri = r as int;
    let ghost ds = depth_seq(ni, ri);

    let mut wells: Vec<Well> = Vec::new();
    let mut max_d: i32 = 0;
    let mut i: usize = 0;
    while i < num_wells
        invariant
            3 <= n <= 46340,
            1 <= r < n,
            num_wells == n - 1,
            i <= num_wells,
            ds == depth_seq(ni, ri),
            ni == n as int,
            ri == r as int,
            n32 == n as i32,
            wells@.len() == i,
            forall|j: int|
                0 <= j < i ==> #[trigger] wells@[j] == (Well {
                    depth: ds[j] as i32,
                    raw_height: 0,
                    fold: FoldState::Unset,
                    build_height: 0,
                }) && 0 <= ds[j] < n,
            max_d as int == seq_max_from(ds.take(i as int), 0),
            0 <= max_d < n,
        decreases num_wells - i,
    {
        let d = mod_exp(r, i as u32, n32);
        wells.push(
            Well { depth: d, raw_height: 0, fold: FoldState::Unset, build_height: 0 },
        );
        proof {
            assert(ds[i as int] == d);
            lemma_seq_max_from_push(ds.take(i as int), 0, ds[i as int]);
            assert(ds.take(i as int + 1) =~= ds.take(i as int).push(ds[i as int]));
        }
        if d > max_d {
            max_d = d;
        }
        i += 1;
    }
    proof {
        assert(ds.take(num_wells as int) =~= ds);
        assert(max_d as int == max_depth(ni, ri));
        lemma_seq_max_from_ge(ds, 0);
    }

    let mut i: usize = 0;
    while i < num_wells
        invariant
            3 <= n <= 46340,
            num_wells == n - 1,
            i <= num_wells,
            ds == depth_seq(ni, ri),
            ni == n as int,
            ri == r as int,
            wells@.len() == num_wells,
            max_d as int == max_depth(ni, ri),
            0 <= max_d < n,
            forall|j: int| 0 <= j < num_wells ==> 0 <= #[trigger] ds[j] <= max_d,
            forall|j: int| 0 <= j < i ==> #[trigger] wells@[j] == initial_wells(ni, ri)[j],
            forall|j: int|
                i <= j < num_wells ==> #[trigger] wells@[j] == (Well {
                    depth: ds[j] as i32,
                    raw_height: 0,
                    fold: FoldState::Unset,
                    build_height: 0,
                }),
        decreases num_wells - i,
    {
        let mut wl = wells[i];
        wl.raw_height = max_d - wl.depth;
        wells.set(i, wl);
        i += 1;
    }
    proof {
        assert(wells@ =~= initial_wells(ni, ri));
    }

    let ghost s0 = initial_wells(ni, ri);
    let ghost fi = f as int;
    let mut i: usize = 0;
    while i < num_wells
        invariant
            3 <= n <= 46340,
            num_wells == n - 1,
            i <= num_wells,
            0 <= f,
            w.wf(),
            n32 == n as i32,
            ni == n as int,
            ri == r as int,
            fi == f as int,
            s0 == initial_wells(ni, ri),
            s0.len() == num_wells,
            wells@.len() == num_wells,
            plan_upto(s0, ni, fi, w, i as nat) == Ok::<Seq<Well>, FoldError>(wells@),
            forall|j: int|
                0 <= j < num_wells ==> 0 <= (#[trigger] wells@[j]).raw_height < n,
        decreases num_wells - i,
    {
        let ghost s_pre = wells@;
        let raw = wells[i].raw_height;
        let rfd: i32 = if raw >= f {
            0
        } else if f - raw <= n32 {
            f - raw
        } else {
            n32
        };
        proof {
            assert(rfd as int == required_depth(raw as int, fi, ni));
        }
        let mut wl = wells[i];
        wl.build_height = raw - f + rfd;
        wells.set(i, wl);
        let ghost s1 = s_pre.update(
            i as int,
            with_build(s_pre[i as int], build_of(raw as int, fi, ni)),
        );
        proof {
            assert(wells@ =~= s1);
        }
        if rfd > 0 {
            if w.le(rfd as i64) {
                let e = FoldError::FoldTooDeep { well: i, required_depth: rfd };
                proof {
                    assert(plan_step(s_pre, i as int, ni, fi, w) == Err::<Seq<Well>, FoldError>(
                        e,
                    ));
                    assert(plan_upto(s0, ni, fi, w, (i + 1) as nat)
                        == Err::<Seq<Well>, FoldError>(e));
                    lemma_plan_fail_fast(s0, ni, fi, w, (i + 1) as nat, num_wells as nat);
                }
                return Err(e);
            }
            if i == 0 {
                let nb = wells[1];
                let nb_folded = match nb.fold {
                    FoldState::Unset => false,
                    _ => true,
                };
                if nb_folded {
                    let e = FoldError::NeighborAlreadyFolded { well: i, neighbor: 1 };
                    proof {
                        assert(plan_step(s_pre, i as int, ni, fi, w)
                            == Err::<Seq<Well>, FoldError>(e));
                        assert(plan_upto(s0, ni, fi, w, (i + 1) as nat)
                            == Err::<Seq<Well>, FoldError>(e));
                        lemma_plan_fail_fast(s0, ni, fi, w, (i + 1) as nat, num_wells as nat);
                    }
                    return Err(e);
                }
                if w.gt(nb.raw_height as i64) {
                    let e = FoldError::NeighborTooNarrow { well: i, neighbor: 1 };
                    proof {
                        assert(plan_step(s_pre, i as int, ni, fi, w)
                            == Err::<Seq<Well>, FoldError>(e));
                        assert(plan_upto(s0, ni, fi, w, (i + 1) as nat)
                            == Err::<Seq<Well>, FoldError>(e));
                        lemma_plan_fail_fast(s0, ni, fi, w, (i + 1) as nat, num_wells as nat);
                    }
                    return Err(e);
                }
                let mut nb2 = nb;
                nb2.fold = FoldState::Left(rfd);
                wells.set(1, nb2);
                proof {
                    assert(wells@ =~= s1.update(1, with_fold(s1[1], FoldState::Left(rfd))));
                }
            } else if i == num_wells - 1 {
                let nb = wells[num_wells - 2];
                let nb_folded = match nb.fold {
                    FoldState::Unset => false,
                    _ => true,
                };
                if nb_folded {
                    let e = FoldError::NeighborAlreadyFolded { well: i, neighbor: num_wells - 2 };
                    proof {
                        assert(plan_step(s_pre, i as int, ni, fi, w)
                            == Err::<Seq<Well>, FoldError>(e));
                        assert(plan_upto(s0, ni, fi, w, (i + 1) as nat)
                            == Err::<Seq<Well>, FoldError>(e));
                        lemma_plan_fail_fast(s0, ni, fi, w, (i + 1) as nat, num_wells as nat);
                    }
                    return Err(e);
                }
                if w.gt(nb.raw_height as i64) {
                    let e = FoldError::NeighborTooNarrow { well: i, neighbor: num_wells - 2 };
                    proof {
                        assert(plan_step(s_pre, i as int, ni, fi, w)
                            == Err::<Seq<Well>, FoldError>(e));
                        assert(plan_upto(s0, ni, fi, w, (i + 1) as nat)
                            == Err::<Seq<Well>, FoldError>(e));
                        lemma_plan_fail_fast(s0, ni, fi, w, (i + 1) as nat, num_wells as nat);
                    }
                    return Err(e);
                }
                let mut nb2 = nb;
                nb2.fold = FoldState::Right(rfd);
                wells.set(num_wells - 2, nb2);
                proof {
                    assert(wells@ =~= s1.update(
                        num_wells - 2,
                        with_fold(s1[num_wells - 2 as int], FoldState::Right(rfd)),
                    ));
                }
            } else {
                let bh = wells[i].build_height;
                let left = wells[i - 1];
                let right = wells[i + 1];
                let left_folded = match left.fold {
                    FoldState::Right(_) => true,
                    _ => false,
                };
                let right_folded = match right.fold {
                    FoldState::Left(_) => true,
                    _ => false,
                };
                let left_space = w.lt(left.raw_height as i64 - bh as i64);
                let right_space = w.lt(right.raw_height as i64 - bh as i64);
                let can_left = !left_folded && left_space;
                let can_right = !right_folded && right_space;
                if !can_left && !can_right {
                    let e = FoldError::NoAvailableNeighbor {
                        well: i,
                        left_folded,
                        left_no_space: !left_space,
                        right_folded,
                        right_no_space: !right_space,
                    };
                    proof {
                        assert(plan_step(s_pre, i as int, ni, fi, w)
                            == Err::<Seq<Well>, FoldError>(e));
                        assert(plan_upto(s0, ni, fi, w, (i + 1) as nat)
                            == Err::<Seq<Well>, FoldError>(e));
                        lemma_plan_fail_fast(s0, ni, fi, w, (i + 1) as nat, num_wells as nat);
                    }
                    return Err(e);
                } else if !can_left {
                    let mut nb2 = right;
                    nb2.fold = FoldState::Left(rfd);
                    wells.set(i + 1, nb2);
                    proof {
                        assert(wells@ =~= s1.update(
                            i + 1 as int,
                            with_fold(s1[i + 1 as int], FoldState::Left(rfd)),
                        ));
                    }
                } else {
                    let mut nb2 = left;
                    nb2.fold = FoldState::Right(rfd);
                    wells.set(i - 1, nb2);
                    proof {
                        assert(wells@ =~= s1.update(
                            i - 1 as int,
                            with_fold(s1[i - 1 as int], FoldState::Right(rfd)),
                        ));
                    }
                }
            }
        }
        proof {
            assert(plan_step(s_pre, i as int, ni, fi, w) == Ok::<Seq<Well>, FoldError>(wells@));
            assert forall|j: int|
                0 <= j < num_wells implies 0 <= (#[trigger] wells@[j]).raw_height < n by {
                assert(wells@[j].raw_height == s_pre[j].raw_height);
            }
        }
        i += 1;
    }
    proof {
        assert(plan_spec(ni, ri, fi, w) == Ok::<Seq<Well>, FoldError>(wells@));
        lemma_upto_ok_shape(s0, ni, fi, w, num_wells as nat);
    }
    Ok(wells)
}

} // verus!
