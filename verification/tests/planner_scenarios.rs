use well_layout::planner::{calculate, FoldError, FoldState};
use well_layout::ratio::Ratio;

fn width(num: u64, den: u64) -> Ratio {
    Ratio { num, den }
}

#[test]
fn no_fold_needed_small_prime() {
    // n=5, r=2, f=0: depths 1,2,4,3; raw heights 3,2,0,1; no well has a
    // deficit, so build heights equal raw heights and no fold is recorded.
    let wells = calculate(5, 2, 0, width(26, 1)).unwrap();
    assert_eq!(wells.len(), 4);
    let depths: Vec<i32> = wells.iter().map(|w| w.depth).collect();
    assert_eq!(depths, vec![1, 2, 4, 3]);
    let raws: Vec<i32> = wells.iter().map(|w| w.raw_height).collect();
    assert_eq!(raws, vec![3, 2, 0, 1]);
    for w in &wells {
        assert_eq!(w.build_height, w.raw_height);
        assert_eq!(w.fold, FoldState::Unset);
    }
    let zero_count = wells.iter().filter(|w| w.build_height == 0).count();
    assert_eq!(zero_count, 1);
}

#[test]
fn fold_succeeds_into_left_neighbor() {
    // n=7, r=3, f=1, w=3: raw heights 5,3,4,0,2,1. Well 3 needs a fold of
    // depth 1; its left neighbour has space (4 - 0 > 3), the right one does
    // not (2 - 0 <= 3), so well 2 hosts the fold from its right.
    let wells = calculate(7, 3, 1, width(3, 1)).unwrap();
    let raws: Vec<i32> = wells.iter().map(|w| w.raw_height).collect();
    assert_eq!(raws, vec![5, 3, 4, 0, 2, 1]);
    assert_eq!(wells[2].fold, FoldState::Right(1));
    assert_eq!(wells[3].build_height, 0);
    assert_eq!(wells[3].fold, FoldState::Unset);
}

#[test]
fn fold_too_deep_fails_fast() {
    // n=5, r=2, f=4, w=1: well 0 needs a fold of depth 1 >= w.
    let err = calculate(5, 2, 4, width(1, 1)).unwrap_err();
    assert_eq!(
        err,
        FoldError::FoldTooDeep { well: 0, required_depth: 1 }
    );
}

#[test]
fn boundary_neighbor_too_narrow() {
    // n=5, r=2, f=4, w=3: well 0 needs a fold of depth 1 < 3, but its only
    // neighbour has raw height 2 < 3.
    let err = calculate(5, 2, 4, width(3, 1)).unwrap_err();
    assert_eq!(err, FoldError::NeighborTooNarrow { well: 0, neighbor: 1 });
}

#[test]
fn interior_no_available_neighbor() {
    // n=7, r=3, f=1, w=5: well 3 needs a fold of depth 1 < 5, but neither
    // neighbour has space (4 - 0 <= 5 and 2 - 0 <= 5).
    let err = calculate(7, 3, 1, width(5, 1)).unwrap_err();
    assert_eq!(
        err,
        FoldError::NoAvailableNeighbor {
            well: 3,
            left_folded: false,
            left_no_space: true,
            right_folded: false,
            right_no_space: true,
        }
    );
}

#[test]
fn boundary_neighbor_already_folded() {
    // n=23, r=15, f=4, w=10: by the time the rightmost well needs a fold,
    // its only neighbour already hosts one.
    let err = calculate(23, 15, 4, width(10, 1)).unwrap_err();
    assert_eq!(
        err,
        FoldError::NeighborAlreadyFolded { well: 21, neighbor: 20 }
    );
}

#[test]
fn depths_are_a_permutation_of_nonzero_residues() {
    // For a primitive root the depths enumerate 1..n-1 with no repeats.
    for (n, r) in [(5usize, 2i32), (7, 3), (7, 5), (11, 2), (13, 2)] {
        let wells = calculate(n, r, 0, width(200, 1)).unwrap();
        let mut seen = vec![false; n];
        for w in &wells {
            let d = w.depth as usize;
            assert!(1 <= d && d < n);
            assert!(!seen[d], "duplicate depth {} for n={} r={}", d, n, r);
            seen[d] = true;
        }
        for v in 1..n {
            assert!(seen[v], "missing residue {} for n={} r={}", v, n, r);
        }
    }
}

#[test]
fn raw_heights_bounded_with_one_zero() {
    for (n, r) in [(5usize, 2i32), (7, 3), (11, 8), (13, 6)] {
        let wells = calculate(n, r, 0, width(200, 1)).unwrap();
        let mut zeros = 0;
        for w in &wells {
            assert!(0 <= w.raw_height && w.raw_height <= (n as i32) - 2);
            if w.raw_height == 0 {
                zeros += 1;
            }
        }
        assert_eq!(zeros, 1);
    }
}
