use well_layout::ratio::{default_width, Ratio};
use well_layout::solution::Solution;
use well_layout::sweep::{evaluate, PrimeEntry, SweepConfig};

fn prime_table_config() -> SweepConfig {
    let table: Vec<(usize, Vec<i32>)> = vec![
        (7, vec![3, 5]),
        (11, vec![2, 6, 7, 8]),
        (13, vec![2, 6, 7, 11]),
        (17, vec![3, 5, 6, 7, 10, 11, 12, 14]),
        (19, vec![2, 3, 10, 13, 14, 15]),
        (23, vec![5, 7, 10, 11, 14, 15, 17, 19, 20, 21]),
        (29, vec![2, 3, 8, 10, 11, 14, 15, 18, 19, 21, 26, 27]),
        (31, vec![3, 11, 12, 13, 17, 21, 22, 24]),
    ];
    let entries = table
        .into_iter()
        .map(|(n, roots)| PrimeEntry { n, roots, w: default_width(n as u64) })
        .collect();
    SweepConfig {
        entries,
        fold_factors: vec![0, 1, 2, 3, 4, 5, 6, 7],
        accept_lo: 25,
        accept_hi: 50,
    }
}

fn zero_pct_le(a: &Solution, b: &Solution) -> bool {
    (a.zero_wells as u64) * (b.well_count as u64)
        <= (b.zero_wells as u64) * (a.well_count as u64)
}

#[test]
fn default_width_rule() {
    assert_eq!(default_width(7), Ratio { num: 130, den: 7 });
    assert_eq!(default_width(31), Ratio { num: 130, den: 31 });
    // 130/52 = 2.5 exactly: the floor does not yet apply.
    assert_eq!(default_width(52), Ratio { num: 130, den: 52 });
    // beyond that the 2.5 floor takes over
    assert_eq!(default_width(53), Ratio { num: 5, den: 2 });
}

#[test]
fn full_table_sweep_counts() {
    let cfg = prime_table_config();
    let out = evaluate(&cfg);
    assert_eq!(out.successes.len(), 192);
    assert_eq!(out.error_count, 240);
    assert_eq!(out.accepted.len(), 10);
}

#[test]
fn full_table_sweep_best_solution() {
    let cfg = prime_table_config();
    let out = evaluate(&cfg);
    let best = &out.accepted[0];
    assert_eq!(best.n, 17);
    assert_eq!(best.r, 14);
    assert_eq!(best.f, 4);
    assert_eq!(best.w, Ratio { num: 130, den: 17 });
    assert_eq!(best.max_build_height, 11);
    assert_eq!(best.zero_wells, 5);
    assert_eq!(best.well_count, 16);
}

#[test]
fn accepted_are_ranked_and_in_band() {
    let cfg = prime_table_config();
    let out = evaluate(&cfg);
    for s in &out.accepted {
        let pct_num = 100 * s.zero_wells as u64;
        assert!(25 * s.well_count as u64 <= pct_num);
        assert!(pct_num <= 50 * s.well_count as u64);
    }
    for pair in out.accepted.windows(2) {
        let (a, b) = (&pair[0], &pair[1]);
        assert!(a.max_build_height <= b.max_build_height);
        if a.max_build_height == b.max_build_height {
            assert!(zero_pct_le(a, b));
        }
    }
}

#[test]
fn combinable_successes_of_full_sweep() {
    // Only widths of at least 6 can be tiled; with width 130/n that means
    // the primes up to 21.
    let cfg = prime_table_config();
    let out = evaluate(&cfg);
    let combinable = out
        .successes
        .iter()
        .filter(|s| s.w.num >= 6 * s.w.den)
        .count();
    assert_eq!(combinable, 40);
}

#[test]
fn sweep_counts_each_tuple_once() {
    // 2 roots for 7 and 4 for 11, with two fold factors each: 12 tuples.
    let cfg = SweepConfig {
        entries: vec![
            PrimeEntry { n: 7, roots: vec![3, 5], w: default_width(7) },
            PrimeEntry { n: 11, roots: vec![2, 6, 7, 8], w: default_width(11) },
        ],
        fold_factors: vec![0, 1],
        accept_lo: 25,
        accept_hi: 50,
    };
    let out = evaluate(&cfg);
    assert_eq!(out.successes.len() as u64 + out.error_count, 12);
    // f = 0 always succeeds (no deficits), so each root contributes at
    // least one success.
    assert!(out.successes.len() >= 6);
    for s in &out.successes {
        assert!(s.n == 7 || s.n == 11);
        assert_eq!(s.well_count, s.n - 1);
        assert!(s.zero_wells <= s.well_count);
    }
}

#[test]
fn scenario_layout_is_accepted_at_band_edge() {
    // n=5, r=2, f=0 has one zero well of four: exactly 25%, the band edge.
    let cfg = SweepConfig {
        entries: vec![PrimeEntry { n: 5, roots: vec![2], w: default_width(5) }],
        fold_factors: vec![0],
        accept_lo: 25,
        accept_hi: 50,
    };
    let out = evaluate(&cfg);
    assert_eq!(out.successes.len(), 1);
    assert_eq!(out.error_count, 0);
    assert_eq!(out.accepted.len(), 1);
    let s = &out.accepted[0];
    assert_eq!(s.zero_wells, 1);
    assert_eq!(s.well_count, 4);
    assert_eq!(s.max_build_height, 3);
    assert_eq!(s.zero_percentage(), Ratio { num: 100, den: 4 });
}
