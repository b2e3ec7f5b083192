use well_layout::combine::{find_combined_solutions, CombineConfig, CombinedSolution};
use well_layout::ratio::Ratio;
use well_layout::solution::Solution;

fn cfg() -> CombineConfig {
    CombineConfig { threshold: 6, band_lo: 120, band_hi: 140, center: 130 }
}

fn sol(n: usize, wnum: u64, wden: u64, mbh: i32, zc: usize, wc: usize) -> Solution {
    Solution {
        n,
        r: 1,
        f: 0,
        w: Ratio { num: wnum, den: wden },
        max_build_height: mbh,
        zero_wells: zc,
        well_count: wc,
    }
}

fn dist_to_center(c: &CombinedSolution) -> (u64, u64) {
    // |total_width - 130| as an unreduced fraction (numerator, denominator)
    let center = 130 * c.total_width.den;
    let num = if c.total_width.num >= center {
        c.total_width.num - center
    } else {
        center - c.total_width.num
    };
    (num, c.total_width.den)
}

#[test]
fn combiner_rounding_weighted_average() {
    // Two solutions of width 40: one with 6 wells of which 2 are zero
    // (33.33%), one with 10 wells of which 4 are zero (40%). The pair
    // taken twice and once gives 2*2 + 4*1 = 8 zero wells of 22, about
    // 36.36%.
    let s1 = sol(7, 40, 1, 3, 2, 6);
    let s2 = sol(11, 40, 1, 5, 4, 10);
    let combos = find_combined_solutions(&vec![s1, s2], cfg());
    // widths in band: three members of width 40 each, so the homogeneous
    // searches give one entry per solution and the pair search the four
    // splits of 3 = c1 + c2.
    assert_eq!(combos.len(), 6);
    let target = combos
        .iter()
        .find(|c| {
            c.members.len() == 2 && c.members[0].1 == 2 && c.members[1].1 == 1
        })
        .expect("the 2+1 pair is in the band");
    assert_eq!(target.members[0].0, s1);
    assert_eq!(target.members[1].0, s2);
    assert_eq!(target.zero_wells, 8);
    assert_eq!(target.total_wells, 22);
    assert_eq!(target.combined_max_height, 5);
    assert_eq!(target.total_width, Ratio { num: 120, den: 1 });
    let pct = target.combined_zero_percentage();
    assert_eq!(pct, Ratio { num: 800, den: 22 });
    // 800/22 percent is 36.36...%
    assert_eq!(pct.num * 100 / pct.den, 3636);
}

#[test]
fn homogeneous_entries_and_ranking() {
    let s1 = sol(7, 40, 1, 3, 2, 6);
    let s2 = sol(11, 40, 1, 5, 4, 10);
    let combos = find_combined_solutions(&vec![s1, s2], cfg());
    // The first-ranked combination has the lowest combined height: three
    // copies of the first solution, at width 120.
    let best = &combos[0];
    assert_eq!(best.members.len(), 1);
    assert_eq!(best.members[0].0, s1);
    assert_eq!(best.members[0].1, 3);
    assert_eq!(best.combined_max_height, 3);
    assert_eq!(best.zero_wells, 6);
    assert_eq!(best.total_wells, 18);
    // Every entry's total width lies in the band, and the ranking is
    // non-decreasing in (combined height, distance from 130).
    for c in &combos {
        assert!(120 * c.total_width.den <= c.total_width.num);
        assert!(c.total_width.num <= 140 * c.total_width.den);
    }
    for pair in combos.windows(2) {
        let (a, b) = (&pair[0], &pair[1]);
        assert!(a.combined_max_height <= b.combined_max_height);
        if a.combined_max_height == b.combined_max_height {
            let (da, dda) = dist_to_center(a);
            let (db, ddb) = dist_to_center(b);
            assert!((da as u128) * (ddb as u128) <= (db as u128) * (dda as u128));
        }
    }
}

#[test]
fn preferred_center_width_ranks_first() {
    // Width 65 tiles to exactly 130, the preferred centre; width 40 only
    // reaches 120. With equal heights the 130-wide combination wins.
    let s1 = sol(7, 40, 1, 4, 2, 6);
    let s2 = sol(11, 65, 1, 4, 4, 10);
    let combos = find_combined_solutions(&vec![s1, s2], cfg());
    let best = &combos[0];
    assert_eq!(best.total_width, Ratio { num: 130, den: 1 });
}

#[test]
fn narrow_solutions_do_not_combine() {
    // Widths below the threshold of 6 are not tiled at all.
    let s1 = sol(31, 13, 3, 1, 10, 30);
    let combos = find_combined_solutions(&vec![s1], cfg());
    assert!(combos.is_empty());
}

#[test]
fn empty_pool_gives_empty_result() {
    let combos = find_combined_solutions(&vec![], cfg());
    assert!(combos.is_empty());
}

#[test]
fn fractional_width_tiles_to_exact_center() {
    // Width 130/7 fits exactly seven times into 130: the homogeneous search
    // finds count 7 and nothing else for this solution.
    let s1 = sol(7, 130, 7, 2, 2, 6);
    let combos = find_combined_solutions(&vec![s1], cfg());
    assert_eq!(combos.len(), 1);
    assert_eq!(combos[0].members.len(), 1);
    assert_eq!(combos[0].members[0].1, 7);
    assert_eq!(combos[0].total_width, Ratio { num: 910, den: 7 });
    assert_eq!(combos[0].zero_wells, 14);
    assert_eq!(combos[0].total_wells, 42);
}
