use rrf::fuse;
use rrf::identifier::id_precedes;
use rrf::ranking::entry_ranks_before;
use rrf::tally::Tally;
use rrf::fuse_weighted;
use rrf::BigNat;
use rrf::Comparison;
use rrf::FusionError;
use rrf::Score;
use rrf::Weight;

fn to_f64(n: &BigNat) -> f64 {
    let mut value = 0.0f64;
    for limb in n.limbs().iter().rev() {
        value = value * 4294967296.0 + f64::from(*limb);
    }
    value
}

fn approx(score: &Score) -> f64 {
    let magnitude = to_f64(score.numerator()) / to_f64(score.denominator());
    if score.is_negative() {
        -magnitude
    } else {
        magnitude
    }
}

fn exact(negative: bool, numerator: u64, denominator: u64) -> Score {
    Score::new(negative, BigNat::from_u64(numerator), BigNat::from_u64(denominator)).unwrap()
}

fn weight(num: i64, den: u64) -> Weight {
    Weight::new(num, den).unwrap()
}

fn sample_lists() -> [Vec<&'static str>; 3] {
    [vec!["D3", "D1", "D2", "D5"], vec!["D2", "D4", "D1"], vec!["D5", "D2", "D6"]]
}

#[test]
fn test_rrf_basic() {
    let bm25 = vec!["D3", "D1", "D2", "D5"];
    let vector = vec!["D2", "D4", "D1"];
    let rules = vec!["D5", "D2", "D6"];

    let fused = fuse(&[bm25.clone(), vector.clone(), rules.clone()], 60);
    assert!(fused.iter().any(|(d, _)| d == &"D2"));
}

#[test]
fn test_rrf_weighted() {
    let bm25 = vec!["D3", "D1", "D2", "D5"];
    let vector = vec!["D2", "D4", "D1"];
    let rules = vec!["D5", "D2", "D6"];

    let fused_w =
        fuse_weighted(&[bm25, vector, rules], &[weight(1, 1), weight(2, 1), weight(1, 2)], 60)
            .unwrap();
    assert!(fused_w[0].0 == "D2");
}

#[test]
fn uniform_scenario_scores_d2_first() {
    let fused = fuse(&sample_lists(), 60);
    assert_eq!(fused[0].0, "D2");
    // 1/63 + 1/61 + 1/62
    assert_eq!(fused[0].1.compare(&exact(false, 11531, 238266)), Comparison::Equal);
    assert!((approx(&fused[0].1) - 0.04839).abs() < 1e-5);
    assert!((approx(&fused[0].1) - (1.0 / 63.0 + 1.0 / 61.0 + 1.0 / 62.0)).abs() < 1e-9);
}

#[test]
fn weighted_scenario_scores_d2_first() {
    let fused =
        fuse_weighted(&sample_lists(), &[weight(1, 1), weight(2, 1), weight(1, 2)], 60).unwrap();
    assert_eq!(fused[0].0, "D2");
    // 1/63 + 2/61 + 1/124
    assert_eq!(fused[0].1.compare(&exact(false, 27031, 476532)), Comparison::Equal);
    assert!((approx(&fused[0].1) - 0.05672).abs() < 1e-5);
}

#[test]
fn uniform_scenario_full_ranking() {
    let fused = fuse(&sample_lists(), 60);
    let ids: Vec<&str> = fused.iter().map(|(d, _)| *d).collect();
    assert_eq!(ids, vec!["D2", "D5", "D1", "D3", "D4", "D6"]);
    // D5: 1/64 + 1/61, D1: 1/62 + 1/63, D3: 1/61, D4: 1/62, D6: 1/63
    assert_eq!(fused[1].1.compare(&exact(false, 125, 3904)), Comparison::Equal);
    assert_eq!(fused[2].1.compare(&exact(false, 125, 3906)), Comparison::Equal);
    assert_eq!(fused[3].1.compare(&exact(false, 1, 61)), Comparison::Equal);
    assert_eq!(fused[4].1.compare(&exact(false, 1, 62)), Comparison::Equal);
    assert_eq!(fused[5].1.compare(&exact(false, 1, 63)), Comparison::Equal);
}

#[test]
fn every_identifier_appears_once() {
    let lists = sample_lists();
    let fused = fuse(&lists, 60);
    let mut ids: Vec<&str> = fused.iter().map(|(d, _)| *d).collect();
    ids.sort();
    assert_eq!(ids, vec!["D1", "D2", "D3", "D4", "D5", "D6"]);
}

#[test]
fn single_occurrence_has_weight_over_offset() {
    let lists = [vec![10u64, 20, 30], vec![40u64]];
    let fused = fuse_weighted(&lists, &[weight(3, 7), weight(5, 1)], 60).unwrap();
    let of = |id: u64| &fused.iter().find(|(d, _)| *d == id).unwrap().1;
    // 3/7 / (60 + 2 + 1)
    assert_eq!(of(30).compare(&exact(false, 3, 441)), Comparison::Equal);
    assert_eq!(of(10).compare(&exact(false, 3, 427)), Comparison::Equal);
    assert_eq!(of(40).compare(&exact(false, 5, 61)), Comparison::Equal);
    assert!((approx(of(30)) - (3.0 / 7.0) / 63.0).abs() < 1e-9);
}

#[test]
fn two_occurrences_add_up() {
    let lists = [vec![1u32, 2, 3], vec![9u32, 8, 7, 3]];
    let fused = fuse_weighted(&lists, &[weight(2, 1), weight(1, 3)], 10).unwrap();
    let three = &fused.iter().find(|(d, _)| *d == 3).unwrap().1;
    // 2/13 + (1/3)/14 = 2/13 + 1/42 = 97/546
    let first = Score::contribution(&weight(2, 1), 10, 2);
    let second = Score::contribution(&weight(1, 3), 10, 3);
    assert_eq!(three.compare(&first.add(&second)), Comparison::Equal);
    assert_eq!(three.compare(&exact(false, 97, 546)), Comparison::Equal);
}

#[test]
fn ranking_descends_by_score() {
    let fused = fuse(&sample_lists(), 60);
    for pair in fused.windows(2) {
        assert_ne!(pair[0].1.compare(&pair[1].1), Comparison::Less);
    }
}

#[test]
fn equal_scores_ascend_by_identifier() {
    let fused = fuse(&[vec!["b", "a"], vec!["a", "b"], vec!["c"]], 60);
    let ids: Vec<&str> = fused.iter().map(|(d, _)| *d).collect();
    assert_eq!(ids, vec!["a", "b", "c"]);
    assert_eq!(fused[0].1.compare(&fused[1].1), Comparison::Equal);
    assert_eq!(fused[1].1.compare(&fused[2].1), Comparison::Greater);
}

#[test]
fn order_of_lists_is_immaterial() {
    let [a, b, c] = sample_lists();
    let w = [weight(1, 1), weight(2, 1), weight(1, 2)];
    let one = fuse_weighted(&[a.clone(), b.clone(), c.clone()], &[w[0], w[1], w[2]], 60).unwrap();
    let two = fuse_weighted(&[c, a, b], &[w[2], w[0], w[1]], 60).unwrap();
    assert_eq!(one.len(), two.len());
    for (x, y) in one.iter().zip(two.iter()) {
        assert_eq!(x.0, y.0);
        assert_eq!(x.1.compare(&y.1), Comparison::Equal);
    }
}

#[test]
fn no_lists_give_an_empty_ranking() {
    let none: [Vec<&str>; 0] = [];
    assert!(fuse(&none, 60).is_empty());
    assert!(fuse_weighted(&none, &[], 60).unwrap().is_empty());
}

#[test]
fn empty_lists_name_nothing() {
    let lists: [Vec<u8>; 3] = [vec![], vec![7], vec![]];
    let fused = fuse(&lists, 0);
    assert_eq!(fused.len(), 1);
    assert_eq!(fused[0].0, 7);
    // k = 0, rank 0: 1/1
    assert_eq!(fused[0].1.compare(&exact(false, 1, 1)), Comparison::Equal);
}

#[test]
fn mismatched_weights_are_rejected() {
    let result = fuse_weighted(&sample_lists(), &[weight(1, 1), weight(2, 1)], 60);
    assert_eq!(result.err(), Some(FusionError::LengthMismatch { lists: 3, weights: 2 }));
    let none: [Vec<&str>; 0] = [];
    let result = fuse_weighted(&none, &[weight(1, 1)], 60);
    assert_eq!(result.err(), Some(FusionError::LengthMismatch { lists: 0, weights: 1 }));
}

#[test]
fn errors_describe_themselves() {
    let mismatch = FusionError::LengthMismatch { lists: 3, weights: 2 };
    assert_eq!(
        mismatch.describe(),
        "the number of weights differs from the number of ranked lists"
    );
    assert_eq!(FusionError::ZeroDenominator.describe(), "a denominator is zero");
}

#[test]
fn zero_denominator_is_rejected() {
    assert_eq!(Weight::new(1, 0).err(), Some(FusionError::ZeroDenominator));
    assert!(Weight::new(0, 1).is_ok());
    let zero = Score::new(false, BigNat::from_u64(1), BigNat::zero());
    assert_eq!(zero.err(), Some(FusionError::ZeroDenominator));
}

#[test]
fn zero_weight_keeps_the_identifier_with_score_zero() {
    let fused = fuse_weighted(&[vec!["x"], vec!["y"]], &[weight(0, 1), weight(1, 1)], 60).unwrap();
    assert_eq!(fused[0].0, "y");
    assert_eq!(fused[1].0, "x");
    assert_eq!(fused[1].1.compare(&Score::zero()), Comparison::Equal);
}

#[test]
fn negative_weight_inverts_a_list() {
    let fused =
        fuse_weighted(&[vec!["x", "y"], vec!["y"]], &[weight(-1, 1), weight(1, 2)], 1).unwrap();
    // x: -1/2, y: -1/3 + 1/4 = -1/12
    assert_eq!(fused[0].0, "y");
    assert_eq!(fused[0].1.compare(&exact(true, 1, 12)), Comparison::Equal);
    assert_eq!(fused[1].1.compare(&exact(true, 1, 2)), Comparison::Equal);
    assert!(fused[1].1.is_negative());
    assert!((approx(&fused[0].1) + 1.0 / 12.0).abs() < 1e-12);
}

#[test]
fn repeated_identifier_counts_each_position() {
    let fused = fuse(&[vec!["x", "x"]], 0);
    assert_eq!(fused.len(), 1);
    // 1/1 + 1/2
    assert_eq!(fused[0].1.compare(&exact(false, 3, 2)), Comparison::Equal);
}

#[test]
fn largest_smoothing_constant_does_not_overflow() {
    let fused = fuse(&[vec![1u8, 2]], usize::MAX);
    assert_eq!(fused[0].0, 1);
    let offset = BigNat::from_u128(usize::MAX as u128 + 1);
    let expected = Score::new(false, BigNat::from_u64(1), offset).unwrap();
    assert_eq!(fused[0].1.compare(&expected), Comparison::Equal);
}

#[test]
fn many_lists_need_more_than_machine_words() {
    let lists: Vec<Vec<u32>> = (0..40usize).map(|i| (0..=i as u32).rev().collect()).collect();
    let fused = fuse(&lists, 1_000_000_007);
    assert_eq!(fused.len(), 40);
    assert_eq!(fused[0].0, 0);
    let mut sum = 0.0f64;
    for i in 0..40usize {
        sum += 1.0 / (1_000_000_007.0 + i as f64 + 1.0);
    }
    assert!(fused[0].1.denominator().limbs().len() > 4);
    let value = score_ratio(&fused[0].1);
    assert!((value - sum).abs() < 1e-15);
}

fn score_ratio(score: &Score) -> f64 {
    let num = score.numerator().limbs();
    let den = score.denominator().limbs();
    let drop = num.len().min(den.len()).saturating_sub(3);
    let top = |limbs: &[u32]| {
        let mut value = 0.0f64;
        for limb in limbs.iter().skip(drop).rev() {
            value = value * 4294967296.0 + f64::from(*limb);
        }
        value
    };
    top(num) / top(den)
}

#[test]
fn tally_adds_shares_by_identifier() {
    let mut tally: Tally<&str> = Tally::new();
    tally.credit(&"x", exact(false, 1, 2));
    tally.credit(&"y", exact(false, 1, 3));
    tally.credit(&"x", exact(false, 1, 4));
    let entries = tally.into_entries();
    assert_eq!(entries.len(), 2);
    assert_eq!(entries[0].0, "x");
    assert_eq!(entries[0].1.compare(&exact(false, 3, 4)), Comparison::Equal);
    assert_eq!(entries[1].0, "y");
    assert_eq!(entries[1].1.compare(&exact(false, 1, 3)), Comparison::Equal);
    let empty: Tally<u8> = Tally::new();
    assert!(empty.into_entries().is_empty());
}

#[test]
fn entries_rank_by_score_then_identifier() {
    let high = ("b", exact(false, 1, 2));
    let low = ("a", exact(false, 1, 3));
    let tied = ("c", exact(false, 2, 4));
    assert!(entry_ranks_before(&high, &low));
    assert!(!entry_ranks_before(&low, &high));
    assert!(entry_ranks_before(&high, &tied));
    assert!(!entry_ranks_before(&tied, &high));
    assert!(!entry_ranks_before(&high, &high));
    assert!(id_precedes(&"a", &"b"));
    assert!(!id_precedes(&"b", &"a"));
    assert!(!id_precedes(&"a", &"a"));
}
