use range_pipeline::error::PipelineError;
use range_pipeline::range::Range;
use range_pipeline::range::RangeSet;
use range_pipeline::stage::MappingRule;
use range_pipeline::stage::MappingStage;
use range_pipeline::stage::apply_stage;

fn stage_of(triples: Vec<(i64, i64, i64)>) -> MappingStage {
    MappingStage::new(&triples).expect("well-formed stage triples")
}

fn range(start: i64, end: i64) -> Range {
    Range::new(start, end).expect("well-formed range")
}

fn sum_of_lengths(ranges: &[Range]) -> i64 {
    ranges.iter().map(|r| r.end - r.start).sum()
}

#[test]
fn single_rule_shift_whole_range() {
    // A stage with one rule (destStart=50, sourceStart=98, length=2)
    // applied to [98, 100) yields exactly [50, 52).
    let stage = stage_of(vec![(50, 98, 2)]);
    let out = stage.apply_to_range(range(98, 100));
    assert_eq!(out, vec![range(50, 52)]);
}

#[test]
fn single_rule_shift_with_leftover() {
    // The same rule applied to [97, 100) yields [50, 52) from the matched
    // part and [97, 98) unchanged.
    let stage = stage_of(vec![(50, 98, 2)]);
    let out = stage.apply_to_range(range(97, 100));
    assert_eq!(out.len(), 2);
    assert!(out.contains(&range(50, 52)));
    assert!(out.contains(&range(97, 98)));
    assert_eq!(sum_of_lengths(&out), 3);
}

#[test]
fn identity_stage_returns_input_unchanged() {
    // A stage with zero rules is the identity transform and returns its
    // input range set unchanged, structurally.
    let stage = stage_of(vec![]);
    let rs = RangeSet { ranges: vec![range(5, 10), range(20, 30), range(7, 9)] };
    let out = apply_stage(&rs, &stage);
    assert_eq!(out, rs);
}

#[test]
fn length_is_conserved_per_range() {
    // The pieces produced for one input range always sum to its length.
    let stage = stage_of(vec![(500, 20, 10), (900, 35, 5)]);
    for (start, end) in [(0, 100), (20, 30), (25, 37), (34, 36), (100, 150)] {
        let out = stage.apply_to_range(range(start, end));
        assert_eq!(sum_of_lengths(&out), end - start);
    }
}

#[test]
fn disjoint_rules_split_and_reconstruct() {
    // Two disjoint rules over a range spanning both intervals: the outputs
    // keep the total length, and shifting each segment back by its own
    // offset reconstructs the original range exactly.
    let stage = stage_of(vec![(100, 10, 5), (200, 15, 5)]);
    let out = stage.apply_to_range(range(10, 20));
    assert_eq!(sum_of_lengths(&out), 10);
    assert_eq!(out, vec![range(100, 105), range(200, 205)]);
    let back: Vec<Range> = vec![
        range(out[0].start - 90, out[0].end - 90),
        range(out[1].start - 185, out[1].end - 185),
    ];
    assert_eq!(back, vec![range(10, 15), range(15, 20)]);
}

#[test]
fn overlapping_rules_first_match_wins() {
    // Where two rules overlap, the rule appearing earliest in stage order
    // wins for the overlapping sub-range.
    let stage = stage_of(vec![(1000, 10, 10), (2000, 5, 10)]);
    // 12 lies in both source intervals; the first rule shifts it.
    assert_eq!(stage.apply_value(12), 1002);
    assert_eq!(stage.apply_value(7), 2002);
    assert_eq!(stage.apply_value(23), 23);
    let out = stage.apply_to_range(range(5, 25));
    assert_eq!(sum_of_lengths(&out), 20);
    assert!(out.contains(&range(1000, 1010)));
    assert!(out.contains(&range(2000, 2005)));
    assert!(out.contains(&range(20, 25)));
    assert_eq!(out.len(), 3);
}

#[test]
fn boundary_values_follow_half_open_semantics() {
    // sourceStart is inclusive and sourceStart + length exclusive.
    let stage = stage_of(vec![(300, 100, 50)]);
    assert_eq!(stage.apply_value(99), 99);
    assert_eq!(stage.apply_value(100), 300);
    assert_eq!(stage.apply_value(149), 349);
    assert_eq!(stage.apply_value(150), 150);
}

#[test]
fn rule_construction_rejects_bad_triples() {
    assert_eq!(MappingRule::new(50, 98, 0), Err(PipelineError::InvalidRule));
    assert_eq!(MappingRule::new(50, 98, -7), Err(PipelineError::InvalidRule));
    assert_eq!(MappingRule::new(0, i64::MAX, 2), Err(PipelineError::ArithmeticOverflow));
    assert_eq!(MappingRule::new(i64::MAX - 1, 0, 2), Err(PipelineError::ArithmeticOverflow));
    let rule = MappingRule::new(50, 98, 2).expect("valid triple");
    assert_eq!(rule.dest_start, 50);
    assert_eq!(rule.source_start, 98);
    assert_eq!(rule.length, 2);
}

#[test]
fn stage_construction_reports_first_bad_triple() {
    // The non-positive length is seen before the overflowing triple.
    let err = MappingStage::new(&vec![(1, 2, 3), (5, 5, 0), (0, i64::MAX, 2)]);
    assert_eq!(err, Err(PipelineError::InvalidRule));
    let err = MappingStage::new(&vec![(1, 2, 3), (0, i64::MAX, 2), (5, 5, 0)]);
    assert_eq!(err, Err(PipelineError::ArithmeticOverflow));
}

#[test]
fn range_construction_rejects_empty_intervals() {
    assert_eq!(Range::new(5, 5), Err(PipelineError::InvalidRange));
    assert_eq!(Range::new(6, 5), Err(PipelineError::InvalidRange));
    assert_eq!(Range::new(5, 6), Ok(Range { start: 5, end: 6 }));
}
