use range_pipeline::error::PipelineError;
use range_pipeline::node_line::parse_line;
use range_pipeline::pipeline::Pipeline;
use range_pipeline::pipeline::run;
use range_pipeline::range::Range;
use range_pipeline::range::RangeSet;

/// The well-known sample dataset: seed pairs and seven translation stages
/// in "destination source length" order.
fn sample_stages() -> Vec<Vec<(i64, i64, i64)>> {
    vec![
        vec![(50, 98, 2), (52, 50, 48)],
        vec![(0, 15, 37), (37, 52, 2), (39, 0, 15)],
        vec![(49, 53, 8), (0, 11, 42), (42, 0, 7), (57, 7, 4)],
        vec![(88, 18, 7), (18, 25, 70)],
        vec![(45, 77, 23), (81, 45, 19), (68, 64, 13)],
        vec![(0, 69, 1), (1, 0, 69)],
        vec![(60, 56, 37), (56, 93, 4)],
    ]
}

fn sample_seeds() -> Vec<(i64, i64)> {
    vec![(79, 14), (55, 13)]
}

#[test]
fn one_stage_scenario() {
    // Seeds [(79,14),(55,13)] through the single stage
    // [(50,98,2),(52,50,48)]: [79,93) shifts to [81,95) and [55,68) shifts
    // to [57,70); the first rule matches neither seed range.
    let pipeline = Pipeline::new(&vec![vec![(50, 98, 2), (52, 50, 48)]]).expect("valid stage");
    let seeds = RangeSet::from_pairs(&sample_seeds()).expect("valid seeds");
    let out = pipeline.apply(seeds);
    assert_eq!(out.ranges.len(), 2);
    assert!(out.ranges.contains(&Range { start: 81, end: 95 }));
    assert!(out.ranges.contains(&Range { start: 57, end: 70 }));
    let total: i64 = out.ranges.iter().map(|r| r.end - r.start).sum();
    assert_eq!(total, 27);
}

#[test]
fn sample_pipeline_minimum() {
    // The full sample pipeline over the sample seed ranges reproduces the
    // published minimum location, 46.
    assert_eq!(run(&sample_seeds(), &sample_stages()), Ok(46));
}

#[test]
fn brute_force_cross_check_on_sample() {
    // The interval strategy and pointwise enumeration must agree.
    let pipeline = Pipeline::new(&sample_stages()).expect("valid stages");
    let seeds = RangeSet::from_pairs(&sample_seeds()).expect("valid seeds");
    let enumerated = pipeline.min_by_enumeration(&seeds);
    assert_eq!(enumerated, Ok(46));
    assert_eq!(run(&sample_seeds(), &sample_stages()), enumerated);
}

#[test]
fn brute_force_cross_check_on_awkward_boundaries() {
    // Ranges that straddle several rule boundaries, rules that overlap,
    // and values no rule matches: both strategies report one minimum.
    let stages = vec![
        vec![(1000, 50, 25), (10, 60, 40), (0, 5, 3)],
        vec![(500, 990, 30), (2, 0, 10)],
        vec![(0, 3, 4), (90, 7, 100)],
    ];
    let seeds = vec![(0, 120), (40, 75), (990, 15)];
    let pipeline = Pipeline::new(&stages).expect("valid stages");
    let rs = RangeSet::from_pairs(&seeds).expect("valid seeds");
    let fast = run(&seeds, &stages);
    let slow = pipeline.min_by_enumeration(&rs);
    assert!(fast.is_ok());
    assert_eq!(fast, slow);
}

#[test]
fn overlapping_seed_pairs_are_kept_as_given() {
    // Pairs may describe overlapping or adjacent ranges; they are not
    // merged, since coverage rather than minimality is what matters.
    let rs = RangeSet::from_pairs(&vec![(5, 10), (10, 5), (8, 4)]).expect("valid seeds");
    let expected = vec![
        Range { start: 5, end: 15 },
        Range { start: 10, end: 15 },
        Range { start: 8, end: 12 },
    ];
    assert_eq!(rs.ranges, expected);
    assert_eq!(rs.minimum(), Ok(5));
}

#[test]
fn minimum_extraction_takes_smallest_start() {
    let rs = RangeSet { ranges: vec![
        Range { start: 40, end: 50 },
        Range { start: 12, end: 13 },
        Range { start: 30, end: 99 },
    ] };
    assert_eq!(rs.minimum(), Ok(12));
}

#[test]
fn minimum_of_empty_set_is_an_error() {
    let rs = RangeSet::empty();
    assert_eq!(rs.minimum(), Err(PipelineError::EmptyResult));
    let pipeline = Pipeline::new(&sample_stages()).expect("valid stages");
    assert_eq!(pipeline.min_mapped(RangeSet::empty()), Err(PipelineError::EmptyResult));
    assert_eq!(pipeline.min_by_enumeration(&RangeSet::empty()), Err(PipelineError::EmptyResult));
}

#[test]
fn run_with_no_seeds_reports_empty_result() {
    let stages = sample_stages();
    assert_eq!(run(&vec![], &stages), Err(PipelineError::EmptyResult));
}

#[test]
fn seed_pair_errors_are_reported() {
    let stages = sample_stages();
    assert_eq!(run(&vec![(79, 0)], &stages), Err(PipelineError::InvalidRange));
    assert_eq!(run(&vec![(79, -3)], &stages), Err(PipelineError::InvalidRange));
    assert_eq!(
        run(&vec![(i64::MAX, 2)], &stages),
        Err(PipelineError::ArithmeticOverflow),
    );
    assert_eq!(
        RangeSet::from_pairs(&vec![(5, 1), (7, 0)]),
        Err(PipelineError::InvalidRange),
    );
}

#[test]
fn stage_errors_come_before_seed_errors() {
    // A malformed stage aborts the run before the seeds are even looked at.
    let bad_stages = vec![vec![(50, 98, 2)], vec![(1, 2, -1)]];
    assert_eq!(run(&vec![(79, 0)], &bad_stages), Err(PipelineError::InvalidRule));
    assert_eq!(run(&vec![(79, 14)], &bad_stages), Err(PipelineError::InvalidRule));
}

#[test]
fn idempotent_construction_and_run() {
    // Building the same pipeline twice from the same triples and running it
    // on the same seeds yields bit-identical results.
    let first = Pipeline::new(&sample_stages()).expect("valid stages");
    let second = Pipeline::new(&sample_stages()).expect("valid stages");
    assert_eq!(first, second);
    let r1 = first.min_mapped(RangeSet::from_pairs(&sample_seeds()).expect("valid seeds"));
    let r2 = second.min_mapped(RangeSet::from_pairs(&sample_seeds()).expect("valid seeds"));
    assert_eq!(r1, r2);
    assert_eq!(run(&sample_seeds(), &sample_stages()), run(&sample_seeds(), &sample_stages()));
}

#[test]
fn map_value_follows_first_match_per_stage() {
    let pipeline = Pipeline::new(&sample_stages()).expect("valid stages");
    // Seed 79 goes 79 -> 81 -> 81 -> 81 -> 74 -> 78 -> 78 -> 82.
    assert_eq!(pipeline.map_value(79), 82);
    // Seed 13 matches no rule of the first stage.
    assert_eq!(pipeline.map_value(13), 35);
}

#[test]
fn parse_line_splits_fixed_positions() {
    let (label, left, right) = parse_line("AAA = (BBB, CCC)");
    assert_eq!(label, "AAA");
    assert_eq!(left, "BBB");
    assert_eq!(right, "CCC");
    let (label, left, right) = parse_line("GSV = (XQM, TRK)");
    assert_eq!(label, "GSV");
    assert_eq!(left, "XQM");
    assert_eq!(right, "TRK");
}
