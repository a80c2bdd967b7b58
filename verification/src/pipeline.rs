use vstd::prelude::*;

use crate::error::PipelineError;
use crate::range::Range;
use crate::range::RangeSet;
use crate::range::covers;
use crate::range::lemma_take_step;
use crate::range::lemma_total_len_positive;
use crate::range::pairs_error;
use crate::range::pairs_ranges;
use crate::range::range_contains;
use crate::range::range_wf;
use crate::range::set_wf;
use crate::range::total_len;
use crate::stage::MappingRule;
use crate::stage::MappingStage;
use crate::stage::apply_stage;
use crate::stage::rules_wf;
use crate::stage::stage_map;
use crate::stage::triples_error;
use crate::stage::triples_rules;

verus! {

/// Every rule of every stage is well formed.
pub open spec fn pipeline_wf(stages: Seq<Seq<MappingRule>>) -> bool {
    forall|i: int| 0 <= i < stages.len() ==> rules_wf(#[trigger] stages[i])
}

/// Where the whole pipeline sends the value `v`: the stages are applied
/// strictly in order, each consuming the previous stage's result.
pub open spec fn pipeline_map(stages: Seq<Seq<MappingRule>>, v: int) -> int
    decreases stages.len(),
{
    if stages.len() == 0 {
        v
    } else {
        pipeline_map(stages.drop_first(), stage_map(stages[0], v))
    }
}

/// Appending one stage composes its map after the pipeline's.
pub proof fn lemma_pipeline_map_push(stages: Seq<Seq<MappingRule>>, t: Seq<MappingRule>, v: int)
    ensures
        pipeline_map(stages.push(t), v) == stage_map(t, pipeline_map(stages, v)),
    decreases stages.len(),
{
    if stages.len() == 0 {
        assert(stages.push(t)[0] == t);
        assert(stages.push(t).drop_first() =~= Seq::<Seq<MappingRule>>::empty());
        assert(pipeline_map(Seq::<Seq<MappingRule>>::empty(), stage_map(t, v)) == stage_map(t, v));
    } else {
        assert(stages.push(t)[0] == stages[0]);
        assert(stages.push(t).drop_first() =~= stages.drop_first().push(t));
        lemma_pipeline_map_push(stages.drop_first(), t, stage_map(stages[0], v));
    }
}

/// `m` is the smallest value the pipeline can reach from the given ranges:
/// it is the image of some covered value, and no covered value maps below
/// it.
pub open spec fn is_min_mapped(stages: Seq<Seq<MappingRule>>, ranges: Seq<Range>, m: int) -> bool {
    &&& exists|v: int| covers(ranges, v) && #[trigger] pipeline_map(stages, v) == m
    &&& forall|v: int| #[trigger] covers(ranges, v) ==> pipeline_map(stages, v) >= m
}

/// The stage triples as mathematical sequences.
pub open spec fn triples_view(ts: Seq<Vec<(i64, i64, i64)>>) -> Seq<Seq<(i64, i64, i64)>> {
    ts.map_values(|t: Vec<(i64, i64, i64)>| t@)
}

/// The first rejection among the stages' rule triples, scanned stage by
/// stage in order.
pub open spec fn stages_error(ts: Seq<Seq<(i64, i64, i64)>>) -> Option<PipelineError>
    decreases ts.len(),
{
    if ts.len() == 0 {
        None
    } else if triples_error(ts[0]) is Some {
        triples_error(ts[0])
    } else {
        stages_error(ts.drop_first())
    }
}

/// The rule tables described by a sequence of accepted stage triples.
pub open spec fn stages_rules(ts: Seq<Seq<(i64, i64, i64)>>) -> Seq<Seq<MappingRule>> {
    ts.map_values(|t: Seq<(i64, i64, i64)>| triples_rules(t))
}

/// One unfolding step of the scan for the first rejected stage.
proof fn lemma_stages_error_step(ts: Seq<Seq<(i64, i64, i64)>>, i: int)
    requires
        0 <= i < ts.len(),
    ensures
        stages_error(ts.skip(i)) == (if triples_error(ts[i]) is Some {
            triples_error(ts[i])
        } else {
            stages_error(ts.skip(i + 1))
        }),
{
    assert(ts.skip(i)[0] == ts[i]);
    assert(ts.skip(i).drop_first() =~= ts.skip(i + 1));
}

/// An ordered sequence of mapping stages, built once from parsed rule
/// triples and treated as read-only for the lifetime of a run.
#[derive(Debug, PartialEq, Eq)]
pub struct Pipeline {
    pub stages: Vec<MappingStage>,
}

impl View for Pipeline {
    type V = Seq<Seq<MappingRule>>;

    open spec fn view(&self) -> Seq<Seq<MappingRule>> {
        self.stages@.map_values(|s: MappingStage| s@)
    }
}

impl Pipeline {
    /// Builds the pipeline from one list of rule triples per stage. The
    /// first malformed triple, scanned stage by stage in order, aborts the
    /// whole construction: a malformed stage cannot produce a meaningful
    /// partial result.
    pub fn new(stage_triples: &Vec<Vec<(i64, i64, i64)>>) -> (r: Result<Pipeline, PipelineError>)
        ensures
            match stages_error(triples_view(stage_triples@)) {
                Some(e) => r == Err::<Pipeline, PipelineError>(e),
                None => r is Ok && r->Ok_0@ == stages_rules(triples_view(stage_triples@))
                    && pipeline_wf(r->Ok_0@),
            },
    {
        let ghost ts: Seq<Seq<(i64, i64, i64)>> = triples_view(stage_triples@);
        let mut stages: Vec<MappingStage> = Vec::new();
        let n = stage_triples.len();
        let mut i: usize = 0;
        proof {
            assert(ts.skip(0) =~= ts);
        }
        while i < n
            invariant
                0 <= i <= n,
                n == stage_triples@.len(),
                ts == triples_view(stage_triples@),
                stages_error(ts) == stages_error(ts.skip(i as int)),
                stages@.len() == i,
                forall|j: int| 0 <= j < i ==> (#[trigger] stages@[j])@ == triples_rules(ts[j]),
                forall|j: int| 0 <= j < i ==> rules_wf((#[trigger] stages@[j])@),
            decreases n - i,
        {
            proof {
                assert(ts[i as int] == stage_triples@[i as int]@);
                lemma_stages_error_step(ts, i as int);
            }
            let stage = match MappingStage::new(&stage_triples[i]) {
                Ok(stage) => stage,
                Err(e) => {
                    return Err(e);
                },
            };
            stages.push(stage);
            i = i + 1;
        }
        proof {
            assert(ts.skip(n as int) =~= Seq::<Seq<(i64, i64, i64)>>::empty());
        }
        let pipeline = Pipeline { stages };
        proof {
            assert(pipeline@ =~= stages_rules(ts));
            assert forall|j: int| 0 <= j < pipeline@.len() implies rules_wf(
                #[trigger] pipeline@[j],
            ) by {
                assert(pipeline@[j] == pipeline.stages@[j]@);
            }
        }
        Ok(pipeline)
    }

    /// Threads a range set through every stage in order: stage `N`'s
    /// complete output is stage `N + 1`'s complete input. The final set
    /// covers exactly the image of the input set under the pipeline map,
    /// and conserves its total length.
    #[verifier::loop_isolation(false)]
    pub fn apply(&self, rs: RangeSet) -> (out: RangeSet)
        requires
            pipeline_wf(self@),
            set_wf(rs@),
        ensures
            set_wf(out@),
            total_len(out@) == total_len(rs@),
            forall|v: int| #[trigger] covers(rs@, v) ==> covers(out@, pipeline_map(self@, v)),
            forall|w: int| #[trigger] covers(out@, w) ==> exists|v: int|
                covers(rs@, v) && #[trigger] pipeline_map(self@, v) == w,
    {
        let ghost rs0: Seq<Range> = rs@;
        let mut cur = rs;
        let n = self.stages.len();
        let mut i: usize = 0;
        proof {
            assert(self@.take(0) =~= Seq::<Seq<MappingRule>>::empty());
            assert forall|v: int| #[trigger] covers(rs0, v) implies covers(
                cur@,
                pipeline_map(self@.take(0), v),
            ) by {
                assert(pipeline_map(self@.take(0), v) == v);
            }
        }
        while i < n
            invariant
                i <= n,
                set_wf(cur@),
                total_len(cur@) == total_len(rs0),
                forall|v: int| #[trigger] covers(rs0, v) ==> covers(
                    cur@,
                    pipeline_map(self@.take(i as int), v),
                ),
                forall|w: int| #[trigger] covers(cur@, w) ==> exists|v: int|
                    covers(rs0, v) && #[trigger] pipeline_map(self@.take(i as int), v) == w,
            decreases n - i,
        {
            let stage = &self.stages[i];
            proof {
                assert(self@[i as int] == stage@);
                assert(rules_wf(self@[i as int]));
            }
            let next = apply_stage(&cur, stage);
            proof {
                assert(self@.take(i as int + 1) =~= self@.take(i as int).push(self@[i as int]));
                assert forall|v: int| #[trigger] covers(rs0, v) implies covers(
                    next@,
                    pipeline_map(self@.take(i as int + 1), v),
                ) by {
                    lemma_pipeline_map_push(self@.take(i as int), self@[i as int], v);
                    assert(covers(cur@, pipeline_map(self@.take(i as int), v)));
                }
                assert forall|w: int| #[trigger] covers(next@, w) implies exists|v: int|
                    covers(rs0, v) && #[trigger] pipeline_map(self@.take(i as int + 1), v) == w by {
                    let x = choose|x: int| covers(cur@, x) && #[trigger] stage_map(stage@, x) == w;
                    let v = choose|v: int|
                        covers(rs0, v) && #[trigger] pipeline_map(self@.take(i as int), v) == x;
                    lemma_pipeline_map_push(self@.take(i as int), self@[i as int], v);
                    assert(covers(rs0, v) && pipeline_map(self@.take(i as int + 1), v) == w);
                }
            }
            cur = next;
            i = i + 1;
        }
        proof {
            assert(self@.take(n as int) =~= self@);
        }
        cur
    }

    /// Applies the whole pipeline to a range set and extracts the smallest
    /// reachable value, by interval splitting. Surfaces `EmptyResult` if
    /// and only if the input set holds no range.
    pub fn min_mapped(&self, rs: RangeSet) -> (r: Result<i64, PipelineError>)
        requires
            pipeline_wf(self@),
            set_wf(rs@),
        ensures
            rs@.len() == 0 ==> r == Err::<i64, PipelineError>(PipelineError::EmptyResult),
            rs@.len() > 0 ==> r is Ok && is_min_mapped(self@, rs@, r->Ok_0 as int),
    {
        let ghost rs0: Seq<Range> = rs@;
        let mapped = self.apply(rs);
        proof {
            lemma_total_len_positive(rs0);
            lemma_total_len_positive(mapped@);
        }
        let result = mapped.minimum();
        proof {
            if rs0.len() > 0 {
                let m = result->Ok_0 as int;
                assert(covers(mapped@, m));
                let v = choose|v: int| covers(rs0, v) && #[trigger] pipeline_map(self@, v) == m;
                assert(covers(rs0, v) && pipeline_map(self@, v) == m);
                assert forall|v2: int| #[trigger] covers(rs0, v2) implies pipeline_map(self@, v2)
                    >= m by {
                    assert(covers(mapped@, pipeline_map(self@, v2)));
                }
            }
        }
        result
    }

    /// Where the whole pipeline sends one single value, stage by stage.
    #[verifier::loop_isolation(false)]
    pub fn map_value(&self, v: i64) -> (w: i64)
        requires
            pipeline_wf(self@),
        ensures
            w as int == pipeline_map(self@, v as int),
    {
        let mut cur = v;
        let n = self.stages.len();
        let mut i: usize = 0;
        proof {
            assert(self@.take(0) =~= Seq::<Seq<MappingRule>>::empty());
        }
        while i < n
            invariant
                i <= n,
                cur as int == pipeline_map(self@.take(i as int), v as int),
            decreases n - i,
        {
            let stage = &self.stages[i];
            proof {
                assert(self@[i as int] == stage@);
                assert(rules_wf(self@[i as int]));
                assert(self@.take(i as int + 1) =~= self@.take(i as int).push(self@[i as int]));
                lemma_pipeline_map_push(self@.take(i as int), self@[i as int], v as int);
            }
            cur = stage.apply_value(cur);
            i = i + 1;
        }
        proof {
            assert(self@.take(n as int) =~= self@);
        }
        cur
    }

    /// The smallest pipeline image of any value of one well-formed range,
    /// found by plain pointwise enumeration.
    #[verifier::loop_isolation(false)]
    fn range_min_mapped(&self, piece: Range) -> (m: i64)
        requires
            pipeline_wf(self@),
            range_wf(piece),
        ensures
            exists|x: int| range_contains(piece, x) && #[trigger] pipeline_map(self@, x) == m as int,
            forall|x: int| #[trigger] range_contains(piece, x) ==> pipeline_map(self@, x) >= m as int,
    {
        let mut best = self.map_value(piece.start);
        proof {
            assert(pipeline_map(self@, piece.start as int) == best as int);
        }
        let mut w: i64 = piece.start + 1;
        while w < piece.end
            invariant
                piece.start < w <= piece.end,
                exists|x: int|
                    piece.start <= x < w && #[trigger] pipeline_map(self@, x) == best as int,
                forall|x: int|
                    piece.start <= x < w ==> #[trigger] pipeline_map(self@, x) >= best as int,
            decreases piece.end - w,
        {
            let c = self.map_value(w);
            if c < best {
                best = c;
            }
            proof {
                assert(pipeline_map(self@, w as int) >= best as int);
            }
            w = w + 1;
        }
        best
    }

    /// The smallest value the pipeline can reach from a range set, found by
    /// enumerating every covered value pointwise and mapping it through
    /// each stage's first matching rule. Correct but slow past small
    /// inputs; it serves as the independent cross-check of the interval
    /// strategy, whose contract promises the same minimum.
    #[verifier::loop_isolation(false)]
    pub fn min_by_enumeration(&self, rs: &RangeSet) -> (r: Result<i64, PipelineError>)
        requires
            pipeline_wf(self@),
            set_wf(rs@),
        ensures
            rs@.len() == 0 ==> r == Err::<i64, PipelineError>(PipelineError::EmptyResult),
            rs@.len() > 0 ==> r is Ok && is_min_mapped(self@, rs@, r->Ok_0 as int),
    {
        let n = rs.ranges.len();
        if n == 0 {
            return Err(PipelineError::EmptyResult);
        }
        proof {
            assert(range_wf(rs@[0]));
            lemma_take_step(rs@, 0);
        }
        let mut best = self.range_min_mapped(rs.ranges[0]);
        proof {
            let x0 = choose|x: int|
                range_contains(rs@[0], x) && #[trigger] pipeline_map(self@, x) == best as int;
            assert(covers(rs@.take(1), x0));
            assert forall|x: int| #[trigger] covers(rs@.take(1), x) implies pipeline_map(self@, x)
                >= best as int by {
                assert(!covers(rs@.take(0), x));
                assert(range_contains(rs@[0], x));
            }
        }
        let mut i: usize = 1;
        while i < n
            invariant
                1 <= i <= n,
                exists|x: int|
                    covers(rs@.take(i as int), x) && #[trigger] pipeline_map(self@, x)
                        == best as int,
                forall|x: int| #[trigger] covers(rs@.take(i as int), x) ==> pipeline_map(self@, x)
                    >= best as int,
            decreases n - i,
        {
            proof {
                assert(range_wf(rs@[i as int]));
                lemma_take_step(rs@, i as int);
            }
            let ghost best_before: i64 = best;
            let c = self.range_min_mapped(rs.ranges[i]);
            if c < best {
                best = c;
            }
            proof {
                if c < best_before {
                    let x = choose|x: int|
                        range_contains(rs@[i as int], x) && #[trigger] pipeline_map(self@, x)
                            == c as int;
                    assert(covers(rs@.take(i as int + 1), x));
                } else {
                    let x = choose|x: int|
                        covers(rs@.take(i as int), x) && #[trigger] pipeline_map(self@, x)
                            == best_before as int;
                    assert(covers(rs@.take(i as int + 1), x));
                }
                assert forall|x: int| #[trigger] covers(rs@.take(i as int + 1), x) implies
                    pipeline_map(self@, x) >= best as int by {
                    if covers(rs@.take(i as int), x) {
                    } else {
                        assert(range_contains(rs@[i as int], x));
                    }
                }
            }
            i = i + 1;
        }
        proof {
            assert(rs@.take(n as int) =~= rs@);
        }
        Ok(best)
    }
}

/// What `run` promises of its result for given seed pairs and stage
/// triples: the first construction error if there is one, `EmptyResult`
/// for an empty seed list, and otherwise the smallest pipeline image of
/// any seeded value.
pub open spec fn run_postcondition(
    pairs: Seq<(i64, i64)>,
    triples: Seq<Seq<(i64, i64, i64)>>,
    r: Result<i64, PipelineError>,
) -> bool {
    if stages_error(triples) is Some {
        r == Err::<i64, PipelineError>(stages_error(triples)->Some_0)
    } else if pairs_error(pairs) is Some {
        r == Err::<i64, PipelineError>(pairs_error(pairs)->Some_0)
    } else if pairs.len() == 0 {
        r == Err::<i64, PipelineError>(PipelineError::EmptyResult)
    } else {
        r is Ok && is_min_mapped(stages_rules(triples), pairs_ranges(pairs), r->Ok_0 as int)
    }
}

/// The whole-run entry point: builds the stages from their triples and the
/// initial range set from the `(start, length)` seed pairs, threads the
/// set through every stage, and returns the global minimum mapped value.
/// A malformed stage triple is reported ahead of a malformed seed pair;
/// an empty seed list surfaces `EmptyResult`.
pub fn run(seed_pairs: &Vec<(i64, i64)>, stage_triples: &Vec<Vec<(i64, i64, i64)>>) -> (r: Result<
    i64,
    PipelineError,
>)
    ensures
        run_postcondition(seed_pairs@, triples_view(stage_triples@), r),
{
    let pipeline = match Pipeline::new(stage_triples) {
        Ok(pipeline) => pipeline,
        Err(e) => {
            return Err(e);
        },
    };
    let seeds = match RangeSet::from_pairs(seed_pairs) {
        Ok(seeds) => seeds,
        Err(e) => {
            return Err(e);
        },
    };
    pipeline.min_mapped(seeds)
}

/// Any two values that are each a minimum of the same pipeline's image over
/// the same ranges are equal. In particular the interval-splitting strategy
/// and pointwise enumeration, whose contracts both promise such a minimum,
/// must report the same value.
pub proof fn lemma_min_mapped_unique(
    stages: Seq<Seq<MappingRule>>,
    ranges: Seq<Range>,
    m1: int,
    m2: int,
)
    requires
        is_min_mapped(stages, ranges, m1),
        is_min_mapped(stages, ranges, m2),
    ensures
        m1 == m2,
{
    let v1 = choose|v: int| covers(ranges, v) && #[trigger] pipeline_map(stages, v) == m1;
    let v2 = choose|v: int| covers(ranges, v) && #[trigger] pipeline_map(stages, v) == m2;
    assert(covers(ranges, v1));
    assert(covers(ranges, v2));
}

/// Building the pipeline twice from the same rule triples and running it on
/// the same seed pairs yields identical results: everything `run` promises
/// pins the outcome down as a function of the triples and pairs alone, with
/// no hidden ordering nondeterminism.
pub proof fn lemma_run_deterministic(
    pairs: Seq<(i64, i64)>,
    triples: Seq<Seq<(i64, i64, i64)>>,
    r1: Result<i64, PipelineError>,
    r2: Result<i64, PipelineError>,
)
    requires
        run_postcondition(pairs, triples, r1),
        run_postcondition(pairs, triples, r2),
    ensures
        r1 == r2,
{
    if stages_error(triples) is None && pairs_error(pairs) is None && pairs.len() > 0 {
        lemma_min_mapped_unique(
            stages_rules(triples),
            pairs_ranges(pairs),
            r1->Ok_0 as int,
            r2->Ok_0 as int,
        );
    }
}

} // verus!
