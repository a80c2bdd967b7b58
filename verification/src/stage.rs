use vstd::prelude::*;

use crate::error::PipelineError;
use crate::range::Range;
use crate::range::RangeSet;
use crate::range::covers;
use crate::range::lemma_covers_concat;
use crate::range::lemma_covers_push;
use crate::range::lemma_set_wf_concat;
use crate::range::lemma_set_wf_push;
use crate::range::lemma_take_step;
use crate::range::lemma_total_len_concat;
use crate::range::lemma_total_len_push;
use crate::range::range_contains;
use crate::range::range_len;
use crate::range::range_wf;
use crate::range::set_wf;
use crate::range::total_len;

verus! {

/// One source-to-destination interval translation: a bijective shift by
/// `dest_start - source_start` applied to every value in
/// `[source_start, source_start + length)`.
#[derive(Clone, Copy, Debug, PartialEq, Eq, Structural)]
pub struct MappingRule {
    pub dest_start: i64,
    pub source_start: i64,
    pub length: i64,
}

/// A well-formed rule has a positive length, and both of its interval ends,
/// `source_start + length` and `dest_start + length`, representable as
/// 64-bit signed integers.
pub open spec fn rule_wf(rule: MappingRule) -> bool {
    &&& rule.length > 0
    &&& rule.source_start + rule.length <= i64::MAX
    &&& rule.dest_start + rule.length <= i64::MAX
}

/// Whether `v` lies in the rule's source interval.
pub open spec fn rule_applies(rule: MappingRule, v: int) -> bool {
    rule.source_start <= v < rule.source_start + rule.length
}

/// Where the rule sends a value of its source interval.
pub open spec fn rule_shift(rule: MappingRule, v: int) -> int {
    v - rule.source_start + rule.dest_start
}

/// Every rule of the sequence is well formed.
pub open spec fn rules_wf(rules: Seq<MappingRule>) -> bool {
    forall|i: int| 0 <= i < rules.len() ==> rule_wf(#[trigger] rules[i])
}

/// Where one stage sends the value `v`: the first rule in stage order whose
/// source interval contains `v` shifts it, and a value no rule matches
/// passes through unchanged.
pub open spec fn stage_map(rules: Seq<MappingRule>, v: int) -> int
    decreases rules.len(),
{
    if rules.len() == 0 {
        v
    } else if rule_applies(rules[0], v) {
        rule_shift(rules[0], v)
    } else {
        stage_map(rules.drop_first(), v)
    }
}

/// One unfolding step of `stage_map` at position `k`: the rule there either
/// settles the value or hands it on to the remaining rules.
pub proof fn lemma_stage_map_step(rules: Seq<MappingRule>, k: int, v: int)
    requires
        0 <= k < rules.len(),
    ensures
        rule_applies(rules[k], v) ==> stage_map(rules.skip(k), v) == rule_shift(rules[k], v),
        !rule_applies(rules[k], v) ==> stage_map(rules.skip(k), v) == stage_map(
            rules.skip(k + 1),
            v,
        ),
{
    assert(rules.skip(k)[0] == rules[k]);
    assert(rules.skip(k).drop_first() =~= rules.skip(k + 1));
}

/// Why one `(dest_start, source_start, length)` rule triple is rejected, if
/// it is: a non-positive length is malformed, and an interval end past
/// `i64::MAX` is not representable.
pub open spec fn triple_error(t: (i64, i64, i64)) -> Option<PipelineError> {
    if t.2 <= 0 {
        Some(PipelineError::InvalidRule)
    } else if t.1 + t.2 > i64::MAX || t.0 + t.2 > i64::MAX {
        Some(PipelineError::ArithmeticOverflow)
    } else {
        None
    }
}

/// The rule described by one accepted triple, in the textual
/// "destination, source, length" convention.
pub open spec fn triple_rule(t: (i64, i64, i64)) -> MappingRule {
    MappingRule { dest_start: t.0, source_start: t.1, length: t.2 }
}

/// The first rejection among a sequence of rule triples, scanned in order.
pub open spec fn triples_error(ts: Seq<(i64, i64, i64)>) -> Option<PipelineError>
    decreases ts.len(),
{
    if ts.len() == 0 {
        None
    } else if triple_error(ts[0]) is Some {
        triple_error(ts[0])
    } else {
        triples_error(ts.drop_first())
    }
}

/// The rules described by a sequence of accepted triples, in order.
pub open spec fn triples_rules(ts: Seq<(i64, i64, i64)>) -> Seq<MappingRule> {
    ts.map_values(|t: (i64, i64, i64)| triple_rule(t))
}

/// One unfolding step of the scan for the first rejected triple.
proof fn lemma_triples_error_step(ts: Seq<(i64, i64, i64)>, i: int)
    requires
        0 <= i < ts.len(),
    ensures
        triples_error(ts.skip(i)) == (if triple_error(ts[i]) is Some {
            triple_error(ts[i])
        } else {
            triples_error(ts.skip(i + 1))
        }),
{
    assert(ts.skip(i)[0] == ts[i]);
    assert(ts.skip(i).drop_first() =~= ts.skip(i + 1));
}

impl MappingRule {
    /// Builds one rule from its `(dest_start, source_start, length)` triple,
    /// rejecting a non-positive length as `InvalidRule` and an interval end
    /// past `i64::MAX` as `ArithmeticOverflow`.
    pub fn new(dest_start: i64, source_start: i64, length: i64) -> (r: Result<
        MappingRule,
        PipelineError,
    >)
        ensures
            match triple_error((dest_start, source_start, length)) {
                Some(e) => r == Err::<MappingRule, PipelineError>(e),
                None => r is Ok && r->Ok_0 == triple_rule((dest_start, source_start, length))
                    && rule_wf(r->Ok_0),
            },
    {
        if length <= 0 {
            return Err(PipelineError::InvalidRule);
        }
        if source_start > i64::MAX - length || dest_start > i64::MAX - length {
            return Err(PipelineError::ArithmeticOverflow);
        }
        Ok(MappingRule { dest_start, source_start, length })
    }
}

/// An ordered collection of mapping rules forming one translation layer;
/// values matched by no rule pass through unchanged. Rule source intervals
/// are expected to be pairwise disjoint; where two rules do overlap, the
/// rule appearing earliest in stage order wins for the overlapping part.
#[derive(Clone, Debug, PartialEq, Eq)]
pub struct MappingStage {
    pub rules: Vec<MappingRule>,
}

impl View for MappingStage {
    type V = Seq<MappingRule>;

    open spec fn view(&self) -> Seq<MappingRule> {
        self.rules@
    }
}

impl MappingStage {
    /// Builds one stage from its rule triples, in order. The first malformed
    /// triple is reported and aborts the construction.
    pub fn new(triples: &Vec<(i64, i64, i64)>) -> (r: Result<MappingStage, PipelineError>)
        ensures
            match triples_error(triples@) {
                Some(e) => r == Err::<MappingStage, PipelineError>(e),
                None => r is Ok && r->Ok_0@ == triples_rules(triples@) && rules_wf(r->Ok_0@),
            },
    {
        let mut rules: Vec<MappingRule> = Vec::new();
        let n = triples.len();
        let mut i: usize = 0;
        proof {
            assert(triples@.skip(0) =~= triples@);
        }
        while i < n
            invariant
                0 <= i <= n,
                n == triples@.len(),
                triples_error(triples@) == triples_error(triples@.skip(i as int)),
                rules@ =~= triples_rules(triples@.take(i as int)),
                rules_wf(rules@),
            decreases n - i,
        {
            let (dest_start, source_start, length) = triples[i];
            proof {
                lemma_triples_error_step(triples@, i as int);
            }
            let rule = match MappingRule::new(dest_start, source_start, length) {
                Ok(rule) => rule,
                Err(e) => {
                    return Err(e);
                },
            };
            rules.push(rule);
            proof {
                assert(rules@ =~= triples_rules(triples@.take(i as int + 1)));
            }
            i = i + 1;
        }
        proof {
            assert(triples@.skip(n as int) =~= Seq::<(i64, i64, i64)>::empty());
            assert(triples@.take(n as int) =~= triples@);
        }
        Ok(MappingStage { rules })
    }

    /// Where this stage sends one single value, computed pointwise: the
    /// rules are scanned in stage order and the first whose source interval
    /// contains the value shifts it; a value no rule matches passes through
    /// unchanged.
    #[verifier::loop_isolation(false)]
    pub fn apply_value(&self, v: i64) -> (w: i64)
        requires
            rules_wf(self@),
        ensures
            w as int == stage_map(self@, v as int),
    {
        let n = self.rules.len();
        let mut k: usize = 0;
        proof {
            assert(self@.skip(0) =~= self@);
        }
        while k < n
            invariant
                k <= n,
                stage_map(self@, v as int) == stage_map(self@.skip(k as int), v as int),
            decreases n - k,
        {
            let rule = self.rules[k];
            proof {
                assert(rule_wf(self@[k as int]));
                lemma_stage_map_step(self@, k as int, v as int);
            }
            let src_last = rule.source_start + (rule.length - 1);
            if rule.source_start <= v && v <= src_last {
                return v - rule.source_start + rule.dest_start;
            }
            k = k + 1;
        }
        proof {
            assert(self@.skip(n as int) =~= Seq::<MappingRule>::empty());
        }
        v
    }

    /// Translates one input range through this stage: a worklist of still
    /// unmatched sub-ranges is split against each rule in stage order, the
    /// matched intersection is shifted into the output, and whatever no rule
    /// matched passes through unchanged at the end.
    ///
    /// The outputs cover exactly the image of the input range under the
    /// stage map, and their lengths sum to the input's length: no value is
    /// created or destroyed, only relabeled or relocated.
    #[verifier::loop_isolation(false)]
    pub fn apply_to_range(&self, r: Range) -> (out: Vec<Range>)
        requires
            rules_wf(self@),
            range_wf(r),
        ensures
            set_wf(out@),
            total_len(out@) == range_len(r),
            forall|v: int| #[trigger] range_contains(r, v) ==> covers(out@, stage_map(self@, v)),
            forall|w: int| #[trigger] covers(out@, w) ==> exists|v: int|
                range_contains(r, v) && #[trigger] stage_map(self@, v) == w,
            self@.len() == 0 ==> out@ == seq![r],
    {
        let mut work: Vec<Range> = Vec::new();
        work.push(r);
        let mut out: Vec<Range> = Vec::new();
        let n = self.rules.len();
        let mut k: usize = 0;
        proof {
            assert(self@.skip(0) =~= self@);
            assert(Seq::<Range>::empty().push(r) =~= work@);
            lemma_covers_push(Seq::<Range>::empty(), r);
            lemma_total_len_push(Seq::<Range>::empty(), r);
        }
        while k < n
            invariant
                k <= n,
                set_wf(work@),
                set_wf(out@),
                total_len(work@) + total_len(out@) == range_len(r),
                forall|v: int| #[trigger] covers(work@, v) ==> range_contains(r, v) && stage_map(
                    self@,
                    v,
                ) == stage_map(self@.skip(k as int), v),
                forall|v: int| #[trigger] range_contains(r, v) ==> covers(work@, v) || covers(
                    out@,
                    stage_map(self@, v),
                ),
                forall|w: int| #[trigger] covers(out@, w) ==> exists|v: int|
                    range_contains(r, v) && #[trigger] stage_map(self@, v) == w,
                n == 0 ==> work@ == seq![r] && out@.len() == 0,
            decreases n - k,
        {
            let rule = self.rules[k];
            proof {
                assert(rule_wf(self@[k as int]));
            }
            let src_start = rule.source_start;
            let src_end = rule.source_start + rule.length;
            let mut new_work: Vec<Range> = Vec::new();
            let ghost out_base: int = total_len(out@);
            let m = work.len();
            let mut j: usize = 0;
            while j < m
                invariant
                    j <= m,
                    set_wf(new_work@),
                    set_wf(out@),
                    total_len(new_work@) + total_len(out@) == total_len(work@.take(j as int))
                        + out_base,
                    forall|v: int| #[trigger] covers(new_work@, v) ==> covers(work@, v)
                        && !rule_applies(self@[k as int], v),
                    forall|v: int| #[trigger] covers(work@.take(j as int), v) ==> covers(
                        new_work@,
                        v,
                    ) || covers(out@, stage_map(self@, v)),
                    forall|v: int| #[trigger] range_contains(r, v) ==> covers(work@, v) || covers(
                        out@,
                        stage_map(self@, v),
                    ),
                    forall|w: int| #[trigger] covers(out@, w) ==> exists|v: int|
                        range_contains(r, v) && #[trigger] stage_map(self@, v) == w,
                decreases m - j,
            {
                let u = work[j];
                let ghost nw0: Seq<Range> = new_work@;
                let ghost out0: Seq<Range> = out@;
                proof {
                    assert(range_wf(work@[j as int]));
                    lemma_take_step(work@, j as int);
                }
                let lo = if u.start > src_start {
                    u.start
                } else {
                    src_start
                };
                let hi = if u.end < src_end {
                    u.end
                } else {
                    src_end
                };
                let before = Range { start: u.start, end: lo };
                let after = Range { start: hi, end: u.end };
                if lo < hi {
                    // The intersection [lo, hi) is matched by this rule; the
                    // leftover pieces go back to be checked against the
                    // remaining rules.
                    if u.start < lo {
                        proof {
                            lemma_set_wf_push(new_work@, before);
                            lemma_covers_push(new_work@, before);
                            lemma_total_len_push(new_work@, before);
                        }
                        new_work.push(before);
                    }
                    if hi < u.end {
                        proof {
                            lemma_set_wf_push(new_work@, after);
                            lemma_covers_push(new_work@, after);
                            lemma_total_len_push(new_work@, after);
                        }
                        new_work.push(after);
                    }
                    let shifted = Range {
                        start: lo - src_start + rule.dest_start,
                        end: hi - src_start + rule.dest_start,
                    };
                    proof {
                        lemma_set_wf_push(out@, shifted);
                        lemma_covers_push(out@, shifted);
                        lemma_total_len_push(out@, shifted);
                    }
                    out.push(shifted);
                    proof {
                        assert forall|v: int| #[trigger] covers(new_work@, v) implies covers(
                            work@,
                            v,
                        ) && !rule_applies(self@[k as int], v) by {
                            if !covers(nw0, v) {
                                assert(range_contains(work@[j as int], v));
                            }
                        }
                        assert forall|w: int| #[trigger] covers(out@, w) implies exists|v: int|
                            range_contains(r, v) && #[trigger] stage_map(self@, v) == w by {
                            if !covers(out0, w) {
                                assert(range_contains(shifted, w));
                                let v = w - rule.dest_start + src_start;
                                assert(range_contains(work@[j as int], v));
                                assert(covers(work@, v));
                                lemma_stage_map_step(self@, k as int, v);
                                assert(range_contains(r, v) && stage_map(self@, v) == w);
                            }
                        }
                        assert forall|v: int| #[trigger] covers(work@.take(j as int + 1), v)
                            implies covers(new_work@, v) || covers(out@, stage_map(self@, v)) by {
                            if covers(work@.take(j as int), v) {
                                if covers(nw0, v) {
                                    assert(covers(new_work@, v));
                                } else {
                                    assert(covers(out0, stage_map(self@, v)));
                                    assert(covers(out@, stage_map(self@, v)));
                                }
                            } else {
                                assert(range_contains(work@[j as int], v));
                                if lo <= v < hi {
                                    assert(covers(work@, v));
                                    lemma_stage_map_step(self@, k as int, v);
                                    assert(range_contains(shifted, rule_shift(self@[k as int], v)));
                                    assert(covers(out@, stage_map(self@, v)));
                                } else if v < lo {
                                    assert(range_contains(before, v));
                                    assert(covers(new_work@, v));
                                } else {
                                    assert(range_contains(after, v));
                                    assert(covers(new_work@, v));
                                }
                            }
                        }
                    }
                } else {
                    // The rule's source interval misses this piece entirely:
                    // it stays on the worklist unchanged.
                    proof {
                        lemma_set_wf_push(new_work@, u);
                        lemma_covers_push(new_work@, u);
                        lemma_total_len_push(new_work@, u);
                    }
                    new_work.push(u);
                    proof {
                        assert forall|v: int| #[trigger] covers(new_work@, v) implies covers(
                            work@,
                            v,
                        ) && !rule_applies(self@[k as int], v) by {
                            if !covers(nw0, v) {
                                assert(range_contains(work@[j as int], v));
                            }
                        }
                        assert forall|v: int| #[trigger] covers(work@.take(j as int + 1), v)
                            implies covers(new_work@, v) || covers(out@, stage_map(self@, v)) by {
                            if covers(work@.take(j as int), v) {
                                if covers(nw0, v) {
                                    assert(covers(new_work@, v));
                                }
                            } else {
                                assert(range_contains(u, v));
                                assert(covers(new_work@, v));
                            }
                        }
                    }
                }
                j = j + 1;
            }
            proof {
                assert(work@.take(m as int) =~= work@);
                assert forall|v: int| #[trigger] covers(new_work@, v) implies range_contains(r, v)
                    && stage_map(self@, v) == stage_map(self@.skip(k as int + 1), v) by {
                    assert(covers(work@, v));
                    lemma_stage_map_step(self@, k as int, v);
                }
            }
            work = new_work;
            k = k + 1;
        }
        // Every sub-range still on the worklist had no matching rule: it
        // passes through under the identity mapping.
        proof {
            assert(self@.skip(n as int) =~= Seq::<MappingRule>::empty());
        }
        let m = work.len();
        let ghost out_mid: Seq<Range> = out@;
        let mut j: usize = 0;
        while j < m
            invariant
                j <= m,
                out@ =~= out_mid + work@.take(j as int),
            decreases m - j,
        {
            let u = work[j];
            out.push(u);
            proof {
                assert(work@.take(j as int).push(work@[j as int]) =~= work@.take(j as int + 1));
                assert(out@ =~= out_mid + work@.take(j as int + 1));
            }
            j = j + 1;
        }
        proof {
            assert(work@.take(m as int) =~= work@);
            assert(out@ =~= out_mid + work@);
            lemma_set_wf_concat(out_mid, work@);
            lemma_total_len_concat(out_mid, work@);
            lemma_covers_concat(out_mid, work@);
            assert forall|v: int| #[trigger] covers(work@, v) implies stage_map(self@, v) == v by {
                assert(stage_map(self@.skip(n as int), v) == v);
            }
            assert forall|v: int| #[trigger] range_contains(r, v) implies covers(
                out@,
                stage_map(self@, v),
            ) by {
                if covers(work@, v) {
                    assert(covers(out@, v));
                }
            }
            assert forall|w: int| #[trigger] covers(out@, w) implies exists|v: int|
                range_contains(r, v) && #[trigger] stage_map(self@, v) == w by {
                if covers(work@, w) {
                    assert(range_contains(r, w) && stage_map(self@, w) == w);
                }
            }
            if n == 0 {
                assert(out@ =~= seq![r]);
            }
        }
        out
    }
}

/// Applies one stage to every range of a set and unions the results: the
/// next stage's input. An empty stage is the identity transform and returns
/// its input ranges unchanged, structurally.
#[verifier::loop_isolation(false)]
pub fn apply_stage(rs: &RangeSet, stage: &MappingStage) -> (out: RangeSet)
    requires
        rules_wf(stage@),
        set_wf(rs@),
    ensures
        set_wf(out@),
        total_len(out@) == total_len(rs@),
        forall|v: int| #[trigger] covers(rs@, v) ==> covers(out@, stage_map(stage@, v)),
        forall|w: int| #[trigger] covers(out@, w) ==> exists|v: int|
            covers(rs@, v) && #[trigger] stage_map(stage@, v) == w,
        stage@.len() == 0 ==> out@ == rs@,
{
    let mut out: Vec<Range> = Vec::new();
    let n = rs.ranges.len();
    let mut i: usize = 0;
    while i < n
        invariant
            i <= n,
            set_wf(out@),
            total_len(out@) == total_len(rs@.take(i as int)),
            forall|v: int| #[trigger] covers(rs@.take(i as int), v) ==> covers(
                out@,
                stage_map(stage@, v),
            ),
            forall|w: int| #[trigger] covers(out@, w) ==> exists|v: int|
                covers(rs@, v) && #[trigger] stage_map(stage@, v) == w,
            stage@.len() == 0 ==> out@ =~= rs@.take(i as int),
        decreases n - i,
    {
        let piece = rs.ranges[i];
        proof {
            assert(range_wf(rs@[i as int]));
            lemma_take_step(rs@, i as int);
        }
        let mut translated = stage.apply_to_range(piece);
        let ghost out_prev: Seq<Range> = out@;
        let ghost translated_view: Seq<Range> = translated@;
        out.append(&mut translated);
        proof {
            lemma_set_wf_concat(out_prev, translated_view);
            lemma_total_len_concat(out_prev, translated_view);
            lemma_covers_concat(out_prev, translated_view);
            assert forall|w: int| #[trigger] covers(out@, w) implies exists|v: int|
                covers(rs@, v) && #[trigger] stage_map(stage@, v) == w by {
                if covers(translated_view, w) {
                    let v = choose|v: int|
                        range_contains(piece, v) && #[trigger] stage_map(stage@, v) == w;
                    assert(range_contains(rs@[i as int], v));
                    assert(covers(rs@, v));
                }
            }
            assert forall|v: int| #[trigger] covers(rs@.take(i as int + 1), v) implies covers(
                out@,
                stage_map(stage@, v),
            ) by {
                if range_contains(rs@[i as int], v) {
                    assert(covers(translated_view, stage_map(stage@, v)));
                }
            }
            if stage@.len() == 0 {
                assert(translated_view =~= seq![piece]);
                assert(out@ =~= rs@.take(i as int + 1));
            }
        }
        i = i + 1;
    }
    proof {
        assert(rs@.take(n as int) =~= rs@);
    }
    RangeSet { ranges: out }
}

} // verus!
