use vstd::prelude::*;

use crate::error::PipelineError;

verus! {

/// A half-open interval `[start, end)` of 64-bit integers: the atomic unit
/// moved through the pipeline. Ranges are immutable once constructed; new
/// ranges are produced by splitting, never mutated in place.
#[derive(Clone, Copy, Debug, PartialEq, Eq, Structural)]
pub struct Range {
    pub start: i64,
    pub end: i64,
}

/// A well-formed range is non-empty: its start lies strictly below its end.
pub open spec fn range_wf(r: Range) -> bool {
    r.start < r.end
}

/// Whether the integer `v` lies in the half-open interval `r`.
pub open spec fn range_contains(r: Range, v: int) -> bool {
    r.start <= v < r.end
}

/// How many integers `r` holds.
pub open spec fn range_len(r: Range) -> int {
    r.end - r.start
}

/// The range `[start, end)` as a value, for use in contracts.
pub open spec fn range_at(start: i64, end: i64) -> Range {
    Range { start, end }
}

impl Range {
    /// Builds the range `[start, end)`, rejecting an empty or reversed
    /// interval as malformed.
    pub fn new(start: i64, end: i64) -> (r: Result<Range, PipelineError>)
        ensures
            start < end ==> r == Ok::<Range, PipelineError>(range_at(start, end)),
            start >= end ==> r == Err::<Range, PipelineError>(PipelineError::InvalidRange),
    {
        if start < end {
            Ok(Range { start, end })
        } else {
            Err(PipelineError::InvalidRange)
        }
    }
}

/// Every range of the sequence is well formed.
pub open spec fn set_wf(rs: Seq<Range>) -> bool {
    forall|i: int| 0 <= i < rs.len() ==> range_wf(#[trigger] rs[i])
}

/// Whether some range of the sequence contains the integer `v`.
pub open spec fn covers(rs: Seq<Range>, v: int) -> bool {
    exists|i: int| 0 <= i < rs.len() && #[trigger] range_contains(rs[i], v)
}

/// The sum of the lengths of all ranges of the sequence.
pub open spec fn total_len(rs: Seq<Range>) -> int
    decreases rs.len(),
{
    if rs.len() == 0 {
        0
    } else {
        total_len(rs.drop_last()) + range_len(rs.last())
    }
}

/// Appending one range adds exactly that range's length to the total.
pub proof fn lemma_total_len_push(rs: Seq<Range>, r: Range)
    ensures
        total_len(rs.push(r)) == total_len(rs) + range_len(r),
{
    assert(rs.push(r).drop_last() =~= rs);
}

/// The total length distributes over concatenation.
pub proof fn lemma_total_len_concat(a: Seq<Range>, b: Seq<Range>)
    ensures
        total_len(a + b) == total_len(a) + total_len(b),
    decreases b.len(),
{
    if b.len() == 0 {
        assert(a + b =~= a);
    } else {
        lemma_total_len_concat(a, b.drop_last());
        assert((a + b).drop_last() =~= a + b.drop_last());
        assert((a + b).last() == b.last());
    }
}

/// A well-formed sequence of ranges has a non-negative total length, and a
/// positive one as soon as it holds any range at all.
pub proof fn lemma_total_len_positive(rs: Seq<Range>)
    requires
        set_wf(rs),
    ensures
        total_len(rs) >= 0,
        rs.len() > 0 ==> total_len(rs) > 0,
    decreases rs.len(),
{
    if rs.len() > 0 {
        assert(range_wf(rs[rs.len() - 1]));
        assert(set_wf(rs.drop_last()));
        lemma_total_len_positive(rs.drop_last());
    }
}

/// How pushing one range changes what a sequence covers.
pub proof fn lemma_covers_push(rs: Seq<Range>, r: Range)
    ensures
        forall|v: int| #[trigger] covers(rs, v) ==> covers(rs.push(r), v),
        forall|v: int| #[trigger] range_contains(r, v) ==> covers(rs.push(r), v),
        forall|v: int| #[trigger] covers(rs.push(r), v) ==> covers(rs, v) || range_contains(r, v),
{
    assert forall|v: int| #[trigger] covers(rs, v) implies covers(rs.push(r), v) by {
        let i = choose|i: int| 0 <= i < rs.len() && #[trigger] range_contains(rs[i], v);
        assert(range_contains(rs.push(r)[i], v));
    }
    assert forall|v: int| #[trigger] range_contains(r, v) implies covers(rs.push(r), v) by {
        assert(range_contains(rs.push(r)[rs.len() as int], v));
    }
    assert forall|v: int| #[trigger] covers(rs.push(r), v) implies covers(rs, v)
        || range_contains(r, v) by {
        let i = choose|i: int|
            0 <= i < rs.push(r).len() && #[trigger] range_contains(rs.push(r)[i], v);
        if i < rs.len() {
            assert(range_contains(rs[i], v));
        }
    }
}

/// How concatenation combines what two sequences cover.
pub proof fn lemma_covers_concat(a: Seq<Range>, b: Seq<Range>)
    ensures
        forall|v: int| #[trigger] covers(a + b, v) <==> covers(a, v) || covers(b, v),
{
    assert forall|v: int| #[trigger] covers(a + b, v) implies covers(a, v) || covers(b, v) by {
        let i = choose|i: int|
            0 <= i < (a + b).len() && #[trigger] range_contains((a + b)[i], v);
        if i < a.len() {
            assert(range_contains(a[i], v));
        } else {
            assert(range_contains(b[i - a.len()], v));
        }
    }
    assert forall|v: int| covers(a, v) || covers(b, v) implies #[trigger] covers(a + b, v) by {
        if covers(a, v) {
            let i = choose|i: int| 0 <= i < a.len() && #[trigger] range_contains(a[i], v);
            assert(range_contains((a + b)[i], v));
        } else {
            let i = choose|i: int| 0 <= i < b.len() && #[trigger] range_contains(b[i], v);
            assert(range_contains((a + b)[a.len() + i], v));
        }
    }
}

/// Pushing a well-formed range onto a well-formed sequence keeps it well
/// formed.
pub proof fn lemma_set_wf_push(rs: Seq<Range>, r: Range)
    requires
        set_wf(rs),
        range_wf(r),
    ensures
        set_wf(rs.push(r)),
{
    assert forall|i: int| 0 <= i < rs.push(r).len() implies range_wf(#[trigger] rs.push(r)[i]) by {
        if i < rs.len() {
            assert(range_wf(rs[i]));
        }
    }
}

/// Concatenating two well-formed sequences keeps them well formed.
pub proof fn lemma_set_wf_concat(a: Seq<Range>, b: Seq<Range>)
    requires
        set_wf(a),
        set_wf(b),
    ensures
        set_wf(a + b),
{
    assert forall|i: int| 0 <= i < (a + b).len() implies range_wf(#[trigger] (a + b)[i]) by {
        if i < a.len() {
            assert(range_wf(a[i]));
        } else {
            assert(range_wf(b[i - a.len()]));
        }
    }
}

/// Taking one more range extends the covered values by exactly that range,
/// and the total length by exactly its length.
pub proof fn lemma_take_step(rs: Seq<Range>, j: int)
    requires
        0 <= j < rs.len(),
    ensures
        forall|v: int| #[trigger] covers(rs.take(j), v) ==> covers(rs.take(j + 1), v),
        forall|v: int| #[trigger] range_contains(rs[j], v) ==> covers(rs.take(j + 1), v),
        forall|v: int|
            #[trigger] covers(rs.take(j + 1), v) ==> covers(rs.take(j), v) || range_contains(
                rs[j],
                v,
            ),
        total_len(rs.take(j + 1)) == total_len(rs.take(j)) + range_len(rs[j]),
{
    assert(rs.take(j + 1) =~= rs.take(j).push(rs[j]));
    lemma_covers_push(rs.take(j), rs[j]);
    lemma_total_len_push(rs.take(j), rs[j]);
}

/// A collection of ranges: all values reachable at one point in the
/// pipeline. Order is irrelevant to its meaning as a set of integers, but
/// insertion order is kept for determinism.
#[derive(Clone, Debug, PartialEq, Eq)]
pub struct RangeSet {
    pub ranges: Vec<Range>,
}

impl View for RangeSet {
    type V = Seq<Range>;

    open spec fn view(&self) -> Seq<Range> {
        self.ranges@
    }
}

/// Why one `(start, length)` seed pair is rejected, if it is: a non-positive
/// length makes the interval `[start, start + length)` empty or reversed,
/// and a bound past `i64::MAX` is not representable.
pub open spec fn pair_error(p: (i64, i64)) -> Option<PipelineError> {
    if p.1 <= 0 {
        Some(PipelineError::InvalidRange)
    } else if p.0 + p.1 > i64::MAX {
        Some(PipelineError::ArithmeticOverflow)
    } else {
        None
    }
}

/// The first rejection among a sequence of seed pairs, scanned in order.
pub open spec fn pairs_error(ps: Seq<(i64, i64)>) -> Option<PipelineError>
    decreases ps.len(),
{
    if ps.len() == 0 {
        None
    } else if pair_error(ps[0]) is Some {
        pair_error(ps[0])
    } else {
        pairs_error(ps.drop_first())
    }
}

/// The range `[start, start + length)` described by one accepted seed pair.
pub open spec fn pair_range(p: (i64, i64)) -> Range {
    Range { start: p.0, end: (p.0 + p.1) as i64 }
}

/// The ranges described by a sequence of accepted seed pairs, in order.
pub open spec fn pairs_ranges(ps: Seq<(i64, i64)>) -> Seq<Range> {
    ps.map_values(|p: (i64, i64)| pair_range(p))
}

/// One unfolding step of the scan for the first rejected pair.
proof fn lemma_pairs_error_step(ps: Seq<(i64, i64)>, i: int)
    requires
        0 <= i < ps.len(),
    ensures
        pairs_error(ps.skip(i)) == (if pair_error(ps[i]) is Some {
            pair_error(ps[i])
        } else {
            pairs_error(ps.skip(i + 1))
        }),
{
    assert(ps.skip(i)[0] == ps[i]);
    assert(ps.skip(i).drop_first() =~= ps.skip(i + 1));
}

impl RangeSet {
    /// The set with no ranges, covering no value at all.
    pub fn empty() -> (rs: RangeSet)
        ensures
            rs@ == Seq::<Range>::empty(),
    {
        RangeSet { ranges: Vec::new() }
    }

    /// Builds the initial range set `{[start, start + length)}` from a flat
    /// list of `(start, length)` pairs. Pairs may describe overlapping or
    /// adjacent ranges; they are kept as given, since downstream correctness
    /// depends only on coverage, not on minimality. The first malformed pair
    /// is reported: `InvalidRange` for a non-positive length, and
    /// `ArithmeticOverflow` for an end past `i64::MAX`.
    pub fn from_pairs(pairs: &Vec<(i64, i64)>) -> (r: Result<RangeSet, PipelineError>)
        ensures
            match pairs_error(pairs@) {
                Some(e) => r == Err::<RangeSet, PipelineError>(e),
                None => r is Ok && r->Ok_0@ == pairs_ranges(pairs@) && set_wf(r->Ok_0@),
            },
    {
        let mut ranges: Vec<Range> = Vec::new();
        let n = pairs.len();
        let mut i: usize = 0;
        proof {
            assert(pairs@.skip(0) =~= pairs@);
        }
        while i < n
            invariant
                0 <= i <= n,
                n == pairs@.len(),
                pairs_error(pairs@) == pairs_error(pairs@.skip(i as int)),
                forall|j: int| 0 <= j < i ==> pair_error(#[trigger] pairs@[j]) is None,
                ranges@ =~= pairs_ranges(pairs@.take(i as int)),
                set_wf(ranges@),
            decreases n - i,
        {
            let (start, length) = pairs[i];
            proof {
                lemma_pairs_error_step(pairs@, i as int);
            }
            if length <= 0 {
                return Err(PipelineError::InvalidRange);
            }
            if start > i64::MAX - length {
                return Err(PipelineError::ArithmeticOverflow);
            }
            ranges.push(Range { start, end: start + length });
            proof {
                assert(ranges@ =~= pairs_ranges(pairs@.take(i as int + 1)));
            }
            i = i + 1;
        }
        proof {
            assert(pairs@.skip(n as int) =~= Seq::<(i64, i64)>::empty());
            assert(pairs@.take(n as int) =~= pairs@);
        }
        Ok(RangeSet { ranges })
    }

    /// Reports the smallest value the set covers: the smallest `start`
    /// across its member ranges, since a well-formed range's minimum is its
    /// start. Surfaces `EmptyResult` if and only if the set holds no range.
    pub fn minimum(&self) -> (r: Result<i64, PipelineError>)
        requires
            set_wf(self@),
        ensures
            self@.len() == 0 ==> r == Err::<i64, PipelineError>(PipelineError::EmptyResult),
            self@.len() > 0 ==> r is Ok && covers(self@, r->Ok_0 as int) && forall|v: int|
                #[trigger] covers(self@, v) ==> r->Ok_0 <= v,
    {
        let n = self.ranges.len();
        if n == 0 {
            return Err(PipelineError::EmptyResult);
        }
        let mut m: i64 = self.ranges[0].start;
        let mut i: usize = 1;
        while i < n
            invariant
                1 <= i <= n,
                n == self@.len(),
                set_wf(self@),
                exists|j: int| 0 <= j < i && m == #[trigger] self@[j].start,
                forall|j: int| 0 <= j < i ==> m <= #[trigger] self@[j].start,
            decreases n - i,
        {
            let s = self.ranges[i].start;
            if s < m {
                m = s;
            }
            i = i + 1;
        }
        proof {
            let j = choose|j: int| 0 <= j < n && m == #[trigger] self@[j].start;
            assert(range_wf(self@[j]));
            assert(range_contains(self@[j], m as int));
            assert forall|v: int| #[trigger] covers(self@, v) implies m <= v by {
                let jj = choose|jj: int|
                    0 <= jj < self@.len() && #[trigger] range_contains(self@[jj], v);
                assert(m <= self@[jj].start);
            }
        }
        Ok(m)
    }
}

} // verus!
