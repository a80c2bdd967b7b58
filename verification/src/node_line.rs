use vstd::prelude::*;
use vstd::string::StrSliceExecFns;

verus! {

/// Splits one fixed-width node line of the form `XXX = (YYY, ZZZ)` into its
/// three-character label and its left and right neighbour labels, by their
/// byte positions. The line must be ASCII and hold at least the fifteen
/// characters those positions reach.
pub fn parse_line<'a>(line: &'a str) -> (r: (&'a str, &'a str, &'a str))
    requires
        line.is_ascii(),
        line@.len() >= 15,
    ensures
        r.0@ == line@.subrange(0, 3),
        r.1@ == line@.subrange(7, 10),
        r.2@ == line@.subrange(12, 15),
{
    let label = line.substring_ascii(0, 3);
    let left = line.substring_ascii(7, 10);
    let right = line.substring_ascii(12, 15);
    (label, left, right)
}

} // verus!
