//! Day 4 template: part one counts the non-blank lines of the input;
//! part two has no assignment yet and answers with a fixed marker.

use crate::parser::chars_vec;
use crate::parser::fmt_u64;
use crate::parser::line_spans;
use crate::parser::spec_entries_of;
use crate::parser::spec_lines;
use crate::parser::spec_trim;
use crate::parser::trim_span;
use vstd::prelude::*;

verus! {

broadcast use vstd::seq::group_seq_axioms;

/// The answer of part one: how many lines still hold anything after
/// trimming white space.
pub open spec fn spec_part1_count(s: Seq<char>) -> nat {
    spec_entries_of(spec_lines(s)).len()
}

/// The fixed answer of part two.
pub open spec fn spec_part2_text() -> Seq<char> {
    "UNIMPLEMENTED"@
}

/// The number of non-blank lines, as its decimal text.
pub fn solve_part1(input: &str) -> (r: String)
    ensures
        r@ == crate::parser::spec_udigits(spec_part1_count(input@)),
{
    let chars = chars_vec(input);
    let spans = line_spans(&chars);
    let ghost lines = spec_lines(input@);
    let mut count: usize = 0;
    let mut li: usize = 0;
    proof {
        assert(lines.take(0) =~= Seq::<Seq<char>>::empty());
    }
    while li < spans.len()
        invariant
            chars@ == input@,
            lines == spec_lines(input@),
            spans@.len() == lines.len(),
            li <= spans@.len(),
            forall|i: int|
                0 <= i < spans@.len() ==> (#[trigger] spans@[i]).0 <= spans@[i].1 <= chars@.len()
                    && chars@.subrange(spans@[i].0 as int, spans@[i].1 as int) == lines[i],
            count == spec_entries_of(lines.take(li as int)).len(),
            count <= li,
        decreases spans@.len() - li,
    {
        let (lo, hi) = spans[li];
        let (a, b) = trim_span(&chars, lo, hi);
        proof {
            assert(spec_trim(lines[li as int]) == chars@.subrange(a as int, b as int));
            assert(lines.take(li + 1).drop_last() =~= lines.take(li as int));
            assert(lines.take(li + 1).last() == lines[li as int]);
        }
        if a < b {
            count = count + 1;
        }
        li = li + 1;
    }
    proof {
        assert(lines.take(spans@.len() as int) =~= lines);
    }
    fmt_u64(count as u64)
}

/// The fixed marker for the unassigned part.
pub fn solve_part2(_input: &str) -> (r: String)
    ensures
        r@ == spec_part2_text(),
{
    String::from_str("UNIMPLEMENTED")
}

} // verus!
