//! Day 1: groups of numbers separated by blank lines. Part one asks for
//! the greatest group sum, part two for the sum of the three greatest
//! group sums.

use crate::parser::chars_vec;
use crate::parser::fmt_i64;
use crate::parser::line_spans;
use crate::parser::parse_i64_span;
use crate::parser::spec_canonical_i64;
use crate::parser::spec_lines;
use crate::parser::spec_numeral_value;
use crate::parser::spec_parses_as_i64;
use crate::parser::spec_split_blocks;
use crate::parser::spec_trim;
use crate::parser::split_blocks;
use crate::parser::trim_span;
use vstd::prelude::*;

verus! {

broadcast use vstd::seq::group_seq_axioms;

/// The values of the lines of one group that parse as numbers, in line
/// order; lines that hold no number are passed over.
pub open spec fn spec_block_values(lines: Seq<Seq<char>>) -> Seq<i64>
    decreases lines.len(),
{
    if lines.len() == 0 {
        Seq::empty()
    } else {
        spec_block_values(lines.drop_last()) + (if spec_parses_as_i64(spec_trim(lines.last())) {
            seq![spec_numeral_value(spec_trim(lines.last())) as i64]
        } else {
            Seq::empty()
        })
    }
}

/// The sum of a value sequence, taken left to right and wrapping on
/// overflow.
pub open spec fn spec_wrap_sum(vs: Seq<i64>) -> i64
    decreases vs.len(),
{
    if vs.len() == 0 {
        0
    } else {
        vstd::wrapping::i64_specs::wrapping_add(spec_wrap_sum(vs.drop_last()), vs.last())
    }
}

/// The sum of the numbers of one group.
pub open spec fn spec_block_sum(b: Seq<char>) -> i64 {
    spec_wrap_sum(spec_block_values(spec_lines(b)))
}

/// The sums of all the groups of the input, in order.
pub open spec fn spec_group_sums(s: Seq<char>) -> Seq<i64> {
    spec_split_blocks(s).map_values(|b: Seq<char>| spec_block_sum(b))
}

/// The greatest value of a sequence, or zero when it is empty.
pub open spec fn spec_max_or_zero(vs: Seq<i64>) -> i64
    decreases vs.len(),
{
    if vs.len() == 0 {
        0
    } else if vs.len() == 1 {
        vs.last()
    } else {
        let prev = spec_max_or_zero(vs.drop_last());
        if vs.last() > prev {
            vs.last()
        } else {
            prev
        }
    }
}

/// The up-to-three greatest values seen so far, in descending order,
/// after one more value arrives.
pub open spec fn spec_top3_step(top: Seq<i64>, v: i64) -> Seq<i64> {
    if top.len() == 0 {
        seq![v]
    } else if top.len() == 1 {
        if v > top[0] {
            seq![v, top[0]]
        } else {
            seq![top[0], v]
        }
    } else if top.len() == 2 {
        if v > top[0] {
            seq![v, top[0], top[1]]
        } else if v > top[1] {
            seq![top[0], v, top[1]]
        } else {
            seq![top[0], top[1], v]
        }
    } else {
        if v > top[0] {
            seq![v, top[0], top[1]]
        } else if v > top[1] {
            seq![top[0], v, top[1]]
        } else if v > top[2] {
            seq![top[0], top[1], v]
        } else {
            top
        }
    }
}

/// The up-to-three greatest values of a sequence, in descending order.
pub open spec fn spec_top3(vs: Seq<i64>) -> Seq<i64>
    decreases vs.len(),
{
    if vs.len() == 0 {
        Seq::empty()
    } else {
        spec_top3_step(spec_top3(vs.drop_last()), vs.last())
    }
}

/// The answer of part one: the greatest group sum.
pub open spec fn spec_part1_value(s: Seq<char>) -> i64 {
    spec_max_or_zero(spec_group_sums(s))
}

/// The answer of part two: the sum of the three greatest group sums.
pub open spec fn spec_part2_value(s: Seq<char>) -> i64 {
    spec_wrap_sum(spec_top3(spec_group_sums(s)))
}

/// The sum of the numbers of one group's text.
fn block_sum(b: &str) -> (r: i64)
    ensures
        r == spec_block_sum(b@),
{
    let chars = chars_vec(b);
    let spans = line_spans(&chars);
    let ghost lines = spec_lines(b@);
    let mut acc: i64 = 0;
    let mut li: usize = 0;
    proof {
        assert(lines.take(0) =~= Seq::<Seq<char>>::empty());
        assert(spec_block_values(lines.take(0)) =~= Seq::<i64>::empty());
    }
    while li < spans.len()
        invariant
            chars@ == b@,
            lines == spec_lines(b@),
            spans@.len() == lines.len(),
            li <= spans@.len(),
            forall|i: int|
                0 <= i < spans@.len() ==> (#[trigger] spans@[i]).0 <= spans@[i].1 <= chars@.len()
                    && chars@.subrange(spans@[i].0 as int, spans@[i].1 as int) == lines[i],
            acc == spec_wrap_sum(spec_block_values(lines.take(li as int))),
        decreases spans@.len() - li,
    {
        let (lo, hi) = spans[li];
        let (a, e) = trim_span(&chars, lo, hi);
        proof {
            assert(spec_trim(lines[li as int]) == chars@.subrange(a as int, e as int));
            assert(lines.take(li + 1).drop_last() =~= lines.take(li as int));
            assert(lines.take(li + 1).last() == lines[li as int]);
        }
        match parse_i64_span(&chars, a, e) {
            Some(v) => {
                proof {
                    let prev = spec_block_values(lines.take(li as int));
                    assert(spec_block_values(lines.take(li + 1)) =~= prev.push(v));
                    assert(prev.push(v).drop_last() =~= prev);
                }
                acc = acc.wrapping_add(v);
            },
            None => {
                proof {
                    assert(spec_block_values(lines.take(li + 1)) =~= spec_block_values(
                        lines.take(li as int),
                    ));
                }
            },
        }
        li = li + 1;
    }
    proof {
        assert(lines.take(spans@.len() as int) =~= lines);
    }
    acc
}

/// The sums of all the groups of `input`.
fn group_sums(input: &str) -> (r: Vec<i64>)
    ensures
        r@ == spec_group_sums(input@),
{
    let blocks = split_blocks(input);
    let mut sums: Vec<i64> = Vec::new();
    let mut bi: usize = 0;
    proof {
        assert(sums@ =~= spec_group_sums(input@).take(0));
    }
    while bi < blocks.len()
        invariant
            bi <= blocks@.len(),
            blocks@.len() == spec_split_blocks(input@).len(),
            forall|b: int|
                0 <= b < blocks@.len() ==> (#[trigger] blocks@[b])@ == spec_split_blocks(input@)[b],
            sums@ == spec_group_sums(input@).take(bi as int),
        decreases blocks@.len() - bi,
    {
        let s = block_sum(blocks[bi]);
        sums.push(s);
        proof {
            assert(spec_group_sums(input@)[bi as int] == spec_block_sum(blocks@[bi as int]@));
            assert(sums@ =~= spec_group_sums(input@).take(bi + 1));
        }
        bi = bi + 1;
    }
    proof {
        assert(spec_group_sums(input@).take(blocks@.len() as int) =~= spec_group_sums(input@));
    }
    sums
}

/// The greatest group sum, as its decimal text.
pub fn solve_part1(input: &str) -> (r: String)
    ensures
        spec_canonical_i64(r@, spec_part1_value(input@) as int),
{
    let sums = group_sums(input);
    let mut best: i64 = 0;
    let mut mi: usize = 0;
    proof {
        assert(sums@.take(0) =~= Seq::<i64>::empty());
    }
    while mi < sums.len()
        invariant
            mi <= sums@.len(),
            sums@ == spec_group_sums(input@),
            best == spec_max_or_zero(sums@.take(mi as int)),
        decreases sums@.len() - mi,
    {
        let v = sums[mi];
        proof {
            assert(sums@.take(mi + 1).drop_last() =~= sums@.take(mi as int));
            assert(sums@.take(mi + 1).last() == sums@[mi as int]);
        }
        if mi == 0 {
            best = v;
        } else if v > best {
            best = v;
        }
        mi = mi + 1;
    }
    proof {
        assert(sums@.take(sums@.len() as int) =~= sums@);
    }
    fmt_i64(best)
}

/// The sum of the three greatest group sums, as its decimal text.
pub fn solve_part2(input: &str) -> (r: String)
    ensures
        spec_canonical_i64(r@, spec_part2_value(input@) as int),
{
    let sums = group_sums(input);
    let mut top: Vec<i64> = Vec::new();
    let mut mi: usize = 0;
    proof {
        assert(sums@.take(0) =~= Seq::<i64>::empty());
        assert(top@ =~= spec_top3(sums@.take(0)));
    }
    while mi < sums.len()
        invariant
            mi <= sums@.len(),
            sums@ == spec_group_sums(input@),
            top@ == spec_top3(sums@.take(mi as int)),
            top@.len() <= 3,
        decreases sums@.len() - mi,
    {
        let v = sums[mi];
        let ghost before = top@;
        proof {
            assert(sums@.take(mi + 1).drop_last() =~= sums@.take(mi as int));
            assert(sums@.take(mi + 1).last() == sums@[mi as int]);
        }
        if top.len() == 0 {
            top.push(v);
            proof {
                assert(top@ =~= spec_top3_step(before, v));
            }
        } else if top.len() == 1 {
            if v > top[0] {
                top.insert(0, v);
            } else {
                top.push(v);
            }
            proof {
                assert(top@ =~= spec_top3_step(before, v));
            }
        } else if top.len() == 2 {
            if v > top[0] {
                top.insert(0, v);
            } else if v > top[1] {
                top.insert(1, v);
            } else {
                top.push(v);
            }
            proof {
                assert(top@ =~= spec_top3_step(before, v));
            }
        } else {
            if v > top[0] {
                top.insert(0, v);
                top.pop();
            } else if v > top[1] {
                top.insert(1, v);
                top.pop();
            } else if v > top[2] {
                top.insert(2, v);
                top.pop();
            }
            proof {
                assert(top@ =~= spec_top3_step(before, v));
            }
        }
        mi = mi + 1;
    }
    proof {
        assert(sums@.take(sums@.len() as int) =~= sums@);
    }
    let mut total: i64 = 0;
    let mut ti: usize = 0;
    proof {
        assert(top@.take(0) =~= Seq::<i64>::empty());
    }
    while ti < top.len()
        invariant
            ti <= top@.len(),
            top@ == spec_top3(spec_group_sums(input@)),
            total == spec_wrap_sum(top@.take(ti as int)),
        decreases top@.len() - ti,
    {
        proof {
            assert(top@.take(ti + 1).drop_last() =~= top@.take(ti as int));
            assert(top@.take(ti + 1).last() == top@[ti as int]);
        }
        total = total.wrapping_add(top[ti]);
        ti = ti + 1;
    }
    proof {
        assert(top@.take(top@.len() as int) =~= top@);
    }
    fmt_i64(total)
}

} // verus!
