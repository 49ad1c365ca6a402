//! Puzzle solvers over line-based input, and the dispatcher that runs
//! one of them by day number.

pub mod day01;
pub mod day04;

use vstd::prelude::*;

verus! {

/// Running a day fails exactly when no solver exists for that day.
#[derive(Clone, Copy, Debug, PartialEq, Eq, Structural)]
pub struct SolveError {
    /// The day number no solver exists for.
    pub day: usize,
}

/// Runs both parts of the given day's solver on `input` and returns
/// their answers, or reports the day when none is implemented.
pub fn run_day(day: usize, input: &str) -> (r: Result<(String, String), SolveError>)
    ensures
        day == 1 ==> (r matches Ok(p) && crate::parser::spec_canonical_i64(
            p.0@,
            day01::spec_part1_value(input@) as int,
        ) && crate::parser::spec_canonical_i64(p.1@, day01::spec_part2_value(input@) as int)),
        day == 4 ==> (r matches Ok(p) && p.0@ == crate::parser::spec_udigits(
            day04::spec_part1_count(input@),
        ) && p.1@ == day04::spec_part2_text()),
        day != 1 && day != 4 ==> r == Err::<(String, String), SolveError>(SolveError { day }),
{
    match day {
        1 => Ok((day01::solve_part1(input), day01::solve_part2(input))),
        4 => Ok((day04::solve_part1(input), day04::solve_part2(input))),
        _ => Err(SolveError { day }),
    }
}

} // verus!
