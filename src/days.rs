use vstd::prelude::*;

verus! {

pub struct Day1;

pub struct Day2;

pub struct Day3;

pub struct Day4;

pub struct Day5;

pub struct Day6;

pub struct Day7;

pub struct Day8;

pub struct Day9;

pub struct Day10;

pub struct Day11;

pub struct Day12;

pub struct Day13;

pub struct Day14;

pub struct Day15;

pub struct Day16;

pub struct Day17;

pub struct Day18;

pub struct Day19;

pub struct Day20;

pub struct Day21;

pub struct Day22;

pub struct Day23;

pub struct Day24;

/// Answers of a puzzle day, one per part. A day answers nothing until it
/// says otherwise.
pub trait Day {
    fn part1(&self) -> Result<usize, &'static str> {
        Err("Part 1 not implemented")
    }

    fn part2(&self) -> Result<usize, &'static str> {
        Err("Part 2 not implemented")
    }
}

impl Day for Day1 {
    fn part1(&self) -> (r: Result<usize, &'static str>)
        ensures
            r == Ok::<usize, &'static str>(45),
    {
        Ok(45)
    }

    fn part2(&self) -> (r: Result<usize, &'static str>)
        ensures
            r == Ok::<usize, &'static str>(78),
    {
        Ok(78)
    }
}

/// Days that answer something.
pub open spec fn day_known(day: usize) -> bool {
    day == 1
}

/// Answer of part `part` of day `day`: an error for a day that is not known
/// or a part other than 1 and 2, and otherwise what that day answers.
pub fn solve_challenge(day: usize, part: usize) -> (r: Result<usize, &'static str>)
    ensures
        !day_known(day) ==> r == Err::<usize, &'static str>("Day outside of range 1..=24"),
        day_known(day) && part != 1 && part != 2 ==> r == Err::<usize, &'static str>(
            "Part outside of range 1..=2",
        ),
        day == 1 && part == 1 ==> r == Ok::<usize, &'static str>(45),
        day == 1 && part == 2 ==> r == Ok::<usize, &'static str>(78),
{
    if day != 1 {
        return Err("Day outside of range 1..=24");
    }
    let day_obj = Day1;
    let result = match part {
        1 => day_obj.part1()?,
        2 => day_obj.part2()?,
        _ => return Err("Part outside of range 1..=2"),
    };
    Ok(result)
}

} // verus!
