use vstd::prelude::*;

verus! {

/// Outcome of a round, seen from the player.
#[derive(PartialEq, Eq, Structural, Clone, Copy, Debug)]
pub enum Res {
    Win,
    Lose,
    Draw,
}

#[derive(PartialEq, Eq, Structural, Clone, Copy, Debug)]
pub enum Hand {
    Rock,
    Paper,
    Scissors,
}

pub open spec fn is_outcome_letter(c: char) -> bool {
    c == 'X' || c == 'Y' || c == 'Z'
}

pub open spec fn is_hand_letter(c: char) -> bool {
    c == 'A' || c == 'B' || c == 'C' || is_outcome_letter(c)
}

/// `X` asks to lose, `Y` to draw, `Z` to win.
pub open spec fn outcome_of(c: char) -> Res {
    if c == 'X' {
        Res::Lose
    } else if c == 'Y' {
        Res::Draw
    } else {
        Res::Win
    }
}

/// `A`/`X` is rock, `B`/`Y` paper, `C`/`Z` scissors.
pub open spec fn hand_of(c: char) -> Hand {
    if c == 'A' || c == 'X' {
        Hand::Rock
    } else if c == 'B' || c == 'Y' {
        Hand::Paper
    } else {
        Hand::Scissors
    }
}

/// `a` beats `b`: rock beats scissors, scissors paper, paper rock.
pub open spec fn beats(a: Hand, b: Hand) -> bool {
    (a == Hand::Rock && b == Hand::Scissors) || (a == Hand::Scissors && b == Hand::Paper) || (a
        == Hand::Paper && b == Hand::Rock)
}

/// Outcome for the player who shows `me` against `enemy`.
pub open spec fn outcome(enemy: Hand, me: Hand) -> Res {
    if beats(me, enemy) {
        Res::Win
    } else if beats(enemy, me) {
        Res::Lose
    } else {
        Res::Draw
    }
}

pub open spec fn res_points(r: Res) -> int {
    match r {
        Res::Win => 6,
        Res::Lose => 0,
        Res::Draw => 3,
    }
}

pub open spec fn hand_points(h: Hand) -> int {
    match h {
        Hand::Rock => 1,
        Hand::Paper => 2,
        Hand::Scissors => 3,
    }
}

impl Res {
    pub fn parse(c: char) -> (r: Res)
        requires
            is_outcome_letter(c),
        ensures
            r == outcome_of(c),
    {
        match c {
            'X' => Res::Lose,
            'Y' => Res::Draw,
            _ => Res::Win,
        }
    }

    pub fn get_points(self) -> (r: usize)
        ensures
            r == res_points(self),
    {
        match self {
            Res::Win => 6,
            Res::Lose => 0,
            Res::Draw => 3,
        }
    }
}

impl Hand {
    pub fn parse(c: char) -> (r: Hand)
        requires
            is_hand_letter(c),
        ensures
            r == hand_of(c),
    {
        match c {
            'A' | 'X' => Hand::Rock,
            'B' | 'Y' => Hand::Paper,
            _ => Hand::Scissors,
        }
    }

    /// Outcome for the player who shows `me` against `self`.
    pub fn fight(self, me: &Hand) -> (r: Res)
        ensures
            r == outcome(self, *me),
    {
        match (self, me) {
            (Hand::Rock, Hand::Paper) => Res::Win,
            (Hand::Rock, Hand::Scissors) => Res::Lose,
            (Hand::Paper, Hand::Rock) => Res::Lose,
            (Hand::Paper, Hand::Scissors) => Res::Win,
            (Hand::Scissors, Hand::Rock) => Res::Win,
            (Hand::Scissors, Hand::Paper) => Res::Lose,
            _ => Res::Draw,
        }
    }

    pub fn get_points(self) -> (r: usize)
        ensures
            r == hand_points(self),
    {
        match self {
            Hand::Rock => 1,
            Hand::Paper => 2,
            Hand::Scissors => 3,
        }
    }

    /// The hand to show against `self` to get `result`.
    pub fn need_to(&self, result: &Res) -> (r: Hand)
        ensures
            outcome(*self, r) == *result,
    {
        match result {
            Res::Win => match self {
                Hand::Rock => Hand::Paper,
                Hand::Paper => Hand::Scissors,
                Hand::Scissors => Hand::Rock,
            },
            Res::Lose => match self {
                Hand::Rock => Hand::Scissors,
                Hand::Paper => Hand::Rock,
                Hand::Scissors => Hand::Paper,
            },
            Res::Draw => *self,
        }
    }
}

/// A line of the strategy guide: a hand letter, one separator, a second letter.
pub open spec fn round_line(l: Seq<char>) -> bool {
    l.len() >= 3 && (l[0] == 'A' || l[0] == 'B' || l[0] == 'C') && is_outcome_letter(l[2])
}

/// Score of a line when its second letter is the player's hand.
pub open spec fn hand_score(l: Seq<char>) -> int {
    res_points(outcome(hand_of(l[0]), hand_of(l[2]))) + hand_points(hand_of(l[2]))
}

/// Score of a line when its second letter is the outcome to reach.
pub open spec fn outcome_score(l: Seq<char>) -> int {
    hand_points(choose|h: Hand| outcome(hand_of(l[0]), h) == outcome_of(l[2])) + res_points(
        outcome_of(l[2]),
    )
}

/// Sum of `score` over the first `n` lines.
pub open spec fn total(lines: Seq<String>, n: int, by_outcome: bool) -> int
    decreases n,
{
    if n <= 0 {
        0
    } else {
        total(lines, n - 1, by_outcome) + if by_outcome {
            outcome_score(lines[n - 1]@)
        } else {
            hand_score(lines[n - 1]@)
        }
    }
}

/// Rock, paper, scissors by a strategy guide.
pub struct Solution {
    year: u64,
    day: u64,
}

impl Solution {
    pub fn new(year: u64, day: u64) -> (r: Solution)
        ensures
            r.get_year_spec() == year,
            r.get_day_spec() == day,
    {
        Solution { year, day }
    }

    pub closed spec fn get_year_spec(&self) -> u64 {
        self.year
    }

    pub closed spec fn get_day_spec(&self) -> u64 {
        self.day
    }

    pub fn get_year(&self) -> (r: u64)
        ensures
            r == self.get_year_spec(),
    {
        self.year
    }

    pub fn get_day(&self) -> (r: u64)
        ensures
            r == self.get_day_spec(),
    {
        self.day
    }

    fn score(lines: &[String], by_outcome: bool) -> (r: usize)
        requires
            lines@.len() <= usize::MAX / 9,
            forall|i: int| 0 <= i < lines@.len() ==> round_line(#[trigger] lines@[i]@),
        ensures
            r == total(lines@, lines@.len() as int, by_outcome),
    {
        let mut sum: usize = 0;
        let mut i: usize = 0;
        while i < lines.len()
            invariant
                i <= lines@.len(),
                lines@.len() <= usize::MAX / 9,
                forall|j: int| 0 <= j < lines@.len() ==> round_line(#[trigger] lines@[j]@),
                sum == total(lines@, i as int, by_outcome),
                sum <= 9 * i,
            decreases lines@.len() - i,
        {
            let line = lines[i].as_str();
            assert(round_line(lines@[i as int]@));
            let first = line.get_char(0);
            let second = line.get_char(2);
            let enemy = Hand::parse(first);
            let points = if by_outcome {
                let result = Res::parse(second);
                let my_hand = enemy.need_to(&result);
                proof {
                    let h = choose|h: Hand| outcome(hand_of(first), h) == outcome_of(second);
                    assert(outcome(hand_of(first), h) == outcome(hand_of(first), my_hand));
                    assert(h == my_hand);
                }
                my_hand.get_points() + result.get_points()
            } else {
                let me = Hand::parse(second);
                enemy.fight(&me).get_points() + me.get_points()
            };
            sum = sum + points;
            i += 1;
        }
        sum
    }

    /// Total score when the second letter of each line is the player's hand.
    pub fn part1_solution(&self, lines: &[String]) -> (r: usize)
        requires
            lines@.len() <= usize::MAX / 9,
            forall|i: int| 0 <= i < lines@.len() ==> round_line(#[trigger] lines@[i]@),
        ensures
            r == total(lines@, lines@.len() as int, false),
    {
        Solution::score(lines, false)
    }

    /// Total score when the second letter of each line is the outcome to reach.
    pub fn part2_solution(&self, lines: &[String]) -> (r: usize)
        requires
            lines@.len() <= usize::MAX / 9,
            forall|i: int| 0 <= i < lines@.len() ==> round_line(#[trigger] lines@[i]@),
        ensures
            r == total(lines@, lines@.len() as int, true),
    {
        Solution::score(lines, true)
    }
}

} // verus!
