use crate::diagnostic::chars_of;
use vstd::prelude::*;

verus! {

pub open spec fn is_item(c: char) -> bool {
    ('a' <= c <= 'z') || ('A' <= c <= 'Z')
}

/// `a` to `z` are 1 to 26, `A` to `Z` are 27 to 52.
pub open spec fn priority(c: char) -> int {
    if 'a' <= c <= 'z' {
        c as int - 'a' as int + 1
    } else {
        c as int - 'A' as int + 27
    }
}

fn char_to_priority(c: char) -> (r: usize)
    requires
        is_item(c),
    ensures
        r == priority(c),
        1 <= r <= 52,
{
    if 'a' <= c && c <= 'z' {
        (c as u32 - 'a' as u32 + 1) as usize
    } else {
        (c as u32 - 'A' as u32 + 27) as usize
    }
}

/// The first character of `s[from..to]` that `t` holds, if any.
pub open spec fn first_shared(s: Seq<char>, from: int, to: int, t: Seq<char>) -> Option<char>
    decreases to - from,
{
    if from >= to {
        None
    } else if t.contains(s[from]) {
        Some(s[from])
    } else {
        first_shared(s, from + 1, to, t)
    }
}

/// The first item of the first half of `s` that its second half holds too.
pub open spec fn misplaced(s: Seq<char>) -> Option<char> {
    first_shared(s, 0, s.len() as int / 2, s.subrange(s.len() as int / 2, s.len() as int))
}

/// The first item of `a` that `b` and `c` both hold.
pub open spec fn badge(a: Seq<char>, b: Seq<char>, c: Seq<char>) -> Option<char> {
    first_shared(a, 0, a.len() as int, b.filter(|x: char| c.contains(x)))
}

/// Returns true if `t` holds `c`.
fn holds(t: &Vec<char>, c: char) -> (r: bool)
    ensures
        r == t@.contains(c),
{
    let mut i: usize = 0;
    while i < t.len()
        invariant
            i <= t@.len(),
            forall|k: int| 0 <= k < i ==> t@[k] != c,
        decreases t@.len() - i,
    {
        if t[i] == c {
            return true;
        }
        i += 1;
    }
    false
}

/// The items of `t` from `from` on.
fn tail_of(t: &Vec<char>, from: usize) -> (r: Vec<char>)
    requires
        from <= t@.len(),
    ensures
        r@ == t@.subrange(from as int, t@.len() as int),
{
    let mut r: Vec<char> = Vec::new();
    let mut i: usize = from;
    while i < t.len()
        invariant
            from <= i <= t@.len(),
            r@ == t@.subrange(from as int, i as int),
        decreases t@.len() - i,
    {
        r.push(t[i]);
        i += 1;
        assert(r@ =~= t@.subrange(from as int, i as int));
    }
    r
}

/// The items of `b` that `c` holds too, in order.
fn both(b: &Vec<char>, c: &Vec<char>) -> (r: Vec<char>)
    ensures
        r@ == b@.filter(|x: char| c@.contains(x)),
{
    let mut r: Vec<char> = Vec::new();
    let mut i: usize = 0;
    assert(b@.take(0) =~= Seq::<char>::empty());
    while i < b.len()
        invariant
            i <= b@.len(),
            r@ == b@.take(i as int).filter(|x: char| c@.contains(x)),
        decreases b@.len() - i,
    {
        let x = b[i];
        proof {
            reveal(Seq::filter);
            assert(b@.take(i + 1).drop_last() =~= b@.take(i as int));
            assert(b@.take(i + 1).last() == x);
        }
        if holds(c, x) {
            r.push(x);
        }
        i += 1;
    }
    assert(b@.take(b@.len() as int) =~= b@);
    r
}

/// The first item of `s[from..to]` that `t` holds.
fn find_shared(s: &Vec<char>, from: usize, to: usize, t: &Vec<char>) -> (r: Option<char>)
    requires
        from <= to <= s@.len(),
    ensures
        r == first_shared(s@, from as int, to as int, t@),
{
    let mut i: usize = from;
    while i < to
        invariant
            from <= i <= to <= s@.len(),
            first_shared(s@, from as int, to as int, t@) == first_shared(s@, i as int, to as int, t@),
        decreases to - i,
    {
        if holds(t, s[i]) {
            return Some(s[i]);
        }
        i += 1;
    }
    None
}

/// Each line has an item in both halves, and it is a letter.
pub open spec fn sorted_badly(lines: Seq<String>) -> bool {
    forall|i: int| 0 <= i < lines.len() ==> (misplaced(#[trigger] lines[i]@) matches Some(c) && is_item(c))
}

/// Each group of three lines shares an item, and it is a letter.
pub open spec fn grouped(lines: Seq<String>) -> bool {
    &&& lines.len() % 3 == 0
    &&& forall|g: int| 0 <= g < lines.len() / 3 ==> (badge(#[trigger] lines[3 * g]@, lines[3 * g + 1]@, lines[3 * g + 2]@) matches Some(c) && is_item(c))
}

/// Sum of the priorities of the misplaced items of the first `n` lines.
pub open spec fn misplaced_total(lines: Seq<String>, n: int) -> int
    decreases n,
{
    if n <= 0 {
        0
    } else {
        misplaced_total(lines, n - 1) + priority(misplaced(lines[n - 1]@)->Some_0)
    }
}

/// Sum of the priorities of the badges of the first `n` groups.
pub open spec fn badge_total(lines: Seq<String>, n: int) -> int
    decreases n,
{
    if n <= 0 {
        0
    } else {
        badge_total(lines, n - 1) + priority(
            badge(lines[3 * (n - 1)]@, lines[3 * (n - 1) + 1]@, lines[3 * (n - 1) + 2]@)->Some_0,
        )
    }
}

/// Rucksacks and their items.
pub struct Solution {
    year: u64,
    day: u64,
}

impl Solution {
    pub fn new(year: u64, day: u64) -> (r: Solution)
        ensures
            r.year_spec() == year,
            r.day_spec() == day,
    {
        Solution { year, day }
    }

    pub closed spec fn year_spec(&self) -> u64 {
        self.year
    }

    pub closed spec fn day_spec(&self) -> u64 {
        self.day
    }

    pub fn get_year(&self) -> (r: u64)
        ensures
            r == self.year_spec(),
    {
        self.year
    }

    pub fn get_day(&self) -> (r: u64)
        ensures
            r == self.day_spec(),
    {
        self.day
    }

    /// Sum of the priorities of the items found in both halves of a line.
    pub fn part1_solution(&self, lines: &[String]) -> (r: usize)
        requires
            sorted_badly(lines@),
            lines@.len() * 52 <= usize::MAX,
        ensures
            r == misplaced_total(lines@, lines@.len() as int),
    {
        let mut sum: usize = 0;
        let mut i: usize = 0;
        while i < lines.len()
            invariant
                sorted_badly(lines@),
                lines@.len() * 52 <= usize::MAX,
                i <= lines@.len(),
                sum == misplaced_total(lines@, i as int),
                sum <= 52 * i,
            decreases lines@.len() - i,
        {
            let items = chars_of(lines[i].as_str());
            let half = items.len() / 2;
            let second = tail_of(&items, half);
            assert(misplaced(lines@[i as int]@) matches Some(c) && is_item(c));
            let c = find_shared(&items, 0, half, &second).unwrap();
            sum = sum + char_to_priority(c);
            i += 1;
        }
        sum
    }

    /// Sum of the priorities of the item each group of three lines shares.
    pub fn part2_solution(&self, lines: &[String]) -> (r: usize)
        requires
            grouped(lines@),
            lines@.len() * 52 <= usize::MAX,
        ensures
            r == badge_total(lines@, lines@.len() as int / 3),
    {
        let mut sum: usize = 0;
        let mut g: usize = 0;
        let groups = lines.len() / 3;
        while g < groups
            invariant
                grouped(lines@),
                lines@.len() * 52 <= usize::MAX,
                groups == lines@.len() / 3,
                g <= groups,
                sum == badge_total(lines@, g as int),
                sum <= 52 * g,
            decreases groups - g,
        {
            let a = chars_of(lines[3 * g].as_str());
            let b = chars_of(lines[3 * g + 1].as_str());
            let c = chars_of(lines[3 * g + 2].as_str());
            let bc = both(&b, &c);
            assert(badge(lines@[3 * g as int]@, lines@[3 * g + 1]@, lines@[3 * g + 2]@) matches Some(x) && is_item(x));
            let x = find_shared(&a, 0, a.len(), &bc).unwrap();
            sum = sum + char_to_priority(x);
            g += 1;
        }
        sum
    }
}

} // verus!
