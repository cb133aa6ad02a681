use itertools::Itertools;
use vstd::multiset::Multiset;
use vstd::prelude::*;

verus! {

/// The three largest values seen so far, largest first, and one slot for
/// the value being added.
pub struct MaxN {
    pub buf: [u64; 4],
}

/// What four values hold, as a multiset.
proof fn lemma_four(x0: u64, x1: u64, x2: u64, x3: u64)
    ensures
        seq![x0, x1, x2, x3].to_multiset() =~= Multiset::empty().insert(x0).insert(x1).insert(x2).insert(x3),
{
    broadcast use vstd::seq_lib::group_to_multiset_ensures;

    assert(seq![x0, x1, x2, x3] =~= Seq::<u64>::empty().push(x0).push(x1).push(x2).push(x3));
    assert(Seq::<u64>::empty().to_multiset() =~= Multiset::empty());
}

/// The larger and the smaller of two values.
fn sort2(x: u64, y: u64) -> (r: (u64, u64))
    ensures
        r.0 >= r.1,
        (r.0 == x && r.1 == y) || (r.0 == y && r.1 == x),
{
    if x >= y {
        (x, y)
    } else {
        (y, x)
    }
}

impl MaxN {
    /// The three kept values are in descending order.
    pub open spec fn sorted(&self) -> bool {
        self.buf@[0] >= self.buf@[1] >= self.buf@[2]
    }

    pub fn new() -> (r: MaxN)
        ensures
            r.buf@ == seq![0u64, 0, 0, 0],
            r.sorted(),
    {
        MaxN { buf: [0, 0, 0, 0] }
    }

    /// Puts `v` in the last slot and sorts all four values, largest first:
    /// the first three are then the three largest of the kept values and `v`.
    pub fn add(self, v: u64) -> (r: MaxN)
        ensures
            r.buf@[0] >= r.buf@[1] >= r.buf@[2] >= r.buf@[3],
            r.buf@.to_multiset() == self.buf@.update(3, v).to_multiset(),
            self.sorted() ==> r.buf@[2] >= self.buf@[2],
    {
        let (x0, x1) = sort2(self.buf[0], self.buf[1]);
        let (x2, x3) = sort2(self.buf[2], v);
        let (y0, y2) = sort2(x0, x2);
        let (y1, y3) = sort2(x1, x3);
        let (z1, z2) = sort2(y1, y2);
        let r = MaxN { buf: [y0, z1, z2, y3] };
        proof {
            let (a, b, c) = (self.buf@[0], self.buf@[1], self.buf@[2]);
            lemma_four(a, b, c, v);
            lemma_four(y0, z1, z2, y3);
            assert(self.buf@.update(3, v) =~= seq![a, b, c, v]);
            assert(r.buf@ =~= seq![y0, z1, z2, y3]);
            let e = Multiset::<u64>::empty();
            assert(e.insert(a).insert(b).insert(c).insert(v) =~= e.insert(x0).insert(x1).insert(x2).insert(x3));
            assert(e.insert(x0).insert(x1).insert(x2).insert(x3) =~= e.insert(y0).insert(y1).insert(y2).insert(y3));
            assert(e.insert(y0).insert(y1).insert(y2).insert(y3) =~= e.insert(y0).insert(z1).insert(z2).insert(y3));
        }
        r
    }

    /// Sum of the three kept values.
    pub fn sum_top_three(self) -> (r: usize)
        requires
            self.buf@[0] + self.buf@[1] + self.buf@[2] <= usize::MAX,
        ensures
            r == self.buf@[0] + self.buf@[1] + self.buf@[2],
    {
        (self.buf[0] + self.buf[1] + self.buf[2]) as usize
    }
}

pub open spec fn is_digit(c: char) -> bool {
    '0' <= c <= '9'
}

/// Value of a decimal number, most significant digit first.
pub open spec fn decimal_value(s: Seq<char>) -> nat
    decreases s.len(),
{
    if s.len() == 0 {
        0
    } else {
        10 * decimal_value(s.drop_last()) + (s.last() as nat - '0' as nat) as nat
    }
}

/// `s` without a leading `+`.
pub open spec fn digit_part(s: Seq<char>) -> Seq<char> {
    if s.len() > 0 && s[0] == '+' {
        s.subrange(1, s.len() as int)
    } else {
        s
    }
}

pub open spec fn all_digits(s: Seq<char>) -> bool {
    forall|i: int| 0 <= i < s.len() ==> is_digit(#[trigger] s[i])
}

/// What `s` reads as an unsigned 64-bit number: an optional `+`, then one or
/// more digits, with a value that fits.
pub open spec fn number_of(s: Seq<char>) -> Option<u64> {
    let digits = digit_part(s);
    if digits.len() > 0 && all_digits(digits) && decimal_value(digits) <= u64::MAX {
        Some(decimal_value(digits) as u64)
    } else {
        None
    }
}

/// Reads `s` as an unsigned 64-bit number.
fn parse_u64(s: &str) -> (r: Option<u64>)
    ensures
        r == number_of(s@),
{
    let n = s.unicode_len();
    let from: usize = if n > 0 && s.get_char(0) == '+' { 1 } else { 0 };
    let ghost digits = s@.subrange(from as int, n as int);
    assert(digits == digit_part(s@)) by {
        if from == 0 {
            assert(s@.subrange(0, n as int) =~= s@);
        }
    }
    if from == n {
        return None;
    }
    let mut v: u64 = 0;
    let mut i: usize = from;
    let mut overflow = false;
    assert(s@.subrange(from as int, from as int) =~= Seq::<char>::empty());
    while i < n
        invariant
            n == s@.len(),
            from <= i <= n,
            digits == s@.subrange(from as int, n as int),
            digits == digit_part(s@),
            forall|k: int| from <= k < i ==> is_digit(#[trigger] s@[k]),
            !overflow ==> v == decimal_value(s@.subrange(from as int, i as int)),
            overflow ==> decimal_value(s@.subrange(from as int, i as int)) > u64::MAX,
        decreases n - i,
    {
        let c = s.get_char(i);
        let d: u64 = match c {
            '0' => 0,
            '1' => 1,
            '2' => 2,
            '3' => 3,
            '4' => 4,
            '5' => 5,
            '6' => 6,
            '7' => 7,
            '8' => 8,
            '9' => 9,
            _ => {
                assert(digits[i - from] == s@[i as int]);
                assert(!is_digit(digits[i - from]));
                return None;
            },
        };
        assert(s@.subrange(from as int, i + 1).drop_last() =~= s@.subrange(from as int, i as int));
        if !overflow {
            if v > (u64::MAX - d) / 10 {
                overflow = true;
            } else {
                v = v * 10 + d;
            }
        }
        i += 1;
    }
    assert forall|k: int| 0 <= k < digits.len() implies is_digit(#[trigger] digits[k]) by {
        assert(digits[k] == s@[k + from]);
    }
    if overflow {
        None
    } else {
        Some(v)
    }
}

/// Each line read as a number, if it is one.
pub open spec fn line_numbers(lines: Seq<String>) -> Seq<Option<u64>> {
    lines.map_values(|l: String| number_of(l@))
}

/// `runs` cuts `vals` into its maximal runs of numbers and of other lines,
/// in order.
pub open spec fn maximal_runs(runs: Seq<Seq<Option<u64>>>, vals: Seq<Option<u64>>) -> bool {
    &&& runs.flatten() == vals
    &&& forall|i: int| 0 <= i < runs.len() ==> #[trigger] runs[i].len() > 0
    &&& forall|i: int, j: int|
        0 <= i < runs.len() && 0 <= j < runs[i].len() ==> (#[trigger] runs[i][j] is Some) == (runs[i][0] is Some)
    &&& forall|i: int| 0 <= i < runs.len() - 1 ==> (#[trigger] runs[i][0] is Some) != (runs[i + 1][0] is Some)
}

/// Sum of the numbers of a run.
pub open spec fn run_total(g: Seq<Option<u64>>) -> int
    decreases g.len(),
{
    if g.len() == 0 {
        0
    } else {
        run_total(g.drop_last()) + match g.last() {
            Some(v) => v as int,
            None => 0,
        }
    }
}

/// Totals of the runs of numbers, in order.
pub open spec fn number_run_totals(runs: Seq<Seq<Option<u64>>>) -> Seq<int>
    decreases runs.len(),
{
    if runs.len() == 0 {
        seq![]
    } else if runs.last()[0] is Some {
        number_run_totals(runs.drop_last()).push(run_total(runs.last()))
    } else {
        number_run_totals(runs.drop_last())
    }
}

/// Returns true if a line read as a number.
fn is_number(v: &Option<u64>) -> (r: bool)
    ensures
        r == v is Some,
{
    v.is_some()
}

/// Relies on itertools' `group_by`: consecutive values on which `is_number`
/// agrees form one group, in order.
#[verifier::external_body]
fn runs_by_presence(values: Vec<Option<u64>>) -> (r: Vec<Vec<Option<u64>>>)
    ensures
        maximal_runs(r@.map_values(|g: Vec<Option<u64>>| g@), values@),
{
    let groups = values.into_iter().group_by(is_number);
    let mut r = Vec::new();
    for (_, group) in &groups {
        r.push(group.collect());
    }
    r
}

proof fn lemma_run_prefixes(g: Seq<Option<u64>>)
    ensures
        forall|k: int| 0 <= k <= g.len() ==> 0 <= #[trigger] run_total(g.take(k)) <= run_total(g),
    decreases g.len(),
{
    if g.len() > 0 {
        lemma_run_prefixes(g.drop_last());
        assert forall|k: int| 0 <= k <= g.len() implies 0 <= #[trigger] run_total(g.take(k)) <= run_total(g) by {
            let d = g.drop_last();
            assert(d.take(d.len() as int) =~= d);
            assert(0 <= run_total(d.take(d.len() as int)) <= run_total(d));
            if k < g.len() {
                assert(g.take(k) =~= d.take(k));
                assert(0 <= run_total(d.take(k)) <= run_total(d));
            } else {
                assert(g.take(k) =~= g);
            }
        }
    }
}

/// Sum of the numbers of a run, given that it fits.
fn sum_run(g: &Vec<Option<u64>>) -> (r: u64)
    requires
        run_total(g@) <= u64::MAX,
    ensures
        r == run_total(g@),
{
    let mut sum: u64 = 0;
    let mut i: usize = 0;
    proof {
        lemma_run_prefixes(g@);
    }
    while i < g.len()
        invariant
            i <= g@.len(),
            run_total(g@) <= u64::MAX,
            forall|k: int| 0 <= k <= g@.len() ==> 0 <= #[trigger] run_total(g@.take(k)) <= run_total(g@),
            sum == run_total(g@.take(i as int)),
        decreases g@.len() - i,
    {
        assert(g@.take(i + 1).drop_last() =~= g@.take(i as int));
        assert(run_total(g@.take(i + 1)) <= run_total(g@));
        match g[i] {
            Some(v) => {
                sum = sum + v;
            },
            None => {},
        }
        i += 1;
    }
    assert(g@.take(g@.len() as int) =~= g@);
    sum
}

/// Totals of the runs of number lines: the lines between those that are
/// not numbers, such as blank lines.
pub fn get_carry_amounts(lines: Vec<String>) -> (r: Vec<u64>)
    requires
        forall|runs: Seq<Seq<Option<u64>>>| #[trigger] maximal_runs(runs, line_numbers(lines@)) ==> forall|i: int|
            0 <= i < runs.len() ==> #[trigger] run_total(runs[i]) <= u64::MAX,
    ensures
        exists|runs: Seq<Seq<Option<u64>>>| #[trigger] maximal_runs(runs, line_numbers(lines@)) && r@.len()
            == number_run_totals(runs).len() && forall|i: int| 0 <= i < r@.len() ==> r@[i] == number_run_totals(runs)[i],
{
    let ghost vals = line_numbers(lines@);
    let mut values: Vec<Option<u64>> = Vec::new();
    let mut i: usize = 0;
    while i < lines.len()
        invariant
            vals == line_numbers(lines@),
            i <= lines@.len(),
            values@ == vals.take(i as int),
        decreases lines@.len() - i,
    {
        values.push(parse_u64(lines[i].as_str()));
        i += 1;
        assert(values@ =~= vals.take(i as int));
    }
    assert(values@ =~= vals);
    let groups = runs_by_presence(values);
    let ghost runs = groups@.map_values(|g: Vec<Option<u64>>| g@);
    let mut r: Vec<u64> = Vec::new();
    let mut k: usize = 0;
    assert(runs.take(0) =~= Seq::<Seq<Option<u64>>>::empty());
    while k < groups.len()
        invariant
            runs == groups@.map_values(|g: Vec<Option<u64>>| g@),
            maximal_runs(runs, vals),
            forall|j: int| 0 <= j < runs.len() ==> #[trigger] run_total(runs[j]) <= u64::MAX,
            k <= groups@.len(),
            r@.len() == number_run_totals(runs.take(k as int)).len(),
            forall|j: int| 0 <= j < r@.len() ==> r@[j] == number_run_totals(runs.take(k as int))[j],
        decreases groups@.len() - k,
    {
        let group = &groups[k];
        assert(runs[k as int] == group@);
        assert(runs.take(k + 1).drop_last() =~= runs.take(k as int));
        assert(runs.take(k + 1).last() == group@);
        assert(group@.len() > 0);
        if is_number(&group[0]) {
            assert(run_total(runs[k as int]) <= u64::MAX);
            let total = sum_run(group);
            r.push(total);
        }
        k += 1;
    }
    assert(runs.take(groups@.len() as int) =~= runs);
    r
}

/// Calories carried by each elf.
pub struct Solution {
    year: u64,
    day: u64,
}

impl Solution {
    pub fn new(year: u64, day: u64) -> (r: Solution)
        ensures
            r.year_spec() == year,
            r.day_spec() == day,
    {
        Solution { year, day }
    }

    pub closed spec fn year_spec(&self) -> u64 {
        self.year
    }

    pub closed spec fn day_spec(&self) -> u64 {
        self.day
    }

    pub fn get_year(&self) -> (r: u64)
        ensures
            r == self.year_spec(),
    {
        self.year
    }

    pub fn get_day(&self) -> (r: u64)
        ensures
            r == self.day_spec(),
    {
        self.day
    }

    /// Sum of the three largest totals, zeros standing in for missing ones:
    /// `t0 >= t1 >= t2` with `r == t0 + t1 + t2`, taken from the totals and
    /// three zeros, and no other of them is larger than `t2`.
    pub fn part2_solution(&self, amounts: &Vec<u64>) -> (r: usize)
        requires
            forall|i: int| 0 <= i < amounts@.len() ==> #[trigger] amounts@[i] <= usize::MAX / 3,
        ensures
            exists|t0: u64, t1: u64, t2: u64, rest: Multiset<u64>|
                t0 >= t1 >= t2 && r == t0 + t1 + t2 && (forall|x: u64| rest.count(x) > 0 ==> x <= t2)
                    && #[trigger] rest.add(Multiset::empty().insert(t0).insert(t1).insert(t2)) =~= amounts@.to_multiset().add(
                    Multiset::empty().insert(0u64).insert(0u64).insert(0u64),
                ),
    {
        let mut top = MaxN::new();
        let ghost mut rest = Multiset::<u64>::empty();
        let ghost zeros = Multiset::empty().insert(0u64).insert(0u64).insert(0u64);
        let mut i: usize = 0;
        proof {
            broadcast use vstd::seq_lib::group_to_multiset_ensures;

            assert(amounts@.take(0) =~= Seq::<u64>::empty());
            assert(Seq::<u64>::empty().to_multiset() =~= Multiset::empty());
        }
        while i < amounts.len()
            invariant
                i <= amounts@.len(),
                top.sorted(),
                zeros == Multiset::empty().insert(0u64).insert(0u64).insert(0u64),
                forall|x: u64| rest.count(x) > 0 ==> x <= top.buf@[2],
                forall|j: int| 0 <= j < amounts@.len() ==> #[trigger] amounts@[j] <= usize::MAX / 3,
                top.buf@[0] <= usize::MAX / 3 && top.buf@[1] <= usize::MAX / 3 && top.buf@[2] <= usize::MAX / 3,
                rest.add(Multiset::empty().insert(top.buf@[0]).insert(top.buf@[1]).insert(top.buf@[2]))
                    =~= amounts@.take(i as int).to_multiset().add(zeros),
            decreases amounts@.len() - i,
        {
            let v = amounts[i];
            let ghost old_buf = top.buf@;
            top = top.add(v);
            proof {
                broadcast use vstd::seq_lib::group_to_multiset_ensures;

                lemma_four(old_buf[0], old_buf[1], old_buf[2], v);
                lemma_four(top.buf@[0], top.buf@[1], top.buf@[2], top.buf@[3]);
                assert(old_buf.update(3, v) =~= seq![old_buf[0], old_buf[1], old_buf[2], v]);
                assert(top.buf@ =~= seq![top.buf@[0], top.buf@[1], top.buf@[2], top.buf@[3]]);
                assert(amounts@.take(i + 1) =~= amounts@.take(i as int).push(v));
                let n = top.buf@;
                let old_rest = rest;
                assert(n.to_multiset() =~= Multiset::empty().insert(n[0]).insert(n[1]).insert(n[2]).insert(n[3]));
                assert(old_buf.update(3, v).to_multiset() =~= Multiset::empty().insert(old_buf[0]).insert(old_buf[1]).insert(old_buf[2]).insert(v));
                assert(amounts@.take(i + 1).to_multiset() =~= amounts@.take(i as int).to_multiset().insert(v));
                rest = rest.insert(top.buf@[3]);
                assert forall|x: u64| #[trigger] rest.add(Multiset::empty().insert(n[0]).insert(n[1]).insert(n[2])).count(x)
                    == amounts@.take(i + 1).to_multiset().add(zeros).count(x) by {
                    assert(old_rest.add(Multiset::empty().insert(old_buf[0]).insert(old_buf[1]).insert(old_buf[2])).count(x)
                        == amounts@.take(i as int).to_multiset().add(zeros).count(x));
                    assert(n.to_multiset().count(x) == old_buf.update(3, v).to_multiset().count(x));
                    assert(Multiset::empty().insert(n[0]).insert(n[1]).insert(n[2]).insert(n[3]).count(x)
                        == Multiset::empty().insert(old_buf[0]).insert(old_buf[1]).insert(old_buf[2]).insert(v).count(x));
                    assert(amounts@.take(i + 1).to_multiset().count(x) == amounts@.take(i as int).to_multiset().count(x)
                        + if x == v { 1nat } else { 0nat });
                }
                let m = Multiset::empty().insert(old_buf[0]).insert(old_buf[1]).insert(old_buf[2]).insert(v);
                assert forall|k: int| 0 <= k < 3 implies top.buf@[k] <= usize::MAX / 3 by {
                    assert(m.count(top.buf@[k]) > 0);
                }
            }
            i += 1;
        }
        proof {
            assert(amounts@.take(amounts@.len() as int) =~= amounts@);
        }
        let r = top.sum_top_three();
        assert(rest.add(Multiset::empty().insert(top.buf@[0]).insert(top.buf@[1]).insert(top.buf@[2]))
            =~= amounts@.to_multiset().add(zeros));
        r
    }

    /// The largest total, if there is any.
    pub fn part1_solution(&self, amounts: &Vec<u64>) -> (r: Option<u64>)
        ensures
            r is None <==> amounts@.len() == 0,
            r matches Some(m) ==> amounts@.contains(m) && forall|i: int|
                0 <= i < amounts@.len() ==> amounts@[i] <= m,
    {
        if amounts.len() == 0 {
            return None;
        }
        let mut best = amounts[0];
        let mut i: usize = 1;
        while i < amounts.len()
            invariant
                1 <= i <= amounts@.len(),
                amounts@.contains(best),
                forall|j: int| 0 <= j < i ==> amounts@[j] <= best,
            decreases amounts@.len() - i,
        {
            if amounts[i] > best {
                best = amounts[i];
            }
            i += 1;
        }
        Some(best)
    }
}

} // verus!
