use vstd::prelude::*;

verus! {

/// No value occurs twice in `s`.
pub open spec fn all_distinct(s: Seq<u8>) -> bool {
    forall|i: int, j: int| 0 <= i < j < s.len() ==> s[i] != s[j]
}

/// The `n` values from index `i` on are all different.
pub open spec fn marker_at(s: Seq<u8>, n: int, i: int) -> bool {
    0 <= i && i + n <= s.len() && all_distinct(s.subrange(i, i + n))
}

/// Returns true if the `n` values from index `start` on are all different.
fn window_distinct(slice: &[u8], start: usize, n: usize) -> (r: bool)
    requires
        start + n <= slice@.len(),
    ensures
        r == marker_at(slice@, n as int, start as int),
{
    let len = slice.len();
    let ghost w = slice@.subrange(start as int, start + n);
    let mut i: usize = 0;
    while i < n
        invariant
            start + n <= slice@.len(),
            len == slice@.len(),
            w == slice@.subrange(start as int, start + n),
            i <= n,
            forall|a: int, b: int| 0 <= a < b < n && a < i ==> w[a] != w[b],
        decreases n - i,
    {
        let mut j: usize = i + 1;
        while j < n
            invariant
                start + n <= slice@.len(),
                len == slice@.len(),
                w == slice@.subrange(start as int, start + n),
                i < n,
                i + 1 <= j <= n,
                forall|a: int, b: int| 0 <= a < b < n && a < i ==> w[a] != w[b],
                forall|b: int| i < b < j ==> w[i as int] != w[b],
            decreases n - j,
        {
            if slice[start + i] == slice[start + j] {
                assert(w[i as int] == w[j as int]);
                return false;
            }
            j += 1;
        }
        i += 1;
    }
    true
}

/// Index of the end of the first run of `n` values that are all different.
pub fn find_first_unique_substring(slice: &[u8], n: usize) -> (r: Option<usize>)
    requires
        n > 0,
    ensures
        r matches Some(e) ==> n <= e <= slice@.len() && marker_at(slice@, n as int, e - n)
            && forall|i: int| 0 <= i < e - n ==> !marker_at(slice@, n as int, i),
        r is None ==> forall|i: int| 0 <= i ==> !marker_at(slice@, n as int, i),
{
    let len = slice.len();
    if n > len {
        return None;
    }
    let last = len - n;
    let mut i: usize = 0;
    while i <= last
        invariant
            len == slice@.len(),
            n > 0,
            last == slice@.len() - n,
            n <= slice@.len(),
            i <= last + 1,
            forall|k: int| 0 <= k < i ==> !marker_at(slice@, n as int, k),
        decreases last + 1 - i,
    {
        if window_distinct(slice, i, n) {
            return Some(i + n);
        }
        i += 1;
    }
    None
}

/// Finding the start markers in a stream.
pub struct Solution {
    year: u64,
    day: u64,
}

impl Solution {
    pub fn new(year: u64, day: u64) -> (r: Solution)
        ensures
            r.year_spec() == year,
            r.day_spec() == day,
    {
        Solution { year, day }
    }

    pub closed spec fn year_spec(&self) -> u64 {
        self.year
    }

    pub closed spec fn day_spec(&self) -> u64 {
        self.day
    }

    pub fn get_year(&self) -> (r: u64)
        ensures
            r == self.year_spec(),
    {
        self.year
    }

    pub fn get_day(&self) -> (r: u64)
        ensures
            r == self.day_spec(),
    {
        self.day
    }

    /// End of the first run of 4 different values.
    pub fn part1_solution(&self, input: &[u8]) -> (r: Option<usize>)
        ensures
            r matches Some(e) ==> marker_at(input@, 4, e - 4) && forall|i: int|
                0 <= i < e - 4 ==> !marker_at(input@, 4, i),
            r is None ==> forall|i: int| 0 <= i ==> !marker_at(input@, 4, i),
    {
        find_first_unique_substring(input, 4)
    }

    /// End of the first run of 14 different values.
    pub fn part2_solution(&self, input: &[u8]) -> (r: Option<usize>)
        ensures
            r matches Some(e) ==> marker_at(input@, 14, e - 14) && forall|i: int|
                0 <= i < e - 14 ==> !marker_at(input@, 14, i),
            r is None ==> forall|i: int| 0 <= i ==> !marker_at(input@, 14, i),
    {
        find_first_unique_substring(input, 14)
    }
}

} // verus!
