use itertools::Itertools;
use vstd::prelude::*;

verus! {

/// Number of places where a value is greater than the one before it.
pub open spec fn count_increases(s: Seq<int>) -> nat
    decreases s.len(),
{
    if s.len() < 2 {
        0
    } else {
        count_increases(s.drop_last()) + if s.last() > s[s.len() - 2] {
            1nat
        } else {
            0nat
        }
    }
}

/// The values as integers.
pub open spec fn depths(values: Seq<i32>) -> Seq<int> {
    values.map_values(|v: i32| v as int)
}

/// Sums of each three neighbouring values.
pub open spec fn window_sums(s: Seq<int>) -> Seq<int> {
    Seq::new(if s.len() < 2 { 0 } else { (s.len() - 2) as nat }, |i: int| s[i] + s[i + 1] + s[i + 2])
}

/// Relies on itertools' `tuple_windows`: every two neighbouring values, in order.
#[verifier::external_body]
fn neighbour_pairs<T: Copy>(values: &[T]) -> (r: Vec<(T, T)>)
    ensures
        r@.len() == if values@.len() < 1 { 0 } else { values@.len() - 1 },
        forall|i: int| 0 <= i < r@.len() ==> #[trigger] r@[i] == (values@[i], values@[i + 1]),
{
    values.iter().copied().tuple_windows().collect()
}

/// Relies on itertools' `tuple_windows`: every three neighbouring values, in order.
#[verifier::external_body]
fn neighbour_triples<T: Copy>(values: &[T]) -> (r: Vec<(T, T, T)>)
    ensures
        r@.len() == if values@.len() < 2 { 0 } else { values@.len() - 2 },
        forall|i: int|
            0 <= i < r@.len() ==> #[trigger] r@[i] == (values@[i], values@[i + 1], values@[i + 2]),
{
    values.iter().copied().tuple_windows().collect()
}

/// Counts the pairs `(prev, next)` in `pairs` with `next > prev`, given that
/// they are the neighbouring pairs of `s`.
fn count_rising(pairs: &Vec<(i64, i64)>, Ghost(s): Ghost<Seq<int>>) -> (r: usize)
    requires
        pairs@.len() == if s.len() < 1 { 0 } else { s.len() - 1 },
        forall|i: int| 0 <= i < pairs@.len() ==> pairs@[i].0 == s[i] && pairs@[i].1 == s[i + 1],
    ensures
        r == count_increases(s),
{
    let mut count: usize = 0;
    let mut i: usize = 0;
    proof {
        if s.len() >= 1 {
            assert(s.take(1).len() == 1);
        }
    }
    while i < pairs.len()
        invariant
            i <= pairs@.len(),
            pairs@.len() == if s.len() < 1 { 0 } else { s.len() - 1 },
            forall|j: int| 0 <= j < pairs@.len() ==> pairs@[j].0 == s[j] && pairs@[j].1 == s[j + 1],
            count <= i,
            count == count_increases(s.take(if s.len() < 1 { 0 } else { i + 1 })),
        decreases pairs@.len() - i,
    {
        let (prev, next) = pairs[i];
        if next > prev {
            count += 1;
        }
        proof {
            let t = s.take(i + 2);
            assert(t.drop_last() =~= s.take(i + 1));
        }
        i += 1;
    }
    proof {
        if s.len() >= 1 {
            assert(s.take(s.len() as int) =~= s);
        } else {
            assert(s.take(0) =~= s);
        }
    }
    count
}

/// Number of measurements larger than the one before.
pub fn number_of_depth_increases(values: &[i32]) -> (r: usize)
    ensures
        r == count_increases(depths(values@)),
{
    let mut wide: Vec<i64> = Vec::new();
    let mut i: usize = 0;
    while i < values.len()
        invariant
            i <= values@.len(),
            wide@.len() == i,
            forall|j: int| 0 <= j < i ==> wide@[j] == values@[j] as int,
        decreases values@.len() - i,
    {
        wide.push(values[i] as i64);
        i += 1;
    }
    let pairs = neighbour_pairs(wide.as_slice());
    count_rising(&pairs, Ghost(depths(values@)))
}

/// Number of sums of three neighbouring measurements larger than the sum before.
pub fn number_of_depth_increases_sliding(values: &[i32]) -> (r: usize)
    ensures
        r == count_increases(window_sums(depths(values@))),
{
    let triples = neighbour_triples(values);
    let ghost s = window_sums(depths(values@));
    let mut sums: Vec<i64> = Vec::new();
    let mut i: usize = 0;
    while i < triples.len()
        invariant
            i <= triples@.len(),
            triples@.len() == s.len(),
            s == window_sums(depths(values@)),
            forall|j: int|
                0 <= j < triples@.len() ==> #[trigger] triples@[j] == (values@[j], values@[j + 1], values@[j + 2]),
            sums@.len() == i,
            forall|j: int| 0 <= j < i ==> sums@[j] == s[j],
        decreases triples@.len() - i,
    {
        let (x, y, z) = triples[i];
        assert(triples@[i as int] == (values@[i as int], values@[i + 1], values@[i + 2]));
        sums.push(x as i64 + y as i64 + z as i64);
        i += 1;
    }
    let pairs = neighbour_pairs(sums.as_slice());
    count_rising(&pairs, Ghost(s))
}

} // verus!
