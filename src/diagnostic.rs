use vstd::arithmetic::power2::{lemma2_to64, lemma_pow2_strictly_increases, lemma_pow2_unfold, pow2};
use vstd::prelude::*;

verus! {

pub open spec fn is_bit(c: char) -> bool {
    c == '0' || c == '1'
}

/// The characters of each line.
pub open spec fn rows_of(lines: Seq<String>) -> Seq<Seq<char>> {
    lines.map_values(|l: String| l@)
}

/// At least one line; every line is as long as the first, at most 32 bits,
/// and made of `0` and `1`.
pub open spec fn report(rows: Seq<Seq<char>>) -> bool {
    &&& rows.len() > 0
    &&& rows[0].len() <= 32
    &&& forall|y: int| 0 <= y < rows.len() ==> (#[trigger] rows[y]).len() == rows[0].len()
    &&& forall|y: int, x: int| 0 <= y < rows.len() && 0 <= x < rows[y].len() ==> is_bit(#[trigger] rows[y][x])
}

/// Number of rows with a `1` at position `i`.
pub open spec fn ones_at(rows: Seq<Seq<char>>, i: int) -> nat
    decreases rows.len(),
{
    if rows.len() == 0 {
        0
    } else {
        ones_at(rows.drop_last(), i) + if rows.last()[i] == '1' {
            1nat
        } else {
            0nat
        }
    }
}

/// Value of a binary number, most significant bit first.
pub open spec fn binary_value(bits: Seq<char>) -> nat
    decreases bits.len(),
{
    if bits.len() == 0 {
        0
    } else {
        2 * binary_value(bits.drop_last()) + if bits.last() == '1' {
            1nat
        } else {
            0nat
        }
    }
}

/// The bits that more than half of the rows have.
pub open spec fn gamma_bits(rows: Seq<Seq<char>>) -> Seq<char> {
    Seq::new(rows[0].len(), |i: int| if ones_at(rows, i) > rows.len() / 2 { '1' } else { '0' })
}

/// The complement of `gamma_bits`.
pub open spec fn epsilon_bits(rows: Seq<Seq<char>>) -> Seq<char> {
    Seq::new(rows[0].len(), |i: int| if ones_at(rows, i) > rows.len() / 2 { '0' } else { '1' })
}

/// The rows with `c` at position `i`, in order.
pub open spec fn keep(rows: Seq<Seq<char>>, i: int, c: char) -> Seq<Seq<char>>
    decreases rows.len(),
{
    if rows.len() == 0 {
        seq![]
    } else if rows.last()[i] == c {
        keep(rows.drop_last(), i, c).push(rows.last())
    } else {
        keep(rows.drop_last(), i, c)
    }
}

/// The bit to keep at position `i`: the most common one (`1` on a tie), or
/// the least common one (`0` on a tie).
pub open spec fn criterion(rows: Seq<Seq<char>>, i: int, most: bool) -> char {
    let ones = ones_at(rows, i);
    let zeros = rows.len() - ones;
    if most {
        if ones >= zeros { '1' } else { '0' }
    } else {
        if ones < zeros { '1' } else { '0' }
    }
}

/// Filters the rows bit by bit from position `i` until one is left.
pub open spec fn rating(rows: Seq<Seq<char>>, i: int, len: int, most: bool) -> Option<Seq<char>>
    decreases len - i,
{
    if i >= len {
        None
    } else {
        let k = keep(rows, i, criterion(rows, i, most));
        if k.len() == 1 {
            Some(k[0])
        } else {
            rating(k, i + 1, len, most)
        }
    }
}

/// Value of the binary number `bits`.
fn to_number(bits: &Vec<char>) -> (r: u32)
    requires
        bits@.len() <= 32,
        forall|i: int| 0 <= i < bits@.len() ==> is_bit(#[trigger] bits@[i]),
    ensures
        r == binary_value(bits@),
{
    let mut acc: u64 = 0;
    let mut i: usize = 0;
    proof {
        lemma2_to64();
        assert(bits@.take(0) =~= Seq::<char>::empty());
    }
    while i < bits.len()
        invariant
            bits@.len() <= 32,
            i <= bits@.len(),
            acc == binary_value(bits@.take(i as int)),
            acc < pow2(i as nat),
            pow2(32) == 0x100000000,
        decreases bits@.len() - i,
    {
        proof {
            lemma_pow2_unfold((i + 1) as nat);
            if i + 1 < 32 {
                lemma_pow2_strictly_increases((i + 1) as nat, 32);
            }
            assert(bits@.take(i + 1).drop_last() =~= bits@.take(i as int));
        }
        let bit: u64 = if bits[i] == '1' { 1 } else { 0 };
        acc = acc * 2 + bit;
        i += 1;
    }
    proof {
        assert(bits@.take(bits@.len() as int) =~= bits@);
        if bits@.len() < 32 {
            lemma_pow2_strictly_increases(bits@.len(), 32);
        }
    }
    acc as u32
}

/// Number of `1`s at each position, over all lines.
fn count_ones(lines: &[String], width: usize) -> (r: Vec<usize>)
    requires
        report(rows_of(lines@)),
        width == rows_of(lines@)[0].len(),
    ensures
        r@.len() == width,
        forall|i: int| 0 <= i < width ==> r@[i] == ones_at(rows_of(lines@), i),
{
    let ghost rows = rows_of(lines@);
    let mut counts: Vec<usize> = Vec::new();
    let mut i: usize = 0;
    while i < width
        invariant
            i <= width,
            counts@.len() == i,
            forall|j: int| 0 <= j < i ==> counts@[j] == 0,
        decreases width - i,
    {
        counts.push(0);
        i += 1;
    }
    let n = lines.len();
    let mut y: usize = 0;
    assert(rows.take(0) =~= Seq::<Seq<char>>::empty());
    while y < n
        invariant
            rows == rows_of(lines@),
            report(rows),
            width == rows[0].len(),
            n == lines@.len(),
            y <= lines@.len(),
            counts@.len() == width,
            forall|j: int| 0 <= j < width ==> counts@[j] == ones_at(rows.take(y as int), j),
            forall|j: int| 0 <= j < width ==> counts@[j] <= y,
        decreases lines@.len() - y,
    {
        let line = lines[y].as_str();
        assert(line@ == rows[y as int]);
        assert(rows[y as int].len() == width);
        let ghost before = counts@;
        assert(rows.take(y + 1).drop_last() =~= rows.take(y as int));
        let mut x: usize = 0;
        while x < width
            invariant
                rows == rows_of(lines@),
                report(rows),
                width == rows[0].len(),
                n == lines@.len(),
                y < lines@.len(),
                line@ == rows[y as int],
                rows[y as int].len() == width,
                rows.take(y + 1).drop_last() == rows.take(y as int),
                x <= width,
                counts@.len() == width,
                before.len() == width,
                forall|j: int| 0 <= j < width ==> before[j] == ones_at(rows.take(y as int), j),
                forall|j: int| 0 <= j < width ==> before[j] <= y,
                forall|j: int| 0 <= j < x ==> counts@[j] == ones_at(rows.take(y + 1), j),
                forall|j: int| x <= j < width ==> counts@[j] == before[j],
                forall|j: int| 0 <= j < width ==> counts@[j] <= y + 1,
            decreases width - x,
        {
            assert(rows.take(y + 1).last() == rows[y as int]);
            assert(ones_at(rows.take(y + 1), x as int) == ones_at(rows.take(y as int), x as int) + if rows[y as int][x as int] == '1' { 1nat } else { 0nat });
            assert(counts@[x as int] == before[x as int]);
            assert(before[x as int] <= y);
            if line.get_char(x) == '1' {
                counts.set(x, counts[x] + 1);
            }
            x += 1;
        }
        y += 1;
    }
    assert(rows.take(lines@.len() as int) =~= rows);
    counts
}

/// The most common bits of the report, and their complement, as numbers.
pub fn get_gamma_epsilon(lines: &[String]) -> (r: (usize, usize))
    requires
        report(rows_of(lines@)),
    ensures
        r.0 == binary_value(gamma_bits(rows_of(lines@))),
        r.1 == binary_value(epsilon_bits(rows_of(lines@))),
{
    let ghost rows = rows_of(lines@);
    let width = lines[0].as_str().unicode_len();
    let one_counts = count_ones(lines, width);
    let half = lines.len() / 2;
    let mut gamma_bits_v: Vec<char> = Vec::new();
    let mut eps_bits_v: Vec<char> = Vec::new();
    let mut i: usize = 0;
    while i < width
        invariant
            rows == rows_of(lines@),
            report(rows),
            width == rows[0].len(),
            half == rows.len() / 2,
            one_counts@.len() == width,
            forall|j: int| 0 <= j < width ==> one_counts@[j] == ones_at(rows, j),
            i <= width,
            gamma_bits_v@ == gamma_bits(rows).take(i as int),
            eps_bits_v@ == epsilon_bits(rows).take(i as int),
        decreases width - i,
    {
        if one_counts[i] > half {
            gamma_bits_v.push('1');
            eps_bits_v.push('0');
        } else {
            gamma_bits_v.push('0');
            eps_bits_v.push('1');
        }
        i += 1;
        assert(gamma_bits_v@ =~= gamma_bits(rows).take(i as int));
        assert(eps_bits_v@ =~= epsilon_bits(rows).take(i as int));
    }
    assert(gamma_bits_v@ =~= gamma_bits(rows));
    assert(eps_bits_v@ =~= epsilon_bits(rows));
    let gamma = to_number(&gamma_bits_v);
    let eps = to_number(&eps_bits_v);
    (gamma as usize, eps as usize)
}

/// The rows at the positions `idx`, in order.
pub open spec fn picked(rows: Seq<Seq<char>>, idx: Seq<usize>) -> Seq<Seq<char>> {
    idx.map_values(|j: usize| rows[j as int])
}

/// Number of the rows at `idx` with a `1` at position `i`.
fn count_ones_in(lines: &[String], idx: &Vec<usize>, i: usize) -> (r: usize)
    requires
        report(rows_of(lines@)),
        i < rows_of(lines@)[0].len(),
        forall|k: int| 0 <= k < idx@.len() ==> idx@[k] < lines@.len(),
    ensures
        r == ones_at(picked(rows_of(lines@), idx@), i as int),
        r <= idx@.len(),
{
    let ghost rows = rows_of(lines@);
    let mut ones: usize = 0;
    let mut k: usize = 0;
    assert(picked(rows, idx@).take(0) =~= Seq::<Seq<char>>::empty());
    while k < idx.len()
        invariant
            rows == rows_of(lines@),
            report(rows),
            i < rows[0].len(),
            forall|m: int| 0 <= m < idx@.len() ==> idx@[m] < lines@.len(),
            k <= idx@.len(),
            ones <= k,
            ones == ones_at(picked(rows, idx@).take(k as int), i as int),
        decreases idx@.len() - k,
    {
        let line = lines[idx[k]].as_str();
        let ghost p = picked(rows, idx@);
        assert(p.take(k + 1).drop_last() =~= p.take(k as int));
        assert(p.take(k + 1).last() == rows[idx@[k as int] as int]);
        assert(rows[idx@[k as int] as int].len() == rows[0].len());
        if line.get_char(i) == '1' {
            ones += 1;
        }
        k += 1;
    }
    assert(picked(rows, idx@).take(idx@.len() as int) =~= picked(rows, idx@));
    ones
}

/// The positions among `idx` of the rows with `c` at position `i`.
fn filter_by_bit(lines: &[String], idx: &Vec<usize>, i: usize, c: char) -> (r: Vec<usize>)
    requires
        report(rows_of(lines@)),
        i < rows_of(lines@)[0].len(),
        forall|k: int| 0 <= k < idx@.len() ==> idx@[k] < lines@.len(),
    ensures
        forall|k: int| 0 <= k < r@.len() ==> r@[k] < lines@.len(),
        picked(rows_of(lines@), r@) == keep(picked(rows_of(lines@), idx@), i as int, c),
{
    let ghost rows = rows_of(lines@);
    let mut r: Vec<usize> = Vec::new();
    let mut k: usize = 0;
    assert(picked(rows, idx@).take(0) =~= Seq::<Seq<char>>::empty());
    assert(picked(rows, r@) =~= Seq::<Seq<char>>::empty());
    while k < idx.len()
        invariant
            rows == rows_of(lines@),
            report(rows),
            i < rows[0].len(),
            forall|m: int| 0 <= m < idx@.len() ==> idx@[m] < lines@.len(),
            forall|m: int| 0 <= m < r@.len() ==> r@[m] < lines@.len(),
            k <= idx@.len(),
            picked(rows, r@) == keep(picked(rows, idx@).take(k as int), i as int, c),
        decreases idx@.len() - k,
    {
        let j = idx[k];
        let line = lines[j].as_str();
        let ghost p = picked(rows, idx@);
        assert(p.take(k + 1).drop_last() =~= p.take(k as int));
        assert(p.take(k + 1).last() == rows[j as int]);
        assert(rows[j as int].len() == rows[0].len());
        if line.get_char(i) == c {
            let ghost prev = r@;
            r.push(j);
            assert(picked(rows, r@) =~= picked(rows, prev).push(rows[j as int]));
        }
        k += 1;
    }
    assert(picked(rows, idx@).take(idx@.len() as int) =~= picked(rows, idx@));
    r
}

/// The characters of `s`.
pub(crate) fn chars_of(s: &str) -> (r: Vec<char>)
    ensures
        r@ == s@,
{
    let n = s.unicode_len();
    let mut r: Vec<char> = Vec::new();
    let mut i: usize = 0;
    while i < n
        invariant
            n == s@.len(),
            i <= n,
            r@ == s@.take(i as int),
        decreases n - i,
    {
        r.push(s.get_char(i));
        i += 1;
        assert(r@ =~= s@.take(i as int));
    }
    assert(s@.take(n as int) =~= s@);
    r
}

/// Value of the row that `rating` finds, if it finds one.
fn rating_of(lines: &[String], width: usize, most: bool) -> (r: Option<u32>)
    requires
        report(rows_of(lines@)),
        width == rows_of(lines@)[0].len(),
    ensures
        r == (match rating(rows_of(lines@), 0, width as int, most) {
            Some(bits) => Some(binary_value(bits) as u32),
            None => None::<u32>,
        }),
        r matches Some(v) ==> rating(rows_of(lines@), 0, width as int, most) matches Some(bits)
            && v == binary_value(bits),
{
    let ghost rows = rows_of(lines@);
    let mut idx: Vec<usize> = Vec::new();
    let mut k: usize = 0;
    while k < lines.len()
        invariant
            k <= lines@.len(),
            idx@.len() == k,
            forall|m: int| 0 <= m < k ==> idx@[m] == m,
        decreases lines@.len() - k,
    {
        idx.push(k);
        k += 1;
    }
    assert(picked(rows, idx@) =~= rows);
    let mut i: usize = 0;
    while i < width
        invariant
            rows == rows_of(lines@),
            report(rows),
            width == rows[0].len(),
            i <= width,
            forall|m: int| 0 <= m < idx@.len() ==> idx@[m] < lines@.len(),
            rating(rows, 0, width as int, most) == rating(picked(rows, idx@), i as int, width as int, most),
        decreases width - i,
    {
        let ghost p = picked(rows, idx@);
        let ones = count_ones_in(lines, &idx, i);
        let zeros = idx.len() - ones;
        let c = if most {
            if ones >= zeros { '1' } else { '0' }
        } else {
            if ones < zeros { '1' } else { '0' }
        };
        assert(c == criterion(p, i as int, most));
        idx = filter_by_bit(lines, &idx, i, c);
        if idx.len() == 1 {
            let bits = chars_of(lines[idx[0]].as_str());
            proof {
                let row = rows[idx@[0] as int];
                assert(picked(rows, idx@)[0] == row);
                assert(row.len() == rows[0].len());
                assert forall|x: int| 0 <= x < bits@.len() implies is_bit(#[trigger] bits@[x]) by {
                    assert(is_bit(rows[idx@[0] as int][x]));
                }
            }
            let v = to_number(&bits);
            return Some(v);
        }
        i += 1;
    }
    None
}

/// Oxygen generator and CO2 scrubber ratings: the rows left by filtering on the
/// most, and on the least, common bits; `(0, 0)` if either filter leaves no
/// single row.
pub fn get_oxygen_co2(lines: &[String]) -> (r: (u32, u32))
    requires
        report(rows_of(lines@)),
    ensures
        r == (match (rating(rows_of(lines@), 0, rows_of(lines@)[0].len() as int, true), rating(
            rows_of(lines@),
            0,
            rows_of(lines@)[0].len() as int,
            false,
        )) {
            (Some(o), Some(c)) => (binary_value(o) as u32, binary_value(c) as u32),
            _ => (0u32, 0u32),
        }),
{
    let width = lines[0].as_str().unicode_len();
    let oxygen = rating_of(lines, width, true);
    let co2 = rating_of(lines, width, false);
    match (oxygen, co2) {
        (Some(o), Some(c)) => (o, c),
        _ => (0, 0),
    }
}

} // verus!
