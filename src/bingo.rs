use vstd::prelude::*;

verus! {

/// A number on a board and whether it has been crossed.
#[derive(PartialEq, Eq, Structural, Clone, Copy, Debug)]
pub struct BingoField(pub u8, pub bool);

impl BingoField {
    pub fn new(n: u8) -> (r: BingoField)
        ensures
            r == BingoField(n, false),
    {
        BingoField(n, false)
    }
}

#[derive(PartialEq, Eq, Structural, Clone, Copy, Debug)]
pub enum MoveResult {
    Nothing,
    /// The winning number and the sum of the numbers not crossed.
    Win(u8, usize),
}

/// A 5 by 5 board, row by row.
pub struct BingoBoard {
    pub board: Vec<BingoField>,
    pub winnable: bool,
    /// Numbers drawn so far.
    pub win_steps: usize,
    /// The number that completed a line.
    pub win_number: Option<u8>,
}

/// Every cell of row `r` is crossed.
pub open spec fn row_done(b: Seq<BingoField>, r: int) -> bool {
    forall|c: int| 0 <= c < 5 ==> (#[trigger] b[5 * r + c]).1
}

/// Every cell of column `c` is crossed.
pub open spec fn column_done(b: Seq<BingoField>, c: int) -> bool {
    forall|r: int| 0 <= r < 5 ==> (#[trigger] b[5 * r + c]).1
}

/// Some row or some column is fully crossed.
pub open spec fn has_line(b: Seq<BingoField>) -> bool {
    (exists|r: int| 0 <= r < 5 && row_done(b, r)) || (exists|c: int| 0 <= c < 5 && column_done(b, c))
}

/// Sum of the numbers of the first `k` cells that are not crossed.
pub open spec fn uncrossed_sum(b: Seq<BingoField>, k: int) -> int
    decreases k,
{
    if k <= 0 {
        0
    } else {
        uncrossed_sum(b, k - 1) + if b[k - 1].1 {
            0
        } else {
            b[k - 1].0 as int
        }
    }
}

/// Index of the first cell from `i` on that holds `n`, if any.
pub open spec fn first_with_from(b: Seq<BingoField>, n: u8, i: int) -> Option<int>
    decreases b.len() - i,
{
    if i < 0 || i >= b.len() {
        None
    } else if b[i].0 == n {
        Some(i)
    } else {
        first_with_from(b, n, i + 1)
    }
}

/// Index of the first cell holding `n`, if any.
pub open spec fn first_with(b: Seq<BingoField>, n: u8) -> Option<int> {
    first_with_from(b, n, 0)
}

proof fn lemma_first_with_in_range(b: Seq<BingoField>, n: u8, i: int)
    ensures
        first_with_from(b, n, i) matches Some(k) ==> 0 <= k < b.len(),
    decreases b.len() - i,
{
    if 0 <= i < b.len() && b[i].0 != n {
        lemma_first_with_in_range(b, n, i + 1);
    }
}

/// The board after `n` is drawn: its first cell holding `n` is crossed.
pub open spec fn crossed(b: Seq<BingoField>, n: u8) -> Seq<BingoField> {
    match first_with(b, n) {
        Some(i) => b.update(i, BingoField(n, true)),
        None => b,
    }
}

/// What drawing `n` does to a board: the cell is crossed, and the board wins
/// if it held `n` and now has a full line.
pub open spec fn wins_with(b: Seq<BingoField>, n: u8) -> bool {
    first_with(b, n) is Some && has_line(crossed(b, n))
}

/// The boards `bs` play the numbers from `nums[i]` on, each number on every
/// board in order, starting at board `j`: the first winning number and the sum
/// of the numbers not crossed on the winning board, or `(0, 0)` if none wins.
pub open spec fn first_win(bs: Seq<Seq<BingoField>>, nums: Seq<u8>, i: int, j: int) -> (int, int)
    decreases nums.len() - i, bs.len() - j,
{
    if i >= nums.len() || i < 0 || j < 0 {
        (0, 0)
    } else if j >= bs.len() {
        first_win(bs, nums, i + 1, 0)
    } else if wins_with(bs[j], nums[i]) {
        (nums[i] as int, uncrossed_sum(crossed(bs[j], nums[i]), 25))
    } else {
        first_win(bs.update(j, crossed(bs[j], nums[i])), nums, i, j + 1)
    }
}

/// A board plays the numbers from `nums[i]` on until it wins: the board
/// then, the numbers drawn, and the winning number.
pub open spec fn play(b: Seq<BingoField>, nums: Seq<u8>, i: int) -> (Seq<BingoField>, int, Option<u8>)
    decreases nums.len() - i,
{
    if i >= nums.len() || i < 0 {
        (b, 0, None)
    } else if wins_with(b, nums[i]) {
        (crossed(b, nums[i]), 1, Some(nums[i]))
    } else {
        let (bf, k, w) = play(crossed(b, nums[i]), nums, i + 1);
        (bf, k + 1, w)
    }
}

pub open spec fn cells_of(boards: Seq<BingoBoard>) -> Seq<Seq<BingoField>> {
    boards.map_values(|b: BingoBoard| b.cells())
}

impl BingoBoard {
    pub open spec fn cells(&self) -> Seq<BingoField> {
        self.board@
    }

    pub fn new(board: Vec<u8>) -> (r: BingoBoard)
        requires
            board@.len() == 5 * 5,
        ensures
            r.cells().len() == 25,
            forall|i: int| 0 <= i < 25 ==> #[trigger] r.cells()[i] == BingoField(board@[i], false),
            !r.winnable,
            r.win_steps == 0,
            r.win_number is None,
    {
        let mut fields: Vec<BingoField> = Vec::new();
        let mut i: usize = 0;
        while i < board.len()
            invariant
                i <= board@.len(),
                fields@.len() == i,
                forall|j: int| 0 <= j < i ==> #[trigger] fields@[j] == BingoField(board@[j], false),
            decreases board@.len() - i,
        {
            fields.push(BingoField::new(board[i]));
            i += 1;
        }
        BingoBoard { board: fields, winnable: false, win_steps: 0, win_number: None }
    }

    /// Counts a drawn number and crosses the first cell that holds it; false
    /// if no cell does.
    pub fn cross_number(&mut self, number: u8) -> (r: bool)
        requires
            old(self).win_steps < usize::MAX,
        ensures
            final(self).win_steps == old(self).win_steps + 1,
            final(self).winnable == old(self).winnable,
            final(self).win_number == old(self).win_number,
            r == (first_with(old(self).cells(), number) is Some),
            final(self).cells() == crossed(old(self).cells(), number),
            final(self).cells().len() == old(self).cells().len(),
    {
        proof {
            lemma_first_with_in_range(self.board@, number, 0);
        }
        self.win_steps += 1;
        let mut i: usize = 0;
        while i < self.board.len()
            invariant
                i <= self.board@.len(),
                self.board@ == old(self).board@,
                self.win_steps == old(self).win_steps + 1,
                self.winnable == old(self).winnable,
                self.win_number == old(self).win_number,
                first_with(old(self).board@, number) == first_with_from(old(self).board@, number, i as int),
            decreases self.board@.len() - i,
        {
            if self.board[i].0 == number {
                self.board.set(i, BingoField(number, true));
                return true;
            }
            i += 1;
        }
        false
    }

    /// Returns true, and marks the board as won, if a row or a column is fully crossed.
    pub fn win_condition(&mut self) -> (r: bool)
        requires
            old(self).cells().len() == 25,
        ensures
            r == has_line(old(self).cells()),
            final(self).winnable == (old(self).winnable || r),
            final(self).cells() == old(self).cells(),
            final(self).win_steps == old(self).win_steps,
            final(self).win_number == old(self).win_number,
    {
        let ghost b = self.board@;
        let mut row: usize = 0;
        while row < 5
            invariant
                row <= 5,
                b == self.board@,
                b.len() == 25,
                *self == *old(self),
                forall|r: int| 0 <= r < row ==> !row_done(b, r),
            decreases 5 - row,
        {
            let mut all = true;
            let mut c: usize = 0;
            while c < 5
                invariant
                    row < 5,
                    c <= 5,
                    b == self.board@,
                    b.len() == 25,
                    all == (forall|k: int| 0 <= k < c ==> (#[trigger] b[5 * row + k]).1),
                decreases 5 - c,
            {
                if !self.board[5 * row + c].1 {
                    all = false;
                }
                c += 1;
            }
            if all {
                assert(row_done(b, row as int));
                self.winnable = true;
                return true;
            }
            row += 1;
        }
        let mut col: usize = 0;
        while col < 5
            invariant
                col <= 5,
                b == self.board@,
                b.len() == 25,
                *self == *old(self),
                forall|r: int| 0 <= r < 5 ==> !row_done(b, r),
                forall|c: int| 0 <= c < col ==> !column_done(b, c),
            decreases 5 - col,
        {
            let mut all = true;
            let mut r: usize = 0;
            while r < 5
                invariant
                    col < 5,
                    r <= 5,
                    b == self.board@,
                    b.len() == 25,
                    all == (forall|k: int| 0 <= k < r ==> (#[trigger] b[5 * k + col]).1),
                decreases 5 - r,
            {
                if !self.board[5 * r + col].1 {
                    all = false;
                }
                r += 1;
            }
            if all {
                assert(column_done(b, col as int));
                self.winnable = true;
                return true;
            }
            col += 1;
        }
        false
    }

    /// Draws `number`: crosses it, and reports a win with the sum of the
    /// numbers not crossed if the board now has a full line.
    pub fn play_round(&mut self, number: u8) -> (r: MoveResult)
        requires
            old(self).win_steps < usize::MAX,
            old(self).cells().len() == 25,
        ensures
            final(self).cells() == crossed(old(self).cells(), number),
            final(self).cells().len() == 25,
            final(self).win_steps == old(self).win_steps + 1,
            r is Win <==> wins_with(old(self).cells(), number),
            r matches MoveResult::Win(n, sum) ==> n == number && sum == uncrossed_sum(
                crossed(old(self).cells(), number),
                25,
            ),
            final(self).win_number == (if wins_with(old(self).cells(), number) {
                Some(number)
            } else {
                old(self).win_number
            }),
    {
        let crossed_it = self.cross_number(number);
        if crossed_it {
            let won = self.win_condition();
            if won {
                self.win_number = Some(number);
                let uncrossed_count = self.get_uncrossed_count();
                return MoveResult::Win(number, uncrossed_count);
            }
        }
        MoveResult::Nothing
    }

    /// Draws the numbers in order until the board wins.
    pub fn play_multiple_rounds(&mut self, numbers: &[u8])
        requires
            old(self).win_steps + numbers@.len() <= usize::MAX,
            old(self).cells().len() == 25,
        ensures
            final(self).cells() == play(old(self).cells(), numbers@, 0).0,
            final(self).win_steps == old(self).win_steps + play(old(self).cells(), numbers@, 0).1,
            final(self).win_number == (match play(old(self).cells(), numbers@, 0).2 {
                Some(n) => Some(n),
                None => old(self).win_number,
            }),
    {
        let mut i: usize = 0;
        while i < numbers.len()
            invariant
                i <= numbers@.len(),
                self.cells().len() == 25,
                self.win_steps == old(self).win_steps + i,
                old(self).win_steps + numbers@.len() <= usize::MAX,
                self.win_number == old(self).win_number,
                play(old(self).cells(), numbers@, 0) == ({
                    let (bf, k, w) = play(self.cells(), numbers@, i as int);
                    (bf, k + i, w)
                }),
            decreases numbers@.len() - i,
        {
            let number = numbers[i];
            let crossed_it = self.cross_number(number);
            if crossed_it {
                let won = self.win_condition();
                if won {
                    self.win_number = Some(number);
                    return;
                }
            }
            i += 1;
        }
    }

    /// Sum of the numbers not crossed.
    pub fn get_uncrossed_count(&self) -> (r: usize)
        requires
            self.cells().len() <= 25,
        ensures
            r == uncrossed_sum(self.cells(), self.cells().len() as int),
    {
        let mut sum: usize = 0;
        let mut i: usize = 0;
        while i < self.board.len()
            invariant
                self.board@.len() <= 25,
                i <= self.board@.len(),
                sum == uncrossed_sum(self.board@, i as int),
                sum <= 255 * i,
            decreases self.board@.len() - i,
        {
            let f = self.board[i];
            if !f.1 {
                sum += f.0 as usize;
            }
            i += 1;
        }
        sum
    }
}

/// Boards that can play `n` more numbers.
pub open spec fn fresh_boards(boards: Seq<BingoBoard>, n: int) -> bool {
    forall|j: int|
        0 <= j < boards.len() ==> (#[trigger] boards[j]).cells().len() == 25 && boards[j].win_steps + n
            <= usize::MAX
}

/// The first winning number and the sum of the numbers not crossed on the
/// board that wins first, `(0, 0)` if none wins.
pub fn first_winner(numbers: Vec<u8>, boards: Vec<BingoBoard>) -> (r: (usize, usize))
    requires
        fresh_boards(boards@, numbers@.len() as int),
    ensures
        r.0 == first_win(cells_of(boards@), numbers@, 0, 0).0,
        r.1 == first_win(cells_of(boards@), numbers@, 0, 0).1,
{
    let ghost goal = first_win(cells_of(boards@), numbers@, 0, 0);
    let mut bs = boards;
    let mut i: usize = 0;
    while i < numbers.len()
        invariant
            i <= numbers@.len(),
            fresh_boards(bs@, numbers@.len() - i),
            goal == first_win(cells_of(boards@), numbers@, 0, 0),
            goal == first_win(cells_of(bs@), numbers@, i as int, 0),
        decreases numbers@.len() - i,
    {
        let number = numbers[i];
        let mut j: usize = 0;
        while j < bs.len()
            invariant
                i < numbers@.len(),
                number == numbers@[i as int],
                j <= bs@.len(),
                forall|k: int| 0 <= k < j ==> (#[trigger] bs@[k]).cells().len() == 25 && bs@[k].win_steps + (numbers@.len() - i - 1) <= usize::MAX,
                forall|k: int| j <= k < bs@.len() ==> (#[trigger] bs@[k]).cells().len() == 25 && bs@[k].win_steps + (numbers@.len() - i) <= usize::MAX,
                goal == first_win(cells_of(boards@), numbers@, 0, 0),
                goal == first_win(cells_of(bs@), numbers@, i as int, j as int),
            decreases bs@.len() - j,
        {
            let ghost before = bs@;
            let mut board = bs.remove(j);
            let result = board.play_round(number);
            bs.insert(j, board);
            proof {
                assert(cells_of(before)[j as int] == before[j as int].cells());
                assert(bs@ =~= before.update(j as int, board));
                assert(cells_of(bs@) =~= cells_of(before).update(j as int, crossed(before[j as int].cells(), number)));
            }
            match result {
                MoveResult::Nothing => {},
                MoveResult::Win(win_number, sum) => {
                    return (win_number as usize, sum);
                },
            }
            j += 1;
        }
        i += 1;
    }
    (0, 0)
}

/// Numbers that board `b` has drawn once it has played `nums` until it won.
pub open spec fn steps_after(b: BingoBoard, nums: Seq<u8>) -> int {
    b.win_steps + play(b.cells(), nums, 0).1
}

/// Index of the last largest value of `s`.
pub open spec fn last_max(s: Seq<int>) -> int
    decreases s.len(),
{
    if s.len() <= 1 {
        0
    } else {
        let m = last_max(s.drop_last());
        if s.last() >= s[m] {
            s.len() - 1
        } else {
            m
        }
    }
}

/// The board that wins last when each board plays `nums`: the one that drew
/// the most numbers, the last such on a tie.
pub open spec fn last_board(boards: Seq<BingoBoard>, nums: Seq<u8>) -> int {
    last_max(boards.map_values(|b: BingoBoard| steps_after(b, nums)))
}

/// The number on which a board ends when it plays `nums` until it wins.
pub open spec fn final_number(b: BingoBoard, nums: Seq<u8>) -> Option<u8> {
    match play(b.cells(), nums, 0).2 {
        Some(n) => Some(n),
        None => b.win_number,
    }
}

proof fn lemma_play_keeps_size(b: Seq<BingoField>, nums: Seq<u8>, i: int)
    ensures
        play(b, nums, i).0.len() == b.len(),
    decreases nums.len() - i,
{
    if 0 <= i < nums.len() {
        lemma_first_with_in_range(b, nums[i], 0);
        if !wins_with(b, nums[i]) {
            lemma_play_keeps_size(crossed(b, nums[i]), nums, i + 1);
        }
    }
}

proof fn lemma_last_max_in_range(s: Seq<int>)
    ensures
        s.len() > 0 ==> 0 <= last_max(s) < s.len(),
    decreases s.len(),
{
    if s.len() > 1 {
        lemma_last_max_in_range(s.drop_last());
    }
}

/// The winning number of the board that wins last, and the sum of the
/// numbers it has not crossed; `None` if that board never wins.
pub fn last_winner(numbers: Vec<u8>, boards: Vec<BingoBoard>) -> (r: Option<(usize, usize)>)
    requires
        boards@.len() > 0,
        fresh_boards(boards@, numbers@.len() as int),
    ensures
        ({
            let b = boards@[last_board(boards@, numbers@)];
            match r {
                Some((n, sum)) => final_number(b, numbers@) == Some(n as u8) && n <= u8::MAX
                    && sum == uncrossed_sum(play(b.cells(), numbers@, 0).0, 25),
                None => final_number(b, numbers@) is None,
            }
        }),
{
    let mut bs = boards;
    let mut j: usize = 0;
    while j < bs.len()
        invariant
            j <= bs@.len(),
            bs@.len() == boards@.len(),
            fresh_boards(boards@, numbers@.len() as int),
            forall|k: int| j <= k < bs@.len() ==> #[trigger] bs@[k] == boards@[k],
            forall|k: int|
                0 <= k < j ==> {
                    &&& (#[trigger] bs@[k]).cells() == play(boards@[k].cells(), numbers@, 0).0
                    &&& bs@[k].win_steps == steps_after(boards@[k], numbers@)
                    &&& bs@[k].win_number == final_number(boards@[k], numbers@)
                    &&& bs@[k].cells().len() == 25
                },
        decreases bs@.len() - j,
    {
        let ghost before = bs@;
        let mut board = bs.remove(j);
        assert(board == boards@[j as int]);
        board.play_multiple_rounds(numbers.as_slice());
        bs.insert(j, board);
        proof {
            lemma_play_keeps_size(boards@[j as int].cells(), numbers@, 0);
        }
        assert(bs@ =~= before.update(j as int, board));
        j += 1;
    }
    let ghost steps = boards@.map_values(|b: BingoBoard| steps_after(b, numbers@));
    let mut best: usize = 0;
    let mut k: usize = 1;
    assert(steps.take(1).drop_last() =~= Seq::<int>::empty());
    while k < bs.len()
        invariant
            1 <= k <= bs@.len(),
            bs@.len() == boards@.len(),
            steps == boards@.map_values(|b: BingoBoard| steps_after(b, numbers@)),
            forall|m: int| 0 <= m < bs@.len() ==> (#[trigger] bs@[m]).win_steps == steps[m],
            best == last_max(steps.take(k as int)),
            best < k,
        decreases bs@.len() - k,
    {
        assert(steps.take(k + 1).drop_last() =~= steps.take(k as int));
        assert(steps.take(k + 1)[best as int] == steps[best as int]);
        if bs[k].win_steps >= bs[best].win_steps {
            best = k;
        }
        k += 1;
    }
    assert(steps.take(bs@.len() as int) =~= steps);
    let last = &bs[best];
    let unchecked_sum = last.get_uncrossed_count();
    match last.win_number {
        Some(n) => Some((n as usize, unchecked_sum)),
        None => None,
    }
}

pub open spec fn is_digit(c: char) -> bool {
    '0' <= c <= '9'
}

/// Value of a decimal number, most significant digit first.
pub open spec fn decimal_value(s: Seq<char>) -> nat
    decreases s.len(),
{
    if s.len() == 0 {
        0
    } else {
        10 * decimal_value(s.drop_last()) + (s.last() as nat - '0' as nat) as nat
    }
}

/// `s` is one or more digits with a value that fits in a `u8`.
pub open spec fn is_small_number(s: Seq<char>) -> bool {
    &&& s.len() > 0
    &&& forall|i: int| 0 <= i < s.len() ==> is_digit(#[trigger] s[i])
    &&& decimal_value(s) <= u8::MAX
}

/// The parts of `s` between commas, empty parts included.
pub open spec fn pieces(s: Seq<char>) -> Seq<Seq<char>>
    decreases s.len(),
{
    if s.len() == 0 {
        seq![seq![]]
    } else {
        let p = pieces(s.drop_last());
        if s.last() == ',' {
            p.push(seq![])
        } else {
            p.update(p.len() - 1, p.last().push(s.last()))
        }
    }
}

/// The maximal runs of characters other than spaces.
pub open spec fn words(s: Seq<char>) -> Seq<Seq<char>>
    decreases s.len(),
{
    if s.len() == 0 {
        seq![]
    } else {
        let w = words(s.drop_last());
        if s.last() == ' ' {
            w
        } else if s.len() >= 2 && s[s.len() - 2] != ' ' {
            w.update(w.len() - 1, w.last().push(s.last()))
        } else {
            w.push(seq![s.last()])
        }
    }
}

pub open spec fn views(v: Seq<Vec<char>>) -> Seq<Seq<char>> {
    v.map_values(|w: Vec<char>| w@)
}

proof fn lemma_pieces_len(s: Seq<char>)
    ensures
        pieces(s).len() >= 1,
    decreases s.len(),
{
    if s.len() > 0 {
        lemma_pieces_len(s.drop_last());
    }
}

proof fn lemma_words_open(s: Seq<char>)
    ensures
        s.len() > 0 && s.last() != ' ' ==> words(s).len() > 0,
    decreases s.len(),
{
    if s.len() > 0 {
        lemma_words_open(s.drop_last());
    }
}

/// The parts of `s` between commas.
fn split_pieces(s: &str) -> (r: Vec<Vec<char>>)
    ensures
        views(r@) == pieces(s@),
{
    let n = s.unicode_len();
    let mut done: Vec<Vec<char>> = Vec::new();
    let mut cur: Vec<char> = Vec::new();
    let mut i: usize = 0;
    assert(views(done@).push(cur@) =~= pieces(s@.take(0)));
    while i < n
        invariant
            n == s@.len(),
            i <= n,
            views(done@).push(cur@) == pieces(s@.take(i as int)),
        decreases n - i,
    {
        let c = s.get_char(i);
        let ghost t = s@.take(i + 1);
        assert(t.drop_last() =~= s@.take(i as int));
        proof {
            lemma_pieces_len(s@.take(i as int));
        }
        if c == ',' {
            let ghost d = views(done@);
            done.push(cur);
            cur = Vec::new();
            assert(views(done@) =~= d.push(views(done@).last()));
            assert(views(done@).push(cur@) =~= pieces(t));
        } else {
            let ghost old_cur = cur@;
            cur.push(c);
            assert(views(done@).push(cur@) =~= pieces(t));
        }
        i += 1;
    }
    assert(s@.take(n as int) =~= s@);
    let ghost d = views(done@);
    done.push(cur);
    assert(views(done@) =~= d.push(views(done@).last()));
    done
}

/// The maximal runs of characters other than spaces in `s`.
fn split_words(s: &str) -> (r: Vec<Vec<char>>)
    ensures
        views(r@) == words(s@),
{
    let n = s.unicode_len();
    let mut ws: Vec<Vec<char>> = Vec::new();
    let mut prev_space = true;
    let mut i: usize = 0;
    assert(views(ws@) =~= words(s@.take(0)));
    while i < n
        invariant
            n == s@.len(),
            i <= n,
            views(ws@) == words(s@.take(i as int)),
            prev_space == (i == 0 || s@[i - 1] == ' '),
        decreases n - i,
    {
        let c = s.get_char(i);
        let ghost t = s@.take(i + 1);
        assert(t.drop_last() =~= s@.take(i as int));
        if c != ' ' {
            if prev_space {
                let mut w: Vec<char> = Vec::new();
                w.push(c);
                let ghost before = views(ws@);
                ws.push(w);
                assert(views(ws@) =~= before.push(seq![c]));
            } else {
                proof {
                    lemma_words_open(s@.take(i as int));
                    assert(s@.take(i as int).last() == s@[i - 1]);
                }
                let ghost before = views(ws@);
                let mut w = ws.pop().unwrap();
                w.push(c);
                ws.push(w);
                assert(views(ws@) =~= before.update(before.len() - 1, before.last().push(c)));
            }
        }
        assert(views(ws@) == words(t));
        prev_space = c == ' ';
        i += 1;
    }
    assert(s@.take(n as int) =~= s@);
    ws
}

/// The value of `w` if it is a number that fits in a `u8`.
fn small_number(w: &Vec<char>) -> (r: Option<u8>)
    ensures
        r is Some <==> is_small_number(w@),
        r matches Some(v) ==> v == decimal_value(w@),
{
    if w.len() == 0 {
        return None;
    }
    let mut v: u64 = 0;
    let mut i: usize = 0;
    assert(w@.take(0) =~= Seq::<char>::empty());
    while i < w.len()
        invariant
            i <= w@.len(),
            forall|k: int| 0 <= k < i ==> is_digit(#[trigger] w@[k]),
            v == decimal_value(w@.take(i as int)),
            v <= u8::MAX,
        decreases w@.len() - i,
    {
        let c = w[i];
        if !('0' <= c && c <= '9') {
            return None;
        }
        assert(w@.take(i + 1).drop_last() =~= w@.take(i as int));
        let d = (c as u32 - '0' as u32) as u64;
        v = v * 10 + d;
        if v > 255 {
            proof {
                if forall|k: int| 0 <= k < w@.len() ==> is_digit(#[trigger] w@[k]) {
                    lemma_value_grows(w@, i as int + 1);
                }
            }
            return None;
        }
        i += 1;
    }
    assert(w@.take(w@.len() as int) =~= w@);
    Some(v as u8)
}

/// A longer run of digits is worth at least as much as its start.
proof fn lemma_value_grows(s: Seq<char>, k: int)
    requires
        0 <= k <= s.len(),
        forall|i: int| 0 <= i < s.len() ==> is_digit(#[trigger] s[i]),
    ensures
        decimal_value(s) >= decimal_value(s.take(k)),
    decreases s.len(),
{
    if k < s.len() {
        assert(s.drop_last().take(k) =~= s.take(k)) by {
        }
        if k <= s.len() - 1 {
            lemma_value_grows(s.drop_last(), k);
        }
    } else {
        assert(s.take(k) =~= s);
    }
}

/// The words of the first `m` number lines of board `b`: a board takes six
/// lines after the line of drawn numbers, a separating line and five rows.
pub open spec fn board_words_upto(lines: Seq<String>, b: int, m: int) -> Seq<Seq<char>>
    decreases m,
{
    if m <= 0 {
        seq![]
    } else {
        board_words_upto(lines, b, m - 1) + words(lines[6 * b + 1 + m]@)
    }
}

pub open spec fn board_words(lines: Seq<String>, b: int) -> Seq<Seq<char>> {
    board_words_upto(lines, b, 5)
}

pub open spec fn board_count(lines: Seq<String>) -> int {
    (lines.len() - 1) / 6
}

/// A line of numbers between commas, then boards of six lines: a separating
/// line and five rows that hold 25 numbers, each number fitting in a `u8`.
pub open spec fn bingo_input(lines: Seq<String>) -> bool {
    &&& lines.len() >= 1
    &&& (lines.len() - 1) % 6 == 0
    &&& forall|i: int| 0 <= i < pieces(lines[0]@).len() ==> is_small_number(#[trigger] pieces(lines[0]@)[i])
    &&& forall|b: int| 0 <= b < board_count(lines) ==> (#[trigger] board_words(lines, b)).len() == 25
    &&& forall|b: int, k: int| 0 <= b < board_count(lines) && 0 <= k < 25 ==> is_small_number(#[trigger] board_words(lines, b)[k])
}

/// The numbers of `ws`, given that each is a number that fits in a `u8`.
fn numbers_of(ws: &Vec<Vec<char>>, out: &mut Vec<u8>)
    requires
        forall|i: int| 0 <= i < ws@.len() ==> is_small_number(#[trigger] ws@[i]@),
    ensures
        final(out)@.len() == old(out)@.len() + ws@.len(),
        forall|i: int| 0 <= i < old(out)@.len() ==> final(out)@[i] == old(out)@[i],
        forall|i: int| 0 <= i < ws@.len() ==> final(out)@[old(out)@.len() + i] == decimal_value(#[trigger] ws@[i]@),
{
    let mut i: usize = 0;
    while i < ws.len()
        invariant
            i <= ws@.len(),
            forall|k: int| 0 <= k < ws@.len() ==> is_small_number(#[trigger] ws@[k]@),
            out@.len() == old(out)@.len() + i,
            forall|k: int| 0 <= k < old(out)@.len() ==> out@[k] == old(out)@[k],
            forall|k: int| 0 <= k < i ==> out@[old(out)@.len() + k] == decimal_value(#[trigger] ws@[k]@),
        decreases ws@.len() - i,
    {
        assert(is_small_number(ws@[i as int]@));
        let v = small_number(&ws[i]).unwrap();
        out.push(v);
        i += 1;
    }
}

/// The drawn numbers and the boards.
pub fn parse_input(lines: Vec<String>) -> (r: (Vec<u8>, Vec<BingoBoard>))
    requires
        bingo_input(lines@),
    ensures
        r.0@.len() == pieces(lines@[0]@).len(),
        forall|i: int| 0 <= i < r.0@.len() ==> r.0@[i] == decimal_value(#[trigger] pieces(lines@[0]@)[i]),
        r.1@.len() == board_count(lines@),
        forall|b: int| 0 <= b < r.1@.len() ==> {
            let board = #[trigger] r.1@[b];
            &&& board.cells().len() == 25
            &&& forall|k: int| 0 <= k < 25 ==> #[trigger] board.cells()[k] == BingoField(decimal_value(board_words(lines@, b)[k]) as u8, false)
            &&& board.win_steps == 0 && board.win_number is None && !board.winnable
        },
{
    let first = split_pieces(lines[0].as_str());
    let mut numbers: Vec<u8> = Vec::new();
    assert forall|i: int| 0 <= i < first@.len() implies is_small_number(#[trigger] first@[i]@) by {
        assert(views(first@)[i] == first@[i]@);
    }
    numbers_of(&first, &mut numbers);
    assert forall|i: int| 0 <= i < numbers@.len() implies numbers@[i] == decimal_value(#[trigger] pieces(lines@[0]@)[i]) by {
        assert(views(first@)[i] == first@[i]@);
    }
    let n = lines.len();
    let count = (n - 1) / 6;
    assert(6 * count <= n - 1) by {
        vstd::arithmetic::div_mod::lemma_fundamental_div_mod((n - 1) as int, 6);
    }
    let mut boards: Vec<BingoBoard> = Vec::new();
    let mut b: usize = 0;
    while b < count
        invariant
            bingo_input(lines@),
            count == board_count(lines@),
            n == lines@.len(),
            6 * count <= n - 1,
            b <= count,
            boards@.len() == b,
            forall|bb: int| 0 <= bb < b ==> {
                let board = #[trigger] boards@[bb];
                &&& board.cells().len() == 25
                &&& forall|k: int| 0 <= k < 25 ==> #[trigger] board.cells()[k] == BingoField(decimal_value(board_words(lines@, bb)[k]) as u8, false)
                &&& board.win_steps == 0 && board.win_number is None && !board.winnable
            },
        decreases count - b,
    {
        let mut values: Vec<u8> = Vec::new();
        let mut m: usize = 1;
        assert(board_words(lines@, b as int).len() == 25);
        proof {
            lemma_upto_prefix(lines@, b as int, 5);
        }
        while m <= 5
            invariant
                bingo_input(lines@),
                count == board_count(lines@),
                n == lines@.len(),
                6 * count <= n - 1,
                b < count,
                1 <= m <= 6,
                forall|j: int| 0 <= j <= 5 ==> #[trigger] board_words_upto(lines@, b as int, j).len() <= 25
                    && board_words_upto(lines@, b as int, j) == board_words(lines@, b as int).take(board_words_upto(lines@, b as int, j).len() as int),
                values@.len() == board_words_upto(lines@, b as int, m - 1).len(),
                forall|k: int| 0 <= k < values@.len() ==> values@[k] == decimal_value(#[trigger] board_words(lines@, b as int)[k]),
            decreases 6 - m,
        {
            let idx = 6 * b + 1 + m;
            let ws = split_words(lines[idx].as_str());
            let ghost before = board_words_upto(lines@, b as int, m - 1);
            let ghost after = board_words_upto(lines@, b as int, m as int);
            assert(after == before + views(ws@));
            let ghost full = board_words(lines@, b as int);
            assert forall|i: int| 0 <= i < ws@.len() implies is_small_number(#[trigger] ws@[i]@) by {
                assert(views(ws@)[i] == ws@[i]@);
                assert(after[before.len() + i] == ws@[i]@);
                assert(full[before.len() + i] == after[before.len() + i]);
            }
            let ghost old_values = values@;
            numbers_of(&ws, &mut values);
            assert forall|k: int| 0 <= k < values@.len() implies values@[k] == decimal_value(#[trigger] full[k]) by {
                if k >= old_values.len() {
                    let i = k - old_values.len();
                    assert(views(ws@)[i] == ws@[i]@);
                    assert(after[before.len() + i] == ws@[i]@);
                    assert(full[before.len() + i] == after[before.len() + i]);
                }
            }
            m += 1;
        }
        let board = BingoBoard::new(values);
        boards.push(board);
        b += 1;
    }
    (numbers, boards)
}

/// Each `board_words_upto` is a prefix of the next.
proof fn lemma_upto_prefix(lines: Seq<String>, b: int, m: int)
    requires
        0 <= m <= 5,
    ensures
        forall|j: int| 0 <= j <= m ==> #[trigger] board_words_upto(lines, b, j) == board_words_upto(lines, b, m).take(
            board_words_upto(lines, b, j).len() as int,
        ),
        forall|j: int| 0 <= j <= m ==> #[trigger] board_words_upto(lines, b, j).len() <= board_words_upto(lines, b, m).len(),
    decreases m,
{
    if m > 0 {
        lemma_upto_prefix(lines, b, m - 1);
        let prev = board_words_upto(lines, b, m - 1);
        let cur = board_words_upto(lines, b, m);
        assert(cur.take(prev.len() as int) =~= prev);
        assert forall|j: int| 0 <= j <= m implies #[trigger] board_words_upto(lines, b, j) == cur.take(
            board_words_upto(lines, b, j).len() as int,
        ) by {
            if j < m {
                let pj = board_words_upto(lines, b, j);
                assert(pj == prev.take(pj.len() as int));
                assert(cur.take(pj.len() as int) =~= prev.take(pj.len() as int));
            } else {
                assert(cur.take(cur.len() as int) =~= cur);
            }
        }
    }
}

} // verus!
