use vstd::prelude::*;

verus! {

#[derive(PartialEq, Eq, Structural, Clone, Copy, Debug)]
pub enum Direction {
    Up,
    Down,
    Left,
    Right,
}

pub open spec fn vector_of(d: Direction) -> (int, int) {
    match d {
        Direction::Up => (0, -1),
        Direction::Down => (0, 1),
        Direction::Left => (-1, 0),
        Direction::Right => (1, 0),
    }
}

impl Direction {
    /// The four directions.
    pub fn all() -> (r: [Direction; 4])
        ensures
            r@ == seq![Direction::Up, Direction::Down, Direction::Left, Direction::Right],
    {
        let r = [Direction::Up, Direction::Down, Direction::Left, Direction::Right];
        assert(r@ =~= seq![Direction::Up, Direction::Down, Direction::Left, Direction::Right]);
        r
    }

    /// One step in this direction, `(dx, dy)`, with `y` growing downwards.
    pub fn to_vector(self) -> (r: (i64, i64))
        ensures
            r.0 == vector_of(self).0,
            r.1 == vector_of(self).1,
    {
        match self {
            Direction::Up => (0, -1),
            Direction::Down => (0, 1),
            Direction::Left => (-1, 0),
            Direction::Right => (1, 0),
        }
    }
}

/// Represents a position on the field, with the top left being (0, 0)
#[derive(Default, Debug, Copy, Clone, PartialEq, Eq, Structural)]
pub struct Position {
    pub x: usize,
    pub y: usize,
}

impl Position {
    pub fn new(x: usize, y: usize) -> (r: Position)
        ensures
            r.x == x,
            r.y == y,
    {
        Position { x, y }
    }
}

/// The character of a digit `0` to `9`.
pub open spec fn digit_char(d: u64) -> char {
    if d == 0 {
        '0'
    } else if d == 1 {
        '1'
    } else if d == 2 {
        '2'
    } else if d == 3 {
        '3'
    } else if d == 4 {
        '4'
    } else if d == 5 {
        '5'
    } else if d == 6 {
        '6'
    } else if d == 7 {
        '7'
    } else if d == 8 {
        '8'
    } else {
        '9'
    }
}

pub open spec fn is_digit(c: char) -> bool {
    '0' <= c <= '9'
}

/// Text of a row of tree heights.
pub open spec fn row_text(row: Seq<u64>) -> Seq<char> {
    row.map_values(|d: u64| digit_char(d))
}

/// Rows written one per line, with no newline after the last.
pub open spec fn joined(rows: Seq<Seq<u64>>) -> Seq<char>
    decreases rows.len(),
{
    if rows.len() == 0 {
        seq![]
    } else if rows.len() == 1 {
        row_text(rows[0])
    } else {
        joined(rows.drop_last()) + seq!['\n'] + row_text(rows.last())
    }
}

/// Lines of digits, each ended by a newline but the last, which may end
/// either way; no line is empty.
pub open spec fn valid_text(s: Seq<char>) -> bool {
    forall|i: int|
        0 <= i < s.len() ==> is_digit(#[trigger] s[i]) || (s[i] == '\n' && i > 0 && is_digit(
            s[i - 1],
        ))
}

/// Text read so far: the finished rows, then the row being read.
spec fn text_so_far(rows: Seq<Seq<u64>>, cur: Seq<u64>) -> Seq<char> {
    if rows.len() == 0 {
        row_text(cur)
    } else {
        joined(rows) + seq!['\n'] + row_text(cur)
    }
}

/// Value of a digit character.
fn digit_value(c: char) -> (r: Option<u64>)
    ensures
        r matches Some(d) ==> d <= 9 && digit_char(d) == c && is_digit(c),
        r is None ==> !is_digit(c),
{
    match c {
        '0' => Some(0),
        '1' => Some(1),
        '2' => Some(2),
        '3' => Some(3),
        '4' => Some(4),
        '5' => Some(5),
        '6' => Some(6),
        '7' => Some(7),
        '8' => Some(8),
        '9' => Some(9),
        _ => None,
    }
}

/// Heights of the trees, one row per line of the input.
pub struct Field {
    pub lines: Vec<Vec<u64>>,
}

impl Field {
    pub open spec fn rows(&self) -> Seq<Seq<u64>> {
        self.lines@.map_values(|l: Vec<u64>| l@)
    }

    /// Every row has the length of the first, and there is one, not empty.
    pub open spec fn rectangular(&self) -> bool {
        &&& self.rows().len() > 0
        &&& self.rows()[0].len() > 0
        &&& forall|y: int| 0 <= y < self.rows().len() ==> (#[trigger] self.rows()[y]).len() == self.rows()[0].len()
    }

    pub open spec fn contains(&self, pos: Position) -> bool {
        pos.y < self.rows().len() && pos.x < self.rows()[pos.y as int].len()
    }

    /// Number of trees between `pos` and the edge in direction `d`.
    pub open spec fn reach(&self, pos: Position, d: Direction) -> int {
        match d {
            Direction::Up => pos.y as int,
            Direction::Down => self.rows().len() - 1 - pos.y,
            Direction::Left => pos.x as int,
            Direction::Right => self.rows()[0].len() - 1 - pos.x,
        }
    }

    /// Height of the tree `k` steps from `pos` in direction `d`.
    pub open spec fn tree_in(&self, pos: Position, d: Direction, k: int) -> u64 {
        self.rows()[pos.y + k * vector_of(d).1][pos.x + k * vector_of(d).0]
    }

    pub open spec fn height_at(&self, pos: Position) -> u64 {
        self.rows()[pos.y as int][pos.x as int]
    }

    /// Every tree between `pos` and the edge in direction `d` is lower than the one at `pos`.
    pub open spec fn visible_from(&self, pos: Position, d: Direction) -> bool {
        forall|k: int| 1 <= k <= self.reach(pos, d) ==> #[trigger] self.tree_in(pos, d, k) < self.height_at(pos)
    }

    /// Trees seen from `pos` looking in direction `d`, counting from the
    /// `k`-th: up to and including the first that is not lower than the
    /// tree at `pos`, or up to the edge.
    pub open spec fn view_distance(&self, pos: Position, d: Direction, k: int) -> int
        decreases self.reach(pos, d) + 1 - k,
    {
        if k > self.reach(pos, d) || k < 1 {
            self.reach(pos, d)
        } else if self.tree_in(pos, d, k) >= self.height_at(pos) {
            k
        } else {
            self.view_distance(pos, d, k + 1)
        }
    }

    pub open spec fn score(&self, pos: Position) -> int {
        self.view_distance(pos, Direction::Up, 1) * self.view_distance(pos, Direction::Down, 1)
            * self.view_distance(pos, Direction::Left, 1) * self.view_distance(pos, Direction::Right, 1)
    }

    pub fn from_input(input: &str) -> (r: Result<Field, &'static str>)
        ensures
            r is Ok <==> valid_text(input@),
            r matches Ok(field) ==> joined(field.rows()) == input@ || joined(field.rows()) + seq!['\n'] == input@,
    {
        match Field::parse(input) {
            Ok((_, field)) => Ok(field),
            Err(e) => Err(e),
        }
    }

    pub fn width(&self) -> (r: usize)
        requires
            self.rows().len() > 0,
        ensures
            r == self.rows()[0].len(),
    {
        self.lines[0].len()
    }

    pub fn height(&self) -> (r: usize)
        ensures
            r == self.rows().len(),
    {
        self.lines.len()
    }

    pub fn get_tree(&self, pos: Position) -> (r: Option<u64>)
        ensures
            r == (if self.contains(pos) { Some(self.height_at(pos)) } else { None::<u64> }),
    {
        if pos.y < self.lines.len() && pos.x < self.lines[pos.y].len() {
            Some(self.lines[pos.y][pos.x])
        } else {
            None
        }
    }

    fn reach_of(&self, pos: Position, d: Direction) -> (r: usize)
        requires
            self.rectangular(),
            self.contains(pos),
        ensures
            r == self.reach(pos, d),
            r < usize::MAX,
            d == Direction::Down ==> pos.y + r < usize::MAX,
            d == Direction::Right ==> pos.x + r < usize::MAX,
    {
        let height = self.lines.len();
        let width = self.lines[0].len();
        assert(self.rows()[pos.y as int].len() == self.rows()[0].len());
        match d {
            Direction::Up => pos.y,
            Direction::Down => height - 1 - pos.y,
            Direction::Left => pos.x,
            Direction::Right => width - 1 - pos.x,
        }
    }

    fn tree_at_step(&self, pos: Position, d: Direction, k: usize) -> (r: u64)
        requires
            self.rectangular(),
            self.contains(pos),
            1 <= k <= self.reach(pos, d),
        ensures
            r == self.tree_in(pos, d, k as int),
    {
        // the step stays on the field, whose sizes fit in usize
        let _reach = self.reach_of(pos, d);
        assert(self.rows()[pos.y as int].len() == self.rows()[0].len());
        let (x, y) = match d {
            Direction::Up => (pos.x, pos.y - k),
            Direction::Down => {
                assert(pos.y + k <= self.rows().len() - 1);
                (pos.x, pos.y + k)
            },
            Direction::Left => (pos.x - k, pos.y),
            Direction::Right => (pos.x + k, pos.y),
        };
        assert(self.rows()[y as int].len() == self.rows()[0].len());
        assert(self.rows()[y as int] == self.lines@[y as int]@);
        assert(y == pos.y + k * vector_of(d).1 && x == pos.x + k * vector_of(d).0) by (nonlinear_arith)
            requires
                d == Direction::Up ==> x == pos.x && y == pos.y - k,
                d == Direction::Down ==> x == pos.x && y == pos.y + k,
                d == Direction::Left ==> x == pos.x - k && y == pos.y,
                d == Direction::Right ==> x == pos.x + k && y == pos.y,
                vector_of(d) == (match d {
                    Direction::Up => (0int, -1int),
                    Direction::Down => (0int, 1int),
                    Direction::Left => (-1int, 0int),
                    Direction::Right => (1int, 0int),
                });
        self.lines[y][x]
    }

    fn clear_view(&self, pos: Position, d: Direction) -> (r: bool)
        requires
            self.rectangular(),
            self.contains(pos),
        ensures
            r == self.visible_from(pos, d),
    {
        let tree = self.lines[pos.y][pos.x];
        let reach = self.reach_of(pos, d);
        assert(self.rows()[pos.y as int].len() == self.rows()[0].len());
        let mut k: usize = 1;
        while k <= reach
            invariant
                self.rectangular(),
                self.contains(pos),
                tree == self.height_at(pos),
                reach == self.reach(pos, d),
                reach < usize::MAX,
                1 <= k <= reach + 1,
                forall|j: int| 1 <= j < k ==> #[trigger] self.tree_in(pos, d, j) < tree,
            decreases reach + 1 - k,
        {
            if self.tree_at_step(pos, d, k) >= tree {
                return false;
            }
            k += 1;
        }
        true
    }

    pub fn tree_visible(&self, pos: Position) -> (r: bool)
        requires
            self.rectangular(),
            self.contains(pos),
        ensures
            r == (self.visible_from(pos, Direction::Up) || self.visible_from(pos, Direction::Down)
                || self.visible_from(pos, Direction::Left) || self.visible_from(pos, Direction::Right)),
    {
        let dirs = Direction::all();
        let mut i: usize = 0;
        while i < 4
            invariant
                self.rectangular(),
                self.contains(pos),
                dirs@ == seq![Direction::Up, Direction::Down, Direction::Left, Direction::Right],
                i <= 4,
                forall|j: int| 0 <= j < i ==> !self.visible_from(pos, #[trigger] dirs@[j]),
            decreases 4 - i,
        {
            if self.clear_view(pos, dirs[i]) {
                return true;
            }
            i += 1;
        }
        assert(!self.visible_from(pos, dirs@[0]));
        assert(!self.visible_from(pos, dirs@[1]));
        assert(!self.visible_from(pos, dirs@[2]));
        assert(!self.visible_from(pos, dirs@[3]));
        false
    }

    /// How many trees until we see a tree bigger than the first one?
    fn count_visibility(&self, pos: Position, d: Direction) -> (r: usize)
        requires
            self.rectangular(),
            self.contains(pos),
        ensures
            r == self.view_distance(pos, d, 1),
            r <= self.reach(pos, d),
    {
        let tree = self.lines[pos.y][pos.x];
        let reach = self.reach_of(pos, d);
        assert(self.rows()[pos.y as int].len() == self.rows()[0].len());
        let mut k: usize = 1;
        while k <= reach
            invariant
                self.rectangular(),
                self.contains(pos),
                tree == self.height_at(pos),
                reach == self.reach(pos, d),
                reach < usize::MAX,
                1 <= k <= reach + 1,
                self.view_distance(pos, d, 1) == self.view_distance(pos, d, k as int),
            decreases reach + 1 - k,
        {
            if self.tree_at_step(pos, d, k) >= tree {
                return k;
            }
            k += 1;
        }
        reach
    }

    pub fn scenic_score(&self, pos: Position) -> (r: usize)
        requires
            self.rectangular(),
            self.contains(pos),
            self.score(pos) <= usize::MAX,
        ensures
            r == self.score(pos),
    {
        let up = self.count_visibility(pos, Direction::Up);
        let down = self.count_visibility(pos, Direction::Down);
        let left = self.count_visibility(pos, Direction::Left);
        let right = self.count_visibility(pos, Direction::Right);
        if up == 0 || down == 0 || left == 0 || right == 0 {
            assert(self.score(pos) == 0) by (nonlinear_arith)
                requires
                    self.score(pos) == up * down * left * right,
                    up == 0 || down == 0 || left == 0 || right == 0;
            return 0;
        }
        proof {
            let (a, b, c, e) = (up as int, down as int, left as int, right as int);
            assert(a * b <= a * b * c * e && a * b * c <= a * b * c * e) by (nonlinear_arith)
                requires a >= 1, b >= 1, c >= 1, e >= 1;
        }
        up * down * left * right
    }

    /// Reads lines of digits. The rows of the field written one per line give
    /// back the input, with or without a final newline.
    pub fn parse(input: &str) -> (r: Result<(usize, Field), &'static str>)
        ensures
            r is Ok <==> valid_text(input@),
            r matches Ok((n, field)) ==> {
                &&& n == input@.len()
                &&& joined(field.rows()) == input@ || joined(field.rows()) + seq!['\n'] == input@
                &&& forall|y: int| 0 <= y < field.rows().len() ==> (#[trigger] field.rows()[y]).len() > 0
                &&& forall|y: int, x: int| 0 <= y < field.rows().len() && 0 <= x < field.rows()[y].len() ==> field.rows()[y][x] <= 9
            },
    {
        let n = input.unicode_len();
        let mut lines: Vec<Vec<u64>> = Vec::new();
        let mut cur: Vec<u64> = Vec::new();
        let mut i: usize = 0;
        while i < n
            invariant
                n == input@.len(),
                i <= n,
                valid_text(input@.take(i as int)),
                text_so_far(lines@.map_values(|l: Vec<u64>| l@), cur@) == input@.take(i as int),
                cur@.len() == 0 <==> (i == 0 || input@[i - 1] == '\n'),
                forall|y: int| 0 <= y < lines@.len() ==> (#[trigger] lines@[y])@.len() > 0,
                forall|y: int, x: int| 0 <= y < lines@.len() && 0 <= x < lines@[y]@.len() ==> lines@[y]@[x] <= 9,
                forall|x: int| 0 <= x < cur@.len() ==> cur@[x] <= 9,
                i > 0 ==> lines@.len() > 0 || cur@.len() > 0,
            decreases n - i,
        {
            let c = input.get_char(i);
            let ghost rows = lines@.map_values(|l: Vec<u64>| l@);
            if c == '\n' {
                if cur.len() == 0 {
                    assert(!valid_text(input@) && !is_digit(c)) by {
                        assert(!is_digit(input@[i as int]));
                    }
                    return Err("Failed to parse input");
                }
                let ghost old_cur = cur@;
                lines.push(cur);
                cur = Vec::new();
                proof {
                    let rows2 = lines@.map_values(|l: Vec<u64>| l@);
                    assert(rows2 =~= rows.push(old_cur));
                    assert(rows2.drop_last() =~= rows);
                    assert(row_text(cur@) =~= seq![]);
                    assert(input@.take(i + 1) =~= input@.take(i as int) + seq!['\n']);
                    if rows.len() == 0 {
                        assert(text_so_far(rows2, cur@) =~= row_text(old_cur) + seq!['\n']);
                    } else {
                        assert(text_so_far(rows2, cur@) =~= joined(rows) + seq!['\n'] + row_text(old_cur) + seq!['\n']);
                    }
                    assert(valid_text(input@.take(i + 1))) by {
                        assert forall|j: int| 0 <= j < i + 1 implies is_digit(#[trigger] input@.take(i + 1)[j]) || (input@.take(i + 1)[j] == '\n' && j > 0 && is_digit(input@.take(i + 1)[j - 1])) by {
                            if j < i {
                                assert(input@.take(i + 1)[j] == input@.take(i as int)[j]);
                                if j > 0 {
                                    assert(input@.take(i + 1)[j - 1] == input@.take(i as int)[j - 1]);
                                }
                            } else {
                                assert(input@[i - 1] != '\n');
                                assert(input@.take(i as int)[i - 1] == input@[i - 1]);
                            }
                        }
                    }
                }
            } else {
                match digit_value(c) {
                    Some(d) => {
                        let ghost old_cur = cur@;
                        cur.push(d);
                        proof {
                            assert(row_text(cur@) =~= row_text(old_cur) + seq![c]);
                            assert(input@.take(i + 1) =~= input@.take(i as int) + seq![c]);
                            assert(valid_text(input@.take(i + 1))) by {
                                assert forall|j: int| 0 <= j < i + 1 implies is_digit(#[trigger] input@.take(i + 1)[j]) || (input@.take(i + 1)[j] == '\n' && j > 0 && is_digit(input@.take(i + 1)[j - 1])) by {
                                    if j < i {
                                        assert(input@.take(i + 1)[j] == input@.take(i as int)[j]);
                                        if j > 0 {
                                            assert(input@.take(i + 1)[j - 1] == input@.take(i as int)[j - 1]);
                                        }
                                    }
                                }
                            }
                        }
                    },
                    None => {
                        assert(!valid_text(input@)) by {
                            assert(!is_digit(input@[i as int]));
                        }
                        return Err("Failed to parse input");
                    },
                }
            }
            i += 1;
        }
        assert(input@.take(n as int) =~= input@);
        let ghost rows = lines@.map_values(|l: Vec<u64>| l@);
        if cur.len() > 0 {
            let ghost old_cur = cur@;
            lines.push(cur);
            proof {
                let rows2 = lines@.map_values(|l: Vec<u64>| l@);
                assert(rows2 =~= rows.push(old_cur));
                assert(rows2.drop_last() =~= rows);
                if rows.len() == 0 {
                    assert(joined(rows2) == row_text(old_cur));
                }
            }
        } else if lines.len() > 0 {
            assert(row_text(cur@) =~= seq![]);
            assert(joined(rows) + seq!['\n'] =~= input@);
        } else {
            assert(input@ =~= seq![]);
        }
        let field = Field { lines };
        assert(field.rows() == lines@.map_values(|l: Vec<u64>| l@));
        Ok((n, field))
    }
}

/// Number of positions, among the first `k` in reading order, whose tree is
/// visible from some edge.
pub open spec fn visible_count(field: Field, k: int) -> nat
    decreases k,
{
    if k <= 0 {
        0
    } else {
        let w = field.rows()[0].len() as int;
        let pos = Position { x: ((k - 1) % w) as usize, y: ((k - 1) / w) as usize };
        visible_count(field, k - 1) + if field.visible_from(pos, Direction::Up) || field.visible_from(
            pos,
            Direction::Down,
        ) || field.visible_from(pos, Direction::Left) || field.visible_from(pos, Direction::Right) {
            1nat
        } else {
            0nat
        }
    }
}

/// Tree heights and what can be seen from each tree.
pub struct Solution {
    year: u64,
    day: u64,
}

impl Solution {
    pub fn new(year: u64, day: u64) -> (r: Solution)
        ensures
            r.year_spec() == year,
            r.day_spec() == day,
    {
        Solution { year, day }
    }

    pub closed spec fn year_spec(&self) -> u64 {
        self.year
    }

    pub closed spec fn day_spec(&self) -> u64 {
        self.day
    }

    pub fn get_year(&self) -> (r: u64)
        ensures
            r == self.year_spec(),
    {
        self.year
    }

    pub fn get_day(&self) -> (r: u64)
        ensures
            r == self.day_spec(),
    {
        self.day
    }

    /// Number of trees visible from outside the field.
    pub fn part1_solution(&self, field: &Field) -> (r: usize)
        requires
            field.rectangular(),
            field.rows().len() * field.rows()[0].len() <= usize::MAX,
        ensures
            r == visible_count(*field, (field.rows().len() * field.rows()[0].len()) as int),
    {
        let height = field.height();
        let width = field.width();
        let mut count: usize = 0;
        let mut y: usize = 0;
        while y < height
            invariant
                field.rectangular(),
                height == field.rows().len(),
                width == field.rows()[0].len(),
                height * width <= usize::MAX,
                y <= height,
                count <= y * width,
                count == visible_count(*field, y * width),
            decreases height - y,
        {
            let mut x: usize = 0;
            while x < width
                invariant
                    field.rectangular(),
                    height == field.rows().len(),
                    width == field.rows()[0].len(),
                    height * width <= usize::MAX,
                    y < height,
                    x <= width,
                    count <= y * width + x,
                    count == visible_count(*field, y * width + x),
                decreases width - x,
            {
                let pos = Position::new(x, y);
                proof {
                    let k = y * width + x + 1;
                    assert(y * width + x < height * width) by (nonlinear_arith)
                        requires y < height, x < width;
                    assert((k - 1) % (width as int) == x && (k - 1) / (width as int) == y) by {
                        vstd::arithmetic::div_mod::lemma_fundamental_div_mod_converse(k - 1, width as int, y as int, x as int);
                    }
                    assert(field.rows()[y as int].len() == width);
                }
                if field.tree_visible(pos) {
                    count += 1;
                }
                x += 1;
            }
            assert((y + 1) * width == y * width + width) by (nonlinear_arith);
            y += 1;
        }
        count
    }

    /// Highest scenic score of any tree.
    pub fn part2_solution(&self, field: &Field) -> (r: usize)
        requires
            field.rectangular(),
            forall|x: usize, y: usize|
                x < field.rows()[0].len() && y < field.rows().len() ==> #[trigger] field.score(
                    Position { x, y },
                ) <= usize::MAX,
        ensures
            exists|x: usize, y: usize|
                x < field.rows()[0].len() && y < field.rows().len() && r == field.score(Position { x, y }),
            forall|x: usize, y: usize|
                x < field.rows()[0].len() && y < field.rows().len() ==> #[trigger] field.score(
                    Position { x, y },
                ) <= r,
    {
        let height = field.height();
        let width = field.width();
        let mut best: usize = field.scenic_score(Position::new(0, 0));
        let ghost mut best_pos = Position { x: 0, y: 0 };
        let mut y: usize = 0;
        while y < height
            invariant
                field.rectangular(),
                height == field.rows().len(),
                width == field.rows()[0].len(),
                forall|x: usize, y: usize|
                    x < field.rows()[0].len() && y < field.rows().len() ==> #[trigger] field.score(
                        Position { x, y },
                    ) <= usize::MAX,
                y <= height,
                best_pos.x < width && best_pos.y < height,
                best == field.score(best_pos),
                forall|xx: usize, yy: usize| xx < width && yy < y ==> #[trigger] field.score(Position { x: xx, y: yy }) <= best,
            decreases height - y,
        {
            let mut x: usize = 0;
            while x < width
                invariant
                    field.rectangular(),
                    height == field.rows().len(),
                    width == field.rows()[0].len(),
                    forall|x: usize, y: usize|
                        x < field.rows()[0].len() && y < field.rows().len() ==> #[trigger] field.score(
                            Position { x, y },
                        ) <= usize::MAX,
                    y < height,
                    x <= width,
                    best_pos.x < width && best_pos.y < height,
                    best == field.score(best_pos),
                    forall|xx: usize, yy: usize| xx < width && yy < y ==> #[trigger] field.score(Position { x: xx, y: yy }) <= best,
                    forall|xx: usize| xx < x ==> #[trigger] field.score(Position { x: xx, y }) <= best,
                decreases width - x,
            {
                let pos = Position::new(x, y);
                assert(field.rows()[y as int].len() == width);
                assert(field.score(pos) <= usize::MAX);
                let s = field.scenic_score(pos);
                if s > best {
                    best = s;
                    proof {
                        best_pos = pos;
                    }
                }
                x += 1;
            }
            y += 1;
        }
        best
    }
}

} // verus!
