use vstd::arithmetic::div_mod::lemma_fundamental_div_mod;
use vstd::arithmetic::div_mod::lemma_fundamental_div_mod_converse;
use vstd::arithmetic::div_mod::lemma_mod_multiples_vanish;
use vstd::prelude::*;
use vstd::set_lib::{lemma_int_range, lemma_len_subset, set_int_range};

verus! {

/// Wall glyph of the valley map.
pub const WALL: char = '#';

/// Open ground glyph of the valley map.
pub const GROUND: char = '.';

/// Errors of reading a valley map.
#[derive(PartialEq, Eq, Structural, Clone, Copy, Debug)]
pub enum ParseError {
    /// Fewer than 3 rows or 3 columns.
    MapTooSmall,
    /// Rows of different lengths, or a row that does not start and end with a wall.
    MalformedBorder,
    /// The top or the bottom row is not all wall but for exactly one ground cell.
    BadEntryOrExit,
    /// A character that is none of `#`, `.`, `^`, `v`, `<`, `>`.
    InvalidGlyph,
}

/// The direction of a blizzard glyph.
pub open spec fn glyph_direction(c: char) -> Option<Direction> {
    if c == '^' {
        Some(Direction::Up)
    } else if c == 'v' {
        Some(Direction::Down)
    } else if c == '<' {
        Some(Direction::Left)
    } else if c == '>' {
        Some(Direction::Right)
    } else {
        None
    }
}

pub open spec fn is_glyph(c: char) -> bool {
    c == WALL || c == GROUND || glyph_direction(c) is Some
}

/// The characters of each line.
pub open spec fn rows_of(lines: Seq<String>) -> Seq<Seq<char>> {
    lines.map_values(|l: String| l@)
}

/// `row` has `width` cells and a wall at both ends.
pub open spec fn bordered(row: Seq<char>, width: int) -> bool {
    row.len() == width && row[0] == WALL && row[width - 1] == WALL
}

/// `row` is wall everywhere but at `i`, which is ground.
pub open spec fn single_gap_at(row: Seq<char>, i: int) -> bool {
    &&& 0 <= i < row.len()
    &&& row[i] == GROUND
    &&& forall|j: int| 0 <= j < row.len() && j != i ==> row[j] == WALL
}

pub open spec fn has_single_gap(row: Seq<char>) -> bool {
    exists|i: int| single_gap_at(row, i)
}

/// What is wrong with a map, checked in this order; `None` if it is a valley.
pub open spec fn map_error(rows: Seq<Seq<char>>) -> Option<ParseError> {
    if rows.len() < 3 || rows[0].len() < 3 {
        Some(ParseError::MapTooSmall)
    } else if exists|y: int| 0 <= y < rows.len() && !bordered(#[trigger] rows[y], rows[0].len() as int) {
        Some(ParseError::MalformedBorder)
    } else if exists|y: int, x: int|
        0 <= y < rows.len() && 0 <= x < rows[y].len() && !is_glyph(#[trigger] rows[y][x]) {
        Some(ParseError::InvalidGlyph)
    } else if !has_single_gap(rows[0]) || !has_single_gap(rows.last()) {
        Some(ParseError::BadEntryOrExit)
    } else {
        None
    }
}

/// In a row with walls at both ends, a single gap lies inside.
proof fn lemma_gap_inside(row: Seq<char>, width: int)
    requires
        bordered(row, width),
    ensures
        has_single_gap(row) ==> exists|i: int| 0 < i < width - 1 && #[trigger] single_gap_at(row, i),
{
    if has_single_gap(row) {
        let i = choose|i: int| single_gap_at(row, i);
        assert(0 < i < width - 1 && single_gap_at(row, i));
    }
}

/// `p` comes before `q` in reading order.
pub open spec fn before(p: Position, q: Position) -> bool {
    p.1 < q.1 || (p.1 == q.1 && p.0 < q.0)
}

/// `bl` holds one blizzard for each blizzard glyph of `rows`, with its
/// direction, in reading order.
pub open spec fn lists_hazards(rows: Seq<Seq<char>>, bl: Seq<Blizard>) -> bool {
    &&& forall|i: int|
        0 <= i < bl.len() ==> {
            let p = #[trigger] bl[i].position;
            &&& 0 <= p.1 < rows.len()
            &&& 0 <= p.0 < rows[p.1 as int].len()
            &&& glyph_direction(rows[p.1 as int][p.0 as int]) == Some(bl[i].direction)
        }
    &&& forall|y: int, x: int|
        0 <= y < rows.len() && 0 <= x < rows[y].len() && (glyph_direction(#[trigger] rows[y][x]) is Some)
            ==> exists|i: int| 0 <= i < bl.len() && bl[i].position == Position(x as i64, y as i64)
    &&& forall|i: int, j: int| 0 <= i < j < bl.len() ==> before(bl[i].position, bl[j].position)
}

/// A cell of the map, `(x, y)`, with the origin in the top left corner.
#[derive(PartialEq, Eq, Structural, Hash, Clone, Copy, Debug)]
pub struct Position(pub i64, pub i64);

/// Direction in which a blizzard blows or the traveller steps.
#[derive(PartialEq, Eq, Structural, Hash, Clone, Copy, Debug)]
pub enum Direction {
    Up,
    Down,
    Left,
    Right,
}

impl Direction {
    /// The direction of a blizzard glyph: `^`, `v`, `<` or `>`.
    pub fn from_glyph(c: char) -> (r: Option<Direction>)
        ensures
            r == glyph_direction(c),
    {
        match c {
            '^' => Some(Direction::Up),
            'v' => Some(Direction::Down),
            '<' => Some(Direction::Left),
            '>' => Some(Direction::Right),
            _ => None,
        }
    }
}

/// Horizontal component of one step in `d`.
pub open spec fn dx(d: Direction) -> int {
    match d {
        Direction::Left => -1,
        Direction::Right => 1,
        _ => 0,
    }
}

/// Vertical component of one step in `d` (rows grow downwards).
pub open spec fn dy(d: Direction) -> int {
    match d {
        Direction::Up => -1,
        Direction::Down => 1,
        _ => 0,
    }
}

/// The position `(p.0 + ox, p.1 + oy)`.
pub open spec fn shifted(p: Position, ox: int, oy: int) -> Position {
    Position((p.0 + ox) as i64, (p.1 + oy) as i64)
}

/// One step from `p` in `d` stays within `i64`.
pub open spec fn can_move(p: Position, d: Direction) -> bool {
    match d {
        Direction::Up => p.1 > i64::MIN,
        Direction::Down => p.1 < i64::MAX,
        Direction::Left => p.0 > i64::MIN,
        Direction::Right => p.0 < i64::MAX,
    }
}

impl Position {
    /// The neighbouring cell one step in `direction`.
    pub fn move_in(&self, direction: Direction) -> (r: Position)
        requires
            can_move(*self, direction),
        ensures
            r.0 == self.0 + dx(direction),
            r.1 == self.1 + dy(direction),
    {
        match direction {
            Direction::Up => Position(self.0, self.1 - 1),
            Direction::Down => Position(self.0, self.1 + 1),
            Direction::Left => Position(self.0 - 1, self.1),
            Direction::Right => Position(self.0 + 1, self.1),
        }
    }

    /// The neighbouring cell one step in `direction`, if the traveller may stand there.
    pub fn move_checked(&self, direction: Direction, world: &World) -> (r: Option<Position>)
        requires
            world.wf(),
            can_move(*self, direction),
        ensures
            r == (if world.ground(shifted(*self, dx(direction), dy(direction))) {
                Some(shifted(*self, dx(direction), dy(direction)))
            } else {
                None::<Position>
            }),
    {
        let new_pos = self.move_in(direction);
        if world.is_ground(new_pos) {
            Some(new_pos)
        } else {
            None
        }
    }
}

/// A blizzard: where it started and the direction in which it blows.
#[derive(PartialEq, Eq, Structural, Hash, Clone, Copy, Debug)]
pub struct Blizard {
    pub position: Position,
    pub direction: Direction,
}

impl Blizard {
    pub fn new(position: Position, direction: Direction) -> (r: Blizard)
        ensures
            r.position == position,
            r.direction == direction,
    {
        Blizard { position, direction }
    }
}

/// Rectangular valley with walls on the edges, one gap at the top (the entry)
/// and one at the bottom (the exit), and the blizzards as they stand at time 0.
#[derive(PartialEq, Eq, Debug)]
pub struct World {
    /// Map size `(width, height)`, walls included.
    pub map_size: (i64, i64),
    pub entry: Position,
    pub exit: Position,
    /// Blizzards in the order of the map, row by row.
    pub blizards: Vec<Blizard>,
}

impl World {
    pub open spec fn width(self) -> int {
        self.map_size.0 as int
    }

    pub open spec fn height(self) -> int {
        self.map_size.1 as int
    }

    /// Cells strictly inside the wall ring.
    pub open spec fn interior(self, p: Position) -> bool {
        0 < p.0 < self.width() - 1 && 0 < p.1 < self.height() - 1
    }

    /// Cells on which the traveller may stand: the interior, the entry and the exit.
    pub open spec fn ground(self, p: Position) -> bool {
        self.interior(p) || p == self.entry || p == self.exit
    }

    pub open spec fn wf(self) -> bool {
        &&& 3 <= self.width() < i64::MAX
        &&& 3 <= self.height() < i64::MAX
        &&& self.width() <= usize::MAX
        &&& self.height() <= usize::MAX
        &&& self.entry.1 == 0 && 0 < self.entry.0 < self.width() - 1
        &&& self.exit.1 == self.height() - 1 && 0 < self.exit.0 < self.width() - 1
        &&& forall|i: int|
            0 <= i < self.blizards@.len() ==> #[trigger] self.interior(self.blizards@[i].position)
    }

    /// Returns the position of the hole in the wall if there is only one,
    /// and it is not in a corner
    fn parse_horizontal_wall(line: &str, width: usize) -> (r: Option<usize>)
        requires
            line@.len() == width,
        ensures
            r matches Some(i) ==> 0 < i < width - 1 && single_gap_at(line@, i as int),
            r is None ==> !exists|i: int| 0 < i < width - 1 && #[trigger] single_gap_at(line@, i),
    {
        let mut position: Option<usize> = None;
        let mut w: usize = 0;
        while w < width
            invariant
                line@.len() == width,
                w <= width,
                position matches Some(i) ==> 0 < i < w && i < width - 1 && line@[i as int] == GROUND,
                forall|j: int|
                    0 <= j < w && !(position matches Some(i) && j == i) ==> line@[j] == WALL,
            decreases width - w,
        {
            let c = line.get_char(w);
            if c == GROUND {
                if w == 0 || w == width - 1 {
                    // a hole in the corner
                    proof {
                        assert forall|i: int| 0 < i < width - 1 implies !#[trigger] single_gap_at(line@, i) by {
                            assert(line@[w as int] == GROUND);
                        }
                    }
                    return None;
                }
                if position.is_some() {
                    proof {
                        let k = position->Some_0;
                        assert forall|i: int| 0 < i < width - 1 implies !#[trigger] single_gap_at(line@, i) by {
                            assert(line@[w as int] == GROUND && line@[k as int] == GROUND);
                        }
                    }
                    return None;
                }
                position = Some(w);
            } else if c != WALL {
                proof {
                    assert forall|i: int| 0 < i < width - 1 implies !#[trigger] single_gap_at(line@, i) by {
                        assert(line@[w as int] == c);
                    }
                }
                return None;
            }
            w += 1;
        }
        proof {
            if position is None {
                assert forall|i: int| 0 < i < width - 1 implies !#[trigger] single_gap_at(line@, i) by {
                    assert(line@[i] == WALL);
                }
            }
        }
        position
    }

    /// Parse the ASCII map into a World
    pub fn parse(lines: &[String]) -> (r: Result<World, ParseError>)
        requires
            lines@.len() < i64::MAX,
            forall|i: int| 0 <= i < lines@.len() ==> (#[trigger] lines@[i])@.len() < i64::MAX,
        ensures
            ({
                let rows = rows_of(lines@);
                match r {
                    Err(e) => map_error(rows) == Some(e),
                    Ok(world) => {
                        &&& map_error(rows) is None
                        &&& world.wf()
                        &&& world.map_size == (rows[0].len() as i64, rows.len() as i64)
                        &&& world.entry.1 == 0 && single_gap_at(rows[0], world.entry.0 as int)
                        &&& world.exit.1 == rows.len() - 1 && single_gap_at(rows.last(), world.exit.0 as int)
                        &&& lists_hazards(rows, world.blizards@)
                    },
                }
            }),
    {
        let ghost rows = rows_of(lines@);
        let height = lines.len();
        if height < 3 {
            return Err(ParseError::MapTooSmall);
        }
        assert(rows.len() == height);
        let width = lines[0].as_str().unicode_len();
        if width < 3 {
            return Err(ParseError::MapTooSmall);
        }
        // Every row has the width of the first and walls at both ends
        let mut y: usize = 0;
        while y < height
            invariant
                rows == rows_of(lines@),
                height == lines@.len(),
                rows.len() == height,
                3 <= height,
                rows[0].len() == width,
                3 <= width,
                y <= height,
                forall|yy: int| 0 <= yy < y ==> bordered(#[trigger] rows[yy], width as int),
            decreases height - y,
        {
            let line = lines[y].as_str();
            if line.unicode_len() != width || line.get_char(0) != WALL || line.get_char(width - 1)
                != WALL {
                assert(line@ == rows[y as int]);
                assert(!bordered(rows[y as int], rows[0].len() as int));
                return Err(ParseError::MalformedBorder);
            }
            y += 1;
        }
        // Every character is a glyph; collect the blizards
        let mut blizards: Vec<Blizard> = Vec::new();
        let mut y: usize = 0;
        while y < height
            invariant
                rows == rows_of(lines@),
                height == lines@.len(),
                rows.len() == height,
                3 <= height,
                height < i64::MAX,
                rows[0].len() == width,
                3 <= width < i64::MAX,
                y <= height,
                forall|yy: int| 0 <= yy < height ==> bordered(#[trigger] rows[yy], width as int),
                forall|yy: int, xx: int| 0 <= yy < y && 0 <= xx < width ==> is_glyph(#[trigger] rows[yy][xx]),
                forall|i: int|
                    0 <= i < blizards@.len() ==> {
                        let p = #[trigger] blizards@[i].position;
                        &&& 0 <= p.1 < y
                        &&& 0 <= p.0 < width
                        &&& glyph_direction(rows[p.1 as int][p.0 as int]) == Some(blizards@[i].direction)
                    },
                forall|yy: int, xx: int|
                    0 <= yy < y && 0 <= xx < width && (glyph_direction(#[trigger] rows[yy][xx]) is Some)
                        ==> exists|i: int| 0 <= i < blizards@.len() && blizards@[i].position == Position(xx as i64, yy as i64),
                forall|i: int, j: int| 0 <= i < j < blizards@.len() ==> before(blizards@[i].position, blizards@[j].position),
            decreases height - y,
        {
            let line = lines[y].as_str();
            assert(line@ == rows[y as int]);
            let mut x: usize = 0;
            while x < width
                invariant
                    rows == rows_of(lines@),
                    height == lines@.len(),
                    rows.len() == height,
                    3 <= height,
                3 <= height,
                    height < i64::MAX,
                    rows[0].len() == width,
                    3 <= width < i64::MAX,
                    y < height,
                    x <= width,
                    line@ == rows[y as int],
                    forall|yy: int| 0 <= yy < height ==> bordered(#[trigger] rows[yy], width as int),
                    forall|yy: int, xx: int| 0 <= yy < y && 0 <= xx < width ==> is_glyph(#[trigger] rows[yy][xx]),
                    forall|xx: int| 0 <= xx < x ==> is_glyph(#[trigger] rows[y as int][xx]),
                    forall|i: int|
                        0 <= i < blizards@.len() ==> {
                            let p = #[trigger] blizards@[i].position;
                            &&& (0 <= p.1 < y || (p.1 == y && 0 <= p.0 < x))
                            &&& 0 <= p.0 < width
                            &&& glyph_direction(rows[p.1 as int][p.0 as int]) == Some(blizards@[i].direction)
                        },
                    forall|yy: int, xx: int|
                        ((0 <= yy < y && 0 <= xx < width) || (yy == y && 0 <= xx < x)) && (glyph_direction(#[trigger] rows[yy][xx]) is Some)
                            ==> exists|i: int| 0 <= i < blizards@.len() && blizards@[i].position == Position(xx as i64, yy as i64),
                    forall|i: int, j: int| 0 <= i < j < blizards@.len() ==> before(blizards@[i].position, blizards@[j].position),
                decreases width - x,
            {
                let c = line.get_char(x);
                if !(c == WALL || c == GROUND || Direction::from_glyph(c).is_some()) {
                    assert(!is_glyph(rows[y as int][x as int]));
                    assert(!exists|yy: int| 0 <= yy < rows.len() && !bordered(#[trigger] rows[yy], rows[0].len() as int));
                    assert(rows[y as int].len() == width);
                    return Err(ParseError::InvalidGlyph);
                }
                match Direction::from_glyph(c) {
                    Some(direction) => {
                        let ghost old_bl = blizards@;
                        blizards.push(Blizard::new(Position(x as i64, y as i64), direction));
                        proof {
                            assert forall|yy: int, xx: int|
                                ((0 <= yy < y && 0 <= xx < width) || (yy == y && 0 <= xx < x + 1)) && (glyph_direction(#[trigger] rows[yy][xx]) is Some)
                                implies exists|i: int| 0 <= i < blizards@.len() && blizards@[i].position == Position(xx as i64, yy as i64) by {
                                if yy == y && xx == x {
                                    assert(blizards@[old_bl.len() as int].position == Position(xx as i64, yy as i64));
                                } else {
                                    let i = choose|i: int| 0 <= i < old_bl.len() && old_bl[i].position == Position(xx as i64, yy as i64);
                                    assert(blizards@[i] == old_bl[i]);
                                }
                            }
                        }
                    },
                    None => {},
                }
                x += 1;
            }
            y += 1;
        }
        let entry_x = match World::parse_horizontal_wall(lines[0].as_str(), width) {
            Some(x) => x,
            None => {
                proof {
                    lemma_gap_inside(rows[0], width as int);
                }
                return Err(ParseError::BadEntryOrExit);
            },
        };
        let exit_x = match World::parse_horizontal_wall(lines[height - 1].as_str(), width) {
            Some(x) => x,
            None => {
                assert(rows.last() == rows[height - 1]);
                proof {
                    lemma_gap_inside(rows[height - 1], width as int);
                }
                return Err(ParseError::BadEntryOrExit);
            },
        };
        proof {
            assert(rows.last() == rows[height - 1]);
            assert(!exists|yy: int| 0 <= yy < rows.len() && !bordered(#[trigger] rows[yy], rows[0].len() as int));
            assert(!exists|yy: int, xx: int|
                0 <= yy < rows.len() && 0 <= xx < rows[yy].len() && !is_glyph(#[trigger] rows[yy][xx]));
            assert forall|i: int| 0 <= i < blizards@.len() implies {
                let p = #[trigger] blizards@[i].position;
                0 < p.0 < width - 1 && 0 < p.1 < height - 1
            } by {
                let p = blizards@[i].position;
                assert(bordered(rows[p.1 as int], width as int));
                if p.1 == 0 {
                    assert(rows[0][p.0 as int] == WALL || rows[0][p.0 as int] == GROUND);
                }
                if p.1 == height - 1 {
                    assert(rows[height - 1][p.0 as int] == WALL || rows[height - 1][p.0 as int] == GROUND);
                }
            }
        }
        let world = World {
            map_size: (width as i64, height as i64),
            entry: Position(entry_x as i64, 0),
            exit: Position(exit_x as i64, (height - 1) as i64),
            blizards,
        };
        proof {
            assert(bordered(rows[0], width as int));
            assert(bordered(rows[height - 1], width as int));
            assert forall|i: int| 0 <= i < world.blizards@.len() implies #[trigger] world.interior(world.blizards@[i].position) by {
                let p = blizards@[i].position;
                assert(0 < p.0 < width - 1 && 0 < p.1 < height - 1);
            }
        }
        Ok(world)
    }

    /// Length of the closed orbit of a blizzard blowing in `d`: the interior
    /// width for horizontal motion, the interior height for vertical motion.
    pub open spec fn trajectory_length(self, d: Direction) -> int {
        match d {
            Direction::Up | Direction::Down => self.height() - 2,
            Direction::Left | Direction::Right => self.width() - 2,
        }
    }

    /// Where blizzard `b` stands after `t` ticks: it moves one cell per tick
    /// and wraps around inside the interior.
    pub open spec fn position_at(self, b: Blizard, t: int) -> Position {
        let len = self.trajectory_length(b.direction);
        let p = b.position;
        match b.direction {
            Direction::Up => Position(p.0, ((p.1 - 1 - t) % len + 1) as i64),
            Direction::Down => Position(p.0, ((p.1 - 1 + t) % len + 1) as i64),
            Direction::Left => Position(((p.0 - 1 - t) % len + 1) as i64, p.1),
            Direction::Right => Position(((p.0 - 1 + t) % len + 1) as i64, p.1),
        }
    }

    /// Every blizzard, in order, where it stands at time `t`.
    pub open spec fn blizards_seq_at(self, t: int) -> Seq<Position> {
        self.blizards@.map_values(|b: Blizard| self.position_at(b, t))
    }

    /// Cells taken by some blizzard at time `t`.
    pub open spec fn occupied(self, t: int) -> Set<Position> {
        self.blizards_seq_at(t).to_set()
    }

    /// `p` can be held one tick after the traveller could hold any cell of `f`:
    /// wait in place, or step onto ground from a neighbouring cell.
    pub open spec fn in_next(self, f: Set<Position>, p: Position) -> bool {
        f.contains(p) || (self.ground(p) && (f.contains(shifted(p, -1, 0)) || f.contains(
            shifted(p, 1, 0),
        ) || f.contains(shifted(p, 0, -1)) || f.contains(shifted(p, 0, 1))))
    }

    /// Cells the traveller could hold one tick after `f`, blizzards aside.
    pub open spec fn reachable_next(self, f: Set<Position>) -> Set<Position> {
        Set::new(|p: Position| self.in_next(f, p))
    }

    /// The frontier at time `t`, given the frontier `f` at time `t - 1`.
    pub open spec fn step(self, f: Set<Position>, t: int) -> Set<Position> {
        self.reachable_next(f).difference(self.occupied(t))
    }

    /// Cells the traveller could hold `k` ticks after standing at `from` at time `start`.
    pub open spec fn frontier(self, from: Position, start: int, k: nat) -> Set<Position>
        decreases k,
    {
        if k == 0 {
            set![from]
        } else {
            self.step(self.frontier(from, start, (k - 1) as nat), start + k)
        }
    }

    /// Number of `(cell, blizzard phase)` states of the map: `width * height`
    /// cells times `(width - 2) * (height - 2)` ticks, a multiple of the period
    /// of the blizzards. The search gives up after that many ticks.
    pub open spec fn search_span(self) -> int {
        self.width() * self.height() * ((self.width() - 2) * (self.height() - 2))
    }

    /// Ticks searched for a leg that starts at `start`: the span, cut so that
    /// the clock stays within `u64`.
    pub open spec fn tick_limit(self, start: int) -> int {
        if self.search_span() <= u64::MAX - start {
            self.search_span()
        } else {
            u64::MAX - start
        }
    }

    /// The first time `start + k`, with `k` from `from_k` up to `limit`, at which
    /// `to` is in the frontier of a leg that left `from` at `start`.
    pub open spec fn arrival_after(
        self,
        from: Position,
        to: Position,
        start: int,
        from_k: nat,
        limit: nat,
    ) -> Option<int>
        decreases limit + 1 - from_k,
    {
        if from_k > limit {
            None
        } else if self.frontier(from, start, from_k).contains(to) {
            Some(start + from_k)
        } else {
            self.arrival_after(from, to, start, from_k + 1, limit)
        }
    }

    /// The first tick at which a leg from `from`, leaving at `start`, can be at
    /// `to`, searched up to `tick_limit(start)` ticks.
    pub open spec fn arrival(self, from: Position, to: Position, start: int) -> Option<int> {
        self.arrival_after(from, to, start, 0, self.tick_limit(start) as nat)
    }

    /// Time at which the legs from `legs[i]` on are done, each leg leaving when
    /// the one before it arrived, the first at `start`.
    pub open spec fn trip_end(self, legs: Seq<(Position, Position)>, i: int, start: int) -> Option<int>
        decreases legs.len() - i,
    {
        if i >= legs.len() || i < 0 {
            Some(start)
        } else {
            match self.arrival(legs[i].0, legs[i].1, start) {
                None => None,
                Some(t) => self.trip_end(legs, i + 1, t),
            }
        }
    }

    /// Get the position of the blizard at the given time
    pub fn blizard_at(&self, blizard: &Blizard, time: u64) -> (r: Position)
        requires
            self.wf(),
            self.interior(blizard.position),
        ensures
            r == self.position_at(*blizard, time as int),
            self.interior(r),
    {
        let Blizard { position, direction } = *blizard;
        let len: i64 = match direction {
            Direction::Up | Direction::Down => self.map_size.1 - 2,
            Direction::Left | Direction::Right => self.map_size.0 - 2,
        };
        let shift: i64 = (time % (len as u64)) as i64;
        proof {
            lemma_fundamental_div_mod(time as int, len as int);
            assert(0 <= shift < len);
        }
        let forward = match direction {
            Direction::Down | Direction::Right => true,
            _ => false,
        };
        let start: i64 = match direction {
            Direction::Up | Direction::Down => position.1 - 1,
            Direction::Left | Direction::Right => position.0 - 1,
        };
        let moved: i64 = if forward {
            if start >= len - shift { start - (len - shift) } else { start + shift }
        } else {
            let v = start - shift;
            if v < 0 { v + len } else { v }
        };
        proof {
            let m = len as int;
            let t = time as int;
            let q = t / m;
            assert(t == q * m + shift) by (nonlinear_arith)
                requires t == m * (t / m) + t % m, q == t / m, shift == t % m;
            assert((q + 1) * m == q * m + m) by (nonlinear_arith);
            assert((-q - 1) * m == -(q * m) - m) by (nonlinear_arith);
            assert((-q) * m == -(q * m)) by (nonlinear_arith);
            if forward {
                if start + shift >= len {
                    lemma_fundamental_div_mod_converse(start + t, len as int, q + 1, moved as int);
                } else {
                    lemma_fundamental_div_mod_converse(start + t, len as int, q, moved as int);
                }
            } else {
                if start - shift < 0 {
                    lemma_fundamental_div_mod_converse(start - t, len as int, -q - 1, moved as int);
                } else {
                    lemma_fundamental_div_mod_converse(start - t, len as int, -q, moved as int);
                }
            }
        }
        match direction {
            Direction::Up | Direction::Down => Position(position.0, moved + 1),
            Direction::Left | Direction::Right => Position(moved + 1, position.1),
        }
    }

    /// The cells of all blizzards at time `time`, one entry per blizzard.
    pub fn blizards_at(&self, time: u64) -> (r: Vec<Position>)
        requires
            self.wf(),
        ensures
            r@ == self.blizards_seq_at(time as int),
    {
        let mut r: Vec<Position> = Vec::new();
        let mut i: usize = 0;
        while i < self.blizards.len()
            invariant
                self.wf(),
                i <= self.blizards@.len(),
                r@ == self.blizards_seq_at(time as int).take(i as int),
            decreases self.blizards@.len() - i,
        {
            let b = self.blizards[i];
            let p = self.blizard_at(&b, time);
            r.push(p);
            i += 1;
            assert(r@ =~= self.blizards_seq_at(time as int).take(i as int));
        }
        assert(r@ =~= self.blizards_seq_at(time as int));
        r
    }

    /// Returns true if the traveller may stand at `position`: inside the walls,
    /// or on the entry or the exit.
    pub fn is_ground(&self, position: Position) -> (r: bool)
        requires
            self.wf(),
        ensures
            r == self.ground(position),
    {
        let (width, height) = self.map_size;
        let Position(x, y) = position;
        let is_inside = x > 0 && x < width - 1 && y > 0 && y < height - 1;
        is_inside || position == self.entry || position == self.exit
    }
}

/// Every cell the traveller could stand on at the current tick, held as a
/// grid of flags the size of the map.
pub struct Player {
    width: usize,
    cells: Vec<Vec<bool>>,
}

impl View for Player {
    type V = Set<Position>;

    closed spec fn view(&self) -> Set<Position> {
        Set::new(|p: Position| self.has(p.0 as int, p.1 as int))
    }
}

impl Player {
    spec fn has(&self, x: int, y: int) -> bool {
        0 <= y < self.cells@.len() && 0 <= x < self.width && self.cells@[y]@[x]
    }

    /// The grid is rectangular.
    pub closed spec fn inv(&self) -> bool {
        &&& self.width < i64::MAX
        &&& self.cells@.len() < i64::MAX
        &&& forall|y: int| 0 <= y < self.cells@.len() ==> (#[trigger] self.cells@[y])@.len() == self.width
    }

    /// Width and height of the grid.
    pub closed spec fn dims(&self) -> (int, int) {
        (self.width as int, self.cells@.len() as int)
    }

    /// The grid covers the map of `world`.
    pub open spec fn fits(&self, world: World) -> bool {
        self.inv() && self.dims() == (world.width(), world.height())
    }

    pub fn new(stands_at: Position, world: &World) -> (r: Player)
        requires
            world.wf(),
            world.ground(stands_at),
        ensures
            r.fits(*world),
            r@ == set![stands_at],
    {
        let width = world.map_size.0 as usize;
        let height = world.map_size.1 as usize;
        let mut cells: Vec<Vec<bool>> = Vec::new();
        let mut y: usize = 0;
        while y < height
            invariant
                y <= height,
                width == world.width(),
                height == world.height(),
                world.wf(),
                world.ground(stands_at),
                cells@.len() == y,
                forall|yy: int| 0 <= yy < y ==> (#[trigger] cells@[yy])@.len() == width,
                forall|yy: int, xx: int|
                    0 <= yy < y && 0 <= xx < width ==> cells@[yy]@[xx] == (xx == stands_at.0
                        && yy == stands_at.1),
            decreases height - y,
        {
            let mut row: Vec<bool> = Vec::new();
            let mut x: usize = 0;
            while x < width
                invariant
                    x <= width,
                    width == world.width(),
                    y < height,
                    height == world.height(),
                    row@.len() == x,
                    forall|xx: int|
                        0 <= xx < x ==> row@[xx] == (xx == stands_at.0 && y == stands_at.1),
                decreases width - x,
            {
                row.push(x as i64 == stands_at.0 && y as i64 == stands_at.1);
                x += 1;
            }
            cells.push(row);
            y += 1;
        }
        let r = Player { width, cells };
        assert(r@ =~= set![stands_at]);
        r
    }

    /// Returns true if the traveller could stand at `position`.
    pub fn stands_at(&self, position: Position) -> (r: bool)
        requires
            self.inv(),
        ensures
            r == self@.contains(position),
    {
        let Position(x, y) = position;
        if x >= 0 && y >= 0 && x < self.width as i64 && y < self.cells.len() as i64 {
            self.cells[y as usize][x as usize]
        } else {
            false
        }
    }

    /// Returns true if the traveller can stand nowhere.
    pub fn is_empty(&self) -> (r: bool)
        requires
            self.inv(),
        ensures
            r == (self@ == Set::<Position>::empty()),
    {
        let mut y: usize = 0;
        while y < self.cells.len()
            invariant
                self.inv(),
                y <= self.cells@.len(),
                forall|yy: int, xx: int| 0 <= yy < y && 0 <= xx < self.width ==> !self.cells@[yy]@[xx],
            decreases self.cells@.len() - y,
        {
            let mut x: usize = 0;
            while x < self.width
                invariant
                    self.inv(),
                    y < self.cells@.len(),
                    x <= self.width,
                    forall|yy: int, xx: int| 0 <= yy < y && 0 <= xx < self.width ==> !self.cells@[yy]@[xx],
                    forall|xx: int| 0 <= xx < x ==> !self.cells@[y as int]@[xx],
                decreases self.width - x,
            {
                if self.cells[y][x] {
                    assert(self@.contains(Position(x as i64, y as i64)));
                    return false;
                }
                x += 1;
            }
            y += 1;
        }
        assert(self@ =~= Set::<Position>::empty());
        true
    }

    /// Generate all possible positions for the next step. The player can move in any direction or stay at the same position.
    /// Do not care about blizards.
    pub fn next_possible_positions(&self, world: &World) -> (r: Player)
        requires
            world.wf(),
            self.fits(*world),
        ensures
            r.fits(*world),
            r@ == world.reachable_next(self@),
    {
        let width = self.width;
        let height = self.cells.len();
        let mut rows: Vec<Vec<bool>> = Vec::new();
        let mut y: usize = 0;
        while y < height
            invariant
                world.wf(),
                self.fits(*world),
                width == self.width,
                height == self.cells@.len(),
                y <= height,
                rows@.len() == y,
                forall|yy: int| 0 <= yy < y ==> (#[trigger] rows@[yy])@.len() == width,
                forall|yy: int, xx: int|
                    0 <= yy < y && 0 <= xx < width ==> rows@[yy]@[xx] == world.in_next(
                        self@,
                        Position(xx as i64, yy as i64),
                    ),
            decreases height - y,
        {
            let mut row: Vec<bool> = Vec::new();
            let mut x: usize = 0;
            while x < width
                invariant
                    world.wf(),
                    self.fits(*world),
                    width == self.width,
                    height == self.cells@.len(),
                    y < height,
                    x <= width,
                    row@.len() == x,
                    forall|xx: int|
                        0 <= xx < x ==> row@[xx] == world.in_next(
                            self@,
                            Position(xx as i64, y as i64),
                        ),
                decreases width - x,
            {
                let p = Position(x as i64, y as i64);
                let here = self.cells[y][x];
                let near = (x > 0 && self.cells[y][x - 1]) || (x + 1 < width && self.cells[y][x
                    + 1]) || (y > 0 && self.cells[y - 1][x]) || (y + 1 < height && self.cells[y
                    + 1][x]);
                let c = here || (world.is_ground(p) && near);
                proof {
                    assert(self@.contains(p) == here);
                    assert(self@.contains(shifted(p, -1, 0)) == (x > 0 && self.cells@[y as int]@[x - 1]));
                    assert(self@.contains(shifted(p, 1, 0)) == (x + 1 < width && self.cells@[y as int]@[x + 1]));
                    assert(self@.contains(shifted(p, 0, -1)) == (y > 0 && self.cells@[y - 1]@[x as int]));
                    assert(self@.contains(shifted(p, 0, 1)) == (y + 1 < height && self.cells@[y + 1]@[x as int]));
                }
                row.push(c);
                x += 1;
            }
            rows.push(row);
            y += 1;
        }
        let r = Player { width, cells: rows };
        assert forall|p: Position| r@.contains(p) == world.reachable_next(self@).contains(p) by {
            if 0 <= p.1 < height && 0 <= p.0 < width {
                assert(Position(p.0 as int as i64, p.1 as int as i64) == p);
            } else {
                assert(!self@.contains(p));
                assert(!world.ground(p));
            }
        }
        assert(r@ =~= world.reachable_next(self@));
        r
    }

    /// The cells of `self` that no entry of `blocked` names.
    pub fn difference(&self, blocked: &Vec<Position>) -> (r: Player)
        requires
            self.inv(),
        ensures
            r.inv(),
            r.dims() == self.dims(),
            r@ == self@.difference(blocked@.to_set()),
    {
        let width = self.width;
        let height = self.cells.len();
        let mut rows: Vec<Vec<bool>> = Vec::new();
        let mut y: usize = 0;
        while y < height
            invariant
                self.inv(),
                width == self.width,
                height == self.cells@.len(),
                y <= height,
                rows@.len() == y,
                forall|yy: int| 0 <= yy < y ==> (#[trigger] rows@[yy])@.len() == width,
                forall|yy: int, xx: int|
                    0 <= yy < y && 0 <= xx < width ==> rows@[yy]@[xx] == (self.cells@[yy]@[xx]
                        && !blocked@.contains(Position(xx as i64, yy as i64))),
            decreases height - y,
        {
            let mut taken: Vec<bool> = Vec::new();
            let mut x: usize = 0;
            while x < width
                invariant
                    x <= width,
                    taken@.len() == x,
                    forall|xx: int| 0 <= xx < x ==> !taken@[xx],
                decreases width - x,
            {
                taken.push(false);
                x += 1;
            }
            let mut i: usize = 0;
            while i < blocked.len()
                invariant
                    self.inv(),
                    width == self.width,
                    height == self.cells@.len(),
                    y < height,
                    i <= blocked@.len(),
                    taken@.len() == width,
                    forall|xx: int|
                        0 <= xx < width ==> taken@[xx] == blocked@.take(i as int).contains(
                            Position(xx as i64, y as i64),
                        ),
                decreases blocked@.len() - i,
            {
                let b = blocked[i];
                if b.1 == y as i64 && b.0 >= 0 && b.0 < width as i64 {
                    taken.set(b.0 as usize, true);
                }
                proof {
                    let s = blocked@.take(i as int);
                    assert(blocked@.take(i + 1) =~= s.push(b));
                    assert forall|xx: int| 0 <= xx < width implies taken@[xx] == s.push(b).contains(
                        Position(xx as i64, y as i64),
                    ) by {
                        let q = Position(xx as i64, y as i64);
                        if s.contains(q) {
                            let j = choose|j: int| 0 <= j < s.len() && s[j] == q;
                            assert(s.push(b)[j] == q);
                        }
                        if q == b {
                            assert(s.push(b)[s.len() as int] == q);
                        }
                        if s.push(b).contains(q) {
                            let j = choose|j: int| 0 <= j < s.len() + 1 && s.push(b)[j] == q;
                            if j < s.len() {
                                assert(s[j] == q);
                            }
                        }
                    }
                }
                i += 1;
            }
            assert(blocked@.take(blocked@.len() as int) =~= blocked@);
            let mut row: Vec<bool> = Vec::new();
            let mut x: usize = 0;
            while x < width
                invariant
                    self.inv(),
                    width == self.width,
                    height == self.cells@.len(),
                    y < height,
                    x <= width,
                    taken@.len() == width,
                    forall|xx: int|
                        0 <= xx < width ==> taken@[xx] == blocked@.contains(
                            Position(xx as i64, y as i64),
                        ),
                    row@.len() == x,
                    forall|xx: int|
                        0 <= xx < x ==> row@[xx] == (self.cells@[y as int]@[xx] && !blocked@.contains(
                            Position(xx as i64, y as i64),
                        )),
                decreases width - x,
            {
                row.push(self.cells[y][x] && !taken[x]);
                x += 1;
            }
            rows.push(row);
            y += 1;
        }
        let r = Player { width, cells: rows };
        assert forall|p: Position| r@.contains(p) == self@.difference(blocked@.to_set()).contains(p) by {
            if 0 <= p.1 < height && 0 <= p.0 < width {
                assert(Position(p.0 as int as i64, p.1 as int as i64) == p);
            }
        }
        assert(r@ =~= self@.difference(blocked@.to_set()));
        r
    }
}

/// Errors of a crossing.
#[derive(PartialEq, Eq, Structural, Clone, Copy, Debug)]
pub enum TripError {
    /// No crossing found: the frontier emptied or the tick limit passed.
    Unreachable,
}

/// A frontier that is empty stays empty.
proof fn lemma_empty_stays(world: World, from: Position, start: int, k: nat, j: nat)
    requires
        world.frontier(from, start, k) == Set::<Position>::empty(),
        k <= j,
    ensures
        world.frontier(from, start, j) == Set::<Position>::empty(),
    decreases j - k,
{
    if k < j {
        lemma_empty_stays(world, from, start, k, (j - 1) as nat);
        assert(world.frontier(from, start, j) =~= Set::<Position>::empty());
    }
}

/// From an empty frontier on, `to` is never reached.
proof fn lemma_empty_never_arrives(
    world: World,
    from: Position,
    to: Position,
    start: int,
    k: nat,
    limit: nat,
)
    requires
        world.frontier(from, start, k) == Set::<Position>::empty(),
    ensures
        world.arrival_after(from, to, start, k, limit) == None::<int>,
    decreases limit + 1 - k,
{
    if k <= limit {
        lemma_empty_stays(world, from, start, k, k + 1);
        lemma_empty_never_arrives(world, from, to, start, k + 1, limit);
    }
}

/// Number of ticks to search for a leg that starts at `start`.
fn tick_limit(world: &World, start: u64) -> (r: u64)
    requires
        world.wf(),
    ensures
        r == world.tick_limit(start as int),
{
    let w = world.map_size.0 as u64;
    let h = world.map_size.1 as u64;
    let room = u64::MAX - start;
    proof {
        let a = w as int;
        let b = h as int;
        assert(a * b >= 1 && (a - 2) * (b - 2) >= 1) by (nonlinear_arith)
            requires a >= 3, b >= 3;
        assert(a * b >= a && a * b >= b) by (nonlinear_arith)
            requires a >= 3, b >= 3;
        assert(a * b * ((a - 2) * (b - 2)) >= a * b) by (nonlinear_arith)
            requires a * b >= 1, (a - 2) * (b - 2) >= 1;
        assert(a * b * ((a - 2) * (b - 2)) >= (a - 2) * (b - 2)) by (nonlinear_arith)
            requires a * b >= 1, (a - 2) * (b - 2) >= 1;
    }
    match w.checked_mul(h) {
        None => room,
        Some(cells) => match (w - 2).checked_mul(h - 2) {
            None => room,
            Some(phases) => match cells.checked_mul(phases) {
                None => room,
                Some(span) => if span <= room {
                    span
                } else {
                    room
                },
            },
        },
    }
}

/// Crossings of the valley.
pub struct Solution {
    year: u64,
    day: u64,
}

impl Solution {
    pub fn new(year: u64, day: u64) -> (r: Solution)
        ensures
            r.year_spec() == year,
            r.day_spec() == day,
    {
        Solution { year, day }
    }

    pub closed spec fn year_spec(&self) -> u64 {
        self.year
    }

    pub closed spec fn day_spec(&self) -> u64 {
        self.day
    }

    pub fn get_year(&self) -> (r: u64)
        ensures
            r == self.year_spec(),
    {
        self.year
    }

    pub fn get_day(&self) -> (r: u64)
        ensures
            r == self.day_spec(),
    {
        self.day
    }

    /// Time of one crossing from the entry to the exit, leaving at time 0.
    pub fn part1_solution(&self, world: &World) -> (r: Result<u64, TripError>)
        requires
            world.wf(),
        ensures
            match r {
                Ok(t) => world.arrival(world.entry, world.exit, 0) == Some(t as int),
                Err(_) => world.arrival(world.entry, world.exit, 0) == None::<int>,
            },
    {
        Solution::trip_from_to(world.entry, world.exit, 0, world)
    }

    /// Time at which the traveller, leaving at time 0, has crossed to the exit,
    /// gone back to the entry and crossed to the exit again.
    pub fn part2_solution(&self, world: &World) -> (r: Result<u64, TripError>)
        requires
            world.wf(),
        ensures
            ({
                let legs = seq![(world.entry, world.exit), (world.exit, world.entry), (world.entry, world.exit)];
                match r {
                    Ok(t) => world.trip_end(legs, 0, 0) == Some(t as int),
                    Err(_) => world.trip_end(legs, 0, 0) == None::<int>,
                }
            }),
    {
        let mut legs: Vec<(Position, Position)> = Vec::new();
        legs.push((world.entry, world.exit));
        legs.push((world.exit, world.entry));
        legs.push((world.entry, world.exit));
        assert(legs@ =~= seq![(world.entry, world.exit), (world.exit, world.entry), (world.entry, world.exit)]);
        Solution::plan_trip(&legs, 0, world)
    }

    /// First time, counted from `time_start`, at which the traveller can stand
    /// at `to` after leaving `from` at `time_start`, waiting or stepping each
    /// tick and never sharing a cell with a blizzard.
    pub fn trip_from_to(from: Position, to: Position, time_start: u64, world: &World) -> (r:
        Result<u64, TripError>)
        requires
            world.wf(),
            world.ground(from),
        ensures
            match r {
                Ok(t) => world.arrival(from, to, time_start as int) == Some(t as int),
                Err(_) => world.arrival(from, to, time_start as int) == None::<int>,
            },
            r is Err && world.search_span() <= u64::MAX - time_start ==> forall|k: nat|
                !#[trigger] world.frontier(from, time_start as int, k).contains(to),
            r is Err && world.search_span() <= u64::MAX - time_start ==> forall|path: Seq<Position>|
                #[trigger] valid_path(*world, from, time_start as int, path) ==> path.last() != to,
            r matches Ok(t) ==> exists|path: Seq<Position>| #[trigger] valid_path(*world, from, time_start as int, path)
                && path.len() == t - time_start + 1 && path.last() == to,
    {
        proof {
            lemma_walks_decide_trip(*world, from, to, time_start as int);
        }
        let limit = tick_limit(world, time_start);
        let ghost lim = limit as nat;
        let mut player = Player::new(from, world);
        let mut time = time_start;
        let mut k: u64 = 0;
        assert(player@ =~= world.frontier(from, time_start as int, 0));
        while !player.stands_at(to)
            invariant
                world.wf(),
                world.ground(from),
                player.fits(*world),
                limit == world.tick_limit(time_start as int),
                lim == limit,
                k <= limit,
                limit <= u64::MAX - time_start,
                time == time_start + k,
                player@ == world.frontier(from, time_start as int, k as nat),
                world.arrival_after(from, to, time_start as int, 0, lim) == world.arrival_after(
                    from,
                    to,
                    time_start as int,
                    k as nat,
                    lim,
                ),
            decreases limit + 1 - k,
        {
            assert(!world.frontier(from, time_start as int, k as nat).contains(to));
            if k == limit || player.is_empty() {
                proof {
                    if k != limit {
                        lemma_empty_never_arrives(*world, from, to, time_start as int, k as nat, lim);
                    } else {
                        assert(world.arrival_after(from, to, time_start as int, (k + 1) as nat, lim)
                            == None::<int>);
                    }
                    if world.search_span() <= u64::MAX - time_start {
                        lemma_unreachable_is_final(*world, from, to, time_start as int);
                        lemma_walks_decide_trip(*world, from, to, time_start as int);
                    }
                }
                return Err(TripError::Unreachable);
            }
            time += 1;
            k += 1;
            let blizards = world.blizards_at(time);
            let next_possible_positions = player.next_possible_positions(world);
            player = next_possible_positions.difference(&blizards);
            assert(player@ =~= world.frontier(from, time_start as int, k as nat));
        }
        Ok(time)
    }

    /// Time at which the last of `legs` arrives, each leg `(from, to)` leaving
    /// when the one before it arrived and the first at `time_start`.
    pub fn plan_trip(legs: &Vec<(Position, Position)>, time_start: u64, world: &World) -> (r:
        Result<u64, TripError>)
        requires
            world.wf(),
            forall|i: int| 0 <= i < legs@.len() ==> world.ground(#[trigger] legs@[i].0),
        ensures
            match r {
                Ok(t) => world.trip_end(legs@, 0, time_start as int) == Some(t as int),
                Err(_) => world.trip_end(legs@, 0, time_start as int) == None::<int>,
            },
    {
        let mut time = time_start;
        let mut i: usize = 0;
        while i < legs.len()
            invariant
                world.wf(),
                forall|j: int| 0 <= j < legs@.len() ==> world.ground(#[trigger] legs@[j].0),
                i <= legs@.len(),
                world.trip_end(legs@, 0, time_start as int) == world.trip_end(legs@, i as int, time as int),
            decreases legs@.len() - i,
        {
            let (from, to) = legs[i];
            match Solution::trip_from_to(from, to, time, world) {
                Ok(t) => {
                    time = t;
                },
                Err(e) => {
                    return Err(e);
                },
            }
            i += 1;
        }
        Ok(time)
    }
}

/// Every cell of every frontier of a leg that starts on ground is ground
/// itself (interior, entry or exit), never a wall.
pub proof fn lemma_frontier_on_ground(world: World, from: Position, start: int, k: nat)
    requires
        world.wf(),
        world.ground(from),
    ensures
        forall|p: Position| #[trigger] world.frontier(from, start, k).contains(p) ==> world.ground(p),
    decreases k,
{
    if k > 0 {
        let prev = world.frontier(from, start, (k - 1) as nat);
        lemma_frontier_on_ground(world, from, start, (k - 1) as nat);
        assert forall|p: Position| #[trigger] world.frontier(from, start, k).contains(p) implies world.ground(p) by {
            assert(world.reachable_next(prev).contains(p));
            assert(world.in_next(prev, p));
        }
    }
}

/// The arrival time of a leg is the first tick at which the target is in the
/// frontier: it is there then, and at no earlier tick.
pub proof fn lemma_arrival_is_first(world: World, from: Position, to: Position, start: int)
    ensures
        world.arrival(from, to, start) matches Some(t) ==> {
            &&& start <= t <= start + (world.tick_limit(start) as nat)
            &&& world.frontier(from, start, (t - start) as nat).contains(to)
            &&& forall|j: nat| j < t - start ==> !#[trigger] world.frontier(from, start, j).contains(to)
        },
        world.arrival(from, to, start) is None ==> forall|j: nat|
            j <= (world.tick_limit(start) as nat) ==> !#[trigger] world.frontier(from, start, j).contains(to),
{
    lemma_arrival_after_first(world, from, to, start, 0, world.tick_limit(start) as nat);
}

proof fn lemma_arrival_after_first(
    world: World,
    from: Position,
    to: Position,
    start: int,
    k: nat,
    limit: nat,
)
    ensures
        world.arrival_after(from, to, start, k, limit) matches Some(t) ==> {
            &&& start + k <= t <= start + limit
            &&& world.frontier(from, start, (t - start) as nat).contains(to)
            &&& forall|j: nat| k <= j < t - start ==> !#[trigger] world.frontier(from, start, j).contains(to)
        },
        world.arrival_after(from, to, start, k, limit) is None ==> forall|j: nat|
            k <= j <= limit ==> !#[trigger] world.frontier(from, start, j).contains(to),
    decreases limit + 1 - k,
{
    if k <= limit && !world.frontier(from, start, k).contains(to) {
        lemma_arrival_after_first(world, from, to, start, k + 1, limit);
    }
}

/// A blizzard is back where it was after one full trajectory: for every time
/// `t`, its position at `t` and at `t + trajectory_length` are the same.
pub proof fn lemma_blizard_periodic(world: World, b: Blizard, t: int)
    requires
        world.wf(),
    ensures
        world.position_at(b, t) == world.position_at(b, t + world.trajectory_length(b.direction)),
{
    let len = world.trajectory_length(b.direction);
    let p = b.position;
    let a = match b.direction {
        Direction::Up => p.1 - 1 - t,
        Direction::Down => p.1 - 1 + t,
        Direction::Left => p.0 - 1 - t,
        Direction::Right => p.0 - 1 + t,
    };
    lemma_fundamental_div_mod(a, len);
    let q = a / len;
    assert((q + 1) * len == q * len + len) by (nonlinear_arith);
    assert((q - 1) * len == q * len - len) by (nonlinear_arith);
    assert(a == q * len + a % len) by (nonlinear_arith)
        requires a == len * (a / len) + a % len, q == a / len;
    lemma_fundamental_div_mod_converse(a + len, len, q + 1, a % len);
    lemma_fundamental_div_mod_converse(a - len, len, q - 1, a % len);
}

/// A blizzard that stands on the first interior cell along its direction of
/// travel at time `t` stands on the last interior cell at the other end one
/// tick later (leftmost to rightmost for `Left`, and so on for the others).
pub proof fn lemma_blizard_wraps(world: World, b: Blizard, t: int)
    requires
        world.wf(),
    ensures
        b.direction == Direction::Left && world.position_at(b, t).0 == 1
            ==> world.position_at(b, t + 1).0 == world.width() - 2,
        b.direction == Direction::Right && world.position_at(b, t).0 == world.width() - 2
            ==> world.position_at(b, t + 1).0 == 1,
        b.direction == Direction::Up && world.position_at(b, t).1 == 1
            ==> world.position_at(b, t + 1).1 == world.height() - 2,
        b.direction == Direction::Down && world.position_at(b, t).1 == world.height() - 2
            ==> world.position_at(b, t + 1).1 == 1,
{
    let len = world.trajectory_length(b.direction);
    let p = b.position;
    let forward = b.direction == Direction::Down || b.direction == Direction::Right;
    let a = match b.direction {
        Direction::Up => p.1 - 1 - t,
        Direction::Down => p.1 - 1 + t,
        Direction::Left => p.0 - 1 - t,
        Direction::Right => p.0 - 1 + t,
    };
    lemma_fundamental_div_mod(a, len);
    let q = a / len;
    assert(a == q * len + a % len) by (nonlinear_arith)
        requires a == len * (a / len) + a % len, q == a / len;
    assert((q + 1) * len == q * len + len) by (nonlinear_arith);
    assert((q - 1) * len == q * len - len) by (nonlinear_arith);
    if forward {
        if a % len == len - 1 {
            lemma_fundamental_div_mod_converse(a + 1, len, q + 1, 0);
        }
    } else {
        if a % len == 0 {
            lemma_fundamental_div_mod_converse(a - 1, len, q - 1, len - 1);
        }
    }
}

/// The traveller can go from `a` at time `t - 1` to `b` at time `t`: wait,
/// or step onto neighbouring ground, where no blizzard stands at `t`.
pub open spec fn moves(w: World, a: Position, b: Position, t: int) -> bool {
    &&& (b == a || (w.ground(b) && (a == shifted(b, -1, 0) || a == shifted(b, 1, 0) || a == shifted(b, 0, -1)
        || a == shifted(b, 0, 1))))
    &&& !w.occupied(t).contains(b)
}

/// `path[i]` is a place for the traveller at time `start + i`, one move
/// after the other, from `from`.
pub open spec fn valid_path(w: World, from: Position, start: int, path: Seq<Position>) -> bool {
    &&& path.len() >= 1
    &&& path[0] == from
    &&& forall|i: int| 0 <= i < path.len() - 1 ==> #[trigger] moves(w, path[i], path[i + 1], start + i + 1)
}

/// A cell is in the frontier after `k` ticks exactly when some path of
/// `k` moves ends there.
pub proof fn lemma_frontier_paths(w: World, from: Position, start: int, k: nat, p: Position)
    ensures
        w.frontier(from, start, k).contains(p) ==> exists|path: Seq<Position>|
            #[trigger] valid_path(w, from, start, path) && path.len() == k + 1 && path.last() == p,
        (exists|path: Seq<Position>|
            #[trigger] valid_path(w, from, start, path) && path.len() == k + 1 && path.last() == p)
            ==> w.frontier(from, start, k).contains(p),
    decreases k,
{
    if k == 0 {
        if w.frontier(from, start, k).contains(p) {
            let path = seq![p];
            assert(valid_path(w, from, start, path));
        }
        if exists|path: Seq<Position>| #[trigger] valid_path(w, from, start, path) && path.len() == k + 1 && path.last() == p {
            let path = choose|path: Seq<Position>| #[trigger] valid_path(w, from, start, path) && path.len() == k + 1 && path.last() == p;
            assert(path[0] == p);
        }
    } else {
        let prev = w.frontier(from, start, (k - 1) as nat);
        let t = start + k;
        if w.frontier(from, start, k).contains(p) {
            assert(w.reachable_next(prev).contains(p));
            assert(w.in_next(prev, p));
            let a = if prev.contains(p) {
                p
            } else if prev.contains(shifted(p, -1, 0)) {
                shifted(p, -1, 0)
            } else if prev.contains(shifted(p, 1, 0)) {
                shifted(p, 1, 0)
            } else if prev.contains(shifted(p, 0, -1)) {
                shifted(p, 0, -1)
            } else {
                shifted(p, 0, 1)
            };
            assert(prev.contains(a));
            lemma_frontier_paths(w, from, start, (k - 1) as nat, a);
            let path0 = choose|path: Seq<Position>| #[trigger] valid_path(w, from, start, path) && path.len() == k && path.last() == a;
            let path = path0.push(p);
            assert(moves(w, a, p, t));
            assert forall|i: int| 0 <= i < path.len() - 1 implies #[trigger] moves(w, path[i], path[i + 1], start + i + 1) by {
                if i < path0.len() - 1 {
                    assert(path[i] == path0[i] && path[i + 1] == path0[i + 1]);
                    assert(moves(w, path0[i], path0[i + 1], start + i + 1));
                } else {
                    assert(path[i] == a && path[i + 1] == p);
                }
            }
            assert(valid_path(w, from, start, path));
        }
        if exists|path: Seq<Position>| #[trigger] valid_path(w, from, start, path) && path.len() == k + 1 && path.last() == p {
            let path = choose|path: Seq<Position>| #[trigger] valid_path(w, from, start, path) && path.len() == k + 1 && path.last() == p;
            let path0 = path.drop_last();
            let a = path0.last();
            assert forall|i: int| 0 <= i < path0.len() - 1 implies #[trigger] moves(w, path0[i], path0[i + 1], start + i + 1) by {
                assert(moves(w, path[i], path[i + 1], start + i + 1));
            }
            assert(valid_path(w, from, start, path0));
            lemma_frontier_paths(w, from, start, (k - 1) as nat, a);
            assert(prev.contains(a));
            assert(moves(w, path[k - 1], path[k as int], start + (k - 1) + 1));
            assert(w.in_next(prev, p));
            assert(w.step(prev, t).contains(p));
        }
    }
}

/// Number of ticks after which every blizzard is back where it was.
pub open spec fn period(w: World) -> int {
    (w.width() - 2) * (w.height() - 2)
}

/// Blizzards stand where they stood any number of periods earlier.
proof fn lemma_occupied_repeats(w: World, t: int, c: int)
    requires
        w.wf(),
    ensures
        w.occupied(t + c * period(w)) == w.occupied(t),
{
    let lw = w.width() - 2;
    let lh = w.height() - 2;
    assert forall|b: Blizard| #[trigger] w.position_at(b, t + c * period(w)) == w.position_at(b, t) by {
        let p = b.position;
        assert(c * period(w) == (c * lh) * lw && c * period(w) == (c * lw) * lh) by (nonlinear_arith)
            requires period(w) == lw * lh;
        match b.direction {
            Direction::Up => {
                assert(p.1 - 1 - (t + c * period(w)) == lh * (-c * lw) + (p.1 - 1 - t)) by (nonlinear_arith)
                    requires c * period(w) == (c * lw) * lh;
                lemma_mod_multiples_vanish(-c * lw, p.1 - 1 - t, lh);
            },
            Direction::Down => {
                assert(p.1 - 1 + (t + c * period(w)) == lh * (c * lw) + (p.1 - 1 + t)) by (nonlinear_arith)
                    requires c * period(w) == (c * lw) * lh;
                lemma_mod_multiples_vanish(c * lw, p.1 - 1 + t, lh);
            },
            Direction::Left => {
                assert(p.0 - 1 - (t + c * period(w)) == lw * (-c * lh) + (p.0 - 1 - t)) by (nonlinear_arith)
                    requires c * period(w) == (c * lh) * lw;
                lemma_mod_multiples_vanish(-c * lh, p.0 - 1 - t, lw);
            },
            Direction::Right => {
                assert(p.0 - 1 + (t + c * period(w)) == lw * (c * lh) + (p.0 - 1 + t)) by (nonlinear_arith)
                    requires c * period(w) == (c * lh) * lw;
                lemma_mod_multiples_vanish(c * lh, p.0 - 1 + t, lw);
            },
        }
    }
    assert(w.blizards_seq_at(t + c * period(w)) =~= w.blizards_seq_at(t));
}

/// Leaving out the moves between two visits of one cell at the same phase
/// of the blizzards gives a path again, with the same end.
proof fn lemma_cut_loop(w: World, from: Position, start: int, path: Seq<Position>, i: int, j: int, c: int)
    requires
        w.wf(),
        valid_path(w, from, start, path),
        0 <= i < j < path.len(),
        path[i] == path[j],
        j - i == c * period(w),
    ensures
        valid_path(w, from, start, path.take(i + 1) + path.skip(j + 1)),
        (path.take(i + 1) + path.skip(j + 1)).len() == path.len() - (j - i),
        (path.take(i + 1) + path.skip(j + 1)).last() == path.last(),
{
    let q = path.take(i + 1) + path.skip(j + 1);
    let d = j - i;
    assert(q.len() == path.len() - d);
    assert forall|m: int| 0 <= m < q.len() implies #[trigger] q[m] == (if m <= i { path[m] } else { path[m + d] }) by {
    }
    assert forall|m: int| 0 <= m < q.len() - 1 implies #[trigger] moves(w, q[m], q[m + 1], start + m + 1) by {
        if m < i {
            assert(moves(w, path[m], path[m + 1], start + m + 1));
        } else {
            assert(q[m] == path[m + d]) by {
                if m == i {
                    assert(path[i] == path[j]);
                }
            }
            let k = m + d;
            assert(q[m + 1] == path[k + 1]);
            assert(0 <= k < path.len() - 1);
            assert(moves(w, path[k], path[k + 1], start + k + 1));
            lemma_occupied_repeats(w, start + m + 1, c);
            assert(start + k + 1 == start + m + 1 + c * period(w));
        }
    }
    assert(q[0] == from);
    if j == path.len() - 1 {
        assert(q.last() == path[i]);
    } else {
        assert(q.last() == path[q.len() - 1 + d]);
    }
}

/// Every place on a path from ground is ground.
proof fn lemma_path_on_ground(w: World, from: Position, start: int, path: Seq<Position>, i: int)
    requires
        w.ground(from),
        valid_path(w, from, start, path),
        0 <= i < path.len(),
    ensures
        w.ground(path[i]),
    decreases i,
{
    if i > 0 {
        lemma_path_on_ground(w, from, start, path, i - 1);
        let k = i - 1;
        assert(moves(w, path[k], path[k + 1], start + k + 1));
        assert(path[k + 1] == path[i]);
    }
}

/// The values of `f` below `k`.
spec fn image(f: spec_fn(int) -> int, k: int) -> Set<int>
    decreases k,
{
    if k <= 0 {
        Set::empty()
    } else {
        image(f, k - 1).insert(f(k - 1))
    }
}

proof fn lemma_image(f: spec_fn(int) -> int, k: int)
    requires
        k >= 0,
        forall|i: int, j: int| 0 <= i < j < k ==> #[trigger] f(i) != #[trigger] f(j),
    ensures
        image(f, k).finite(),
        image(f, k).len() == k,
        forall|v: int| #[trigger] image(f, k).contains(v) ==> exists|i: int| 0 <= i < k && #[trigger] f(i) == v,
    decreases k,
{
    if k > 0 {
        lemma_image(f, k - 1);
        assert(!image(f, k - 1).contains(f(k - 1)));
    }
}

/// More than `bound` values in `[0, bound)` hold one value twice.
proof fn lemma_pigeonhole(f: spec_fn(int) -> int, n: int, bound: int)
    requires
        0 <= bound < n,
        forall|i: int| 0 <= i < n ==> 0 <= #[trigger] f(i) < bound,
    ensures
        exists|i: int, j: int| 0 <= i < j < n && #[trigger] f(i) == #[trigger] f(j),
{
    if !(exists|i: int, j: int| 0 <= i < j < n && #[trigger] f(i) == #[trigger] f(j)) {
        lemma_image(f, n);
        lemma_int_range(0, bound);
        assert(image(f, n).subset_of(set_int_range(0, bound)));
        lemma_len_subset(image(f, n), set_int_range(0, bound));
    }
}

/// State of the traveller at step `i` of a path: the cell and the phase of
/// the blizzards, as one number below `search_span`.
spec fn state_key(w: World, start: int, path: Seq<Position>, i: int) -> int {
    (path[i].1 * w.width() + path[i].0) * period(w) + (start + i) % period(w)
}

/// If a crossing reaches `to` at all, it reaches it within `search_span`
/// ticks: a longer one passes a cell twice at the same phase of the
/// blizzards, and the loop between can be left out.
pub proof fn lemma_limit_suffices(w: World, from: Position, to: Position, start: int, t: nat)
    requires
        w.wf(),
        w.ground(from),
        w.frontier(from, start, t).contains(to),
    ensures
        exists|k: nat| k <= w.search_span() && #[trigger] w.frontier(from, start, k).contains(to),
    decreases t,
{
    let n = w.search_span();
    let pw = w.width();
    let ph = w.height();
    let per = period(w);
    assert(per >= 1) by (nonlinear_arith)
        requires per == (pw - 2) * (ph - 2), pw >= 3, ph >= 3;
    assert(n == pw * ph * per);
    if t > n {
        lemma_frontier_paths(w, from, start, t, to);
        let path = choose|path: Seq<Position>| #[trigger] valid_path(w, from, start, path) && path.len() == t + 1 && path.last() == to;
        let f = |i: int| state_key(w, start, path, i);
        assert forall|i: int| 0 <= i < t + 1 implies 0 <= #[trigger] f(i) < n by {
            lemma_path_on_ground(w, from, start, path, i);
            let x = path[i].0 as int;
            let y = path[i].1 as int;
            let phase = (start + i) % per;
            assert(0 <= phase < per);
            assert(0 <= x < pw && 0 <= y < ph);
            assert(0 <= (y * pw + x) * per + phase < pw * ph * per) by (nonlinear_arith)
                requires 0 <= x < pw, 0 <= y < ph, 0 <= phase < per, per >= 1;
        }
        lemma_pigeonhole(f, t + 1int, n);
        let (i, j) = choose|i: int, j: int| 0 <= i < j < t + 1 && #[trigger] f(i) == #[trigger] f(j);
        lemma_path_on_ground(w, from, start, path, i);
        lemma_path_on_ground(w, from, start, path, j);
        let xi = path[i].0 as int;
        let yi = path[i].1 as int;
        let xj = path[j].0 as int;
        let yj = path[j].1 as int;
        let phi = (start + i) % per;
        let phj = (start + j) % per;
        assert(0 <= xi < pw && 0 <= yi < ph && 0 <= xj < pw && 0 <= yj < ph);
        let ci = yi * pw + xi;
        let cj = yj * pw + xj;
        assert(ci * per + phi == cj * per + phj);
        lemma_fundamental_div_mod_converse(ci * per + phi, per, ci, phi);
        lemma_fundamental_div_mod_converse(cj * per + phj, per, cj, phj);
        assert(ci == cj && phi == phj);
        lemma_fundamental_div_mod_converse(ci, pw, yi, xi);
        lemma_fundamental_div_mod_converse(cj, pw, yj, xj);
        assert(path[i] == path[j]);
        lemma_fundamental_div_mod(start + i, per);
        lemma_fundamental_div_mod(start + j, per);
        let c = (start + j) / per - (start + i) / per;
        assert(j - i == c * per) by (nonlinear_arith)
            requires
                start + i == per * ((start + i) / per) + phi,
                start + j == per * ((start + j) / per) + phj,
                phi == phj,
                c == (start + j) / per - (start + i) / per;
        lemma_cut_loop(w, from, start, path, i, j, c);
        let shorter = path.take(i + 1) + path.skip(j + 1);
        let t2 = (t - (j - i)) as nat;
        assert(valid_path(w, from, start, shorter) && shorter.len() == t2 + 1 && shorter.last() == to);
        lemma_frontier_paths(w, from, start, t2, to);
        lemma_limit_suffices(w, from, to, start, t2);
    }
}

/// When the search is not cut short by the clock, a leg that finds no
/// arrival can never arrive: `to` is in no frontier at all.
pub proof fn lemma_unreachable_is_final(w: World, from: Position, to: Position, start: int)
    requires
        w.wf(),
        w.ground(from),
        0 <= start,
        w.search_span() <= u64::MAX - start,
        w.arrival(from, to, start) is None,
    ensures
        forall|k: nat| !#[trigger] w.frontier(from, start, k).contains(to),
{
    lemma_arrival_is_first(w, from, to, start);
    assert(w.search_span() >= 0) by (nonlinear_arith)
        requires w.search_span() == w.width() * w.height() * ((w.width() - 2) * (w.height() - 2)), w.width() >= 3, w.height() >= 3;
    assert(w.tick_limit(start) == w.search_span());
    assert forall|k: nat| !#[trigger] w.frontier(from, start, k).contains(to) by {
        if w.frontier(from, start, k).contains(to) {
            lemma_limit_suffices(w, from, to, start, k);
            let k2 = choose|k2: nat| k2 <= w.search_span() && #[trigger] w.frontier(from, start, k2).contains(to);
            assert(k2 <= (w.tick_limit(start) as nat));
        }
    }
}

/// What a leg's result says in terms of walks: with an arrival at `t`, a
/// walk of `t - start` moves reaches `to` and no shorter one does; with no
/// arrival, and a search the clock does not cut short, no walk of any
/// length reaches `to`.
pub proof fn lemma_walks_decide_trip(w: World, from: Position, to: Position, start: int)
    requires
        w.wf(),
        w.ground(from),
        0 <= start,
    ensures
        w.arrival(from, to, start) matches Some(t) ==> {
            &&& exists|path: Seq<Position>| #[trigger] valid_path(w, from, start, path) && path.len() == t - start + 1
                && path.last() == to
            &&& forall|path: Seq<Position>| #[trigger] valid_path(w, from, start, path) && path.last() == to
                ==> path.len() >= t - start + 1
        },
        w.arrival(from, to, start) is None && w.search_span() <= u64::MAX - start ==> forall|path: Seq<Position>|
            #[trigger] valid_path(w, from, start, path) ==> path.last() != to,
{
    lemma_arrival_is_first(w, from, to, start);
    if w.arrival(from, to, start) is Some {
        let t = w.arrival(from, to, start)->Some_0;
        lemma_frontier_paths(w, from, start, (t - start) as nat, to);
        assert forall|path: Seq<Position>| #[trigger] valid_path(w, from, start, path) && path.last() == to
            implies path.len() >= t - start + 1 by {
            let k = (path.len() - 1) as nat;
            lemma_frontier_paths(w, from, start, k, to);
            assert(w.frontier(from, start, k).contains(to));
        }
    } else if w.search_span() <= u64::MAX - start {
        lemma_unreachable_is_final(w, from, to, start);
        assert forall|path: Seq<Position>| #[trigger] valid_path(w, from, start, path) implies path.last() != to by {
            let k = (path.len() - 1) as nat;
            lemma_frontier_paths(w, from, start, k, path.last());
            assert(w.frontier(from, start, k).contains(path.last()));
        }
    }
}

} // verus!
