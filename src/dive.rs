use vstd::prelude::*;

verus! {

#[derive(PartialEq, Eq, Structural, Clone, Copy, Debug)]
pub enum Direction {
    Forward,
    Up,
    Down,
}

#[derive(PartialEq, Eq, Structural, Clone, Copy, Debug)]
pub struct Command {
    pub direction: Direction,
    pub amount: usize,
}

pub open spec fn direction_word(d: Direction) -> Seq<char> {
    match d {
        Direction::Forward => seq!['f', 'o', 'r', 'w', 'a', 'r', 'd'],
        Direction::Up => seq!['u', 'p'],
        Direction::Down => seq!['d', 'o', 'w', 'n'],
    }
}

pub open spec fn is_digit(c: char) -> bool {
    '0' <= c <= '9'
}

/// Value of a decimal number, most significant digit first.
pub open spec fn decimal_value(s: Seq<char>) -> nat
    decreases s.len(),
{
    if s.len() == 0 {
        0
    } else {
        10 * decimal_value(s.drop_last()) + (s.last() as nat - '0' as nat) as nat
    }
}

/// `s` is a direction word, a space and a decimal amount that fits in `usize`,
/// and `cmd` is that command.
pub open spec fn command_text(s: Seq<char>, cmd: Command) -> bool {
    let w = direction_word(cmd.direction);
    let digits = s.subrange(w.len() + 1int, s.len() as int);
    &&& s.len() > w.len() + 1
    &&& s.subrange(0, w.len() as int) == w
    &&& s[w.len() as int] == ' '
    &&& forall|i: int| 0 <= i < digits.len() ==> is_digit(#[trigger] digits[i])
    &&& decimal_value(digits) == cmd.amount
}

/// Amount of a decimal number, if it fits in `usize`.
fn parse_amount(s: &str, from: usize) -> (r: Option<usize>)
    requires
        from <= s@.len(),
    ensures
        r matches Some(v) ==> from < s@.len() && (forall|i: int| from <= i < s@.len() ==> is_digit(#[trigger] s@[i]))
            && decimal_value(s@.subrange(from as int, s@.len() as int)) == v,
        r is None ==> from == s@.len() || (exists|i: int| from <= i < s@.len() && !is_digit(#[trigger] s@[i]))
            || decimal_value(s@.subrange(from as int, s@.len() as int)) > usize::MAX,
{
    let n = s.unicode_len();
    if from == n {
        return None;
    }
    let mut v: usize = 0;
    let mut i: usize = from;
    let mut overflow = false;
    proof {
        assert(s@.subrange(from as int, from as int) =~= Seq::<char>::empty());
    }
    while i < n
        invariant
            n == s@.len(),
            from <= i <= n,
            forall|k: int| from <= k < i ==> is_digit(#[trigger] s@[k]),
            !overflow ==> v == decimal_value(s@.subrange(from as int, i as int)),
            overflow ==> decimal_value(s@.subrange(from as int, i as int)) > usize::MAX,
        decreases n - i,
    {
        let c = s.get_char(i);
        let d: usize = match c {
            '0' => 0,
            '1' => 1,
            '2' => 2,
            '3' => 3,
            '4' => 4,
            '5' => 5,
            '6' => 6,
            '7' => 7,
            '8' => 8,
            '9' => 9,
            _ => {
                return None;
            },
        };
        let ghost prev = s@.subrange(from as int, i as int);
        assert(s@.subrange(from as int, i + 1).drop_last() =~= prev);
        assert(d == (c as nat - '0' as nat));
        if !overflow {
            if v > (usize::MAX - d) / 10 {
                overflow = true;
            } else {
                v = v * 10 + d;
            }
        }
        i += 1;
    }
    if overflow {
        None
    } else {
        Some(v)
    }
}

impl Command {
    /// Reads `forward N`, `up N` or `down N`.
    pub fn from_string(s: &str) -> (r: Command)
        requires
            exists|cmd: Command| command_text(s@, cmd),
        ensures
            command_text(s@, r),
    {
        let n = s.unicode_len();
        let direction = if n > 8 && s.get_char(0) == 'f' {
            Direction::Forward
        } else if n > 3 && s.get_char(0) == 'u' {
            Direction::Up
        } else {
            Direction::Down
        };
        let skip: usize = match direction {
            Direction::Forward => 8,
            Direction::Up => 3,
            Direction::Down => 5,
        };
        proof {
            let cmd = choose|cmd: Command| command_text(s@, cmd);
            let w = direction_word(cmd.direction);
            assert(s@[0] == w[0]);
            assert(cmd.direction == direction);
        }
        let amount = match parse_amount(s, skip) {
            Some(v) => v,
            None => {
                proof {
                    let cmd = choose|cmd: Command| command_text(s@, cmd);
                    let digits = s@.subrange(skip as int, s@.len() as int);
                    assert(cmd.direction == direction);
                    assert forall|i: int| skip <= i < s@.len() implies is_digit(#[trigger] s@[i]) by {
                        assert(digits[i - skip] == s@[i]);
                    }
                    assert(decimal_value(digits) == cmd.amount);
                    assert(false);
                }
                0
            },
        };
        Command { direction, amount }
    }
}

/// Horizontal position and depth after the commands, down adding to the
/// depth and up taking from it.
pub open spec fn travel(cmds: Seq<Command>) -> (int, int)
    decreases cmds.len(),
{
    if cmds.len() == 0 {
        (0, 0)
    } else {
        let (h, d) = travel(cmds.drop_last());
        let c = cmds.last();
        match c.direction {
            Direction::Forward => (h + c.amount, d),
            Direction::Up => (h, d - c.amount),
            Direction::Down => (h, d + c.amount),
        }
    }
}

/// Horizontal position, depth and aim after the commands, down and up
/// turning the aim and forward moving ahead and by aim times the amount down.
pub open spec fn travel_aim(cmds: Seq<Command>) -> (int, int, int)
    decreases cmds.len(),
{
    if cmds.len() == 0 {
        (0, 0, 0)
    } else {
        let (h, d, a) = travel_aim(cmds.drop_last());
        let c = cmds.last();
        match c.direction {
            Direction::Forward => (h + c.amount, d + a * c.amount, a),
            Direction::Up => (h, d, a - c.amount),
            Direction::Down => (h, d, a + c.amount),
        }
    }
}

pub open spec fn in_usize(v: int) -> bool {
    0 <= v <= usize::MAX
}

/// sum commands, return depth*horizontal
pub fn resulting_offset(commands: &[Command]) -> (r: usize)
    requires
        forall|k: int| 0 <= k <= commands@.len() ==> in_usize(#[trigger] travel(commands@.take(k)).0)
            && in_usize(travel(commands@.take(k)).1),
        in_usize(travel(commands@).0 * travel(commands@).1),
    ensures
        r == travel(commands@).0 * travel(commands@).1,
{
    let mut horizontal: usize = 0;
    let mut depth: usize = 0;
    let mut i: usize = 0;
    assert(commands@.take(0) =~= Seq::<Command>::empty());
    while i < commands.len()
        invariant
            i <= commands@.len(),
            forall|k: int| 0 <= k <= commands@.len() ==> in_usize(#[trigger] travel(commands@.take(k)).0)
                && in_usize(travel(commands@.take(k)).1),
            (horizontal as int, depth as int) == travel(commands@.take(i as int)),
        decreases commands@.len() - i,
    {
        let c = commands[i];
        assert(commands@.take(i + 1).drop_last() =~= commands@.take(i as int));
        assert(in_usize(travel(commands@.take(i + 1)).0));
        match c.direction {
            Direction::Forward => horizontal += c.amount,
            Direction::Up => depth -= c.amount,
            Direction::Down => depth += c.amount,
        }
        i += 1;
    }
    assert(commands@.take(commands@.len() as int) =~= commands@);
    horizontal * depth
}

/// sum commands, return depth*horizontal
pub fn resulting_offset_aim(commands: &[Command]) -> (r: usize)
    requires
        forall|k: int| 0 <= k <= commands@.len() ==> in_usize(#[trigger] travel_aim(commands@.take(k)).0)
            && in_usize(travel_aim(commands@.take(k)).1) && in_usize(travel_aim(commands@.take(k)).2),
        in_usize(travel_aim(commands@).0 * travel_aim(commands@).1),
    ensures
        r == travel_aim(commands@).0 * travel_aim(commands@).1,
{
    let mut horizontal: usize = 0;
    let mut depth: usize = 0;
    let mut aim: usize = 0;
    let mut i: usize = 0;
    assert(commands@.take(0) =~= Seq::<Command>::empty());
    while i < commands.len()
        invariant
            i <= commands@.len(),
            forall|k: int| 0 <= k <= commands@.len() ==> in_usize(#[trigger] travel_aim(commands@.take(k)).0)
                && in_usize(travel_aim(commands@.take(k)).1) && in_usize(travel_aim(commands@.take(k)).2),
            (horizontal as int, depth as int, aim as int) == travel_aim(commands@.take(i as int)),
        decreases commands@.len() - i,
    {
        let c = commands[i];
        assert(commands@.take(i + 1).drop_last() =~= commands@.take(i as int));
        assert(in_usize(travel_aim(commands@.take(i + 1)).0));
        match c.direction {
            Direction::Forward => {
                horizontal += c.amount;
                assert(0 <= aim * c.amount) by (nonlinear_arith);
                depth += aim * c.amount;
            },
            Direction::Up => aim -= c.amount,
            Direction::Down => aim += c.amount,
        }
        i += 1;
    }
    assert(commands@.take(commands@.len() as int) =~= commands@);
    horizontal * depth
}

} // verus!
