use crate::diagnostic::chars_of;
use slab_tree::{NodeId, Tree, TreeBuilder};
use vstd::prelude::*;
use vstd::string::StrSliceExecFns;
use vstd::string::StringExecFns;

verus! {

// Types and parsing

#[derive(PartialEq, Eq, Debug)]
pub enum CdTarget {
    Root,
    Parent,
    Child(String),
}

#[derive(PartialEq, Eq, Structural, Clone, Copy, Debug)]
pub enum FileSystemEntryKind {
    File { size: usize },
    Directory,
}

#[derive(PartialEq, Eq, Debug)]
pub struct FileSystemEntry {
    pub name: String,
    pub kind: FileSystemEntryKind,
}

impl FileSystemEntry {
    pub fn new(name: &str, kind: FileSystemEntryKind) -> (r: FileSystemEntry)
        ensures
            r.name@ == name@,
            r.kind == kind,
    {
        FileSystemEntry { name: String::from_str(name), kind }
    }
}

#[derive(PartialEq, Eq, Debug)]
pub enum Command {
    Cd(CdTarget),
    Ls { entries: Vec<FileSystemEntry> },
}

/// Characters with the Unicode `White_Space` property.
pub open spec fn whitespace(c: char) -> bool {
    ('\u{9}' <= c <= '\u{d}') || c == ' ' || c == '\u{85}' || c == '\u{a0}' || c == '\u{1680}' || (
    '\u{2000}' <= c <= '\u{200a}') || c == '\u{2028}' || c == '\u{2029}' || c == '\u{202f}' || c
        == '\u{205f}' || c == '\u{3000}'
}

fn is_whitespace(c: char) -> (r: bool)
    ensures
        r == whitespace(c),
{
    ('\u{9}' <= c && c <= '\u{d}') || c == ' ' || c == '\u{85}' || c == '\u{a0}' || c == '\u{1680}'
        || ('\u{2000}' <= c && c <= '\u{200a}') || c == '\u{2028}' || c == '\u{2029}' || c
        == '\u{202f}' || c == '\u{205f}' || c == '\u{3000}'
}

pub open spec fn is_blank(c: char) -> bool {
    c == ' ' || c == '\t'
}

pub open spec fn is_digit(c: char) -> bool {
    '0' <= c <= '9'
}

/// End of the run of blanks (spaces and tabs) from `i`.
pub open spec fn blank_end(s: Seq<char>, i: int) -> int
    decreases s.len() - i,
{
    if 0 <= i < s.len() && is_blank(s[i]) {
        blank_end(s, i + 1)
    } else {
        i
    }
}

/// End of the run of characters other than whitespace from `i`.
pub open spec fn word_end(s: Seq<char>, i: int) -> int
    decreases s.len() - i,
{
    if 0 <= i < s.len() && !whitespace(s[i]) {
        word_end(s, i + 1)
    } else {
        i
    }
}

/// End of the run of digits from `i`.
pub open spec fn digits_end(s: Seq<char>, i: int) -> int
    decreases s.len() - i,
{
    if 0 <= i < s.len() && is_digit(s[i]) {
        digits_end(s, i + 1)
    } else {
        i
    }
}

/// `i`, or past a newline that stands there.
pub open spec fn after_newline(s: Seq<char>, i: int) -> int {
    if 0 <= i < s.len() && s[i] == '\n' {
        i + 1
    } else {
        i
    }
}

/// `t` stands in `s` at `i`.
pub open spec fn lit(s: Seq<char>, i: int, t: Seq<char>) -> bool {
    0 <= i && i + t.len() <= s.len() && s.subrange(i, i + t.len()) == t
}

/// Value of a decimal number, most significant digit first.
pub open spec fn decimal_value(s: Seq<char>) -> nat
    decreases s.len(),
{
    if s.len() == 0 {
        0
    } else {
        10 * decimal_value(s.drop_last()) + (s.last() as nat - '0' as nat) as nat
    }
}

/// A line of `ls` output at `i`: `dir NAME` or `SIZE NAME`, each followed
/// by an optional newline, as `(is a directory, name, size, end)`.
pub open spec fn entry_at(s: Seq<char>, i: int) -> Option<(bool, Seq<char>, nat, int)> {
    let b = blank_end(s, i + 3);
    let d = digits_end(s, i);
    let bd = blank_end(s, d);
    if lit(s, i, seq!['d', 'i', 'r']) && b > i + 3 {
        let w = word_end(s, b);
        Some((true, s.subrange(b, w), 0nat, after_newline(s, w)))
    } else if d > i && bd > d && decimal_value(s.subrange(i, d)) <= usize::MAX {
        let w = word_end(s, bd);
        Some((false, s.subrange(bd, w), decimal_value(s.subrange(i, d)), after_newline(s, w)))
    } else {
        None
    }
}

/// The lines of `ls` output from `i` on, as many as read.
pub open spec fn entries_from(s: Seq<char>, i: int) -> (Seq<(bool, Seq<char>, nat)>, int)
    decreases s.len() - i,
{
    match entry_at(s, i) {
        Some((is_dir, name, size, end)) => if i < end <= s.len() {
            let (rest, e) = entries_from(s, end);
            (seq![(is_dir, name, size)] + rest, e)
        } else {
            (seq![], i)
        },
        None => (seq![], i),
    }
}

/// `$`, blanks, then `word` at `i`: the position after `word`.
pub open spec fn prompt(s: Seq<char>, i: int, word: Seq<char>) -> Option<int> {
    let a = blank_end(s, i + 1);
    if lit(s, i, seq!['$']) && a > i + 1 && lit(s, a, word) {
        Some(a + word.len())
    } else {
        None
    }
}

/// A command at `i`: `$ cd TARGET` or `$ ls` with its output, as
/// `(is cd, target, entries, end)`.
pub open spec fn command_at(s: Seq<char>, i: int) -> Option<
    (bool, Seq<char>, Seq<(bool, Seq<char>, nat)>, int),
> {
    let cd = prompt(s, i, seq!['c', 'd']);
    let ls = prompt(s, i, seq!['l', 's']);
    if cd is Some && blank_end(s, cd->Some_0) > cd->Some_0 {
        let b = blank_end(s, cd->Some_0);
        let w = word_end(s, b);
        Some((true, s.subrange(b, w), seq![], after_newline(s, w)))
    } else if ls is Some {
        let (entries, e) = entries_from(s, after_newline(s, ls->Some_0));
        Some((false, seq![], entries, e))
    } else {
        None
    }
}

/// What the exec target stands for.
pub open spec fn target_is(t: CdTarget, word: Seq<char>) -> bool {
    match t {
        CdTarget::Root => word == seq!['/'],
        CdTarget::Parent => word == seq!['.', '.'],
        CdTarget::Child(name) => name@ == word && word != seq!['/'] && word != seq!['.', '.'],
    }
}

/// An entry stands for `(is a directory, name, size)`.
pub open spec fn entry_is(e: FileSystemEntry, v: (bool, Seq<char>, nat)) -> bool {
    &&& e.name@ == v.1
    &&& match e.kind {
        FileSystemEntryKind::Directory => v.0,
        FileSystemEntryKind::File { size } => !v.0 && size == v.2,
    }
}

/// A command stands for `(is cd, target, entries)`.
pub open spec fn command_is(c: Command, v: (bool, Seq<char>, Seq<(bool, Seq<char>, nat)>)) -> bool {
    match c {
        Command::Cd(t) => v.0 && target_is(t, v.1),
        Command::Ls { entries } => !v.0 && entries@.len() == v.2.len() && forall|k: int|
            0 <= k < v.2.len() ==> entry_is(#[trigger] entries@[k], v.2[k]),
    }
}

#[derive(PartialEq, Eq, Debug)]
pub struct CommandHistory {
    pub commands: Vec<Command>,
}

/// The commands from `i` on, as many as read, and where reading stopped.
pub open spec fn commands_from(s: Seq<char>, i: int) -> (Seq<(bool, Seq<char>, Seq<(bool, Seq<char>, nat)>)>, int)
    decreases s.len() - i,
{
    match command_at(s, i) {
        Some((is_cd, target, entries, end)) => if i < end <= s.len() {
            let (rest, e) = commands_from(s, end);
            (seq![(is_cd, target, entries)] + rest, e)
        } else {
            (seq![], i)
        },
        None => (seq![], i),
    }
}

fn blank_end_at(s: &Vec<char>, i: usize) -> (r: usize)
    requires
        i <= s@.len(),
    ensures
        r == blank_end(s@, i as int),
        i <= r <= s@.len(),
{
    let mut j = i;
    while j < s.len() && (s[j] == ' ' || s[j] == '\t')
        invariant
            i <= j <= s@.len(),
            blank_end(s@, i as int) == blank_end(s@, j as int),
        decreases s@.len() - j,
    {
        j += 1;
    }
    j
}

fn word_end_at(s: &Vec<char>, i: usize) -> (r: usize)
    requires
        i <= s@.len(),
    ensures
        r == word_end(s@, i as int),
        i <= r <= s@.len(),
{
    let mut j = i;
    while j < s.len() && !is_whitespace(s[j])
        invariant
            i <= j <= s@.len(),
            word_end(s@, i as int) == word_end(s@, j as int),
        decreases s@.len() - j,
    {
        j += 1;
    }
    j
}

fn after_newline_at(s: &Vec<char>, i: usize) -> (r: usize)
    requires
        i <= s@.len(),
    ensures
        r == after_newline(s@, i as int),
        i <= r <= s@.len(),
{
    if i < s.len() && s[i] == '\n' {
        i + 1
    } else {
        i
    }
}

/// End of the digits from `i`, and their value if it fits in `usize`.
fn number_at(s: &Vec<char>, i: usize) -> (r: (usize, Option<usize>))
    requires
        i <= s@.len(),
    ensures
        r.0 == digits_end(s@, i as int),
        i <= r.0 <= s@.len(),
        r.1 is Some <==> decimal_value(s@.subrange(i as int, r.0 as int)) <= usize::MAX,
        r.1 matches Some(v) ==> v == decimal_value(s@.subrange(i as int, r.0 as int)),
{
    let mut j = i;
    let mut v: usize = 0;
    let mut fits = true;
    assert(s@.subrange(i as int, i as int) =~= Seq::<char>::empty());
    while j < s.len() && '0' <= s[j] && s[j] <= '9'
        invariant
            i <= j <= s@.len(),
            digits_end(s@, i as int) == digits_end(s@, j as int),
            forall|k: int| i <= k < j ==> is_digit(#[trigger] s@[k]),
            fits ==> v == decimal_value(s@.subrange(i as int, j as int)),
            !fits ==> decimal_value(s@.subrange(i as int, j as int)) > usize::MAX,
        decreases s@.len() - j,
    {
        let d = (s[j] as u32 - '0' as u32) as usize;
        assert(s@.subrange(i as int, j + 1).drop_last() =~= s@.subrange(i as int, j as int));
        if fits {
            if v > (usize::MAX - d) / 10 {
                fits = false;
            } else {
                v = v * 10 + d;
            }
        }
        j += 1;
    }
    (j, if fits { Some(v) } else { None })
}

/// `s[i..i + 3]` is `dir`.
fn dir_at(s: &Vec<char>, i: usize) -> (r: bool)
    requires
        i <= s@.len(),
    ensures
        r == lit(s@, i as int, seq!['d', 'i', 'r']),
{
    let r = i < s.len() && s.len() - i >= 3 && s[i] == 'd' && s[i + 1] == 'i' && s[i + 2] == 'r';
    proof {
        if i + 3 <= s@.len() {
            if r {
                assert(s@.subrange(i as int, i + 3) =~= seq!['d', 'i', 'r']);
            } else if s@.subrange(i as int, i + 3) == seq!['d', 'i', 'r'] {
                assert(s@.subrange(i as int, i + 3)[0] == s@[i as int]);
                assert(s@.subrange(i as int, i + 3)[1] == s@[i + 1]);
                assert(s@.subrange(i as int, i + 3)[2] == s@[i + 2]);
            }
        }
    }
    r
}

/// `$`, blanks, then `first`, `second` at `i`: the position after them.
fn prompt_at(s: &Vec<char>, i: usize, first: char, second: char) -> (r: Option<usize>)
    requires
        i <= s@.len(),
    ensures
        r matches Some(a) ==> prompt(s@, i as int, seq![first, second]) == Some(a as int) && a <= s@.len(),
        r is None ==> prompt(s@, i as int, seq![first, second]) is None,
{
    if !(i < s.len() && s[i] == '$') {
        proof {
            if lit(s@, i as int, seq!['$']) {
                assert(s@.subrange(i as int, i + 1)[0] == s@[i as int]);
            }
        }
        return None;
    }
    assert(s@.subrange(i as int, i + 1) =~= seq!['$']);
    let a = blank_end_at(s, i + 1);
    let ok = a > i + 1 && a < s.len() && s.len() - a >= 2 && s[a] == first && s[a + 1] == second;
    proof {
        if a > i + 1 && a + 2 <= s@.len() {
            if ok {
                assert(s@.subrange(a as int, a + 2) =~= seq![first, second]);
            } else if s@.subrange(a as int, a + 2) == seq![first, second] {
                assert(s@.subrange(a as int, a + 2)[0] == s@[a as int]);
                assert(s@.subrange(a as int, a + 2)[1] == s@[a + 1]);
            }
        }
    }
    if ok {
        Some(a + 2)
    } else {
        None
    }
}

/// The line of `ls` output at `i`, and where it ends.
fn entry_at_exec(input: &str, s: &Vec<char>, i: usize) -> (r: Option<(FileSystemEntry, usize)>)
    requires
        s@ == input@,
        i <= s@.len(),
    ensures
        match r {
            Some((e, end)) => entry_at(s@, i as int) matches Some(v) && entry_is(e, (v.0, v.1, v.2))
                && end == v.3 && end <= s@.len(),
            None => entry_at(s@, i as int) is None,
        },
{
    let n = s.len();
    if dir_at(s, i) {
        assert(i + 3 <= n);
        let b = blank_end_at(s, i + 3);
        if b > i + 3 {
            let w = word_end_at(s, b);
            let end = after_newline_at(s, w);
            let name = input.substring_char(b, w);
            return Some((FileSystemEntry::new(name, FileSystemEntryKind::Directory), end));
        }
    }
    let (d, value) = number_at(s, i);
    if d > i {
        let bd = blank_end_at(s, d);
        if bd > d {
            match value {
                Some(size) => {
                    let w = word_end_at(s, bd);
                    let end = after_newline_at(s, w);
                    let name = input.substring_char(bd, w);
                    return Some((FileSystemEntry::new(name, FileSystemEntryKind::File { size }), end));
                },
                None => {},
            }
        }
    }
    None
}

/// Where no line of `ls` output stands at `j`, reading from `i` ends there.
proof fn lemma_stop(s: Seq<char>, i: int, j: int, n: int)
    requires
        entry_at(s, j) matches Some(v) ==> v.3 <= j,
        0 <= n <= entries_from(s, i).0.len(),
        entries_from(s, i).1 == entries_from(s, j).1,
        entries_from(s, i).0 == entries_from(s, i).0.take(n) + entries_from(s, j).0,
    ensures
        entries_from(s, i).0.len() == n,
        entries_from(s, i).1 == j,
{
    assert(entries_from(s, j).0 =~= Seq::<(bool, Seq<char>, nat)>::empty());
}

/// The lines of `ls` output from `i` on, and where they end.
fn entries_at(input: &str, s: &Vec<char>, i: usize) -> (r: (Vec<FileSystemEntry>, usize))
    requires
        s@ == input@,
        i <= s@.len(),
    ensures
        r.0@.len() == entries_from(s@, i as int).0.len(),
        forall|k: int| 0 <= k < r.0@.len() ==> entry_is(#[trigger] r.0@[k], entries_from(s@, i as int).0[k]),
        r.1 == entries_from(s@, i as int).1,
        r.1 <= s@.len(),
{
    let mut entries: Vec<FileSystemEntry> = Vec::new();
    let mut j = i;
    loop
        invariant
            s@ == input@,
            i <= j <= s@.len(),
            entries_from(s@, i as int).1 == entries_from(s@, j as int).1,
            entries_from(s@, i as int).0 == ({
                let mut_prefix = entries_from(s@, i as int).0.take(entries@.len() as int);
                mut_prefix + entries_from(s@, j as int).0
            }),
            entries@.len() <= entries_from(s@, i as int).0.len(),
            forall|k: int| 0 <= k < entries@.len() ==> entry_is(#[trigger] entries@[k], entries_from(s@, i as int).0[k]),
        ensures
            entries@.len() == entries_from(s@, i as int).0.len(),
            j == entries_from(s@, i as int).1,
            j <= s@.len(),
            forall|k: int| 0 <= k < entries@.len() ==> entry_is(#[trigger] entries@[k], entries_from(s@, i as int).0[k]),
        decreases s@.len() - j,
    {
        match entry_at_exec(input, s, j) {
            Some((e, end)) => {
                if end <= j {
                    proof {
                        lemma_stop(s@, i as int, j as int, entries@.len() as int);
                    }
                    break;
                }
                let ghost total = entries_from(s@, i as int).0;
                let ghost n = entries@.len() as int;
                proof {
                    let v = entry_at(s@, j as int)->Some_0;
                    assert(entries_from(s@, j as int).0 == seq![(v.0, v.1, v.2)] + entries_from(s@, end as int).0);
                    assert(total.take(n + 1) =~= total.take(n).push((v.0, v.1, v.2))) by {
                        assert(total[n] == (v.0, v.1, v.2));
                    }
                    assert(total =~= total.take(n + 1) + entries_from(s@, end as int).0);
                }
                entries.push(e);
                j = end;
            },
            None => {
                proof {
                    lemma_stop(s@, i as int, j as int, entries@.len() as int);
                }
                break;
            },
        }
    }
    (entries, j)
}

fn cd_target(word: &str) -> (r: CdTarget)
    ensures
        target_is(r, word@),
{
    let n = word.unicode_len();
    if n == 1 && word.get_char(0) == '/' {
        assert(word@ =~= seq!['/']);
        CdTarget::Root
    } else if n == 2 && word.get_char(0) == '.' && word.get_char(1) == '.' {
        assert(word@ =~= seq!['.', '.']);
        CdTarget::Parent
    } else {
        proof {
            if word@ == seq!['/'] {
                assert(word@[0] == '/');
            }
            if word@ == seq!['.', '.'] {
                assert(word@[0] == '.' && word@[1] == '.');
            }
        }
        CdTarget::Child(String::from_str(word))
    }
}

/// The command at `i`, and where it ends.
fn command_at_exec(input: &str, s: &Vec<char>, i: usize) -> (r: Option<(Command, usize)>)
    requires
        s@ == input@,
        i <= s@.len(),
    ensures
        match r {
            Some((c, end)) => command_at(s@, i as int) matches Some(v) && command_is(c, (v.0, v.1, v.2))
                && end == v.3 && end <= s@.len(),
            None => command_at(s@, i as int) is None,
        },
{
    match prompt_at(s, i, 'c', 'd') {
        Some(a) => {
            let b = blank_end_at(s, a);
            if b > a {
                let w = word_end_at(s, b);
                let end = after_newline_at(s, w);
                let word = input.substring_char(b, w);
                let target = cd_target(word);
                return Some((Command::Cd(target), end));
            }
        },
        None => {},
    }
    match prompt_at(s, i, 'l', 's') {
        Some(a) => {
            let p = after_newline_at(s, a);
            let (entries, e) = entries_at(input, s, p);
            Some((Command::Ls { entries }, e))
        },
        None => None,
    }
}

impl Command {
    /// Parse a command from a string
    pub fn parse(input: &str) -> (r: Result<(&str, Command), &'static str>)
        ensures
            match r {
                Ok((rest, c)) => command_at(input@, 0) matches Some(v) && command_is(c, (v.0, v.1, v.2))
                    && rest@ == input@.subrange(v.3, input@.len() as int),
                Err(_) => command_at(input@, 0) is None,
            },
    {
        let s = chars_of(input);
        match command_at_exec(input, &s, 0) {
            Some((c, end)) => Ok((input.substring_char(end, s.len()), c)),
            None => Err("not a command"),
        }
    }
}

/// Where no command stands at `j`, reading from `i` ends there.
proof fn lemma_commands_stop(s: Seq<char>, i: int, j: int, n: int)
    requires
        command_at(s, j) matches Some(v) ==> v.3 <= j,
        0 <= n <= commands_from(s, i).0.len(),
        commands_from(s, i).1 == commands_from(s, j).1,
        commands_from(s, i).0 == commands_from(s, i).0.take(n) + commands_from(s, j).0,
    ensures
        commands_from(s, i).0.len() == n,
        commands_from(s, i).1 == j,
{
    assert(commands_from(s, j).0 =~= Seq::<(bool, Seq<char>, Seq<(bool, Seq<char>, nat)>)>::empty());
}

impl CommandHistory {
    /// Parse a command history from a string (one command per line)
    pub fn parse(input: &str) -> (r: Result<(&str, CommandHistory), &'static str>)
        ensures
            r is Ok <==> commands_from(input@, 0).1 == input@.len(),
            r matches Ok((rest, h)) ==> rest@.len() == 0 && h.commands@.len() == commands_from(input@, 0).0.len()
                && forall|k: int| 0 <= k < h.commands@.len() ==> command_is(#[trigger] h.commands@[k], commands_from(input@, 0).0[k]),
    {
        let s = chars_of(input);
        let mut commands: Vec<Command> = Vec::new();
        let mut j: usize = 0;
        loop
            invariant
                s@ == input@,
                j <= s@.len(),
                commands_from(s@, 0).1 == commands_from(s@, j as int).1,
                commands_from(s@, 0).0 == commands_from(s@, 0).0.take(commands@.len() as int) + commands_from(s@, j as int).0,
                commands@.len() <= commands_from(s@, 0).0.len(),
                forall|k: int| 0 <= k < commands@.len() ==> command_is(#[trigger] commands@[k], commands_from(s@, 0).0[k]),
            ensures
                commands@.len() == commands_from(s@, 0).0.len(),
                j == commands_from(s@, 0).1,
                j <= s@.len(),
                forall|k: int| 0 <= k < commands@.len() ==> command_is(#[trigger] commands@[k], commands_from(s@, 0).0[k]),
            decreases s@.len() - j,
        {
            match command_at_exec(input, &s, j) {
                Some((c, end)) => {
                    if end <= j {
                        proof {
                            lemma_commands_stop(s@, 0, j as int, commands@.len() as int);
                        }
                        break;
                    }
                    let ghost total = commands_from(s@, 0).0;
                    let ghost n = commands@.len() as int;
                    proof {
                        let v = command_at(s@, j as int)->Some_0;
                        assert(commands_from(s@, j as int).0 == seq![(v.0, v.1, v.2)] + commands_from(s@, end as int).0);
                        assert(total.take(n + 1) =~= total.take(n).push((v.0, v.1, v.2))) by {
                            assert(total[n] == (v.0, v.1, v.2));
                        }
                        assert(total =~= total.take(n + 1) + commands_from(s@, end as int).0);
                    }
                    commands.push(c);
                    j = end;
                },
                None => {
                    proof {
                        lemma_commands_stop(s@, 0, j as int, commands@.len() as int);
                    }
                    break;
                },
            }
        }
        if j < s.len() {
            return Err("input left over");
        }
        Ok((input.substring_char(j, j), CommandHistory { commands }))
    }
}

// Solution

pub struct File {
    pub name: String,
    pub size: usize,
}

pub struct Folder {
    pub name: String,
    pub files: Vec<File>,
}

/// Sum of the sizes of `files`.
pub open spec fn files_total(files: Seq<File>) -> int
    decreases files.len(),
{
    if files.len() == 0 {
        0
    } else {
        files_total(files.drop_last()) + files.last().size
    }
}

impl Folder {
    pub open spec fn name_view(&self) -> Seq<char> {
        self.name@
    }

    pub open spec fn own_size(&self) -> int {
        files_total(self.files@)
    }

    /// Get the size of all files directly in this folder
    pub fn get_size(&self) -> (r: usize)
        requires
            self.own_size() <= usize::MAX,
        ensures
            r == self.own_size(),
    {
        let mut sum: usize = 0;
        let mut i: usize = 0;
        proof {
            lemma_prefix_totals(self.files@);
        }
        while i < self.files.len()
            invariant
                i <= self.files@.len(),
                self.own_size() <= usize::MAX,
                forall|k: int| 0 <= k <= self.files@.len() ==> #[trigger] files_total(self.files@.take(k)) <= self.own_size(),
                sum == files_total(self.files@.take(i as int)),
            decreases self.files@.len() - i,
        {
            assert(self.files@.take(i + 1).drop_last() =~= self.files@.take(i as int));
            assert(files_total(self.files@.take(i + 1)) <= self.own_size());
            sum = sum + self.files[i].size;
            i += 1;
        }
        assert(self.files@.take(self.files@.len() as int) =~= self.files@);
        sum
    }
}

/// A running total never exceeds the whole.
proof fn lemma_prefix_totals(files: Seq<File>)
    ensures
        forall|k: int| 0 <= k <= files.len() ==> #[trigger] files_total(files.take(k)) <= files_total(files),
    decreases files.len(),
{
    if files.len() > 0 {
        lemma_prefix_totals(files.drop_last());
        assert forall|k: int| 0 <= k <= files.len() implies #[trigger] files_total(files.take(k)) <= files_total(files) by {
            if k < files.len() {
                assert(files.take(k) =~= files.drop_last().take(k));
                assert(files_total(files.drop_last().take(k)) <= files_total(files.drop_last()));
            } else {
                assert(files.take(k) =~= files);
            }
        }
    }
}

/// A tree of folders numbered in the order they were made, the root first:
/// each node of the slab tree holds its own number.
#[verifier::external_body]
pub struct FolderTree {
    tree: Tree<usize>,
    ids: Vec<NodeId>,
}

/// The parent of each folder by number, `-1` for the root.
pub uninterp spec fn tree_parents(t: FolderTree) -> Seq<int>;

/// Relies on slab_tree's `TreeBuilder::with_root` and `build`: a tree that
/// holds only its root.
#[verifier::external_body]
fn new_folder_tree() -> (r: FolderTree)
    ensures
        tree_parents(r) == seq![-1int],
{
    let tree = TreeBuilder::new().with_root(0usize).build();
    let root = tree.root_id().unwrap();
    FolderTree { tree, ids: vec![root] }
}

/// Relies on slab_tree's `NodeMut::append`: a new last child of `parent`,
/// numbered after all others.
#[verifier::external_body]
fn append_folder(t: &mut FolderTree, parent: usize) -> (r: usize)
    requires
        parent < tree_parents(*old(t)).len(),
    ensures
        tree_parents(*final(t)) == tree_parents(*old(t)).push(parent as int),
        r == tree_parents(*old(t)).len(),
{
    let number = t.ids.len();
    let id = t.tree.get_mut(t.ids[parent]).unwrap().append(number).node_id();
    t.ids.push(id);
    number
}

/// Relies on slab_tree's `NodeRef::parent`: the number of the parent of `k`.
#[verifier::external_body]
fn parent_folder(t: &FolderTree, k: usize) -> (r: Option<usize>)
    requires
        k < tree_parents(*t).len(),
    ensures
        r == (if tree_parents(*t)[k as int] < 0 {
            None::<usize>
        } else {
            Some(tree_parents(*t)[k as int] as usize)
        }),
{
    t.tree.get(t.ids[k]).unwrap().parent().map(|p| *p.data())
}

/// Parents come before their children, the root has none.
pub open spec fn wf_parents(p: Seq<int>) -> bool {
    &&& p.len() >= 1
    &&& p[0] == -1
    &&& forall|j: int| 0 < j < p.len() ==> 0 <= #[trigger] p[j] < j
}

/// `j` lies in the subtree of `k`.
pub open spec fn is_desc(p: Seq<int>, k: int, j: int) -> bool
    decreases j,
{
    if j == k {
        true
    } else if j <= 0 || j >= p.len() || p[j] < 0 || p[j] >= j {
        false
    } else {
        is_desc(p, k, p[j])
    }
}

/// Sum of `own` over the folders below `n` that lie in the subtree of `k`.
pub open spec fn desc_sum(p: Seq<int>, own: Seq<int>, k: int, n: int) -> int
    decreases n,
{
    if n <= 0 {
        0
    } else {
        desc_sum(p, own, k, n - 1) + if is_desc(p, k, n - 1) {
            own[n - 1]
        } else {
            0
        }
    }
}

/// What `ls` reports of an entry: `(is a directory, name, size)`.
pub open spec fn entry_view(e: FileSystemEntry) -> (bool, Seq<char>, nat) {
    match e.kind {
        FileSystemEntryKind::Directory => (true, e.name@, 0nat),
        FileSystemEntryKind::File { size } => (false, e.name@, size as nat),
    }
}

/// The file system as values: the parent of each folder, their names, the
/// sizes of the files directly in each, and the current folder.
pub type FsState = (Seq<int>, Seq<Seq<char>>, Seq<int>, int);

/// A file system with only the root folder `/`, which is current.
pub open spec fn initial_state() -> FsState {
    (seq![-1int], seq![seq!['/']], seq![0int], 0)
}

/// `ls` reported entry `e` in the current folder: a folder is added below
/// it, or the size of a file is added to it.
pub open spec fn with_entry(st: FsState, e: (bool, Seq<char>, nat)) -> FsState {
    let (p, names, own, cur) = st;
    if e.0 {
        (p.push(cur), names.push(e.1), own.push(0), cur)
    } else {
        (p, names, own.update(cur, own[cur] + e.2), cur)
    }
}

pub open spec fn with_entries(st: FsState, es: Seq<(bool, Seq<char>, nat)>, n: int) -> FsState
    decreases n,
{
    if n <= 0 {
        st
    } else {
        with_entry(with_entries(st, es, n - 1), es[n - 1])
    }
}

/// The first child of `cur`, from number `from` on, named `name`.
pub open spec fn child_named(p: Seq<int>, names: Seq<Seq<char>>, cur: int, name: Seq<char>, from: int) -> Option<int>
    decreases p.len() - from,
{
    if from < 0 || from >= p.len() {
        None
    } else if p[from] == cur && names[from] == name {
        Some(from)
    } else {
        child_named(p, names, cur, name, from + 1)
    }
}

/// The state after a command, `None` if it changes to a folder that is not there.
pub open spec fn with_command(st: FsState, c: Command) -> Option<FsState> {
    let (p, names, own, cur) = st;
    match c {
        Command::Cd(CdTarget::Root) => Some((p, names, own, 0)),
        Command::Cd(CdTarget::Parent) => if 0 <= cur < p.len() && p[cur] >= 0 {
            Some((p, names, own, p[cur]))
        } else {
            None
        },
        Command::Cd(CdTarget::Child(name)) => match child_named(p, names, cur, name@, 0) {
            Some(j) => Some((p, names, own, j)),
            None => None,
        },
        Command::Ls { entries } => Some(
            with_entries(st, entries@.map_values(|e: FileSystemEntry| entry_view(e)), entries@.len() as int),
        ),
    }
}

/// The state after the first `n` commands, `None` if one of them fails.
pub open spec fn with_commands(cmds: Seq<Command>, n: int) -> Option<FsState>
    decreases n,
{
    if n <= 0 {
        Some(initial_state())
    } else {
        match with_commands(cmds, n - 1) {
            Some(st) => with_command(st, cmds[n - 1]),
            None => None,
        }
    }
}

/// The folders of a file system, and which one is current.
pub struct FileSystem {
    current_dir: usize,
    tree: FolderTree,
    folders: Vec<Folder>,
}

impl FileSystem {
    pub closed spec fn state(&self) -> FsState {
        (
            tree_parents(self.tree),
            self.folders@.map_values(|f: Folder| f.name@),
            self.folders@.map_values(|f: Folder| files_total(f.files@)),
            self.current_dir as int,
        )
    }

    pub closed spec fn wf(&self) -> bool {
        &&& wf_parents(tree_parents(self.tree))
        &&& self.folders@.len() == tree_parents(self.tree).len()
        &&& self.current_dir < self.folders@.len()
    }

    /// Adds a file of `size` to the current folder.
    pub fn add_file(self, name: &str, size: usize) -> (r: FileSystem)
        requires
            self.wf(),
        ensures
            r.wf(),
            r.state() == with_entry(self.state(), (false, name@, size as nat)),
    {
        let mut fs = self;
        let cur = fs.current_dir;
        let ghost before = fs.folders@;
        let mut folder = fs.folders.remove(cur);
        let ghost old_files = folder.files@;
        folder.files.push(File { name: String::from_str(name), size });
        assert(folder.files@.drop_last() =~= old_files);
        fs.folders.insert(cur, folder);
        proof {
            assert(fs.folders@ =~= before.update(cur as int, folder));
            let st = fs.state();
            let old_st = (tree_parents(fs.tree), before.map_values(|f: Folder| f.name@), before.map_values(|f: Folder| files_total(f.files@)), cur as int);
            assert(st.1 =~= old_st.1);
            assert(st.2 =~= old_st.2.update(cur as int, old_st.2[cur as int] + size));
        }
        fs
    }

    /// Add a new subdirectory to the current directory
    pub fn add_directory(self, name: &str) -> (r: FileSystem)
        requires
            self.wf(),
        ensures
            r.wf(),
            r.state() == with_entry(self.state(), (true, name@, 0nat)),
    {
        let mut fs = self;
        let ghost before = fs.folders@;
        let _number = append_folder(&mut fs.tree, fs.current_dir);
        fs.folders.push(Folder { name: String::from_str(name), files: Vec::new() });
        proof {
            let st = fs.state();
            assert(st.1 =~= before.map_values(|f: Folder| f.name@).push(name@));
            assert(files_total(Seq::<File>::empty()) == 0);
            assert(st.2 =~= before.map_values(|f: Folder| files_total(f.files@)).push(0));
        }
        fs
    }

    /// The first child of the current folder named `name`, if any.
    fn find_child(&self, name: &String) -> (r: Option<usize>)
        requires
            self.wf(),
        ensures
            r matches Some(j) ==> child_named(self.state().0, self.state().1, self.state().3, name@, 0) == Some(j as int),
            r is None ==> child_named(self.state().0, self.state().1, self.state().3, name@, 0) is None,
    {
        let ghost p = tree_parents(self.tree);
        let ghost names = self.state().1;
        let n = self.folders.len();
        let mut j: usize = 0;
        while j < n
            invariant
                self.wf(),
                n == self.folders@.len(),
                p == tree_parents(self.tree),
                p.len() == n,
                names == self.state().1,
                j <= n,
                child_named(p, names, self.current_dir as int, name@, 0) == child_named(p, names, self.current_dir as int, name@, j as int),
            decreases n - j,
        {
            assert(names[j as int] == self.folders@[j as int].name@);
            match parent_folder(&self.tree, j) {
                Some(q) => {
                    if q == self.current_dir && string_eq(&self.folders[j].name, name) {
                        return Some(j);
                    }
                },
                None => {},
            }
            j += 1;
        }
        None
    }
}

/// Returns true if the two strings hold the same characters.
fn string_eq(a: &String, b: &String) -> (r: bool)
    ensures
        r == (a@ == b@),
{
    let x = a.as_str();
    let y = b.as_str();
    let n = x.unicode_len();
    if n != y.unicode_len() {
        assert(x@.len() != y@.len());
        return false;
    }
    let mut i: usize = 0;
    while i < n
        invariant
            x@ == a@,
            y@ == b@,
            n == x@.len() == y@.len(),
            i <= n,
            forall|k: int| 0 <= k < i ==> x@[k] == y@[k],
        decreases n - i,
    {
        if x.get_char(i) != y.get_char(i) {
            assert(x@[i as int] != y@[i as int]);
            return false;
        }
        i += 1;
    }
    assert(x@ =~= y@);
    true
}


impl FileSystem {
    /// Execute a command, mutating the model of the file system
    pub fn exec_command(self, command: &Command) -> (r: FileSystem)
        requires
            self.wf(),
            with_command(self.state(), *command) is Some,
        ensures
            r.wf(),
            r.state() == with_command(self.state(), *command)->Some_0,
    {
        match command {
            Command::Cd(target) => {
                let current_dir = match target {
                    CdTarget::Root => 0,
                    CdTarget::Parent => match parent_folder(&self.tree, self.current_dir) {
                        Some(q) => q,
                        None => self.current_dir,
                    },
                    CdTarget::Child(name) => match self.find_child(name) {
                        Some(j) => j,
                        None => self.current_dir,
                    },
                };
                proof {
                    if let CdTarget::Child(name) = target {
                        lemma_child_in_range(self.state().0, self.state().1, self.current_dir as int, name@, 0);
                    }
                }
                let fs = FileSystem { current_dir, tree: self.tree, folders: self.folders };
                fs
            },
            Command::Ls { entries } => {
                let ghost views = entries@.map_values(|e: FileSystemEntry| entry_view(e));
                let ghost start = self.state();
                let mut fs = self;
                let mut i: usize = 0;
                while i < entries.len()
                    invariant
                        fs.wf(),
                        i <= entries@.len(),
                        views == entries@.map_values(|e: FileSystemEntry| entry_view(e)),
                        fs.state() == with_entries(start, views, i as int),
                    decreases entries@.len() - i,
                {
                    let entry = &entries[i];
                    fs = match entry.kind {
                        FileSystemEntryKind::Directory => fs.add_directory(entry.name.as_str()),
                        FileSystemEntryKind::File { size } => fs.add_file(entry.name.as_str(), size),
                    };
                    i += 1;
                }
                fs
            },
        }
    }

    /// Reconstruction of the file system from the command history
    pub fn build_from_command_history(history: &CommandHistory) -> (r: FileSystem)
        requires
            with_commands(history.commands@, history.commands@.len() as int) is Some,
        ensures
            r.wf(),
            r.state() == with_commands(history.commands@, history.commands@.len() as int)->Some_0,
    {
        let tree = new_folder_tree();
        let root_name = String::from_str("/");
        proof {
            reveal_strlit("/");
        }
        assert(root_name@ =~= seq!['/']);
        let mut folders: Vec<Folder> = Vec::new();
        folders.push(Folder { name: root_name, files: Vec::new() });
        assert(folders@.len() == 1 && folders@[0].name@ == seq!['/']);
        let mut fs = FileSystem { current_dir: 0, tree, folders };
        proof {
            assert(files_total(Seq::<File>::empty()) == 0);
            assert(fs.state().1 =~= seq![seq!['/']]);
            assert(fs.state().2 =~= seq![0int]);
        }
        let mut i: usize = 0;
        let ghost cmds = history.commands@;
        while i < history.commands.len()
            invariant
                cmds == history.commands@,
                with_commands(cmds, cmds.len() as int) is Some,
                i <= cmds.len(),
                fs.wf(),
                with_commands(cmds, i as int) == Some(fs.state()),
            decreases cmds.len() - i,
        {
            proof {
                lemma_prefix_succeeds(cmds, i + 1, cmds.len() as int);
            }
            fs = fs.exec_command(&history.commands[i]);
            i += 1;
        }
        fs
    }
}

proof fn lemma_child_in_range(p: Seq<int>, names: Seq<Seq<char>>, cur: int, name: Seq<char>, from: int)
    ensures
        child_named(p, names, cur, name, from) matches Some(j) ==> 0 <= j < p.len() && p[j] == cur,
    decreases p.len() - from,
{
    if 0 <= from < p.len() && !(p[from] == cur && names[from] == name) {
        lemma_child_in_range(p, names, cur, name, from + 1);
    }
}

/// A history that can be replayed whole can be replayed in part.
proof fn lemma_prefix_succeeds(cmds: Seq<Command>, i: int, n: int)
    requires
        i <= n,
        with_commands(cmds, n) is Some,
    ensures
        with_commands(cmds, i) is Some,
    decreases n - i,
{
    if i < n {
        lemma_prefix_succeeds(cmds, i + 1, n);
    }
}

/// Sum of the first `n` values of `own`.
pub open spec fn all_sum(own: Seq<int>, n: int) -> int
    decreases n,
{
    if n <= 0 {
        0
    } else {
        all_sum(own, n - 1) + own[n - 1]
    }
}

/// Size of folder `k` with everything below it.
pub open spec fn total_size(st: FsState, k: int) -> int {
    desc_sum(st.0, st.2, k, st.0.len() as int)
}

/// The folders below `n` of at most `size`, in order.
pub open spec fn small_folders(st: FsState, size: int, n: int) -> Seq<usize>
    decreases n,
{
    if n <= 0 {
        seq![]
    } else if total_size(st, n - 1) <= size {
        small_folders(st, size, n - 1).push((n - 1) as usize)
    } else {
        small_folders(st, size, n - 1)
    }
}

/// Sum of the sizes of the folders below `n` of at most `size`.
pub open spec fn small_total(st: FsState, size: int, n: int) -> int
    decreases n,
{
    if n <= 0 {
        0
    } else {
        small_total(st, size, n - 1) + if total_size(st, n - 1) <= size {
            total_size(st, n - 1)
        } else {
            0
        }
    }
}

proof fn lemma_files_total_nonneg(files: Seq<File>)
    ensures
        files_total(files) >= 0,
    decreases files.len(),
{
    if files.len() > 0 {
        lemma_files_total_nonneg(files.drop_last());
    }
}

/// With no negative value, a part of the sum is at most the sum, and the
/// sum grows with `n`.
proof fn lemma_desc_sum_bounds(p: Seq<int>, own: Seq<int>, k: int, n: int)
    requires
        0 <= n <= own.len(),
        forall|j: int| 0 <= j < own.len() ==> #[trigger] own[j] >= 0,
    ensures
        0 <= desc_sum(p, own, k, n) <= all_sum(own, n),
        forall|i: int| 0 <= i <= n ==> #[trigger] desc_sum(p, own, k, i) <= desc_sum(p, own, k, n),
        forall|i: int| 0 <= i <= n ==> #[trigger] all_sum(own, i) <= all_sum(own, n),
    decreases n,
{
    if n > 0 {
        lemma_desc_sum_bounds(p, own, k, n - 1);
    }
}

impl FileSystem {
    /// The file sizes of all folders add up to a `usize`.
    pub closed spec fn sizes_fit(&self) -> bool {
        all_sum(self.state().2, self.state().0.len() as int) <= usize::MAX
    }

    proof fn lemma_own_nonneg(&self)
        ensures
            forall|j: int| 0 <= j < self.state().2.len() ==> #[trigger] self.state().2[j] >= 0,
    {
        assert forall|j: int| 0 <= j < self.state().2.len() implies #[trigger] self.state().2[j] >= 0 by {
            lemma_files_total_nonneg(self.folders@[j].files@);
        }
    }

    /// Returns true if folder `j` lies below folder `k`, or is `k`.
    fn in_subtree(&self, k: usize, j: usize) -> (r: bool)
        requires
            self.wf(),
            j < self.folders@.len(),
        ensures
            r == is_desc(self.state().0, k as int, j as int),
    {
        let ghost p = tree_parents(self.tree);
        let mut cur = j;
        loop
            invariant
                self.wf(),
                p == tree_parents(self.tree),
                cur < p.len(),
                is_desc(p, k as int, j as int) == is_desc(p, k as int, cur as int),
            decreases cur,
        {
            if cur == k {
                return true;
            }
            match parent_folder(&self.tree, cur) {
                Some(q) => {
                    cur = q;
                },
                None => {
                    return false;
                },
            }
        }
    }

    /// Get the size of a folder and all its subfolders
    pub fn get_folder_size_recursive(&self, folder_id: usize) -> (r: usize)
        requires
            self.wf(),
            self.sizes_fit(),
        ensures
            r == total_size(self.state(), folder_id as int),
    {
        let ghost st = self.state();
        let n = self.folders.len();
        proof {
            self.lemma_own_nonneg();
            lemma_desc_sum_bounds(st.0, st.2, folder_id as int, n as int);
        }
        let mut sum: usize = 0;
        let mut j: usize = 0;
        while j < n
            invariant
                self.wf(),
                self.sizes_fit(),
                st == self.state(),
                n == self.folders@.len(),
                n == st.0.len(),
                j <= n,
                sum == desc_sum(st.0, st.2, folder_id as int, j as int),
                forall|i: int| 0 <= i <= n ==> #[trigger] desc_sum(st.0, st.2, folder_id as int, i) <= desc_sum(st.0, st.2, folder_id as int, n as int),
                desc_sum(st.0, st.2, folder_id as int, n as int) <= all_sum(st.2, n as int),
            decreases n - j,
        {
            if self.in_subtree(folder_id, j) {
                assert(desc_sum(st.0, st.2, folder_id as int, j + 1) <= desc_sum(st.0, st.2, folder_id as int, n as int));
                assert(st.2[j as int] == files_total(self.folders@[j as int].files@));
                let size = self.folders[j].get_size();
                sum = sum + size;
            }
            j += 1;
        }
        sum
    }

    /// Iterate over all folders in the file system
    pub fn folders(&self) -> (r: Vec<usize>)
        requires
            self.wf(),
        ensures
            r@.len() == self.state().0.len(),
            forall|i: int| 0 <= i < r@.len() ==> #[trigger] r@[i] == i,
    {
        let n = self.folders.len();
        let mut r: Vec<usize> = Vec::new();
        let mut i: usize = 0;
        while i < n
            invariant
                n == self.folders@.len(),
                i <= n,
                r@.len() == i,
                forall|k: int| 0 <= k < i ==> #[trigger] r@[k] == k,
            decreases n - i,
        {
            r.push(i);
            i += 1;
        }
        r
    }

    /// Get all folders that are at most the given size (including subfolders)
    pub fn get_folders_at_most(&self, size: usize) -> (r: Vec<usize>)
        requires
            self.wf(),
            self.sizes_fit(),
        ensures
            r@ == small_folders(self.state(), size as int, self.state().0.len() as int),
    {
        let all = self.folders();
        let mut r: Vec<usize> = Vec::new();
        let mut i: usize = 0;
        while i < all.len()
            invariant
                self.wf(),
                self.sizes_fit(),
                all@.len() == self.state().0.len(),
                forall|k: int| 0 <= k < all@.len() ==> #[trigger] all@[k] == k,
                i <= all@.len(),
                r@ == small_folders(self.state(), size as int, i as int),
            decreases all@.len() - i,
        {
            let k = all[i];
            if self.get_folder_size_recursive(k) <= size {
                r.push(k);
            }
            i += 1;
        }
        r
    }

    /// Get the smallest folder that is at least the given size (including subfolders)
    pub fn get_smallest_folder_larger_than(&self, size: usize) -> (r: usize)
        requires
            self.wf(),
            self.sizes_fit(),
            total_size(self.state(), 0) >= size,
        ensures
            r < self.state().0.len(),
            total_size(self.state(), r as int) >= size,
            forall|k: int| 0 <= k < self.state().0.len() && total_size(self.state(), k) >= size
                ==> #[trigger] total_size(self.state(), k) >= total_size(self.state(), r as int),
            forall|k: int| 0 <= k < r && total_size(self.state(), k) >= size
                ==> #[trigger] total_size(self.state(), k) > total_size(self.state(), r as int),
    {
        let n = self.folders.len();
        let mut best: usize = 0;
        let mut best_size = self.get_folder_size_recursive(0);
        let mut k: usize = 1;
        while k < n
            invariant
                self.wf(),
                self.sizes_fit(),
                n == self.state().0.len(),
                1 <= k <= n,
                best < k,
                best_size == total_size(self.state(), best as int),
                best_size >= size,
                forall|m: int| 0 <= m < k && total_size(self.state(), m) >= size
                    ==> #[trigger] total_size(self.state(), m) >= best_size,
                forall|m: int| 0 <= m < best && total_size(self.state(), m) >= size
                    ==> #[trigger] total_size(self.state(), m) > best_size,
            decreases n - k,
        {
            let s = self.get_folder_size_recursive(k);
            if s >= size && s < best_size {
                best = k;
                best_size = s;
            }
            k += 1;
        }
        best
    }
}

proof fn lemma_small_total_grows(st: FsState, size: int, i: int, n: int)
    requires
        0 <= i <= n,
        forall|k: int| 0 <= k < n ==> #[trigger] total_size(st, k) >= 0,
    ensures
        0 <= small_total(st, size, i) <= small_total(st, size, n),
    decreases n,
{
    if n > 0 {
        let m = if i < n { i } else { n - 1 };
        lemma_small_total_grows(st, size, m, n - 1);
    }
}

/// Sum of the sizes of `files`, `None` if it does not fit in a `usize`.
fn checked_files_total(files: &Vec<File>) -> (r: Option<usize>)
    ensures
        r matches Some(v) ==> v == files_total(files@),
        r is None ==> files_total(files@) > usize::MAX,
{
    let mut sum: usize = 0;
    let mut f: usize = 0;
    proof {
        lemma_prefix_totals(files@);
    }
    while f < files.len()
        invariant
            f <= files@.len(),
            sum == files_total(files@.take(f as int)),
            forall|m: int| 0 <= m <= files@.len() ==> #[trigger] files_total(files@.take(m)) <= files_total(files@),
        decreases files@.len() - f,
    {
        assert(files@.take(f + 1).drop_last() =~= files@.take(f as int));
        let size = files[f].size;
        if size > usize::MAX - sum {
            assert(files_total(files@.take(f + 1)) <= files_total(files@));
            return None;
        }
        sum = sum + size;
        f += 1;
    }
    assert(files@.take(files@.len() as int) =~= files@);
    Some(sum)
}

impl FileSystem {
    /// Returns true if `command` can be executed: the folder it changes to exists.
    pub fn can_exec(&self, command: &Command) -> (r: bool)
        requires
            self.wf(),
        ensures
            r == (with_command(self.state(), *command) is Some),
    {
        match command {
            Command::Cd(CdTarget::Parent) => parent_folder(&self.tree, self.current_dir).is_some(),
            Command::Cd(CdTarget::Child(name)) => self.find_child(name).is_some(),
            _ => true,
        }
    }

    /// The file system the history builds, `None` if a command changes to a
    /// folder that does not exist.
    pub fn replay(history: &CommandHistory) -> (r: Option<FileSystem>)
        ensures
            r is Some <==> with_commands(history.commands@, history.commands@.len() as int) is Some,
            r matches Some(fs) ==> fs.wf() && fs.state() == with_commands(history.commands@, history.commands@.len() as int)->Some_0,
    {
        let tree = new_folder_tree();
        let root_name = String::from_str("/");
        proof {
            reveal_strlit("/");
        }
        assert(root_name@ =~= seq!['/']);
        let mut folders: Vec<Folder> = Vec::new();
        folders.push(Folder { name: root_name, files: Vec::new() });
        assert(folders@.len() == 1 && folders@[0].name@ == seq!['/']);
        let mut fs = FileSystem { current_dir: 0, tree, folders };
        proof {
            assert(files_total(Seq::<File>::empty()) == 0);
            assert(fs.state().1 =~= seq![seq!['/']]);
            assert(fs.state().2 =~= seq![0int]);
        }
        let mut i: usize = 0;
        let ghost cmds = history.commands@;
        while i < history.commands.len()
            invariant
                cmds == history.commands@,
                i <= cmds.len(),
                fs.wf(),
                with_commands(cmds, i as int) == Some(fs.state()),
            decreases cmds.len() - i,
        {
            if !fs.can_exec(&history.commands[i]) {
                proof {
                    lemma_failure_stays(cmds, i + 1, cmds.len() as int);
                }
                return None;
            }
            fs = fs.exec_command(&history.commands[i]);
            i += 1;
        }
        Some(fs)
    }

    /// Returns true if the file sizes of all folders add up to a `usize`.
    pub fn check_sizes(&self) -> (r: bool)
        requires
            self.wf(),
        ensures
            r == self.sizes_fit(),
    {
        let ghost own = self.state().2;
        let n = self.folders.len();
        proof {
            self.lemma_own_nonneg();
            lemma_all_sum_grows(own, n as int);
        }
        let mut sum: usize = 0;
        let mut j: usize = 0;
        while j < n
            invariant
                self.wf(),
                own == self.state().2,
                n == self.folders@.len(),
                n == own.len(),
                j <= n,
                sum == all_sum(own, j as int),
                forall|i: int| 0 <= i <= n ==> #[trigger] all_sum(own, i) <= all_sum(own, n as int),
                forall|i: int| 0 <= i < n ==> #[trigger] own[i] >= 0,
            decreases n - j,
        {
            assert(own[j as int] == files_total(self.folders@[j as int].files@));
            assert(all_sum(own, j + 1) <= all_sum(own, n as int));
            match checked_files_total(&self.folders[j].files) {
                Some(v) => {
                    if v > usize::MAX - sum {
                        return false;
                    }
                    sum = sum + v;
                },
                None => {
                    return false;
                },
            }
            j += 1;
        }
        true
    }
}

proof fn lemma_all_sum_grows(own: Seq<int>, n: int)
    requires
        0 <= n <= own.len(),
        forall|j: int| 0 <= j < own.len() ==> #[trigger] own[j] >= 0,
    ensures
        forall|i: int| 0 <= i <= n ==> #[trigger] all_sum(own, i) <= all_sum(own, n),
        forall|i: int| 0 <= i < n ==> #[trigger] own[i] <= all_sum(own, i + 1) - all_sum(own, i),
    decreases n,
{
    if n > 0 {
        lemma_all_sum_grows(own, n - 1);
    }
}

/// Once a command fails, the rest of the history fails too.
proof fn lemma_failure_stays(cmds: Seq<Command>, i: int, n: int)
    requires
        1 <= i <= n,
        with_commands(cmds, i) is None,
    ensures
        with_commands(cmds, n) is None,
    decreases n - i,
{
    if i < n {
        lemma_failure_stays(cmds, i + 1, n);
    }
}

/// Folders and their sizes, rebuilt from a terminal session.
pub struct Solution {
    year: u64,
    day: u64,
}

/// Space of the device.
pub const TOTAL_SPACE: usize = 70_000_000;

/// Free space an update needs.
pub const NEEDED_SPACE: usize = 30_000_000;

/// Largest folder counted by the first answer.
pub const SMALL_FOLDER: usize = 100_000;

/// Size that must be freed when the file system uses `used`.
pub open spec fn space_to_free(used: int) -> int {
    NEEDED_SPACE - (TOTAL_SPACE - used)
}

impl Solution {
    pub fn new(year: u64, day: u64) -> (r: Solution)
        ensures
            r.year_spec() == year,
            r.day_spec() == day,
    {
        Solution { year, day }
    }

    pub closed spec fn year_spec(&self) -> u64 {
        self.year
    }

    pub closed spec fn day_spec(&self) -> u64 {
        self.day
    }

    pub fn get_year(&self) -> (r: u64)
        ensures
            r == self.year_spec(),
    {
        self.year
    }

    pub fn get_day(&self) -> (r: u64)
        ensures
            r == self.day_spec(),
    {
        self.day
    }

    /// Sum of the sizes of the folders of at most `SMALL_FOLDER`, nested
    /// folders counted again; `None` where a sum leaves `usize`.
    pub fn part1_solution(&self, fs: &FileSystem) -> (r: Option<usize>)
        requires
            fs.wf(),
        ensures
            r is Some <==> fs.sizes_fit() && small_total(fs.state(), SMALL_FOLDER as int, fs.state().0.len() as int) <= usize::MAX,
            r matches Some(v) ==> v == small_total(fs.state(), SMALL_FOLDER as int, fs.state().0.len() as int),
    {
        if !fs.check_sizes() {
            return None;
        }
        let ghost st = fs.state();
        let all = fs.folders();
        let n = all.len();
        proof {
            fs.lemma_own_nonneg();
            assert forall|k: int| 0 <= k < n implies #[trigger] total_size(st, k) >= 0 by {
                lemma_desc_sum_bounds(st.0, st.2, k, n as int);
            }
        }
        let mut sum: usize = 0;
        let mut i: usize = 0;
        while i < n
            invariant
                fs.wf(),
                fs.sizes_fit(),
                st == fs.state(),
                n == all@.len(),
                n == st.0.len(),
                forall|k: int| 0 <= k < n ==> #[trigger] all@[k] == k,
                forall|k: int| 0 <= k < n ==> #[trigger] total_size(st, k) >= 0,
                i <= n,
                sum == small_total(st, SMALL_FOLDER as int, i as int),
            decreases n - i,
        {
            let size = fs.get_folder_size_recursive(all[i]);
            if size <= SMALL_FOLDER {
                if size > usize::MAX - sum {
                    proof {
                        lemma_small_total_grows(st, SMALL_FOLDER as int, i + 1, n as int);
                    }
                    return None;
                }
                sum = sum + size;
            }
            i += 1;
        }
        Some(sum)
    }

    /// Size of the smallest folder whose removal frees enough space for the
    /// update; `None` where a size leaves `usize`, the file system is larger
    /// than the device, or no folder needs to go.
    pub fn part2_solution(&self, fs: &FileSystem) -> (r: Option<usize>)
        requires
            fs.wf(),
        ensures
            r is Some <==> fs.sizes_fit() && total_size(fs.state(), 0) <= TOTAL_SPACE
                && TOTAL_SPACE - total_size(fs.state(), 0) <= NEEDED_SPACE,
            r matches Some(v) ==> {
                let need = space_to_free(total_size(fs.state(), 0));
                &&& v >= need
                &&& exists|k: int| 0 <= k < fs.state().0.len() && #[trigger] total_size(fs.state(), k) == v
                &&& forall|k: int| 0 <= k < fs.state().0.len() && #[trigger] total_size(fs.state(), k) >= need ==> total_size(fs.state(), k) >= v
            },
    {
        if !fs.check_sizes() {
            return None;
        }
        let used_space = fs.get_folder_size_recursive(0);
        if used_space > TOTAL_SPACE {
            return None;
        }
        let current_free_space = TOTAL_SPACE - used_space;
        if current_free_space > NEEDED_SPACE {
            return None;
        }
        let space_to_free = NEEDED_SPACE - current_free_space;
        let node = fs.get_smallest_folder_larger_than(space_to_free);
        let size = fs.get_folder_size_recursive(node);
        Some(size)
    }
}

} // verus!
