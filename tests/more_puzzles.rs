use advent::bingo::{first_winner, last_winner, BingoBoard, BingoField, MoveResult};
use advent::calories::{get_carry_amounts, Solution as Calories};
use advent::diagnostic::{get_gamma_epsilon, get_oxygen_co2};
use advent::dive::{resulting_offset, resulting_offset_aim, Command, Direction};
use advent::marker::{find_first_unique_substring, Solution as Marker};
use advent::rucksack::Solution as Rucksack;
use advent::trees::{Field, Solution as Trees};

fn strings(rows: &[&str]) -> Vec<String> {
    rows.iter().map(|s| s.to_string()).collect()
}

#[test]
fn markers_in_streams() {
    let s = b"mjqjpqmgbljsphdztnvjfqwrcgsmlb";
    assert_eq!(find_first_unique_substring(s, 4), Some(7));
    assert_eq!(find_first_unique_substring(s, 14), Some(19));
    assert_eq!(find_first_unique_substring(b"aaaa", 2), None);
    assert_eq!(find_first_unique_substring(b"ab", 3), None);
    assert_eq!(find_first_unique_substring(b"ab", 2), Some(2));
    let m = Marker::new(2022, 6);
    assert_eq!(m.part1_solution(b"bvwbjplbgvbhsrlpgdmjqwftvncz"), Some(5));
    assert_eq!(m.part2_solution(b"bvwbjplbgvbhsrlpgdmjqwftvncz"), Some(23));
}

fn report() -> Vec<String> {
    strings(&[
        "00100", "11110", "10110", "10111", "10101", "01111", "00111", "11100", "10000", "11001",
        "00010", "01010",
    ])
}

#[test]
fn gamma_and_epsilon_of_the_example() {
    assert_eq!(get_gamma_epsilon(&report()), (22, 9));
}

#[test]
fn oxygen_and_co2_of_the_example() {
    assert_eq!(get_oxygen_co2(&report()), (23, 10));
    // both filters leave nothing single: all rows equal
    assert_eq!(get_oxygen_co2(&strings(&["01", "01"])), (0, 0));
}

#[test]
fn commands_are_read() {
    let c = Command::from_string("forward 5");
    assert_eq!(c, Command { direction: Direction::Forward, amount: 5 });
    assert_eq!(Command::from_string("down 12").amount, 12);
    assert_eq!(Command::from_string("up 3").direction, Direction::Up);
}

#[test]
fn submarine_course_of_the_example() {
    let cmds: Vec<Command> = ["forward 5", "down 5", "forward 8", "up 3", "down 8", "forward 2"]
        .iter()
        .map(|s| Command::from_string(s))
        .collect();
    assert_eq!(resulting_offset(&cmds), 150);
    assert_eq!(resulting_offset_aim(&cmds), 900);
    assert_eq!(resulting_offset(&[]), 0);
}

#[test]
fn carry_amounts_group_by_blank_lines() {
    let lines = strings(&["1000", "2000", "3000", "", "4000", "", "5000", "6000", "", "7000", "8000", "9000", "", "10000"]);
    let amounts = get_carry_amounts(lines);
    assert_eq!(amounts, vec![6000, 4000, 11000, 24000, 10000]);
    let sol = Calories::new(2022, 1);
    assert_eq!(sol.part1_solution(&amounts), Some(24000));
    assert_eq!(sol.part1_solution(&Vec::new()), None);
    assert_eq!(sol.part2_solution(&amounts), 45000);
    assert_eq!(sol.part2_solution(&vec![5]), 5);
    assert_eq!(sol.part2_solution(&vec![3, 3, 3, 3]), 9);
    assert_eq!(get_carry_amounts(strings(&["+7", "x", "18446744073709551616", "3"])), vec![7, 3]);
}

fn board(start: u8) -> BingoBoard {
    BingoBoard::new((start..start + 25).collect())
}

#[test]
fn bingo_rows_and_columns() {
    let mut b = board(1);
    assert_eq!(b.play_round(1), MoveResult::Nothing);
    assert_eq!(b.play_round(99), MoveResult::Nothing);
    for n in [2, 3, 4] {
        assert_eq!(b.play_round(n), MoveResult::Nothing);
    }
    // row 1..=5 done; the rest sums to 6 + ... + 25
    assert_eq!(b.play_round(5), MoveResult::Win(5, (6..=25).sum()));
    assert_eq!(b.win_number, Some(5));
    assert_eq!(b.win_steps, 6);

    let mut c = board(1);
    for n in [1, 6, 11, 16] {
        assert!(!c.win_condition());
        assert!(c.cross_number(n));
    }
    assert!(!c.cross_number(0));
    assert!(c.cross_number(21));
    assert!(c.win_condition());
    assert!(c.winnable);
    assert_eq!(BingoField::new(7), BingoField(7, false));
}

#[test]
fn bingo_first_and_last_winner() {
    let numbers: Vec<u8> = vec![30, 31, 32, 33, 34, 1, 2, 3, 4, 5];
    let boards = vec![board(1), board(30)];
    assert_eq!(first_winner(numbers.clone(), boards), (34, (35u8..55).map(|v| v as usize).sum()));
    let boards = vec![board(1), board(30)];
    assert_eq!(last_winner(numbers.clone(), boards), Some((5, (6..=25).sum())));
    assert_eq!(last_winner(vec![1], vec![board(1), board(30)]), None);
    assert_eq!(first_winner(vec![99], vec![board(1)]), (0, 0));
    let mut b = board(1);
    b.play_multiple_rounds(&[9, 1, 2, 3, 4, 5, 6]);
    assert_eq!(b.win_number, Some(5));
    assert_eq!(b.win_steps, 6);
}

#[test]
fn tree_answers_of_the_example() {
    let field = Field::from_input("30373\n25512\n65332\n33549\n35390").unwrap();
    let sol = Trees::new(2022, 8);
    assert_eq!(sol.part1_solution(&field), 21);
    assert_eq!(sol.part2_solution(&field), 8);
}

#[test]
fn rucksack_priorities_of_the_example() {
    let lines = strings(&[
        "vJrwpWtwJgWrhcsFMMfFFhFp",
        "jqHRNqRjqzjGDLGLrsFMfFZSrLrFZsSL",
        "PmmdzqPrVvPwwTWBwg",
        "wMqvLMZHhHMvwLHjbvcjnnSBnvTQFn",
        "ttgJtRGJQctTZtZT",
        "CrZsJsPPZsGzwwsLwLmpwMDw",
    ]);
    let sol = Rucksack::new(2022, 3);
    assert_eq!(sol.part1_solution(&lines), 157);
    assert_eq!(sol.part2_solution(&lines), 70);
    assert_eq!((sol.get_year(), sol.get_day()), (2022, 3));
    assert_eq!(sol.part1_solution(&strings(&["aBcB"])), 28);
}
