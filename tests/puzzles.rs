use advent::calories::MaxN;
use advent::days::{solve_challenge, Day, Day1};
use advent::depth::{number_of_depth_increases, number_of_depth_increases_sliding};
use advent::rps::{Hand, Res, Solution};

#[test]
fn depth_increases_example() {
    let values = [199, 200, 208, 210, 200, 207, 240, 269, 260, 263];
    assert_eq!(number_of_depth_increases(&values), 7);
    assert_eq!(number_of_depth_increases_sliding(&values), 5);
}

#[test]
fn depth_increases_short_inputs() {
    assert_eq!(number_of_depth_increases(&[]), 0);
    assert_eq!(number_of_depth_increases(&[5]), 0);
    assert_eq!(number_of_depth_increases(&[5, 5, 4]), 0);
    assert_eq!(number_of_depth_increases_sliding(&[1, 2, 3]), 0);
    assert_eq!(number_of_depth_increases_sliding(&[1, 2, 3, 4]), 1);
    assert_eq!(number_of_depth_increases(&[i32::MIN, i32::MAX]), 1);
}

#[test]
fn top_three_are_kept() {
    let m = MaxN::new().add(5).add(1).add(9).add(3).add(7);
    assert_eq!(m.buf[..3], [9, 7, 5]);
    assert_eq!(m.sum_top_three(), 21);
    assert_eq!(MaxN::new().sum_top_three(), 0);
}

#[test]
fn rock_paper_scissors_rules() {
    assert_eq!(Hand::Rock.fight(&Hand::Paper), Res::Win);
    assert_eq!(Hand::Rock.fight(&Hand::Scissors), Res::Lose);
    assert_eq!(Hand::Paper.fight(&Hand::Paper), Res::Draw);
    assert_eq!(Hand::parse('A'), Hand::Rock);
    assert_eq!(Hand::parse('Y'), Hand::Paper);
    assert_eq!(Hand::parse('C'), Hand::Scissors);
    assert_eq!(Res::parse('X'), Res::Lose);
    assert_eq!(Res::parse('Y'), Res::Draw);
    assert_eq!(Res::parse('Z'), Res::Win);
    assert_eq!(Res::Win.get_points(), 6);
    assert_eq!(Hand::Scissors.get_points(), 3);
    assert_eq!(Hand::Scissors.need_to(&Res::Win), Hand::Rock);
    assert_eq!(Hand::Paper.need_to(&Res::Lose), Hand::Rock);
    assert_eq!(Hand::Paper.need_to(&Res::Draw), Hand::Paper);
}

#[test]
fn strategy_guide_example() {
    let lines: Vec<String> = ["A Y", "B X", "C Z"].iter().map(|s| s.to_string()).collect();
    let sol = Solution::new(2022, 2);
    assert_eq!(sol.part1_solution(&lines), 15);
    assert_eq!(sol.part2_solution(&lines), 12);
    assert_eq!((sol.get_year(), sol.get_day()), (2022, 2));
}

#[test]
fn challenges_by_day_and_part() {
    assert_eq!(solve_challenge(1, 1), Ok(45));
    assert_eq!(solve_challenge(1, 2), Ok(78));
    assert_eq!(solve_challenge(1, 3), Err("Part outside of range 1..=2"));
    assert_eq!(solve_challenge(2, 1), Err("Day outside of range 1..=24"));
    assert_eq!(Day1.part2(), Ok(78));
}

#[test]
fn any_buffer_comes_out_sorted() {
    let m = MaxN { buf: [1, 5, 3, 0] }.add(4);
    assert_eq!(m.buf, [5, 4, 3, 1]);
    let m = MaxN { buf: [0, 0, 0, 9] }.add(2);
    assert_eq!(m.buf, [2, 0, 0, 0]);
}
