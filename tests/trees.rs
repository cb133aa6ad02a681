use advent::trees::{Direction, Field, Position};

#[test]
fn test_parse() {
    let input = "123\n456\n789";

    let (_, field) = Field::parse(input).unwrap();

    assert_eq!(field.width(), 3);
    assert_eq!(field.height(), 3);

    assert_eq!(field.lines[0], vec![1, 2, 3]);
    assert_eq!(field.lines[1], vec![4, 5, 6]);
    assert_eq!(field.lines[2], vec![7, 8, 9]);
}

#[test]
fn test_parse_invalid() {
    let input = "123\n456\n78a";
    let field = Field::parse(input);

    assert!(field.is_err());
}

#[test]
fn test_is_visible() {
    let input = "123\n456\n789";
    let (_, field) = Field::parse(input).unwrap();

    assert!(field.tree_visible(Position::new(1, 1)));
    assert!(field.tree_visible(Position::new(0, 0)));
}

#[test]
fn test_is_not_visible() {
    let input = "123\n416\n789";
    let (_, field) = Field::parse(input).unwrap();

    assert!(!field.tree_visible(Position::new(1, 1)));
}

#[test]
fn scenic_score() {
    let input = "123\n456\n789";
    let (_, field) = Field::parse(input).unwrap();

    assert_eq!(field.scenic_score(Position::new(0, 0)), 0);
    assert_eq!(field.scenic_score(Position::new(1, 0)), 0);
    assert_eq!(field.scenic_score(Position::new(2, 0)), 0);
    assert_eq!(field.scenic_score(Position::new(1, 1)), 1);
    assert_eq!(field.scenic_score(Position::new(2, 2)), 0);
}

#[test]
fn scenic_score_2() {
    let input = r#"30373
25512
65332
33549
35390"#;

    let field = Field::from_input(input).unwrap();

    assert_eq!(field.scenic_score(Position::new(2, 3)), 8);
}

#[test]
fn parse_accepts_final_newline_and_rejects_empty_lines() {
    let (n, field) = Field::parse("12\n34\n").unwrap();
    assert_eq!(n, 6);
    assert_eq!(field.lines, vec![vec![1, 2], vec![3, 4]]);
    assert!(Field::parse("12\n\n34").is_err());
    assert!(Field::parse("\n12").is_err());
    assert_eq!(Field::parse("").unwrap().1.height(), 0);
    assert!(Field::from_input("1 2").is_err());
}

#[test]
fn trees_lookup_and_directions() {
    let field = Field::from_input("30373\n25512\n65332").unwrap();
    assert_eq!(field.get_tree(Position::new(1, 2)), Some(5));
    assert_eq!(field.get_tree(Position::new(5, 0)), None);
    assert_eq!(field.get_tree(Position::new(0, 3)), None);
    assert_eq!(Direction::Up.to_vector(), (0, -1));
    assert_eq!(Direction::Right.to_vector(), (1, 0));
    assert_eq!(Direction::all().len(), 4);
    assert_eq!(Position::default(), Position::new(0, 0));
}

#[test]
fn scenic_score_of_the_example_middle() {
    let field = Field::from_input("30373\n25512\n65332\n33549\n35390").unwrap();
    assert_eq!(field.scenic_score(Position::new(2, 1)), 4);
    assert!(field.tree_visible(Position::new(1, 1)));
    assert!(!field.tree_visible(Position::new(3, 1)));
}
