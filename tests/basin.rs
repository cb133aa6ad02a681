use advent::basin::{Blizard, Direction, ParseError, Player, Position, Solution, TripError, World};

fn lines(rows: &[&str]) -> Vec<String> {
    rows.iter().map(|s| s.to_string()).collect()
}

fn example() -> World {
    let rows = lines(&[
        "#.######", "#>>.<^<#", "#.<..<<#", "#>v.><>#", "#<^v^^>#", "######.#",
    ]);
    World::parse(&rows[..]).unwrap()
}

#[test]
fn test_world_parser() {
    let lines: Vec<_> = ["#.#", "#.#", "#.#"].iter().map(|s| s.to_string()).collect();

    let world = World::parse(&lines[..]).unwrap();

    assert_eq!(
        world,
        World {
            map_size: (3, 3),
            entry: Position(1, 0),
            exit: Position(1, 2),
            blizards: Vec::new(),
        }
    );
}

#[test]
fn test_parsing_blizards() {
    let lines: Vec<_> = ["##.##", "#>.<#", "#...#", "#vvv#", "#.###"]
        .iter()
        .map(|s| s.to_string())
        .collect();

    let world = World::parse(&lines[..]).unwrap();

    assert_eq!(
        world,
        World {
            map_size: (5, 5),
            entry: Position(2, 0),
            exit: Position(1, 4),
            blizards: vec![
                Blizard::new(Position(1, 1), Direction::Right),
                Blizard::new(Position(3, 1), Direction::Left),
                Blizard::new(Position(1, 3), Direction::Down),
                Blizard::new(Position(2, 3), Direction::Down),
                Blizard::new(Position(3, 3), Direction::Down),
            ],
        }
    );
}

#[test]
fn test_blizard_movement() {
    let lines: Vec<_> = ["##.##", "#>.<#", "#...#", "#v..#", "#.###"]
        .iter()
        .map(|s| s.to_string())
        .collect();

    let world = World::parse(&lines[..]).unwrap();

    let but = world
        .blizards
        .iter()
        .find(|b| b.position == Position(1, 1))
        .unwrap();

    let blizard_t1 = world.blizard_at(but, 1);
    let blizard_t2 = world.blizard_at(but, 2);
    let blizard_t3 = world.blizard_at(but, 3);

    let but2 = world
        .blizards
        .iter()
        .find(|b| b.position == Position(1, 3))
        .unwrap();

    let blizard2_t1 = world.blizard_at(but2, 1);
    let blizard2_t2 = world.blizard_at(but2, 2);
    let blizard2_t3 = world.blizard_at(but2, 3);

    assert_eq!(blizard_t1, Position(2, 1));
    assert_eq!(blizard_t2, Position(3, 1));
    assert_eq!(blizard_t3, but.position);

    assert_eq!(blizard2_t1, Position(1, 1));
    assert_eq!(blizard2_t2, Position(1, 2));
    assert_eq!(blizard2_t3, but2.position);
}

#[test]
fn parse_errors_by_kind() {
    assert_eq!(World::parse(&lines(&[])), Err(ParseError::MapTooSmall));
    assert_eq!(World::parse(&lines(&["#.#", "#.#"])), Err(ParseError::MapTooSmall));
    assert_eq!(World::parse(&lines(&["..", "..", ".."])), Err(ParseError::MapTooSmall));
    assert_eq!(World::parse(&lines(&["#.##", "#.#", "#.##"])), Err(ParseError::MalformedBorder));
    assert_eq!(World::parse(&lines(&["#.##", "...#", "#.##"])), Err(ParseError::MalformedBorder));
    assert_eq!(World::parse(&lines(&["#.##", "#x.#", "#.##"])), Err(ParseError::InvalidGlyph));
    assert_eq!(World::parse(&lines(&["####", "#..#", "#.##"])), Err(ParseError::BadEntryOrExit));
    assert_eq!(World::parse(&lines(&["#..#", "#..#", "#.##"])), Err(ParseError::BadEntryOrExit));
    assert_eq!(World::parse(&lines(&["#.##", "#..#", "#>.#"])), Err(ParseError::BadEntryOrExit));
}

#[test]
fn blizards_return_after_one_trajectory() {
    let world = example();
    for b in world.blizards.iter() {
        let len = match b.direction {
            Direction::Up | Direction::Down => (world.map_size.1 - 2) as u64,
            Direction::Left | Direction::Right => (world.map_size.0 - 2) as u64,
        };
        for t in [0u64, 1, 3, 7, 12, 100] {
            assert_eq!(world.blizard_at(b, t), world.blizard_at(b, t + len));
        }
    }
}

#[test]
fn blizards_wrap_around_the_interior() {
    let world = World::parse(&lines(&["#.####", "#<..>#", "#....#", "#^..v#", "####.#"])).unwrap();
    // interior is 4 wide (x = 1..=4) and 3 high (y = 1..=3)
    let left = Blizard::new(Position(1, 1), Direction::Left);
    let right = Blizard::new(Position(4, 1), Direction::Right);
    let up = Blizard::new(Position(1, 1), Direction::Up);
    let down = Blizard::new(Position(4, 3), Direction::Down);
    assert_eq!(world.blizard_at(&left, 1), Position(4, 1));
    assert_eq!(world.blizard_at(&right, 1), Position(1, 1));
    assert_eq!(world.blizard_at(&up, 1), Position(1, 3));
    assert_eq!(world.blizard_at(&down, 1), Position(4, 1));
    assert_eq!(world.blizards_at(1), vec![Position(4, 1), Position(1, 1), Position(1, 2), Position(4, 1)]);
}

#[test]
fn frontier_stays_on_ground() {
    let world = example();
    let mut player = Player::new(world.entry, &world);
    for t in 1..30u64 {
        player = player.next_possible_positions(&world).difference(&world.blizards_at(t));
        for y in -1..=(world.map_size.1) {
            for x in -1..=(world.map_size.0) {
                if player.stands_at(Position(x, y)) {
                    assert!(world.is_ground(Position(x, y)));
                }
            }
        }
    }
}

#[test]
fn moves_and_checked_moves() {
    let world = example();
    assert_eq!(Position(3, 3).move_in(Direction::Up), Position(3, 2));
    assert_eq!(Position(3, 3).move_in(Direction::Down), Position(3, 4));
    assert_eq!(Position(3, 3).move_in(Direction::Left), Position(2, 3));
    assert_eq!(Position(3, 3).move_in(Direction::Right), Position(4, 3));
    assert_eq!(Position(1, 1).move_checked(Direction::Up, &world), Some(Position(1, 0)));
    assert_eq!(Position(2, 1).move_checked(Direction::Up, &world), None);
    assert_eq!(Position(6, 4).move_checked(Direction::Down, &world), Some(Position(6, 5)));
    assert_eq!(Position(1, 1).move_checked(Direction::Left, &world), None);
}

#[test]
fn first_steps_of_the_example() {
    let world = example();
    let player = Player::new(world.entry, &world);
    assert!(player.stands_at(world.entry));
    let next = player.next_possible_positions(&world);
    assert!(next.stands_at(Position(1, 0)));
    assert!(next.stands_at(Position(1, 1)));
    assert!(!next.stands_at(Position(2, 0)));
    assert!(!next.stands_at(Position(2, 1)));
    let after = next.difference(&world.blizards_at(1));
    assert!(after.stands_at(Position(1, 0)));
    assert!(!after.is_empty());
}

#[test]
fn single_crossing_of_the_example() {
    let world = example();
    assert_eq!(Solution::trip_from_to(world.entry, world.exit, 0, &world), Ok(18));
    let sol = Solution::new(2022, 24);
    assert_eq!(sol.part1_solution(&world), Ok(18));
}

#[test]
fn round_trip_of_the_example() {
    let world = example();
    let t1 = Solution::trip_from_to(world.entry, world.exit, 0, &world).unwrap();
    let t2 = Solution::trip_from_to(world.exit, world.entry, t1, &world).unwrap();
    let t3 = Solution::trip_from_to(world.entry, world.exit, t2, &world).unwrap();
    assert_eq!((t1, t2 - t1, t3 - t2), (18, 23, 13));
    assert_eq!(t3, 54);
    let sol = Solution::new(2022, 24);
    assert_eq!(sol.part2_solution(&world), Ok(54));
    let legs = vec![(world.entry, world.exit), (world.exit, world.entry)];
    assert_eq!(Solution::plan_trip(&legs, 0, &world), Ok(41));
    assert_eq!(Solution::plan_trip(&Vec::new(), 7, &world), Ok(7));
}

#[test]
fn blocked_valley_is_unreachable() {
    let world = World::parse(&lines(&["#.#", "#v#", "#.#"])).unwrap();
    assert_eq!(
        Solution::trip_from_to(world.entry, world.exit, 0, &world),
        Err(TripError::Unreachable)
    );
    let sol = Solution::new(2022, 24);
    assert_eq!(sol.get_year(), 2022);
    assert_eq!(sol.get_day(), 24);
    assert_eq!(sol.part2_solution(&world), Err(TripError::Unreachable));
}

#[test]
fn start_equal_to_target_arrives_at_once() {
    let world = example();
    assert_eq!(Solution::trip_from_to(world.entry, world.entry, 5, &world), Ok(5));
}

#[test]
fn glyph_directions() {
    assert_eq!(Direction::from_glyph('^'), Some(Direction::Up));
    assert_eq!(Direction::from_glyph('v'), Some(Direction::Down));
    assert_eq!(Direction::from_glyph('<'), Some(Direction::Left));
    assert_eq!(Direction::from_glyph('>'), Some(Direction::Right));
    assert_eq!(Direction::from_glyph('.'), None);
}

#[test]
fn corner_gaps_are_rejected() {
    assert_eq!(World::parse(&lines(&[".##", "#.#", "#.#"])), Err(ParseError::MalformedBorder));
    assert_eq!(World::parse(&lines(&["#.#", "#.#", "##."])), Err(ParseError::MalformedBorder));
    assert_eq!(Position(i64::MAX, 0).move_in(Direction::Up), Position(i64::MAX, -1));
}
