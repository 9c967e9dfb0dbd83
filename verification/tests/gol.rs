use gameofrust::gol::{get_neighbours, Coordinate, Game};
use gameofrust::parse::parse_world;

#[test]
fn a_cell_comes_to_life() {
    let mut game = Game::new();

    let home = Coordinate { x: 0, y: 0 };

    assert_eq!(false, game.is_alive(&home));
    game.bring_to_life(&home);

    assert_eq!(true, game.is_alive(&home));
}

#[test]
fn a_cell_can_die() {
    let mut game = Game::new();
    let home = Coordinate { x: 0, y: 0 };

    game.bring_to_life(&home);
    game.kill(&home);
    assert_eq!(false, game.is_alive(&home));
}

#[test]
fn a_living_cell_with_one_neighbours_dies_from_loniness() {
    let mut game = parse_world(".00.").unwrap();

    let subject = Coordinate { x: 1, y: 0 };

    assert_eq!(true, game.is_alive(&subject));

    game.step();

    assert_eq!(false, game.is_alive(&subject));
}

#[test]
fn a_dead_cell_with_three_neighbours_comes_to_life() {
    let mut game = parse_world("..0..\n.0.0.\n.....").unwrap();

    let subject = Coordinate { x: 2, y: 1 };

    assert_eq!(false, game.is_alive(&subject));

    game.step();

    assert_eq!(true, game.is_alive(&subject));
}

#[test]
fn a_living_cell_with_two_neighbours_stays_live() {
    let mut game = parse_world("..0..\n..0..\n..0..").unwrap();

    let subject = Coordinate { x: 2, y: 1 };

    assert_eq!(true, game.is_alive(&subject));
    assert_eq!(3, game.count_living_neighbours(&Coordinate { x: 3, y: 1 }));
    game.step();

    assert_eq!(true, game.is_alive(&subject));
    assert_eq!(true, game.is_alive(&Coordinate { x: 3, y: 1 }));
}

#[test]
fn a_living_cell_with_four_or_more_neighbours_dies_from_over_crowding() {
    let mut game = parse_world("..0..\n.000.\n..0..").unwrap();

    let subject = Coordinate { x: 2, y: 1 };

    assert_eq!(true, game.is_alive(&subject));

    game.step();

    assert_eq!(false, game.is_alive(&subject));
}

#[test]
fn a_dead_cell_with_two_neighbours_stays_dead() {
    let mut game = parse_world(".....\n.0.0.\n.....").unwrap();

    let subject = Coordinate { x: 2, y: 1 };

    assert_eq!(false, game.is_alive(&subject));

    game.step();

    assert_eq!(false, game.is_alive(&subject));
}

#[test]
fn should_list_neighbours_of_a_coordinate() {
    let coord = Coordinate { x: 2, y: 3 };

    let neighbours = get_neighbours(&coord);

    assert_eq!(true, neighbours.contains(&Coordinate { x: 3, y: 4 }));
    assert_eq!(true, neighbours.contains(&Coordinate { x: 1, y: 2 }));
}

#[test]
fn should_compile_all_interesting_coordinates() {
    let mut game = Game::new();

    game.bring_to_life(&Coordinate { x: 0, y: 0 });
    game.bring_to_life(&Coordinate { x: 2, y: 0 });

    // Every living cell together with all eight of its neighbours.
    let mut expected: Vec<(i32, i32)> = vec![
        (-1, -1),
        (0, -1),
        (1, -1),
        (2, -1),
        (3, -1),
        (-1, 0),
        (0, 0),
        (1, 0),
        (2, 0),
        (3, 0),
        (-1, 1),
        (0, 1),
        (1, 1),
        (2, 1),
        (3, 1),
    ];
    expected.sort();

    let mut interesting: Vec<(i32, i32)> = game
        .get_interesting_neighbours()
        .iter()
        .map(|c| (c.x, c.y))
        .collect();
    interesting.sort();

    assert_eq!(expected, interesting);
}

#[test]
fn should_count_living_neighbours() {
    let game = parse_world("00..\n0000").unwrap();

    assert_eq!(3, game.count_living_neighbours(&Coordinate { x: 0, y: 0 }));
    assert_eq!(4, game.count_living_neighbours(&Coordinate { x: 1, y: 1 }));
    assert_eq!(1, game.count_living_neighbours(&Coordinate { x: 3, y: 1 }));
    assert_eq!(3, game.count_living_neighbours(&Coordinate { x: 2, y: 1 }));
}
