use gameofrust::gol::{get_neighbours, Coordinate, Game};
use gameofrust::parse::parse_world;

fn live_pairs(game: &Game) -> Vec<(i32, i32)> {
    let mut cells: Vec<(i32, i32)> = game.live_cells().iter().map(|c| (c.x, c.y)).collect();
    cells.sort();
    cells
}

#[test]
fn an_empty_world_has_no_living_cells() {
    let game = Game::new();

    assert_eq!(false, game.is_alive(&Coordinate { x: 0, y: 0 }));
    assert_eq!(false, game.is_alive(&Coordinate { x: -3, y: 7 }));
    assert_eq!(false, game.is_alive(&Coordinate { x: 1000, y: -1000 }));
}

#[test]
fn bring_to_life_and_kill_are_idempotent() {
    let mut game = Game::new();
    let home = Coordinate { x: 4, y: -2 };

    game.kill(&home);
    assert_eq!(false, game.is_alive(&home));

    game.bring_to_life(&home);
    game.bring_to_life(&home);
    assert_eq!(true, game.is_alive(&home));
    assert_eq!(1, game.live_cells().len());

    game.kill(&home);
    assert_eq!(false, game.is_alive(&home));
    game.kill(&home);
    assert_eq!(false, game.is_alive(&home));
}

#[test]
fn neighbours_are_eight_distinct_cells_without_the_centre() {
    let coord = Coordinate { x: -5, y: 11 };

    let neighbours = get_neighbours(&coord);

    assert_eq!(8, neighbours.len());
    assert_eq!(false, neighbours.contains(&coord));
    for (i, a) in neighbours.iter().enumerate() {
        for b in neighbours.iter().skip(i + 1) {
            assert_ne!(a, b);
        }
    }
}

#[test]
fn a_blinker_oscillates_with_period_two() {
    let start = parse_world("..0..\n..0..\n..0..").unwrap();

    let once = start.advance();
    let horizontal = parse_world(".....\n.000.").unwrap();
    assert_eq!(live_pairs(&horizontal), live_pairs(&once));

    let twice = once.advance();
    assert_eq!(live_pairs(&start), live_pairs(&twice));
}

#[test]
fn advance_is_pure() {
    let world = "......\n...0..\n.0.0..\n..00..";
    let start = parse_world(world).unwrap();

    let first = start.advance();
    let second = start.advance();

    assert_eq!(live_pairs(&first), live_pairs(&second));
    assert_eq!(first.render(), second.render());
    assert_eq!(live_pairs(&parse_world(world).unwrap()), live_pairs(&start));
}
