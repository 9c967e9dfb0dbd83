use gameofrust::gol::Game;
use gameofrust::parse::parse_world;

fn sorted_cells(game: &Game) -> Vec<(i32, i32)> {
    let mut cells: Vec<(i32, i32)> = game.live_cells().iter().map(|c| (c.x, c.y)).collect();
    cells.sort();
    cells
}

#[test]
fn follows_a_plan() {
    let seq = [
        "....\n..0.\n.0..\n.0..\n....",
        "....\n....\n.00.",
        "",
    ];

    let mut world = parse_world(seq[0]).unwrap();

    for expected in &seq[1..] {
        world = world.advance();
        let plan = parse_world(expected).unwrap();
        assert_eq!(sorted_cells(&plan), sorted_cells(&world));
    }
}

#[test]
fn can_serialize_a_world() {
    let world = ".....\n...0.\n.0.0.\n..00.\n";

    let game = parse_world(world).unwrap();

    assert_eq!(world, game.render());
}

#[test]
fn renders_an_empty_world() {
    let game = Game::new();

    assert_eq!("..\n", game.render());
}

#[test]
fn round_trips_a_single_cell() {
    let world = "0.\n";

    let game = parse_world(world).unwrap();

    assert_eq!(world, game.render());
}
