use gameofrust::gol::Coordinate;
use gameofrust::parse::parse_world;

#[test]
fn can_parse_a_world() {
    let world = "...\n.00\n...";

    let game = parse_world(world).unwrap();

    assert_eq!(true, game.is_alive(&Coordinate { x: 2, y: 1 }));
    assert_eq!(true, game.is_alive(&Coordinate { x: 1, y: 1 }));
    assert_eq!(false, game.is_alive(&Coordinate { x: 0, y: 0 }));
}

#[test]
fn rejects_an_unrecognized_character() {
    let err = parse_world("..x.").unwrap_err();

    assert_eq!('x', err.character);
    assert_eq!(2, err.index);
    assert_eq!(2, err.x);
    assert_eq!(0, err.y);
}

#[test]
fn reports_the_position_of_a_later_bad_character() {
    let err = parse_world("..\n.q").unwrap_err();

    assert_eq!('q', err.character);
    assert_eq!(4, err.index);
    assert_eq!(1, err.x);
    assert_eq!(1, err.y);
}

#[test]
fn parses_an_empty_string_to_an_empty_world() {
    let game = parse_world("").unwrap();

    assert_eq!(false, game.is_alive(&Coordinate { x: 0, y: 0 }));
    assert_eq!(0, game.live_cells().len());
}
