use sokoban::{Actions, Directions, GameBoard};

fn load(text: &str) -> GameBoard {
    match GameBoard::from_src(text) {
        Ok(board) => board,
        Err(e) => panic!("the map should load, but: {:?}", e),
    }
}

#[test]
fn action_codes() {
    assert_eq!(Actions::Move(Directions::Left).to_string(), "ML");
    assert_eq!(Actions::Move(Directions::Right).to_string(), "MR");
    assert_eq!(Actions::Move(Directions::Up).to_string(), "MU");
    assert_eq!(Actions::Move(Directions::Down).to_string(), "MD");
    assert_eq!(Actions::Push(Directions::Left).to_string(), "PL");
    assert_eq!(Actions::Push(Directions::Right).to_string(), "PR");
    assert_eq!(Actions::Push(Directions::Up).to_string(), "PU");
    assert_eq!(Actions::Push(Directions::Down).to_string(), "PD");
}

#[test]
fn history_joins_codes_with_single_spaces() {
    let mut game = load("1 1\n3 1\n0 0 0 0 0 0 0\n0 1 1 1 1 2 0\n0 0 0 0 0 0 0");
    assert_eq!(game.history(), "");
    game.move_(&Directions::Right);
    assert_eq!(game.history(), "MR");
    game.move_(&Directions::Right);
    game.move_(&Directions::Right);
    game.move_(&Directions::Left);
    assert_eq!(game.history(), "MR PR PR ML");
}

#[test]
fn board_is_drawn_row_by_row() {
    let mut game = load("1 1\n2 1 3 2\n0 0 0 0 0\n0 1 1 1 0\n0 2 1 2 0\n0 0 0 0 0");
    let wall = "\u{2b1b}";
    let cat = "\u{1f431}";
    let disc = "\u{1f534}";
    let button = "\u{1f518}";
    let expected = format!(
        "{w}{w}{w}{w}{w}\n\r{w}{c}{d}  {w}\n\r{w}[]  {b}{w}\n\r{w}{w}{w}{w}{w}",
        w = wall,
        c = cat,
        d = disc,
        b = button
    );
    assert_eq!(game.stringify(), expected);
    game.move_(&Directions::Down);
    let expected = format!(
        "{w}{w}{w}{w}{w}\n\r{w}  {d}  {w}\n\r{w}{c}  {b}{w}\n\r{w}{w}{w}{w}{w}",
        w = wall,
        c = cat,
        d = disc,
        b = button
    );
    assert_eq!(game.stringify(), expected);
}

#[test]
fn single_row_is_drawn_without_line_break() {
    assert_eq!(load("0 0\n\n1 2").stringify(), "\u{1f431}[]");
}
