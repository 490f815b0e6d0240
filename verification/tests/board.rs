use sokoban::{Actions, Directions, Entities, GameBoard, ParseError};

const CORRIDOR: &str = "1 1\n3 1\n0 0 0 0 0 0 0\n0 1 1 1 1 2 0\n0 0 0 0 0 0 0";

const ROOM: &str = "1 1\n2 1 2 3\n0 0 0 0 0\n0 1 1 1 0\n0 1 0 1 0\n0 1 1 2 0\n0 2 1 1 0\n0 0 0 0 0";

fn load(text: &str) -> GameBoard {
    match GameBoard::from_src(text) {
        Ok(board) => board,
        Err(e) => panic!("the map should load, but: {:?}", e),
    }
}

fn same_position(a: &GameBoard, b: &GameBoard) -> bool {
    a == b
        && a.player() == b.player()
        && a.boxes() == b.boxes()
        && a.targets() == b.targets()
        && a.actions() == b.actions()
        && a.stringify() == b.stringify()
}

#[test]
fn loads_player_boxes_grid_and_targets() {
    let game = load(ROOM);
    assert_eq!(game.player(), (1, 1));
    assert_eq!(game.boxes(), &vec![(2, 1), (2, 3)]);
    assert_eq!(game.targets(), &vec![(3, 3), (1, 4)]);
    assert_eq!(game.width(), 5);
    assert_eq!(game.height(), 6);
    assert_eq!(game.entity(0, 0), Some(Entities::Wall));
    assert_eq!(game.entity(1, 1), Some(Entities::Road));
    assert_eq!(game.entity(3, 3), Some(Entities::Target));
    assert_eq!(game.entity(5, 0), None);
    assert_eq!(game.entity(0, 6), None);
    assert!(game.actions().is_empty());
}

#[test]
fn loads_with_tabs_plus_signs_and_carriage_returns() {
    let game = load("+1\t 01 \r\n 3   1\r\n0 0 0 0 0 0 0\r\n0 1 1 1 1 2 0\r\n0 0 0 0 0 0 0");
    assert_eq!(game.player(), (1, 1));
    assert_eq!(game.boxes(), &vec![(3, 1)]);
    assert_eq!(game.targets(), &vec![(5, 1)]);
}

#[test]
fn loads_with_unicode_white_space_between_words() {
    let game = load("1\u{a0}1\n3\u{3000}1\n0 0 0 0 0 0 0\n0 1 1 1 1 2 0\n0\u{2003}0 0 0 0 0 0");
    assert_eq!(game.player(), (1, 1));
    assert_eq!(game.boxes(), &vec![(3, 1)]);
}

#[test]
fn cell_token_three_is_rejected() {
    let loaded = GameBoard::from_src("1 1\n3 1\n0 0 0 0 0 0 0\n0 1 1 3 1 2 0\n0 0 0 0 0 0 0");
    assert_eq!(loaded.err(), Some(ParseError::InvalidCell));
}

#[test]
fn cell_token_of_two_digits_is_rejected() {
    let loaded = GameBoard::from_src("1 1\n3 1\n0 0 0\n0 11 0\n0 0 0");
    assert_eq!(loaded.err(), Some(ParseError::InvalidCell));
}

#[test]
fn text_without_second_line_is_rejected() {
    assert_eq!(GameBoard::from_src("").err(), Some(ParseError::MissingLine));
    assert_eq!(GameBoard::from_src("1 1").err(), Some(ParseError::MissingLine));
}

#[test]
fn word_that_is_no_number_is_rejected() {
    assert_eq!(GameBoard::from_src("1 x\n\n0 1 0").err(), Some(ParseError::InvalidNumber));
    assert_eq!(GameBoard::from_src("1 -1\n\n0 1 0").err(), Some(ParseError::InvalidNumber));
    assert_eq!(GameBoard::from_src("1 +\n\n0 1 0").err(), Some(ParseError::InvalidNumber));
    assert_eq!(GameBoard::from_src("1 0\n1 2a\n0 1 0").err(), Some(ParseError::InvalidNumber));
    assert_eq!(
        GameBoard::from_src("1 99999999999999999999999999999999999999999\n\n0 1 0").err(),
        Some(ParseError::InvalidNumber)
    );
}

#[test]
fn wrong_count_of_numbers_is_rejected() {
    assert_eq!(GameBoard::from_src("1\n\n0 1 0").err(), Some(ParseError::WrongTokenCount));
    assert_eq!(GameBoard::from_src("1 0 0\n\n0 1 0").err(), Some(ParseError::WrongTokenCount));
    assert_eq!(GameBoard::from_src("\n\n0 1 0").err(), Some(ParseError::WrongTokenCount));
    assert_eq!(GameBoard::from_src("1 0\n1 0 2\n0 1 1").err(), Some(ParseError::WrongTokenCount));
}

#[test]
fn rows_of_different_width_are_rejected() {
    assert_eq!(GameBoard::from_src("1 0\n\n0 1 0\n0 1").err(), Some(ParseError::RaggedRows));
    assert_eq!(GameBoard::from_src("1 0\n\n0 1 0\n").err(), Some(ParseError::RaggedRows));
}

#[test]
fn misplaced_pieces_are_rejected() {
    assert_eq!(GameBoard::from_src("0 0\n\n0 1 0").err(), Some(ParseError::OutOfPlace));
    assert_eq!(GameBoard::from_src("3 0\n\n0 1 0").err(), Some(ParseError::OutOfPlace));
    assert_eq!(GameBoard::from_src("1 1\n\n0 1 0").err(), Some(ParseError::OutOfPlace));
    assert_eq!(GameBoard::from_src("1 0\n\n").err(), Some(ParseError::OutOfPlace));
    assert_eq!(GameBoard::from_src("1 0\n0 0\n0 1 1").err(), Some(ParseError::OutOfPlace));
    assert_eq!(GameBoard::from_src("1 0\n2 0 2 0\n0 1 1").err(), Some(ParseError::OutOfPlace));
    assert_eq!(GameBoard::from_src("1 0\n2 5\n0 1 1").err(), Some(ParseError::OutOfPlace));
}

#[test]
fn earlier_line_decides_the_error() {
    assert_eq!(GameBoard::from_src("x\n1\n0 9 0").err(), Some(ParseError::InvalidNumber));
    assert_eq!(GameBoard::from_src("1\nx\n0 9 0").err(), Some(ParseError::WrongTokenCount));
    assert_eq!(GameBoard::from_src("1 0\n1\n0 9 0").err(), Some(ParseError::WrongTokenCount));
    assert_eq!(GameBoard::from_src("1 0\n\n0 9 0\n0").err(), Some(ParseError::InvalidCell));
    assert_eq!(GameBoard::from_src("5 5\n\n0 1 0\n0").err(), Some(ParseError::RaggedRows));
}

#[test]
fn step_into_wall_is_blocked() {
    let mut game = load(CORRIDOR);
    let before = game.clone();
    assert_eq!(game.move_(&Directions::Left), None);
    assert_eq!(game.move_(&Directions::Up), None);
    assert_eq!(game.move_(&Directions::Down), None);
    assert!(same_position(&game, &before));
}

#[test]
fn step_off_the_grid_is_blocked() {
    let mut game = load("0 0\n\n1 1\n1 1");
    assert_eq!(game.move_(&Directions::Left), None);
    assert_eq!(game.move_(&Directions::Up), None);
    assert_eq!(game.move_(&Directions::Right), Some(Actions::Move(Directions::Right)));
    assert_eq!(game.move_(&Directions::Right), None);
    assert_eq!(game.move_(&Directions::Down), Some(Actions::Move(Directions::Down)));
    assert_eq!(game.move_(&Directions::Down), None);
    assert_eq!(game.player(), (1, 1));
    assert_eq!(game.actions().len(), 2);
}

#[test]
fn plain_step_moves_the_player_and_is_recorded() {
    let mut game = load(CORRIDOR);
    assert_eq!(game.move_(&Directions::Right), Some(Actions::Move(Directions::Right)));
    assert_eq!(game.player(), (2, 1));
    assert_eq!(game.boxes(), &vec![(3, 1)]);
    assert_eq!(game.actions(), &vec![Actions::Move(Directions::Right)]);
}

#[test]
fn push_moves_player_and_box() {
    let mut game = load(CORRIDOR);
    game.move_(&Directions::Right);
    assert_eq!(game.move_(&Directions::Right), Some(Actions::Push(Directions::Right)));
    assert_eq!(game.player(), (3, 1));
    assert_eq!(game.boxes(), &vec![(4, 1)]);
    assert_eq!(
        game.actions(),
        &vec![Actions::Move(Directions::Right), Actions::Push(Directions::Right)]
    );
}

#[test]
fn push_against_wall_is_blocked() {
    let mut game = load("1 0\n2 0\n1 1 1 0");
    let before = game.clone();
    assert_eq!(game.move_(&Directions::Right), None);
    assert!(same_position(&game, &before));
}

#[test]
fn push_against_the_edge_is_blocked() {
    let mut game = load("1 0\n2 0\n1 1 1");
    let before = game.clone();
    assert_eq!(game.move_(&Directions::Right), None);
    assert!(same_position(&game, &before));
}

#[test]
fn push_against_another_box_is_blocked() {
    let mut game = load("0 0\n1 0 2 0\n1 1 1 1");
    let before = game.clone();
    assert_eq!(game.move_(&Directions::Right), None);
    assert!(same_position(&game, &before));
}

#[test]
fn push_keeps_the_order_of_the_boxes() {
    let mut game = load("0 1\n2 0 1 1 2 2\n1 1 1 1\n1 1 1 1\n1 1 1 1");
    assert_eq!(game.move_(&Directions::Right), Some(Actions::Push(Directions::Right)));
    assert_eq!(game.boxes(), &vec![(2, 0), (2, 1), (2, 2)]);
}

#[test]
fn pushes_in_all_four_directions() {
    let map = "\n1 1 1 1 1\n1 1 1 1 1\n1 1 1 1 1\n1 1 1 1 1\n1 1 1 1 1";
    let mut left = load(&format!("3 2\n2 2{}", map));
    assert_eq!(left.move_(&Directions::Left), Some(Actions::Push(Directions::Left)));
    assert_eq!((left.player(), left.boxes()[0]), ((2, 2), (1, 2)));
    let mut up = load(&format!("2 3\n2 2{}", map));
    assert_eq!(up.move_(&Directions::Up), Some(Actions::Push(Directions::Up)));
    assert_eq!((up.player(), up.boxes()[0]), ((2, 2), (2, 1)));
    let mut down = load(&format!("2 1\n2 2{}", map));
    assert_eq!(down.move_(&Directions::Down), Some(Actions::Push(Directions::Down)));
    assert_eq!((down.player(), down.boxes()[0]), ((2, 2), (2, 3)));
}

#[test]
fn undo_on_fresh_board_changes_nothing() {
    let mut game = load(ROOM);
    let before = game.clone();
    game.undo();
    assert!(same_position(&game, &before));
    assert_eq!(game.actions().len(), 0);
}

#[test]
fn undo_takes_back_a_plain_step() {
    let mut game = load(CORRIDOR);
    let before = game.clone();
    assert!(game.move_(&Directions::Right).is_some());
    game.undo();
    assert!(same_position(&game, &before));
}

#[test]
fn undo_takes_back_a_push() {
    let mut game = load(CORRIDOR);
    game.move_(&Directions::Right);
    let before = game.clone();
    assert_eq!(game.move_(&Directions::Right), Some(Actions::Push(Directions::Right)));
    game.undo();
    assert!(same_position(&game, &before));
    assert_eq!(game.boxes(), &vec![(3, 1)]);
    assert_eq!(game.player(), (2, 1));
}

#[test]
fn undo_inverts_every_successful_step_of_a_walk() {
    let walk = [
        Directions::Right,
        Directions::Down,
        Directions::Left,
        Directions::Right,
        Directions::Right,
        Directions::Down,
        Directions::Down,
        Directions::Up,
        Directions::Left,
        Directions::Left,
        Directions::Down,
        Directions::Up,
    ];
    let mut game = load(ROOM);
    for d in walk.iter() {
        let before = game.clone();
        if game.move_(d).is_some() {
            let after = game.clone();
            game.undo();
            assert!(same_position(&game, &before));
            assert_eq!(game.move_(d), after.actions().last().copied());
            assert!(same_position(&game, &after));
        } else {
            assert!(same_position(&game, &before));
        }
    }
    while !game.actions().is_empty() {
        game.undo();
    }
    assert!(same_position(&game, &load(ROOM)));
}

#[test]
fn steps_keep_pieces_off_walls_and_boxes_apart() {
    let walk = [
        Directions::Right,
        Directions::Right,
        Directions::Down,
        Directions::Down,
        Directions::Left,
        Directions::Left,
        Directions::Up,
        Directions::Up,
        Directions::Right,
        Directions::Down,
    ];
    let mut game = load(ROOM);
    let mut steps = 0;
    for d in walk.iter().cycle().take(60) {
        if game.move_(d).is_some() {
            steps += 1;
        }
        assert_eq!(game.actions().len(), steps);
        assert!(game.pieces_placed());
        let (px, py) = game.player();
        assert_ne!(game.entity(px, py), Some(Entities::Wall));
        assert_ne!(game.entity(px, py), None);
        let boxes = game.boxes();
        for (i, b) in boxes.iter().enumerate() {
            assert_ne!(game.entity(b.0, b.1), Some(Entities::Wall));
            assert_ne!(game.entity(b.0, b.1), None);
            for c in boxes.iter().skip(i + 1) {
                assert_ne!(b, c);
            }
        }
    }
}

#[test]
fn win_when_every_box_is_on_a_target() {
    let mut game = load(CORRIDOR);
    assert!(!game.is_win());
    game.move_(&Directions::Right);
    game.move_(&Directions::Right);
    assert!(!game.is_win());
    game.move_(&Directions::Right);
    assert!(game.is_win());
    game.undo();
    assert!(!game.is_win());
}

#[test]
fn win_without_boxes_and_targets() {
    assert!(load("0 0\n\n1 1").is_win());
}

#[test]
fn win_needs_all_boxes() {
    assert!(load("0 0\n1 0 2 0\n1 2 2").is_win());
    assert!(!load("0 0\n1 0 2 0\n1 2 1").is_win());
    assert!(load("0 0\n1 0\n1 2 2").is_win());
}

#[test]
fn free_cells_hold_neither_wall_nor_box() {
    let game = load(ROOM);
    assert!(game.is_free(1, 1));
    assert!(game.is_free(3, 3));
    assert!(!game.is_free(2, 1));
    assert!(!game.is_free(0, 0));
    assert!(!game.is_free(2, 2));
    assert!(!game.is_free(9, 9));
    assert_eq!(game.box_index(2, 3), Some(1));
    assert_eq!(game.box_index(1, 1), None);
}

#[test]
fn boards_are_equal_when_they_hold_the_same_position() {
    let mut game = load(CORRIDOR);
    let start = game.clone();
    assert_eq!(game, start);
    assert_eq!(game, load(CORRIDOR));
    game.move_(&Directions::Right);
    assert_ne!(game, start);
    let moved = game.clone();
    game.move_(&Directions::Right);
    assert_ne!(game, moved);
    game.undo();
    assert_eq!(game, moved);
    game.undo();
    assert_eq!(game, start);
    assert_ne!(load("0 0\n\n1 1"), load("0 0\n\n1 2"));
    assert_ne!(load("0 0\n\n1 1"), load("0 0\n\n1 1\n1 1"));
    assert_ne!(load("0 0\n1 0\n1 1 1"), load("0 0\n2 0\n1 1 1"));
    assert_ne!(load("0 0\n1 0\n1 1 1"), load("0 0\n\n1 1 1"));
    assert_ne!(load("0 0\n1 0 2 0\n1 1 1"), load("0 0\n2 0 1 0\n1 1 1"));
}
