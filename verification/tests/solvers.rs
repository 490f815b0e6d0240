use sokoban::a_star::take_cheapest;
use sokoban::dfs::reverses;
use sokoban::{
    a_star, dfs, heuristic, iterative_deepening, largest_budget, Actions, Directions, GameBoard,
    Observer, Outcome, Silent, State, DIRECTIONS,
};

const CORRIDOR: &str = "1 1\n3 1\n0 0 0 0 0 0 0\n0 1 1 1 1 2 0\n0 0 0 0 0 0 0";

const ALREADY_WON: &str = "1 1\n3 1\n0 0 0 0 0\n0 1 1 2 0\n0 0 0 0 0";

const STUCK: &str = "3 1\n1 1\n0 0 0 0 0 0\n0 1 1 1 2 0\n0 0 0 0 0 0";

const ROOM: &str = "1 1\n2 2\n0 0 0 0 0 0\n0 1 1 1 1 0\n0 1 1 1 1 0\n0 1 1 1 2 0\n0 0 0 0 0 0";

struct Counter {
    seen: usize,
    longest: usize,
}

impl Observer for Counter {
    fn visit(&mut self, board: &GameBoard) {
        self.seen += 1;
        self.longest = self.longest.max(board.actions().len());
    }
}

fn load(text: &str) -> GameBoard {
    match GameBoard::from_src(text) {
        Ok(board) => board,
        Err(e) => panic!("the map should load, but: {:?}", e),
    }
}

fn direction(a: &Actions) -> Directions {
    match a {
        Actions::Move(d) => *d,
        Actions::Push(d) => *d,
    }
}

fn opposite(d: Directions) -> Directions {
    match d {
        Directions::Left => Directions::Right,
        Directions::Right => Directions::Left,
        Directions::Up => Directions::Down,
        Directions::Down => Directions::Up,
    }
}

fn replay_wins(text: &str, solution: &[Actions]) -> bool {
    let mut game = load(text);
    for a in solution {
        if game.move_(&direction(a)) != Some(*a) {
            return false;
        }
    }
    game.is_win() && game.actions() == solution
}

fn never_turns_back(solution: &[Actions]) -> bool {
    solution.windows(2).all(|w| match w[0] {
        Actions::Move(d) => direction(&w[1]) != opposite(d),
        Actions::Push(_) => true,
    })
}

fn solved(outcome: Outcome<GameBoard>) -> GameBoard {
    match outcome {
        Outcome::Solved(board) => board,
        other => panic!("a solution was expected, but: {:?}", other),
    }
}

#[test]
fn dfs_solves_the_corridor_in_three_actions() {
    let mut game = load(CORRIDOR);
    assert!(dfs(&mut game, 3, &mut Silent));
    assert!(game.is_win());
    assert_eq!(
        game.actions(),
        &vec![
            Actions::Move(Directions::Right),
            Actions::Push(Directions::Right),
            Actions::Push(Directions::Right)
        ]
    );
    assert!(replay_wins(CORRIDOR, game.actions()));
}

#[test]
fn dfs_fails_below_the_needed_depth_and_restores_the_board() {
    for limit in 0..3 {
        let mut game = load(CORRIDOR);
        assert!(!dfs(&mut game, limit, &mut Silent));
        assert_eq!(game.player(), (1, 1));
        assert_eq!(game.boxes(), &vec![(3, 1)]);
        assert!(game.actions().is_empty());
    }
}

#[test]
fn deepening_stops_at_the_first_depth_that_wins() {
    let mut game = load(CORRIDOR);
    assert_eq!(iterative_deepening(&mut game, 0, 10, &mut Silent), Some(3));
    assert!(game.is_win());
    assert_eq!(game.actions().len(), 3);
    let mut late = load(CORRIDOR);
    assert_eq!(iterative_deepening(&mut late, 5, 10, &mut Silent), Some(5));
    assert!(late.is_win());
    let mut short = load(CORRIDOR);
    assert_eq!(iterative_deepening(&mut short, 0, 3, &mut Silent), None);
    assert!(short.actions().is_empty());
    let mut none = load(CORRIDOR);
    assert_eq!(iterative_deepening(&mut none, 7, 7, &mut Silent), None);
}

#[test]
fn a_star_solves_the_corridor_in_three_actions() {
    let game = load(CORRIDOR);
    let won = solved(a_star(&game, 1000, &mut Silent));
    assert!(won.is_win());
    assert_eq!(
        won.actions(),
        &vec![
            Actions::Move(Directions::Right),
            Actions::Push(Directions::Right),
            Actions::Push(Directions::Right)
        ]
    );
    assert!(replay_wins(CORRIDOR, won.actions()));
    assert!(game.actions().is_empty());
    assert_eq!(game.boxes(), &vec![(3, 1)]);
}

#[test]
fn dfs_on_won_board_returns_empty_solution() {
    let mut game = load(ALREADY_WON);
    assert!(dfs(&mut game, 0, &mut Silent));
    assert!(game.actions().is_empty());
    let mut deep = load(ALREADY_WON);
    assert_eq!(iterative_deepening(&mut deep, 0, 5, &mut Silent), Some(0));
    assert!(deep.actions().is_empty());
    assert!(deep.is_win());
}

#[test]
fn a_star_on_won_board_wins_with_its_first_step() {
    let game = load(ALREADY_WON);
    let mut watcher = Counter { seen: 0, longest: 0 };
    let won = solved(a_star(&game, 10, &mut watcher));
    assert!(won.is_win());
    assert_eq!(won.actions(), &vec![Actions::Move(Directions::Right)]);
    assert_eq!(watcher.seen, 1);
    assert_eq!(watcher.longest, 0);
}

#[test]
fn dfs_finds_no_solution_when_box_is_stuck() {
    let mut game = load(STUCK);
    for limit in 0..12 {
        assert!(!dfs(&mut game, limit, &mut Silent));
        assert!(game.actions().is_empty());
        assert_eq!(game.player(), (3, 1));
    }
    assert_eq!(iterative_deepening(&mut game, 0, 12, &mut Silent), None);
}

#[test]
fn a_star_finds_no_solution_when_box_is_stuck() {
    let game = load(STUCK);
    assert!(matches!(a_star(&game, 1000, &mut Silent), Outcome::Exhausted));
}

#[test]
fn a_star_stops_when_budget_runs_out() {
    let game = load(CORRIDOR);
    assert!(matches!(a_star(&game, 0, &mut Silent), Outcome::OutOfBudget));
    assert!(matches!(a_star(&game, 1, &mut Silent), Outcome::OutOfBudget));
    assert!(matches!(a_star(&game, 2, &mut Silent), Outcome::OutOfBudget));
    assert!(matches!(a_star(&game, 3, &mut Silent), Outcome::Solved(_)));
}

#[test]
fn a_star_without_open_positions_is_exhausted_before_budget_counts() {
    let game = load("0 0\n\n1");
    assert!(matches!(a_star(&game, 0, &mut Silent), Outcome::OutOfBudget));
    assert!(matches!(a_star(&game, 5, &mut Silent), Outcome::Exhausted));
}

#[test]
fn solutions_in_a_room_replay_and_never_turn_back() {
    let mut game = load(ROOM);
    let depth = iterative_deepening(&mut game, 0, 12, &mut Silent);
    assert_eq!(depth, Some(game.actions().len()));
    assert!(replay_wins(ROOM, game.actions()));
    assert!(never_turns_back(game.actions()));
    let won = solved(a_star(&load(ROOM), 100_000, &mut Silent));
    assert!(replay_wins(ROOM, won.actions()));
    assert!(never_turns_back(won.actions()));
}

#[test]
fn dfs_never_looks_beyond_its_limit() {
    for limit in 0..7 {
        let mut game = load(ROOM);
        let mut watcher = Counter { seen: 0, longest: 0 };
        let found = dfs(&mut game, limit, &mut watcher);
        assert!(watcher.longest <= limit);
        if found {
            assert!(game.actions().len() <= limit);
            assert!(game.is_win());
        } else {
            assert!(game.actions().is_empty());
        }
    }
}

#[test]
fn reversal_is_told_from_the_last_action() {
    assert!(reverses(Some(Actions::Move(Directions::Left)), Directions::Right));
    assert!(reverses(Some(Actions::Move(Directions::Right)), Directions::Left));
    assert!(reverses(Some(Actions::Move(Directions::Up)), Directions::Down));
    assert!(reverses(Some(Actions::Move(Directions::Down)), Directions::Up));
    assert!(!reverses(Some(Actions::Move(Directions::Left)), Directions::Left));
    assert!(!reverses(Some(Actions::Move(Directions::Left)), Directions::Up));
    assert!(!reverses(Some(Actions::Push(Directions::Left)), Directions::Right));
    assert!(!reverses(None, Directions::Right));
}

#[test]
fn heuristic_sums_nearest_box_distances() {
    assert_eq!(heuristic(&load(CORRIDOR)), 2);
    assert_eq!(heuristic(&load(ALREADY_WON)), 0);
    assert_eq!(heuristic(&load(ROOM)), 3);
    let two = load("0 0\n1 0 3 2\n1 1 1 1\n2 1 1 1\n1 1 1 2");
    assert_eq!(two.targets(), &vec![(0, 1), (3, 2)]);
    assert_eq!(heuristic(&two), 2);
    let shared = load("0 0\n1 0\n1 1 2\n2 1 1");
    assert_eq!(heuristic(&shared), 1 + 2);
    assert_eq!(heuristic(&load("0 0\n\n1 2 2")), 0);
}

#[test]
fn cheapest_state_is_taken_first_and_ties_go_to_the_front() {
    let game = load(CORRIDOR);
    let mut far = game.clone();
    far.move_(&Directions::Right);
    let cost = |g: &GameBoard| heuristic(g) + g.actions().len();
    let mut list = vec![
        State { cost: cost(&far), game: far.clone() },
        State { cost: cost(&game), game: game.clone() },
        State { cost: cost(&game), game: game.clone() },
        State { cost: cost(&far), game: far.clone() },
    ];
    let first = take_cheapest(&mut list);
    assert_eq!(first.cost, 2);
    assert_eq!(list.iter().map(|s| s.cost).collect::<Vec<_>>(), vec![3, 2, 3]);
    let second = take_cheapest(&mut list);
    assert_eq!(second.cost, 2);
    let third = take_cheapest(&mut list);
    assert_eq!((third.cost, third.game.actions().len()), (3, 1));
    assert_eq!(list.len(), 1);
}

#[test]
fn largest_budget_leaves_room_for_span_and_history() {
    let mut game = load(CORRIDOR);
    assert_eq!(largest_budget(&game), Some(usize::MAX - (3 + 7)));
    game.move_(&Directions::Right);
    assert_eq!(largest_budget(&game), Some(usize::MAX - (3 + 7) - 1));
    assert_eq!(largest_budget(&load("0 0\n\n1 1")), Some(usize::MAX));
    let two = load("0 0\n1 0 3 2\n1 1 1 1\n2 1 1 1\n1 1 1 2");
    assert_eq!(largest_budget(&two), Some(usize::MAX - 2 * (3 + 4)));
}

#[test]
fn a_star_solves_with_the_largest_budget() {
    let game = load(CORRIDOR);
    let budget = largest_budget(&game).unwrap();
    let won = solved(a_star(&game, budget, &mut Silent));
    assert_eq!(won.actions().len(), 3);
}

#[test]
fn directions_are_tried_left_right_up_down() {
    assert_eq!(
        DIRECTIONS,
        [Directions::Left, Directions::Right, Directions::Up, Directions::Down]
    );
}
