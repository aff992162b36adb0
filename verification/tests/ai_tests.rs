use minesweeper::ai::build_constraint_solver;
use minesweeper::ai::build_constraint_solver_with;
use minesweeper::ai::construct_constraint;
use minesweeper::ai::construct_global_constraint;
use minesweeper::ai::count_assigned;
use minesweeper::ai::rollout;
use minesweeper::ai::run_rollouts;
use minesweeper::ai::Estimator;
use minesweeper::ai::NaiveAI;
use minesweeper::ai::Probability;
use minesweeper::ai::SolveError;
use minesweeper::board::Board;
use minesweeper::board::BoardSize;
use minesweeper::board::Content;
use minesweeper::board::KnowledgeState;
use minesweeper::board::Point;
use minesweeper::constraint::DegreeSelectionStrategy;
use minesweeper::constraint::FirstSelectionStrategy;
use minesweeper::constraint::Variable;
use minesweeper::ActionType;

fn board_with(width: usize, height: usize, mines: &[Point]) -> Board {
    Board::new_with_mines(BoardSize::new(width, height).unwrap(), mines).unwrap()
}

fn make_known(board: &mut Board, points: &[Point]) {
    for p in points {
        let number = board.size.integer_from_point(p).unwrap();
        board.field[number].knowledge = KnowledgeState::Known;
    }
}

fn is_mine(board: &Board, p: &Point) -> bool {
    match board.retrieve_cell(p).content {
        Content::Mine => true,
        Content::Empty => false,
    }
}

/// The board of one mine in a corner with every other cell revealed.
fn corner_board() -> Board {
    let mut board = board_with(3, 3, &[Point(0, 0)]);
    assert_eq!(board.probe(&Point(2, 2)), 0);
    board
}

/// Checks a sample against the numbers of the board.
fn check_sample(board: &Board, sample: &[(Point, bool)]) {
    let border = board.get_border_points();
    assert_eq!(sample.len(), border.len());
    for (i, (p, _)) in sample.iter().enumerate() {
        assert_eq!(*p, border[i]);
    }
    let value = |p: &Point| sample.iter().find(|(q, _)| q == p).map(|(_, v)| *v);
    for cell in &board.field {
        if cell.is_known_unmined() && board.count_unknown_neighbors(&cell.point) > 0 {
            let mines = board
                .unknown_neighbors(&cell.point)
                .iter()
                .filter(|q| value(q) == Some(true))
                .count();
            assert_eq!(
                mines,
                cell.mined_neighbor_count - board.count_assumed_mined_neighbors(&cell.point)
            );
        }
    }
    let mines = sample.iter().filter(|(_, v)| *v).count() as i32;
    let empties = sample.len() as i32 - mines;
    assert!(mines <= board.remaining_mines());
    assert!(empties <= board.unknown_count() as i32 - board.remaining_mines());
}

#[test]
fn one_unknown_cell_next_to_a_one_is_a_mine() {
    let board = corner_board();
    assert_eq!(board.unknown_count(), 1);
    assert_eq!(board.remaining_mines(), 1);
    assert_eq!(board.get_border_points(), vec![Point(0, 0)]);
    for seed in 0..20 {
        assert_eq!(rollout(&board, seed), Ok(vec![(Point(0, 0), true)]));
    }
    let estimator = run_rollouts(&board, 25, 3).unwrap();
    let estimates = estimator.probabilities(&board.get_border_points());
    assert_eq!(estimates, vec![(Point(0, 0), Probability { hits: 25, rollouts: 25 })]);
    assert!(estimates[0].1.is_one());
    assert_eq!(estimates[0].1.hits as f32 / estimates[0].1.rollouts as f32, 1.0);
    for p in board.size.points() {
        if p != Point(0, 0) {
            assert!(!estimates.iter().any(|(q, _)| *q == p));
        }
    }
}

#[test]
fn local_constraint_of_a_revealed_cell() {
    let mut board = board_with(3, 3, &[Point(0, 0), Point(0, 1)]);
    make_known(&mut board, &[Point(1, 1), Point(2, 2), Point(1, 2)]);
    board.toggle_flag(&Point(0, 0));
    let c = construct_constraint(&board, &Point(1, 1)).unwrap();
    assert_eq!(c.expected_mines, 1);
    assert_eq!(c.expected_empties, 4);
    assert!(!c.global);
    assert_eq!(
        c.constrained_points,
        vec![Point(0, 1), Point(0, 2), Point(1, 0), Point(2, 0), Point(2, 1)]
    );
    let c = construct_constraint(&board, &Point(1, 2)).unwrap();
    assert_eq!(c.expected_mines, 1);
    assert_eq!(c.expected_empties, 2);
    assert_eq!(c.constrained_points, vec![Point(0, 1), Point(0, 2), Point(2, 1)]);
}

#[test]
fn global_constraint_of_a_board() {
    let mut board = board_with(3, 3, &[Point(0, 0), Point(0, 1)]);
    make_known(&mut board, &[Point(1, 1), Point(2, 2)]);
    board.toggle_flag(&Point(0, 0));
    let c = construct_global_constraint(&board).unwrap();
    assert!(c.global);
    assert_eq!(c.expected_mines, 1);
    assert_eq!(c.expected_empties, 6);
    assert_eq!(c.constrained_points, board.get_border_points());
    assert_eq!(c.constrained_points.len(), 6);
}

#[test]
fn a_flag_too_many_around_a_number_is_an_inconsistency() {
    let mut board = board_with(3, 3, &[Point(0, 0)]);
    make_known(&mut board, &[Point(2, 2)]);
    board.toggle_flag(&Point(1, 1));
    assert_eq!(
        construct_constraint(&board, &Point(2, 2)).err(),
        Some(SolveError::EncodingInconsistency)
    );
    assert_eq!(build_constraint_solver(&board, 1).err(), Some(SolveError::EncodingInconsistency));
    assert_eq!(rollout(&board, 1), Err(SolveError::EncodingInconsistency));
    assert_eq!(run_rollouts(&board, 3, 1).err(), Some(SolveError::EncodingInconsistency));
    assert!(run_rollouts(&board, 0, 1).is_ok());
}

#[test]
fn a_number_larger_than_the_cells_around_is_an_inconsistency() {
    let mut board = Board::new_from_ints(3, 3, 5).unwrap();
    board.initialized = true;
    for i in 1..9 {
        board.field[i].knowledge = KnowledgeState::Known;
    }
    board.field[4].mined_neighbor_count = 5;
    assert_eq!(
        construct_constraint(&board, &Point(1, 1)).err(),
        Some(SolveError::EncodingInconsistency)
    );
    assert!(construct_constraint(&board, &Point(0, 1)).is_ok());
    assert_eq!(rollout(&board, 0), Err(SolveError::EncodingInconsistency));
    board.field[4].mined_neighbor_count = 1;
    assert!(construct_constraint(&board, &Point(1, 1)).is_ok());
}

#[test]
fn more_flags_than_mines_is_an_inconsistency() {
    let mut board = board_with(3, 3, &[Point(0, 0)]);
    board.toggle_flag(&Point(0, 0));
    board.toggle_flag(&Point(2, 2));
    assert_eq!(board.remaining_mines(), -1);
    assert_eq!(
        construct_global_constraint(&board).err(),
        Some(SolveError::EncodingInconsistency)
    );
    assert_eq!(rollout(&board, 0), Err(SolveError::EncodingInconsistency));
}

#[test]
fn fewer_hidden_cells_than_mines_is_an_inconsistency() {
    let mut board = Board::new_from_ints(2, 1, 2).unwrap();
    board.field[0].knowledge = KnowledgeState::Known;
    assert_eq!(
        construct_global_constraint(&board).err(),
        Some(SolveError::EncodingInconsistency)
    );
}

#[test]
fn numbers_that_contradict_each_other_exhaust_the_search() {
    let mut board = Board::new_from_ints(3, 1, 1).unwrap();
    board.initialized = true;
    board.field[0].knowledge = KnowledgeState::Known;
    board.field[0].mined_neighbor_count = 1;
    board.field[2].knowledge = KnowledgeState::Known;
    assert!(construct_constraint(&board, &Point(0, 0)).is_ok());
    assert!(construct_constraint(&board, &Point(0, 2)).is_ok());
    assert!(construct_global_constraint(&board).is_ok());
    assert!(build_constraint_solver(&board, 0).is_ok());
    for seed in 0..10 {
        assert_eq!(rollout(&board, seed), Err(SolveError::SearchExhausted));
    }
    assert_eq!(run_rollouts(&board, 5, 0).err(), Some(SolveError::SearchExhausted));
    let mut solver = build_constraint_solver_with(&board, FirstSelectionStrategy {}).unwrap();
    assert_eq!(solver.backtrack(), None);
}

#[test]
fn the_solver_of_a_board_has_a_variable_for_each_border_cell() {
    let mut board = board_with(4, 4, &[Point(0, 0), Point(3, 3)]);
    make_known(&mut board, &[Point(1, 1), Point(1, 2)]);
    let solver = build_constraint_solver(&board, 5).unwrap();
    let ids: Vec<Point> = solver.variable_lookup.iter().map(|v| v.id).collect();
    assert_eq!(ids, board.get_border_points());
    assert_eq!(ids.len(), 10);
    for v in &solver.variable_lookup {
        assert_eq!(v.value, None);
        assert_eq!(v.possible, vec![false, true]);
    }
}

#[test]
fn samples_keep_to_the_numbers_of_the_board() {
    let mines = [Point(0, 0), Point(0, 3), Point(2, 5), Point(4, 1), Point(5, 5), Point(3, 3)];
    let mut board = board_with(6, 6, &mines);
    make_known(
        &mut board,
        &[Point(1, 1), Point(1, 2), Point(2, 2), Point(2, 1), Point(4, 4), Point(3, 4), Point(1, 4)],
    );
    board.toggle_flag(&Point(3, 3));
    for seed in 0..40 {
        let sample = rollout(&board, seed).unwrap();
        check_sample(&board, &sample);
    }
}

#[test]
fn samples_hold_the_mines_that_are_left_when_every_hidden_cell_is_on_the_border() {
    let mines = [Point(0, 0), Point(2, 2), Point(0, 2)];
    let mut board = board_with(3, 3, &mines);
    make_known(&mut board, &[Point(1, 1), Point(0, 1)]);
    assert_eq!(board.get_border_points().len(), board.unknown_count());
    for seed in 0..30 {
        let sample = rollout(&board, seed).unwrap();
        check_sample(&board, &sample);
        let mined = sample.iter().filter(|(_, v)| *v).count() as i32;
        assert_eq!(mined, board.remaining_mines());
        assert_eq!(mined, 3);
    }
    board.toggle_flag(&Point(0, 0));
    assert_eq!(board.remaining_mines(), 2);
    assert_eq!(board.get_border_points().len() + 1, board.unknown_count());
    for seed in 0..30 {
        let sample = rollout(&board, seed).unwrap();
        check_sample(&board, &sample);
    }
}

#[test]
fn hidden_cells_off_the_border_take_up_mines() {
    let mut board = board_with(5, 5, &[Point(4, 4), Point(4, 3), Point(3, 4), Point(1, 1)]);
    make_known(&mut board, &[Point(0, 0)]);
    assert_eq!(board.get_border_points().len(), 3);
    assert_eq!(board.unknown_count(), 24);
    assert_eq!(board.remaining_mines(), 4);
    for seed in 0..10 {
        let sample = rollout(&board, seed).unwrap();
        check_sample(&board, &sample);
        assert_eq!(sample.iter().filter(|(_, v)| *v).count(), 1);
    }
}

#[test]
fn samples_differ_with_the_seed_and_repeat_for_a_seed() {
    let mines = [Point(0, 0), Point(0, 4), Point(4, 0)];
    let mut board = board_with(5, 5, &mines);
    make_known(&mut board, &[Point(2, 2)]);
    board.field[12].mined_neighbor_count = 3;
    let mut seen: Vec<Vec<(Point, bool)>> = Vec::new();
    for seed in 0..60 {
        let sample = rollout(&board, seed).unwrap();
        assert_eq!(rollout(&board, seed).unwrap(), sample);
        assert_eq!(sample.iter().filter(|(_, v)| *v).count(), 3);
        if !seen.contains(&sample) {
            seen.push(sample);
        }
    }
    assert!(seen.len() > 5);
}

#[test]
fn a_fixed_order_gives_the_same_sample_every_time() {
    let mines = [Point(0, 0), Point(0, 3), Point(2, 5), Point(4, 1), Point(5, 5)];
    let mut board = board_with(6, 6, &mines);
    make_known(&mut board, &[Point(1, 1), Point(1, 2), Point(2, 2), Point(4, 4), Point(1, 4)]);
    let mut one = build_constraint_solver_with(&board, DegreeSelectionStrategy {}).unwrap();
    let mut two = build_constraint_solver_with(&board, DegreeSelectionStrategy {}).unwrap();
    let first = one.backtrack().unwrap();
    assert_eq!(two.backtrack().unwrap(), first);
    check_sample(&board, &first);
    let mut three = build_constraint_solver_with(&board, FirstSelectionStrategy {}).unwrap();
    let mut four = build_constraint_solver_with(&board, FirstSelectionStrategy {}).unwrap();
    let second = three.backtrack().unwrap();
    assert_eq!(four.backtrack().unwrap(), second);
    check_sample(&board, &second);
}

#[test]
fn estimates_lie_between_zero_and_one() {
    let mines = [Point(0, 0), Point(0, 3), Point(2, 5), Point(4, 1), Point(5, 5)];
    let mut board = board_with(6, 6, &mines);
    make_known(&mut board, &[Point(1, 1), Point(1, 2), Point(2, 2), Point(4, 4), Point(1, 4)]);
    let estimator = run_rollouts(&board, 50, 9).unwrap();
    assert_eq!(estimator.rollouts, 50);
    let border = board.get_border_points();
    let estimates = estimator.probabilities(&border);
    assert_eq!(estimates.len(), border.len());
    for (i, (p, chance)) in estimates.iter().enumerate() {
        assert_eq!(*p, border[i]);
        assert_eq!(chance.rollouts, 50);
        assert!(chance.hits <= chance.rollouts);
        let value = chance.hits as f64 / chance.rollouts as f64;
        assert!((0.0..=1.0).contains(&value));
    }
    assert_eq!(estimator.mine_counts.get(&Point(5, 0)), 0);
}

#[test]
fn cells_around_a_spent_number_get_the_estimate_zero() {
    let mut board = board_with(4, 4, &[Point(0, 0), Point(3, 3)]);
    make_known(&mut board, &[Point(1, 1), Point(2, 1)]);
    board.toggle_flag(&Point(0, 0));
    let estimator = run_rollouts(&board, 8, 0).unwrap();
    let border = board.get_border_points();
    let estimates = estimator.probabilities(&border);
    for (p, chance) in &estimates {
        if Point(1, 1).distance(p) == 1 || Point(2, 1).distance(p) == 1 {
            assert!(chance.is_zero());
            assert_eq!(chance.hits, 0);
        }
    }
    assert!(estimates.iter().any(|(p, _)| *p == Point(1, 2)));
    assert!(!estimates.iter().any(|(p, _)| *p == Point(0, 0)));
    assert!(!estimates.iter().any(|(p, _)| *p == Point(3, 3)));
}

#[test]
fn a_border_that_holds_only_mines_gets_the_estimate_one() {
    let mines = [Point(0, 0), Point(0, 1), Point(0, 2)];
    let mut board = board_with(3, 2, &mines);
    make_known(&mut board, &[Point(1, 0), Point(1, 1), Point(1, 2)]);
    assert_eq!(board.remaining_mines(), 3);
    assert_eq!(board.get_border_points().len(), 3);
    let estimator = run_rollouts(&board, 10, 4).unwrap();
    for (p, chance) in estimator.probabilities(&board.get_border_points()) {
        assert!(is_mine(&board, &p));
        assert!(chance.is_one());
        assert_eq!(chance, Probability { hits: 10, rollouts: 10 });
    }
}

#[test]
fn estimates_come_close_to_the_share_of_the_solutions() {
    let mut board = board_with(3, 1, &[Point(0, 0)]);
    make_known(&mut board, &[Point(0, 1)]);
    let estimator = run_rollouts(&board, 400, 17).unwrap();
    let estimates = estimator.probabilities(&board.get_border_points());
    assert_eq!(estimates.len(), 2);
    assert_eq!(estimates[0].1.hits + estimates[1].1.hits, 400);
    assert!(estimates[0].1.hits > 0);
    assert!(estimates[1].1.hits > 0);
}

#[test]
fn estimator_counts_each_mine_once_per_sample() {
    let mut estimator = Estimator::new();
    assert_eq!(estimator.rollouts, 0);
    estimator.record(&vec![(Point(0, 0), true), (Point(0, 1), false), (Point(0, 2), true)]);
    estimator.record(&vec![(Point(0, 0), false), (Point(0, 1), false), (Point(0, 2), true)]);
    estimator.record(&vec![]);
    assert_eq!(estimator.rollouts, 3);
    assert_eq!(estimator.mine_counts.get(&Point(0, 0)), 1);
    assert_eq!(estimator.mine_counts.get(&Point(0, 1)), 0);
    assert_eq!(estimator.mine_counts.get(&Point(0, 2)), 2);
    let estimates = estimator.probabilities(&vec![Point(0, 2), Point(5, 5)]);
    assert_eq!(
        estimates,
        vec![
            (Point(0, 2), Probability { hits: 2, rollouts: 3 }),
            (Point(5, 5), Probability { hits: 0, rollouts: 3 })
        ]
    );
}

#[test]
fn probabilities_compare_as_fractions() {
    let third = Probability { hits: 1, rollouts: 3 };
    let half = Probability { hits: 2, rollouts: 4 };
    let other_half = Probability { hits: 5, rollouts: 10 };
    let none = Probability { hits: 0, rollouts: 7 };
    let all = Probability { hits: 7, rollouts: 7 };
    let unknown = Probability { hits: 0, rollouts: 0 };
    assert!(half.exceeds(&third));
    assert!(!third.exceeds(&half));
    assert!(!half.exceeds(&other_half));
    assert!(!other_half.exceeds(&half));
    assert!(all.exceeds(&half));
    assert!(third.exceeds(&none));
    assert!(!unknown.exceeds(&none));
    assert!(!all.exceeds(&unknown));
    assert!(none.is_zero() && !none.is_one());
    assert!(all.is_one() && !all.is_zero());
    assert!(!half.is_zero() && !half.is_one());
    assert!(!unknown.is_zero() && !unknown.is_one());
    let large = Probability { hits: usize::MAX, rollouts: usize::MAX };
    let nearly = Probability { hits: usize::MAX - 1, rollouts: usize::MAX };
    assert!(large.exceeds(&nearly));
    assert!(!nearly.exceeds(&large));
}

#[test]
fn count_assigned_counts_both_values() {
    let mut vars: Vec<Variable<Point, bool>> = (0..5)
        .map(|i| Variable { id: Point(i, 0), value: None, possible: vec![false, true] })
        .collect();
    assert_eq!(count_assigned(&vars), (0, 0));
    vars[0].value = Some(true);
    vars[2].value = Some(false);
    vars[4].value = Some(true);
    assert_eq!(count_assigned(&vars), (2, 1));
}

#[test]
fn the_player_starts_with_a_click_on_the_first_cell() {
    let mut ai = NaiveAI::new(10, 1000);
    assert_eq!(ai.min_move_time, 10);
    assert_eq!(ai.max_move_time, 1000);
    assert_eq!(ai.move_queue.len(), 1);
    assert!(matches!(ai.pop_move(), Some(ActionType::Click(Point(0, 0)))));
    assert!(ai.pop_move().is_none());
    ai.move_queue.push(ActionType::Flag(Point(1, 1)));
    ai.move_queue.push(ActionType::Chord(Point(2, 2)));
    assert!(matches!(ai.pop_move(), Some(ActionType::Chord(Point(2, 2)))));
    assert!(matches!(ai.pop_move(), Some(ActionType::Flag(Point(1, 1)))));
}

#[test]
fn the_player_waits_for_what_is_missing_to_the_shortest_time() {
    let ai = NaiveAI::new(10, 1000);
    assert_eq!(ai.remaining_delay(0), 10);
    assert_eq!(ai.remaining_delay(4), 6);
    assert_eq!(ai.remaining_delay(10), 0);
    assert_eq!(ai.remaining_delay(11), 0);
    assert_eq!(ai.remaining_delay(u64::MAX), 0);
}

#[test]
fn certain_moves_flag_what_must_be_a_mine() {
    let board = corner_board();
    assert_eq!(NaiveAI::known_safe_flags(&board), vec![Point(0, 0)]);
    assert_eq!(NaiveAI::known_safe_clicks(&board), vec![]);
    let moves = NaiveAI::certain_moves(&board);
    assert_eq!(moves.len(), 1);
    assert!(matches!(moves[0], ActionType::Flag(Point(0, 0))));
    let ai = NaiveAI::new(0, 0);
    let moves = ai.generate_next_moves(&board, 0, 0).unwrap();
    assert_eq!(moves.len(), 1);
    assert!(matches!(moves[0], ActionType::Flag(Point(0, 0))));
}

#[test]
fn certain_moves_click_what_must_be_safe() {
    let mut board = board_with(4, 4, &[Point(0, 0), Point(3, 3)]);
    make_known(&mut board, &[Point(1, 1)]);
    board.toggle_flag(&Point(0, 0));
    assert_eq!(NaiveAI::known_safe_flags(&board), vec![]);
    let clicks = NaiveAI::known_safe_clicks(&board);
    assert_eq!(
        clicks,
        vec![
            Point(0, 1),
            Point(0, 2),
            Point(1, 0),
            Point(1, 2),
            Point(2, 0),
            Point(2, 1),
            Point(2, 2)
        ]
    );
    let moves = NaiveAI::certain_moves(&board);
    assert_eq!(moves.len(), 7);
    for (i, action) in moves.iter().enumerate() {
        match action {
            ActionType::Click(p) => assert_eq!(*p, clicks[i]),
            _ => panic!("expected a click"),
        }
    }
}

#[test]
fn certain_moves_name_each_cell_once() {
    let mut board = board_with(3, 3, &[Point(0, 0)]);
    make_known(&mut board, &[Point(1, 1), Point(0, 1), Point(1, 0)]);
    assert_eq!(NaiveAI::known_safe_flags(&board), vec![]);
    make_known(&mut board, &[Point(0, 2), Point(1, 2), Point(2, 0), Point(2, 1), Point(2, 2)]);
    assert_eq!(board.known_flaggable_neighbors(&Point(0, 1)), vec![Point(0, 0)]);
    assert_eq!(board.known_flaggable_neighbors(&Point(1, 0)), vec![Point(0, 0)]);
    assert_eq!(board.known_flaggable_neighbors(&Point(1, 1)), vec![Point(0, 0)]);
    assert_eq!(NaiveAI::known_safe_flags(&board), vec![Point(0, 0)]);
}

#[test]
fn estimates_that_are_certain_become_moves() {
    let board = Board::new_from_ints(3, 3, 1).unwrap();
    let estimates = vec![
        (Point(0, 0), Probability { hits: 0, rollouts: 10 }),
        (Point(0, 1), Probability { hits: 4, rollouts: 10 }),
        (Point(0, 2), Probability { hits: 10, rollouts: 10 }),
        (Point(1, 0), Probability { hits: 0, rollouts: 10 }),
    ];
    let moves = NaiveAI::moves_from_probabilities(&board, &estimates);
    assert_eq!(moves.len(), 3);
    assert!(matches!(moves[0], ActionType::Click(Point(0, 0))));
    assert!(matches!(moves[1], ActionType::Flag(Point(0, 2))));
    assert!(matches!(moves[2], ActionType::Click(Point(1, 0))));
}

#[test]
fn without_certain_estimates_the_likeliest_cell_is_flagged() {
    let board = Board::new_from_ints(3, 3, 1).unwrap();
    let estimates = vec![
        (Point(0, 0), Probability { hits: 3, rollouts: 10 }),
        (Point(0, 1), Probability { hits: 7, rollouts: 10 }),
        (Point(0, 2), Probability { hits: 7, rollouts: 10 }),
        (Point(1, 0), Probability { hits: 1, rollouts: 10 }),
    ];
    let moves = NaiveAI::moves_from_probabilities(&board, &estimates);
    assert_eq!(moves.len(), 1);
    assert!(matches!(moves[0], ActionType::Flag(Point(0, 1))));
}

#[test]
fn without_estimates_an_unknown_cell_is_flagged() {
    let mut board = Board::new_from_ints(2, 2, 1).unwrap();
    board.field[0].knowledge = KnowledgeState::Known;
    board.field[3].knowledge = KnowledgeState::Flag;
    for _ in 0..20 {
        let moves = NaiveAI::moves_from_probabilities(&board, &vec![]);
        assert_eq!(moves.len(), 1);
        match moves[0] {
            ActionType::Flag(p) => assert!(p == Point(0, 1) || p == Point(1, 0)),
            _ => panic!("expected a flag"),
        }
        let p = NaiveAI::get_random_valid_click(&board).unwrap();
        assert!(p == Point(0, 1) || p == Point(1, 0));
    }
    let undecided = vec![(Point(0, 1), Probability { hits: 0, rollouts: 0 })];
    let moves = NaiveAI::moves_from_probabilities(&board, &undecided);
    assert_eq!(moves.len(), 1);
    assert!(matches!(moves[0], ActionType::Flag(_)));
}

#[test]
fn without_estimates_and_unknown_cells_there_is_no_move() {
    let mut board = Board::new_from_ints(2, 1, 1).unwrap();
    board.field[0].knowledge = KnowledgeState::Known;
    board.field[1].knowledge = KnowledgeState::Flag;
    assert_eq!(NaiveAI::get_random_valid_click(&board), None);
    assert_eq!(NaiveAI::moves_from_probabilities(&board, &vec![]).len(), 0);
}

#[test]
fn the_player_guesses_from_the_estimate_when_nothing_is_certain() {
    let mut board = board_with(3, 1, &[Point(0, 0)]);
    make_known(&mut board, &[Point(0, 1)]);
    board.mine_count = 1;
    assert_eq!(NaiveAI::certain_moves(&board).len(), 0);
    let ai = NaiveAI::new(0, 0);
    let moves = ai.generate_next_moves(&board, 30, 2).unwrap();
    assert_eq!(moves.len(), 1);
    match moves[0] {
        ActionType::Flag(p) => assert!(p == Point(0, 0) || p == Point(0, 2)),
        _ => panic!("expected a flag"),
    }
}

#[test]
fn the_player_reports_a_board_without_samples() {
    let mut board = Board::new_from_ints(3, 1, 1).unwrap();
    board.initialized = true;
    board.field[0].knowledge = KnowledgeState::Known;
    board.field[0].mined_neighbor_count = 1;
    board.field[2].knowledge = KnowledgeState::Known;
    board.field[1].knowledge = KnowledgeState::Unknown;
    let ai = NaiveAI::new(0, 0);
    let certain = NaiveAI::certain_moves(&board);
    if certain.is_empty() {
        assert_eq!(ai.generate_next_moves(&board, 3, 0).err(), Some(SolveError::SearchExhausted));
    }
}
