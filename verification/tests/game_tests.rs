use minesweeper::board::Board;
use minesweeper::board::BoardSize;
use minesweeper::board::Content;
use minesweeper::board::KnowledgeState;
use minesweeper::board::Point;
use minesweeper::can_play;
use minesweeper::play;
use minesweeper::ActionType;

fn board_with(width: usize, height: usize, mines: &[Point]) -> Board {
    Board::new_with_mines(BoardSize::new(width, height).unwrap(), mines).unwrap()
}

fn known(board: &Board) -> Vec<Point> {
    board.field.iter().filter(|c| c.knowledge.is_known()).map(|c| c.point).collect()
}

fn mines_of(board: &Board) -> Vec<Point> {
    board
        .field
        .iter()
        .filter(|c| match c.content {
            Content::Mine => true,
            Content::Empty => false,
        })
        .map(|c| c.point)
        .collect()
}

#[test]
fn a_click_on_an_empty_region_reveals_it_with_its_rim() {
    let mut board = board_with(3, 3, &[Point(0, 0)]);
    assert_eq!(board.probe(&Point(2, 2)), 0);
    assert_eq!(known(&board).len(), 8);
    assert!(board.retrieve_cell(&Point(0, 0)).knowledge.is_unknown());
    assert!(!board.is_won());
    board.toggle_flag(&Point(0, 0));
    assert!(board.is_won());
}

#[test]
fn a_click_next_to_a_mine_reveals_one_cell() {
    let mut board = board_with(4, 4, &[Point(0, 0)]);
    assert_eq!(board.probe(&Point(1, 1)), 0);
    assert_eq!(known(&board), vec![Point(1, 1)]);
    assert_eq!(board.probe(&Point(1, 1)), 0);
    assert_eq!(known(&board), vec![Point(1, 1)]);
}

#[test]
fn a_click_on_a_mine_is_a_hit() {
    let mut board = board_with(4, 4, &[Point(0, 0), Point(3, 3)]);
    assert_eq!(board.probe(&Point(0, 0)), 1);
    assert_eq!(known(&board), vec![Point(0, 0)]);
    assert_eq!(board.probe(&Point(0, 0)), 1);
    assert_eq!(board.found_mines(), 1);
}

#[test]
fn a_click_on_a_flag_reveals_nothing_there() {
    let mut board = board_with(4, 4, &[Point(0, 0)]);
    board.toggle_flag(&Point(0, 0));
    assert_eq!(board.probe(&Point(0, 0)), 0);
    assert!(board.retrieve_cell(&Point(0, 0)).knowledge.is_flag());
    assert_eq!(known(&board).len(), 0);
}

#[test]
fn the_region_stops_at_numbers_and_goes_round_them() {
    let mut board = board_with(5, 5, &[Point(2, 2)]);
    assert_eq!(board.probe(&Point(0, 0)), 0);
    let revealed = known(&board);
    assert_eq!(revealed.len(), 24);
    assert!(!revealed.contains(&Point(2, 2)));

    let mut wall = board_with(5, 3, &[Point(0, 2), Point(1, 2), Point(2, 2)]);
    assert_eq!(wall.probe(&Point(0, 0)), 0);
    assert_eq!(
        known(&wall),
        vec![Point(0, 0), Point(0, 1), Point(1, 0), Point(1, 1), Point(2, 0), Point(2, 1)]
    );
}

#[test]
fn the_region_mask_marks_what_a_click_reveals() {
    let board = board_with(5, 3, &[Point(0, 2), Point(1, 2), Point(2, 2)]);
    let mask = board.region_mask(&Point(0, 0));
    let marked: Vec<usize> = (0..mask.len()).filter(|&i| mask[i]).collect();
    assert_eq!(marked, vec![0, 1, 5, 6, 10, 11]);
    let mask = board.region_mask(&Point(0, 1));
    let marked: Vec<usize> = (0..mask.len()).filter(|&i| mask[i]).collect();
    assert_eq!(marked, vec![1]);
    let mask = board.region_mask(&Point(1, 4));
    let marked: Vec<usize> = (0..mask.len()).filter(|&i| mask[i]).collect();
    assert_eq!(marked, vec![3, 4, 8, 9, 13, 14]);
}

#[test]
fn a_click_through_a_flagged_empty_cell_goes_on() {
    let mut board = board_with(5, 1, &[Point(0, 4)]);
    board.toggle_flag(&Point(0, 1));
    assert_eq!(board.probe(&Point(0, 0)), 0);
    assert_eq!(known(&board), vec![Point(0, 0), Point(0, 2), Point(0, 3)]);
    assert!(board.retrieve_cell(&Point(0, 1)).knowledge.is_flag());
}

#[test]
fn reveal_from_is_the_click_after_the_mines_are_laid() {
    let mut one = board_with(6, 6, &[Point(0, 0), Point(5, 5), Point(2, 3)]);
    let mut two = board_with(6, 6, &[Point(0, 0), Point(5, 5), Point(2, 3)]);
    assert_eq!(one.probe(&Point(5, 0)), two.reveal_from(&Point(5, 0)));
    assert_eq!(known(&one), known(&two));
    assert!(known(&one).len() > 10);
}

#[test]
fn the_first_click_lays_the_mines_clear_of_it() {
    for _ in 0..10 {
        let mut board = Board::new_from_ints(9, 9, 10).unwrap();
        assert!(board.has_room(&Point(4, 4)));
        assert_eq!(board.probe(&Point(4, 4)), 0);
        assert!(board.initialized);
        let mines = mines_of(&board);
        assert_eq!(mines.len(), 10);
        assert!(mines.iter().all(|m| Point(4, 4).distance(m) > 2));
        assert!(known(&board).len() >= 25);
        assert!(known(&board).iter().all(|p| !mines.contains(p)));
        for cell in &board.field {
            let around = board
                .neighbor_points(&cell.point)
                .iter()
                .filter(|q| mines.contains(q))
                .count();
            assert_eq!(cell.mined_neighbor_count, around);
        }
    }
}

#[test]
fn the_mines_of_two_games_differ() {
    let mut layouts: Vec<Vec<Point>> = Vec::new();
    for _ in 0..6 {
        let mut board = Board::new_from_ints(9, 9, 10).unwrap();
        board.initialize_from_point(&Point(0, 0));
        assert!(board.initialized);
        let mines = mines_of(&board);
        assert_eq!(mines.len(), 10);
        if !layouts.contains(&mines) {
            layouts.push(mines);
        }
    }
    assert!(layouts.len() > 1);
}

#[test]
fn a_chord_clicks_round_a_cell_whose_mines_are_marked() {
    let mut board = board_with(3, 3, &[Point(0, 0)]);
    board.field[4].knowledge = KnowledgeState::Known;
    assert_eq!(board.chord(&Point(1, 1)), 0);
    assert_eq!(known(&board), vec![Point(1, 1)]);
    board.toggle_flag(&Point(0, 0));
    assert_eq!(board.chord(&Point(1, 1)), 0);
    assert_eq!(known(&board).len(), 8);
    assert!(board.retrieve_cell(&Point(0, 0)).knowledge.is_flag());
}

#[test]
fn a_chord_round_a_wrong_flag_hits_the_mine() {
    let mut board = board_with(3, 3, &[Point(0, 0)]);
    board.field[4].knowledge = KnowledgeState::Known;
    board.toggle_flag(&Point(2, 2));
    assert_eq!(board.chord(&Point(1, 1)), 1);
    assert!(board.retrieve_cell(&Point(0, 0)).knowledge.is_known());
    assert!(board.retrieve_cell(&Point(2, 2)).knowledge.is_flag());
}

#[test]
fn a_chord_on_a_hidden_cell_does_nothing() {
    let mut board = board_with(3, 3, &[Point(0, 0)]);
    assert_eq!(board.chord(&Point(1, 1)), 0);
    assert_eq!(known(&board).len(), 0);
    let mut fresh = Board::new_from_ints(9, 9, 10).unwrap();
    assert_eq!(fresh.chord(&Point(4, 4)), 0);
    assert!(!fresh.initialized);
}

#[test]
fn moves_are_played_on_the_board() {
    let mut board = board_with(3, 3, &[Point(0, 0)]);
    assert!(can_play(&board, &ActionType::Click(Point(2, 2))));
    assert_eq!(play(&mut board, &ActionType::Click(Point(2, 2))), 0);
    assert_eq!(known(&board).len(), 8);
    assert_eq!(play(&mut board, &ActionType::Complete(Point(1, 1))), 0);
    assert!(board.retrieve_cell(&Point(0, 0)).knowledge.is_flag());
    assert!(board.is_won());
    assert_eq!(play(&mut board, &ActionType::Flag(Point(0, 0))), 0);
    assert!(board.retrieve_cell(&Point(0, 0)).knowledge.is_unknown());
    assert_eq!(play(&mut board, &ActionType::Chord(Point(1, 1))), 0);
    assert_eq!(known(&board).len(), 8);
    assert_eq!(play(&mut board, &ActionType::Click(Point(0, 0))), 1);
}

#[test]
fn moves_off_the_board_cannot_be_played() {
    let board = board_with(3, 3, &[Point(0, 0)]);
    assert!(!can_play(&board, &ActionType::Click(Point(3, 1))));
    assert!(!can_play(&board, &ActionType::Flag(Point(9, 9))));
    assert!(can_play(&board, &ActionType::Flag(Point(2, 2))));
    assert!(can_play(&board, &ActionType::Chord(Point(0, 0))));
    assert!(can_play(&board, &ActionType::Complete(Point(1, 2))));
}

#[test]
fn a_first_click_needs_room_for_the_mines() {
    let crowded = Board::new_from_ints(5, 5, 20).unwrap();
    assert!(!can_play(&crowded, &ActionType::Click(Point(2, 2))));
    assert!(!can_play(&crowded, &ActionType::Click(Point(0, 0))));
    assert!(can_play(&crowded, &ActionType::Chord(Point(0, 0))));
    assert!(can_play(&crowded, &ActionType::Flag(Point(0, 0))));
    assert!(can_play(&crowded, &ActionType::Complete(Point(0, 0))));
    let roomy = Board::new_from_ints(5, 5, 4).unwrap();
    assert!(!can_play(&roomy, &ActionType::Click(Point(2, 2))));
    assert!(can_play(&roomy, &ActionType::Click(Point(0, 0))));
    assert!(can_play(&roomy, &ActionType::Click(Point(4, 2))));
    assert!(can_play(&roomy, &ActionType::Chord(Point(1, 1))));
    let mut marked = Board::new_from_ints(5, 5, 4).unwrap();
    marked.field[6].knowledge = KnowledgeState::Known;
    assert!(!can_play(&marked, &ActionType::Chord(Point(1, 1))));
    marked.field[24].knowledge = KnowledgeState::Known;
    assert!(can_play(&marked, &ActionType::Chord(Point(4, 4))));
    let wide = Board::new_from_ints(9, 9, 10).unwrap();
    assert!(can_play(&wide, &ActionType::Chord(Point(4, 4))));
}

#[test]
fn a_click_reveals_a_large_empty_board() {
    let mut board = board_with(400, 400, &[Point(399, 399)]);
    assert_eq!(board.probe(&Point(0, 0)), 0);
    assert_eq!(known(&board).len(), 400 * 400 - 1);
    assert!(board.retrieve_cell(&Point(399, 399)).knowledge.is_unknown());
}

#[test]
fn a_click_past_the_last_column_goes_to_the_cell_that_its_number_names() {
    let mut board = board_with(3, 3, &[Point(2, 2)]);
    assert!(board.has_cell(&Point(0, 4)));
    assert_eq!(board.probe(&Point(0, 4)), 0);
    assert!(board.retrieve_cell(&Point(0, 1)).knowledge.is_known());
    assert_eq!(known(&board), vec![Point(0, 1)]);
    let mut other = board_with(3, 3, &[Point(0, 0)]);
    assert_eq!(other.probe(&Point(0, 3)), 1);
    assert_eq!(known(&other), vec![Point(0, 0)]);
    let mut third = board_with(3, 3, &[Point(2, 2)]);
    assert_eq!(third.probe(&Point(0, 3)), 0);
    assert_eq!(known(&third).len(), 8);
    assert!(third.retrieve_cell(&Point(2, 2)).knowledge.is_unknown());
}
