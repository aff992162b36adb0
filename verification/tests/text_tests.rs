use minesweeper::board::Board;
use minesweeper::board::BoardSize;
use minesweeper::board::Cell;
use minesweeper::board::Content;
use minesweeper::board::KnowledgeState;
use minesweeper::board::Point;
use minesweeper::interaction::parse_number;
use minesweeper::text::number_text;

#[test]
fn numbers_are_written_in_base_ten() {
    assert_eq!(number_text(0), "0");
    assert_eq!(number_text(7), "7");
    assert_eq!(number_text(10), "10");
    assert_eq!(number_text(409), "409");
    assert_eq!(number_text(1234567890), "1234567890");
    assert_eq!(number_text(usize::MAX), usize::MAX.to_string());
    for n in [0usize, 5, 9, 10, 11, 99, 100, 101, 65535, 1 << 40] {
        assert_eq!(number_text(n), n.to_string());
        assert_eq!(parse_number(&number_text(n)), Some(n));
    }
}

#[test]
fn a_point_is_written_with_its_row_and_column() {
    assert_eq!(Point(0, 0).to_text(), "Point(0,0)");
    assert_eq!(Point(3, 12).to_text(), "Point(3,12)");
    assert_eq!(Point(100, 7).to_text(), "Point(100,7)");
}

#[test]
fn a_cell_is_written_as_its_sign() {
    let mut cell = Cell::create_empty(Point(0, 0));
    assert_eq!(cell.to_str(), "□");
    cell.knowledge = KnowledgeState::Flag;
    assert_eq!(cell.to_str(), "▶");
    cell.content = Content::Mine;
    assert_eq!(cell.to_str(), "▶");
    cell.knowledge = KnowledgeState::Unknown;
    assert_eq!(cell.to_str(), "□");
    cell.knowledge = KnowledgeState::Known;
    assert_eq!(cell.to_str(), "X");
    cell.content = Content::Empty;
    assert_eq!(cell.to_str(), "_");
    cell.mined_neighbor_count = 3;
    assert_eq!(cell.to_str(), "3");
    cell.mined_neighbor_count = 12;
    assert_eq!(cell.to_str(), "12");
}

#[test]
fn a_board_is_written_row_by_row() {
    let size = BoardSize::new(3, 2).unwrap();
    let mut board = Board::new_with_mines(size, &[Point(0, 0)]).unwrap();
    assert_eq!(board.to_text(), "  012\n0 □□□\n1 □□□\n");
    board.probe(&Point(1, 2));
    assert_eq!(board.to_text(), "  012\n0 □1_\n1 □1_\n");
    board.toggle_flag(&Point(0, 0));
    assert_eq!(board.to_text(), "  012\n0 ▶1_\n1 □1_\n");
    board.probe(&Point(1, 0));
    assert_eq!(board.to_text(), "  012\n0 ▶1_\n1 11_\n");
    let mut lost = Board::new_with_mines(size, &[Point(1, 1)]).unwrap();
    lost.probe(&Point(1, 1));
    assert_eq!(lost.to_text(), "  012\n0 □□□\n1 □X□\n");
}

#[test]
fn a_board_without_cells_is_written_as_its_head() {
    let empty = Board::new_from_ints(0, 0, 0).unwrap();
    assert_eq!(empty.to_text(), "  \n");
    let flat = Board::new_from_ints(2, 0, 0).unwrap();
    assert_eq!(flat.to_text(), "  01\n");
    let thin = Board::new_from_ints(0, 2, 0).unwrap();
    assert_eq!(thin.to_text(), "  \n0 \n1 \n");
    let wide = Board::new_from_ints(11, 1, 0).unwrap();
    assert_eq!(wide.to_text(), "  012345678910\n0 □□□□□□□□□□□\n");
}
