use itertools::Itertools;
use minesweeper::board::sample_points;
use minesweeper::board::Board;
use minesweeper::board::BoardSize;
use minesweeper::board::Cell;
use minesweeper::board::CellTest;
use minesweeper::board::Content;
use minesweeper::board::KnowledgeState;
use minesweeper::board::Point;
use minesweeper::board::MAX_AREA;

fn knowledge_states() -> [KnowledgeState; 3] {
    [KnowledgeState::Unknown, KnowledgeState::Flag, KnowledgeState::Known]
}

fn size(width: usize, height: usize) -> BoardSize {
    BoardSize::new(width, height).unwrap()
}

fn point_fits_on_board(point: &Point, board: &BoardSize) -> bool {
    point.0 < board.height && point.1 < board.width
}

fn valid_points_for_board(points: &[Point], board: &BoardSize) -> bool {
    let points_count = points.len();
    if points.iter().any(|point| !point_fits_on_board(point, board)) {
        return false;
    }
    points.iter().dedup().count() == points_count
}

fn all_distinct(points: &[Point]) -> bool {
    for i in 0..points.len() {
        for j in 0..i {
            if points[i] == points[j] {
                return false;
            }
        }
    }
    true
}

#[test]
fn toggle_flag_correctness() {
    for start_state in knowledge_states().iter() {
        let mut cell = Cell::create_empty(Point(0, 0));
        cell.knowledge = start_state.clone();
        cell.toggle_flag();
        match (start_state, cell.knowledge) {
            (KnowledgeState::Known, KnowledgeState::Known) => {}
            (KnowledgeState::Flag, KnowledgeState::Unknown) => {}
            (KnowledgeState::Unknown, KnowledgeState::Flag) => {}
            _ => panic!("got an unexpected toggle state"),
        };
    }
}

#[test]
fn knowledge_state_queries() {
    assert!(KnowledgeState::Known.is_known());
    assert!(!KnowledgeState::Flag.is_known());
    assert!(!KnowledgeState::Unknown.is_known());
    assert!(KnowledgeState::Flag.is_flag());
    assert!(!KnowledgeState::Known.is_flag());
    assert!(KnowledgeState::Unknown.is_unknown());
    assert!(!KnowledgeState::Flag.is_unknown());
}

#[test]
fn cell_queries() {
    let mut cell = Cell::create_empty(Point(2, 3));
    assert_eq!(cell.point, Point(2, 3));
    assert_eq!(cell.mined_neighbor_count, 0);
    assert!(!cell.is_assumed_mine());
    assert!(!cell.is_known_unmined());
    cell.knowledge = KnowledgeState::Flag;
    assert!(cell.is_assumed_mine());
    assert!(!cell.is_known_unmined());
    cell.knowledge = KnowledgeState::Known;
    assert!(!cell.is_assumed_mine());
    assert!(cell.is_known_unmined());
    cell.content = Content::Mine;
    assert!(cell.is_assumed_mine());
    assert!(!cell.is_known_unmined());
    cell.knowledge = KnowledgeState::Unknown;
    assert!(!cell.is_assumed_mine());
}

#[test]
fn cell_tests_answer_for_each_state() {
    let mut cell = Cell::create_empty(Point(0, 0));
    assert!(CellTest::Unknown.test(&cell));
    assert!(CellTest::Hidden.test(&cell));
    assert!(CellTest::Suspect.test(&cell));
    assert!(!CellTest::Known.test(&cell));
    assert!(!CellTest::Flag.test(&cell));
    assert!(!CellTest::AssumedMine.test(&cell));
    cell.knowledge = KnowledgeState::Flag;
    assert!(CellTest::Flag.test(&cell));
    assert!(CellTest::Hidden.test(&cell));
    assert!(CellTest::AssumedMine.test(&cell));
    assert!(!CellTest::Unknown.test(&cell));
    cell.knowledge = KnowledgeState::Known;
    assert!(CellTest::Known.test(&cell));
    assert!(!CellTest::Hidden.test(&cell));
    assert!(!CellTest::Suspect.test(&cell));
}

#[test]
fn area_correctness() {
    for width in [0usize, 1, 2, 7, 30, 999] {
        for height in [0usize, 1, 3, 8, 31, 999] {
            assert_eq!(size(width, height).area(), width * height);
        }
    }
}

#[test]
fn board_size_rejects_what_is_too_large() {
    assert!(BoardSize::new(MAX_AREA, 1).is_some());
    assert!(BoardSize::new(1, MAX_AREA).is_some());
    assert!(BoardSize::new(MAX_AREA, 2).is_none());
    assert!(BoardSize::new(MAX_AREA + 1, 1).is_none());
    assert!(BoardSize::new(usize::MAX, usize::MAX).is_none());
    assert!(BoardSize::new(usize::MAX, 0).is_some());
    assert!(BoardSize::new(0, usize::MAX).is_some());
    assert!(BoardSize::new(1 << 14, 1 << 14).is_none());
    assert!(BoardSize::new(1 << 14, (1 << 14) - 1).is_some());
}

#[test]
fn point_from_integer_correctness() {
    for width in [0usize, 1, 2, 5, 17] {
        for height in [0usize, 1, 3, 4, 11] {
            let board = size(width, height);
            for x in [0usize, 1, 2, 5, 16, 17, 33, 100, 186, 187, 1000, usize::MAX] {
                match board.point_from_integer(x) {
                    None => assert!(x >= width * height),
                    Some(point) => {
                        assert!(x < width * height);
                        assert!(point.0 == x / width && point.0 < height);
                        assert!(point.1 == x % width && point.1 < width);
                    }
                }
            }
        }
    }
}

#[test]
fn integer_from_point_numbers_rows_first() {
    let board = size(4, 3);
    assert_eq!(board.integer_from_point(&Point(0, 0)), Some(0));
    assert_eq!(board.integer_from_point(&Point(0, 3)), Some(3));
    assert_eq!(board.integer_from_point(&Point(1, 0)), Some(4));
    assert_eq!(board.integer_from_point(&Point(2, 3)), Some(11));
    for x in 0..12 {
        let point = board.point_from_integer(x).unwrap();
        assert_eq!(board.integer_from_point(&point), Some(x));
    }
}

#[test]
fn integer_from_point_wraps_the_column_and_stops_past_the_area() {
    let board = size(4, 3);
    assert_eq!(board.integer_from_point(&Point(0, 4)), Some(0));
    assert_eq!(board.integer_from_point(&Point(1, 6)), Some(6));
    assert_eq!(board.integer_from_point(&Point(3, 0)), Some(12));
    assert_eq!(board.integer_from_point(&Point(3, 1)), None);
    assert_eq!(board.integer_from_point(&Point(usize::MAX, 0)), None);
    assert_eq!(board.integer_from_point(&Point(usize::MAX, usize::MAX)), None);
    assert!(board.point_is_in_bounds(&Point(2, 3)));
    assert!(board.point_is_in_bounds(&Point(3, 0)));
    assert!(!board.point_is_in_bounds(&Point(3, 1)));
    let empty = size(0, 3);
    assert_eq!(empty.integer_from_point(&Point(0, 0)), None);
    assert!(!empty.point_is_in_bounds(&Point(0, 0)));
}

#[test]
fn test_points() {
    for width in [0usize, 1, 2, 9, 40] {
        for height in [0usize, 1, 3, 9, 25] {
            let board = size(width, height);
            let points = board.points();
            assert_eq!(points.len(), board.area());
            assert!(valid_points_for_board(&points, &board));
            assert!(all_distinct(&points));
        }
    }
}

#[test]
fn distance_to_self_is_zero() {
    for x in [0usize, 1, 17, 1 << 40, usize::MAX] {
        for y in [0usize, 2, 99, usize::MAX - 1, usize::MAX] {
            let point = Point(x, y);
            assert_eq!(point.distance(&point), 0);
            assert_eq!(point, point);
        }
    }
}

#[test]
fn distance_is_symmetric() {
    let values = [0usize, 1, 2, 5, 40, 999];
    for &x1 in &values {
        for &y1 in &values {
            for &x2 in &values {
                for &y2 in &values {
                    let point1 = Point(x1, y1);
                    let point2 = Point(x2, y2);
                    assert_eq!(point1.distance(&point2), point2.distance(&point1));
                }
            }
        }
    }
}

#[test]
fn distance_is_the_larger_gap() {
    assert_eq!(Point(0, 0).distance(&Point(3, 1)), 3);
    assert_eq!(Point(0, 0).distance(&Point(1, 4)), 4);
    assert_eq!(Point(5, 5).distance(&Point(2, 7)), 3);
    assert_eq!(Point(5, 5).distance(&Point(6, 6)), 1);
    assert_eq!(Point(0, usize::MAX).distance(&Point(usize::MAX, 0)), usize::MAX);
}

#[test]
fn test_partial_eq() {
    let values = [0usize, 1, 3, 999];
    for &x1 in &values {
        for &y1 in &values {
            for &x2 in &values {
                for &y2 in &values {
                    let point1 = Point(x1, y1);
                    let point2 = Point(x2, y2);
                    let distance = point1.distance(&point2);
                    if point1 == point2 {
                        assert_eq!(distance, 0)
                    } else {
                        assert_ne!(distance, 0)
                    }
                }
            }
        }
    }
}

fn far_cells(boardsize: &BoardSize, point: &Point, radius: usize) -> usize {
    boardsize.points().iter().filter(|p| point.distance(p) > radius).count()
}

#[test]
fn test_sample_points() {
    for (width, height) in [(0usize, 0usize), (1, 1), (3, 3), (5, 4), (9, 9), (20, 13)] {
        let boardsize = size(width, height);
        for point in [Point(0, 0), Point(2, 2), Point(4, 1), Point(50, 50)] {
            for disallowed_radius in [0usize, 1, 2, 5] {
                let room = far_cells(&boardsize, &point, disallowed_radius);
                for num_mines in [0usize, 1, 2, 10, 80, 81, 260, 10000] {
                    match sample_points(&boardsize, num_mines, &point, disallowed_radius) {
                        None => assert!(num_mines > room),
                        Some(points) => {
                            assert!(num_mines <= room);
                            assert_eq!(points.len(), num_mines);
                            assert!(valid_points_for_board(&points, &boardsize));
                            assert!(all_distinct(&points));
                            assert!(points.iter().all(|p| point.distance(p) > disallowed_radius));
                        }
                    }
                }
            }
        }
    }
}

#[test]
fn sample_points_come_in_a_random_order() {
    let boardsize = size(10, 10);
    let far = Point(1000, 1000);
    let in_order: Vec<Point> = boardsize.points().into_iter().take(30).collect();
    let mut shuffled = false;
    for _ in 0..5 {
        let points = sample_points(&boardsize, 30, &far, 0).unwrap();
        if points != in_order {
            shuffled = true;
        }
    }
    assert!(shuffled);
}

#[test]
fn test_new_from_int() {
    for width in [0usize, 1, 3, 10, 99] {
        for height in [0usize, 1, 4, 10, 99] {
            for mine_count in [0usize, 1, 9, 100, 9801, 9802, 10000] {
                match Board::new_from_ints(width, height, mine_count) {
                    None => {
                        assert!(mine_count > width * height);
                    }
                    Some(board) => {
                        assert!(mine_count <= width * height);
                        assert!(!board.initialized);
                        assert_eq!(board.mine_count, mine_count);
                        assert_eq!(board.size.width, width);
                        assert_eq!(board.size.height, height);
                        let points: Vec<Point> = board.field.iter().map(|c| c.point).collect();
                        assert_eq!(points.len(), board.size.area());
                        assert!(valid_points_for_board(&points, &board.size));
                        assert!(board.field.iter().all(|c| c.mined_neighbor_count == 0));
                        assert!(board.field.iter().all(|c| c.knowledge.is_unknown()));
                        assert!(board.field.iter().all(|c| match c.content {
                            Content::Empty => true,
                            Content::Mine => false,
                        }));
                    }
                }
            }
        }
    }
}

#[test]
fn new_from_ints_rejects_what_is_too_large() {
    assert!(Board::new_from_ints(usize::MAX, 2, 0).is_none());
    assert!(Board::new_from_ints(1 << 20, 1 << 20, 0).is_none());
}

#[test]
fn test_retrieve_cell() {
    for width in [0usize, 1, 5, 30] {
        for height in [0usize, 1, 6, 30] {
            let board = Board::new_from_ints(width, height, 0).unwrap();
            let points: Vec<Point> = board.field.iter().map(|c| c.point).collect();
            for point in points {
                let retrieved_point = board.retrieve_cell(&point).point;
                assert_eq!(point, retrieved_point);
                assert!(board.has_cell(&point));
            }
            assert!(!board.has_cell(&Point(height, 1)));
        }
    }
}

#[test]
fn test_unknown_count() {
    for width in [1usize, 2, 7, 19] {
        for height in [1usize, 3, 8, 19] {
            let mut board = Board::new_from_ints(width, height, 0).unwrap();
            let mut unknown_points = board.field.len();
            assert_eq!(board.unknown_count(), unknown_points);
            for i in 0..board.field.len() {
                board.field[i].knowledge = KnowledgeState::Known;
                unknown_points -= 1;
                assert_eq!(board.unknown_count(), unknown_points);
            }
        }
    }
}

#[test]
fn test_found_mines_and_remaining_mines() {
    for width in [1usize, 2, 7, 19] {
        for height in [1usize, 3, 8, 19] {
            let mine_count = 1;
            let mut board = Board::new_from_ints(width, height, mine_count).unwrap();
            let mut mine_count = mine_count as i32;
            let mut flagged_points = 0;
            assert_eq!(board.found_mines(), flagged_points);
            assert_eq!(board.remaining_mines(), mine_count);
            assert!(!board.is_won());
            for i in 0..board.field.len() {
                board.field[i].knowledge = KnowledgeState::Flag;
                flagged_points += 1;
                mine_count -= 1;
                assert_eq!(board.found_mines(), flagged_points);
                assert_eq!(board.remaining_mines(), mine_count);
                assert_eq!(board.is_won(), flagged_points == 1);
            }
        }
    }
}

#[test]
fn test_neighbor_methods() {
    for width in [1usize, 2, 7, 19] {
        for height in [1usize, 3, 8, 19] {
            let mine_count = 1;
            let board = Board::new_from_ints(width, height, mine_count).unwrap();
            let points: Vec<Point> = board.size.points();
            for point in points {
                let around = board.neighbor_points(&point);
                let all_distance_one =
                    around.iter().all(|neighbor| (point.distance(neighbor) == 1));
                assert!(all_distance_one);
                assert!(valid_points_for_board(&around, &board.size));
                assert!(all_distinct(&around));
                let expected = board
                    .size
                    .points()
                    .iter()
                    .filter(|other| point.distance(other) == 1)
                    .count();
                assert_eq!(around.len(), expected);
                assert_eq!(board.neighbor_cells_from_point(&point).len(), expected);
                assert_eq!(board.neighbor_cells(board.retrieve_cell(&point)).len(), expected);
            }
        }
    }
}

#[test]
fn neighbors_are_clipped_at_the_edges_of_a_board_that_is_not_square() {
    let board = Board::new_from_ints(5, 2, 0).unwrap();
    assert_eq!(
        board.neighbor_points(&Point(1, 4)),
        vec![Point(0, 3), Point(0, 4), Point(1, 3)]
    );
    assert_eq!(
        board.neighbor_points(&Point(0, 0)),
        vec![Point(0, 1), Point(1, 0), Point(1, 1)]
    );
    assert_eq!(
        board.neighbor_points(&Point(0, 2)),
        vec![Point(0, 1), Point(0, 3), Point(1, 1), Point(1, 2), Point(1, 3)]
    );
    let wide = Board::new_from_ints(3, 3, 0).unwrap();
    assert_eq!(
        wide.neighbor_points(&Point(1, 1)),
        vec![
            Point(0, 0),
            Point(0, 1),
            Point(0, 2),
            Point(1, 0),
            Point(1, 2),
            Point(2, 0),
            Point(2, 1),
            Point(2, 2)
        ]
    );
    assert_eq!(wide.neighbor_points(&Point(usize::MAX, usize::MAX)), vec![]);
    assert_eq!(wide.neighbor_points(&Point(3, 3)), vec![Point(2, 2)]);
}

#[test]
fn new_with_mines_counts_the_mines_around_each_cell() {
    let mines = [Point(0, 0), Point(1, 1)];
    let board = Board::new_with_mines(size(3, 3), &mines).unwrap();
    assert!(board.initialized);
    assert_eq!(board.mine_count, 2);
    let counts: Vec<usize> = board.field.iter().map(|c| c.mined_neighbor_count).collect();
    assert_eq!(counts, vec![1, 2, 1, 2, 1, 1, 1, 1, 1]);
    let mined: Vec<bool> = board
        .field
        .iter()
        .map(|c| match c.content {
            Content::Mine => true,
            Content::Empty => false,
        })
        .collect();
    assert_eq!(mined, vec![true, false, false, false, true, false, false, false, false]);
    assert!(board.field.iter().all(|c| c.knowledge.is_unknown()));
}

#[test]
fn new_with_mines_rejects_mines_without_a_cell_and_too_many_mines() {
    assert!(Board::new_with_mines(size(3, 3), &[Point(3, 1)]).is_none());
    assert!(Board::new_with_mines(size(3, 3), &[Point(3, 0)]).is_none());
    assert!(Board::new_with_mines(size(3, 3), &[Point(0, 0), Point(9, 9)]).is_none());
    assert!(Board::new_with_mines(size(1, 1), &[Point(0, 0), Point(0, 0)]).is_none());
    assert!(Board::new_with_mines(size(0, 0), &[]).is_some());
    assert!(Board::new_with_mines(size(2, 2), &[Point(1, 1)]).is_some());
}

#[test]
fn initialize_with_mines_lays_them_one_after_the_other() {
    let mut board = Board::new_from_ints(3, 3, 3).unwrap();
    board.initialize_with_mines(&[Point(0, 0), Point(2, 2)]);
    assert!(board.initialized);
    let counts: Vec<usize> = board.field.iter().map(|c| c.mined_neighbor_count).collect();
    assert_eq!(counts, vec![0, 1, 0, 1, 2, 1, 0, 1, 0]);
    board.set_point_as_mined(&Point(0, 2));
    let counts: Vec<usize> = board.field.iter().map(|c| c.mined_neighbor_count).collect();
    assert_eq!(counts, vec![0, 2, 0, 1, 3, 2, 0, 1, 0]);
}

#[test]
fn unknown_and_border_points() {
    let mut board = Board::new_with_mines(size(3, 3), &[Point(0, 0)]).unwrap();
    assert_eq!(board.get_unknown_points().len(), 9);
    assert_eq!(board.get_border_points(), vec![]);
    board.field[8].knowledge = KnowledgeState::Known;
    assert_eq!(board.get_unknown_points().len(), 8);
    assert_eq!(board.get_border_points(), vec![Point(1, 1), Point(1, 2), Point(2, 1)]);
    board.field[4].knowledge = KnowledgeState::Flag;
    assert_eq!(board.get_border_points(), vec![Point(1, 2), Point(2, 1)]);
    assert_eq!(board.get_unknown_points().len(), 7);
    assert_eq!(board.unknown_count(), 8);
    assert!(board.has_known_neighbors(&Point(1, 1)));
    assert!(!board.has_known_neighbors(&Point(0, 0)));
    assert!(board.has_unknown_neighbors(&Point(2, 2)));
    assert_eq!(board.count_known_neighbors(&Point(1, 2)), 1);
    assert_eq!(board.count_flagged_neighbors(&Point(2, 2)), 1);
    assert_eq!(board.count_unknown_neighbors(&Point(2, 2)), 2);
    assert_eq!(board.count_assumed_mined_neighbors(&Point(2, 2)), 1);
    assert_eq!(board.unknown_neighbors(&Point(2, 2)), vec![Point(1, 2), Point(2, 1)]);
}

#[test]
fn flaggable_and_safe_neighbors() {
    let mut board = Board::new_with_mines(size(3, 3), &[Point(0, 0)]).unwrap();
    for i in 1..9 {
        board.field[i].knowledge = KnowledgeState::Known;
    }
    assert_eq!(board.known_flaggable_neighbors(&Point(1, 1)), vec![Point(0, 0)]);
    assert_eq!(board.known_flaggable_neighbors(&Point(0, 1)), vec![Point(0, 0)]);
    assert_eq!(board.known_flaggable_neighbors(&Point(2, 2)), vec![]);
    assert_eq!(board.known_safe_neighbors(&Point(1, 1)), vec![]);
    assert_eq!(board.known_safe_neighbors(&Point(2, 2)), vec![]);
    board.field[0].knowledge = KnowledgeState::Flag;
    board.field[8].knowledge = KnowledgeState::Unknown;
    assert_eq!(board.known_safe_neighbors(&Point(1, 1)), vec![Point(2, 2)]);
    assert_eq!(board.known_flaggable_neighbors(&Point(1, 1)), vec![]);
    assert_eq!(board.known_flaggable_neighbors(&Point(1, 2)), vec![]);
    assert_eq!(board.known_safe_neighbors(&Point(1, 2)), vec![Point(2, 2)]);
}

#[test]
fn board_toggle_flag_changes_one_cell() {
    let mut board = Board::new_from_ints(3, 2, 1).unwrap();
    board.toggle_flag(&Point(1, 2));
    assert!(board.retrieve_cell(&Point(1, 2)).knowledge.is_flag());
    let flags = board.field.iter().filter(|c| c.knowledge.is_flag()).count();
    assert_eq!(flags, 1);
    assert!(board.is_won());
    board.toggle_flag(&Point(1, 2));
    assert!(board.retrieve_cell(&Point(1, 2)).knowledge.is_unknown());
    board.field[5].knowledge = KnowledgeState::Known;
    board.toggle_flag(&Point(1, 2));
    assert!(board.retrieve_cell(&Point(1, 2)).knowledge.is_known());
}

#[test]
fn flag_neighbors_flags_what_must_be_mined() {
    let mut board = Board::new_with_mines(size(3, 3), &[Point(0, 0), Point(0, 1)]).unwrap();
    for i in 2..9 {
        board.field[i].knowledge = KnowledgeState::Known;
    }
    board.flag_neighbors(&Point(1, 1));
    assert!(board.retrieve_cell(&Point(0, 0)).knowledge.is_flag());
    assert!(board.retrieve_cell(&Point(0, 1)).knowledge.is_flag());
    assert_eq!(board.field.iter().filter(|c| c.knowledge.is_flag()).count(), 2);
    assert!(board.is_won());

    let mut other = Board::new_with_mines(size(3, 3), &[Point(0, 0)]).unwrap();
    other.field[4].knowledge = KnowledgeState::Known;
    other.flag_neighbors(&Point(1, 1));
    assert_eq!(other.field.iter().filter(|c| c.knowledge.is_flag()).count(), 0);
}

#[test]
fn has_room_counts_the_cells_beyond_two_steps() {
    let board = Board::new_from_ints(5, 5, 0).unwrap();
    assert!(board.has_room(&Point(2, 2)));
    let board = Board::new_from_ints(5, 5, 1).unwrap();
    assert!(!board.has_room(&Point(2, 2)));
    assert!(board.has_room(&Point(0, 0)));
    let board = Board::new_from_ints(5, 5, 16).unwrap();
    assert!(board.has_room(&Point(0, 0)));
    let board = Board::new_from_ints(5, 5, 17).unwrap();
    assert!(!board.has_room(&Point(0, 0)));
}
