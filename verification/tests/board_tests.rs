use reversi_game::Board;
use reversi_game::Color;
use reversi_game::Field;
use reversi_game::GameStatus;

#[test]
fn initialize_board() {
    let board = Board::new();
    assert_eq!(board.get(Field(3, 3)), Some(Color::White));
    assert_eq!(board.get(Field(3, 4)), Some(Color::Black));
    assert_eq!(board.get(Field(4, 6)), None);
}

#[test]
fn empty_board() {
    let board = Board::empty();
    for x in 0..8 {
        for y in 0..8 {
            assert_eq!(board.get(Field(x, y)), None);
        }
    }
}

#[test]
fn move_validity() {
    let mut board = Board::new();
    board.add_piece_unchecked(Field(2, 4), Color::White);

    let valid = board.move_validity(Field(3, 5), Color::White);
    assert!(valid.unwrap().contains(&Field(3, 4)));
}

#[test]
fn valid_moves() {
    let board = Board::new();
    assert_eq!(
        board.valid_moves(Color::White),
        vec![Field(2, 4), Field(3, 5), Field(4, 2), Field(5, 3)]
    );
}

#[test]
fn board_status() {
    let mut board = Board::new();
    board.add_piece_unchecked(Field(2, 4), Color::White);
    board.add_piece_unchecked(Field(3, 5), Color::Black);

    assert_eq!(board.status(), GameStatus::InProgress);
}

#[test]
fn new_board_counts_and_status() {
    let board = Board::new();
    assert_eq!(board.count_pieces(Color::White), 2);
    assert_eq!(board.count_pieces(Color::Black), 2);
    assert_eq!(board.get(Field(4, 4)), Some(Color::White));
    assert_eq!(board.get(Field(4, 3)), Some(Color::Black));
    assert_eq!(board.status(), GameStatus::InProgress);
}

#[test]
fn capture_changes_counts() {
    let mut board = Board::new();
    assert_eq!(board.count_pieces(Color::Black), 2);
    board.add_piece(Field(2, 4), Color::White).unwrap();
    assert_eq!(board.count_pieces(Color::Black), 1);
    assert_eq!(board.count_pieces(Color::White), 4);
}

#[test]
fn turn_follows_parity() {
    let mut board = Board::new();
    assert_eq!(board.turn(), Color::White);
    board.add_piece(Field(2, 4), Color::White).unwrap();
    assert_eq!(board.turn(), Color::Black);
}

#[test]
fn flip_toggles_and_keeps_empty() {
    let mut board = Board::new();
    board.flip(Field(3, 3));
    assert_eq!(board.get(Field(3, 3)), Some(Color::Black));
    board.flip(Field(3, 3));
    assert_eq!(board.get(Field(3, 3)), Some(Color::White));
    board.flip(Field(0, 0));
    assert_eq!(board.get(Field(0, 0)), None);
}

#[test]
fn neighbors_of_corner_and_center() {
    let corner = Field(0, 0).neighbors();
    assert_eq!(corner.len(), 3);
    assert!(corner.contains(&Field(0, 1)));
    assert!(corner.contains(&Field(1, 0)));
    assert!(corner.contains(&Field(1, 1)));
    assert!(!corner.contains(&Field(0, 0)));

    let center = Field(3, 3).neighbors();
    assert_eq!(center.len(), 8);
    assert!(!center.contains(&Field(3, 3)));
}

#[test]
fn all_fields_enumeration() {
    let fields = Field::all();
    assert_eq!(fields.len(), 64);
    assert_eq!(fields[0], Field(0, 0));
    assert_eq!(fields[1], Field(0, 1));
    assert_eq!(fields[8], Field(1, 0));
    assert_eq!(fields[63], Field(7, 7));
    for f in &fields {
        assert!(f.in_bounds());
    }
}

#[test]
fn sort_groups_pieces_for_display() {
    let mut board = Board::new();
    board.sort();
    assert_eq!(board.get(Field(7, 7)), Some(Color::White));
    assert_eq!(board.get(Field(6, 7)), Some(Color::White));
    assert_eq!(board.get(Field(0, 0)), Some(Color::Black));
    assert_eq!(board.get(Field(1, 0)), Some(Color::Black));
    assert_eq!(board.get(Field(5, 7)), None);
    assert_eq!(board.get(Field(2, 0)), None);
    assert_eq!(board.count_pieces(Color::White), 2);
    assert_eq!(board.count_pieces(Color::Black), 2);
}

#[test]
fn default_board_is_starting_position() {
    let board: Board = Default::default();
    assert_eq!(board, Board::new());
}
