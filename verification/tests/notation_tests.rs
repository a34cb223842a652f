use reversi_game::Board;
use reversi_game::Color;
use reversi_game::Field;
use reversi_game::PlaceError;

#[test]
fn notation_round_trips_for_all_fields() {
    for x in 0..8 {
        for y in 0..8 {
            let field = Field(x, y);
            let text = field.to_string();
            assert_eq!(Field::from_str(&text), Ok(field));
        }
    }
}

#[test]
fn notation_fixes_the_axis_convention() {
    assert_eq!(Field(3, 3).to_string(), "d5");
    assert_eq!(Field(0, 0).to_string(), "a8");
    assert_eq!(Field(7, 7).to_string(), "h1");
    assert_eq!(Field::from_str("a8"), Ok(Field(0, 0)));
    assert_eq!(Field::from_str("h1"), Ok(Field(7, 7)));
    assert_eq!(Field::from_str("c4"), Ok(Field(2, 4)));
}

#[test]
fn malformed_notation_is_classified() {
    assert_eq!(Field::from_str(""), Err(PlaceError::InvalidLength));
    assert_eq!(Field::from_str("a"), Err(PlaceError::InvalidLength));
    assert_eq!(Field::from_str("a8x"), Err(PlaceError::InvalidLength));
    assert_eq!(Field::from_str("ax"), Err(PlaceError::InvalidNumber));
    assert_eq!(Field::from_str("axx"), Err(PlaceError::InvalidNumber));
    assert_eq!(Field::from_str("i5"), Err(PlaceError::OutOfBounds));
    assert_eq!(Field::from_str("a0"), Err(PlaceError::OutOfBounds));
    assert_eq!(Field::from_str("a9"), Err(PlaceError::OutOfBounds));
}

#[test]
fn board_move_indexes_the_legal_moves() {
    let board = Board::new();
    let moves = board.valid_moves(Color::White);
    assert_eq!(Field::from_board_move("0", &board), Ok(moves[0]));
    assert_eq!(Field::from_board_move("+1", &board), Ok(moves[1]));
    assert_eq!(Field::from_board_move("3", &board), Ok(moves[3]));
    assert_eq!(
        Field::from_board_move("4", &board),
        Err(PlaceError::OutOfBounds)
    );
    assert_eq!(
        Field::from_board_move("99", &board),
        Err(PlaceError::OutOfBounds)
    );
    assert_eq!(
        Field::from_board_move("abc", &board),
        Err(PlaceError::InvalidNumber)
    );
    assert_eq!(
        Field::from_board_move("", &board),
        Err(PlaceError::InvalidNumber)
    );
    assert_eq!(
        Field::from_board_move("+", &board),
        Err(PlaceError::InvalidNumber)
    );
    assert_eq!(
        Field::from_board_move("18446744073709551616", &board),
        Err(PlaceError::InvalidNumber)
    );
}

#[test]
fn error_messages_name_the_failure() {
    assert_eq!(PlaceError::InvalidLength.message(), "Invalid length");
    assert_eq!(PlaceError::InvalidNumber.message(), "Invalid number");
    assert_eq!(PlaceError::Occupied.message(), "Field is already occupied");
    assert_eq!(PlaceError::OutOfBounds.message(), "Field is out of bounds");
    assert_eq!(
        PlaceError::CapturesNone.message(),
        "Field captures no pieces"
    );
}
