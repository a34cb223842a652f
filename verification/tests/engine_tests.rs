use reversi_game::Board;
use reversi_game::Color;
use reversi_game::Field;
use reversi_game::GameStatus;
use reversi_game::MinimaxBot;
use reversi_game::MinimaxStrategy;
use reversi_game::PlaceError;

#[test]
fn out_of_bounds_is_reported_for_both_colors() {
    let board = Board::new();
    assert_eq!(
        board.move_validity(Field(8, 0), Color::White),
        Err(PlaceError::OutOfBounds)
    );
    assert_eq!(
        board.move_validity(Field(8, 0), Color::Black),
        Err(PlaceError::OutOfBounds)
    );
    assert_eq!(
        board.move_validity(Field(3, 8), Color::White),
        Err(PlaceError::OutOfBounds)
    );
    assert_eq!(
        board.move_validity(Field(100, 100), Color::Black),
        Err(PlaceError::OutOfBounds)
    );
}

#[test]
fn occupied_is_reported() {
    let board = Board::new();
    assert_eq!(
        board.move_validity(Field(3, 3), Color::White),
        Err(PlaceError::Occupied)
    );
    assert_eq!(
        board.move_validity(Field(4, 3), Color::Black),
        Err(PlaceError::Occupied)
    );
}

#[test]
fn captureless_move_is_reported() {
    let board = Board::new();
    assert_eq!(
        board.move_validity(Field(0, 0), Color::White),
        Err(PlaceError::CapturesNone)
    );
    assert_eq!(
        board.move_validity(Field(2, 4), Color::Black),
        Err(PlaceError::CapturesNone)
    );
}

#[test]
fn failed_moves_leave_the_board_unchanged() {
    let reference = Board::new();
    let mut board = Board::new();
    assert!(board.add_piece(Field(8, 8), Color::White).is_err());
    assert_eq!(board, reference);
    assert!(board.add_piece(Field(3, 3), Color::White).is_err());
    assert_eq!(board, reference);
    assert!(board.add_piece(Field(0, 0), Color::White).is_err());
    assert_eq!(board, reference);
}

#[test]
fn captures_contain_no_duplicates() {
    // A target that captures along two lines at once: both captured
    // pieces are listed, each once.
    let mut board = Board::empty();
    board.add_piece_unchecked(Field(2, 4), Color::White);
    board.add_piece_unchecked(Field(3, 4), Color::Black);
    board.add_piece_unchecked(Field(4, 2), Color::White);
    board.add_piece_unchecked(Field(4, 3), Color::Black);
    let captures = board.move_validity(Field(4, 4), Color::White).unwrap();
    assert_eq!(captures.len(), 2);
    assert!(captures.contains(&Field(3, 4)));
    assert!(captures.contains(&Field(4, 3)));

    for start_move in Board::new().valid_moves(Color::White) {
        let captures = Board::new().move_validity(start_move, Color::White).unwrap();
        for piece in &captures {
            assert_eq!(captures.iter().filter(|other| *other == piece).count(), 1);
        }
    }
}

#[test]
fn capture_lines_run_in_ascending_order() {
    // Anchor on the left, target on the right.
    let mut board = Board::empty();
    board.add_piece_unchecked(Field(0, 0), Color::White);
    board.add_piece_unchecked(Field(1, 0), Color::Black);
    board.add_piece_unchecked(Field(2, 0), Color::Black);
    let captures = board.move_validity(Field(3, 0), Color::White).unwrap();
    assert_eq!(captures, vec![Field(1, 0), Field(2, 0)]);

    // Anchor on the right, target on the left: the same ascending list.
    let mut board = Board::empty();
    board.add_piece_unchecked(Field(3, 0), Color::White);
    board.add_piece_unchecked(Field(1, 0), Color::Black);
    board.add_piece_unchecked(Field(2, 0), Color::Black);
    let captures = board.move_validity(Field(0, 0), Color::White).unwrap();
    assert_eq!(captures, vec![Field(1, 0), Field(2, 0)]);

    // A vertical line ascends by `y`.
    let mut board = Board::empty();
    board.add_piece_unchecked(Field(0, 0), Color::White);
    board.add_piece_unchecked(Field(0, 1), Color::Black);
    board.add_piece_unchecked(Field(0, 2), Color::Black);
    let captures = board.move_validity(Field(0, 3), Color::White).unwrap();
    assert_eq!(captures, vec![Field(0, 1), Field(0, 2)]);

    // A rising diagonal still ascends by `x`, though `y` descends.
    let mut board = Board::empty();
    board.add_piece_unchecked(Field(3, 0), Color::White);
    board.add_piece_unchecked(Field(1, 2), Color::Black);
    board.add_piece_unchecked(Field(2, 1), Color::Black);
    let captures = board.move_validity(Field(0, 3), Color::White).unwrap();
    assert_eq!(captures, vec![Field(1, 2), Field(2, 1)]);
}

#[test]
fn white_opening_move_flips_one_piece() {
    let mut board = Board::new();
    let field = Field::from_str("c4").unwrap();
    assert_eq!(field, Field(2, 4));
    let captures = board.add_piece(field, Color::White).unwrap();
    assert_eq!(captures, vec![Field(3, 4)]);
    assert_eq!(board.get(Field(3, 4)), Some(Color::White));
    assert_eq!(board.get(Field(2, 4)), Some(Color::White));
}

#[test]
fn black_replies_after_the_opening() {
    let mut board = Board::new();
    board.add_piece(Field(2, 4), Color::White).unwrap();
    assert_eq!(
        board.valid_moves(Color::Black),
        vec![Field(2, 3), Field(2, 5), Field(4, 5)]
    );
    let captures = board.add_piece(Field(2, 3), Color::Black).unwrap();
    assert_eq!(captures, vec![Field(3, 3)]);
    assert_eq!(board.count_pieces(Color::White), 3);
    assert_eq!(board.count_pieces(Color::Black), 3);
    assert_eq!(board.status(), GameStatus::InProgress);
}

#[test]
fn double_pass_scores_the_material_leader() {
    // Not full, both colors present, no legal move for either side,
    // White ahead on material: the double-pass rule ends the game.
    let mut board = Board::empty();
    board.add_piece_unchecked(Field(0, 0), Color::White);
    board.add_piece_unchecked(Field(1, 0), Color::White);
    board.add_piece_unchecked(Field(7, 7), Color::Black);
    assert!(board.valid_moves(Color::White).is_empty());
    assert!(board.valid_moves(Color::Black).is_empty());
    assert_eq!(board.status(), GameStatus::Win(Color::White));
}

#[test]
fn vanished_color_loses_immediately() {
    let mut board = Board::empty();
    board.add_piece_unchecked(Field(0, 0), Color::White);
    assert_eq!(board.status(), GameStatus::Win(Color::White));

    let mut board = Board::empty();
    board.add_piece_unchecked(Field(0, 0), Color::Black);
    board.add_piece_unchecked(Field(1, 0), Color::Black);
    assert_eq!(board.status(), GameStatus::Win(Color::Black));
}

#[test]
fn full_board_is_scored_by_count() {
    let mut board = Board::empty();
    for x in 0..8 {
        for y in 0..8 {
            let color = if x < 4 { Color::White } else { Color::Black };
            board.add_piece_unchecked(Field(x, y), color);
        }
    }
    assert_eq!(board.status(), GameStatus::Draw);
    board.add_piece_unchecked(Field(4, 0), Color::White);
    assert_eq!(board.status(), GameStatus::Win(Color::White));
}

#[test]
fn eval_matches_material_and_outcomes() {
    let bot = MinimaxBot::new(Color::White, 1);
    let board = Board::new();
    assert_eq!(bot.eval(&board), 0);

    let mut ahead = Board::new();
    ahead.add_piece(Field(2, 4), Color::White).unwrap();
    assert_eq!(bot.eval(&ahead), 3);

    let mut white_won = Board::empty();
    white_won.add_piece_unchecked(Field(0, 0), Color::White);
    assert_eq!(bot.eval(&white_won), i32::MAX);

    let mut black_won = Board::empty();
    black_won.add_piece_unchecked(Field(0, 0), Color::Black);
    assert_eq!(bot.eval(&black_won), i32::MIN);
}

#[test]
fn minimax_depth_one_picks_a_legal_move() {
    let board = Board::new();
    let bot = MinimaxBot::new(Color::White, 1);
    let (choice, value) = bot.minimax(&board, 1, MinimaxStrategy::Maximize);
    let field = choice.unwrap();
    assert!(board.valid_moves(Color::White).contains(&field));

    let mut after = Board::new();
    after.add_piece(field, Color::White).unwrap();
    let diff = after.count_pieces(Color::White) as i32 - after.count_pieces(Color::Black) as i32;
    assert_eq!(value, diff);
    assert_eq!(value, 3);
    // Ties resolve to the last candidate in enumeration order.
    assert_eq!(field, Field(5, 3));
}

#[test]
fn minimax_on_finished_board_passes() {
    let mut board = Board::empty();
    board.add_piece_unchecked(Field(0, 0), Color::White);
    let bot = MinimaxBot::new(Color::White, 3);
    let (choice, value) = bot.minimax(&board, 3, MinimaxStrategy::Maximize);
    assert_eq!(choice, None);
    assert_eq!(value, i32::MAX);
    assert_eq!(bot.choose_move(&board), None);
}

#[test]
fn choose_move_matches_minimax() {
    let board = Board::new();
    let bot = MinimaxBot::new(Color::White, 2);
    let (choice, _) = bot.minimax(&board, 2, MinimaxStrategy::Maximize);
    assert_eq!(bot.choose_move(&board), choice);
}

#[test]
fn valid_moves_is_deterministic() {
    let board = Board::new();
    assert_eq!(board.valid_moves(Color::White), board.valid_moves(Color::White));
    assert_eq!(board.valid_moves(Color::Black), board.valid_moves(Color::Black));
}

#[test]
fn strategies_mirror_colors() {
    assert_eq!(Color::White.other(), Color::Black);
    assert_eq!(Color::Black.other(), Color::White);
    assert_eq!(char::from(Color::White), 'W');
    assert_eq!(char::from(Color::Black), 'B');
    assert_eq!(Color::White.symbol(), "\u{26aa}");
    assert_eq!(Color::Black.symbol(), "\u{26ab}");
    assert_eq!(MinimaxStrategy::Maximize.other(), MinimaxStrategy::Minimize);
    assert_eq!(MinimaxStrategy::Minimize.other(), MinimaxStrategy::Maximize);
    assert_eq!(MinimaxStrategy::from(Color::White), MinimaxStrategy::Maximize);
    assert_eq!(MinimaxStrategy::from(Color::Black), MinimaxStrategy::Minimize);
    assert_eq!(Color::from(MinimaxStrategy::Maximize), Color::White);
    assert_eq!(Color::from(MinimaxStrategy::Minimize), Color::Black);
    assert_eq!(MinimaxStrategy::Maximize.worst_value(), i32::MIN);
    assert_eq!(MinimaxStrategy::Minimize.worst_value(), i32::MAX);
}
