use reversi_game::reversi::display::animation_frames;
use reversi_game::Board;
use reversi_game::Color;
use reversi_game::DisplayOptions;
use reversi_game::Field;

#[test]
fn render_shows_pieces_and_annotations() {
    let board = Board::new();
    let plain = board.fmt_by_color(None);
    assert_eq!(plain.lines().count(), 17);
    assert!(plain.starts_with("\u{256d}"));
    assert!(plain.ends_with("\u{256f}\n"));
    assert!(plain.contains(" \u{26aa} "));
    assert!(plain.contains(" \u{26ab} "));
    assert!(!plain.contains("c4"));

    let annotated = board.fmt_by_color(Some(Color::White));
    assert!(annotated.contains(" c4 "));
    assert!(annotated.contains(" d3 "));
    assert!(annotated.contains(" f5 "));
    assert!(annotated.contains(" e6 "));
}

#[test]
fn render_of_empty_board_is_blank_grid() {
    let board = Board::empty();
    let text = board.fmt_by_color(None);
    let expected_row = "\u{2502}    \u{2502}    \u{2502}    \u{2502}    \u{2502}    \u{2502}    \u{2502}    \u{2502}    \u{2502}";
    assert_eq!(text.lines().filter(|l| *l == expected_row).count(), 8);
}

#[test]
fn animation_frames_patch_one_cell_at_a_time() {
    let before = Board::new();
    let mut after = Board::new();
    after.add_piece(Field(2, 4), Color::White).unwrap();

    let frames = animation_frames(&before, &after);
    assert_eq!(frames.len(), 3);
    assert_eq!(frames[0], before);
    assert_eq!(frames[2], after);
    // The cells change in enumeration order: (2, 4) before (3, 4).
    assert_eq!(frames[1].get(Field(2, 4)), Some(Color::White));
    assert_eq!(frames[1].get(Field(3, 4)), Some(Color::Black));

    let unchanged = animation_frames(&before, &before);
    assert_eq!(unchanged.len(), 1);
    assert_eq!(unchanged[0], before);
}

#[test]
fn display_options_defaults() {
    let options = DisplayOptions::default();
    assert!(options.clear_screen);
    assert!(options.bold_title);
    assert_eq!(options.color, None);
    assert_eq!(options.title, None);
    assert_eq!(options.empty_lines, 1);
}
