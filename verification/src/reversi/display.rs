//! Rendering options, the textual rendering of a board, and the frame
//! sequence of the flip animation. Printing itself is left to the
//! unverified front end; this module only builds values.

use crate::reversi::board::field_of;
use crate::reversi::board::legal_moves_spec;
use crate::reversi::board::lin;
use crate::reversi::board::Board;
use crate::reversi::field::all_fields_seq;
use crate::reversi::field::notation_spec;
use crate::reversi::field::Field;
use crate::reversi::Color;
use crate::seq_facts::lemma_filter_take_step;
use crate::seq_facts::lemma_take_all;
use vstd::prelude::*;
use vstd::string::StringExecFns;

verus! {

/// How the front end should draw a board.
#[derive(Debug)]
pub struct DisplayOptions {
    /// Clear the terminal before drawing.
    pub clear_screen: bool,
    /// Annotate the legal moves of this color with their notation.
    pub color: Option<Color>,
    /// Print the title in bold.
    pub bold_title: bool,
    /// A line to print above the board.
    pub title: Option<String>,
    /// Empty lines to print below the board.
    pub empty_lines: u8,
}

impl Default for DisplayOptions {
    fn default() -> (r: DisplayOptions)
        ensures
            r.clear_screen == true,
            r.color is None,
            r.bold_title == true,
            r.title is None,
            r.empty_lines == 1,
    {
        DisplayOptions {
            clear_screen: true,
            color: None,
            title: None,
            bold_title: true,
            empty_lines: 1,
        }
    }
}

/// The top edge of the rendered board.
pub open spec fn top_border() -> Seq<char> {
    "\u{256d}\u{2500}\u{2500}\u{2500}\u{2500}\u{252c}\u{2500}\u{2500}\u{2500}\u{2500}\u{252c}\u{2500}\u{2500}\u{2500}\u{2500}\u{252c}\u{2500}\u{2500}\u{2500}\u{2500}\u{252c}\u{2500}\u{2500}\u{2500}\u{2500}\u{252c}\u{2500}\u{2500}\u{2500}\u{2500}\u{252c}\u{2500}\u{2500}\u{2500}\u{2500}\u{252c}\u{2500}\u{2500}\u{2500}\u{2500}\u{256e}\n"@
}

/// The line between two rendered rows.
pub open spec fn mid_border() -> Seq<char> {
    "\u{251c}\u{2500}\u{2500}\u{2500}\u{2500}\u{253c}\u{2500}\u{2500}\u{2500}\u{2500}\u{253c}\u{2500}\u{2500}\u{2500}\u{2500}\u{253c}\u{2500}\u{2500}\u{2500}\u{2500}\u{253c}\u{2500}\u{2500}\u{2500}\u{2500}\u{253c}\u{2500}\u{2500}\u{2500}\u{2500}\u{253c}\u{2500}\u{2500}\u{2500}\u{2500}\u{253c}\u{2500}\u{2500}\u{2500}\u{2500}\u{2524}\n"@
}

/// The bottom edge of the rendered board.
pub open spec fn bottom_border() -> Seq<char> {
    "\u{2570}\u{2500}\u{2500}\u{2500}\u{2500}\u{2534}\u{2500}\u{2500}\u{2500}\u{2500}\u{2534}\u{2500}\u{2500}\u{2500}\u{2500}\u{2534}\u{2500}\u{2500}\u{2500}\u{2500}\u{2534}\u{2500}\u{2500}\u{2500}\u{2500}\u{2534}\u{2500}\u{2500}\u{2500}\u{2500}\u{2534}\u{2500}\u{2500}\u{2500}\u{2500}\u{2534}\u{2500}\u{2500}\u{2500}\u{2500}\u{256f}\n"@
}

/// How one cell renders: an occupied cell shows its piece between
/// spaces; an empty cell that is a listed move shows that move's
/// notation between spaces; any other empty cell is blank.
pub open spec fn cell_chars(
    cells: Seq<Option<Color>>,
    moves: Seq<Field>,
    x: int,
    y: int,
) -> Seq<char> {
    match cells[y * 8 + x] {
        Some(c) => seq![' ', c.symbol_spec(), ' '],
        None => if moves.contains(Field(x as usize, y as usize)) {
            seq![' '] + notation_spec(Field(x as usize, y as usize)) + seq![' ']
        } else {
            seq![' ', ' ', ' ', ' ']
        },
    }
}

/// The first `x` cells of row `y`, each preceded by its vertical bar.
pub open spec fn row_cells_upto(
    cells: Seq<Option<Color>>,
    moves: Seq<Field>,
    y: int,
    x: int,
) -> Seq<char>
    decreases x,
{
    if x <= 0 {
        Seq::empty()
    } else {
        row_cells_upto(cells, moves, y, x - 1) + seq!['\u{2502}'] + cell_chars(
            cells,
            moves,
            x - 1,
            y,
        )
    }
}

/// One full rendered row: its eight cells, the closing bar, a newline.
pub open spec fn row_chars(cells: Seq<Option<Color>>, moves: Seq<Field>, y: int) -> Seq<char> {
    row_cells_upto(cells, moves, y, 8) + seq!['\u{2502}', '\n']
}

/// The first `y` rendered rows, with the separating line above each row
/// but the first.
pub open spec fn rows_upto(cells: Seq<Option<Color>>, moves: Seq<Field>, y: int) -> Seq<char>
    decreases y,
{
    if y <= 0 {
        Seq::empty()
    } else {
        rows_upto(cells, moves, y - 1) + (if y == 1 {
            Seq::<char>::empty()
        } else {
            mid_border()
        }) + row_chars(cells, moves, y - 1)
    }
}

/// The full rendering of a board, annotating the given moves.
pub open spec fn board_render(cells: Seq<Option<Color>>, moves: Seq<Field>) -> Seq<char> {
    top_border() + rows_upto(cells, moves, 8) + bottom_border()
}

/// Whether a move list holds a field.
fn contains_field(v: &Vec<Field>, f: Field) -> (r: bool)
    ensures
        r == v@.contains(f),
{
    let mut i: usize = 0;
    while i < v.len()
        invariant
            i <= v@.len(),
            forall|j: int| 0 <= j < i ==> v@[j] != f,
        decreases v@.len() - i,
    {
        if v[i] == f {
            proof {
                assert(v@.contains(v@[i as int]));
            }
            return true;
        }
        i += 1;
    }
    false
}

impl Board {
    /// Render the board as text, annotating the legal moves of the given
    /// color, if any, with their notation.
    pub fn fmt_by_color(&self, color: Option<Color>) -> (r: String)
        ensures
            r@ == board_render(
                self@,
                match color {
                    Some(c) => legal_moves_spec(self@, c),
                    None => Seq::<Field>::empty(),
                },
            ),
    {
        let moves: Vec<Field> = match color {
            Some(c) => self.valid_moves(c),
            None => Vec::new(),
        };
        proof {
            reveal_strlit("\u{256d}\u{2500}\u{2500}\u{2500}\u{2500}\u{252c}\u{2500}\u{2500}\u{2500}\u{2500}\u{252c}\u{2500}\u{2500}\u{2500}\u{2500}\u{252c}\u{2500}\u{2500}\u{2500}\u{2500}\u{252c}\u{2500}\u{2500}\u{2500}\u{2500}\u{252c}\u{2500}\u{2500}\u{2500}\u{2500}\u{252c}\u{2500}\u{2500}\u{2500}\u{2500}\u{252c}\u{2500}\u{2500}\u{2500}\u{2500}\u{256e}\n");
            reveal_strlit("\u{251c}\u{2500}\u{2500}\u{2500}\u{2500}\u{253c}\u{2500}\u{2500}\u{2500}\u{2500}\u{253c}\u{2500}\u{2500}\u{2500}\u{2500}\u{253c}\u{2500}\u{2500}\u{2500}\u{2500}\u{253c}\u{2500}\u{2500}\u{2500}\u{2500}\u{253c}\u{2500}\u{2500}\u{2500}\u{2500}\u{253c}\u{2500}\u{2500}\u{2500}\u{2500}\u{253c}\u{2500}\u{2500}\u{2500}\u{2500}\u{2524}\n");
            reveal_strlit("\u{2570}\u{2500}\u{2500}\u{2500}\u{2500}\u{2534}\u{2500}\u{2500}\u{2500}\u{2500}\u{2534}\u{2500}\u{2500}\u{2500}\u{2500}\u{2534}\u{2500}\u{2500}\u{2500}\u{2500}\u{2534}\u{2500}\u{2500}\u{2500}\u{2500}\u{2534}\u{2500}\u{2500}\u{2500}\u{2500}\u{2534}\u{2500}\u{2500}\u{2500}\u{2500}\u{2534}\u{2500}\u{2500}\u{2500}\u{2500}\u{256f}\n");
            reveal_strlit("\u{2502}");
            reveal_strlit("\u{2502}\n");
            reveal_strlit(" ");
            reveal_strlit("    ");
        }
        let mut out = String::new();
        out.append(
            "\u{256d}\u{2500}\u{2500}\u{2500}\u{2500}\u{252c}\u{2500}\u{2500}\u{2500}\u{2500}\u{252c}\u{2500}\u{2500}\u{2500}\u{2500}\u{252c}\u{2500}\u{2500}\u{2500}\u{2500}\u{252c}\u{2500}\u{2500}\u{2500}\u{2500}\u{252c}\u{2500}\u{2500}\u{2500}\u{2500}\u{252c}\u{2500}\u{2500}\u{2500}\u{2500}\u{252c}\u{2500}\u{2500}\u{2500}\u{2500}\u{256e}\n",
        );
        let ghost annotated = match color {
            Some(c) => legal_moves_spec(self@, c),
            None => Seq::<Field>::empty(),
        };
        proof {
            assert(moves@ == annotated);
            assert(out@ =~= top_border() + rows_upto(self@, annotated, 0));
        }
        let mut y: usize = 0;
        while y < 8
            invariant
                y <= 8,
                self@.len() == 64,
                moves@ == annotated,
                out@ == top_border() + rows_upto(self@, annotated, y as int),
            decreases 8 - y,
        {
            if y != 0 {
                out.append(
                    "\u{251c}\u{2500}\u{2500}\u{2500}\u{2500}\u{253c}\u{2500}\u{2500}\u{2500}\u{2500}\u{253c}\u{2500}\u{2500}\u{2500}\u{2500}\u{253c}\u{2500}\u{2500}\u{2500}\u{2500}\u{253c}\u{2500}\u{2500}\u{2500}\u{2500}\u{253c}\u{2500}\u{2500}\u{2500}\u{2500}\u{253c}\u{2500}\u{2500}\u{2500}\u{2500}\u{253c}\u{2500}\u{2500}\u{2500}\u{2500}\u{2524}\n",
                );
            }
            proof {
                reveal_strlit("\u{251c}\u{2500}\u{2500}\u{2500}\u{2500}\u{253c}\u{2500}\u{2500}\u{2500}\u{2500}\u{253c}\u{2500}\u{2500}\u{2500}\u{2500}\u{253c}\u{2500}\u{2500}\u{2500}\u{2500}\u{253c}\u{2500}\u{2500}\u{2500}\u{2500}\u{253c}\u{2500}\u{2500}\u{2500}\u{2500}\u{253c}\u{2500}\u{2500}\u{2500}\u{2500}\u{253c}\u{2500}\u{2500}\u{2500}\u{2500}\u{2524}\n");
                assert(out@ =~= top_border() + rows_upto(self@, annotated, y as int) + (if y == 0 {
                    Seq::<char>::empty()
                } else {
                    mid_border()
                }) + row_cells_upto(self@, annotated, y as int, 0));
            }
            let mut x: usize = 0;
            while x < 8
                invariant
                    x <= 8,
                    y < 8,
                    self@.len() == 64,
                    moves@ == annotated,
                    out@ == top_border() + rows_upto(self@, annotated, y as int) + (if y == 0 {
                        Seq::<char>::empty()
                    } else {
                        mid_border()
                    }) + row_cells_upto(self@, annotated, y as int, x as int),
                decreases 8 - x,
            {
                proof {
                    reveal_strlit("\u{2502}");
                    reveal_strlit(" ");
                    reveal_strlit("    ");
                }
                out.append("\u{2502}");
                let here = Field(x, y);
                match self.get(here) {
                    Some(c) => {
                        out.append(" ");
                        out.append(c.symbol());
                        out.append(" ");
                    },
                    None => {
                        if contains_field(&moves, here) {
                            out.append(" ");
                            let notation = here.to_string();
                            out.append(notation.as_str());
                            out.append(" ");
                        } else {
                            out.append("    ");
                        }
                    },
                }
                proof {
                    assert(out@ =~= top_border() + rows_upto(self@, annotated, y as int) + (if y
                        == 0 {
                        Seq::<char>::empty()
                    } else {
                        mid_border()
                    }) + row_cells_upto(self@, annotated, y as int, x + 1));
                }
                x += 1;
            }
            out.append("\u{2502}\n");
            proof {
                reveal_strlit("\u{2502}\n");
                assert(out@ =~= top_border() + rows_upto(self@, annotated, (y + 1) as int));
            }
            y += 1;
        }
        out.append(
            "\u{2570}\u{2500}\u{2500}\u{2500}\u{2500}\u{2534}\u{2500}\u{2500}\u{2500}\u{2500}\u{2534}\u{2500}\u{2500}\u{2500}\u{2500}\u{2534}\u{2500}\u{2500}\u{2500}\u{2500}\u{2534}\u{2500}\u{2500}\u{2500}\u{2500}\u{2534}\u{2500}\u{2500}\u{2500}\u{2500}\u{2534}\u{2500}\u{2500}\u{2500}\u{2500}\u{2534}\u{2500}\u{2500}\u{2500}\u{2500}\u{256f}\n",
        );
        proof {
            assert(out@ =~= board_render(self@, annotated));
        }
        out
    }
}

/// The predicate that keeps the fields on which two boards differ.
pub open spec fn differs(before: Seq<Option<Color>>, after: Seq<Option<Color>>) -> spec_fn(
    Field,
) -> bool {
    |f: Field| before[lin(f)] != after[lin(f)]
}

/// The fields on which two boards differ, in enumeration order.
pub open spec fn changed_fields(before: Seq<Option<Color>>, after: Seq<Option<Color>>) -> Seq<
    Field,
> {
    all_fields_seq().filter(differs(before, after))
}

/// A board midway through the flip animation: the given fields already
/// show the after state, every other cell still the before state.
pub open spec fn patch(
    before: Seq<Option<Color>>,
    after: Seq<Option<Color>>,
    fields: Seq<Field>,
) -> Seq<Option<Color>> {
    Seq::new(
        64,
        |i: int|
            if fields.contains(field_of(i)) {
                after[i]
            } else {
                before[i]
            },
    )
}

/// The frames of the flip animation between two boards: the before
/// board first, then one frame per differing field in enumeration
/// order, each showing the after content on one more field.
pub fn animation_frames(board_before: &Board, board_after: &Board) -> (r: Vec<Board>)
    ensures
        r@.len() == changed_fields(board_before@, board_after@).len() + 1,
        forall|k: int|
            0 <= k < r@.len() ==> (#[trigger] r@[k])@ == patch(
                board_before@,
                board_after@,
                changed_fields(board_before@, board_after@).take(k),
            ),
{
    let ghost b1 = board_before@;
    let ghost b2 = board_after@;
    let ghost pred = differs(b1, b2);
    let mut boards_between: Vec<Board> = Vec::new();
    boards_between.push(*board_before);
    let mut board_slice: Board = board_before.clone();
    proof {
        assert(all_fields_seq().take(0).filter(pred) =~= Seq::<Field>::empty());
        assert(patch(b1, b2, Seq::<Field>::empty()) =~= b1);
    }
    let mut i: usize = 0;
    while i < 64
        invariant
            i <= 64,
            b1 == board_before@,
            b2 == board_after@,
            pred == differs(b1, b2),
            b1.len() == 64,
            b2.len() == 64,
            board_slice@ == patch(b1, b2, all_fields_seq().take(i as int).filter(pred)),
            boards_between@.len() == all_fields_seq().take(i as int).filter(pred).len() + 1,
            forall|k: int|
                0 <= k < boards_between@.len() ==> (#[trigger] boards_between@[k])@ == patch(
                    b1,
                    b2,
                    all_fields_seq().take(i as int).filter(pred).take(k),
                ),
        decreases 64 - i,
    {
        let f = Field::nth(i);
        let ghost q = all_fields_seq().take(i as int).filter(pred);
        proof {
            lemma_filter_take_step(all_fields_seq(), pred, i as int);
        }
        let before_cell = board_before.get(f);
        let after_cell = board_after.get(f);
        let differ = match (before_cell, after_cell) {
            (None, None) => false,
            (Some(a), Some(b)) => !(a == b),
            _ => true,
        };
        if differ {
            proof {
                assert(pred(f));
            }
            board_slice.set(f, after_cell);
            proof {
                assert forall|j: int| 0 <= j < 64 implies board_slice@[j] == patch(
                    b1,
                    b2,
                    q.push(f),
                )[j] by {
                    if j == lin(f) {
                        assert(q.push(f)[q.len() as int] == f);
                        assert(q.push(f).contains(field_of(j)));
                    } else {
                        if q.push(f).contains(field_of(j)) {
                            let m = choose|m: int|
                                0 <= m < q.push(f).len() && q.push(f)[m] == field_of(j);
                            if m == q.len() {
                                assert(field_of(j) == f);
                                assert(lin(field_of(j)) == j);
                                assert(false);
                            } else {
                                assert(q[m] == field_of(j));
                                assert(q.contains(field_of(j)));
                            }
                        }
                        if q.contains(field_of(j)) {
                            let m = choose|m: int| 0 <= m < q.len() && q[m] == field_of(j);
                            assert(q.push(f)[m] == field_of(j));
                            assert(q.push(f).contains(field_of(j)));
                        }
                    }
                }
                assert(board_slice@ =~= patch(b1, b2, q.push(f)));
            }
            boards_between.push(board_slice);
            proof {
                assert forall|k: int|
                    0 <= k < boards_between@.len() implies (#[trigger] boards_between@[k])@
                    == patch(b1, b2, q.push(f).take(k)) by {
                    if k < boards_between@.len() - 1 {
                        assert(q.push(f).take(k) =~= q.take(k));
                    } else {
                        assert(q.push(f).take(k) =~= q.push(f));
                    }
                }
            }
        } else {
            proof {
                assert(!pred(f));
            }
        }
        i += 1;
    }
    proof {
        lemma_take_all(all_fields_seq());
    }
    boards_between
}

} // verus!
