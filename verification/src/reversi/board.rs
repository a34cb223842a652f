//! The board: an 8 by 8 grid of cells, piece counting, the capture-based
//! move legality rule, and the terminal-status classification.

use crate::reversi::field::all_fields_seq;
use crate::reversi::field::aligned;
use crate::reversi::field::between;
use crate::reversi::field::cheb;
use crate::reversi::field::lemma_aligned_endpoint;
use crate::reversi::field::lemma_all_fields_contains;
use crate::reversi::field::lemma_between_bounds;
use crate::reversi::field::lemma_between_symmetric;
use crate::reversi::field::lemma_on_seg_unique_k;
use crate::reversi::field::lemma_on_seg_unique_point;
use crate::reversi::field::lemma_shared_ray;
use crate::reversi::field::on_seg;
use crate::reversi::field::step;
use crate::reversi::field::Field;
use crate::reversi::Color;
use crate::seq_facts::lemma_filter_contains_iff;
use crate::seq_facts::lemma_filter_take_step;
use crate::seq_facts::lemma_take_all;
use vstd::prelude::*;
use vstd::seq_lib::lemma_no_dup_in_concat;

verus! {

/// Why a requested move or a notation string was rejected.
#[derive(Debug, Eq, PartialEq, Clone, Copy, Structural)]
pub enum PlaceError {
    /// A notation string whose length is not two characters.
    InvalidLength,
    /// A notation string whose second character is not a digit, or a
    /// move index that is not a number.
    InvalidNumber,
    /// The target cell already holds a piece.
    Occupied,
    /// The target coordinate lies outside the board.
    OutOfBounds,
    /// The move would flip no opponent piece.
    CapturesNone,
}

impl PlaceError {
    /// A human-readable description of the failure.
    pub fn message(&self) -> (r: &'static str)
        ensures
            r@ == match self {
                PlaceError::InvalidLength => "Invalid length"@,
                PlaceError::InvalidNumber => "Invalid number"@,
                PlaceError::Occupied => "Field is already occupied"@,
                PlaceError::OutOfBounds => "Field is out of bounds"@,
                PlaceError::CapturesNone => "Field captures no pieces"@,
            },
    {
        match self {
            PlaceError::InvalidLength => "Invalid length",
            PlaceError::InvalidNumber => "Invalid number",
            PlaceError::Occupied => "Field is already occupied",
            PlaceError::OutOfBounds => "Field is out of bounds",
            PlaceError::CapturesNone => "Field captures no pieces",
        }
    }
}

/// The state of a game as derived from a board.
#[derive(Debug, Eq, PartialEq, Clone, Copy, Structural)]
pub enum GameStatus {
    InProgress,
    Win(Color),
    Draw,
}

/// The linear index of a field in the board's cell array: row-major by
/// `y`, then `x`.
pub open spec fn lin(f: Field) -> int {
    f.1 * 8 + f.0
}

/// The field stored at linear index `i`.
pub open spec fn field_of(i: int) -> Field {
    Field((i % 8) as usize, (i / 8) as usize)
}

/// Linear indexing is a bijection between in-bounds fields and `0..64`.
pub broadcast proof fn lemma_lin_bijective(f: Field)
    requires
        f.in_bounds(),
    ensures
        0 <= #[trigger] lin(f) < 64,
        field_of(lin(f)) == f,
{
}

/// An 8 by 8 Reversi board. Each cell is empty or holds a piece of one
/// color.
#[derive(Debug, Eq, PartialEq, Clone, Copy, Hash)]
pub struct Board {
    pub cells: [Option<Color>; 64],
}

impl View for Board {
    type V = Seq<Option<Color>>;

    open spec fn view(&self) -> Seq<Option<Color>> {
        self.cells@
    }
}

/// The cells of a freshly initialized board: the four center cells hold
/// two White and two Black pieces, White where the coordinate sum is
/// even, and every other cell is empty.
pub open spec fn new_board_spec() -> Seq<Option<Color>> {
    Seq::new(
        64,
        |i: int|
            if i == lin(Field(3, 3)) || i == lin(Field(4, 4)) {
                Some(Color::White)
            } else if i == lin(Field(3, 4)) || i == lin(Field(4, 3)) {
                Some(Color::Black)
            } else {
                None
            },
    )
}

/// How many cells of `cells` hold a piece of color `color`.
pub open spec fn count_in(cells: Seq<Option<Color>>, color: Color) -> nat
    decreases cells.len(),
{
    if cells.len() == 0 {
        0
    } else {
        count_in(cells.drop_last(), color) + if cells.last() == Some(color) {
            1nat
        } else {
            0nat
        }
    }
}

/// How many cells of `cells` hold a piece of either color.
pub open spec fn occupied_in(cells: Seq<Option<Color>>) -> nat
    decreases cells.len(),
{
    if cells.len() == 0 {
        0
    } else {
        occupied_in(cells.drop_last()) + if cells.last() is Some {
            1nat
        } else {
            0nat
        }
    }
}

/// A color's count never exceeds the number of cells.
pub proof fn lemma_count_le_len(cells: Seq<Option<Color>>, color: Color)
    ensures
        count_in(cells, color) <= cells.len(),
    decreases cells.len(),
{
    if cells.len() > 0 {
        lemma_count_le_len(cells.drop_last(), color);
    }
}

/// How updating one cell changes a color's count.
pub proof fn lemma_count_update(cells: Seq<Option<Color>>, color: Color, i: int, v: Option<Color>)
    requires
        0 <= i < cells.len(),
    ensures
        count_in(cells.update(i, v), color) == count_in(cells, color) - (if cells[i] == Some(color) {
            1int
        } else {
            0int
        }) + (if v == Some(color) {
            1int
        } else {
            0int
        }),
    decreases cells.len(),
{
    let upd = cells.update(i, v);
    if i == cells.len() - 1 {
        assert(upd.drop_last() =~= cells.drop_last());
    } else {
        assert(upd.drop_last() =~= cells.drop_last().update(i, v));
        lemma_count_update(cells.drop_last(), color, i, v);
    }
}

/// A sequence of empty cells holds no piece of any color.
pub proof fn lemma_count_all_empty(cells: Seq<Option<Color>>, color: Color)
    requires
        forall|i: int| 0 <= i < cells.len() ==> cells[i] is None,
    ensures
        count_in(cells, color) == 0,
    decreases cells.len(),
{
    if cells.len() > 0 {
        lemma_count_all_empty(cells.drop_last(), color);
    }
}

impl Board {
    /// Returns a new empty board.
    pub fn empty() -> (r: Board)
        ensures
            r@ == Seq::new(64, |i: int| None::<Color>),
    {
        let b = Board { cells: [None;64] };
        proof {
            vstd::array::axiom_spec_array_fill_for_copy_type::<Option<Color>, 64>(None);
            assert(b.cells == vstd::array::spec_array_fill_for_copy_type::<Option<Color>, 64>(None));
            assert(b@ =~= Seq::new(64, |i: int| None::<Color>));
        }
        b
    }

    /// Returns the board of a new game: empty but for the four center
    /// pieces.
    pub fn new() -> (r: Board)
        ensures
            r@ == new_board_spec(),
    {
        let mut new_board = Board::empty();
        new_board.add_piece_unchecked(Field(3, 3), Color::White);
        new_board.add_piece_unchecked(Field(4, 4), Color::White);
        new_board.add_piece_unchecked(Field(3, 4), Color::Black);
        new_board.add_piece_unchecked(Field(4, 3), Color::Black);
        proof {
            assert(new_board@ =~= new_board_spec());
        }
        new_board
    }

    /// Read the content of a cell.
    pub fn get(&self, field: Field) -> (r: Option<Color>)
        requires
            field.in_bounds(),
        ensures
            r == self@[lin(field)],
    {
        self.cells[field.1 * 8 + field.0]
    }

    /// Set a field to a color.
    pub fn add_piece_unchecked(&mut self, field: Field, color: Color)
        requires
            field.in_bounds(),
        ensures
            final(self)@ == old(self)@.update(lin(field), Some(color)),
    {
        self.cells[field.1 * 8 + field.0] = Some(color);
    }

    /// Overwrite the content of a cell.
    pub fn set(&mut self, field: Field, value: Option<Color>)
        requires
            field.in_bounds(),
        ensures
            final(self)@ == old(self)@.update(lin(field), value),
    {
        self.cells[field.1 * 8 + field.0] = value;
    }

    /// Flip a piece on the board: an opposing piece takes its place, and
    /// an empty cell stays empty.
    pub fn flip(&mut self, field: Field)
        requires
            field.in_bounds(),
        ensures
            final(self)@ == old(self)@.update(
                lin(field),
                match old(self)@[lin(field)] {
                    None => None,
                    Some(c) => Some(c.other_spec()),
                },
            ),
    {
        let i = field.1 * 8 + field.0;
        self.cells[i] = match self.cells[i] {
            None => None,
            Some(c) => Some(c.other()),
        };
    }

    /// Count the amount of pieces of a given color.
    pub fn count_pieces(&self, color: Color) -> (r: usize)
        ensures
            r == count_in(self@, color),
    {
        let mut n: usize = 0;
        let mut i: usize = 0;
        while i < 64
            invariant
                i <= 64,
                n == count_in(self@.take(i as int), color),
                n <= i,
            decreases 64 - i,
        {
            proof {
                assert(self@.take(i + 1).drop_last() =~= self@.take(i as int));
                assert(self@.take(i + 1).last() == self@[i as int]);
            }
            let here = self.cells[i];
            match here {
                Some(c) => if c == color {
                    n += 1;
                },
                None => {},
            }
            i += 1;
        }
        proof {
            assert(self@.take(64) =~= self@);
        }
        n
    }

    /// Count the occupied cells.
    fn count_occupied(&self) -> (r: usize)
        ensures
            r == occupied_in(self@),
    {
        let mut n: usize = 0;
        let mut i: usize = 0;
        while i < 64
            invariant
                i <= 64,
                n == occupied_in(self@.take(i as int)),
                n <= i,
            decreases 64 - i,
        {
            proof {
                assert(self@.take(i + 1).drop_last() =~= self@.take(i as int));
                assert(self@.take(i + 1).last() == self@[i as int]);
            }
            if self.cells[i].is_some() {
                n += 1;
            }
            i += 1;
        }
        proof {
            assert(self@.take(64) =~= self@);
        }
        n
    }

    /// Whose turn the piece-count parity suggests: White when the number
    /// of occupied cells is even. This derivation is advisory: once a
    /// player has passed, parity no longer tracks the real turn order,
    /// which the driving loop must keep itself.
    pub fn turn(&self) -> (r: Color)
        ensures
            r == (if occupied_in(self@) % 2 == 0 {
                Color::White
            } else {
                Color::Black
            }),
    {
        if self.count_occupied() % 2 == 0 {
            Color::White
        } else {
            Color::Black
        }
    }
}

/// The cells strictly between `target` and `anchor` form a solid,
/// gapless run of the opponent of `color`: the line is straight, holds at
/// least one cell, and every cell on it carries the opposing piece.
pub open spec fn open_line(
    cells: Seq<Option<Color>>,
    target: Field,
    anchor: Field,
    color: Color,
) -> bool {
    &&& aligned(target, anchor)
    &&& cheb(target, anchor) >= 2
    &&& forall|f: Field| #[trigger] between(target, anchor, f) ==> cells[lin(f)] == Some(
        color.other_spec(),
    )
}

/// `a` anchors a capturing line for a piece of `color` placed on
/// `target`: it holds a piece of the same color and brackets a run of
/// opposing pieces against the target.
pub open spec fn capture_anchor(
    cells: Seq<Option<Color>>,
    target: Field,
    color: Color,
    a: Field,
) -> bool {
    &&& a.in_bounds()
    &&& cells[lin(a)] == Some(color)
    &&& open_line(cells, target, a, color)
}

/// Placing a piece of `color` on `target` flips the piece on `f`.
pub open spec fn captured(cells: Seq<Option<Color>>, target: Field, color: Color, f: Field) -> bool {
    exists|a: Field| #[trigger] capture_anchor(cells, target, color, a) && between(target, a, f)
}

/// Placing a piece of `color` on `target` flips at least one piece.
pub open spec fn has_capture(cells: Seq<Option<Color>>, target: Field, color: Color) -> bool {
    exists|f: Field| #[trigger] captured(cells, target, color, f)
}

/// A move is legal exactly when its target is in bounds, empty, and
/// captures at least one opposing piece.
pub open spec fn is_legal_spec(cells: Seq<Option<Color>>, target: Field, color: Color) -> bool {
    &&& target.in_bounds()
    &&& cells[lin(target)] is None
    &&& has_capture(cells, target, color)
}

/// The predicate that keeps exactly the legal moves of `color`.
pub open spec fn legal_pred(cells: Seq<Option<Color>>, color: Color) -> spec_fn(Field) -> bool {
    |f: Field| is_legal_spec(cells, f, color)
}

/// All legal moves of `color`, in the fixed enumeration order.
pub open spec fn legal_moves_spec(cells: Seq<Option<Color>>, color: Color) -> Seq<Field> {
    all_fields_seq().filter(legal_pred(cells, color))
}

/// The cells after a legal move of `color` on `target`: the target cell
/// takes the new piece, every captured cell flips to `color`, and all
/// other cells keep their content.
pub open spec fn apply_move_spec(cells: Seq<Option<Color>>, target: Field, color: Color) -> Seq<
    Option<Color>,
> {
    Seq::new(
        64,
        |i: int|
            if i == lin(target) {
                Some(color)
            } else if captured(cells, target, color, field_of(i)) {
                Some(color)
            } else {
                cells[i]
            },
    )
}

/// The endpoint a line is enumerated from: the one with the smaller
/// `x`, or with the smaller `y` when the `x` components tie.
pub open spec fn seg_lo(a: Field, b: Field) -> Field {
    if a.0 < b.0 {
        a
    } else if b.0 < a.0 {
        b
    } else if a.1 <= b.1 {
        a
    } else {
        b
    }
}

/// The endpoint a line is enumerated toward: the counterpart of
/// `seg_lo`.
pub open spec fn seg_hi(a: Field, b: Field) -> Field {
    if seg_lo(a, b) == a {
        b
    } else {
        a
    }
}

/// The open segment between two fields: the fields strictly between the
/// two endpoints, in ascending order along the line's scan axis (from
/// the lesser endpoint toward the greater). Independent of the order of
/// its arguments.
pub open spec fn open_segment(a: Field, b: Field) -> Seq<Field> {
    let lo = seg_lo(a, b);
    let hi = seg_hi(a, b);
    Seq::new(
        (cheb(a, b) - 1) as nat,
        |j: int|
            Field(
                step(lo.0 as int, hi.0 - lo.0, j + 1) as usize,
                step(lo.1 as int, hi.1 - lo.1, j + 1) as usize,
            ),
    )
}

/// The order of the endpoints does not matter to a line: its open
/// segment holds the same fields in the same order either way round.
pub proof fn lemma_open_segment_symmetric(a: Field, b: Field)
    ensures
        open_segment(a, b) == open_segment(b, a),
        aligned(a, b) == aligned(b, a),
        cheb(a, b) == cheb(b, a),
{
    assert(seg_lo(a, b) == seg_lo(b, a));
    assert(seg_hi(a, b) == seg_hi(b, a));
    assert(open_segment(a, b) =~= open_segment(b, a));
}

/// The fields that anchor `a` captures for a piece of `color` placed on
/// `target`, in ascending line order; empty when `a` anchors no
/// capturing line.
pub open spec fn anchor_line(
    cells: Seq<Option<Color>>,
    target: Field,
    color: Color,
    a: Field,
) -> Seq<Field> {
    if capture_anchor(cells, target, color, a) {
        open_segment(target, a)
    } else {
        Seq::empty()
    }
}

/// The captured fields of the anchors at enumeration index below `n`,
/// in anchor-enumeration order, each anchor's line in ascending order.
/// At `n == 64` this is the whole capture list as `move_validity`
/// returns it.
pub open spec fn captures_upto(
    cells: Seq<Option<Color>>,
    target: Field,
    color: Color,
    n: int,
) -> Seq<Field>
    decreases n,
{
    if n <= 0 {
        Seq::empty()
    } else {
        captures_upto(cells, target, color, n - 1) + anchor_line(
            cells,
            target,
            color,
            all_fields_seq()[n - 1],
        )
    }
}

/// At most one anchor accounts for any one captured field: capturing
/// lines from distinct anchors never overlap.
pub proof fn lemma_capture_anchor_unique(
    cells: Seq<Option<Color>>,
    target: Field,
    color: Color,
    a1: Field,
    a2: Field,
    f: Field,
)
    requires
        capture_anchor(cells, target, color, a1),
        capture_anchor(cells, target, color, a2),
        between(target, a1, f),
        between(target, a2, f),
    ensures
        a1 == a2,
{
    if cheb(target, a1) <= cheb(target, a2) {
        lemma_anchor_on_longer_ray(cells, target, color, a1, a2, f);
    } else {
        lemma_anchor_on_longer_ray(cells, target, color, a2, a1, f);
    }
}

proof fn lemma_anchor_on_longer_ray(
    cells: Seq<Option<Color>>,
    target: Field,
    color: Color,
    a1: Field,
    a2: Field,
    f: Field,
)
    requires
        capture_anchor(cells, target, color, a1),
        capture_anchor(cells, target, color, a2),
        between(target, a1, f),
        between(target, a2, f),
        cheb(target, a1) <= cheb(target, a2),
    ensures
        a1 == a2,
{
    lemma_shared_ray(target, a1, a2, f);
    if a1 != a2 {
        // a1 would sit on a2's capturing line and so hold the opposing
        // color, though it holds `color` as an anchor.
        assert(between(target, a2, a1));
        assert(cells[lin(a1)] == Some(color.other_spec()));
        assert(false);
    }
}

/// A captured field holds the opposing piece, lies in bounds, and is not
/// the target itself.
pub proof fn lemma_captured_cell(cells: Seq<Option<Color>>, target: Field, color: Color, f: Field)
    requires
        target.in_bounds(),
        captured(cells, target, color, f),
    ensures
        cells[lin(f)] == Some(color.other_spec()),
        f.in_bounds(),
        f != target,
{
    let a = choose|a: Field| #[trigger]
        capture_anchor(cells, target, color, a) && between(target, a, f);
    lemma_between_bounds(target, a, f);
}

/// With no occupied neighbor, a target captures nothing: the first cell
/// of any capturing line is adjacent to the target and occupied.
proof fn lemma_no_occupied_neighbor_no_capture(
    cells: Seq<Option<Color>>,
    target: Field,
    color: Color,
)
    requires
        target.in_bounds(),
        forall|f: Field| #[trigger] f.in_bounds_spec() && cheb(target, f) == 1 ==> cells[lin(f)]
            is None,
    ensures
        !has_capture(cells, target, color),
{
    if has_capture(cells, target, color) {
        let f = choose|f: Field| #[trigger] captured(cells, target, color, f);
        let a = choose|a: Field| #[trigger]
            capture_anchor(cells, target, color, a) && between(target, a, f);
        let px = step(target.0 as int, a.0 - target.0, 1);
        let py = step(target.1 as int, a.1 - target.1, 1);
        lemma_aligned_endpoint(target, a);
        assert(0 <= px < 8 && 0 <= py < 8);
        let p = Field(px as usize, py as usize);
        assert(on_seg(target, a, 1, p));
        assert(between(target, a, p));
        assert(p.in_bounds_spec());
        assert(cheb(target, p) == 1);
        assert(cells[lin(p)] == Some(color.other_spec()));
        assert(false);
    }
}

/// The enumeration index of a field determines the field.
proof fn lemma_enum_index_injective(a: Field, b: Field)
    requires
        a.in_bounds(),
        b.in_bounds(),
        a.0 * 8 + a.1 == b.0 * 8 + b.1,
    ensures
        a == b,
{
}

impl Board {
    /// Calculate the open interval of a straight line (horizontal,
    /// vertical or diagonal) between two fields: the fields strictly
    /// between the two endpoints, in ascending order along the line,
    /// from the lesser endpoint toward the greater — the same interval
    /// whichever way round the endpoints are given. Yields nothing when
    /// the endpoints are not aligned, coincide, or touch.
    fn line_between(fields: (Field, Field)) -> (r: Option<Vec<Field>>)
        requires
            fields.0.in_bounds(),
            fields.1.in_bounds(),
        ensures
            r is Some <==> (aligned(fields.0, fields.1) && cheb(fields.0, fields.1) >= 2),
            r matches Some(v) ==> {
                &&& v@ == open_segment(fields.0, fields.1)
                &&& v@.len() == cheb(fields.0, fields.1) - 1
                &&& forall|j: int| 0 <= j < v@.len() ==> (#[trigger] v@[j]).in_bounds_spec()
                &&& forall|f: Field| #[trigger] v@.contains(f) <==> between(fields.0, fields.1, f)
                &&& v@.no_duplicates()
            },
    {
        let (t, a) = fields;
        let adx = if t.0 >= a.0 {
            t.0 - a.0
        } else {
            a.0 - t.0
        };
        let ady = if t.1 >= a.1 {
            t.1 - a.1
        } else {
            a.1 - t.1
        };
        if !(t.0 == a.0 || t.1 == a.1 || adx == ady) {
            return None;
        }
        let ch = if adx >= ady {
            adx
        } else {
            ady
        };
        if ch < 2 {
            return None;
        }
        let (lo, hi) = if t.0 < a.0 {
            (t, a)
        } else if a.0 < t.0 {
            (a, t)
        } else if t.1 <= a.1 {
            (t, a)
        } else {
            (a, t)
        };
        let mut v: Vec<Field> = Vec::new();
        let mut k: usize = 1;
        while k < ch
            invariant
                1 <= k <= ch,
                ch == cheb(t, a),
                ch == cheb(lo, hi),
                aligned(t, a),
                aligned(lo, hi),
                ch >= 2,
                t.in_bounds(),
                a.in_bounds(),
                lo == seg_lo(t, a),
                hi == seg_hi(t, a),
                (lo == t && hi == a) || (lo == a && hi == t),
                v@.len() == k - 1,
                forall|j: int| 0 <= j < v@.len() ==> #[trigger] on_seg(lo, hi, j + 1, v@[j]),
                forall|j: int| 0 <= j < v@.len() ==> (#[trigger] v@[j]).in_bounds_spec(),
            decreases ch - k,
        {
            proof {
                lemma_aligned_endpoint(lo, hi);
            }
            let nx = if hi.0 > lo.0 {
                lo.0 + k
            } else if hi.0 < lo.0 {
                lo.0 - k
            } else {
                lo.0
            };
            let ny = if hi.1 > lo.1 {
                lo.1 + k
            } else if hi.1 < lo.1 {
                lo.1 - k
            } else {
                lo.1
            };
            let f = Field(nx, ny);
            proof {
                assert(on_seg(lo, hi, k as int, f));
            }
            v.push(f);
            k += 1;
        }
        proof {
            assert forall|j: int| 0 <= j < v@.len() implies v@[j] == open_segment(t, a)[j] by {
                assert(on_seg(lo, hi, j + 1, v@[j]));
            }
            assert(v@ =~= open_segment(t, a));
            assert forall|i: int, j: int|
                0 <= i < v@.len() && 0 <= j < v@.len() && i != j implies v@[i] != v@[j] by {
                if v@[i] == v@[j] {
                    lemma_on_seg_unique_k(lo, hi, i + 1, j + 1, v@[i]);
                }
            }
            assert forall|f: Field| #[trigger] v@.contains(f) <==> between(t, a, f) by {
                lemma_between_symmetric(t, a, f);
                if v@.contains(f) {
                    let j = choose|j: int| 0 <= j < v@.len() && v@[j] == f;
                    assert(on_seg(lo, hi, j + 1, f));
                    assert(between(lo, hi, f));
                }
                if between(t, a, f) {
                    assert(between(lo, hi, f));
                    let k0 = choose|k0: int|
                        0 < k0 < cheb(lo, hi) && #[trigger] on_seg(lo, hi, k0, f);
                    assert(on_seg(lo, hi, (k0 - 1) + 1, v@[k0 - 1]));
                    lemma_on_seg_unique_point(lo, hi, k0, f, v@[k0 - 1]);
                    assert(v@[k0 - 1] == f);
                    assert(v@.contains(f));
                }
            }
        }
        Some(v)
    }

    /// Check if a given move is valid: whether placing a piece of `color`
    /// on `field` captures at least one opposing piece.
    ///
    /// Returns the fields captured by the move, each listed once, if the
    /// move is valid, and otherwise reports whether the target was out of
    /// bounds, already occupied, or captures nothing.
    pub fn move_validity(&self, field: Field, color: Color) -> (r: Result<Vec<Field>, PlaceError>)
        ensures
            r is Ok <==> is_legal_spec(self@, field, color),
            !field.in_bounds_spec() ==> r == Err::<Vec<Field>, PlaceError>(PlaceError::OutOfBounds),
            field.in_bounds_spec() && self@[lin(field)] is Some ==> r == Err::<
                Vec<Field>,
                PlaceError,
            >(PlaceError::Occupied),
            field.in_bounds_spec() && self@[lin(field)] is None && !has_capture(
                self@,
                field,
                color,
            ) ==> r == Err::<Vec<Field>, PlaceError>(PlaceError::CapturesNone),
            r matches Ok(v) ==> {
                &&& forall|f: Field| #[trigger] v@.contains(f) <==> captured(self@, field, color, f)
                &&& v@ == captures_upto(self@, field, color, 64)
                &&& v@.no_duplicates()
                &&& v@.len() >= 1
            },
    {
        if !field.in_bounds() {
            return Err(PlaceError::OutOfBounds);
        }
        if self.get(field).is_some() {
            return Err(PlaceError::Occupied);
        }
        let neighbors = field.neighbors();
        let mut any_occupied = false;
        let mut ni: usize = 0;
        while ni < neighbors.len()
            invariant
                ni <= neighbors@.len(),
                field.in_bounds(),
                forall|f: Field| neighbors@.contains(f) <==> (#[trigger] f.in_bounds_spec() && cheb(
                    field,
                    f,
                ) == 1),
                !any_occupied ==> forall|j: int|
                    0 <= j < ni ==> self@[lin(#[trigger] neighbors@[j])] is None,
            decreases neighbors@.len() - ni,
        {
            let nb = neighbors[ni];
            proof {
                assert(neighbors@.contains(neighbors@[ni as int]));
            }
            if self.get(nb).is_some() {
                any_occupied = true;
            }
            ni += 1;
        }
        if !any_occupied {
            proof {
                assert forall|f: Field| #[trigger] f.in_bounds_spec() && cheb(field, f)
                    == 1 implies self@[lin(f)] is None by {
                    assert(neighbors@.contains(f));
                    let j = choose|j: int| 0 <= j < neighbors@.len() && neighbors@[j] == f;
                }
                lemma_no_occupied_neighbor_no_capture(self@, field, color);
            }
            return Err(PlaceError::CapturesNone);
        }
        let mut captured_pieces: Vec<Field> = Vec::new();
        let mut i: usize = 0;
        while i < 64
            invariant
                i <= 64,
                field.in_bounds(),
                self@[lin(field)] is None,
                self@.len() == 64,
                forall|f: Field| #[trigger]
                    captured_pieces@.contains(f) ==> exists|a: Field|
                        (#[trigger] capture_anchor(self@, field, color, a)) && a.0 * 8 + a.1 < i
                            && between(field, a, f),
                forall|a: Field|
                    (#[trigger] capture_anchor(self@, field, color, a)) && a.0 * 8 + a.1 < i
                        ==> forall|f: Field| #[trigger]
                        between(field, a, f) ==> captured_pieces@.contains(f),
                captured_pieces@ == captures_upto(self@, field, color, i as int),
                captured_pieces@.no_duplicates(),
            decreases 64 - i,
        {
            let ghost prev = captured_pieces@;
            let ghost mut added: Seq<Field> = Seq::empty();
            let ghost mut anchor_good: bool = false;
            let anchor = Field::nth(i);
            proof {
                assert(anchor.0 * 8 + anchor.1 == i);
            }
            let anchor_cell = self.get(anchor);
            match anchor_cell {
                Some(c) => if c == color {
                    match Board::line_between((field, anchor)) {
                        Some(line) => {
                            let opp = color.other();
                            let mut all_opp = true;
                            let mut j: usize = 0;
                            while j < line.len()
                                invariant
                                    j <= line@.len(),
                                    self@.len() == 64,
                                    forall|q: int|
                                        0 <= q < line@.len() ==> (#[trigger] line@[q]).in_bounds_spec(),
                                    opp == color.other_spec(),
                                    all_opp ==> forall|q: int|
                                        0 <= q < j ==> self@[lin(#[trigger] line@[q])] == Some(opp),
                                    !all_opp ==> exists|q: int|
                                        0 <= q < line@.len() && self@[lin(#[trigger] line@[q])]
                                            != Some(opp),
                                decreases line@.len() - j,
                            {
                                let lf = line[j];
                                let cell = self.get(lf);
                                let keep = match cell {
                                    Some(lc) => lc == opp,
                                    None => false,
                                };
                                if !keep {
                                    all_opp = false;
                                }
                                j += 1;
                            }
                            if all_opp {
                                proof {
                                    assert forall|f: Field| between(field, anchor, f) implies self@[lin(
                                        f,
                                    )] == Some(color.other_spec()) by {
                                        assert(line@.contains(f));
                                        let q = choose|q: int|
                                            0 <= q < line@.len() && line@[q] == f;
                                        assert(self@[lin(line@[q])] == Some(opp));
                                    }
                                    assert(capture_anchor(self@, field, color, anchor));
                                    assert forall|f: Field| line@.contains(f) implies !prev.contains(
                                        f,
                                    ) by {
                                        if prev.contains(f) {
                                            let a_prev = choose|a: Field|
                                                (#[trigger] capture_anchor(
                                                    self@,
                                                    field,
                                                    color,
                                                    a,
                                                )) && a.0 * 8 + a.1 < i && between(field, a, f);
                                            assert(between(field, anchor, f));
                                            lemma_capture_anchor_unique(
                                                self@,
                                                field,
                                                color,
                                                a_prev,
                                                anchor,
                                                f,
                                            );
                                        }
                                    }
                                    assert forall|m: int, q: int|
                                        0 <= m < prev.len() && 0 <= q
                                            < line@.len() implies prev[m] != line@[q] by {
                                        if prev[m] == line@[q] {
                                            assert(prev.contains(prev[m]));
                                            assert(line@.contains(line@[q]));
                                        }
                                    }
                                    lemma_no_dup_in_concat(prev, line@);
                                    added = line@;
                                    anchor_good = true;
                                    assert(added == open_segment(field, anchor));
                                }
                                let mut line_vec = line;
                                captured_pieces.append(&mut line_vec);
                            } else {
                                proof {
                                    let q = choose|q: int|
                                        0 <= q < line@.len() && self@[lin(line@[q])] != Some(opp);
                                    assert(line@.contains(line@[q]));
                                    assert(between(field, anchor, line@[q]));
                                    assert(!open_line(self@, field, anchor, color));
                                }
                            }
                        },
                        None => {
                            proof {
                                assert(!open_line(self@, field, anchor, color));
                            }
                        },
                    }
                } else {
                    proof {
                        assert(!capture_anchor(self@, field, color, anchor));
                    }
                },
                None => {
                    proof {
                        assert(!capture_anchor(self@, field, color, anchor));
                    }
                },
            }
            proof {
                if !anchor_good {
                    assert(captured_pieces@ =~= prev + added);
                }
                assert(captured_pieces@ == prev + added);
                assert(anchor_good ==> capture_anchor(self@, field, color, anchor) && (forall|
                    f: Field,
                | #[trigger] between(field, anchor, f) <==> added.contains(f)));
                assert(!anchor_good ==> !capture_anchor(self@, field, color, anchor) && added
                    == Seq::<Field>::empty());
                assert(all_fields_seq()[i as int] == anchor);
                assert(anchor_line(self@, field, color, anchor) == added);
                assert(captured_pieces@ == captures_upto(self@, field, color, i + 1));
                // Everything now listed arose from an anchor at index at
                // most `i`.
                assert forall|f: Field| #[trigger] captured_pieces@.contains(f) implies exists|
                    a: Field,
                |
                    (#[trigger] capture_anchor(self@, field, color, a)) && a.0 * 8 + a.1 < i + 1
                        && between(field, a, f) by {
                    let m = choose|m: int|
                        0 <= m < captured_pieces@.len() && captured_pieces@[m] == f;
                    if m < prev.len() {
                        assert(prev[m] == f);
                        assert(prev.contains(f));
                    } else {
                        assert(added[m - prev.len()] == f);
                        assert(added.contains(f));
                        assert(anchor_good);
                        assert(capture_anchor(self@, field, color, anchor) && anchor.0 * 8
                            + anchor.1 < i + 1 && between(field, anchor, f));
                    }
                }
                // Every anchor at index at most `i` has its whole line
                // listed.
                assert forall|a: Field|
                    (#[trigger] capture_anchor(self@, field, color, a)) && a.0 * 8 + a.1 < i
                        + 1 implies forall|f: Field| #[trigger]
                    between(field, a, f) ==> captured_pieces@.contains(f) by {
                    if a.0 * 8 + a.1 < i {
                        assert forall|f: Field| #[trigger] between(field, a, f) implies captured_pieces@.contains(
                            f,
                        ) by {
                            assert(prev.contains(f));
                            let m = choose|m: int| 0 <= m < prev.len() && prev[m] == f;
                            assert(captured_pieces@[m] == f);
                        }
                    } else {
                        lemma_enum_index_injective(a, anchor);
                        assert(a == anchor);
                        assert(anchor_good);
                        assert forall|f: Field| #[trigger] between(field, a, f) implies captured_pieces@.contains(
                            f,
                        ) by {
                            assert(added.contains(f));
                            let q = choose|q: int| 0 <= q < added.len() && added[q] == f;
                            assert(captured_pieces@[prev.len() + q] == f);
                        }
                    }
                }
            }
            i += 1;
        }
        proof {
            assert forall|f: Field| #[trigger]
                captured_pieces@.contains(f) <==> captured(self@, field, color, f) by {
                if captured(self@, field, color, f) {
                    let a = choose|a: Field| #[trigger]
                        capture_anchor(self@, field, color, a) && between(field, a, f);
                    assert(a.0 * 8 + a.1 < 64);
                    assert(captured_pieces@.contains(f));
                }
            }
        }
        if captured_pieces.is_empty() {
            proof {
                if has_capture(self@, field, color) {
                    let f = choose|f: Field| #[trigger] captured(self@, field, color, f);
                    assert(captured_pieces@.contains(f));
                    assert(false);
                }
            }
            return Err(PlaceError::CapturesNone);
        }
        proof {
            assert(captured_pieces@.contains(captured_pieces@[0]));
            assert(captured(self@, field, color, captured_pieces@[0]));
            assert(has_capture(self@, field, color));
        }
        Ok(captured_pieces)
    }
}

/// The final verdict of a finished game: the color with more pieces
/// wins, equal counts draw.
pub open spec fn final_status_spec(cells: Seq<Option<Color>>) -> GameStatus {
    if count_in(cells, Color::White) < count_in(cells, Color::Black) {
        GameStatus::Win(Color::Black)
    } else if count_in(cells, Color::White) > count_in(cells, Color::Black) {
        GameStatus::Win(Color::White)
    } else {
        GameStatus::Draw
    }
}

/// Every cell holds a piece.
pub open spec fn full_board(cells: Seq<Option<Color>>) -> bool {
    forall|i: int| 0 <= i < cells.len() ==> cells[i] is Some
}

/// `color` has at least one legal move.
pub open spec fn has_move(cells: Seq<Option<Color>>, color: Color) -> bool {
    exists|f: Field| #[trigger] is_legal_spec(cells, f, color)
}

/// The status of a game: a full board is scored by piece count; on a
/// board that is not full, a color with no pieces left has lost, a board
/// where neither color can move is scored by piece count (the double
/// pass), and otherwise the game goes on.
pub open spec fn status_spec(cells: Seq<Option<Color>>) -> GameStatus {
    if !full_board(cells) {
        if count_in(cells, Color::White) == 0 {
            GameStatus::Win(Color::Black)
        } else if count_in(cells, Color::Black) == 0 {
            GameStatus::Win(Color::White)
        } else if !has_move(cells, Color::White) && !has_move(cells, Color::Black) {
            final_status_spec(cells)
        } else {
            GameStatus::InProgress
        }
    } else {
        final_status_spec(cells)
    }
}

/// A color has no legal move exactly when its legal-move list is empty.
pub proof fn lemma_no_moves(cells: Seq<Option<Color>>, color: Color)
    ensures
        legal_moves_spec(cells, color).len() == 0 <==> !has_move(cells, color),
{
    let moves = legal_moves_spec(cells, color);
    if moves.len() > 0 {
        assert(moves.contains(moves[0]));
        lemma_filter_contains_iff(all_fields_seq(), legal_pred(cells, color), moves[0]);
        assert(legal_pred(cells, color)(moves[0]) == is_legal_spec(cells, moves[0], color));
        assert(is_legal_spec(cells, moves[0], color));
    }
    if has_move(cells, color) {
        let f = choose|f: Field| #[trigger] is_legal_spec(cells, f, color);
        lemma_all_fields_contains(f);
        lemma_filter_contains_iff(all_fields_seq(), legal_pred(cells, color), f);
        assert(legal_pred(cells, color)(f) == is_legal_spec(cells, f, color));
        assert(moves.contains(f));
    }
}

/// The cells of a board rewritten for the results display: scanning the
/// cell array backward, first all White pieces, then the empty cells,
/// then all Black pieces.
pub open spec fn sorted_spec(wc: int, bc: int) -> Seq<Option<Color>> {
    Seq::new(
        64,
        |i: int|
            if 63 - i < wc {
                Some(Color::White)
            } else if 63 - i < 64 - bc {
                None
            } else {
                Some(Color::Black)
            },
    )
}

impl Board {
    /// Check if a given move is valid.
    pub fn is_valid(&self, field: Field, color: Color) -> (r: bool)
        ensures
            r == is_legal_spec(self@, field, color),
    {
        self.move_validity(field, color).is_ok()
    }

    /// Return all valid moves a given color can make, in the fixed
    /// enumeration order.
    pub fn valid_moves(&self, color: Color) -> (r: Vec<Field>)
        ensures
            r@ == legal_moves_spec(self@, color),
    {
        let mut r: Vec<Field> = Vec::new();
        let mut i: usize = 0;
        while i < 64
            invariant
                i <= 64,
                r@ == all_fields_seq().take(i as int).filter(legal_pred(self@, color)),
            decreases 64 - i,
        {
            let f = Field::nth(i);
            proof {
                lemma_filter_take_step(all_fields_seq(), legal_pred(self@, color), i as int);
                assert(legal_pred(self@, color)(f) == is_legal_spec(self@, f, color));
            }
            if self.is_valid(f, color) {
                r.push(f);
            }
            i += 1;
        }
        proof {
            lemma_take_all(all_fields_seq());
        }
        r
    }

    /// Add a piece to the board and execute all captures: the target
    /// takes the new piece and every captured field flips its color. A
    /// rejected move leaves the board untouched and reports the same
    /// failure as `move_validity`.
    pub fn add_piece(&mut self, field: Field, color: Color) -> (r: Result<Vec<Field>, PlaceError>)
        ensures
            r is Ok <==> is_legal_spec(old(self)@, field, color),
            r is Err ==> *final(self) == *old(self),
            !field.in_bounds_spec() ==> r == Err::<Vec<Field>, PlaceError>(PlaceError::OutOfBounds),
            field.in_bounds_spec() && old(self)@[lin(field)] is Some ==> r == Err::<
                Vec<Field>,
                PlaceError,
            >(PlaceError::Occupied),
            field.in_bounds_spec() && old(self)@[lin(field)] is None && !has_capture(
                old(self)@,
                field,
                color,
            ) ==> r == Err::<Vec<Field>, PlaceError>(PlaceError::CapturesNone),
            r matches Ok(v) ==> {
                &&& forall|f: Field| #[trigger]
                    v@.contains(f) <==> captured(old(self)@, field, color, f)
                &&& v@ == captures_upto(old(self)@, field, color, 64)
                &&& v@.no_duplicates()
                &&& v@.len() >= 1
                &&& final(self)@ == apply_move_spec(old(self)@, field, color)
            },
    {
        let ghost orig = self@;
        let captured_pieces = match self.move_validity(field, color) {
            Ok(v) => v,
            Err(e) => {
                return Err(e);
            },
        };
        self.add_piece_unchecked(field, color);
        let mut idx: usize = 0;
        while idx < captured_pieces.len()
            invariant
                idx <= captured_pieces@.len(),
                field.in_bounds(),
                orig.len() == 64,
                self@.len() == 64,
                orig[lin(field)] is None,
                forall|f: Field| #[trigger]
                    captured_pieces@.contains(f) <==> captured(orig, field, color, f),
                captured_pieces@.no_duplicates(),
                forall|i: int|
                    0 <= i < 64 ==> self@[i] == (if i == lin(field) {
                        Some(color)
                    } else if (exists|q: int|
                        0 <= q < idx && lin(#[trigger] captured_pieces@[q]) == i) {
                        Some(color)
                    } else {
                        orig[i]
                    }),
            decreases captured_pieces@.len() - idx,
        {
            let cf = captured_pieces[idx];
            proof {
                assert(captured_pieces@.contains(captured_pieces@[idx as int]));
                lemma_captured_cell(orig, field, color, cf);
                // No earlier step has touched this cell: captured fields
                // are listed once, and distinct in-bounds fields have
                // distinct linear indices.
                assert forall|q: int| 0 <= q < idx implies lin(captured_pieces@[q]) != lin(
                    cf,
                ) by {
                    assert(captured_pieces@.contains(captured_pieces@[q]));
                    lemma_captured_cell(orig, field, color, captured_pieces@[q]);
                    if lin(captured_pieces@[q]) == lin(cf) {
                        assert(field_of(lin(captured_pieces@[q])) == field_of(lin(cf)));
                        lemma_lin_bijective(captured_pieces@[q]);
                        lemma_lin_bijective(cf);
                        assert(captured_pieces@[q] == cf);
                    }
                }
                assert(lin(cf) != lin(field)) by {
                    if lin(cf) == lin(field) {
                        lemma_lin_bijective(cf);
                        lemma_lin_bijective(field);
                        assert(cf == field);
                    }
                }
                assert(self@[lin(cf)] == orig[lin(cf)]);
                assert(orig[lin(cf)] == Some(color.other_spec()));
            }
            let ghost before = self@;
            self.flip(cf);
            proof {
                assert(self@[lin(cf)] == Some(color.other_spec().other_spec()));
                assert(color.other_spec().other_spec() == color);
                assert forall|i: int| 0 <= i < 64 implies self@[i] == (if i == lin(field) {
                    Some(color)
                } else if (exists|q: int|
                    0 <= q < idx + 1 && lin(#[trigger] captured_pieces@[q]) == i) {
                    Some(color)
                } else {
                    orig[i]
                }) by {
                    if i == lin(cf) {
                        assert(lin(captured_pieces@[idx as int]) == i);
                    } else {
                        assert(self@[i] == before[i]);
                        if exists|q: int|
                            0 <= q < idx + 1 && lin(#[trigger] captured_pieces@[q]) == i {
                            let q = choose|q: int|
                                0 <= q < idx + 1 && lin(#[trigger] captured_pieces@[q]) == i;
                            assert(q < idx);
                        }
                    }
                }
            }
            idx += 1;
        }
        proof {
            assert forall|i: int| 0 <= i < 64 implies self@[i] == apply_move_spec(
                orig,
                field,
                color,
            )[i] by {
                assert(lin(field_of(i)) == i);
                if i != lin(field) {
                    if captured(orig, field, color, field_of(i)) {
                        assert(captured_pieces@.contains(field_of(i)));
                        let q = choose|q: int|
                            0 <= q < captured_pieces@.len() && captured_pieces@[q] == field_of(i);
                        assert(lin(captured_pieces@[q]) == i);
                        assert(self@[i] == Some(color));
                    } else {
                        if exists|q: int|
                            0 <= q < captured_pieces@.len() && lin(
                                #[trigger] captured_pieces@[q],
                            ) == i {
                            let q = choose|q: int|
                                0 <= q < captured_pieces@.len() && lin(
                                    #[trigger] captured_pieces@[q],
                                ) == i;
                            assert(captured_pieces@.contains(captured_pieces@[q]));
                            lemma_captured_cell(orig, field, color, captured_pieces@[q]);
                            lemma_lin_bijective(captured_pieces@[q]);
                            assert(captured_pieces@[q] == field_of(i));
                            assert(false);
                        }
                        assert(self@[i] == orig[i]);
                    }
                }
            }
            assert(self@ =~= apply_move_spec(orig, field, color));
        }
        Ok(captured_pieces)
    }

    /// Return the game status, assuming the game is done.
    fn final_status(&self) -> (r: GameStatus)
        ensures
            r == final_status_spec(self@),
    {
        let white = self.count_pieces(Color::White);
        let black = self.count_pieces(Color::Black);
        if white < black {
            GameStatus::Win(Color::Black)
        } else if white > black {
            GameStatus::Win(Color::White)
        } else {
            GameStatus::Draw
        }
    }

    /// Check for the game status.
    pub fn status(&self) -> (r: GameStatus)
        ensures
            r == status_spec(self@),
    {
        let mut all_occupied = true;
        let mut i: usize = 0;
        while i < 64
            invariant
                i <= 64,
                self@.len() == 64,
                all_occupied ==> forall|j: int| 0 <= j < i ==> self@[j] is Some,
                !all_occupied ==> !full_board(self@),
            decreases 64 - i,
        {
            if self.cells[i].is_none() {
                all_occupied = false;
            }
            i += 1;
        }
        if !all_occupied {
            let white = self.count_pieces(Color::White);
            let black = self.count_pieces(Color::Black);
            if white == 0 {
                GameStatus::Win(Color::Black)
            } else if black == 0 {
                GameStatus::Win(Color::White)
            } else {
                let white_moves = self.valid_moves(Color::White);
                let black_moves = self.valid_moves(Color::Black);
                proof {
                    lemma_no_moves(self@, Color::White);
                    lemma_no_moves(self@, Color::Black);
                }
                if white_moves.is_empty() && black_moves.is_empty() {
                    self.final_status()
                } else {
                    GameStatus::InProgress
                }
            }
        } else {
            self.final_status()
        }
    }

    /// Sorts the board for displaying purposes: scanning the cell array
    /// backward, first all White pieces, then the empty cells, then all
    /// Black pieces, keeping every piece count.
    pub fn sort(&mut self)
        ensures
            final(self)@ == sorted_spec(
                count_in(old(self)@, Color::White) as int,
                count_in(old(self)@, Color::Black) as int,
            ),
    {
        let white_count = self.count_pieces(Color::White);
        let black_count = self.count_pieces(Color::Black);
        proof {
            lemma_count_le_len(self@, Color::White);
            lemma_count_le_len(self@, Color::Black);
        }
        let ghost wc = white_count as int;
        let ghost bc = black_count as int;
        let mut i: usize = 0;
        while i < 64
            invariant
                i <= 64,
                self@.len() == 64,
                white_count as int == wc,
                black_count as int == bc,
                black_count <= 64,
                forall|j: int| 64 - i <= j < 64 ==> self@[j] == sorted_spec(wc, bc)[j],
            decreases 64 - i,
        {
            let target: usize = 63 - i;
            let value = if i < white_count {
                Some(Color::White)
            } else if i < 64 - black_count {
                None
            } else {
                Some(Color::Black)
            };
            self.cells[target] = value;
            i += 1;
        }
        proof {
            assert(self@ =~= sorted_spec(wc, bc));
        }
    }
}

/// A freshly initialized board holds exactly two White and two Black
/// pieces, on the four center cells, and its game is in progress.
pub proof fn lemma_new_board_in_progress()
    ensures
        count_in(new_board_spec(), Color::White) == 2,
        count_in(new_board_spec(), Color::Black) == 2,
        status_spec(new_board_spec()) == GameStatus::InProgress,
{
    let cells = new_board_spec();
    let e = Seq::new(64, |i: int| None::<Color>);
    let s1 = e.update(27, Some(Color::White));
    let s2 = s1.update(36, Some(Color::White));
    let s3 = s2.update(35, Some(Color::Black));
    let s4 = s3.update(28, Some(Color::Black));
    lemma_count_all_empty(e, Color::White);
    lemma_count_all_empty(e, Color::Black);
    lemma_count_update(e, Color::White, 27, Some(Color::White));
    lemma_count_update(s1, Color::White, 36, Some(Color::White));
    lemma_count_update(s2, Color::White, 35, Some(Color::Black));
    lemma_count_update(s3, Color::White, 28, Some(Color::Black));
    lemma_count_update(e, Color::Black, 27, Some(Color::White));
    lemma_count_update(s1, Color::Black, 36, Some(Color::White));
    lemma_count_update(s2, Color::Black, 35, Some(Color::Black));
    lemma_count_update(s3, Color::Black, 28, Some(Color::Black));
    assert(s4 =~= cells);
    assert(count_in(cells, Color::White) == 2);
    assert(count_in(cells, Color::Black) == 2);
    // The board is not full, both colors have pieces, and White can
    // move: the cell left of the center cluster captures the Black
    // piece beside it.
    assert(cells[0] is None);
    assert(!full_board(cells));
    let t = Field(2, 4);
    let anchor = Field(4, 4);
    let cap = Field(3, 4);
    assert(on_seg(t, anchor, 1, cap));
    assert(between(t, anchor, cap));
    assert forall|f: Field| #[trigger] between(t, anchor, f) implies cells[lin(f)] == Some(
        Color::White.other_spec(),
    ) by {
        let k = choose|k: int| 0 < k < cheb(t, anchor) && #[trigger] on_seg(t, anchor, k, f);
        assert(k == 1);
        assert(f.0 == 3 && f.1 == 4);
        assert(lin(f) == 35);
    }
    assert(open_line(cells, t, anchor, Color::White));
    assert(cells[lin(anchor)] == Some(Color::White));
    assert(capture_anchor(cells, t, Color::White, anchor));
    assert(captured(cells, t, Color::White, cap));
    assert(has_capture(cells, t, Color::White));
    assert(cells[lin(t)] is None);
    assert(is_legal_spec(cells, t, Color::White));
    assert(has_move(cells, Color::White));
    assert(status_spec(cells) == GameStatus::InProgress);
}

/// The legal-move query is a function of the board and color alone: any
/// two results of `valid_moves` for one board and one color are the
/// same list, in the same order.
pub proof fn lemma_valid_moves_deterministic(
    cells: Seq<Option<Color>>,
    color: Color,
    r1: Seq<Field>,
    r2: Seq<Field>,
)
    requires
        r1 == legal_moves_spec(cells, color),
        r2 == legal_moves_spec(cells, color),
    ensures
        r1 == r2,
{
}

impl Default for Board {
    /// The default board is the starting position.
    fn default() -> (r: Board)
        ensures
            r@ == new_board_spec(),
    {
        Board::new()
    }
}

} // verus!
