//! Players: the capability a game loop needs from a player, and the
//! minimax bot with its adversarial search.

use crate::reversi::board::apply_move_spec;
use crate::reversi::board::count_in;
use crate::reversi::board::is_legal_spec;
use crate::reversi::board::legal_moves_spec;
use crate::reversi::board::legal_pred;
use crate::reversi::board::lemma_count_le_len;
use crate::reversi::board::status_spec;
use crate::reversi::board::Board;
use crate::reversi::board::GameStatus;
use crate::reversi::display::DisplayOptions;
use crate::reversi::field::all_fields_seq;
use crate::reversi::field::Field;
use crate::reversi::Color;
use crate::seq_facts::lemma_filter_contains_iff;
use crate::seq_facts::lemma_take_all;
use vstd::prelude::*;

verus! {

/// What the driving game loop asks of a player: given a board, produce a
/// move choice, or none to pass.
pub trait Player {
    /// Choose a move on `board`, or pass.
    fn turn(&self, board: &Board) -> Option<Field>;

    /// The color this player plays.
    fn color(&self) -> Color;

    /// The player's display name.
    fn name(&self) -> String;

    /// How the board should be drawn before this player's turn.
    fn redraw_options(&self) -> DisplayOptions;
}

/// A strategy for the minimax bot. White always maximizes the board
/// evaluation and Black always minimizes it.
#[derive(Debug, Eq, PartialEq, Clone, Copy, Structural)]
pub enum MinimaxStrategy {
    /// Minimize the board evaluation.
    Minimize,
    /// Maximize the board evaluation.
    Maximize,
}

/// The opposite strategy.
pub open spec fn other_strategy(s: MinimaxStrategy) -> MinimaxStrategy {
    match s {
        MinimaxStrategy::Minimize => MinimaxStrategy::Maximize,
        MinimaxStrategy::Maximize => MinimaxStrategy::Minimize,
    }
}

/// The most suboptimal evaluation for a strategy: the one every real
/// evaluation improves on.
pub open spec fn worst_spec(s: MinimaxStrategy) -> int {
    match s {
        MinimaxStrategy::Minimize => i32::MAX as int,
        MinimaxStrategy::Maximize => i32::MIN as int,
    }
}

/// The color a strategy moves for.
pub open spec fn strategy_color(s: MinimaxStrategy) -> Color {
    match s {
        MinimaxStrategy::Minimize => Color::Black,
        MinimaxStrategy::Maximize => Color::White,
    }
}

/// The strategy bound to a color.
pub open spec fn color_strategy(c: Color) -> MinimaxStrategy {
    match c {
        Color::Black => MinimaxStrategy::Minimize,
        Color::White => MinimaxStrategy::Maximize,
    }
}

impl MinimaxStrategy {
    /// Get the opposite of this strategy.
    pub fn other(&self) -> (r: MinimaxStrategy)
        ensures
            r == other_strategy(*self),
    {
        match self {
            MinimaxStrategy::Minimize => MinimaxStrategy::Maximize,
            MinimaxStrategy::Maximize => MinimaxStrategy::Minimize,
        }
    }

    /// Get the most suboptimal evaluation for this strategy.
    pub fn worst_value(&self) -> (r: i32)
        ensures
            r as int == worst_spec(*self),
    {
        match self {
            MinimaxStrategy::Minimize => i32::MAX,
            MinimaxStrategy::Maximize => i32::MIN,
        }
    }
}

/// A color can be turned into the strategy it plays by.
impl From<Color> for MinimaxStrategy {
    fn from(color: Color) -> (r: MinimaxStrategy) {
        match color {
            Color::White => MinimaxStrategy::Maximize,
            Color::Black => MinimaxStrategy::Minimize,
        }
    }
}

impl vstd::std_specs::convert::FromSpecImpl<Color> for MinimaxStrategy {
    open spec fn obeys_from_spec() -> bool {
        true
    }

    open spec fn from_spec(color: Color) -> MinimaxStrategy {
        color_strategy(color)
    }
}

/// A strategy names the color that plays by it.
impl From<MinimaxStrategy> for Color {
    fn from(strategy: MinimaxStrategy) -> (r: Color) {
        match strategy {
            MinimaxStrategy::Minimize => Color::Black,
            MinimaxStrategy::Maximize => Color::White,
        }
    }
}

impl vstd::std_specs::convert::FromSpecImpl<MinimaxStrategy> for Color {
    open spec fn obeys_from_spec() -> bool {
        true
    }

    open spec fn from_spec(strategy: MinimaxStrategy) -> Color {
        strategy_color(strategy)
    }
}

/// The static evaluation of a board: the maximum representable value for
/// a White win, the minimum for a Black win, zero for a draw, and the
/// material differential, White minus Black, for a game in progress.
pub open spec fn eval_spec(cells: Seq<Option<Color>>) -> int {
    match status_spec(cells) {
        GameStatus::Win(c) => if c == Color::White {
            i32::MAX as int
        } else {
            i32::MIN as int
        },
        GameStatus::Draw => 0,
        GameStatus::InProgress => count_in(cells, Color::White) - count_in(cells, Color::Black),
    }
}

/// The value and chosen move of a depth-bounded minimax search. At the
/// horizon, or on a finished board, the static evaluation stands and no
/// move is chosen. Otherwise the strategy's color tries each of its
/// legal moves in enumeration order and keeps the last one whose child
/// evaluation ties or beats the best so far; with no legal move the
/// worst possible value stands, scoring a forced pass as a loss for the
/// side to move.
pub open spec fn minimax_spec(
    cells: Seq<Option<Color>>,
    depth: nat,
    strategy: MinimaxStrategy,
) -> (Option<Field>, int)
    decreases depth, 1int, 0int,
{
    if depth == 0 || status_spec(cells) != GameStatus::InProgress {
        (None, eval_spec(cells))
    } else {
        best_over(cells, depth, strategy, legal_moves_spec(cells, strategy_color(strategy)))
    }
}

/// The best choice over a prefix of the legal-move list, as `minimax`
/// tracks it: later candidates replace the current best on ties. The
/// search only descends here with a positive depth; the zero-depth
/// branch merely keeps the recursion well founded.
pub open spec fn best_over(
    cells: Seq<Option<Color>>,
    depth: nat,
    strategy: MinimaxStrategy,
    moves: Seq<Field>,
) -> (Option<Field>, int)
    decreases depth, 0int, moves.len(),
{
    if moves.len() == 0 {
        (None, worst_spec(strategy))
    } else {
        let prev = best_over(cells, depth, strategy, moves.drop_last());
        let m = moves.last();
        let child = apply_move_spec(cells, m, strategy_color(strategy));
        let ev = if depth == 0 {
            worst_spec(strategy)
        } else {
            minimax_spec(child, (depth - 1) as nat, other_strategy(strategy)).1
        };
        let replaces = match strategy {
            MinimaxStrategy::Minimize => ev <= prev.1,
            MinimaxStrategy::Maximize => ev >= prev.1,
        };
        if replaces {
            (Some(m), ev)
        } else {
            prev
        }
    }
}

/// A choice tracked over a prefix of the legal-move list is drawn from
/// that prefix.
proof fn lemma_best_over_in_moves(
    cells: Seq<Option<Color>>,
    depth: nat,
    strategy: MinimaxStrategy,
    moves: Seq<Field>,
)
    ensures
        best_over(cells, depth, strategy, moves).0 matches Some(f) ==> moves.contains(f),
    decreases moves.len(),
{
    if moves.len() > 0 {
        lemma_best_over_in_moves(cells, depth, strategy, moves.drop_last());
        match best_over(cells, depth, strategy, moves).0 {
            Some(f) => {
                if best_over(cells, depth, strategy, moves.drop_last()).0 == Some(f) {
                    assert(moves.drop_last().contains(f));
                    let m = choose|m: int|
                        0 <= m < moves.drop_last().len() && moves.drop_last()[m] == f;
                    assert(moves[m] == f);
                } else {
                    assert(moves[moves.len() - 1] == f);
                }
            },
            None => {},
        }
    }
}

/// The search only ever chooses a legal move: a coordinate the minimax
/// search yields is in the legal-move list of the side to move.
pub proof fn lemma_minimax_move_is_legal(
    cells: Seq<Option<Color>>,
    depth: nat,
    strategy: MinimaxStrategy,
)
    ensures
        minimax_spec(cells, depth, strategy).0 matches Some(f) ==> legal_moves_spec(
            cells,
            strategy_color(strategy),
        ).contains(f),
{
    if !(depth == 0 || status_spec(cells) != GameStatus::InProgress) {
        lemma_best_over_in_moves(
            cells,
            depth,
            strategy,
            legal_moves_spec(cells, strategy_color(strategy)),
        );
    }
}

/// The value tracked over a prefix of the legal-move list belongs to
/// the tracked choice: whenever a move is chosen, the tracked value is
/// that move's child value.
proof fn lemma_best_over_value(
    cells: Seq<Option<Color>>,
    depth: nat,
    strategy: MinimaxStrategy,
    moves: Seq<Field>,
)
    requires
        depth >= 1,
    ensures
        best_over(cells, depth, strategy, moves).0 matches Some(f) ==> best_over(
            cells,
            depth,
            strategy,
            moves,
        ).1 == minimax_spec(
            apply_move_spec(cells, f, strategy_color(strategy)),
            (depth - 1) as nat,
            other_strategy(strategy),
        ).1,
    decreases moves.len(),
{
    if moves.len() > 0 {
        lemma_best_over_value(cells, depth, strategy, moves.drop_last());
    }
}

/// The value the search reports for a chosen move is that move's own
/// value: the minimax value of the board after the move, searched one
/// level shallower for the opposing strategy.
pub proof fn lemma_minimax_value_of_choice(
    cells: Seq<Option<Color>>,
    depth: nat,
    strategy: MinimaxStrategy,
)
    ensures
        minimax_spec(cells, depth, strategy).0 matches Some(f) ==> minimax_spec(
            cells,
            depth,
            strategy,
        ).1 == minimax_spec(
            apply_move_spec(cells, f, strategy_color(strategy)),
            (depth - 1) as nat,
            other_strategy(strategy),
        ).1,
{
    if !(depth == 0 || status_spec(cells) != GameStatus::InProgress) {
        lemma_best_over_value(
            cells,
            depth,
            strategy,
            legal_moves_spec(cells, strategy_color(strategy)),
        );
    }
}

/// At depth one, the value reported for a chosen move is the static
/// evaluation of the board right after that single move — for a
/// position still in progress, the material differential, White minus
/// Black.
pub proof fn lemma_minimax_depth_one_value(cells: Seq<Option<Color>>, strategy: MinimaxStrategy)
    ensures
        minimax_spec(cells, 1, strategy).0 matches Some(f) ==> minimax_spec(cells, 1, strategy).1
            == eval_spec(apply_move_spec(cells, f, strategy_color(strategy))),
{
    lemma_minimax_value_of_choice(cells, 1, strategy);
    match minimax_spec(cells, 1, strategy).0 {
        Some(f) => {
            let child = apply_move_spec(cells, f, strategy_color(strategy));
            assert(minimax_spec(child, 0, other_strategy(strategy)).1 == eval_spec(child));
        },
        None => {},
    }
}

/// A `MinimaxBot` is a player that plays using the minimax algorithm.
pub struct MinimaxBot {
    color: Color,
    depth: u8,
}

impl MinimaxBot {
    /// The color this bot plays.
    pub closed spec fn spec_color(&self) -> Color {
        self.color
    }

    /// The search depth this bot explores.
    pub closed spec fn spec_depth(&self) -> u8 {
        self.depth
    }

    /// Create a new `MinimaxBot` with the given color and depth.
    pub fn new(color: Color, depth: u8) -> (r: MinimaxBot)
        ensures
            r.spec_color() == color,
            r.spec_depth() == depth,
    {
        MinimaxBot { color, depth }
    }

    /// Evaluate a given board. This is the evaluation function used by
    /// the minimax algorithm.
    pub fn eval(&self, board: &Board) -> (r: i32)
        ensures
            r as int == eval_spec(board@),
    {
        match board.status() {
            GameStatus::Win(color) => match color {
                Color::White => i32::MAX,
                Color::Black => i32::MIN,
            },
            GameStatus::Draw => 0,
            GameStatus::InProgress => {
                proof {
                    lemma_count_le_len(board@, Color::White);
                    lemma_count_le_len(board@, Color::Black);
                }
                let white = board.count_pieces(Color::White);
                let black = board.count_pieces(Color::Black);
                (white as i32) - (black as i32)
            },
        }
    }

    /// Find the best move using the minimax algorithm: the chosen field,
    /// or none on a pass or at the horizon, together with the value of
    /// the position.
    pub fn minimax(&self, board: &Board, depth: u8, strategy: MinimaxStrategy) -> (r: (
        Option<Field>,
        i32,
    ))
        ensures
            r.0 == minimax_spec(board@, depth as nat, strategy).0,
            r.1 as int == minimax_spec(board@, depth as nat, strategy).1,
        decreases depth,
    {
        let status = board.status();
        if depth == 0 || status != GameStatus::InProgress {
            return (None, self.eval(board));
        }
        let mover: Color = Color::from(strategy);
        let moves = board.valid_moves(mover);
        let mut best_field: Option<Field> = None;
        let mut best_value: i32 = strategy.worst_value();
        let ghost cells = board@;
        let mut i: usize = 0;
        while i < moves.len()
            invariant
                i <= moves@.len(),
                1 <= depth,
                cells == board@,
                mover == strategy_color(strategy),
                status_spec(cells) == GameStatus::InProgress,
                moves@ == legal_moves_spec(cells, strategy_color(strategy)),
                best_field == best_over(cells, depth as nat, strategy, moves@.take(i as int)).0,
                best_value as int == best_over(cells, depth as nat, strategy, moves@.take(
                    i as int,
                )).1,
            decreases moves@.len() - i,
        {
            let field = moves[i];
            proof {
                assert(moves@.contains(moves@[i as int]));
                lemma_filter_contains_iff(
                    all_fields_seq(),
                    legal_pred(cells, strategy_color(strategy)),
                    field,
                );
                assert(legal_pred(cells, strategy_color(strategy))(field) == is_legal_spec(
                    cells,
                    field,
                    strategy_color(strategy),
                ));
            }
            let mut child = board.clone();
            let added = child.add_piece(field, mover);
            proof {
                assert(added is Ok);
            }
            let (_, evaluation) = self.minimax(&child, depth - 1, strategy.other());
            let replaces = match strategy {
                MinimaxStrategy::Minimize => evaluation <= best_value,
                MinimaxStrategy::Maximize => evaluation >= best_value,
            };
            if replaces {
                best_field = Some(field);
                best_value = evaluation;
            }
            proof {
                assert(moves@.take(i + 1).drop_last() =~= moves@.take(i as int));
                assert(moves@.take(i + 1).last() == moves@[i as int]);
            }
            i += 1;
        }
        proof {
            lemma_take_all(moves@);
        }
        (best_field, best_value)
    }

    /// Choose the move this bot plays on `board`: the coordinate of the
    /// minimax search at this bot's depth for its color, or none to
    /// pass.
    pub fn choose_move(&self, board: &Board) -> (r: Option<Field>)
        ensures
            r == minimax_spec(board@, self.spec_depth() as nat, color_strategy(self.spec_color())).0,
    {
        let strategy = MinimaxStrategy::from(self.color);
        let best = self.minimax(board, self.depth, strategy);
        best.0
    }
}

} // verus!
