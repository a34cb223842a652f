//! Board geometry: the coordinate type, bounds, enumeration, adjacency,
//! straight-line segments, and the two-character human notation.

use crate::reversi::board::PlaceError;
use vstd::prelude::*;
use vstd::string::StrSliceExecFns;
use vstd::string::StringExecFns;

verus! {

/// A board coordinate `(x, y)`; it addresses a cell when both components
/// are below 8.
#[derive(Debug, Eq, PartialEq, Clone, Copy, Structural)]
pub struct Field(pub usize, pub usize);

/// Absolute difference of two integers.
pub open spec fn adiff(x: int, y: int) -> int {
    if x >= y {
        x - y
    } else {
        y - x
    }
}

/// Chebyshev distance between two fields: the number of king steps from
/// one to the other.
pub open spec fn cheb(a: Field, b: Field) -> int {
    if adiff(a.0 as int, b.0 as int) >= adiff(a.1 as int, b.1 as int) {
        adiff(a.0 as int, b.0 as int)
    } else {
        adiff(a.1 as int, b.1 as int)
    }
}

/// Two fields share a row, share a column, or lie on a common diagonal.
pub open spec fn aligned(a: Field, b: Field) -> bool {
    ||| a.0 == b.0
    ||| a.1 == b.1
    ||| adiff(a.0 as int, b.0 as int) == adiff(a.1 as int, b.1 as int)
}

/// The coordinate reached from `base` after `k` unit steps in the
/// direction of `delta`: `base + k * sign(delta)`.
pub open spec fn step(base: int, delta: int, k: int) -> int {
    if delta > 0 {
        base + k
    } else if delta < 0 {
        base - k
    } else {
        base
    }
}

/// `f` is the point `k` king steps from `t` in the direction of `a`.
pub open spec fn on_seg(t: Field, a: Field, k: int, f: Field) -> bool {
    &&& f.0 as int == step(t.0 as int, a.0 - t.0, k)
    &&& f.1 as int == step(t.1 as int, a.1 - t.1, k)
}

/// `f` lies strictly between `t` and `a` on the straight line that joins
/// them; false when the two endpoints are not aligned.
pub open spec fn between(t: Field, a: Field, f: Field) -> bool {
    aligned(t, a) && exists|k: int| 0 < k < cheb(t, a) && #[trigger] on_seg(t, a, k, f)
}

/// Aligned endpoints satisfy their own segment equation: `a` lies exactly
/// `cheb(t, a)` steps from `t` in its own direction.
pub proof fn lemma_aligned_endpoint(t: Field, a: Field)
    requires
        aligned(t, a),
    ensures
        on_seg(t, a, cheb(t, a), a),
{
}

/// A point strictly between two in-bounds fields is itself in bounds and
/// distinct from both endpoints.
pub proof fn lemma_between_bounds(t: Field, a: Field, f: Field)
    requires
        t.in_bounds(),
        a.in_bounds(),
        between(t, a, f),
    ensures
        f.in_bounds(),
        f != t,
        f != a,
{
    let k = choose|k: int| 0 < k < cheb(t, a) && #[trigger] on_seg(t, a, k, f);
    lemma_aligned_endpoint(t, a);
}

/// At a fixed number of steps from `t` toward `a` there is exactly one
/// point.
pub proof fn lemma_on_seg_unique_point(t: Field, a: Field, k: int, f1: Field, f2: Field)
    requires
        on_seg(t, a, k, f1),
        on_seg(t, a, k, f2),
    ensures
        f1 == f2,
{
}

/// Distinct step counts along a proper segment reach distinct points.
pub proof fn lemma_on_seg_unique_k(t: Field, a: Field, k1: int, k2: int, f: Field)
    requires
        cheb(t, a) >= 1,
        0 < k1,
        0 < k2,
        on_seg(t, a, k1, f),
        on_seg(t, a, k2, f),
    ensures
        k1 == k2,
{
}

/// One direction of the symmetry of `between`: a point strictly between
/// `a` and `b` is strictly between `b` and `a`.
proof fn lemma_between_swap(a: Field, b: Field, f: Field)
    requires
        between(a, b, f),
    ensures
        between(b, a, f),
{
    let k = choose|k: int| 0 < k < cheb(a, b) && #[trigger] on_seg(a, b, k, f);
    lemma_aligned_endpoint(a, b);
    assert(on_seg(b, a, cheb(a, b) - k, f));
}

/// Lying strictly between two fields does not depend on their order.
pub proof fn lemma_between_symmetric(a: Field, b: Field, f: Field)
    ensures
        between(a, b, f) == between(b, a, f),
{
    if between(a, b, f) {
        lemma_between_swap(a, b, f);
    }
    if between(b, a, f) {
        lemma_between_swap(b, a, f);
    }
}

/// Two aligned anchors seen from the same origin whose open segments
/// share a point lie on the same ray: the nearer anchor is the other's
/// endpoint, or sits strictly between the origin and the other.
pub proof fn lemma_shared_ray(t: Field, a1: Field, a2: Field, f: Field)
    requires
        between(t, a1, f),
        between(t, a2, f),
        cheb(t, a1) <= cheb(t, a2),
    ensures
        a1 == a2 || between(t, a2, a1),
{
    let k1 = choose|k: int| 0 < k < cheb(t, a1) && #[trigger] on_seg(t, a1, k, f);
    let k2 = choose|k: int| 0 < k < cheb(t, a2) && #[trigger] on_seg(t, a2, k, f);
    // The signs of the two deltas agree on each axis, hence k1 == k2.
    assert(k1 == k2);
    lemma_aligned_endpoint(t, a1);
    lemma_aligned_endpoint(t, a2);
    if cheb(t, a1) == cheb(t, a2) {
        assert(a1 == a2);
    } else {
        assert(on_seg(t, a2, cheb(t, a1), a1));
    }
}

/// All 64 board coordinates in the fixed enumeration order: the outer
/// axis is `x`, the inner axis is `y`.
pub open spec fn all_fields_seq() -> Seq<Field> {
    Seq::new(64, |i: int| Field((i / 8) as usize, (i % 8) as usize))
}

/// The enumeration lists exactly the in-bounds fields.
pub proof fn lemma_all_fields_contains(f: Field)
    ensures
        all_fields_seq().contains(f) <==> f.in_bounds(),
{
    if f.in_bounds() {
        let i: int = f.0 * 8 + f.1;
        assert(all_fields_seq()[i] == f);
    }
    if all_fields_seq().contains(f) {
        let i: int = choose|i: int| 0 <= i < 64 && all_fields_seq()[i] == f;
        assert(f == Field((i / 8) as usize, (i % 8) as usize));
        assert(f.in_bounds());
    }
}

/// The enumeration lists each field once.
pub proof fn lemma_all_fields_no_duplicates()
    ensures
        all_fields_seq().no_duplicates(),
{
    assert forall|i: int, j: int| 0 <= i < 64 && 0 <= j < 64 && i != j implies all_fields_seq()[i]
        != all_fields_seq()[j] by {
        assert(i == (i / 8) * 8 + (i % 8));
        assert(j == (j / 8) * 8 + (j % 8));
    }
}

impl Field {
    /// Both components address a cell of the 8 by 8 board.
    pub open spec fn in_bounds_spec(&self) -> bool {
        self.0 < 8 && self.1 < 8
    }

    /// Check if the field is in bounds.
    #[verifier::when_used_as_spec(in_bounds_spec)]
    pub fn in_bounds(&self) -> (r: bool)
        ensures
            r == self.in_bounds_spec(),
    {
        self.0 < 8 && self.1 < 8
    }

    /// The field at position `i` of the fixed enumeration.
    pub fn nth(i: usize) -> (f: Field)
        requires
            i < 64,
        ensures
            f == all_fields_seq()[i as int],
            f.in_bounds(),
    {
        Field(i / 8, i % 8)
    }

    /// Return all possible fields that are in bounds, in the fixed
    /// enumeration order.
    pub fn all() -> (r: Vec<Field>)
        ensures
            r@ == all_fields_seq(),
    {
        let mut v: Vec<Field> = Vec::new();
        let mut i: usize = 0;
        while i < 64
            invariant
                i <= 64,
                v@.len() == i,
                forall|j: int| 0 <= j < i ==> v@[j] == all_fields_seq()[j],
            decreases 64 - i,
        {
            v.push(Field(i / 8, i % 8));
            i += 1;
        }
        proof {
            assert(v@ =~= all_fields_seq());
        }
        v
    }

    /// The predicate that keeps exactly the fields adjacent to `c`.
    pub open spec fn adjacent_to(c: Field) -> spec_fn(Field) -> bool {
        |f: Field| cheb(c, f) == 1
    }

    /// The in-bounds fields at king distance one from this field, in the
    /// fixed enumeration order.
    pub open spec fn neighbors_spec(self) -> Seq<Field> {
        all_fields_seq().filter(Field::adjacent_to(self))
    }

    /// The up-to-eight in-bounds fields adjacent to this one.
    pub fn neighbors(&self) -> (r: Vec<Field>)
        ensures
            r@ == self.neighbors_spec(),
            forall|f: Field| r@.contains(f) <==> (#[trigger] f.in_bounds_spec() && cheb(*self, f)
                == 1),
            r@.no_duplicates(),
    {
        let me = *self;
        let mut v: Vec<Field> = Vec::new();
        let mut i: usize = 0;
        while i < 64
            invariant
                i <= 64,
                v@ == all_fields_seq().take(i as int).filter(Field::adjacent_to(me)),
            decreases 64 - i,
        {
            let f = Field::nth(i);
            let ax = if f.0 >= me.0 {
                f.0 - me.0
            } else {
                me.0 - f.0
            };
            let ay = if f.1 >= me.1 {
                f.1 - me.1
            } else {
                me.1 - f.1
            };
            let ch = if ax >= ay {
                ax
            } else {
                ay
            };
            proof {
                crate::seq_facts::lemma_filter_take_step(
                    all_fields_seq(),
                    Field::adjacent_to(me),
                    i as int,
                );
                assert(ch == 1 <==> Field::adjacent_to(me)(f));
            }
            if ch == 1 {
                v.push(f);
            }
            i += 1;
        }
        proof {
            crate::seq_facts::lemma_take_all(all_fields_seq());
            assert(v@ == me.neighbors_spec());
            lemma_all_fields_no_duplicates();
            crate::seq_facts::lemma_filter_no_duplicates(all_fields_seq(), Field::adjacent_to(me));
            assert forall|f: Field|
                v@.contains(f) <==> (#[trigger] f.in_bounds_spec() && cheb(me, f) == 1) by {
                crate::seq_facts::lemma_filter_contains_iff(
                    all_fields_seq(),
                    Field::adjacent_to(me),
                    f,
                );
                lemma_all_fields_contains(f);
            }
        }
        v
    }
}

/// The letter that names column `x` in the human notation.
pub open spec fn letter_char(x: int) -> char {
    if x == 0 {
        'a'
    } else if x == 1 {
        'b'
    } else if x == 2 {
        'c'
    } else if x == 3 {
        'd'
    } else if x == 4 {
        'e'
    } else if x == 5 {
        'f'
    } else if x == 6 {
        'g'
    } else {
        'h'
    }
}

/// The digit that names row `y` in the human notation: `8 - y`.
pub open spec fn digit_char(y: int) -> char {
    if y == 0 {
        '8'
    } else if y == 1 {
        '7'
    } else if y == 2 {
        '6'
    } else if y == 3 {
        '5'
    } else if y == 4 {
        '4'
    } else if y == 5 {
        '3'
    } else if y == 6 {
        '2'
    } else {
        '1'
    }
}

/// The two-character notation of an in-bounds field: a column letter
/// 'a'..'h' and a row digit '8' down to '1'.
pub open spec fn notation_spec(f: Field) -> Seq<char> {
    seq![letter_char(f.0 as int), digit_char(f.1 as int)]
}

/// What parsing a notation string yields: the field, or the first
/// applicable failure. Strings that are not exactly one letter followed
/// by one digit are rejected; a missing second character or a trailing
/// third character is a length error, a non-digit second character is a
/// number error, and a letter or digit outside the board is an
/// out-of-bounds error.
pub open spec fn parse_spec(s: Seq<char>) -> Result<Field, PlaceError> {
    if s.len() < 2 {
        Err(PlaceError::InvalidLength)
    } else if !('0' as int <= s[1] as int <= '9' as int) {
        Err(PlaceError::InvalidNumber)
    } else if s.len() > 2 {
        Err(PlaceError::InvalidLength)
    } else if !('a' as int <= s[0] as int <= 'h' as int) {
        Err(PlaceError::OutOfBounds)
    } else if s[1] == '0' || s[1] == '9' {
        Err(PlaceError::OutOfBounds)
    } else {
        Ok(Field((s[0] as int - 'a' as int) as usize, (8 - (s[1] as int - '0' as int)) as usize))
    }
}

impl Field {
    /// Format an in-bounds field in the two-character notation.
    pub fn to_string(&self) -> (r: String)
        requires
            self.in_bounds(),
        ensures
            r@ == notation_spec(*self),
    {
        let letter = match self.0 {
            0 => "a",
            1 => "b",
            2 => "c",
            3 => "d",
            4 => "e",
            5 => "f",
            6 => "g",
            _ => "h",
        };
        let digit = match self.1 {
            0 => "8",
            1 => "7",
            2 => "6",
            3 => "5",
            4 => "4",
            5 => "3",
            6 => "2",
            _ => "1",
        };
        proof {
            reveal_strlit("a");
            reveal_strlit("b");
            reveal_strlit("c");
            reveal_strlit("d");
            reveal_strlit("e");
            reveal_strlit("f");
            reveal_strlit("g");
            reveal_strlit("h");
            reveal_strlit("1");
            reveal_strlit("2");
            reveal_strlit("3");
            reveal_strlit("4");
            reveal_strlit("5");
            reveal_strlit("6");
            reveal_strlit("7");
            reveal_strlit("8");
        }
        let mut r = String::new();
        r.append(letter);
        r.append(digit);
        proof {
            assert(r@ =~= notation_spec(*self));
        }
        r
    }

    /// Parse a field from a notation string such as `a8` or `h1`.
    pub fn from_str(s: &str) -> (r: Result<Field, PlaceError>)
        ensures
            r == parse_spec(s@),
    {
        let n = s.unicode_len();
        if n < 2 {
            return Err(PlaceError::InvalidLength);
        }
        let c1 = s.get_char(1);
        let u1 = c1 as u32;
        if !(48 <= u1 && u1 <= 57) {
            return Err(PlaceError::InvalidNumber);
        }
        if n > 2 {
            return Err(PlaceError::InvalidLength);
        }
        let c0 = s.get_char(0);
        let u0 = c0 as u32;
        if !(97 <= u0 && u0 <= 104) {
            return Err(PlaceError::OutOfBounds);
        }
        let d = u1 - 48;
        if d == 0 || d == 9 {
            return Err(PlaceError::OutOfBounds);
        }
        Ok(Field((u0 - 97) as usize, (8 - d) as usize))
    }
}

/// The decimal value of a run of digit characters.
pub open spec fn dec_val(s: Seq<char>) -> nat
    decreases s.len(),
{
    if s.len() == 0 {
        0
    } else {
        (dec_val(s.drop_last()) * 10 + (s.last() as int - '0' as int)) as nat
    }
}

/// Every character is a decimal digit.
pub open spec fn all_digits(s: Seq<char>) -> bool {
    forall|i: int| 0 <= i < s.len() ==> '0' as int <= (#[trigger] s[i]) as int <= '9' as int
}

/// What parsing a move index from text yields: the number, after an
/// optional leading plus sign, when the rest is one or more decimal
/// digits whose value the machine can hold; nothing otherwise.
pub open spec fn index_parse_spec(s: Seq<char>) -> Option<nat> {
    let body = if s.len() > 0 && s[0] == '+' {
        s.skip(1)
    } else {
        s
    };
    if body.len() > 0 && all_digits(body) && dec_val(body) <= usize::MAX {
        Some(dec_val(body))
    } else {
        None
    }
}

/// A prefix of a digit string never exceeds the whole string's value.
proof fn lemma_dec_val_prefix(s: Seq<char>, j: int)
    requires
        all_digits(s),
        0 <= j <= s.len(),
    ensures
        dec_val(s.take(j)) <= dec_val(s),
    decreases s.len(),
{
    if j < s.len() {
        assert(s.last() == s[s.len() - 1]);
        assert(s.last() as int - '0' as int >= 0);
        assert(s.drop_last().take(j) =~= s.take(j));
        assert(all_digits(s.drop_last())) by {
            assert forall|i: int| 0 <= i < s.drop_last().len() implies '0' as int <= (
            #[trigger] s.drop_last()[i]) as int <= '9' as int by {
                assert(s.drop_last()[i] == s[i]);
            }
        }
        lemma_dec_val_prefix(s.drop_last(), j);
    } else {
        assert(s.take(j) =~= s);
    }
}

/// Parse a move index: an optional plus sign, then decimal digits.
fn parse_index(s: &str) -> (r: Option<usize>)
    ensures
        r is None <==> index_parse_spec(s@) is None,
        r matches Some(v) ==> index_parse_spec(s@) == Some(v as nat),
{
    let n = s.unicode_len();
    let mut start: usize = 0;
    if n > 0 {
        let c0 = s.get_char(0);
        if c0 == '+' {
            start = 1;
        }
    }
    let ghost body = s@.skip(start as int);
    proof {
        if !(s@.len() > 0 && s@[0] == '+') {
            assert(body =~= s@);
        }
    }
    if start >= n {
        return None;
    }
    let mut acc: usize = 0;
    let mut i: usize = start;
    while i < n
        invariant
            start <= i <= n,
            n == s@.len(),
            start <= 1,
            body == (if s@.len() > 0 && s@[0] == '+' {
                s@.skip(1)
            } else {
                s@
            }),
            body == s@.skip(start as int),
            body.len() == n - start,
            all_digits(s@.subrange(start as int, i as int)),
            acc as nat == dec_val(s@.subrange(start as int, i as int)),
        decreases n - i,
    {
        let c = s.get_char(i);
        let u = c as u32;
        if !(48 <= u && u <= 57) {
            proof {
                assert(body[i - start] == s@[i as int]);
                assert(!all_digits(body));
            }
            return None;
        }
        let d = (u - 48) as usize;
        let ghost prefix = s@.subrange(start as int, i as int);
        let ghost extended = s@.subrange(start as int, i + 1);
        proof {
            assert(extended.drop_last() =~= prefix);
            assert(extended.last() == s@[i as int]);
            assert(all_digits(extended)) by {
                assert forall|q: int| 0 <= q < extended.len() implies '0' as int <= (
                #[trigger] extended[q]) as int <= '9' as int by {
                    if q < extended.len() - 1 {
                        assert(extended[q] == prefix[q]);
                    }
                }
            }
            assert(dec_val(extended) == acc * 10 + d);
        }
        let wide = (acc as u128) * 10 + (d as u128);
        if wide > (usize::MAX as u128) {
            proof {
                if all_digits(body) {
                    assert(body.take(i + 1 - start) =~= extended);
                    lemma_dec_val_prefix(body, i + 1 - start);
                    assert(dec_val(body) > usize::MAX);
                }
            }
            return None;
        }
        acc = acc * 10 + d;
        i += 1;
    }
    proof {
        assert(s@.subrange(start as int, n as int) =~= body);
    }
    Some(acc)
}

impl Field {
    /// The legal White move named by a numeric index into the
    /// legal-move list of `board`: entry text that is not a number is a
    /// number error, and an index past the end of the list is out of
    /// bounds.
    pub fn from_board_move(input: &str, board: &crate::reversi::board::Board) -> (r: Result<
        Field,
        PlaceError,
    >)
        ensures
            index_parse_spec(input@) is None ==> r == Err::<Field, PlaceError>(
                PlaceError::InvalidNumber,
            ),
            index_parse_spec(input@) matches Some(idx) ==> r == (if idx
                < crate::reversi::board::legal_moves_spec(board@, crate::reversi::Color::White).len() {
                Ok::<Field, PlaceError>(
                    crate::reversi::board::legal_moves_spec(
                        board@,
                        crate::reversi::Color::White,
                    )[idx as int],
                )
            } else {
                Err::<Field, PlaceError>(PlaceError::OutOfBounds)
            }),
    {
        let index = match parse_index(input) {
            Some(i) => i,
            None => {
                return Err(PlaceError::InvalidNumber);
            },
        };
        let moves = board.valid_moves(crate::reversi::Color::White);
        if index < moves.len() {
            Ok(moves[index])
        } else {
            Err(PlaceError::OutOfBounds)
        }
    }
}

/// Round trip of the notation: parsing the formatted name of any
/// in-bounds field yields that field back.
pub proof fn lemma_notation_round_trip(f: Field)
    requires
        f.in_bounds(),
    ensures
        parse_spec(notation_spec(f)) == Ok::<Field, PlaceError>(f),
{
}

} // verus!
