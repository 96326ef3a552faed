//! The minimal game context the move generator reads: the board, the side
//! to move, the en-passant target, castling rights and the move counters.

use vstd::prelude::*;

use crate::board::parse_placement;
use crate::board::rows_view;
use crate::board::split_chars;
use crate::board::split_on;
use crate::board::str_chars;
use crate::board::Board;
use crate::board::BoardView;
use crate::board::PlacementError;
use crate::bitboard::Bitboard;
use crate::board::SideBoard;
use crate::board::SideBoardView;
use crate::board::Square;
use crate::notation::algebraic_square_index;
use crate::notation::is_file_char;
use crate::notation::is_rank_char;

verus! {

/// Why a position string was rejected, beyond its placement field.
#[derive(Clone, Copy, PartialEq, Eq, Debug)]
pub enum PositionError {
    /// Not exactly six whitespace-separated fields.
    WrongFieldCount,
    /// The active-color field is neither `w` nor `b`.
    BadActiveColor,
    /// The castling field is neither `-` nor letters drawn from `KQkq`.
    BadCastling,
    /// The en-passant field is neither `-` nor an algebraic square.
    BadEnPassant,
    /// The half-move clock is not a number the clock can hold.
    BadHalfMoveClock,
    /// The full-move number is not a positive number the counter can hold.
    BadFullMoveNumber,
}

/// Why a FEN string was rejected.
#[derive(Clone, Copy, PartialEq, Eq, Debug)]
pub enum FenError {
    MalformedPlacement(PlacementError),
    MalformedPosition(PositionError),
}

/// The rule set a game was created under.
#[derive(Clone, Copy, PartialEq, Eq, Structural, Debug)]
pub enum Variant {
    Classical,
}

/// The side to move.
#[derive(Clone, Copy, PartialEq, Eq, Structural, Debug)]
pub enum Side {
    White,
    Black,
}

/// The side opposing `side`.
pub open spec fn other_side(side: Side) -> Side {
    if side == Side::White {
        Side::Black
    } else {
        Side::White
    }
}

/// An optional square, by its index.
pub open spec fn square_option_view(o: Option<Square>) -> Option<int> {
    match o {
        Option::Some(s) => Option::Some(s@),
        Option::None => Option::None,
    }
}

/// The abstract state of a `Game`.
pub ghost struct GameView {
    pub kind: Variant,
    pub board: BoardView,
    pub active: Side,
    pub white_castle_kingside: bool,
    pub white_castle_queenside: bool,
    pub black_castle_kingside: bool,
    pub black_castle_queenside: bool,
    pub ep_square: Option<int>,
    pub half_move: int,
    pub full_move: int,
}

impl GameView {
    /// The board is consistent and the en-passant target, when present,
    /// lies on the board.
    pub open spec fn wf(self) -> bool {
        &&& self.board.wf()
        &&& match self.ep_square {
            Option::Some(i) => 0 <= i < 64,
            Option::None => true,
        }
    }
}

/// The active-color field is a single `w` or `b`.
pub open spec fn active_ok(f: Seq<char>) -> bool {
    f.len() == 1 && (f[0] == 'w' || f[0] == 'b')
}

pub open spec fn active_value(f: Seq<char>) -> Side {
    if f.len() >= 1 && f[0] == 'w' {
        Side::White
    } else {
        Side::Black
    }
}

pub open spec fn is_castle_char(c: char) -> bool {
    c == 'K' || c == 'Q' || c == 'k' || c == 'q'
}

/// The castling field is `-` or a non-empty word over `KQkq`.
pub open spec fn castling_ok(f: Seq<char>) -> bool {
    (f.len() == 1 && f[0] == '-') || (f.len() >= 1 && forall|j: int|
        0 <= j < f.len() ==> is_castle_char(#[trigger] f[j]))
}

/// A right is granted when its letter occurs.
pub open spec fn castling_grants(f: Seq<char>, c: char) -> bool {
    !(f.len() == 1 && f[0] == '-') && f.contains(c)
}

/// The en-passant field is `-` or a two-character algebraic square.
pub open spec fn ep_ok(f: Seq<char>) -> bool {
    (f.len() == 1 && f[0] == '-') || (f.len() == 2 && is_file_char(f[0]) && is_rank_char(f[1]))
}

pub open spec fn ep_value(f: Seq<char>) -> Option<int> {
    if f.len() == 1 {
        Option::None
    } else {
        Option::Some(algebraic_square_index(f))
    }
}

pub open spec fn is_digit_char(c: char) -> bool {
    48 <= c as u32 && c as u32 <= 57
}

pub open spec fn digit_val(c: char) -> int {
    c as u32 - 48
}

pub open spec fn all_digits(f: Seq<char>) -> bool {
    forall|j: int| 0 <= j < f.len() ==> is_digit_char(#[trigger] f[j])
}

/// The value of the digits from `j` on, after the digits before `j` have
/// accumulated to `acc`.
pub open spec fn dec_value_rec(f: Seq<char>, j: int, acc: int) -> int
    decreases f.len() - j,
{
    if j < 0 || j >= f.len() {
        acc
    } else {
        dec_value_rec(f, j + 1, acc * 10 + digit_val(f[j]))
    }
}

/// The value of a decimal numeral.
pub open spec fn dec_value(f: Seq<char>) -> int {
    dec_value_rec(f, 0, 0)
}

/// A numeric field is a non-empty string of digits.
pub open spec fn number_ok(f: Seq<char>) -> bool {
    f.len() >= 1 && all_digits(f)
}

/// Reading more digits never shrinks the value.
proof fn lemma_dec_value_grows(f: Seq<char>, j: int, acc: int)
    requires
        all_digits(f),
        0 <= acc,
    ensures
        dec_value_rec(f, j, acc) >= acc,
    decreases f.len() - j,
{
    if 0 <= j < f.len() {
        assert(is_digit_char(f[j]));
        lemma_dec_value_grows(f, j + 1, acc * 10 + digit_val(f[j]));
    }
}

/// What parsing a six-field FEN string yields: the game state, or the
/// first fault in the order the fields are read.
pub open spec fn parse_fen(s: Seq<char>) -> Result<GameView, FenError> {
    let fields = split_on(s, ' ');
    if fields.len() != 6 {
        Result::Err(FenError::MalformedPosition(PositionError::WrongFieldCount))
    } else if !active_ok(fields[1]) {
        Result::Err(FenError::MalformedPosition(PositionError::BadActiveColor))
    } else if !castling_ok(fields[2]) {
        Result::Err(FenError::MalformedPosition(PositionError::BadCastling))
    } else if !ep_ok(fields[3]) {
        Result::Err(FenError::MalformedPosition(PositionError::BadEnPassant))
    } else if !(number_ok(fields[4]) && dec_value(fields[4]) <= 255) {
        Result::Err(FenError::MalformedPosition(PositionError::BadHalfMoveClock))
    } else if !(number_ok(fields[5]) && 1 <= dec_value(fields[5]) && dec_value(fields[5])
        <= 65535) {
        Result::Err(FenError::MalformedPosition(PositionError::BadFullMoveNumber))
    } else {
        match parse_placement(fields[0]) {
            Result::Err(e) => Result::Err(FenError::MalformedPlacement(e)),
            Result::Ok(bv) => Result::Ok(
                GameView {
                    kind: Variant::Classical,
                    board: bv,
                    active: active_value(fields[1]),
                    white_castle_kingside: castling_grants(fields[2], 'K'),
                    white_castle_queenside: castling_grants(fields[2], 'Q'),
                    black_castle_kingside: castling_grants(fields[2], 'k'),
                    black_castle_queenside: castling_grants(fields[2], 'q'),
                    ep_square: ep_value(fields[3]),
                    half_move: dec_value(fields[4]),
                    full_move: dec_value(fields[5]),
                },
            ),
        }
    }
}

/// Parse a non-empty digit field whose value fits in `[lo, hi]`.
#[verifier::loop_isolation(false)]
fn parse_number_bounded(f: &Vec<char>, lo: u32, hi: u32) -> (r: Option<u32>)
    requires
        hi <= 65535,
    ensures
        match r {
            Option::Some(v) => number_ok(f@) && lo <= v <= hi && v as int == dec_value(f@),
            Option::None => !(number_ok(f@) && lo as int <= dec_value(f@) && dec_value(f@)
                <= hi as int),
        },
{
    if f.len() == 0 {
        return Option::None;
    }
    let mut acc: u32 = 0;
    let mut j: usize = 0;
    while j < f.len()
        invariant
            j <= f@.len(),
            acc <= hi,
            dec_value(f@) == dec_value_rec(f@, j as int, acc as int),
            forall|k: int| 0 <= k < j as int ==> is_digit_char(#[trigger] f@[k]),
        decreases f@.len() - j,
    {
        let c = f[j];
        let cu = c as u32;
        if !(48 <= cu && cu <= 57) {
            proof {
                assert(!is_digit_char(f@[j as int]));
                assert(!all_digits(f@));
            }
            return Option::None;
        }
        let next = acc * 10 + (cu - 48);
        if next > hi {
            proof {
                if all_digits(f@) {
                    lemma_dec_value_grows(f@, j as int + 1, next as int);
                }
            }
            return Option::None;
        }
        acc = next;
        j = j + 1;
    }
    if acc < lo {
        return Option::None;
    }
    Option::Some(acc)
}

/// A position together with the game context around it.
#[derive(Debug)]
pub struct Game {
    kind: Variant,
    board: Board,
    active: Side,
    white_castle_kingside: bool,
    white_castle_queenside: bool,
    black_castle_kingside: bool,
    black_castle_queenside: bool,
    ep_square: Option<Square>,
    half_move: u8,
    full_move: u16,
}

impl View for Game {
    type V = GameView;

    closed spec fn view(&self) -> GameView {
        GameView {
            kind: self.kind,
            board: self.board@,
            active: self.active,
            white_castle_kingside: self.white_castle_kingside,
            white_castle_queenside: self.white_castle_queenside,
            black_castle_kingside: self.black_castle_kingside,
            black_castle_queenside: self.black_castle_queenside,
            ep_square: square_option_view(self.ep_square),
            half_move: self.half_move as int,
            full_move: self.full_move as int,
        }
    }
}

/// A pushed sequence holds an element exactly when the base sequence did
/// or the element is the one pushed.
proof fn lemma_push_contains<T>(s: Seq<T>, x: T)
    ensures
        forall|y: T| #[trigger] s.push(x).contains(y) <==> s.contains(y) || y == x,
{
    assert forall|y: T| #[trigger] s.push(x).contains(y) <==> s.contains(y) || y == x by {
        if s.push(x).contains(y) {
            let i = choose|i: int| 0 <= i < s.push(x).len() && s.push(x)[i] == y;
            if i < s.len() {
                assert(s[i] == y);
            }
        }
        if s.contains(y) {
            let i = choose|i: int| 0 <= i < s.len() && s[i] == y;
            assert(s.push(x)[i] == y);
        }
        if y == x {
            assert(s.push(x)[s.len() as int] == y);
        }
    }
}

/// The starting position of a classical game.
pub open spec fn classical_board() -> BoardView {
    BoardView {
        white: SideBoardView {
            pawns: Set::new(|i: int| 8 <= i < 16),
            knights: Set::new(|i: int| i == 1 || i == 6),
            bishops: Set::new(|i: int| i == 2 || i == 5),
            rooks: Set::new(|i: int| i == 0 || i == 7),
            queens: Set::new(|i: int| i == 3),
            kings: Set::new(|i: int| i == 4),
        },
        black: SideBoardView {
            pawns: Set::new(|i: int| 48 <= i < 56),
            knights: Set::new(|i: int| i == 57 || i == 62),
            bishops: Set::new(|i: int| i == 58 || i == 61),
            rooks: Set::new(|i: int| i == 56 || i == 63),
            queens: Set::new(|i: int| i == 59),
            kings: Set::new(|i: int| i == 60),
        },
    }
}

/// The classical game: starting position, White to move, every castling
/// right granted, no en-passant target, counters at their start values.
pub open spec fn classical_game() -> GameView {
    GameView {
        kind: Variant::Classical,
        board: classical_board(),
        active: Side::White,
        white_castle_kingside: true,
        white_castle_queenside: true,
        black_castle_kingside: true,
        black_castle_queenside: true,
        ep_square: Option::None,
        half_move: 0,
        full_move: 1,
    }
}

impl Game {
    /// A game over an empty board, with White to move and no rights.
    pub fn new_empty() -> (r: Self)
        ensures
            r@ == (GameView {
                kind: Variant::Classical,
                board: r@.board,
                active: Side::White,
                white_castle_kingside: false,
                white_castle_queenside: false,
                black_castle_kingside: false,
                black_castle_queenside: false,
                ep_square: Option::None,
                half_move: 0,
                full_move: 1,
            }),
            r@.board.white == crate::board::empty_side_view(),
            r@.board.black == crate::board::empty_side_view(),
            r@.wf(),
    {
        Game {
            kind: Variant::Classical,
            board: Board::new(SideBoard::new_empty(), SideBoard::new_empty()),
            active: Side::White,
            white_castle_kingside: false,
            white_castle_queenside: false,
            black_castle_kingside: false,
            black_castle_queenside: false,
            ep_square: Option::None,
            half_move: 0,
            full_move: 1,
        }
    }

    pub fn board(&self) -> (r: &Board)
        ensures
            r@ == self@.board,
    {
        &self.board
    }

    pub fn active(&self) -> (r: Side)
        ensures
            r == self@.active,
    {
        self.active
    }

    pub fn ep_square(&self) -> (r: Option<Square>)
        ensures
            square_option_view(r) == self@.ep_square,
    {
        self.ep_square
    }

    /// Parse a six-field FEN string: placement, active color, castling
    /// availability, en-passant target, half-move clock, full-move number.
    #[verifier::loop_isolation(false)]
    pub fn from_fen(fen: &str) -> (r: Result<Game, FenError>)
        ensures
            match r {
                Result::Ok(g) => parse_fen(fen@) == Result::<GameView, FenError>::Ok(g@)
                    && g@.wf(),
                Result::Err(e) => parse_fen(fen@) == Result::<GameView, FenError>::Err(e),
            },
    {
        let chars = str_chars(fen);
        let fields = split_chars(&chars, ' ');
        let ghost fv = rows_view(fields@);
        if fields.len() != 6 {
            return Result::Err(FenError::MalformedPosition(PositionError::WrongFieldCount));
        }
        // active color
        let fa = &fields[1];
        proof {
            assert(fv[1] == fields@[1]@);
        }
        let active: Side;
        if fa.len() == 1 {
            let c = fa[0];
            if c == 'w' {
                active = Side::White;
            } else if c == 'b' {
                active = Side::Black;
            } else {
                return Result::Err(FenError::MalformedPosition(PositionError::BadActiveColor));
            }
        } else {
            return Result::Err(FenError::MalformedPosition(PositionError::BadActiveColor));
        }
        proof {
            assert(active_ok(fv[1]) && active == active_value(fv[1]));
        }
        // castling availability
        let fc = &fields[2];
        proof {
            assert(fv[2] == fields@[2]@);
        }
        let mut white_castle_kingside = false;
        let mut white_castle_queenside = false;
        let mut black_castle_kingside = false;
        let mut black_castle_queenside = false;
        let dash_castle = fc.len() == 1 && fc[0] == '-';
        if !dash_castle {
            if fc.len() == 0 {
                return Result::Err(FenError::MalformedPosition(PositionError::BadCastling));
            }
            let mut ci: usize = 0;
            proof {
                assert(fc@.take(0) =~= Seq::<char>::empty());
            }
            while ci < fc.len()
                invariant
                    ci <= fc@.len(),
                    forall|k: int| 0 <= k < ci as int ==> is_castle_char(#[trigger] fc@[k]),
                    white_castle_kingside == fc@.take(ci as int).contains('K'),
                    white_castle_queenside == fc@.take(ci as int).contains('Q'),
                    black_castle_kingside == fc@.take(ci as int).contains('k'),
                    black_castle_queenside == fc@.take(ci as int).contains('q'),
                decreases fc@.len() - ci,
            {
                let c = fc[ci];
                proof {
                    assert(fc@.take(ci as int + 1) =~= fc@.take(ci as int).push(fc@[ci as int]));
                    lemma_push_contains(fc@.take(ci as int), fc@[ci as int]);
                }
                match c {
                    'K' => white_castle_kingside = true,
                    'Q' => white_castle_queenside = true,
                    'k' => black_castle_kingside = true,
                    'q' => black_castle_queenside = true,
                    _ => {
                        return Result::Err(
                            FenError::MalformedPosition(PositionError::BadCastling),
                        );
                    },
                }
                ci = ci + 1;
            }
            proof {
                assert(fc@.take(fc@.len() as int) =~= fc@);
            }
        }
        proof {
            assert(castling_ok(fv[2]));
            assert(white_castle_kingside == castling_grants(fv[2], 'K'));
            assert(white_castle_queenside == castling_grants(fv[2], 'Q'));
            assert(black_castle_kingside == castling_grants(fv[2], 'k'));
            assert(black_castle_queenside == castling_grants(fv[2], 'q'));
        }
        // en-passant target
        let fe = &fields[3];
        proof {
            assert(fv[3] == fields@[3]@);
        }
        let ep_square: Option<Square>;
        if fe.len() == 1 && fe[0] == '-' {
            ep_square = Option::None;
        } else if fe.len() == 2 {
            let c0 = fe[0];
            let c1 = fe[1];
            let c0u = c0 as u32;
            let c1u = c1 as u32;
            if 97 <= c0u && c0u <= 104 && 49 <= c1u && c1u <= 56 {
                let idx = ((c1u - 49) * 8 + (c0u - 97)) as u8;
                ep_square = Option::Some(Square::new(idx));
            } else {
                return Result::Err(FenError::MalformedPosition(PositionError::BadEnPassant));
            }
        } else {
            return Result::Err(FenError::MalformedPosition(PositionError::BadEnPassant));
        }
        proof {
            assert(ep_ok(fv[3]));
            assert(square_option_view(ep_square) == ep_value(fv[3]));
        }
        // move counters
        proof {
            assert(fv[4] == fields@[4]@);
            assert(fv[5] == fields@[5]@);
        }
        let half_move: u8;
        match parse_number_bounded(&fields[4], 0, 255) {
            Option::Some(v) => {
                half_move = v as u8;
            },
            Option::None => {
                proof {
                    if number_ok(fv[4]) {
                        lemma_dec_value_grows(fv[4], 0, 0);
                    }
                }
                return Result::Err(FenError::MalformedPosition(PositionError::BadHalfMoveClock));
            },
        }
        let full_move: u16;
        match parse_number_bounded(&fields[5], 1, 65535) {
            Option::Some(v) => {
                full_move = v as u16;
            },
            Option::None => {
                return Result::Err(
                    FenError::MalformedPosition(PositionError::BadFullMoveNumber),
                );
            },
        }
        // piece placement
        proof {
            assert(fv[0] == fields@[0]@);
        }
        let board: Board;
        match Board::from_placement_chars(&fields[0]) {
            Result::Ok(b) => {
                board = b;
            },
            Result::Err(e) => {
                return Result::Err(FenError::MalformedPlacement(e));
            },
        }
        let g = Game {
            kind: Variant::Classical,
            board,
            active,
            white_castle_kingside,
            white_castle_queenside,
            black_castle_kingside,
            black_castle_queenside,
            ep_square,
            half_move,
            full_move,
        };
        proof {
            assert(parse_fen(fen@) == Result::<GameView, FenError>::Ok(g@));
        }
        Result::Ok(g)
    }

    /// The classical starting position, built directly.
    #[verifier::loop_isolation(false)]
    pub fn new_classical() -> (r: Self)
        ensures
            r@ == classical_game(),
            r@.wf(),
    {
        let mut white_pawns = Bitboard::new();
        proof {
            assert(white_pawns@ =~= Set::new(|t: int| 8 <= t < 8));
        }
        let mut i: u8 = 8;
        while i < 16
            invariant
                8 <= i <= 16,
                white_pawns@ == Set::new(|t: int| 8 <= t < i as int),
            decreases 16 - i as int,
        {
            white_pawns.set(Square::new(i));
            proof {
                assert(white_pawns@ =~= Set::new(|t: int| 8 <= t < i as int + 1));
            }
            i = i + 1;
        }
        let mut black_pawns = Bitboard::new();
        proof {
            assert(black_pawns@ =~= Set::new(|t: int| 48 <= t < 48));
        }
        let mut j: u8 = 48;
        while j < 56
            invariant
                48 <= j <= 56,
                black_pawns@ == Set::new(|t: int| 48 <= t < j as int),
            decreases 56 - j as int,
        {
            black_pawns.set(Square::new(j));
            proof {
                assert(black_pawns@ =~= Set::new(|t: int| 48 <= t < j as int + 1));
            }
            j = j + 1;
        }
        let white_knights = two_square_board(1, 6);
        let white_bishops = two_square_board(2, 5);
        let white_rooks = two_square_board(0, 7);
        let white_queens = one_square_board(3);
        let white_kings = one_square_board(4);
        let black_knights = two_square_board(57, 62);
        let black_bishops = two_square_board(58, 61);
        let black_rooks = two_square_board(56, 63);
        let black_queens = one_square_board(59);
        let black_kings = one_square_board(60);
        let white = SideBoard::new(
            white_pawns,
            white_knights,
            white_bishops,
            white_rooks,
            white_queens,
            white_kings,
        );
        let black = SideBoard::new(
            black_pawns,
            black_knights,
            black_bishops,
            black_rooks,
            black_queens,
            black_kings,
        );
        let g = Game {
            kind: Variant::Classical,
            board: Board::new(white, black),
            active: Side::White,
            white_castle_kingside: true,
            white_castle_queenside: true,
            black_castle_kingside: true,
            black_castle_queenside: true,
            ep_square: Option::None,
            half_move: 0,
            full_move: 1,
        };
        proof {
            assert(white_knights@ =~= Set::new(|t: int| t == 1 || t == 6));
            assert(white_bishops@ =~= Set::new(|t: int| t == 2 || t == 5));
            assert(white_rooks@ =~= Set::new(|t: int| t == 0 || t == 7));
            assert(white_queens@ =~= Set::new(|t: int| t == 3));
            assert(white_kings@ =~= Set::new(|t: int| t == 4));
            assert(black_knights@ =~= Set::new(|t: int| t == 57 || t == 62));
            assert(black_bishops@ =~= Set::new(|t: int| t == 58 || t == 61));
            assert(black_rooks@ =~= Set::new(|t: int| t == 56 || t == 63));
            assert(black_queens@ =~= Set::new(|t: int| t == 59));
            assert(black_kings@ =~= Set::new(|t: int| t == 60));
            assert(g@.board == classical_board());
            assert(classical_board().wf());
        }
        g
    }
}

/// A board with exactly two squares set.
fn two_square_board(a: u8, b: u8) -> (r: Bitboard)
    requires
        a < 64,
        b < 64,
    ensures
        r@ == Set::<int>::empty().insert(a as int).insert(b as int),
{
    let mut bb = Bitboard::new();
    bb.set(Square::new(a));
    bb.set(Square::new(b));
    bb
}

/// A board with exactly one square set.
fn one_square_board(a: u8) -> (r: Bitboard)
    requires
        a < 64,
    ensures
        r@ == Set::<int>::empty().insert(a as int),
{
    let mut bb = Bitboard::new();
    bb.set(Square::new(a));
    bb
}

} // verus!
