//! Squares of the 8x8 board and the per-side piece boards.

use vstd::prelude::*;
use vstd::string::StrSliceExecFns;

use crate::bitboard::Bitboard;
use crate::game::Side;

verus! {

/// Splitting state after consuming `j` characters: `cur` is the piece of
/// the current field read so far, `acc` the fields already closed.
pub open spec fn split_rec(
    s: Seq<char>,
    sep: char,
    j: int,
    cur: Seq<char>,
    acc: Seq<Seq<char>>,
) -> Seq<Seq<char>>
    decreases s.len() - j,
{
    if j < 0 || j >= s.len() {
        acc.push(cur)
    } else if s[j] == sep {
        split_rec(s, sep, j + 1, Seq::empty(), acc.push(cur))
    } else {
        split_rec(s, sep, j + 1, cur.push(s[j]), acc)
    }
}

/// The fields of `s` between occurrences of `sep`. Always at least one
/// field; empty fields between adjacent separators are kept.
pub open spec fn split_on(s: Seq<char>, sep: char) -> Seq<Seq<char>> {
    split_rec(s, sep, 0, Seq::empty(), Seq::empty())
}

/// The character sequences of a list of character vectors.
pub open spec fn rows_view(rs: Seq<Vec<char>>) -> Seq<Seq<char>> {
    rs.map_values(|v: Vec<char>| v@)
}

/// The characters of `s`, one by one.
pub fn str_chars(s: &str) -> (r: Vec<char>)
    ensures
        r@ == s@,
{
    let n = s.unicode_len();
    let mut out: Vec<char> = Vec::new();
    let mut j: usize = 0;
    while j < n
        invariant
            n == s@.len(),
            j <= n,
            out@ == s@.take(j as int),
        decreases n - j,
    {
        out.push(s.get_char(j));
        proof {
            assert(out@ =~= s@.take(j as int + 1));
        }
        j = j + 1;
    }
    proof {
        assert(out@ =~= s@);
    }
    out
}

/// Split `s` at every occurrence of `sep`.
pub fn split_chars(s: &Vec<char>, sep: char) -> (r: Vec<Vec<char>>)
    ensures
        rows_view(r@) == split_on(s@, sep),
{
    let n = s.len();
    let mut acc: Vec<Vec<char>> = Vec::new();
    let mut cur: Vec<char> = Vec::new();
    proof {
        assert(rows_view(acc@) =~= Seq::<Seq<char>>::empty());
    }
    let mut j: usize = 0;
    while j < n
        invariant
            n == s@.len(),
            j <= n,
            split_on(s@, sep) == split_rec(s@, sep, j as int, cur@, rows_view(acc@)),
        decreases n - j,
    {
        let c = s[j];
        if c == sep {
            let ghost prev_acc = rows_view(acc@);
            let ghost prev_cur = cur@;
            acc.push(cur);
            cur = Vec::new();
            proof {
                assert(rows_view(acc@) =~= prev_acc.push(prev_cur));
            }
        } else {
            cur.push(c);
        }
        j = j + 1;
    }
    let ghost prev_acc = rows_view(acc@);
    let ghost prev_cur = cur@;
    acc.push(cur);
    proof {
        assert(rows_view(acc@) =~= prev_acc.push(prev_cur));
    }
    acc
}

/// File (column) of a square index: the low three bits.
pub open spec fn file_of(i: int) -> int {
    i % 8
}

/// Rank (row) of a square index: the high three bits.
pub open spec fn rank_of(i: int) -> int {
    i / 8
}

/// A square index lies on the board.
pub open spec fn on_board(i: int) -> bool {
    0 <= i < 64
}

/// A coordinate on the board, stored as the linear index `rank * 8 + file`.
#[derive(Clone, Copy, PartialEq, Eq, Structural, Debug)]
pub struct Square {
    index: u8,
}

impl View for Square {
    type V = int;

    closed spec fn view(&self) -> int {
        self.index as int
    }
}

impl Square {
    /// The index is within the 64 squares of the board.
    pub open spec fn wf(self) -> bool {
        on_board(self@)
    }

    pub fn new(index: u8) -> (r: Self)
        requires
            index < 64,
        ensures
            r@ == index as int,
            r.wf(),
    {
        Square { index }
    }

    fn file_rank_to_index(file: u8, rank: u8) -> (r: u8)
        requires
            file < 8,
            rank < 8,
        ensures
            r == rank * 8 + file,
    {
        rank * 8 + file
    }

    pub fn new_file_rank(file: u8, rank: u8) -> (r: Self)
        requires
            file < 8,
            rank < 8,
        ensures
            r@ == rank * 8 + file,
            r.wf(),
            file_of(r@) == file as int,
            rank_of(r@) == rank as int,
    {
        Square::new(Square::file_rank_to_index(file, rank))
    }

    pub fn index(&self) -> (r: u8)
        ensures
            r as int == self@,
    {
        self.index
    }

    pub fn file(&self) -> (r: u8)
        requires
            self.wf(),
        ensures
            r as int == file_of(self@),
            r < 8,
    {
        let i = self.index;
        proof {
            assert(i & 7 == i % 8 && i & 7 < 8) by (bit_vector);
        }
        i & 7
    }

    pub fn rank(&self) -> (r: u8)
        requires
            self.wf(),
        ensures
            r as int == rank_of(self@),
            r < 8,
    {
        let i = self.index;
        proof {
            assert(i < 64 ==> ((i >> 3) & 7 == i / 8 && (i >> 3) & 7 < 8)) by (bit_vector);
        }
        (i >> 3) & 7
    }
}

/// Two squares with the same index are the same square.
pub proof fn lemma_square_view_injective(a: Square, b: Square)
    requires
        a@ == b@,
    ensures
        a == b,
{
}

/// The square with the given index.
pub closed spec fn square_at(i: int) -> Square {
    Square { index: i as u8 }
}

pub proof fn lemma_square_at(i: int)
    requires
        0 <= i < 64,
    ensures
        square_at(i)@ == i,
        square_at(i).wf(),
{
}

/// Index round-trip: rebuilding a square from its index gives the same
/// square.
pub proof fn lemma_square_roundtrip(s: Square)
    requires
        s.wf(),
    ensures
        square_at(s@) == s,
{
}

/// The six piece sets of one side, as sets of square indices.
pub ghost struct SideBoardView {
    pub pawns: Set<int>,
    pub knights: Set<int>,
    pub bishops: Set<int>,
    pub rooks: Set<int>,
    pub queens: Set<int>,
    pub kings: Set<int>,
}

impl SideBoardView {
    /// The union of the six piece sets.
    pub open spec fn occupied(self) -> Set<int> {
        self.pawns.union(self.knights).union(self.bishops).union(self.rooks).union(
            self.queens,
        ).union(self.kings)
    }

    /// No square carries two piece kinds at once.
    pub open spec fn wf(self) -> bool {
        &&& self.pawns.disjoint(self.knights)
        &&& self.pawns.disjoint(self.bishops)
        &&& self.pawns.disjoint(self.rooks)
        &&& self.pawns.disjoint(self.queens)
        &&& self.pawns.disjoint(self.kings)
        &&& self.knights.disjoint(self.bishops)
        &&& self.knights.disjoint(self.rooks)
        &&& self.knights.disjoint(self.queens)
        &&& self.knights.disjoint(self.kings)
        &&& self.bishops.disjoint(self.rooks)
        &&& self.bishops.disjoint(self.queens)
        &&& self.bishops.disjoint(self.kings)
        &&& self.rooks.disjoint(self.queens)
        &&& self.rooks.disjoint(self.kings)
        &&& self.queens.disjoint(self.kings)
    }
}

/// A side view with all six piece sets empty.
pub open spec fn empty_side_view() -> SideBoardView {
    SideBoardView {
        pawns: Set::<int>::empty(),
        knights: Set::<int>::empty(),
        bishops: Set::<int>::empty(),
        rooks: Set::<int>::empty(),
        queens: Set::<int>::empty(),
        kings: Set::<int>::empty(),
    }
}

/// One side's pieces: six mutually exclusive bitboards, one per piece kind.
#[derive(Clone, Copy, Debug)]
pub struct SideBoard {
    pawns: Bitboard,
    knights: Bitboard,
    bishops: Bitboard,
    rooks: Bitboard,
    queens: Bitboard,
    kings: Bitboard,
}

impl View for SideBoard {
    type V = SideBoardView;

    closed spec fn view(&self) -> SideBoardView {
        SideBoardView {
            pawns: self.pawns@,
            knights: self.knights@,
            bishops: self.bishops@,
            rooks: self.rooks@,
            queens: self.queens@,
            kings: self.kings@,
        }
    }
}

impl SideBoard {
    pub fn new(
        pawns: Bitboard,
        knights: Bitboard,
        bishops: Bitboard,
        rooks: Bitboard,
        queens: Bitboard,
        kings: Bitboard,
    ) -> (r: Self)
        ensures
            r@ == (SideBoardView {
                pawns: pawns@,
                knights: knights@,
                bishops: bishops@,
                rooks: rooks@,
                queens: queens@,
                kings: kings@,
            }),
    {
        SideBoard { pawns, knights, bishops, rooks, queens, kings }
    }

    pub fn new_empty() -> (r: Self)
        ensures
            r@ == empty_side_view(),
            r@.wf(),
    {
        SideBoard::new(
            Bitboard::new(),
            Bitboard::new(),
            Bitboard::new(),
            Bitboard::new(),
            Bitboard::new(),
            Bitboard::new(),
        )
    }

    pub fn pawns(&self) -> (r: Bitboard)
        ensures
            r@ == self@.pawns,
    {
        self.pawns
    }

    pub fn knights(&self) -> (r: Bitboard)
        ensures
            r@ == self@.knights,
    {
        self.knights
    }

    pub fn bishops(&self) -> (r: Bitboard)
        ensures
            r@ == self@.bishops,
    {
        self.bishops
    }

    pub fn rooks(&self) -> (r: Bitboard)
        ensures
            r@ == self@.rooks,
    {
        self.rooks
    }

    pub fn queens(&self) -> (r: Bitboard)
        ensures
            r@ == self@.queens,
    {
        self.queens
    }

    pub fn kings(&self) -> (r: Bitboard)
        ensures
            r@ == self@.kings,
    {
        self.kings
    }

    /// The union of the six piece boards.
    pub fn occupied(&self) -> (r: Bitboard)
        ensures
            r@ == self@.occupied(),
    {
        self.pawns.bit_or(self.knights).bit_or(self.bishops).bit_or(self.rooks).bit_or(
            self.queens,
        ).bit_or(self.kings)
    }
}

/// The two side views of a full position.
pub ghost struct BoardView {
    pub white: SideBoardView,
    pub black: SideBoardView,
}

impl BoardView {
    pub open spec fn occupied(self) -> Set<int> {
        self.white.occupied().union(self.black.occupied())
    }

    pub open spec fn side(self, side: Side) -> SideBoardView {
        if side == Side::White {
            self.white
        } else {
            self.black
        }
    }

    /// Both sides are well formed and no square is held by both sides.
    pub open spec fn wf(self) -> bool {
        &&& self.white.wf()
        &&& self.black.wf()
        &&& self.white.occupied().disjoint(self.black.occupied())
    }
}

/// A full board: one `SideBoard` per side.
#[derive(Clone, Copy, Debug)]
pub struct Board {
    white: SideBoard,
    black: SideBoard,
}

impl View for Board {
    type V = BoardView;

    closed spec fn view(&self) -> BoardView {
        BoardView { white: self.white@, black: self.black@ }
    }
}

impl Board {
    pub fn new(white: SideBoard, black: SideBoard) -> (r: Self)
        ensures
            r@ == (BoardView { white: white@, black: black@ }),
    {
        Board { white, black }
    }

    pub fn white_pieces(&self) -> (r: &SideBoard)
        ensures
            r@ == self@.white,
    {
        &self.white
    }

    pub fn black_pieces(&self) -> (r: &SideBoard)
        ensures
            r@ == self@.black,
    {
        &self.black
    }

    pub fn side_pieces(&self, side: Side) -> (r: &SideBoard)
        ensures
            r@ == self@.side(side),
    {
        if side == Side::White {
            self.white_pieces()
        } else {
            self.black_pieces()
        }
    }

    /// The union of both sides' occupancy.
    pub fn occupied(&self) -> (r: Bitboard)
        ensures
            r@ == self@.occupied(),
    {
        self.white.occupied().bit_or(self.black.occupied())
    }
}

/// Why a piece-placement field was rejected, naming the offending row or
/// character.
#[derive(Clone, Copy, PartialEq, Eq, Debug)]
pub enum PlacementError {
    /// The field does not split into exactly eight rows.
    WrongRowCount,
    /// A row's digits and pieces do not tally to exactly eight files.
    BadRowLength { row: u8 },
    /// A character that is neither a digit run nor a piece letter.
    BadCharacter { row: u8, piece: char },
}

/// A digit `1` to `8`, denoting that many consecutive empty squares.
pub open spec fn is_run_char(c: char) -> bool {
    49 <= c as u32 && c as u32 <= 56
}

/// The run length a digit denotes.
pub open spec fn run_len(c: char) -> int {
    c as u32 - 48
}

pub open spec fn is_white_piece_char(c: char) -> bool {
    c == 'P' || c == 'N' || c == 'B' || c == 'R' || c == 'Q' || c == 'K'
}

pub open spec fn is_black_piece_char(c: char) -> bool {
    c == 'p' || c == 'n' || c == 'b' || c == 'r' || c == 'q' || c == 'k'
}

pub open spec fn is_piece_char(c: char) -> bool {
    is_white_piece_char(c) || is_black_piece_char(c)
}

/// `n` empty squares.
pub open spec fn empty_run(n: int) -> Seq<Option<char>> {
    Seq::new(n as nat, |i: int| Option::None)
}

/// Reading one row left to right: `grid` holds the squares produced so
/// far; the result is the whole row's squares, or the first character
/// that is neither a digit run nor a piece letter.
pub open spec fn parse_row_rec(row: Seq<char>, j: int, grid: Seq<Option<char>>) -> Result<
    Seq<Option<char>>,
    char,
>
    decreases row.len() - j,
{
    if j < 0 || j >= row.len() {
        Result::Ok(grid)
    } else {
        let c = row[j];
        if is_run_char(c) {
            parse_row_rec(row, j + 1, grid + empty_run(run_len(c)))
        } else if is_piece_char(c) {
            parse_row_rec(row, j + 1, grid.push(Option::Some(c)))
        } else {
            Result::Err(c)
        }
    }
}

pub open spec fn parse_row(row: Seq<char>) -> Result<Seq<Option<char>>, char> {
    parse_row_rec(row, 0, Seq::empty())
}

/// The row reads cleanly and tallies to exactly eight files.
pub open spec fn row_ok(row: Seq<char>) -> bool {
    match parse_row(row) {
        Result::Ok(g) => g.len() == 8,
        Result::Err(_) => false,
    }
}

/// The squares of a row that reads cleanly.
pub open spec fn row_grid(row: Seq<char>) -> Seq<Option<char>> {
    match parse_row(row) {
        Result::Ok(g) => g,
        Result::Err(_) => Seq::empty(),
    }
}

/// The first fault among the eight rows, scanning from rank eight down.
pub open spec fn rows_error(rows: Seq<Seq<char>>, j: int) -> Option<PlacementError>
    decreases 8 - j,
{
    if j < 0 || j >= 8 {
        Option::None
    } else {
        match parse_row(rows[j]) {
            Result::Err(c) => Option::Some(PlacementError::BadCharacter { row: j as u8, piece: c }),
            Result::Ok(g) => if g.len() != 8 {
                Option::Some(PlacementError::BadRowLength { row: j as u8 })
            } else {
                rows_error(rows, j + 1)
            },
        }
    }
}

/// The piece letter on square `i`: the rows arrive most-significant rank
/// first, so rank `r` is row `7 - r`.
pub open spec fn placement_piece_at(rows: Seq<Seq<char>>, i: int) -> Option<char> {
    row_grid(rows[7 - rank_of(i)])[file_of(i)]
}

/// The squares carrying the piece letter `c`.
pub open spec fn squares_with(rows: Seq<Seq<char>>, c: char) -> Set<int> {
    Set::new(|i: int| 0 <= i < 64 && placement_piece_at(rows, i) == Option::Some(c))
}

/// The squares below `n` carrying the piece letter `c`.
pub open spec fn squares_with_below(rows: Seq<Seq<char>>, c: char, n: int) -> Set<int> {
    Set::new(|i: int| 0 <= i < n && placement_piece_at(rows, i) == Option::Some(c))
}

/// The board a clean placement describes.
pub open spec fn rows_board(rows: Seq<Seq<char>>) -> BoardView {
    BoardView {
        white: SideBoardView {
            pawns: squares_with(rows, 'P'),
            knights: squares_with(rows, 'N'),
            bishops: squares_with(rows, 'B'),
            rooks: squares_with(rows, 'R'),
            queens: squares_with(rows, 'Q'),
            kings: squares_with(rows, 'K'),
        },
        black: SideBoardView {
            pawns: squares_with(rows, 'p'),
            knights: squares_with(rows, 'n'),
            bishops: squares_with(rows, 'b'),
            rooks: squares_with(rows, 'r'),
            queens: squares_with(rows, 'q'),
            kings: squares_with(rows, 'k'),
        },
    }
}

/// What parsing a placement field yields: the board, or the first fault.
pub open spec fn parse_placement(s: Seq<char>) -> Result<BoardView, PlacementError> {
    let rows = split_on(s, '/');
    if rows.len() != 8 {
        Result::Err(PlacementError::WrongRowCount)
    } else {
        match rows_error(rows, 0) {
            Option::Some(e) => Result::Err(e),
            Option::None => Result::Ok(rows_board(rows)),
        }
    }
}

pub open spec fn board_result_view(r: Result<Board, PlacementError>) -> Result<
    BoardView,
    PlacementError,
> {
    match r {
        Result::Ok(b) => Result::Ok(b@),
        Result::Err(e) => Result::Err(e),
    }
}

/// A board read from a placement keeps every piece-kind and cross-side
/// set disjoint: each square carries at most one piece letter.
pub proof fn lemma_rows_board_wf(rows: Seq<Seq<char>>)
    ensures
        rows_board(rows).wf(),
{
    let b = rows_board(rows);
    assert forall|i: int| !(b.white.occupied().contains(i) && b.black.occupied().contains(i)) by {}
    assert(b.white.occupied().disjoint(b.black.occupied()));
}

/// Checking the rows in order: once the first `j` rows are clean, the
/// first fault over all rows is the first fault from row `j` on.
proof fn lemma_rows_error_skip(rows: Seq<Seq<char>>, j: int)
    requires
        0 <= j <= 8,
        forall|k: int| 0 <= k < j ==> row_ok(#[trigger] rows[k]),
    ensures
        rows_error(rows, 0) == rows_error(rows, j),
    decreases j,
{
    if j > 0 {
        lemma_rows_error_skip(rows, j - 1);
        assert(row_ok(rows[j - 1]));
    }
}

/// Read one row of a placement into its eight squares.
#[verifier::loop_isolation(false)]
fn parse_row_chars(row: &Vec<char>) -> (r: Result<Vec<Option<char>>, char>)
    ensures
        match r {
            Result::Ok(g) => parse_row(row@) == Result::<Seq<Option<char>>, char>::Ok(g@),
            Result::Err(c) => parse_row(row@) == Result::<Seq<Option<char>>, char>::Err(c),
        },
{
    let mut grid: Vec<Option<char>> = Vec::new();
    let mut j: usize = 0;
    while j < row.len()
        invariant
            j <= row@.len(),
            parse_row(row@) == parse_row_rec(row@, j as int, grid@),
        decreases row@.len() - j,
    {
        let c = row[j];
        let cu = c as u32;
        if 49 <= cu && cu <= 56 {
            let n = (cu - 48) as usize;
            let ghost old_grid = grid@;
            let mut z: usize = 0;
            while z < n
                invariant
                    z <= n,
                    grid@ == old_grid + empty_run(z as int),
                decreases n - z,
            {
                grid.push(Option::None);
                proof {
                    assert(grid@ =~= old_grid + empty_run(z as int + 1));
                }
                z = z + 1;
            }
            proof {
                assert(grid@ == old_grid + empty_run(run_len(c)));
            }
        } else {
            match c {
                'p' | 'n' | 'b' | 'r' | 'q' | 'k' | 'P' | 'N' | 'B' | 'R' | 'Q' | 'K' => {
                    grid.push(Option::Some(c));
                },
                _ => {
                    proof {
                        assert(!is_run_char(c) && !is_piece_char(c));
                    }
                    return Result::Err(c);
                },
            }
        }
        j = j + 1;
    }
    Result::Ok(grid)
}

impl Board {
    /// Build a board from a piece-placement field: eight `/`-separated
    /// rows, most-significant rank first, each row digit runs and piece
    /// letters tallying to eight files.
    pub fn from_fen_pieces(fen: &str) -> (r: Result<Board, PlacementError>)
        ensures
            board_result_view(r) == parse_placement(fen@),
            match r {
                Result::Ok(b) => b@.wf(),
                Result::Err(_) => true,
            },
    {
        let chars = str_chars(fen);
        Board::from_placement_chars(&chars)
    }

    /// As `from_fen_pieces`, over a character vector.
    #[verifier::loop_isolation(false)]
    pub fn from_placement_chars(fen: &Vec<char>) -> (r: Result<Board, PlacementError>)
        ensures
            board_result_view(r) == parse_placement(fen@),
            match r {
                Result::Ok(b) => b@.wf(),
                Result::Err(_) => true,
            },
    {
        let rows = split_chars(fen, '/');
        let ghost rowsv = rows_view(rows@);
        if rows.len() != 8 {
            return Result::Err(PlacementError::WrongRowCount);
        }
        let mut grids: Vec<Vec<Option<char>>> = Vec::new();
        let mut ri: usize = 0;
        while ri < 8
            invariant
                ri <= 8,
                grids@.len() == ri as int,
                forall|k: int|
                    0 <= k < ri as int ==> parse_row(rowsv[k]) == Result::<
                        Seq<Option<char>>,
                        char,
                    >::Ok((#[trigger] grids@[k])@) && grids@[k]@.len() == 8,
            decreases 8 - ri,
        {
            let parsed = parse_row_chars(&rows[ri]);
            proof {
                assert(rowsv[ri as int] == rows@[ri as int]@);
            }
            match parsed {
                Result::Err(c) => {
                    proof {
                        assert forall|k: int| 0 <= k < ri as int implies row_ok(
                            #[trigger] rowsv[k],
                        ) by {
                            assert(parse_row(rowsv[k]) == Result::<Seq<Option<char>>, char>::Ok(
                                grids@[k]@,
                            ));
                        }
                        lemma_rows_error_skip(rowsv, ri as int);
                    }
                    return Result::Err(PlacementError::BadCharacter { row: ri as u8, piece: c });
                },
                Result::Ok(g) => {
                    if g.len() != 8 {
                        proof {
                            assert forall|k: int| 0 <= k < ri as int implies row_ok(
                                #[trigger] rowsv[k],
                            ) by {
                                assert(parse_row(rowsv[k]) == Result::<
                                    Seq<Option<char>>,
                                    char,
                                >::Ok(grids@[k]@));
                            }
                            lemma_rows_error_skip(rowsv, ri as int);
                        }
                        return Result::Err(PlacementError::BadRowLength { row: ri as u8 });
                    }
                    grids.push(g);
                },
            }
            ri = ri + 1;
        }
        proof {
            assert forall|k: int| 0 <= k < 8 implies row_ok(#[trigger] rowsv[k]) by {
                assert(parse_row(rowsv[k]) == Result::<Seq<Option<char>>, char>::Ok(grids@[k]@));
            }
            lemma_rows_error_skip(rowsv, 8);
        }
        let mut white_pawns = Bitboard::new();
        let mut white_knights = Bitboard::new();
        let mut white_bishops = Bitboard::new();
        let mut white_rooks = Bitboard::new();
        let mut white_queens = Bitboard::new();
        let mut white_kings = Bitboard::new();
        let mut black_pawns = Bitboard::new();
        let mut black_knights = Bitboard::new();
        let mut black_bishops = Bitboard::new();
        let mut black_rooks = Bitboard::new();
        let mut black_queens = Bitboard::new();
        let mut black_kings = Bitboard::new();
        let mut i: u8 = 0;
        while i < 64
            invariant
                i <= 64,
                white_pawns@ == squares_with_below(rowsv, 'P', i as int),
                white_knights@ == squares_with_below(rowsv, 'N', i as int),
                white_bishops@ == squares_with_below(rowsv, 'B', i as int),
                white_rooks@ == squares_with_below(rowsv, 'R', i as int),
                white_queens@ == squares_with_below(rowsv, 'Q', i as int),
                white_kings@ == squares_with_below(rowsv, 'K', i as int),
                black_pawns@ == squares_with_below(rowsv, 'p', i as int),
                black_knights@ == squares_with_below(rowsv, 'n', i as int),
                black_bishops@ == squares_with_below(rowsv, 'b', i as int),
                black_rooks@ == squares_with_below(rowsv, 'r', i as int),
                black_queens@ == squares_with_below(rowsv, 'q', i as int),
                black_kings@ == squares_with_below(rowsv, 'k', i as int),
            decreases 64 - i as int,
        {
            let rank = i / 8;
            let file = i % 8;
            let sq = Square::new(i);
            let entry = grids[(7 - rank) as usize][file as usize];
            proof {
                assert(rank_of(i as int) == rank as int && file_of(i as int) == file as int);
                assert(parse_row(rowsv[7 - rank as int]) == Result::<
                    Seq<Option<char>>,
                    char,
                >::Ok(grids@[7 - rank as int]@));
                assert(row_grid(rowsv[7 - rank as int]) == grids@[7 - rank as int]@);
                assert(placement_piece_at(rowsv, i as int) == grids@[7 - rank as int]@[file as int]);
            }
            match entry {
                Option::Some(c) => {
                    match c {
                        'P' => white_pawns.set(sq),
                        'N' => white_knights.set(sq),
                        'B' => white_bishops.set(sq),
                        'R' => white_rooks.set(sq),
                        'Q' => white_queens.set(sq),
                        'K' => white_kings.set(sq),
                        'p' => black_pawns.set(sq),
                        'n' => black_knights.set(sq),
                        'b' => black_bishops.set(sq),
                        'r' => black_rooks.set(sq),
                        'q' => black_queens.set(sq),
                        'k' => black_kings.set(sq),
                        _ => {},
                    }
                },
                Option::None => {},
            }
            proof {
                assert(white_pawns@ =~= squares_with_below(rowsv, 'P', i as int + 1));
                assert(white_knights@ =~= squares_with_below(rowsv, 'N', i as int + 1));
                assert(white_bishops@ =~= squares_with_below(rowsv, 'B', i as int + 1));
                assert(white_rooks@ =~= squares_with_below(rowsv, 'R', i as int + 1));
                assert(white_queens@ =~= squares_with_below(rowsv, 'Q', i as int + 1));
                assert(white_kings@ =~= squares_with_below(rowsv, 'K', i as int + 1));
                assert(black_pawns@ =~= squares_with_below(rowsv, 'p', i as int + 1));
                assert(black_knights@ =~= squares_with_below(rowsv, 'n', i as int + 1));
                assert(black_bishops@ =~= squares_with_below(rowsv, 'b', i as int + 1));
                assert(black_rooks@ =~= squares_with_below(rowsv, 'r', i as int + 1));
                assert(black_queens@ =~= squares_with_below(rowsv, 'q', i as int + 1));
                assert(black_kings@ =~= squares_with_below(rowsv, 'k', i as int + 1));
            }
            i = i + 1;
        }
        let white = SideBoard::new(
            white_pawns,
            white_knights,
            white_bishops,
            white_rooks,
            white_queens,
            white_kings,
        );
        let black = SideBoard::new(
            black_pawns,
            black_knights,
            black_bishops,
            black_rooks,
            black_queens,
            black_kings,
        );
        let b = Board::new(white, black);
        proof {
            assert(white_pawns@ =~= squares_with(rowsv, 'P'));
            assert(white_knights@ =~= squares_with(rowsv, 'N'));
            assert(white_bishops@ =~= squares_with(rowsv, 'B'));
            assert(white_rooks@ =~= squares_with(rowsv, 'R'));
            assert(white_queens@ =~= squares_with(rowsv, 'Q'));
            assert(white_kings@ =~= squares_with(rowsv, 'K'));
            assert(black_pawns@ =~= squares_with(rowsv, 'p'));
            assert(black_knights@ =~= squares_with(rowsv, 'n'));
            assert(black_bishops@ =~= squares_with(rowsv, 'b'));
            assert(black_rooks@ =~= squares_with(rowsv, 'r'));
            assert(black_queens@ =~= squares_with(rowsv, 'q'));
            assert(black_kings@ =~= squares_with(rowsv, 'k'));
            assert(b@ == rows_board(rowsv));
            lemma_rows_board_wf(rowsv);
        }
        Result::Ok(b)
    }
}

} // verus!
