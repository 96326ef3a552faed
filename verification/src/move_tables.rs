//! Precomputed attack geometry: leaper tables (pawn, knight, king) and the
//! eight directional ray tables, together with the blocker-aware resolver
//! that derives sliding-piece attack sets from them.

use vstd::prelude::*;

use crate::bitboard::Bitboard;
use crate::board::file_of;
use crate::board::on_board;
use crate::board::rank_of;
use crate::board::Square;
use crate::game::Side;

verus! {

/// `t` lies on the board, exactly `df` files and `dr` ranks away from `sq`.
pub open spec fn is_step(sq: int, t: int, df: int, dr: int) -> bool {
    &&& on_board(sq)
    &&& on_board(t)
    &&& file_of(t) == file_of(sq) + df
    &&& rank_of(t) == rank_of(sq) + dr
}

/// The direction a side's pawns advance in, as a rank offset.
pub open spec fn pawn_dir(side: Side) -> int {
    if side == Side::White {
        1
    } else {
        -1
    }
}

/// The rank a side's pawns start on (the only rank a double push leaves).
pub open spec fn pawn_start_rank(side: Side) -> int {
    if side == Side::White {
        1
    } else {
        6
    }
}

/// The single-push target of a pawn of `side` on `sq`: one rank forward,
/// clipped at the board edge.
pub open spec fn pawn_push_targets(side: Side, sq: int) -> Set<int> {
    Set::new(|t: int| is_step(sq, t, 0, pawn_dir(side)))
}

/// The double-push target: two ranks forward, only from the start rank.
pub open spec fn pawn_double_targets(side: Side, sq: int) -> Set<int> {
    Set::new(
        |t: int| rank_of(sq) == pawn_start_rank(side) && is_step(sq, t, 0, 2 * pawn_dir(side)),
    )
}

/// The diagonal capture targets: one rank forward, one file to either side.
pub open spec fn pawn_capture_targets(side: Side, sq: int) -> Set<int> {
    Set::new(|t: int| is_step(sq, t, -1, pawn_dir(side)) || is_step(sq, t, 1, pawn_dir(side)))
}

/// The eight knight steps from `sq`, clipped to the board.
pub open spec fn knight_targets(sq: int) -> Set<int> {
    Set::new(
        |t: int|
            {
                ||| is_step(sq, t, -2, 1)
                ||| is_step(sq, t, -1, 2)
                ||| is_step(sq, t, 1, 2)
                ||| is_step(sq, t, 2, 1)
                ||| is_step(sq, t, 2, -1)
                ||| is_step(sq, t, 1, -2)
                ||| is_step(sq, t, -1, -2)
                ||| is_step(sq, t, -2, -1)
            },
    )
}

/// The eight king steps from `sq`, clipped to the board.
pub open spec fn king_targets(sq: int) -> Set<int> {
    Set::new(
        |t: int|
            {
                ||| is_step(sq, t, -1, -1)
                ||| is_step(sq, t, -1, 0)
                ||| is_step(sq, t, -1, 1)
                ||| is_step(sq, t, 0, 1)
                ||| is_step(sq, t, 1, 1)
                ||| is_step(sq, t, 1, 0)
                ||| is_step(sq, t, 1, -1)
                ||| is_step(sq, t, 0, -1)
            },
    )
}

/// One of the eight compass directions, as file and rank offsets.
pub open spec fn is_direction(df: int, dr: int) -> bool {
    &&& -1 <= df <= 1
    &&& -1 <= dr <= 1
    &&& !(df == 0 && dr == 0)
}

/// `t` is exactly `k` steps from `sq` in direction `(df, dr)`.
pub open spec fn ray_point(sq: int, t: int, df: int, dr: int, k: int) -> bool {
    &&& file_of(t) == file_of(sq) + k * df
    &&& rank_of(t) == rank_of(sq) + k * dr
}

/// `t` lies strictly beyond `sq` in direction `(df, dr)`, on the board.
pub open spec fn on_ray(sq: int, t: int, df: int, dr: int) -> bool {
    &&& on_board(sq)
    &&& on_board(t)
    &&& exists|k: int| 1 <= k && #[trigger] ray_point(sq, t, df, dr, k)
}

/// The full unobstructed ray from `sq` (exclusive) to the board edge.
pub open spec fn ray_targets(sq: int, df: int, dr: int) -> Set<int> {
    Set::new(|t: int| on_ray(sq, t, df, dr))
}

/// The ray points fewer than `kmax` steps out.
spec fn ray_prefix(sq: int, df: int, dr: int, kmax: int) -> Set<int> {
    Set::new(
        |t: int|
            on_board(t) && exists|j: int| 1 <= j < kmax && #[trigger] ray_point(sq, t, df, dr, j),
    )
}

/// A square is its rank times eight plus its file.
proof fn lemma_square_decomposition(t: int)
    requires
        on_board(t),
    ensures
        t == 8 * rank_of(t) + file_of(t),
{
}

/// Step counts in a fixed direction identify ray points: the same point
/// cannot be both `k1` and `k2` steps out.
proof fn lemma_ray_point_unique_k(sq: int, t1: int, t2: int, df: int, dr: int, k1: int, k2: int)
    requires
        is_direction(df, dr),
        on_board(t1),
        on_board(t2),
        ray_point(sq, t1, df, dr, k1),
        ray_point(sq, t2, df, dr, k2),
        k1 == k2,
    ensures
        t1 == t2,
{
    lemma_square_decomposition(t1);
    lemma_square_decomposition(t2);
}

/// Conversely, a ray point determines its step count.
proof fn lemma_ray_k_unique(sq: int, t: int, df: int, dr: int, k1: int, k2: int)
    requires
        is_direction(df, dr),
        ray_point(sq, t, df, dr, k1),
        ray_point(sq, t, df, dr, k2),
    ensures
        k1 == k2,
{
    if df != 0 {
        assert(k1 * df == k2 * df);
        assert(k1 * df == k2 * df && df != 0 ==> k1 == k2) by (nonlinear_arith);
    } else {
        assert(k1 * dr == k2 * dr);
        assert(k1 * dr == k2 * dr && dr != 0 ==> k1 == k2) by (nonlinear_arith);
    }
}

/// Once a ray leaves the board it does not come back: if the point `k`
/// steps out is off the board, so is every later point.
proof fn lemma_ray_exhausted(f0: int, r0: int, df: int, dr: int, k: int)
    requires
        is_direction(df, dr),
        0 <= f0 < 8,
        0 <= r0 < 8,
        1 <= k,
        !(0 <= f0 + k * df < 8 && 0 <= r0 + k * dr < 8),
    ensures
        forall|j: int|
            j >= k ==> !(0 <= f0 + #[trigger] (j * df) < 8 && 0 <= r0 + j * dr < 8),
{
    assert forall|j: int|
        j >= k implies !(0 <= f0 + #[trigger] (j * df) < 8 && 0 <= r0 + j * dr < 8) by {
        if f0 + k * df > 7 {
            assert(df >= 1) by (nonlinear_arith)
                requires
                    k >= 1,
                    k * df >= 1,
            ;
            assert(j * df >= k * df) by (nonlinear_arith)
                requires
                    j >= k,
                    df >= 1,
            ;
        } else if f0 + k * df < 0 {
            assert(df <= -1) by (nonlinear_arith)
                requires
                    k >= 1,
                    k * df <= -1,
            ;
            assert(j * df <= k * df) by (nonlinear_arith)
                requires
                    j >= k,
                    df <= -1,
            ;
        } else if r0 + k * dr > 7 {
            assert(dr >= 1) by (nonlinear_arith)
                requires
                    k >= 1,
                    k * dr >= 1,
            ;
            assert(j * dr >= k * dr) by (nonlinear_arith)
                requires
                    j >= k,
                    dr >= 1,
            ;
        } else {
            assert(r0 + k * dr < 0);
            assert(dr <= -1) by (nonlinear_arith)
                requires
                    k >= 1,
                    k * dr <= -1,
            ;
            assert(j * dr <= k * dr) by (nonlinear_arith)
                requires
                    j >= k,
                    dr <= -1,
            ;
        }
    }
}

/// The point eight steps out is always off the board.
proof fn lemma_ray_off_at_eight(f0: int, r0: int, df: int, dr: int)
    requires
        is_direction(df, dr),
        0 <= f0 < 8,
        0 <= r0 < 8,
    ensures
        !(0 <= f0 + 8 * df < 8 && 0 <= r0 + 8 * dr < 8),
{
}

/// The board holding the single step `(df, dr)` from `from`, or the empty
/// board when that step leaves the board.
fn leaper_step(from: Square, df: i8, dr: i8) -> (r: Bitboard)
    requires
        from.wf(),
        -2 <= df <= 2,
        -2 <= dr <= 2,
    ensures
        r@ == Set::new(|t: int| is_step(from@, t, df as int, dr as int)),
{
    let f = from.file() as i8 + df;
    let rr = from.rank() as i8 + dr;
    if f < 0 || f > 7 || rr < 0 || rr > 7 {
        let b = Bitboard::new();
        proof {
            let ghost target_set = Set::new(|t0: int| is_step(from@, t0, df as int, dr as int));
            assert forall|t: int| !(#[trigger] target_set.contains(t)) by {
                if on_board(t) {
                    assert(0 <= file_of(t) < 8 && 0 <= rank_of(t) < 8);
                }
            }
            assert(b@ =~= target_set);
        }
        b
    } else {
        let mut b = Bitboard::new();
        let target = Square::new_file_rank(f as u8, rr as u8);
        b.set(target);
        proof {
            let ghost target_set = Set::new(|t0: int| is_step(from@, t0, df as int, dr as int));
            assert forall|t: int| #[trigger] target_set.contains(t) <==> t == target@ by {
                if is_step(from@, t, df as int, dr as int) {
                    lemma_square_decomposition(t);
                }
                if t == target@ {
                    assert(file_of(t) == f as int && rank_of(t) == rr as int);
                }
            }
            assert(b@ =~= target_set);
        }
        b
    }
}

/// The full ray from `from` in direction `(df, dr)`, walked step by step
/// until it leaves the board.
fn ray_board(from: Square, df: i8, dr: i8) -> (r: Bitboard)
    requires
        from.wf(),
        is_direction(df as int, dr as int),
    ensures
        r@ == ray_targets(from@, df as int, dr as int),
{
    let mut board = Bitboard::new();
    let f0 = from.file();
    let r0 = from.rank();
    let ghost dfi = df as int;
    let ghost dri = dr as int;
    let mut k: u8 = 1;
    proof {
        assert(board@ =~= ray_prefix(from@, dfi, dri, 1));
    }
    while k <= 7
        invariant
            from.wf(),
            is_direction(dfi, dri),
            dfi == df as int,
            dri == dr as int,
            f0 as int == file_of(from@),
            r0 as int == rank_of(from@),
            f0 < 8,
            r0 < 8,
            1 <= k <= 8,
            board@ == ray_prefix(from@, dfi, dri, k as int),
        decreases 8 - k as int,
    {
        let ghost ki = k as int;
        proof {
            assert(-7 <= ki * dfi <= 7 && -7 <= ki * dri <= 7) by (nonlinear_arith)
                requires
                    1 <= ki <= 7,
                    -1 <= dfi <= 1,
                    -1 <= dri <= 1,
            ;
        }
        let step_f: i8 = (k as i8) * df;
        let step_r: i8 = (k as i8) * dr;
        let f = f0 as i8 + step_f;
        let rr = r0 as i8 + step_r;
        if f < 0 || f > 7 || rr < 0 || rr > 7 {
            proof {
                lemma_ray_exhausted(f0 as int, r0 as int, dfi, dri, ki);
                assert forall|t: int|
                    ray_targets(from@, dfi, dri).contains(t) implies ray_prefix(
                    from@,
                    dfi,
                    dri,
                    ki,
                ).contains(t) by {
                    let j = choose|j: int| 1 <= j && #[trigger] ray_point(from@, t, dfi, dri, j);
                    if j >= ki {
                        assert(0 <= file_of(t) < 8 && 0 <= rank_of(t) < 8);
                        assert(!(0 <= file_of(from@) + j * dfi < 8 && 0 <= rank_of(from@) + j * dri
                            < 8));
                    }
                }
                assert(board@ =~= ray_targets(from@, dfi, dri));
            }
            return board;
        }
        let target = Square::new_file_rank(f as u8, rr as u8);
        board.set(target);
        proof {
            assert(ray_point(from@, target@, dfi, dri, ki));
            assert forall|t: int|
                ray_prefix(from@, dfi, dri, ki + 1).contains(t) <==> (ray_prefix(
                from@,
                dfi,
                dri,
                ki,
            ).contains(t) || t == target@) by {
                if ray_prefix(from@, dfi, dri, ki + 1).contains(t) {
                    let j = choose|j: int|
                        1 <= j < ki + 1 && #[trigger] ray_point(from@, t, dfi, dri, j);
                    if j == ki {
                        lemma_ray_point_unique_k(from@, t, target@, dfi, dri, j, ki);
                    }
                }
            }
            assert(board@ =~= ray_prefix(from@, dfi, dri, ki + 1));
        }
        k = k + 1;
    }
    proof {
        lemma_ray_off_at_eight(f0 as int, r0 as int, dfi, dri);
        lemma_ray_exhausted(f0 as int, r0 as int, dfi, dri, 8);
        assert forall|t: int|
            ray_targets(from@, dfi, dri).contains(t) implies ray_prefix(
            from@,
            dfi,
            dri,
            8,
        ).contains(t) by {
            let j = choose|j: int| 1 <= j && #[trigger] ray_point(from@, t, dfi, dri, j);
            if j >= 8 {
                assert(0 <= file_of(t) < 8 && 0 <= rank_of(t) < 8);
                assert(!(0 <= file_of(from@) + j * dfi < 8 && 0 <= rank_of(from@) + j * dri < 8));
            }
        }
        assert(board@ =~= ray_targets(from@, dfi, dri));
    }
    board
}

/// Per-square single-push boards for one side.
fn compute_pawn_move_table(side: Side) -> (r: Vec<Bitboard>)
    ensures
        r@.len() == 64,
        forall|s: int| 0 <= s < 64 ==> (#[trigger] r@[s])@ == pawn_push_targets(side, s),
{
    let dir: i8 = if side == Side::White {
        1
    } else {
        -1
    };
    let mut v: Vec<Bitboard> = Vec::new();
    let mut i: u8 = 0;
    while i < 64
        invariant
            i <= 64,
            v@.len() == i as int,
            dir as int == pawn_dir(side),
            forall|s: int| 0 <= s < i as int ==> (#[trigger] v@[s])@ == pawn_push_targets(side, s),
        decreases 64 - i as int,
    {
        let sq = Square::new(i);
        let b = leaper_step(sq, 0, dir);
        proof {
            assert(b@ =~= pawn_push_targets(side, i as int));
        }
        v.push(b);
        i = i + 1;
    }
    v
}

/// Per-square double-push boards for one side: set only on the start rank.
fn compute_pawn_double_move_table(side: Side) -> (r: Vec<Bitboard>)
    ensures
        r@.len() == 64,
        forall|s: int| 0 <= s < 64 ==> (#[trigger] r@[s])@ == pawn_double_targets(side, s),
{
    let dir: i8 = if side == Side::White {
        2
    } else {
        -2
    };
    let start_rank: u8 = if side == Side::White {
        1
    } else {
        6
    };
    let mut v: Vec<Bitboard> = Vec::new();
    let mut i: u8 = 0;
    while i < 64
        invariant
            i <= 64,
            v@.len() == i as int,
            dir as int == 2 * pawn_dir(side),
            start_rank as int == pawn_start_rank(side),
            forall|s: int|
                0 <= s < i as int ==> (#[trigger] v@[s])@ == pawn_double_targets(side, s),
        decreases 64 - i as int,
    {
        let sq = Square::new(i);
        let b = if sq.rank() == start_rank {
            leaper_step(sq, 0, dir)
        } else {
            Bitboard::new()
        };
        proof {
            assert(b@ =~= pawn_double_targets(side, i as int));
        }
        v.push(b);
        i = i + 1;
    }
    v
}

/// Per-square capture boards for one side.
fn compute_pawn_capture_table(side: Side) -> (r: Vec<Bitboard>)
    ensures
        r@.len() == 64,
        forall|s: int| 0 <= s < 64 ==> (#[trigger] r@[s])@ == pawn_capture_targets(side, s),
{
    let dir: i8 = if side == Side::White {
        1
    } else {
        -1
    };
    let mut v: Vec<Bitboard> = Vec::new();
    let mut i: u8 = 0;
    while i < 64
        invariant
            i <= 64,
            v@.len() == i as int,
            dir as int == pawn_dir(side),
            forall|s: int|
                0 <= s < i as int ==> (#[trigger] v@[s])@ == pawn_capture_targets(side, s),
        decreases 64 - i as int,
    {
        let sq = Square::new(i);
        let b = leaper_step(sq, -1, dir).bit_or(leaper_step(sq, 1, dir));
        proof {
            assert(b@ =~= pawn_capture_targets(side, i as int));
        }
        v.push(b);
        i = i + 1;
    }
    v
}

/// Per-square knight attack boards.
fn compute_knight_table() -> (r: Vec<Bitboard>)
    ensures
        r@.len() == 64,
        forall|s: int| 0 <= s < 64 ==> (#[trigger] r@[s])@ == knight_targets(s),
{
    let mut v: Vec<Bitboard> = Vec::new();
    let mut i: u8 = 0;
    while i < 64
        invariant
            i <= 64,
            v@.len() == i as int,
            forall|s: int| 0 <= s < i as int ==> (#[trigger] v@[s])@ == knight_targets(s),
        decreases 64 - i as int,
    {
        let sq = Square::new(i);
        let b = leaper_step(sq, -2, 1).bit_or(leaper_step(sq, -1, 2)).bit_or(
            leaper_step(sq, 1, 2),
        ).bit_or(leaper_step(sq, 2, 1)).bit_or(leaper_step(sq, 2, -1)).bit_or(
            leaper_step(sq, 1, -2),
        ).bit_or(leaper_step(sq, -1, -2)).bit_or(leaper_step(sq, -2, -1));
        proof {
            assert(b@ =~= knight_targets(i as int));
        }
        v.push(b);
        i = i + 1;
    }
    v
}

/// Per-square king attack boards.
fn compute_king_table() -> (r: Vec<Bitboard>)
    ensures
        r@.len() == 64,
        forall|s: int| 0 <= s < 64 ==> (#[trigger] r@[s])@ == king_targets(s),
{
    let mut v: Vec<Bitboard> = Vec::new();
    let mut i: u8 = 0;
    while i < 64
        invariant
            i <= 64,
            v@.len() == i as int,
            forall|s: int| 0 <= s < i as int ==> (#[trigger] v@[s])@ == king_targets(s),
        decreases 64 - i as int,
    {
        let sq = Square::new(i);
        let b = leaper_step(sq, -1, -1).bit_or(leaper_step(sq, -1, 0)).bit_or(
            leaper_step(sq, -1, 1),
        ).bit_or(leaper_step(sq, 0, 1)).bit_or(leaper_step(sq, 1, 1)).bit_or(
            leaper_step(sq, 1, 0),
        ).bit_or(leaper_step(sq, 1, -1)).bit_or(leaper_step(sq, 0, -1));
        proof {
            assert(b@ =~= king_targets(i as int));
        }
        v.push(b);
        i = i + 1;
    }
    v
}

/// Per-square ray boards for one direction.
fn compute_ray_table(df: i8, dr: i8) -> (r: Vec<Bitboard>)
    requires
        is_direction(df as int, dr as int),
    ensures
        r@.len() == 64,
        forall|s: int| 0 <= s < 64 ==> (#[trigger] r@[s])@ == ray_targets(s, df as int, dr as int),
{
    let mut v: Vec<Bitboard> = Vec::new();
    let mut i: u8 = 0;
    while i < 64
        invariant
            i <= 64,
            v@.len() == i as int,
            is_direction(df as int, dr as int),
            forall|s: int|
                0 <= s < i as int ==> (#[trigger] v@[s])@ == ray_targets(s, df as int, dr as int),
        decreases 64 - i as int,
    {
        let sq = Square::new(i);
        let b = ray_board(sq, df, dr);
        v.push(b);
        i = i + 1;
    }
    v
}

/// The process-wide attack geometry: built once, read many times, never
/// mutated after construction. Pass it by reference wherever attack sets
/// are needed.
pub struct MoveTables {
    white_pawn_push: Vec<Bitboard>,
    black_pawn_push: Vec<Bitboard>,
    white_pawn_double: Vec<Bitboard>,
    black_pawn_double: Vec<Bitboard>,
    white_pawn_capture: Vec<Bitboard>,
    black_pawn_capture: Vec<Bitboard>,
    knight: Vec<Bitboard>,
    king: Vec<Bitboard>,
    ray_north: Vec<Bitboard>,
    ray_south: Vec<Bitboard>,
    ray_east: Vec<Bitboard>,
    ray_west: Vec<Bitboard>,
    ray_northeast: Vec<Bitboard>,
    ray_northwest: Vec<Bitboard>,
    ray_southeast: Vec<Bitboard>,
    ray_southwest: Vec<Bitboard>,
}

impl MoveTables {
    /// Every table has one entry per square, holding exactly the attack
    /// geometry the specification functions describe.
    pub closed spec fn wf(self) -> bool {
        &&& self.white_pawn_push@.len() == 64
        &&& self.black_pawn_push@.len() == 64
        &&& self.white_pawn_double@.len() == 64
        &&& self.black_pawn_double@.len() == 64
        &&& self.white_pawn_capture@.len() == 64
        &&& self.black_pawn_capture@.len() == 64
        &&& self.knight@.len() == 64
        &&& self.king@.len() == 64
        &&& self.ray_north@.len() == 64
        &&& self.ray_south@.len() == 64
        &&& self.ray_east@.len() == 64
        &&& self.ray_west@.len() == 64
        &&& self.ray_northeast@.len() == 64
        &&& self.ray_northwest@.len() == 64
        &&& self.ray_southeast@.len() == 64
        &&& self.ray_southwest@.len() == 64
        &&& forall|s: int|
            0 <= s < 64 ==> (#[trigger] self.white_pawn_push@[s])@ == pawn_push_targets(
                Side::White,
                s,
            )
        &&& forall|s: int|
            0 <= s < 64 ==> (#[trigger] self.black_pawn_push@[s])@ == pawn_push_targets(
                Side::Black,
                s,
            )
        &&& forall|s: int|
            0 <= s < 64 ==> (#[trigger] self.white_pawn_double@[s])@ == pawn_double_targets(
                Side::White,
                s,
            )
        &&& forall|s: int|
            0 <= s < 64 ==> (#[trigger] self.black_pawn_double@[s])@ == pawn_double_targets(
                Side::Black,
                s,
            )
        &&& forall|s: int|
            0 <= s < 64 ==> (#[trigger] self.white_pawn_capture@[s])@ == pawn_capture_targets(
                Side::White,
                s,
            )
        &&& forall|s: int|
            0 <= s < 64 ==> (#[trigger] self.black_pawn_capture@[s])@ == pawn_capture_targets(
                Side::Black,
                s,
            )
        &&& forall|s: int| 0 <= s < 64 ==> (#[trigger] self.knight@[s])@ == knight_targets(s)
        &&& forall|s: int| 0 <= s < 64 ==> (#[trigger] self.king@[s])@ == king_targets(s)
        &&& forall|s: int| 0 <= s < 64 ==> (#[trigger] self.ray_north@[s])@ == ray_targets(s, 0, 1)
        &&& forall|s: int| 0 <= s < 64 ==> (#[trigger] self.ray_south@[s])@ == ray_targets(s, 0, -1)
        &&& forall|s: int| 0 <= s < 64 ==> (#[trigger] self.ray_east@[s])@ == ray_targets(s, 1, 0)
        &&& forall|s: int| 0 <= s < 64 ==> (#[trigger] self.ray_west@[s])@ == ray_targets(s, -1, 0)
        &&& forall|s: int|
            0 <= s < 64 ==> (#[trigger] self.ray_northeast@[s])@ == ray_targets(s, 1, 1)
        &&& forall|s: int|
            0 <= s < 64 ==> (#[trigger] self.ray_northwest@[s])@ == ray_targets(s, -1, 1)
        &&& forall|s: int|
            0 <= s < 64 ==> (#[trigger] self.ray_southeast@[s])@ == ray_targets(s, 1, -1)
        &&& forall|s: int|
            0 <= s < 64 ==> (#[trigger] self.ray_southwest@[s])@ == ray_targets(s, -1, -1)
    }

    /// Build every table. Pure and deterministic: given the fixed board
    /// size the result is identical every time.
    pub fn new() -> (r: Self)
        ensures
            r.wf(),
    {
        MoveTables {
            white_pawn_push: compute_pawn_move_table(Side::White),
            black_pawn_push: compute_pawn_move_table(Side::Black),
            white_pawn_double: compute_pawn_double_move_table(Side::White),
            black_pawn_double: compute_pawn_double_move_table(Side::Black),
            white_pawn_capture: compute_pawn_capture_table(Side::White),
            black_pawn_capture: compute_pawn_capture_table(Side::Black),
            knight: compute_knight_table(),
            king: compute_king_table(),
            ray_north: compute_ray_table(0, 1),
            ray_south: compute_ray_table(0, -1),
            ray_east: compute_ray_table(1, 0),
            ray_west: compute_ray_table(-1, 0),
            ray_northeast: compute_ray_table(1, 1),
            ray_northwest: compute_ray_table(-1, 1),
            ray_southeast: compute_ray_table(1, -1),
            ray_southwest: compute_ray_table(-1, -1),
        }
    }
}

/// The single-push board of a pawn of `side` on `square`.
pub fn pawn_move_board(tables: &MoveTables, side: Side, square: Square) -> (r: Bitboard)
    requires
        tables.wf(),
        square.wf(),
    ensures
        r@ == pawn_push_targets(side, square@),
{
    if side == Side::White {
        tables.white_pawn_push[square.index() as usize]
    } else {
        tables.black_pawn_push[square.index() as usize]
    }
}

/// The double-push board of a pawn of `side` on `square`.
pub fn pawn_double_move_board(tables: &MoveTables, side: Side, square: Square) -> (r: Bitboard)
    requires
        tables.wf(),
        square.wf(),
    ensures
        r@ == pawn_double_targets(side, square@),
{
    if side == Side::White {
        tables.white_pawn_double[square.index() as usize]
    } else {
        tables.black_pawn_double[square.index() as usize]
    }
}

/// The diagonal capture board of a pawn of `side` on `square`.
pub fn pawn_attack_board(tables: &MoveTables, side: Side, square: Square) -> (r: Bitboard)
    requires
        tables.wf(),
        square.wf(),
    ensures
        r@ == pawn_capture_targets(side, square@),
{
    if side == Side::White {
        tables.white_pawn_capture[square.index() as usize]
    } else {
        tables.black_pawn_capture[square.index() as usize]
    }
}

/// The knight attack set from `from`; blockers never matter for leapers.
pub fn attack_table_knight(tables: &MoveTables, occupied: Bitboard, from: Square) -> (r: Bitboard)
    requires
        tables.wf(),
        from.wf(),
    ensures
        r@ == knight_targets(from@),
{
    let _ = occupied;
    tables.knight[from.index() as usize]
}

/// The king attack set from `from`; blockers never matter for leapers.
pub fn attack_table_king(tables: &MoveTables, occupied: Bitboard, from: Square) -> (r: Bitboard)
    requires
        tables.wf(),
        from.wf(),
    ensures
        r@ == king_targets(from@),
{
    let _ = occupied;
    tables.king[from.index() as usize]
}

/// `t`, `kt` steps out from `sq`, is reached before any occupied square:
/// no square strictly between `sq` and `t` on the ray lies in `occ`.
pub open spec fn visible_at(occ: Set<int>, sq: int, df: int, dr: int, t: int, kt: int) -> bool {
    &&& ray_point(sq, t, df, dr, kt)
    &&& forall|u: int, ku: int|
        1 <= ku < kt && on_board(u) && #[trigger] ray_point(sq, u, df, dr, ku) ==> !occ.contains(u)
}

/// The squares a slider on `sq` actually reaches along direction
/// `(df, dr)` under occupancy `occ`: the ray clipped at (and including)
/// its nearest blocker.
pub open spec fn blocked_ray(occ: Set<int>, sq: int, df: int, dr: int) -> Set<int> {
    Set::new(
        |t: int|
            on_board(sq) && on_board(t) && exists|kt: int|
                1 <= kt && #[trigger] visible_at(occ, sq, df, dr, t, kt),
    )
}

/// Diagonal reach of a bishop.
pub open spec fn bishop_attacks(occ: Set<int>, sq: int) -> Set<int> {
    blocked_ray(occ, sq, 1, 1).union(blocked_ray(occ, sq, -1, 1)).union(
        blocked_ray(occ, sq, 1, -1),
    ).union(blocked_ray(occ, sq, -1, -1))
}

/// Orthogonal reach of a rook.
pub open spec fn rook_attacks(occ: Set<int>, sq: int) -> Set<int> {
    blocked_ray(occ, sq, 0, 1).union(blocked_ray(occ, sq, 0, -1)).union(
        blocked_ray(occ, sq, 1, 0),
    ).union(blocked_ray(occ, sq, -1, 0))
}

/// Reach of a queen: diagonal and orthogonal together.
pub open spec fn queen_attacks(occ: Set<int>, sq: int) -> Set<int> {
    bishop_attacks(occ, sq).union(rook_attacks(occ, sq))
}

/// The knight table holds only board squares at a knight's offsets.
pub proof fn lemma_knight_targets_geometry(sq: int, t: int)
    requires
        knight_targets(sq).contains(t),
    ensures
        on_board(sq),
        on_board(t),
        ({
            let df = file_of(t) - file_of(sq);
            let dr = rank_of(t) - rank_of(sq);
            ((df == 1 || df == -1) && (dr == 2 || dr == -2)) || ((df == 2 || df == -2) && (dr == 1
                || dr == -1))
        }),
{
}

/// The king table holds only board squares one step away.
pub proof fn lemma_king_targets_geometry(sq: int, t: int)
    requires
        king_targets(sq).contains(t),
    ensures
        on_board(sq),
        on_board(t),
        ({
            let df = file_of(t) - file_of(sq);
            let dr = rank_of(t) - rank_of(sq);
            -1 <= df <= 1 && -1 <= dr <= 1 && !(df == 0 && dr == 0)
        }),
{
}

/// The pawn tables hold only board squares at the pawn's fixed offsets:
/// straight one forward, straight two from the start rank, or one forward
/// and one aside.
pub proof fn lemma_pawn_targets_geometry(side: Side, sq: int, t: int)
    ensures
        pawn_push_targets(side, sq).contains(t) ==> on_board(t) && file_of(t) == file_of(sq)
            && rank_of(t) == rank_of(sq) + pawn_dir(side),
        pawn_double_targets(side, sq).contains(t) ==> on_board(t) && file_of(t) == file_of(sq)
            && rank_of(t) == rank_of(sq) + 2 * pawn_dir(side) && rank_of(sq) == pawn_start_rank(
            side,
        ),
        pawn_capture_targets(side, sq).contains(t) ==> on_board(t) && (file_of(t) == file_of(sq)
            - 1 || file_of(t) == file_of(sq) + 1) && rank_of(t) == rank_of(sq) + pawn_dir(side),
{
}

/// On an empty occupancy every slider reaches exactly the union of its
/// unobstructed rays.
pub proof fn lemma_attacks_empty_occupancy(sq: int)
    ensures
        rook_attacks(Set::<int>::empty(), sq) == ray_targets(sq, 0, 1).union(
            ray_targets(sq, 0, -1),
        ).union(ray_targets(sq, 1, 0)).union(ray_targets(sq, -1, 0)),
        bishop_attacks(Set::<int>::empty(), sq) == ray_targets(sq, 1, 1).union(
            ray_targets(sq, -1, 1),
        ).union(ray_targets(sq, 1, -1)).union(ray_targets(sq, -1, -1)),
        queen_attacks(Set::<int>::empty(), sq) == bishop_attacks(Set::<int>::empty(), sq).union(
            rook_attacks(Set::<int>::empty(), sq),
        ),
{
    let occ = Set::<int>::empty();
    assert(ray_targets(sq, 0, 1).intersect(occ) =~= Set::<int>::empty());
    assert(ray_targets(sq, 0, -1).intersect(occ) =~= Set::<int>::empty());
    assert(ray_targets(sq, 1, 0).intersect(occ) =~= Set::<int>::empty());
    assert(ray_targets(sq, -1, 0).intersect(occ) =~= Set::<int>::empty());
    assert(ray_targets(sq, 1, 1).intersect(occ) =~= Set::<int>::empty());
    assert(ray_targets(sq, -1, 1).intersect(occ) =~= Set::<int>::empty());
    assert(ray_targets(sq, 1, -1).intersect(occ) =~= Set::<int>::empty());
    assert(ray_targets(sq, -1, -1).intersect(occ) =~= Set::<int>::empty());
    lemma_unobstructed_ray(occ, sq, 0, 1);
    lemma_unobstructed_ray(occ, sq, 0, -1);
    lemma_unobstructed_ray(occ, sq, 1, 0);
    lemma_unobstructed_ray(occ, sq, -1, 0);
    lemma_unobstructed_ray(occ, sq, 1, 1);
    lemma_unobstructed_ray(occ, sq, -1, 1);
    lemma_unobstructed_ray(occ, sq, 1, -1);
    lemma_unobstructed_ray(occ, sq, -1, -1);
    assert(rook_attacks(occ, sq) =~= ray_targets(sq, 0, 1).union(ray_targets(sq, 0, -1)).union(
        ray_targets(sq, 1, 0),
    ).union(ray_targets(sq, -1, 0)));
    assert(bishop_attacks(occ, sq) =~= ray_targets(sq, 1, 1).union(ray_targets(sq, -1, 1)).union(
        ray_targets(sq, 1, -1),
    ).union(ray_targets(sq, -1, -1)));
}

/// Chaining two ray points chains their step counts.
proof fn lemma_ray_compose(sq: int, b: int, t: int, df: int, dr: int, kb: int, j: int)
    requires
        ray_point(sq, b, df, dr, kb),
        ray_point(b, t, df, dr, j),
    ensures
        ray_point(sq, t, df, dr, kb + j),
{
    assert((kb + j) * df == kb * df + j * df) by (nonlinear_arith);
    assert((kb + j) * dr == kb * dr + j * dr) by (nonlinear_arith);
}

/// A point further out along the same ray is a ray point of the nearer one.
proof fn lemma_ray_diff(sq: int, b: int, t: int, df: int, dr: int, kb: int, kt: int)
    requires
        ray_point(sq, b, df, dr, kb),
        ray_point(sq, t, df, dr, kt),
    ensures
        ray_point(b, t, df, dr, kt - kb),
{
    assert((kt - kb) * df == kt * df - kb * df) by (nonlinear_arith);
    assert((kt - kb) * dr == kt * dr - kb * dr) by (nonlinear_arith);
}

/// A ray point's index is the origin's plus the step count times the
/// direction's index stride `8 * dr + df`.
proof fn lemma_ray_point_index(sq: int, t: int, df: int, dr: int, k: int)
    requires
        on_board(sq),
        on_board(t),
        ray_point(sq, t, df, dr, k),
    ensures
        t == sq + k * (8 * dr + df),
{
    lemma_square_decomposition(sq);
    lemma_square_decomposition(t);
    assert(8 * (rank_of(sq) + k * dr) + (file_of(sq) + k * df) == 8 * rank_of(sq) + file_of(sq) + k
        * (8 * dr + df)) by (nonlinear_arith);
}

/// Along a ray pointing toward increasing index, step order is index
/// order; toward decreasing index it is reversed.
proof fn lemma_ray_order(sq: int, b: int, t: int, df: int, dr: int, kb: int, kt: int)
    requires
        on_board(sq),
        on_board(b),
        on_board(t),
        ray_point(sq, b, df, dr, kb),
        ray_point(sq, t, df, dr, kt),
        kb < kt,
    ensures
        8 * dr + df >= 1 ==> b < t,
        8 * dr + df <= -1 ==> t < b,
{
    lemma_ray_point_index(sq, b, df, dr, kb);
    lemma_ray_point_index(sq, t, df, dr, kt);
    let step = 8 * dr + df;
    assert(kt - kb >= 1 && step >= 1 ==> (kt - kb) * step >= 1) by (nonlinear_arith);
    assert(kt - kb >= 1 && step <= -1 ==> (kt - kb) * step <= -1) by (nonlinear_arith);
    assert(kt * step - kb * step == (kt - kb) * step) by (nonlinear_arith);
}

/// Clipping a ray at its step-nearest blocker `b` by removing the sub-ray
/// rooted at `b` (a symmetric difference) yields exactly the visible
/// squares up to and including `b`.
proof fn lemma_clip_at_blocker(occ: Set<int>, sq: int, df: int, dr: int, b: int, kb: int)
    requires
        is_direction(df, dr),
        on_board(sq),
        on_board(b),
        1 <= kb,
        ray_point(sq, b, df, dr, kb),
        occ.contains(b),
        forall|u: int, ku: int|
            1 <= ku < kb && on_board(u) && #[trigger] ray_point(sq, u, df, dr, ku) ==> !occ.contains(
                u,
            ),
    ensures
        forall|t: int|
            #[trigger] blocked_ray(occ, sq, df, dr).contains(t) <==> (ray_targets(
                sq,
                df,
                dr,
            ).contains(t) != ray_targets(b, df, dr).contains(t)),
{
    assert forall|t: int|
        #[trigger] blocked_ray(occ, sq, df, dr).contains(t) <==> (ray_targets(sq, df, dr).contains(
            t,
        ) != ray_targets(b, df, dr).contains(t)) by {
        if on_board(t) {
            if on_ray(sq, t, df, dr) {
                let kt = choose|k: int| 1 <= k && #[trigger] ray_point(sq, t, df, dr, k);
                if kt <= kb {
                    // visible, and not beyond the blocker
                    assert(visible_at(occ, sq, df, dr, t, kt));
                    assert(blocked_ray(occ, sq, df, dr).contains(t));
                    if on_ray(b, t, df, dr) {
                        let j = choose|k: int| 1 <= k && #[trigger] ray_point(b, t, df, dr, k);
                        lemma_ray_compose(sq, b, t, df, dr, kb, j);
                        lemma_ray_k_unique(sq, t, df, dr, kt, kb + j);
                        assert(false);
                    }
                    assert(!ray_targets(b, df, dr).contains(t));
                } else {
                    // the blocker lies strictly before t: not visible
                    assert forall|k: int| 1 <= k && #[trigger] ray_point(sq, t, df, dr, k) implies !visible_at(
                        occ,
                        sq,
                        df,
                        dr,
                        t,
                        k,
                    ) by {
                        lemma_ray_k_unique(sq, t, df, dr, kt, k);
                        assert(1 <= kb < k && on_board(b) && ray_point(sq, b, df, dr, kb)
                            && occ.contains(b));
                    }
                    assert(!blocked_ray(occ, sq, df, dr).contains(t));
                    lemma_ray_diff(sq, b, t, df, dr, kb, kt);
                    assert(ray_point(b, t, df, dr, kt - kb) && 1 <= kt - kb);
                    assert(on_ray(b, t, df, dr));
                }
            } else {
                // off the ray from sq: off the sub-ray too, and not visible
                if on_ray(b, t, df, dr) {
                    let j = choose|k: int| 1 <= k && #[trigger] ray_point(b, t, df, dr, k);
                    lemma_ray_compose(sq, b, t, df, dr, kb, j);
                    assert(on_ray(sq, t, df, dr));
                    assert(false);
                }
                if blocked_ray(occ, sq, df, dr).contains(t) {
                    let kt = choose|k: int| 1 <= k && #[trigger] visible_at(occ, sq, df, dr, t, k);
                    assert(ray_point(sq, t, df, dr, kt));
                    assert(on_ray(sq, t, df, dr));
                    assert(false);
                }
            }
        }
    }
}

/// A ray with no occupied square on it is wholly visible.
pub proof fn lemma_unobstructed_ray(occ: Set<int>, sq: int, df: int, dr: int)
    requires
        is_direction(df, dr),
        ray_targets(sq, df, dr).intersect(occ) == Set::<int>::empty(),
    ensures
        blocked_ray(occ, sq, df, dr) =~= ray_targets(sq, df, dr),
{
    assert forall|t: int|
        blocked_ray(occ, sq, df, dr).contains(t) <==> ray_targets(sq, df, dr).contains(t) by {
        if on_ray(sq, t, df, dr) {
            let kt = choose|k: int| 1 <= k && #[trigger] ray_point(sq, t, df, dr, k);
            assert forall|u: int, ku: int|
                1 <= ku < kt && on_board(u) && #[trigger] ray_point(sq, u, df, dr, ku) implies !occ.contains(
                u,
            ) by {
                if occ.contains(u) {
                    assert(on_ray(sq, u, df, dr));
                    assert(ray_targets(sq, df, dr).intersect(occ).contains(u));
                }
            }
            assert(visible_at(occ, sq, df, dr, t, kt));
        }
        if blocked_ray(occ, sq, df, dr).contains(t) {
            let kt = choose|k: int| 1 <= k && #[trigger] visible_at(occ, sq, df, dr, t, k);
            assert(ray_point(sq, t, df, dr, kt));
            assert(on_ray(sq, t, df, dr));
        }
    }
}

/// With exactly one occupied square `b` on the ray, the visible squares
/// are the ray truncated to stop at (and include) `b`: the ray minus the
/// sub-ray rooted at `b`.
pub proof fn lemma_single_blocker(occ: Set<int>, sq: int, df: int, dr: int, b: int, kb: int)
    requires
        is_direction(df, dr),
        on_board(sq),
        on_board(b),
        1 <= kb,
        ray_point(sq, b, df, dr, kb),
        occ.contains(b),
        forall|u: int|
            ray_targets(sq, df, dr).contains(u) && occ.contains(u) ==> u == b,
    ensures
        blocked_ray(occ, sq, df, dr) =~= ray_targets(sq, df, dr).difference(
            ray_targets(b, df, dr),
        ),
{
    assert forall|u: int, ku: int|
        1 <= ku < kb && on_board(u) && #[trigger] ray_point(sq, u, df, dr, ku) implies !occ.contains(
        u,
    ) by {
        if occ.contains(u) {
            assert(on_ray(sq, u, df, dr));
            assert(ray_targets(sq, df, dr).contains(u));
            assert(u == b);
            lemma_ray_k_unique(sq, b, df, dr, ku, kb);
        }
    }
    lemma_clip_at_blocker(occ, sq, df, dr, b, kb);
    assert forall|t: int|
        blocked_ray(occ, sq, df, dr).contains(t) <==> ray_targets(sq, df, dr).difference(
            ray_targets(b, df, dr),
        ).contains(t) by {
        assert(blocked_ray(occ, sq, df, dr).contains(t) <==> (ray_targets(sq, df, dr).contains(t)
            != ray_targets(b, df, dr).contains(t)));
        if on_ray(b, t, df, dr) && !on_ray(sq, t, df, dr) {
            let j = choose|k: int| 1 <= k && #[trigger] ray_point(b, t, df, dr, k);
            lemma_ray_compose(sq, b, t, df, dr, kb, j);
            assert(false);
        }
    }
}

/// A positive-stride ray from the top corner square is empty.
proof fn lemma_ray_empty_high_corner(df: int, dr: int)
    requires
        is_direction(df, dr),
        8 * dr + df >= 1,
    ensures
        forall|t: int| !(#[trigger] ray_targets(63, df, dr).contains(t)),
{
    assert forall|t: int| !(#[trigger] ray_targets(63, df, dr).contains(t)) by {
        if on_ray(63, t, df, dr) {
            let k = choose|k: int| 1 <= k && #[trigger] ray_point(63, t, df, dr, k);
            assert(file_of(63) == 7 && rank_of(63) == 7);
            if dr == 1 {
                assert(k * 1 == k) by (nonlinear_arith);
                assert(rank_of(t) > 7);
            } else {
                assert(dr == 0 && df == 1);
                assert(k * 1 == k) by (nonlinear_arith);
                assert(file_of(t) > 7);
            }
        }
    }
}

/// A negative-stride ray from the bottom corner square is empty.
proof fn lemma_ray_empty_low_corner(df: int, dr: int)
    requires
        is_direction(df, dr),
        8 * dr + df <= -1,
    ensures
        forall|t: int| !(#[trigger] ray_targets(0, df, dr).contains(t)),
{
    assert forall|t: int| !(#[trigger] ray_targets(0, df, dr).contains(t)) by {
        if on_ray(0, t, df, dr) {
            let k = choose|k: int| 1 <= k && #[trigger] ray_point(0, t, df, dr, k);
            assert(file_of(0) == 0 && rank_of(0) == 0);
            if dr == -1 {
                assert(k * (-1) == -k) by (nonlinear_arith);
                assert(rank_of(t) < 0);
            } else {
                assert(dr == 0 && df == -1);
                assert(k * (-1) == -k) by (nonlinear_arith);
                assert(file_of(t) < 0);
            }
        }
    }
}

/// One direction of the resolver, for rays pointing toward increasing
/// index: the nearest blocker is the lowest set index of the blocker mask,
/// with an edge bit at the top corner so the mask is never empty.
fn ray_attack_dir_low(
    table: &Vec<Bitboard>,
    occupied: Bitboard,
    from: Square,
    Ghost(df): Ghost<int>,
    Ghost(dr): Ghost<int>,
) -> (r: Bitboard)
    requires
        table@.len() == 64,
        forall|s: int| 0 <= s < 64 ==> (#[trigger] table@[s])@ == ray_targets(s, df, dr),
        is_direction(df, dr),
        8 * dr + df >= 1,
        from.wf(),
    ensures
        r@ == blocked_ray(occupied@, from@, df, dr),
{
    let ray = table[from.index() as usize];
    let mut sentinel = Bitboard::new();
    sentinel.set(Square::new(63));
    proof {
        assert(sentinel@ =~= Set::<int>::empty().insert(63));
    }
    let blockers = ray.bit_and(occupied).bit_or(sentinel);
    proof {
        assert(blockers@.contains(63));
    }
    let b = blockers.find_first();
    let sub = table[b as usize];
    let result = ray.bit_xor(sub);
    proof {
        let occ = occupied@;
        let sq = from@;
        if ray@.intersect(occ).contains(b as int) {
            let kb = choose|k: int| 1 <= k && #[trigger] ray_point(sq, b as int, df, dr, k);
            assert forall|u: int, ku: int|
                1 <= ku < kb && on_board(u) && #[trigger] ray_point(sq, u, df, dr, ku) implies !occ.contains(
                u,
            ) by {
                if occ.contains(u) {
                    assert(on_ray(sq, u, df, dr));
                    assert(blockers@.contains(u));
                    assert(b as int <= u);
                    lemma_ray_order(sq, u, b as int, df, dr, ku, kb);
                    assert(false);
                }
            }
            lemma_clip_at_blocker(occ, sq, df, dr, b as int, kb);
            assert(result@ =~= blocked_ray(occ, sq, df, dr));
        } else {
            assert(b as int == 63);
            assert forall|u: int| !(#[trigger] ray_targets(sq, df, dr).intersect(occ).contains(u)) by {
                if ray_targets(sq, df, dr).intersect(occ).contains(u) {
                    assert(blockers@.contains(u));
                    assert(63 <= u);
                    assert(on_board(u));
                    assert(u == 63);
                }
            }
            assert(ray_targets(sq, df, dr).intersect(occ) =~= Set::<int>::empty());
            lemma_unobstructed_ray(occ, sq, df, dr);
            lemma_ray_empty_high_corner(df, dr);
            assert(result@ =~= blocked_ray(occ, sq, df, dr));
        }
    }
    result
}

/// The mirror direction of the resolver, for rays pointing toward
/// decreasing index: the nearest blocker is the highest set index, with
/// the edge bit at the bottom corner.
fn ray_attack_dir_high(
    table: &Vec<Bitboard>,
    occupied: Bitboard,
    from: Square,
    Ghost(df): Ghost<int>,
    Ghost(dr): Ghost<int>,
) -> (r: Bitboard)
    requires
        table@.len() == 64,
        forall|s: int| 0 <= s < 64 ==> (#[trigger] table@[s])@ == ray_targets(s, df, dr),
        is_direction(df, dr),
        8 * dr + df <= -1,
        from.wf(),
    ensures
        r@ == blocked_ray(occupied@, from@, df, dr),
{
    let ray = table[from.index() as usize];
    let mut sentinel = Bitboard::new();
    sentinel.set(Square::new(0));
    proof {
        assert(sentinel@ =~= Set::<int>::empty().insert(0));
    }
    let blockers = ray.bit_and(occupied).bit_or(sentinel);
    proof {
        assert(blockers@.contains(0));
    }
    let b = blockers.find_last();
    let sub = table[b as usize];
    let result = ray.bit_xor(sub);
    proof {
        let occ = occupied@;
        let sq = from@;
        if ray@.intersect(occ).contains(b as int) {
            let kb = choose|k: int| 1 <= k && #[trigger] ray_point(sq, b as int, df, dr, k);
            assert forall|u: int, ku: int|
                1 <= ku < kb && on_board(u) && #[trigger] ray_point(sq, u, df, dr, ku) implies !occ.contains(
                u,
            ) by {
                if occ.contains(u) {
                    assert(on_ray(sq, u, df, dr));
                    assert(blockers@.contains(u));
                    assert(u <= b as int);
                    lemma_ray_order(sq, u, b as int, df, dr, ku, kb);
                    assert(false);
                }
            }
            lemma_clip_at_blocker(occ, sq, df, dr, b as int, kb);
            assert(result@ =~= blocked_ray(occ, sq, df, dr));
        } else {
            assert(b as int == 0);
            assert forall|u: int| !(#[trigger] ray_targets(sq, df, dr).intersect(occ).contains(u)) by {
                if ray_targets(sq, df, dr).intersect(occ).contains(u) {
                    assert(blockers@.contains(u));
                    assert(u <= 0);
                    assert(on_board(u));
                    assert(u == 0);
                }
            }
            assert(ray_targets(sq, df, dr).intersect(occ) =~= Set::<int>::empty());
            lemma_unobstructed_ray(occ, sq, df, dr);
            lemma_ray_empty_low_corner(df, dr);
            assert(result@ =~= blocked_ray(occ, sq, df, dr));
        }
    }
    result
}

/// The bishop attack set from `from` under occupancy `occupied`: the four
/// diagonal rays, each clipped at its nearest blocker.
pub fn attack_table_bishop(tables: &MoveTables, occupied: Bitboard, from: Square) -> (r: Bitboard)
    requires
        tables.wf(),
        from.wf(),
    ensures
        r@ == bishop_attacks(occupied@, from@),
{
    let ne = ray_attack_dir_low(&tables.ray_northeast, occupied, from, Ghost(1), Ghost(1));
    let nw = ray_attack_dir_low(&tables.ray_northwest, occupied, from, Ghost(-1), Ghost(1));
    let se = ray_attack_dir_high(&tables.ray_southeast, occupied, from, Ghost(1), Ghost(-1));
    let sw = ray_attack_dir_high(&tables.ray_southwest, occupied, from, Ghost(-1), Ghost(-1));
    let r = ne.bit_or(nw).bit_or(se).bit_or(sw);
    proof {
        assert(r@ =~= bishop_attacks(occupied@, from@));
    }
    r
}

/// The rook attack set from `from` under occupancy `occupied`: the four
/// orthogonal rays, each clipped at its nearest blocker.
pub fn attack_table_rook(tables: &MoveTables, occupied: Bitboard, from: Square) -> (r: Bitboard)
    requires
        tables.wf(),
        from.wf(),
    ensures
        r@ == rook_attacks(occupied@, from@),
{
    let n = ray_attack_dir_low(&tables.ray_north, occupied, from, Ghost(0), Ghost(1));
    let e = ray_attack_dir_low(&tables.ray_east, occupied, from, Ghost(1), Ghost(0));
    let s = ray_attack_dir_high(&tables.ray_south, occupied, from, Ghost(0), Ghost(-1));
    let w = ray_attack_dir_high(&tables.ray_west, occupied, from, Ghost(-1), Ghost(0));
    let r = n.bit_or(e).bit_or(s).bit_or(w);
    proof {
        assert(r@ =~= rook_attacks(occupied@, from@));
    }
    r
}

/// The queen attack set: diagonal and orthogonal reach together.
pub fn attack_table_queen(tables: &MoveTables, occupied: Bitboard, from: Square) -> (r: Bitboard)
    requires
        tables.wf(),
        from.wf(),
    ensures
        r@ == queen_attacks(occupied@, from@),
{
    let d = attack_table_bishop(tables, occupied, from);
    let o = attack_table_rook(tables, occupied, from);
    let r = d.bit_or(o);
    proof {
        assert(r@ =~= queen_attacks(occupied@, from@));
    }
    r
}

} // verus!
