//! Pseudolegal move generation: a pure function of board, side to move and
//! en-passant target. Each generator's contract characterises exactly which
//! move records appear in its output.

use vstd::prelude::*;

use crate::bitboard::Bitboard;
use crate::board::rank_of;
use crate::board::SideBoard;
use crate::board::SideBoardView;
use crate::board::Square;
use crate::game::other_side;
use crate::game::square_option_view;
use crate::game::Game;
use crate::game::GameView;
use crate::game::Side;
use crate::move_tables::attack_table_bishop;
use crate::move_tables::attack_table_king;
use crate::move_tables::attack_table_knight;
use crate::move_tables::attack_table_queen;
use crate::move_tables::attack_table_rook;
use crate::move_tables::bishop_attacks;
use crate::move_tables::king_targets;
use crate::move_tables::knight_targets;
use crate::move_tables::pawn_attack_board;
use crate::move_tables::pawn_capture_targets;
use crate::move_tables::pawn_double_move_board;
use crate::move_tables::pawn_double_targets;
use crate::move_tables::pawn_move_board;
use crate::move_tables::pawn_push_targets;
use crate::move_tables::queen_attacks;
use crate::move_tables::rook_attacks;
use crate::move_tables::MoveTables;

verus! {

/// A piece kind a pawn may promote to.
#[derive(Clone, Copy, PartialEq, Eq, Debug)]
pub enum PromotionPiece {
    Knight,
    Bishop,
    Rook,
    Queen,
}

/// A candidate move: a value record with no identity beyond its fields.
#[derive(Clone, Copy, PartialEq, Eq, Debug)]
pub struct Move {
    pub from: Square,
    pub to: Square,
    pub capture: bool,
    pub en_passant: bool,
    pub promotion: Option<PromotionPiece>,
}

/// The back rank a pawn of `side` promotes on.
pub open spec fn pawn_promotion_rank(side: Side) -> int {
    if side == Side::White {
        7
    } else {
        0
    }
}

/// A move into one of `attacks`, not onto an own piece, capture-flagged
/// against the opponent's occupancy, with no pawn-specific decoration.
pub open spec fn is_target_move(
    our: SideBoardView,
    opp: SideBoardView,
    attacks: Set<int>,
    m: Move,
) -> bool {
    &&& attacks.contains(m.to@)
    &&& !our.occupied().contains(m.to@)
    &&& m.capture == opp.occupied().contains(m.to@)
    &&& m.en_passant == false
    &&& m.promotion is None
}

pub open spec fn is_knight_move(our: SideBoardView, opp: SideBoardView, m: Move) -> bool {
    &&& our.knights.contains(m.from@)
    &&& is_target_move(our, opp, knight_targets(m.from@), m)
}

pub open spec fn is_king_move(our: SideBoardView, opp: SideBoardView, m: Move) -> bool {
    &&& our.kings.contains(m.from@)
    &&& is_target_move(our, opp, king_targets(m.from@), m)
}

pub open spec fn is_bishop_move(
    our: SideBoardView,
    opp: SideBoardView,
    occ: Set<int>,
    m: Move,
) -> bool {
    &&& our.bishops.contains(m.from@)
    &&& is_target_move(our, opp, bishop_attacks(occ, m.from@), m)
}

pub open spec fn is_rook_move(
    our: SideBoardView,
    opp: SideBoardView,
    occ: Set<int>,
    m: Move,
) -> bool {
    &&& our.rooks.contains(m.from@)
    &&& is_target_move(our, opp, rook_attacks(occ, m.from@), m)
}

pub open spec fn is_queen_move(
    our: SideBoardView,
    opp: SideBoardView,
    occ: Set<int>,
    m: Move,
) -> bool {
    &&& our.queens.contains(m.from@)
    &&& is_target_move(our, opp, queen_attacks(occ, m.from@), m)
}

/// The promotion field a pawn move must carry: some promotion choice on
/// the promotion rank, none anywhere else.
pub open spec fn promotion_field_ok(side: Side, m: Move) -> bool {
    if rank_of(m.to@) == pawn_promotion_rank(side) {
        m.promotion is Some
    } else {
        m.promotion is None
    }
}

/// A pawn push: single, or double when the single-push square is free.
pub open spec fn is_pawn_push(our: SideBoardView, occ: Set<int>, side: Side, m: Move) -> bool {
    &&& our.pawns.contains(m.from@)
    &&& !occ.contains(m.to@)
    &&& (pawn_push_targets(side, m.from@).contains(m.to@) || (pawn_double_targets(
        side,
        m.from@,
    ).contains(m.to@) && exists|t1: int|
        #[trigger] pawn_push_targets(side, m.from@).contains(t1) && !occ.contains(t1)))
    &&& m.capture == false
    &&& m.en_passant == false
    &&& promotion_field_ok(side, m)
}

/// A pawn capture onto an opponent-occupied diagonal square.
pub open spec fn is_pawn_capture(
    our: SideBoardView,
    opp: SideBoardView,
    side: Side,
    m: Move,
) -> bool {
    &&& our.pawns.contains(m.from@)
    &&& pawn_capture_targets(side, m.from@).contains(m.to@)
    &&& opp.occupied().contains(m.to@)
    &&& m.capture == true
    &&& m.en_passant == false
    &&& promotion_field_ok(side, m)
}

/// An en-passant capture: the supplied target square, reached diagonally.
pub open spec fn is_pawn_en_passant(
    our: SideBoardView,
    side: Side,
    ep: Option<int>,
    m: Move,
) -> bool {
    &&& our.pawns.contains(m.from@)
    &&& ep == Option::Some(m.to@)
    &&& pawn_capture_targets(side, m.from@).contains(m.to@)
    &&& m.capture == true
    &&& m.en_passant == true
    &&& m.promotion is None
}

pub open spec fn is_pawn_move(
    our: SideBoardView,
    opp: SideBoardView,
    occ: Set<int>,
    side: Side,
    ep: Option<int>,
    m: Move,
) -> bool {
    ||| is_pawn_push(our, occ, side, m)
    ||| is_pawn_capture(our, opp, side, m)
    ||| is_pawn_en_passant(our, side, ep, m)
}

/// A pseudolegal move for the side to move in `g`.
pub open spec fn is_pseudolegal_move(g: GameView, m: Move) -> bool {
    let our = g.board.side(g.active);
    let opp = g.board.side(other_side(g.active));
    let occ = g.board.occupied();
    ||| is_pawn_move(our, opp, occ, g.active, g.ep_square, m)
    ||| is_knight_move(our, opp, m)
    ||| is_bishop_move(our, opp, occ, m)
    ||| is_rook_move(our, opp, occ, m)
    ||| is_queen_move(our, opp, occ, m)
    ||| is_king_move(our, opp, m)
}

/// A pawn with a free push square on the promotion rank promotes: every
/// one of the four promotion choices is a pseudolegal push, and no
/// promotion-free push to that square is.
pub proof fn lemma_promotion_choices(
    our: SideBoardView,
    occ: Set<int>,
    side: Side,
    from: int,
    to: int,
)
    requires
        our.pawns.contains(from),
        pawn_push_targets(side, from).contains(to),
        !occ.contains(to),
        rank_of(to) == pawn_promotion_rank(side),
        0 <= from < 64,
        0 <= to < 64,
    ensures
        forall|p: PromotionPiece|
            is_pawn_push(
                our,
                occ,
                side,
                (Move {
                    from: crate::board::square_at(from),
                    to: crate::board::square_at(to),
                    capture: false,
                    en_passant: false,
                    promotion: Option::Some(p),
                }),
            ),
        !is_pawn_push(
            our,
            occ,
            side,
            (Move {
                from: crate::board::square_at(from),
                to: crate::board::square_at(to),
                capture: false,
                en_passant: false,
                promotion: Option::None,
            }),
        ),
        forall|m: Move|
            m.to@ == to && #[trigger] is_pawn_push(our, occ, side, m) ==> m.promotion is Some,
{
    crate::board::lemma_square_at(from);
    crate::board::lemma_square_at(to);
}

/// Generating moves twice from the same position yields identical move
/// sets: any two sequences satisfying the generator's contract hold
/// exactly the same moves.
pub proof fn lemma_generation_idempotent(g: GameView, r1: Seq<Move>, r2: Seq<Move>)
    requires
        forall|m: Move| #[trigger] r1.contains(m) <==> is_pseudolegal_move(g, m),
        forall|m: Move| #[trigger] r2.contains(m) <==> is_pseudolegal_move(g, m),
    ensures
        forall|m: Move| #[trigger] r1.contains(m) <==> r2.contains(m),
        r1.to_set() == r2.to_set(),
{
    assert(r1.to_set() =~= r2.to_set());
}

/// Concatenation holds an element exactly when one part does.
proof fn lemma_concat_contains<T>(a: Seq<T>, b: Seq<T>)
    ensures
        forall|x: T| #[trigger] (a + b).contains(x) <==> a.contains(x) || b.contains(x),
{
    assert forall|x: T| #[trigger] (a + b).contains(x) <==> a.contains(x) || b.contains(x) by {
        if (a + b).contains(x) {
            let i = choose|i: int| 0 <= i < (a + b).len() && (a + b)[i] == x;
            if i < a.len() {
                assert(a[i] == x);
            } else {
                assert(b[i - a.len()] == x);
            }
        }
        if a.contains(x) {
            let i = choose|i: int| 0 <= i < a.len() && a[i] == x;
            assert((a + b)[i] == x);
        }
        if b.contains(x) {
            let i = choose|i: int| 0 <= i < b.len() && b[i] == x;
            assert((a + b)[a.len() + i] == x);
        }
    }
}

/// Concatenating duplicate-free sequences with no common element stays
/// duplicate-free.
proof fn lemma_concat_no_duplicates<T>(a: Seq<T>, b: Seq<T>)
    requires
        a.no_duplicates(),
        b.no_duplicates(),
        forall|x: T| !(#[trigger] a.contains(x) && b.contains(x)),
    ensures
        (a + b).no_duplicates(),
{
    assert forall|i: int, j: int|
        0 <= i < (a + b).len() && 0 <= j < (a + b).len() && i != j implies (a + b)[i] != (a
        + b)[j] by {
        if i < a.len() && j < a.len() {
        } else if i >= a.len() && j >= a.len() {
            assert((a + b)[i] == b[i - a.len()] && (a + b)[j] == b[j - a.len()]);
        } else if i < a.len() && j >= a.len() {
            if (a + b)[i] == (a + b)[j] {
                assert(a.contains((a + b)[i]));
                assert(b.contains((a + b)[j]));
            }
        } else {
            if (a + b)[i] == (a + b)[j] {
                assert(b.contains((a + b)[i]));
                assert(a.contains((a + b)[j]));
            }
        }
    }
}

/// One move for every square of `attack_table` not occupied by an own
/// piece, capture-flagged against the opponent.
#[verifier::loop_isolation(false)]
pub fn generate_ray_moves(
    from: Square,
    our_pieces: &SideBoard,
    opponent_pieces: &SideBoard,
    attack_table: Bitboard,
) -> (r: Vec<Move>)
    ensures
        forall|m: Move|
            #[trigger] r@.contains(m) <==> (m.from@ == from@ && is_target_move(
                our_pieces@,
                opponent_pieces@,
                attack_table@,
                m,
            )),
        r@.no_duplicates(),
{
    let mut result: Vec<Move> = Vec::new();
    let our_occupied = our_pieces.occupied();
    let opponent_occupied = opponent_pieces.occupied();
    let attacked = attack_table.bit_and(our_occupied.bit_not());
    proof {
        attack_table.lemma_view_on_board();
    }
    let targets = attacked.squares();
    let ghost tseq = targets@;
    let mut i: usize = 0;
    while i < targets.len()
        invariant
            i <= targets.len(),
            forall|m: Move|
                #[trigger] result@.contains(m) <==> (m.from@ == from@ && is_target_move(
                    our_pieces@,
                    opponent_pieces@,
                    attack_table@,
                    m,
                ) && exists|k: int| 0 <= k < i && (#[trigger] tseq[k])@ == m.to@),
            result@.no_duplicates(),
        decreases targets.len() - i,
    {
        let to = targets[i];
        let capture = opponent_occupied.is_set(to);
        let mv = Move { from, to, capture, en_passant: false, promotion: Option::None };
        let ghost prev = result@;
        proof {
            assert(attacked@.contains(to@));
            assert(!result@.contains(mv));
        }
        result.push(mv);
        proof {
            assert forall|m: Move|
                #[trigger] result@.contains(m) <==> (m.from@ == from@ && is_target_move(
                    our_pieces@,
                    opponent_pieces@,
                    attack_table@,
                    m,
                ) && exists|k: int| 0 <= k < i + 1 && (#[trigger] tseq[k])@ == m.to@) by {
                if result@.contains(m) {
                    if prev.contains(m) {
                    } else {
                        assert(m == mv);
                        assert(tseq[i as int]@ == m.to@);
                    }
                } else {
                    if m.from@ == from@ && is_target_move(
                        our_pieces@,
                        opponent_pieces@,
                        attack_table@,
                        m,
                    ) {
                        if exists|k: int| 0 <= k < i + 1 && (#[trigger] tseq[k])@ == m.to@ {
                            let k = choose|k: int| 0 <= k < i + 1 && (#[trigger] tseq[k])@ == m.to@;
                            if k == i {
                                crate::board::lemma_square_view_injective(m.to, to);
                                crate::board::lemma_square_view_injective(m.from, from);
                                assert(m == mv);
                                assert(result@[result@.len() - 1] == mv);
                                assert(result@.contains(mv));
                                assert(false);
                            } else {
                                assert(prev.contains(m));
                                let k0 = choose|k0: int| 0 <= k0 < prev.len() && prev[k0] == m;
                                assert(result@[k0] == m);
                                assert(result@.contains(m));
                                assert(false);
                            }
                        }
                    }
                }
            }
        }
        i = i + 1;
    }
    proof {
        assert forall|m: Move|
            #[trigger] result@.contains(m) <==> (m.from@ == from@ && is_target_move(
                our_pieces@,
                opponent_pieces@,
                attack_table@,
                m,
            )) by {
            if m.from@ == from@ && is_target_move(
                our_pieces@,
                opponent_pieces@,
                attack_table@,
                m,
            ) {
                assert(attacked@.contains(m.to@));
            }
        }
    }
    result
}

/// Append the moves for one pawn target: one move per promotion choice on
/// the promotion rank, a single move elsewhere.
fn push_pawn_target_moves(result: &mut Vec<Move>, from: Square, to: Square, capture: bool, side: Side)
    requires
        to.wf(),
        forall|m: Move|
            #[trigger] old(result)@.contains(m) ==> !(m.from == from && m.to == to && m.capture
                == capture && m.en_passant == false),
        old(result)@.no_duplicates(),
    ensures
        forall|m: Move|
            #[trigger] final(result)@.contains(m) <==> (old(result)@.contains(m) || (m.from == from
                && m.to == to && m.capture == capture && m.en_passant == false
                && promotion_field_ok(side, m))),
        final(result)@.no_duplicates(),
{
    let promotion_rank: u8 = if side == Side::White {
        7
    } else {
        0
    };
    let ghost prev = result@;
    if to.rank() == promotion_rank {
        result.push(Move { from, to, capture, en_passant: false, promotion: Option::Some(PromotionPiece::Knight) });
        result.push(Move { from, to, capture, en_passant: false, promotion: Option::Some(PromotionPiece::Bishop) });
        result.push(Move { from, to, capture, en_passant: false, promotion: Option::Some(PromotionPiece::Rook) });
        result.push(Move { from, to, capture, en_passant: false, promotion: Option::Some(PromotionPiece::Queen) });
        proof {
            let n = result@.len();
            assert forall|m: Move|
                #[trigger] result@.contains(m) <==> (prev.contains(m) || (m.from == from && m.to
                    == to && m.capture == capture && m.en_passant == false && promotion_field_ok(
                    side,
                    m,
                ))) by {
                if result@.contains(m) {
                    let i = choose|i: int| 0 <= i < n && result@[i] == m;
                    if i < prev.len() {
                        assert(prev[i] == m);
                    }
                } else {
                    if prev.contains(m) {
                        let i = choose|i: int| 0 <= i < prev.len() && prev[i] == m;
                        assert(result@[i] == m);
                        assert(false);
                    }
                    if m.from == from && m.to == to && m.capture == capture && m.en_passant
                        == false && promotion_field_ok(side, m) {
                        match m.promotion {
                            Option::Some(PromotionPiece::Knight) => {
                                assert(result@[n - 4] == m);
                            },
                            Option::Some(PromotionPiece::Bishop) => {
                                assert(result@[n - 3] == m);
                            },
                            Option::Some(PromotionPiece::Rook) => {
                                assert(result@[n - 2] == m);
                            },
                            Option::Some(PromotionPiece::Queen) => {
                                assert(result@[n - 1] == m);
                            },
                            Option::None => {},
                        }
                        assert(result@.contains(m));
                        assert(false);
                    }
                }
            }
            assert forall|i: int, j: int|
                0 <= i < n && 0 <= j < n && i != j implies result@[i] != result@[j] by {
                if i < prev.len() && j < prev.len() {
                } else if i < prev.len() && j >= prev.len() {
                    assert(prev.contains(result@[i]));
                } else if j < prev.len() && i >= prev.len() {
                    assert(prev.contains(result@[j]));
                }
            }
        }
    } else {
        let mv = Move { from, to, capture, en_passant: false, promotion: Option::None };
        result.push(mv);
        proof {
            let n = result@.len();
            assert forall|m: Move|
                #[trigger] result@.contains(m) <==> (prev.contains(m) || (m.from == from && m.to
                    == to && m.capture == capture && m.en_passant == false && promotion_field_ok(
                    side,
                    m,
                ))) by {
                if result@.contains(m) {
                    let i = choose|i: int| 0 <= i < n && result@[i] == m;
                    if i < prev.len() {
                        assert(prev[i] == m);
                    }
                } else {
                    if prev.contains(m) {
                        let i = choose|i: int| 0 <= i < prev.len() && prev[i] == m;
                        assert(result@[i] == m);
                        assert(false);
                    }
                    if m.from == from && m.to == to && m.capture == capture && m.en_passant
                        == false && promotion_field_ok(side, m) {
                        assert(m.promotion is None);
                        assert(result@[n - 1] == m);
                        assert(false);
                    }
                }
            }
            assert forall|i: int, j: int|
                0 <= i < n && 0 <= j < n && i != j implies result@[i] != result@[j] by {
                if i < prev.len() && j >= prev.len() {
                    assert(prev.contains(result@[i]));
                } else if j < prev.len() && i >= prev.len() {
                    assert(prev.contains(result@[j]));
                }
            }
        }
    }
}

/// The moves of the single pawn on `from`.
#[verifier::loop_isolation(false)]
fn generate_pawn_moves_from(
    tables: &MoveTables,
    our_pieces: &SideBoard,
    opponent_pieces: &SideBoard,
    occupied: Bitboard,
    side: Side,
    ep_square: Option<Square>,
    from: Square,
) -> (r: Vec<Move>)
    requires
        tables.wf(),
        from.wf(),
        our_pieces@.pawns.contains(from@),
        match ep_square {
            Option::Some(e) => e.wf(),
            Option::None => true,
        },
    ensures
        forall|m: Move|
            #[trigger] r@.contains(m) <==> (m.from == from && is_pawn_move(
                our_pieces@,
                opponent_pieces@,
                occupied@,
                side,
                square_option_view(ep_square),
                m,
            )),
        r@.no_duplicates(),
{
    let ghost ov = our_pieces@;
    let ghost pv = opponent_pieces@;
    let ghost occ = occupied@;
    let ghost epv = square_option_view(ep_square);
    let mut result: Vec<Move> = Vec::new();
    let not_occupied = occupied.bit_not();
    let single = pawn_move_board(tables, side, from).bit_and(not_occupied);
    let single_empty = single.is_empty();
    let ghost singles = single@;
    proof {
        assert forall|t: int| #[trigger] singles.contains(t) <==> (pawn_push_targets(
            side,
            from@,
        ).contains(t) && !occ.contains(t)) by {
            if pawn_push_targets(side, from@).contains(t) {
                assert(crate::board::on_board(t));
            }
        }
    }
    let mut move_board = single;
    if !single_empty {
        move_board = move_board.bit_or(
            pawn_double_move_board(tables, side, from).bit_and(not_occupied),
        );
    }
    let capture_board = pawn_attack_board(tables, side, from).bit_and(
        opponent_pieces.occupied(),
    );
    let ghost push_set = move_board@;
    proof {
        if !single_empty {
            if !(exists|x: int| #[trigger] singles.contains(x)) {
                assert(singles =~= Set::<int>::empty());
            }
            assert(exists|x: int| #[trigger] singles.contains(x));
        }
        assert forall|t: int| #[trigger] push_set.contains(t) <==> (!occ.contains(t) && (
        pawn_push_targets(side, from@).contains(t) || (pawn_double_targets(side, from@).contains(t)
            && exists|t1: int|
            #[trigger] pawn_push_targets(side, from@).contains(t1) && !occ.contains(t1)))) by {
            if pawn_double_targets(side, from@).contains(t) {
                assert(crate::board::on_board(t));
            }
            if exists|t1: int|
                #[trigger] pawn_push_targets(side, from@).contains(t1) && !occ.contains(t1) {
                let t1 = choose|t1: int|
                    #[trigger] pawn_push_targets(side, from@).contains(t1) && !occ.contains(t1);
                assert(singles.contains(t1));
                assert(!single_empty);
            }
            if !single_empty {
                let x = choose|x: int| #[trigger] singles.contains(x);
                assert(pawn_push_targets(side, from@).contains(x) && !occ.contains(x));
            }
        }
    }
    // pushes, with promotion expansion on the back rank
    let push_targets = move_board.squares();
    let ghost tseq = push_targets@;
    let mut i: usize = 0;
    while i < push_targets.len()
        invariant
            i <= push_targets.len(),
            forall|m: Move|
                #[trigger] result@.contains(m) <==> (m.from == from && is_pawn_push(
                    ov,
                    occ,
                    side,
                    m,
                ) && exists|k: int| 0 <= k < i && (#[trigger] tseq[k])@ == m.to@),
            result@.no_duplicates(),
        decreases push_targets.len() - i,
    {
        let to = push_targets[i];
        let ghost prev = result@;
        proof {
            assert(push_set.contains(to@));
            assert forall|m: Move|
                #[trigger] prev.contains(m) implies !(m.from == from && m.to == to && m.capture
                == false && m.en_passant == false) by {
                if m.to == to {
                    let k = choose|k: int| 0 <= k < i && (#[trigger] tseq[k])@ == m.to@;
                    assert(tseq[k]@ < tseq[i as int]@);
                }
            }
        }
        push_pawn_target_moves(&mut result, from, to, false, side);
        proof {
            assert forall|m: Move|
                #[trigger] result@.contains(m) <==> (m.from == from && is_pawn_push(
                    ov,
                    occ,
                    side,
                    m,
                ) && exists|k: int| 0 <= k < i + 1 && (#[trigger] tseq[k])@ == m.to@) by {
                if result@.contains(m) && !prev.contains(m) {
                    assert(m.to == to);
                    assert(tseq[i as int]@ == m.to@);
                    assert(push_set.contains(m.to@));
                }
                if !result@.contains(m) && m.from == from && is_pawn_push(ov, occ, side, m)
                    && exists|k: int| 0 <= k < i + 1 && (#[trigger] tseq[k])@ == m.to@ {
                    let k = choose|k: int| 0 <= k < i + 1 && (#[trigger] tseq[k])@ == m.to@;
                    if k == i {
                        crate::board::lemma_square_view_injective(m.to, to);
                        assert(m.to == to);
                        assert(false);
                    } else {
                        assert(prev.contains(m));
                        assert(false);
                    }
                }
            }
        }
        i = i + 1;
    }
    proof {
        assert forall|m: Move|
            #[trigger] result@.contains(m) <==> (m.from == from && is_pawn_push(
                ov,
                occ,
                side,
                m,
            )) by {
            if m.from == from && is_pawn_push(ov, occ, side, m) {
                assert(push_set.contains(m.to@));
            }
        }
    }
    // diagonal captures, with promotion expansion on the back rank
    let capture_targets = capture_board.squares();
    let ghost cseq = capture_targets@;
    let mut i2: usize = 0;
    while i2 < capture_targets.len()
        invariant
            i2 <= capture_targets.len(),
            forall|m: Move|
                #[trigger] result@.contains(m) <==> ((m.from == from && is_pawn_push(
                    ov,
                    occ,
                    side,
                    m,
                )) || (m.from == from && is_pawn_capture(ov, pv, side, m) && exists|k: int|
                    0 <= k < i2 && (#[trigger] cseq[k])@ == m.to@)),
            result@.no_duplicates(),
        decreases capture_targets.len() - i2,
    {
        let to = capture_targets[i2];
        let ghost prev = result@;
        proof {
            assert(capture_board@.contains(to@));
            assert forall|m: Move|
                #[trigger] prev.contains(m) implies !(m.from == from && m.to == to && m.capture
                == true && m.en_passant == false) by {
                if m.capture == true && prev.contains(m) {
                    if m.to == to {
                        let k = choose|k: int| 0 <= k < i2 && (#[trigger] cseq[k])@ == m.to@;
                        assert(cseq[k]@ < cseq[i2 as int]@);
                    }
                }
            }
        }
        push_pawn_target_moves(&mut result, from, to, true, side);
        proof {
            assert forall|m: Move|
                #[trigger] result@.contains(m) <==> ((m.from == from && is_pawn_push(
                    ov,
                    occ,
                    side,
                    m,
                )) || (m.from == from && is_pawn_capture(ov, pv, side, m) && exists|k: int|
                    0 <= k < i2 + 1 && (#[trigger] cseq[k])@ == m.to@)) by {
                if result@.contains(m) && !prev.contains(m) {
                    assert(m.to == to);
                    assert(cseq[i2 as int]@ == m.to@);
                    assert(capture_board@.contains(m.to@));
                }
                if !result@.contains(m) && m.from == from && is_pawn_capture(ov, pv, side, m)
                    && exists|k: int| 0 <= k < i2 + 1 && (#[trigger] cseq[k])@ == m.to@ {
                    let k = choose|k: int| 0 <= k < i2 + 1 && (#[trigger] cseq[k])@ == m.to@;
                    if k == i2 {
                        crate::board::lemma_square_view_injective(m.to, to);
                        assert(m.to == to);
                        assert(false);
                    } else {
                        assert(prev.contains(m));
                        assert(false);
                    }
                }
            }
        }
        i2 = i2 + 1;
    }
    proof {
        assert forall|m: Move|
            #[trigger] result@.contains(m) <==> ((m.from == from && is_pawn_push(ov, occ, side, m))
                || (m.from == from && is_pawn_capture(ov, pv, side, m))) by {
            if m.from == from && is_pawn_capture(ov, pv, side, m) {
                assert(capture_board@.contains(m.to@));
            }
        }
    }
    let ghost after_captures = result@;
    // en-passant capture of the supplied target square
    match ep_square {
        Option::Some(e) => {
            let can_capture = pawn_attack_board(tables, side, from).is_set(e);
            if can_capture {
                let mv = Move {
                    from,
                    to: e,
                    capture: true,
                    en_passant: true,
                    promotion: Option::None,
                };
                proof {
                    assert(!after_captures.contains(mv));
                }
                result.push(mv);
                proof {
                    assert(result@[result@.len() - 1] == mv);
                    assert forall|m: Move|
                        #[trigger] result@.contains(m) <==> (after_captures.contains(m) || m
                            == mv) by {
                        if result@.contains(m) {
                            let ix = choose|ix: int| 0 <= ix < result@.len() && result@[ix] == m;
                            if ix < after_captures.len() {
                                assert(after_captures[ix] == m);
                            }
                        }
                        if after_captures.contains(m) {
                            let ix = choose|ix: int|
                                0 <= ix < after_captures.len() && after_captures[ix] == m;
                            assert(result@[ix] == m);
                        }
                    }
                    assert forall|m: Move|
                        #[trigger] result@.contains(m) <==> (m.from == from && is_pawn_move(
                        ov,
                        pv,
                        occ,
                        side,
                        epv,
                        m,
                    )) by {
                        if m == mv {
                            assert(is_pawn_en_passant(ov, side, epv, m));
                        }
                        if !after_captures.contains(m) && m != mv && m.from == from
                            && is_pawn_en_passant(ov, side, epv, m) {
                            crate::board::lemma_square_view_injective(m.to, e);
                            assert(m == mv);
                        }
                    }
                }
            } else {
                proof {
                    assert forall|m: Move|
                        #[trigger] result@.contains(m) <==> (m.from == from && is_pawn_move(
                        ov,
                        pv,
                        occ,
                        side,
                        epv,
                        m,
                    )) by {
                        if m.from == from && is_pawn_en_passant(ov, side, epv, m) {
                            assert(pawn_capture_targets(side, from@).contains(e@));
                            assert(false);
                        }
                    }
                }
            }
        },
        Option::None => {
            proof {
                assert forall|m: Move|
                    #[trigger] result@.contains(m) <==> (m.from == from && is_pawn_move(
                    ov,
                    pv,
                    occ,
                    side,
                    epv,
                    m,
                )) by {}
            }
        },
    }
    result
}

/// The pawn moves of one side: pushes, double pushes, diagonal captures,
/// en-passant, with every promotion choice expanded on the back rank.
#[verifier::loop_isolation(false)]
pub fn generate_pawn_moves(
    tables: &MoveTables,
    our_pieces: &SideBoard,
    opponent_pieces: &SideBoard,
    occupied: Bitboard,
    side: Side,
    ep_square: Option<Square>,
) -> (r: Vec<Move>)
    requires
        tables.wf(),
        match ep_square {
            Option::Some(e) => e.wf(),
            Option::None => true,
        },
    ensures
        forall|m: Move|
            #[trigger] r@.contains(m) <==> is_pawn_move(
                our_pieces@,
                opponent_pieces@,
                occupied@,
                side,
                square_option_view(ep_square),
                m,
            ),
        r@.no_duplicates(),
{
    let ghost epv = square_option_view(ep_square);
    let mut result: Vec<Move> = Vec::new();
    let our_pawns = our_pieces.pawns();
    let froms = our_pawns.squares();
    let ghost fseq = froms@;
    let mut j: usize = 0;
    while j < froms.len()
        invariant
            j <= froms.len(),
            forall|m: Move|
                #[trigger] result@.contains(m) <==> (is_pawn_move(
                    our_pieces@,
                    opponent_pieces@,
                    occupied@,
                    side,
                    epv,
                    m,
                ) && exists|k: int| 0 <= k < j && (#[trigger] fseq[k])@ == m.from@),
            result@.no_duplicates(),
        decreases froms.len() - j,
    {
        let from = froms[j];
        proof {
            assert(fseq[j as int]@ == from@);
            assert(our_pawns@.contains(from@));
        }
        let mut batch = generate_pawn_moves_from(
            tables,
            our_pieces,
            opponent_pieces,
            occupied,
            side,
            ep_square,
            from,
        );
        let ghost prev = result@;
        let ghost bseq = batch@;
        result.append(&mut batch);
        proof {
            lemma_concat_contains(prev, bseq);
            assert forall|m: Move|
                #[trigger] result@.contains(m) <==> (is_pawn_move(
                    our_pieces@,
                    opponent_pieces@,
                    occupied@,
                    side,
                    epv,
                    m,
                ) && exists|k: int| 0 <= k < j + 1 && (#[trigger] fseq[k])@ == m.from@) by {
                if result@.contains(m) {
                    if !prev.contains(m) {
                        assert(bseq.contains(m));
                        assert(fseq[j as int]@ == m.from@);
                    }
                } else {
                    if is_pawn_move(our_pieces@, opponent_pieces@, occupied@, side, epv, m)
                        && exists|k: int| 0 <= k < j + 1 && (#[trigger] fseq[k])@ == m.from@ {
                        let k = choose|k: int| 0 <= k < j + 1 && (#[trigger] fseq[k])@ == m.from@;
                        if k == j {
                            crate::board::lemma_square_view_injective(m.from, from);
                            assert(bseq.contains(m));
                        } else {
                            assert(prev.contains(m));
                        }
                        assert(result@.contains(m));
                        assert(false);
                    }
                }
            }
            assert forall|x: Move| !(#[trigger] prev.contains(x) && bseq.contains(x)) by {
                if prev.contains(x) && bseq.contains(x) {
                    let k = choose|k: int| 0 <= k < j && (#[trigger] fseq[k])@ == x.from@;
                    assert(fseq[k]@ < fseq[j as int]@);
                }
            }
            lemma_concat_no_duplicates(prev, bseq);
        }
        j = j + 1;
    }
    proof {
        assert forall|m: Move|
            #[trigger] result@.contains(m) <==> is_pawn_move(
                our_pieces@,
                opponent_pieces@,
                occupied@,
                side,
                epv,
                m,
            ) by {
            if is_pawn_move(our_pieces@, opponent_pieces@, occupied@, side, epv, m) {
                assert(our_pawns@.contains(m.from@));
            }
        }
    }
    result
}

/// The knight moves of one side: the knight table for each origin, minus
/// own-side occupancy.
#[verifier::loop_isolation(false)]
pub fn generate_knight_moves(
    tables: &MoveTables,
    our_pieces: &SideBoard,
    opponent_pieces: &SideBoard,
    occupied: Bitboard,
) -> (r: Vec<Move>)
    requires
        tables.wf(),
    ensures
        forall|m: Move|
            #[trigger] r@.contains(m) <==> is_knight_move(our_pieces@, opponent_pieces@, m),
        r@.no_duplicates(),
{
    let mut result: Vec<Move> = Vec::new();
    let our_knights = our_pieces.knights();
    let froms = our_knights.squares();
    let ghost fseq = froms@;
    let mut j: usize = 0;
    while j < froms.len()
        invariant
            j <= froms.len(),
            forall|m: Move|
                #[trigger] result@.contains(m) <==> (is_knight_move(our_pieces@, opponent_pieces@, m)
                    && exists|k: int| 0 <= k < j && (#[trigger] fseq[k])@ == m.from@),
            result@.no_duplicates(),
        decreases froms.len() - j,
    {
        let from = froms[j];
        let att = attack_table_knight(tables, occupied, from);
        let mut batch = generate_ray_moves(from, our_pieces, opponent_pieces, att);
        let ghost prev = result@;
        let ghost bseq = batch@;
        result.append(&mut batch);
        proof {
            lemma_concat_contains(prev, bseq);
            assert(fseq[j as int]@ == from@);
            assert(our_knights@.contains(from@));
            assert forall|m: Move|
                #[trigger] result@.contains(m) <==> (is_knight_move(our_pieces@, opponent_pieces@, m)
                    && exists|k: int| 0 <= k < j + 1 && (#[trigger] fseq[k])@ == m.from@) by {
                if result@.contains(m) {
                    if !prev.contains(m) {
                        assert(bseq.contains(m));
                        assert(fseq[j as int]@ == m.from@);
                    }
                } else {
                    if is_knight_move(our_pieces@, opponent_pieces@, m) && exists|k: int|
                        0 <= k < j + 1 && (#[trigger] fseq[k])@ == m.from@ {
                        let k = choose|k: int| 0 <= k < j + 1 && (#[trigger] fseq[k])@ == m.from@;
                        if k == j {
                            assert(bseq.contains(m));
                        } else {
                            assert(prev.contains(m));
                        }
                        assert(result@.contains(m));
                        assert(false);
                    }
                }
            }
            assert forall|x: Move| !(#[trigger] prev.contains(x) && bseq.contains(x)) by {
                if prev.contains(x) && bseq.contains(x) {
                    let k = choose|k: int| 0 <= k < j && (#[trigger] fseq[k])@ == x.from@;
                    assert(fseq[k]@ < fseq[j as int]@);
                }
            }
            lemma_concat_no_duplicates(prev, bseq);
        }
        j = j + 1;
    }
    proof {
        assert forall|m: Move|
            #[trigger] result@.contains(m) <==> is_knight_move(
                our_pieces@,
                opponent_pieces@,
                m,
            ) by {
            if is_knight_move(our_pieces@, opponent_pieces@, m) {
                assert(our_knights@.contains(m.from@));
            }
        }
    }
    result
}

/// The king moves of one side.
#[verifier::loop_isolation(false)]
pub fn generate_king_moves(
    tables: &MoveTables,
    our_pieces: &SideBoard,
    opponent_pieces: &SideBoard,
    occupied: Bitboard,
) -> (r: Vec<Move>)
    requires
        tables.wf(),
    ensures
        forall|m: Move|
            #[trigger] r@.contains(m) <==> is_king_move(our_pieces@, opponent_pieces@, m),
        r@.no_duplicates(),
{
    let mut result: Vec<Move> = Vec::new();
    let our_kings = our_pieces.kings();
    let froms = our_kings.squares();
    let ghost fseq = froms@;
    let mut j: usize = 0;
    while j < froms.len()
        invariant
            j <= froms.len(),
            forall|m: Move|
                #[trigger] result@.contains(m) <==> (is_king_move(our_pieces@, opponent_pieces@, m)
                    && exists|k: int| 0 <= k < j && (#[trigger] fseq[k])@ == m.from@),
            result@.no_duplicates(),
        decreases froms.len() - j,
    {
        let from = froms[j];
        let att = attack_table_king(tables, occupied, from);
        let mut batch = generate_ray_moves(from, our_pieces, opponent_pieces, att);
        let ghost prev = result@;
        let ghost bseq = batch@;
        result.append(&mut batch);
        proof {
            lemma_concat_contains(prev, bseq);
            assert(fseq[j as int]@ == from@);
            assert(our_kings@.contains(from@));
            assert forall|m: Move|
                #[trigger] result@.contains(m) <==> (is_king_move(our_pieces@, opponent_pieces@, m)
                    && exists|k: int| 0 <= k < j + 1 && (#[trigger] fseq[k])@ == m.from@) by {
                if result@.contains(m) {
                    if !prev.contains(m) {
                        assert(bseq.contains(m));
                        assert(fseq[j as int]@ == m.from@);
                    }
                } else {
                    if is_king_move(our_pieces@, opponent_pieces@, m) && exists|k: int|
                        0 <= k < j + 1 && (#[trigger] fseq[k])@ == m.from@ {
                        let k = choose|k: int| 0 <= k < j + 1 && (#[trigger] fseq[k])@ == m.from@;
                        if k == j {
                            assert(bseq.contains(m));
                        } else {
                            assert(prev.contains(m));
                        }
                        assert(result@.contains(m));
                        assert(false);
                    }
                }
            }
            assert forall|x: Move| !(#[trigger] prev.contains(x) && bseq.contains(x)) by {
                if prev.contains(x) && bseq.contains(x) {
                    let k = choose|k: int| 0 <= k < j && (#[trigger] fseq[k])@ == x.from@;
                    assert(fseq[k]@ < fseq[j as int]@);
                }
            }
            lemma_concat_no_duplicates(prev, bseq);
        }
        j = j + 1;
    }
    proof {
        assert forall|m: Move|
            #[trigger] result@.contains(m) <==> is_king_move(our_pieces@, opponent_pieces@, m) by {
            if is_king_move(our_pieces@, opponent_pieces@, m) {
                assert(our_kings@.contains(m.from@));
            }
        }
    }
    result
}

/// The bishop moves of one side, via the sliding-attack resolver.
#[verifier::loop_isolation(false)]
pub fn generate_bishop_moves(
    tables: &MoveTables,
    our_pieces: &SideBoard,
    opponent_pieces: &SideBoard,
    occupied: Bitboard,
) -> (r: Vec<Move>)
    requires
        tables.wf(),
    ensures
        forall|m: Move|
            #[trigger] r@.contains(m) <==> is_bishop_move(
                our_pieces@,
                opponent_pieces@,
                occupied@,
                m,
            ),
        r@.no_duplicates(),
{
    let mut result: Vec<Move> = Vec::new();
    let our_bishops = our_pieces.bishops();
    let froms = our_bishops.squares();
    let ghost fseq = froms@;
    let mut j: usize = 0;
    while j < froms.len()
        invariant
            j <= froms.len(),
            forall|m: Move|
                #[trigger] result@.contains(m) <==> (is_bishop_move(
                    our_pieces@,
                    opponent_pieces@,
                    occupied@,
                    m,
                ) && exists|k: int| 0 <= k < j && (#[trigger] fseq[k])@ == m.from@),
            result@.no_duplicates(),
        decreases froms.len() - j,
    {
        let from = froms[j];
        let att = attack_table_bishop(tables, occupied, from);
        let mut batch = generate_ray_moves(from, our_pieces, opponent_pieces, att);
        let ghost prev = result@;
        let ghost bseq = batch@;
        result.append(&mut batch);
        proof {
            lemma_concat_contains(prev, bseq);
            assert(fseq[j as int]@ == from@);
            assert(our_bishops@.contains(from@));
            assert forall|m: Move|
                #[trigger] result@.contains(m) <==> (is_bishop_move(
                    our_pieces@,
                    opponent_pieces@,
                    occupied@,
                    m,
                ) && exists|k: int| 0 <= k < j + 1 && (#[trigger] fseq[k])@ == m.from@) by {
                if result@.contains(m) {
                    if !prev.contains(m) {
                        assert(bseq.contains(m));
                        assert(fseq[j as int]@ == m.from@);
                    }
                } else {
                    if is_bishop_move(our_pieces@, opponent_pieces@, occupied@, m) && exists|k: int|
                        0 <= k < j + 1 && (#[trigger] fseq[k])@ == m.from@ {
                        let k = choose|k: int| 0 <= k < j + 1 && (#[trigger] fseq[k])@ == m.from@;
                        if k == j {
                            assert(bseq.contains(m));
                        } else {
                            assert(prev.contains(m));
                        }
                        assert(result@.contains(m));
                        assert(false);
                    }
                }
            }
            assert forall|x: Move| !(#[trigger] prev.contains(x) && bseq.contains(x)) by {
                if prev.contains(x) && bseq.contains(x) {
                    let k = choose|k: int| 0 <= k < j && (#[trigger] fseq[k])@ == x.from@;
                    assert(fseq[k]@ < fseq[j as int]@);
                }
            }
            lemma_concat_no_duplicates(prev, bseq);
        }
        j = j + 1;
    }
    proof {
        assert forall|m: Move|
            #[trigger] result@.contains(m) <==> is_bishop_move(
                our_pieces@,
                opponent_pieces@,
                occupied@,
                m,
            ) by {
            if is_bishop_move(our_pieces@, opponent_pieces@, occupied@, m) {
                assert(our_bishops@.contains(m.from@));
            }
        }
    }
    result
}

/// The rook moves of one side, via the sliding-attack resolver.
#[verifier::loop_isolation(false)]
pub fn generate_rook_moves(
    tables: &MoveTables,
    our_pieces: &SideBoard,
    opponent_pieces: &SideBoard,
    occupied: Bitboard,
) -> (r: Vec<Move>)
    requires
        tables.wf(),
    ensures
        forall|m: Move|
            #[trigger] r@.contains(m) <==> is_rook_move(
                our_pieces@,
                opponent_pieces@,
                occupied@,
                m,
            ),
        r@.no_duplicates(),
{
    let mut result: Vec<Move> = Vec::new();
    let our_rooks = our_pieces.rooks();
    let froms = our_rooks.squares();
    let ghost fseq = froms@;
    let mut j: usize = 0;
    while j < froms.len()
        invariant
            j <= froms.len(),
            forall|m: Move|
                #[trigger] result@.contains(m) <==> (is_rook_move(
                    our_pieces@,
                    opponent_pieces@,
                    occupied@,
                    m,
                ) && exists|k: int| 0 <= k < j && (#[trigger] fseq[k])@ == m.from@),
            result@.no_duplicates(),
        decreases froms.len() - j,
    {
        let from = froms[j];
        let att = attack_table_rook(tables, occupied, from);
        let mut batch = generate_ray_moves(from, our_pieces, opponent_pieces, att);
        let ghost prev = result@;
        let ghost bseq = batch@;
        result.append(&mut batch);
        proof {
            lemma_concat_contains(prev, bseq);
            assert(fseq[j as int]@ == from@);
            assert(our_rooks@.contains(from@));
            assert forall|m: Move|
                #[trigger] result@.contains(m) <==> (is_rook_move(
                    our_pieces@,
                    opponent_pieces@,
                    occupied@,
                    m,
                ) && exists|k: int| 0 <= k < j + 1 && (#[trigger] fseq[k])@ == m.from@) by {
                if result@.contains(m) {
                    if !prev.contains(m) {
                        assert(bseq.contains(m));
                        assert(fseq[j as int]@ == m.from@);
                    }
                } else {
                    if is_rook_move(our_pieces@, opponent_pieces@, occupied@, m) && exists|k: int|
                        0 <= k < j + 1 && (#[trigger] fseq[k])@ == m.from@ {
                        let k = choose|k: int| 0 <= k < j + 1 && (#[trigger] fseq[k])@ == m.from@;
                        if k == j {
                            assert(bseq.contains(m));
                        } else {
                            assert(prev.contains(m));
                        }
                        assert(result@.contains(m));
                        assert(false);
                    }
                }
            }
            assert forall|x: Move| !(#[trigger] prev.contains(x) && bseq.contains(x)) by {
                if prev.contains(x) && bseq.contains(x) {
                    let k = choose|k: int| 0 <= k < j && (#[trigger] fseq[k])@ == x.from@;
                    assert(fseq[k]@ < fseq[j as int]@);
                }
            }
            lemma_concat_no_duplicates(prev, bseq);
        }
        j = j + 1;
    }
    proof {
        assert forall|m: Move|
            #[trigger] result@.contains(m) <==> is_rook_move(
                our_pieces@,
                opponent_pieces@,
                occupied@,
                m,
            ) by {
            if is_rook_move(our_pieces@, opponent_pieces@, occupied@, m) {
                assert(our_rooks@.contains(m.from@));
            }
        }
    }
    result
}

/// The queen moves of one side, via the sliding-attack resolver.
#[verifier::loop_isolation(false)]
pub fn generate_queen_moves(
    tables: &MoveTables,
    our_pieces: &SideBoard,
    opponent_pieces: &SideBoard,
    occupied: Bitboard,
) -> (r: Vec<Move>)
    requires
        tables.wf(),
    ensures
        forall|m: Move|
            #[trigger] r@.contains(m) <==> is_queen_move(
                our_pieces@,
                opponent_pieces@,
                occupied@,
                m,
            ),
        r@.no_duplicates(),
{
    let mut result: Vec<Move> = Vec::new();
    let our_queens = our_pieces.queens();
    let froms = our_queens.squares();
    let ghost fseq = froms@;
    let mut j: usize = 0;
    while j < froms.len()
        invariant
            j <= froms.len(),
            forall|m: Move|
                #[trigger] result@.contains(m) <==> (is_queen_move(
                    our_pieces@,
                    opponent_pieces@,
                    occupied@,
                    m,
                ) && exists|k: int| 0 <= k < j && (#[trigger] fseq[k])@ == m.from@),
            result@.no_duplicates(),
        decreases froms.len() - j,
    {
        let from = froms[j];
        let att = attack_table_queen(tables, occupied, from);
        let mut batch = generate_ray_moves(from, our_pieces, opponent_pieces, att);
        let ghost prev = result@;
        let ghost bseq = batch@;
        result.append(&mut batch);
        proof {
            lemma_concat_contains(prev, bseq);
            assert(fseq[j as int]@ == from@);
            assert(our_queens@.contains(from@));
            assert forall|m: Move|
                #[trigger] result@.contains(m) <==> (is_queen_move(
                    our_pieces@,
                    opponent_pieces@,
                    occupied@,
                    m,
                ) && exists|k: int| 0 <= k < j + 1 && (#[trigger] fseq[k])@ == m.from@) by {
                if result@.contains(m) {
                    if !prev.contains(m) {
                        assert(bseq.contains(m));
                        assert(fseq[j as int]@ == m.from@);
                    }
                } else {
                    if is_queen_move(our_pieces@, opponent_pieces@, occupied@, m) && exists|k: int|
                        0 <= k < j + 1 && (#[trigger] fseq[k])@ == m.from@ {
                        let k = choose|k: int| 0 <= k < j + 1 && (#[trigger] fseq[k])@ == m.from@;
                        if k == j {
                            assert(bseq.contains(m));
                        } else {
                            assert(prev.contains(m));
                        }
                        assert(result@.contains(m));
                        assert(false);
                    }
                }
            }
            assert forall|x: Move| !(#[trigger] prev.contains(x) && bseq.contains(x)) by {
                if prev.contains(x) && bseq.contains(x) {
                    let k = choose|k: int| 0 <= k < j && (#[trigger] fseq[k])@ == x.from@;
                    assert(fseq[k]@ < fseq[j as int]@);
                }
            }
            lemma_concat_no_duplicates(prev, bseq);
        }
        j = j + 1;
    }
    proof {
        assert forall|m: Move|
            #[trigger] result@.contains(m) <==> is_queen_move(
                our_pieces@,
                opponent_pieces@,
                occupied@,
                m,
            ) by {
            if is_queen_move(our_pieces@, opponent_pieces@, occupied@, m) {
                assert(our_queens@.contains(m.from@));
            }
        }
    }
    result
}

/// The full pseudolegal move list for the side to move in `game`:
/// pawn, knight, bishop, rook, queen and king moves, in that order.
pub fn generate_pseudolegal_moves(tables: &MoveTables, game: &Game) -> (r: Vec<Move>)
    requires
        tables.wf(),
        game@.wf(),
    ensures
        forall|m: Move| #[trigger] r@.contains(m) <==> is_pseudolegal_move(game@, m),
        r@.no_duplicates(),
{
    let side = game.active();
    let board = game.board();
    let occupied = board.occupied();
    let our_pieces = board.side_pieces(side);
    let opponent_pieces = if side == Side::White {
        board.black_pieces()
    } else {
        board.white_pieces()
    };
    let ep_square = game.ep_square();
    let ghost ov = our_pieces@;
    let ghost pv = opponent_pieces@;
    let ghost g = game@;
    proof {
        assert(pv == g.board.side(other_side(g.active)));
        assert(ov.wf());
        match ep_square {
            Option::Some(e) => {
                assert(square_option_view(ep_square) == Option::<int>::Some(e@));
                assert(e.wf());
            },
            Option::None => {},
        }
    }
    let mut result = generate_pawn_moves(
        tables,
        our_pieces,
        opponent_pieces,
        occupied,
        side,
        ep_square,
    );
    let mut knight_batch = generate_knight_moves(tables, our_pieces, opponent_pieces, occupied);
    let ghost prev1 = result@;
    let ghost b1 = knight_batch@;
    result.append(&mut knight_batch);
    proof {
        lemma_concat_contains(prev1, b1);
        assert forall|x: Move| !(#[trigger] prev1.contains(x) && b1.contains(x)) by {}
        lemma_concat_no_duplicates(prev1, b1);
    }
    let mut bishop_batch = generate_bishop_moves(tables, our_pieces, opponent_pieces, occupied);
    let ghost prev2 = result@;
    let ghost b2 = bishop_batch@;
    result.append(&mut bishop_batch);
    proof {
        lemma_concat_contains(prev2, b2);
        assert forall|x: Move| !(#[trigger] prev2.contains(x) && b2.contains(x)) by {}
        lemma_concat_no_duplicates(prev2, b2);
    }
    let mut rook_batch = generate_rook_moves(tables, our_pieces, opponent_pieces, occupied);
    let ghost prev3 = result@;
    let ghost b3 = rook_batch@;
    result.append(&mut rook_batch);
    proof {
        lemma_concat_contains(prev3, b3);
        assert forall|x: Move| !(#[trigger] prev3.contains(x) && b3.contains(x)) by {}
        lemma_concat_no_duplicates(prev3, b3);
    }
    let mut queen_batch = generate_queen_moves(tables, our_pieces, opponent_pieces, occupied);
    let ghost prev4 = result@;
    let ghost b4 = queen_batch@;
    result.append(&mut queen_batch);
    proof {
        lemma_concat_contains(prev4, b4);
        assert forall|x: Move| !(#[trigger] prev4.contains(x) && b4.contains(x)) by {}
        lemma_concat_no_duplicates(prev4, b4);
    }
    let mut king_batch = generate_king_moves(tables, our_pieces, opponent_pieces, occupied);
    let ghost prev5 = result@;
    let ghost b5 = king_batch@;
    result.append(&mut king_batch);
    proof {
        lemma_concat_contains(prev5, b5);
        assert forall|x: Move| !(#[trigger] prev5.contains(x) && b5.contains(x)) by {}
        lemma_concat_no_duplicates(prev5, b5);
        assert forall|m: Move| #[trigger] result@.contains(m) <==> is_pseudolegal_move(g, m) by {}
    }
    result
}

} // verus!
