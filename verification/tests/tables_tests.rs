use chesscore::bitboard::Bitboard;
use chesscore::board::Square;
use chesscore::game::Side;
use chesscore::move_tables::attack_table_bishop;
use chesscore::move_tables::attack_table_king;
use chesscore::move_tables::attack_table_knight;
use chesscore::move_tables::attack_table_queen;
use chesscore::move_tables::attack_table_rook;
use chesscore::move_tables::pawn_attack_board;
use chesscore::move_tables::pawn_double_move_board;
use chesscore::move_tables::pawn_move_board;
use chesscore::move_tables::MoveTables;

fn indices(b: &Bitboard) -> Vec<u8> {
    b.squares().iter().map(|s| s.index()).collect()
}

#[test]
fn pawn_push_tables() {
    let t = MoveTables::new();
    // e2 pushes to e3; e8 has no push square
    assert_eq!(indices(&pawn_move_board(&t, Side::White, Square::new(12))), vec![20u8]);
    assert_eq!(indices(&pawn_move_board(&t, Side::White, Square::new(60))), Vec::<u8>::new());
    // black pawns move down
    assert_eq!(indices(&pawn_move_board(&t, Side::Black, Square::new(52))), vec![44u8]);
    assert_eq!(indices(&pawn_move_board(&t, Side::Black, Square::new(4))), Vec::<u8>::new());
}

#[test]
fn pawn_double_push_tables() {
    let t = MoveTables::new();
    // only from each side's start rank
    assert_eq!(indices(&pawn_double_move_board(&t, Side::White, Square::new(12))), vec![28u8]);
    assert_eq!(
        indices(&pawn_double_move_board(&t, Side::White, Square::new(20))),
        Vec::<u8>::new()
    );
    assert_eq!(indices(&pawn_double_move_board(&t, Side::Black, Square::new(52))), vec![36u8]);
    assert_eq!(
        indices(&pawn_double_move_board(&t, Side::Black, Square::new(44))),
        Vec::<u8>::new()
    );
}

#[test]
fn pawn_capture_tables_clip_at_the_edge() {
    let t = MoveTables::new();
    // a2 attacks only b3; e2 attacks d3 and f3
    assert_eq!(indices(&pawn_attack_board(&t, Side::White, Square::new(8))), vec![17u8]);
    assert_eq!(indices(&pawn_attack_board(&t, Side::White, Square::new(12))), vec![19u8, 21]);
    // h7 for black attacks only g6
    assert_eq!(indices(&pawn_attack_board(&t, Side::Black, Square::new(55))), vec![46u8]);
}

#[test]
fn knight_table_geometry() {
    let t = MoveTables::new();
    let empty = Bitboard::new();
    // a1 knight reaches b3 and c2 only
    assert_eq!(indices(&attack_table_knight(&t, empty, Square::new(0))), vec![10u8, 17]);
    // d4 knight reaches all eight offsets
    assert_eq!(
        indices(&attack_table_knight(&t, empty, Square::new(27))),
        vec![10u8, 12, 17, 21, 33, 37, 42, 44]
    );
}

#[test]
fn king_table_geometry() {
    let t = MoveTables::new();
    let empty = Bitboard::new();
    assert_eq!(indices(&attack_table_king(&t, empty, Square::new(0))), vec![1u8, 8, 9]);
    assert_eq!(
        indices(&attack_table_king(&t, empty, Square::new(27))),
        vec![18u8, 19, 20, 26, 28, 34, 35, 36]
    );
}

#[test]
fn rook_on_empty_board_attacks_full_rank_and_file() {
    let t = MoveTables::new();
    let attacks = attack_table_rook(&t, Bitboard::new(), Square::new(27));
    let got = indices(&attacks);
    assert_eq!(got.len(), 14);
    assert_eq!(got, vec![3u8, 11, 19, 24, 25, 26, 28, 29, 30, 31, 35, 43, 51, 59]);
}

#[test]
fn bishop_on_empty_board_attacks_diagonals() {
    let t = MoveTables::new();
    let attacks = attack_table_bishop(&t, Bitboard::new(), Square::new(0));
    assert_eq!(indices(&attacks), vec![9u8, 18, 27, 36, 45, 54, 63]);
}

#[test]
fn queen_is_rook_plus_bishop() {
    let t = MoveTables::new();
    let occ = Bitboard::from_data(0x10000000000000);
    let sq = Square::new(27);
    let rook = attack_table_rook(&t, occ, sq);
    let bishop = attack_table_bishop(&t, occ, sq);
    let queen = attack_table_queen(&t, occ, sq);
    assert_eq!(queen, rook.bit_or(bishop));
}

#[test]
fn single_blocker_truncates_rook_ray() {
    let t = MoveTables::new();
    // rook on a1, blocker on a4: the file stops at (and includes) a4
    let occ = Bitboard::from_data(1u64 << 24);
    let attacks = attack_table_rook(&t, occ, Square::new(0));
    assert_eq!(indices(&attacks), vec![1u8, 2, 3, 4, 5, 6, 7, 8, 16, 24]);
}

#[test]
fn adjacent_blocker_yields_one_square_ray() {
    let t = MoveTables::new();
    // rook on a1 walled in by a2 and b1
    let occ = Bitboard::from_data((1u64 << 8) | (1u64 << 1));
    let attacks = attack_table_rook(&t, occ, Square::new(0));
    assert_eq!(indices(&attacks), vec![1u8, 8]);
}

#[test]
fn slider_attacks_include_blockers_of_both_sides() {
    let t = MoveTables::new();
    // queen on e6 with a piece on e7: e7 itself is attacked, e8 is not
    let occ = Bitboard::from_data(0x10000000000000);
    let sq = Square::new(44);
    let attacks = attack_table_queen(&t, occ, sq);
    assert!(attacks.is_set(Square::new(52)));
    assert!(!attacks.is_set(Square::new(60)));
}
