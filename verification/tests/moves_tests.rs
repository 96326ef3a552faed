use chesscore::board::Square;
use chesscore::game::Game;
use chesscore::game::Side;
use chesscore::move_tables::MoveTables;
use chesscore::moves::generate_bishop_moves;
use chesscore::moves::generate_king_moves;
use chesscore::moves::generate_knight_moves;
use chesscore::moves::generate_pawn_moves;
use chesscore::moves::generate_pseudolegal_moves;
use chesscore::moves::generate_queen_moves;
use chesscore::moves::generate_ray_moves;
use chesscore::moves::generate_rook_moves;
use chesscore::moves::Move;
use chesscore::moves::PromotionPiece;

#[test]
fn classical_position_has_twenty_moves() {
    let tables = MoveTables::new();
    let game = Game::new_classical();
    let moves = generate_pseudolegal_moves(&tables, &game);
    assert_eq!(moves.len(), 20);
    let single_pushes = moves
        .iter()
        .filter(|m| m.to.index() == m.from.index() + 8)
        .count();
    let double_pushes = moves
        .iter()
        .filter(|m| m.to.index() == m.from.index() + 16)
        .count();
    let knight_moves = moves
        .iter()
        .filter(|m| m.from.index() == 1 || m.from.index() == 6)
        .count();
    assert_eq!(single_pushes, 8);
    assert_eq!(double_pushes, 8);
    assert_eq!(knight_moves, 4);
    assert!(moves.iter().all(|m| !m.capture && !m.en_passant && m.promotion.is_none()));
}

#[test]
fn classical_fen_matches_direct_construction() {
    let tables = MoveTables::new();
    let built = Game::new_classical();
    let parsed = Game::from_fen("rnbqkbnr/pppppppp/8/8/8/8/PPPPPPPP/RNBQKBNR w KQkq - 0 1")
        .unwrap();
    let from_built = generate_pseudolegal_moves(&tables, &built);
    let from_parsed = generate_pseudolegal_moves(&tables, &parsed);
    assert_eq!(from_built, from_parsed);
    assert_eq!(from_parsed.len(), 20);
}

#[test]
fn en_passant_capture_is_generated() {
    let tables = MoveTables::new();
    let game = Game::from_fen("8/8/8/3pP3/8/8/8/8 w - d6 0 1").unwrap();
    let moves = generate_pseudolegal_moves(&tables, &game);
    let ep_moves: Vec<&Move> = moves.iter().filter(|m| m.en_passant).collect();
    assert_eq!(ep_moves.len(), 1);
    let ep = ep_moves[0];
    assert_eq!(ep.from.index(), 36);  // e5
    assert_eq!(ep.to.index(), 43);  // d6
    assert!(ep.capture);
    assert!(ep.promotion.is_none());
}

#[test]
fn no_en_passant_without_target() {
    let tables = MoveTables::new();
    let game = Game::from_fen("8/8/8/3pP3/8/8/8/8 w - - 0 1").unwrap();
    let moves = generate_pseudolegal_moves(&tables, &game);
    assert!(moves.iter().all(|m| !m.en_passant));
}

#[test]
fn promotion_generates_all_four_choices() {
    let tables = MoveTables::new();
    let game = Game::from_fen("8/P7/8/8/8/8/8/8 w - - 0 1").unwrap();
    let moves = generate_pseudolegal_moves(&tables, &game);
    assert_eq!(moves.len(), 4);
    for m in &moves {
        assert_eq!(m.from.index(), 48);  // a7
        assert_eq!(m.to.index(), 56);  // a8
        assert!(!m.capture);
        assert!(!m.en_passant);
        assert!(m.promotion.is_some());
    }
    let pieces: Vec<PromotionPiece> = moves.iter().map(|m| m.promotion.unwrap()).collect();
    assert!(pieces.contains(&PromotionPiece::Knight));
    assert!(pieces.contains(&PromotionPiece::Bishop));
    assert!(pieces.contains(&PromotionPiece::Rook));
    assert!(pieces.contains(&PromotionPiece::Queen));
}

#[test]
fn promotion_captures_expand_too() {
    let tables = MoveTables::new();
    // white pawn on b7 may push to b8 or capture on a8, promoting either way
    let game = Game::from_fen("r7/1P6/8/8/8/8/8/8 w - - 0 1").unwrap();
    let moves = generate_pseudolegal_moves(&tables, &game);
    let pushes = moves.iter().filter(|m| !m.capture).count();
    let captures = moves.iter().filter(|m| m.capture).count();
    assert_eq!(pushes, 4);
    assert_eq!(captures, 4);
    assert!(moves.iter().all(|m| m.promotion.is_some()));
}

#[test]
fn blocked_pawn_has_no_push() {
    let tables = MoveTables::new();
    // white pawn e2 blocked by black rook e3: no push, no double push
    let game = Game::from_fen("8/8/8/8/8/4r3/4P3/8 w - - 0 1").unwrap();
    let moves = generate_pseudolegal_moves(&tables, &game);
    assert!(moves.iter().all(|m| m.from.index() != 12 || m.capture));
    // blocked on e4 instead: single push stays, double push goes
    let game2 = Game::from_fen("8/8/8/8/4r3/8/4P3/8 w - - 0 1").unwrap();
    let moves2 = generate_pseudolegal_moves(&tables, &game2);
    let pawn_targets: Vec<u8> = moves2
        .iter()
        .filter(|m| m.from.index() == 12 && !m.capture)
        .map(|m| m.to.index())
        .collect();
    assert_eq!(pawn_targets, vec![20u8]);
}

#[test]
fn generation_is_idempotent() {
    let tables = MoveTables::new();
    let game = Game::from_fen("r3k2r/p1ppqpb1/bn2pnp1/3PN3/1p2P3/2N2Q1p/PPPBBPPP/R3K2R w - - 0 1")
        .unwrap();
    let first = generate_pseudolegal_moves(&tables, &game);
    let second = generate_pseudolegal_moves(&tables, &game);
    assert_eq!(first, second);
    for m in &first {
        assert!(second.contains(m));
    }
}

#[test]
fn rook_moves_and_captures() {
    let tables = MoveTables::new();
    // a lone white rook on a1 has 14 moves
    let open_game = Game::from_fen("8/8/8/8/8/8/8/R7 w - - 0 1").unwrap();
    let open_moves = generate_pseudolegal_moves(&tables, &open_game);
    assert_eq!(open_moves.len(), 14);
    assert!(open_moves.iter().all(|m| !m.capture));
    // walled in by queens it has exactly two moves, both captures
    let walled_game = Game::from_fen("8/8/8/8/q7/q7/q7/Rqqq4 w - - 0 1").unwrap();
    let walled_moves = generate_pseudolegal_moves(&tables, &walled_game);
    assert_eq!(walled_moves.len(), 2);
    assert!(walled_moves.iter().all(|m| m.capture));
    let mut targets: Vec<u8> = walled_moves.iter().map(|m| m.to.index()).collect();
    targets.sort();
    assert_eq!(targets, vec![1u8, 8]);
}

#[test]
fn leaper_moves_avoid_own_pieces_and_flag_captures() {
    let tables = MoveTables::new();
    // white knight b1, own pawn a3, black pawn c3
    let game = Game::from_fen("8/8/8/8/8/P1p5/8/1N6 w - - 0 1").unwrap();
    let moves = generate_pseudolegal_moves(&tables, &game);
    let knight_moves: Vec<&Move> = moves.iter().filter(|m| m.from.index() == 1).collect();
    assert_eq!(knight_moves.len(), 2);
    for m in &knight_moves {
        assert!(m.to.index() == 11 || m.to.index() == 18);
        assert_eq!(m.capture, m.to.index() == 18);
    }
}

#[test]
fn king_moves_on_empty_board() {
    let tables = MoveTables::new();
    let game = Game::from_fen("8/8/8/8/8/8/8/4K3 w - - 0 1").unwrap();
    let moves = generate_pseudolegal_moves(&tables, &game);
    let mut targets: Vec<u8> = moves.iter().map(|m| m.to.index()).collect();
    targets.sort();
    assert_eq!(targets, vec![3u8, 5, 11, 12, 13]);
}

#[test]
fn black_to_move_generates_black_moves() {
    let tables = MoveTables::new();
    let game = Game::from_fen("rnbqkbnr/pppppppp/8/8/8/8/PPPPPPPP/RNBQKBNR b KQkq - 0 1")
        .unwrap();
    let moves = generate_pseudolegal_moves(&tables, &game);
    assert_eq!(moves.len(), 20);
    assert!(moves.iter().all(|m| m.from.index() >= 48));
}

#[test]
fn piece_generators_cover_their_pieces() {
    let tables = MoveTables::new();
    let game = Game::from_fen("8/8/8/8/2b5/8/3N4/R3K2Q w - - 0 1").unwrap();
    let board = game.board();
    let occupied = board.occupied();
    let white = board.side_pieces(Side::White);
    let black = board.side_pieces(Side::Black);
    let knight = generate_knight_moves(&tables, white, black, occupied);
    assert!(knight.iter().all(|m| m.from.index() == 11));
    let rook = generate_rook_moves(&tables, white, black, occupied);
    assert!(rook.iter().all(|m| m.from.index() == 0));
    let queen = generate_queen_moves(&tables, white, black, occupied);
    assert!(queen.iter().all(|m| m.from.index() == 7));
    let king = generate_king_moves(&tables, white, black, occupied);
    assert!(king.iter().all(|m| m.from.index() == 4));
    let bishop = generate_bishop_moves(&tables, white, black, occupied);
    assert_eq!(bishop.len(), 0);
    let pawn = generate_pawn_moves(&tables, white, black, occupied, Side::White, None);
    assert_eq!(pawn.len(), 0);
}

#[test]
fn ray_move_helper_flags_captures() {
    let tables = MoveTables::new();
    let game = Game::from_fen("8/8/8/8/q7/8/8/R7 w - - 0 1").unwrap();
    let board = game.board();
    let white = board.side_pieces(Side::White);
    let black = board.side_pieces(Side::Black);
    let from = Square::new(0);
    let attacks = chesscore::move_tables::attack_table_rook(&tables, board.occupied(), from);
    let moves = generate_ray_moves(from, white, black, attacks);
    assert_eq!(moves.len(), 10);
    let captures: Vec<&Move> = moves.iter().filter(|m| m.capture).collect();
    assert_eq!(captures.len(), 1);
    assert_eq!(captures[0].to.index(), 24);
}

#[test]
fn empty_game_has_no_moves() {
    let tables = MoveTables::new();
    let game = Game::new_empty();
    let moves = generate_pseudolegal_moves(&tables, &game);
    assert_eq!(moves.len(), 0);
}
