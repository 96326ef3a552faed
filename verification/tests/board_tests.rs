use chesscore::bitboard::Bitboard;
use chesscore::board::Board;
use chesscore::board::PlacementError;
use chesscore::board::SideBoard;
use chesscore::board::Square;
use chesscore::game::Side;

#[test]
fn square_index_round_trip() {
    let mut i: u8 = 0;
    while i < 64 {
        let s = Square::new(i);
        assert_eq!(s.index(), i);
        assert_eq!(Square::new(s.index()), s);
        i += 1;
    }
}

#[test]
fn square_file_and_rank() {
    let s = Square::new(28);
    assert_eq!(s.file(), 4);
    assert_eq!(s.rank(), 3);
    assert_eq!(Square::new_file_rank(4, 3), s);
    assert_eq!(Square::new_file_rank(0, 0).index(), 0);
    assert_eq!(Square::new_file_rank(7, 7).index(), 63);
}

#[test]
fn side_board_getters_and_occupancy() {
    let pawns = Bitboard::from_data(0xff00);
    let knights = Bitboard::from_data(0x42);
    let bishops = Bitboard::from_data(0x24);
    let rooks = Bitboard::from_data(0x81);
    let queens = Bitboard::from_data(0x8);
    let kings = Bitboard::from_data(0x10);
    let sb = SideBoard::new(pawns, knights, bishops, rooks, queens, kings);
    assert_eq!(sb.pawns().data(), 0xff00);
    assert_eq!(sb.knights().data(), 0x42);
    assert_eq!(sb.bishops().data(), 0x24);
    assert_eq!(sb.rooks().data(), 0x81);
    assert_eq!(sb.queens().data(), 0x8);
    assert_eq!(sb.kings().data(), 0x10);
    assert_eq!(sb.occupied().data(), 0xffff);
    assert_eq!(SideBoard::new_empty().occupied().data(), 0);
}

#[test]
fn board_sides_and_occupancy() {
    let white = SideBoard::new(
        Bitboard::from_data(0xff00),
        Bitboard::new(),
        Bitboard::new(),
        Bitboard::new(),
        Bitboard::new(),
        Bitboard::from_data(0x10),
    );
    let black = SideBoard::new(
        Bitboard::from_data(0x00ff_0000_0000_0000),
        Bitboard::new(),
        Bitboard::new(),
        Bitboard::new(),
        Bitboard::new(),
        Bitboard::from_data(0x1000_0000_0000_0000),
    );
    let board = Board::new(white, black);
    assert_eq!(board.white_pieces().occupied().data(), 0xff10);
    assert_eq!(board.black_pieces().occupied().data(), 0x10ff_0000_0000_0000);
    assert_eq!(
        board.side_pieces(Side::White).occupied().data(),
        board.white_pieces().occupied().data()
    );
    assert_eq!(
        board.side_pieces(Side::Black).occupied().data(),
        board.black_pieces().occupied().data()
    );
    assert_eq!(board.occupied().data(), 0xff10 | 0x10ff_0000_0000_0000);
}

#[test]
fn placement_parses_classical_start() {
    let board = Board::from_fen_pieces("rnbqkbnr/pppppppp/8/8/8/8/PPPPPPPP/RNBQKBNR").unwrap();
    assert_eq!(board.white_pieces().pawns().data(), 0xff00);
    assert_eq!(board.white_pieces().knights().data(), 0x42);
    assert_eq!(board.white_pieces().bishops().data(), 0x24);
    assert_eq!(board.white_pieces().rooks().data(), 0x81);
    assert_eq!(board.white_pieces().queens().data(), 0x8);
    assert_eq!(board.white_pieces().kings().data(), 0x10);
    assert_eq!(board.black_pieces().pawns().data(), 0x00ff_0000_0000_0000);
    assert_eq!(board.black_pieces().knights().data(), 0x4200_0000_0000_0000);
    assert_eq!(board.black_pieces().bishops().data(), 0x2400_0000_0000_0000);
    assert_eq!(board.black_pieces().rooks().data(), 0x8100_0000_0000_0000);
    assert_eq!(board.black_pieces().queens().data(), 0x0800_0000_0000_0000);
    assert_eq!(board.black_pieces().kings().data(), 0x1000_0000_0000_0000);
}

#[test]
fn placement_puts_rank_eight_first() {
    // a single white rook written in the first row lands on a8
    let board = Board::from_fen_pieces("R7/8/8/8/8/8/8/8").unwrap();
    assert_eq!(board.white_pieces().rooks().data(), 1u64 << 56);
}

#[test]
fn placement_rejects_wrong_row_count() {
    assert_eq!(
        Board::from_fen_pieces("8/8/8").unwrap_err(),
        PlacementError::WrongRowCount
    );
    assert_eq!(
        Board::from_fen_pieces("8/8/8/8/8/8/8/8/8").unwrap_err(),
        PlacementError::WrongRowCount
    );
}

#[test]
fn placement_rejects_bad_character() {
    assert_eq!(
        Board::from_fen_pieces("8/8/8/8/8/8/8/7x").unwrap_err(),
        PlacementError::BadCharacter { row: 7, piece: 'x' }
    );
    // '9' is not a legal run length
    assert_eq!(
        Board::from_fen_pieces("9/8/8/8/8/8/8/8").unwrap_err(),
        PlacementError::BadCharacter { row: 0, piece: '9' }
    );
}

#[test]
fn placement_rejects_wrong_row_length() {
    assert_eq!(
        Board::from_fen_pieces("ppp/8/8/8/8/8/8/8").unwrap_err(),
        PlacementError::BadRowLength { row: 0 }
    );
    assert_eq!(
        Board::from_fen_pieces("8/8/8/8/44p/8/8/8").unwrap_err(),
        PlacementError::BadRowLength { row: 4 }
    );
}
