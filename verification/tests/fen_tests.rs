use chesscore::board::PlacementError;
use chesscore::game::FenError;
use chesscore::game::Game;
use chesscore::game::PositionError;
use chesscore::game::Side;

#[test]
fn classical_fen_parses() {
    let game = Game::from_fen("rnbqkbnr/pppppppp/8/8/8/8/PPPPPPPP/RNBQKBNR w KQkq - 0 1")
        .unwrap();
    assert_eq!(game.active(), Side::White);
    assert!(game.ep_square().is_none());
    assert_eq!(game.board().occupied().data(), 0xffff_0000_0000_ffff);
}

#[test]
fn active_color_black_parses() {
    let game = Game::from_fen("8/8/8/8/8/8/8/8 b - - 0 1").unwrap();
    assert_eq!(game.active(), Side::Black);
}

#[test]
fn en_passant_target_parses() {
    let game = Game::from_fen("8/8/8/8/8/8/8/8 w - d6 0 1").unwrap();
    let ep = game.ep_square().unwrap();
    assert_eq!(ep.index(), 43);
    assert_eq!(ep.file(), 3);
    assert_eq!(ep.rank(), 5);
}

#[test]
fn wrong_field_count_is_rejected() {
    assert_eq!(
        Game::from_fen("8/8/8/8/8/8/8/8 w - -").unwrap_err(),
        FenError::MalformedPosition(PositionError::WrongFieldCount)
    );
    assert_eq!(
        Game::from_fen("8/8/8/8/8/8/8/8 w - - 0 1 extra").unwrap_err(),
        FenError::MalformedPosition(PositionError::WrongFieldCount)
    );
    // a doubled space makes an empty field and shifts the count
    assert_eq!(
        Game::from_fen("8/8/8/8/8/8/8/8  w - - 0 1").unwrap_err(),
        FenError::MalformedPosition(PositionError::WrongFieldCount)
    );
}

#[test]
fn bad_active_color_is_rejected() {
    assert_eq!(
        Game::from_fen("8/8/8/8/8/8/8/8 x - - 0 1").unwrap_err(),
        FenError::MalformedPosition(PositionError::BadActiveColor)
    );
    assert_eq!(
        Game::from_fen("8/8/8/8/8/8/8/8 ww - - 0 1").unwrap_err(),
        FenError::MalformedPosition(PositionError::BadActiveColor)
    );
}

#[test]
fn castling_field_parses() {
    let game = Game::from_fen("8/8/8/8/8/8/8/8 w Kq - 0 1").unwrap();
    // only parse success is observable through the game state here
    assert_eq!(game.active(), Side::White);
    assert_eq!(
        Game::from_fen("8/8/8/8/8/8/8/8 w KX - 0 1").unwrap_err(),
        FenError::MalformedPosition(PositionError::BadCastling)
    );
}

#[test]
fn bad_en_passant_is_rejected() {
    assert_eq!(
        Game::from_fen("8/8/8/8/8/8/8/8 w - e9 0 1").unwrap_err(),
        FenError::MalformedPosition(PositionError::BadEnPassant)
    );
    assert_eq!(
        Game::from_fen("8/8/8/8/8/8/8/8 w - i3 0 1").unwrap_err(),
        FenError::MalformedPosition(PositionError::BadEnPassant)
    );
    assert_eq!(
        Game::from_fen("8/8/8/8/8/8/8/8 w - e33 0 1").unwrap_err(),
        FenError::MalformedPosition(PositionError::BadEnPassant)
    );
}

#[test]
fn half_move_clock_bounds() {
    assert!(Game::from_fen("8/8/8/8/8/8/8/8 w - - 255 1").is_ok());
    assert_eq!(
        Game::from_fen("8/8/8/8/8/8/8/8 w - - 256 1").unwrap_err(),
        FenError::MalformedPosition(PositionError::BadHalfMoveClock)
    );
    assert_eq!(
        Game::from_fen("8/8/8/8/8/8/8/8 w - - x 1").unwrap_err(),
        FenError::MalformedPosition(PositionError::BadHalfMoveClock)
    );
    // a doubled space leaves an empty numeric field
    assert_eq!(
        Game::from_fen("8/8/8/8/8/8/8/8 w - -  1").unwrap_err(),
        FenError::MalformedPosition(PositionError::BadHalfMoveClock)
    );
}

#[test]
fn full_move_number_bounds() {
    assert!(Game::from_fen("8/8/8/8/8/8/8/8 w - - 0 65535").is_ok());
    assert_eq!(
        Game::from_fen("8/8/8/8/8/8/8/8 w - - 0 0").unwrap_err(),
        FenError::MalformedPosition(PositionError::BadFullMoveNumber)
    );
    assert_eq!(
        Game::from_fen("8/8/8/8/8/8/8/8 w - - 0 65536").unwrap_err(),
        FenError::MalformedPosition(PositionError::BadFullMoveNumber)
    );
    assert_eq!(
        Game::from_fen("8/8/8/8/8/8/8/8 w - - 0 1x").unwrap_err(),
        FenError::MalformedPosition(PositionError::BadFullMoveNumber)
    );
}

#[test]
fn placement_errors_surface_through_fen() {
    assert_eq!(
        Game::from_fen("8/8/8 w - - 0 1").unwrap_err(),
        FenError::MalformedPlacement(PlacementError::WrongRowCount)
    );
    assert_eq!(
        Game::from_fen("8/8/8/8/8/8/8/7! w - - 0 1").unwrap_err(),
        FenError::MalformedPlacement(PlacementError::BadCharacter { row: 7, piece: '!' })
    );
    assert_eq!(
        Game::from_fen("8/8/8/8/8/8/8/pp w - - 0 1").unwrap_err(),
        FenError::MalformedPlacement(PlacementError::BadRowLength { row: 7 })
    );
}

#[test]
fn new_empty_game_state() {
    let game = Game::new_empty();
    assert_eq!(game.active(), Side::White);
    assert!(game.ep_square().is_none());
    assert_eq!(game.board().occupied().data(), 0);
}
