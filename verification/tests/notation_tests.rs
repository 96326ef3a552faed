use chesscore::notation::algebraic_square_to_bit;
use chesscore::notation::bit_to_algebraic_square;

#[test]
fn algebraic_to_index_samples() {
    assert_eq!(algebraic_square_to_bit("a1"), 0);
    assert_eq!(algebraic_square_to_bit("h1"), 7);
    assert_eq!(algebraic_square_to_bit("a8"), 56);
    assert_eq!(algebraic_square_to_bit("h8"), 63);
    assert_eq!(algebraic_square_to_bit("e6"), 44);
    assert_eq!(algebraic_square_to_bit("d4"), 27);
}

#[test]
fn index_to_algebraic_samples() {
    assert_eq!(bit_to_algebraic_square(0), "a1");
    assert_eq!(bit_to_algebraic_square(7), "h1");
    assert_eq!(bit_to_algebraic_square(56), "a8");
    assert_eq!(bit_to_algebraic_square(63), "h8");
    assert_eq!(bit_to_algebraic_square(44), "e6");
}

#[test]
fn notation_round_trips_every_square() {
    let mut i: u8 = 0;
    while i < 64 {
        let name = bit_to_algebraic_square(i);
        assert_eq!(name.len(), 2);
        assert_eq!(algebraic_square_to_bit(&name), i);
        i += 1;
    }
}
