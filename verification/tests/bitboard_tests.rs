use chesscore::bitboard::Bitboard;
use chesscore::board::Square;

fn square_indices(b: &Bitboard) -> Vec<u8> {
    b.squares().iter().map(|s| s.index()).collect()
}

#[test]
fn empty_board_has_no_squares() {
    let b = Bitboard::new();
    assert!(b.is_empty());
    assert_eq!(b.data(), 0);
    assert_eq!(square_indices(&b), Vec::<u8>::new());
}

#[test]
fn from_data_round_trips() {
    let b = Bitboard::from_data(0x10000000000000);
    assert_eq!(b.data(), 0x10000000000000);
    assert!(!b.is_empty());
}

#[test]
fn set_and_unset_single_bits() {
    let mut b = Bitboard::new();
    b.set(Square::new(12));
    assert!(b.is_set(Square::new(12)));
    assert!(!b.is_set(Square::new(13)));
    assert_eq!(b.data(), 1u64 << 12);
    b.unset(12);
    assert!(!b.is_set(Square::new(12)));
    assert!(b.is_empty());
}

#[test]
fn find_first_and_last() {
    let b = Bitboard::from_data((1u64 << 5) | (1u64 << 40) | (1u64 << 63));
    assert_eq!(b.find_first(), 5);
    assert_eq!(b.find_last(), 63);
    let single = Bitboard::from_data(1u64 << 31);
    assert_eq!(single.find_first(), 31);
    assert_eq!(single.find_last(), 31);
}

#[test]
fn set_algebra_partition_law() {
    // (a & b) | (a & !b) == a
    let a = Bitboard::from_data(0xdead_beef_0055_aa11);
    let b = Bitboard::from_data(0x0123_4567_89ab_cdef);
    let rebuilt = a.bit_and(b).bit_or(a.bit_and(b.bit_not()));
    assert_eq!(rebuilt, a);
}

#[test]
fn bit_ops_match_word_ops() {
    let a = Bitboard::from_data(0xff00ff00ff00ff00);
    let b = Bitboard::from_data(0x0ff00ff00ff00ff0);
    assert_eq!(a.bit_and(b).data(), 0xff00ff00ff00ff00u64 & 0x0ff00ff00ff00ff0);
    assert_eq!(a.bit_or(b).data(), 0xff00ff00ff00ff00u64 | 0x0ff00ff00ff00ff0);
    assert_eq!(a.bit_xor(b).data(), 0xff00ff00ff00ff00u64 ^ 0x0ff00ff00ff00ff0);
    assert_eq!(a.bit_not().data(), !0xff00ff00ff00ff00u64);
}

#[test]
fn squares_visits_set_bits_ascending_exactly_once() {
    let b = Bitboard::from_data((1u64 << 3) | (1u64 << 3) | (1u64 << 17) | (1u64 << 62));
    assert_eq!(square_indices(&b), vec![3u8, 17, 62]);
    // enumeration does not consume the board
    assert_eq!(square_indices(&b), vec![3u8, 17, 62]);
    let full = Bitboard::from_data(u64::MAX);
    let all: Vec<u8> = square_indices(&full);
    assert_eq!(all.len(), 64);
    for (k, idx) in all.iter().enumerate() {
        assert_eq!(*idx as usize, k);
    }
}
