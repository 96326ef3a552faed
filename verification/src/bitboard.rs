//! A 64-bit set over board squares, viewed in specifications as the set of
//! indices of its set bits.

use vstd::prelude::*;

use crate::board::Square;

verus! {

/// Bit `i` of `data` is set (and `i` is a board index).
pub open spec fn bit_set(data: u64, i: int) -> bool {
    0 <= i < 64 && (data >> (i as u64)) & 1u64 == 1u64
}

/// The complement of a set of squares, within the 64 squares of the board.
pub open spec fn board_complement(s: Set<int>) -> Set<int> {
    Set::new(|i: int| 0 <= i < 64 && !s.contains(i))
}

/// A 64-bit unsigned integer where bit `i` denotes occupancy of square `i`
/// (square index = rank * 8 + file).
#[derive(Clone, Copy, PartialEq, Eq, Structural, Debug)]
pub struct Bitboard {
    data: u64,
}

impl View for Bitboard {
    type V = Set<int>;

    closed spec fn view(&self) -> Set<int> {
        Set::new(|i: int| bit_set(self.data, i))
    }
}

impl Bitboard {
    /// Every member of the view is a board index.
    pub proof fn lemma_view_on_board(self)
        ensures
            forall|i: int| self@.contains(i) ==> 0 <= i < 64,
    {
    }

    /// Bitboards with the same view hold the same word.
    pub proof fn lemma_view_injective(a: Bitboard, b: Bitboard)
        requires
            a@ == b@,
        ensures
            a == b,
    {
        let x = a.data;
        let y = b.data;
        if x != y {
            let z = x ^ y;
            assert(x != y ==> (x ^ y) != 0) by (bit_vector);
            vstd::std_specs::bits::axiom_u64_trailing_zeros(z);
            let tz = vstd::std_specs::bits::u64_trailing_zeros(z) as int;
            assert(0 <= tz < 64 && ((x ^ y) >> (tz as u64)) & 1u64 == 1u64);
            assert(forall|j: u64|
                j < 64 && ((x ^ y) >> j) & 1u64 == 1u64 ==> (((x >> j) & 1u64 == 1u64) != ((y >> j)
                    & 1u64 == 1u64))) by (bit_vector);
            assert(bit_set(x, tz) != bit_set(y, tz));
            assert(a@.contains(tz) == bit_set(x, tz));
            assert(b@.contains(tz) == bit_set(y, tz));
            assert(a@.contains(tz) == b@.contains(tz));
            assert(false);
        }
    }

    pub fn new() -> (r: Self)
        ensures
            r@ == Set::<int>::empty(),
    {
        proof {
            assert(forall|j: u64| j < 64 ==> (0u64 >> j) & 1u64 == 0u64) by (bit_vector);
            assert(Set::new(|i: int| bit_set(0u64, i)) =~= Set::<int>::empty());
        }
        Bitboard { data: 0 }
    }

    pub fn from_data(data: u64) -> (r: Self)
        ensures
            forall|i: int| r@.contains(i) <==> bit_set(data, i),
    {
        Bitboard { data }
    }

    pub fn data(&self) -> (r: u64)
        ensures
            forall|i: int| self@.contains(i) <==> bit_set(r, i),
    {
        self.data
    }

    pub fn is_set(&self, square: Square) -> (r: bool)
        requires
            square.wf(),
        ensures
            r == self@.contains(square@),
    {
        ((self.data >> square.index()) & 1) == 1
    }

    pub fn set(&mut self, square: Square)
        requires
            square.wf(),
        ensures
            final(self)@ == old(self)@.insert(square@),
    {
        let idx = square.index();
        let d = self.data;
        proof {
            assert(forall|j: u64, k: u64|
                j < 64 && k < 64 ==> (((d | (1u64 << k)) >> j) & 1u64 == 1u64 <==> ((d >> j) & 1u64
                    == 1u64 || j == k))) by (bit_vector);
            assert(Set::new(|i: int| bit_set(d | (1u64 << (idx as u64)), i)) =~= Set::new(
                |i: int| bit_set(d, i),
            ).insert(idx as int));
        }
        self.data = self.data | (1u64 << idx);
    }

    pub fn unset(&mut self, index: u8)
        requires
            index < 64,
        ensures
            final(self)@ == old(self)@.remove(index as int),
    {
        let d = self.data;
        proof {
            assert(forall|j: u64, k: u64|
                j < 64 && k < 64 ==> (((d & !(1u64 << k)) >> j) & 1u64 == 1u64 <==> ((d >> j)
                    & 1u64 == 1u64 && j != k))) by (bit_vector);
            assert(Set::new(|i: int| bit_set(d & !(1u64 << (index as u64)), i)) =~= Set::new(
                |i: int| bit_set(d, i),
            ).remove(index as int));
        }
        let mask = !(1u64 << index);
        self.data = self.data & mask;
    }

    /// Union of the two square sets.
    pub fn bit_or(self, rhs: Self) -> (r: Self)
        ensures
            r@ == self@.union(rhs@),
    {
        let x = self.data;
        let y = rhs.data;
        proof {
            assert(forall|j: u64|
                j < 64 ==> (((x | y) >> j) & 1u64 == 1u64 <==> ((x >> j) & 1u64 == 1u64 || (y >> j)
                    & 1u64 == 1u64))) by (bit_vector);
            assert(Set::new(|i: int| bit_set(x | y, i)) =~= Set::new(|i: int| bit_set(x, i)).union(
                Set::new(|i: int| bit_set(y, i)),
            ));
        }
        Bitboard { data: x | y }
    }

    /// Intersection of the two square sets.
    pub fn bit_and(self, rhs: Self) -> (r: Self)
        ensures
            r@ == self@.intersect(rhs@),
    {
        let x = self.data;
        let y = rhs.data;
        proof {
            assert(forall|j: u64|
                j < 64 ==> (((x & y) >> j) & 1u64 == 1u64 <==> ((x >> j) & 1u64 == 1u64 && (y >> j)
                    & 1u64 == 1u64))) by (bit_vector);
            assert(Set::new(|i: int| bit_set(x & y, i)) =~= Set::new(
                |i: int| bit_set(x, i),
            ).intersect(Set::new(|i: int| bit_set(y, i))));
        }
        Bitboard { data: x & y }
    }

    /// Symmetric difference of the two square sets.
    pub fn bit_xor(self, rhs: Self) -> (r: Self)
        ensures
            forall|i: int| r@.contains(i) <==> (self@.contains(i) != rhs@.contains(i)),
            forall|i: int| r@.contains(i) ==> 0 <= i < 64,
    {
        let x = self.data;
        let y = rhs.data;
        proof {
            assert(forall|j: u64|
                j < 64 ==> (((x ^ y) >> j) & 1u64 == 1u64 <==> ((x >> j) & 1u64 == 1u64) != ((y
                    >> j) & 1u64 == 1u64))) by (bit_vector);
        }
        Bitboard { data: x ^ y }
    }

    /// Complement within the board.
    pub fn bit_not(self) -> (r: Self)
        ensures
            r@ == board_complement(self@),
    {
        let x = self.data;
        proof {
            assert(forall|j: u64|
                j < 64 ==> (((!x) >> j) & 1u64 == 1u64 <==> !((x >> j) & 1u64 == 1u64)))
                by (bit_vector);
            assert(Set::new(|i: int| bit_set(!x, i)) =~= board_complement(
                Set::new(|i: int| bit_set(x, i)),
            ));
        }
        Bitboard { data: !x }
    }

    /// Whether no square is set.
    pub fn is_empty(&self) -> (r: bool)
        ensures
            r <==> self@ == Set::<int>::empty(),
    {
        let d = self.data;
        proof {
            if d == 0 {
                assert(forall|j: u64| j < 64 ==> (0u64 >> j) & 1u64 == 0u64) by (bit_vector);
                assert(self@ =~= Set::<int>::empty());
            } else {
                vstd::std_specs::bits::axiom_u64_trailing_zeros(d);
                let tz = vstd::std_specs::bits::u64_trailing_zeros(d) as int;
                assert(bit_set(d, tz));
                assert(self@.contains(tz));
                assert(!Set::<int>::empty().contains(tz));
            }
        }
        d == 0
    }

    /// Lowest set index. The set must not be empty.
    pub fn find_first(&self) -> (r: u8)
        requires
            exists|i: int| self@.contains(i),
        ensures
            r < 64,
            self@.contains(r as int),
            forall|j: int| self@.contains(j) ==> r as int <= j,
    {
        let d = self.data;
        proof {
            let i = choose|i: int| self@.contains(i);
            assert(bit_set(d, i));
            assert(forall|j: u64| j < 64 && (d >> j) & 1u64 == 1u64 ==> d != 0) by (bit_vector);
            assert(d != 0);
            vstd::std_specs::bits::axiom_u64_trailing_zeros(d);
            let tz = vstd::std_specs::bits::u64_trailing_zeros(d) as int;
            assert(bit_set(d, tz));
            assert forall|j: int| self@.contains(j) implies tz <= j by {
                assert(bit_set(d, j));
                if j < tz {
                    assert((d >> (j as u64)) & 1u64 == 0u64);
                }
            }
        }
        d.trailing_zeros() as u8
    }

    /// Highest set index. The set must not be empty.
    pub fn find_last(&self) -> (r: u8)
        requires
            exists|i: int| self@.contains(i),
        ensures
            r < 64,
            self@.contains(r as int),
            forall|j: int| self@.contains(j) ==> j <= r as int,
    {
        let d = self.data;
        proof {
            let i = choose|i: int| self@.contains(i);
            assert(bit_set(d, i));
            assert(forall|j: u64| j < 64 && (d >> j) & 1u64 == 1u64 ==> d != 0) by (bit_vector);
            assert(d != 0);
            vstd::std_specs::bits::axiom_u64_leading_zeros(d);
            let lz = vstd::std_specs::bits::u64_leading_zeros(d);
            assert(0 <= lz < 64);
            let hi = 63 - lz;
            assert((d >> ((63 - lz) as u64)) & 1u64 != 0u64);
            assert(forall|k: u64|
                k < 64 ==> ((d >> k) & 1u64 != 0u64 <==> (d >> k) & 1u64 == 1u64)) by (bit_vector);
            assert(bit_set(d, hi));
            assert forall|j: int| self@.contains(j) implies j <= hi by {
                assert(bit_set(d, j));
                if j > hi {
                    assert(64 - lz <= j < 64);
                    assert((d >> (j as u64)) & 1u64 == 0u64);
                }
            }
        }
        (63 - self.data.leading_zeros()) as u8
    }

    /// The squares of the set, in ascending index order, without consuming
    /// the board.
    pub fn squares(&self) -> (r: Vec<Square>)
        ensures
            forall|k: int| 0 <= k < r@.len() ==> (#[trigger] r@[k]).wf(),
            forall|k1: int, k2: int| 0 <= k1 < k2 < r@.len() ==> r@[k1]@ < r@[k2]@,
            forall|i: int|
                self@.contains(i) <==> exists|k: int| 0 <= k < r@.len() && (#[trigger] r@[k])@ == i,
    {
        let mut out: Vec<Square> = Vec::new();
        let mut idx: u8 = 0;
        while idx < 64
            invariant
                idx <= 64,
                forall|k: int|
                    0 <= k < out@.len() ==> (#[trigger] out@[k]).wf() && self@.contains(out@[k]@)
                        && out@[k]@ < idx as int,
                forall|k1: int, k2: int| 0 <= k1 < k2 < out@.len() ==> out@[k1]@ < out@[k2]@,
                forall|i: int|
                    self@.contains(i) && i < idx as int ==> exists|k: int|
                        0 <= k < out@.len() && (#[trigger] out@[k])@ == i,
            decreases 64 - idx as int,
        {
            let sq = Square::new(idx);
            let ghost prev = out@;
            if self.is_set(sq) {
                out.push(sq);
            }
            proof {
                assert forall|i: int| self@.contains(i) && i < idx as int + 1 implies exists|k: int|
                    0 <= k < out@.len() && (#[trigger] out@[k])@ == i by {
                    if i == idx as int {
                        assert(out@[out@.len() - 1]@ == i);
                    } else {
                        let k0 = choose|k: int|
                            0 <= k < prev.len() && (#[trigger] prev[k])@ == i;
                        assert(out@[k0]@ == i);
                    }
                }
            }
            idx = idx + 1;
        }
        out
    }
}

/// For any two boards, `(a & b) | (a & !b)` is `a`: intersecting with a set
/// and with its complement partitions the board.
pub proof fn lemma_partition(a: Bitboard, b: Bitboard)
    ensures
        a@.intersect(b@).union(a@.intersect(board_complement(b@))) =~= a@,
{
}

} // verus!
