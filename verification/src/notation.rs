//! Conversion between algebraic square names (`a1` .. `h8`) and square
//! indices.

use vstd::prelude::*;
use vstd::string::StrSliceExecFns;
use vstd::string::StringExecFns;

verus! {

/// A file letter, `a` to `h`.
pub open spec fn is_file_char(c: char) -> bool {
    97 <= c as u32 && c as u32 <= 104
}

/// A rank digit, `1` to `8`.
pub open spec fn is_rank_char(c: char) -> bool {
    49 <= c as u32 && c as u32 <= 56
}

/// The square index a two-character algebraic name denotes.
pub open spec fn algebraic_square_index(s: Seq<char>) -> int {
    (s[1] as u32 - 49) * 8 + (s[0] as u32 - 97)
}

/// The index of the square named by the first two characters of `square`:
/// a file letter followed by a rank digit.
pub fn algebraic_square_to_bit(square: &str) -> (r: u8)
    requires
        square@.len() >= 2,
        is_file_char(square@[0]),
        is_rank_char(square@[1]),
    ensures
        r as int == algebraic_square_index(square@),
        r < 64,
{
    let file_char = square.get_char(0);
    let rank_char = square.get_char(1);
    let file = file_char as u32 - 97;
    let rank = rank_char as u32 - 49;
    ((rank * 8) + file) as u8
}

/// The one-letter name of a file.
fn file_char_str(file: u8) -> (r: &'static str)
    requires
        file < 8,
    ensures
        r@.len() == 1,
        is_file_char(r@[0]),
        r@[0] as u32 - 97 == file as int,
{
    match file {
        0 => {
            proof {
                reveal_strlit("a");
            }
            "a"
        },
        1 => {
            proof {
                reveal_strlit("b");
            }
            "b"
        },
        2 => {
            proof {
                reveal_strlit("c");
            }
            "c"
        },
        3 => {
            proof {
                reveal_strlit("d");
            }
            "d"
        },
        4 => {
            proof {
                reveal_strlit("e");
            }
            "e"
        },
        5 => {
            proof {
                reveal_strlit("f");
            }
            "f"
        },
        6 => {
            proof {
                reveal_strlit("g");
            }
            "g"
        },
        _ => {
            proof {
                reveal_strlit("h");
            }
            "h"
        },
    }
}

/// The one-digit name of a rank.
fn rank_char_str(rank: u8) -> (r: &'static str)
    requires
        rank < 8,
    ensures
        r@.len() == 1,
        is_rank_char(r@[0]),
        r@[0] as u32 - 49 == rank as int,
{
    match rank {
        0 => {
            proof {
                reveal_strlit("1");
            }
            "1"
        },
        1 => {
            proof {
                reveal_strlit("2");
            }
            "2"
        },
        2 => {
            proof {
                reveal_strlit("3");
            }
            "3"
        },
        3 => {
            proof {
                reveal_strlit("4");
            }
            "4"
        },
        4 => {
            proof {
                reveal_strlit("5");
            }
            "5"
        },
        5 => {
            proof {
                reveal_strlit("6");
            }
            "6"
        },
        6 => {
            proof {
                reveal_strlit("7");
            }
            "7"
        },
        _ => {
            proof {
                reveal_strlit("8");
            }
            "8"
        },
    }
}

/// The algebraic name of the square `index`: reading the name back with
/// `algebraic_square_index` returns `index`.
pub fn bit_to_algebraic_square(index: u8) -> (r: String)
    requires
        index < 64,
    ensures
        r@.len() == 2,
        is_file_char(r@[0]),
        is_rank_char(r@[1]),
        algebraic_square_index(r@) == index as int,
{
    let file = index & 7;
    let rank = index >> 3;
    proof {
        let i = index;
        assert(i < 64 ==> (i & 7) + 8 * (i >> 3) == i && (i & 7) < 8 && (i >> 3) < 8)
            by (bit_vector);
    }
    let fs = file_char_str(file);
    let rs = rank_char_str(rank);
    let r = String::from_str(fs).concat(rs);
    proof {
        assert(r@[0] == fs@[0] && r@[1] == rs@[0]);
    }
    r
}

} // verus!
