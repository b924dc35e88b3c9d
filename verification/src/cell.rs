//! One cell of the board, packed into a single byte.
//!
//! | bits        | meaning                                   |
//! |-------------|-------------------------------------------|
//! | `1000 0000` | the cell has been revealed                |
//! | `0100 0000` | the cell carries a flag                   |
//! | `0001 1111` | warning: adjacent mines, above 8 a mine   |

use crate::text::{binary, push_binary};
use vstd::prelude::*;
use vstd::std_specs::cmp::PartialEqSpecImpl;

verus! {

/// Bit that records that a cell has been revealed.
pub const BIT_REVEAL: u8 = 0x80;

/// Bit that records that a cell carries a flag.
pub const BIT_FLAG: u8 = 0x40;

/// Mask of the warning field.
pub const BIT_WARN: u8 = 0x1F;

/// Warning value that marks a cell as a mine.
pub const MINE: u8 = 9;

/// The warning field of a raw cell byte.
pub open spec fn warn_of(b: u8) -> u8 {
    b & 0x1f
}

/// Whether a raw cell byte has its revealed bit set.
pub open spec fn revealed_of(b: u8) -> bool {
    b & 0x80 == 0x80
}

/// Whether a raw cell byte has its flag bit set.
pub open spec fn flagged_of(b: u8) -> bool {
    b & 0x40 == 0x40
}

/// Whether a raw cell byte denotes a mine.
pub open spec fn mine_of(b: u8) -> bool {
    warn_of(b) > 8
}

/// Whether a raw cell byte denotes a cell with no mine around it.
pub open spec fn empty_of(b: u8) -> bool {
    warn_of(b) == 0
}

/// The byte that `bmp` leaves behind: the warning field moved one step,
/// held at 31 and at 0, the three high bits untouched.
pub open spec fn bumped(b: u8, add: bool) -> u8 {
    if add {
        if warn_of(b) != 0x1f {
            (b + 1) as u8
        } else {
            b
        }
    } else if warn_of(b) > 0 {
        (b - 1) as u8
    } else {
        b
    }
}

/// The byte that `mark_reveal` leaves behind: the warning field with the
/// revealed bit, and nothing else.
pub open spec fn revealed(b: u8) -> u8 {
    b & 0x1f | 0x80
}

/// The byte that `switch_flag` leaves behind.
pub open spec fn flag_switched(b: u8) -> u8 {
    b ^ 0x40
}

/// State of one cell.
#[derive(Clone, Copy, Debug, Eq)]
pub struct Cell(pub u8);

/// A cell as text: `Cell(` and the eight bits of its byte.
pub open spec fn cell_text(b: u8) -> Seq<char> {
    seq!['C', 'e', 'l', 'l', '('] + binary(b) + seq![')']
}

impl Cell {
    /// The cell as text: `Cell(10000011)`.
    pub fn to_text(&self) -> (s: String)
        ensures
            s@ == cell_text(self.0),
    {
        let mut s = String::new();
        s.push('C');
        s.push('e');
        s.push('l');
        s.push('l');
        s.push('(');
        push_binary(&mut s, self.0);
        s.push(')');
        assert(s@ =~= cell_text(self.0));
        s
    }

    /// Number of mines around the cell; a value above 8 marks a mine.
    #[inline]
    pub fn get_warn(&self) -> (w: u8)
        ensures
            w == warn_of(self.0),
            w <= 31,
    {
        let b: u8 = self.0;
        assert(b & 0x1f <= 31) by (bit_vector);
        self.0 & BIT_WARN
    }

    /// Whether the cell has been revealed.
    #[inline]
    pub fn is_reveal(&self) -> (r: bool)
        ensures
            r == revealed_of(self.0),
    {
        let b: u8 = self.0;
        assert((b >= 0x80) == (b & 0x80 == 0x80)) by (bit_vector);
        self.0 >= BIT_REVEAL
    }

    /// Whether the cell carries a flag.
    #[inline]
    pub fn is_flagged(&self) -> (r: bool)
        ensures
            r == flagged_of(self.0),
    {
        self.0 & BIT_FLAG == BIT_FLAG
    }

    /// Whether the cell is a mine: its warning is above 8.
    #[inline]
    pub fn is_mine(&self) -> (r: bool)
        ensures
            r == mine_of(self.0),
    {
        self.get_warn() > 8
    }

    /// Whether no mine is around the cell: its warning is zero.
    #[inline]
    pub fn is_empty(&self) -> (r: bool)
        ensures
            r == empty_of(self.0),
    {
        self.get_warn() == 0
    }

    /// Moves the warning one step up or down. The field stays at 31 when
    /// asked to go up from there and at 0 when asked to go down, so the
    /// step never reaches the flag and revealed bits.
    pub fn bmp(&mut self, add: bool)
        ensures
            final(self).0 == bumped(old(self).0, add),
            warn_of(final(self).0) == if add {
                if warn_of(old(self).0) < 31 {
                    warn_of(old(self).0) + 1
                } else {
                    31
                }
            } else {
                if warn_of(old(self).0) > 0 {
                    warn_of(old(self).0) - 1
                } else {
                    0
                }
            },
            final(self).0 & 0xe0 == old(self).0 & 0xe0,
    {
        let v = self.get_warn();
        let b: u8 = self.0;
        proof {
            lemma_bumped(b, add);
        }
        if add {
            if v != BIT_WARN {
                self.0 += 1;
            }
        } else if v > 0 {
            self.0 -= 1;
        }
    }

    /// Marks the cell as revealed. A revealed cell stays revealed.
    #[inline]
    pub fn mark_reveal(&mut self)
        ensures
            final(self).0 == revealed(old(self).0),
            revealed_of(final(self).0),
            !flagged_of(final(self).0),
            warn_of(final(self).0) == warn_of(old(self).0),
    {
        let b: u8 = self.0;
        proof {
            lemma_revealed(b);
        }
        self.0 = self.0 & BIT_WARN | BIT_REVEAL
    }

    /// Sets the flag if it is clear and clears it if it is set.
    #[inline]
    pub fn switch_flag(&mut self)
        ensures
            final(self).0 == flag_switched(old(self).0),
            flagged_of(final(self).0) == !flagged_of(old(self).0),
            revealed_of(final(self).0) == revealed_of(old(self).0),
            warn_of(final(self).0) == warn_of(old(self).0),
    {
        let b: u8 = self.0;
        proof {
            lemma_flag_switched(b);
        }
        self.0 ^= BIT_FLAG
    }
}

/// Two cells are equal when they carry the same warning, whatever their
/// flag and revealed bits.
impl PartialEq for Cell {
    fn eq(&self, other: &Self) -> (r: bool) {
        self.get_warn() == other.get_warn()
    }
}

impl PartialEqSpecImpl for Cell {
    open spec fn obeys_eq_spec() -> bool {
        true
    }

    open spec fn eq_spec(&self, other: &Self) -> bool {
        warn_of(self.0) == warn_of(other.0)
    }
}

/// What one step of the warning field does to the byte as a whole.
pub proof fn lemma_bumped(b: u8, add: bool)
    ensures
        add && warn_of(b) != 0x1f ==> b < 255 && warn_of((b + 1) as u8) == warn_of(b) + 1,
        !add && warn_of(b) > 0 ==> b > 0 && warn_of((b - 1) as u8) == warn_of(b) - 1,
        bumped(b, add) & 0xe0 == b & 0xe0,
        warn_of(b) <= 31,
{
    assert(b & 0x1f != 0x1f ==> b < 255 && (((b + 1) as u8) & 0x1f) == (b & 0x1f) + 1 && ((b
        + 1) as u8) & 0xe0 == b & 0xe0) by (bit_vector);
    assert(b & 0x1f > 0 ==> b > 0 && (((b - 1) as u8) & 0x1f) == (b & 0x1f) - 1 && ((b
        - 1) as u8) & 0xe0 == b & 0xe0) by (bit_vector);
    assert(b & 0x1f <= 31) by (bit_vector);
}

/// What revealing does to each field of the byte.
pub proof fn lemma_revealed(b: u8)
    ensures
        revealed_of(revealed(b)),
        !flagged_of(revealed(b)),
        warn_of(revealed(b)) == warn_of(b),
        revealed(revealed(b)) == revealed(b),
        revealed_of(b) && !flagged_of(b) && b & 0x20 == 0 ==> revealed(b) == b,
{
    assert((b & 0x1f | 0x80) & 0x80 == 0x80) by (bit_vector);
    assert((b & 0x1f | 0x80) & 0x40 != 0x40) by (bit_vector);
    assert((b & 0x1f | 0x80) & 0x1f == b & 0x1f) by (bit_vector);
    assert((b & 0x1f | 0x80) & 0x1f | 0x80 == b & 0x1f | 0x80) by (bit_vector);
    assert(b & 0x80 == 0x80 && b & 0x40 != 0x40 && b & 0x20 == 0 ==> (b & 0x1f | 0x80) == b)
        by (bit_vector);
}

/// What switching the flag does to each field of the byte; switching
/// twice gives the byte back.
pub proof fn lemma_flag_switched(b: u8)
    ensures
        flagged_of(flag_switched(b)) == !flagged_of(b),
        revealed_of(flag_switched(b)) == revealed_of(b),
        warn_of(flag_switched(b)) == warn_of(b),
        flag_switched(flag_switched(b)) == b,
{
    assert(((b ^ 0x40) & 0x40 == 0x40) == !(b & 0x40 == 0x40)) by (bit_vector);
    assert(((b ^ 0x40) & 0x80 == 0x80) == (b & 0x80 == 0x80)) by (bit_vector);
    assert((b ^ 0x40) & 0x1f == b & 0x1f) by (bit_vector);
    assert((b ^ 0x40) ^ 0x40 == b) by (bit_vector);
}

} // verus!
