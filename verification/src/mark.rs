//! One cell of the position-addressed board, packed into a single byte.
//!
//! ```text
//!      ++++- warning: mines around the cell; above 8 a mine
//! 0000 0000
//! |||+- guessed safe         (both guess bits: guessed a mine)
//! ||+- guessed suspicious
//! |+- flagged
//! +- opened
//! ```

use vstd::prelude::*;
use vstd::std_specs::cmp::PartialEqSpecImpl;

verus! {

/// Guess bits: the cell is taken to be safe.
pub const M_GUESS_SAFE: u8 = 0x10;

/// Guess bits: the cell is taken to be suspicious.
pub const M_GUESS_SUSP: u8 = 0x20;

/// Guess bits: the cell is taken to be a mine.
pub const M_GUESS_MINE: u8 = 0x30;

/// Bit that records a flag.
pub const M_FLAGGED: u8 = 0x40;

/// Bit that records that a cell has been opened.
pub const M_OPENED: u8 = 0x80;

/// What the player takes a cell to be.
#[derive(PartialEq, Eq, Structural, Clone, Copy, Debug)]
pub enum MineGuess {
    Mine,
    Safe,
    Suspicious,
}

/// The guess bits that stand for a guess.
pub open spec fn guess_bits(guess: MineGuess) -> u8 {
    match guess {
        MineGuess::Mine => 0x30,
        MineGuess::Safe => 0x10,
        MineGuess::Suspicious => 0x20,
    }
}

/// The warning held in a mark's byte: its low four bits.
pub open spec fn low(b: u8) -> u8 {
    b & 0x0f
}

/// The state held in a mark's byte: its high four bits.
pub open spec fn high(b: u8) -> u8 {
    b & 0xf0
}

/// The byte that `Mark::from` makes.
pub open spec fn made(around: u8, guess: MineGuess, flagged: bool, opened: bool) -> u8 {
    (around & 0x0f) | (if opened {
        0x80u8
    } else {
        0u8
    }) | (if flagged {
        0x40u8
    } else {
        0u8
    }) | guess_bits(guess)
}

/// The warning after one step up or down: held at 15 and at 0.
pub open spec fn stepped(w: u8, add: bool) -> u8 {
    if add {
        if w < 15 {
            (w + 1) as u8
        } else {
            w
        }
    } else if w > 0 {
        (w - 1) as u8
    } else {
        w
    }
}

/// State of one cell.
#[derive(Clone, Copy, Debug, Eq)]
pub struct Mark(pub u8);

impl Mark {
    /// A mark with the warning `around` (its low four bits), the guess,
    /// and the flag and opened bits as given.
    pub fn from(around: u8, guess: MineGuess, flagged: bool, opened: bool) -> (m: Self)
        ensures
            m.0 == made(around, guess, flagged, opened),
            low(m.0) == low(around),
            m.0 & 0x80 == 0x80 <==> opened,
            m.0 & 0x40 == 0x40 <==> flagged,
            m.0 & 0x30 == guess_bits(guess),
    {
        let mut v: u8 = (around | 0xf0) ^ 0xf0;
        if opened {
            v |= M_OPENED;
        }
        if flagged {
            v |= M_FLAGGED;
        }
        let g: u8 = match guess {
            MineGuess::Mine => M_GUESS_MINE,
            MineGuess::Safe => M_GUESS_SAFE,
            MineGuess::Suspicious => M_GUESS_SUSP,
        };
        proof {
            lemma_made(around, g, flagged, opened);
        }
        v |= g;
        Self(v)
    }

    /// Whether no mine is around the cell.
    pub fn is_empty(self) -> (r: bool)
        ensures
            r == (low(self.0) == 0),
    {
        proof {
            lemma_nibbles(self.0, 0);
        }
        self.0 == 0 || (self.0 | 0xf0) == 0xf0
    }

    /// Sets the flag if it is clear and clears it if it is set.
    pub fn set_flag(&mut self)
        ensures
            final(self).0 == old(self).0 ^ 0x40,
            final(self).0 & 0x40 == 0x40 <==> old(self).0 & 0x40 != 0x40,
            final(self).0 & 0xbf == old(self).0 & 0xbf,
    {
        proof {
            lemma_state_bits(self.0);
        }
        self.0 ^= M_FLAGGED
    }

    /// Whether the cell carries a flag.
    pub fn is_flagged(self) -> (r: bool)
        ensures
            r == (self.0 & 0x40 == 0x40),
    {
        proof {
            lemma_state_bits(self.0);
        }
        (self.0 & M_FLAGGED) > 0
    }

    /// Opens the cell. An opened cell stays opened.
    pub fn open(&mut self)
        ensures
            final(self).0 == old(self).0 | 0x80,
            final(self).0 & 0x80 == 0x80,
            final(self).0 & 0x7f == old(self).0 & 0x7f,
    {
        proof {
            lemma_state_bits(self.0);
        }
        self.0 |= M_OPENED
    }

    /// Whether the cell has been opened.
    pub fn is_open(self) -> (r: bool)
        ensures
            r == (self.0 & 0x80 == 0x80),
    {
        proof {
            lemma_state_bits(self.0);
        }
        self.0 >= M_OPENED
    }

    /// Makes the cell a mine: the warning becomes 9, the state stays.
    pub fn set_mine(&mut self)
        ensures
            final(self).0 == high(old(self).0) | 9,
            low(final(self).0) == 9,
            high(final(self).0) == high(old(self).0),
    {
        proof {
            lemma_nibbles(self.0, 9);
        }
        self.0 = ((self.0 | 0xf) ^ 0xf) | 9
    }

    /// Whether the cell is a mine: its warning is above 8.
    pub fn is_mine(self) -> (r: bool)
        ensures
            r == (low(self.0) > 8),
    {
        proof {
            lemma_nibbles(self.0, 0);
        }
        ((self.0 | 0xf0) ^ 0xf0) > 8
    }

    /// Records the guess that the cell is safe, unless it is a mine.
    pub fn set_safe(&mut self)
        ensures
            final(self).0 == if low(old(self).0) > 8 {
                old(self).0
            } else {
                old(self).0 | 0x10
            },
    {
        if !self.is_mine() {
            self.0 |= M_GUESS_SAFE;
        }
    }

    /// Records the guess that the cell is suspicious.
    pub fn set_suspicious(&mut self)
        ensures
            final(self).0 == old(self).0 | 0x20,
    {
        self.0 |= M_GUESS_SUSP
    }

    /// Whether any guess is recorded.
    pub fn is_guess(self) -> (r: bool)
        ensures
            r == (self.0 & 0x30 != 0),
    {
        (self.0 & M_GUESS_MINE) > 0
    }

    /// Whether the cell is taken to be a mine.
    pub fn guess_mine(self) -> (r: bool)
        ensures
            r == (self.0 & 0x30 == 0x30),
    {
        (self.0 & M_GUESS_MINE) == M_GUESS_MINE
    }

    /// Whether the cell is taken to be safe.
    pub fn guess_safe(self) -> (r: bool)
        ensures
            r == (self.0 & 0x30 == 0x10),
    {
        (self.0 & M_GUESS_MINE) == M_GUESS_SAFE
    }

    /// Whether the cell is taken to be suspicious.
    pub fn guess_suspicious(self) -> (r: bool)
        ensures
            r == (self.0 & 0x30 == 0x20),
    {
        (self.0 & M_GUESS_MINE) == M_GUESS_SUSP
    }

    /// Sets the warning to the low four bits of `warn`; the state stays.
    pub fn set_warn(&mut self, warn: u8)
        ensures
            final(self).0 == high(old(self).0) | low(warn),
            low(final(self).0) == low(warn),
            high(final(self).0) == high(old(self).0),
    {
        let mut w = warn;
        proof {
            lemma_nibbles(self.0, warn);
            lemma_nibbles(warn, 0);
        }
        if w > 15 {
            w = (w | 0xf0) ^ 0xf0;
        }
        self.0 = ((self.0 | 0xf) ^ 0xf) | w
    }

    /// Moves the warning one step up or down and returns it. It stays at
    /// 15 when asked to go up from there, and at 0 when asked to go down.
    pub fn bump_warn(&mut self, add: bool) -> (w: u8)
        ensures
            w == stepped(low(old(self).0), add),
            low(final(self).0) == w,
            high(final(self).0) == high(old(self).0),
            final(self).0 == if add && low(old(self).0) < 15 {
                (old(self).0 + 1) as u8
            } else if !add && low(old(self).0) > 0 {
                (old(self).0 - 1) as u8
            } else {
                old(self).0
            },
    {
        let w = self.get_warn();
        proof {
            lemma_step(self.0);
        }
        if add {
            if w < 15 {
                self.0 += 1
            }
        } else if w > 0 {
            self.0 -= 1;
        }
        self.get_warn()
    }

    /// Number of mines around the cell; a value above 8 marks a mine.
    #[inline]
    pub fn get_warn(self) -> (w: u8)
        ensures
            w == low(self.0),
            w <= 15,
    {
        proof {
            lemma_nibbles(self.0, 0);
        }
        (self.0 | 0xf0) ^ 0xf0
    }
}

/// Two marks are equal when they carry the same warning, whatever their
/// state.
impl PartialEq for Mark {
    fn eq(&self, other: &Self) -> (r: bool) {
        proof {
            lemma_same_low(self.0, other.0);
        }
        (self.0 | 0xf0) == (other.0 | 0xf0)
    }
}

impl PartialEqSpecImpl for Mark {
    open spec fn obeys_eq_spec() -> bool {
        true
    }

    open spec fn eq_spec(&self, other: &Self) -> bool {
        low(self.0) == low(other.0)
    }
}

/// How the two halves of a byte are taken apart and put together.
pub proof fn lemma_nibbles(b: u8, w: u8)
    by (bit_vector)
    ensures
        (b | 0xf0) ^ 0xf0 == b & 0x0f,
        (b | 0x0f) ^ 0x0f == b & 0xf0,
        b & 0x0f <= 15,
        (b == 0 || (b | 0xf0) == 0xf0) <==> b & 0x0f == 0,
        ((b & 0xf0) | 9) & 0x0f == 9,
        ((b & 0xf0) | 9) & 0xf0 == b & 0xf0,
        ((b & 0xf0) | (w & 0x0f)) & 0x0f == w & 0x0f,
        ((b & 0xf0) | (w & 0x0f)) & 0xf0 == b & 0xf0,
        w <= 15 ==> w & 0x0f == w,
        b == 0 ==> b & 0xf0 == 0,
{
}

/// What the flag and opened bits of a byte tell, and what setting them
/// leaves alone.
pub proof fn lemma_state_bits(b: u8)
    by (bit_vector)
    ensures
        (b & 0x40 > 0) <==> b & 0x40 == 0x40,
        b >= 0x80 <==> b & 0x80 == 0x80,
        (b ^ 0x40) & 0x40 == 0x40 <==> b & 0x40 != 0x40,
        (b ^ 0x40) & 0xbf == b & 0xbf,
        (b | 0x80) & 0x80 == 0x80,
        (b | 0x80) & 0x7f == b & 0x7f,
{
}

/// One step of the warning moves the byte by one and leaves the state.
pub proof fn lemma_step(b: u8)
    by (bit_vector)
    ensures
        b & 0x0f < 15 ==> b < 255 && ((b + 1) as u8) & 0x0f == (b & 0x0f) + 1 && ((b + 1) as u8)
            & 0xf0 == b & 0xf0,
        b & 0x0f > 0 ==> b > 0 && ((b - 1) as u8) & 0x0f == (b & 0x0f) - 1 && ((b - 1) as u8)
            & 0xf0 == b & 0xf0,
{
}

/// Stepping a warning down, and setting a warning, leave the opened
/// bit as it is.
pub proof fn lemma_opened_kept(b: u8, w: u8)
    by (bit_vector)
    ensures
        b & 0x0f > 0 ==> ((b - 1) as u8) & 0x80 == b & 0x80,
        ((b & 0xf0) | (w & 0x0f)) & 0x80 == b & 0x80,
{
}

/// Bytes with the same low half are the bytes that agree once their
/// high halves are filled.
pub proof fn lemma_same_low(a: u8, b: u8)
    by (bit_vector)
    ensures
        (a | 0xf0) == (b | 0xf0) <==> a & 0x0f == b & 0x0f,
{
}

/// What `Mark::from` puts together keeps each part apart.
pub proof fn lemma_made(around: u8, g: u8, flagged: bool, opened: bool)
    by (bit_vector)
    requires
        g == 0x10 || g == 0x20 || g == 0x30,
    ensures
        ({
            let o = if opened {
                0x80u8
            } else {
                0u8
            };
            let f = if flagged {
                0x40u8
            } else {
                0u8
            };
            let x = (around | 0xf0) ^ 0xf0;
            let v1 = if opened {
                x | 0x80
            } else {
                x
            };
            let v2 = if flagged {
                v1 | 0x40
            } else {
                v1
            };
            let v = (around & 0x0f) | o | f | g;
            &&& v2 | g == v
            &&& v & 0x0f == around & 0x0f
            &&& (v & 0x80 == 0x80 <==> opened)
            &&& (v & 0x40 == 0x40 <==> flagged)
            &&& v & 0x30 == g
        }),
{
}

} // verus!
