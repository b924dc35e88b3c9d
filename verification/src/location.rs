//! A place on the board, given by column and row, and the places next
//! to it. Nothing here knows the size of a board: a caller drops the
//! places that its board does not have.

use crate::position::{
    apart, lemma_spot_near, lemma_spots_upto, spot, spots_upto, window_x, window_y,
};
use crate::text::{decimal, push_decimal};
use smallvec::SmallVec;
use vstd::prelude::*;

verus! {

/// Column and row of a cell.
#[derive(Debug, Clone, Copy, PartialEq, Eq, Structural)]
pub struct Loc(pub u8, pub u8);

/// A short list of places, kept in a `smallvec::SmallVec` that holds up
/// to eight of them in place.
#[verifier::external_body]
pub struct Locs {
    items: SmallVec<[Loc; 8]>,
}

/// The places that a list holds, in order.
pub uninterp spec fn loc_items(v: Locs) -> Seq<Loc>;

impl View for Locs {
    type V = Seq<Loc>;

    open spec fn view(&self) -> Seq<Loc> {
        loc_items(*self)
    }
}

impl Locs {
    /// `SmallVec::new` makes a list without items.
    #[verifier::external_body]
    pub(crate) fn new() -> (v: Self)
        ensures
            loc_items(v) == Seq::<Loc>::empty(),
    {
        Locs { items: SmallVec::new() }
    }

    /// `SmallVec::push` puts one item behind those that the list holds.
    #[verifier::external_body]
    pub(crate) fn push(&mut self, l: Loc)
        ensures
            loc_items(*final(self)) == loc_items(*old(self)).push(l),
    {
        self.items.push(l)
    }

    /// `SmallVec::as_slice` lends the items as a slice, in their order.
    #[verifier::external_body]
    pub(crate) fn as_slice(&self) -> (s: &[Loc])
        ensures
            s@ == loc_items(*self),
    {
        self.items.as_slice()
    }

    /// Number of places in the list.
    pub fn len(&self) -> (n: usize)
        ensures
            n == self@.len(),
    {
        self.as_slice().len()
    }

    /// The place at position `i` of the list.
    pub fn get(&self, i: usize) -> (r: Option<Loc>)
        ensures
            r == if i < self@.len() {
                Some(self@[i as int])
            } else {
                None
            },
    {
        let s = self.as_slice();
        if i < s.len() {
            Some(s[i])
        } else {
            None
        }
    }

    /// The places of the list as a vector, in their order.
    pub fn to_vec(&self) -> (r: Vec<Loc>)
        ensures
            r@ == self@,
    {
        let s = self.as_slice();
        let mut r: Vec<Loc> = Vec::new();
        let mut i: usize = 0;
        while i < s.len()
            invariant
                i <= s@.len(),
                s@ == self@,
                r@ == s@.take(i as int),
            decreases s@.len() - i,
        {
            r.push(s[i]);
            assert(s@.take(i + 1) =~= s@.take(i as int).push(s@[i as int]));
            i += 1;
        }
        assert(s@.take(s@.len() as int) =~= s@);
        r
    }
}

/// The lower end of the span round `v`: one below, or `v` at zero.
pub open spec fn edge_low(v: u8) -> u8 {
    if v > 0 {
        (v - 1) as u8
    } else {
        0
    }
}

/// The upper end of the span round `v`: one above, or `v` at 255.
pub open spec fn edge_high(v: u8) -> u8 {
    if v < 255 {
        (v + 1) as u8
    } else {
        255
    }
}

/// The place in column `a` of row `b`.
pub open spec fn loc_of() -> spec_fn(int, int) -> Loc {
    |a: int, b: int| Loc(a as u8, b as u8)
}

/// Place `n` of the three by three window round `p` is not `p` itself
/// and has a column and a row from 0 to 255.
pub open spec fn beside(p: Loc, n: int) -> bool {
    spot(p.0 as int, p.1 as int, 256, 256, n)
}

/// The place at place `n` of the window round `p`.
pub open spec fn window_at(p: Loc, n: int) -> Loc {
    Loc(window_x(p.0 as int, n) as u8, window_y(p.1 as int, n) as u8)
}

/// The places beside `p` among the places `0..n` of the window round
/// `p`.
pub open spec fn ring_upto(p: Loc, n: int) -> Seq<Loc> {
    spots_upto(p.0 as int, p.1 as int, 256, 256, n, loc_of())
}

/// The places around `p`, row by row.
pub open spec fn ring(p: Loc) -> Seq<Loc> {
    ring_upto(p, 9)
}

/// `q` is not `p` and no more than one column and one row away.
pub open spec fn near(p: Loc, q: Loc) -> bool {
    q != p && -1 <= q.0 - p.0 <= 1 && -1 <= q.1 - p.1 <= 1
}

/// The four places one step above, left, below and right of `p`, in
/// that order; where a step would leave the range of a coordinate it is
/// not taken, so that `p` itself stands in its place.
pub open spec fn cross(p: Loc) -> Seq<Loc> {
    seq![
        Loc(p.0, edge_low(p.1)),
        Loc(edge_low(p.0), p.1),
        Loc(p.0, edge_high(p.1)),
        Loc(edge_high(p.0), p.1),
    ]
}

/// A place as text: `(3, 14)`.
pub open spec fn loc_text(l: Loc) -> Seq<char> {
    seq!['('] + decimal(l.0) + seq![',', ' '] + decimal(l.1) + seq![')']
}

impl Loc {
    /// The place as text: `(3, 14)`.
    pub fn to_text(&self) -> (s: String)
        ensures
            s@ == loc_text(*self),
    {
        let mut s = String::new();
        s.push('(');
        push_decimal(&mut s, self.0);
        s.push(',');
        s.push(' ');
        push_decimal(&mut s, self.1);
        s.push(')');
        assert(s@ =~= loc_text(*self));
        s
    }

    /// The place in column `x` of row `y`.
    pub fn new(x: u8, y: u8) -> (l: Self)
        ensures
            l == Loc(x, y),
    {
        Loc(x, y)
    }

    /// The place with column `x` and row `y`, each cut down to 255 if
    /// it is larger.
    pub fn from(x: usize, y: usize) -> (l: Self)
        ensures
            l.0 == if x > 255 {
                255
            } else {
                x
            },
            l.1 == if y > 255 {
                255
            } else {
                y
            },
    {
        let (x, y) = (
            if x > 255 {
                255
            } else {
                x
            },
            if y > 255 {
                255
            } else {
                y
            },
        );
        Loc(x as u8, y as u8)
    }

    /// The span of values one step round `v`.
    fn edge(v: u8) -> (r: (u8, u8))
        ensures
            r.0 == edge_low(v),
            r.1 == edge_high(v),
    {
        let mut mx: u8 = u8::MAX;
        let mut mi: u8 = 0;
        if v > 0 {
            mi = v - 1;
        }
        if v < u8::MAX {
            mx = v + 1;
        }
        (mi, mx)
    }

    /// The places around this one, row by row: eight of them, or fewer
    /// where a coordinate is 0 or 255.
    pub fn get_around(&self) -> (ls: Locs)
        ensures
            ls@ == ring(*self),
    {
        let Loc(x, y) = *self;
        let mut ls = Locs::new();
        let (ylo, yhi) = Self::edge(y);
        let (xlo, xhi) = Self::edge(x);
        proof {
            assert(ring_upto(*self, 0) =~= Seq::empty());
            if y == 0 {
                assert(!beside(*self, 0) && !beside(*self, 1) && !beside(*self, 2));
                assert(ring_upto(*self, 1) == ring_upto(*self, 0));
                assert(ring_upto(*self, 2) == ring_upto(*self, 1));
                assert(ring_upto(*self, 3) == ring_upto(*self, 2));
            }
        }
        let mut ty: u16 = ylo as u16;
        while ty <= yhi as u16
            invariant
                *self == Loc(x, y),
                ylo == edge_low(y),
                yhi == edge_high(y),
                xlo == edge_low(x),
                xhi == edge_high(x),
                ylo <= ty <= yhi + 1,
                ls@ == ring_upto(*self, 3 * (ty - y + 1)),
            decreases yhi + 1 - ty,
        {
            let ghost row = 3 * (ty - y + 1);
            proof {
                if x == 0 {
                    assert(!beside(*self, row));
                    assert(ring_upto(*self, row + 1) == ring_upto(*self, row));
                }
            }
            let mut tx: u16 = xlo as u16;
            while tx <= xhi as u16
                invariant
                    *self == Loc(x, y),
                    xlo == edge_low(x),
                    xhi == edge_high(x),
                    ylo <= ty <= yhi,
                    ylo == edge_low(y),
                    yhi == edge_high(y),
                    xlo <= tx <= xhi + 1,
                    row == 3 * (ty - y + 1),
                    ls@ == ring_upto(*self, row + (tx - x + 1)),
                decreases xhi + 1 - tx,
            {
                let ghost n = row + (tx - x + 1);
                proof {
                    assert(window_x(x as int, n) == tx);
                    assert(window_y(y as int, n) == ty);
                    assert(ring_upto(*self, n + 1) == if beside(*self, n) {
                        ring_upto(*self, n).push(window_at(*self, n))
                    } else {
                        ring_upto(*self, n)
                    });
                }
                if tx != x as u16 || ty != y as u16 {
                    ls.push(Loc(tx as u8, ty as u8));
                }
                tx += 1;
            }
            proof {
                if xhi == x {
                    assert(!beside(*self, row + 2));
                    assert(ring_upto(*self, row + 3) == ring_upto(*self, row + 2));
                }
            }
            ty += 1;
        }
        proof {
            if yhi == y {
                assert(!beside(*self, 6) && !beside(*self, 7) && !beside(*self, 8));
                assert(ring_upto(*self, 7) == ring_upto(*self, 6));
                assert(ring_upto(*self, 8) == ring_upto(*self, 7));
                assert(ring_upto(*self, 9) == ring_upto(*self, 8));
            }
        }
        ls
    }

    /// The four places one step above, left, below and right of this
    /// one, in that order.
    pub fn get_nearby(&self) -> (ls: Locs)
        ensures
            ls@ == cross(*self),
    {
        let Loc(x, y) = *self;
        let (ylo, yhi) = Self::edge(y);
        let (xlo, xhi) = Self::edge(x);
        let mut ls = Locs::new();
        ls.push(Loc(x, ylo));
        ls.push(Loc(xlo, y));
        ls.push(Loc(x, yhi));
        ls.push(Loc(xhi, y));
        assert(ls@ =~= cross(*self));
        ls
    }
}

/// The places around `p` are the places near `p`, each once, and there
/// are no more than eight.
pub proof fn lemma_ring(p: Loc)
    ensures
        forall|q: Loc| #[trigger] ring(p).contains(q) <==> near(p, q),
        ring(p).no_duplicates(),
        ring(p).len() <= 8,
{
    let (x, y) = (p.0 as int, p.1 as int);
    assert(apart(loc_of()));
    lemma_spots_upto(x, y, 256, 256, 9, loc_of());
    assert forall|q: Loc| #[trigger] ring(p).contains(q) <==> near(p, q) by {
        lemma_spot_near(x, y, 256, 256, q.0 as int, q.1 as int);
        if ring(p).contains(q) {
            let m = choose|m: int|
                0 <= m < 9 && #[trigger] spot(x, y, 256, 256, m) && loc_of()(
                    window_x(x, m),
                    window_y(y, m),
                ) == q;
            assert(window_x(x, m) == q.0 && window_y(y, m) == q.1);
        }
        if near(p, q) {
            let m = choose|m: int|
                0 <= m < 9 && #[trigger] spot(x, y, 256, 256, m) && window_x(x, m) == q.0
                    && window_y(y, m) == q.1;
            assert(loc_of()(window_x(x, m), window_y(y, m)) == q);
        }
    }
}

} // verus!
