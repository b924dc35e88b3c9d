//! A place on the position-addressed board, and the places next to it.

use crate::text::{decimal, push_decimal};
use smallvec::SmallVec;
use vstd::prelude::*;

verus! {

/// Column and row of a cell.
#[derive(Clone, Copy, Debug, PartialEq, Eq, Structural, Hash)]
pub struct Position(pub u8, pub u8);

/// A short list of positions, kept in a `smallvec::SmallVec` that holds
/// up to eight of them in place.
#[verifier::external_body]
pub struct Positions {
    items: SmallVec<[Position; 8]>,
}

/// The positions that a list holds, in order.
pub uninterp spec fn position_items(v: Positions) -> Seq<Position>;

impl View for Positions {
    type V = Seq<Position>;

    open spec fn view(&self) -> Seq<Position> {
        position_items(*self)
    }
}

impl Positions {
    /// `SmallVec::new` makes a list without items.
    #[verifier::external_body]
    pub(crate) fn new() -> (v: Self)
        ensures
            position_items(v) == Seq::<Position>::empty(),
    {
        Positions { items: SmallVec::new() }
    }

    /// `SmallVec::push` puts one item behind those that the list holds.
    #[verifier::external_body]
    pub(crate) fn push(&mut self, p: Position)
        ensures
            position_items(*final(self)) == position_items(*old(self)).push(p),
    {
        self.items.push(p)
    }

    /// `SmallVec::append` moves the items of `other` behind those of
    /// `self`, in their order, and leaves `other` without items.
    #[verifier::external_body]
    pub(crate) fn append(&mut self, other: &mut Positions)
        ensures
            position_items(*final(self)) == position_items(*old(self)) + position_items(
                *old(other),
            ),
            position_items(*final(other)) == Seq::<Position>::empty(),
    {
        self.items.append(&mut other.items)
    }

    /// `SmallVec::as_slice` lends the items as a slice, in their order.
    #[verifier::external_body]
    pub(crate) fn as_slice(&self) -> (s: &[Position])
        ensures
            s@ == position_items(*self),
    {
        self.items.as_slice()
    }

    /// Number of positions in the list.
    pub fn len(&self) -> (n: usize)
        ensures
            n == self@.len(),
    {
        self.as_slice().len()
    }

    /// Whether the list holds no position.
    pub fn is_empty(&self) -> (r: bool)
        ensures
            r == (self@.len() == 0),
    {
        self.as_slice().len() == 0
    }

    /// The position at place `i` of the list.
    pub fn get(&self, i: usize) -> (r: Option<Position>)
        ensures
            r == if i < self@.len() {
                Some(self@[i as int])
            } else {
                None
            },
    {
        let s = self.as_slice();
        if i < s.len() {
            Some(s[i])
        } else {
            None
        }
    }

    /// Whether the list holds `p`.
    pub fn contains(&self, p: Position) -> (r: bool)
        ensures
            r == self@.contains(p),
    {
        let s = self.as_slice();
        let mut i: usize = 0;
        while i < s.len()
            invariant
                i <= s@.len(),
                s@ == self@,
                forall|n: int| 0 <= n < i ==> s@[n] != p,
            decreases s@.len() - i,
        {
            if s[i] == p {
                return true;
            }
            i += 1;
        }
        false
    }

    /// The positions of the list as a vector, in their order.
    pub fn to_vec(&self) -> (r: Vec<Position>)
        ensures
            r@ == self@,
    {
        let s = self.as_slice();
        let mut r: Vec<Position> = Vec::new();
        let mut i: usize = 0;
        while i < s.len()
            invariant
                i <= s@.len(),
                s@ == self@,
                r@ == s@.take(i as int),
            decreases s@.len() - i,
        {
            r.push(s[i]);
            assert(s@.take(i + 1) =~= s@.take(i as int).push(s@[i as int]));
            i += 1;
        }
        assert(s@.take(s@.len() as int) =~= s@);
        r
    }
}

/// Column of place `n` of the three by three window round `(x, y)`,
/// the places counted row by row.
pub open spec fn window_x(x: int, n: int) -> int {
    x - 1 + n % 3
}

/// Row of place `n` of the window round `(x, y)`.
pub open spec fn window_y(y: int, n: int) -> int {
    y - 1 + n / 3
}

/// Place `n` of the window round `(x, y)` is not `(x, y)` itself and
/// has a column below `lx` and a row below `ly`.
pub open spec fn spot(x: int, y: int, lx: int, ly: int, n: int) -> bool {
    n != 4 && 0 <= window_x(x, n) < lx && 0 <= window_y(y, n) < ly
}

/// What `make` makes of the places `0..n` of the window round `(x, y)`
/// that lie beside `(x, y)` within the limits, in their order.
pub open spec fn spots_upto<T>(
    x: int,
    y: int,
    lx: int,
    ly: int,
    n: int,
    make: spec_fn(int, int) -> T,
) -> Seq<T>
    decreases n,
{
    if n <= 0 {
        Seq::empty()
    } else if spot(x, y, lx, ly, n - 1) {
        spots_upto(x, y, lx, ly, n - 1, make).push(make(window_x(x, n - 1), window_y(y, n - 1)))
    } else {
        spots_upto(x, y, lx, ly, n - 1, make)
    }
}

/// `make` makes different things of different columns and rows from 0
/// to 255.
pub open spec fn apart<T>(make: spec_fn(int, int) -> T) -> bool {
    forall|a: int, b: int, c: int, d: int|
        0 <= a < 256 && 0 <= b < 256 && 0 <= c < 256 && 0 <= d < 256 && #[trigger] make(a, b)
            == #[trigger] make(c, d) ==> a == c && b == d
}

/// The position in column `a` of row `b`.
pub open spec fn position_of() -> spec_fn(int, int) -> Position {
    |a: int, b: int| Position(a as u8, b as u8)
}

/// Place `n` of the window round `p` is not `p` itself and lies within
/// the limits `l`.
pub open spec fn beside(p: Position, l: Position, n: int) -> bool {
    spot(p.0 as int, p.1 as int, l.0 as int, l.1 as int, n)
}

/// The position at place `n` of the window round `p`.
pub open spec fn window_at(p: Position, n: int) -> Position {
    Position(window_x(p.0 as int, n) as u8, window_y(p.1 as int, n) as u8)
}

/// The positions at the places `0..n` of the window round `p` that lie
/// beside `p` within the limits `l`.
pub open spec fn ring_upto(p: Position, l: Position, n: int) -> Seq<Position> {
    spots_upto(p.0 as int, p.1 as int, l.0 as int, l.1 as int, n, position_of())
}

/// The positions around `p` within the limits `l`, row by row; none if
/// `p` itself lies outside the limits.
pub open spec fn ring(p: Position, l: Position) -> Seq<Position> {
    if p.0 >= l.0 || p.1 >= l.1 {
        Seq::empty()
    } else {
        ring_upto(p, l, 9)
    }
}

/// `q` lies within the limits `l`, is not `p`, and is no more than one
/// column and one row away from `p`.
pub open spec fn near(p: Position, q: Position, l: Position) -> bool {
    &&& q != p
    &&& q.0 < l.0
    &&& q.1 < l.1
    &&& -1 <= q.0 - p.0 <= 1
    &&& -1 <= q.1 - p.1 <= 1
}

/// The lower end of the span round `v`: one below, or `v` at zero.
pub open spec fn span_low(v: u8) -> u8 {
    if v > 0 {
        (v - 1) as u8
    } else {
        0
    }
}

/// The upper end of the span round `v` under the limit `max`: one
/// above, or `v` where that would reach the limit.
pub open spec fn span_high(v: u8, max: u8) -> u8 {
    if v + 1 < max {
        (v + 1) as u8
    } else {
        v
    }
}

/// The positions straight above and below and left and right of `p`
/// that the spans round its row and column reach, in that order.
pub open spec fn cross(p: Position, l: Position) -> Seq<Position> {
    let up = if p.1 > 0 {
        seq![Position(p.0, (p.1 - 1) as u8)]
    } else {
        Seq::empty()
    };
    let down = if p.1 + 1 < l.1 {
        seq![Position(p.0, (p.1 + 1) as u8)]
    } else {
        Seq::empty()
    };
    let left = if p.0 > 0 {
        seq![Position((p.0 - 1) as u8, p.1)]
    } else {
        Seq::empty()
    };
    let right = if p.0 + 1 < l.0 {
        seq![Position((p.0 + 1) as u8, p.1)]
    } else {
        Seq::empty()
    };
    up + down + left + right
}

/// A position as text: `(x:3, y:14)`.
pub open spec fn position_text(p: Position) -> Seq<char> {
    seq!['(', 'x', ':'] + decimal(p.0) + seq![',', ' ', 'y', ':'] + decimal(p.1) + seq![')']
}

impl Position {
    /// The position as text: `(x:3, y:14)`.
    pub fn to_text(&self) -> (s: String)
        ensures
            s@ == position_text(*self),
    {
        let mut s = String::new();
        s.push('(');
        s.push('x');
        s.push(':');
        push_decimal(&mut s, self.0);
        s.push(',');
        s.push(' ');
        s.push('y');
        s.push(':');
        push_decimal(&mut s, self.1);
        s.push(')');
        assert(s@ =~= position_text(*self));
        s
    }

    /// The span of values one step round `v` that stay below `max`.
    fn limit(v: u8, max: u8) -> (r: (u8, u8))
        ensures
            r.0 == span_low(v),
            r.1 == span_high(v, max),
    {
        let mut mx: u8 = v;
        let mut mi: u8 = 0;
        if v > 0 {
            mi = v - 1;
        }
        if v < 255 && v + 1 < max {
            mx = v + 1;
        }
        (mi, mx)
    }

    /// The positions around this one within the limits `lim`, row by
    /// row: at least three and at most eight on a board of two by two or
    /// more, and none if this position lies outside the limits.
    pub fn get_around(self, lim: Position) -> (ls: Positions)
        ensures
            ls@ == ring(self, lim),
    {
        let Position(mx, my) = lim;
        let Position(x, y) = self;
        let mut ls = Positions::new();
        if x >= mx || y >= my {
            return ls;
        }
        let (ylo, yhi) = Self::limit(y, my);
        let (xlo, xhi) = Self::limit(x, mx);
        proof {
            assert(ring_upto(self, lim, 0) =~= Seq::empty());
            if y == 0 {
                assert(!beside(self, lim, 0) && !beside(self, lim, 1) && !beside(self, lim, 2));
                assert(ring_upto(self, lim, 1) == ring_upto(self, lim, 0));
                assert(ring_upto(self, lim, 2) == ring_upto(self, lim, 1));
                assert(ring_upto(self, lim, 3) == ring_upto(self, lim, 2));
            }
        }
        let mut ty: u16 = ylo as u16;
        while ty <= yhi as u16
            invariant
                x < mx,
                y < my,
                self == Position(x, y),
                lim == Position(mx, my),
                ylo == span_low(y),
                yhi == span_high(y, my),
                xlo == span_low(x),
                xhi == span_high(x, mx),
                ylo <= ty <= yhi + 1,
                ls@ == ring_upto(self, lim, 3 * (ty - y + 1)),
            decreases yhi + 1 - ty,
        {
            let ghost row = 3 * (ty - y + 1);
            proof {
                if x == 0 {
                    assert(!beside(self, lim, row));
                    assert(ring_upto(self, lim, row + 1) == ring_upto(self, lim, row));
                }
            }
            let mut tx: u16 = xlo as u16;
            while tx <= xhi as u16
                invariant
                    x < mx,
                    y < my,
                    self == Position(x, y),
                    lim == Position(mx, my),
                    xlo == span_low(x),
                    xhi == span_high(x, mx),
                    ylo <= ty <= yhi,
                    ylo == span_low(y),
                    yhi == span_high(y, my),
                    xlo <= tx <= xhi + 1,
                    row == 3 * (ty - y + 1),
                    ls@ == ring_upto(self, lim, row + (tx - x + 1)),
                decreases xhi + 1 - tx,
            {
                let ghost n = row + (tx - x + 1);
                proof {
                    assert(window_x(x as int, n) == tx);
                    assert(window_y(y as int, n) == ty);
                    assert(ring_upto(self, lim, n + 1) == if beside(self, lim, n) {
                        ring_upto(self, lim, n).push(window_at(self, n))
                    } else {
                        ring_upto(self, lim, n)
                    });
                }
                if tx != x as u16 || ty != y as u16 {
                    ls.push(Position(tx as u8, ty as u8));
                }
                tx += 1;
            }
            proof {
                if xhi == x {
                    assert(!beside(self, lim, row + 2));
                    assert(ring_upto(self, lim, row + 3) == ring_upto(self, lim, row + 2));
                }
            }
            ty += 1;
        }
        proof {
            if yhi == y {
                assert(!beside(self, lim, 6) && !beside(self, lim, 7) && !beside(self, lim, 8));
                assert(ring_upto(self, lim, 7) == ring_upto(self, lim, 6));
                assert(ring_upto(self, lim, 8) == ring_upto(self, lim, 7));
                assert(ring_upto(self, lim, 9) == ring_upto(self, lim, 8));
            }
        }
        ls
    }

    /// The positions one step above, below, left and right of this one,
    /// in that order, as far as they stay at or above zero and below the
    /// limits `lim`: at least two and at most four on a board of two by
    /// two or more.
    pub fn get_nearby(self, lim: Position) -> (ls: Positions)
        ensures
            ls@ == cross(self, lim),
    {
        let Position(mx, my) = lim;
        let Position(x, y) = self;
        let mut ls = Positions::new();
        let (ylo, yhi) = Self::limit(y, my);
        let (xlo, xhi) = Self::limit(x, mx);
        if ylo != y {
            ls.push(Position(x, ylo));
        }
        if yhi != y {
            ls.push(Position(x, yhi));
        }
        if xlo != x {
            ls.push(Position(xlo, y));
        }
        if xhi != x {
            ls.push(Position(xhi, y));
        }
        assert(ls@ =~= cross(self, lim));
        ls
    }
}

/// What the first `n` places of the window give: what `make` makes of
/// the places beside `(x, y)`, each once.
pub proof fn lemma_spots_upto<T>(
    x: int,
    y: int,
    lx: int,
    ly: int,
    n: int,
    make: spec_fn(int, int) -> T,
)
    requires
        0 <= n <= 9,
        lx <= 256,
        ly <= 256,
        apart(make),
    ensures
        forall|q: T|
            spots_upto(x, y, lx, ly, n, make).contains(q) <==> exists|m: int|
                0 <= m < n && #[trigger] spot(x, y, lx, ly, m) && make(
                    window_x(x, m),
                    window_y(y, m),
                ) == q,
        spots_upto(x, y, lx, ly, n, make).no_duplicates(),
        spots_upto(x, y, lx, ly, n, make).len() <= n,
        n >= 5 ==> spots_upto(x, y, lx, ly, n, make).len() <= n - 1,
    decreases n,
{
    if n > 0 {
        lemma_spots_upto(x, y, lx, ly, n - 1, make);
        let before = spots_upto(x, y, lx, ly, n - 1, make);
        let now = spots_upto(x, y, lx, ly, n, make);
        if spot(x, y, lx, ly, n - 1) {
            let last = make(window_x(x, n - 1), window_y(y, n - 1));
            assert(now == before.push(last));
            assert forall|q: T| now.contains(q) <==> exists|m: int|
                0 <= m < n && #[trigger] spot(x, y, lx, ly, m) && make(
                    window_x(x, m),
                    window_y(y, m),
                ) == q by {
                if now.contains(q) {
                    let i = choose|i: int| 0 <= i < now.len() && now[i] == q;
                    if i < before.len() {
                        assert(before[i] == q);
                        assert(before.contains(q));
                        let m = choose|m: int|
                            0 <= m < n - 1 && #[trigger] spot(x, y, lx, ly, m) && make(
                                window_x(x, m),
                                window_y(y, m),
                            ) == q;
                        assert(0 <= m < n && spot(x, y, lx, ly, m));
                    } else {
                        assert(spot(x, y, lx, ly, n - 1) && last == q);
                    }
                }
                if exists|m: int|
                    0 <= m < n && #[trigger] spot(x, y, lx, ly, m) && make(
                        window_x(x, m),
                        window_y(y, m),
                    ) == q {
                    let m = choose|m: int|
                        0 <= m < n && #[trigger] spot(x, y, lx, ly, m) && make(
                            window_x(x, m),
                            window_y(y, m),
                        ) == q;
                    if m < n - 1 {
                        assert(before.contains(q));
                        let i = choose|i: int| 0 <= i < before.len() && before[i] == q;
                        assert(now[i] == q);
                    } else {
                        assert(now[before.len() as int] == q);
                    }
                }
            }
            assert(!before.contains(last)) by {
                if before.contains(last) {
                    let m = choose|m: int|
                        0 <= m < n - 1 && #[trigger] spot(x, y, lx, ly, m) && make(
                            window_x(x, m),
                            window_y(y, m),
                        ) == last;
                    assert(make(window_x(x, m), window_y(y, m)) == make(
                        window_x(x, n - 1),
                        window_y(y, n - 1),
                    ));
                    assert(window_x(x, m) == window_x(x, n - 1));
                    assert(window_y(y, m) == window_y(y, n - 1));
                }
            }
            assert forall|i: int, j: int|
                0 <= i < now.len() && 0 <= j < now.len() && i != j implies now[i] != now[j] by {
                if i < before.len() && j < before.len() {
                    assert(before[i] != before[j]);
                } else if i < before.len() {
                    assert(before.contains(before[i]));
                } else {
                    assert(before.contains(before[j]));
                }
            }
        } else {
            assert forall|q: T| now.contains(q) <==> exists|m: int|
                0 <= m < n && #[trigger] spot(x, y, lx, ly, m) && make(
                    window_x(x, m),
                    window_y(y, m),
                ) == q by {
                if now.contains(q) {
                    let m = choose|m: int|
                        0 <= m < n - 1 && #[trigger] spot(x, y, lx, ly, m) && make(
                            window_x(x, m),
                            window_y(y, m),
                        ) == q;
                    assert(0 <= m < n && spot(x, y, lx, ly, m));
                }
                if exists|m: int|
                    0 <= m < n && #[trigger] spot(x, y, lx, ly, m) && make(
                        window_x(x, m),
                        window_y(y, m),
                    ) == q {
                    let m = choose|m: int|
                        0 <= m < n && #[trigger] spot(x, y, lx, ly, m) && make(
                            window_x(x, m),
                            window_y(y, m),
                        ) == q;
                    assert(m < n - 1);
                }
            }
        }
    }
}

/// The places beside `(x, y)` are the columns and rows within the
/// limits that are no more than one step away and not `(x, y)` itself.
pub proof fn lemma_spot_near(x: int, y: int, lx: int, ly: int, a: int, b: int)
    ensures
        (exists|m: int|
            0 <= m < 9 && #[trigger] spot(x, y, lx, ly, m) && window_x(x, m) == a && window_y(y, m)
                == b) <==> (!(a == x && b == y) && 0 <= a < lx && 0 <= b < ly && -1 <= a - x <= 1
            && -1 <= b - y <= 1),
{
    if !(a == x && b == y) && 0 <= a < lx && 0 <= b < ly && -1 <= a - x <= 1 && -1 <= b - y <= 1 {
        let m = 3 * (b - y + 1) + (a - x + 1);
        assert(window_x(x, m) == a);
        assert(window_y(y, m) == b);
        assert(spot(x, y, lx, ly, m));
    }
}

/// The positions around `p` are the positions near `p`, each once, and
/// there are no more than eight.
pub proof fn lemma_ring(p: Position, l: Position)
    ensures
        forall|q: Position| #[trigger] ring(p, l).contains(q) <==> p.0 < l.0 && p.1 < l.1 && near(p, q, l),
        ring(p, l).no_duplicates(),
        ring(p, l).len() <= 8,
{
    let (x, y, lx, ly) = (p.0 as int, p.1 as int, l.0 as int, l.1 as int);
    if p.0 < l.0 && p.1 < l.1 {
        assert(apart(position_of()));
        lemma_spots_upto(x, y, lx, ly, 9, position_of());
        assert forall|q: Position| #[trigger] ring(p, l).contains(q) <==> near(p, q, l) by {
            lemma_spot_near(x, y, lx, ly, q.0 as int, q.1 as int);
            if ring(p, l).contains(q) {
                let m = choose|m: int|
                    0 <= m < 9 && #[trigger] spot(x, y, lx, ly, m) && position_of()(
                        window_x(x, m),
                        window_y(y, m),
                    ) == q;
                assert(window_x(x, m) == q.0 && window_y(y, m) == q.1);
            }
            if near(p, q, l) {
                let m = choose|m: int|
                    0 <= m < 9 && #[trigger] spot(x, y, lx, ly, m) && window_x(x, m) == q.0
                        && window_y(y, m) == q.1;
                assert(position_of()(window_x(x, m), window_y(y, m)) == q);
            }
        }
    } else {
        assert forall|q: Position| !(#[trigger] ring(p, l).contains(q)) by {}
    }
}

} // verus!
