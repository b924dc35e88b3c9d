//! A plain board: a flat buffer of cells, addressed by column and row.

use crate::cell::{lemma_bumped, mine_of, warn_of, Cell, BIT_REVEAL, MINE};
use crate::chance::shuffle_bytes;
use crate::grid::{index_at, lemma_index};
use crate::layout::{
    fresh, in_zone, lemma_filled, lemma_shuffled, lemma_small, lemma_zone_room, lemma_zone_size,
    outside_full, zone_clear, zone_size,
};
use crate::location::{lemma_ring, near, ring, Loc};
use crate::mmap::{clear_zone, safe_index};
use crate::tally::{
    count_mines, lemma_tally_agree, lemma_tally_bounds, lemma_tally_ends, lemma_tally_update,
    mines, tally,
};
use crate::text::{digit, digit_of};
use rand::rngs::ThreadRng;
use rand::thread_rng;
use vstd::prelude::*;

verus! {

/// For each place around `l`, whether the board has a mine there among
/// its first `i` cells.
pub open spec fn mine_marks(cells: Seq<u8>, w: int, h: int, l: Loc, i: int) -> Seq<bool> {
    Seq::new(
        ring(l).len(),
        |n: int|
            match index_at(ring(l)[n].0 as int, ring(l)[n].1 as int, w, h) {
                Some(j) => j < i && mine_of(cells[j]),
                None => false,
            },
    )
}

/// Number of mines around the cell at `l`.
pub open spec fn mines_near(cells: Seq<u8>, w: int, h: int, l: Loc) -> int {
    tally(mine_marks(cells, w, h, l, w * h), ring(l).len() as int)
}

/// The place of cell `j` on a board `w` wide.
pub open spec fn loc_of(j: int, w: int) -> Loc {
    Loc((j % w) as u8, (j / w) as u8)
}

/// What holds while the warnings are counted: the cells before `i` have
/// been gone through, and for a mine at `i` the first `k` places
/// `around` it. A mine of the fresh board `base` holds its marker, and
/// every other cell holds one for every time a mine near it has come up.
pub open spec fn counting(
    cells: Seq<u8>,
    base: Seq<u8>,
    w: int,
    h: int,
    i: int,
    around: Seq<Loc>,
    k: int,
) -> bool {
    &&& cells.len() == w * h
    &&& base.len() == w * h
    &&& forall|j: int|
        0 <= j < w * h ==> #[trigger] cells[j] == if mine_of(base[j]) {
            9
        } else {
            tally(mine_marks(base, w, h, loc_of(j, w), i), ring(loc_of(j, w)).len() as int)
                + if among(around, k, loc_of(j, w)) {
                1int
            } else {
                0int
            }
        }
}

/// Whether `c` is among the first `k` places of `around`.
pub open spec fn among(around: Seq<Loc>, k: int, c: Loc) -> bool {
    exists|j: int| 0 <= j < k && #[trigger] around[j] == c
}

/// A board of one game.
pub struct MineMap {
    /// Number of mines that a shuffle lays out.
    pub count: u16,
    /// Number of columns.
    pub width: u8,
    /// Number of rows.
    pub height: u8,
    /// The cells, row after row.
    pub map: Vec<u8>,
}

impl MineMap {
    /// Number of cells of a board of this width and height.
    pub open spec fn size(&self) -> int {
        self.width as int * self.height as int
    }

    /// Index of the cell at `(x, y)`, if the board has one.
    pub open spec fn index(&self, x: int, y: int) -> Option<int> {
        index_at(x, y, self.width as int, self.height as int)
    }

    /// The buffer has one cell for every place of the board.
    pub open spec fn shaped(&self) -> bool {
        self.map@.len() == self.size()
    }

    /// A board of `width` by `height` cells, all zero, that will hold
    /// `count` mines once it is shuffled. Where `count` is zero or above
    /// the number of cells the board gets no cells at all.
    pub fn new(count: u16, width: u8, height: u8) -> (m: Self)
        ensures
            m.count == count,
            m.width == width,
            m.height == height,
            m.map@ == Seq::new(
                if count == 0 || width * height < count {
                    0nat
                } else {
                    (width * height) as nat
                },
                |j: int| 0u8,
            ),
    {
        assert(width as usize * height as usize <= 65025) by (nonlinear_arith)
            requires
                width <= 255,
                height <= 255,
        ;
        let cap = width as usize * height as usize;
        let cap = if count == 0 || cap < count as usize {
            0
        } else {
            cap
        };
        let m = Self { count, width, height, map: vec![0; cap] };
        assert(m.map@ =~= Seq::new(cap as nat, |j: int| 0u8));
        m
    }

    #[inline]
    fn get_index(&self, x: u8, y: u8) -> (r: Option<usize>)
        ensures
            match r {
                Some(i) => self.index(x as int, y as int) == Some(i as int) && i < self.size(),
                None => self.index(x as int, y as int) is None,
            },
    {
        if x < self.width && y < self.height {
            proof {
                lemma_index(x as int, y as int, self.width as int, self.height as int);
            }
            assert(self.width as usize * self.height as usize <= 65025) by (nonlinear_arith)
                requires
                    self.width <= 255,
                    self.height <= 255,
            ;
            Some((y as usize) * (self.width as usize) + (x as usize))
        } else {
            None
        }
    }

    #[inline]
    fn get_index_by_loc(&self, l: Loc) -> (r: Option<usize>)
        ensures
            match r {
                Some(i) => self.index(l.0 as int, l.1 as int) == Some(i as int) && i < self.size(),
                None => self.index(l.0 as int, l.1 as int) is None,
            },
    {
        self.get_index(l.0, l.1)
    }

    /// The cell at `(x, y)`, if the board has one and the buffer holds
    /// it.
    #[inline]
    pub fn get(&self, x: u8, y: u8) -> (r: Option<Cell>)
        ensures
            r == match self.index(x as int, y as int) {
                Some(i) => if i < self.map@.len() {
                    Some(Cell(self.map@[i]))
                } else {
                    None
                },
                None => None,
            },
    {
        match self.get_index(x, y) {
            Some(i) => if i < self.map.len() {
                Some(Cell(self.map[i]))
            } else {
                None
            },
            None => None,
        }
    }

    /// The cell at `l`, as `get` gives it.
    #[inline]
    pub fn get_by_loc(&self, l: Loc) -> (r: Option<Cell>)
        ensures
            r == match self.index(l.0 as int, l.1 as int) {
                Some(i) => if i < self.map@.len() {
                    Some(Cell(self.map@[i]))
                } else {
                    None
                },
                None => None,
            },
    {
        self.get(l.0, l.1)
    }

    /// Where the cell at `(x, y)` can be written, if the board has one
    /// and the buffer holds it.
    #[inline]
    fn get_mut(&self, x: u8, y: u8) -> (r: Option<usize>)
        ensures
            match r {
                Some(i) => self.held(x as int, y as int) == Some(i as int),
                None => self.held(x as int, y as int) is None,
            },
    {
        match self.get_index(x, y) {
            Some(i) => if i < self.map.len() {
                Some(i)
            } else {
                None
            },
            None => None,
        }
    }

    #[inline]
    fn get_mut_by_loc(&self, l: Loc) -> (r: Option<usize>)
        ensures
            match r {
                Some(i) => self.held(l.0 as int, l.1 as int) == Some(i as int),
                None => self.held(l.0 as int, l.1 as int) is None,
            },
    {
        self.get_mut(l.0, l.1)
    }

    /// The cell that `(x, y)` names in the buffer, if any.
    pub open spec fn held(&self, x: int, y: int) -> Option<int> {
        match self.index(x, y) {
            Some(i) => if i < self.map@.len() {
                Some(i)
            } else {
                None
            },
            None => None,
        }
    }

    /// Opens the cell at `(x, y)`, if there is one: its revealed bit is
    /// set, and nothing else of it changes.
    pub fn open(&mut self, x: u8, y: u8)
        ensures
            final(self).count == old(self).count,
            final(self).width == old(self).width,
            final(self).height == old(self).height,
            final(self).map@ == match old(self).held(x as int, y as int) {
                Some(i) => old(self).map@.update(i, old(self).map@[i] | 0x80),
                None => old(self).map@,
            },
    {
        if let Some(i) = self.get_mut(x, y) {
            let c = Cell(self.map[i]);
            let b = c.0;
            assert(b & 0x80 == 0x80 ==> b | 0x80 == b) by (bit_vector);
            assert(b & 0x80 != 0x80 ==> b ^ 0x80 == b | 0x80) by (bit_vector);
            if !c.is_reveal() {
                self.map[i] = c.0 ^ BIT_REVEAL;
            }
            assert(self.map@ =~= old(self).map@.update(i as int, b | 0x80));
        }
    }

    /// Opens the cell at `l`, as `open` does.
    pub fn open_by_loc(&mut self, l: Loc)
        ensures
            final(self).count == old(self).count,
            final(self).width == old(self).width,
            final(self).height == old(self).height,
            final(self).map@ == match old(self).held(l.0 as int, l.1 as int) {
                Some(i) => old(self).map@.update(i, old(self).map@[i] | 0x80),
                None => old(self).map@,
            },
    {
        self.open(l.0, l.1)
    }

    /// Switches the flag of the cell at `(x, y)`, if there is one.
    pub fn switch_flag(&mut self, x: u8, y: u8)
        ensures
            final(self).count == old(self).count,
            final(self).width == old(self).width,
            final(self).height == old(self).height,
            final(self).map@ == match old(self).held(x as int, y as int) {
                Some(i) => old(self).map@.update(i, old(self).map@[i] ^ 0x40),
                None => old(self).map@,
            },
    {
        if let Some(i) = self.get_mut(x, y) {
            let mut c = Cell(self.map[i]);
            c.switch_flag();
            self.map[i] = c.0;
        }
    }

    /// Switches the flag of the cell at `l`, as `switch_flag` does.
    pub fn switch_flag_by_loc(&mut self, l: Loc)
        ensures
            final(self).count == old(self).count,
            final(self).width == old(self).width,
            final(self).height == old(self).height,
            final(self).map@ == match old(self).held(l.0 as int, l.1 as int) {
                Some(i) => old(self).map@.update(i, old(self).map@[i] ^ 0x40),
                None => old(self).map@,
            },
    {
        self.switch_flag(l.0, l.1)
    }

    /// The glyph of the cell at `(x, y)`; none where the buffer does not
    /// hold the cell.
    pub open spec fn glyph(&self, x: int, y: int) -> Seq<char> {
        match self.held(x, y) {
            Some(i) => {
                let w = warn_of(self.map@[i]);
                if w > 8 {
                    seq![' ', '+']
                } else if w == 0 {
                    seq![' ', ' ']
                } else {
                    seq![' ', digit_of(w)]
                }
            },
            None => Seq::empty(),
        }
    }

    /// The drawing of the rows before `y` and of the first `x` cells of
    /// row `y`.
    pub open spec fn drawn(&self, y: int, x: int) -> Seq<char>
        decreases y, x,
    {
        if y < 0 || x < 0 || (y == 0 && x == 0) {
            Seq::empty()
        } else if x == 0 {
            self.drawn(y - 1, self.width as int).push('\n')
        } else {
            self.drawn(y, x - 1) + self.glyph(x - 1, y)
        }
    }

    /// Draws the board: for every cell of a row two characters, ` +` for
    /// a mine, blanks for zero, else a blank and the warning; a line
    /// feed ends every row.
    pub fn format_str(&self) -> (buf: String)
        ensures
            buf@ == self.drawn(self.height as int, 0),
    {
        let mut buf = String::new();
        let mut y: u16 = 0;
        while y < self.height as u16
            invariant
                y <= self.height,
                buf@ == self.drawn(y as int, 0),
            decreases self.height - y,
        {
            let mut x: u16 = 0;
            while x < self.width as u16
                invariant
                    y < self.height,
                    x <= self.width,
                    buf@ == self.drawn(y as int, x as int),
                decreases self.width - x,
            {
                let ghost before = buf@;
                if let Some(c) = self.get(x as u8, y as u8) {
                    buf.push(' ');
                    if c.is_mine() {
                        buf.push('+');
                    } else {
                        let w = c.get_warn();
                        if w == 0 {
                            buf.push(' ');
                        } else {
                            buf.push(digit(w));
                        }
                    }
                }
                assert(buf@ =~= before + self.glyph(x as int, y as int));
                x += 1;
            }
            buf.push('\n');
            y += 1;
        }
        buf
    }

    /// Lays the mines out anew, at random, and counts the warnings:
    /// afterwards the board holds `count` mines, each marked with the
    /// value 9, and every other cell holds the number of mines around
    /// it. The cell at `ignore` and the cells around it get no mine,
    /// unless every cell outside that zone holds one. Nothing is
    /// revealed or flagged afterwards.
    ///
    /// A board whose `count` is zero or above the number of cells is
    /// left as it is.
    #[verifier::rlimit(40)]
    pub fn shuffle(&mut self, ignore: Option<Loc>)
        requires
            old(self).count == 0 || old(self).size() < old(self).count || old(self).shaped(),
        ensures
            final(self).map@.len() == old(self).map@.len(),
            final(self).count == old(self).count,
            final(self).width == old(self).width,
            final(self).height == old(self).height,
            old(self).count == 0 || old(self).size() < old(self).count ==> final(self).map@
                == old(self).map@,
            !(old(self).count == 0 || old(self).size() < old(self).count) ==> {
                &&& count_mines(final(self).map@) == old(self).count
                &&& forall|j: int|
                    0 <= j < old(self).size() ==> #[trigger] final(self).map@[j] == if mine_of(
                        final(self).map@[j],
                    ) {
                        9
                    } else {
                        mines_near(
                            final(self).map@,
                            old(self).width as int,
                            old(self).height as int,
                            loc_of(j, old(self).width as int),
                        )
                    }
                &&& match safe_index(ignore, old(self).width as int, old(self).height as int) {
                    Some(c) => {
                        &&& zone_clear(
                            final(self).map@,
                            old(self).width as int,
                            old(self).height as int,
                            c,
                        ) || outside_full(
                            final(self).map@,
                            old(self).width as int,
                            old(self).height as int,
                            c,
                        )
                        &&& old(self).count + zone_size(
                            old(self).width as int,
                            old(self).height as int,
                            c,
                        ) <= old(self).size() ==> zone_clear(
                            final(self).map@,
                            old(self).width as int,
                            old(self).height as int,
                            c,
                        )
                        &&& old(self).count + 9 <= old(self).size() ==> zone_clear(
                            final(self).map@,
                            old(self).width as int,
                            old(self).height as int,
                            c,
                        )
                    },
                    None => true,
                }
            },
    {
        assert(self.width as usize * self.height as usize <= 65025) by (nonlinear_arith)
            requires
                self.width <= 255,
                self.height <= 255,
        ;
        let (w, h, c) = (self.width as usize, self.height as usize, self.count as usize);
        let map_size = w * h;
        if c == 0 || map_size < c {
            return ;
        }
        let mut j: usize = 0;
        while j < map_size
            invariant
                j <= map_size,
                map_size == self.size(),
                self.shaped(),
                c == self.count,
                self.count == old(self).count,
                self.width == old(self).width,
                self.height == old(self).height,
                forall|m: int|
                    0 <= m < j ==> #[trigger] self.map@[m] == if m < c {
                        9u8
                    } else {
                        0u8
                    },
            decreases map_size - j,
        {
            self.map[j] = if j < c {
                MINE
            } else {
                0
            };
            j += 1;
        }
        let ghost filled = self.map@;
        proof {
            lemma_filled(filled, c as int, map_size as int);
        }
        // the mines are spread by a shuffle of the whole buffer
        let mut rng = thread_rng();
        shuffle_bytes(&mut self.map, &mut rng);
        proof {
            lemma_shuffled(filled, self.map@);
        }
        self.spare(ignore, &mut rng);
        let ghost base = self.map@;
        let ghost wi = w as int;
        let ghost hi = h as int;
        let ghost none = Seq::<Loc>::empty();
        proof {
            lemma_small(0u8);
            lemma_small(9u8);
            assert forall|j: int| 0 <= j < wi * hi implies #[trigger] self.map@[j] == if mine_of(
                base[j],
            ) {
                9
            } else {
                tally(mine_marks(base, wi, hi, loc_of(j, wi), 0), ring(loc_of(j, wi)).len() as int)
                    + if among(none, 0, loc_of(j, wi)) {
                    1int
                } else {
                    0int
                }
            } by {
                let l = loc_of(j, wi);
                assert(base[j] == 0 || base[j] == 9);
                assert forall|n: int| 0 <= n < ring(l).len() implies !mine_marks(
                    base,
                    wi,
                    hi,
                    l,
                    0,
                )[n] by {
                    let r = ring(l)[n];
                    if index_at(r.0 as int, r.1 as int, wi, hi) is Some {
                        lemma_index(r.0 as int, r.1 as int, wi, hi);
                    }
                }
                lemma_tally_ends(mine_marks(base, wi, hi, l, 0), ring(l).len() as int);
                assert(!among(none, 0, l));
            }
        }
        let mut y: usize = 0;
        while y < h
            invariant
                y <= h,
                wi == w == self.width,
                hi == h == self.height,
                map_size == wi * hi,
                map_size <= 65025,
                self.count == old(self).count,
                self.width == old(self).width,
                self.height == old(self).height,
                fresh(base),
                none.len() == 0,
                counting(self.map@, base, wi, hi, y * wi, none, 0),
            decreases h - y,
        {
            let mut x: usize = 0;
            while x < w
                invariant
                    y < h,
                    x <= w,
                    wi == w == self.width,
                    hi == h == self.height,
                    map_size == wi * hi,
                    map_size <= 65025,
                    self.count == old(self).count,
                    self.width == old(self).width,
                    self.height == old(self).height,
                    fresh(base),
                    none.len() == 0,
                    counting(self.map@, base, wi, hi, y * wi + x, none, 0),
                decreases w - x,
            {
                let (xu8, yu8) = (x as u8, y as u8);
                let ghost i = y * wi + x;
                proof {
                    lemma_index(x as int, y as int, wi, hi);
                }
                let on = match self.get(xu8, yu8) {
                    Some(c) => c.is_mine(),
                    None => false,
                };
                proof {
                    let v = self.map@[i];
                    lemma_tally_bounds(
                        mine_marks(base, wi, hi, loc_of(i, wi), i),
                        ring(loc_of(i, wi)).len() as int,
                    );
                    lemma_ring(loc_of(i, wi));
                    assert(!among(none, 0, loc_of(i, wi)));
                    lemma_small(v);
                    lemma_small(9u8);
                    assert(on == mine_of(base[i]));
                }
                if on {
                    let l = Loc(xu8, yu8);
                    let around_list = l.get_around();
                    let around = around_list.as_slice();
                    proof {
                        lemma_ring(l);
                        assert forall|j: int| 0 <= j < wi * hi implies among(none, 0, loc_of(j, wi))
                            == among(around@, 0, loc_of(j, wi)) by {}
                    }
                    let mut k: usize = 0;
                    while k < around.len()
                        invariant
                            k <= around@.len(),
                            around@ == ring(l),
                            around@.no_duplicates(),
                            l == Loc(x as u8, y as u8),
                            x < w,
                            y < h,
                            i == y * wi + x,
                            0 <= i < wi * hi,
                            wi == w == self.width,
                            hi == h == self.height,
                            map_size == wi * hi,
                            map_size <= 65025,
                            self.count == old(self).count,
                            self.width == old(self).width,
                            self.height == old(self).height,
                            fresh(base),
                            counting(self.map@, base, wi, hi, i, around@, k as int),
                        decreases around@.len() - k,
                    {
                        let al = around[k];
                        let ghost prev = self.map@;
                        if let Some(ia) = self.get_mut_by_loc(al) {
                            proof {
                                lemma_ring(al);
                                lemma_index(al.0 as int, al.1 as int, wi, hi);
                                assert(loc_of(ia as int, wi) == al);
                                lemma_tally_bounds(
                                    mine_marks(base, wi, hi, al, i),
                                    ring(al).len() as int,
                                );
                                assert(!among(around@, k as int, al)) by {
                                    if among(around@, k as int, al) {
                                        let n = choose|n: int|
                                            0 <= n < k && #[trigger] around@[n] == al;
                                        assert(around@[n] == around@[k as int]);
                                    }
                                }
                                lemma_small(9u8);
                                lemma_small(prev[ia as int]);
                                lemma_bumped(prev[ia as int], true);
                                assert(mine_of(prev[ia as int]) == mine_of(base[ia as int]));
                            }
                            // a mine keeps its marker
                            let mut ac = Cell(self.map[ia]);
                            if !ac.is_mine() {
                                ac.bmp(true);
                                self.map[ia] = ac.0;
                                assert(self.map@ =~= prev.update(
                                    ia as int,
                                    (prev[ia as int] + 1) as u8,
                                ));
                            }
                        }
                        proof {
                            assert(prev.len() == wi * hi);
                            if index_at(al.0 as int, al.1 as int, wi, hi) is Some {
                                lemma_index(al.0 as int, al.1 as int, wi, hi);
                            }
                            lemma_step_counted(prev, self.map@, base, wi, hi, i, around@, k as int);
                        }
                        k += 1;
                    }
                    proof {
                        lemma_mine_counted(self.map@, base, wi, hi, i, l);
                    }
                } else {
                    proof {
                        lemma_plain_counted(self.map@, base, wi, hi, i);
                    }
                }
                x += 1;
            }
            proof {
                assert(y * wi + wi == (y + 1) * wi) by (nonlinear_arith);
            }
            y += 1;
        }
        proof {
            assert(h * wi == wi * hi) by (nonlinear_arith)
                requires
                    h == hi,
            ;
            lemma_all_counted(self.map@, base, wi, hi);
            match safe_index(ignore, wi, hi) {
                Some(c) => {
                    let cells = self.map@;
                    lemma_index(ignore.unwrap().0 as int, ignore.unwrap().1 as int, wi, hi);
                    if zone_clear(base, wi, hi, c) {
                        assert forall|j: int|
                            0 <= j < cells.len() && in_zone(c, j, wi, hi) implies !mine_of(
                            #[trigger] cells[j],
                        ) by {
                            assert(!mine_of(base[j]));
                        }
                    } else {
                        assert forall|j: int|
                            0 <= j < cells.len() && !in_zone(c, j, wi, hi) implies mine_of(
                            #[trigger] cells[j],
                        ) by {
                            assert(mine_of(base[j]));
                        }
                    }
                    lemma_zone_size(wi, hi, c);
                    if self.count + zone_size(wi, hi, c) <= map_size {
                        lemma_zone_room(cells, wi, hi, c);
                    }
                },
                None => {},
            }
        }
    }

    /// Keeps the first click safe: every mine on the cell at `ignore` or
    /// around it is moved to a cell outside that zone that holds no mine,
    /// drawn at random among all such cells. Where no such cell is left
    /// the mine stays.
    fn spare(&mut self, ignore: Option<Loc>, rng: &mut ThreadRng)
        requires
            old(self).shaped(),
            fresh(old(self).map@),
        ensures
            final(self).shaped(),
            final(self).count == old(self).count,
            final(self).width == old(self).width,
            final(self).height == old(self).height,
            fresh(final(self).map@),
            count_mines(final(self).map@) == count_mines(old(self).map@),
            match safe_index(ignore, old(self).width as int, old(self).height as int) {
                Some(c) => zone_clear(
                    final(self).map@,
                    old(self).width as int,
                    old(self).height as int,
                    c,
                ) || outside_full(
                    final(self).map@,
                    old(self).width as int,
                    old(self).height as int,
                    c,
                ),
                None => final(self).map@ == old(self).map@,
            },
    {
        let l = match ignore {
            Some(l) => l,
            None => {
                return ;
            },
        };
        let c = match self.get_index_by_loc(l) {
            Some(c) => c,
            None => {
                return ;
            },
        };
        assert(self.width as usize * self.height as usize <= 65025) by (nonlinear_arith)
            requires
                self.width <= 255,
                self.height <= 255,
        ;
        clear_zone(&mut self.map, self.width as usize, self.height as usize, c, rng);
    }
}

/// The place of a cell has that cell for its index.
pub proof fn lemma_loc_of(j: int, w: int, h: int)
    requires
        0 <= j < w * h,
        0 < w <= 255,
        0 < h <= 255,
    ensures
        index_at(loc_of(j, w).0 as int, loc_of(j, w).1 as int, w, h) == Some(j),
{
    crate::grid::lemma_coords(j, w, h);
}

/// A place that has `j` for its index is the place of cell `j`.
pub proof fn lemma_index_loc(l: Loc, j: int, w: int, h: int)
    requires
        index_at(l.0 as int, l.1 as int, w, h) == Some(j),
    ensures
        loc_of(j, w) == l,
        0 <= j < w * h,
{
    lemma_index(l.0 as int, l.1 as int, w, h);
}

/// One place around the mine at `i` has been gone through: the cell
/// there, if the board has it and it is no mine, has gone up by one.
pub proof fn lemma_step_counted(
    before: Seq<u8>,
    after: Seq<u8>,
    base: Seq<u8>,
    w: int,
    h: int,
    i: int,
    around: Seq<Loc>,
    k: int,
)
    requires
        counting(before, base, w, h, i, around, k),
        0 <= k < around.len(),
        around.no_duplicates(),
        0 < w <= 255,
        0 < h <= 255,
        after == match index_at(around[k].0 as int, around[k].1 as int, w, h) {
            Some(a) => if mine_of(base[a]) {
                before
            } else {
                before.update(a, (before[a] + 1) as u8)
            },
            None => before,
        },
        index_at(around[k].0 as int, around[k].1 as int, w, h) matches Some(a) ==> before[a] < 255,
    ensures
        counting(after, base, w, h, i, around, k + 1),
{
    let al = around[k];
    if index_at(al.0 as int, al.1 as int, w, h) is Some {
        lemma_index(al.0 as int, al.1 as int, w, h);
    }
    assert forall|j: int| 0 <= j < w * h implies #[trigger] after[j] == if mine_of(base[j]) {
        9
    } else {
        tally(mine_marks(base, w, h, loc_of(j, w), i), ring(loc_of(j, w)).len() as int)
            + if among(around, k + 1, loc_of(j, w)) {
            1int
        } else {
            0int
        }
    } by {
        let c = loc_of(j, w);
        lemma_loc_of(j, w, h);
        if c == al {
            assert(among(around, k + 1, c)) by {
                assert(around[k] == c);
            }
            assert(!among(around, k, c)) by {
                if among(around, k, c) {
                    let n = choose|n: int| 0 <= n < k && #[trigger] around[n] == c;
                    assert(around[n] == around[k]);
                }
            }
        } else {
            if index_at(al.0 as int, al.1 as int, w, h) is Some {
                lemma_index_loc(al, index_at(al.0 as int, al.1 as int, w, h).unwrap(), w, h);
            }
            if among(around, k + 1, c) {
                let n = choose|n: int| 0 <= n < k + 1 && #[trigger] around[n] == c;
                assert(n < k);
            }
            if among(around, k, c) {
                let n = choose|n: int| 0 <= n < k && #[trigger] around[n] == c;
                assert(0 <= n < k + 1);
            }
        }
    }
}

/// How the count of the mines around `c` that have come up changes when
/// the cell at `l`, cell `i` of the board, has been gone through: by one
/// if `l` is a mine near `c`, else not at all.
pub proof fn lemma_marks_grow(base: Seq<u8>, w: int, h: int, i: int, l: Loc, c: Loc)
    requires
        index_at(l.0 as int, l.1 as int, w, h) == Some(i),
        0 < w <= 255,
        0 < h <= 255,
    ensures
        tally(mine_marks(base, w, h, c, i + 1), ring(c).len() as int) == tally(
            mine_marks(base, w, h, c, i),
            ring(c).len() as int,
        ) + if mine_of(base[i]) && near(l, c) {
            1int
        } else {
            0int
        },
{
    let before = mine_marks(base, w, h, c, i);
    let after = mine_marks(base, w, h, c, i + 1);
    lemma_ring(c);
    lemma_index_loc(l, i, w, h);
    assert forall|n: int| 0 <= n < ring(c).len() && ring(c)[n] != l implies before[n]
        == after[n] by {
        let r = ring(c)[n];
        if index_at(r.0 as int, r.1 as int, w, h) is Some {
            lemma_index_loc(r, index_at(r.0 as int, r.1 as int, w, h).unwrap(), w, h);
        }
    }
    if mine_of(base[i]) && near(l, c) {
        assert(ring(c).contains(l));
        let n = choose|n: int| 0 <= n < ring(c).len() && ring(c)[n] == l;
        assert forall|m: int| 0 <= m < ring(c).len() && m != n implies before[m] == after[m] by {
            assert(ring(c)[m] != ring(c)[n]);
        }
        assert(!before[n] && after[n]);
        lemma_tally_update(before, after, n, ring(c).len() as int);
    } else {
        assert forall|n: int| 0 <= n < ring(c).len() implies before[n] == after[n] by {
            if ring(c)[n] == l {
                assert(ring(c).contains(l));
            }
        }
        lemma_tally_agree(before, after, ring(c).len() as int);
    }
}

/// All places around the mine at `i` have been gone through: the board
/// is as it is before cell `i + 1` is looked at.
pub proof fn lemma_mine_counted(cells: Seq<u8>, base: Seq<u8>, w: int, h: int, i: int, l: Loc)
    requires
        counting(cells, base, w, h, i, ring(l), ring(l).len() as int),
        index_at(l.0 as int, l.1 as int, w, h) == Some(i),
        mine_of(base[i]),
        0 < w <= 255,
        0 < h <= 255,
    ensures
        counting(cells, base, w, h, i + 1, Seq::<Loc>::empty(), 0),
{
    let none = Seq::<Loc>::empty();
    lemma_ring(l);
    assert forall|j: int| 0 <= j < w * h implies #[trigger] cells[j] == if mine_of(base[j]) {
        9
    } else {
        tally(mine_marks(base, w, h, loc_of(j, w), i + 1), ring(loc_of(j, w)).len() as int)
            + if among(none, 0, loc_of(j, w)) {
            1int
        } else {
            0int
        }
    } by {
        let c = loc_of(j, w);
        assert(!among(none, 0, c));
        if among(ring(l), ring(l).len() as int, c) {
            let n = choose|n: int| 0 <= n < ring(l).len() && #[trigger] ring(l)[n] == c;
            assert(ring(l).contains(c));
        }
        if ring(l).contains(c) {
            let n = choose|n: int| 0 <= n < ring(l).len() && ring(l)[n] == c;
            assert(among(ring(l), ring(l).len() as int, c));
        }
        lemma_marks_grow(base, w, h, i, l, c);
    }
}

/// A cell that is no mine has been looked at: nothing changes.
pub proof fn lemma_plain_counted(cells: Seq<u8>, base: Seq<u8>, w: int, h: int, i: int)
    requires
        counting(cells, base, w, h, i, Seq::<Loc>::empty(), 0),
        0 <= i < w * h,
        !mine_of(base[i]),
    ensures
        counting(cells, base, w, h, i + 1, Seq::<Loc>::empty(), 0),
{
    assert forall|j: int| 0 <= j < w * h implies tally(
        mine_marks(base, w, h, loc_of(j, w), i + 1),
        ring(loc_of(j, w)).len() as int,
    ) == tally(mine_marks(base, w, h, loc_of(j, w), i), ring(loc_of(j, w)).len() as int) by {
        lemma_tally_agree(
            mine_marks(base, w, h, loc_of(j, w), i + 1),
            mine_marks(base, w, h, loc_of(j, w), i),
            ring(loc_of(j, w)).len() as int,
        );
    }
}

/// When every cell has been looked at, the board holds the mines of
/// the fresh board, each with its marker, and in every other cell the
/// number of mines around it.
pub proof fn lemma_all_counted(cells: Seq<u8>, base: Seq<u8>, w: int, h: int)
    requires
        counting(cells, base, w, h, w * h, Seq::<Loc>::empty(), 0),
        fresh(base),
    ensures
        count_mines(cells) == count_mines(base),
        forall|j: int| 0 <= j < w * h ==> mine_of(#[trigger] cells[j]) == mine_of(base[j]),
        forall|j: int|
            0 <= j < w * h ==> #[trigger] cells[j] == if mine_of(cells[j]) {
                9
            } else {
                mines_near(cells, w, h, loc_of(j, w))
            },
{
    let none = Seq::<Loc>::empty();
    let size = w * h;
    lemma_small(9u8);
    assert forall|j: int| 0 <= j < w * h implies mine_of(#[trigger] cells[j]) == mine_of(
        base[j],
    ) by {
        let c = loc_of(j, w);
        lemma_ring(c);
        lemma_tally_bounds(mine_marks(base, w, h, c, size), ring(c).len() as int);
        assert(!among(none, 0, c));
        lemma_small(cells[j]);
    }
    lemma_tally_agree(mines(cells), mines(base), w * h);
    assert forall|j: int| 0 <= j < w * h implies #[trigger] cells[j] == if mine_of(cells[j]) {
        9
    } else {
        mines_near(cells, w, h, loc_of(j, w))
    } by {
        let c = loc_of(j, w);
        assert(!among(none, 0, c));
        assert(mine_of(cells[j]) == mine_of(base[j]));
        assert forall|n: int| 0 <= n < ring(c).len() implies mine_marks(cells, w, h, c, size)[n]
            == mine_marks(base, w, h, c, size)[n] by {
            let r = ring(c)[n];
            if index_at(r.0 as int, r.1 as int, w, h) is Some {
                let t = index_at(r.0 as int, r.1 as int, w, h).unwrap();
                lemma_index(r.0 as int, r.1 as int, w, h);
                assert(mine_of(cells[t]) == mine_of(base[t]));
            }
        }
        lemma_tally_agree(
            mine_marks(cells, w, h, c, size),
            mine_marks(base, w, h, c, size),
            ring(c).len() as int,
        );
    }
}

} // verus!
