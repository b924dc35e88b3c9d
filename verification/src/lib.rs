//! Board-state engine for a grid-based mine-detection puzzle.
//!
//! The crate root holds the board whose cells are addressed by position
//! and carry a guess; `mmap` holds the board with a flat buffer and
//! remembered regions, `map` a plain flat board.

pub mod cache;
pub mod cell;
pub mod chance;
pub mod grid;
pub mod layout;
pub mod location;
pub mod map;
pub mod mark;
pub mod mmap;
pub mod opening;
pub mod position;
pub mod region;
pub mod tally;
pub mod text;

use chance::random_below;
use mark::{high, lemma_nibbles, lemma_opened_kept, lemma_step, low, stepped, Mark};
use position::{lemma_ring, near, ring, Position, Positions};
use region::{lemma_pending_advance, lemma_pending_push, lemma_pending_turn, pending};
use rand::rngs::ThreadRng;
use rand::thread_rng;
use tally::{
    held, held_marks, lemma_held_both_ways, lemma_tally_agree, lemma_tally_bounds,
    lemma_tally_ends, lemma_tally_of_list, lemma_tally_room, lemma_tally_update, tally,
};
use text::digit;
use vstd::prelude::*;

verus! {

/// What is known of a slot while the board looks for an open area.
#[derive(Clone, Copy, PartialEq, Eq, Structural, Debug)]
pub enum SlotState {
    /// The cell is a mine or has a mine around it.
    Sth,
    /// The cell is no mine and has none around it.
    Empty,
    /// The cell has been taken into the area.
    Tagged,
}

/// Number of slots in a row of the board's storage.
pub const STRIDE: usize = 256;

/// Number of slots in the board's storage.
pub const SLOTS: usize = 65536;

/// Where the cell at `(x, y)` is kept.
pub open spec fn slot_of(x: int, y: int) -> int {
    y * 256 + x
}

/// The byte that `update_by` leaves behind for a mark `b` and a wanted
/// value `v`. The bits in which the two differ are looked at: the mark
/// is opened if the opened bit differs; its flag is switched if the
/// flag bit differs from how the flag now stands; and it takes a guess
/// if the guess bits differ by exactly that guess.
pub open spec fn updated(b: u8, v: u8) -> u8 {
    let d = b ^ v;
    let b1 = if d & 0x80 == 0x80 {
        b | 0x80
    } else {
        b
    };
    let b2 = if (d & 0x40 == 0x40) != (b1 & 0x40 == 0x40) {
        b1 ^ 0x40
    } else {
        b1
    };
    let b3 = if d & 0x30 == 0x10 && low(b2) <= 8 {
        b2 | 0x10
    } else {
        b2
    };
    if d & 0x30 == 0x20 {
        b3 | 0x20
    } else {
        b3
    }
}

/// `p` lies within the limits `l`.
pub open spec fn on_board(p: Position, l: Position) -> bool {
    p.0 < l.0 && p.1 < l.1
}

/// `p` is the position that a shuffle keeps free of mines, or lies
/// around it.
pub open spec fn in_zone(ignore: Option<Position>, l: Position, p: Position) -> bool {
    match ignore {
        Some(c) => p == c || ring(c, l).contains(p),
        None => false,
    }
}

/// Number of positions in the zone that a shuffle keeps free of mines,
/// not all of which need lie on the board.
pub open spec fn zone_len(ignore: Option<Position>, l: Position) -> int {
    match ignore {
        Some(c) => ring(c, l).len() as int + 1,
        None => 0,
    }
}

/// For each position of `ls`, whether `c` lies near it.
pub open spec fn near_marks(ls: Seq<Position>, c: Position, l: Position) -> Seq<bool> {
    Seq::new(ls.len(), |m: int| near(ls[m], c, l) && on_board(ls[m], l))
}

/// A warning that has been stepped up `n` times from zero.
pub open spec fn capped(n: int) -> int {
    if n > 15 {
        15
    } else {
        n
    }
}

/// Whether `c` is among the first `k` positions of `around`.
pub open spec fn among(around: Seq<Position>, k: int, c: Position) -> bool {
    exists|j: int| 0 <= j < k && #[trigger] around[j] == c
}

/// The position that is kept in slot `i`.
pub open spec fn pos_of(i: int) -> Position {
    Position((i % 256) as u8, (i / 256) as u8)
}

/// What lifting a mine makes of a byte: the cell of the mine takes the
/// number `w` of mines around it for its warning, and a cell near it
/// that is no mine has its warning stepped down.
pub open spec fn lifted_byte(b: u8, at: bool, beside: bool, w: u8) -> u8 {
    if at {
        high(b) | low(w)
    } else if beside && 0 < low(b) <= 8 {
        (b - 1) as u8
    } else {
        b
    }
}

/// What laying a mine makes of a byte: the cell of the mine takes the
/// warning 9, and a cell near it that is no mine has its warning
/// stepped up.
pub open spec fn settled_byte(b: u8, at: bool, beside: bool) -> u8 {
    if at {
        high(b) | 9
    } else if beside && low(b) <= 8 {
        (b + 1) as u8
    } else {
        b
    }
}

/// The bytes of a board after the mine at `p` has been lifted.
pub open spec fn lifted(bytes: Seq<u8>, l: Position, p: Position, w: u8) -> Seq<u8> {
    Seq::new(
        SLOTS as nat,
        |i: int| lifted_byte(bytes[i], pos_of(i) == p, near(p, pos_of(i), l), w),
    )
}

/// The bytes of a board after a mine has been laid at `q`.
pub open spec fn settled(bytes: Seq<u8>, l: Position, q: Position) -> Seq<u8> {
    Seq::new(SLOTS as nat, |i: int| settled_byte(bytes[i], pos_of(i) == q, near(q, pos_of(i), l)))
}

/// The cell kept in a byte can take a mine: it is neither opened nor a
/// mine.
pub open spec fn free_byte(b: u8) -> bool {
    b & 0x80 != 0x80 && low(b) <= 8
}

/// The slots of a grid of 256 rows of 256, row after row.
pub open spec fn flat<T>(g: Box<[[T; 256]; 256]>) -> Seq<T> {
    Seq::new(SLOTS as nat, |i: int| g@[i / 256]@[i % 256])
}

/// A board whose cells are addressed by position.
///
/// The marks and slot states are kept in 256 rows of 256 slots, whatever
/// the board's width and height; they are the board's own to keep.
pub struct MineMap {
    /// Number of mines that a shuffle lays out.
    pub count: u16,
    /// Number of columns.
    pub width: u8,
    /// Number of rows.
    pub height: u8,
    /// The marks, 256 rows of 256.
    pub map: Box<[[Mark; 256]; 256]>,
    /// For each slot, whether something is there.
    pub state_map: Box<[[SlotState; 256]; 256]>,
}

impl MineMap {
    /// The marks, slot by slot.
    pub open spec fn marks(&self) -> Seq<Mark> {
        flat(self.map)
    }

    /// The slot states, slot by slot.
    pub open spec fn states(&self) -> Seq<SlotState> {
        flat(self.state_map)
    }

    /// The byte of the mark at `(x, y)`.
    pub open spec fn byte(&self, x: int, y: int) -> u8 {
        self.marks()[slot_of(x, y)].0
    }

    /// The slot state at `(x, y)`.
    pub open spec fn state(&self, x: int, y: int) -> SlotState {
        self.states()[slot_of(x, y)]
    }

    /// The board has the cell `(x, y)`.
    pub open spec fn has(&self, x: int, y: int) -> bool {
        0 <= x < self.width && 0 <= y < self.height
    }

    /// What every operation expects of the board and keeps: a slot is
    /// marked empty exactly when its warning is zero, and none is tagged;
    /// and the slots beyond the board's width and height hold nothing.
    pub open spec fn wf(&self) -> bool {
        &&& forall|i: int|
            0 <= i < SLOTS ==> #[trigger] self.states()[i] == if low(self.marks()[i].0) == 0 {
                SlotState::Empty
            } else {
                SlotState::Sth
            }
        &&& forall|x: int, y: int|
            0 <= x < 256 && 0 <= y < 256 && !self.has(x, y) ==> low(
                #[trigger] self.marks()[slot_of(x, y)].0,
            ) == 0
    }

    /// Wipes the board: every mark zero, every slot empty.
    fn clean_up(&mut self)
        ensures
            final(self).wf(),
            final(self).count == old(self).count,
            final(self).width == old(self).width,
            final(self).height == old(self).height,
            forall|i: int| 0 <= i < SLOTS ==> (#[trigger] final(self).marks()[i]).0 == 0,
    {
        self.map = Box::new([[Mark(0); 256]; 256]);
        self.state_map = Box::new([[SlotState::Empty; 256]; 256]);
        proof {
            assert(low(0u8) == 0) by (bit_vector);
        }
    }

    /// A board of `width` by `height` cells that will hold `count` mines
    /// once it is shuffled; until then every mark is zero.
    pub fn from(count: u16, width: u8, height: u8) -> (m: Self)
        ensures
            m.wf(),
            m.count == count,
            m.width == width,
            m.height == height,
            forall|i: int| 0 <= i < SLOTS ==> (#[trigger] m.marks()[i]).0 == 0,
    {
        proof {
            assert(low(0u8) == 0) by (bit_vector);
        }
        Self {
            count,
            width,
            height,
            map: Box::new([[Mark(0); 256]; 256]),
            state_map: Box::new([[SlotState::Empty; 256]; 256]),
        }
    }

    /// The mark at `(x, y)`. The storage has a slot for every pair of
    /// coordinates, so there is a mark even beyond the board's width and
    /// height.
    pub fn get(&self, x: u8, y: u8) -> (m: &Mark)
        ensures
            m.0 == self.byte(x as int, y as int),
    {
        &self.map[y as usize][x as usize]
    }

    /// The mark at `p`, as `get` gives it.
    pub fn get_by_pos(&self, p: Position) -> (m: &Mark)
        ensures
            m.0 == self.byte(p.0 as int, p.1 as int),
    {
        self.get(p.0, p.1)
    }

    /// Where the cell at `(x, y)` is kept, if the board has it.
    fn get_mut(&self, x: u8, y: u8) -> (r: Option<usize>)
        ensures
            r == if self.has(x as int, y as int) {
                Some(slot_of(x as int, y as int) as usize)
            } else {
                None
            },
    {
        if x >= self.width || y >= self.height {
            None
        } else {
            Some(y as usize * STRIDE + x as usize)
        }
    }

    /// Where the cell at `p` is kept.
    #[inline]
    fn get_mut_by_pos(&self, p: Position) -> (r: usize)
        ensures
            r == slot_of(p.0 as int, p.1 as int),
    {
        p.1 as usize * STRIDE + p.0 as usize
    }

    /// The mark kept for the cell at `p`.
    #[inline]
    fn mark_at(&self, p: Position) -> (m: Mark)
        ensures
            m == self.marks()[slot_of(p.0 as int, p.1 as int)],
    {
        self.map[p.1 as usize][p.0 as usize]
    }

    /// Keeps `m` as the mark of the cell at `p`.
    #[inline]
    fn set_mark(&mut self, p: Position, m: Mark)
        ensures
            final(self).marks() == old(self).marks().update(slot_of(p.0 as int, p.1 as int), m),
            final(self).state_map == old(self).state_map,
            final(self).count == old(self).count,
            final(self).width == old(self).width,
            final(self).height == old(self).height,
    {
        self.map[p.1 as usize][p.0 as usize] = m;
        assert(self.marks() =~= old(self).marks().update(slot_of(p.0 as int, p.1 as int), m));
    }

    #[inline]
    fn set_slot_state(&mut self, p: Position, st: SlotState)
        ensures
            final(self).states() == old(self).states().update(
                slot_of(p.0 as int, p.1 as int),
                st,
            ),
            final(self).map == old(self).map,
            final(self).count == old(self).count,
            final(self).width == old(self).width,
            final(self).height == old(self).height,
    {
        set_state(&mut self.state_map, p, st);
    }

    #[inline]
    fn get_slot_state(&self, p: Position) -> (st: SlotState)
        ensures
            st == self.state(p.0 as int, p.1 as int),
    {
        self.state_map[p.1 as usize][p.0 as usize]
    }

    /// The limits of the board: its width and height.
    pub open spec fn lim(&self) -> Position {
        Position(self.width, self.height)
    }

    /// The cell at `p` is a mine.
    pub open spec fn is_mine_at(&self, p: Position) -> bool {
        low(self.byte(p.0 as int, p.1 as int)) > 8
    }

    /// For each position around `p`, whether it is a mine.
    pub open spec fn mine_marks(&self, p: Position) -> Seq<bool> {
        Seq::new(ring(p, self.lim()).len(), |k: int| self.is_mine_at(ring(p, self.lim())[k]))
    }

    /// Number of mines around `p`.
    pub open spec fn mines_near(&self, p: Position) -> int {
        tally(self.mine_marks(p), ring(p, self.lim()).len() as int)
    }

    /// Number of mines on the board.
    pub open spec fn mine_total(&self) -> int {
        tally(Seq::new(SLOTS as nat, |i: int| low(self.marks()[i].0) > 8), SLOTS as int)
    }

    /// The board as a shuffle leaves it when it has laid mines: no cell
    /// is opened, flagged or guessed at; no more than `count` mines lie
    /// on it, and fewer only where every cell outside the zone of
    /// `ignore` holds one; no mine lies in that zone; and every cell
    /// that is no mine holds the number of mines around it.
    pub open spec fn laid_out(&self, ignore: Option<Position>) -> bool {
        &&& forall|i: int| 0 <= i < SLOTS ==> high(#[trigger] self.marks()[i].0) == 0
        &&& 1 <= self.mine_total() <= self.count
        &&& self.mine_total() == self.count || forall|p: Position|
            on_board(p, self.lim()) && !in_zone(ignore, self.lim(), p) ==> #[trigger] self.is_mine_at(
                p,
            )
        &&& forall|p: Position| in_zone(ignore, self.lim(), p) ==> !#[trigger] self.is_mine_at(p)
        &&& forall|p: Position|
            on_board(p, self.lim()) && !#[trigger] self.is_mine_at(p) ==> low(
                self.byte(p.0 as int, p.1 as int),
            ) == self.mines_near(p)
    }

    /// Picks where the mines of a shuffle go: `count` different cells of
    /// the board outside the zone of `ignore`, drawn at random, or all
    /// such cells where there are fewer. None where `count` is zero or
    /// above the number of cells.
    #[verifier::rlimit(40)]
    fn preview_shuffle(&self, ignore: Option<Position>, rng: &mut ThreadRng) -> (ls: Vec<Position>)
        ensures
            ls@.no_duplicates(),
            ls@.len() <= self.count,
            forall|m: int|
                0 <= m < ls@.len() ==> on_board(#[trigger] ls@[m], self.lim()) && !in_zone(
                    ignore,
                    self.lim(),
                    ls@[m],
                ),
            self.count < 1 || self.width * self.height < self.count ==> ls@.len() == 0,
            ls@.len() == self.count || forall|p: Position|
                on_board(p, self.lim()) && !in_zone(ignore, self.lim(), p) ==> ls@.contains(p)
                    || self.count < 1 || self.width * self.height < self.count,
            self.count >= 1 && self.count + zone_len(ignore, self.lim()) <= self.width
                * self.height ==> ls@.len() == self.count,
    {
        assert(self.width as usize * self.height as usize <= 65025) by (nonlinear_arith)
            requires
                self.width <= 255,
                self.height <= 255,
        ;
        let (w, h) = (self.width as usize, self.height as usize);
        if self.count < 1 || w * h < self.count as usize {
            return Vec::new();
        }
        let lim = Position(self.width, self.height);
        let mut ls_ignore = Positions::new();
        if let Some(i) = ignore {
            let mut around = i.get_around(lim);
            ls_ignore.append(&mut around);
            ls_ignore.push(i);
        }
        proof {
            assert forall|p: Position| ls_ignore@.contains(p) == in_zone(ignore, lim, p) by {
                match ignore {
                    Some(c) => {
                        let r = ring(c, lim);
                        assert(ls_ignore@ =~= r.push(c));
                        if ls_ignore@.contains(p) {
                            let j = choose|j: int| 0 <= j < ls_ignore@.len() && ls_ignore@[j] == p;
                            if j < r.len() {
                                assert(r[j] == p);
                            }
                        }
                        if r.contains(p) {
                            let j = choose|j: int| 0 <= j < r.len() && r[j] == p;
                            assert(ls_ignore@[j] == p);
                        }
                        if p == c {
                            assert(ls_ignore@[r.len() as int] == p);
                        }
                    },
                    None => {},
                }
            }
        }
        proof {
            match ignore {
                Some(c) => {
                    lemma_ring(c, lim);
                    assert(ls_ignore@ =~= ring(c, lim).push(c));
                    lemma_push_holds(ring(c, lim), c);
                },
                None => {},
            }
        }
        let ghost mut skipped: Seq<Position> = Seq::empty();
        // the cells that may take a mine
        let mut cands: Vec<Position> = Vec::new();
        let mut y: u16 = 0;
        while y < self.height as u16
            invariant
                y <= self.height,
                lim == self.lim(),
                skipped.no_duplicates(),
                forall|m: int|
                    0 <= m < skipped.len() ==> ls_ignore@.contains(#[trigger] skipped[m])
                        && skipped[m].1 < y,
                cands@.len() + skipped.len() == y * self.width,
                forall|p: Position| ls_ignore@.contains(p) == in_zone(ignore, lim, p),
                forall|m: int|
                    0 <= m < cands@.len() ==> on_board(#[trigger] cands@[m], lim) && !in_zone(
                        ignore,
                        lim,
                        cands@[m],
                    ) && cands@[m].1 < y,
                forall|m1: int, m2: int|
                    0 <= m1 < m2 < cands@.len() ==> #[trigger] cands@[m1] != #[trigger] cands@[m2],
                forall|p: Position|
                    on_board(p, lim) && !in_zone(ignore, lim, p) && p.1 < y ==> exists|m: int|
                        0 <= m < cands@.len() && #[trigger] cands@[m] == p,
            decreases self.height - y,
        {
            let mut x: u16 = 0;
            while x < self.width as u16
                invariant
                    y < self.height,
                    x <= self.width,
                    lim == self.lim(),
                    skipped.no_duplicates(),
                    forall|m: int|
                        0 <= m < skipped.len() ==> ls_ignore@.contains(#[trigger] skipped[m]) && (
                        skipped[m].1 < y || (skipped[m].1 == y && skipped[m].0 < x)),
                    cands@.len() + skipped.len() == y * self.width + x,
                    forall|p: Position| ls_ignore@.contains(p) == in_zone(ignore, lim, p),
                    forall|m: int|
                        0 <= m < cands@.len() ==> on_board(#[trigger] cands@[m], lim) && !in_zone(
                            ignore,
                            lim,
                            cands@[m],
                        ) && (cands@[m].1 < y || (cands@[m].1 == y && cands@[m].0 < x)),
                    forall|m1: int, m2: int|
                        0 <= m1 < m2 < cands@.len() ==> #[trigger] cands@[m1]
                            != #[trigger] cands@[m2],
                    forall|p: Position|
                        on_board(p, lim) && !in_zone(ignore, lim, p) && (p.1 < y || (p.1 == y
                            && p.0 < x)) ==> exists|m: int|
                            0 <= m < cands@.len() && #[trigger] cands@[m] == p,
                decreases self.width - x,
            {
                let p = Position(x as u8, y as u8);
                if ls_ignore.is_empty() || !ls_ignore.contains(p) {
                    let ghost before = cands@;
                    cands.push(p);
                    proof {
                        assert(cands@[before.len() as int] == p);
                        assert forall|q: Position|
                            on_board(q, lim) && !in_zone(ignore, lim, q) && (q.1 < y || (q.1 == y
                                && q.0 < x + 1)) implies exists|m: int|
                            0 <= m < cands@.len() && #[trigger] cands@[m] == q by {
                            if q != p {
                                let m = choose|m: int|
                                    0 <= m < before.len() && #[trigger] before[m] == q;
                                assert(cands@[m] == q);
                            }
                        }
                    }
                } else {
                    assert(in_zone(ignore, lim, p));
                    proof {
                        let before = skipped;
                        assert(!before.contains(p)) by {
                            if before.contains(p) {
                                let m = choose|m: int| 0 <= m < before.len() && before[m] == p;
                                assert(before[m].1 < y || (before[m].1 == y && before[m].0 < x));
                            }
                        }
                        lemma_push_holds(before, p);
                        skipped = before.push(p);
                        assert forall|m: int| 0 <= m < skipped.len() implies ls_ignore@.contains(
                            #[trigger] skipped[m],
                        ) && (skipped[m].1 < y || (skipped[m].1 == y && skipped[m].0 < x + 1)) by {
                            if m < before.len() {
                                assert(skipped[m] == before[m]);
                            }
                        }
                    }
                }
                x += 1;
            }
            proof {
                assert(y * self.width + self.width == (y + 1) * self.width) by (nonlinear_arith);
            }
            y += 1;
        }
        let ghost total = cands@.len();
        proof {
            // the cells passed over are different positions of the zone
            lemma_held_both_ways(skipped, ls_ignore@);
            assert forall|m: int| 0 <= m < skipped.len() implies held_marks(
                skipped,
                ls_ignore@,
            )[m] by {
                assert(ls_ignore@.contains(skipped[m]));
            }
            lemma_tally_ends(held_marks(skipped, ls_ignore@), skipped.len() as int);
            assert(skipped.len() <= ls_ignore@.len());
            assert(ls_ignore@.len() == zone_len(ignore, lim));
            assert(self.height * self.width == self.width * self.height) by (nonlinear_arith);
        }
        let mut mine_map: Vec<Position> = Vec::with_capacity(self.count as usize);
        let mut t: u16 = 0;
        while t < self.count && cands.len() > 0
            invariant
                t <= self.count,
                lim == self.lim(),
                mine_map@.len() == t,
                cands@.len() + t == total,
                forall|m: int|
                    0 <= m < cands@.len() ==> on_board(#[trigger] cands@[m], lim) && !in_zone(
                        ignore,
                        lim,
                        cands@[m],
                    ),
                forall|m: int|
                    0 <= m < mine_map@.len() ==> on_board(#[trigger] mine_map@[m], lim)
                        && !in_zone(ignore, lim, mine_map@[m]),
                forall|m1: int, m2: int|
                    0 <= m1 < m2 < cands@.len() ==> #[trigger] cands@[m1] != #[trigger] cands@[m2],
                forall|m1: int, m2: int|
                    0 <= m1 < m2 < mine_map@.len() ==> #[trigger] mine_map@[m1]
                        != #[trigger] mine_map@[m2],
                forall|m1: int, m2: int|
                    0 <= m1 < cands@.len() && 0 <= m2 < mine_map@.len() ==> #[trigger] cands@[m1]
                        != #[trigger] mine_map@[m2],
                forall|p: Position|
                    on_board(p, lim) && !in_zone(ignore, lim, p) ==> (exists|m: int|
                        0 <= m < cands@.len() && #[trigger] cands@[m] == p) || (exists|m: int|
                        0 <= m < mine_map@.len() && #[trigger] mine_map@[m] == p),
            decreases self.count - t,
        {
            let r = random_below(rng, cands.len());
            let ghost before = cands@;
            let ghost placed = mine_map@;
            let p = cands.swap_remove(r);
            mine_map.push(p);
            t += 1;
            proof {
                let last = before.len() - 1;
                assert(p == before[r as int]);
                assert forall|m: int| 0 <= m < cands@.len() implies #[trigger] cands@[m]
                    == before[if m == r {
                    last
                } else {
                    m
                }] by {}
                assert forall|m: int| 0 <= m < cands@.len() implies on_board(
                    #[trigger] cands@[m],
                    lim,
                ) && !in_zone(ignore, lim, cands@[m]) && cands@[m] != p by {
                    if m == r {
                        assert(cands@[m] == before[last]);
                        assert(before[r as int] != before[last]);
                    } else {
                        assert(cands@[m] == before[m]);
                        if m < r {
                            assert(before[m] != before[r as int]);
                        } else {
                            assert(before[r as int] != before[m]);
                        }
                    }
                }
                assert forall|m1: int, m2: int| 0 <= m1 < m2 < cands@.len() implies #[trigger] cands@[m1]
                    != #[trigger] cands@[m2] by {
                    let o1 = if m1 == r {
                        last
                    } else {
                        m1
                    };
                    let o2 = if m2 == r {
                        last
                    } else {
                        m2
                    };
                    assert(cands@[m1] == before[o1]);
                    assert(cands@[m2] == before[o2]);
                    if o1 < o2 {
                        assert(before[o1] != before[o2]);
                    } else {
                        assert(before[o2] != before[o1]);
                    }
                }
                assert forall|m: int| 0 <= m < mine_map@.len() implies on_board(
                    #[trigger] mine_map@[m],
                    lim,
                ) && !in_zone(ignore, lim, mine_map@[m]) by {
                    if m < placed.len() {
                        assert(mine_map@[m] == placed[m]);
                    }
                }
                assert forall|m1: int, m2: int|
                    0 <= m1 < m2 < mine_map@.len() implies #[trigger] mine_map@[m1]
                    != #[trigger] mine_map@[m2] by {
                    assert(mine_map@[m1] == placed[m1]);
                    if m2 < placed.len() {
                        assert(mine_map@[m2] == placed[m2]);
                    } else {
                        assert(before[r as int] != placed[m1]);
                    }
                }
                assert forall|m1: int, m2: int|
                    0 <= m1 < cands@.len() && 0 <= m2 < mine_map@.len() implies #[trigger] cands@[m1]
                    != #[trigger] mine_map@[m2] by {
                    let o1 = if m1 == r {
                        last
                    } else {
                        m1
                    };
                    assert(cands@[m1] == before[o1]);
                    if m2 < placed.len() {
                        assert(mine_map@[m2] == placed[m2]);
                        assert(before[o1] != placed[m2]);
                    }
                }
                assert forall|q: Position|
                    on_board(q, lim) && !in_zone(ignore, lim, q) implies (exists|m: int|
                    0 <= m < cands@.len() && #[trigger] cands@[m] == q) || (exists|m: int|
                    0 <= m < mine_map@.len() && #[trigger] mine_map@[m] == q) by {
                    if q == p {
                        assert(mine_map@[placed.len() as int] == q);
                    } else if exists|m: int| 0 <= m < before.len() && #[trigger] before[m] == q {
                        let m = choose|m: int| 0 <= m < before.len() && #[trigger] before[m] == q;
                        if m == last {
                            assert(cands@[r as int] == q);
                        } else {
                            assert(cands@[m] == q);
                        }
                    } else {
                        let m = choose|m: int| 0 <= m < placed.len() && #[trigger] placed[m] == q;
                        assert(mine_map@[m] == q);
                    }
                }
            }
        }
        proof {
            if mine_map@.len() != self.count {
                assert forall|p: Position|
                    on_board(p, lim) && !in_zone(ignore, lim, p) implies mine_map@.contains(p) by {
                    let m = choose|m: int| 0 <= m < mine_map@.len() && #[trigger] mine_map@[m] == p;
                }
            }
        }
        mine_map
    }

    /// The board while a shuffle lays the mines `ls`: the first `n` are
    /// laid, and if `during`, mine `n` is laid too and the first `k` of
    /// the positions `around` it have had their warning stepped up.
    pub open spec fn laying(
        &self,
        ls: Seq<Position>,
        n: int,
        around: Seq<Position>,
        k: int,
        during: bool,
    ) -> bool {
        forall|c: Position|
            {
                let b = #[trigger] self.byte(c.0 as int, c.1 as int);
                &&& high(b) == 0
                &&& self.state(c.0 as int, c.1 as int) == if low(b) == 0 {
                    SlotState::Empty
                } else {
                    SlotState::Sth
                }
                &&& if among(ls, n, c) || (during && ls[n] == c) {
                    9 <= low(b) <= 15
                } else {
                    low(b) == capped(
                        tally(near_marks(ls, c, self.lim()), n) + if among(around, k, c) {
                            1int
                        } else {
                            0int
                        },
                    )
                }
            }
    }

    /// The board's `count` is one that a shuffle can lay: at least one
    /// mine, and no more mines than cells.
    pub open spec fn can_lay(&self) -> bool {
        self.count >= 1 && self.count <= self.width * self.height
    }

    /// The board has the marks and slot states of `other`.
    pub open spec fn same_cells(&self, other: Self) -> bool {
        self.map == other.map && self.state_map == other.state_map
    }

    /// Lays the mines out anew, at random, and counts the warnings
    /// around them. The cell at `ignore` and the cells around it get no
    /// mine. What was opened, flagged or guessed is forgotten.
    ///
    /// Nothing happens where `count` is zero or above the number of
    /// cells, and where the board has no cell outside the zone of
    /// `ignore`. Otherwise the board is `laid_out` afterwards.
    pub fn shuffle(&mut self, ignore: Option<Position>)
        requires
            old(self).wf(),
        ensures
            final(self).wf(),
            final(self).count == old(self).count,
            final(self).width == old(self).width,
            final(self).height == old(self).height,
            final(self).laid_out(ignore) || final(self).same_cells(*old(self)),
            final(self).laid_out(ignore) || !old(self).can_lay() || forall|p: Position|
                on_board(p, old(self).lim()) ==> in_zone(ignore, old(self).lim(), p),
            !old(self).can_lay() ==> final(self).same_cells(*old(self)),
            old(self).can_lay() && old(self).count + zone_len(ignore, old(self).lim())
                <= old(self).width * old(self).height ==> final(self).laid_out(ignore)
                && final(self).mine_total() == old(self).count,
    {
        let mut rng = thread_rng();
        let ls_pv_mine = self.preview_shuffle(ignore, &mut rng);
        if ls_pv_mine.len() == 0 {
            proof {
                if !(self.count < 1 || self.width * self.height < self.count) {
                    assert forall|p: Position| on_board(p, self.lim()) implies in_zone(
                        ignore,
                        self.lim(),
                        p,
                    ) by {
                        if !in_zone(ignore, self.lim(), p) {
                            assert(ls_pv_mine@.contains(p));
                        }
                    }
                }
            }
            return ;
        }
        self.clean_up();
        let limit = Position(self.width, self.height);
        let ghost ls = ls_pv_mine@;
        let ghost none = Seq::<Position>::empty();
        proof {
            lemma_nibbles(0, 0);
            assert forall|c: Position|
                tally(near_marks(ls, c, limit), 0) == 0 && !among(ls, 0, c) && !among(
                    none,
                    0,
                    c,
                ) by {}
            assert forall|c: Position|
                {
                    let b = #[trigger] self.byte(c.0 as int, c.1 as int);
                    &&& high(b) == 0
                    &&& low(b) == 0
                    &&& self.state(c.0 as int, c.1 as int) == SlotState::Empty
                } by {
                let i = slot_of(c.0 as int, c.1 as int);
                assert(self.marks()[i].0 == 0);
                assert(self.states()[i] == SlotState::Empty);
            }
            assert(self.laying(ls, 0, none, 0, false));
        }
        let mut n: usize = 0;
        while n < ls_pv_mine.len()
            invariant
                n <= ls.len(),
                ls == ls_pv_mine@,
                ls.no_duplicates(),
                forall|m: int| 0 <= m < ls.len() ==> on_board(#[trigger] ls[m], limit),
                limit == self.lim(),
                self.count == old(self).count,
                self.width == old(self).width,
                self.height == old(self).height,
                self.laying(ls, n as int, none, 0, false),
            decreases ls.len() - n,
        {
            let p = ls_pv_mine[n];
            self.lay_mine(ls_pv_mine.as_slice(), n);
            let around_list = p.get_around(limit);
            let around = around_list.as_slice();
            proof {
                lemma_ring(p, limit);
            }
            let mut k: usize = 0;
            while k < around.len()
                invariant
                    k <= around@.len(),
                    n < ls.len(),
                    p == ls[n as int],
                    ls == ls_pv_mine@,
                    ls.no_duplicates(),
                    around@ == ring(p, limit),
                    around@.no_duplicates(),
                    limit == self.lim(),
                    self.count == old(self).count,
                    self.width == old(self).width,
                    self.height == old(self).height,
                    self.laying(ls, n as int, around@, k as int, true),
                decreases around@.len() - k,
            {
                let a = around[k];
                self.step_up(a, Ghost(ls), Ghost(n as int), Ghost(around@), Ghost(k as int));
                k += 1;
            }
            proof {
                self.lemma_mine_done(ls, n as int, around@);
            }
            n += 1;
        }
        proof {
            self.lemma_laid(ls, ignore);
        }
    }

    /// Makes the cell of mine `n` a mine.
    fn lay_mine(&mut self, mines: &[Position], n: usize)
        requires
            n < mines@.len(),
            mines@.no_duplicates(),
            old(self).laying(mines@, n as int, Seq::<Position>::empty(), 0, false),
        ensures
            final(self).laying(mines@, n as int, ring(mines@[n as int], old(self).lim()), 0, true),
            final(self).count == old(self).count,
            final(self).width == old(self).width,
            final(self).height == old(self).height,
    {
        let p = mines[n];
        let ghost ls = mines@;
        let ghost before = *self;
        let i = self.get_mut_by_pos(p);
        let mut m = self.mark_at(p);
        m.set_mine();
        self.set_mark(p, m);
        self.set_slot_state(p, SlotState::Sth);
        proof {
            let around = ring(p, self.lim());
            assert forall|c: Position|
                {
                    let b = #[trigger] self.byte(c.0 as int, c.1 as int);
                    &&& high(b) == 0
                    &&& self.state(c.0 as int, c.1 as int) == if low(b) == 0 {
                        SlotState::Empty
                    } else {
                        SlotState::Sth
                    }
                    &&& if among(ls, n as int, c) || ls[n as int] == c {
                        9 <= low(b) <= 15
                    } else {
                        low(b) == capped(
                            tally(near_marks(ls, c, self.lim()), n as int) + if among(
                                around,
                                0,
                                c,
                            ) {
                                1int
                            } else {
                                0int
                            },
                        )
                    }
                } by {
                let b0 = before.byte(c.0 as int, c.1 as int);
                assert(!among(Seq::<Position>::empty(), 0, c));
                assert(!among(around, 0, c));
                if c != p {
                    assert(slot_of(c.0 as int, c.1 as int) != slot_of(p.0 as int, p.1 as int));
                    assert(self.byte(c.0 as int, c.1 as int) == b0);
                } else {
                    assert(high(b0) == 0);
                }
            }
        }
    }

    /// Steps up the warning of the cell at `a`, place `k` around mine
    /// `n`.
    fn step_up(
        &mut self,
        a: Position,
        Ghost(ls): Ghost<Seq<Position>>,
        Ghost(n): Ghost<int>,
        Ghost(around): Ghost<Seq<Position>>,
        Ghost(k): Ghost<int>,
    )
        requires
            0 <= n < ls.len(),
            0 <= k < around.len(),
            around[k] == a,
            around.no_duplicates(),
            around == ring(ls[n], old(self).lim()),
            old(self).laying(ls, n, around, k, true),
        ensures
            final(self).laying(ls, n, around, k + 1, true),
            final(self).count == old(self).count,
            final(self).width == old(self).width,
            final(self).height == old(self).height,
    {
        let ghost before = *self;
        let j = self.get_mut_by_pos(a);
        let mut m = self.mark_at(a);
        proof {
            lemma_step(m.0);
            lemma_nibbles(m.0, 0);
        }
        m.bump_warn(true);
        self.set_mark(a, m);
        self.set_slot_state(a, SlotState::Sth);
        proof {
            lemma_ring(ls[n], self.lim());
            assert forall|c: Position|
                {
                    let b = #[trigger] self.byte(c.0 as int, c.1 as int);
                    &&& high(b) == 0
                    &&& self.state(c.0 as int, c.1 as int) == if low(b) == 0 {
                        SlotState::Empty
                    } else {
                        SlotState::Sth
                    }
                    &&& if among(ls, n, c) || ls[n] == c {
                        9 <= low(b) <= 15
                    } else {
                        low(b) == capped(
                            tally(near_marks(ls, c, self.lim()), n) + if among(around, k + 1, c) {
                                1int
                            } else {
                                0int
                            },
                        )
                    }
                } by {
                let b0 = before.byte(c.0 as int, c.1 as int);
                assert(high(b0) == 0);
                lemma_tally_bounds(near_marks(ls, c, self.lim()), n);
                if c != a {
                    assert(slot_of(c.0 as int, c.1 as int) != slot_of(a.0 as int, a.1 as int));
                    assert(self.byte(c.0 as int, c.1 as int) == b0);
                    if among(around, k + 1, c) {
                        let j = choose|j: int| 0 <= j < k + 1 && #[trigger] around[j] == c;
                        assert(j < k);
                    }
                    if among(around, k, c) {
                        let j = choose|j: int| 0 <= j < k && #[trigger] around[j] == c;
                        assert(0 <= j < k + 1);
                    }
                } else {
                    assert(among(around, k + 1, c)) by {
                        assert(around[k] == c);
                    }
                    assert(!among(around, k, c)) by {
                        if among(around, k, c) {
                            let j = choose|j: int| 0 <= j < k && #[trigger] around[j] == c;
                            assert(around[j] == around[k]);
                        }
                    }
                }
            }
        }
    }

    /// When all positions around mine `n` have been stepped up, the
    /// board is as it is before mine `n + 1` is laid.
    proof fn lemma_mine_done(&self, ls: Seq<Position>, n: int, around: Seq<Position>)
        requires
            0 <= n < ls.len(),
            on_board(ls[n], self.lim()),
            around == ring(ls[n], self.lim()),
            self.laying(ls, n, around, around.len() as int, true),
        ensures
            self.laying(ls, n + 1, Seq::<Position>::empty(), 0, false),
    {
        let none = Seq::<Position>::empty();
        lemma_ring(ls[n], self.lim());
        assert forall|c: Position|
            {
                let b = #[trigger] self.byte(c.0 as int, c.1 as int);
                &&& high(b) == 0
                &&& self.state(c.0 as int, c.1 as int) == if low(b) == 0 {
                    SlotState::Empty
                } else {
                    SlotState::Sth
                }
                &&& if among(ls, n + 1, c) {
                    9 <= low(b) <= 15
                } else {
                    low(b) == capped(
                        tally(near_marks(ls, c, self.lim()), n + 1) + if among(none, 0, c) {
                            1int
                        } else {
                            0int
                        },
                    )
                }
            } by {
            assert(!among(none, 0, c));
            if among(ls, n + 1, c) {
                let j = choose|j: int| 0 <= j < n + 1 && #[trigger] ls[j] == c;
                if j < n {
                    assert(among(ls, n, c));
                }
            }
            if among(ls, n, c) {
                let j = choose|j: int| 0 <= j < n && #[trigger] ls[j] == c;
                assert(0 <= j < n + 1);
            }
            if ls[n] == c {
                assert(among(ls, n + 1, c));
            }
            if among(around, around.len() as int, c) {
                let j = choose|j: int| 0 <= j < around.len() && #[trigger] around[j] == c;
                assert(around.contains(c));
            }
            if around.contains(c) {
                let j = choose|j: int| 0 <= j < around.len() && around[j] == c;
                assert(among(around, around.len() as int, c));
            }
            assert(near_marks(ls, c, self.lim())[n] == around.contains(c));
        }
    }

    /// A board on which all of the mines `ls` have been laid is laid
    /// out.
    #[verifier::rlimit(40)]
    proof fn lemma_laid(&self, ls: Seq<Position>, ignore: Option<Position>)
        requires
            self.laying(ls, ls.len() as int, Seq::<Position>::empty(), 0, false),
            ls.no_duplicates(),
            1 <= ls.len() <= self.count,
            forall|m: int|
                0 <= m < ls.len() ==> on_board(#[trigger] ls[m], self.lim()) && !in_zone(
                    ignore,
                    self.lim(),
                    ls[m],
                ),
            ls.len() == self.count || forall|p: Position|
                on_board(p, self.lim()) && !in_zone(ignore, self.lim(), p) ==> ls.contains(p),
        ensures
            self.wf(),
            self.laid_out(ignore),
            self.mine_total() == ls.len(),
    {
        let none = Seq::<Position>::empty();
        let l = self.lim();
        let n = ls.len() as int;
        // a cell is a mine exactly when it is in the list
        assert forall|c: Position| #[trigger]
            self.is_mine_at(c) == ls.contains(c) && (!ls.contains(c) ==> low(
                self.byte(c.0 as int, c.1 as int),
            ) == held(ls, ring(c, l)) && (!on_board(c, l) ==> held(ls, ring(c, l)) == 0)) by {
            let b = self.byte(c.0 as int, c.1 as int);
            assert(!among(none, 0, c));
            if ls.contains(c) {
                let j = choose|j: int| 0 <= j < ls.len() && ls[j] == c;
                assert(among(ls, n, c));
            }
            if among(ls, n, c) {
                let j = choose|j: int| 0 <= j < n && #[trigger] ls[j] == c;
                assert(ls.contains(c));
            }
            lemma_ring(c, l);
            lemma_held_both_ways(ls, ring(c, l));
            assert forall|m: int| 0 <= m < n implies near_marks(ls, c, l)[m] == held_marks(
                ls,
                ring(c, l),
            )[m] by {
                assert(ring(c, l).contains(ls[m]) == (on_board(c, l) && near(c, ls[m], l)));
            }
            lemma_tally_agree(near_marks(ls, c, l), held_marks(ls, ring(c, l)), n);
        }
        assert forall|i: int| 0 <= i < SLOTS implies high(#[trigger] self.marks()[i].0) == 0
            && self.states()[i] == if low(self.marks()[i].0) == 0 {
            SlotState::Empty
        } else {
            SlotState::Sth
        } by {
            let c = Position((i % 256) as u8, (i / 256) as u8);
            assert(slot_of(c.0 as int, c.1 as int) == i);
            assert(self.byte(c.0 as int, c.1 as int) == self.marks()[i].0);
        }
        assert forall|x: int, y: int| 0 <= x < 256 && 0 <= y < 256 && !self.has(x, y) implies low(
            #[trigger] self.marks()[slot_of(x, y)].0,
        ) == 0 by {
            let c = Position(x as u8, y as u8);
            assert(self.byte(c.0 as int, c.1 as int) == self.marks()[slot_of(x, y)].0);
            assert(self.is_mine_at(c) == ls.contains(c));
            if ls.contains(c) {
                let j = choose|j: int| 0 <= j < ls.len() && ls[j] == c;
                assert(on_board(ls[j], l));
            }
        }
        // the mines are as many as the list is long
        let slots = Seq::new(ls.len(), |m: int| slot_of(ls[m].0 as int, ls[m].1 as int));
        assert(slots.no_duplicates()) by {
            assert forall|i: int, j: int|
                0 <= i < slots.len() && 0 <= j < slots.len() && i != j implies slots[i]
                != slots[j] by {
                assert(ls[i] != ls[j]);
            }
        }
        lemma_tally_of_list(slots, SLOTS as int);
        assert forall|i: int| 0 <= i < SLOTS implies (low(self.marks()[i].0) > 8) == slots.contains(
            i,
        ) by {
            let c = Position((i % 256) as u8, (i / 256) as u8);
            assert(slot_of(c.0 as int, c.1 as int) == i);
            assert(self.byte(c.0 as int, c.1 as int) == self.marks()[i].0);
            assert(self.is_mine_at(c) == ls.contains(c));
            if ls.contains(c) {
                let j = choose|j: int| 0 <= j < ls.len() && ls[j] == c;
                assert(slots[j] == i);
            }
            if slots.contains(i) {
                let j = choose|j: int| 0 <= j < slots.len() && slots[j] == i;
                assert(ls[j] == c);
            }
        }
        lemma_tally_agree(
            Seq::new(SLOTS as nat, |i: int| low(self.marks()[i].0) > 8),
            Seq::new(SLOTS as nat, |j: int| slots.contains(j)),
            SLOTS as int,
        );
        assert(self.mine_total() == ls.len());
        // the warnings count the mines around
        assert forall|p: Position| on_board(p, l) && !#[trigger] self.is_mine_at(p) implies low(
            self.byte(p.0 as int, p.1 as int),
        ) == self.mines_near(p) by {
            lemma_ring(p, l);
            lemma_held_both_ways(ls, ring(p, l));
            assert forall|k: int| 0 <= k < ring(p, l).len() implies self.mine_marks(p)[k]
                == held_marks(ring(p, l), ls)[k] by {
                assert(self.is_mine_at(ring(p, l)[k]) == ls.contains(ring(p, l)[k]));
            }
            lemma_tally_agree(
                self.mine_marks(p),
                held_marks(ring(p, l), ls),
                ring(p, l).len() as int,
            );
            assert(self.is_mine_at(p) == ls.contains(p));
        }
        assert forall|p: Position| in_zone(ignore, l, p) implies !#[trigger] self.is_mine_at(
            p,
        ) by {
            assert(self.is_mine_at(p) == ls.contains(p));
            if ls.contains(p) {
                let j = choose|j: int| 0 <= j < ls.len() && ls[j] == p;
                assert(!in_zone(ignore, l, ls[j]));
            }
        }
        if self.mine_total() != self.count {
            assert forall|p: Position|
                on_board(p, l) && !in_zone(ignore, l, p) implies #[trigger] self.is_mine_at(p) by {
                assert(self.is_mine_at(p) == ls.contains(p));
            }
        }
    }

    /// The cell at `c` is no mine and has none around it.
    pub open spec fn blank(&self, c: Position) -> bool {
        low(self.byte(c.0 as int, c.1 as int)) == 0
    }

    /// A walk over the board of two cells or more: each cell lies near
    /// the one before it, and every cell between the first and the last
    /// is blank.
    pub open spec fn is_walk(&self, p: Seq<Position>) -> bool {
        &&& p.len() >= 2
        &&& forall|n: int|
            0 <= n < p.len() - 1 ==> on_board(#[trigger] p[n], self.lim()) && near(
                p[n],
                p[n + 1],
                self.lim(),
            )
        &&& forall|n: int| 0 < n < p.len() - 1 ==> self.blank(#[trigger] p[n])
    }

    /// Some walk leads from `s` to `q`.
    pub open spec fn walks(&self, s: Position, q: Position) -> bool {
        exists|p: Seq<Position>| #[trigger] self.is_walk(p) && p[0] == s && p.last() == q
    }

    /// `q` belongs to the open area of `s`: a walk leads from `s` to `q`,
    /// or `q` is `s` and `s` is blank.
    pub open spec fn in_area(&self, s: Position, q: Position) -> bool {
        on_board(s, self.lim()) && ((q == s && self.blank(s)) || self.walks(s, q))
    }

    /// `c` is a cell from which the search goes on: the start, or a
    /// blank cell to which a walk leads.
    pub open spec fn rooted(&self, s: Position, c: Position) -> bool {
        on_board(c, self.lim()) && (c == s || (self.blank(c) && self.walks(s, c)))
    }

    /// What holds while the open area of `s` is searched: `states` tags
    /// the cells taken into `all`; the cells `done` have been gone on
    /// from, `cur` is being gone on from, and those of `current` from
    /// `n` on and of `next` wait for it.
    pub open spec fn searching(
        &self,
        s: Position,
        states: Seq<SlotState>,
        all: Seq<Position>,
        done: Set<Position>,
        cur: Option<Position>,
        current: Seq<Position>,
        n: int,
        next: Seq<Position>,
    ) -> bool {
        &&& states.len() == SLOTS
        &&& all.no_duplicates()
        &&& forall|c: Position|
            (states[slot_of(c.0 as int, c.1 as int)] == SlotState::Tagged) == #[trigger] all.contains(
                c,
            )
        &&& forall|i: int|
            0 <= i < SLOTS && #[trigger] states[i] != SlotState::Tagged ==> states[i]
                == self.states()[i]
        &&& forall|m: int| 0 <= m < all.len() ==> self.in_area(s, #[trigger] all[m])
        &&& forall|m: int| 0 <= m < current.len() ==> self.rooted(s, #[trigger] current[m])
        &&& forall|m: int| 0 <= m < next.len() ==> self.rooted(s, #[trigger] next[m])
        &&& forall|e: Position, a: Position|
            done.contains(e) && #[trigger] near(e, a, self.lim()) ==> all.contains(a)
        &&& forall|e: Position| #[trigger] done.contains(e) ==> on_board(e, self.lim())
        &&& forall|c: Position|
            #[trigger] all.contains(c) && self.blank(c) ==> done.contains(c) || cur == Some(c)
                || pending(current, n, next, c)
        &&& done.contains(s) || cur == Some(s) || pending(current, n, next, s)
        &&& self.blank(s) ==> all.contains(s)
    }

    /// The open area of the cell at `(x, y)`: the cells that open with
    /// it. The search goes on from the cell itself and from every blank
    /// cell it comes to, and takes in every cell around those; so the
    /// area holds the blank cells joined to the start and the cells that
    /// border them. The cell itself is in the area if it is blank or
    /// borders a blank cell. Each cell is listed once. Where the board
    /// has no cell at `(x, y)` the area is empty.
    #[verifier::rlimit(40)]
    pub fn get_nearby_empty_area(&self, x: u8, y: u8) -> (all: Vec<Position>)
        requires
            self.wf(),
        ensures
            all@.no_duplicates(),
            forall|q: Position| all@.contains(q) <==> self.in_area(Position(x, y), q),
    {
        if x >= self.width || y >= self.height {
            return Vec::new();
        }
        let mut all: Vec<Position> = Vec::new();
        let mut next: Vec<Position> = Vec::new();
        let mut current: Vec<Position> = Vec::new();
        let mut state_map = copy_states(&self.state_map);
        let start_pos = Position(x, y);
        let lim = Position(self.width, self.height);
        // tag start position
        if let SlotState::Empty = self.get_slot_state(start_pos) {
            set_state(&mut state_map, start_pos, SlotState::Tagged);
            all.push(start_pos);
            proof {
                assert(all@[0] == start_pos);
                assert forall|c: Position|
                    (flat(state_map)[slot_of(c.0 as int, c.1 as int)] == SlotState::Tagged)
                        == #[trigger] all@.contains(c) by {
                    if c != start_pos {
                        assert(slot_of(c.0 as int, c.1 as int) != slot_of(x as int, y as int));
                    }
                }
            }
        }
        current.push(start_pos);
        let ghost mut done: Set<Position> = Set::empty();
        proof {
            assert(current@[0] == start_pos);
            assert(pending(current@, 0, next@, start_pos));
        }
        // traverse around, collect empty slots.
        while current.len() > 0
            invariant
                self.wf(),
                lim == self.lim(),
                start_pos == Position(x, y),
                next@.len() == 0,
                self.searching(start_pos, flat(state_map), all@, done, None, current@, 0, next@),
            decreases
                    2 * (SLOTS - all@.len()) + if current@.len() > 0 {
                        1int
                    } else {
                        0int
                    },
        {
            let ghost len0 = all@.len();
            proof {
                lemma_positions_bound(all@);
            }
            let mut n: usize = 0;
            while n < current.len()
                invariant
                    self.wf(),
                    lim == self.lim(),
                    start_pos == Position(x, y),
                    n <= current@.len(),
                    len0 <= all@.len(),
                    next@.len() > 0 ==> len0 < all@.len(),
                    self.searching(
                        start_pos,
                        flat(state_map),
                        all@,
                        done,
                        None,
                        current@,
                        n as int,
                        next@,
                    ),
                decreases current@.len() - n,
            {
                let p = current[n];
                let around_list = p.get_around(lim);
                let around = around_list.as_slice();
                let ghost n1 = n + 1;
                proof {
                    lemma_ring(p, lim);
                    lemma_pending_advance(current@, n as int, next@);
                    assert(self.rooted(start_pos, current@[n as int]));
                }
                let mut k: usize = 0;
                while k < around.len()
                    invariant
                        self.wf(),
                        lim == self.lim(),
                        start_pos == Position(x, y),
                        n < current@.len(),
                        n1 == n + 1,
                        p == current@[n as int],
                        self.rooted(start_pos, p),
                        k <= around@.len(),
                        around@ == ring(p, lim),
                        len0 <= all@.len(),
                        next@.len() > 0 ==> len0 < all@.len(),
                        forall|j: int| 0 <= j < k ==> all@.contains(#[trigger] around@[j]),
                        self.searching(
                            start_pos,
                            flat(state_map),
                            all@,
                            done,
                            Some(p),
                            current@,
                            n1,
                            next@,
                        ),
                    decreases around@.len() - k,
                {
                    let a = around[k];
                    let j = a.1 as usize * STRIDE + a.0 as usize;
                    let st = state_map[a.1 as usize][a.0 as usize];
                    proof {
                        lemma_ring(p, lim);
                        assert(around@[k as int] == a);
                        assert(ring(p, lim).contains(a));
                        assert(near(p, a, lim));
                    }
                    if st != SlotState::Tagged {
                        let ghost all0 = all@;
                        let ghost next0 = next@;
                        let ghost states0 = flat(state_map);
                        if st == SlotState::Empty {
                            proof {
                                lemma_pending_push(current@, n1, next@, a);
                            }
                            next.push(a);
                        }
                        set_state(&mut state_map, a, SlotState::Tagged);
                        all.push(a);
                        proof {
                            self.lemma_taken_in(
                                start_pos,
                                states0,
                                all0,
                                done,
                                p,
                                current@,
                                n1,
                                next0,
                                a,
                            );
                            assert forall|j: int| 0 <= j < k + 1 implies all@.contains(
                                #[trigger] around@[j],
                            ) by {
                                if j < k {
                                    assert(all0.contains(around@[j]));
                                }
                            }
                        }
                    } else {
                        proof {
                            assert(all@.contains(a));
                        }
                    }
                    k += 1;
                }
                proof {
                    let before = done;
                    done = done.insert(p);
                    assert forall|e: Position, a: Position|
                        done.contains(e) && #[trigger] near(e, a, lim) implies all@.contains(a) by {
                        if e == p {
                            assert(ring(p, lim).contains(a));
                            let j = choose|j: int| 0 <= j < around@.len() && around@[j] == a;
                            assert(all@.contains(around@[j]));
                        } else {
                            assert(before.contains(e));
                        }
                    }
                }
                n += 1;
            }
            proof {
                lemma_pending_turn(current@, next@);
                lemma_positions_bound(all@);
                assert forall|c: Position| #[trigger]
                    all@.contains(c) && self.blank(c) implies done.contains(c) || pending(
                    next@,
                    0,
                    Seq::<Position>::empty(),
                    c,
                ) by {}
            }
            let ghost waiting = next@;
            current.clear();
            current.append(&mut next);
            proof {
                assert(current@ =~= waiting);
            }
        }
        proof {
            assert(!pending(current@, 0, next@, start_pos));
            assert forall|q: Position| all@.contains(q) <==> self.in_area(start_pos, q) by {
                if all@.contains(q) {
                    let m = choose|m: int| 0 <= m < all@.len() && all@[m] == q;
                    assert(self.in_area(start_pos, all@[m]));
                }
                if self.in_area(start_pos, q) {
                    if q == start_pos && self.blank(start_pos) {
                    } else {
                        let p = choose|p: Seq<Position>| #[trigger]
                            self.is_walk(p) && p[0] == start_pos && p.last() == q;
                        assert forall|c: Position| #[trigger]
                            all@.contains(c) && self.blank(c) implies done.contains(c) by {
                            assert(!pending(current@, 0, next@, c));
                        }
                        self.lemma_walk_found(start_pos, all@, done, p);
                    }
                }
            }
        }
        all
    }

    /// What holds of the search once the cell at `a`, near the cell `p`
    /// that is being gone on from and not tagged so far, has been tagged
    /// and taken into the area, and put among the cells that wait if it
    /// is blank.
    proof fn lemma_taken_in(
        &self,
        s: Position,
        states: Seq<SlotState>,
        all: Seq<Position>,
        done: Set<Position>,
        p: Position,
        current: Seq<Position>,
        n: int,
        next: Seq<Position>,
        a: Position,
    )
        requires
            self.wf(),
            on_board(s, self.lim()),
            self.rooted(s, p),
            near(p, a, self.lim()),
            self.searching(s, states, all, done, Some(p), current, n, next),
            states[slot_of(a.0 as int, a.1 as int)] != SlotState::Tagged,
        ensures
            self.searching(
                s,
                states.update(slot_of(a.0 as int, a.1 as int), SlotState::Tagged),
                all.push(a),
                done,
                Some(p),
                current,
                n,
                if states[slot_of(a.0 as int, a.1 as int)] == SlotState::Empty {
                    next.push(a)
                } else {
                    next
                },
            ),
            forall|c: Position| all.contains(c) ==> #[trigger] all.push(a).contains(c),
            all.push(a).contains(a),
    {
        let j = slot_of(a.0 as int, a.1 as int);
        let st = states[j];
        let states1 = states.update(j, SlotState::Tagged);
        let all1 = all.push(a);
        let next1 = if st == SlotState::Empty {
            next.push(a)
        } else {
            next
        };
        lemma_push_holds(all, a);
        lemma_pending_push(current, n, next, a);
        self.lemma_walk_on(s, p, a);
        assert(self.states()[j] == st);
        assert(!all.contains(a));
        assert forall|c: Position|
            (states1[slot_of(c.0 as int, c.1 as int)] == SlotState::Tagged)
                == #[trigger] all1.contains(c) by {
            if c != a {
                assert(slot_of(c.0 as int, c.1 as int) != j);
                assert(all.contains(c) == (states[slot_of(c.0 as int, c.1 as int)]
                    == SlotState::Tagged));
            }
        }
        assert forall|i: int|
            0 <= i < SLOTS && #[trigger] states1[i] != SlotState::Tagged implies states1[i]
            == self.states()[i] by {
            assert(states1[i] == states[i]);
        }
        assert forall|m: int| 0 <= m < all1.len() implies self.in_area(s, #[trigger] all1[m]) by {
            if m < all.len() {
                assert(all1[m] == all[m]);
            }
        }
        assert forall|m: int| 0 <= m < next1.len() implies self.rooted(
            s,
            #[trigger] next1[m],
        ) by {
            if m < next.len() {
                assert(next1[m] == next[m]);
            }
        }
        assert forall|e: Position, c: Position|
            done.contains(e) && #[trigger] near(e, c, self.lim()) implies all1.contains(c) by {
            assert(all.contains(c));
        }
        assert forall|c: Position| #[trigger] all1.contains(c) && self.blank(c) implies done.contains(
            c,
        ) || Some(p) == Some(c) || pending(current, n, next1, c) by {
            if c == a {
                assert(st == SlotState::Empty);
            } else {
                assert(all.contains(c));
            }
        }
        assert(done.contains(s) || Some(p) == Some(s) || pending(current, n, next1, s));
        assert(all1.no_duplicates());
    }

    /// A cell near a cell from which the search goes on belongs to the
    /// area.
    proof fn lemma_walk_on(&self, s: Position, p: Position, a: Position)
        requires
            on_board(s, self.lim()),
            self.rooted(s, p),
            near(p, a, self.lim()),
        ensures
            self.in_area(s, a),
            self.blank(a) ==> self.rooted(s, a),
    {
        if p == s {
            let w = seq![s, a];
            assert(self.is_walk(w));
            assert(w[0] == s && w.last() == a);
        } else {
            let w = choose|w: Seq<Position>| #[trigger] self.is_walk(w) && w[0] == s && w.last() == p;
            let v = w.push(a);
            assert forall|n: int| 0 <= n < v.len() - 1 implies on_board(
                #[trigger] v[n],
                self.lim(),
            ) && near(v[n], v[n + 1], self.lim()) by {
                assert(v[n] == w[n]);
                if n < w.len() - 1 {
                    assert(v[n + 1] == w[n + 1]);
                } else {
                    assert(v[n] == p);
                }
            }
            assert forall|n: int| 0 < n < v.len() - 1 implies self.blank(#[trigger] v[n]) by {
                assert(v[n] == w[n]);
                if n == w.len() - 1 {
                    assert(v[n] == p);
                }
            }
            assert(self.is_walk(v));
            assert(v[0] == s && v.last() == a);
        }
    }

    /// When no cell waits any more, the cell at the end of a walk from
    /// the start has been taken into the area.
    proof fn lemma_walk_found(
        &self,
        s: Position,
        all: Seq<Position>,
        done: Set<Position>,
        p: Seq<Position>,
    )
        requires
            self.is_walk(p),
            p[0] == s,
            done.contains(s),
            forall|e: Position, a: Position|
                done.contains(e) && #[trigger] near(e, a, self.lim()) ==> all.contains(a),
            forall|c: Position| #[trigger] all.contains(c) && self.blank(c) ==> done.contains(c),
        ensures
            all.contains(p.last()),
        decreases p.len(),
    {
        let len = p.len() as int;
        if len == 2 {
            assert(near(p[0], p[0int + 1], self.lim()));
        } else {
            let q = p.drop_last();
            assert forall|n: int| 0 <= n < q.len() - 1 implies on_board(
                #[trigger] q[n],
                self.lim(),
            ) && near(q[n], q[n + 1], self.lim()) by {
                assert(q[n] == p[n] && q[n + 1] == p[n + 1]);
            }
            assert forall|n: int| 0 < n < q.len() - 1 implies self.blank(#[trigger] q[n]) by {
                assert(q[n] == p[n]);
            }
            assert(q[0] == p[0]);
            self.lemma_walk_found(s, all, done, q);
            let u = p[len - 2];
            assert(q.last() == u);
            assert(self.blank(u));
            assert(done.contains(u));
            assert(near(p[len - 2], p[len - 2 + 1], self.lim()));
        }
    }

    /// The bytes of the marks, slot by slot.
    pub open spec fn bytes(&self) -> Seq<u8> {
        Seq::new(SLOTS as nat, |i: int| self.marks()[i].0)
    }

    /// The slot states are what the marks tell.
    pub open spec fn told(&self) -> bool {
        forall|i: int|
            0 <= i < SLOTS ==> #[trigger] self.states()[i] == if low(self.marks()[i].0) == 0 {
                SlotState::Empty
            } else {
                SlotState::Sth
            }
    }

    /// Lays a mine at `p`: every cell around `p` that is no mine has
    /// its warning stepped up, and `p` becomes a mine.
    fn set_mine(&mut self, p: Position)
        requires
            old(self).told(),
            on_board(p, old(self).lim()),
        ensures
            final(self).told(),
            final(self).count == old(self).count,
            final(self).width == old(self).width,
            final(self).height == old(self).height,
            final(self).bytes() == settled(old(self).bytes(), old(self).lim(), p),
    {
        let ghost before = self.bytes();
        let lim = Position(self.width, self.height);
        let around_list = p.get_around(lim);
        let around = around_list.as_slice();
        proof {
            lemma_ring(p, lim);
        }
        let mut k: usize = 0;
        while k < around.len()
            invariant
                k <= around@.len(),
                around@ == ring(p, lim),
                around@.no_duplicates(),
                on_board(p, lim),
                lim == self.lim(),
                self.told(),
                self.count == old(self).count,
                self.width == old(self).width,
                self.height == old(self).height,
                before.len() == SLOTS,
                forall|i: int|
                    0 <= i < SLOTS ==> (#[trigger] self.marks()[i]).0 == settled_byte(
                        before[i],
                        false,
                        among(around@, k as int, pos_of(i)),
                    ),
            decreases around@.len() - k,
        {
            let a = around[k];
            let j = self.get_mut_by_pos(a);
            let mut m = self.mark_at(a);
            proof {
                lemma_ring(p, lim);
                assert(pos_of(j as int) == a);
                assert(!among(around@, k as int, a)) by {
                    if among(around@, k as int, a) {
                        let n = choose|n: int| 0 <= n < k && #[trigger] around@[n] == a;
                        assert(around@[n] == around@[k as int]);
                    }
                }
                lemma_step(m.0);
                lemma_nibbles(m.0, 0);
            }
            if !m.is_mine() {
                m.bump_warn(true);
                self.set_mark(a, m);
                self.set_slot_state(a, SlotState::Sth);
            }
            proof {
                assert forall|i: int| 0 <= i < SLOTS implies (#[trigger] self.marks()[i]).0
                    == settled_byte(before[i], false, among(around@, k + 1, pos_of(i))) by {
                    let c = pos_of(i);
                    if i == j {
                        assert(among(around@, k + 1, c)) by {
                            assert(around@[k as int] == c);
                        }
                    } else {
                        assert(c != a);
                        if among(around@, k + 1, c) {
                            let n = choose|n: int| 0 <= n < k + 1 && #[trigger] around@[n] == c;
                            assert(n < k);
                        }
                        if among(around@, k as int, c) {
                            let n = choose|n: int| 0 <= n < k && #[trigger] around@[n] == c;
                            assert(0 <= n < k + 1);
                        }
                    }
                }
            }
            k += 1;
        }
        let i = self.get_mut_by_pos(p);
        let mut m = self.mark_at(p);
        m.set_mine();
        self.set_mark(p, m);
        self.set_slot_state(p, SlotState::Sth);
        proof {
            assert forall|n: int| 0 <= n < SLOTS implies self.bytes()[n] == settled(
                before,
                lim,
                p,
            )[n] by {
                let c = pos_of(n);
                if n == i {
                    assert(c == p);
                    assert(!among(around@, around@.len() as int, c)) by {
                        if among(around@, around@.len() as int, c) {
                            let t = choose|t: int|
                                0 <= t < around@.len() && #[trigger] around@[t] == c;
                            assert(around@.contains(c));
                        }
                    }
                } else {
                    assert(c != p);
                    if among(around@, around@.len() as int, c) {
                        let t = choose|t: int| 0 <= t < around@.len() && #[trigger] around@[t] == c;
                        assert(around@.contains(c));
                    }
                    if near(p, c, lim) {
                        assert(around@.contains(c));
                        let t = choose|t: int| 0 <= t < around@.len() && around@[t] == c;
                        assert(among(around@, around@.len() as int, c));
                    }
                }
            }
            assert(self.bytes() =~= settled(before, lim, p));
        }
    }

    /// Lays a mine at a cell drawn at random among the cells of the
    /// board that are neither opened nor mines, and returns where; lays
    /// none and returns `None` if there is no such cell.
    fn try_random_one(&mut self, rng: &mut ThreadRng) -> (r: Option<Position>)
        requires
            old(self).told(),
        ensures
            final(self).told(),
            final(self).count == old(self).count,
            final(self).width == old(self).width,
            final(self).height == old(self).height,
            match r {
                Some(q) => {
                    &&& on_board(q, old(self).lim())
                    &&& free_byte(old(self).byte(q.0 as int, q.1 as int))
                    &&& final(self).bytes() == settled(old(self).bytes(), old(self).lim(), q)
                },
                None => {
                    &&& final(self).bytes() == old(self).bytes()
                    &&& forall|c: Position|
                        on_board(c, old(self).lim()) ==> !free_byte(
                            #[trigger] old(self).byte(c.0 as int, c.1 as int),
                        )
                },
            },
    {
        let mut cands: Vec<Position> = Vec::new();
        let mut y: u16 = 0;
        while y < self.height as u16
            invariant
                y <= self.height,
                self.told(),
                forall|m: int|
                    0 <= m < cands@.len() ==> on_board(#[trigger] cands@[m], self.lim())
                        && free_byte(self.byte(cands@[m].0 as int, cands@[m].1 as int)),
                cands@.len() == 0 ==> forall|c: Position|
                    on_board(c, self.lim()) && c.1 < y ==> !free_byte(
                        #[trigger] self.byte(c.0 as int, c.1 as int),
                    ),
            decreases self.height - y,
        {
            let mut x: u16 = 0;
            while x < self.width as u16
                invariant
                    y < self.height,
                    x <= self.width,
                    self.told(),
                    forall|m: int|
                        0 <= m < cands@.len() ==> on_board(#[trigger] cands@[m], self.lim())
                            && free_byte(self.byte(cands@[m].0 as int, cands@[m].1 as int)),
                    cands@.len() == 0 ==> forall|c: Position|
                        on_board(c, self.lim()) && (c.1 < y || (c.1 == y && c.0 < x))
                            ==> !free_byte(#[trigger] self.byte(c.0 as int, c.1 as int)),
                decreases self.width - x,
            {
                let m = self.mark_at(Position(x as u8, y as u8));
                if !m.is_open() && !m.is_mine() {
                    cands.push(Position(x as u8, y as u8));
                }
                x += 1;
            }
            y += 1;
        }
        if cands.len() == 0 {
            assert(self.bytes() =~= old(self).bytes());
            return None;
        }
        let p = cands[random_below(rng, cands.len())];
        self.set_mine(p);
        Some(p)
    }

    /// Moves the mine at `(x, y)` to another cell, and returns where it
    /// went.
    ///
    /// The mine is lifted: the cells around it that are no mines have
    /// their warning stepped down, and its own cell takes the number of
    /// mines around it. Then it is laid again, at a cell drawn at random
    /// among the cells around `(x, y)` that are neither opened nor
    /// mines; if there is none, among all such cells of the board; and
    /// if there is none either, where it was.
    #[verifier::rlimit(40)]
    pub fn move_mine_randomly(&mut self, x: u8, y: u8) -> (q: Position)
        requires
            old(self).wf(),
            old(self).is_mine_at(Position(x, y)),
        ensures
            final(self).wf(),
            final(self).count == old(self).count,
            final(self).width == old(self).width,
            final(self).height == old(self).height,
            on_board(q, old(self).lim()),
            final(self).bytes() == settled(
                lifted(
                    old(self).bytes(),
                    old(self).lim(),
                    Position(x, y),
                    old(self).mines_near(Position(x, y)) as u8,
                ),
                old(self).lim(),
                q,
            ),
            old(self).can_take(Position(x, y), q),
            old(self).counted() ==> final(self).counted(),
            old(self).counted() ==> forall|c: Position|
                on_board(c, old(self).lim()) ==> (#[trigger] final(self).is_mine_at(c) <==> c == q
                    || (old(self).is_mine_at(c) && c != Position(x, y))),
    {
        let p = Position(x, y);
        let ghost before = *self;
        let lim = Position(self.width, self.height);
        proof {
            // beyond the board no cell is a mine
            if !self.has(x as int, y as int) {
                assert(low(self.marks()[slot_of(x as int, y as int)].0) == 0);
            }
            assert(on_board(p, lim));
        }
        let mut ls_around: Vec<Position> = Vec::with_capacity(8);
        // count around mines
        let mut w: u8 = 0;
        let around_list = p.get_around(lim);
        let around = around_list.as_slice();
        proof {
            lemma_ring(p, lim);
        }
        let mut k: usize = 0;
        while k < around.len()
            invariant
                k <= around@.len(),
                around@.len() <= 8,
                around@ == ring(p, lim),
                around@.no_duplicates(),
                on_board(p, lim),
                lim == self.lim(),
                lim == before.lim(),
                before.wf(),
                self.told(),
                self.count == old(self).count,
                self.width == old(self).width,
                self.height == old(self).height,
                w == tally(before.mine_marks(p), k as int),
                w <= k,
                forall|i: int|
                    0 <= i < SLOTS ==> (#[trigger] self.marks()[i]).0 == lifted_byte(
                        before.marks()[i].0,
                        false,
                        among(around@, k as int, pos_of(i)),
                        0,
                    ),
                forall|m: int|
                    0 <= m < ls_around@.len() ==> near(p, #[trigger] ls_around@[m], lim)
                        && free_byte(before.byte(ls_around@[m].0 as int, ls_around@[m].1 as int)),
                ls_around@.len() == 0 ==> forall|n: int|
                    0 <= n < k ==> !free_byte(
                        before.byte((#[trigger] around@[n]).0 as int, around@[n].1 as int),
                    ),
            decreases around@.len() - k,
        {
            let ap = around[k];
            let j = self.get_mut_by_pos(ap);
            let mut am = self.mark_at(ap);
            proof {
                lemma_ring(p, lim);
                assert(around@.contains(ap));
                assert(pos_of(j as int) == ap);
                assert(!among(around@, k as int, ap)) by {
                    if among(around@, k as int, ap) {
                        let n = choose|n: int| 0 <= n < k && #[trigger] around@[n] == ap;
                        assert(around@[n] == around@[k as int]);
                    }
                }
                assert(am.0 == before.byte(ap.0 as int, ap.1 as int));
                lemma_step(am.0);
                lemma_nibbles(am.0, 0);
                lemma_keeps_low(am.0, 0);
            }
            if am.is_mine() {
                w += 1;
            } else {
                // cache around that not open
                if !am.is_open() {
                    ls_around.push(ap);
                }
                // update around warn
                let bw = am.bump_warn(false);
                self.set_mark(ap, am);
                if bw < 1 {
                    self.set_slot_state(ap, SlotState::Empty);
                }
            }
            proof {
                assert forall|i: int| 0 <= i < SLOTS implies (#[trigger] self.marks()[i]).0
                    == lifted_byte(before.marks()[i].0, false, among(around@, k + 1, pos_of(i)), 0) by {
                    let c = pos_of(i);
                    if i == j {
                        assert(among(around@, k + 1, c)) by {
                            assert(around@[k as int] == c);
                        }
                    } else {
                        assert(c != ap);
                        if among(around@, k + 1, c) {
                            let n = choose|n: int| 0 <= n < k + 1 && #[trigger] around@[n] == c;
                            assert(n < k);
                        }
                        if among(around@, k as int, c) {
                            let n = choose|n: int| 0 <= n < k && #[trigger] around@[n] == c;
                            assert(0 <= n < k + 1);
                        }
                    }
                }
            }
            k += 1;
        }
        // remove mine
        let i = self.get_mut_by_pos(p);
        let mut pm = self.mark_at(p);
        proof {
            lemma_nibbles(pm.0, w);
        }
        pm.set_warn(w);
        self.set_mark(p, pm);
        if w < 1 {
            self.set_slot_state(p, SlotState::Empty);
        }
        let ghost mid = *self;
        proof {
            assert forall|n: int| 0 <= n < SLOTS implies mid.bytes()[n] == lifted(
                before.bytes(),
                lim,
                p,
                w,
            )[n] by {
                let c = pos_of(n);
                if n == i {
                    assert(c == p);
                    assert(!among(around@, around@.len() as int, c)) by {
                        if among(around@, around@.len() as int, c) {
                            let t = choose|t: int|
                                0 <= t < around@.len() && #[trigger] around@[t] == c;
                            assert(around@.contains(c));
                        }
                    }
                } else {
                    assert(c != p);
                    if among(around@, around@.len() as int, c) {
                        let t = choose|t: int| 0 <= t < around@.len() && #[trigger] around@[t] == c;
                        assert(around@.contains(c));
                    }
                    if near(p, c, lim) {
                        assert(around@.contains(c));
                        let t = choose|t: int| 0 <= t < around@.len() && around@[t] == c;
                        assert(among(around@, around@.len() as int, c));
                    }
                }
            }
            assert(mid.bytes() =~= lifted(before.bytes(), lim, p, w));
            assert(mid.told());
        }
        let len = ls_around.len();
        let q = if len < 1 {
            // 1. select from all position
            let mut rng = thread_rng();
            let drawn = self.try_random_one(&mut rng);
            proof {
                if drawn is None {
                    assert forall|c: Position| on_board(c, mid.lim()) implies !free_byte(
                        #[trigger] mid.bytes()[slot_of(c.0 as int, c.1 as int)],
                    ) by {
                        assert(!free_byte(mid.byte(c.0 as int, c.1 as int)));
                    }
                }
                before.lemma_none_around(mid.bytes(), p, w, drawn);
            }
            match drawn {
                Some(q) => q,
                None => {
                    // no cell can take the mine: it stays
                    self.set_mine(p);
                    p
                },
            }
        } else {
            // 2. select from around
            let mut rng = thread_rng();
            let q = ls_around[random_below(&mut rng, len)];
            self.set_mine(q);
            q
        };
        proof {
            before.lemma_moved(*self, p, q, w);
            if before.counted() {
                before.lemma_moved_counted(*self, p, q);
            }
        }
        q
    }

    /// Where the mine at `p` can go when it is moved: to a cell around
    /// `p` that is neither opened nor a mine; where there is none, to any
    /// such cell of the board, `p` itself among them once its mine is
    /// lifted; and to `p` where there is no such cell at all.
    pub open spec fn can_take(&self, p: Position, q: Position) -> bool {
        let l = self.lim();
        let around = exists|c: Position|
            near(p, c, l) && free_byte(#[trigger] self.byte(c.0 as int, c.1 as int));
        let open_p = self.byte(p.0 as int, p.1 as int) & 0x80 == 0x80;
        if around {
            near(p, q, l) && free_byte(self.byte(q.0 as int, q.1 as int))
        } else if q == p {
            !open_p || forall|c: Position|
                on_board(c, l) && c != p ==> !free_byte(
                    #[trigger] self.byte(c.0 as int, c.1 as int),
                )
        } else {
            free_byte(self.byte(q.0 as int, q.1 as int))
        }
    }

    /// Where no cell around `p` can take the mine, whatever is drawn
    /// from the board with the mine lifted is a cell that can take it,
    /// and if nothing is drawn the mine may stay.
    proof fn lemma_none_around(&self, mid: Seq<u8>, p: Position, w: u8, drawn: Option<Position>)
        requires
            self.wf(),
            on_board(p, self.lim()),
            self.is_mine_at(p),
            w <= 8,
            mid == lifted(self.bytes(), self.lim(), p, w),
            forall|n: int|
                0 <= n < ring(p, self.lim()).len() ==> !free_byte(
                    self.byte(
                        (#[trigger] ring(p, self.lim())[n]).0 as int,
                        ring(p, self.lim())[n].1 as int,
                    ),
                ),
            match drawn {
                Some(q) => on_board(q, self.lim()) && free_byte(mid[slot_of(q.0 as int, q.1 as int)]),
                None => forall|c: Position|
                    on_board(c, self.lim()) ==> !free_byte(
                        #[trigger] mid[slot_of(c.0 as int, c.1 as int)],
                    ),
            },
        ensures
            self.can_take(
                p,
                match drawn {
                    Some(q) => q,
                    None => p,
                },
            ),
    {
        let l = self.lim();
        lemma_ring(p, l);
        assert forall|c: Position| near(p, c, l) implies !free_byte(
            #[trigger] self.byte(c.0 as int, c.1 as int),
        ) by {
            assert(ring(p, l).contains(c));
            let n = choose|n: int| 0 <= n < ring(p, l).len() && ring(p, l)[n] == c;
            assert(!free_byte(self.byte(ring(p, l)[n].0 as int, ring(p, l)[n].1 as int)));
        }
        assert forall|c: Position| c != p implies (free_byte(
            #[trigger] self.byte(c.0 as int, c.1 as int),
        ) ==> free_byte(mid[slot_of(c.0 as int, c.1 as int)])) && (!near(p, c, l) ==> mid[slot_of(
            c.0 as int,
            c.1 as int,
        )] == self.byte(c.0 as int, c.1 as int)) by {
            let i = slot_of(c.0 as int, c.1 as int);
            let b = self.byte(c.0 as int, c.1 as int);
            assert(pos_of(i) == c);
            assert(self.bytes()[i] == b);
            lemma_opened_kept(b, w);
            lemma_step(b);
        }
        let i = slot_of(p.0 as int, p.1 as int);
        let b = self.byte(p.0 as int, p.1 as int);
        assert(pos_of(i) == p);
        assert(self.bytes()[i] == b);
        assert(mid[i] == high(b) | low(w));
        lemma_opened_kept(b, w);
        lemma_nibbles(b, w);
        match drawn {
            Some(q) => {
                if q != p {
                    if near(p, q, l) {
                        let n = choose|n: int| 0 <= n < ring(p, l).len() && ring(p, l)[n] == q;
                        let bq = self.byte(q.0 as int, q.1 as int);
                        let j = slot_of(q.0 as int, q.1 as int);
                        assert(pos_of(j) == q);
                        assert(self.bytes()[j] == bq);
                        lemma_opened_kept(bq, w);
                        lemma_step(bq);
                        assert(!free_byte(mid[j]));
                    }
                }
            },
            None => {
                assert(!free_byte(mid[i]));
            },
        }
    }

    /// Every cell of the board that is no mine holds the number of mines
    /// around it.
    pub open spec fn counted(&self) -> bool {
        forall|c: Position|
            on_board(c, self.lim()) && !#[trigger] self.is_mine_at(c) ==> low(
                self.byte(c.0 as int, c.1 as int),
            ) == self.mines_near(c)
    }

    /// What is known of the mines around an on-board cell `c` of a
    /// counted board with a mine at `p`, when `q` is to take that mine.
    proof fn lemma_around_known(&self, p: Position, q: Position, c: Position)
        requires
            self.wf(),
            self.counted(),
            on_board(p, self.lim()),
            on_board(q, self.lim()),
            on_board(c, self.lim()),
            self.is_mine_at(p),
            q == p || !self.is_mine_at(q),
        ensures
            0 <= self.mines_near(c) <= 8,
            near(p, c, self.lim()) ==> self.mines_near(c) >= 1,
            near(q, c, self.lim()) && q != p ==> self.mines_near(c) <= 7,
    {
        let l = self.lim();
        let r = ring(c, l);
        lemma_ring(c, l);
        lemma_tally_bounds(self.mine_marks(c), r.len() as int);
        if near(p, c, l) {
            assert(r.contains(p));
            let k = choose|k: int| 0 <= k < r.len() && r[k] == p;
            lemma_tally_room(self.mine_marks(c), k, r.len() as int);
        }
        if near(q, c, l) && q != p {
            assert(r.contains(q));
            let k = choose|k: int| 0 <= k < r.len() && r[k] == q;
            lemma_tally_room(self.mine_marks(c), k, r.len() as int);
        }
    }

    /// What cell `c` holds once the mine at `p` has gone to `q`, if it is
    /// no mine then: the mines around it as they were, less the one at
    /// `p`, and the one at `q`.
    pub open spec fn held_after(&self, p: Position, q: Position, c: Position) -> int {
        (if c == p {
            self.mines_near(p)
        } else {
            self.mines_near(c) - if near(p, c, self.lim()) {
                1int
            } else {
                0int
            }
        }) + if near(q, c, self.lim()) {
            1int
        } else {
            0int
        }
    }

    /// What becomes of one cell when the mine at `p` goes to `q`.
    proof fn lemma_moved_cell(&self, after: Self, p: Position, q: Position, c: Position)
        requires
            self.wf(),
            self.counted(),
            on_board(p, self.lim()),
            on_board(q, self.lim()),
            on_board(c, self.lim()),
            self.is_mine_at(p),
            q == p || !self.is_mine_at(q),
            after.width == self.width,
            after.height == self.height,
            after.bytes() == settled(
                lifted(self.bytes(), self.lim(), p, self.mines_near(p) as u8),
                self.lim(),
                q,
            ),
        ensures
            after.is_mine_at(c) <==> c == q || (self.is_mine_at(c) && c != p),
            !after.is_mine_at(c) ==> low(after.byte(c.0 as int, c.1 as int)) == self.held_after(
                p,
                q,
                c,
            ),
    {
        let l = self.lim();
        self.lemma_around_known(p, q, p);
        self.lemma_around_known(p, q, c);
        let w = self.mines_near(p) as u8;
        let n = self.mines_near(c);
        let b = self.byte(c.0 as int, c.1 as int);
        let m = lifted_byte(b, c == p, near(p, c, l), w);
        let e = settled_byte(m, c == q, near(q, c, l));
        assert(after.byte(c.0 as int, c.1 as int) == e) by {
            let mid = lifted(self.bytes(), l, p, w);
            let i = slot_of(c.0 as int, c.1 as int);
            assert(pos_of(i) == c);
            assert(self.bytes()[i] == b);
            assert(mid[i] == m);
            assert(after.bytes()[i] == e);
        }
        assert(self.is_mine_at(c) == (low(b) > 8));
        assert(after.is_mine_at(c) == (low(e) > 8));
        if !self.is_mine_at(c) {
            assert(low(b) == n);
        }
        lemma_moved_byte(b, w, c == p, near(p, c, l), c == q, near(q, c, l));
    }

    /// Moving a mine keeps the warnings right: if every cell that is no
    /// mine held the number of mines around it before the mine at `p`
    /// went to `q`, every such cell does afterwards.
    pub proof fn lemma_moved_counted(&self, after: Self, p: Position, q: Position)
        requires
            self.wf(),
            self.counted(),
            on_board(p, self.lim()),
            on_board(q, self.lim()),
            self.is_mine_at(p),
            q == p || !self.is_mine_at(q),
            after.width == self.width,
            after.height == self.height,
            after.bytes() == settled(
                lifted(self.bytes(), self.lim(), p, self.mines_near(p) as u8),
                self.lim(),
                q,
            ),
        ensures
            after.counted(),
            forall|c: Position|
                on_board(c, self.lim()) ==> (#[trigger] after.is_mine_at(c) <==> c == q || (
                self.is_mine_at(c) && c != p)),
    {
        let l = self.lim();
        let w = self.mines_near(p) as u8;
        let mid = lifted(self.bytes(), l, p, w);
        self.lemma_around_known(p, q, p);
        // which cells are mines afterwards, and what the others hold
        assert forall|c: Position| on_board(c, l) implies (#[trigger] after.is_mine_at(c) <==> c
            == q || (self.is_mine_at(c) && c != p)) && (!after.is_mine_at(c) ==> low(
            after.byte(c.0 as int, c.1 as int),
        ) == self.held_after(p, q, c)) by {
            self.lemma_moved_cell(after, p, q, c);
        }
        assert forall|c: Position| on_board(c, l) && !#[trigger] after.is_mine_at(c) implies low(
            after.byte(c.0 as int, c.1 as int),
        ) == after.mines_near(c) by {
            let r = ring(c, l);
            let n = r.len() as int;
            lemma_ring(c, l);
            let m0 = self.mine_marks(c);
            let m1 = after.mine_marks(c);
            assert(low(after.byte(c.0 as int, c.1 as int)) == self.held_after(p, q, c));
            assert(c != q);
            if c != p {
                assert(!self.is_mine_at(c));
            }
            assert forall|k: int| 0 <= k < n implies m1[k] == (r[k] == q || (m0[k] && r[k] != p)) by {
                assert(r.contains(r[k]));
                assert(on_board(r[k], l));
                assert(after.is_mine_at(r[k]) <==> r[k] == q || (self.is_mine_at(r[k]) && r[k]
                    != p));
            }
            if q == p {
                assert forall|k: int| 0 <= k < n implies m1[k] == m0[k] by {}
                lemma_tally_agree(m1, m0, n);
            } else {
                // the marks with the mine at `p` taken off
                let mm = Seq::new(n as nat, |k: int| m0[k] && r[k] != p);
                if near(p, c, l) {
                    assert(r.contains(p));
                    let kp = choose|k: int| 0 <= k < n && r[k] == p;
                    assert forall|k: int| 0 <= k < n && k != kp implies m0[k] == mm[k] by {
                        assert(r[k] != r[kp]);
                    }
                    lemma_tally_update(m0, mm, kp, n);
                } else {
                    assert forall|k: int| 0 <= k < n implies m0[k] == mm[k] by {
                        assert(r.contains(r[k]));
                    }
                    lemma_tally_agree(m0, mm, n);
                }
                if near(q, c, l) {
                    assert(r.contains(q));
                    let kq = choose|k: int| 0 <= k < n && r[k] == q;
                    assert forall|k: int| 0 <= k < n && k != kq implies mm[k] == m1[k] by {
                        assert(r[k] != r[kq]);
                    }
                    assert(!mm[kq]);
                    lemma_tally_update(mm, m1, kq, n);
                } else {
                    assert forall|k: int| 0 <= k < n implies mm[k] == m1[k] by {
                        assert(r.contains(r[k]));
                    }
                    lemma_tally_agree(mm, m1, n);
                }
            }
        }
    }

    /// What holds of a board from which the mine at `p` was lifted and
    /// on which it was laid again at `q`.
    proof fn lemma_moved(&self, after: Self, p: Position, q: Position, w: u8)
        requires
            self.wf(),
            on_board(p, self.lim()),
            on_board(q, self.lim()),
            self.is_mine_at(p),
            w == self.mines_near(p),
            after.told(),
            after.width == self.width,
            after.height == self.height,
            after.bytes() == settled(lifted(self.bytes(), self.lim(), p, w), self.lim(), q),
        ensures
            after.wf(),
    {
        let l = self.lim();
        let mid = lifted(self.bytes(), l, p, w);
        assert forall|x: int, y: int| 0 <= x < 256 && 0 <= y < 256 && !after.has(x, y) implies low(
            #[trigger] after.marks()[slot_of(x, y)].0,
        ) == 0 by {
            let i = slot_of(x, y);
            let c = pos_of(i);
            assert(c == Position(x as u8, y as u8));
            assert(!on_board(c, l));
            assert(!near(p, c, l) && !near(q, c, l));
            assert(c != p && c != q);
            assert(after.bytes()[i] == settled(mid, l, q)[i]);
            assert(mid[i] == self.bytes()[i]);
            assert(low(self.marks()[slot_of(x, y)].0) == 0);
        }
    }

    /// Opens the cell at `(x, y)`, if the board has it.
    pub fn open(&mut self, x: u8, y: u8)
        requires
            old(self).wf(),
        ensures
            final(self).wf(),
            final(self).count == old(self).count,
            final(self).width == old(self).width,
            final(self).height == old(self).height,
            final(self).state_map == old(self).state_map,
            final(self).marks() == if old(self).has(x as int, y as int) {
                old(self).marks().update(
                    slot_of(x as int, y as int),
                    Mark(old(self).byte(x as int, y as int) | 0x80),
                )
            } else {
                old(self).marks()
            },
    {
        if let Some(i) = self.get_mut(x, y) {
            let mut mark = self.mark_at(Position(x, y));
            proof {
                lemma_keeps_low(mark.0, 0);
            }
            mark.open();
            self.set_mark(Position(x, y), mark);
            proof {
                self.lemma_still_wf(*old(self), i as int);
            }
        }
    }

    /// Opens the cell at `p`, if the board has it.
    pub fn open_by_pos(&mut self, p: Position)
        requires
            old(self).wf(),
        ensures
            final(self).wf(),
            final(self).count == old(self).count,
            final(self).width == old(self).width,
            final(self).height == old(self).height,
            final(self).state_map == old(self).state_map,
            final(self).marks() == if old(self).has(p.0 as int, p.1 as int) {
                old(self).marks().update(
                    slot_of(p.0 as int, p.1 as int),
                    Mark(old(self).byte(p.0 as int, p.1 as int) | 0x80),
                )
            } else {
                old(self).marks()
            },
    {
        self.open(p.0, p.1)
    }

    /// Switches the flag of the cell at `(x, y)`, if the board has it.
    pub fn set_flag(&mut self, x: u8, y: u8)
        requires
            old(self).wf(),
        ensures
            final(self).wf(),
            final(self).count == old(self).count,
            final(self).width == old(self).width,
            final(self).height == old(self).height,
            final(self).state_map == old(self).state_map,
            final(self).marks() == if old(self).has(x as int, y as int) {
                old(self).marks().update(
                    slot_of(x as int, y as int),
                    Mark(old(self).byte(x as int, y as int) ^ 0x40),
                )
            } else {
                old(self).marks()
            },
    {
        if let Some(i) = self.get_mut(x, y) {
            let mut mark = self.mark_at(Position(x, y));
            proof {
                lemma_keeps_low(mark.0, 0);
            }
            mark.set_flag();
            self.set_mark(Position(x, y), mark);
            proof {
                self.lemma_still_wf(*old(self), i as int);
            }
        }
    }

    /// Switches the flag of the cell at `p`, if the board has it.
    pub fn set_flag_by_pos(&mut self, p: Position)
        requires
            old(self).wf(),
        ensures
            final(self).wf(),
            final(self).count == old(self).count,
            final(self).width == old(self).width,
            final(self).height == old(self).height,
            final(self).state_map == old(self).state_map,
            final(self).marks() == if old(self).has(p.0 as int, p.1 as int) {
                old(self).marks().update(
                    slot_of(p.0 as int, p.1 as int),
                    Mark(old(self).byte(p.0 as int, p.1 as int) ^ 0x40),
                )
            } else {
                old(self).marks()
            },
    {
        self.set_flag(p.0, p.1)
    }

    /// Brings the state of the cell at `(x, y)` towards `mark_val`, if
    /// the board has the cell: see `updated`. The warning stays.
    pub fn update_by(&mut self, x: u8, y: u8, mark_val: u8)
        requires
            old(self).wf(),
        ensures
            final(self).wf(),
            final(self).count == old(self).count,
            final(self).width == old(self).width,
            final(self).height == old(self).height,
            final(self).state_map == old(self).state_map,
            final(self).marks() == if old(self).has(x as int, y as int) {
                old(self).marks().update(
                    slot_of(x as int, y as int),
                    Mark(updated(old(self).byte(x as int, y as int), mark_val)),
                )
            } else {
                old(self).marks()
            },
    {
        let i = match self.get_mut(x, y) {
            Some(i) => i,
            None => {
                return ;
            },
        };
        let mut mark = self.mark_at(Position(x, y));
        let def = Mark(mark.0 ^ mark_val);
        proof {
            lemma_keeps_low(mark.0, mark_val);
        }
        if def.is_open() {
            mark.open()
        }
        if def.is_flagged() != mark.is_flagged() {
            mark.set_flag()
        }
        if def.guess_safe() {
            mark.set_safe()
        }
        if def.guess_suspicious() {
            mark.set_suspicious()
        }
        self.set_mark(Position(x, y), mark);
        proof {
            self.lemma_still_wf(*old(self), i as int);
        }
    }

    /// The positions of the cells that carry a guess, row by row.
    pub fn get_all_guess(&self) -> (ls: Vec<Position>)
        ensures
            ls@ == self.guessed(self.height as int, 0),
    {
        let mut ls: Vec<Position> = Vec::new();
        let mut y: u16 = 0;
        while y < self.height as u16
            invariant
                y <= self.height,
                ls@ == self.guessed(y as int, 0),
            decreases self.height - y,
        {
            let mut x: u16 = 0;
            while x < self.width as u16
                invariant
                        y < self.height,
                    x <= self.width,
                    ls@ == self.guessed(y as int, x as int),
                decreases self.width - x,
            {
                let m = self.get(x as u8, y as u8);
                if m.is_guess() {
                    ls.push(Position(x as u8, y as u8));
                }
                x += 1;
            }
            y += 1;
        }
        ls
    }

    /// The positions that carry a guess among the cells of the rows
    /// before `y` and the first `x` cells of row `y`.
    pub open spec fn guessed(&self, y: int, x: int) -> Seq<Position>
        decreases y, x,
    {
        if y < 0 || x < 0 || (y == 0 && x == 0) {
            Seq::empty()
        } else if x == 0 {
            self.guessed(y - 1, self.width as int)
        } else if self.byte(x - 1, y) & 0x30 != 0 {
            self.guessed(y, x - 1).push(Position((x - 1) as u8, y as u8))
        } else {
            self.guessed(y, x - 1)
        }
    }

    /// Draws the board: for every cell of a row two characters, ` +` for
    /// a mine, blanks for zero, else a blank and the warning; a line
    /// feed ends every row.
    pub fn format_str(&self) -> (buf: String)
        ensures
            buf@ == self.drawn(self.height as int, 0),
    {
        let mut buf = String::new();
        let mut y: u16 = 0;
        while y < self.height as u16
            invariant
                y <= self.height,
                buf@ == self.drawn(y as int, 0),
            decreases self.height - y,
        {
            let mut x: u16 = 0;
            while x < self.width as u16
                invariant
                        y < self.height,
                    x <= self.width,
                    buf@ == self.drawn(y as int, x as int),
                decreases self.width - x,
            {
                let m = self.get(x as u8, y as u8);
                buf.push(' ');
                if m.is_mine() {
                    buf.push('+');
                } else {
                    let w = m.get_warn();
                    if w == 0 {
                        buf.push(' ');
                    } else {
                        buf.push(digit(w));
                    }
                }
                x += 1;
            }
            buf.push('\n');
            y += 1;
        }
        buf
    }

    /// The glyph of the cell at `(x, y)`.
    pub open spec fn glyph(&self, x: int, y: int) -> char {
        let w = low(self.byte(x, y));
        if w > 8 {
            '+'
        } else if w == 0 {
            ' '
        } else {
            text::digit_of(w)
        }
    }

    /// The drawing of the rows before `y` and of the first `x` cells of
    /// row `y`.
    pub open spec fn drawn(&self, y: int, x: int) -> Seq<char>
        decreases y, x,
    {
        if y < 0 || x < 0 || (y == 0 && x == 0) {
            Seq::empty()
        } else if x == 0 {
            self.drawn(y - 1, self.width as int).push('\n')
        } else {
            self.drawn(y, x - 1).push(' ').push(self.glyph(x - 1, y))
        }
    }

    /// A board of which one mark has changed in its state alone is
    /// still as every operation expects it.
    proof fn lemma_still_wf(&self, before: Self, i: int)
        requires
            before.wf(),
            0 <= i < SLOTS,
            forall|j: int| 0 <= j < SLOTS && j != i ==> self.marks()[j] == before.marks()[j],
            low(self.marks()[i].0) == low(before.marks()[i].0),
            self.state_map == before.state_map,
            self.width == before.width,
            self.height == before.height,
        ensures
            self.wf(),
    {
        assert forall|x: int, y: int|
            0 <= x < 256 && 0 <= y < 256 && !self.has(x, y) implies low(
            #[trigger] self.marks()[slot_of(x, y)].0,
        ) == 0 by {
            assert(low(before.marks()[slot_of(x, y)].0) == 0);
        }
    }
}

/// Keeps `st` as the state of the slot of `p`.
fn set_state(g: &mut Box<[[SlotState; 256]; 256]>, p: Position, st: SlotState)
    ensures
        flat(*final(g)) == flat(*old(g)).update(slot_of(p.0 as int, p.1 as int), st),
{
    g[p.1 as usize][p.0 as usize] = st;
    assert(flat(*g) =~= flat(*old(g)).update(slot_of(p.0 as int, p.1 as int), st));
}

/// The warning that a byte holds once a mine near it has been lifted and
/// a mine near it laid.
pub proof fn lemma_moved_byte(b: u8, w: u8, at_p: bool, near_p: bool, at_q: bool, near_q: bool)
    requires
        w <= 8,
    ensures
        ({
            let m = lifted_byte(b, at_p, near_p, w);
            let e = settled_byte(m, at_q, near_q);
            &&& low(m) == if at_p {
                w
            } else if near_p && 0 < low(b) <= 8 {
                (low(b) - 1) as u8
            } else {
                low(b)
            }
            &&& low(e) == if at_q {
                9
            } else if near_q && low(m) <= 8 {
                (low(m) + 1) as u8
            } else {
                low(m)
            }
        }),
{
    let m = lifted_byte(b, at_p, near_p, w);
    lemma_nibbles(b, w);
    lemma_step(b);
    lemma_nibbles(m, 0);
    lemma_step(m);
}

/// Opening, flagging and guessing leave the warning of a mark alone,
/// and so does what `update_by` makes of them.
pub proof fn lemma_keeps_low(b: u8, v: u8)
    by (bit_vector)
    ensures
        (b | 0x80) & 0x0f == b & 0x0f,
        (b ^ 0x40) & 0x0f == b & 0x0f,
        (b | 0x10) & 0x0f == b & 0x0f,
        (b | 0x20) & 0x0f == b & 0x0f,
        ({
            let d = b ^ v;
            let b1 = if d & 0x80 == 0x80 {
                b | 0x80
            } else {
                b
            };
            let b2 = if (d & 0x40 == 0x40) != (b1 & 0x40 == 0x40) {
                b1 ^ 0x40
            } else {
                b1
            };
            let b3 = if d & 0x30 == 0x10 && b2 & 0x0f <= 8 {
                b2 | 0x10
            } else {
                b2
            };
            let b4 = if d & 0x30 == 0x20 {
                b3 | 0x20
            } else {
                b3
            };
            b4 & 0x0f == b & 0x0f
        }),
{
}

/// A copy of the slot states.
fn copy_states(v: &Box<[[SlotState; 256]; 256]>) -> (r: Box<[[SlotState; 256]; 256]>)
    ensures
        flat(r) == flat(*v),
{
    let mut r: Box<[[SlotState; 256]; 256]> = Box::new([[SlotState::Empty; 256]; 256]);
    let mut y: usize = 0;
    while y < 256
        invariant
            y <= 256,
            forall|i: int| 0 <= i < y * 256 ==> #[trigger] flat(r)[i] == flat(*v)[i],
        decreases 256 - y,
    {
        let mut x: usize = 0;
        while x < 256
            invariant
                y < 256,
                x <= 256,
                forall|i: int| 0 <= i < y * 256 + x ==> #[trigger] flat(r)[i] == flat(*v)[i],
            decreases 256 - x,
        {
            let ghost before = flat(r);
            set_state(&mut r, Position(x as u8, y as u8), v[y][x]);
            assert(flat(r)[y * 256 + x] == flat(*v)[y * 256 + x]);
            assert forall|i: int| 0 <= i < y * 256 + x + 1 implies #[trigger] flat(r)[i] == flat(
                *v,
            )[i] by {
                if i < y * 256 + x {
                    assert(flat(r)[i] == before[i]);
                }
            }
            x += 1;
        }
        y += 1;
    }
    assert(flat(r) =~= flat(*v));
    r
}

/// What a list holds once an item it did not hold is put behind it:
/// what it held and that item, and no item twice if it held none twice.
pub proof fn lemma_push_holds<A>(s: Seq<A>, x: A)
    ensures
        forall|c: A| #[trigger] s.push(x).contains(c) <==> s.contains(c) || c == x,
        s.no_duplicates() && !s.contains(x) ==> s.push(x).no_duplicates(),
{
    let t = s.push(x);
    assert forall|c: A| #[trigger] t.contains(c) <==> s.contains(c) || c == x by {
        if t.contains(c) {
            let i = choose|i: int| 0 <= i < t.len() && t[i] == c;
            if i < s.len() {
                assert(s[i] == c);
            }
        }
        if s.contains(c) {
            let i = choose|i: int| 0 <= i < s.len() && s[i] == c;
            assert(t[i] == c);
        }
        if c == x {
            assert(t[s.len() as int] == c);
        }
    }
    if s.no_duplicates() && !s.contains(x) {
        assert forall|i: int, j: int| 0 <= i < t.len() && 0 <= j < t.len() && i != j implies t[i]
            != t[j] by {
            if i < s.len() && j < s.len() {
                assert(s[i] != s[j]);
            } else if i < s.len() {
                assert(s.contains(s[i]));
            } else {
                assert(s.contains(s[j]));
            }
        }
    }
}

/// A list of positions without repeats is no longer than there are
/// slots.
pub proof fn lemma_positions_bound(list: Seq<Position>)
    requires
        list.no_duplicates(),
    ensures
        list.len() <= SLOTS,
{
    let slots = Seq::new(list.len(), |m: int| slot_of(list[m].0 as int, list[m].1 as int));
    assert(slots.no_duplicates()) by {
        assert forall|i: int, j: int|
            0 <= i < slots.len() && 0 <= j < slots.len() && i != j implies slots[i] != slots[j] by {
            assert(list[i] != list[j]);
        }
    }
    lemma_tally_of_list(slots, SLOTS as int);
    lemma_tally_bounds(Seq::new(SLOTS as nat, |j: int| slots.contains(j)), SLOTS as int);
}

} // verus!
