//! The board: a flat buffer of cells, the mines laid out in it, and the
//! regions that open together.

use crate::cache::RegionCache;
use crate::cell::{
    empty_of, flag_switched, flagged_of, lemma_flag_switched, mine_of, revealed, revealed_of,
    warn_of, Cell, MINE,
};
use crate::chance::{random_below, shuffle_bytes};
use crate::grid::{
    around_slot, index_at, is_neighbor, lemma_index, lemma_slot_by_index, slot_by_index,
    NO_INDEX,
};
use crate::layout::{
    fresh, hit_marks, hits, in_zone, lemma_filled, lemma_hits_ends, lemma_hits_next,
    lemma_hits_step, lemma_moved, lemma_shuffled, lemma_small, lemma_zone_room, outside_full,
    zone_clear, zone_size,
};
use crate::location::Loc;
use crate::opening::{
    gain, lemma_gain_single, lemma_gain_zero, lemma_opened_keeps, lemma_opened_twice, opened,
    opening, opens, remembered, remembered_around, target_at, targets_around,
};
use crate::region::{
    closed, count_regions, covered, floods, grouped, is_region, lemma_closed_holds_reach,
    lemma_pending_advance, lemma_pending_push, lemma_pending_turn, lemma_reaches_self,
    lemma_reaches_step, lemma_reaches_within, lemma_region_holds_start, lemma_region_of_member,
    lemma_seed, lemma_seeded, lemma_within_len, pending, reaches, region_of, regions_ok,
    seed_marks, seeded, warns, within,
};
use crate::tally::{
    around_marks, count_flags, count_mines, flags, flags_around, lemma_tally_agree,
    lemma_tally_bounds, lemma_tally_grows, mines, mines_around, tally, tally_around,
};
use crate::text::{digit, grid_text, stat_glyphs, warn_glyphs};
use rand::rngs::ThreadRng;
use rand::thread_rng;
use std::collections::HashSet;
use vstd::arithmetic::div_mod::{lemma_fundamental_div_mod, lemma_fundamental_div_mod_converse};
use vstd::prelude::*;
use vstd::std_specs::hash::group_hash_axioms;

verus! {

/// Index of the cell in column `x` of row `y` of a grid `w` wide and `h`
/// high, if there is such a cell.
#[inline]
pub fn loc_to_idx(x: usize, y: usize, w: usize, h: usize) -> (r: Option<usize>)
    requires
        w * h <= usize::MAX,
    ensures
        match r {
            Some(i) => index_at(x as int, y as int, w as int, h as int) == Some(i as int) && i < w
                * h,
            None => index_at(x as int, y as int, w as int, h as int) is None,
        },
{
    if x < w && y < h {
        proof {
            lemma_index(x as int, y as int, w as int, h as int);
        }
        Some(y * w + x)
    } else {
        None
    }
}

/// The indices of the eight places around cell `i`, clockwise from
/// north. A place beyond the border holds `NO_INDEX`, and so does every
/// place when `i` is no cell of the grid.
pub fn get_around_index(i: usize, w: usize, h: usize) -> (r: [usize; 8])
    requires
        w * h <= NO_INDEX,
    ensures
        forall|k: int| 0 <= k < 8 ==> r[k] as int == around_slot(i as int, w as int, h as int, k),
{
    let m: usize = NO_INDEX;
    let size = w * h;
    if i >= size {
        return [m, m, m, m, m, m, m, m];
    }
    assert(w > 0 && w <= w * h) by (nonlinear_arith)
        requires
            i < w * h,
    ;
    proof {
        lemma_slot_by_index(i as int, w as int, h as int, 0);
        lemma_slot_by_index(i as int, w as int, h as int, 1);
        lemma_slot_by_index(i as int, w as int, h as int, 2);
        lemma_slot_by_index(i as int, w as int, h as int, 3);
        lemma_slot_by_index(i as int, w as int, h as int, 4);
        lemma_slot_by_index(i as int, w as int, h as int, 5);
        lemma_slot_by_index(i as int, w as int, h as int, 6);
        lemma_slot_by_index(i as int, w as int, h as int, 7);
    }
    // which borders the cell touches
    let left = i % w == 0;
    let right = i % w + 1 == w;
    let top = i < w;
    let bottom = i >= size - w;
    // the four places straight on
    let wi = if left {
        m
    } else {
        i - 1
    };
    let ni = if top {
        m
    } else {
        i - w
    };
    let ei = if right {
        m
    } else {
        i + 1
    };
    let si = if bottom {
        m
    } else {
        i + w
    };
    // the four corners, one step east or west of north and south
    let a = if top || right {
        m
    } else {
        ni + 1
    };
    let b = if bottom || right {
        m
    } else {
        si + 1
    };
    let c = if bottom || left {
        m
    } else {
        si - 1
    };
    let d = if top || left {
        m
    } else {
        ni - 1
    };
    let r = [ni, a, ei, b, si, c, wi, d];
    proof {
        let wi_ = w as int;
        let hi_ = h as int;
        let ii = i as int;
        assert(ni as int == slot_by_index(ii, wi_, hi_, 0));
        assert(a as int == slot_by_index(ii, wi_, hi_, 1));
        assert(ei as int == slot_by_index(ii, wi_, hi_, 2));
        assert(b as int == slot_by_index(ii, wi_, hi_, 3));
        assert(si as int == slot_by_index(ii, wi_, hi_, 4));
        assert(c as int == slot_by_index(ii, wi_, hi_, 5));
        assert(wi as int == slot_by_index(ii, wi_, hi_, 6));
        assert(d as int == slot_by_index(ii, wi_, hi_, 7));
        assert forall|k: int| 0 <= k < 8 implies r[k] as int == around_slot(ii, wi_, hi_, k) by {
            if k == 0 {
            } else if k == 1 {
            } else if k == 2 {
            } else if k == 3 {
            } else if k == 4 {
            } else if k == 5 {
            } else if k == 6 {
            } else {
            }
        }
    }
    r
}

/// Walks over the cells of a board.
pub struct MinesIter<'a> {
    map: &'a Vec<u8>,
    idx: usize,
}

impl<'a> MinesIter<'a> {
    /// The cells walked over.
    pub closed spec fn cells(&self) -> Seq<u8> {
        self.map@
    }

    /// How many cells have been handed out.
    pub closed spec fn position(&self) -> int {
        self.idx as int
    }

    /// Hands out the next cell, or `None` when all have been handed out.
    pub fn next(&mut self) -> (r: Option<Cell>)
        ensures
            final(self).cells() == old(self).cells(),
            match r {
                Some(c) => {
                    &&& old(self).position() < old(self).cells().len()
                    &&& c.0 == old(self).cells()[old(self).position()]
                    &&& final(self).position() == old(self).position() + 1
                },
                None => {
                    &&& old(self).position() >= old(self).cells().len()
                    &&& final(self).position() == old(self).position()
                },
            },
    {
        if self.idx < self.map.len() {
            let c = Cell(self.map[self.idx]);
            self.idx += 1;
            Some(c)
        } else {
            None
        }
    }
}

/// The board of one game.
pub struct MineMap {
    /// Number of mines that a new game lays out.
    pub count: u16,
    /// Number of columns.
    pub width: u8,
    /// Number of rows.
    pub height: u8,
    /// The cells, row after row.
    pub map: Vec<u8>,
    /// Regions found so far. The board's own operations keep it; it
    /// is cleared whenever the mines are laid out anew.
    pub blanks: RegionCache,
}

impl MineMap {
    /// Number of columns, as a mathematical integer.
    pub open spec fn w(&self) -> int {
        self.width as int
    }

    /// Number of rows, as a mathematical integer.
    pub open spec fn h(&self) -> int {
        self.height as int
    }

    /// Number of cells.
    pub open spec fn size(&self) -> int {
        self.width as int * self.height as int
    }

    /// The board is at least two by two and has one cell for every
    /// place of the grid.
    pub open spec fn shaped(&self) -> bool {
        &&& self.width >= 2
        &&& self.height >= 2
        &&& self.map@.len() == self.size()
    }

    /// Every region that the board remembers is the region of some zero
    /// cell of the board as it is now.
    pub open spec fn cache_ok(&self) -> bool {
        regions_ok(self.blanks@, warns(self.map@), self.w(), self.h())
    }

    /// What every operation expects of the board and keeps.
    pub open spec fn wf(&self) -> bool {
        self.shaped() && self.cache_ok()
    }

    /// Index of the cell at `(x, y)`, if the board has one.
    pub open spec fn index(&self, x: int, y: int) -> Option<int> {
        index_at(x, y, self.w(), self.h())
    }

    /// Whether the board is at least two by two and has one cell for
    /// every place of the grid.
    pub fn is_shaped(&self) -> (r: bool)
        ensures
            r == self.shaped(),
    {
        assert(self.width as usize * self.height as usize <= 65025) by (nonlinear_arith)
            requires
                self.width <= 255,
                self.height <= 255,
        ;
        self.width >= 2 && self.height >= 2 && self.map.len() == self.width as usize
            * self.height as usize
    }

    #[inline]
    fn my_size(&self) -> (r: (usize, usize, usize))
        ensures
            r.0 == self.width,
            r.1 == self.height,
            r.2 == self.size(),
            r.2 <= 65025,
    {
        let h = self.height as usize;
        let w = self.width as usize;
        assert(w * h <= 65025) by (nonlinear_arith)
            requires
                w <= 255,
                h <= 255,
        ;
        (w, h, w * h)
    }

    /// The cell at `(x, y)`, if the board has one.
    #[inline]
    pub fn get(&self, x: usize, y: usize) -> (r: Option<Cell>)
        ensures
            match self.index(x as int, y as int) {
                Some(i) => i < self.map@.len() ==> r == Some(Cell(self.map@[i])),
                None => r is None,
            },
            self.index(x as int, y as int) matches Some(i) && i >= self.map@.len() ==> r is None,
    {
        let (w, h, _size) = self.my_size();
        match loc_to_idx(x, y, w, h) {
            Some(i) => {
                if i < self.map.len() {
                    Some(Cell(self.map[i]))
                } else {
                    None
                }
            },
            None => None,
        }
    }

    /// The cell at `l`, if the board has one.
    #[inline]
    pub fn get_by_loc(&self, l: Loc) -> (r: Option<Cell>)
        ensures
            match self.index(l.0 as int, l.1 as int) {
                Some(i) => i < self.map@.len() ==> r == Some(Cell(self.map@[i])),
                None => r is None,
            },
            self.index(l.0 as int, l.1 as int) matches Some(i) && i >= self.map@.len()
                ==> r is None,
    {
        self.get(l.0 as usize, l.1 as usize)
    }

    /// Draws the layout: for every cell a space and then a blank, the
    /// warning as a digit, or a dash for a mine; a line feed ends every
    /// row.
    pub fn format_str(&self) -> (buf: String)
        requires
            self.shaped(),
        ensures
            buf@ == grid_text(warn_glyphs(self.map@), self.w(), self.size()),
    {
        let (w, _h, size) = self.my_size();
        let ghost glyphs = warn_glyphs(self.map@);
        let mut buf = String::new();
        let mut ln: usize = 0;
        let mut j: usize = 0;
        while j < size
            invariant
                j <= size,
                size == self.size(),
                w == self.width,
                self.shaped(),
                glyphs == warn_glyphs(self.map@),
                ln < w,
                ln == j % w,
                buf@ == grid_text(glyphs, w as int, j as int),
            decreases size - j,
        {
            buf.push(' ');
            let v = Cell(self.map[j]).get_warn();
            if v == 0 {
                buf.push(' ');
            } else if v <= 8 {
                buf.push(digit(v));
            } else {
                buf.push('-');
            }
            proof {
                lemma_next_column(j as int, w as int);
            }
            if ln < w - 1 {
                ln += 1;
            } else {
                buf.push('\n');
                ln = 0;
            }
            j += 1;
        }
        buf
    }

    /// Draws the game: for every cell a space and then what the player
    /// sees of it, a dot for a hidden cell, `@` for a flag, and for a
    /// revealed cell a blank, its warning as a digit, or `+` for a mine;
    /// a line feed ends every row.
    pub fn format_stat_str(&self) -> (buf: String)
        requires
            self.shaped(),
        ensures
            buf@ == grid_text(stat_glyphs(self.map@), self.w(), self.size()),
    {
        let (w, _h, size) = self.my_size();
        let ghost glyphs = stat_glyphs(self.map@);
        let mut buf = String::new();
        let mut ln: usize = 0;
        let mut j: usize = 0;
        while j < size
            invariant
                j <= size,
                size == self.size(),
                w == self.width,
                self.shaped(),
                glyphs == stat_glyphs(self.map@),
                ln < w,
                ln == j % w,
                buf@ == grid_text(glyphs, w as int, j as int),
            decreases size - j,
        {
            buf.push(' ');
            let c = Cell(self.map[j]);
            if c.is_reveal() {
                let v = c.get_warn();
                if v == 0 {
                    buf.push(' ');
                } else if v <= 8 {
                    buf.push(digit(v));
                } else {
                    buf.push('+');
                }
            } else if c.is_flagged() {
                buf.push('@');
            } else {
                buf.push('·');
            }
            proof {
                lemma_next_column(j as int, w as int);
            }
            if ln < w - 1 {
                ln += 1;
            } else {
                buf.push('\n');
                ln = 0;
            }
            j += 1;
        }
        buf
    }

    /// The cells of the board, one after the other, row by row.
    pub fn iter(&self) -> (it: MinesIter<'_>)
        ensures
            it.cells() == self.map@,
            it.position() == 0,
    {
        MinesIter { map: &self.map, idx: 0 }
    }

    /// The region of cell `i`: breadth first from `i`, going on from
    /// every cell with warning zero to the cells around it, stopping at
    /// numbered cells and leaving mines out.
    #[verifier::rlimit(40)]
    pub fn find_empty_region(&self, i: usize) -> (result: HashSet<usize>)
        requires
            self.shaped(),
        ensures
            result@ == region_of(self.map@, self.w(), self.h(), i as int),
            within(result@, self.size()),
    {
        broadcast use group_hash_axioms;

        let (w, h, size) = self.my_size();
        let ghost ws = warns(self.map@);
        let ghost wi = w as int;
        let ghost hi = h as int;
        let mut result: HashSet<usize> = HashSet::new();
        // cells already looked at
        let mut vis: HashSet<usize> = HashSet::new();
        // cells to look at in this round
        let mut current: Vec<usize> = Vec::new();
        // cells to look at in the next round
        let mut next: Vec<usize> = Vec::new();
        if i < size {
            current.push(i);
            proof {
                lemma_reaches_self(ws, wi, hi, i as int);
                assert(current@[0] == i);
            }
        }
        loop
            invariant
                self.shaped(),
                wi == w == self.width,
                hi == h == self.height,
                size == wi * hi,
                size <= 65025,
                ws == warns(self.map@),
                within(vis@, size as int),
                next@.len() == 0,
                forall|j: usize| vis@.contains(j) ==> reaches(ws, wi, hi, i as int, j as int),
                forall|j: usize| result@.contains(j) <==> vis@.contains(j) && ws[j as int] <= 8,
                forall|n: int|
                    0 <= n < current@.len() ==> (#[trigger] current@[n]) < size && reaches(
                        ws,
                        wi,
                        hi,
                        i as int,
                        current@[n] as int,
                    ),
                i < size ==> vis@.contains(i) || pending(current@, 0, next@, i),
                forall|u: usize, a: int|
                    vis@.contains(u) && ws[u as int] == 0 && #[trigger] is_neighbor(
                        u as int,
                        a,
                        wi,
                        hi,
                    ) ==> vis@.contains(a as usize) || pending(current@, 0, next@, a as usize),
            ensures
                wi == w == self.width,
                hi == h == self.height,
                ws == warns(self.map@),
                within(vis@, size as int),
                forall|j: usize| vis@.contains(j) ==> reaches(ws, wi, hi, i as int, j as int),
                forall|j: usize| result@.contains(j) <==> vis@.contains(j) && ws[j as int] <= 8,
                i < size ==> vis@.contains(i),
                closed(ws, wi, hi, vis@),
            decreases size - vis@.len(),
        {
            let ghost len0 = vis@.len();
            proof {
                lemma_within_len(vis@, size as int);
            }
            let mut n: usize = 0;
            while n < current.len()
                invariant
                    self.shaped(),
                    wi == w == self.width,
                    hi == h == self.height,
                    size == wi * hi,
                    size <= 65025,
                    ws == warns(self.map@),
                    n <= current@.len(),
                    vis@.finite(),
                    within(vis@, size as int),
                    len0 <= vis@.len(),
                    next@.len() > 0 ==> len0 < vis@.len(),
                    forall|j: usize| vis@.contains(j) ==> reaches(ws, wi, hi, i as int, j as int),
                    forall|j: usize|
                        result@.contains(j) <==> vis@.contains(j) && ws[j as int] <= 8,
                    forall|n: int|
                        0 <= n < current@.len() ==> (#[trigger] current@[n]) < size && reaches(
                            ws,
                            wi,
                            hi,
                            i as int,
                            current@[n] as int,
                        ),
                    forall|n: int|
                        0 <= n < next@.len() ==> (#[trigger] next@[n]) < size && reaches(
                            ws,
                            wi,
                            hi,
                            i as int,
                            next@[n] as int,
                        ),
                    i < size ==> vis@.contains(i) || pending(current@, n as int, next@, i),
                    forall|u: usize, a: int|
                        vis@.contains(u) && ws[u as int] == 0 && #[trigger] is_neighbor(
                            u as int,
                            a,
                            wi,
                            hi,
                        ) ==> vis@.contains(a as usize) || pending(
                            current@,
                            n as int,
                            next@,
                            a as usize,
                        ),
                decreases current@.len() - n,
            {
                let c = current[n];
                proof {
                    lemma_pending_advance(current@, n as int, next@);
                }
                if !vis.contains(&c) {
                    vis.insert(c);
                    let cell = Cell(self.map[c]);
                    assert(ws[c as int] == warn_of(self.map@[c as int]));
                    if cell.is_empty() {
                        let around = get_around_index(c, w, h);
                        let ghost next0 = next@;
                        let ghost n1 = n + 1;
                        let mut k: usize = 0;
                        while k < 8
                            invariant
                                k <= 8,
                                n1 == n + 1,
                                c < size,
                                ws.len() == size,
                                size == wi * hi,
                                wi == w,
                                hi == h,
                                within(vis@, size as int),
                                vis@.contains(c),
                                ws[c as int] == 0,
                                reaches(ws, wi, hi, i as int, c as int),
                                forall|k: int|
                                    0 <= k < 8 ==> around[k] as int == around_slot(
                                        c as int,
                                        wi,
                                        hi,
                                        k,
                                    ),
                                k > 0 || next@ == next0,
                                forall|a: usize|
                                    pending(current@, n1, next0, a) ==> pending(
                                        current@,
                                        n1,
                                        next@,
                                        a,
                                    ),
                                forall|n: int|
                                    0 <= n < next@.len() ==> (#[trigger] next@[n]) < size
                                        && reaches(ws, wi, hi, i as int, next@[n] as int),
                                forall|kk: int|
                                    0 <= kk < k && around_slot(c as int, wi, hi, kk) < size
                                        ==> vis@.contains(
                                        #[trigger] around_slot(c as int, wi, hi, kk) as usize,
                                    ) || pending(
                                        current@,
                                        n1,
                                        next@,
                                        around_slot(c as int, wi, hi, kk) as usize,
                                    ),
                            decreases 8 - k,
                        {
                            let a = around[k];
                            if a < size && !vis.contains(&a) {
                                proof {
                                    lemma_pending_push(current@, n1, next@, a);
                                    assert(is_neighbor(c as int, a as int, wi, hi));
                                    lemma_reaches_step(ws, wi, hi, i as int, c as int, a as int);
                                }
                                next.push(a);
                            }
                            k += 1;
                        }
                        result.insert(c);
                        proof {
                            assert forall|a: int| #[trigger]
                                is_neighbor(c as int, a, wi, hi) implies vis@.contains(a as usize)
                                || pending(current@, n1, next@, a as usize) by {
                                let kk = choose|kk: int|
                                    0 <= kk < 8 && #[trigger] around_slot(c as int, wi, hi, kk)
                                        == a;
                                assert(around_slot(c as int, wi, hi, kk) < size);
                            }
                        }
                    } else if !cell.is_mine() {
                        result.insert(c);
                    }
                }
                n += 1;
            }
            if next.is_empty() {
                proof {
                    assert forall|u: usize, a: int|
                        vis@.contains(u) && ws[u as int] == 0 && #[trigger] is_neighbor(
                            u as int,
                            a,
                            wi,
                            hi,
                        ) implies #[trigger] vis@.contains(a as usize) by {
                        assert(!pending(current@, n as int, next@, a as usize));
                    }
                    assert(!pending(current@, n as int, next@, i));
                }
                break ;
            }
            proof {
                lemma_pending_turn(current@, next@);
                lemma_within_len(vis@, size as int);
            }
            current.clear();
            current.append(&mut next);
        }
        proof {
            let want = region_of(self.map@, self.w(), self.h(), i as int);
            assert forall|j: usize| result@.contains(j) == want.contains(j) by {
                if reaches(ws, wi, hi, i as int, j as int) {
                    lemma_reaches_within(ws, wi, hi, i as int, j as int);
                    lemma_closed_holds_reach(ws, wi, hi, vis@, i as int, j as int);
                }
            }
            assert(result@ =~= want);
        }
        result
    }

    /// A board of `width` by `height` cells that will hold `count`
    /// mines once a game is begun; until then every cell is zero. A
    /// board under two by two, one without a mine and one without a
    /// cell free of mines are refused, in that order.
    pub fn new(count: u16, width: u8, height: u8) -> (r: Result<Self, String>)
        ensures
            match r {
                Ok(m) => {
                    &&& new_error(count, width, height) is None
                    &&& m.wf()
                    &&& m.count == count
                    &&& m.width == width
                    &&& m.height == height
                    &&& m.map@ == Seq::new((width * height) as nat, |j: int| 0u8)
                    &&& m.blanks@.len() == 0
                },
                Err(e) => new_error(count, width, height) == Some(e@),
            },
    {
        if width < 2 || height < 2 {
            return Err("请设置更大的区域！".to_string());
        }
        if count < 1 {
            return Err("请设置更多地雷！".to_string());
        }
        assert(width as usize * height as usize <= 65025) by (nonlinear_arith)
            requires
                width <= 255,
                height <= 255,
        ;
        let cap = width as usize * height as usize;
        if count as usize >= cap {
            return Err("请减少地雷数量！".to_string());
        }
        let m = Self { count, width, height, map: vec![0; cap], blanks: RegionCache::new() };
        assert(m.map@ =~= Seq::new((width * height) as nat, |j: int| 0u8));
        Ok(m)
    }

    /// Takes a board in from bytes: the width, the height, then one
    /// byte for every cell, row after row. With `hold_stat` the cells
    /// keep their revealed and flag bits; without it only the warnings
    /// are taken. The mine count of the board is the number of mines
    /// found.
    ///
    /// Fewer than six bytes, a width or height under two, and a number
    /// of cells that is not width times height are refused, in that
    /// order.
    pub fn from_buffer(map: Vec<u8>, hold_stat: bool) -> (r: Result<Self, String>)
        ensures
            match r {
                Ok(m) => {
                    &&& import_error(map@) is None
                    &&& m.wf()
                    &&& m.width == map@[0]
                    &&& m.height == map@[1]
                    &&& m.map@ == import_cells(map@, hold_stat)
                    &&& m.count == count_mines(m.map@)
                    &&& m.sorted_out()
                },
                Err(e) => import_error(map@) == Some(e@),
            },
    {
        if map.len() < 6 {
            return Err("输入数据太短！[宽, 高, 数据..]".to_string());
        }
        let width = map[0];
        let height = map[1];
        if width < 2 || height < 2 {
            return Err("请设置更大的区域！".to_string());
        }
        assert(width as usize * height as usize <= 65025) by (nonlinear_arith)
            requires
                width <= 255,
                height <= 255,
        ;
        let size = width as usize * height as usize;
        if map.len() - 2 != size {
            return Err("数据长度与宽高不符！".to_string());
        }
        let ghost want = import_cells(map@, hold_stat);
        let mut cells: Vec<u8> = Vec::with_capacity(size);
        let mut count: u16 = 0;
        let mut i: usize = 0;
        while i < size
            invariant
                i <= size,
                size <= 65025,
                map@.len() == size + 2,
                want == import_cells(map@, hold_stat),
                cells@.len() == i,
                forall|j: int| 0 <= j < i ==> cells@[j] == want[j],
                count == tally(mines(want), i as int),
                count <= i,
            decreases size - i,
        {
            let v = if hold_stat {
                map[i + 2]
            } else {
                map[i + 2] & 0x1f
            };
            if Cell(v).is_mine() {
                count += 1;
            }
            cells.push(v);
            i += 1;
        }
        assert(cells@ =~= want);
        let mut mm = Self { count, width, height, map: cells, blanks: RegionCache::new() };
        mm.group_blank();
        Ok(mm)
    }

    /// Lays the mines out at random: `count` mines and zeros for the
    /// rest, in an order that the generator picks.
    fn shuffle(&mut self, rng: &mut ThreadRng)
        requires
            old(self).shaped(),
            0 < old(self).count < old(self).size(),
        ensures
            final(self).shaped(),
            final(self).count == old(self).count,
            final(self).width == old(self).width,
            final(self).height == old(self).height,
            final(self).blanks == old(self).blanks,
            fresh(final(self).map@),
            count_mines(final(self).map@) == old(self).count,
    {
        let (_w, _h, size) = self.my_size();
        let c = self.count as usize;
        let mut j: usize = 0;
        while j < size
            invariant
                j <= size,
                size == self.size(),
                self.shaped(),
                c == self.count,
                self.count == old(self).count,
                self.width == old(self).width,
                self.height == old(self).height,
                self.blanks == old(self).blanks,
                forall|m: int|
                    0 <= m < j ==> #[trigger] self.map@[m] == if m < c {
                        9u8
                    } else {
                        0u8
                    },
            decreases size - j,
        {
            self.map[j] = if j < c {
                MINE
            } else {
                0
            };
            j += 1;
        }
        let ghost filled = self.map@;
        proof {
            lemma_filled(filled, c as int, size as int);
        }
        // the mines are spread by a shuffle of the whole buffer
        shuffle_bytes(&mut self.map, rng);
        proof {
            lemma_shuffled(filled, self.map@);
        }
    }

    /// Keeps the first click safe: every mine on the cell at `ignore` or
    /// around it is moved to a cell outside that zone that holds no mine,
    /// drawn at random among all such cells. Where no such cell is left
    /// the mine stays.
    fn ignore(&mut self, ignore: Option<Loc>, rng: &mut ThreadRng)
        requires
            old(self).shaped(),
            fresh(old(self).map@),
        ensures
            final(self).shaped(),
            final(self).count == old(self).count,
            final(self).width == old(self).width,
            final(self).height == old(self).height,
            final(self).blanks == old(self).blanks,
            fresh(final(self).map@),
            count_mines(final(self).map@) == count_mines(old(self).map@),
            match safe_index(ignore, old(self).w(), old(self).h()) {
                Some(c) => zone_clear(final(self).map@, old(self).w(), old(self).h(), c)
                    || outside_full(final(self).map@, old(self).w(), old(self).h(), c),
                None => final(self).map@ == old(self).map@,
            },
    {
        let l = match ignore {
            Some(l) => l,
            None => {
                return ;
            },
        };
        let (w, h, _size) = self.my_size();
        let c = match loc_to_idx(l.0 as usize, l.1 as usize, w, h) {
            Some(c) => c,
            None => {
                return ;
            },
        };
        clear_zone(&mut self.map, w, h, c, rng);
    }

    /// Counts the warnings of a fresh board: every mine adds one to each
    /// cell around it that is no mine. The mines stay as they are.
    #[verifier::rlimit(40)]
    fn warn(&mut self)
        requires
            old(self).shaped(),
            fresh(old(self).map@),
        ensures
            final(self).shaped(),
            final(self).count == old(self).count,
            final(self).width == old(self).width,
            final(self).height == old(self).height,
            final(self).blanks == old(self).blanks,
            mines(final(self).map@) == mines(old(self).map@),
            forall|j: int|
                0 <= j < old(self).size() ==> #[trigger] final(self).map@[j] == if mine_of(
                    old(self).map@[j],
                ) {
                    9
                } else {
                    mines_around(old(self).map@, old(self).w(), old(self).h(), j)
                },
    {
        let (w, h, size) = self.my_size();
        let ghost wi = w as int;
        let ghost hi = h as int;
        let ghost cells = self.map@;
        let ghost ms = mines(cells);
        proof {
            assert forall|j: int| 0 <= j < size implies #[trigger] self.map@[j] == if ms[j] {
                9
            } else {
                hits(ms, wi, hi, j, 0, 0)
            } by {
                lemma_hits_ends(ms, wi, hi, j);
                lemma_small(cells[j]);
            }
        }
        let mut i: usize = 0;
        while i < size
            invariant
                i <= size,
                size == wi * hi,
                size == self.size(),
                size <= 65025,
                wi == w == self.width,
                hi == h == self.height,
                self.shaped(),
                self.count == old(self).count,
                self.blanks == old(self).blanks,
                self.width == old(self).width,
                self.height == old(self).height,
                ms == mines(cells),
                cells.len() == size,
                forall|j: int|
                    0 <= j < size ==> #[trigger] self.map@[j] == if ms[j] {
                        9
                    } else {
                        hits(ms, wi, hi, j, i as int, 0)
                    },
            decreases size - i,
        {
            if Cell(self.map[i]).is_mine() {
                proof {
                    lemma_small(9u8);
                    if !ms[i as int] {
                        lemma_tally_bounds(hit_marks(ms, wi, hi, i as int, i as int, 0), 8);
                        lemma_small(self.map@[i as int]);
                    }
                }
                let around = get_around_index(i, w, h);
                let mut k: usize = 0;
                while k < 8
                    invariant
                        k <= 8,
                        i < size,
                        size == wi * hi,
                        size == self.size(),
                        size <= 65025,
                        wi == w == self.width,
                        hi == h == self.height,
                        self.shaped(),
                        self.count == old(self).count,
                        self.blanks == old(self).blanks,
                        self.width == old(self).width,
                        self.height == old(self).height,
                        ms == mines(cells),
                        cells.len() == size,
                        ms[i as int],
                        forall|n: int|
                            0 <= n < 8 ==> around[n] as int == around_slot(i as int, wi, hi, n),
                        forall|j: int|
                            0 <= j < size ==> #[trigger] self.map@[j] == if ms[j] {
                                9
                            } else {
                                hits(ms, wi, hi, j, i as int, k as int)
                            },
                    decreases 8 - k,
                {
                    let a = around[k];
                    let ghost now = self.map@;
                    proof {
                        assert forall|j: int| 0 <= j < size implies hits(
                            ms,
                            wi,
                            hi,
                            j,
                            i as int,
                            k + 1,
                        ) == hits(ms, wi, hi, j, i as int, k as int) + if a == j {
                            1int
                        } else {
                            0int
                        } by {
                            lemma_hits_step(ms, wi, hi, j, i as int, k as int);
                        }
                    }
                    if a < size {
                        let mut c = Cell(self.map[a]);
                        proof {
                            lemma_small(9u8);
                            lemma_tally_bounds(hit_marks(ms, wi, hi, a as int, i as int, k + 1), 8);
                            lemma_tally_bounds(
                                hit_marks(ms, wi, hi, a as int, i as int, k as int),
                                8,
                            );
                            lemma_small(now[a as int]);
                        }
                        if !c.is_mine() {
                            c.bmp(true);
                            self.map[a] = c.0;
                        }
                    }
                    k += 1;
                }
                proof {
                    assert forall|j: int| 0 <= j < size implies hits(
                        ms,
                        wi,
                        hi,
                        j,
                        i as int,
                        8,
                    ) == hits(ms, wi, hi, j, i + 1, 0) by {
                        lemma_hits_next(ms, wi, hi, j, i as int, 8);
                    }
                }
            } else {
                proof {
                    lemma_small(9u8);
                    assert(!ms[i as int]);
                    assert forall|j: int| 0 <= j < size implies hits(
                        ms,
                        wi,
                        hi,
                        j,
                        i as int,
                        0,
                    ) == hits(ms, wi, hi, j, i + 1, 0) by {
                        lemma_hits_next(ms, wi, hi, j, i as int, 0);
                    }
                }
            }
            i += 1;
        }
        proof {
            assert forall|j: int| 0 <= j < size implies #[trigger] self.map@[j] == if mine_of(
                cells[j],
            ) {
                9
            } else {
                mines_around(cells, wi, hi, j)
            } by {
                lemma_hits_ends(ms, wi, hi, j);
            }
            assert forall|j: int| 0 <= j < size implies mine_of(#[trigger] self.map@[j])
                == ms[j] by {
                lemma_small(9u8);
                lemma_tally_bounds(around_marks(ms, j, wi, hi), 8);
                if !ms[j] {
                    lemma_small(self.map@[j]);
                }
            }
            assert(mines(self.map@) =~= ms);
        }
    }

    /// Begins a new game. The mines are laid out at random, moved off
    /// the cell at `ignore` and the cells around it, and the warnings
    /// counted; nothing is revealed or flagged, and the regions found
    /// before are forgotten.
    ///
    /// Afterwards the board holds exactly `count` mines, each marked
    /// with the value 9, and every other cell holds the number of mines
    /// around it. The zone of `ignore` is free of mines unless every
    /// cell outside it holds one.
    ///
    /// A board whose `count` is zero or not below the number of cells
    /// is left as it is.
    pub fn new_game(&mut self, ignore: Option<Loc>)
        requires
            old(self).wf(),
        ensures
            final(self).wf(),
            final(self).count == old(self).count,
            final(self).width == old(self).width,
            final(self).height == old(self).height,
            !(0 < old(self).count < old(self).size()) ==> final(self).map@ == old(self).map@,
            0 < old(self).count < old(self).size() ==> {
                &&& final(self).sorted_out()
                &&& count_mines(final(self).map@) == old(self).count
                &&& forall|j: int|
                    0 <= j < old(self).size() ==> #[trigger] final(self).map@[j] == if mine_of(
                        final(self).map@[j],
                    ) {
                        9
                    } else {
                        mines_around(final(self).map@, old(self).w(), old(self).h(), j)
                    }
                &&& match safe_index(ignore, old(self).w(), old(self).h()) {
                    Some(c) => {
                        &&& zone_clear(final(self).map@, old(self).w(), old(self).h(), c)
                            || outside_full(final(self).map@, old(self).w(), old(self).h(), c)
                        &&& old(self).count + zone_size(old(self).w(), old(self).h(), c) <= old(
                            self,
                        ).size() ==> zone_clear(
                            final(self).map@,
                            old(self).w(),
                            old(self).h(),
                            c,
                        )
                    },
                    None => true,
                }
            },
    {
        let (_w, _h, size) = self.my_size();
        let c = self.count as usize;
        if c == 0 || size <= c {
            return ;
        }
        let mut rng = thread_rng();
        self.shuffle(&mut rng);
        // keep the first click safe
        self.ignore(ignore, &mut rng);
        let ghost laid = self.map@;
        // count the warnings around the mines
        self.warn();
        proof {
            lemma_tally_agree(mines(self.map@), mines(laid), size as int);
            match safe_index(ignore, self.w(), self.h()) {
                Some(c) => {
                    if zone_clear(laid, self.w(), self.h(), c) {
                        assert forall|j: int|
                            0 <= j < size && in_zone(c, j, self.w(), self.h()) implies !mine_of(
                            #[trigger] self.map@[j],
                        ) by {
                            assert(mines(self.map@)[j] == mines(laid)[j]);
                        }
                    } else {
                        assert forall|j: int|
                            0 <= j < size && !in_zone(c, j, self.w(), self.h()) implies mine_of(
                            #[trigger] self.map@[j],
                        ) by {
                            assert(mines(self.map@)[j] == mines(laid)[j]);
                        }
                    }
                    if self.count + zone_size(self.w(), self.h(), c) <= size {
                        lemma_index(
                            ignore.unwrap().0 as int,
                            ignore.unwrap().1 as int,
                            self.w(),
                            self.h(),
                        );
                        lemma_zone_room(self.map@, self.w(), self.h(), c);
                    }
                },
                None => {},
            }
            assert forall|j: int| 0 <= j < size implies mine_of(#[trigger] self.map@[j])
                == mine_of(laid[j]) by {
                assert(mines(self.map@)[j] == mines(laid)[j]);
            }
        }
        // find the regions that will open together
        self.group_blank();
    }

    /// Clears the revealed and flag bits of every cell.
    pub fn reset_progress(&mut self)
        ensures
            final(self).map@ == warns(old(self).map@),
            final(self).count == old(self).count,
            final(self).width == old(self).width,
            final(self).height == old(self).height,
            final(self).blanks == old(self).blanks,
            old(self).wf() ==> final(self).wf(),
    {
        let ghost cells = self.map@;
        let n = self.map.len();
        let mut j: usize = 0;
        while j < n
            invariant
                j <= n,
                n == cells.len(),
                self.map@.len() == n,
                self.count == old(self).count,
                self.width == old(self).width,
                self.height == old(self).height,
                self.blanks == old(self).blanks,
                forall|m: int| 0 <= m < j ==> self.map@[m] == warn_of(cells[m]),
                forall|m: int| j <= m < n ==> self.map@[m] == cells[m],
            decreases n - j,
        {
            let v = self.map[j];
            self.map[j] = v & 0x1f;
            j += 1;
        }
        proof {
            assert(self.map@ =~= warns(cells));
            lemma_warns_twice(cells);
        }
    }

    /// Whether every cell that is no mine has been revealed: the game
    /// is won.
    pub fn is_all_reveal(&self) -> (r: bool)
        ensures
            r == forall|j: int|
                0 <= j < self.map@.len() && !mine_of(#[trigger] self.map@[j]) ==> revealed_of(
                    self.map@[j],
                ),
    {
        let n = self.map.len();
        let mut j: usize = 0;
        while j < n
            invariant
                j <= n,
                n == self.map@.len(),
                forall|m: int|
                    0 <= m < j && !mine_of(#[trigger] self.map@[m]) ==> revealed_of(self.map@[m]),
            decreases n - j,
        {
            let c = Cell(self.map[j]);
            if !c.is_reveal() && !c.is_mine() {
                return false;
            }
            j += 1;
        }
        true
    }

    /// Reveals every mine, flagged or not. No other cell changes.
    pub fn reveal_all_mines(&mut self)
        ensures
            final(self).map@ == mines_shown(old(self).map@),
            final(self).count == old(self).count,
            final(self).width == old(self).width,
            final(self).height == old(self).height,
            final(self).blanks == old(self).blanks,
            old(self).wf() ==> final(self).wf(),
    {
        let ghost cells = self.map@;
        let n = self.map.len();
        let mut j: usize = 0;
        while j < n
            invariant
                j <= n,
                n == cells.len(),
                self.map@.len() == n,
                self.count == old(self).count,
                self.width == old(self).width,
                self.height == old(self).height,
                self.blanks == old(self).blanks,
                forall|m: int| 0 <= m < j ==> self.map@[m] == mines_shown(cells)[m],
                forall|m: int| j <= m < n ==> self.map@[m] == cells[m],
            decreases n - j,
        {
            let v = self.map[j];
            if v & 0x1f > 8 {
                self.map[j] = v | 0x80;
            }
            j += 1;
        }
        proof {
            assert(self.map@ =~= mines_shown(cells));
            assert forall|m: int| 0 <= m < n implies warn_of(#[trigger] mines_shown(cells)[m])
                == warn_of(cells[m]) by {
                let b = cells[m];
                assert((b | 0x80) & 0x1f == b & 0x1f) by (bit_vector);
            }
            assert(warns(self.map@) =~= warns(cells));
        }
    }

    /// Reveals the cell at `(x, y)`. A flagged cell stays as it is, and
    /// so does the board where it has no such cell. A cell with warning
    /// zero opens its whole region; any other cell opens alone. Returns
    /// how many cells opened.
    pub fn reveal_at(&mut self, x: usize, y: usize) -> (count: usize)
        requires
            old(self).wf(),
        ensures
            final(self).wf(),
            final(self).count == old(self).count,
            final(self).width == old(self).width,
            final(self).height == old(self).height,
            match old(self).index(x as int, y as int) {
                Some(i) => {
                    &&& final(self).map@ == opened(
                        old(self).map@,
                        target_at(old(self).map@, old(self).w(), old(self).h(), i),
                    )
                    &&& count == gain(
                        old(self).map@,
                        target_at(old(self).map@, old(self).w(), old(self).h(), i),
                    )
                    &&& flagged_of(old(self).map@[i]) ==> count == 0 && final(self).map@ == old(
                        self,
                    ).map@
                    &&& revealed_of(old(self).map@[i]) && !empty_of(old(self).map@[i]) ==> count
                        == 0 && final(self).map@ == old(self).map@
                    &&& forall|j: int|
                        0 <= j < old(self).size() && flagged_of(#[trigger] old(self).map@[j])
                            ==> final(self).map@[j] == old(self).map@[j]
                    &&& final(self).blanks@ == remembered(
                        old(self).map@,
                        old(self).w(),
                        old(self).h(),
                        old(self).blanks@,
                        i,
                    )
                },
                None => count == 0 && final(self).map@ == old(self).map@ && final(self).blanks@
                    == old(self).blanks@,
            },
    {
        let (w, h, _size) = self.my_size();
        let ghost cells = self.map@;
        let i = match loc_to_idx(x, y, w, h) {
            Some(i) => i,
            None => {
                return 0;
            },
        };
        let ghost aim = target_at(cells, w as int, h as int, i as int);
        proof {
            lemma_gain_zero(cells, aim);
            lemma_opened_keeps(cells, aim);
        }
        let mut c = Cell(self.map[i]);
        if c.is_flagged() {
            return 0;
        }
        if c.is_empty() {
            return self.reveal_region(i);
        }
        proof {
            lemma_gain_single(cells, i as int);
        }
        if c.is_reveal() {
            return 0;
        }
        c.mark_reveal();
        self.map[i] = c.0;
        1
    }

    /// Reveals the cell at `l`, as `reveal_at` does.
    pub fn reveal_by_loc(&mut self, l: Loc) -> (count: usize)
        requires
            old(self).wf(),
        ensures
            final(self).wf(),
            final(self).count == old(self).count,
            final(self).width == old(self).width,
            final(self).height == old(self).height,
            match old(self).index(l.0 as int, l.1 as int) {
                Some(i) => {
                    &&& final(self).map@ == opened(
                        old(self).map@,
                        target_at(old(self).map@, old(self).w(), old(self).h(), i),
                    )
                    &&& count == gain(
                        old(self).map@,
                        target_at(old(self).map@, old(self).w(), old(self).h(), i),
                    )
                    &&& final(self).blanks@ == remembered(
                        old(self).map@,
                        old(self).w(),
                        old(self).h(),
                        old(self).blanks@,
                        i,
                    )
                },
                None => count == 0 && final(self).map@ == old(self).map@ && final(self).blanks@
                    == old(self).blanks@,
            },
    {
        self.reveal_at(l.0 as usize, l.1 as usize)
    }

    /// Reveals the cells around the cell at `(x, y)`, each as
    /// `reveal_at` does, if that cell is revealed and carries no flag.
    /// Otherwise, and where the board has no such cell, nothing changes.
    /// Returns how many cells opened.
    pub fn reveal_around(&mut self, x: usize, y: usize) -> (count: usize)
        requires
            old(self).wf(),
        ensures
            final(self).wf(),
            final(self).count == old(self).count,
            final(self).width == old(self).width,
            final(self).height == old(self).height,
            final(self).map@ == opened(
                old(self).map@,
                chord_target(old(self).map@, old(self).w(), old(self).h(), x as int, y as int),
            ),
            count == gain(
                old(self).map@,
                chord_target(old(self).map@, old(self).w(), old(self).h(), x as int, y as int),
            ),
            final(self).blanks@ == match old(self).index(x as int, y as int) {
                Some(i) => if revealed_of(old(self).map@[i]) && !flagged_of(old(self).map@[i]) {
                    remembered_around(
                        old(self).map@,
                        old(self).w(),
                        old(self).h(),
                        old(self).blanks@,
                        i,
                        8,
                    )
                } else {
                    old(self).blanks@
                },
                None => old(self).blanks@,
            },
    {
        let (w, h, size) = self.my_size();
        let ghost cells = self.map@;
        let ghost wi = w as int;
        let ghost hi = h as int;
        let i = match loc_to_idx(x, y, w, h) {
            Some(i) => i,
            None => {
                proof {
                    lemma_gain_zero(cells, Set::empty());
                }
                return 0;
            },
        };
        let c = Cell(self.map[i]);
        if !c.is_reveal() || c.is_flagged() {
            proof {
                lemma_gain_zero(cells, Set::empty());
            }
            return 0;
        }
        let around = get_around_index(i, w, h);
        let mut count: usize = 0;
        let mut k: usize = 0;
        proof {
            assert(targets_around(cells, wi, hi, i as int, 0) =~= Set::empty());
            lemma_gain_zero(cells, Set::empty());
        }
        while k < 8
            invariant
                k <= 8,
                i < size,
                size == self.size(),
                size <= 65025,
                wi == w == self.width,
                hi == h == self.height,
                self.wf(),
                self.count == old(self).count,
                self.width == old(self).width,
                self.height == old(self).height,
                cells.len() == size,
                self.blanks@ == remembered_around(
                    cells,
                    wi,
                    hi,
                    old(self).blanks@,
                    i as int,
                    k as int,
                ),
                forall|n: int|
                    0 <= n < 8 ==> around[n] as int == around_slot(i as int, wi, hi, n),
                self.map@ == opened(cells, targets_around(cells, wi, hi, i as int, k as int)),
                count == gain(cells, targets_around(cells, wi, hi, i as int, k as int)),
            decreases 8 - k,
        {
            let a = around[k];
            let ghost before = targets_around(cells, wi, hi, i as int, k as int);
            let ghost aim = target_at(cells, wi, hi, a as int);
            let ghost now = self.map@;
            proof {
                lemma_opened_keeps(cells, before);
                lemma_opened_twice(cells, before, aim);
                lemma_gain_zero(cells, before.union(aim));
                lemma_targets_grow(cells, wi, hi, i as int, k as int);
                assert(warns(now) == warns(cells));
                assert(region_of(now, wi, hi, a as int) == region_of(cells, wi, hi, a as int));
                if a < size {
                    assert(flagged_of(now[a as int]) == flagged_of(cells[a as int]));
                    assert(empty_of(now[a as int]) == empty_of(cells[a as int])) by {
                        assert(warns(now)[a as int] == warns(cells)[a as int]);
                    }
                    assert(target_at(now, wi, hi, a as int) == aim);
                }
            }
            if a < size {
                let mut c = Cell(self.map[a]);
                if !c.is_flagged() {
                    if c.is_empty() {
                        let opened_now = self.reveal_region(a);
                        count += opened_now;
                    } else {
                        proof {
                            lemma_gain_single(now, a as int);
                        }
                        if !c.is_reveal() {
                            c.mark_reveal();
                            self.map[a] = c.0;
                            count += 1;
                            proof {
                                lemma_opened_keeps(now, aim);
                            }
                        }
                    }
                } else {
                    proof {
                        lemma_gain_zero(now, aim);
                    }
                }
            } else {
                proof {
                    lemma_gain_zero(now, aim);
                }
            }
            k += 1;
        }
        count
    }

    /// Sets the flag of the cell at `(x, y)` if it is clear and clears
    /// it if it is set. Where the board has no such cell nothing
    /// changes.
    pub fn switch_flag(&mut self, x: usize, y: usize)
        requires
            old(self).wf(),
        ensures
            final(self).wf(),
            final(self).count == old(self).count,
            final(self).width == old(self).width,
            final(self).height == old(self).height,
            final(self).blanks == old(self).blanks,
            match old(self).index(x as int, y as int) {
                Some(i) => final(self).map@ == old(self).map@.update(
                    i,
                    flag_switched(old(self).map@[i]),
                ),
                None => final(self).map@ == old(self).map@,
            },
    {
        let (w, h, _size) = self.my_size();
        let ghost cells = self.map@;
        let i = match loc_to_idx(x, y, w, h) {
            Some(i) => i,
            None => {
                return ;
            },
        };
        let mut c = Cell(self.map[i]);
        c.switch_flag();
        self.map[i] = c.0;
        proof {
            assert forall|m: int| 0 <= m < cells.len() implies warn_of(#[trigger] self.map@[m])
                == warn_of(cells[m]) by {
                lemma_flag_switched(cells[m]);
            }
            assert(warns(self.map@) =~= warns(cells));
        }
    }

    /// Switches the flag of the cell at `l`, as `switch_flag` does.
    pub fn switch_flag_by_loc(&mut self, l: Loc)
        requires
            old(self).wf(),
        ensures
            final(self).wf(),
            final(self).count == old(self).count,
            final(self).width == old(self).width,
            final(self).height == old(self).height,
            final(self).blanks == old(self).blanks,
            match old(self).index(l.0 as int, l.1 as int) {
                Some(i) => final(self).map@ == old(self).map@.update(
                    i,
                    flag_switched(old(self).map@[i]),
                ),
                None => final(self).map@ == old(self).map@,
            },
    {
        self.switch_flag(l.0 as usize, l.1 as usize)
    }

    /// Number of flags on the board.
    pub fn count_flagged(&self) -> (n: usize)
        ensures
            n == count_flags(self.map@),
    {
        let len = self.map.len();
        let mut n: usize = 0;
        let mut j: usize = 0;
        while j < len
            invariant
                j <= len,
                len == self.map@.len(),
                n == tally(flags(self.map@), j as int),
                n <= j,
            decreases len - j,
        {
            if Cell(self.map[j]).is_flagged() {
                n += 1;
            }
            j += 1;
        }
        n
    }

    /// Number of flags on the cell at `(x, y)` and the cells around it;
    /// zero where the board has no such cell.
    pub fn count_flagged_around(&self, x: usize, y: usize) -> (n: usize)
        requires
            self.shaped(),
        ensures
            match self.index(x as int, y as int) {
                Some(i) => n == flags_around(self.map@, self.w(), self.h(), i),
                None => n == 0,
            },
    {
        let (w, h, s) = self.my_size();
        let i = match loc_to_idx(x, y, w, h) {
            Some(i) => i,
            None => {
                return 0;
            },
        };
        let c = Cell(self.map[i]);
        let mut count: usize = 0;
        let around = get_around_index(i, w, h);
        let mut k: usize = 0;
        while k < 8
            invariant
                k <= 8,
                s == self.size(),
                w == self.width,
                h == self.height,
                self.shaped(),
                forall|n: int|
                    0 <= n < 8 ==> around[n] as int == around_slot(i as int, w as int, h as int, n),
                count == tally_around(flags(self.map@), i as int, w as int, h as int, k as int),
                count <= k,
            decreases 8 - k,
        {
            let a = around[k];
            if a < s && Cell(self.map[a]).is_flagged() {
                count += 1;
            }
            k += 1;
        }
        if c.is_flagged() {
            count += 1;
        }
        count
    }

    /// Gives the board out as bytes: the width, the height, then one
    /// byte for every cell, row after row. With `hold_stat` the cells
    /// are given as they are; without it only their warnings are.
    pub fn export(&self, hold_stat: bool) -> (res: Vec<u8>)
        requires
            self.map@.len() + 2 <= usize::MAX,
        ensures
            res@ == exported(self.width, self.height, self.map@, hold_stat),
    {
        let n = self.map.len();
        let mut res: Vec<u8> = Vec::with_capacity(n + 2);
        res.push(self.width);
        res.push(self.height);
        let ghost want = exported(self.width, self.height, self.map@, hold_stat);
        let mut j: usize = 0;
        while j < n
            invariant
                j <= n,
                n == self.map@.len(),
                want == exported(self.width, self.height, self.map@, hold_stat),
                res@.len() == j + 2,
                forall|m: int| 0 <= m < j + 2 ==> res@[m] == want[m],
            decreases n - j,
        {
            let v = self.map[j];
            if hold_stat {
                res.push(v);
            } else {
                res.push(v & 0x1f);
            }
            j += 1;
        }
        assert(res@ =~= want);
        res
    }

    /// Finds the regions of the board and remembers them, so that a
    /// reveal need not walk a region again: the cells are gone through
    /// in order, and every zero cell that no region found so far holds
    /// has its region walked. A board that falls into more than
    /// `REGION_CAP` regions is left for the reveals to walk one by one,
    /// and nothing is remembered of it.
    fn group_blank(&mut self)
        requires
            old(self).shaped(),
        ensures
            final(self).wf(),
            final(self).map@ == old(self).map@,
            final(self).count == old(self).count,
            final(self).width == old(self).width,
            final(self).height == old(self).height,
            final(self).sorted_out(),
    {
        self.blanks.clear();
        let (w, h, size) = self.my_size();
        let ghost ws = warns(self.map@);
        let ghost wi = w as int;
        let ghost hi = h as int;
        let mut i: usize = 0;
        while i < size
            invariant
                i <= size,
                size == self.size(),
                size <= 65025,
                wi == self.w(),
                hi == self.h(),
                ws == warns(self.map@),
                self.wf(),
                self.map@ == old(self).map@,
                self.count == old(self).count,
                self.width == old(self).width,
                self.height == old(self).height,
                self.blanks@.len() <= REGION_CAP,
                self.blanks@.len() == count_regions(ws, wi, hi, i as int),
                grouped(self.blanks@, ws, wi, hi, i as int),
            decreases size - i,
        {
            let ghost found = self.blanks@;
            proof {
                lemma_seed(found, ws, wi, hi, i);
                assert(ws[i as int] == warn_of(self.map@[i as int]));
            }
            if Cell(self.map[i]).is_empty() && self.blanks.find(i).is_none() {
                proof {
                    assert(!covered(found, i));
                }
                if self.blanks.len() >= REGION_CAP {
                    proof {
                        lemma_tally_grows(seed_marks(ws, wi, hi), i + 1, size as int);
                    }
                    self.blanks.clear();
                    return ;
                }
                let region = self.find_empty_region(i);
                self.blanks.push(region);
                proof {
                    let now = self.blanks@;
                    lemma_region_holds_start(ws, wi, hi, i);
                    assert(is_region(region@, ws, wi, hi));
                    assert forall|k: int| 0 <= k < now.len() implies seeded(
                        #[trigger] now[k],
                        ws,
                        wi,
                        hi,
                        i + 1,
                    ) by {
                        if k < found.len() {
                            assert(now[k] == found[k]);
                            lemma_seeded(found[k], ws, wi, hi, i as int, i + 1);
                        } else {
                            assert(now[k] == floods(ws, wi, hi, i as int));
                        }
                    }
                    assert forall|j: usize| j < i + 1 && ws[j as int] == 0 implies #[trigger] covered(
                        now,
                        j,
                    ) by {
                        if j < i {
                            assert(covered(found, j));
                            let k = choose|k: int|
                                0 <= k < found.len() && (#[trigger] found[k]).contains(j);
                            assert(now[k].contains(j));
                        } else {
                            assert(now[found.len() as int].contains(j));
                        }
                    }
                }
            } else {
                proof {
                    if ws[i as int] == 0 {
                        let k = choose|k: int|
                            0 <= k < found.len() && (#[trigger] found[k]).contains(i);
                        assert(covered(found, i));
                    }
                    assert forall|k: int| 0 <= k < found.len() implies seeded(
                        #[trigger] found[k],
                        ws,
                        wi,
                        hi,
                        i + 1,
                    ) by {
                        lemma_seeded(found[k], ws, wi, hi, i as int, i + 1);
                    }
                }
            }
            i += 1;
        }
    }

    /// Number of regions of the board.
    pub open spec fn regions(&self) -> int {
        count_regions(warns(self.map@), self.w(), self.h(), self.size())
    }

    /// The regions of the board have been looked for: if there are no
    /// more than `REGION_CAP` of them, each is remembered, once, and
    /// every zero cell lies in one that is remembered; if there are
    /// more, none is remembered.
    pub open spec fn sorted_out(&self) -> bool {
        if self.regions() <= REGION_CAP {
            self.blanks@.len() == self.regions() && grouped(
                self.blanks@,
                warns(self.map@),
                self.w(),
                self.h(),
                self.size(),
            )
        } else {
            self.blanks@.len() == 0
        }
    }

    /// Reveals the region of the zero cell `i`, looked up among the
    /// regions remembered or walked and remembered now. Returns how many
    /// cells opened.
    fn reveal_region(&mut self, i: usize) -> (count: usize)
        requires
            old(self).wf(),
            i < old(self).size(),
            empty_of(old(self).map@[i as int]),
        ensures
            final(self).wf(),
            final(self).count == old(self).count,
            final(self).width == old(self).width,
            final(self).height == old(self).height,
            final(self).map@ == opened(
                old(self).map@,
                region_of(old(self).map@, old(self).w(), old(self).h(), i as int),
            ),
            count == gain(
                old(self).map@,
                region_of(old(self).map@, old(self).w(), old(self).h(), i as int),
            ),
            final(self).blanks@ == if covered(old(self).blanks@, i) {
                old(self).blanks@
            } else {
                old(self).blanks@.push(
                    region_of(old(self).map@, old(self).w(), old(self).h(), i as int),
                )
            },
    {
        let (w, h, size) = self.my_size();
        let ghost cells = self.map@;
        let ghost aim = region_of(cells, w as int, h as int, i as int);
        let ghost known = self.blanks@;
        let k = match self.blanks.find(i) {
            Some(k) => {
                proof {
                    assert(known[k as int].contains(i));
                    assert(covered(known, i));
                    lemma_region_of_member(
                        self.blanks@[k as int],
                        warns(cells),
                        w as int,
                        h as int,
                        i,
                    );
                }
                k
            },
            None => {
                proof {
                    if covered(known, i) {
                        let n = choose|n: int| 0 <= n < known.len() && (#[trigger] known[n]).contains(i);
                        assert(false);
                    }
                }
                let region = self.find_empty_region(i);
                self.blanks.push(region);
                assert(is_region(region@, warns(self.map@), self.w(), self.h()));
                self.blanks.len() - 1
            },
        };
        let ghost cache = self.blanks@;
        let mut count: usize = 0;
        let mut j: usize = 0;
        while j < size
            invariant
                j <= size,
                size == self.size(),
                size <= 65025,
                self.shaped(),
                self.count == old(self).count,
                self.width == old(self).width,
                self.height == old(self).height,
                cells.len() == size,
                k < self.blanks@.len(),
                self.blanks@ == cache,
                self.blanks@[k as int] == aim,
                regions_ok(self.blanks@, warns(cells), self.w(), self.h()),
                count == tally(opening(cells, aim), j as int),
                count <= j,
                forall|m: int| 0 <= m < j ==> self.map@[m] == opened(cells, aim)[m],
                forall|m: int| j <= m < size ==> self.map@[m] == cells[m],
            decreases size - j,
        {
            if self.blanks.holds(k, j) {
                let mut c = Cell(self.map[j]);
                if !(c.is_reveal() || c.is_flagged()) {
                    c.mark_reveal();
                    self.map[j] = c.0;
                    count += 1;
                }
            }
            j += 1;
        }
        proof {
            assert(self.map@ =~= opened(cells, aim));
            lemma_opened_keeps(cells, aim);
        }
        count
    }
}

/// Why `new` refuses a board, if it does.
pub open spec fn new_error(count: u16, width: u8, height: u8) -> Option<Seq<char>> {
    if width < 2 || height < 2 {
        Some("请设置更大的区域！"@)
    } else if count < 1 {
        Some("请设置更多地雷！"@)
    } else if count >= width * height {
        Some("请减少地雷数量！"@)
    } else {
        None
    }
}

/// Why `from_buffer` refuses a buffer, if it does.
pub open spec fn import_error(bytes: Seq<u8>) -> Option<Seq<char>> {
    if bytes.len() < 6 {
        Some("输入数据太短！[宽, 高, 数据..]"@)
    } else if bytes[0] < 2 || bytes[1] < 2 {
        Some("请设置更大的区域！"@)
    } else if bytes.len() - 2 != bytes[0] * bytes[1] {
        Some("数据长度与宽高不符！"@)
    } else {
        None
    }
}

/// The cells that `from_buffer` takes from a buffer.
pub open spec fn import_cells(bytes: Seq<u8>, hold_stat: bool) -> Seq<u8> {
    if hold_stat {
        bytes.skip(2)
    } else {
        warns(bytes.skip(2))
    }
}

/// The buffer that `export` gives.
pub open spec fn exported(width: u8, height: u8, cells: Seq<u8>, hold_stat: bool) -> Seq<u8> {
    seq![width, height] + if hold_stat {
        cells
    } else {
        warns(cells)
    }
}

/// The board with every mine revealed.
pub open spec fn mines_shown(cells: Seq<u8>) -> Seq<u8> {
    Seq::new(
        cells.len(),
        |j: int|
            if mine_of(cells[j]) {
                cells[j] | 0x80
            } else {
                cells[j]
            },
    )
}

/// What `reveal_around` aims at: what revealing each cell around
/// `(x, y)` aims at, if the board has that cell and it is revealed and
/// carries no flag; else nothing.
pub open spec fn chord_target(cells: Seq<u8>, w: int, h: int, x: int, y: int) -> Set<usize> {
    match index_at(x, y, w, h) {
        Some(i) => if revealed_of(cells[i]) && !flagged_of(cells[i]) {
            targets_around(cells, w, h, i, 8)
        } else {
            Set::empty()
        },
        None => Set::empty(),
    }
}

/// The column of the next cell is one on, or zero where a row ends.
proof fn lemma_next_column(j: int, w: int)
    requires
        0 <= j,
        0 < w,
    ensures
        (j + 1) % w == if j % w + 1 == w {
            0
        } else {
            j % w + 1
        },
{
    lemma_fundamental_div_mod(j, w);
    let q = j / w;
    let r = j % w;
    if r + 1 == w {
        assert(j + 1 == (q + 1) * w + 0) by (nonlinear_arith)
            requires
                j == w * q + r,
                r + 1 == w,
        ;
        lemma_fundamental_div_mod_converse(j + 1, w, q + 1, 0);
    } else {
        assert(j + 1 == q * w + (r + 1)) by (nonlinear_arith)
            requires
                j == w * q + r,
        ;
        lemma_fundamental_div_mod_converse(j + 1, w, q, r + 1);
    }
}

/// Taking the warnings of warnings changes nothing.
pub proof fn lemma_warns_twice(cells: Seq<u8>)
    ensures
        warns(warns(cells)) == warns(cells),
{
    assert forall|j: int| 0 <= j < cells.len() implies warn_of(warn_of(#[trigger] cells[j]))
        == warn_of(cells[j]) by {
        let b = cells[j];
        assert((b & 0x1f) & 0x1f == b & 0x1f) by (bit_vector);
    }
    assert(warns(warns(cells)) =~= warns(cells));
}

/// The aim of the places `0..k + 1` around a cell is the aim of the
/// places `0..k` together with the aim of place `k`.
pub proof fn lemma_targets_grow(cells: Seq<u8>, w: int, h: int, i: int, k: int)
    requires
        0 <= k,
    ensures
        targets_around(cells, w, h, i, k + 1) == targets_around(cells, w, h, i, k).union(
            target_at(cells, w, h, around_slot(i, w, h, k)),
        ),
{
    let grown = targets_around(cells, w, h, i, k + 1);
    let before = targets_around(cells, w, h, i, k);
    let last = target_at(cells, w, h, around_slot(i, w, h, k));
    assert forall|j: usize| grown.contains(j) == before.union(last).contains(j) by {
        if grown.contains(j) {
            let n = choose|n: int|
                0 <= n < k + 1 && (#[trigger] target_at(
                    cells,
                    w,
                    h,
                    around_slot(i, w, h, n),
                )).contains(j);
            if n < k {
                assert(before.contains(j));
            }
        }
        if before.contains(j) {
            let n = choose|n: int|
                0 <= n < k && (#[trigger] target_at(cells, w, h, around_slot(i, w, h, n))).contains(
                    j,
                );
            assert(0 <= n < k + 1);
        }
        if last.contains(j) {
            assert(target_at(cells, w, h, around_slot(i, w, h, k)).contains(j));
        }
    }
    assert(grown =~= before.union(last));
}

/// Index of the cell that a new game keeps safe, if one is asked for
/// and the board has it.
pub open spec fn safe_index(ignore: Option<Loc>, w: int, h: int) -> Option<int> {
    match ignore {
        Some(l) => index_at(l.0 as int, l.1 as int, w, h),
        None => None,
    }
}

/// Keeps the zone of cell `c` free of mines on a fresh board: every
/// mine on `c` or around it is moved to a cell outside the zone that
/// holds no mine, drawn at random among all such cells. Where no such
/// cell is left the mine stays.
#[verifier::rlimit(40)]
pub(crate) fn clear_zone(map: &mut Vec<u8>, w: usize, h: usize, c: usize, rng: &mut ThreadRng)
    requires
        old(map)@.len() == w * h,
        w * h <= NO_INDEX,
        c < w * h,
        fresh(old(map)@),
    ensures
        final(map)@.len() == old(map)@.len(),
        fresh(final(map)@),
        count_mines(final(map)@) == count_mines(old(map)@),
        zone_clear(final(map)@, w as int, h as int, c as int) || outside_full(
            final(map)@,
            w as int,
            h as int,
            c as int,
        ),
{
    let size = w * h;
    let ghost wi = w as int;
    let ghost hi = h as int;
    let ghost ci = c as int;
    let around = get_around_index(c, w, h);
    proof {
        assert forall|j: int| 0 <= j < size implies (in_zone(ci, j, wi, hi) <==> (j == ci
            || exists|k: int| 0 <= k < 8 && around[k] == j)) by {
            if is_neighbor(ci, j, wi, hi) {
                let k = choose|k: int| 0 <= k < 8 && #[trigger] around_slot(ci, wi, hi, k) == j;
                assert(around[k] == j);
            }
            if exists|k: int| 0 <= k < 8 && around[k] == j {
                let k = choose|k: int| 0 <= k < 8 && around[k] == j;
                assert(around_slot(ci, wi, hi, k) == j);
            }
        }
    }
    // the cells that can take a mine: outside the zone and empty
    let mut cands: Vec<usize> = Vec::new();
    let mut j: usize = 0;
    while j < size
        invariant
            j <= size,
            ci == c,
            size == wi * hi,
            wi == w,
            hi == h,
            map@.len() == size,
            map@ == old(map)@,
            forall|m: int|
                0 <= m < cands@.len() ==> (#[trigger] cands@[m]) < j && !in_zone(
                    ci,
                    cands@[m] as int,
                    wi,
                    hi,
                ) && map@[cands@[m] as int] == 0,
            forall|m1: int, m2: int|
                0 <= m1 < m2 < cands@.len() ==> #[trigger] cands@[m1] < #[trigger] cands@[m2],
            forall|x: int|
                0 <= x < j && !in_zone(ci, x, wi, hi) && map@[x] == 0 ==> exists|m: int|
                    0 <= m < cands@.len() && #[trigger] cands@[m] == x,
            forall|x: int|
                0 <= x < size ==> (in_zone(ci, x, wi, hi) <==> (x == ci || exists|k: int|
                    0 <= k < 8 && around[k] == x)),
        decreases size - j,
    {
        if !in_area(&around, c, j) && map[j] == 0 {
            let ghost before = cands@;
            cands.push(j);
            proof {
                assert(cands@[before.len() as int] == j);
                assert forall|x: int|
                    0 <= x < j + 1 && !in_zone(ci, x, wi, hi) && map@[x]
                        == 0 implies exists|m: int|
                    0 <= m < cands@.len() && #[trigger] cands@[m] == x by {
                    if x < j {
                        let m = choose|m: int| 0 <= m < before.len() && #[trigger] before[m] == x;
                        assert(cands@[m] == x);
                    }
                }
            }
        }
        j += 1;
    }
    let mut stuck = false;
    let mut n: usize = 0;
    while n < 9
        invariant
            n <= 9,
            ci == c,
            c < size,
            size == wi * hi,
            wi == w,
            hi == h,
            map@.len() == size,
            fresh(map@),
            count_mines(map@) == count_mines(old(map)@),
            forall|k: int| 0 <= k < 8 ==> around[k] as int == around_slot(ci, wi, hi, k),
            forall|x: int|
                0 <= x < size ==> (in_zone(ci, x, wi, hi) <==> (x == ci || exists|k: int|
                    0 <= k < 8 && around[k] == x)),
            forall|m: int|
                0 <= m < cands@.len() ==> (#[trigger] cands@[m]) < size && !in_zone(
                    ci,
                    cands@[m] as int,
                    wi,
                    hi,
                ) && map@[cands@[m] as int] == 0,
            forall|m1: int, m2: int|
                0 <= m1 < m2 < cands@.len() ==> #[trigger] cands@[m1] != #[trigger] cands@[m2],
            forall|x: int|
                0 <= x < size && !in_zone(ci, x, wi, hi) && map@[x] == 0 ==> exists|
                    m: int,
                | 0 <= m < cands@.len() && #[trigger] cands@[m] == x,
            stuck ==> cands@.len() == 0,
            !stuck ==> forall|k: int|
                0 <= k < n && k < 8 && around[k] < size ==> map@[#[trigger] around[k] as int]
                    == 0,
            !stuck && n == 9 ==> map@[ci] == 0,
        decreases 9 - n,
    {
        let a = if n < 8 {
            around[n]
        } else {
            c
        };
        if a < size && map[a] != 0 {
            if cands.len() == 0 {
                stuck = true;
            } else {
                let r = random_below(rng, cands.len());
                let ghost before = cands@;
                let ghost cells = map@;
                let t = cands.swap_remove(r);
                assert(in_zone(ci, a as int, wi, hi));
                assert(t == before[r as int]);
                map[t] = MINE;
                map[a] = 0;
                proof {
                    lemma_moved(cells, a as int, t as int);
                    let last = before.len() - 1;
                    assert forall|m: int| 0 <= m < cands@.len() implies (#[trigger] cands@[m])
                        < size && !in_zone(ci, cands@[m] as int, wi, hi)
                        && map@[cands@[m] as int] == 0 by {
                        if m == r {
                            assert(cands@[m] == before[last]);
                            assert(before[last] != before[r as int]);
                        } else {
                            assert(cands@[m] == before[m]);
                            assert(before[m] != before[r as int]);
                        }
                    }
                    assert forall|m1: int, m2: int|
                        0 <= m1 < m2 < cands@.len() implies #[trigger] cands@[m1]
                        != #[trigger] cands@[m2] by {
                        let o1 = if m1 == r {
                            last
                        } else {
                            m1
                        };
                        let o2 = if m2 == r {
                            last
                        } else {
                            m2
                        };
                        assert(cands@[m1] == before[o1]);
                        assert(cands@[m2] == before[o2]);
                        if o1 < o2 {
                            assert(before[o1] != before[o2]);
                        } else {
                            assert(before[o2] != before[o1]);
                        }
                    }
                    assert forall|x: int|
                        0 <= x < size && !in_zone(ci, x, wi, hi) && map@[x]
                            == 0 implies exists|m: int|
                        0 <= m < cands@.len() && #[trigger] cands@[m] == x by {
                        assert(x != t && x != a);
                        assert(cells[x] == 0);
                        let m = choose|m: int| 0 <= m < before.len() && #[trigger] before[m] == x;
                        if m == last {
                            assert(cands@[r as int] == x);
                        } else {
                            assert(m != r);
                            assert(cands@[m] == x);
                        }
                    }
                }
            }
        }
        n += 1;
    }
    proof {
        let cells = map@;
        if stuck {
            assert forall|x: int|
                0 <= x < cells.len() && !in_zone(ci, x, wi, hi) implies mine_of(
                #[trigger] cells[x],
            ) by {
                if cells[x] == 0 {
                    let m = choose|m: int| 0 <= m < cands@.len() && #[trigger] cands@[m] == x;
                }
                lemma_small(cells[x]);
            }
        } else {
            assert forall|x: int|
                0 <= x < cells.len() && in_zone(ci, x, wi, hi) implies !mine_of(
                #[trigger] cells[x],
            ) by {
                if x != ci {
                    let k = choose|k: int| 0 <= k < 8 && around[k] == x;
                    assert(cells[around[k] as int] == 0);
                }
                lemma_small(cells[x]);
            }
        }
    }
}

/// Whether `j` is the cell `c` or one of the cells `around` it.
fn in_area(around: &[usize; 8], c: usize, j: usize) -> (r: bool)
    ensures
        r == (j == c || exists|k: int| 0 <= k < 8 && around[k] == j),
{
    if j == c {
        return true;
    }
    let mut k: usize = 0;
    while k < 8
        invariant
            k <= 8,
            forall|n: int| 0 <= n < k ==> around[n] != j,
        decreases 8 - k,
    {
        if around[k] == j {
            return true;
        }
        k += 1;
    }
    false
}

/// The most regions that a board remembers when it looks for all of
/// them at once.
pub const REGION_CAP: usize = 100;

/// A board given out and taken in again has the same width and height.
/// Given out with its state and taken in with it, it has the same
/// cells; otherwise it has the warnings of the same cells.
pub proof fn lemma_round_trip(
    width: u8,
    height: u8,
    cells: Seq<u8>,
    hold_out: bool,
    hold_in: bool,
)
    requires
        width >= 2,
        height >= 2,
        cells.len() == width * height,
    ensures
        import_error(exported(width, height, cells, hold_out)) is None,
        exported(width, height, cells, hold_out)[0] == width,
        exported(width, height, cells, hold_out)[1] == height,
        import_cells(exported(width, height, cells, hold_out), hold_in) == if hold_out && hold_in {
            cells
        } else {
            warns(cells)
        },
{
    let bytes = exported(width, height, cells, hold_out);
    let body = if hold_out {
        cells
    } else {
        warns(cells)
    };
    assert(width * height >= 4) by (nonlinear_arith)
        requires
            width >= 2,
            height >= 2,
    ;
    assert(bytes.len() == cells.len() + 2);
    assert(bytes.skip(2) =~= body);
    lemma_warns_twice(cells);
}

} // verus!
