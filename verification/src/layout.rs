//! Laying out the mines: what a freshly shuffled board looks like, what
//! the safe zone of a first click is, and how the warnings are counted.

use crate::cell::{flagged_of, mine_of, revealed_of, warn_of};
use crate::grid::{around_slot, count_valid, is_neighbor, lemma_around_slot, NO_INDEX};
use crate::opening::lemma_tally_sum;
use crate::tally::{
    around_marks, count_mines, lemma_tally_agree, lemma_tally_bounds, lemma_tally_ends,
    lemma_tally_update, mines, tally,
};
use vstd::prelude::*;
use vstd::seq_lib::{to_multiset_build, to_multiset_contains};

verus! {

/// Every cell is a bare mine or bare zero: no warning has been counted
/// yet, and nothing is revealed or flagged.
pub open spec fn fresh(cells: Seq<u8>) -> bool {
    forall|j: int| 0 <= j < cells.len() ==> #[trigger] cells[j] == 0 || cells[j] == 9
}

/// Cell `j` is the cell `c` or stands around it.
pub open spec fn in_zone(c: int, j: int, w: int, h: int) -> bool {
    j == c || is_neighbor(c, j, w, h)
}

/// No cell of the zone of `c` is a mine.
pub open spec fn zone_clear(cells: Seq<u8>, w: int, h: int, c: int) -> bool {
    forall|j: int| 0 <= j < cells.len() && in_zone(c, j, w, h) ==> !mine_of(#[trigger] cells[j])
}

/// Every cell outside the zone of `c` is a mine.
pub open spec fn outside_full(cells: Seq<u8>, w: int, h: int, c: int) -> bool {
    forall|j: int| 0 <= j < cells.len() && !in_zone(c, j, w, h) ==> mine_of(#[trigger] cells[j])
}

/// Number of cells in the zone of `c`.
pub open spec fn zone_size(w: int, h: int, c: int) -> int {
    1 + count_valid(c, w, h, 8)
}

/// The place across from place `k`.
pub open spec fn opposite(k: int) -> int {
    if k < 4 {
        k + 4
    } else {
        k - 4
    }
}

/// For each place `n` around cell `j`: whether the cell there is marked
/// and has come up already, when the cells are gone through in order and
/// for each the places around it in order, and cell `i` has got as far
/// as place `k`.
pub open spec fn hit_marks(marks: Seq<bool>, w: int, h: int, j: int, i: int, k: int) -> Seq<
    bool,
> {
    Seq::new(
        8,
        |n: int|
            {
                let s = around_slot(j, w, h, n);
                s < w * h && marks[s] && (s < i || (s == i && opposite(n) < k))
            },
    )
}

/// How many marked cells around `j` have come up already.
pub open spec fn hits(marks: Seq<bool>, w: int, h: int, j: int, i: int, k: int) -> int {
    tally(hit_marks(marks, w, h, j, i, k), 8)
}

/// A byte that uses the warning field alone is its own warning, and is
/// neither revealed nor flagged.
pub proof fn lemma_small(b: u8)
    requires
        b <= 31,
    ensures
        warn_of(b) == b,
        !revealed_of(b),
        !flagged_of(b),
        mine_of(b) == (b > 8),
{
    assert(b <= 31 ==> b & 0x1f == b && b & 0x80 != 0x80 && b & 0x40 != 0x40) by (bit_vector);
}

/// On a fresh board the mines are counted by counting the value 9.
pub proof fn lemma_fresh_count(cells: Seq<u8>)
    requires
        fresh(cells),
    ensures
        count_mines(cells) == cells.to_multiset().count(9u8),
    decreases cells.len(),
{
    if cells.len() == 0 {
        assert(cells.to_multiset().len() == 0) by {
            cells.to_multiset_ensures();
        }
        assert(cells.to_multiset().count(9u8) == 0) by {
            to_multiset_contains(cells, 9u8);
        }
    } else {
        let front = cells.drop_last();
        let last = cells.last();
        assert(fresh(front)) by {
            assert forall|j: int| 0 <= j < front.len() implies #[trigger] front[j] == 0
                || front[j] == 9 by {
                assert(front[j] == cells[j]);
            }
        }
        lemma_fresh_count(front);
        assert(cells =~= front.push(last));
        to_multiset_build(front, last);
        lemma_tally_agree(mines(cells), mines(front), front.len() as int);
        assert(last == cells[cells.len() - 1]);
        lemma_small(last);
    }
}

/// A board that holds what a fresh board held, each value as often, is
/// fresh and has as many mines.
pub proof fn lemma_shuffled(before: Seq<u8>, after: Seq<u8>)
    requires
        fresh(before),
        after.to_multiset() == before.to_multiset(),
    ensures
        fresh(after),
        after.len() == before.len(),
        count_mines(after) == count_mines(before),
{
    before.to_multiset_ensures();
    after.to_multiset_ensures();
    assert forall|j: int| 0 <= j < after.len() implies #[trigger] after[j] == 0 || after[j]
        == 9 by {
        let v = after[j];
        assert(after.contains(v));
        to_multiset_contains(after, v);
        to_multiset_contains(before, v);
        let m = choose|m: int| 0 <= m < before.len() && before[m] == v;
        assert(before[m] == 0 || before[m] == 9);
    }
    lemma_fresh_count(before);
    lemma_fresh_count(after);
}

/// A board whose first `c` cells are mines and whose other cells are
/// zero has `c` mines among its first `n` cells, or `n` if that is
/// fewer.
pub proof fn lemma_filled(cells: Seq<u8>, c: int, n: int)
    requires
        0 <= c,
        0 <= n <= cells.len(),
        forall|j: int|
            0 <= j < cells.len() ==> #[trigger] cells[j] == if j < c {
                9u8
            } else {
                0u8
            },
    ensures
        tally(mines(cells), n) == if n < c {
            n
        } else {
            c
        },
    decreases n,
{
    if n > 0 {
        lemma_filled(cells, c, n - 1);
        lemma_small(cells[n - 1]);
    }
}

/// Moving a mine from one cell of a fresh board to a zero cell leaves a
/// fresh board with as many mines.
pub proof fn lemma_moved(cells: Seq<u8>, from: int, to: int)
    requires
        fresh(cells),
        0 <= from < cells.len(),
        0 <= to < cells.len(),
        cells[from] == 9,
        cells[to] == 0,
    ensures
        fresh(cells.update(to, 9u8).update(from, 0u8)),
        count_mines(cells.update(to, 9u8).update(from, 0u8)) == count_mines(cells),
{
    let mid = cells.update(to, 9u8);
    let end = mid.update(from, 0u8);
    let n = cells.len() as int;
    lemma_small(0u8);
    lemma_small(9u8);
    assert forall|j: int| 0 <= j < end.len() implies #[trigger] end[j] == 0 || end[j] == 9 by {
        if j != to && j != from {
            assert(end[j] == cells[j]);
        }
    }
    lemma_tally_update(mines(cells), mines(mid), to, n);
    lemma_tally_update(mines(mid), mines(end), from, n);
}

/// The places around a cell hold different cells, none of them the
/// cell itself.
pub proof fn lemma_slots_differ(c: int, w: int, h: int, k1: int, k2: int)
    requires
        0 <= c < w * h,
        w * h <= NO_INDEX,
        0 < w,
        0 <= k1 < 8,
        0 <= k2 < 8,
        k1 != k2,
        around_slot(c, w, h, k1) < w * h,
    ensures
        around_slot(c, w, h, k1) != around_slot(c, w, h, k2),
        around_slot(c, w, h, k1) != c,
{
    lemma_around_slot(c, w, h, k1);
    lemma_around_slot(c, w, h, k2);
}

/// Which cells lie in the zone of `c`, the places from `k` on left out.
pub open spec fn zone_marks(n: int, w: int, h: int, c: int, k: int) -> Seq<bool> {
    Seq::new(
        n as nat,
        |j: int| j == c || exists|m: int| 0 <= m < k && #[trigger] around_slot(c, w, h, m) == j,
    )
}

/// The zone of a cell holds the cell and one cell for every place
/// around it that lies on the grid.
pub proof fn lemma_zone_count(w: int, h: int, c: int, k: int)
    requires
        0 <= c < w * h,
        w * h <= NO_INDEX,
        0 < w,
        0 <= k <= 8,
    ensures
        tally(zone_marks(w * h, w, h, c, k), w * h) == 1 + count_valid(c, w, h, k),
    decreases k,
{
    let n = w * h;
    if k == 0 {
        let none = Seq::new(n as nat, |j: int| false);
        lemma_tally_ends(none, n);
        lemma_tally_update(none, zone_marks(n, w, h, c, 0), c, n);
    } else {
        lemma_zone_count(w, h, c, k - 1);
        let before = zone_marks(n, w, h, c, k - 1);
        let after = zone_marks(n, w, h, c, k);
        let s = around_slot(c, w, h, k - 1);
        lemma_around_slot(c, w, h, k - 1);
        if s < n {
            assert forall|m: int| 0 <= m < k - 1 implies #[trigger] around_slot(c, w, h, m)
                != s by {
                lemma_slots_differ(c, w, h, k - 1, m);
            }
            lemma_slots_differ(c, w, h, k - 1, if k - 1 == 0 {
                1
            } else {
                0
            });
            assert(!before[s]);
            assert(after[s]);
            assert forall|j: int| 0 <= j < n && j != s implies before[j] == after[j] by {
                if after[j] && j != c {
                    let m = choose|m: int| 0 <= m < k && #[trigger] around_slot(c, w, h, m) == j;
                    assert(m < k - 1);
                }
            }
            lemma_tally_update(before, after, s, n);
        } else {
            assert forall|j: int| 0 <= j < n implies before[j] == after[j] by {
                if after[j] && j != c {
                    let m = choose|m: int| 0 <= m < k && #[trigger] around_slot(c, w, h, m) == j;
                    assert(m < k - 1);
                }
            }
            lemma_tally_agree(before, after, n);
        }
    }
}

/// A zone holds the cell itself and at most the eight cells around it.
pub proof fn lemma_zone_size(w: int, h: int, c: int)
    ensures
        1 <= zone_size(w, h, c) <= 9,
{
    reveal_with_fuel(count_valid, 9);
}

/// Where either the zone of `c` is free of mines or every cell outside
/// it is a mine, and the mines leave room for the zone, the zone is
/// free of mines.
pub proof fn lemma_zone_room(cells: Seq<u8>, w: int, h: int, c: int)
    requires
        cells.len() == w * h,
        0 <= c < w * h,
        w * h <= NO_INDEX,
        0 < w,
        zone_clear(cells, w, h, c) || outside_full(cells, w, h, c),
        count_mines(cells) + zone_size(w, h, c) <= cells.len(),
    ensures
        zone_clear(cells, w, h, c),
{
    if !zone_clear(cells, w, h, c) {
        let n = w * h;
        let z = choose|z: int| 0 <= z < cells.len() && in_zone(c, z, w, h) && mine_of(cells[z]);
        let zone = zone_marks(n, w, h, c, 8);
        let all = Seq::new(n as nat, |j: int| true);
        let out = Seq::new(n as nat, |j: int| !zone[j]);
        let mined_in = Seq::new(n as nat, |j: int| zone[j] && mine_of(cells[j]));
        lemma_zone_count(w, h, c, 8);
        lemma_tally_ends(all, n);
        lemma_tally_sum(zone, out, all, n);
        assert forall|j: int| 0 <= j < n implies mines(cells)[j] == (mined_in[j] || out[j]) && !(
        mined_in[j] && out[j]) by {
            if !zone[j] {
                assert(!in_zone(c, j, w, h)) by {
                    if is_neighbor(c, j, w, h) {
                        let m = choose|m: int|
                            0 <= m < 8 && #[trigger] around_slot(c, w, h, m) == j;
                        assert(zone[j]);
                    }
                }
                assert(mine_of(cells[j]));
            }
        }
        lemma_tally_sum(mined_in, out, mines(cells), n);
        assert(zone[z]) by {
            if z != c {
                let m = choose|m: int| 0 <= m < 8 && #[trigger] around_slot(c, w, h, m) == z;
            }
        }
        assert(mined_in[z]);
        lemma_tally_ends(mined_in, n);
        lemma_tally_bounds(mined_in, n);
    }
}

/// The place across from the place across is the place itself, and
/// the steps to the two are opposite.
pub proof fn lemma_slot_opposite(i: int, w: int, h: int, k: int)
    requires
        0 <= i < w * h,
        w * h <= NO_INDEX,
        0 < w,
        0 <= k < 8,
        around_slot(i, w, h, k) < w * h,
    ensures
        around_slot(around_slot(i, w, h, k), w, h, opposite(k)) == i,
{
    lemma_around_slot(i, w, h, k);
    let j = around_slot(i, w, h, k);
    lemma_around_slot(j, w, h, opposite(k));
    crate::grid::lemma_coords(i, w, h);
}

/// Before any cell has been gone through, nothing has come up; when
/// all have, every marked cell around has.
pub proof fn lemma_hits_ends(marks: Seq<bool>, w: int, h: int, j: int)
    requires
        0 <= j < w * h,
        w * h <= NO_INDEX,
        0 < w,
    ensures
        hits(marks, w, h, j, 0, 0) == 0,
        hits(marks, w, h, j, w * h, 0) == tally(around_marks(marks, j, w, h), 8),
{
    let start = hit_marks(marks, w, h, j, 0, 0);
    assert forall|n: int| 0 <= n < 8 implies !start[n] by {
        lemma_around_slot(j, w, h, n);
    }
    lemma_tally_ends(start, 8);
    lemma_tally_agree(hit_marks(marks, w, h, j, w * h, 0), around_marks(marks, j, w, h), 8);
}

/// Going on from cell `i` to the next changes nothing if `i` is not
/// marked or all places around `i` have been gone through.
pub proof fn lemma_hits_next(marks: Seq<bool>, w: int, h: int, j: int, i: int, k: int)
    requires
        0 <= i < w * h,
        k == 8 || (k == 0 && !marks[i]),
    ensures
        hits(marks, w, h, j, i, k) == hits(marks, w, h, j, i + 1, 0),
{
    lemma_tally_agree(hit_marks(marks, w, h, j, i, k), hit_marks(marks, w, h, j, i + 1, 0), 8);
}

/// Going on from place `k` around the marked cell `i` to the next
/// place brings up `i` for the cell at place `k`, and for no other.
pub proof fn lemma_hits_step(marks: Seq<bool>, w: int, h: int, j: int, i: int, k: int)
    requires
        0 <= i < w * h,
        0 <= j < w * h,
        w * h <= NO_INDEX,
        0 < w,
        0 <= k < 8,
        marks[i],
    ensures
        hits(marks, w, h, j, i, k + 1) == hits(marks, w, h, j, i, k) + if around_slot(i, w, h, k)
            == j {
            1int
        } else {
            0int
        },
{
    let before = hit_marks(marks, w, h, j, i, k);
    let after = hit_marks(marks, w, h, j, i, k + 1);
    let n = opposite(k);
    assert(opposite(n) == k);
    assert forall|m: int| 0 <= m < 8 && m != n implies before[m] == after[m] by {
        assert(opposite(m) != k);
    }
    lemma_tally_update(before, after, n, 8);
    lemma_around_slot(j, w, h, n);
    if around_slot(i, w, h, k) == j {
        lemma_slot_opposite(i, w, h, k);
        assert(after[n] && !before[n]);
    } else {
        if around_slot(j, w, h, n) == i {
            lemma_slot_opposite(j, w, h, n);
        }
        assert(before[n] == after[n]);
    }
}

} // verus!
