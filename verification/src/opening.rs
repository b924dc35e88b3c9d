//! What revealing does to a board: a set of cells is aimed at, and those
//! of them that are neither revealed nor flagged open.

use crate::cell::{
    empty_of, flagged_of, lemma_revealed, mine_of, revealed, revealed_of, warn_of,
};
use crate::grid::around_slot;
use crate::region::{covered, region_of, warns};
use crate::tally::{lemma_tally_bounds, lemma_tally_ends, tally};
use vstd::prelude::*;

verus! {

/// Cell `j` is aimed at and can open: it is neither revealed nor
/// flagged.
pub open spec fn opens(cells: Seq<u8>, aim: Set<usize>, j: int) -> bool {
    aim.contains(j as usize) && !revealed_of(cells[j]) && !flagged_of(cells[j])
}

/// Which cells open when `aim` is revealed.
pub open spec fn opening(cells: Seq<u8>, aim: Set<usize>) -> Seq<bool> {
    Seq::new(cells.len(), |j: int| opens(cells, aim, j))
}

/// The board after `aim` has been revealed: the cells that open carry
/// their warning and the revealed bit, the others are as they were.
pub open spec fn opened(cells: Seq<u8>, aim: Set<usize>) -> Seq<u8> {
    Seq::new(
        cells.len(),
        |j: int|
            if opens(cells, aim, j) {
                revealed(cells[j])
            } else {
                cells[j]
            },
    )
}

/// How many cells open when `aim` is revealed.
pub open spec fn gain(cells: Seq<u8>, aim: Set<usize>) -> int {
    tally(opening(cells, aim), cells.len() as int)
}

/// What revealing cell `a` aims at, flags aside: the region of `a` if
/// its warning is zero, else `a` alone.
pub open spec fn reveal_target(cells: Seq<u8>, w: int, h: int, a: int) -> Set<usize> {
    if empty_of(cells[a]) {
        region_of(cells, w, h, a)
    } else {
        set![a as usize]
    }
}

/// What revealing cell `a` aims at: nothing if `a` is flagged or no
/// cell of the board.
pub open spec fn target_at(cells: Seq<u8>, w: int, h: int, a: int) -> Set<usize> {
    if 0 <= a < cells.len() && !flagged_of(cells[a]) {
        reveal_target(cells, w, h, a)
    } else {
        Set::empty()
    }
}

/// What revealing the places `0..k` around cell `i` aims at.
pub open spec fn targets_around(cells: Seq<u8>, w: int, h: int, i: int, k: int) -> Set<usize> {
    Set::new(
        |j: usize|
            exists|n: int|
                0 <= n < k && (#[trigger] target_at(
                    cells,
                    w,
                    h,
                    around_slot(i, w, h, n),
                )).contains(j),
    )
}

/// The regions remembered once cell `a` has been revealed: those
/// `known` before, and behind them the region of `a` if `a` is a cell
/// of the board with warning zero and no flag that lies in none of
/// them.
pub open spec fn remembered(
    cells: Seq<u8>,
    w: int,
    h: int,
    known: Seq<Set<usize>>,
    a: int,
) -> Seq<Set<usize>> {
    if 0 <= a < cells.len() && empty_of(cells[a]) && !flagged_of(cells[a]) && !covered(
        known,
        a as usize,
    ) {
        known.push(region_of(cells, w, h, a))
    } else {
        known
    }
}

/// The regions remembered once the places `0..k` around cell `i` have
/// been revealed, one after the other.
pub open spec fn remembered_around(
    cells: Seq<u8>,
    w: int,
    h: int,
    known: Seq<Set<usize>>,
    i: int,
    k: int,
) -> Seq<Set<usize>>
    decreases k,
{
    if k <= 0 {
        known
    } else {
        remembered(
            cells,
            w,
            h,
            remembered_around(cells, w, h, known, i, k - 1),
            around_slot(i, w, h, k - 1),
        )
    }
}

/// Revealing changes neither a warning nor a flag, and takes no
/// revealed bit away.
pub proof fn lemma_opened_keeps(cells: Seq<u8>, aim: Set<usize>)
    ensures
        opened(cells, aim).len() == cells.len(),
        warns(opened(cells, aim)) == warns(cells),
        forall|j: int|
            0 <= j < cells.len() ==> {
                &&& flagged_of(#[trigger] opened(cells, aim)[j]) == flagged_of(cells[j])
                &&& mine_of(opened(cells, aim)[j]) == mine_of(cells[j])
                &&& revealed_of(opened(cells, aim)[j]) == (revealed_of(cells[j]) || opens(
                    cells,
                    aim,
                    j,
                ))
            },
{
    let after = opened(cells, aim);
    assert forall|j: int| 0 <= j < cells.len() implies warn_of(#[trigger] after[j]) == warn_of(
        cells[j],
    ) && flagged_of(after[j]) == flagged_of(cells[j]) && revealed_of(after[j]) == (revealed_of(
        cells[j],
    ) || opens(cells, aim, j)) by {
        lemma_revealed(cells[j]);
    }
    assert(warns(after) =~= warns(cells));
}

/// Revealing one aim and then another is revealing both at once: the
/// same board comes out, and as many cells open.
pub proof fn lemma_opened_twice(cells: Seq<u8>, a: Set<usize>, b: Set<usize>)
    ensures
        opened(opened(cells, a), b) == opened(cells, a.union(b)),
        gain(cells, a) + gain(opened(cells, a), b) == gain(cells, a.union(b)),
{
    let mid = opened(cells, a);
    lemma_opened_keeps(cells, a);
    assert forall|j: int| 0 <= j < cells.len() implies opened(mid, b)[j] == opened(
        cells,
        a.union(b),
    )[j] by {
        lemma_revealed(cells[j]);
    }
    assert(opened(mid, b) =~= opened(cells, a.union(b)));
    lemma_tally_sum(
        opening(cells, a),
        opening(mid, b),
        opening(cells, a.union(b)),
        cells.len() as int,
    );
}

/// Revealing an aim a second time opens nothing and changes nothing.
pub proof fn lemma_opened_again(cells: Seq<u8>, aim: Set<usize>)
    ensures
        opened(opened(cells, aim), aim) == opened(cells, aim),
        gain(opened(cells, aim), aim) == 0,
{
    lemma_opened_twice(cells, aim, aim);
    assert(aim.union(aim) =~= aim);
}

/// Where nothing opens the board stays as it is, and where the board
/// stays as it is nothing opens.
pub proof fn lemma_gain_zero(cells: Seq<u8>, aim: Set<usize>)
    ensures
        gain(cells, aim) == 0 <==> forall|j: int| 0 <= j < cells.len() ==> !opens(cells, aim, j),
        gain(cells, aim) == 0 <==> opened(cells, aim) == cells,
        0 <= gain(cells, aim) <= cells.len(),
{
    let marks = opening(cells, aim);
    lemma_tally_ends(marks, cells.len() as int);
    lemma_tally_bounds(marks, cells.len() as int);
    if forall|j: int| 0 <= j < cells.len() ==> !opens(cells, aim, j) {
        assert(opened(cells, aim) =~= cells);
        assert forall|j: int| 0 <= j < cells.len() implies !marks[j] by {}
    } else {
        let j = choose|j: int| 0 <= j < cells.len() && opens(cells, aim, j);
        lemma_revealed(cells[j]);
        assert(opened(cells, aim)[j] != cells[j]);
        assert(marks[j]);
    }
}

/// An aim of one cell opens that cell or nothing.
pub proof fn lemma_gain_single(cells: Seq<u8>, a: int)
    requires
        0 <= a < cells.len(),
        cells.len() <= usize::MAX,
    ensures
        gain(cells, set![a as usize]) == if opens(cells, set![a as usize], a) {
            1int
        } else {
            0int
        },
        opened(cells, set![a as usize]) == if opens(cells, set![a as usize], a) {
            cells.update(a, revealed(cells[a]))
        } else {
            cells
        },
{
    let aim = set![a as usize];
    let none = Seq::new(cells.len(), |j: int| false);
    lemma_tally_ends(none, cells.len() as int);
    crate::tally::lemma_tally_update(none, opening(cells, aim), a, cells.len() as int);
    if opens(cells, aim, a) {
        assert(opened(cells, aim) =~= cells.update(a, revealed(cells[a])));
    } else {
        assert(opened(cells, aim) =~= cells);
    }
}

/// Where every cell is marked in `c` that is marked in `a` or in `b`,
/// and none is marked in both, the counts of `a` and `b` add up to that
/// of `c`.
pub proof fn lemma_tally_sum(a: Seq<bool>, b: Seq<bool>, c: Seq<bool>, n: int)
    requires
        forall|j: int| 0 <= j < n ==> c[j] == (a[j] || b[j]) && !(a[j] && b[j]),
    ensures
        tally(c, n) == tally(a, n) + tally(b, n),
    decreases n,
{
    if n > 0 {
        lemma_tally_sum(a, b, c, n - 1);
    }
}

/// What a reveal aims at depends on warnings and flags alone, and a
/// reveal changes neither: after a reveal of any aim, a reveal of cell
/// `a` aims at what it aimed at before.
pub proof fn lemma_target_kept(cells: Seq<u8>, aim: Set<usize>, w: int, h: int, a: int)
    ensures
        target_at(opened(cells, aim), w, h, a) == target_at(cells, w, h, a),
{
    lemma_opened_keeps(cells, aim);
    if 0 <= a < cells.len() {
        assert(warns(opened(cells, aim))[a] == warns(cells)[a]);
    }
}

/// Revealing a cell a second time opens nothing and leaves the board
/// as the first reveal left it.
pub proof fn lemma_reveal_twice(cells: Seq<u8>, w: int, h: int, a: int)
    ensures
        ({
            let once = opened(cells, target_at(cells, w, h, a));
            &&& opened(once, target_at(once, w, h, a)) == once
            &&& gain(once, target_at(once, w, h, a)) == 0
        }),
{
    let aim = target_at(cells, w, h, a);
    lemma_target_kept(cells, aim, w, h, a);
    lemma_opened_again(cells, aim);
}

/// Revealing a revealed cell opens nothing and changes nothing, if the
/// cell has a warning above zero or nothing in its region is left to
/// open.
pub proof fn lemma_reveal_revealed(cells: Seq<u8>, w: int, h: int, a: int)
    requires
        0 <= a < cells.len(),
        cells.len() <= usize::MAX,
        revealed_of(cells[a]),
        empty_of(cells[a]) ==> forall|j: int|
            0 <= j < cells.len() && region_of(cells, w, h, a).contains(j as usize) ==> revealed_of(
                #[trigger] cells[j],
            ) || flagged_of(cells[j]),
    ensures
        opened(cells, target_at(cells, w, h, a)) == cells,
        gain(cells, target_at(cells, w, h, a)) == 0,
{
    let aim = target_at(cells, w, h, a);
    assert forall|j: int| 0 <= j < cells.len() implies !opens(cells, aim, j) by {
        if aim.contains(j as usize) && !empty_of(cells[a]) {
            assert(j as usize == a as usize);
        }
    }
    lemma_gain_zero(cells, aim);
}

/// No reveal changes a flagged cell.
pub proof fn lemma_flagged_stays(cells: Seq<u8>, aim: Set<usize>, j: int)
    requires
        0 <= j < cells.len(),
        flagged_of(cells[j]),
    ensures
        opened(cells, aim)[j] == cells[j],
        !revealed_of(cells[j]) ==> !revealed_of(opened(cells, aim)[j]),
{
}

} // verus!
