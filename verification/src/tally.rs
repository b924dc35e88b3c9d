//! Counting the cells of a board that meet some condition.
//!
//! A condition is given as a sequence of marks, one `bool` per cell, so
//! that one set of lemmas serves every count the board needs.

use crate::cell::{flagged_of, mine_of};
use crate::grid::around_slot;
use vstd::prelude::*;

verus! {

/// How many of the first `n` marks are set.
pub open spec fn tally(marks: Seq<bool>, n: int) -> int
    decreases n,
{
    if n <= 0 {
        0
    } else {
        tally(marks, n - 1) + if marks[n - 1] {
            1int
        } else {
            0int
        }
    }
}

/// For each of the eight places around cell `i`, whether it holds a
/// marked cell.
pub open spec fn around_marks(marks: Seq<bool>, i: int, w: int, h: int) -> Seq<bool> {
    Seq::new(8, |k: int| around_slot(i, w, h, k) < w * h && marks[around_slot(i, w, h, k)])
}

/// How many of the places `0..k` around cell `i` hold a marked cell.
pub open spec fn tally_around(marks: Seq<bool>, i: int, w: int, h: int, k: int) -> int {
    tally(around_marks(marks, i, w, h), k)
}

/// Which cells are mines.
pub open spec fn mines(cells: Seq<u8>) -> Seq<bool> {
    Seq::new(cells.len(), |j: int| mine_of(cells[j]))
}

/// Which cells carry a flag.
pub open spec fn flags(cells: Seq<u8>) -> Seq<bool> {
    Seq::new(cells.len(), |j: int| flagged_of(cells[j]))
}

/// Number of mines on the board.
pub open spec fn count_mines(cells: Seq<u8>) -> int {
    tally(mines(cells), cells.len() as int)
}

/// Number of flags on the board.
pub open spec fn count_flags(cells: Seq<u8>) -> int {
    tally(flags(cells), cells.len() as int)
}

/// Number of mines among the cells around cell `i`.
pub open spec fn mines_around(cells: Seq<u8>, w: int, h: int, i: int) -> int {
    tally_around(mines(cells), i, w, h, 8)
}

/// Number of flags on cell `i` and the cells around it.
pub open spec fn flags_around(cells: Seq<u8>, w: int, h: int, i: int) -> int {
    tally_around(flags(cells), i, w, h, 8) + if flagged_of(cells[i]) {
        1int
    } else {
        0int
    }
}

/// A count of `n` marks lies between 0 and `n`.
pub proof fn lemma_tally_bounds(marks: Seq<bool>, n: int)
    requires
        0 <= n,
    ensures
        0 <= tally(marks, n) <= n,
    decreases n,
{
    if n > 0 {
        lemma_tally_bounds(marks, n - 1);
    }
}

/// A count over more cells is no smaller.
pub proof fn lemma_tally_grows(marks: Seq<bool>, m: int, n: int)
    requires
        m <= n,
    ensures
        tally(marks, m) <= tally(marks, n),
    decreases n - m,
{
    if m < n {
        lemma_tally_grows(marks, m, n - 1);
    }
}

/// Marks that agree on the first `n` cells give the same count there.
pub proof fn lemma_tally_agree(a: Seq<bool>, b: Seq<bool>, n: int)
    requires
        forall|j: int| 0 <= j < n ==> a[j] == b[j],
    ensures
        tally(a, n) == tally(b, n),
    decreases n,
{
    if n > 0 {
        lemma_tally_agree(a, b, n - 1);
    }
}

/// Changing one mark changes the count by what that mark was and is.
pub proof fn lemma_tally_update(a: Seq<bool>, b: Seq<bool>, j: int, n: int)
    requires
        0 <= j < n,
        forall|m: int| 0 <= m < n && m != j ==> a[m] == b[m],
    ensures
        tally(b, n) == tally(a, n) - (if a[j] {
            1int
        } else {
            0int
        }) + (if b[j] {
            1int
        } else {
            0int
        }),
    decreases n,
{
    if n - 1 == j {
        lemma_tally_agree(a, b, n - 1);
    } else {
        lemma_tally_update(a, b, j, n - 1);
    }
}

/// A mark that is not set leaves the count below the number of marks,
/// and a mark that is set brings it above zero.
pub proof fn lemma_tally_room(marks: Seq<bool>, k: int, n: int)
    requires
        0 <= k < n,
    ensures
        !marks[k] ==> tally(marks, n) <= n - 1,
        marks[k] ==> tally(marks, n) >= 1,
{
    lemma_tally_ends(marks, n);
    lemma_tally_bounds(marks, n);
}

/// The count is zero exactly when no mark is set, and `n` exactly when
/// all are.
pub proof fn lemma_tally_ends(marks: Seq<bool>, n: int)
    requires
        0 <= n,
    ensures
        tally(marks, n) == 0 <==> forall|j: int| 0 <= j < n ==> !marks[j],
        tally(marks, n) == n <==> forall|j: int| 0 <= j < n ==> marks[j],
    decreases n,
{
    if n > 0 {
        lemma_tally_ends(marks, n - 1);
        lemma_tally_bounds(marks, n - 1);
        if tally(marks, n) == 0 {
            assert forall|j: int| 0 <= j < n implies !marks[j] by {
                if j < n - 1 {
                }
            }
        }
        if tally(marks, n) == n {
            assert forall|j: int| 0 <= j < n implies marks[j] by {
                if j < n - 1 {
                }
            }
        }
    }
}

/// For each item of `list`, whether `other` holds it.
pub open spec fn held_marks<A>(list: Seq<A>, other: Seq<A>) -> Seq<bool> {
    Seq::new(list.len(), |m: int| other.contains(list[m]))
}

/// How many items of `list` the other list holds.
pub open spec fn held<A>(list: Seq<A>, other: Seq<A>) -> int {
    tally(held_marks(list, other), list.len() as int)
}

/// Two lists without repeats each hold as many items of the other.
pub proof fn lemma_held_both_ways<A>(a: Seq<A>, b: Seq<A>)
    requires
        a.no_duplicates(),
        b.no_duplicates(),
    ensures
        held(a, b) == held(b, a),
        0 <= held(a, b) <= b.len(),
        0 <= held(a, b) <= a.len(),
    decreases b.len(),
{
    lemma_tally_bounds(held_marks(a, b), a.len() as int);
    lemma_tally_bounds(held_marks(b, a), b.len() as int);
    if b.len() == 0 {
        assert forall|m: int| 0 <= m < a.len() implies !held_marks(a, b)[m] by {}
        lemma_tally_ends(held_marks(a, b), a.len() as int);
    } else {
        let front = b.drop_last();
        let last = b.last();
        assert(front.no_duplicates()) by {
            assert forall|i: int, j: int|
                0 <= i < front.len() && 0 <= j < front.len() && i != j implies front[i]
                != front[j] by {
                assert(front[i] == b[i] && front[j] == b[j]);
            }
        }
        lemma_held_both_ways(a, front);
        assert(!front.contains(last)) by {
            if front.contains(last) {
                let i = choose|i: int| 0 <= i < front.len() && front[i] == last;
                assert(b[i] == b[b.len() - 1]);
            }
        }
        // how the items of `b` that `a` holds are counted
        lemma_tally_agree(held_marks(b, a), held_marks(front, a), front.len() as int);
        // how the items of `a` that `b` holds are counted
        assert forall|m: int| 0 <= m < a.len() implies held_marks(a, b)[m] == (held_marks(
            a,
            front,
        )[m] || a[m] == last) by {
            if b.contains(a[m]) {
                let i = choose|i: int| 0 <= i < b.len() && b[i] == a[m];
                if i < front.len() {
                    assert(front[i] == a[m]);
                }
            }
            if front.contains(a[m]) {
                let i = choose|i: int| 0 <= i < front.len() && front[i] == a[m];
                assert(b[i] == a[m]);
            }
            if a[m] == last {
                assert(b[b.len() - 1] == a[m]);
            }
        }
        if a.contains(last) {
            let m = choose|m: int| 0 <= m < a.len() && a[m] == last;
            assert forall|n: int| 0 <= n < a.len() && n != m implies held_marks(a, b)[n]
                == held_marks(a, front)[n] by {
                assert(a[n] != a[m]);
            }
            assert(!held_marks(a, front)[m]);
            assert(held_marks(a, b)[m]);
            lemma_tally_update(held_marks(a, front), held_marks(a, b), m, a.len() as int);
        } else {
            assert forall|n: int| 0 <= n < a.len() implies held_marks(a, b)[n] == held_marks(
                a,
                front,
            )[n] by {
                if a[n] == last {
                    assert(a.contains(last));
                }
            }
            lemma_tally_agree(held_marks(a, front), held_marks(a, b), a.len() as int);
        }
    }
}

/// A list without repeats of numbers below `n` marks as many of the
/// numbers below `n` as it is long.
pub proof fn lemma_tally_of_list(list: Seq<int>, n: int)
    requires
        list.no_duplicates(),
        forall|m: int| 0 <= m < list.len() ==> 0 <= #[trigger] list[m] < n,
        0 <= n,
    ensures
        tally(Seq::new(n as nat, |j: int| list.contains(j)), n) == list.len(),
    decreases list.len(),
{
    let marks = Seq::new(n as nat, |j: int| list.contains(j));
    if list.len() == 0 {
        assert forall|j: int| 0 <= j < n implies !marks[j] by {}
        lemma_tally_ends(marks, n);
    } else {
        let front = list.drop_last();
        let last = list.last();
        let before = Seq::new(n as nat, |j: int| front.contains(j));
        assert(front.no_duplicates()) by {
            assert forall|i: int, j: int|
                0 <= i < front.len() && 0 <= j < front.len() && i != j implies front[i]
                != front[j] by {
                assert(front[i] == list[i] && front[j] == list[j]);
            }
        }
        assert forall|m: int| 0 <= m < front.len() implies 0 <= #[trigger] front[m] < n by {
            assert(front[m] == list[m]);
        }
        lemma_tally_of_list(front, n);
        assert(0 <= list[list.len() - 1] < n);
        assert(!before[last]) by {
            if front.contains(last) {
                let i = choose|i: int| 0 <= i < front.len() && front[i] == last;
                assert(list[i] == list[list.len() - 1]);
            }
        }
        assert(marks[last]) by {
            assert(list[list.len() - 1] == last);
        }
        assert forall|j: int| 0 <= j < n && j != last implies before[j] == marks[j] by {
            if list.contains(j) {
                let i = choose|i: int| 0 <= i < list.len() && list[i] == j;
                assert(front[i] == j);
            }
            if front.contains(j) {
                let i = choose|i: int| 0 <= i < front.len() && front[i] == j;
                assert(list[i] == j);
            }
        }
        lemma_tally_update(before, marks, last, n);
    }
}

} // verus!
