//! Regions: what opens together when a cell without mines around it is
//! revealed.
//!
//! A region belongs to a starting cell. It holds every cell that a walk
//! from the start can reach by stepping from a cell with warning zero to
//! any cell around it, mines left out. So it is a connected patch of
//! zero cells together with the numbered cells that border it.

use crate::cell::warn_of;
use crate::grid::{is_neighbor, lemma_neighbor_symmetry, NO_INDEX};
use crate::tally::tally;
use vstd::prelude::*;
use vstd::set_lib::lemma_len_subset;

verus! {

/// The warning of every cell, flags and revealed bits taken off.
pub open spec fn warns(cells: Seq<u8>) -> Seq<u8> {
    Seq::new(cells.len(), |j: int| warn_of(cells[j]))
}

/// A walk over the grid: each cell stands around the one before it, and
/// every cell but the last has warning zero.
pub open spec fn is_trail(ws: Seq<u8>, w: int, h: int, p: Seq<int>) -> bool {
    &&& p.len() > 0
    &&& forall|n: int| 0 <= n < p.len() ==> 0 <= #[trigger] p[n] < w * h
    &&& forall|n: int|
        0 <= n < p.len() - 1 ==> ws[#[trigger] p[n]] == 0 && is_neighbor(p[n], p[n + 1], w, h)
}

/// Some walk leads from `s` to `j`.
pub open spec fn reaches(ws: Seq<u8>, w: int, h: int, s: int, j: int) -> bool {
    exists|p: Seq<int>| #[trigger] is_trail(ws, w, h, p) && p[0] == s && p.last() == j
}

/// The region of `s` on a grid with the warnings `ws`: the cells that a
/// walk from `s` reaches and that are no mines.
pub open spec fn floods(ws: Seq<u8>, w: int, h: int, s: int) -> Set<usize> {
    Set::new(|j: usize| reaches(ws, w, h, s, j as int) && ws[j as int] <= 8)
}

/// The region of `s` on a board with the cells `cells`. Flags and
/// revealed bits play no part in it.
pub open spec fn region_of(cells: Seq<u8>, w: int, h: int, s: int) -> Set<usize> {
    floods(warns(cells), w, h, s)
}

/// `region` is the region of some zero cell.
pub open spec fn is_region(region: Set<usize>, ws: Seq<u8>, w: int, h: int) -> bool {
    exists|s: int| 0 <= s < w * h && ws[s] == 0 && region == #[trigger] floods(ws, w, h, s)
}

/// Every set in `regions` is the region of some zero cell.
pub open spec fn regions_ok(regions: Seq<Set<usize>>, ws: Seq<u8>, w: int, h: int) -> bool {
    forall|k: int| 0 <= k < regions.len() ==> is_region(#[trigger] regions[k], ws, w, h)
}

/// A zero cell that lies in the region of a zero cell has that region
/// for its own.
pub proof fn lemma_region_of_member(region: Set<usize>, ws: Seq<u8>, w: int, h: int, i: usize)
    requires
        is_region(region, ws, w, h),
        region.contains(i),
        ws[i as int] == 0,
        ws.len() == w * h,
        w * h <= NO_INDEX,
        0 < w,
    ensures
        region == floods(ws, w, h, i as int),
{
    let s = choose|s: int| 0 <= s < w * h && ws[s] == 0 && region == #[trigger] floods(ws, w, h, s);
    lemma_same_region(ws, w, h, s, i as int);
}

/// Cell `i` is the first zero cell of its region: its warning is zero,
/// and it lies in the region of no zero cell before it.
pub open spec fn is_seed(ws: Seq<u8>, w: int, h: int, i: int) -> bool {
    &&& 0 <= i < w * h
    &&& ws[i] == 0
    &&& forall|j: int| 0 <= j < i && ws[j] == 0 ==> !(#[trigger] floods(ws, w, h, j)).contains(i as usize)
}

/// For each cell, whether it is the first zero cell of its region.
pub open spec fn seed_marks(ws: Seq<u8>, w: int, h: int) -> Seq<bool> {
    Seq::new(ws.len(), |i: int| is_seed(ws, w, h, i))
}

/// Number of regions that begin among the first `n` cells.
pub open spec fn count_regions(ws: Seq<u8>, w: int, h: int, n: int) -> int {
    tally(seed_marks(ws, w, h), n)
}

/// Some set of `regions` holds cell `i`.
pub open spec fn covered(regions: Seq<Set<usize>>, i: usize) -> bool {
    exists|k: int| 0 <= k < regions.len() && (#[trigger] regions[k]).contains(i)
}

/// `region` is the region of a zero cell before `n`.
pub open spec fn seeded(region: Set<usize>, ws: Seq<u8>, w: int, h: int, n: int) -> bool {
    exists|s: int| 0 <= s < n && ws[s] == 0 && region == #[trigger] floods(ws, w, h, s)
}

/// Every set of `regions` is the region of a zero cell before `n`, and
/// every zero cell before `n` lies in one of them.
pub open spec fn grouped(regions: Seq<Set<usize>>, ws: Seq<u8>, w: int, h: int, n: int) -> bool {
    &&& forall|k: int| 0 <= k < regions.len() ==> seeded(#[trigger] regions[k], ws, w, h, n)
    &&& forall|i: usize| i < n && ws[i as int] == 0 ==> #[trigger] covered(regions, i)
}

/// The region of a zero cell before `n` is the region of a zero cell
/// before any later cell, and of a zero cell of the grid.
pub proof fn lemma_seeded(region: Set<usize>, ws: Seq<u8>, w: int, h: int, n: int, m: int)
    requires
        seeded(region, ws, w, h, n),
        n <= m <= w * h,
    ensures
        seeded(region, ws, w, h, m),
        is_region(region, ws, w, h),
{
    let s = choose|s: int| 0 <= s < n && ws[s] == 0 && region == #[trigger] floods(ws, w, h, s);
    assert(0 <= s < m && ws[s] == 0 && region == floods(ws, w, h, s));
}

/// A zero cell that no region of an earlier zero cell holds begins a
/// region; a zero cell that one holds does not.
pub proof fn lemma_seed(regions: Seq<Set<usize>>, ws: Seq<u8>, w: int, h: int, i: usize)
    requires
        grouped(regions, ws, w, h, i as int),
        i < w * h,
        ws.len() == w * h,
        w * h <= NO_INDEX,
        0 < w,
    ensures
        is_seed(ws, w, h, i as int) <==> ws[i as int] == 0 && !covered(regions, i),
{
    if ws[i as int] == 0 {
        if covered(regions, i) {
            let k = choose|k: int| 0 <= k < regions.len() && (#[trigger] regions[k]).contains(i);
            assert(seeded(regions[k], ws, w, h, i as int));
            let s = choose|s: int|
                0 <= s < i && ws[s] == 0 && regions[k] == #[trigger] floods(ws, w, h, s);
            assert(floods(ws, w, h, s).contains(i));
        } else {
            assert forall|j: int| 0 <= j < i && ws[j] == 0 implies !(#[trigger] floods(
                ws,
                w,
                h,
                j,
            )).contains(i) by {
                assert(covered(regions, j as usize));
                let k = choose|k: int|
                    0 <= k < regions.len() && (#[trigger] regions[k]).contains(j as usize);
                lemma_seeded(regions[k], ws, w, h, i as int, w * h);
                lemma_region_of_member(regions[k], ws, w, h, j as usize);
            }
        }
    }
}

/// The region of a zero cell holds that cell.
pub proof fn lemma_region_holds_start(ws: Seq<u8>, w: int, h: int, i: usize)
    requires
        i < w * h,
        ws[i as int] == 0,
    ensures
        floods(ws, w, h, i as int).contains(i),
{
    lemma_reaches_self(ws, w, h, i as int);
}

/// Nothing but cells of the grid lies in `set`.
pub open spec fn within(set: Set<usize>, size: int) -> bool {
    forall|j: usize| set.contains(j) ==> j < size
}

/// Every cell around a zero cell of `set` lies in `set` too.
pub open spec fn closed(ws: Seq<u8>, w: int, h: int, set: Set<usize>) -> bool {
    forall|u: usize, a: int|
        set.contains(u) && ws[u as int] == 0 && #[trigger] is_neighbor(u as int, a, w, h)
            ==> #[trigger] set.contains(a as usize)
}

/// A cell of the grid reaches itself.
pub proof fn lemma_reaches_self(ws: Seq<u8>, w: int, h: int, s: int)
    requires
        0 <= s < w * h,
    ensures
        reaches(ws, w, h, s, s),
{
    let p = seq![s];
    assert(is_trail(ws, w, h, p));
    assert(p[0] == s && p.last() == s);
}

/// A walk that ends on a zero cell goes on to any cell around it.
pub proof fn lemma_reaches_step(ws: Seq<u8>, w: int, h: int, s: int, u: int, a: int)
    requires
        reaches(ws, w, h, s, u),
        ws[u] == 0,
        is_neighbor(u, a, w, h),
    ensures
        reaches(ws, w, h, s, a),
{
    let p = choose|p: Seq<int>| #[trigger] is_trail(ws, w, h, p) && p[0] == s && p.last() == u;
    let q = p.push(a);
    assert forall|n: int| 0 <= n < q.len() implies 0 <= #[trigger] q[n] < w * h by {
        if n < p.len() {
            assert(q[n] == p[n]);
        }
    }
    assert forall|n: int| 0 <= n < q.len() - 1 implies ws[#[trigger] q[n]] == 0 && is_neighbor(
        q[n],
        q[n + 1],
        w,
        h,
    ) by {
        assert(q[n] == p[n]);
        if n < p.len() - 1 {
            assert(q[n + 1] == p[n + 1]);
        }
    }
    assert(is_trail(ws, w, h, q));
    assert(q[0] == p[0] && q.last() == a);
}

/// Only cells of the grid are reached, and only from cells of the grid.
pub proof fn lemma_reaches_within(ws: Seq<u8>, w: int, h: int, s: int, j: int)
    requires
        reaches(ws, w, h, s, j),
    ensures
        0 <= s < w * h,
        0 <= j < w * h,
{
    let p = choose|p: Seq<int>| #[trigger] is_trail(ws, w, h, p) && p[0] == s && p.last() == j;
    assert(0 <= p[0] < w * h);
    assert(0 <= p[p.len() - 1] < w * h);
}

/// Two walks, the second starting where the first ends, make one walk.
pub proof fn lemma_reaches_join(ws: Seq<u8>, w: int, h: int, s: int, m: int, j: int)
    requires
        reaches(ws, w, h, s, m),
        reaches(ws, w, h, m, j),
    ensures
        reaches(ws, w, h, s, j),
{
    let p = choose|p: Seq<int>| #[trigger] is_trail(ws, w, h, p) && p[0] == s && p.last() == m;
    let q = choose|q: Seq<int>| #[trigger] is_trail(ws, w, h, q) && q[0] == m && q.last() == j;
    let r = p + q.drop_first();
    assert forall|n: int| 0 <= n < r.len() implies 0 <= #[trigger] r[n] < w * h by {
        if n < p.len() {
            assert(r[n] == p[n]);
        } else {
            assert(r[n] == q[n - p.len() + 1]);
        }
    }
    assert forall|n: int| 0 <= n < r.len() - 1 implies ws[#[trigger] r[n]] == 0 && is_neighbor(
        r[n],
        r[n + 1],
        w,
        h,
    ) by {
        if n < p.len() - 1 {
            assert(r[n] == p[n]);
            assert(r[n + 1] == p[n + 1]);
        } else if n == p.len() - 1 {
            assert(r[n] == p[n]);
            assert(r[n] == q[0]);
            assert(r[n + 1] == q[1]);
        } else {
            assert(r[n] == q[n - p.len() + 1]);
            assert(r[n + 1] == q[n - p.len() + 2]);
        }
    }
    assert(is_trail(ws, w, h, r));
    assert(r[0] == s);
    if q.len() == 1 {
        assert(r.last() == p.last());
    } else {
        assert(r.last() == q[q.len() - 1]);
    }
}

/// A walk that ends on a zero cell can be walked back.
pub proof fn lemma_reaches_back(ws: Seq<u8>, w: int, h: int, s: int, j: int)
    requires
        reaches(ws, w, h, s, j),
        ws[j] == 0,
        w * h <= NO_INDEX,
        0 < w,
    ensures
        reaches(ws, w, h, j, s),
{
    let p = choose|p: Seq<int>| #[trigger] is_trail(ws, w, h, p) && p[0] == s && p.last() == j;
    let len = p.len() as int;
    let r = Seq::new(p.len(), |n: int| p[len - 1 - n]);
    assert forall|n: int| 0 <= n < r.len() implies 0 <= #[trigger] r[n] < w * h by {
        assert(r[n] == p[len - 1 - n]);
    }
    assert forall|n: int| 0 <= n < r.len() - 1 implies ws[#[trigger] r[n]] == 0 && is_neighbor(
        r[n],
        r[n + 1],
        w,
        h,
    ) by {
        let m = len - 2 - n;
        assert(r[n] == p[m + 1]);
        assert(r[n + 1] == p[m]);
        assert(ws[p[m]] == 0 && is_neighbor(p[m], p[m + 1], w, h));
        assert(0 <= p[m] < w * h);
        lemma_neighbor_symmetry(p[m], p[m + 1], w, h);
        if m + 1 < len - 1 {
            assert(ws[p[m + 1]] == 0);
        }
    }
    assert(is_trail(ws, w, h, r));
    assert(r[0] == j && r.last() == s);
}

/// Two zero cells, one of which reaches the other, have the same
/// region.
pub proof fn lemma_same_region(ws: Seq<u8>, w: int, h: int, s: int, i: int)
    requires
        reaches(ws, w, h, s, i),
        ws[s] == 0,
        ws[i] == 0,
        w * h <= NO_INDEX,
        0 < w,
    ensures
        floods(ws, w, h, s) == floods(ws, w, h, i),
{
    lemma_reaches_back(ws, w, h, s, i);
    assert forall|j: usize| floods(ws, w, h, s).contains(j) == floods(ws, w, h, i).contains(
        j,
    ) by {
        if reaches(ws, w, h, s, j as int) {
            lemma_reaches_join(ws, w, h, i, s, j as int);
        }
        if reaches(ws, w, h, i, j as int) {
            lemma_reaches_join(ws, w, h, s, i, j as int);
        }
    }
    assert(floods(ws, w, h, s) =~= floods(ws, w, h, i));
}

/// A set that holds the last cell of a walk's every proper start, and
/// with a zero cell every cell around it, holds the walk's end.
proof fn lemma_closed_holds_trail(ws: Seq<u8>, w: int, h: int, set: Set<usize>, p: Seq<int>)
    requires
        is_trail(ws, w, h, p),
        closed(ws, w, h, set),
        set.contains(p[0] as usize),
        w * h <= usize::MAX,
    ensures
        set.contains(p.last() as usize),
    decreases p.len(),
{
    if p.len() > 1 {
        let q = p.drop_last();
        assert forall|n: int| 0 <= n < q.len() implies 0 <= #[trigger] q[n] < w * h by {
            assert(q[n] == p[n]);
        }
        assert forall|n: int| 0 <= n < q.len() - 1 implies ws[#[trigger] q[n]] == 0
            && is_neighbor(q[n], q[n + 1], w, h) by {
            assert(q[n] == p[n]);
            assert(q[n + 1] == p[n + 1]);
        }
        assert(q[0] == p[0]);
        lemma_closed_holds_trail(ws, w, h, set, q);
        let u = p[p.len() - 2];
        assert(q.last() == u);
        assert(0 <= u < w * h);
        assert(ws[u] == 0 && is_neighbor(u, p[p.len() - 2 + 1], w, h));
        assert(set.contains(u as usize));
        assert((u as usize) as int == u);
        assert(is_neighbor(u as usize as int, p.last(), w, h));
    }
}

/// A set that holds `s`, and with a zero cell every cell around it,
/// holds every cell that `s` reaches.
pub proof fn lemma_closed_holds_reach(
    ws: Seq<u8>,
    w: int,
    h: int,
    set: Set<usize>,
    s: int,
    j: int,
)
    requires
        closed(ws, w, h, set),
        0 <= s,
        set.contains(s as usize),
        reaches(ws, w, h, s, j),
        w * h <= usize::MAX,
    ensures
        set.contains(j as usize),
{
    let p = choose|p: Seq<int>| #[trigger] is_trail(ws, w, h, p) && p[0] == s && p.last() == j;
    lemma_closed_holds_trail(ws, w, h, set, p);
}

/// The cells of a grid of `n` cells.
pub open spec fn below(n: int) -> Set<usize> {
    Set::new(|j: usize| j < n)
}

/// A grid of `n` cells has `n` indices.
pub proof fn lemma_below(n: int)
    requires
        0 <= n <= usize::MAX,
    ensures
        below(n).finite(),
        below(n).len() == n,
    decreases n,
{
    if n == 0 {
        assert(below(n) =~= Set::<usize>::empty());
    } else {
        lemma_below(n - 1);
        assert(below(n) =~= below(n - 1).insert((n - 1) as usize));
    }
}

/// A set of cells of a grid is finite and no larger than the grid.
pub proof fn lemma_within_len(set: Set<usize>, n: int)
    requires
        0 <= n <= usize::MAX,
        within(set, n),
    ensures
        set.finite(),
        set.len() <= n,
{
    lemma_below(n);
    assert(set.subset_of(below(n)));
    lemma_len_subset(set, below(n));
}

/// Cell `a` waits to be looked at: it stands in `current` at `n` or
/// later, or in `next`.
pub open spec fn pending<A>(current: Seq<A>, n: int, next: Seq<A>, a: A) -> bool {
    ||| exists|m: int| n <= m < current.len() && #[trigger] current[m] == a
    ||| exists|m: int| 0 <= m < next.len() && #[trigger] next[m] == a
}

/// What waits keeps waiting when a cell is added to `next`, and the
/// added cell waits too.
pub proof fn lemma_pending_push<A>(current: Seq<A>, n: int, next: Seq<A>, x: A)
    ensures
        pending(current, n, next.push(x), x),
        forall|a: A| pending(current, n, next, a) ==> pending(current, n, next.push(x), a),
{
    let grown = next.push(x);
    assert(grown[next.len() as int] == x);
    assert forall|a: A| pending(current, n, next, a) implies pending(
        current,
        n,
        grown,
        a,
    ) by {
        if exists|m: int| 0 <= m < next.len() && #[trigger] next[m] == a {
            let m = choose|m: int| 0 <= m < next.len() && #[trigger] next[m] == a;
            assert(grown[m] == a);
        }
    }
}

/// What waits at `n` or later is the cell at `n` or waits behind it.
pub proof fn lemma_pending_advance<A>(current: Seq<A>, n: int, next: Seq<A>)
    requires
        0 <= n < current.len(),
    ensures
        forall|a: A|
            pending(current, n, next, a) ==> a == current[n] || pending(current, n + 1, next, a),
{
    assert forall|a: A| pending(current, n, next, a) implies a == current[n] || pending(
        current,
        n + 1,
        next,
        a,
    ) by {
        if exists|m: int| n <= m < current.len() && #[trigger] current[m] == a {
            let m = choose|m: int| n <= m < current.len() && #[trigger] current[m] == a;
            if m != n {
                assert(n + 1 <= m < current.len() && current[m] == a);
            }
        }
    }
}

/// When `current` is used up, what waits in `next` is what waits once
/// `next` has taken the place of `current`.
pub proof fn lemma_pending_turn<A>(current: Seq<A>, next: Seq<A>)
    ensures
        forall|a: A|
            pending(current, current.len() as int, next, a) ==> pending(
                next,
                0,
                Seq::<A>::empty(),
                a,
            ),
{
    assert forall|a: A| pending(current, current.len() as int, next, a) implies pending(
        next,
        0,
        Seq::<A>::empty(),
        a,
    ) by {
        let m = choose|m: int| 0 <= m < next.len() && #[trigger] next[m] == a;
        assert(0 <= m < next.len() && next[m] == a);
    }
}

} // verus!
