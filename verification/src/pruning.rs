//! Pruning tables: for a pair of coordinates, a breadth-first fill over the
//! product graph starting at the solved pair `(0, 0)`. The entry at a cell
//! bounds from below the number of moves needed to bring both coordinates
//! to zero, which lets the search cut hopeless branches.

use vstd::prelude::*;

use vstd::pervasive::VecAdditionalExecFns;

use crate::moves::Move;
use crate::table::MoveTable;

verus! {

/// The value of cell `(i, j)` as an integer.
pub open spec fn pv(p: Seq<Vec<u8>>, i: int, j: int) -> int {
    p[i]@[j] as int
}

/// The entry of a move table as an integer.
pub open spec fn tv(t: Seq<Vec<u16>>, i: int, m: int) -> int {
    t[i]@[m] as int
}

/// A rectangular grid of the given dimensions.
pub open spec fn grid_dims(p: Seq<Vec<u8>>, n1: int, n2: int) -> bool {
    &&& p.len() == n1
    &&& forall|i: int| 0 <= i < n1 ==> (#[trigger] p[i])@.len() == n2
}

/// A move table with `n1` rows of `nm` columns whose entries index back
/// into `0 .. n1`.
pub open spec fn moves_dims(t: Seq<Vec<u16>>, n1: int, nm: int) -> bool {
    &&& t.len() == n1
    &&& (forall|i: int| 0 <= i < n1 ==> (#[trigger] t[i])@.len() == nm)
    &&& (forall|i: int, m: int| 0 <= i < n1 && 0 <= m < nm ==> 0 <= #[trigger] tv(t, i, m) < n1)
}

/// Every cell is filled (no sentinel left).
pub open spec fn all_filled(p: Seq<Vec<u8>>, n1: int, n2: int) -> bool {
    forall|i: int, j: int| 0 <= i < n1 && 0 <= j < n2 ==> (#[trigger] pv(p, i, j)) < 255
}

/// Every filled cell with a positive value has a parent one step closer to
/// the origin: some cell whose value is one less and that reaches this cell
/// by one move of the pair of tables.
pub open spec fn has_parents(
    p: Seq<Vec<u8>>,
    t1: Seq<Vec<u16>>,
    t2: Seq<Vec<u16>>,
    n1: int,
    n2: int,
    nm: int,
) -> bool {
    forall|i: int, j: int|
        0 <= i < n1 && 0 <= j < n2 && 0 < #[trigger] pv(p, i, j) < 255 ==> exists|
            a: int,
            b: int,
            m: int,
        |
            #![trigger pv(p, a, b), tv(t1, a, m)]
            0 <= a < n1 && 0 <= b < n2 && 0 <= m < nm && pv(p, a, b) == pv(p, i, j) - 1 && tv(
                t1,
                a,
                m,
            ) == i && tv(t2, b, m) == j
}

/// Every cell whose value is below `d` has had its successors bounded: each
/// move leads to a cell at most one further.
pub open spec fn step_bound(
    p: Seq<Vec<u8>>,
    t1: Seq<Vec<u16>>,
    t2: Seq<Vec<u16>>,
    n1: int,
    n2: int,
    nm: int,
    d: int,
) -> bool {
    forall|i: int, j: int, m: int|
        #![trigger pv(p, i, j), tv(t1, i, m)]
        0 <= i < n1 && 0 <= j < n2 && 0 <= m < nm && pv(p, i, j) < d ==> pv(
            p,
            tv(t1, i, m),
            tv(t2, j, m),
        ) <= pv(p, i, j) + 1
}

/// Every filled cell's successors are filled and at most one further: the
/// shape of a completed breadth-first fill.
pub open spec fn locally_consistent(
    p: Seq<Vec<u8>>,
    t1: Seq<Vec<u16>>,
    t2: Seq<Vec<u16>>,
    n1: int,
    n2: int,
    nm: int,
) -> bool {
    forall|i: int, j: int, m: int|
        #![trigger pv(p, i, j), tv(t1, i, m)]
        0 <= i < n1 && 0 <= j < n2 && 0 <= m < nm && pv(p, i, j) < 255 ==> pv(
            p,
            tv(t1, i, m),
            tv(t2, j, m),
        ) <= pv(p, i, j) + 1
}

/// Only the origin holds value zero.
pub open spec fn zero_at_origin_only(p: Seq<Vec<u8>>, n1: int, n2: int) -> bool {
    &&& pv(p, 0, 0) == 0
    &&& (forall|i: int, j: int|
        0 <= i < n1 && 0 <= j < n2 && (#[trigger] pv(p, i, j)) == 0 ==> i == 0 && j == 0)
}

/// Every value is at most `d` or the unfilled sentinel.
pub open spec fn values_bounded(p: Seq<Vec<u8>>, n1: int, n2: int, d: int) -> bool {
    forall|i: int, j: int|
        0 <= i < n1 && 0 <= j < n2 ==> (#[trigger] pv(p, i, j)) <= d || pv(p, i, j) == 255
}

/// The cells at value `d` in the first `i_lim` rows have had their
/// successors written.
pub open spec fn rows_scanned(
    p: Seq<Vec<u8>>,
    t1: Seq<Vec<u16>>,
    t2: Seq<Vec<u16>>,
    i_lim: int,
    n2: int,
    nm: int,
    d: int,
) -> bool {
    forall|a: int, b: int, m: int|
        #![trigger pv(p, a, b), tv(t1, a, m)]
        0 <= a < i_lim && 0 <= b < n2 && 0 <= m < nm && pv(p, a, b) == d ==> pv(
            p,
            tv(t1, a, m),
            tv(t2, b, m),
        ) <= d + 1
}

/// The cells at value `d` in row `i` before column `j_lim` have had their
/// successors written.
pub open spec fn row_scanned(
    p: Seq<Vec<u8>>,
    t1: Seq<Vec<u16>>,
    t2: Seq<Vec<u16>>,
    i: int,
    j_lim: int,
    nm: int,
    d: int,
) -> bool {
    forall|b: int, m: int|
        #![trigger pv(p, i, b), tv(t2, b, m)]
        0 <= b < j_lim && 0 <= m < nm && pv(p, i, b) == d ==> pv(p, tv(t1, i, m), tv(t2, b, m)) <= d
            + 1
}

/// The first `m_lim` successors of cell `(i, j)` have been written.
pub open spec fn cell_scanned(
    p: Seq<Vec<u8>>,
    t1: Seq<Vec<u16>>,
    t2: Seq<Vec<u16>>,
    i: int,
    j: int,
    m_lim: int,
    d: int,
) -> bool {
    forall|mm: int| 0 <= mm < m_lim ==> pv(p, #[trigger] tv(t1, i, mm), tv(t2, j, mm)) <= d + 1
}

/// After a write, every cell but the written one keeps its value.
pub open spec fn write_frame(
    oldp: Seq<Vec<u8>>,
    newp: Seq<Vec<u8>>,
    n1: int,
    n2: int,
    k: int,
    l: int,
    d: int,
) -> bool {
    &&& newp.len() == n1
    &&& (forall|x: int, y: int|
        0 <= x < n1 && 0 <= y < n2 && !(x == k && y == l) ==> #[trigger] pv(newp, x, y) == pv(
            oldp,
            x,
            y,
        ))
    &&& pv(newp, k, l) == d + 1
}

proof fn lemma_bfs_write_frame(
    oldp: Seq<Vec<u8>>,
    newp: Seq<Vec<u8>>,
    n1: int,
    n2: int,
    k: int,
    l: int,
    d: int,
)
    requires
        grid_dims(oldp, n1, n2),
        0 <= k < n1,
        0 <= l < n2,
        0 <= d <= 253,
        pv(oldp, k, l) == 255,
        newp.len() == n1,
        forall|r: int| 0 <= r < n1 && r != k ==> #[trigger] newp[r] == oldp[r],
        newp[k]@ == oldp[k]@.update(l, (d + 1) as u8),
        zero_at_origin_only(oldp, n1, n2),
        values_bounded(oldp, n1, n2, d + 1),
    ensures
        grid_dims(newp, n1, n2),
        write_frame(oldp, newp, n1, n2, k, l, d),
        zero_at_origin_only(newp, n1, n2),
        values_bounded(newp, n1, n2, d + 1),
{
    assert forall|x: int, y: int|
        0 <= x < n1 && 0 <= y < n2 && !(x == k && y == l) implies #[trigger] pv(newp, x, y) == pv(
        oldp,
        x,
        y,
    ) by {
        if x == k {
            assert(newp[x]@ == oldp[x]@.update(l, (d + 1) as u8));
        } else {
            assert(newp[x] == oldp[x]);
        }
    }
    assert(grid_dims(newp, n1, n2)) by {
        assert forall|r: int| 0 <= r < n1 implies (#[trigger] newp[r])@.len() == n2 by {
            if r != k {
                assert(newp[r] == oldp[r]);
            }
        }
    }
    assert(pv(newp, k, l) == d + 1);
    assert(pv(newp, 0, 0) == 0) by {
        if k == 0 && l == 0 {
            assert(pv(oldp, 0, 0) == 255);
        }
    }
    assert forall|x: int, y: int|
        0 <= x < n1 && 0 <= y < n2 && (#[trigger] pv(newp, x, y)) == 0 implies x == 0 && y == 0 by {
        if !(x == k && y == l) {
            assert(pv(oldp, x, y) == 0);
        }
    }
    assert forall|x: int, y: int|
        0 <= x < n1 && 0 <= y < n2 implies (#[trigger] pv(newp, x, y)) <= d + 1 || pv(newp, x, y)
            == 255 by {
        if !(x == k && y == l) {
            assert(pv(newp, x, y) == pv(oldp, x, y));
        }
    }
}

proof fn lemma_bfs_write_parents(
    oldp: Seq<Vec<u8>>,
    newp: Seq<Vec<u8>>,
    t1: Seq<Vec<u16>>,
    t2: Seq<Vec<u16>>,
    n1: int,
    n2: int,
    nm: int,
    d: int,
    si: int,
    sj: int,
    sm: int,
)
    requires
        0 <= si < n1,
        0 <= sj < n2,
        0 <= sm < nm,
        0 <= d <= 253,
        0 <= tv(t1, si, sm) < n1,
        0 <= tv(t2, sj, sm) < n2,
        pv(oldp, si, sj) == d,
        pv(oldp, tv(t1, si, sm), tv(t2, sj, sm)) == 255,
        write_frame(oldp, newp, n1, n2, tv(t1, si, sm), tv(t2, sj, sm), d),
        has_parents(oldp, t1, t2, n1, n2, nm),
    ensures
        has_parents(newp, t1, t2, n1, n2, nm),
        pv(newp, si, sj) == d,
{
    let k = tv(t1, si, sm);
    let l = tv(t2, sj, sm);
    assert(pv(newp, si, sj) == d) by {
        if si == k && sj == l {
            assert(pv(oldp, k, l) == 255);
        }
    }
    assert forall|x: int, y: int|
        0 <= x < n1 && 0 <= y < n2 && 0 < #[trigger] pv(newp, x, y) < 255 implies exists|
        a: int,
        b: int,
        m: int,
    |
        #![trigger pv(newp, a, b), tv(t1, a, m)]
        0 <= a < n1 && 0 <= b < n2 && 0 <= m < nm && pv(newp, a, b) == pv(newp, x, y) - 1 && tv(
            t1,
            a,
            m,
        ) == x && tv(t2, b, m) == y by {
        if x == k && y == l {
            assert(pv(newp, si, sj) == pv(newp, x, y) - 1 && tv(t1, si, sm) == x && tv(t2, sj, sm)
                == y);
        } else {
            assert(0 < pv(oldp, x, y) < 255);
            let (a, b, m): (int, int, int) = choose|a: int, b: int, m: int|
                #![trigger pv(oldp, a, b), tv(t1, a, m)]
                0 <= a < n1 && 0 <= b < n2 && 0 <= m < nm && pv(oldp, a, b) == pv(oldp, x, y) - 1
                    && tv(t1, a, m) == x && tv(t2, b, m) == y;
            assert(pv(oldp, a, b) < 255);
            assert(!(a == k && b == l));
            assert(pv(newp, a, b) == pv(newp, x, y) - 1 && tv(t1, a, m) == x && tv(t2, b, m) == y);
        }
    }
}

#[verifier::rlimit(100)]
proof fn lemma_bfs_write_steps(
    oldp: Seq<Vec<u8>>,
    newp: Seq<Vec<u8>>,
    t1: Seq<Vec<u16>>,
    t2: Seq<Vec<u16>>,
    n1: int,
    n2: int,
    nm: int,
    d: int,
    si: int,
    sj: int,
    sm: int,
)
    requires
        0 <= si < n1,
        0 <= sj < n2,
        0 <= sm < nm,
        0 <= d <= 253,
        moves_dims(t1, n1, nm),
        moves_dims(t2, n2, nm),
        pv(oldp, si, sj) == d,
        pv(oldp, tv(t1, si, sm), tv(t2, sj, sm)) == 255,
        write_frame(oldp, newp, n1, n2, tv(t1, si, sm), tv(t2, sj, sm), d),
        step_bound(oldp, t1, t2, n1, n2, nm, d),
        rows_scanned(oldp, t1, t2, si, n2, nm, d),
        row_scanned(oldp, t1, t2, si, sj, nm, d),
        cell_scanned(oldp, t1, t2, si, sj, sm, d),
    ensures
        step_bound(newp, t1, t2, n1, n2, nm, d),
        rows_scanned(newp, t1, t2, si, n2, nm, d),
        row_scanned(newp, t1, t2, si, sj, nm, d),
        cell_scanned(newp, t1, t2, si, sj, sm + 1, d),
{
    let k = tv(t1, si, sm);
    let l = tv(t2, sj, sm);
    assert forall|x: int, y: int, m: int|
        #![trigger pv(newp, x, y), tv(t1, x, m)]
        0 <= x < n1 && 0 <= y < n2 && 0 <= m < nm && pv(newp, x, y) < d implies pv(
        newp,
        tv(t1, x, m),
        tv(t2, y, m),
    ) <= pv(newp, x, y) + 1 by {
        assert(!(x == k && y == l));
        assert(pv(oldp, x, y) == pv(newp, x, y));
        assert(pv(oldp, tv(t1, x, m), tv(t2, y, m)) <= pv(oldp, x, y) + 1);
        if !(tv(t1, x, m) == k && tv(t2, y, m) == l) {
            assert(pv(newp, tv(t1, x, m), tv(t2, y, m)) == pv(oldp, tv(t1, x, m), tv(t2, y, m)));
        }
    }
    assert forall|a: int, b: int, m: int|
        #![trigger pv(newp, a, b), tv(t1, a, m)]
        0 <= a < si && 0 <= b < n2 && 0 <= m < nm && pv(newp, a, b) == d implies pv(
        newp,
        tv(t1, a, m),
        tv(t2, b, m),
    ) <= d + 1 by {
        assert(!(a == k && b == l)) by {
            if a == k && b == l {
                assert(pv(newp, a, b) == d + 1);
            }
        }
        assert(pv(oldp, a, b) == d);
        assert(pv(oldp, tv(t1, a, m), tv(t2, b, m)) <= d + 1);
        if !(tv(t1, a, m) == k && tv(t2, b, m) == l) {
            assert(pv(newp, tv(t1, a, m), tv(t2, b, m)) == pv(oldp, tv(t1, a, m), tv(t2, b, m)));
        }
    }
    assert forall|b: int, m: int|
        #![trigger pv(newp, si, b), tv(t2, b, m)]
        0 <= b < sj && 0 <= m < nm && pv(newp, si, b) == d implies pv(
        newp,
        tv(t1, si, m),
        tv(t2, b, m),
    ) <= d + 1 by {
        assert(!(si == k && b == l)) by {
            if si == k && b == l {
                assert(pv(newp, si, b) == d + 1);
            }
        }
        assert(pv(oldp, si, b) == d);
        assert(pv(oldp, tv(t1, si, m), tv(t2, b, m)) <= d + 1);
        if !(tv(t1, si, m) == k && tv(t2, b, m) == l) {
            assert(pv(newp, tv(t1, si, m), tv(t2, b, m)) == pv(oldp, tv(t1, si, m), tv(t2, b, m)));
        }
    }
    assert forall|mm: int|
        0 <= mm < sm + 1 implies pv(newp, #[trigger] tv(t1, si, mm), tv(t2, sj, mm)) <= d + 1 by {
        if mm < sm {
            assert(pv(oldp, tv(t1, si, mm), tv(t2, sj, mm)) <= d + 1);
            if !(tv(t1, si, mm) == k && tv(t2, sj, mm) == l) {
                assert(pv(newp, tv(t1, si, mm), tv(t2, sj, mm)) == pv(
                    oldp,
                    tv(t1, si, mm),
                    tv(t2, sj, mm),
                ));
            }
        } else {
            assert(tv(t1, si, mm) == k && tv(t2, sj, mm) == l);
        }
    }
}

/// Writing `d + 1` into an unfilled cell reachable from a cell at value `d`
/// preserves every invariant of the fill.
proof fn lemma_bfs_write(
    oldp: Seq<Vec<u8>>,
    newp: Seq<Vec<u8>>,
    t1: Seq<Vec<u16>>,
    t2: Seq<Vec<u16>>,
    n1: int,
    n2: int,
    nm: int,
    d: int,
    si: int,
    sj: int,
    sm: int,
)
    requires
        grid_dims(oldp, n1, n2),
        moves_dims(t1, n1, nm),
        moves_dims(t2, n2, nm),
        0 <= d <= 253,
        0 <= si < n1,
        0 <= sj < n2,
        0 <= sm < nm,
        pv(oldp, si, sj) == d,
        pv(oldp, tv(t1, si, sm), tv(t2, sj, sm)) == 255,
        newp.len() == n1,
        forall|r: int| 0 <= r < n1 && r != tv(t1, si, sm) ==> #[trigger] newp[r] == oldp[r],
        newp[tv(t1, si, sm)]@ == oldp[tv(t1, si, sm)]@.update(tv(t2, sj, sm), (d + 1) as u8),
        zero_at_origin_only(oldp, n1, n2),
        values_bounded(oldp, n1, n2, d + 1),
        has_parents(oldp, t1, t2, n1, n2, nm),
        step_bound(oldp, t1, t2, n1, n2, nm, d),
        rows_scanned(oldp, t1, t2, si, n2, nm, d),
        row_scanned(oldp, t1, t2, si, sj, nm, d),
        cell_scanned(oldp, t1, t2, si, sj, sm, d),
    ensures
        grid_dims(newp, n1, n2),
        pv(newp, si, sj) == d,
        zero_at_origin_only(newp, n1, n2),
        values_bounded(newp, n1, n2, d + 1),
        has_parents(newp, t1, t2, n1, n2, nm),
        step_bound(newp, t1, t2, n1, n2, nm, d),
        rows_scanned(newp, t1, t2, si, n2, nm, d),
        row_scanned(newp, t1, t2, si, sj, nm, d),
        cell_scanned(newp, t1, t2, si, sj, sm + 1, d),
{
    let k = tv(t1, si, sm);
    let l = tv(t2, sj, sm);
    lemma_bfs_write_frame(oldp, newp, n1, n2, k, l, d);
    lemma_bfs_write_parents(oldp, newp, t1, t2, n1, n2, nm, d, si, sj, sm);
    lemma_bfs_write_steps(oldp, newp, t1, t2, n1, n2, nm, d, si, sj, sm);
}

/// Overwrite one cell of the grid.
fn set_cell(p: &mut Vec<Vec<u8>>, i: usize, j: usize, v: u8)
    requires
        i < old(p)@.len(),
        j < old(p)@[i as int]@.len(),
    ensures
        final(p)@.len() == old(p)@.len(),
        forall|r: int| 0 <= r < old(p)@.len() && r != i ==> final(p)@[r] == old(p)@[r],
        final(p)@[i as int]@ == old(p)@[i as int]@.update(j as int, v),
{
    let mut row: Vec<u8> = Vec::new();
    p.set_and_swap(i, &mut row);
    row.set(j, v);
    p.set_and_swap(i, &mut row);
}

/// Whether every cell of the grid is filled.
fn all_cells_filled(p: &Vec<Vec<u8>>, n1: usize, n2: usize) -> (r: bool)
    requires
        grid_dims(p@, n1 as int, n2 as int),
    ensures
        r == all_filled(p@, n1 as int, n2 as int),
{
    let mut ok = true;
    for i in 0..n1
        invariant
            grid_dims(p@, n1 as int, n2 as int),
            ok == (forall|a: int, b: int|
                0 <= a < i && 0 <= b < n2 ==> (#[trigger] pv(p@, a, b)) < 255),
    {
        for j in 0..n2
            invariant
                i < n1,
                grid_dims(p@, n1 as int, n2 as int),
                ok == (forall|a: int, b: int|
                    (0 <= a < i && 0 <= b < n2) || (a == i && 0 <= b < j) ==> (#[trigger] pv(
                        p@,
                        a,
                        b,
                    )) < 255),
        {
            if p[i][j] == 255 {
                proof {
                    assert(pv(p@, i as int, j as int) == 255);
                }
                ok = false;
            }
        }
    }
    ok
}

/// One pass of the fill: visit every cell at value `distance` and write
/// `distance + 1` into each unfilled successor.
#[verifier::rlimit(100)]
#[verifier::spinoff_prover]
fn bfs_pass(
    p: &mut Vec<Vec<u8>>,
    table1: &Vec<Vec<u16>>,
    table2: &Vec<Vec<u16>>,
    moves_len: usize,
    distance: u8,
)
    requires
        1 <= table1@.len(),
        1 <= table2@.len(),
        1 <= moves_len <= 18,
        moves_dims(table1@, table1@.len() as int, moves_len as int),
        moves_dims(table2@, table2@.len() as int, moves_len as int),
        distance <= 253,
        grid_dims(old(p)@, table1@.len() as int, table2@.len() as int),
        zero_at_origin_only(old(p)@, table1@.len() as int, table2@.len() as int),
        values_bounded(old(p)@, table1@.len() as int, table2@.len() as int, distance as int),
        has_parents(
            old(p)@,
            table1@,
            table2@,
            table1@.len() as int,
            table2@.len() as int,
            moves_len as int,
        ),
        step_bound(
            old(p)@,
            table1@,
            table2@,
            table1@.len() as int,
            table2@.len() as int,
            moves_len as int,
            distance as int,
        ),
    ensures
        grid_dims(final(p)@, table1@.len() as int, table2@.len() as int),
        zero_at_origin_only(final(p)@, table1@.len() as int, table2@.len() as int),
        values_bounded(final(p)@, table1@.len() as int, table2@.len() as int, distance + 1),
        has_parents(
            final(p)@,
            table1@,
            table2@,
            table1@.len() as int,
            table2@.len() as int,
            moves_len as int,
        ),
        step_bound(
            final(p)@,
            table1@,
            table2@,
            table1@.len() as int,
            table2@.len() as int,
            moves_len as int,
            distance + 1,
        ),
{
    let n1 = table1.len();
    let n2 = table2.len();
    let nm = moves_len;
    let ghost t1 = table1@;
    let ghost t2 = table2@;
    let ghost d = distance as int;

    for i in 0..n1
        invariant
            n1 == t1.len(),
            n2 == t2.len(),
            1 <= nm <= 18,
            t1 == table1@,
            t2 == table2@,
            moves_dims(t1, n1 as int, nm as int),
            moves_dims(t2, n2 as int, nm as int),
            d == distance as int,
            d <= 253,
            grid_dims(p@, n1 as int, n2 as int),
            zero_at_origin_only(p@, n1 as int, n2 as int),
            values_bounded(p@, n1 as int, n2 as int, d + 1),
            has_parents(p@, t1, t2, n1 as int, n2 as int, nm as int),
            step_bound(p@, t1, t2, n1 as int, n2 as int, nm as int, d),
            rows_scanned(p@, t1, t2, i as int, n2 as int, nm as int, d),
    {
        for j in 0..n2
            invariant
                n1 == t1.len(),
                n2 == t2.len(),
                1 <= nm <= 18,
                t1 == table1@,
                t2 == table2@,
                moves_dims(t1, n1 as int, nm as int),
                moves_dims(t2, n2 as int, nm as int),
                d == distance as int,
                d <= 253,
                i < n1,
                grid_dims(p@, n1 as int, n2 as int),
                zero_at_origin_only(p@, n1 as int, n2 as int),
                values_bounded(p@, n1 as int, n2 as int, d + 1),
                has_parents(p@, t1, t2, n1 as int, n2 as int, nm as int),
                step_bound(p@, t1, t2, n1 as int, n2 as int, nm as int, d),
                rows_scanned(p@, t1, t2, i as int, n2 as int, nm as int, d),
                row_scanned(p@, t1, t2, i as int, j as int, nm as int, d),
        {
            if p[i][j] == distance {
                proof {
                    assert(pv(p@, i as int, j as int) == d);
                }
                for m in 0..nm
                    invariant
                        n1 == t1.len(),
                        n2 == t2.len(),
                        1 <= nm <= 18,
                        t1 == table1@,
                        t2 == table2@,
                        moves_dims(t1, n1 as int, nm as int),
                        moves_dims(t2, n2 as int, nm as int),
                        d == distance as int,
                        d <= 253,
                        i < n1,
                        j < n2,
                        grid_dims(p@, n1 as int, n2 as int),
                        zero_at_origin_only(p@, n1 as int, n2 as int),
                        values_bounded(p@, n1 as int, n2 as int, d + 1),
                        has_parents(p@, t1, t2, n1 as int, n2 as int, nm as int),
                        step_bound(p@, t1, t2, n1 as int, n2 as int, nm as int, d),
                        rows_scanned(p@, t1, t2, i as int, n2 as int, nm as int, d),
                        row_scanned(p@, t1, t2, i as int, j as int, nm as int, d),
                        cell_scanned(p@, t1, t2, i as int, j as int, m as int, d),
                        pv(p@, i as int, j as int) == d,
                {
                    let k = table1[i][m] as usize;
                    let l = table2[j][m] as usize;
                    proof {
                        assert(k as int == tv(t1, i as int, m as int));
                        assert(l as int == tv(t2, j as int, m as int));
                        assert(k < n1 && l < n2);
                    }
                    if p[k][l] == 255 {
                        let ghost oldp = p@;
                        proof {
                            assert(pv(oldp, k as int, l as int) == 255);
                        }
                        set_cell(p, k, l, distance + 1);
                        proof {
                            lemma_bfs_write(
                                oldp,
                                p@,
                                t1,
                                t2,
                                n1 as int,
                                n2 as int,
                                nm as int,
                                d,
                                i as int,
                                j as int,
                                m as int,
                            );
                        }
                    } else {
                        proof {
                            assert(pv(p@, k as int, l as int) != 255);
                            assert(pv(p@, k as int, l as int) <= d + 1);
                            assert forall|mm: int|
                                0 <= mm < m + 1 implies pv(
                                p@,
                                #[trigger] tv(t1, i as int, mm),
                                tv(t2, j as int, mm),
                            ) <= d + 1 by {}
                        }
                    }
                }
            }
        }
    }
    proof {
        assert forall|x: int, y: int, mm: int|
            #![trigger pv(p@, x, y), tv(t1, x, mm)]
            0 <= x < n1 && 0 <= y < n2 && 0 <= mm < nm && pv(p@, x, y) < d + 1 implies pv(
            p@,
            tv(t1, x, mm),
            tv(t2, y, mm),
        ) <= pv(p@, x, y) + 1 by {
            if pv(p@, x, y) == d {
                assert(pv(p@, tv(t1, x, mm), tv(t2, y, mm)) <= d + 1);
            }
        }
    }
}

/// Breadth-first fill of the pruning grid for a pair of move tables over a
/// shared move list. Starting from the solved pair at value zero, each pass
/// writes `d + 1` into every unfilled cell reachable by one move from a
/// cell at value `d`, until every cell is filled.
pub fn get_prune_table(table1: &Vec<Vec<u16>>, table2: &Vec<Vec<u16>>, moves: &Vec<Move>) -> (p:
    Vec<Vec<u8>>)
    requires
        1 <= table1@.len() <= 40320,
        1 <= table2@.len() <= 40320,
        1 <= moves@.len() <= 18,
        moves_dims(table1@, table1@.len() as int, moves@.len() as int),
        moves_dims(table2@, table2@.len() as int, moves@.len() as int),
    ensures
        grid_dims(p@, table1@.len() as int, table2@.len() as int),
        zero_at_origin_only(p@, table1@.len() as int, table2@.len() as int),
        has_parents(
            p@,
            table1@,
            table2@,
            table1@.len() as int,
            table2@.len() as int,
            moves@.len() as int,
        ),
        all_filled(p@, table1@.len() as int, table2@.len() as int) ==> locally_consistent(
            p@,
            table1@,
            table2@,
            table1@.len() as int,
            table2@.len() as int,
            moves@.len() as int,
        ),
        forall|ms: Seq<int>|
            moves_in_range(ms, moves@.len() as int) && ms.len() < 254 ==> pv(
                p@,
                #[trigger] walk(table1@, table2@, 0, 0, ms).0,
                walk(table1@, table2@, 0, 0, ms).1,
            ) <= ms.len(),
{
    let n1 = table1.len();
    let n2 = table2.len();
    let nm = moves.len();
    let ghost t1 = table1@;
    let ghost t2 = table2@;

    let mut p: Vec<Vec<u8>> = Vec::new();
    for i in 0..n1
        invariant
            p@.len() == i,
            forall|a: int| 0 <= a < i ==> (#[trigger] p@[a])@.len() == n2,
            forall|a: int, b: int| 0 <= a < i && 0 <= b < n2 ==> (#[trigger] pv(p@, a, b)) == 255,
    {
        let mut row: Vec<u8> = Vec::new();
        for j in 0..n2
            invariant
                row@.len() == j,
                forall|b: int| 0 <= b < j ==> (#[trigger] row@[b]) == 255,
        {
            row.push(255);
        }
        let ghost prev = p@;
        p.push(row);
        proof {
            assert forall|a: int, b: int|
                0 <= a < i + 1 && 0 <= b < n2 implies (#[trigger] pv(p@, a, b)) == 255 by {
                if a < i {
                    assert(p@[a] == prev[a]);
                    assert(pv(prev, a, b) == 255);
                } else {
                    assert(p@[a] == row);
                }
            }
        }
    }
    let ghost init = p@;
    set_cell(&mut p, 0, 0, 0);
    proof {
        assert(grid_dims(p@, n1 as int, n2 as int)) by {
            assert forall|r: int| 0 <= r < n1 implies (#[trigger] p@[r])@.len() == n2 by {
                if r != 0 {
                    assert(p@[r] == init[r]);
                }
            }
        }
        assert(pv(p@, 0, 0) == 0);
        assert forall|i: int, j: int|
            0 <= i < n1 && 0 <= j < n2 && !(i == 0 && j == 0) implies (#[trigger] pv(p@, i, j))
            == 255 by {
            if i != 0 {
                assert(p@[i] == init[i]);
            } else {
                assert(p@[0]@ == init[0]@.update(0, 0u8));
            }
            assert(pv(init, i, j) == 255);
        }
    }

    let mut distance: u8 = 0;
    let mut done = all_cells_filled(&p, n1, n2);
    while !done && distance < 254
        invariant
            n1 == t1.len(),
            n2 == t2.len(),
            nm == moves@.len(),
            1 <= n1 <= 40320,
            1 <= n2 <= 40320,
            1 <= nm <= 18,
            t1 == table1@,
            t2 == table2@,
            moves_dims(t1, n1 as int, nm as int),
            moves_dims(t2, n2 as int, nm as int),
            distance <= 254,
            grid_dims(p@, n1 as int, n2 as int),
            zero_at_origin_only(p@, n1 as int, n2 as int),
            values_bounded(p@, n1 as int, n2 as int, distance as int),
            has_parents(p@, t1, t2, n1 as int, n2 as int, nm as int),
            step_bound(p@, t1, t2, n1 as int, n2 as int, nm as int, distance as int),
            done ==> all_filled(p@, n1 as int, n2 as int),
        decreases 254 - distance,
    {
        bfs_pass(&mut p, table1, table2, nm, distance);
        distance = distance + 1;
        done = all_cells_filled(&p, n1, n2);
    }
    proof {
        if all_filled(p@, n1 as int, n2 as int) {
            assert forall|x: int, y: int, mm: int|
                #![trigger pv(p@, x, y), tv(t1, x, mm)]
                0 <= x < n1 && 0 <= y < n2 && 0 <= mm < nm && pv(p@, x, y) < 255 implies pv(
                p@,
                tv(t1, x, mm),
                tv(t2, y, mm),
            ) <= pv(p@, x, y) + 1 by {
                if pv(p@, x, y) < distance {
                } else {
                    assert(pv(p@, x, y) <= distance);
                    assert(pv(p@, tv(t1, x, mm), tv(t2, y, mm)) < 255);
                    assert(pv(p@, tv(t1, x, mm), tv(t2, y, mm)) <= distance);
                }
            }
        }
        assert forall|ms: Seq<int>|
            moves_in_range(ms, nm as int) && ms.len() < 254 implies pv(
            p@,
            #[trigger] walk(t1, t2, 0, 0, ms).0,
            walk(t1, t2, 0, 0, ms).1,
        ) <= ms.len() by {
            if all_filled(p@, n1 as int, n2 as int) {
                lemma_walk_bound(p@, t1, t2, n1 as int, n2 as int, nm as int, 0, 0, ms);
            } else {
                assert(distance == 254);
                assert(step_bound(p@, t1, t2, n1 as int, n2 as int, nm as int, 254));
                lemma_walk_bound_capped(p@, t1, t2, n1 as int, n2 as int, nm as int, 0, 0, ms);
            }
        }
    }
    p
}

/// The four pruning tables of the two-phase solver: phase 1 pairs CO and EO
/// with the E-combination under all 18 moves, phase 2 pairs CP and the UD
/// edges with the E-slice permutation under the 10 phase-2 moves.
pub struct PruningTable {
    pub co_e: Vec<Vec<u8>>,
    pub eo_e: Vec<Vec<u8>>,
    pub cp_e: Vec<Vec<u8>>,
    pub ep_e: Vec<Vec<u8>>,
}

impl PruningTable {
    /// Each grid has the dimensions of its coordinate pair.
    pub open spec fn wf(self) -> bool {
        &&& grid_dims(self.co_e@, 2187, 495)
        &&& grid_dims(self.eo_e@, 2048, 495)
        &&& grid_dims(self.cp_e@, 40320, 24)
        &&& grid_dims(self.ep_e@, 40320, 24)
    }
}

/// A pruning grid as the fill produces it for a pair of move tables.
pub open spec fn prune_grid_wf(
    p: Seq<Vec<u8>>,
    t1: Seq<Vec<u16>>,
    t2: Seq<Vec<u16>>,
    n1: int,
    n2: int,
    nm: int,
) -> bool {
    &&& grid_dims(p, n1, n2)
    &&& zero_at_origin_only(p, n1, n2)
    &&& has_parents(p, t1, t2, n1, n2, nm)
    &&& (all_filled(p, n1, n2) ==> locally_consistent(p, t1, t2, n1, n2, nm))
    &&& (forall|ms: Seq<int>|
        moves_in_range(ms, nm) && ms.len() < 254 ==> pv(
            p,
            #[trigger] walk(t1, t2, 0, 0, ms).0,
            walk(t1, t2, 0, 0, ms).1,
        ) <= ms.len())
}

impl PruningTable {
    /// Build the four pruning tables over the given move tables.
    pub fn new(move_table: &MoveTable) -> (r: PruningTable)
        requires
            move_table.wf(),
        ensures
            r.wf(),
            prune_grid_wf(r.co_e@, move_table.co@, move_table.e_combo@, 2187, 495, 18),
            prune_grid_wf(r.eo_e@, move_table.eo@, move_table.e_combo@, 2048, 495, 18),
            prune_grid_wf(r.cp_e@, move_table.cp@, move_table.e_ep@, 40320, 24, 10),
            prune_grid_wf(r.ep_e@, move_table.ep@, move_table.e_ep@, 40320, 24, 10),
    {
        let all_moves = crate::table::all_moves_vec();
        let phase2_moves = crate::table::phase2_moves_vec();
        proof {
            assert(moves_dims(move_table.co@, 2187, 18));
            assert(moves_dims(move_table.eo@, 2048, 18));
            assert(moves_dims(move_table.e_combo@, 495, 18));
            assert(moves_dims(move_table.cp@, 40320, 10));
            assert(moves_dims(move_table.ep@, 40320, 10));
            assert(moves_dims(move_table.e_ep@, 24, 10));
        }
        let co_e = get_prune_table(&move_table.co, &move_table.e_combo, &all_moves);
        let eo_e = get_prune_table(&move_table.eo, &move_table.e_combo, &all_moves);
        let cp_e = get_prune_table(&move_table.cp, &move_table.e_ep, &phase2_moves);
        let ep_e = get_prune_table(&move_table.ep, &move_table.e_ep, &phase2_moves);
        PruningTable { co_e, eo_e, cp_e, ep_e }
    }
}

/// The move tables and pruning tables the two-phase algorithm uses,
/// bundled for building and persistence.
pub struct DataTable {
    pub move_table: MoveTable,
    pub pruning_table: PruningTable,
}

impl DataTable {
    pub open spec fn wf(self) -> bool {
        &&& self.move_table.wf()
        &&& self.pruning_table.wf()
    }

    /// Build both collections of tables from scratch.
    pub fn new() -> (r: DataTable)
        ensures
            r.wf(),
            r.move_table.wf_dims(),
            prune_grid_wf(r.pruning_table.co_e@, r.move_table.co@, r.move_table.e_combo@, 2187, 495, 18),
            prune_grid_wf(r.pruning_table.eo_e@, r.move_table.eo@, r.move_table.e_combo@, 2048, 495, 18),
            prune_grid_wf(r.pruning_table.cp_e@, r.move_table.cp@, r.move_table.e_ep@, 40320, 24, 10),
            prune_grid_wf(r.pruning_table.ep_e@, r.move_table.ep@, r.move_table.e_ep@, 40320, 24, 10),
    {
        let move_table = MoveTable::new();
        let pruning_table = PruningTable::new(&move_table);
        DataTable { move_table, pruning_table }
    }
}

impl Default for DataTable {
    fn default() -> (r: DataTable)
        ensures
            r.wf(),
            r.move_table.wf_dims(),
    {
        DataTable::new()
    }
}

/// Follow a sequence of moves through a pair of move tables, both
/// coordinates in lockstep.
pub open spec fn walk(
    t1: Seq<Vec<u16>>,
    t2: Seq<Vec<u16>>,
    i: int,
    j: int,
    ms: Seq<int>,
) -> (int, int)
    decreases ms.len(),
{
    if ms.len() == 0 {
        (i, j)
    } else {
        walk(t1, t2, tv(t1, i, ms[0]), tv(t2, j, ms[0]), ms.drop_first())
    }
}

/// Every move of the sequence is a legal column index.
pub open spec fn moves_in_range(ms: Seq<int>, nm: int) -> bool {
    forall|t: int| 0 <= t < ms.len() ==> 0 <= #[trigger] ms[t] < nm
}

/// Appending one move to a walk steps once more at the end.
proof fn lemma_walk_snoc(t1: Seq<Vec<u16>>, t2: Seq<Vec<u16>>, i: int, j: int, ms: Seq<int>, m: int)
    ensures
        walk(t1, t2, i, j, ms.push(m)) == (
            tv(t1, walk(t1, t2, i, j, ms).0, m),
            tv(t2, walk(t1, t2, i, j, ms).1, m),
        ),
    decreases ms.len(),
{
    if ms.len() == 0 {
        assert(ms.push(m).len() == 1);
        assert(ms.push(m)[0] == m);
        assert(ms.push(m).drop_first() =~= Seq::<int>::empty());
        assert(walk(t1, t2, i, j, ms) == (i, j));
        assert(walk(t1, t2, i, j, ms.push(m)) == walk(
            t1,
            t2,
            tv(t1, i, m),
            tv(t2, j, m),
            ms.push(m).drop_first(),
        ));
    } else {
        assert(ms.push(m).drop_first() =~= ms.drop_first().push(m));
        assert(ms.push(m)[0] == ms[0]);
        lemma_walk_snoc(t1, t2, tv(t1, i, ms[0]), tv(t2, j, ms[0]), ms.drop_first(), m);
    }
}

/// A walk through well-formed tables stays inside them.
proof fn lemma_walk_in_range(
    t1: Seq<Vec<u16>>,
    t2: Seq<Vec<u16>>,
    n1: int,
    n2: int,
    nm: int,
    i: int,
    j: int,
    ms: Seq<int>,
)
    requires
        moves_dims(t1, n1, nm),
        moves_dims(t2, n2, nm),
        0 <= i < n1,
        0 <= j < n2,
        moves_in_range(ms, nm),
    ensures
        0 <= walk(t1, t2, i, j, ms).0 < n1,
        0 <= walk(t1, t2, i, j, ms).1 < n2,
    decreases ms.len(),
{
    if ms.len() > 0 {
        assert(forall|t: int|
            0 <= t < ms.drop_first().len() ==> 0 <= #[trigger] ms.drop_first()[t] < nm);
        lemma_walk_in_range(t1, t2, n1, n2, nm, tv(t1, i, ms[0]), tv(t2, j, ms[0]), ms.drop_first());
    }
}

/// Every filled pruning cell is reachable from the origin by exactly as
/// many table moves as its entry says: the entry is no overestimate of the
/// cell's distance in the product graph.
pub proof fn lemma_prune_entry_reachable(
    p: Seq<Vec<u8>>,
    t1: Seq<Vec<u16>>,
    t2: Seq<Vec<u16>>,
    n1: int,
    n2: int,
    nm: int,
    i: int,
    j: int,
)
    requires
        grid_dims(p, n1, n2),
        moves_dims(t1, n1, nm),
        moves_dims(t2, n2, nm),
        zero_at_origin_only(p, n1, n2),
        has_parents(p, t1, t2, n1, n2, nm),
        0 <= i < n1,
        0 <= j < n2,
        pv(p, i, j) < 255,
    ensures
        exists|ms: Seq<int>|
            #![trigger moves_in_range(ms, nm)]
            ms.len() == pv(p, i, j) && moves_in_range(ms, nm) && walk(t1, t2, 0, 0, ms) == (i, j),
    decreases pv(p, i, j),
{
    if pv(p, i, j) == 0 {
        assert(i == 0 && j == 0);
        let ms = Seq::<int>::empty();
        assert(walk(t1, t2, 0, 0, ms) == (0int, 0int));
        assert(ms.len() == pv(p, i, j) && moves_in_range(ms, nm) && walk(t1, t2, 0, 0, ms) == (
            i,
            j,
        ));
    } else {
        let (a, b, m): (int, int, int) = choose|a: int, b: int, m: int|
            #![trigger pv(p, a, b), tv(t1, a, m)]
            0 <= a < n1 && 0 <= b < n2 && 0 <= m < nm && pv(p, a, b) == pv(p, i, j) - 1 && tv(
                t1,
                a,
                m,
            ) == i && tv(t2, b, m) == j;
        lemma_prune_entry_reachable(p, t1, t2, n1, n2, nm, a, b);
        let prefix: Seq<int> = choose|ms: Seq<int>|
            #![trigger moves_in_range(ms, nm)]
            ms.len() == pv(p, a, b) && moves_in_range(ms, nm) && walk(t1, t2, 0, 0, ms) == (a, b);
        let ms = prefix.push(m);
        lemma_walk_snoc(t1, t2, 0, 0, prefix, m);
        assert(walk(t1, t2, 0, 0, ms) == (i, j));
        assert(moves_in_range(ms, nm)) by {
            assert forall|t: int| 0 <= t < ms.len() implies 0 <= #[trigger] ms[t] < nm by {
                if t < prefix.len() {
                    assert(prefix[t] == ms[t]);
                }
            }
        }
        assert(ms.len() == pv(p, i, j) && moves_in_range(ms, nm) && walk(t1, t2, 0, 0, ms) == (
            i,
            j,
        ));
    }
}

/// Walking bounds the growth of a completely filled table's entries: the
/// destination's entry exceeds the start's by at most the number of moves.
proof fn lemma_walk_bound(
    p: Seq<Vec<u8>>,
    t1: Seq<Vec<u16>>,
    t2: Seq<Vec<u16>>,
    n1: int,
    n2: int,
    nm: int,
    i: int,
    j: int,
    ms: Seq<int>,
)
    requires
        grid_dims(p, n1, n2),
        moves_dims(t1, n1, nm),
        moves_dims(t2, n2, nm),
        all_filled(p, n1, n2),
        locally_consistent(p, t1, t2, n1, n2, nm),
        0 <= i < n1,
        0 <= j < n2,
        moves_in_range(ms, nm),
    ensures
        pv(p, walk(t1, t2, i, j, ms).0, walk(t1, t2, i, j, ms).1) <= pv(p, i, j) + ms.len(),
    decreases ms.len(),
{
    if ms.len() > 0 {
        let i2 = tv(t1, i, ms[0]);
        let j2 = tv(t2, j, ms[0]);
        assert(pv(p, i, j) < 255);
        assert(pv(p, i2, j2) <= pv(p, i, j) + 1);
        assert(forall|t: int|
            0 <= t < ms.drop_first().len() ==> 0 <= #[trigger] ms.drop_first()[t] < nm);
        lemma_walk_bound(p, t1, t2, n1, n2, nm, i2, j2, ms.drop_first());
    }
}

/// Short walks stay bounded even before the fill completes, using only the
/// step bound the passes have established so far.
proof fn lemma_walk_bound_capped(
    p: Seq<Vec<u8>>,
    t1: Seq<Vec<u16>>,
    t2: Seq<Vec<u16>>,
    n1: int,
    n2: int,
    nm: int,
    i: int,
    j: int,
    ms: Seq<int>,
)
    requires
        grid_dims(p, n1, n2),
        moves_dims(t1, n1, nm),
        moves_dims(t2, n2, nm),
        step_bound(p, t1, t2, n1, n2, nm, 254),
        0 <= i < n1,
        0 <= j < n2,
        moves_in_range(ms, nm),
        pv(p, i, j) + ms.len() < 254,
    ensures
        pv(p, walk(t1, t2, i, j, ms).0, walk(t1, t2, i, j, ms).1) <= pv(p, i, j) + ms.len(),
    decreases ms.len(),
{
    if ms.len() > 0 {
        let i2 = tv(t1, i, ms[0]);
        let j2 = tv(t2, j, ms[0]);
        assert(pv(p, i, j) < 254);
        assert(pv(p, i2, j2) <= pv(p, i, j) + 1);
        assert(forall|t: int|
            0 <= t < ms.drop_first().len() ==> 0 <= #[trigger] ms.drop_first()[t] < nm);
        lemma_walk_bound_capped(p, t1, t2, n1, n2, nm, i2, j2, ms.drop_first());
    }
}

/// No shorter route exists: in a completely filled table, any walk from
/// the origin to a cell takes at least the cell's entry many moves. With
/// reachability, each entry is exactly the cell's distance from the solved
/// pair, so it never overestimates the moves a search still needs.
pub proof fn lemma_prune_entry_minimal(
    p: Seq<Vec<u8>>,
    t1: Seq<Vec<u16>>,
    t2: Seq<Vec<u16>>,
    n1: int,
    n2: int,
    nm: int,
    ms: Seq<int>,
)
    requires
        grid_dims(p, n1, n2),
        moves_dims(t1, n1, nm),
        moves_dims(t2, n2, nm),
        all_filled(p, n1, n2),
        locally_consistent(p, t1, t2, n1, n2, nm),
        zero_at_origin_only(p, n1, n2),
        0 < n1,
        0 < n2,
        moves_in_range(ms, nm),
    ensures
        pv(p, walk(t1, t2, 0, 0, ms).0, walk(t1, t2, 0, 0, ms).1) <= ms.len(),
{
    lemma_walk_bound(p, t1, t2, n1, n2, nm, 0, 0, ms);
}

} // verus!
