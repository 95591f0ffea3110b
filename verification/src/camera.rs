//! Colour-blob tracking: connected components of the matched-cell grid.
use vstd::prelude::*;
use vstd::arithmetic::div_mod::{
    lemma_fundamental_div_mod, lemma_fundamental_div_mod_converse, lemma_mod_multiples_basic,
};
use vstd::set_lib::{lemma_int_range, lemma_len_subset, set_int_range};

verus! {

/// Four-neighbour relation on a row-major grid `mw` cells wide holding `n`
/// cells: `b` is the cell left of, right of, above or below `a`.
pub open spec fn grid_neighbor(mw: int, n: int, a: int, b: int) -> bool {
    &&& 0 <= a < n
    &&& 0 <= b < n
    &&& {
        ||| (a % mw != 0 && b == a - 1)
        ||| ((a + 1) % mw != 0 && b == a + 1)
        ||| (a >= mw && b == a - mw)
        ||| (a + mw < n && b == a + mw)
    }
}

/// Cells `a` and `b` of a grid `mw` wide and `mh` high are four-adjacent:
/// same row and neighbouring columns, or same column and neighbouring rows.
pub open spec fn four_adjacent(mw: int, a: int, b: int) -> bool {
    let (ax, ay, bx, by) = (a % mw, a / mw, b % mw, b / mw);
    ||| (ay == by && (ax - bx == 1 || bx - ax == 1))
    ||| (ax == bx && (ay - by == 1 || by - ay == 1))
}

/// `grid_neighbor` is four-adjacency in (column, row) coordinates.
pub proof fn lemma_grid_neighbor_is_adjacency(mw: int, mh: int, a: int, b: int)
    requires
        mw > 0,
        mh >= 0,
        0 <= a < mw * mh,
        0 <= b < mw * mh,
    ensures
        grid_neighbor(mw, mw * mh, a, b) <==> four_adjacent(mw, a, b),
{
    let n = mw * mh;
    lemma_fundamental_div_mod(a, mw);
    lemma_fundamental_div_mod(b, mw);
    let (ax, ay, bx, by) = (a % mw, a / mw, b % mw, b / mw);
    assert(a == ay * mw + ax && b == by * mw + bx) by {
        assert(mw * ay == ay * mw && mw * by == by * mw) by (nonlinear_arith);
    }
    assert((ay - 1) * mw == ay * mw - mw && (ay + 1) * mw == ay * mw + mw) by (nonlinear_arith);
    assert((by - 1) * mw == by * mw - mw && (by + 1) * mw == by * mw + mw) by (nonlinear_arith);
    if grid_neighbor(mw, n, a, b) {
        if a % mw != 0 && b == a - 1 {
            lemma_fundamental_div_mod_converse(b, mw, ay, ax - 1);
        } else if (a + 1) % mw != 0 && b == a + 1 {
            if ax + 1 == mw {
                lemma_fundamental_div_mod_converse(a + 1, mw, ay + 1, 0);
            }
            lemma_fundamental_div_mod_converse(b, mw, ay, ax + 1);
        } else if a >= mw && b == a - mw {
            if ay == 0 {
                assert(a == ax);
            }
            lemma_fundamental_div_mod_converse(b, mw, ay - 1, ax);
        } else {
            lemma_fundamental_div_mod_converse(b, mw, ay + 1, ax);
        }
    }
    if four_adjacent(mw, a, b) {
        if ay == by && ax - bx == 1 {
            assert(b == a - 1);
        } else if ay == by && bx - ax == 1 {
            assert(b == a + 1);
            lemma_fundamental_div_mod_converse(a + 1, mw, ay, bx);
        } else if ax == bx && ay - by == 1 {
            assert(b == a - mw);
            assert(a >= mw) by {
                assert(by >= 0) by {
                    assert(b >= 0);
                }
            }
        } else {
            assert(b == a + mw);
        }
    }
}

/// `p` is a walk through occupied cells, each step to a four-neighbour.
pub open spec fn is_grid_path(grid: Seq<bool>, mw: int, p: Seq<int>) -> bool {
    &&& p.len() > 0
    &&& forall|i: int| 0 <= i < p.len() ==> 0 <= #[trigger] p[i] < grid.len() && grid[p[i]]
    &&& forall|i: int|
        0 <= i < p.len() - 1 ==> grid_neighbor(mw, grid.len() as int, #[trigger] p[i], p[i + 1])
}

/// Occupied cells `a` and `b` are joined by a four-connected walk.
pub open spec fn connected(grid: Seq<bool>, mw: int, a: int, b: int) -> bool {
    exists|p: Seq<int>| #[trigger] is_grid_path(grid, mw, p) && p[0] == a && p.last() == b
}

/// `comps` lists the four-connected components of the occupied cells of
/// `grid`: every occupied cell lies in exactly one of them, each is connected
/// and closed under occupied neighbours, and they come in order of their
/// smallest cell, which each lists first.
pub open spec fn is_component_decomposition(
    grid: Seq<bool>,
    mw: int,
    comps: Seq<Seq<usize>>,
) -> bool {
    let n = grid.len() as int;
    &&& forall|k: int| 0 <= k < comps.len() ==> (#[trigger] comps[k]).len() > 0
        && comps[k].no_duplicates()
    &&& forall|k: int, i: int|
        0 <= k < comps.len() && 0 <= i < comps[k].len() ==> #[trigger] comps[k][i] < n
            && grid[comps[k][i] as int] && comps[k][0] <= comps[k][i]
            && connected(grid, mw, comps[k][0] as int, comps[k][i] as int)
    &&& forall|k1: int, i: int, k2: int, j: int|
        0 <= k1 < comps.len() && 0 <= i < comps[k1].len() && 0 <= k2 < comps.len() && 0 <= j
            < comps[k2].len() && #[trigger] comps[k1][i] == #[trigger] comps[k2][j] ==> k1 == k2
    &&& forall|c: int|
        0 <= c < n && #[trigger] grid[c] ==> exists|k: int, i: int|
            0 <= k < comps.len() && 0 <= i < comps[k].len() && #[trigger] comps[k][i] == c
    &&& forall|k: int, i: int, b: int|
        0 <= k < comps.len() && 0 <= i < comps[k].len() && #[trigger] grid_neighbor(
            mw,
            n,
            comps[k][i] as int,
            b,
        ) && grid[b] ==> comps[k].contains(b as usize)
    &&& forall|k1: int, k2: int|
        0 <= k1 < k2 < comps.len() ==> (#[trigger] comps[k1])[0] < (#[trigger] comps[k2])[0]
}

proof fn lemma_path_stays(
    grid: Seq<bool>,
    mw: int,
    comps: Seq<Seq<usize>>,
    k: int,
    p: Seq<int>,
    i: int,
)
    requires
        is_component_decomposition(grid, mw, comps),
        0 <= k < comps.len(),
        is_grid_path(grid, mw, p),
        comps[k].contains(p[0] as usize),
        0 <= i < p.len(),
    ensures
        comps[k].contains(p[i] as usize),
    decreases i,
{
    if i > 0 {
        lemma_path_stays(grid, mw, comps, k, p, i - 1);
        let j = choose|j: int| 0 <= j < comps[k].len() && comps[k][j] == p[i - 1] as usize;
        assert(grid_neighbor(mw, grid.len() as int, p[i - 1], p[i]));
        assert(grid_neighbor(mw, grid.len() as int, comps[k][j] as int, p[i]));
    }
}

/// A component holds exactly the occupied cells connected to its first
/// cell: it is a whole island of the grid.
pub proof fn lemma_component_is_island(grid: Seq<bool>, mw: int, comps: Seq<Seq<usize>>, k: int, c: int)
    requires
        is_component_decomposition(grid, mw, comps),
        0 <= k < comps.len(),
    ensures
        comps[k].contains(c as usize) && 0 <= c <= usize::MAX <==> connected(grid, mw, comps[k][0] as int, c),
{
    if connected(grid, mw, comps[k][0] as int, c) {
        let p = choose|p: Seq<int>| #[trigger] is_grid_path(grid, mw, p) && p[0] == comps[k][0] as int && p.last() == c;
        assert(comps[k][0] == comps[k][0]);
        assert(comps[k].contains(p[0] as usize));
        lemma_path_stays(grid, mw, comps, k, p, p.len() - 1);
        assert(0 <= p[p.len() - 1] < grid.len());
    }
    if comps[k].contains(c as usize) && 0 <= c <= usize::MAX {
        let i = choose|i: int| 0 <= i < comps[k].len() && comps[k][i] == c as usize;
        assert(comps[k][i] as int == c);
    }
}

/// The cell lists of `comps`.
pub open spec fn cells_of(comps: Seq<Vec<usize>>) -> Seq<Seq<usize>> {
    comps.map_values(|c: Vec<usize>| c@)
}

spec fn unlabeled(s: Seq<usize>) -> nat
    decreases s.len(),
{
    if s.len() == 0 {
        0
    } else {
        unlabeled(s.drop_last()) + if s.last() == 0 {
            1nat
        } else {
            0nat
        }
    }
}

proof fn lemma_unlabeled_update(s: Seq<usize>, i: int, v: usize)
    requires
        0 <= i < s.len(),
        s[i] == 0,
        v != 0,
    ensures
        unlabeled(s.update(i, v)) + 1 == unlabeled(s),
    decreases s.len(),
{
    if i == s.len() - 1 {
        assert(s.update(i, v).drop_last() =~= s.drop_last());
    } else {
        lemma_unlabeled_update(s.drop_last(), i, v);
        assert(s.update(i, v).drop_last() =~= s.drop_last().update(i, v));
    }
}

proof fn lemma_neighbor_symmetric(mw: int, n: int, a: int, b: int)
    requires
        grid_neighbor(mw, n, a, b),
    ensures
        grid_neighbor(mw, n, b, a),
{
}

proof fn lemma_extend_path(grid: Seq<bool>, mw: int, a: int, b: int, c: int)
    requires
        connected(grid, mw, a, b),
        grid_neighbor(mw, grid.len() as int, b, c),
        grid[c],
    ensures
        connected(grid, mw, a, c),
{
    let p = choose|p: Seq<int>| #[trigger] is_grid_path(grid, mw, p) && p[0] == a && p.last() == b;
    let q = p.push(c);
    assert forall|i: int| 0 <= i < q.len() - 1 implies grid_neighbor(
        mw,
        grid.len() as int,
        #[trigger] q[i],
        q[i + 1],
    ) by {
        if i < p.len() - 1 {
            assert(q[i] == p[i] && q[i + 1] == p[i + 1]);
        }
    }
    assert(is_grid_path(grid, mw, q));
}

proof fn lemma_trivial_path(grid: Seq<bool>, mw: int, a: int)
    requires
        0 <= a < grid.len(),
        grid[a],
    ensures
        connected(grid, mw, a, a),
{
    let p = seq![a];
    assert(is_grid_path(grid, mw, p));
}

/// Invariant of the labelling loop before the cell `start` is visited.
spec fn labelling_inv(
    g: Seq<bool>,
    mw: int,
    labels: Seq<usize>,
    comps: Seq<Seq<usize>>,
    start: int,
) -> bool {
    let n = g.len() as int;
    &&& labels.len() == n
    &&& comps.len() <= start <= n
    &&& forall|c: int| 0 <= c < n ==> #[trigger] labels[c] <= comps.len()
    &&& forall|c: int|
        0 <= c < n && #[trigger] labels[c] != 0 ==> g[c] && comps[labels[c] - 1].contains(
            c as usize,
        )
    &&& forall|k: int, i: int|
        0 <= k < comps.len() && 0 <= i < comps[k].len() ==> #[trigger] comps[k][i] < n
            && labels[comps[k][i] as int] == k + 1
    &&& forall|c: int| 0 <= c < start && #[trigger] g[c] ==> labels[c] != 0
    &&& forall|k: int|
        0 <= k < comps.len() ==> (#[trigger] comps[k]).len() > 0 && comps[k].no_duplicates()
            && comps[k][0] < start
    &&& forall|k: int, i: int|
        0 <= k < comps.len() && 0 <= i < comps[k].len() ==> comps[k][0] <= #[trigger] comps[k][i]
            && connected(g, mw, comps[k][0] as int, comps[k][i] as int)
    &&& forall|k: int, i: int, b: int|
        0 <= k < comps.len() && 0 <= i < comps[k].len() && #[trigger] grid_neighbor(
            mw,
            n,
            comps[k][i] as int,
            b,
        ) && g[b] ==> labels[b] == k + 1
    &&& forall|k1: int, k2: int|
        0 <= k1 < k2 < comps.len() ==> (#[trigger] comps[k1])[0] < (#[trigger] comps[k2])[0]
}

/// Invariant of the flood fill of the component seeded at `start`, labelled
/// `comps.len() + 1`: `cells` have been taken from the frontier `stack`.
spec fn filling_core(
    g: Seq<bool>,
    mw: int,
    labels: Seq<usize>,
    comps: Seq<Seq<usize>>,
    start: int,
    cells: Seq<usize>,
    stack: Seq<usize>,
) -> bool {
    let n = g.len() as int;
    let cur = comps.len() + 1;
    &&& labels.len() == n
    &&& comps.len() <= start < n
    &&& g[start]
    &&& forall|c: int| 0 <= c < n ==> #[trigger] labels[c] <= cur
    &&& forall|c: int|
        0 <= c < n && #[trigger] labels[c] != 0 && labels[c] < cur ==> g[c] && comps[labels[c]
            - 1].contains(c as usize)
    &&& forall|c: int|
        0 <= c < n && #[trigger] labels[c] == cur ==> cells.contains(c as usize) || stack.contains(
            c as usize,
        )
    &&& forall|k: int, i: int|
        0 <= k < comps.len() && 0 <= i < comps[k].len() ==> #[trigger] comps[k][i] < n
            && labels[comps[k][i] as int] == k + 1
    &&& forall|c: int| 0 <= c < start && #[trigger] g[c] ==> labels[c] != 0 && labels[c] < cur
    &&& forall|k: int|
        0 <= k < comps.len() ==> (#[trigger] comps[k]).len() > 0 && comps[k].no_duplicates()
            && comps[k][0] < start
    &&& forall|k: int, i: int|
        0 <= k < comps.len() && 0 <= i < comps[k].len() ==> comps[k][0] <= #[trigger] comps[k][i]
            && connected(g, mw, comps[k][0] as int, comps[k][i] as int)
    &&& forall|k: int, i: int, b: int|
        0 <= k < comps.len() && 0 <= i < comps[k].len() && #[trigger] grid_neighbor(
            mw,
            n,
            comps[k][i] as int,
            b,
        ) && g[b] ==> labels[b] == k + 1
    &&& forall|k1: int, k2: int|
        0 <= k1 < k2 < comps.len() ==> (#[trigger] comps[k1])[0] < (#[trigger] comps[k2])[0]
    &&& cells.len() == 0 ==> stack == seq![start as usize]
    &&& cells.len() > 0 ==> cells[0] == start
    &&& cells.no_duplicates()
    &&& stack.no_duplicates()
    &&& forall|i: int, j: int|
        0 <= i < cells.len() && 0 <= j < stack.len() ==> #[trigger] cells[i] != #[trigger] stack[j]
    &&& forall|i: int|
        0 <= i < cells.len() ==> #[trigger] cells[i] < n && g[cells[i] as int] && labels[cells[i] as int]
            == cur && start <= cells[i] && connected(g, mw, start, cells[i] as int)
    &&& forall|j: int|
        0 <= j < stack.len() ==> #[trigger] stack[j] < n && g[stack[j] as int] && labels[stack[j] as int]
            == cur && start <= stack[j] && connected(g, mw, start, stack[j] as int)
}

/// Every occupied neighbour of the cells `cells` carries the label `cur`.
spec fn cells_closed(g: Seq<bool>, mw: int, labels: Seq<usize>, cur: int, cells: Seq<usize>) -> bool {
    forall|i: int, b: int|
        0 <= i < cells.len() && #[trigger] grid_neighbor(mw, g.len() as int, cells[i] as int, b)
            && g[b] ==> labels[b] == cur
}

/// Visits the cell `ni`, a neighbour of the last cell taken from the
/// frontier: labels it and adds it to the frontier if it is occupied and
/// not labelled yet.
fn visit(
    grid: &Vec<bool>,
    labels: &mut Vec<usize>,
    stack: &mut Vec<usize>,
    ni: usize,
    cur: usize,
    Ghost(mw): Ghost<int>,
    Ghost(comps): Ghost<Seq<Seq<usize>>>,
    Ghost(start): Ghost<int>,
    Ghost(cells): Ghost<Seq<usize>>,
)
    requires
        filling_core(grid@, mw, old(labels)@, comps, start, cells, old(stack)@),
        cur == comps.len() + 1,
        cells.len() > 0,
        grid_neighbor(mw, grid.len() as int, cells.last() as int, ni as int),
    ensures
        filling_core(grid@, mw, final(labels)@, comps, start, cells, final(stack)@),
        forall|c: int| 0 <= c < grid.len() && old(labels)@[c] != 0 ==> final(labels)@[c] == old(labels)@[c],
        grid@[ni as int] ==> final(labels)@[ni as int] != 0,
        2 * unlabeled(final(labels)@) + final(stack)@.len() <= 2 * unlabeled(old(labels)@) + old(stack)@.len(),
{
    if grid[ni] && labels[ni] == 0 {
        let ghost g = grid@;
        let ghost l0 = labels@;
        let ghost s0 = stack@;
        let ghost idx = cells.last() as int;
        proof {
            lemma_unlabeled_update(labels@, ni as int, cur);
            assert(cells[cells.len() - 1] == idx);
            lemma_extend_path(g, mw, start, idx, ni as int);
            if (ni as int) < start {
                assert(l0[ni as int] != 0);
            }
        }
        labels.set(ni, cur);
        stack.push(ni);
        proof {
            let l1 = labels@;
            let s1 = stack@;
            assert forall|c: int| 0 <= c < g.len() && #[trigger] l1[c] == cur implies cells.contains(c as usize)
                || s1.contains(c as usize) by {
                if c == ni as int {
                    assert(s1[s1.len() - 1] == ni);
                } else {
                    assert(l0[c] == cur);
                    if s0.contains(c as usize) {
                        let j = choose|j: int| 0 <= j < s0.len() && s0[j] == c as usize;
                        assert(s1[j] == c as usize);
                    }
                }
            }
            assert forall|k: int, i: int, b: int|
                0 <= k < comps.len() && 0 <= i < comps[k].len() && #[trigger] grid_neighbor(
                    mw,
                    g.len() as int,
                    comps[k][i] as int,
                    b,
                ) && g[b] implies l1[b] == k + 1 by {
                assert(l0[b] == k + 1);
            }
            assert(s1.no_duplicates()) by {
                assert forall|a: int, b: int| 0 <= a < b < s1.len() implies s1[a] != s1[b] by {
                    if b == s1.len() - 1 {
                        assert(l0[s0[a] as int] == cur);
                    }
                }
            }
            assert forall|i: int, j: int|
                0 <= i < cells.len() && 0 <= j < s1.len() implies #[trigger] cells[i] != #[trigger] s1[j] by {
                if j == s1.len() - 1 {
                    assert(l0[cells[i] as int] == cur);
                }
            }
        }
    }
}

/// Floods the component of the occupied, unlabelled cell `start`, labelling
/// its cells `comps.len() + 1`, and returns them.
fn fill_component(
    grid: &Vec<bool>,
    labels: &mut Vec<usize>,
    mw: usize,
    start: usize,
    cur: usize,
    Ghost(comps): Ghost<Seq<Seq<usize>>>,
) -> (cells: Vec<usize>)
    requires
        cur == comps.len() + 1,
        labelling_inv(grid@, mw as int, old(labels)@, comps, start as int),
        start < grid.len(),
        grid@[start as int],
        old(labels)@[start as int] == 0,
        mw > 0,
        grid.len() % mw == 0,
    ensures
        labelling_inv(grid@, mw as int, final(labels)@, comps.push(cells@), start + 1),
{
    let n = grid.len();
    let ghost g = grid@;
    let ghost mwi = mw as int;
    let mut stack: Vec<usize> = Vec::new();
    let mut cells: Vec<usize> = Vec::new();
    proof {
        lemma_trivial_path(g, mwi, start as int);
    }
    let ghost l0 = labels@;
    stack.push(start);
    labels.set(start, cur);
    proof {
        let l = labels@;
        assert(stack@ =~= seq![start]);
        assert forall|c: int| 0 <= c < n && #[trigger] l[c] == cur implies cells@.contains(c as usize)
            || stack@.contains(c as usize) by {
            if c != start {
                assert(l0[c] <= comps.len());
            }
            assert(stack@[0] == start);
        }
        assert forall|k: int, i: int, b: int|
            0 <= k < comps.len() && 0 <= i < comps[k].len() && #[trigger] grid_neighbor(
                mwi,
                n as int,
                comps[k][i] as int,
                b,
            ) && g[b] implies l[b] == k + 1 by {
            assert(l0[b] == k + 1);
        }
        assert forall|c: int| 0 <= c < n && #[trigger] l[c] != 0 && l[c] < cur implies g[c] && comps[l[c]
            - 1].contains(c as usize) by {
            assert(l0[c] == l[c]);
        }
        assert forall|k: int, i: int|
            0 <= k < comps.len() && 0 <= i < comps[k].len() implies #[trigger] comps[k][i] < n
                && l[comps[k][i] as int] == k + 1 by {
            assert(l0[comps[k][i] as int] == k + 1);
        }
    }
    assert(filling_core(g, mwi, labels@, comps, start as int, cells@, stack@));
    while stack.len() > 0
        invariant
            n == grid.len(),
            g == grid@,
            mwi == mw as int,
            mw > 0,
            n % mw == 0,
            cur == comps.len() + 1,
            filling_core(g, mwi, labels@, comps, start as int, cells@, stack@),
            cells_closed(g, mwi, labels@, cur as int, cells@),
        decreases 2 * unlabeled(labels@) + stack@.len(),
    {
        let ghost l0 = labels@;
        let ghost s0 = stack@;
        let ghost c0 = cells@;
        let idx = stack.pop().unwrap();
        cells.push(idx);
        proof {
            assert(stack@ =~= s0.drop_last());
            assert(idx == s0[s0.len() - 1]);
            assert(cells@ =~= c0.push(idx));
            assert forall|c: int| 0 <= c < g.len() && #[trigger] labels@[c] == cur implies cells@.contains(c as usize)
                || stack@.contains(c as usize) by {
                if s0.contains(c as usize) {
                    let j = choose|j: int| 0 <= j < s0.len() && s0[j] == c as usize;
                    if j == s0.len() - 1 {
                        assert(cells@[cells@.len() - 1] == c as usize);
                    } else {
                        assert(stack@[j] == c as usize);
                    }
                } else {
                    let i = choose|i: int| 0 <= i < c0.len() && c0[i] == c as usize;
                    assert(cells@[i] == c as usize);
                }
            }
            assert(cells@.no_duplicates()) by {
                assert forall|a: int, b: int| 0 <= a < b < cells@.len() implies cells@[a] != cells@[b] by {
                    if b == cells@.len() - 1 {
                        assert(c0[a] != s0[s0.len() - 1]);
                    }
                }
            }
            assert forall|i: int, j: int|
                0 <= i < cells@.len() && 0 <= j < stack@.len() implies #[trigger] cells@[i] != #[trigger] stack@[j] by {
                if i == cells@.len() - 1 {
                    assert(s0[s0.len() - 1] != s0[j]);
                } else {
                    assert(c0[i] != s0[j]);
                }
            }
            assert(cells@[0] == start);
            assert(filling_core(g, mwi, labels@, comps, start as int, cells@, stack@));
            assert(cells_closed(g, mwi, labels@, cur as int, c0));
        }
        let ghost before = labels@;
        // left, right, up, down
        if idx % mw != 0 {
            assert(idx > 0) by {
                if idx == 0 {
                    assert(0usize % mw == 0);
                }
            }
            visit(grid, labels, &mut stack, idx - 1, cur, Ghost(mwi), Ghost(comps), Ghost(start as int), Ghost(cells@));
        }
        if (idx + 1) % mw != 0 {
            assert(idx + 1 < n) by {
                if idx + 1 == n {
                    assert((idx + 1) as usize % mw == 0);
                }
            }
            visit(grid, labels, &mut stack, idx + 1, cur, Ghost(mwi), Ghost(comps), Ghost(start as int), Ghost(cells@));
        }
        if idx >= mw {
            visit(grid, labels, &mut stack, idx - mw, cur, Ghost(mwi), Ghost(comps), Ghost(start as int), Ghost(cells@));
        }
        if n >= mw && idx < n - mw {
            visit(grid, labels, &mut stack, idx + mw, cur, Ghost(mwi), Ghost(comps), Ghost(start as int), Ghost(cells@));
        }
        proof {
            let l1 = labels@;
            assert forall|i: int, b: int|
                0 <= i < cells@.len() && #[trigger] grid_neighbor(mwi, g.len() as int, cells@[i] as int, b)
                    && g[b] implies l1[b] == cur by {
                if i < cells@.len() - 1 {
                    assert(c0[i] == cells@[i]);
                    assert(before[b] == cur);
                } else {
                    assert(l1[b] != 0);
                    if l1[b] != cur {
                        let k = l1[b] - 1;
                        lemma_neighbor_symmetric(mwi, g.len() as int, idx as int, b);
                        let j = choose|j: int| 0 <= j < comps[k].len() && comps[k][j] == b as usize;
                        assert(grid_neighbor(mwi, g.len() as int, comps[k][j] as int, idx as int));
                        assert(l1[idx as int] == k + 1);
                    }
                }
            }
        }
    }
    proof {
        let cs = comps.push(cells@);
        let l = labels@;
        assert(cells@.len() > 0);
        assert(cs[comps.len() as int] == cells@);
        assert forall|c: int| 0 <= c < n && #[trigger] l[c] != 0 implies g[c] && cs[l[c] - 1].contains(c as usize) by {
            if l[c] == cur {
                assert(cells@.contains(c as usize));
                let i = choose|i: int| 0 <= i < cells@.len() && cells@[i] == c as usize;
            } else {
                assert(cs[l[c] - 1] == comps[l[c] - 1]);
            }
        }
        assert forall|k: int, i: int|
            0 <= k < cs.len() && 0 <= i < cs[k].len() implies #[trigger] cs[k][i] < n
                && l[cs[k][i] as int] == k + 1 by {
            if k < comps.len() {
                assert(cs[k] == comps[k]);
            }
        }
        assert forall|k: int| 0 <= k < cs.len() implies (#[trigger] cs[k]).len() > 0 && cs[k].no_duplicates()
            && cs[k][0] < start + 1 by {
            if k < comps.len() {
                assert(cs[k] == comps[k]);
            }
        }
        assert forall|k: int, i: int|
            0 <= k < cs.len() && 0 <= i < cs[k].len() implies cs[k][0] <= #[trigger] cs[k][i]
                && connected(g, mwi, cs[k][0] as int, cs[k][i] as int) by {
            if k < comps.len() {
                assert(cs[k] == comps[k]);
            }
        }
        assert forall|k: int, i: int, b: int|
            0 <= k < cs.len() && 0 <= i < cs[k].len() && #[trigger] grid_neighbor(
                mwi,
                n as int,
                cs[k][i] as int,
                b,
            ) && g[b] implies l[b] == k + 1 by {
            if k < comps.len() {
                assert(cs[k] == comps[k]);
            }
        }
        assert forall|k1: int, k2: int|
            0 <= k1 < k2 < cs.len() implies (#[trigger] cs[k1])[0] < (#[trigger] cs[k2])[0] by {
            if k2 < comps.len() {
                assert(cs[k1] == comps[k1]);
                assert(cs[k2] == comps[k2]);
            } else {
                assert(cs[k1] == comps[k1]);
            }
        }
        assert forall|c: int| 0 <= c < start + 1 && #[trigger] g[c] implies l[c] != 0 by {
        }
    }
    cells
}

/// Labels the four-connected components of the occupied cells of `grid`
/// (row-major, `mw` cells wide) by flood fill from each unlabelled occupied
/// cell in turn.
pub fn label_components(grid: &Vec<bool>, mw: usize) -> (comps: Vec<Vec<usize>>)
    requires
        mw > 0 || grid.len() == 0,
        mw > 0 ==> grid.len() % mw == 0,
    ensures
        is_component_decomposition(grid@, mw as int, cells_of(comps@)),
{
    let n = grid.len();
    let ghost g = grid@;
    let ghost mwi = mw as int;
    let mut labels: Vec<usize> = Vec::new();
    let mut z: usize = 0;
    while z < n
        invariant
            z <= n,
            labels.len() == z,
            forall|c: int| 0 <= c < z ==> labels@[c] == 0,
        decreases n - z,
    {
        labels.push(0);
        z = z + 1;
    }
    let mut comps: Vec<Vec<usize>> = Vec::new();
    let mut start: usize = 0;
    assert(cells_of(comps@) =~= Seq::<Seq<usize>>::empty());
    while start < n
        invariant
            n == grid.len(),
            g == grid@,
            mwi == mw as int,
            mw > 0 || n == 0,
            mw > 0 ==> n % mw == 0,
            labelling_inv(g, mwi, labels@, cells_of(comps@), start as int),
        decreases n - start,
    {
        if grid[start] && labels[start] == 0 {
            let ghost cs = cells_of(comps@);
            let cells = fill_component(grid, &mut labels, mw, start, comps.len() + 1, Ghost(cs));
            comps.push(cells);
            assert(cells_of(comps@) =~= cs.push(cells@));
        } else {
            assert(labelling_inv(g, mwi, labels@, cells_of(comps@), start as int + 1));
        }
        start = start + 1;
    }
    proof {
        let cs = cells_of(comps@);
        let l = labels@;
        assert forall|k1: int, i: int, k2: int, j: int|
            0 <= k1 < cs.len() && 0 <= i < cs[k1].len() && 0 <= k2 < cs.len() && 0 <= j
                < cs[k2].len() && #[trigger] cs[k1][i] == #[trigger] cs[k2][j] implies k1 == k2 by {
            assert(l[cs[k1][i] as int] == k1 + 1);
            assert(l[cs[k2][j] as int] == k2 + 1);
        }
        assert forall|c: int| 0 <= c < n && #[trigger] g[c] implies exists|k: int, i: int|
            0 <= k < cs.len() && 0 <= i < cs[k].len() && #[trigger] cs[k][i] == c by {
            let k = l[c] - 1;
            assert(cs[k].contains(c as usize));
            let i = choose|i: int| 0 <= i < cs[k].len() && cs[k][i] == c as usize;
            assert(cs[k][i] == c);
        }
        assert forall|k: int, i: int, b: int|
            0 <= k < cs.len() && 0 <= i < cs[k].len() && #[trigger] grid_neighbor(
                mwi,
                n as int,
                cs[k][i] as int,
                b,
            ) && g[b] implies cs[k].contains(b as usize) by {
            assert(l[b] == k + 1);
        }
    }
    comps
}

/// Side of the square of pixels that one mask cell samples.
pub const STEP: u32 = 4;

/// Fewest mask cells a component needs to count as a blob.
pub const MIN_BLOB: usize = 20;

/// Integer summary of one blob: its number of mask cells and the sums of
/// their columns and rows (its centroid, in cells, is
/// `(sum_x / cells, sum_y / cells)`).
#[derive(Clone, Copy, PartialEq, Eq, Structural, Debug)]
pub struct Blob {
    pub cells: usize,
    pub sum_x: u64,
    pub sum_y: u64,
}

/// Sum of the columns of the cells `cells` of a grid `mw` cells wide.
pub open spec fn sum_cols(cells: Seq<usize>, mw: int) -> int
    decreases cells.len(),
{
    if cells.len() == 0 {
        0
    } else {
        sum_cols(cells.drop_last(), mw) + (cells.last() as int) % mw
    }
}

/// Sum of the rows of the cells `cells` of a grid `mw` cells wide.
pub open spec fn sum_rows(cells: Seq<usize>, mw: int) -> int
    decreases cells.len(),
{
    if cells.len() == 0 {
        0
    } else {
        sum_rows(cells.drop_last(), mw) + (cells.last() as int) / mw
    }
}

/// `b` summarises the cells `cells` of a grid `mw` cells wide.
pub open spec fn blob_of(b: Blob, cells: Seq<usize>, mw: int) -> bool {
    &&& b.cells == cells.len()
    &&& b.sum_x == sum_cols(cells, mw)
    &&& b.sum_y == sum_rows(cells, mw)
}

proof fn lemma_distinct_below(s: Seq<usize>, n: int)
    requires
        s.no_duplicates(),
        0 <= n,
        forall|i: int| 0 <= i < s.len() ==> s[i] < n,
    ensures
        s.len() <= n,
{
    let t = s.map_values(|x: usize| x as int);
    assert(t.no_duplicates()) by {
        assert forall|i: int, j: int| 0 <= i < t.len() && 0 <= j < t.len() && i != j implies t[i]
            != t[j] by {
            assert(s[i] != s[j]);
        }
    }
    t.unique_seq_to_set();
    lemma_int_range(0, n);
    assert(t.to_set().subset_of(set_int_range(0, n))) by {
        assert forall|x: int| t.to_set().contains(x) implies set_int_range(0, n).contains(x) by {
            let i = choose|i: int| 0 <= i < t.len() && t[i] == x;
            assert(s[i] < n);
        }
    }
    lemma_len_subset(t.to_set(), set_int_range(0, n));
}

/// Summarises the cells `cells` (distinct cells of a grid of `n` cells,
/// `mw` wide).
pub fn blob_stats(cells: &Vec<usize>, mw: usize, n: usize) -> (b: Blob)
    requires
        mw > 0,
        n <= u32::MAX,
        cells@.no_duplicates(),
        forall|i: int| 0 <= i < cells.len() ==> cells@[i] < n,
    ensures
        blob_of(b, cells@, mw as int),
{
    proof {
        lemma_distinct_below(cells@, n as int);
    }
    let mut sx: u64 = 0;
    let mut sy: u64 = 0;
    let mut i: usize = 0;
    while i < cells.len()
        invariant
            mw > 0,
            n <= u32::MAX,
            i <= cells.len(),
            cells.len() <= n,
            forall|j: int| 0 <= j < cells.len() ==> cells@[j] < n,
            sx == sum_cols(cells@.take(i as int), mw as int),
            sy == sum_rows(cells@.take(i as int), mw as int),
            sx <= i * (n as int),
            sy <= i * (n as int),
        decreases cells.len() - i,
    {
        let c = cells[i];
        let cx = c % mw;
        let cy = c / mw;
        assert(cx <= c && cy <= c) by (nonlinear_arith)
            requires
                cx == c % mw,
                cy == c / mw,
                mw > 0,
        ;
        assert((i + 1) * (n as int) == i * (n as int) + n) by (nonlinear_arith);
        assert((i + 1) * (n as int) <= (n as int) * (n as int)) by (nonlinear_arith)
            requires
                i + 1 <= n,
        ;
        assert((n as int) * (n as int) <= 0xffff_ffff * 0xffff_ffff) by (nonlinear_arith)
            requires
                n <= 0xffff_ffff,
        ;
        assert(cells@.take(i + 1).drop_last() =~= cells@.take(i as int));
        sx = sx + cx as u64;
        sy = sy + cy as u64;
        i = i + 1;
    }
    assert(cells@.take(i as int) =~= cells@);
    Blob { cells: cells.len(), sum_x: sx, sum_y: sy }
}

/// Sizes of the components `comps`.
pub open spec fn comp_sizes(comps: Seq<Seq<usize>>) -> Seq<int> {
    comps.map_values(|c: Seq<usize>| c.len() as int)
}

/// Index of the first of the largest entries of `sizes`, passing over the
/// index `skip`; -1 when no other index is left.
pub open spec fn largest(sizes: Seq<int>, skip: int) -> int
    decreases sizes.len(),
{
    if sizes.len() == 0 {
        -1
    } else {
        let k = largest(sizes.drop_last(), skip);
        let i = sizes.len() - 1;
        if i == skip {
            k
        } else if k == -1 || sizes[i] > sizes[k] {
            i
        } else {
            k
        }
    }
}

/// What `largest` picks: an index other than `skip` whose entry no other
/// such index beats, the first of them on a tie; -1 exactly when there is no
/// index besides `skip`.
pub proof fn lemma_largest(sizes: Seq<int>, skip: int)
    ensures
        largest(sizes, skip) == -1 <==> (sizes.len() == 0 || (sizes.len() == 1 && skip == 0)),
        largest(sizes, skip) != -1 ==> {
            let r = largest(sizes, skip);
            &&& 0 <= r < sizes.len()
            &&& r != skip
            &&& forall|j: int|
                0 <= j < sizes.len() && j != skip && j != r ==> sizes[r] > sizes[j] || (sizes[r]
                    == sizes[j] && r < j)
        },
    decreases sizes.len(),
{
    if sizes.len() > 0 {
        let t = sizes.drop_last();
        lemma_largest(t, skip);
        let k = largest(t, skip);
        assert forall|j: int| 0 <= j < t.len() implies t[j] == sizes[j] by {}
    }
}

/// Index of the first largest component, passing over `skip`.
fn largest_component(comps: &Vec<Vec<usize>>, skip: Option<usize>) -> (r: Option<usize>)
    ensures
        ({
            let l = largest(comp_sizes(cells_of(comps@)), match skip { Some(s) => s as int, None => -1 });
            match r {
                Some(i) => i == l,
                None => l == -1,
            }
        }),
{
    let ghost sizes = comp_sizes(cells_of(comps@));
    let ghost sk: int = match skip { Some(s) => s as int, None => -1 };
    let mut best: Option<usize> = None;
    let mut i: usize = 0;
    while i < comps.len()
        invariant
            i <= comps.len(),
            sizes == comp_sizes(cells_of(comps@)),
            sk == match skip { Some(s) => s as int, None => -1 },
            ({
                let l = largest(sizes.take(i as int), sk);
                match best {
                    Some(b) => b == l && b < i,
                    None => l == -1,
                }
            }),
        decreases comps.len() - i,
    {
        assert(sizes.take(i + 1).drop_last() =~= sizes.take(i as int));
        let is_skip = match skip { Some(s) => s == i, None => false };
        if !is_skip {
            match best {
                None => {
                    best = Some(i);
                },
                Some(b) => {
                    if comps[i].len() > comps[b].len() {
                        best = Some(i);
                    }
                },
            }
        }
        i = i + 1;
    }
    assert(sizes.take(i as int) =~= sizes);
    best
}

/// The centroid of the cells `a` lies strictly left of that of the cells `b`.
pub open spec fn left_of(a: Seq<usize>, b: Seq<usize>, mw: int) -> bool {
    sum_cols(a, mw) * b.len() < sum_cols(b, mw) * a.len()
}

/// Which blobs the components `comps` of a grid `mw` cells wide give, in
/// `r`: none unless the largest has `MIN_BLOB` cells; the second largest
/// too if it has `MIN_BLOB` cells and at least 30% of the area of the
/// largest (rounded down); the two ordered left to right, the largest first
/// on a tie.
pub open spec fn blob_selection(comps: Seq<Seq<usize>>, mw: int, r: Seq<Blob>) -> bool {
    let sizes = comp_sizes(comps);
    let i0 = largest(sizes, -1);
    if i0 < 0 || sizes[i0] < MIN_BLOB {
        r.len() == 0
    } else {
        let i1 = largest(sizes, i0);
        if i1 < 0 || sizes[i1] < MIN_BLOB || 16 * sizes[i1] < (16 * sizes[i0] * 3) / 10 {
            r.len() == 1 && blob_of(r[0], comps[i0], mw)
        } else if left_of(comps[i1], comps[i0], mw) {
            r.len() == 2 && blob_of(r[0], comps[i1], mw) && blob_of(r[1], comps[i0], mw)
        } else {
            r.len() == 2 && blob_of(r[0], comps[i0], mw) && blob_of(r[1], comps[i1], mw)
        }
    }
}

/// The blobs a selection gives: at most two, each of `MIN_BLOB` cells or
/// more; none exactly when no component reaches `MIN_BLOB` cells; no
/// component is larger than the largest blob, and no two components are both
/// larger than the smaller of two blobs; two blobs come left to right, the
/// smaller with at least 30% of the area of the larger (rounded down).
pub proof fn lemma_blob_selection(comps: Seq<Seq<usize>>, mw: int, r: Seq<Blob>)
    requires
        blob_selection(comps, mw, r),
    ensures
        r.len() <= 2,
        forall|i: int| 0 <= i < r.len() ==> (#[trigger] r[i]).cells >= MIN_BLOB,
        r.len() == 0 <==> forall|k: int| 0 <= k < comps.len() ==> (#[trigger] comps[k]).len() < MIN_BLOB,
        r.len() >= 1 ==> forall|k: int|
            0 <= k < comps.len() ==> (#[trigger] comps[k]).len() <= r[0].cells || comps[k].len()
                <= r[r.len() - 1].cells,
        r.len() == 1 ==> forall|k: int| 0 <= k < comps.len() ==> (#[trigger] comps[k]).len() <= r[0].cells,
        r.len() == 2 ==> {
            let small = if r[0].cells <= r[1].cells { r[0].cells } else { r[1].cells };
            let big = if r[0].cells <= r[1].cells { r[1].cells } else { r[0].cells };
            &&& r[0].sum_x * r[1].cells <= r[1].sum_x * r[0].cells
            &&& 16 * small >= (16 * big * 3) / 10
            &&& forall|k: int| 0 <= k < comps.len() ==> (#[trigger] comps[k]).len() <= big
            &&& forall|k1: int, k2: int|
                0 <= k1 < comps.len() && 0 <= k2 < comps.len() && k1 != k2 ==> (#[trigger] comps[k1]).len()
                    <= small || (#[trigger] comps[k2]).len() <= small
        },
{
    let sizes = comp_sizes(comps);
    lemma_largest(sizes, -1);
    let i0 = largest(sizes, -1);
    assert forall|k: int| 0 <= k < comps.len() implies sizes[k] == (#[trigger] comps[k]).len() by {}
    if i0 >= 0 {
        lemma_largest(sizes, i0);
        let i1 = largest(sizes, i0);
        if i1 >= 0 {
            assert forall|k1: int, k2: int|
                0 <= k1 < comps.len() && 0 <= k2 < comps.len() && k1 != k2 implies sizes[k1] <= sizes[i1]
                    || sizes[k2] <= sizes[i1] by {
                if k1 != i0 {
                    assert(sizes[k1] <= sizes[i1] || k1 == i1);
                }
                if k2 != i0 {
                    assert(sizes[k2] <= sizes[i1] || k2 == i1);
                }
            }
        }
    }
}

/// Picks the blobs out of the components `comps` of a grid of `n` cells,
/// `mw` wide.
pub fn select_blobs(comps: &Vec<Vec<usize>>, mw: usize, n: usize) -> (r: Vec<Blob>)
    requires
        comps.len() > 0 ==> mw > 0,
        n <= u32::MAX,
        forall|k: int| 0 <= k < comps.len() ==> (#[trigger] comps@[k])@.no_duplicates(),
        forall|k: int, i: int| 0 <= k < comps.len() && 0 <= i < comps@[k]@.len() ==> #[trigger] comps@[k]@[i] < n,
    ensures
        blob_selection(cells_of(comps@), mw as int, r@),
{
    let ghost cs = cells_of(comps@);
    let ghost sizes = comp_sizes(cs);
    let mut r: Vec<Blob> = Vec::new();
    let first = largest_component(comps, None);
    proof { lemma_largest(sizes, -1); }
    match first {
        None => {},
        Some(i0) => {
            assert(cs[i0 as int] == comps@[i0 as int]@);
            proof { lemma_distinct_below(comps@[i0 as int]@, n as int); }
            if comps[i0].len() >= MIN_BLOB {
                let b0 = blob_stats(&comps[i0], mw, n);
                let second = largest_component(comps, Some(i0));
                proof { lemma_largest(sizes, i0 as int); }
                match second {
                    None => {
                        r.push(b0);
                    },
                    Some(i1) => {
                        assert(cs[i1 as int] == comps@[i1 as int]@);
                        proof { lemma_distinct_below(comps@[i1 as int]@, n as int); }
                        let a0 = comps[i0].len() as u64 * 16;
                        let a1 = comps[i1].len() as u64 * 16;
                        if comps[i1].len() < MIN_BLOB || a1 < a0 * 3 / 10 {
                            r.push(b0);
                        } else {
                            let b1 = blob_stats(&comps[i1], mw, n);
                            assert((b1.sum_x as int) * (b0.cells as int) <= 0xffff_ffff_ffff_ffff * 0xffff_ffff) by (nonlinear_arith)
                                requires b1.sum_x <= 0xffff_ffff_ffff_ffffu64, b0.cells <= 0xffff_ffff;
                            assert((b0.sum_x as int) * (b1.cells as int) <= 0xffff_ffff_ffff_ffff * 0xffff_ffff) by (nonlinear_arith)
                                requires b0.sum_x <= 0xffff_ffff_ffff_ffffu64, b1.cells <= 0xffff_ffff;
                            if (b1.sum_x as u128) * (b0.cells as u128) < (b0.sum_x as u128) * (b1.cells as u128) {
                                r.push(b1);
                                r.push(b0);
                            } else {
                                r.push(b0);
                                r.push(b1);
                            }
                        }
                    },
                }
            }
        },
    }
    r
}

/// Number of mask cells across `len` pixels: `len / STEP`, rounded up.
pub open spec fn cells_across(len: int) -> int {
    (len + 3) / 4
}

/// Mask cell (row-major, `mw` by `mh` cells) of the pixel `p` = (column,
/// row), or -1 when it falls outside the mask.
pub open spec fn point_cell(p: (u32, u32), mw: int, mh: int) -> int {
    if (p.0 as int) / 4 < mw && (p.1 as int) / 4 < mh {
        ((p.1 as int) / 4) * mw + (p.0 as int) / 4
    } else {
        -1
    }
}

/// Occupancy of a `mw` by `mh` mask: a cell is occupied when one of the
/// points `pts` falls in it.
pub open spec fn point_grid(pts: Seq<(u32, u32)>, mw: int, mh: int) -> Seq<bool> {
    Seq::new(
        (mw * mh) as nat,
        |c: int| exists|k: int| 0 <= k < pts.len() && #[trigger] point_cell(pts[k], mw, mh) == c,
    )
}

/// Finds up to two blobs among the matched pixels `pts` (column, row) of a
/// `w` by `h` frame: the occupancy mask of `STEP` by `STEP` cells is split
/// into four-connected components, of which the two largest are picked as
/// `blob_selection` says.
pub fn find_blobs(pts: &Vec<(u32, u32)>, w: u32, h: u32) -> (r: Vec<Blob>)
    requires
        w + 3 <= u32::MAX,
        h + 3 <= u32::MAX,
        cells_across(w as int) * cells_across(h as int) <= u32::MAX,
    ensures
        exists|comps: Seq<Seq<usize>>|
            is_component_decomposition(
                point_grid(pts@, cells_across(w as int), cells_across(h as int)),
                cells_across(w as int),
                comps,
            ) && blob_selection(comps, cells_across(w as int), r@),
{
    let mw: u32 = (w + (STEP - 1)) / STEP;
    let mh: u32 = (h + (STEP - 1)) / STEP;
    let ghost mwi = mw as int;
    let ghost mhi = mh as int;
    let n: usize = (mw * mh) as usize;
    let mut grid: Vec<bool> = Vec::new();
    while grid.len() < n
        invariant
            grid.len() <= n,
            forall|c: int| 0 <= c < grid.len() ==> !grid@[c],
        decreases n - grid.len(),
    {
        grid.push(false);
    }
    let mut i: usize = 0;
    while i < pts.len()
        invariant
            n == mwi * mhi,
            mwi == mw,
            mhi == mh,
            n <= u32::MAX,
            grid.len() == n,
            i <= pts.len(),
            forall|c: int|
                0 <= c < n ==> grid@[c] == exists|k: int|
                    0 <= k < i && #[trigger] point_cell(pts@[k], mwi, mhi) == c,
        decreases pts.len() - i,
    {
        let (px, py) = pts[i];
        let gx = px / STEP;
        let gy = py / STEP;
        let ghost g0 = grid@;
        if gx < mw && gy < mh {
            assert(gy * mw + gx < mw * mh) by (nonlinear_arith)
                requires
                    gx < mw,
                    gy < mh,
            ;
            let ci = (gy * mw + gx) as usize;
            grid.set(ci, true);
            assert(point_cell(pts@[i as int], mwi, mhi) == ci);
        } else {
            assert(point_cell(pts@[i as int], mwi, mhi) == -1);
        }
        assert forall|c: int| 0 <= c < n implies grid@[c] == exists|k: int|
            0 <= k < i + 1 && #[trigger] point_cell(pts@[k], mwi, mhi) == c by {
            if point_cell(pts@[i as int], mwi, mhi) == c {
                assert(grid@[c]);
            } else {
                assert(grid@[c] == g0[c]);
                if grid@[c] {
                    let k = choose|k: int| 0 <= k < i && #[trigger] point_cell(pts@[k], mwi, mhi) == c;
                }
                if exists|k: int| 0 <= k < i + 1 && #[trigger] point_cell(pts@[k], mwi, mhi) == c {
                    let k = choose|k: int| 0 <= k < i + 1 && #[trigger] point_cell(pts@[k], mwi, mhi) == c;
                    assert(k < i);
                }
            }
        }
        i = i + 1;
    }
    assert(grid@ =~= point_grid(pts@, mwi, mhi));
    if mw > 0 {
        proof {
            lemma_mod_multiples_basic(mhi, mwi);
            assert(mhi * mwi == mwi * mhi) by (nonlinear_arith);
        }
    } else {
        assert(mwi * mhi == 0) by (nonlinear_arith)
            requires
                mwi == 0,
        ;
    }
    let comps = label_components(&grid, mw as usize);
    proof {
        let cs = cells_of(comps@);
        assert forall|k: int| 0 <= k < comps.len() implies (#[trigger] comps@[k])@.no_duplicates() by {
            assert(cs[k] == comps@[k]@);
        }
        assert forall|k: int, i: int| 0 <= k < comps.len() && 0 <= i < comps@[k]@.len() implies #[trigger] comps@[k]@[i] < n by {
            assert(cs[k] == comps@[k]@);
            assert(cs[k][i] == comps@[k]@[i]);
        }
        if comps.len() > 0 && mw == 0 {
            assert(cs[0].len() > 0);
            assert(cs[0][0] < n);
        }
    }
    select_blobs(&comps, mw as usize, n)
}

// ─── Colour matching ──────────────────────────────────────────────────────────

/// What colour blob to look for in each frame.
#[derive(Clone, Copy, PartialEq, Eq, Structural, Debug)]
pub enum TrackTarget {
    /// Human skin: warm red-orange hues.
    Skin,
    /// Optic-yellow tennis ball: a tight chartreuse-yellow window.
    TennisBall,
    /// Bright orange (orange ball, tangerine, marker cap).
    OrangeBall,
}

impl TrackTarget {
    /// Name shown in the target picker.
    pub fn label(self) -> (r: &'static str)
        ensures
            r@ == (match self {
                TrackTarget::Skin => "Skin"@,
                TrackTarget::TennisBall => "Tennis ball"@,
                TrackTarget::OrangeBall => "Orange ball"@,
            }),
    {
        match self {
            TrackTarget::Skin => "Skin",
            TrackTarget::TennisBall => "Tennis ball",
            TrackTarget::OrangeBall => "Orange ball",
        }
    }
}

/// Largest of three channel values.
pub open spec fn max3(r: int, g: int, b: int) -> int {
    if r >= g && r >= b {
        r
    } else if g >= b {
        g
    } else {
        b
    }
}

/// Smallest of three channel values.
pub open spec fn min3(r: int, g: int, b: int) -> int {
    if r <= g && r <= b {
        r
    } else if g <= b {
        g
    } else {
        b
    }
}

/// Hue of the colour (r, g, b) in degrees, times its chroma `max - min`:
/// the hue is `hue_scaled / chroma`, in [0, 360); 0 for greys.
pub open spec fn hue_scaled(r: int, g: int, b: int) -> int {
    let mx = max3(r, g, b);
    let d = mx - min3(r, g, b);
    if d == 0 {
        0
    } else if mx == r {
        if g >= b {
            60 * (g - b)
        } else {
            60 * (g - b + 6 * d)
        }
    } else if mx == g {
        60 * (b - r + 2 * d)
    } else {
        60 * (r - g + 4 * d)
    }
}

/// The hue of (r, g, b) is below `deg` degrees.
pub open spec fn hue_below(r: int, g: int, b: int, deg: int) -> bool {
    let d = max3(r, g, b) - min3(r, g, b);
    if d == 0 {
        0 < deg
    } else {
        hue_scaled(r, g, b) < deg * d
    }
}

/// The hue of (r, g, b) is above `deg` degrees.
pub open spec fn hue_above(r: int, g: int, b: int, deg: int) -> bool {
    let d = max3(r, g, b) - min3(r, g, b);
    if d == 0 {
        0 > deg
    } else {
        hue_scaled(r, g, b) > deg * d
    }
}

/// The saturation `(max - min) / max` of (r, g, b) is below `num / den`
/// (black has saturation 0).
pub open spec fn sat_below(r: int, g: int, b: int, num: int, den: int) -> bool {
    let mx = max3(r, g, b);
    if mx == 0 {
        0 < num
    } else {
        (mx - min3(r, g, b)) * den < num * mx
    }
}

/// The saturation of (r, g, b) is above `num / den`.
pub open spec fn sat_above(r: int, g: int, b: int, num: int, den: int) -> bool {
    let mx = max3(r, g, b);
    if mx == 0 {
        0 > num
    } else {
        (mx - min3(r, g, b)) * den > num * mx
    }
}

/// The value `max / 255` of (r, g, b) is below `num / den`.
pub open spec fn value_below(r: int, g: int, b: int, num: int, den: int) -> bool {
    max3(r, g, b) * den < num * 255
}

/// The value of (r, g, b) is above `num / den`.
pub open spec fn value_above(r: int, g: int, b: int, num: int, den: int) -> bool {
    max3(r, g, b) * den > num * 255
}

/// Whether the pixel (r, g, b) has the colour of `tgt`, judged on its hue
/// (degrees), saturation and value (both in [0, 1]):
/// skin: value ≥ 0.20, 0.08 ≤ saturation < 0.90, hue < 38 or > 322, and
/// r > 80, g > 40, b > 20, r > b, |r - g| > 10;
/// tennis ball: 45 ≤ hue ≤ 75, saturation > 0.35, value > 0.40;
/// orange ball: 10 ≤ hue ≤ 35, saturation > 0.50, value > 0.35.
pub open spec fn spec_matches_target(r: int, g: int, b: int, tgt: TrackTarget) -> bool {
    match tgt {
        TrackTarget::Skin => {
            &&& !(value_below(r, g, b, 20, 100) || sat_below(r, g, b, 8, 100))
            &&& (hue_below(r, g, b, 38) || hue_above(r, g, b, 322))
            &&& sat_below(r, g, b, 90, 100)
            &&& r > 80 && g > 40 && b > 20 && r > b
            &&& (r - g > 10 || g - r > 10)
        },
        TrackTarget::TennisBall => {
            &&& !hue_below(r, g, b, 45)
            &&& !hue_above(r, g, b, 75)
            &&& sat_above(r, g, b, 35, 100)
            &&& value_above(r, g, b, 40, 100)
        },
        TrackTarget::OrangeBall => {
            &&& !hue_below(r, g, b, 10)
            &&& !hue_above(r, g, b, 35)
            &&& sat_above(r, g, b, 50, 100)
            &&& value_above(r, g, b, 35, 100)
        },
    }
}

/// `hs / d < deg`, for a hue `hs / d` (0 when `d` is 0).
fn hue_lt(hs: i64, d: i64, deg: i64) -> (t: bool)
    requires
        0 <= d <= 255,
        0 <= deg <= 360,
    ensures
        t == if d == 0 {
            0 < deg
        } else {
            hs < deg * d
        },
{
    assert(deg * d <= 360 * 255) by (nonlinear_arith)
        requires
            0 <= d <= 255,
            0 <= deg <= 360,
    ;
    if d == 0 {
        0 < deg
    } else {
        hs < deg * d
    }
}

/// `hs / d > deg`, for a hue `hs / d` (0 when `d` is 0).
fn hue_gt(hs: i64, d: i64, deg: i64) -> (t: bool)
    requires
        0 <= d <= 255,
        0 <= deg <= 360,
    ensures
        t == if d == 0 {
            0 > deg
        } else {
            hs > deg * d
        },
{
    assert(deg * d <= 360 * 255) by (nonlinear_arith)
        requires
            0 <= d <= 255,
            0 <= deg <= 360,
    ;
    if d == 0 {
        0 > deg
    } else {
        hs > deg * d
    }
}

/// Whether the pixel (r, g, b) has the colour of `tgt` (see
/// `spec_matches_target`).
pub fn matches_target(r: u8, g: u8, b: u8, tgt: TrackTarget) -> (m: bool)
    ensures
        m == spec_matches_target(r as int, g as int, b as int, tgt),
{
    let (ri, gi, bi) = (r as i64, g as i64, b as i64);
    let mx: i64 = if ri >= gi && ri >= bi {
        ri
    } else if gi >= bi {
        gi
    } else {
        bi
    };
    let mn: i64 = if ri <= gi && ri <= bi {
        ri
    } else if gi <= bi {
        gi
    } else {
        bi
    };
    let d = mx - mn;
    // hue in degrees times the chroma `d`
    let hs: i64 = if d == 0 {
        0
    } else if mx == ri {
        if gi >= bi {
            60 * (gi - bi)
        } else {
            60 * (gi - bi + 6 * d)
        }
    } else if mx == gi {
        60 * (bi - ri + 2 * d)
    } else {
        60 * (ri - gi + 4 * d)
    };
    match tgt {
        TrackTarget::Skin => {
            if mx * 100 < 20 * 255 || (mx > 0 && d * 100 < 8 * mx) || mx == 0 {
                return false;
            }
            let warm = hue_lt(hs, d, 38) || hue_gt(hs, d, 322);
            let rgb_ok = ri > 80 && gi > 40 && bi > 20 && ri > bi && (ri - gi > 10 || gi - ri > 10);
            warm && d * 100 < 90 * mx && rgb_ok
        },
        TrackTarget::TennisBall => {
            !hue_lt(hs, d, 45) && !hue_gt(hs, d, 75) && mx > 0 && d * 100 > 35 * mx && mx * 100 > 40 * 255
        },
        TrackTarget::OrangeBall => {
            !hue_lt(hs, d, 10) && !hue_gt(hs, d, 35) && mx > 0 && d * 100 > 50 * mx && mx * 100 > 35 * 255
        },
    }
}

// ─── Frame processing ─────────────────────────────────────────────────────────

/// Byte `c` of pixel (x, y) of a row-major RGB frame `w` pixels wide.
pub open spec fn rgb_at(rgb: Seq<u8>, w: int, x: int, y: int, c: int) -> u8 {
    rgb[(y * w + x) * 3 + c]
}

/// Byte `c` of pixel (x, y) of a row-major RGBA frame `w` pixels wide.
pub open spec fn rgba_at(frame: Seq<u8>, w: int, x: int, y: int, c: int) -> u8 {
    frame[(y * w + x) * 4 + c]
}

/// Cell (cx, cy) of a row-major mask `mw` cells wide.
pub open spec fn cell_at(mask: Seq<bool>, mw: int, cx: int, cy: int) -> bool {
    mask[cy * mw + cx]
}

/// Mirrored column of the pixel that mask column `cx` samples in a frame
/// `w` pixels wide: the one whose unmirrored column is a multiple of `STEP`.
pub open spec fn sample_column(w: int, cx: int) -> int {
    4 * cx + (w - 1) % 4
}

/// Byte `i` of the mirrored RGBA copy of the RGB frame `rgb`, `w` pixels wide.
spec fn mirrored_byte(rgb: Seq<u8>, w: int, i: int) -> u8 {
    let p = i / 4;
    let c = i % 4;
    if c == 3 {
        255
    } else {
        rgb_at(rgb, w, w - 1 - p % w, p / w, c)
    }
}

/// Whether the pixel sampled by cell `i` of the mask (`mw` cells wide) of
/// the RGB frame `rgb`, `w` pixels wide, has the colour of `tgt`.
spec fn cell_hit(rgb: Seq<u8>, w: int, mw: int, tgt: TrackTarget, i: int) -> bool {
    let x = w - 1 - sample_column(w, i % mw);
    let y = 4 * (i / mw);
    spec_matches_target(
        rgb_at(rgb, w, x, y, 0) as int,
        rgb_at(rgb, w, x, y, 1) as int,
        rgb_at(rgb, w, x, y, 2) as int,
        tgt,
    )
}

proof fn lemma_grid_index(w: int, y: int, m: int)
    requires
        0 <= m < w,
        0 <= y,
    ensures
        (y * w + m) / w == y,
        (y * w + m) % w == m,
{
    lemma_fundamental_div_mod_converse(y * w + m, w, y, m);
}

proof fn lemma_byte_index(p: int, k: int, c: int)
    requires
        0 <= c < k,
        0 <= p,
    ensures
        (p * k + c) / k == p,
        (p * k + c) % k == c,
{
    lemma_fundamental_div_mod_converse(p * k + c, k, p, c);
}

proof fn lemma_below_area(w: int, h: int, x: int, y: int)
    requires
        0 <= x < w,
        0 <= y < h,
    ensures
        0 <= y * w + x < h * w,
        y * w + x + 1 <= h * w,
{
    assert(y * w + x < (y + 1) * w) by (nonlinear_arith)
        requires
            x < w,
    ;
    assert((y + 1) * w <= h * w) by (nonlinear_arith)
        requires
            y + 1 <= h,
            0 <= w,
    ;
    assert(0 <= y * w) by (nonlinear_arith)
        requires
            0 <= y,
            0 <= w,
    ;
}

/// What one camera frame gives: the mirrored RGBA image, the colour mask
/// and the blobs found on it.
pub struct TrackedFrame {
    /// RGBA, row-major, mirrored (flipped along X).
    pub frame: Vec<u8>,
    pub width: u32,
    pub height: u32,
    /// Up to two blobs, left to right.
    pub blobs: Vec<Blob>,
    /// One entry per `STEP` by `STEP` cell, row-major: whether its sampled
    /// pixel has the target colour.
    pub debug_mask: Vec<bool>,
    pub mask_w: u32,
    pub mask_h: u32,
}

/// Mirrored RGBA copy of the RGB frame `rgb` (`w` by `h`, row-major).
fn mirror_frame(rgb: &Vec<u8>, w: u32, h: u32) -> (frame: Vec<u8>)
    requires
        rgb.len() == w * h * 3,
        w * h * 4 <= u32::MAX,
    ensures
        frame.len() == w * h * 4,
        forall|x: int, y: int, c: int|
            0 <= x < w && 0 <= y < h && 0 <= c < 3 ==> rgba_at(frame@, w as int, w - 1 - x, y, c)
                == #[trigger] rgb_at(rgb@, w as int, x, y, c),
        forall|x: int, y: int|
            0 <= x < w && 0 <= y < h ==> #[trigger] rgba_at(frame@, w as int, x, y, 3) == 255,
{
    let ghost wi = w as int;
    let ghost hi = h as int;
    proof {
        assert(wi * hi <= u32::MAX) by (nonlinear_arith)
            requires
                wi * hi * 4 <= u32::MAX,
        ;
        assert(0 <= wi * hi) by (nonlinear_arith)
            requires
                0 <= wi,
                0 <= hi,
        ;
    }
    // ── Mirrored RGBA copy ──
    let mut frame: Vec<u8> = Vec::new();
    let mut y: u32 = 0;
    let mut row: usize = 0;
    while y < h
        invariant
            rgb.len() == wi * hi * 3,
            wi == w,
            hi == h,
            wi * hi <= u32::MAX,
            y <= h,
            row == y * wi,
            row <= wi * hi,
            frame.len() == row * 4,
            forall|i: int| 0 <= i < frame.len() ==> frame@[i] == mirrored_byte(rgb@, wi, i),
        decreases h - y,
    {
        let mut m: u32 = 0;
        while m < w
            invariant
                rgb.len() == wi * hi * 3,
                wi == w,
                hi == h,
                wi * hi <= u32::MAX,
                y < h,
                row == y * wi,
                m <= w,
                frame.len() == (row + m) * 4,
                forall|i: int| 0 <= i < frame.len() ==> frame@[i] == mirrored_byte(rgb@, wi, i),
            decreases w - m,
        {
            let x = w - 1 - m;
            proof {
                lemma_below_area(wi, hi, x as int, y as int);
                lemma_grid_index(wi, y as int, m as int);
            }
            let o = (row + x as usize) * 3;
            let ghost f0 = frame@;
            let ghost p = row + m;
            frame.push(rgb[o]);
            frame.push(rgb[o + 1]);
            frame.push(rgb[o + 2]);
            frame.push(255);
            proof {
                assert forall|i: int| 0 <= i < frame.len() implies frame@[i] == mirrored_byte(rgb@, wi, i) by {
                    if i >= f0.len() {
                        let c = i - p * 4;
                        lemma_byte_index(p, 4, c);
                        assert(i == p * 4 + c);
                    } else {
                        assert(frame@[i] == f0[i]);
                    }
                }
            }
            m = m + 1;
        }
        proof {
            assert(row + wi == (y + 1) * wi) by (nonlinear_arith)
                requires
                    row == y * wi,
            ;
            assert((y + 1) * wi <= hi * wi) by (nonlinear_arith)
                requires
                    y + 1 <= hi,
                    0 <= wi,
            ;
            assert(hi * wi == wi * hi) by (nonlinear_arith);
        }
        row = row + w as usize;
        y = y + 1;
    }
    proof {
        assert forall|x: int, y: int, c: int|
            0 <= x < w && 0 <= y < h && 0 <= c < 3 implies rgba_at(frame@, wi, w - 1 - x, y, c)
                == #[trigger] rgb_at(rgb@, wi, x, y, c) by {
            lemma_below_area(wi, hi, w - 1 - x, y);
            lemma_grid_index(wi, y, w - 1 - x);
            lemma_byte_index(y * wi + (w - 1 - x), 4, c);
        }
        assert forall|x: int, y: int|
            0 <= x < w && 0 <= y < h implies #[trigger] rgba_at(frame@, wi, x, y, 3) == 255 by {
            lemma_below_area(wi, hi, x, y);
            lemma_byte_index(y * wi + x, 4, 3);
        }
    }
    frame
}

/// The colour mask of the RGB frame `rgb` (`w` by `h`, row-major): one
/// entry per `STEP` by `STEP` cell, whether its sampled pixel has the colour
/// of `tgt`; and the mirrored positions of the matching samples.
fn sample_mask(rgb: &Vec<u8>, w: u32, h: u32, tgt: TrackTarget) -> (r: (Vec<bool>, Vec<(u32, u32)>))
    requires
        rgb.len() == w * h * 3,
        w * h * 4 <= u32::MAX,
        w + 3 <= u32::MAX,
        h + 3 <= u32::MAX,
    ensures
        r.0.len() == cells_across(w as int) * cells_across(h as int),
        cells_across(w as int) * cells_across(h as int) <= w * h,
        forall|cx: int, cy: int|
            0 <= cx < cells_across(w as int) && 0 <= cy < cells_across(h as int) ==> #[trigger] cell_at(
                r.0@,
                cells_across(w as int),
                cx,
                cy,
            ) == spec_matches_target(
                rgb_at(rgb@, w as int, w - 1 - sample_column(w as int, cx), 4 * cy, 0) as int,
                rgb_at(rgb@, w as int, w - 1 - sample_column(w as int, cx), 4 * cy, 1) as int,
                rgb_at(rgb@, w as int, w - 1 - sample_column(w as int, cx), 4 * cy, 2) as int,
                tgt,
            ),
        r.0@ == point_grid(r.1@, cells_across(w as int), cells_across(h as int)),
{
    let ghost wi = w as int;
    let ghost hi = h as int;
    proof {
        assert(wi * hi <= u32::MAX) by (nonlinear_arith)
            requires
                wi * hi * 4 <= u32::MAX,
        ;
        assert(0 <= wi * hi) by (nonlinear_arith)
            requires
                0 <= wi,
                0 <= hi,
        ;
    }
    // ── Colour mask, one sample per cell ──
    let mw: u32 = (w + (STEP - 1)) / STEP;
    let mh: u32 = (h + (STEP - 1)) / STEP;
    let ghost mwi = mw as int;
    let ghost mhi = mh as int;
    let r0: u32 = if w > 0 {
        (w - 1) % STEP
    } else {
        0
    };
    let mut mask: Vec<bool> = Vec::new();
    let mut pts: Vec<(u32, u32)> = Vec::new();
    let mut cy: u32 = 0;
    while cy < mh
        invariant
            rgb.len() == wi * hi * 3,
            wi == w,
            hi == h,
            wi * hi <= u32::MAX,
            mwi == mw,
            mhi == mh,
            mw == (w + 3) / 4,
            mh == (h + 3) / 4,
            w > 0 ==> r0 == (w - 1) % 4,
            cy <= mh,
            mask.len() == cy * mwi,
            forall|i: int| 0 <= i < mask.len() ==> mask@[i] == cell_hit(rgb@, wi, mwi, tgt, i),
            forall|k: int|
                0 <= k < pts.len() ==> 0 <= #[trigger] point_cell(pts@[k], mwi, mhi) < mask.len()
                    && mask@[point_cell(pts@[k], mwi, mhi)],
            forall|i: int|
                0 <= i < mask.len() && #[trigger] mask@[i] ==> exists|k: int|
                    0 <= k < pts.len() && #[trigger] point_cell(pts@[k], mwi, mhi) == i,
        decreases mh - cy,
    {
        let yy = cy * STEP;
        let mut cx: u32 = 0;
        while cx < mw
            invariant
                rgb.len() == wi * hi * 3,
                wi == w,
                hi == h,
                wi * hi <= u32::MAX,
                mwi == mw,
                mhi == mh,
                mw == (w + 3) / 4,
                mh == (h + 3) / 4,
                w > 0 ==> r0 == (w - 1) % 4,
                cy < mh,
                yy == 4 * cy,
                cx <= mw,
                mask.len() == cy * mwi + cx,
                forall|i: int| 0 <= i < mask.len() ==> mask@[i] == cell_hit(rgb@, wi, mwi, tgt, i),
                forall|k: int|
                    0 <= k < pts.len() ==> 0 <= #[trigger] point_cell(pts@[k], mwi, mhi) < mask.len()
                        && mask@[point_cell(pts@[k], mwi, mhi)],
                forall|i: int|
                    0 <= i < mask.len() && #[trigger] mask@[i] ==> exists|k: int|
                        0 <= k < pts.len() && #[trigger] point_cell(pts@[k], mwi, mhi) == i,
            decreases mw - cx,
        {
            let ghost i = mask.len() as int;
            assert(w > 0 && h > 0);
            let mxs = STEP * cx + r0;
            assert(mxs <= w - 1 && yy <= h - 1 && mxs / 4 == cx && yy / 4 == cy);
            let x = w - 1 - mxs;
            proof {
                lemma_below_area(wi, hi, x as int, yy as int);
                lemma_grid_index(mwi, cy as int, cx as int);
            }
            let o = ((yy as usize) * (w as usize) + x as usize) * 3;
            let hit = matches_target(rgb[o], rgb[o + 1], rgb[o + 2], tgt);
            let ghost m0 = mask@;
            let ghost p0 = pts@;
            mask.push(hit);
            if hit {
                pts.push((mxs, yy));
                assert(point_cell(pts@[p0.len() as int], mwi, mhi) == i);
            }
            proof {
                assert(mask@[i] == cell_hit(rgb@, wi, mwi, tgt, i));
                assert forall|k: int|
                    0 <= k < pts.len() implies 0 <= #[trigger] point_cell(pts@[k], mwi, mhi) < mask.len()
                        && mask@[point_cell(pts@[k], mwi, mhi)] by {
                    if k < p0.len() {
                        assert(pts@[k] == p0[k]);
                    }
                }
                assert forall|j: int|
                    0 <= j < mask.len() && #[trigger] mask@[j] implies exists|k: int|
                        0 <= k < pts.len() && #[trigger] point_cell(pts@[k], mwi, mhi) == j by {
                    if j < i {
                        assert(m0[j]);
                        let k = choose|k: int| 0 <= k < p0.len() && #[trigger] point_cell(p0[k], mwi, mhi) == j;
                        assert(pts@[k] == p0[k]);
                    } else {
                        assert(pts@[p0.len() as int] == (mxs, yy));
                    }
                }
            }
            cx = cx + 1;
        }
        proof {
            assert(cy * mwi + mwi == (cy + 1) * mwi) by (nonlinear_arith);
        }
        cy = cy + 1;
    }
    proof {
        assert(mhi * mwi == mwi * mhi) by (nonlinear_arith);
        assert(hi * wi == wi * hi) by (nonlinear_arith);
        let pg = point_grid(pts@, mwi, mhi);
        assert forall|c: int| 0 <= c < mask.len() implies mask@[c] == pg[c] by {
            if mask@[c] {
                let k = choose|k: int| 0 <= k < pts.len() && #[trigger] point_cell(pts@[k], mwi, mhi) == c;
            }
            if pg[c] {
                let k = choose|k: int| 0 <= k < pts.len() && #[trigger] point_cell(pts@[k], mwi, mhi) == c;
            }
        }
        assert(mask@ =~= pg);
    }
    proof {
        assert(mhi * mwi == mwi * mhi) by (nonlinear_arith);
        let pg = point_grid(pts@, mwi, mhi);
        assert forall|c: int| 0 <= c < mask.len() implies mask@[c] == pg[c] by {
            if mask@[c] {
                let k = choose|k: int| 0 <= k < pts.len() && #[trigger] point_cell(pts@[k], mwi, mhi) == c;
            }
            if pg[c] {
                let k = choose|k: int| 0 <= k < pts.len() && #[trigger] point_cell(pts@[k], mwi, mhi) == c;
            }
        }
        assert(mask@ =~= pg);
        assert(mwi <= wi && mhi <= hi);
        assert(mwi * mhi <= wi * hi) by (nonlinear_arith)
            requires
                0 <= mwi <= wi,
                0 <= mhi <= hi,
        ;
        assert forall|cx: int, cy: int|
            0 <= cx < mwi && 0 <= cy < mhi implies #[trigger] cell_at(mask@, mwi, cx, cy)
                == spec_matches_target(
                rgb_at(rgb@, wi, w - 1 - sample_column(wi, cx), 4 * cy, 0) as int,
                rgb_at(rgb@, wi, w - 1 - sample_column(wi, cx), 4 * cy, 1) as int,
                rgb_at(rgb@, wi, w - 1 - sample_column(wi, cx), 4 * cy, 2) as int,
                tgt,
            ) by {
            lemma_below_area(mwi, mhi, cx, cy);
            lemma_grid_index(mwi, cy, cx);
            let i = cy * mwi + cx;
            assert(i % mwi == cx && i / mwi == cy);
            assert(cell_at(mask@, mwi, cx, cy) == mask@[i]);
            assert(cell_hit(rgb@, wi, mwi, tgt, i) == spec_matches_target(
                rgb_at(rgb@, wi, w - 1 - sample_column(wi, cx), 4 * cy, 0) as int,
                rgb_at(rgb@, wi, w - 1 - sample_column(wi, cx), 4 * cy, 1) as int,
                rgb_at(rgb@, wi, w - 1 - sample_column(wi, cx), 4 * cy, 2) as int,
                tgt,
            ));
        }
    }
    (mask, pts)
}

/// Mirrors the RGB frame `rgb` (`w` by `h`, row-major) into RGBA, samples
/// one pixel per `STEP` by `STEP` cell against the colour of `tgt`, and
/// finds the blobs of matching cells.
pub fn process_frame(rgb: &Vec<u8>, w: u32, h: u32, tgt: TrackTarget) -> (t: TrackedFrame)
    requires
        rgb.len() == w * h * 3,
        w * h * 4 <= u32::MAX,
        w + 3 <= u32::MAX,
        h + 3 <= u32::MAX,
    ensures
        t.width == w,
        t.height == h,
        t.mask_w == cells_across(w as int),
        t.mask_h == cells_across(h as int),
        t.frame.len() == w * h * 4,
        forall|x: int, y: int, c: int|
            0 <= x < w && 0 <= y < h && 0 <= c < 3 ==> rgba_at(t.frame@, w as int, w - 1 - x, y, c)
                == #[trigger] rgb_at(rgb@, w as int, x, y, c),
        forall|x: int, y: int|
            0 <= x < w && 0 <= y < h ==> #[trigger] rgba_at(t.frame@, w as int, x, y, 3) == 255,
        t.debug_mask.len() == t.mask_w * t.mask_h,
        forall|cx: int, cy: int|
            0 <= cx < t.mask_w && 0 <= cy < t.mask_h ==> #[trigger] cell_at(
                t.debug_mask@,
                t.mask_w as int,
                cx,
                cy,
            ) == spec_matches_target(
                rgb_at(rgb@, w as int, w - 1 - sample_column(w as int, cx), 4 * cy, 0) as int,
                rgb_at(rgb@, w as int, w - 1 - sample_column(w as int, cx), 4 * cy, 1) as int,
                rgb_at(rgb@, w as int, w - 1 - sample_column(w as int, cx), 4 * cy, 2) as int,
                tgt,
            ),
        exists|comps: Seq<Seq<usize>>|
            is_component_decomposition(t.debug_mask@, t.mask_w as int, comps) && blob_selection(
                comps,
                t.mask_w as int,
                t.blobs@,
            ),
{
    let frame = mirror_frame(rgb, w, h);
    let (mask, pts) = sample_mask(rgb, w, h, tgt);
    let mw: u32 = (w + (STEP - 1)) / STEP;
    let mh: u32 = (h + (STEP - 1)) / STEP;
    assert((w as int) * (h as int) <= u32::MAX) by (nonlinear_arith)
        requires
            (w as int) * (h as int) * 4 <= u32::MAX,
    ;
    let blobs = find_blobs(&pts, w, h);
    let ghost pg = point_grid(pts@, mw as int, mh as int);
    let ghost comps = choose|comps: Seq<Seq<usize>>|
        is_component_decomposition(pg, mw as int, comps) && blob_selection(comps, mw as int, blobs@);
    let t = TrackedFrame {
        frame,
        width: w,
        height: h,
        blobs,
        debug_mask: mask,
        mask_w: mw,
        mask_h: mh,
    };
    assert(t.debug_mask@ == pg);
    assert(is_component_decomposition(t.debug_mask@, t.mask_w as int, comps) && blob_selection(
        comps,
        t.mask_w as int,
        t.blobs@,
    ));
    t
}

} // verus!
