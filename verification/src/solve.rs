//! The maze solver: exhaustive depth-first search over the grid, driven by an
//! explicit stack whose entries each carry their own copy of the path walked
//! so far.
//!
//! The search is modelled by the spec function [`solve_rec`], and the
//! executable [`solve_maze`] is proved to return exactly what the model says.
//! Since the model is a function of the grid view and the two endpoints
//! alone, solving the same concrete grid twice from the same endpoints is
//! guaranteed to produce the identical path and the identical marked grid.

use vstd::prelude::*;

use crate::grid::Cell;
use crate::grid::get_cell;
use crate::grid::grid_count;
use crate::grid::lemma_grid_count_update;
use crate::grid::grid_wf;
use crate::grid::gv;
use crate::grid::set_cell;
use std::collections::VecDeque;

verus! {

/// A frontier entry of the search model: a coordinate to explore, paired with
/// the path that led there (front = most recently visited cell).
pub type EntryS = ((usize, usize), Seq<(usize, usize)>);

/// `c` lies inside the grid `g`.
pub open spec fn in_bounds(g: Seq<Seq<Cell>>, c: (usize, usize)) -> bool {
    c.1 < g.len() && c.0 < g[c.1 as int].len()
}

/// Two coordinates are grid-adjacent: they differ by exactly one unit in
/// exactly one axis.
pub open spec fn adjacent(a: (usize, usize), b: (usize, usize)) -> bool {
    let dx = if a.0 >= b.0 { a.0 - b.0 } else { b.0 - a.0 };
    let dy = if a.1 >= b.1 { a.1 - b.1 } else { b.1 - a.1 };
    dx + dy == 1
}

/// The coordinate one unit away from `c` in direction `d`, as a pair of
/// unbounded integers. The solver tries directions in the fixed order
/// down, right, up, left.
pub open spec fn step(c: (usize, usize), d: int) -> (int, int) {
    if d == 0 {
        (c.0 as int, c.1 as int + 1)
    } else if d == 1 {
        (c.0 as int + 1, c.1 as int)
    } else if d == 2 {
        (c.0 as int, c.1 as int - 1)
    } else {
        (c.0 as int - 1, c.1 as int)
    }
}

/// The frontier entry (if any) obtained by stepping from `c` in direction `d`
/// with carried path `p2`: present exactly when the neighbor lies inside the
/// grid.
pub open spec fn nbr_entry(g: Seq<Seq<Cell>>, c: (usize, usize), p2: Seq<(usize, usize)>, d: int) -> Seq<EntryS> {
    let n = step(c, d);
    if 0 <= n.0 < g[0].len() && 0 <= n.1 < g.len() {
        seq![((n.0 as usize, n.1 as usize), p2)]
    } else {
        Seq::empty()
    }
}

/// The entries pushed onto the front of the stack when `c` is expanded.
/// The solver pushes directions down, right, up, left in turn onto the
/// front, so afterwards the front-to-back order is left, up, right, down.
pub open spec fn pushes(g: Seq<Seq<Cell>>, c: (usize, usize), p2: Seq<(usize, usize)>) -> Seq<EntryS> {
    nbr_entry(g, c, p2, 3) + nbr_entry(g, c, p2, 2) + nbr_entry(g, c, p2, 1) + nbr_entry(g, c, p2, 0)
}

/// The search model: one recursion per loop iteration of the solver.
/// Pops the front entry; a `Path` cell is marked `Visited` and either ends
/// the search (goal reached: the carried path, which excludes the goal cell,
/// is the answer) or has its four neighbors pushed; any other cell is
/// discarded. Returns the final grid and the found path, if any.
pub open spec fn solve_rec(g: Seq<Seq<Cell>>, stack: Seq<EntryS>, end: (usize, usize)) -> (Seq<
    Seq<Cell>,
>, Option<Seq<(usize, usize)>>)
    decreases grid_count(g, Cell::Path), stack.len(),
        via solve_rec_decreases
{
    if stack.len() == 0 {
        (g, None::<Seq<(usize, usize)>>)
    } else {
        let c = stack[0].0;
        let p = stack[0].1;
        if in_bounds(g, c) && g[c.1 as int][c.0 as int] == Cell::Path {
            let g2 = g.update(c.1 as int, g[c.1 as int].update(c.0 as int, Cell::Visited));
            if c == end {
                (g2, Some(p))
            } else {
                solve_rec(g2, pushes(g, c, seq![c] + p) + stack.drop_first(), end)
            }
        } else {
            solve_rec(g, stack.drop_first(), end)
        }
    }
}

#[via_fn]
proof fn solve_rec_decreases(g: Seq<Seq<Cell>>, stack: Seq<EntryS>, end: (usize, usize)) {
    if stack.len() > 0 {
        let c = stack[0].0;
        if in_bounds(g, c) && g[c.1 as int][c.0 as int] == Cell::Path {
            lemma_grid_count_update(g, c.0 as int, c.1 as int, Cell::Path, Cell::Visited);
        }
    }
}

/// Every cell of `p` is an in-bounds `Path` cell, and consecutive cells are
/// grid-adjacent.
pub open spec fn path_chain(g: Seq<Seq<Cell>>, p: Seq<(usize, usize)>) -> bool {
    &&& forall|i: int|
        0 <= i < p.len() ==> in_bounds(g, #[trigger] p[i]) && g[p[i].1 as int][p[i].0 as int]
            == Cell::Path
    &&& forall|i: int| 0 <= i < p.len() - 1 ==> adjacent(#[trigger] p[i], p[i + 1])
}

/// A chain of pairwise grid-adjacent `Path` cells leading from `a` to `b`.
pub open spec fn chain_connects(
    g: Seq<Seq<Cell>>,
    p: Seq<(usize, usize)>,
    a: (usize, usize),
    b: (usize, usize),
) -> bool {
    &&& p.len() > 0
    &&& p[0] == a
    &&& p[p.len() - 1] == b
    &&& path_chain(g, p)
}

/// `b` can be reached from `a` through grid-adjacent `Path` cells.
#[verifier::opaque]
pub open spec fn connected(g: Seq<Seq<Cell>>, a: (usize, usize), b: (usize, usize)) -> bool {
    exists|p: Seq<(usize, usize)>| chain_connects(g, p, a, b)
}

/// The initial frontier: the start cell with an empty carried path.
pub open spec fn init_stack(start: (usize, usize)) -> Seq<EntryS> {
    seq![(start, Seq::<(usize, usize)>::empty())]
}

/// `g` and `h` have the same dimensions.
pub open spec fn dims_eq(g: Seq<Seq<Cell>>, h: Seq<Seq<Cell>>) -> bool {
    g.len() == h.len() && forall|y: int| 0 <= y < g.len() ==> (#[trigger] g[y]).len() == h[y].len()
}

/// Every cell of `g1` is unchanged in `g2`, except that a `Path` cell may
/// have been marked `Visited`. This is the only change the solver makes.
pub open spec fn monotone_mark(g1: Seq<Seq<Cell>>, g2: Seq<Seq<Cell>>) -> bool {
    forall|x: int, y: int|
        0 <= y < g1.len() && 0 <= x < g1[y].len() ==> (#[trigger] g2[y][x] == g1[y][x] || (g1[y][x]
            == Cell::Path && g2[y][x] == Cell::Visited))
}

/// Every cell of `p` held `Path` in the grid `g0`.
pub open spec fn all_were_path(g0: Seq<Seq<Cell>>, p: Seq<(usize, usize)>) -> bool {
    forall|k: int|
        0 <= k < p.len() ==> g0[(#[trigger] p[k]).1 as int][p[k].0 as int] == Cell::Path
}

/// A valid carried path `p` for a frontier coordinate `c`: every cell of `p`
/// is an in-bounds `Visited` cell, consecutive cells are grid-adjacent, no
/// cell repeats, the back of `p` is the start cell, and the front of `p` is
/// adjacent to `c` (an empty `p` means `c` is the start itself).
pub open spec fn chain_ok(
    g: Seq<Seq<Cell>>,
    p: Seq<(usize, usize)>,
    c: (usize, usize),
    start: (usize, usize),
) -> bool {
    &&& forall|i: int|
        0 <= i < p.len() ==> in_bounds(g, #[trigger] p[i]) && g[p[i].1 as int][p[i].0 as int]
            == Cell::Visited
    &&& forall|i: int| 0 <= i < p.len() - 1 ==> adjacent(#[trigger] p[i], p[i + 1])
    &&& forall|i: int, j: int| 0 <= i < j < p.len() ==> p[i] != p[j]
    &&& (p.len() > 0 ==> p[p.len() - 1] == start && adjacent(c, p[0]))
    &&& (p.len() == 0 ==> c == start)
}

/// A valid carried path stays valid when further `Path` cells are marked
/// `Visited`.
proof fn lemma_chain_ok_mono(
    g1: Seq<Seq<Cell>>,
    g2: Seq<Seq<Cell>>,
    p: Seq<(usize, usize)>,
    c: (usize, usize),
    start: (usize, usize),
)
    requires
        chain_ok(g1, p, c, start),
        dims_eq(g1, g2),
        forall|x: int, y: int|
            0 <= y < g1.len() && 0 <= x < g1[y].len() && g1[y][x] == Cell::Visited ==> #[trigger] g2[y][x]
                == Cell::Visited,
    ensures
        chain_ok(g2, p, c, start),
{
    assert forall|i: int| 0 <= i < p.len() implies in_bounds(g2, #[trigger] p[i]) && g2[p[i].1 as int][p[i].0 as int]
        == Cell::Visited by {
        assert(in_bounds(g1, p[i]));
    }
}

/// Extending a valid carried path through the just-visited cell `c` gives a
/// valid carried path for any neighbor `n` of `c`.
proof fn lemma_chain_extend(
    g: Seq<Seq<Cell>>,
    g2: Seq<Seq<Cell>>,
    p: Seq<(usize, usize)>,
    c: (usize, usize),
    n: (usize, usize),
    start: (usize, usize),
)
    requires
        chain_ok(g, p, c, start),
        in_bounds(g, c),
        g[c.1 as int][c.0 as int] == Cell::Path,
        g2 == g.update(c.1 as int, g[c.1 as int].update(c.0 as int, Cell::Visited)),
        adjacent(n, c),
    ensures
        chain_ok(g2, seq![c] + p, n, start),
{
    let p2 = seq![c] + p;
    assert(p2[0] == c);
    assert(forall|i: int| 0 <= i < p.len() ==> p2[i + 1] == #[trigger] p[i]);
    assert(g2[c.1 as int][c.0 as int] == Cell::Visited);
    assert forall|i: int| 0 <= i < p2.len() implies in_bounds(g2, #[trigger] p2[i]) && g2[p2[i].1 as int][p2[i].0 as int]
        == Cell::Visited by {
        if i > 0 {
            assert(p2[i] == p[i - 1]);
            assert(g[p[i - 1].1 as int][p[i - 1].0 as int] == Cell::Visited);
            assert(p[i - 1] != c);
        }
    }
    assert forall|i: int, j: int| 0 <= i < j < p2.len() implies p2[i] != p2[j] by {
        if i == 0 {
            assert(g[p[j - 1].1 as int][p[j - 1].0 as int] == Cell::Visited);
        }
    }
    assert forall|i: int| 0 <= i < p2.len() - 1 implies adjacent(#[trigger] p2[i], p2[i + 1]) by {
        if i == 0 {
            assert(p.len() > 0 && p2[1] == p[0]);
        } else {
            assert(p2[i] == p[i - 1] && p2[i + 1] == p[i]);
        }
    }
    if p.len() == 0 {
        assert(p2[p2.len() - 1] == c && c == start);
    } else {
        assert(p2[p2.len() - 1] == p[p.len() - 1]);
    }
}

/// In a sequence that contains `c` there is a last occurrence of `c`.
proof fn lemma_last_occurrence(p: Seq<(usize, usize)>, c: (usize, usize)) -> (j: int)
    requires
        exists|k: int| 0 <= k < p.len() && p[k] == c,
    ensures
        0 <= j < p.len(),
        p[j] == c,
        forall|k: int| j < k < p.len() ==> p[k] != c,
    decreases p.len(),
{
    let k0 = choose|k: int| 0 <= k < p.len() && p[k] == c;
    if p[p.len() - 1] == c {
        p.len() - 1
    } else {
        assert(k0 < p.len() - 1);
        assert(p.drop_last()[k0] == c);
        let j = lemma_last_occurrence(p.drop_last(), c);
        assert(p[j] == p.drop_last()[j]);
        assert forall|k: int| j < k < p.len() implies p[k] != c by {
            if k < p.len() - 1 {
                assert(p[k] == p.drop_last()[k]);
            }
        }
        j
    }
}

/// Every in-bounds neighbor of an expanded cell appears among the entries
/// pushed for it.
proof fn lemma_pushes_has_neighbor(
    g: Seq<Seq<Cell>>,
    c: (usize, usize),
    p2: Seq<(usize, usize)>,
    n: (usize, usize),
)
    requires
        grid_wf(g),
        in_bounds(g, n),
        adjacent(c, n),
    ensures
        exists|m: int|
            0 <= m < pushes(g, c, p2).len() && (#[trigger] pushes(g, c, p2)[m]).0 == n,
{
    let a3 = nbr_entry(g, c, p2, 3);
    let a2 = nbr_entry(g, c, p2, 2);
    let a1 = nbr_entry(g, c, p2, 1);
    let ps = pushes(g, c, p2);
    assert(g[n.1 as int].len() == g[0].len());
    if n.0 == c.0 && n.1 as int == c.1 as int + 1 {
        let m = a3.len() + a2.len() + a1.len();
        assert(ps[m as int] == (n, p2));
        assert(0 <= m < ps.len() && ps[m as int].0 == n);
    } else if n.0 as int == c.0 as int + 1 && n.1 == c.1 {
        let m = a3.len() + a2.len();
        assert(ps[m as int] == (n, p2));
        assert(0 <= m < ps.len() && ps[m as int].0 == n);
    } else if n.0 == c.0 && n.1 as int == c.1 as int - 1 {
        let m = a3.len();
        assert(ps[m as int] == (n, p2));
        assert(0 <= m < ps.len() && ps[m as int].0 == n);
    } else {
        assert(n.0 as int == c.0 as int - 1 && n.1 == c.1);
        assert(ps[0] == (n, p2));
        assert(ps[0].0 == n);
    }
}

/// The search is exhaustive: as long as some frontier coordinate begins a
/// chain of `Path` cells ending at `end`, the search reports a solution.
/// Expanding a cell pushes every in-bounds neighbor, so the chain can always
/// be followed; marking cells `Visited` only shortens the chain that remains.
proof fn lemma_solve_complete(
    g: Seq<Seq<Cell>>,
    stack: Seq<EntryS>,
    end: (usize, usize),
    i: int,
    p: Seq<(usize, usize)>,
)
    requires
        grid_wf(g),
        0 <= i < stack.len(),
        chain_connects(g, p, stack[i].0, end),
    ensures
        solve_rec(g, stack, end).1 is Some,
    decreases grid_count(g, Cell::Path), stack.len(),
{
    let c = stack[0].0;
    let pp = stack[0].1;
    if in_bounds(g, c) && g[c.1 as int][c.0 as int] == Cell::Path {
        if c == end {
            assert(solve_rec(g, stack, end).1 == Some(pp));
        } else {
            let g2 = g.update(c.1 as int, g[c.1 as int].update(c.0 as int, Cell::Visited));
            let p2full = seq![c] + pp;
            let ps = pushes(g, c, p2full);
            let st2 = ps + stack.drop_first();
            lemma_grid_count_update(g, c.0 as int, c.1 as int, Cell::Path, Cell::Visited);
            assert(grid_wf(g2));
            if exists|k: int| 0 <= k < p.len() && p[k] == c {
                let j = lemma_last_occurrence(p, c);
                assert(p[p.len() - 1] == end);
                assert(j < p.len() - 1);
                let n = p[j + 1];
                assert(adjacent(p[j], p[j + 1]));
                assert(in_bounds(g, n));
                lemma_pushes_has_neighbor(g, c, p2full, n);
                let m = choose|m: int| 0 <= m < ps.len() && (#[trigger] ps[m]).0 == n;
                let q = p.subrange(j + 1, p.len() as int);
                assert(q[0] == n && q[q.len() - 1] == end);
                assert forall|k: int|
                    0 <= k < q.len() implies in_bounds(g2, #[trigger] q[k]) && g2[q[k].1 as int][q[k].0 as int]
                    == Cell::Path by {
                    assert(q[k] == p[j + 1 + k]);
                    assert(p[j + 1 + k] != c);
                }
                assert forall|k: int| 0 <= k < q.len() - 1 implies adjacent(
                    #[trigger] q[k],
                    q[k + 1],
                ) by {
                    assert(q[k] == p[j + 1 + k] && q[k + 1] == p[j + 1 + k + 1]);
                    assert(adjacent(p[j + 1 + k], p[j + 1 + k + 1]));
                }
                assert(st2[m] == ps[m]);
                assert(chain_connects(g2, q, st2[m].0, end));
                lemma_solve_complete(g2, st2, end, m, q);
            } else {
                if i == 0 {
                    assert(0 <= 0 < p.len() && p[0] == c);
                    assert(false);
                }
                let m = ps.len() + i - 1;
                assert(st2[m] == stack[i]);
                assert forall|k: int|
                    0 <= k < p.len() implies in_bounds(g2, #[trigger] p[k]) && g2[p[k].1 as int][p[k].0 as int]
                    == Cell::Path by {
                    assert(p[k] != c);
                }
                assert(chain_connects(g2, p, st2[m].0, end));
                lemma_solve_complete(g2, st2, end, m, p);
            }
            assert(solve_rec(g, stack, end) == solve_rec(g2, st2, end));
        }
    } else {
        if i == 0 {
            assert(in_bounds(g, p[0]) && g[p[0].1 as int][p[0].0 as int] == Cell::Path);
            assert(false);
        }
        assert(stack.drop_first()[i - 1] == stack[i]);
        lemma_solve_complete(g, stack.drop_first(), end, i - 1, p);
        assert(solve_rec(g, stack, end) == solve_rec(g, stack.drop_first(), end));
    }
}

/// Reachability: if a chain of `Path` cells joins `start` to `end`, the
/// search from `start` finds a solution.
pub proof fn lemma_solve_finds_connected(
    g: Seq<Seq<Cell>>,
    start: (usize, usize),
    end: (usize, usize),
)
    requires
        grid_wf(g),
        connected(g, start, end),
    ensures
        solve_rec(g, init_stack(start), end).1 is Some,
{
    reveal(connected);
    let p = choose|p: Seq<(usize, usize)>| chain_connects(g, p, start, end);
    assert(init_stack(start)[0].0 == start);
    lemma_solve_complete(g, init_stack(start), end, 0, p);
}

/// The model view of the executable frontier stack.
pub open spec fn stack_model(s: Seq<((usize, usize), VecDeque<(usize, usize)>)>) -> Seq<EntryS> {
    s.map_values(|e: ((usize, usize), VecDeque<(usize, usize)>)| (e.0, e.1@))
}

/// Copies a carried path so it can be handed to several frontier entries.
fn clone_path(p: &VecDeque<(usize, usize)>) -> (r: VecDeque<(usize, usize)>)
    ensures
        r@ == p@,
{
    let mut r: VecDeque<(usize, usize)> = VecDeque::new();
    let mut i: usize = 0;
    while i < p.len()
        invariant
            i <= p@.len(),
            r@ == p@.subrange(0, i as int),
        decreases p@.len() - i,
    {
        r.push_back(p[i]);
        i = i + 1;
        proof {
            assert(r@ =~= p@.subrange(0, i as int));
        }
    }
    proof {
        assert(r@ =~= p@);
    }
    r
}

/// Idempotent marking: on a grid whose start cell is no longer `Path` - for
/// example one already explored by an earlier run, whose cells are `Visited` -
/// the search discards the one initial frontier entry without expanding it,
/// changes no cell, and reports no solution. Re-running the solver never
/// revisits `Visited` cells.
pub proof fn lemma_solve_start_not_path(
    g: Seq<Seq<Cell>>,
    start: (usize, usize),
    end: (usize, usize),
)
    requires
        !(in_bounds(g, start) && g[start.1 as int][start.0 as int] == Cell::Path),
    ensures
        solve_rec(g, init_stack(start), end) == (g, None::<Seq<(usize, usize)>>),
{
    assert(init_stack(start).drop_first() =~= Seq::<EntryS>::empty());
    assert(solve_rec(g, Seq::<EntryS>::empty(), end) == (g, None::<Seq<(usize, usize)>>));
}

/// Overlays a found path onto the grid: every cell the path names becomes
/// `Solution`; every other cell is untouched.
pub fn overlay_solution(maze: &mut Vec<Vec<Cell>>, path: &VecDeque<(usize, usize)>)
    requires
        forall|i: int| 0 <= i < path@.len() ==> in_bounds(gv(old(maze)@), #[trigger] path@[i]),
    ensures
        dims_eq(gv(final(maze)@), gv(old(maze)@)),
        forall|x: usize, y: usize|
            y < gv(old(maze)@).len() && x < gv(old(maze)@)[y as int].len()
                ==> #[trigger] gv(final(maze)@)[y as int][x as int] == (if path@.contains((x, y)) {
                Cell::Solution
            } else {
                gv(old(maze)@)[y as int][x as int]
            }),
{
    let ghost g0 = gv(maze@);
    let mut i: usize = 0;
    while i < path.len()
        invariant
            g0 == gv(old(maze)@),
            i <= path@.len(),
            forall|k: int| 0 <= k < path@.len() ==> in_bounds(g0, #[trigger] path@[k]),
            dims_eq(gv(maze@), g0),
            forall|x: usize, y: usize|
                y < g0.len() && x < g0[y as int].len() ==> #[trigger] gv(maze@)[y as int][x as int]
                    == (if exists|j: int| 0 <= j < i && path@[j] == (x, y) {
                    Cell::Solution
                } else {
                    g0[y as int][x as int]
                }),
        decreases path@.len() - i,
    {
        let c = path[i];
        let ghost gb = gv(maze@);
        set_cell(maze, c.0, c.1, Cell::Solution);
        proof {
            assert forall|x: usize, y: usize|
                y < g0.len() && x < g0[y as int].len() implies #[trigger] gv(maze@)[y as int][x as int]
                == (if exists|j: int| 0 <= j < i + 1 && path@[j] == (x, y) {
                Cell::Solution
            } else {
                g0[y as int][x as int]
            }) by {
                if x == c.0 && y == c.1 {
                    assert(path@[i as int] == (x, y));
                    assert(gv(maze@)[y as int][x as int] == Cell::Solution);
                } else {
                    assert(gv(maze@)[y as int][x as int] == gb[y as int][x as int]);
                    assert forall|j: int| 0 <= j < i + 1 && path@[j] == (x, y) implies 0 <= j
                        < i by {
                        assert(path@[j] != c);
                    }
                }
            }
        }
        i = i + 1;
    }
}

/// Searches the grid for a route from `start` to `end` by depth-first
/// traversal, marking every explored `Path` cell `Visited` in place.
///
/// On success the returned deque is the route walked, front to back from the
/// cell just before `end` down to `start`, excluding `end` itself. The
/// result and the final grid are exactly what the model [`solve_rec`]
/// computes from the initial grid, so the search is deterministic: the same
/// grid and endpoints always give the same path and the same markings.
#[verifier::rlimit(100)]
pub fn solve_maze(maze: &mut Vec<Vec<Cell>>, start: (usize, usize), end: (usize, usize)) -> (r:
    Option<VecDeque<(usize, usize)>>)
    requires
        grid_wf(gv(old(maze)@)),
        in_bounds(gv(old(maze)@), start),
    ensures
        dims_eq(gv(final(maze)@), gv(old(maze)@)),
        monotone_mark(gv(old(maze)@), gv(final(maze)@)),
        gv(final(maze)@) == solve_rec(gv(old(maze)@), init_stack(start), end).0,
        (match r {
            Some(p) => solve_rec(gv(old(maze)@), init_stack(start), end).1 == Some(p@),
            None => solve_rec(gv(old(maze)@), init_stack(start), end).1 is None,
        }),
        (match r {
            Some(p) => {
                &&& gv(old(maze)@)[start.1 as int][start.0 as int] == Cell::Path
                &&& in_bounds(gv(old(maze)@), end)
                &&& chain_ok(gv(final(maze)@), p@, end, start)
                &&& all_were_path(gv(old(maze)@), p@)
                &&& forall|i: int| 0 <= i < p@.len() ==> #[trigger] p@[i] != end
                &&& (p@.len() == 0 <==> start == end)
                &&& gv(final(maze)@)[end.1 as int][end.0 as int] == Cell::Visited
            },
            None => true,
        }),
{
    let ghost g0 = gv(maze@);
    let ghost target = solve_rec(g0, init_stack(start), end);
    let height: usize = maze.len();
    let width: usize = maze[0].len();
    let mut stack: VecDeque<((usize, usize), VecDeque<(usize, usize)>)> = VecDeque::new();
    let empty_path: VecDeque<(usize, usize)> = VecDeque::new();
    stack.push_front((start, empty_path));
    proof {
        assert(stack_model(stack@) =~= init_stack(start));
    }
    loop
        invariant
            g0 == gv(old(maze)@),
            target == solve_rec(g0, init_stack(start), end),
            grid_wf(g0),
            in_bounds(g0, start),
            grid_wf(gv(maze@)),
            dims_eq(gv(maze@), g0),
            g0.len() == height && g0[0].len() == width,
            monotone_mark(g0, gv(maze@)),
            solve_rec(gv(maze@), stack_model(stack@), end) == target,
            forall|i: int|
                0 <= i < stack_model(stack@).len() ==> in_bounds(
                    gv(maze@),
                    (#[trigger] stack_model(stack@)[i]).0,
                ) && chain_ok(
                    gv(maze@),
                    stack_model(stack@)[i].1,
                    stack_model(stack@)[i].0,
                    start,
                ),
            forall|i: int|
                0 <= i < stack_model(stack@).len() ==> all_were_path(
                    g0,
                    (#[trigger] stack_model(stack@)[i]).1,
                ),
        decreases grid_count(gv(maze@), Cell::Path), stack@.len(),
    {
        let ghost gb = gv(maze@);
        let ghost sm0 = stack_model(stack@);
        match stack.pop_front() {
            None => {
                proof {
                    assert(sm0.len() == 0);
                    assert(solve_rec(gb, sm0, end) == (gb, None::<Seq<(usize, usize)>>));
                }
                return None;
            },
            Some(entry) => {
                let (cx, cy) = entry.0;
                let mut path = entry.1;
                let ghost p_pre = path@;
                proof {
                    assert(sm0[0] == (entry.0, p_pre));
                    assert(stack_model(stack@) =~= sm0.drop_first());
                }
                if get_cell(maze, cx, cy) == Cell::Path {
                    proof {
                        lemma_grid_count_update(gb, cx as int, cy as int, Cell::Path, Cell::Visited);
                    }
                    set_cell(maze, cx, cy, Cell::Visited);
                    let ghost g2 = gv(maze@);
                    path.push_front((cx, cy));
                    proof {
                        assert(path@ == seq![(cx, cy)] + p_pre);
                        assert forall|x: int, y: int|
                            0 <= y < gb.len() && 0 <= x < gb[y].len() && gb[y][x] == Cell::Visited
                                implies #[trigger] g2[y][x] == Cell::Visited by {}
                    }
                    if cx == end.0 && cy == end.1 {
                        let _dropped = path.pop_front();
                        proof {
                            assert(path@ =~= p_pre);
                            assert(solve_rec(gb, sm0, end) == (g2, Some(p_pre)));
                            // The start cell must have been `Path` initially:
                            // otherwise the model discards the lone initial
                            // entry and reports no solution.
                            if g0[start.1 as int][start.0 as int] != Cell::Path {
                                assert(init_stack(start).drop_first() =~= Seq::<EntryS>::empty());
                                assert(solve_rec(g0, Seq::<EntryS>::empty(), end) == (
                                    g0,
                                    None::<Seq<(usize, usize)>>,
                                ));
                                assert(target == (g0, None::<Seq<(usize, usize)>>));
                                assert(false);
                            }
                            lemma_chain_ok_mono(gb, g2, p_pre, (cx, cy), start);
                            assert forall|i: int| 0 <= i < p_pre.len() implies #[trigger] p_pre[i]
                                != end by {
                                assert(gb[p_pre[i].1 as int][p_pre[i].0 as int] == Cell::Visited);
                            }
                            if p_pre.len() > 0 {
                                assert(p_pre[p_pre.len() - 1] == start);
                                assert(start != end);
                            }
                        }
                        return Some(path);
                    }
                    let ghost p2 = path@;
                    proof {
                        assert(adjacent((cx, (cy + 1) as usize), (cx, cy)));
                        assert(adjacent(((cx + 1) as usize, cy), (cx, cy)));
                        if cy > 0 {
                            assert(adjacent((cx, (cy - 1) as usize), (cx, cy)));
                        }
                        if cx > 0 {
                            assert(adjacent(((cx - 1) as usize, cy), (cx, cy)));
                        }
                    }
                    if cy + 1 < height {
                        let e = ((cx, cy + 1), clone_path(&path));
                        stack.push_front(e);
                    }
                    if cx + 1 < width {
                        let e = ((cx + 1, cy), clone_path(&path));
                        stack.push_front(e);
                    }
                    if cy > 0 {
                        let e = ((cx, cy - 1), clone_path(&path));
                        stack.push_front(e);
                    }
                    if cx > 0 {
                        let e = ((cx - 1, cy), clone_path(&path));
                        stack.push_front(e);
                    }
                    proof {
                        assert(stack_model(stack@) =~= pushes(gb, (cx, cy), p2)
                            + sm0.drop_first());
                        assert(solve_rec(gb, sm0, end) == solve_rec(
                            g2,
                            pushes(gb, (cx, cy), p2) + sm0.drop_first(),
                            end,
                        ));
                        assert(g0[cy as int][cx as int] == Cell::Path);
                        assert forall|i: int|
                            0 <= i < stack_model(stack@).len() implies all_were_path(
                            g0,
                            (#[trigger] stack_model(stack@)[i]).1,
                        ) by {
                            let npushed = pushes(gb, (cx, cy), p2).len() as int;
                            if i < npushed {
                                assert(stack_model(stack@)[i].1 == p2);
                                assert(all_were_path(g0, p_pre));
                                assert forall|k: int|
                                    0 <= k < p2.len() implies g0[(#[trigger] p2[k]).1 as int][p2[k].0 as int]
                                    == Cell::Path by {
                                    if k == 0 {
                                        assert(p2[0] == (cx, cy));
                                    } else {
                                        assert(p2[k] == p_pre[k - 1]);
                                    }
                                }
                            } else {
                                assert(stack_model(stack@)[i] == sm0[i - npushed + 1]);
                            }
                        }
                        assert forall|i: int| 0 <= i < stack_model(stack@).len() implies in_bounds(
                            gv(maze@),
                            (#[trigger] stack_model(stack@)[i]).0,
                        ) && chain_ok(
                            gv(maze@),
                            stack_model(stack@)[i].1,
                            stack_model(stack@)[i].0,
                            start,
                        ) by {
                            let npushed = pushes(gb, (cx, cy), p2).len() as int;
                            if i < npushed {
                                let e = stack_model(stack@)[i];
                                assert(e.1 == p2);
                                assert(adjacent(e.0, (cx, cy)));
                                lemma_chain_extend(gb, g2, p_pre, (cx, cy), e.0, start);
                            } else {
                                let e = sm0[i - npushed + 1];
                                assert(stack_model(stack@)[i] == e);
                                lemma_chain_ok_mono(gb, g2, e.1, e.0, start);
                            }
                        }
                    }
                } else {
                    proof {
                        assert(solve_rec(gb, sm0, end) == solve_rec(gb, sm0.drop_first(), end));
                    }
                }
            },
        }
    }
}

} // verus!
