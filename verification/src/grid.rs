//! The shared grid model: a rectangular array of cell states, addressed by
//! `(x, y)` with `x` the column and `y` the row.

use vstd::prelude::*;

verus! {

/// One cell of the maze grid.
///
/// In normal operation a cell only moves forward through these states:
/// `Wall` to `Path` during generation, `Path` to `Visited` during solving,
/// and `Path` or `Visited` to `Solution` when a found path is overlaid.
#[derive(Clone, Copy, PartialEq, Eq, Structural, Debug)]
pub enum Cell {
    Wall,
    Path,
    Visited,
    Solution,
}

/// The mathematical view of a grid: a sequence of rows, each a sequence of
/// cells. `gv(m)[y][x]` is the cell in column `x` of row `y`.
pub open spec fn gv(m: Seq<Vec<Cell>>) -> Seq<Seq<Cell>> {
    m.map_values(|r: Vec<Cell>| r@)
}

/// A well-formed grid is non-empty and rectangular: `height` rows of
/// `width` cells each.
pub open spec fn grid_wf(g: Seq<Seq<Cell>>) -> bool {
    &&& g.len() > 0
    &&& g[0].len() > 0
    &&& forall|y: int| 0 <= y < g.len() ==> (#[trigger] g[y]).len() == g[0].len()
}

/// How many cells of the row hold state `c`.
pub open spec fn row_count(r: Seq<Cell>, c: Cell) -> nat
    decreases r.len(),
{
    if r.len() == 0 {
        0
    } else {
        row_count(r.drop_last(), c) + (if r.last() == c {
            1nat
        } else {
            0nat
        })
    }
}

/// How many cells of the grid hold state `c`.
pub open spec fn grid_count(g: Seq<Seq<Cell>>, c: Cell) -> nat
    decreases g.len(),
{
    if g.len() == 0 {
        0
    } else {
        grid_count(g.drop_last(), c) + row_count(g.last(), c)
    }
}

proof fn lemma_row_count_update(r: Seq<Cell>, x: int, c: Cell, v: Cell)
    requires
        0 <= x < r.len(),
        r[x] == c,
        v != c,
    ensures
        row_count(r.update(x, v), c) + 1 == row_count(r, c),
    decreases r.len(),
{
    let r2 = r.update(x, v);
    if x == r.len() - 1 {
        assert(r2.drop_last() =~= r.drop_last());
    } else {
        assert(r2.drop_last() =~= r.drop_last().update(x, v));
        assert(r2.last() == r.last());
        lemma_row_count_update(r.drop_last(), x, c, v);
    }
}

/// Overwriting a cell that holds state `c` with a different state lowers the
/// count of `c`-cells by exactly one.
pub proof fn lemma_grid_count_update(g: Seq<Seq<Cell>>, x: int, y: int, c: Cell, v: Cell)
    requires
        0 <= y < g.len(),
        0 <= x < g[y].len(),
        g[y][x] == c,
        v != c,
    ensures
        grid_count(g.update(y, g[y].update(x, v)), c) + 1 == grid_count(g, c),
    decreases g.len(),
{
    let g2 = g.update(y, g[y].update(x, v));
    if y == g.len() - 1 {
        assert(g2.drop_last() =~= g.drop_last());
        assert(g2.last() == g[y].update(x, v));
        lemma_row_count_update(g[y], x, c, v);
    } else {
        assert(g2.drop_last() =~= g.drop_last().update(y, g[y].update(x, v)));
        assert(g2.last() == g.last());
        lemma_grid_count_update(g.drop_last(), x, y, c, v);
    }
}

/// 1 when both cells are `Path` - an adjacency edge between them.
pub open spec fn pair_ind(a: Cell, b: Cell) -> nat {
    if a == Cell::Path && b == Cell::Path {
        1
    } else {
        0
    }
}

/// Number of horizontally adjacent `Path` pairs within a row.
pub open spec fn row_pairs(r: Seq<Cell>) -> nat
    decreases r.len(),
{
    if r.len() < 2 {
        0
    } else {
        row_pairs(r.drop_last()) + pair_ind(r[r.len() - 2], r[r.len() - 1])
    }
}

/// Number of vertically adjacent `Path` pairs between two rows of equal
/// length.
pub open spec fn col_pairs(a: Seq<Cell>, b: Seq<Cell>) -> nat
    decreases a.len(),
{
    if a.len() == 0 || b.len() == 0 {
        0
    } else {
        col_pairs(a.drop_last(), b.drop_last()) + pair_ind(a[a.len() - 1], b[b.len() - 1])
    }
}

pub open spec fn grid_h_pairs(g: Seq<Seq<Cell>>) -> nat
    decreases g.len(),
{
    if g.len() == 0 {
        0
    } else {
        grid_h_pairs(g.drop_last()) + row_pairs(g.last())
    }
}

pub open spec fn grid_v_pairs(g: Seq<Seq<Cell>>) -> nat
    decreases g.len(),
{
    if g.len() < 2 {
        0
    } else {
        grid_v_pairs(g.drop_last()) + col_pairs(g[g.len() - 2], g[g.len() - 1])
    }
}

/// Number of adjacency edges between `Path` cells of the grid.
pub open spec fn edge_count(g: Seq<Seq<Cell>>) -> nat {
    grid_h_pairs(g) + grid_v_pairs(g)
}

/// Number of `Path` cells among the four neighbors of `(x, y)`.
pub open spec fn nbr_path_count(g: Seq<Seq<Cell>>, x: int, y: int) -> nat {
    (if x > 0 && g[y][x - 1] == Cell::Path {
        1nat
    } else {
        0nat
    }) + (if x < g[y].len() - 1 && g[y][x + 1] == Cell::Path {
        1nat
    } else {
        0nat
    }) + (if y > 0 && g[y - 1][x] == Cell::Path {
        1nat
    } else {
        0nat
    }) + (if y < g.len() - 1 && g[y + 1][x] == Cell::Path {
        1nat
    } else {
        0nat
    })
}

proof fn lemma_row_pairs_update(r: Seq<Cell>, x: int)
    requires
        0 <= x < r.len(),
        r[x] != Cell::Path,
    ensures
        row_pairs(r.update(x, Cell::Path)) == row_pairs(r) + (if x > 0 && r[x - 1] == Cell::Path {
            1nat
        } else {
            0nat
        }) + (if x < r.len() - 1 && r[x + 1] == Cell::Path {
            1nat
        } else {
            0nat
        }),
    decreases r.len(),
{
    let r2 = r.update(x, Cell::Path);
    if r.len() < 2 {
    } else if x == r.len() - 1 {
        assert(r2.drop_last() =~= r.drop_last());
    } else {
        assert(r2.drop_last() =~= r.drop_last().update(x, Cell::Path));
        lemma_row_pairs_update(r.drop_last(), x);
    }
}

proof fn lemma_col_pairs_update_a(a: Seq<Cell>, b: Seq<Cell>, x: int)
    requires
        a.len() == b.len(),
        0 <= x < a.len(),
        a[x] != Cell::Path,
    ensures
        col_pairs(a.update(x, Cell::Path), b) == col_pairs(a, b) + (if b[x] == Cell::Path {
            1nat
        } else {
            0nat
        }),
    decreases a.len(),
{
    let a2 = a.update(x, Cell::Path);
    if x == a.len() - 1 {
        assert(a2.drop_last() =~= a.drop_last());
    } else {
        assert(a2.drop_last() =~= a.drop_last().update(x, Cell::Path));
        lemma_col_pairs_update_a(a.drop_last(), b.drop_last(), x);
    }
}

proof fn lemma_col_pairs_update_b(a: Seq<Cell>, b: Seq<Cell>, x: int)
    requires
        a.len() == b.len(),
        0 <= x < b.len(),
        b[x] != Cell::Path,
    ensures
        col_pairs(a, b.update(x, Cell::Path)) == col_pairs(a, b) + (if a[x] == Cell::Path {
            1nat
        } else {
            0nat
        }),
    decreases a.len(),
{
    let b2 = b.update(x, Cell::Path);
    if x == a.len() - 1 {
        assert(b2.drop_last() =~= b.drop_last());
    } else {
        assert(b2.drop_last() =~= b.drop_last().update(x, Cell::Path));
        lemma_col_pairs_update_b(a.drop_last(), b.drop_last(), x);
    }
}

proof fn lemma_grid_h_pairs_update(g: Seq<Seq<Cell>>, y: int, r2: Seq<Cell>)
    requires
        0 <= y < g.len(),
    ensures
        grid_h_pairs(g.update(y, r2)) + row_pairs(g[y]) == grid_h_pairs(g) + row_pairs(r2),
    decreases g.len(),
{
    let g2 = g.update(y, r2);
    if y == g.len() - 1 {
        assert(g2.drop_last() =~= g.drop_last());
    } else {
        assert(g2.drop_last() =~= g.drop_last().update(y, r2));
        lemma_grid_h_pairs_update(g.drop_last(), y, r2);
    }
}

proof fn lemma_grid_v_pairs_update(g: Seq<Seq<Cell>>, y: int, r2: Seq<Cell>)
    requires
        0 <= y < g.len(),
    ensures
        grid_v_pairs(g.update(y, r2)) + (if y > 0 {
            col_pairs(g[y - 1], g[y])
        } else {
            0nat
        }) + (if y < g.len() - 1 {
            col_pairs(g[y], g[y + 1])
        } else {
            0nat
        }) == grid_v_pairs(g) + (if y > 0 {
            col_pairs(g[y - 1], r2)
        } else {
            0nat
        }) + (if y < g.len() - 1 {
            col_pairs(r2, g[y + 1])
        } else {
            0nat
        }),
    decreases g.len(),
{
    let g2 = g.update(y, r2);
    if g.len() < 2 {
    } else if y == g.len() - 1 {
        assert(g2.drop_last() =~= g.drop_last());
        assert(g2[g.len() - 2] == g[g.len() - 2]);
    } else if y == g.len() - 2 {
        assert(g2.drop_last() =~= g.drop_last().update(y, r2));
        lemma_grid_v_pairs_update(g.drop_last(), y, r2);
        assert(g2[g.len() - 2] == r2 && g2[g.len() - 1] == g[g.len() - 1]);
    } else {
        assert(g2.drop_last() =~= g.drop_last().update(y, r2));
        lemma_grid_v_pairs_update(g.drop_last(), y, r2);
        assert(g2[g.len() - 2] == g[g.len() - 2] && g2[g.len() - 1] == g[g.len() - 1]);
    }
}

/// Carving a cell to `Path` adds exactly one adjacency edge per `Path`
/// neighbor it already has.
pub proof fn lemma_edge_count_carve(g: Seq<Seq<Cell>>, x: int, y: int)
    requires
        g.len() > 0,
        forall|yy: int| 0 <= yy < g.len() ==> (#[trigger] g[yy]).len() == g[0].len(),
        0 <= y < g.len(),
        0 <= x < g[0].len(),
        g[y][x] != Cell::Path,
    ensures
        edge_count(g.update(y, g[y].update(x, Cell::Path))) == edge_count(g) + nbr_path_count(
            g,
            x,
            y,
        ),
{
    let r2 = g[y].update(x, Cell::Path);
    lemma_row_pairs_update(g[y], x);
    lemma_grid_h_pairs_update(g, y, r2);
    lemma_grid_v_pairs_update(g, y, r2);
    if y > 0 {
        lemma_col_pairs_update_b(g[y - 1], g[y], x);
    }
    if y < g.len() - 1 {
        lemma_col_pairs_update_a(g[y], g[y + 1], x);
    }
}

proof fn lemma_row_count_add(r: Seq<Cell>, x: int, c: Cell)
    requires
        0 <= x < r.len(),
        r[x] != c,
    ensures
        row_count(r.update(x, c), c) == row_count(r, c) + 1,
    decreases r.len(),
{
    let r2 = r.update(x, c);
    if x == r.len() - 1 {
        assert(r2.drop_last() =~= r.drop_last());
    } else {
        assert(r2.drop_last() =~= r.drop_last().update(x, c));
        lemma_row_count_add(r.drop_last(), x, c);
    }
}

/// Overwriting a cell that does not hold state `c` with `c` raises the count
/// of `c`-cells by exactly one.
pub proof fn lemma_grid_count_add(g: Seq<Seq<Cell>>, x: int, y: int, c: Cell)
    requires
        0 <= y < g.len(),
        0 <= x < g[y].len(),
        g[y][x] != c,
    ensures
        grid_count(g.update(y, g[y].update(x, c)), c) == grid_count(g, c) + 1,
    decreases g.len(),
{
    let g2 = g.update(y, g[y].update(x, c));
    if y == g.len() - 1 {
        assert(g2.drop_last() =~= g.drop_last());
        lemma_row_count_add(g[y], x, c);
    } else {
        assert(g2.drop_last() =~= g.drop_last().update(y, g[y].update(x, c)));
        assert(g2.last() == g.last());
        lemma_grid_count_add(g.drop_last(), x, y, c);
    }
}

proof fn lemma_row_all_wall(r: Seq<Cell>)
    requires
        forall|i: int| 0 <= i < r.len() ==> #[trigger] r[i] == Cell::Wall,
    ensures
        row_count(r, Cell::Path) == 0,
        row_pairs(r) == 0,
    decreases r.len(),
{
    if r.len() > 0 {
        lemma_row_all_wall(r.drop_last());
    }
}

proof fn lemma_col_pairs_wall(a: Seq<Cell>, b: Seq<Cell>)
    requires
        forall|i: int| 0 <= i < a.len() ==> #[trigger] a[i] == Cell::Wall,
    ensures
        col_pairs(a, b) == 0,
    decreases a.len(),
{
    if a.len() > 0 && b.len() > 0 {
        lemma_col_pairs_wall(a.drop_last(), b.drop_last());
    }
}

/// An all-wall grid has no `Path` cells and no adjacency edges.
pub proof fn lemma_all_wall_counts(g: Seq<Seq<Cell>>)
    requires
        forall|yy: int, xx: int|
            0 <= yy < g.len() && 0 <= xx < g[yy].len() ==> #[trigger] g[yy][xx] == Cell::Wall,
    ensures
        grid_count(g, Cell::Path) == 0,
        edge_count(g) == 0,
    decreases g.len(),
{
    if g.len() > 0 {
        assert forall|yy: int, xx: int|
            0 <= yy < g.drop_last().len() && 0 <= xx < g.drop_last()[yy].len() implies #[trigger] g.drop_last()[yy][xx]
            == Cell::Wall by {
            assert(g.drop_last()[yy] == g[yy]);
        }
        lemma_all_wall_counts(g.drop_last());
        assert forall|i: int| 0 <= i < g.last().len() implies #[trigger] g.last()[i]
            == Cell::Wall by {
            assert(g.last() == g[g.len() - 1]);
        }
        lemma_row_all_wall(g.last());
        if g.len() >= 2 {
            assert forall|i: int| 0 <= i < g[g.len() - 2].len() implies #[trigger] g[g.len() - 2][i]
                == Cell::Wall by {}
            lemma_col_pairs_wall(g[g.len() - 2], g[g.len() - 1]);
        }
    }
}

/// Reads the cell in column `x` of row `y`.
pub fn get_cell(maze: &Vec<Vec<Cell>>, x: usize, y: usize) -> (c: Cell)
    requires
        y < maze@.len(),
        x < gv(maze@)[y as int].len(),
    ensures
        c == gv(maze@)[y as int][x as int],
{
    maze[y][x]
}

/// Writes `v` into the cell in column `x` of row `y`.
pub fn set_cell(maze: &mut Vec<Vec<Cell>>, x: usize, y: usize, v: Cell)
    requires
        y < old(maze)@.len(),
        x < gv(old(maze)@)[y as int].len(),
    ensures
        gv(final(maze)@) == gv(old(maze)@).update(
            y as int,
            gv(old(maze)@)[y as int].update(x as int, v),
        ),
        final(maze)@.len() == old(maze)@.len(),
{
    let ghost old_g = gv(maze@);
    maze[y][x] = v;
    proof {
        assert(gv(maze@) =~= old_g.update(y as int, old_g[y as int].update(x as int, v)));
    }
}

} // verus!
