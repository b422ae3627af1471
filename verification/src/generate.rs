//! The maze generator: randomized recursive-backtracking carving over the
//! odd-coordinate lattice of an all-wall grid, with the recursion expressed
//! as an explicit stack of frames so the depth is bounded deterministically.
//!
//! The randomness is confined to one place: each carving step asks a seeded
//! generator for a fresh random ordering of the four lattice directions.
//! Everything the carving does with that ordering is verified for every
//! permutation the generator could hand back.

use vstd::prelude::*;

use crate::grid::Cell;
use crate::grid::edge_count;
use crate::grid::get_cell;
use crate::grid::grid_count;
use crate::grid::grid_wf;
use crate::grid::gv;
use crate::grid::lemma_all_wall_counts;
use crate::grid::lemma_edge_count_carve;
use crate::grid::lemma_grid_count_add;
use crate::grid::lemma_grid_count_update;
use crate::grid::nbr_path_count;
use crate::grid::set_cell;
use crate::solve::adjacent;
use crate::solve::chain_connects;
use crate::solve::connected;
use crate::solve::in_bounds;
use crate::solve::init_stack;
use crate::solve::lemma_solve_finds_connected;
use crate::solve::solve_rec;

verus! {

/// Carving more cells never disconnects anything: a chain of `Path` cells
/// stays a chain when further `Wall` cells become `Path`.
proof fn lemma_connected_mono(
    g1: Seq<Seq<Cell>>,
    g2: Seq<Seq<Cell>>,
    a: (usize, usize),
    b: (usize, usize),
)
    requires
        connected(g1, a, b),
        g1.len() == g2.len(),
        forall|y: int| 0 <= y < g1.len() ==> (#[trigger] g2[y]).len() == g1[y].len(),
        monotone_carve(g1, g2),
    ensures
        connected(g2, a, b),
{
    reveal(connected);
    let p = choose|p: Seq<(usize, usize)>| chain_connects(g1, p, a, b);
    assert forall|i: int| 0 <= i < p.len() implies in_bounds(g2, #[trigger] p[i]) && g2[p[i].1 as int][p[i].0 as int]
        == Cell::Path by {
        assert(in_bounds(g1, p[i]));
    }
    assert(chain_connects(g2, p, a, b));
}

#[verifier::external_type_specification]
#[verifier::external_body]
pub struct ExStdRng(rand::rngs::StdRng);

/// Relies on rand::SeedableRng::seed_from_u64: builds a `StdRng` whose
/// stream of values is determined by the seed for the life of the process.
#[verifier::external_body]
fn rng_from_seed(seed: u64) -> (r: rand::rngs::StdRng) {
    <rand::rngs::StdRng as rand::SeedableRng>::seed_from_u64(seed)
}

/// Relies on rand::thread_rng and rand::Rng::gen to draw an arbitrary seed.
/// Nothing is promised of the value.
#[verifier::external_body]
fn random_seed() -> (r: u64) {
    rand::Rng::gen(&mut rand::thread_rng())
}

/// Relies on rand::seq::SliceRandom::shuffle (a Fisher-Yates swap pass):
/// it permutes the slice in place, so exactly the original elements remain,
/// in some order that depends on the generator's state.
#[verifier::external_body]
fn shuffle_dirs(rng: &mut rand::rngs::StdRng, dirs: &mut Vec<u8>)
    ensures
        final(dirs)@.to_multiset() == old(dirs)@.to_multiset(),
{
    rand::seq::SliceRandom::shuffle(dirs.as_mut_slice(), rng)
}

/// Builds the four lattice-step direction indices (0 two up, 1 two down,
/// 2 two left, 3 two right) in a uniformly random order.
fn shuffled_dirs(rng: &mut rand::rngs::StdRng) -> (r: Vec<u8>)
    ensures
        r@.len() == 4,
        forall|i: int| 0 <= i < r@.len() ==> #[trigger] r@[i] < 4,
        forall|d: u8| d < 4 ==> r@.contains(d),
{
    let mut dirs: Vec<u8> = Vec::new();
    dirs.push(0);
    dirs.push(1);
    dirs.push(2);
    dirs.push(3);
    let ghost base = dirs@;
    proof {
        assert(base =~= seq![0u8, 1u8, 2u8, 3u8]);
    }
    shuffle_dirs(rng, &mut dirs);
    proof {
        base.to_multiset_ensures();
        dirs@.to_multiset_ensures();
        assert(dirs@.len() == 4);
        assert forall|i: int| 0 <= i < dirs@.len() implies #[trigger] dirs@[i] < 4 by {
            assert(dirs@.contains(dirs@[i]));
            assert(dirs@.to_multiset().count(dirs@[i]) > 0);
            assert(base.contains(dirs@[i]));
            let j = choose|j: int| 0 <= j < base.len() && base[j] == dirs@[i];
            assert(base[j] < 4);
        }
        assert forall|d: u8| d < 4 implies dirs@.contains(d) by {
            assert(base[d as int] == d);
            assert(base.contains(d));
            assert(base.to_multiset().count(d) > 0);
            assert(dirs@.to_multiset().count(d) > 0);
        }
    }
    dirs
}

/// One pending carving frame: the lattice cell `(x, y)`, the random order in
/// which its four directions are tried, and how many have been tried so far.
pub struct Frame {
    pub x: usize,
    pub y: usize,
    pub dirs: Vec<u8>,
    pub next: usize,
}

/// How many directions of the frame are still to be tried.
pub open spec fn frame_rem(f: Frame) -> nat {
    if f.next < f.dirs@.len() {
        (f.dirs@.len() - f.next) as nat
    } else {
        0
    }
}

/// How many directions of all pending frames are still to be tried.
pub open spec fn frames_remaining(s: Seq<Frame>) -> nat
    decreases s.len(),
{
    if s.len() == 0 {
        0
    } else {
        frames_remaining(s.drop_last()) + frame_rem(s.last())
    }
}

/// A frame anchors carving at an interior lattice cell: both coordinates odd
/// and strictly inside the one-cell wall border.
pub open spec fn frame_ok(f: Frame, width: int, height: int) -> bool {
    &&& 1 <= f.x < width - 1
    &&& 1 <= f.y < height - 1
    &&& f.x % 2 == 1
    &&& f.y % 2 == 1
    &&& f.dirs@.len() == 4
    &&& forall|i: int| 0 <= i < f.dirs@.len() ==> #[trigger] f.dirs@[i] < 4
    &&& forall|d: u8| d < 4 ==> f.dirs@.contains(d)
}

/// The lattice neighbor of `(x, y)` two steps away in direction `d` (0 two
/// up, 1 two down, 2 two left, 3 two right), where it lies in the interior,
/// has been carved.
#[verifier::opaque]
pub open spec fn dir_done(g: Seq<Seq<Cell>>, x: int, y: int, d: int, width: int, height: int) -> bool {
    if d == 0 {
        y - 2 >= 1 ==> g[y - 2][x] == Cell::Path
    } else if d == 1 {
        y + 2 <= height - 2 ==> g[y + 2][x] == Cell::Path
    } else if d == 2 {
        x - 2 >= 1 ==> g[y][x - 2] == Cell::Path
    } else {
        x + 2 <= width - 2 ==> g[y][x + 2] == Cell::Path
    }
}

/// The lattice cell `(x, y)` is fully expanded: each of its four lattice
/// neighbors that lies in the interior has been carved. Carving leaves no
/// reachable lattice cell with an uncarved interior lattice neighbor.
#[verifier::opaque]
pub open spec fn lattice_closed(g: Seq<Seq<Cell>>, x: int, y: int, width: int, height: int) -> bool {
    &&& (y - 2 >= 1 ==> g[y - 2][x] == Cell::Path)
    &&& (y + 2 <= height - 2 ==> g[y + 2][x] == Cell::Path)
    &&& (x - 2 >= 1 ==> g[y][x - 2] == Cell::Path)
    &&& (x + 2 <= width - 2 ==> g[y][x + 2] == Cell::Path)
}

/// Every direction the frame has already tried is done: the lattice neighbor
/// there, if interior, is carved.
pub open spec fn tried_ok(g: Seq<Seq<Cell>>, f: Frame, width: int, height: int) -> bool {
    forall|j: int|
        0 <= j < f.next && j < f.dirs@.len() ==> dir_done(
            g,
            f.x as int,
            f.y as int,
            (#[trigger] f.dirs@[j]) as int,
            width,
            height,
        )
}

/// Some pending frame anchors the lattice cell `(cx, cy)`.
pub open spec fn on_stack(s: Seq<Frame>, cx: int, cy: int) -> bool {
    exists|i: int| 0 <= i < s.len() && (#[trigger] s[i]).x == cx && s[i].y == cy
}

/// The lattice cells whose expansion this carve run is responsible for: the
/// cell carving started from, and every interior lattice cell the run itself
/// carved (`Wall` on entry, `Path` now).
pub open spec fn carve_scope(
    g0: Seq<Seq<Cell>>,
    g: Seq<Seq<Cell>>,
    x0: int,
    y0: int,
    cx: int,
    cy: int,
    width: int,
    height: int,
) -> bool {
    &&& 1 <= cx < width - 1
    &&& 1 <= cy < height - 1
    &&& cx % 2 == 1
    &&& cy % 2 == 1
    &&& ((cx == x0 && cy == y0) || (g0[cy][cx] == Cell::Wall && g[cy][cx] == Cell::Path))
}

proof fn lemma_dir_done_mono(
    g1: Seq<Seq<Cell>>,
    g2: Seq<Seq<Cell>>,
    x: int,
    y: int,
    d: int,
    width: int,
    height: int,
)
    requires
        dir_done(g1, x, y, d, width, height),
        g1.len() == height && g2.len() == height,
        forall|yy: int| 0 <= yy < height ==> (#[trigger] g1[yy]).len() == width,
        1 <= x < width - 1,
        1 <= y < height - 1,
        monotone_carve(g1, g2),
    ensures
        dir_done(g2, x, y, d, width, height),
{
    reveal(dir_done);
}

proof fn lemma_tried_ok_mono(
    g1: Seq<Seq<Cell>>,
    g2: Seq<Seq<Cell>>,
    f: Frame,
    width: int,
    height: int,
)
    requires
        tried_ok(g1, f, width, height),
        frame_ok(f, width, height),
        g1.len() == height && g2.len() == height,
        forall|yy: int| 0 <= yy < height ==> (#[trigger] g1[yy]).len() == width,
        monotone_carve(g1, g2),
    ensures
        tried_ok(g2, f, width, height),
{
    assert forall|j: int| 0 <= j < f.next && j < f.dirs@.len() implies dir_done(
        g2,
        f.x as int,
        f.y as int,
        (#[trigger] f.dirs@[j]) as int,
        width,
        height,
    ) by {
        lemma_dir_done_mono(g1, g2, f.x as int, f.y as int, f.dirs@[j] as int, width, height);
    }
}

proof fn lemma_lattice_closed_mono(
    g1: Seq<Seq<Cell>>,
    g2: Seq<Seq<Cell>>,
    x: int,
    y: int,
    width: int,
    height: int,
)
    requires
        lattice_closed(g1, x, y, width, height),
        g1.len() == height && g2.len() == height,
        forall|yy: int| 0 <= yy < height ==> (#[trigger] g1[yy]).len() == width,
        1 <= x < width - 1,
        1 <= y < height - 1,
        monotone_carve(g1, g2),
    ensures
        lattice_closed(g2, x, y, width, height),
{
    reveal(lattice_closed);
}

/// A frame that has tried all four directions leaves its lattice cell fully
/// expanded: the shuffled order holds every direction, so every interior
/// lattice neighbor has been seen and is carved.
proof fn lemma_closed_from_tried(g: Seq<Seq<Cell>>, f: Frame, width: int, height: int)
    requires
        frame_ok(f, width, height),
        f.next >= 4,
        tried_ok(g, f, width, height),
    ensures
        lattice_closed(g, f.x as int, f.y as int, width, height),
{
    reveal(lattice_closed);
    reveal(dir_done);
    assert forall|d: u8| d < 4 implies dir_done(
        g,
        f.x as int,
        f.y as int,
        d as int,
        width,
        height,
    ) by {
        assert(f.dirs@.contains(d));
        let j = choose|j: int| 0 <= j < f.dirs@.len() && f.dirs@[j] == d;
        assert(dir_done(g, f.x as int, f.y as int, (f.dirs@[j]) as int, width, height));
    }
    assert(dir_done(g, f.x as int, f.y as int, 0, width, height));
    assert(dir_done(g, f.x as int, f.y as int, 1, width, height));
    assert(dir_done(g, f.x as int, f.y as int, 2, width, height));
    assert(dir_done(g, f.x as int, f.y as int, 3, width, height));
}

/// Every cell is still `Wall` or has been carved to `Path`, and every `Path`
/// cell lies strictly inside the border with at least one odd coordinate
/// (lattice cells are odd-odd; the midpoints that join them are odd-even or
/// even-odd). In particular the whole border ring is `Wall`.
pub open spec fn carved_ok(g: Seq<Seq<Cell>>, width: int, height: int) -> bool {
    &&& g.len() == height
    &&& forall|y: int| 0 <= y < height ==> (#[trigger] g[y]).len() == width
    &&& forall|x: int, y: int|
        0 <= y < height && 0 <= x < width ==> (#[trigger] g[y][x] == Cell::Wall || g[y][x]
            == Cell::Path)
    &&& forall|x: int, y: int|
        0 <= y < height && 0 <= x < width && #[trigger] g[y][x] == Cell::Path ==> 1 <= x < width - 1
            && 1 <= y < height - 1 && !(x % 2 == 0 && y % 2 == 0)
}

/// Cells only move from `Wall` to `Path`: nothing is ever un-carved.
pub open spec fn monotone_carve(g1: Seq<Seq<Cell>>, g2: Seq<Seq<Cell>>) -> bool {
    forall|x: int, y: int|
        0 <= y < g1.len() && 0 <= x < g1[y].len() ==> (#[trigger] g2[y][x] == g1[y][x] || (g1[y][x]
            == Cell::Wall && g2[y][x] == Cell::Path))
}

/// The carved `Path` cells form a tree under grid adjacency: the number of
/// adjacency edges is exactly one less than the number of `Path` cells.
/// Together with every `Path` cell being connected to the carve origin this
/// is the defining property of a perfect maze.
pub open spec fn tree_shaped(g: Seq<Seq<Cell>>) -> bool {
    edge_count(g) + 1 == grid_count(g, Cell::Path)
}

/// The cell `(x, y)`, if it is a midpoint (one even coordinate), rests on
/// `Path` cells on both sides along its even axis.
pub open spec fn supported_at(g: Seq<Seq<Cell>>, x: int, y: int) -> bool {
    &&& (y % 2 == 0 ==> g[y - 1][x] == Cell::Path && g[y + 1][x] == Cell::Path)
    &&& (x % 2 == 0 ==> g[y][x - 1] == Cell::Path && g[y][x + 1] == Cell::Path)
}

/// Every carved midpoint rests on its lattice endpoints: a `Path` cell with
/// an even coordinate has `Path` cells on both sides along that axis. A
/// corridor therefore never dead-ends inside a wall rib, and a midpoint is
/// only ever carved together with the lattice cell beyond it.
pub open spec fn midpoints_supported(g: Seq<Seq<Cell>>, width: int, height: int) -> bool {
    forall|x: int, y: int|
        0 <= y < height && 0 <= x < width && g[y][x] == Cell::Path ==> #[trigger] supported_at(
            g,
            x,
            y,
        )
}

/// After carving the midpoint and lattice neighbor of a frame cell that is
/// itself connected to the carve origin `o`, every `Path` cell of the new
/// grid is still connected to `o`: old cells by their old chains, the two new
/// cells by extending the frame cell's chain.
proof fn lemma_carve_connects(
    gb: Seq<Seq<Cell>>,
    g2: Seq<Seq<Cell>>,
    o: (usize, usize),
    fx: usize,
    fy: usize,
    mx: usize,
    my: usize,
    nx: usize,
    ny: usize,
    width: int,
    height: int,
)
    requires
        carved_ok(gb, width, height),
        g2.len() == height,
        forall|yy: int| 0 <= yy < height ==> (#[trigger] g2[yy]).len() == width,
        my < height && mx < width && ny < height && nx < width && fy < height && fx < width,
        g2[my as int][mx as int] == Cell::Path,
        g2[ny as int][nx as int] == Cell::Path,
        forall|a: int, b: int|
            0 <= b < height && 0 <= a < width && !(a == mx as int && b == my as int) && !(a
                == nx as int && b == ny as int) ==> #[trigger] g2[b][a] == gb[b][a],
        gb[fy as int][fx as int] == Cell::Path,
        adjacent((fx, fy), (mx, my)),
        adjacent((mx, my), (nx, ny)),
        forall|cx: usize, cy: usize|
            cy < height && cx < width && #[trigger] gb[cy as int][cx as int] == Cell::Path
                ==> connected(gb, o, (cx, cy)),
    ensures
        forall|cx: usize, cy: usize|
            cy < height && cx < width && #[trigger] g2[cy as int][cx as int] == Cell::Path
                ==> connected(g2, o, (cx, cy)),
{
    reveal(connected);
    assert forall|a: int, b: int|
        0 <= b < gb.len() && 0 <= a < gb[b].len() implies (#[trigger] g2[b][a] == gb[b][a] || (
    gb[b][a] == Cell::Wall && g2[b][a] == Cell::Path)) by {
        if (a == mx as int && b == my as int) || (a == nx as int && b == ny as int) {
            assert(gb[b][a] == Cell::Wall || gb[b][a] == Cell::Path);
        }
    }
    assert(monotone_carve(gb, g2));
    assert(connected(gb, o, (fx, fy)));
    let p0 = choose|p: Seq<(usize, usize)>| chain_connects(gb, p, o, (fx, fy));
    let p1 = p0.push((mx, my));
    let p2 = p1.push((nx, ny));
    assert forall|i: int|
        0 <= i < p2.len() implies in_bounds(g2, #[trigger] p2[i]) && g2[p2[i].1 as int][p2[i].0 as int]
        == Cell::Path by {
        if i < p0.len() {
            assert(p2[i] == p0[i]);
            assert(in_bounds(gb, p0[i]));
        } else if i == p0.len() {
            assert(p2[i] == (mx, my));
        } else {
            assert(p2[i] == (nx, ny));
        }
    }
    assert forall|i: int| 0 <= i < p2.len() - 1 implies adjacent(#[trigger] p2[i], p2[i + 1]) by {
        if i < p0.len() - 1 {
            assert(p2[i] == p0[i] && p2[i + 1] == p0[i + 1]);
        } else if i == p0.len() - 1 {
            assert(p2[i] == p0[p0.len() - 1] && p2[i + 1] == (mx, my));
        } else {
            assert(p2[i] == (mx, my) && p2[i + 1] == (nx, ny));
        }
    }
    assert(p1[p1.len() - 1] == (mx, my));
    assert(forall|i: int| 0 <= i < p1.len() ==> p1[i] == #[trigger] p2[i]);
    assert forall|i: int|
        0 <= i < p1.len() implies in_bounds(g2, #[trigger] p1[i]) && g2[p1[i].1 as int][p1[i].0 as int]
        == Cell::Path by {
        assert(p1[i] == p2[i]);
    }
    assert forall|i: int| 0 <= i < p1.len() - 1 implies adjacent(#[trigger] p1[i], p1[i + 1]) by {
        assert(p1[i] == p2[i] && p1[i + 1] == p2[i + 1]);
    }
    assert(chain_connects(g2, p1, o, (mx, my)));
    assert(chain_connects(g2, p2, o, (nx, ny)));
    assert forall|cx: usize, cy: usize|
        cy < height && cx < width && #[trigger] g2[cy as int][cx as int] == Cell::Path implies
        connected(g2, o, (cx, cy)) by {
        if cx == mx && cy == my {
            assert(chain_connects(g2, p1, o, (cx, cy)));
        } else if cx == nx && cy == ny {
            assert(chain_connects(g2, p2, o, (cx, cy)));
        } else {
            assert(g2[cy as int][cx as int] == gb[cy as int][cx as int]);
            lemma_connected_mono(gb, g2, o, (cx, cy));
        }
    }
}

/// Trying one more direction whose lattice neighbor is done extends the
/// frame's record of tried directions.
proof fn lemma_tried_push(g: Seq<Seq<Cell>>, f: Frame, nf: Frame, width: int, height: int)
    requires
        tried_ok(g, f, width, height),
        nf.x == f.x && nf.y == f.y && nf.dirs == f.dirs,
        nf.next == f.next + 1,
        f.next < f.dirs@.len(),
        dir_done(g, f.x as int, f.y as int, f.dirs@[f.next as int] as int, width, height),
    ensures
        tried_ok(g, nf, width, height),
{
    assert forall|j: int| 0 <= j < nf.next && j < nf.dirs@.len() implies dir_done(
        g,
        nf.x as int,
        nf.y as int,
        (#[trigger] nf.dirs@[j]) as int,
        width,
        height,
    ) by {
        assert(nf.dirs@[j] == f.dirs@[j]);
        if j < f.next {
            assert(dir_done(g, f.x as int, f.y as int, f.dirs@[j] as int, width, height));
        }
    }
}

/// Discarding an exhausted frame keeps the run's obligation: the frame's
/// lattice cell has tried all four directions and is fully expanded.
proof fn lemma_scope_pop(
    g0: Seq<Seq<Cell>>,
    gb: Seq<Seq<Cell>>,
    sb: Seq<Frame>,
    x0: int,
    y0: int,
    width: int,
    height: int,
)
    requires
        sb.len() > 0,
        frame_ok(sb.last(), width, height),
        sb.last().next >= 4,
        tried_ok(gb, sb.last(), width, height),
        forall|cx: int, cy: int|
            carve_scope(g0, gb, x0, y0, cx, cy, width, height) ==> on_stack(sb, cx, cy)
                || #[trigger] lattice_closed(gb, cx, cy, width, height),
    ensures
        forall|cx: int, cy: int|
            carve_scope(g0, gb, x0, y0, cx, cy, width, height) ==> on_stack(sb.drop_last(), cx, cy)
                || #[trigger] lattice_closed(gb, cx, cy, width, height),
{
    let s2 = sb.drop_last();
    assert forall|cx: int, cy: int|
        carve_scope(g0, gb, x0, y0, cx, cy, width, height) implies on_stack(s2, cx, cy)
        || #[trigger] lattice_closed(gb, cx, cy, width, height) by {
        if !lattice_closed(gb, cx, cy, width, height) {
            assert(on_stack(sb, cx, cy));
            let i = choose|i: int|
                0 <= i < sb.len() && (#[trigger] sb[i]).x == cx && sb[i].y == cy;
            if i < sb.len() - 1 {
                assert(s2[i] == sb[i]);
                assert(on_stack(s2, cx, cy));
            } else {
                lemma_closed_from_tried(gb, sb.last(), width, height);
            }
        }
    }
}

/// Replacing the top frame by one at the same lattice cell keeps the run's
/// obligation: every anchored cell stays anchored.
proof fn lemma_scope_swap(
    g0: Seq<Seq<Cell>>,
    gb: Seq<Seq<Cell>>,
    sb: Seq<Frame>,
    nf: Frame,
    x0: int,
    y0: int,
    width: int,
    height: int,
)
    requires
        sb.len() > 0,
        nf.x == sb.last().x && nf.y == sb.last().y,
        forall|cx: int, cy: int|
            carve_scope(g0, gb, x0, y0, cx, cy, width, height) ==> on_stack(sb, cx, cy)
                || #[trigger] lattice_closed(gb, cx, cy, width, height),
    ensures
        forall|cx: int, cy: int|
            carve_scope(g0, gb, x0, y0, cx, cy, width, height) ==> on_stack(
                sb.drop_last().push(nf),
                cx,
                cy,
            ) || #[trigger] lattice_closed(gb, cx, cy, width, height),
{
    let s2 = sb.drop_last().push(nf);
    assert forall|cx: int, cy: int|
        carve_scope(g0, gb, x0, y0, cx, cy, width, height) implies on_stack(s2, cx, cy)
        || #[trigger] lattice_closed(gb, cx, cy, width, height) by {
        if !lattice_closed(gb, cx, cy, width, height) {
            assert(on_stack(sb, cx, cy));
            let i = choose|i: int|
                0 <= i < sb.len() && (#[trigger] sb[i]).x == cx && sb[i].y == cy;
            if i < sb.len() - 1 {
                assert(s2[i] == sb[i]);
            } else {
                assert(s2[sb.len() - 1] == nf);
                assert(nf.x == cx && nf.y == cy);
            }
            assert(on_stack(s2, cx, cy));
        }
    }
}

/// One carve step keeps the run's obligation: the expanded cell is
/// re-anchored, the freshly carved lattice cell is anchored by its new
/// frame, the midpoint is no lattice cell, and every other cell keeps its
/// frame or stays fully expanded.
proof fn lemma_scope_carve(
    g0: Seq<Seq<Cell>>,
    gb: Seq<Seq<Cell>>,
    g2: Seq<Seq<Cell>>,
    sb: Seq<Frame>,
    nf: Frame,
    child: Frame,
    x0: int,
    y0: int,
    mx: int,
    my: int,
    nx: int,
    ny: int,
    width: int,
    height: int,
)
    requires
        sb.len() > 0,
        nf.x == sb.last().x && nf.y == sb.last().y,
        child.x == nx && child.y == ny,
        gb.len() == height && g2.len() == height,
        forall|yy: int| 0 <= yy < height ==> (#[trigger] gb[yy]).len() == width,
        monotone_carve(gb, g2),
        forall|a: int, b: int|
            0 <= b < height && 0 <= a < width && !(a == mx && b == my) && !(a == nx && b == ny)
                ==> #[trigger] g2[b][a] == gb[b][a],
        !(mx % 2 == 1 && my % 2 == 1),
        0 <= my < height && 0 <= mx < width,
        forall|cx: int, cy: int|
            carve_scope(g0, gb, x0, y0, cx, cy, width, height) ==> on_stack(sb, cx, cy)
                || #[trigger] lattice_closed(gb, cx, cy, width, height),
    ensures
        forall|cx: int, cy: int|
            carve_scope(g0, g2, x0, y0, cx, cy, width, height) ==> on_stack(
                sb.drop_last().push(nf).push(child),
                cx,
                cy,
            ) || #[trigger] lattice_closed(g2, cx, cy, width, height),
{
    let s2 = sb.drop_last().push(nf).push(child);
    assert forall|cx: int, cy: int|
        carve_scope(g0, g2, x0, y0, cx, cy, width, height) implies on_stack(s2, cx, cy)
        || #[trigger] lattice_closed(g2, cx, cy, width, height) by {
        if cx == nx && cy == ny {
            assert(s2[s2.len() - 1] == child);
            assert(on_stack(s2, cx, cy));
        } else {
            assert(!(cx == mx && cy == my));
            assert(g2[cy][cx] == gb[cy][cx]);
            assert(carve_scope(g0, gb, x0, y0, cx, cy, width, height));
            if !lattice_closed(gb, cx, cy, width, height) {
                assert(on_stack(sb, cx, cy));
                let i = choose|i: int|
                    0 <= i < sb.len() && (#[trigger] sb[i]).x == cx && sb[i].y == cy;
                if i < sb.len() - 1 {
                    assert(s2[i] == sb[i]);
                } else {
                    assert(s2[sb.len() - 1] == nf);
                    assert(nf.x == cx && nf.y == cy);
                }
                assert(on_stack(s2, cx, cy));
            } else {
                lemma_lattice_closed_mono(gb, g2, cx, cy, width, height);
            }
        }
    }
}

/// Wall-to-Path carving composes: if `gb` only carves cells of `ga` and `gc`
/// only carves cells of `gb`, then `gc` only carves cells of `ga`.
proof fn lemma_monotone_carve_trans(ga: Seq<Seq<Cell>>, gb: Seq<Seq<Cell>>, gc: Seq<Seq<Cell>>)
    requires
        monotone_carve(ga, gb),
        monotone_carve(gb, gc),
        ga.len() == gb.len(),
        forall|y: int| 0 <= y < ga.len() ==> (#[trigger] gb[y]).len() == ga[y].len(),
    ensures
        monotone_carve(ga, gc),
{
    assert forall|x: int, y: int|
        0 <= y < ga.len() && 0 <= x < ga[y].len() implies (#[trigger] gc[y][x] == ga[y][x] || (
    ga[y][x] == Cell::Wall && gc[y][x] == Cell::Path)) by {
        assert(gb[y][x] == ga[y][x] || (ga[y][x] == Cell::Wall && gb[y][x] == Cell::Path));
    }
}

/// The geometry of one carving step: `(fx, fy)` and `(nx, ny)` are interior
/// lattice cells two steps apart, and `(mx, my)` is the wall cell between
/// them.
pub open spec fn carve_geom(
    fx: usize,
    fy: usize,
    mx: usize,
    my: usize,
    nx: usize,
    ny: usize,
    width: int,
    height: int,
) -> bool {
    &&& 1 <= fx < width - 1 && 1 <= fy < height - 1 && fx % 2 == 1 && fy % 2 == 1
    &&& 1 <= nx < width - 1 && 1 <= ny < height - 1 && nx % 2 == 1 && ny % 2 == 1
    &&& 1 <= mx < width - 1 && 1 <= my < height - 1 && !(mx % 2 == 0 && my % 2 == 0)
    &&& adjacent((fx, fy), (mx, my))
    &&& adjacent((mx, my), (nx, ny))
    &&& ((mx == fx && mx == nx && fy as int + ny as int == 2 * my as int) || (my == fy && my == ny
        && fx as int + nx as int == 2 * mx as int))
}

/// While the lattice cell beyond a midpoint is still a wall, the midpoint is
/// a wall too: a carved midpoint rests on both its lattice endpoints.
proof fn lemma_midpoint_is_wall(
    g: Seq<Seq<Cell>>,
    fx: usize,
    fy: usize,
    mx: usize,
    my: usize,
    nx: usize,
    ny: usize,
    width: int,
    height: int,
)
    requires
        carved_ok(g, width, height),
        midpoints_supported(g, width, height),
        carve_geom(fx, fy, mx, my, nx, ny, width, height),
        g[ny as int][nx as int] == Cell::Wall,
    ensures
        g[my as int][mx as int] == Cell::Wall,
{
    if g[my as int][mx as int] == Cell::Path {
        assert(supported_at(g, mx as int, my as int));
        if mx == fx && mx == nx {
            assert(my as int == ny as int + 1 || my as int == ny as int - 1);
            assert(my % 2 == 0);
            assert(g[my as int - 1][mx as int] == Cell::Path && g[my as int + 1][mx as int]
                == Cell::Path);
        } else {
            assert(mx as int == nx as int + 1 || mx as int == nx as int - 1);
            assert(mx % 2 == 0);
            assert(g[my as int][mx as int - 1] == Cell::Path && g[my as int][mx as int + 1]
                == Cell::Path);
        }
        assert(g[ny as int][nx as int] == Cell::Path);
        assert(false);
    }
}

/// The frame cell is the only carved neighbor of the midpoint: the cells
/// beside it across the corridor axis are even-even and never carved, and
/// the lattice cell beyond it is the still-wall neighbor.
proof fn lemma_mid_nbr_count(
    g: Seq<Seq<Cell>>,
    fx: usize,
    fy: usize,
    mx: usize,
    my: usize,
    nx: usize,
    ny: usize,
    width: int,
    height: int,
)
    requires
        carved_ok(g, width, height),
        carve_geom(fx, fy, mx, my, nx, ny, width, height),
        g[fy as int][fx as int] == Cell::Path,
        g[ny as int][nx as int] == Cell::Wall,
    ensures
        nbr_path_count(g, mx as int, my as int) == 1,
{
    if mx == fx && mx == nx {
        assert(fy as int == 2 * my as int - ny as int);
        if g[my as int][mx as int - 1] == Cell::Path {
            assert(false);
        }
        if g[my as int][mx as int + 1] == Cell::Path {
            assert(false);
        }
    } else {
        assert(fx as int == 2 * mx as int - nx as int);
        if g[my as int - 1][mx as int] == Cell::Path {
            assert(false);
        }
        if g[my as int + 1][mx as int] == Cell::Path {
            assert(false);
        }
    }
}

/// After the midpoint is carved, it is the only carved neighbor of the
/// lattice cell being opened: any other adjacent midpoint would rest on
/// that cell, which was a wall until now.
proof fn lemma_new_nbr_count(
    gb: Seq<Seq<Cell>>,
    gm: Seq<Seq<Cell>>,
    fx: usize,
    fy: usize,
    mx: usize,
    my: usize,
    nx: usize,
    ny: usize,
    width: int,
    height: int,
)
    requires
        carved_ok(gb, width, height),
        midpoints_supported(gb, width, height),
        carve_geom(fx, fy, mx, my, nx, ny, width, height),
        gb[ny as int][nx as int] == Cell::Wall,
        gm == gb.update(my as int, gb[my as int].update(mx as int, Cell::Path)),
    ensures
        nbr_path_count(gm, nx as int, ny as int) == 1,
{
    assert(gm[my as int][mx as int] == Cell::Path);
    assert forall|q: int|
        0 <= q < height && q != my as int && (q == ny as int + 1 || q == ny as int - 1) implies
        gm[q][nx as int] != Cell::Path by {
        if gm[q][nx as int] == Cell::Path {
            assert(gb[q][nx as int] == Cell::Path);
            assert(supported_at(gb, nx as int, q));
            assert(q % 2 == 0);
            assert(gb[q - 1][nx as int] == Cell::Path && gb[q + 1][nx as int] == Cell::Path);
            assert(gb[ny as int][nx as int] == Cell::Path);
        }
    }
    assert forall|q: int|
        0 <= q < width && q != mx as int && (q == nx as int + 1 || q == nx as int - 1) implies
        gm[ny as int][q] != Cell::Path by {
        if gm[ny as int][q] == Cell::Path {
            assert(gb[ny as int][q] == Cell::Path);
            assert(supported_at(gb, q, ny as int));
            assert(q % 2 == 0);
            assert(gb[ny as int][q - 1] == Cell::Path && gb[ny as int][q + 1] == Cell::Path);
            assert(gb[ny as int][nx as int] == Cell::Path);
        }
    }
}

/// Carving a midpoint together with the lattice cell beyond it keeps every
/// midpoint resting on its lattice endpoints.
proof fn lemma_supported_preserved(
    gb: Seq<Seq<Cell>>,
    g2: Seq<Seq<Cell>>,
    fx: usize,
    fy: usize,
    mx: usize,
    my: usize,
    nx: usize,
    ny: usize,
    width: int,
    height: int,
)
    requires
        carved_ok(gb, width, height),
        midpoints_supported(gb, width, height),
        carve_geom(fx, fy, mx, my, nx, ny, width, height),
        g2.len() == height,
        forall|yy: int| 0 <= yy < height ==> (#[trigger] g2[yy]).len() == width,
        g2[my as int][mx as int] == Cell::Path,
        g2[ny as int][nx as int] == Cell::Path,
        g2[fy as int][fx as int] == Cell::Path,
        forall|a: int, b: int|
            0 <= b < height && 0 <= a < width && !(a == mx as int && b == my as int) && !(a
                == nx as int && b == ny as int) ==> #[trigger] g2[b][a] == gb[b][a],
        monotone_carve(gb, g2),
    ensures
        midpoints_supported(g2, width, height),
{
    assert forall|a: int, b: int|
        0 <= b < height && 0 <= a < width && g2[b][a] == Cell::Path implies #[trigger] supported_at(
        g2,
        a,
        b,
    ) by {
        if a == mx as int && b == my as int {
            assert(g2[fy as int][fx as int] == Cell::Path && g2[ny as int][nx as int]
                == Cell::Path);
            if mx == fx && mx == nx {
                assert(my as int == ny as int + 1 || my as int == ny as int - 1);
                assert(fy as int + ny as int == 2 * my as int);
            } else {
                assert(mx as int == nx as int + 1 || mx as int == nx as int - 1);
                assert(fx as int + nx as int == 2 * mx as int);
            }
        } else if a == nx as int && b == ny as int {
            assert(nx % 2 == 1 && ny % 2 == 1);
        } else {
            assert(gb[b][a] == Cell::Path);
            assert(supported_at(gb, a, b));
            if b % 2 == 0 {
                assert(gb[b - 1][a] == Cell::Path && gb[b + 1][a] == Cell::Path);
                assert(g2[b - 1][a] == Cell::Path && g2[b + 1][a] == Cell::Path);
            }
            if a % 2 == 0 {
                assert(gb[b][a - 1] == Cell::Path && gb[b][a + 1] == Cell::Path);
                assert(g2[b][a - 1] == Cell::Path && g2[b][a + 1] == Cell::Path);
            }
        }
    }
}

/// Carves one corridor piece: the midpoint `(mx, my)` and the still-`Wall`
/// lattice neighbor `(nx, ny)` of the already-carved frame cell `(fx, fy)`
/// become `Path`. The count of `Wall` cells strictly drops, exactly two
/// `Path` cells and two adjacency edges appear, and every `Path` cell stays
/// connected to the carve origin.
#[verifier::rlimit(60)]
fn carve_cells(
    maze: &mut Vec<Vec<Cell>>,
    fx: usize,
    fy: usize,
    mx: usize,
    my: usize,
    nx: usize,
    ny: usize,
    origin: Ghost<(usize, usize)>,
)
    requires
        ({
            let g = gv(old(maze)@);
            let w = g[0].len() as int;
            let h = g.len() as int;
            &&& carved_ok(g, w, h)
            &&& w >= 3 && h >= 3
            &&& carve_geom(fx, fy, mx, my, nx, ny, w, h)
            &&& g[fy as int][fx as int] == Cell::Path
            &&& g[ny as int][nx as int] == Cell::Wall
            &&& midpoints_supported(g, w, h)
            &&& tree_shaped(g)
            &&& forall|cx: usize, cy: usize|
                cy < h && cx < w && #[trigger] g[cy as int][cx as int] == Cell::Path ==> connected(
                    g,
                    origin@,
                    (cx, cy),
                )
        }),
    ensures
        ({
            let g0 = gv(old(maze)@);
            let g = gv(final(maze)@);
            let w = g0[0].len() as int;
            let h = g0.len() as int;
            &&& carved_ok(g, w, h)
            &&& monotone_carve(g0, g)
            &&& grid_count(g, Cell::Wall) < grid_count(g0, Cell::Wall)
            &&& g[ny as int][nx as int] == Cell::Path
            &&& g[my as int][mx as int] == Cell::Path
            &&& forall|a: int, b: int|
                0 <= b < h && 0 <= a < w && !(a == mx as int && b == my as int) && !(a == nx as int
                    && b == ny as int) ==> #[trigger] g[b][a] == g0[b][a]
            &&& midpoints_supported(g, w, h)
            &&& tree_shaped(g)
            &&& forall|cx: usize, cy: usize|
                cy < h && cx < w && #[trigger] g[cy as int][cx as int] == Cell::Path ==> connected(
                    g,
                    origin@,
                    (cx, cy),
                )
        }),
{
    let ghost gb = gv(maze@);
    let ghost w = gb[0].len() as int;
    let ghost h = gb.len() as int;
    proof {
        lemma_midpoint_is_wall(gb, fx, fy, mx, my, nx, ny, w, h);
        lemma_grid_count_update(gb, mx as int, my as int, Cell::Wall, Cell::Path);
        lemma_grid_count_add(gb, mx as int, my as int, Cell::Path);
        lemma_edge_count_carve(gb, mx as int, my as int);
        lemma_mid_nbr_count(gb, fx, fy, mx, my, nx, ny, w, h);
    }
    set_cell(maze, mx, my, Cell::Path);
    proof {
        let gm = gv(maze@);
        assert(gm[ny as int][nx as int] == Cell::Wall);
        lemma_grid_count_update(gm, nx as int, ny as int, Cell::Wall, Cell::Path);
        lemma_grid_count_add(gm, nx as int, ny as int, Cell::Path);
        assert forall|yy: int| 0 <= yy < gm.len() implies (#[trigger] gm[yy]).len()
            == gm[0].len() by {}
        lemma_edge_count_carve(gm, nx as int, ny as int);
        lemma_new_nbr_count(gb, gm, fx, fy, mx, my, nx, ny, w, h);
    }
    set_cell(maze, nx, ny, Cell::Path);
    proof {
        let g2 = gv(maze@);
        assert forall|a: int, b: int|
            0 <= b < h && 0 <= a < w && !(a == mx as int && b == my as int) && !(a == nx as int && b
            == ny as int) implies #[trigger] g2[b][a] == gb[b][a] by {}
        assert forall|a: int, b: int|
            0 <= b < h && 0 <= a < w implies (#[trigger] g2[b][a] == gb[b][a] || (gb[b][a]
            == Cell::Wall && g2[b][a] == Cell::Path)) by {
            if (a == mx as int && b == my as int) || (a == nx as int && b == ny as int) {
                assert(g2[b][a] == Cell::Path);
                assert(gb[b][a] == Cell::Wall || gb[b][a] == Cell::Path);
            }
        }
        assert(carved_ok(g2, w, h));
        assert(tree_shaped(g2));
        lemma_supported_preserved(gb, g2, fx, fy, mx, my, nx, ny, w, h);
        lemma_carve_connects(gb, g2, origin@, fx, fy, mx, my, nx, ny, w, h);
    }
}

/// Carves passages outward from the lattice cell `(x, y)`, depth-first: the
/// four lattice directions of each visited cell are tried in a fresh random
/// order, and an in-bounds lattice neighbor that is still `Wall` is carved to
/// `Path` together with the wall cell between them, then explored in turn.
/// The recursion is expressed as an explicit stack of [`Frame`]s.
///
/// Carving never reverts a cell, so whatever was `Path` before (the start
/// cell) is `Path` after, and [`carved_ok`] - every cell `Wall` or `Path`,
/// every `Path` cell interior with at least one odd coordinate, the whole
/// border ring `Wall` - is preserved. On return the run's work is complete:
/// the start cell and every lattice cell the run carved are fully expanded
/// ([`lattice_closed`]), so no reachable lattice cell is left with an
/// uncarved interior lattice neighbor.
#[verifier::rlimit(100)]
pub fn carve_passage(x: usize, y: usize, maze: &mut Vec<Vec<Cell>>, rng: &mut rand::rngs::StdRng)
    requires
        ({
            let g = gv(old(maze)@);
            &&& g.len() >= 3
            &&& g[0].len() >= 3
            &&& carved_ok(g, g[0].len() as int, g.len() as int)
            &&& 1 <= x < g[0].len() - 1
            &&& 1 <= y < g.len() - 1
            &&& x % 2 == 1
            &&& y % 2 == 1
            &&& g[y as int][x as int] == Cell::Path
            &&& midpoints_supported(g, g[0].len() as int, g.len() as int)
            &&& tree_shaped(g)
            &&& forall|cx: usize, cy: usize|
                cy < g.len() && cx < g[0].len() && #[trigger] g[cy as int][cx as int] == Cell::Path
                    ==> connected(g, (x, y), (cx, cy))
        }),
    ensures
        ({
            let g0 = gv(old(maze)@);
            let g = gv(final(maze)@);
            &&& carved_ok(g, g0[0].len() as int, g0.len() as int)
            &&& monotone_carve(g0, g)
            &&& midpoints_supported(g, g0[0].len() as int, g0.len() as int)
            &&& tree_shaped(g)
            &&& forall|cx: usize, cy: usize|
                cy < g.len() && cx < g0[0].len() && #[trigger] g[cy as int][cx as int]
                    == Cell::Path ==> connected(g, (x, y), (cx, cy))
            &&& forall|cx: int, cy: int|
                carve_scope(g0, g, x as int, y as int, cx, cy, g0[0].len() as int, g0.len() as int)
                    ==> #[trigger] lattice_closed(g, cx, cy, g0[0].len() as int, g0.len() as int)
        }),
{
    let ghost g0 = gv(maze@);
    let height: usize = maze.len();
    let width: usize = maze[0].len();
    let first_dirs = shuffled_dirs(rng);
    let mut stack: Vec<Frame> = Vec::new();
    stack.push(Frame { x, y, dirs: first_dirs, next: 0 });
    proof {
        assert forall|cx: int, cy: int|
            carve_scope(g0, gv(maze@), x as int, y as int, cx, cy, width as int, height as int)
            implies on_stack(stack@, cx, cy) || #[trigger] lattice_closed(
            gv(maze@),
            cx,
            cy,
            width as int,
            height as int,
        ) by {
            assert(cx == x as int && cy == y as int);
            assert(stack@[0].x == cx && stack@[0].y == cy);
            assert(on_stack(stack@, cx, cy));
        }
    }
    loop
        invariant
            g0 == gv(old(maze)@),
            height == g0.len(),
            width == g0[0].len(),
            width >= 3,
            height >= 3,
            carved_ok(g0, width as int, height as int),
            carved_ok(gv(maze@), width as int, height as int),
            monotone_carve(g0, gv(maze@)),
            midpoints_supported(gv(maze@), width as int, height as int),
            tree_shaped(gv(maze@)),
            forall|i: int|
                0 <= i < stack@.len() ==> frame_ok(
                    #[trigger] stack@[i],
                    width as int,
                    height as int,
                ),
            forall|i: int|
                0 <= i < stack@.len() ==> gv(maze@)[(#[trigger] stack@[i]).y as int][stack@[i].x as int]
                    == Cell::Path,
            forall|cx: usize, cy: usize|
                cy < height && cx < width && #[trigger] gv(maze@)[cy as int][cx as int]
                    == Cell::Path ==> connected(gv(maze@), (x, y), (cx, cy)),
            forall|i: int|
                0 <= i < stack@.len() ==> tried_ok(
                    gv(maze@),
                    #[trigger] stack@[i],
                    width as int,
                    height as int,
                ),
            forall|cx: int, cy: int|
                carve_scope(g0, gv(maze@), x as int, y as int, cx, cy, width as int, height as int)
                    ==> on_stack(stack@, cx, cy) || #[trigger] lattice_closed(
                    gv(maze@),
                    cx,
                    cy,
                    width as int,
                    height as int,
                ),
        decreases grid_count(gv(maze@), Cell::Wall), frames_remaining(stack@), stack@.len(),
    {
        let ghost sb = stack@;
        let ghost gb = gv(maze@);
        match stack.pop() {
            None => {
                proof {
                    assert forall|cx: int, cy: int|
                        carve_scope(
                            g0,
                            gv(maze@),
                            x as int,
                            y as int,
                            cx,
                            cy,
                            width as int,
                            height as int,
                        ) implies #[trigger] lattice_closed(
                        gv(maze@),
                        cx,
                        cy,
                        width as int,
                        height as int,
                    ) by {
                        assert(!on_stack(stack@, cx, cy));
                    }
                }
                return ;
            },
            Some(f) => {
                proof {
                    assert(f == sb.last());
                    assert(frames_remaining(sb) == frames_remaining(sb.drop_last()) + frame_rem(
                        sb.last(),
                    ));
                }
                if f.next < 4 {
                    let d = f.dirs[f.next];
                    let fx = f.x;
                    let fy = f.y;
                    let nf = Frame { x: fx, y: fy, dirs: f.dirs, next: f.next + 1 };
                    proof {
                        assert(frame_rem(nf) + 1 == frame_rem(f));
                    }
                    stack.push(nf);
                    proof {
                        assert(stack@.drop_last() =~= sb.drop_last());
                        assert(frames_remaining(stack@) == frames_remaining(sb.drop_last())
                            + frame_rem(nf));
                    }
                    let mut nx: usize = 0;
                    let mut ny: usize = 0;
                    let mut mx: usize = 0;
                    let mut my: usize = 0;
                    let mut valid: bool = false;
                    if d == 0 {
                        if fy >= 3 {
                            nx = fx;
                            ny = fy - 2;
                            mx = fx;
                            my = fy - 1;
                            valid = true;
                        }
                    } else if d == 1 {
                        if fy + 2 < height - 1 {
                            nx = fx;
                            ny = fy + 2;
                            mx = fx;
                            my = fy + 1;
                            valid = true;
                        }
                    } else if d == 2 {
                        if fx >= 3 {
                            nx = fx - 2;
                            ny = fy;
                            mx = fx - 1;
                            my = fy;
                            valid = true;
                        }
                    } else {
                        if fx + 2 < width - 1 {
                            nx = fx + 2;
                            ny = fy;
                            mx = fx + 1;
                            my = fy;
                            valid = true;
                        }
                    }
                    if valid && get_cell(maze, nx, ny) == Cell::Wall {
                        proof {
                            assert(1 <= nx < width - 1 && 1 <= ny < height - 1);
                            assert(nx % 2 == 1 && ny % 2 == 1);
                            assert(1 <= mx < width - 1 && 1 <= my < height - 1);
                            assert(!(mx % 2 == 0 && my % 2 == 0));
                            assert(adjacent((fx, fy), (mx, my)));
                            assert(adjacent((mx, my), (nx, ny)));
                            assert(carve_geom(fx, fy, mx, my, nx, ny, width as int, height as int));
                            assert(gb[fy as int][fx as int] == Cell::Path);
                        }
                        carve_cells(maze, fx, fy, mx, my, nx, ny, Ghost((x, y)));
                        let ghost smid = stack@;
                        let new_dirs = shuffled_dirs(rng);
                        let child = Frame { x: nx, y: ny, dirs: new_dirs, next: 0 };
                        stack.push(child);
                        proof {
                            let g2 = gv(maze@);
                            assert(stack@.drop_last() =~= smid);
                            assert(frames_remaining(stack@) == frames_remaining(smid) + frame_rem(
                                child,
                            ));
                            lemma_monotone_carve_trans(g0, gb, g2);
                            assert forall|i: int|
                                0 <= i < stack@.len() implies g2[(#[trigger] stack@[i]).y as int][stack@[i].x as int]
                                == Cell::Path by {
                                if i < sb.len() - 1 {
                                    assert(stack@[i] == sb[i]);
                                    assert(gb[sb[i].y as int][sb[i].x as int] == Cell::Path);
                                } else if i == sb.len() - 1 {
                                    assert(stack@[i].x == fx && stack@[i].y == fy);
                                    assert(gb[fy as int][fx as int] == Cell::Path);
                                } else {
                                    assert(stack@[i] == child);
                                }
                            }
                            assert(tried_ok(gb, f, width as int, height as int));
                            assert(dir_done(
                                g2,
                                fx as int,
                                fy as int,
                                d as int,
                                width as int,
                                height as int,
                            )) by {
                                reveal(dir_done);
                                assert(g2[ny as int][nx as int] == Cell::Path);
                            }
                            lemma_tried_ok_mono(gb, g2, f, width as int, height as int);
                            lemma_tried_push(g2, f, nf, width as int, height as int);
                            assert forall|i: int|
                                0 <= i < stack@.len() implies tried_ok(
                                g2,
                                #[trigger] stack@[i],
                                width as int,
                                height as int,
                            ) by {
                                if i < sb.len() - 1 {
                                    assert(stack@[i] == sb[i]);
                                    assert(tried_ok(gb, sb[i], width as int, height as int));
                                    lemma_tried_ok_mono(gb, g2, sb[i], width as int, height as int);
                                } else if i == sb.len() - 1 {
                                    assert(stack@[i] == nf);
                                } else {
                                    assert(stack@[i] == child);
                                }
                            }
                            assert(!(mx as int % 2 == 1 && my as int % 2 == 1));
                            assert(stack@ =~= sb.drop_last().push(nf).push(child));
                            lemma_scope_carve(
                                g0,
                                gb,
                                g2,
                                sb,
                                nf,
                                child,
                                x as int,
                                y as int,
                                mx as int,
                                my as int,
                                nx as int,
                                ny as int,
                                width as int,
                                height as int,
                            );
                        }
                    } else {
                        proof {
                            assert(dir_done(
                                gb,
                                fx as int,
                                fy as int,
                                d as int,
                                width as int,
                                height as int,
                            )) by {
                                reveal(dir_done);
                            }
                            assert(tried_ok(gb, f, width as int, height as int));
                            lemma_tried_push(gb, f, nf, width as int, height as int);
                            assert forall|i: int|
                                0 <= i < stack@.len() implies tried_ok(
                                gv(maze@),
                                #[trigger] stack@[i],
                                width as int,
                                height as int,
                            ) by {
                                if i < sb.len() - 1 {
                                    assert(stack@[i] == sb[i]);
                                } else {
                                    assert(stack@[i] == nf);
                                }
                            }
                            lemma_scope_swap(
                                g0,
                                gb,
                                sb,
                                nf,
                                x as int,
                                y as int,
                                width as int,
                                height as int,
                            );
                            assert(stack@ =~= sb.drop_last().push(nf));
                        }
                    }
                } else {
                    proof {
                        assert(frame_rem(f) == 0);
                        assert(stack@ =~= sb.drop_last());
                        assert(tried_ok(gb, sb.last(), width as int, height as int));
                        lemma_scope_pop(g0, gb, sb, x as int, y as int, width as int, height as int);
                        assert forall|i: int|
                            0 <= i < stack@.len() implies tried_ok(
                            gv(maze@),
                            #[trigger] stack@[i],
                            width as int,
                            height as int,
                        ) by {
                            assert(stack@[i] == sb[i]);
                        }
                    }
                }
            },
        }
    }
}

/// Walking right along the first corridor row: each fully expanded lattice
/// cell carries the carving to the next one, so the whole row of lattice
/// cells `(a, 1)` is carved.
proof fn lemma_lattice_row(g: Seq<Seq<Cell>>, width: int, height: int, a: int)
    requires
        g.len() == height,
        forall|yy: int| 0 <= yy < height ==> (#[trigger] g[yy]).len() == width,
        height >= 3,
        g[1][1] == Cell::Path,
        forall|cx: int, cy: int|
            1 <= cx < width - 1 && 1 <= cy < height - 1 && cx % 2 == 1 && cy % 2 == 1 && g[cy][cx]
                == Cell::Path ==> #[trigger] lattice_closed(g, cx, cy, width, height),
        1 <= a < width - 1,
        a % 2 == 1,
    ensures
        g[1][a] == Cell::Path,
    decreases a,
{
    if a > 1 {
        lemma_lattice_row(g, width, height, a - 2);
        assert(lattice_closed(g, a - 2, 1, width, height));
        reveal(lattice_closed);
    }
}

/// Every interior lattice cell is carved: walk right along row 1 to the
/// cell's column, then down its column, each step covered by the previous
/// cell being fully expanded.
proof fn lemma_lattice_cell(g: Seq<Seq<Cell>>, width: int, height: int, a: int, b: int)
    requires
        g.len() == height,
        forall|yy: int| 0 <= yy < height ==> (#[trigger] g[yy]).len() == width,
        height >= 3,
        g[1][1] == Cell::Path,
        forall|cx: int, cy: int|
            1 <= cx < width - 1 && 1 <= cy < height - 1 && cx % 2 == 1 && cy % 2 == 1 && g[cy][cx]
                == Cell::Path ==> #[trigger] lattice_closed(g, cx, cy, width, height),
        1 <= a < width - 1,
        a % 2 == 1,
        1 <= b < height - 1,
        b % 2 == 1,
    ensures
        g[b][a] == Cell::Path,
    decreases b,
{
    if b == 1 {
        lemma_lattice_row(g, width, height, a);
    } else {
        lemma_lattice_cell(g, width, height, a, b - 2);
        assert(lattice_closed(g, a, b - 2, width, height));
        reveal(lattice_closed);
    }
}

/// What generation guarantees of the produced maze and end coordinate: a
/// carved grid of the requested dimensions whose start cell `(1, 1)` is
/// `Path`, in which carving has exhausted the interior lattice - every cell
/// with both coordinates odd strictly inside the border is `Path` - and
/// whose end coordinate is the fixed cell `(width - 2, height - 2)`, itself
/// a carved lattice cell. Together with [`tree_shaped`] and the
/// connectivity clause this pins the maze down to a spanning tree over the
/// full interior lattice.
pub open spec fn generated_ok(
    g: Seq<Seq<Cell>>,
    end: (usize, usize),
    width: int,
    height: int,
) -> bool {
    &&& carved_ok(g, width, height)
    &&& g[1][1] == Cell::Path
    &&& end.0 + 2 == width
    &&& end.1 + 2 == height
    &&& g[end.1 as int][end.0 as int] == Cell::Path
    &&& forall|cx: int, cy: int|
        1 <= cx < width - 1 && 1 <= cy < height - 1 && cx % 2 == 1 && cy % 2 == 1
            ==> #[trigger] g[cy][cx] == Cell::Path
    &&& tree_shaped(g)
    &&& midpoints_supported(g, width, height)
    &&& forall|cx: usize, cy: usize|
        cy < height && cx < width && #[trigger] g[cy as int][cx as int] == Cell::Path ==> connected(
            g,
            (1usize, 1usize),
            (cx, cy),
        )
}

/// Border invariant: in any carved grid - so in any generated maze - every
/// cell of row 0, row `height - 1`, column 0 or column `width - 1` is `Wall`.
pub proof fn lemma_border_wall(g: Seq<Seq<Cell>>, width: int, height: int)
    requires
        carved_ok(g, width, height),
    ensures
        forall|x: int, y: int|
            0 <= y < height && 0 <= x < width && (x == 0 || y == 0 || x == width - 1 || y == height
                - 1) ==> #[trigger] g[y][x] == Cell::Wall,
{
    assert forall|x: int, y: int|
        0 <= y < height && 0 <= x < width && (x == 0 || y == 0 || x == width - 1 || y == height
            - 1) implies #[trigger] g[y][x] == Cell::Wall by {
        if g[y][x] == Cell::Path {
            assert(1 <= x < width - 1 && 1 <= y < height - 1);
        }
    }
}

/// Reachability: in any generated maze the search from the start cell
/// `(1, 1)` to the reported end coordinate finds a solution - the end cell
/// is `Path`, every `Path` cell is connected to the start, and the search
/// is exhaustive over connected `Path` cells.
pub proof fn lemma_generated_maze_solvable(
    g: Seq<Seq<Cell>>,
    end: (usize, usize),
    width: int,
    height: int,
)
    requires
        generated_ok(g, end, width, height),
    ensures
        solve_rec(g, init_stack((1usize, 1usize)), end).1 is Some,
{
    assert(g[end.1 as int][end.0 as int] == Cell::Path);
    assert(connected(g, (1usize, 1usize), end));
    assert(grid_wf(g));
    lemma_solve_finds_connected(g, (1usize, 1usize), end);
}

/// Builds the all-wall grid, carves from `(1, 1)`, and returns the fixed
/// end coordinate `(width - 2, height - 2)`: for odd dimensions carving
/// exhausts the interior lattice, so that lattice cell is always carved.
fn generate_with_rng(width: usize, height: usize, rng: &mut rand::rngs::StdRng) -> (r: (Vec<
    Vec<Cell>,
>, (usize, usize)))
    requires
        3 <= width,
        3 <= height,
        width % 2 == 1,
        height % 2 == 1,
    ensures
        generated_ok(gv(r.0@), r.1, width as int, height as int),
{
    let mut maze: Vec<Vec<Cell>> = Vec::new();
    while maze.len() < height
        invariant
            width >= 3,
            maze@.len() <= height,
            forall|yy: int| 0 <= yy < maze@.len() ==> (#[trigger] gv(maze@)[yy]).len() == width,
            forall|yy: int, xx: int|
                0 <= yy < maze@.len() && 0 <= xx < width ==> #[trigger] gv(maze@)[yy][xx]
                    == Cell::Wall,
        decreases height - maze@.len(),
    {
        let ghost gb = gv(maze@);
        let mut row: Vec<Cell> = Vec::new();
        while row.len() < width
            invariant
                row@.len() <= width,
                forall|xx: int| 0 <= xx < row@.len() ==> #[trigger] row@[xx] == Cell::Wall,
            decreases width - row@.len(),
        {
            row.push(Cell::Wall);
        }
        maze.push(row);
        proof {
            assert(gv(maze@) =~= gb.push(row@));
        }
    }
    let ghost g_wall = gv(maze@);
    set_cell(&mut maze, 1, 1, Cell::Path);
    proof {
        assert(carved_ok(gv(maze@), width as int, height as int));
        lemma_all_wall_counts(g_wall);
        lemma_grid_count_add(g_wall, 1, 1, Cell::Path);
        lemma_edge_count_carve(g_wall, 1, 1);
        assert(nbr_path_count(g_wall, 1, 1) == 0);
        assert(tree_shaped(gv(maze@)));
        let gs = gv(maze@);
        assert forall|cx: int, cy: int|
            0 <= cy < height && 0 <= cx < width && gs[cy][cx] == Cell::Path implies
            #[trigger] supported_at(gs, cx, cy) by {
            assert(cx == 1 && cy == 1);
        }
        assert(midpoints_supported(gs, width as int, height as int));
        assert forall|cx: usize, cy: usize|
            cy < height && cx < width && #[trigger] gs[cy as int][cx as int] == Cell::Path implies
            connected(gs, (1usize, 1usize), (cx, cy)) by {
            reveal(connected);
            assert(cx == 1 && cy == 1);
            let p = seq![(1usize, 1usize)];
            assert(p[0] == (1usize, 1usize) && p[p.len() - 1] == (1usize, 1usize));
            assert(chain_connects(gs, p, (1usize, 1usize), (1usize, 1usize)));
        }
    }
    let ghost g_pre = gv(maze@);
    carve_passage(1, 1, &mut maze, rng);
    proof {
        let g = gv(maze@);
        assert forall|cx: int, cy: int|
            1 <= cx < width - 1 && 1 <= cy < height - 1 && cx % 2 == 1 && cy % 2 == 1 && g[cy][cx]
                == Cell::Path implies #[trigger] lattice_closed(
            g,
            cx,
            cy,
            width as int,
            height as int,
        ) by {
            if !(cx == 1 && cy == 1) {
                assert(g_pre[cy][cx] == g_wall[cy][cx]);
                assert(g_pre[cy][cx] == Cell::Wall);
            }
            assert(carve_scope(g_pre, g, 1, 1, cx, cy, width as int, height as int));
        }
        assert forall|cx: int, cy: int|
            1 <= cx < width - 1 && 1 <= cy < height - 1 && cx % 2 == 1 && cy % 2 == 1 implies
            #[trigger] g[cy][cx] == Cell::Path by {
            lemma_lattice_cell(g, width as int, height as int, cx, cy);
        }
    }
    let ex = width - 2;
    let ey = height - 2;
    proof {
        assert(gv(maze@)[ey as int][ex as int] == Cell::Path);
    }
    if get_cell(&maze, ex, ey) == Cell::Path {
        return (maze, (ex, ey));
    }
    proof {
        assert(false);
    }
    (maze, (1, 1))
}

/// Generates a random perfect maze of the given dimensions and reports the
/// end coordinate, drawing every random direction ordering from a generator
/// seeded with `seed`: within one process, equal seeds give equal results.
///
/// Both dimensions must be odd and at least 3, so that the carved lattice
/// stays strictly inside a one-cell wall border.
pub fn generate_maze_seeded(width: usize, height: usize, seed: u64) -> (r: (Vec<Vec<Cell>>, (
    usize,
    usize,
)))
    requires
        3 <= width,
        3 <= height,
        width % 2 == 1,
        height % 2 == 1,
    ensures
        generated_ok(gv(r.0@), r.1, width as int, height as int),
{
    let mut rng = rng_from_seed(seed);
    generate_with_rng(width, height, &mut rng)
}

/// Generates a random perfect maze of the given dimensions and reports the
/// end coordinate, seeding the direction shuffles from the thread's random
/// number generator.
pub fn generate_maze(width: usize, height: usize) -> (r: (Vec<Vec<Cell>>, (usize, usize)))
    requires
        3 <= width,
        3 <= height,
        width % 2 == 1,
        height % 2 == 1,
    ensures
        generated_ok(gv(r.0@), r.1, width as int, height as int),
{
    let seed = random_seed();
    generate_maze_seeded(width, height, seed)
}

} // verus!
