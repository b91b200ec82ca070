//! Connected-component labelling: counting the clusters of an occupancy grid.
use vstd::prelude::*;
use crate::grid::{
    Cell, active, adjacent, cluster_count, connected, in_bounds, is_path, leader, leaders_in_row,
    leaders_in_rows, same_shape, scanned_before, well_formed, all_inactive, height, width,
};

verus! {

/// Every active neighbour of `a` is marked in `v`.
pub open spec fn closed_at(g: Seq<Seq<bool>>, v: Seq<Seq<bool>>, a: Cell) -> bool {
    forall|b: Cell| adjacent(a, b) && active(g, b) ==> #[trigger] v[b.0][b.1]
}

/// A marking in which every marked cell has all its active neighbours marked.
pub open spec fn closed(g: Seq<Seq<bool>>, v: Seq<Seq<bool>>) -> bool {
    forall|a: Cell| in_bounds(g, a) && v[a.0][a.1] ==> #[trigger] closed_at(g, v, a)
}

/// `v1` marks what `v0` marks and, besides, every cell that `s` reaches.
pub open spec fn grown_by(g: Seq<Seq<bool>>, v0: Seq<Seq<bool>>, v1: Seq<Seq<bool>>, s: Cell) -> bool {
    forall|c: Cell| in_bounds(g, c) ==> (#[trigger] v1[c.0][c.1] == (v0[c.0][c.1] || connected(g, s, c)))
}

/// The positions held by a worklist.
spec fn pending(stack: Seq<(usize, usize)>, a: Cell) -> bool {
    exists|i: int| 0 <= i < stack.len() && #[trigger] stack[i].0 as int == a.0 && stack[i].1 as int == a.1
}

/// The number of unmarked entries of a column.
spec fn unmarked_in(col: Seq<bool>) -> nat
    decreases col.len(),
{
    if col.len() == 0 {
        0
    } else {
        unmarked_in(col.drop_last()) + if col.last() {
            0nat
        } else {
            1nat
        }
    }
}

/// The number of unmarked cells of a grid.
spec fn unmarked(v: Seq<Seq<bool>>) -> nat
    decreases v.len(),
{
    if v.len() == 0 {
        0
    } else {
        unmarked(v.drop_last()) + unmarked_in(v.last())
    }
}

proof fn lemma_unmarked_in_set(col: Seq<bool>, y: int)
    requires
        0 <= y < col.len(),
        !col[y],
    ensures
        unmarked_in(col.update(y, true)) + 1 == unmarked_in(col),
    decreases col.len(),
{
    let c2 = col.update(y, true);
    if y == col.len() - 1 {
        assert(c2.drop_last() =~= col.drop_last());
    } else {
        lemma_unmarked_in_set(col.drop_last(), y);
        assert(c2.drop_last() =~= col.drop_last().update(y, true));
    }
}

proof fn lemma_unmarked_set(v: Seq<Seq<bool>>, x: int, col: Seq<bool>)
    requires
        0 <= x < v.len(),
        unmarked_in(col) + 1 == unmarked_in(v[x]),
    ensures
        unmarked(v.update(x, col)) + 1 == unmarked(v),
    decreases v.len(),
{
    let v2 = v.update(x, col);
    if x == v.len() - 1 {
        assert(v2.drop_last() =~= v.drop_last());
    } else {
        lemma_unmarked_set(v.drop_last(), x, col);
        assert(v2.drop_last() =~= v.drop_last().update(x, col));
    }
}

/// An active cell reaches itself.
pub proof fn lemma_connected_self(g: Seq<Seq<bool>>, c: Cell)
    requires
        active(g, c),
    ensures
        connected(g, c, c),
{
    let p = seq![c];
    assert(is_path(g, p));
}

/// Both ends of a connection are active.
pub proof fn lemma_connected_active(g: Seq<Seq<bool>>, a: Cell, b: Cell)
    requires
        connected(g, a, b),
    ensures
        active(g, a),
        active(g, b),
{
    let p = choose|p: Seq<Cell>| #[trigger] is_path(g, p) && p[0] == a && p.last() == b;
    assert(active(g, p[0]));
    assert(active(g, p[p.len() - 1]));
}

/// A connection extends by one step to an active neighbour.
pub proof fn lemma_connected_step(g: Seq<Seq<bool>>, a: Cell, b: Cell, c: Cell)
    requires
        connected(g, a, b),
        adjacent(b, c),
        active(g, c),
    ensures
        connected(g, a, c),
{
    let p = choose|p: Seq<Cell>| #[trigger] is_path(g, p) && p[0] == a && p.last() == b;
    let q = p.push(c);
    assert forall|i: int| 0 <= i < q.len() - 1 implies adjacent(#[trigger] q[i], q[i + 1]) by {
        if i < p.len() - 1 {
            assert(adjacent(p[i], p[i + 1]));
        }
    }
    assert forall|i: int| 0 <= i < q.len() implies active(g, #[trigger] q[i]) by {
        if i < p.len() {
            assert(active(g, p[i]));
        }
    }
    assert(is_path(g, q));
}

proof fn lemma_closed_along(g: Seq<Seq<bool>>, v: Seq<Seq<bool>>, p: Seq<Cell>, i: int)
    requires
        closed(g, v),
        is_path(g, p),
        0 <= i < p.len(),
        v[p[0].0][p[0].1],
    ensures
        v[p[i].0][p[i].1],
    decreases i,
{
    if i > 0 {
        lemma_closed_along(g, v, p, i - 1);
        assert(active(g, p[i - 1]));
        assert(closed_at(g, v, p[i - 1]));
        assert(adjacent(p[i - 1], p[i]));
        assert(active(g, p[i]));
    }
}

/// A closed marking that holds `a` holds every cell that `a` reaches.
pub proof fn lemma_closed_reaches(g: Seq<Seq<bool>>, v: Seq<Seq<bool>>, a: Cell, b: Cell)
    requires
        closed(g, v),
        v[a.0][a.1],
        connected(g, a, b),
    ensures
        v[b.0][b.1],
{
    let p = choose|p: Seq<Cell>| #[trigger] is_path(g, p) && p[0] == a && p.last() == b;
    lemma_closed_along(g, v, p, p.len() - 1);
}

/// Marks the cell at column `x`, row `y`.
fn set_cell(v: &mut Vec<Vec<bool>>, x: usize, y: usize)
    requires
        x < old(v).deep_view().len(),
        y < old(v).deep_view()[x as int].len(),
    ensures
        final(v).deep_view() == old(v).deep_view().update(
            x as int,
            old(v).deep_view()[x as int].update(y as int, true),
        ),
{
    let ghost before = v.deep_view();
    let ghost old_v = v@;
    assert(before[x as int] == old_v[x as int].deep_view());
    v[x].set(y, true);
    assert(v@[x as int]@ == old_v[x as int]@.update(y as int, true));
    assert(v@[x as int].deep_view() =~= before[x as int].update(y as int, true));
    assert forall|i: int| 0 <= i < v@.len() && i != x implies v@[i] == old_v[i] by {}
    assert(v.deep_view() =~= before.update(x as int, before[x as int].update(y as int, true)));
}

/// What marking one cell changes.
proof fn lemma_mark_one(g: Seq<Seq<bool>>, vb: Seq<Seq<bool>>, va: Seq<Seq<bool>>, n: Cell)
    requires
        well_formed(g),
        same_shape(g, vb),
        in_bounds(g, n),
        va == vb.update(n.0, vb[n.0].update(n.1, true)),
    ensures
        same_shape(g, va),
        forall|c: Cell| in_bounds(g, c) ==> (#[trigger] va[c.0][c.1] == (vb[c.0][c.1] || c == n)),
{
    assert forall|x: int| 0 <= x < g.len() implies #[trigger] g[x].len() == va[x].len() by {
        assert(g[x].len() == vb[x].len());
    }
    assert forall|c: Cell| in_bounds(g, c) implies (#[trigger] va[c.0][c.1] == (vb[c.0][c.1] || c == n)) by {
        assert(g[c.0].len() == vb[c.0].len());
    }
}

/// Marks every cell that the active cell `start` reaches, with an explicit
/// worklist. Each cell is marked before it is pushed, so it is pushed at
/// most once; out-of-range neighbours are skipped.
pub fn mark_group(start: (usize, usize), stars: &Vec<Vec<bool>>, visited: &mut Vec<Vec<bool>>)
    requires
        well_formed(stars.deep_view()),
        same_shape(stars.deep_view(), old(visited).deep_view()),
        active(stars.deep_view(), (start.0 as int, start.1 as int)),
        closed(stars.deep_view(), old(visited).deep_view()),
    ensures
        same_shape(stars.deep_view(), final(visited).deep_view()),
        closed(stars.deep_view(), final(visited).deep_view()),
        grown_by(
            stars.deep_view(),
            old(visited).deep_view(),
            final(visited).deep_view(),
            (start.0 as int, start.1 as int),
        ),
{
    let ghost g = stars.deep_view();
    let ghost v0 = visited.deep_view();
    let ghost s: Cell = (start.0 as int, start.1 as int);
    let width = stars.len();
    let height = stars[0].len();
    proof {
        lemma_connected_self(g, s);
    }
    assert(v0[s.0].len() == g[s.0].len());
    set_cell(visited, start.0, start.1);
    let mut to_visit: Vec<(usize, usize)> = Vec::new();
    to_visit.push(start);
    proof {
        let v1 = visited.deep_view();
        assert(to_visit@[0] == start);
        assert forall|x: int| 0 <= x < g.len() implies #[trigger] g[x].len() == v1[x].len() by {
            assert(g[x].len() == v0[x].len());
        }
        assert forall|c: Cell| in_bounds(g, c) implies (v0[c.0][c.1] ==> #[trigger] v1[c.0][c.1]) by {
            assert(g[c.0].len() == v0[c.0].len());
        }
        assert forall|a: Cell| in_bounds(g, a) && v1[a.0][a.1] && !pending(to_visit@, a)
            implies #[trigger] closed_at(g, v1, a) by {
            assert(a != s);
            assert(g[a.0].len() == v0[a.0].len());
            assert(v0[a.0][a.1]);
            assert(closed_at(g, v0, a));
            assert forall|b: Cell| adjacent(a, b) && active(g, b) implies #[trigger] v1[b.0][b.1] by {
                assert(g[b.0].len() == v0[b.0].len());
                assert(v0[b.0][b.1]);
            }
        }
    }
    while to_visit.len() > 0
        invariant
            g == stars.deep_view(),
            well_formed(g),
            width == g.len(),
            height == g[0].len(),
            same_shape(g, visited.deep_view()),
            closed(g, v0),
            forall|c: Cell| #![trigger visited.deep_view()[c.0][c.1]]
                in_bounds(g, c) ==> (v0[c.0][c.1] ==> visited.deep_view()[c.0][c.1]),
            forall|c: Cell| #![trigger visited.deep_view()[c.0][c.1]]
                in_bounds(g, c) ==> (visited.deep_view()[c.0][c.1] ==> v0[c.0][c.1] || connected(g, s, c)),
            visited.deep_view()[s.0][s.1],
            forall|i: int| 0 <= i < to_visit@.len() ==> {
                let e = #[trigger] to_visit@[i];
                &&& e.0 < width
                &&& e.1 < height
                &&& visited.deep_view()[e.0 as int][e.1 as int]
                &&& connected(g, s, (e.0 as int, e.1 as int))
            },
            forall|a: Cell| in_bounds(g, a) && visited.deep_view()[a.0][a.1] && !pending(to_visit@, a)
                ==> #[trigger] closed_at(g, visited.deep_view(), a),
        decreases 2 * unmarked(visited.deep_view()) + to_visit@.len(),
    {
        let ghost measure = 2 * unmarked(visited.deep_view()) + to_visit@.len();
        let ghost before_pop = to_visit@;
        let (x, y) = to_visit.pop().unwrap();
        let ghost pc: Cell = (x as int, y as int);
        assert(before_pop[before_pop.len() - 1] == (x, y));
        assert forall|a: Cell| a != pc && !pending(to_visit@, a) implies !pending(before_pop, a) by {
            if pending(before_pop, a) {
                let i = choose|i: int| 0 <= i < before_pop.len() && #[trigger] before_pop[i].0 as int == a.0 && before_pop[i].1 as int == a.1;
                assert(i < to_visit@.len());
                assert(to_visit@[i] == before_pop[i]);
            }
        }
        let lo_x = if x > 0 { x - 1 } else { x };
        let hi_x = if x + 1 < width { x + 1 } else { x };
        let lo_y = if y > 0 { y - 1 } else { y };
        let hi_y = if y + 1 < height { y + 1 } else { y };
        let mut nx = lo_x;
        while nx <= hi_x
            invariant
                g == stars.deep_view(),
                well_formed(g),
                width == g.len(),
                height == g[0].len(),
                x < width,
                y < height,
                pc == (x as int, y as int),
                lo_x <= nx <= hi_x + 1,
                lo_x as int == if x > 0 { x - 1 } else { x as int },
                hi_x < width,
                hi_x as int == if x + 1 < width { x + 1 } else { x as int },
                lo_y as int == if y > 0 { y - 1 } else { y as int },
                hi_y < height,
                hi_y as int == if y + 1 < height { y + 1 } else { y as int },
                same_shape(g, visited.deep_view()),
                closed(g, v0),
                forall|c: Cell| #![trigger visited.deep_view()[c.0][c.1]]
                    in_bounds(g, c) ==> (v0[c.0][c.1] ==> visited.deep_view()[c.0][c.1]),
                forall|c: Cell| #![trigger visited.deep_view()[c.0][c.1]]
                    in_bounds(g, c) ==> (visited.deep_view()[c.0][c.1] ==> v0[c.0][c.1] || connected(g, s, c)),
                visited.deep_view()[s.0][s.1],
                visited.deep_view()[pc.0][pc.1],
                connected(g, s, pc),
                forall|i: int| 0 <= i < to_visit@.len() ==> {
                    let e = #[trigger] to_visit@[i];
                    &&& e.0 < width
                    &&& e.1 < height
                    &&& visited.deep_view()[e.0 as int][e.1 as int]
                    &&& connected(g, s, (e.0 as int, e.1 as int))
                },
                forall|a: Cell| in_bounds(g, a) && visited.deep_view()[a.0][a.1] && !pending(to_visit@, a) && a != pc
                    ==> #[trigger] closed_at(g, visited.deep_view(), a),
                forall|b: Cell| #![trigger visited.deep_view()[b.0][b.1]]
                    adjacent(pc, b) && active(g, b) && b.0 < nx ==> visited.deep_view()[b.0][b.1],
                2 * unmarked(visited.deep_view()) + to_visit@.len() < measure,
            decreases hi_x + 1 - nx,
        {
            let mut ny = lo_y;
            while ny <= hi_y
                invariant
                    g == stars.deep_view(),
                    well_formed(g),
                    width == g.len(),
                    height == g[0].len(),
                    x < width,
                    y < height,
                    pc == (x as int, y as int),
                    lo_x <= nx <= hi_x,
                    lo_y <= ny <= hi_y + 1,
                    lo_x as int == if x > 0 { x - 1 } else { x as int },
                    hi_x < width,
                    hi_x as int == if x + 1 < width { x + 1 } else { x as int },
                    lo_y as int == if y > 0 { y - 1 } else { y as int },
                    hi_y < height,
                    hi_y as int == if y + 1 < height { y + 1 } else { y as int },
                    same_shape(g, visited.deep_view()),
                    closed(g, v0),
                    forall|c: Cell| #![trigger visited.deep_view()[c.0][c.1]]
                        in_bounds(g, c) ==> (v0[c.0][c.1] ==> visited.deep_view()[c.0][c.1]),
                    forall|c: Cell| #![trigger visited.deep_view()[c.0][c.1]]
                        in_bounds(g, c) ==> (visited.deep_view()[c.0][c.1] ==> v0[c.0][c.1] || connected(g, s, c)),
                    visited.deep_view()[s.0][s.1],
                    visited.deep_view()[pc.0][pc.1],
                    connected(g, s, pc),
                    forall|i: int| 0 <= i < to_visit@.len() ==> {
                        let e = #[trigger] to_visit@[i];
                        &&& e.0 < width
                        &&& e.1 < height
                        &&& visited.deep_view()[e.0 as int][e.1 as int]
                        &&& connected(g, s, (e.0 as int, e.1 as int))
                    },
                    forall|a: Cell| in_bounds(g, a) && visited.deep_view()[a.0][a.1] && !pending(to_visit@, a) && a != pc
                        ==> #[trigger] closed_at(g, visited.deep_view(), a),
                    forall|b: Cell| #![trigger visited.deep_view()[b.0][b.1]]
                        adjacent(pc, b) && active(g, b) && (b.0 < nx || (b.0 == nx && b.1 < ny))
                            ==> visited.deep_view()[b.0][b.1],
                    2 * unmarked(visited.deep_view()) + to_visit@.len() < measure,
                decreases hi_y + 1 - ny,
            {
                let ghost n: Cell = (nx as int, ny as int);
                let ghost vb = visited.deep_view();
                assert(g[n.0].len() == g[0].len());
                assert(vb[n.0].len() == g[n.0].len());
                assert(stars@[n.0]@[n.1] == g[n.0][n.1]);
                assert(visited@[n.0]@[n.1] == vb[n.0][n.1]);
                if stars[nx][ny] && !visited[nx][ny] {
                    let ghost sb = to_visit@;
                    proof {
                        lemma_connected_step(g, s, pc, n);
                        lemma_unmarked_in_set(vb[n.0], n.1);
                        lemma_unmarked_set(vb, n.0, vb[n.0].update(n.1, true));
                    }
                    set_cell(visited, nx, ny);
                    to_visit.push((nx, ny));
                    proof {
                        let va = visited.deep_view();
                        lemma_mark_one(g, vb, va, n);
                        assert forall|a: Cell| in_bounds(g, a) && va[a.0][a.1] && !pending(to_visit@, a) && a != pc
                            implies #[trigger] closed_at(g, va, a) by {
                            assert(to_visit@[sb.len() as int] == (nx, ny));
                            assert(a != n);
                            if pending(sb, a) {
                                let i = choose|i: int| 0 <= i < sb.len() && #[trigger] sb[i].0 as int == a.0 && sb[i].1 as int == a.1;
                                assert(to_visit@[i] == sb[i]);
                            }
                            assert(vb[a.0][a.1]);
                            assert(closed_at(g, vb, a));
                            assert forall|b: Cell| adjacent(a, b) && active(g, b) implies #[trigger] va[b.0][b.1] by {
                                assert(vb[b.0][b.1]);
                            }
                        }
                        assert forall|i: int| 0 <= i < to_visit@.len() implies {
                            let e = #[trigger] to_visit@[i];
                            &&& e.0 < width
                            &&& e.1 < height
                            &&& va[e.0 as int][e.1 as int]
                            &&& connected(g, s, (e.0 as int, e.1 as int))
                        } by {
                            if i < sb.len() {
                                assert(to_visit@[i] == sb[i]);
                            }
                        }
                    }
                }
                ny = ny + 1;
            }
            nx = nx + 1;
        }
        proof {
            let va = visited.deep_view();
            assert(closed_at(g, va, pc));
        }
    }
    proof {
        let va = visited.deep_view();
        assert forall|a: Cell| in_bounds(g, a) && va[a.0][a.1] implies #[trigger] closed_at(g, va, a) by {
            assert(!pending(to_visit@, a));
        }
        assert forall|c: Cell| in_bounds(g, c) implies (#[trigger] va[c.0][c.1] == (v0[c.0][c.1] || connected(g, s, c))) by {
            if connected(g, s, c) {
                lemma_closed_reaches(g, va, s, c);
            }
        }
    }
}

/// `c` is reached from some cell scanned before `pos`.
spec fn covered(g: Seq<Seq<bool>>, c: Cell, pos: Cell) -> bool {
    exists|d: Cell| scanned_before(d, pos) && #[trigger] connected(g, d, c)
}

/// A grid of `width` columns and `height` rows, every cell unmarked.
fn unmarked_grid(width: usize, height: usize) -> (r: Vec<Vec<bool>>)
    ensures
        r.deep_view().len() == width,
        forall|x: int| 0 <= x < width ==> #[trigger] r.deep_view()[x].len() == height,
        forall|x: int, y: int| 0 <= x < width && 0 <= y < height ==> !#[trigger] r.deep_view()[x][y],
{
    let mut r: Vec<Vec<bool>> = Vec::new();
    let mut x: usize = 0;
    while x < width
        invariant
            x <= width,
            r.deep_view().len() == x,
            forall|i: int| 0 <= i < x ==> #[trigger] r.deep_view()[i].len() == height,
            forall|i: int, j: int| 0 <= i < x && 0 <= j < height ==> !#[trigger] r.deep_view()[i][j],
        decreases width - x,
    {
        let mut col: Vec<bool> = Vec::new();
        let mut y: usize = 0;
        while y < height
            invariant
                y <= height,
                col@.len() == y,
                forall|j: int| 0 <= j < y ==> !#[trigger] col@[j],
            decreases height - y,
        {
            col.push(false);
            y += 1;
        }
        let ghost before = r.deep_view();
        r.push(col);
        assert(r.deep_view() =~= before.push(col.deep_view()));
        x += 1;
    }
    r
}

/// Counts the clusters of `stars` and returns the visited grid of the scan,
/// which marks exactly the active cells.
pub fn count_groups_with_visited(stars: &Vec<Vec<bool>>) -> (r: (u64, Vec<Vec<bool>>))
    requires
        well_formed(stars.deep_view()),
        stars.deep_view().len() * stars.deep_view()[0].len() <= u64::MAX,
    ensures
        r.0 == cluster_count(stars.deep_view()),
        r.1.deep_view() == stars.deep_view(),
{
    let ghost g = stars.deep_view();
    let width = stars.len();
    let height = stars[0].len();
    let mut visited = unmarked_grid(width, height);
    let mut groups: u64 = 0;
    proof {
        let v = visited.deep_view();
        assert forall|x: int| 0 <= x < g.len() implies #[trigger] g[x].len() == v[x].len() by {
            assert(g[x].len() == g[0].len());
        }
        assert forall|c: Cell| in_bounds(g, c) implies (#[trigger] v[c.0][c.1] == covered(g, c, (0, 0))) by {
            if covered(g, c, (0, 0)) {
                let d = choose|d: Cell| scanned_before(d, (0, 0)) && #[trigger] connected(g, d, c);
                lemma_connected_active(g, d, c);
            }
        }
    }
    let mut y: usize = 0;
    while y < height
        invariant
            g == stars.deep_view(),
            well_formed(g),
            width == g.len(),
            height == g[0].len(),
            width * height <= u64::MAX,
            y <= height,
            same_shape(g, visited.deep_view()),
            closed(g, visited.deep_view()),
            forall|c: Cell| in_bounds(g, c) ==> (#[trigger] visited.deep_view()[c.0][c.1] == covered(g, c, (0, y as int))),
            groups == leaders_in_rows(g, y as int),
            groups <= y * width,
        decreases height - y,
    {
        let mut x: usize = 0;
        while x < width
            invariant
                g == stars.deep_view(),
                well_formed(g),
                width == g.len(),
                height == g[0].len(),
                width * height <= u64::MAX,
                y < height,
                x <= width,
                same_shape(g, visited.deep_view()),
                closed(g, visited.deep_view()),
                forall|c: Cell| in_bounds(g, c) ==> (#[trigger] visited.deep_view()[c.0][c.1] == covered(g, c, (x as int, y as int))),
                groups == leaders_in_rows(g, y as int) + leaders_in_row(g, y as int, x as int),
                groups <= y * width + x,
            decreases width - x,
        {
            let ghost p: Cell = (x as int, y as int);
            let ghost next: Cell = (x as int + 1, y as int);
            let ghost vb = visited.deep_view();
            assert(g[p.0].len() == g[0].len());
            assert(vb[p.0].len() == g[p.0].len());
            assert(stars@[p.0]@[p.1] == g[p.0][p.1]);
            assert(visited@[p.0]@[p.1] == vb[p.0][p.1]);
            assert(leader(g, p) == (g[p.0][p.1] && !vb[p.0][p.1]));
            if stars[x][y] && !visited[x][y] {
                proof {
                    assert((y + 1) * width <= height * width) by (nonlinear_arith)
                        requires y + 1 <= height;
                    assert((y + 1) * width == y * width + width) by (nonlinear_arith);
                }
                groups += 1;
                mark_group((x, y), stars, &mut visited);
                proof {
                    let va = visited.deep_view();
                    assert forall|c: Cell| in_bounds(g, c) implies (#[trigger] va[c.0][c.1] == covered(g, c, next)) by {
                        if covered(g, c, next) {
                            let d = choose|d: Cell| scanned_before(d, next) && #[trigger] connected(g, d, c);
                            if d != p {
                                assert(scanned_before(d, p));
                            }
                        }
                        if vb[c.0][c.1] {
                            let d = choose|d: Cell| scanned_before(d, p) && #[trigger] connected(g, d, c);
                            assert(scanned_before(d, next));
                        }
                        if connected(g, p, c) {
                            assert(scanned_before(p, next));
                        }
                    }
                }
            } else {
                proof {
                    assert forall|c: Cell| in_bounds(g, c) implies (#[trigger] vb[c.0][c.1] == covered(g, c, next)) by {
                        if covered(g, c, next) {
                            let d = choose|d: Cell| scanned_before(d, next) && #[trigger] connected(g, d, c);
                            if d != p {
                                assert(scanned_before(d, p));
                            } else {
                                lemma_connected_active(g, d, c);
                                lemma_closed_reaches(g, vb, p, c);
                            }
                        }
                        if vb[c.0][c.1] {
                            let d = choose|d: Cell| scanned_before(d, p) && #[trigger] connected(g, d, c);
                            assert(scanned_before(d, next));
                        }
                    }
                }
            }
            x += 1;
        }
        proof {
            let v = visited.deep_view();
            let pos: Cell = (width as int, y as int);
            let next: Cell = (0, y as int + 1);
            assert forall|c: Cell| in_bounds(g, c) implies (#[trigger] v[c.0][c.1] == covered(g, c, next)) by {
                if covered(g, c, next) {
                    let d = choose|d: Cell| scanned_before(d, next) && #[trigger] connected(g, d, c);
                    lemma_connected_active(g, d, c);
                    assert(scanned_before(d, pos));
                }
                if v[c.0][c.1] {
                    let d = choose|d: Cell| scanned_before(d, pos) && #[trigger] connected(g, d, c);
                    assert(scanned_before(d, next));
                }
            }
            assert((y + 1) * width == y * width + width) by (nonlinear_arith);
        }
        y += 1;
    }
    proof {
        let v = visited.deep_view();
        assert forall|a: int| 0 <= a < g.len() implies #[trigger] v[a] =~= g[a] by {
            assert(g[a].len() == g[0].len());
            assert forall|b: int| 0 <= b < g[a].len() implies v[a][b] == g[a][b] by {
                let c: Cell = (a, b);
                assert(v[c.0][c.1] == covered(g, c, (0, height as int)));
                if g[a][b] {
                    lemma_connected_self(g, c);
                    assert(scanned_before(c, (0, height as int)));
                }
                if covered(g, c, (0, height as int)) {
                    let d = choose|d: Cell| scanned_before(d, (0, height as int)) && #[trigger] connected(g, d, c);
                    lemma_connected_active(g, d, c);
                }
            }
        }
        assert(v =~= g);
    }
    (groups, visited)
}

/// Counts the maximal 8-connected regions of active cells of `stars`.
pub fn count_groups(stars: &Vec<Vec<bool>>) -> (r: u64)
    requires
        well_formed(stars.deep_view()),
        stars.deep_view().len() * stars.deep_view()[0].len() <= u64::MAX,
    ensures
        r == cluster_count(stars.deep_view()),
{
    let (groups, _visited) = count_groups_with_visited(stars);
    groups
}

proof fn lemma_no_leader_in_row(g: Seq<Seq<bool>>, y: int, x: int)
    requires
        well_formed(g),
        all_inactive(g),
    ensures
        leaders_in_row(g, y, x) == 0,
    decreases x,
{
    if x > 0 {
        lemma_no_leader_in_row(g, y, x - 1);
        if in_bounds(g, (x - 1, y)) {
            assert(!g[x - 1][y]);
        }
    }
}

proof fn lemma_no_leader_in_rows(g: Seq<Seq<bool>>, y: int)
    requires
        well_formed(g),
        all_inactive(g),
    ensures
        leaders_in_rows(g, y) == 0,
    decreases y,
{
    if y > 0 {
        lemma_no_leader_in_rows(g, y - 1);
        lemma_no_leader_in_row(g, y - 1, width(g));
    }
}

/// Every active cell is reached from a leader, so an active cell implies a
/// leader.
proof fn lemma_exists_leader(g: Seq<Seq<bool>>, c: Cell)
    requires
        well_formed(g),
        active(g, c),
    ensures
        exists|l: Cell| #[trigger] leader(g, l),
    decreases c.1, c.0,
{
    if leader(g, c) {
    } else {
        let d = choose|d: Cell| scanned_before(d, c) && #[trigger] connected(g, d, c);
        lemma_connected_active(g, d, c);
        lemma_exists_leader(g, d);
    }
}

proof fn lemma_leader_counted_in_row(g: Seq<Seq<bool>>, l: Cell, x: int)
    requires
        leader(g, l),
        l.0 < x,
    ensures
        leaders_in_row(g, l.1, x) >= 1,
    decreases x,
{
    if x - 1 > l.0 {
        lemma_leader_counted_in_row(g, l, x - 1);
    } else {
        assert((x - 1, l.1) == l);
    }
}

proof fn lemma_leader_counted(g: Seq<Seq<bool>>, l: Cell, y: int)
    requires
        leader(g, l),
        l.1 < y,
    ensures
        leaders_in_rows(g, y) >= 1,
    decreases y,
{
    if y - 1 > l.1 {
        lemma_leader_counted(g, l, y - 1);
    } else {
        lemma_leader_counted_in_row(g, l, width(g));
    }
}

/// A grid has no cluster exactly when none of its cells is active.
pub proof fn lemma_no_clusters_iff_all_inactive(g: Seq<Seq<bool>>)
    requires
        well_formed(g),
    ensures
        (cluster_count(g) == 0) == all_inactive(g),
{
    if all_inactive(g) {
        lemma_no_leader_in_rows(g, height(g));
    } else {
        let c = choose|c: Cell| in_bounds(g, c) && #[trigger] g[c.0][c.1];
        lemma_exists_leader(g, c);
        let l = choose|l: Cell| #[trigger] leader(g, l);
        lemma_leader_counted(g, l, height(g));
    }
}

} // verus!
