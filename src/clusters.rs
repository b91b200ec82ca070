//! Clusters as sets of cells, and the count as their number.
use vstd::prelude::*;
use vstd::set_lib::lemma_map_size;
use crate::grid::{
    Cell, active, adjacent, cluster_count, connected, height, in_bounds, is_path, leader,
    leaders_in_row, leaders_in_rows, scanned_before, well_formed, width,
};
use crate::label::{lemma_connected_active, lemma_connected_self, lemma_connected_step};

verus! {

/// The cells that `c` reaches.
pub open spec fn cluster_of(g: Seq<Seq<bool>>, c: Cell) -> Set<Cell> {
    Set::new(|e: Cell| connected(g, c, e))
}

/// The distinct clusters of a grid. No scan order enters this definition.
pub open spec fn clusters(g: Seq<Seq<bool>>) -> Set<Set<Cell>> {
    Set::new(|s: Set<Cell>| exists|c: Cell| active(g, c) && s == cluster_of(g, c))
}

/// The leaders scanned before `pos`.
spec fn leaders_before(g: Seq<Seq<bool>>, pos: Cell) -> Set<Cell> {
    Set::new(|l: Cell| leader(g, l) && scanned_before(l, pos))
}

proof fn lemma_connected_along(g: Seq<Seq<bool>>, a: Cell, q: Seq<Cell>, i: int)
    requires
        is_path(g, q),
        connected(g, a, q[0]),
        0 <= i < q.len(),
    ensures
        connected(g, a, q[i]),
    decreases i,
{
    if i > 0 {
        lemma_connected_along(g, a, q, i - 1);
        assert(adjacent(q[i - 1], q[i]));
        assert(active(g, q[i]));
        lemma_connected_step(g, a, q[i - 1], q[i]);
    }
}

/// Connections compose.
pub proof fn lemma_connected_trans(g: Seq<Seq<bool>>, a: Cell, b: Cell, c: Cell)
    requires
        connected(g, a, b),
        connected(g, b, c),
    ensures
        connected(g, a, c),
{
    let q = choose|q: Seq<Cell>| #[trigger] is_path(g, q) && q[0] == b && q.last() == c;
    lemma_connected_along(g, a, q, q.len() - 1);
}

proof fn lemma_connected_back(g: Seq<Seq<bool>>, p: Seq<Cell>, i: int)
    requires
        is_path(g, p),
        0 <= i < p.len(),
    ensures
        connected(g, p.last(), p[i]),
    decreases p.len() - i,
{
    if i == p.len() - 1 {
        assert(active(g, p[i]));
        lemma_connected_self(g, p[i]);
    } else {
        lemma_connected_back(g, p, i + 1);
        assert(adjacent(p[i], p[i + 1]));
        assert(active(g, p[i]));
        lemma_connected_step(g, p.last(), p[i + 1], p[i]);
    }
}

/// Connections go both ways.
pub proof fn lemma_connected_symm(g: Seq<Seq<bool>>, a: Cell, b: Cell)
    requires
        connected(g, a, b),
    ensures
        connected(g, b, a),
{
    let p = choose|p: Seq<Cell>| #[trigger] is_path(g, p) && p[0] == a && p.last() == b;
    lemma_connected_back(g, p, 0);
}

/// Every active cell is reached from some leader.
proof fn lemma_leader_of(g: Seq<Seq<bool>>, c: Cell)
    requires
        well_formed(g),
        active(g, c),
    ensures
        exists|l: Cell| #[trigger] leader(g, l) && connected(g, l, c),
    decreases c.1, c.0,
{
    if leader(g, c) {
        lemma_connected_self(g, c);
    } else {
        let d = choose|d: Cell| scanned_before(d, c) && #[trigger] connected(g, d, c);
        lemma_connected_active(g, d, c);
        lemma_leader_of(g, d);
        let l = choose|l: Cell| #[trigger] leader(g, l) && connected(g, l, d);
        lemma_connected_trans(g, l, d, c);
    }
}

proof fn lemma_leaders_before_len(g: Seq<Seq<bool>>, y: int, x: int)
    requires
        well_formed(g),
        0 <= y,
        0 <= x <= width(g),
    ensures
        leaders_before(g, (x, y)).finite(),
        leaders_before(g, (x, y)).len() == leaders_in_rows(g, y) + leaders_in_row(g, y, x),
    decreases y, x,
{
    if x > 0 {
        lemma_leaders_before_len(g, y, x - 1);
        let prev = leaders_before(g, (x - 1, y));
        let cur = leaders_before(g, (x, y));
        let p: Cell = (x - 1, y);
        if leader(g, p) {
            assert(cur =~= prev.insert(p));
            assert(!prev.contains(p));
        } else {
            assert(cur =~= prev);
        }
    } else if y > 0 {
        lemma_leaders_before_len(g, y - 1, width(g));
        assert(leaders_before(g, (0, y)) =~= leaders_before(g, (width(g), y - 1)));
    } else {
        assert(leaders_before(g, (0, 0)) =~= Set::<Cell>::empty());
    }
}

/// The count does not depend on the order in which the cells are scanned:
/// it is the number of distinct clusters of the grid.
pub proof fn lemma_count_is_number_of_clusters(g: Seq<Seq<bool>>)
    requires
        well_formed(g),
    ensures
        clusters(g).finite(),
        clusters(g).len() == cluster_count(g),
{
    let h = height(g);
    let end: Cell = (0, h);
    lemma_leaders_before_len(g, h, 0);
    let ls = leaders_before(g, end);
    let f = |l: Cell| cluster_of(g, l);
    assert forall|a: Cell, b: Cell| ls.contains(a) && ls.contains(b) && #[trigger] f(a) == #[trigger] f(b)
        implies a == b by {
        lemma_connected_self(g, a);
        lemma_connected_self(g, b);
        assert(f(b).contains(b));
        assert(f(a).contains(a));
        assert(connected(g, a, b));
        assert(connected(g, b, a));
        if a != b {
            if scanned_before(a, b) {
                assert(!leader(g, b));
            } else {
                assert(scanned_before(b, a));
                assert(!leader(g, a));
            }
        }
    }
    assert forall|s: Set<Cell>| #[trigger] clusters(g).contains(s) == ls.map(f).contains(s) by {
        if clusters(g).contains(s) {
            let c = choose|c: Cell| active(g, c) && s == cluster_of(g, c);
            lemma_leader_of(g, c);
            let l = choose|l: Cell| #[trigger] leader(g, l) && connected(g, l, c);
            assert(scanned_before(l, end));
            assert(ls.contains(l));
            assert forall|e: Cell| #[trigger] cluster_of(g, l).contains(e) == cluster_of(g, c).contains(e) by {
                if connected(g, l, e) {
                    lemma_connected_symm(g, l, c);
                    lemma_connected_trans(g, c, l, e);
                }
                if connected(g, c, e) {
                    lemma_connected_trans(g, l, c, e);
                }
            }
            assert(cluster_of(g, l) =~= s);
            assert(f(l) == s);
        }
        if ls.map(f).contains(s) {
            let l = choose|l: Cell| ls.contains(l) && s == f(l);
            assert(active(g, l));
        }
    }
    assert(ls.map(f) =~= clusters(g));
    lemma_map_size(ls, clusters(g), f);
}

} // verus!
