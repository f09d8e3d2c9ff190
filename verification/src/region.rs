//! Regions: maximal 4-connected sets of solid cells.
//!
//! A `Region` pairs a seed cell (`start`) with the full membership list of
//! the connected component that contains it. Membership is modelled at the
//! specification level as a predicate over `(int, int)` cell positions, so
//! that positions outside the grid (including negative ones) are simply
//! absent.

use vstd::prelude::*;

use crate::grid::Grid;

verus! {

/// A cell or lattice-corner position widened to mathematical integers.
pub open spec fn pt(p: (usize, usize)) -> (int, int) {
    (p.0 as int, p.1 as int)
}

/// Whether the cell list `ms` holds the cell at position `c`.
pub open spec fn cells_have(ms: Seq<(usize, usize)>, c: (int, int)) -> bool {
    exists|i: int| 0 <= i < ms.len() && pt(#[trigger] ms[i]) == c
}

/// One maximal 4-connected set of solid cells, together with the cell that
/// seeded its discovery.
pub struct Region {
    pub start: (usize, usize),
    pub members: Vec<(usize, usize)>,
}

impl Region {
    /// Whether the cell at position `c` belongs to this region.
    pub open spec fn has(self, c: (int, int)) -> bool {
        cells_have(self.members@, c)
    }

    /// Every member cell leaves room for its corners: both coordinates stay
    /// below `usize::MAX`, so corner positions fit in `usize`.
    pub open spec fn bounded(self) -> bool {
        forall|i: int|
            0 <= i < self.members@.len() ==> (#[trigger] self.members@[i]).0 < usize::MAX
                && self.members@[i].1 < usize::MAX
    }

    /// The start cell is a member and its west, north-west and north
    /// neighbours are not, so the top-left corner of the start cell lies on
    /// the region's outline with empty cells above it. Region discovery in
    /// scan order always picks such a start.
    pub open spec fn traceable(self) -> bool {
        let (sx, sy) = pt(self.start);
        &&& self.has((sx, sy))
        &&& !self.has((sx - 1, sy))
        &&& !self.has((sx, sy - 1))
        &&& !self.has((sx - 1, sy - 1))
    }

    /// Whether the lattice corner `v` is a genuine corner of the region's
    /// outline: among the four cells that touch `v` there is at least one
    /// member and at least one non-member, and the members do not form a
    /// straight-edge pattern (two members side by side over two non-members).
    #[verifier::opaque]
    pub open spec fn is_corner(self, v: (int, int)) -> bool {
        let nw = self.has((v.0 - 1, v.1 - 1));
        let ne = self.has((v.0, v.1 - 1));
        let sw = self.has((v.0 - 1, v.1));
        let se = self.has((v.0, v.1));
        &&& (nw || ne || sw || se)
        &&& !(nw && ne && sw && se)
        &&& !(nw && ne && !sw && !se)
        &&& !(sw && se && !nw && !ne)
        &&& !(nw && sw && !ne && !se)
        &&& !(ne && se && !nw && !sw)
    }

    /// Tests membership of the cell at `(x, y)`.
    pub fn contains(&self, x: usize, y: usize) -> (b: bool)
        ensures
            b == self.has((x as int, y as int)),
    {
        let mut i: usize = 0;
        while i < self.members.len()
            invariant
                i <= self.members@.len(),
                forall|j: int| 0 <= j < i ==> pt(#[trigger] self.members@[j]) != (x as int, y as int),
            decreases self.members@.len() - i,
        {
            let m = self.members[i];
            if m.0 == x && m.1 == y {
                return true;
            }
            i = i + 1;
        }
        false
    }
}

/// Whether two cell positions are 4-connected neighbours: they share an edge,
/// not merely a corner.
pub open spec fn adj(a: (int, int), b: (int, int)) -> bool {
    ||| a.0 == b.0 && (b.1 == a.1 + 1 || b.1 == a.1 - 1)
    ||| a.1 == b.1 && (b.0 == a.0 + 1 || b.0 == a.0 - 1)
}

/// A walk through solid cells of `g`: non-empty, every cell solid, every
/// consecutive pair 4-connected.
pub open spec fn is_path(g: Grid, p: Seq<(int, int)>) -> bool {
    &&& p.len() >= 1
    &&& forall|i: int| 0 <= i < p.len() ==> g.sol((#[trigger] p[i]).0, p[i].1)
    &&& forall|i: int| 0 <= i < p.len() - 1 ==> adj(#[trigger] p[i], p[i + 1])
}

/// A walk that stays inside the region's own membership: non-empty, every
/// cell a member, every consecutive pair 4-connected.
pub open spec fn member_path(r: Region, p: Seq<(int, int)>) -> bool {
    &&& p.len() >= 1
    &&& forall|i: int| 0 <= i < p.len() ==> r.has(#[trigger] p[i])
    &&& forall|i: int| 0 <= i < p.len() - 1 ==> adj(#[trigger] p[i], p[i + 1])
}

/// Whether cell `b` is reachable from cell `a` through 4-connected solid
/// cells of `g`.
#[verifier::opaque]
pub open spec fn reach(g: Grid, a: (int, int), b: (int, int)) -> bool {
    exists|p: Seq<(int, int)>| #[trigger] is_path(g, p) && p.first() == a && p.last() == b
}

/// A solid cell reaches itself.
pub proof fn lemma_reach_refl(g: Grid, a: (int, int))
    requires
        g.sol(a.0, a.1),
    ensures
        reach(g, a, a),
{
    reveal(reach);
    let p: Seq<(int, int)> = seq![a];
    assert(is_path(g, p) && p.first() == a && p.last() == a);
}

/// Reachability extends across one more solid neighbour.
pub proof fn lemma_reach_adj(g: Grid, a: (int, int), b: (int, int), c: (int, int))
    requires
        reach(g, a, b),
        adj(b, c),
        g.sol(c.0, c.1),
    ensures
        reach(g, a, c),
{
    reveal(reach);
    let p = choose|p: Seq<(int, int)>| is_path(g, p) && p.first() == a && p.last() == b;
    let q = p.push(c);
    assert forall|i: int| 0 <= i < q.len() - 1 implies adj(#[trigger] q[i], q[i + 1]) by {
        if i < p.len() - 1 {
            assert(adj(p[i], p[i + 1]));
        }
    }
    assert(is_path(g, q) && q.first() == a && q.last() == c);
}

/// Reachability is symmetric: the reversed walk is again a walk.
pub proof fn lemma_reach_symm(g: Grid, a: (int, int), b: (int, int))
    requires
        reach(g, a, b),
    ensures
        reach(g, b, a),
{
    reveal(reach);
    let p = choose|p: Seq<(int, int)>| is_path(g, p) && p.first() == a && p.last() == b;
    let n = p.len() as int;
    let q = Seq::new(p.len(), |i: int| p[n - 1 - i]);
    assert forall|i: int| 0 <= i < q.len() - 1 implies adj(#[trigger] q[i], q[i + 1]) by {
        assert(adj(p[n - 2 - i], p[n - 1 - i]));
    }
    assert(is_path(g, q) && q.first() == b && q.last() == a);
}

/// Reachability is transitive: two walks concatenate.
pub proof fn lemma_reach_trans(g: Grid, a: (int, int), b: (int, int), c: (int, int))
    requires
        reach(g, a, b),
        reach(g, b, c),
    ensures
        reach(g, a, c),
{
    reveal(reach);
    let p = choose|p: Seq<(int, int)>| is_path(g, p) && p.first() == a && p.last() == b;
    let q = choose|q: Seq<(int, int)>| is_path(g, q) && q.first() == b && q.last() == c;
    let r = p + q.subrange(1, q.len() as int);
    assert(r.last() == if q.len() == 1 { p.last() } else { q.last() });
    assert forall|i: int| 0 <= i < r.len() - 1 implies adj(#[trigger] r[i], r[i + 1]) by {
        if i < p.len() - 1 {
            assert(adj(p[i], p[i + 1]));
        } else if i == p.len() - 1 {
            assert(r[i] == b && r[i + 1] == q[1]);
            assert(adj(q[0], q[1]));
        } else {
            let j = i - p.len();
            assert(r[i] == q[j + 1] && r[i + 1] == q[j + 2]);
            assert(adj(q[j + 1], q[j + 2]));
        }
    }
    assert(is_path(g, r) && r.first() == a && r.last() == c);
}

/// Every cell on a walk that starts inside a set closed under stepping to
/// solid neighbours stays inside that set; in particular the walk's end does.
pub proof fn lemma_path_stays_in_closed(g: Grid, s: Set<(int, int)>, p: Seq<(int, int)>)
    requires
        is_path(g, p),
        s.contains(p.first()),
        forall|c: (int, int), d: (int, int)|
            s.contains(c) && #[trigger] adj(c, d) && g.sol(d.0, d.1) ==> s.contains(d),
    ensures
        s.contains(p.last()),
    decreases p.len(),
{
    if p.len() > 1 {
        let q = p.subrange(0, p.len() - 1);
        assert(is_path(g, q));
        lemma_path_stays_in_closed(g, s, q);
        assert(adj(p[p.len() - 2], p[p.len() - 1]));
        assert(g.sol(p[p.len() - 1].0, p[p.len() - 1].1));
    }
}

/// A set that contains `a` and is closed under stepping to solid neighbours
/// contains everything reachable from `a`.
pub proof fn lemma_reach_in_closed(g: Grid, s: Set<(int, int)>, a: (int, int), b: (int, int))
    requires
        reach(g, a, b),
        s.contains(a),
        forall|c: (int, int), d: (int, int)|
            s.contains(c) && #[trigger] adj(c, d) && g.sol(d.0, d.1) ==> s.contains(d),
    ensures
        s.contains(b),
{
    reveal(reach);
    let p = choose|p: Seq<(int, int)>| is_path(g, p) && p.first() == a && p.last() == b;
    lemma_path_stays_in_closed(g, s, p);
}

} // verus!
