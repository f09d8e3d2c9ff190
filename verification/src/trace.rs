//! Boundary-contour tracing: converts a region's cell membership into a
//! minimal closed clockwise polygon on the lattice of grid corners.
//!
//! The tracer walks lattice edges keeping member cells on its right. At each
//! corner reached it turns left if the cell on the left of the would-be left
//! direction is a member, goes straight if the cell ahead is a member, and
//! turns right otherwise; vertices are recorded exactly at turns, so straight
//! runs collapse into single polygon edges.
//!
//! Termination is proved by a counting argument: the walk's per-step state
//! (corner and direction) always satisfies the boundary-edge invariant
//! `st_inv`, the transition `st_next` is injective on such states, and the
//! state space is finite, so no state can recur before the walk closes.

use vstd::prelude::*;

use crate::region::pt;
use crate::region::Region;

verus! {

/// A travel direction along lattice edges. The y axis grows southward, so
/// walking clockwise around a region keeps member cells on the right.
#[derive(Clone, Copy, PartialEq, Eq, Structural, Debug)]
pub enum Dir {
    East,
    South,
    West,
    North,
}

/// The counter-clockwise neighbour of a direction.
pub open spec fn dir_left(d: Dir) -> Dir {
    match d {
        Dir::East => Dir::North,
        Dir::North => Dir::West,
        Dir::West => Dir::South,
        Dir::South => Dir::East,
    }
}

/// The clockwise neighbour of a direction.
pub open spec fn dir_right(d: Dir) -> Dir {
    match d {
        Dir::East => Dir::South,
        Dir::South => Dir::West,
        Dir::West => Dir::North,
        Dir::North => Dir::East,
    }
}

/// The opposite of a direction.
pub open spec fn dir_rev(d: Dir) -> Dir {
    match d {
        Dir::East => Dir::West,
        Dir::West => Dir::East,
        Dir::South => Dir::North,
        Dir::North => Dir::South,
    }
}

impl Dir {
    /// Rotates counter-clockwise.
    pub fn left(self) -> (d: Dir)
        ensures
            d == dir_left(self),
    {
        match self {
            Dir::East => Dir::North,
            Dir::North => Dir::West,
            Dir::West => Dir::South,
            Dir::South => Dir::East,
        }
    }

    /// Rotates clockwise.
    pub fn right(self) -> (d: Dir)
        ensures
            d == dir_right(self),
    {
        match self {
            Dir::East => Dir::South,
            Dir::South => Dir::West,
            Dir::West => Dir::North,
            Dir::North => Dir::East,
        }
    }
}

/// The cell diagonally ahead-right of corner `c` for travel direction `d`:
/// the cell whose solidity the turning rule tests. A corner at lattice
/// position `(x, y)` touches the four cells `(x-1, y-1)`, `(x, y-1)`,
/// `(x-1, y)` and `(x, y)`; which one is "ahead-right" depends on `d`.
pub open spec fn cell_at(c: (int, int), d: Dir) -> (int, int) {
    match d {
        Dir::East => (c.0, c.1),
        Dir::South => (c.0 - 1, c.1),
        Dir::West => (c.0 - 1, c.1 - 1),
        Dir::North => (c.0, c.1 - 1),
    }
}

/// The corner one lattice unit from `c` along `d`.
pub open spec fn step_to(c: (int, int), d: Dir) -> (int, int) {
    match d {
        Dir::East => (c.0 + 1, c.1),
        Dir::South => (c.0, c.1 + 1),
        Dir::West => (c.0 - 1, c.1),
        Dir::North => (c.0, c.1 - 1),
    }
}

/// The walk's per-step state: the corner it stands on and the direction it
/// is about to travel.
pub struct TraceState {
    pub c: (int, int),
    pub d: Dir,
}

/// The boundary-edge invariant: the edge about to be traversed has a member
/// cell on its clockwise side and no member cell on its counter-clockwise
/// side.
#[verifier::opaque]
pub open spec fn st_inv(r: Region, s: TraceState) -> bool {
    &&& r.has(cell_at(s.c, s.d))
    &&& !r.has(cell_at(s.c, dir_left(s.d)))
}

/// One step of the walk: advance one lattice unit, then turn by the rule
/// "left if the left cell is a member, straight if the cell ahead is a
/// member, else right".
#[verifier::opaque]
pub open spec fn st_next(r: Region, s: TraceState) -> TraceState {
    let c2 = step_to(s.c, s.d);
    let d2 = if r.has(cell_at(c2, dir_left(s.d))) {
        dir_left(s.d)
    } else if r.has(cell_at(c2, s.d)) {
        s.d
    } else {
        dir_right(s.d)
    };
    TraceState { c: c2, d: d2 }
}

/// Corner coordinates that fit in `usize`.
pub open spec fn st_bounds(s: TraceState) -> bool {
    &&& 0 <= s.c.0 <= usize::MAX
    &&& 0 <= s.c.1 <= usize::MAX
}

/// The walk state standing at corner `c` about to travel along `d`.
pub open spec fn state_at(c: (usize, usize), d: Dir) -> TraceState {
    TraceState { c: pt(c), d: d }
}

/// A member cell's coordinates are `usize` values below `usize::MAX` when
/// the region is bounded.
proof fn lemma_member_bounds(r: Region, c: (int, int))
    requires
        r.bounded(),
        r.has(c),
    ensures
        0 <= c.0 < usize::MAX,
        0 <= c.1 < usize::MAX,
{
    let i = choose|i: int| 0 <= i < r.members@.len() && pt(#[trigger] r.members@[i]) == c;
    assert(r.members@[i].0 < usize::MAX && r.members@[i].1 < usize::MAX);
}

/// Stepping then looking back-right or back-left lands on the cells the
/// invariant and the turn test already talk about.
proof fn lemma_step_identities(c: (int, int), d: Dir)
    ensures
        cell_at(step_to(c, d), dir_right(d)) == cell_at(c, d),
        cell_at(step_to(c, d), dir_rev(d)) == cell_at(c, dir_left(d)),
{
    match d {
        Dir::East => {},
        Dir::South => {},
        Dir::West => {},
        Dir::North => {},
    }
}

/// Corner coordinates of an invariant-satisfying state fit in `usize`: the
/// member cell beside the walk pins them down.
proof fn lemma_state_bounds(r: Region, s: TraceState)
    requires
        r.bounded(),
        st_inv(r, s),
    ensures
        st_bounds(s),
{
    reveal(st_inv);
    lemma_member_bounds(r, cell_at(s.c, s.d));
}

/// On states satisfying the invariant the transition is injective: the
/// solidity pattern around the new corner determines the old direction, and
/// with it the old corner.
proof fn lemma_st_next_injective(r: Region, a: TraceState, b: TraceState)
    requires
        st_inv(r, a),
        st_inv(r, b),
        st_next(r, a) == st_next(r, b),
    ensures
        a == b,
{
    reveal(st_inv);
    reveal(st_next);
    lemma_step_identities(a.c, a.d);
    lemma_step_identities(b.c, b.d);
    let t = st_next(r, a);
    assert(a.d == if r.has(cell_at(t.c, dir_rev(t.d))) {
        dir_right(t.d)
    } else if r.has(cell_at(t.c, dir_right(t.d))) {
        t.d
    } else {
        dir_left(t.d)
    });
    assert(b.d == if r.has(cell_at(t.c, dir_rev(t.d))) {
        dir_right(t.d)
    } else if r.has(cell_at(t.c, dir_right(t.d))) {
        t.d
    } else {
        dir_left(t.d)
    });
}

/// One more than the largest corner coordinate.
pub open spec fn side() -> int {
    usize::MAX as int + 1
}

/// The number of distinct walk states: four directions at each corner.
pub open spec fn n_states() -> int {
    4 * side() * side()
}

spec fn dnum(d: Dir) -> int {
    match d {
        Dir::East => 0,
        Dir::South => 1,
        Dir::West => 2,
        Dir::North => 3,
    }
}

spec fn st_code(s: TraceState) -> int {
    (s.c.0 * side() + s.c.1) * 4 + dnum(s.d)
}

proof fn lemma_code_injective(a: TraceState, b: TraceState)
    requires
        st_bounds(a),
        st_bounds(b),
        st_code(a) == st_code(b),
    ensures
        a == b,
{
    assert(a.c.0 * side() + a.c.1 == b.c.0 * side() + b.c.1 && dnum(a.d) == dnum(b.d));
    assert(a.c.0 == b.c.0 && a.c.1 == b.c.1) by (nonlinear_arith)
        requires
            a.c.0 * side() + a.c.1 == b.c.0 * side() + b.c.1,
            0 <= a.c.1 < side(),
            0 <= b.c.1 < side(),
            0 <= a.c.0,
            0 <= b.c.0,
    ;
}

/// A duplicate-free sequence of bounded states is no longer than the state
/// space.
proof fn lemma_history_bound(h: Seq<TraceState>)
    requires
        h.no_duplicates(),
        forall|k: int| 0 <= k < h.len() ==> st_bounds(#[trigger] h[k]),
    ensures
        h.len() <= n_states(),
{
    let codes = h.map_values(|s: TraceState| st_code(s));
    assert forall|i: int, j: int|
        0 <= i < codes.len() && 0 <= j < codes.len() && i != j implies codes[i] != codes[j] by {
        if codes[i] == codes[j] {
            lemma_code_injective(h[i], h[j]);
        }
    }
    codes.unique_seq_to_set();
    assert forall|i: int| 0 <= i < codes.len() implies 0 <= #[trigger] codes[i] < n_states() by {
        let s = h[i];
        assert(0 <= st_code(s) < n_states()) by (nonlinear_arith)
            requires
                st_code(s) == (s.c.0 * side() + s.c.1) * 4 + dnum(s.d),
                n_states() == 4 * side() * side(),
                0 <= s.c.0 < side(),
                0 <= s.c.1 < side(),
                0 <= dnum(s.d) < 4,
        ;
    }
    assert(codes.to_set().subset_of(vstd::set_lib::set_int_range(0, n_states()))) by {
        assert forall|x: int| codes.to_set().contains(x) implies 0 <= x < n_states() by {
            let i = choose|i: int| 0 <= i < codes.len() && codes[i] == x;
            assert(0 <= codes[i] < n_states());
        }
    }
    vstd::set_lib::lemma_int_range(0, n_states());
    vstd::set_lib::lemma_len_subset(
        codes.to_set(),
        vstd::set_lib::set_int_range(0, n_states()),
    );
}

/// A turn certifies a genuine outline corner: the cell behind-right is a
/// member, the cell behind-left is not, and either the left cell is a member
/// (a concave turn) or the cell ahead is not (a convex turn).
proof fn lemma_turn_corner(r: Region, cp: (int, int), d: Dir)
    requires
        r.has(cell_at(cp, dir_right(d))),
        !r.has(cell_at(cp, dir_rev(d))),
        r.has(cell_at(cp, dir_left(d))) || !r.has(cell_at(cp, d)),
    ensures
        r.is_corner(cp),
{
    reveal(Region::is_corner);
    match d {
        Dir::East => assert(r.is_corner(cp)),
        Dir::South => assert(r.is_corner(cp)),
        Dir::West => assert(r.is_corner(cp)),
        Dir::North => assert(r.is_corner(cp)),
    }
}

/// Facts about one walk transition: the invariant is preserved, the corner
/// advances one lattice unit, and whenever the direction changes the new
/// corner is a genuine outline corner.
proof fn lemma_next_state(r: Region, s: TraceState)
    requires
        st_inv(r, s),
    ensures
        st_inv(r, st_next(r, s)),
        st_next(r, s).c == step_to(s.c, s.d),
        st_next(r, s).d != s.d ==> r.is_corner(st_next(r, s).c),
        st_next(r, s).d == s.d || st_next(r, s).d == dir_left(s.d) || st_next(r, s).d
            == dir_right(s.d),
{
    reveal(st_inv);
    reveal(st_next);
    lemma_step_identities(s.c, s.d);
    let t = st_next(r, s);
    if t.d != s.d {
        lemma_turn_corner(r, t.c, s.d);
    }
}

/// Only a walk heading north can arrive at the start corner: of the four
/// cells around that corner only the start cell itself is a member, so the
/// behind-right member cell forces the arrival direction, and the turning
/// rule then turns right onto the initial eastward heading.
proof fn lemma_closing_arrival(r: Region, s: TraceState)
    requires
        r.traceable(),
        st_inv(r, s),
        st_next(r, s).c == pt(r.start),
    ensures
        s.d == Dir::North,
        s.c == (pt(r.start).0, pt(r.start).1 + 1),
        st_next(r, s).d == Dir::East,
{
    reveal(st_inv);
    reveal(st_next);
    lemma_step_identities(s.c, s.d);
    match s.d {
        Dir::East => assert(false),
        Dir::South => assert(false),
        Dir::West => assert(false),
        Dir::North => {},
    }
}

/// Corners `a` and `b` lie on one axis-aligned line, with `b` not behind `a`
/// for travel direction `d`.
pub open spec fn aligned(a: (int, int), b: (int, int), d: Dir) -> bool {
    match d {
        Dir::East => a.1 == b.1 && a.0 <= b.0,
        Dir::West => a.1 == b.1 && a.0 >= b.0,
        Dir::South => a.0 == b.0 && a.1 <= b.1,
        Dir::North => a.0 == b.0 && a.1 >= b.1,
    }
}

/// Two distinct corners on one axis-aligned line: the shape of every
/// consecutive pair of polygon vertices.
pub open spec fn rect_step(a: (usize, usize), b: (usize, usize)) -> bool {
    &&& a.0 == b.0 || a.1 == b.1
    &&& a != b
}

spec fn one_if(b: bool) -> int {
    if b {
        1
    } else {
        0
    }
}

/// A vertex list widened to mathematical integer pairs.
pub open spec fn pts(vs: Seq<(usize, usize)>) -> Seq<(int, int)> {
    vs.map_values(|q: (usize, usize)| pt(q))
}

proof fn lemma_pts_push(vs: Seq<(usize, usize)>, q: (usize, usize))
    ensures
        pts(vs.push(q)) == pts(vs) + seq![pt(q)],
{
    assert(pts(vs.push(q)) =~= pts(vs) + seq![pt(q)]);
}

/// The vertices the walk emits from state `s` onward: one corner per
/// direction change, up to and including the step that first reaches the
/// corner `stop`. The fuel `n` bounds the number of steps considered; the
/// termination argument shows a walk from a traceable start closes before
/// any fuel of `n_states()` runs out.
pub open spec fn walk_from(r: Region, s: TraceState, stop: (int, int), n: nat) -> Seq<(int, int)>
    decreases n,
{
    if n == 0 {
        Seq::empty()
    } else {
        let t = st_next(r, s);
        let emitted: Seq<(int, int)> = if t.d != s.d {
            seq![t.c]
        } else {
            Seq::empty()
        };
        if t.c == stop {
            emitted
        } else {
            emitted + walk_from(r, t, stop, (n - 1) as nat)
        }
    }
}

/// The outline the walk traces for a region: the top-left corner of the
/// start cell, then every turn of the walk that starts there heading east,
/// until it first returns to that corner. This determines the tracer's
/// output completely.
pub open spec fn traced_outline(r: Region) -> Seq<(int, int)> {
    seq![pt(r.start)] + walk_from(r, state_at(r.start, Dir::East), pt(r.start), n_states() as nat)
}

/// The segment from `a` to `b` runs horizontally. Among distinct
/// axis-aligned pairs this is the negation of running vertically.
pub open spec fn horiz(a: (usize, usize), b: (usize, usize)) -> bool {
    a.1 == b.1
}

/// Stepping from a point aligned with `a` stays aligned and moves strictly
/// past `a` along one axis.
proof fn lemma_aligned_step(a: (int, int), b: (int, int), d: Dir)
    requires
        aligned(a, b, d),
    ensures
        aligned(a, step_to(b, d), d),
        a != step_to(b, d),
        a.0 == step_to(b, d).0 || a.1 == step_to(b, d).1,
{
}

/// Moves one lattice unit along `d`.
fn advance(c: (usize, usize), d: Dir) -> (r: (usize, usize))
    requires
        d == Dir::East ==> c.0 < usize::MAX,
        d == Dir::South ==> c.1 < usize::MAX,
        d == Dir::West ==> c.0 > 0,
        d == Dir::North ==> c.1 > 0,
    ensures
        pt(r) == step_to(pt(c), d),
{
    match d {
        Dir::East => (c.0 + 1, c.1),
        Dir::South => (c.0, c.1 + 1),
        Dir::West => (c.0 - 1, c.1),
        Dir::North => (c.0, c.1 - 1),
    }
}

/// Tests whether the cell ahead-right of corner `c` for direction `d` is a
/// member; cells with a negative coordinate never are.
fn solid_toward(region: &Region, c: (usize, usize), d: Dir) -> (b: bool)
    ensures
        b == region.has(cell_at(pt(c), d)),
{
    match d {
        Dir::East => region.contains(c.0, c.1),
        Dir::South => if c.0 > 0 {
            region.contains(c.0 - 1, c.1)
        } else {
            false
        },
        Dir::West => if c.0 > 0 && c.1 > 0 {
            region.contains(c.0 - 1, c.1 - 1)
        } else {
            false
        },
        Dir::North => if c.1 > 0 {
            region.contains(c.0, c.1 - 1)
        } else {
            false
        },
    }
}

/// One step of the walk: advance one lattice unit, then turn left, keep
/// straight or turn right by the local solidity tests. Returns the new
/// corner and direction.
fn trace_step(region: &Region, c: (usize, usize), d: Dir) -> (r: ((usize, usize), Dir))
    requires
        region.bounded(),
        st_inv(*region, state_at(c, d)),
    ensures
        state_at(r.0, r.1) == st_next(*region, state_at(c, d)),
{
    proof {
        reveal(st_inv);
        reveal(st_next);
        lemma_member_bounds(*region, cell_at(pt(c), d));
    }
    let c2 = advance(c, d);
    if solid_toward(region, c2, d.left()) {
        (c2, d.left())
    } else if solid_toward(region, c2, d) {
        (c2, d)
    } else {
        (c2, d.right())
    }
}

/// Traces the boundary of `region` clockwise, starting at the top-left
/// corner of its start cell heading east, and returns the outline polygon:
/// an ordered vertex list in lattice-corner coordinates whose first and last
/// entries both name the starting corner. Vertices appear only at genuine
/// outline corners; straight runs collapse into single edges.
#[verifier::rlimit(100)]
pub fn get_verts(region: &Region) -> (verts: Vec<(usize, usize)>)
    requires
        region.bounded(),
        region.traceable(),
    ensures
        pts(verts@) == traced_outline(*region),
        verts@.len() >= 5,
        verts@[0] == region.start,
        verts@[verts@.len() - 1] == region.start,
        verts@[1].1 == verts@[0].1 && verts@[0].0 < verts@[1].0,
        forall|i: int| 1 <= i < verts@.len() - 1 ==> verts@[i] != region.start,
        forall|i: int| 0 <= i < verts@.len() - 1 ==> rect_step(#[trigger] verts@[i], verts@[i + 1]),
        forall|i: int|
            0 <= i < verts@.len() - 2 ==> (horiz(#[trigger] verts@[i], verts@[i + 1]) <==> !horiz(
                verts@[i + 1],
                verts@[i + 2],
            )),
        forall|i: int| 0 <= i < verts@.len() ==> region.is_corner(pt(#[trigger] verts@[i])),
{
    let start = region.start;
    let mut verts: Vec<(usize, usize)> = Vec::new();
    verts.push(start);
    let mut cur: (usize, usize) = start;
    let mut dir: Dir = Dir::East;
    let ghost mut hist: Seq<TraceState> = Seq::empty();
    let ghost mut sw: bool = false;
    let ghost mut ss: bool = false;
    let ghost mut sn: bool = false;
    proof {
        reveal(st_inv);
        reveal(Region::is_corner);
        assert(st_inv(*region, state_at(start, Dir::East)));
        assert(region.is_corner(pt(start)));
        assert(pts(verts@) =~= seq![pt(start)]);
    }
    while !(cur.0 == start.0 && cur.1 == start.1 && verts.len() > 1)
        invariant
            region.bounded(),
            region.traceable(),
            start == region.start,
            verts@.len() >= 1,
            verts@[0] == start,
            st_inv(*region, state_at(cur, dir)),
            aligned(pt(verts@.last()), pt(cur), dir),
            forall|i: int|
                0 <= i < verts@.len() - 1 ==> rect_step(#[trigger] verts@[i], verts@[i + 1]),
            forall|i: int| 0 <= i < verts@.len() ==> region.is_corner(pt(#[trigger] verts@[i])),
            forall|i: int|
                1 <= i < verts@.len() && #[trigger] verts@[i] == start ==> i == verts@.len() - 1
                    && pt(cur) == pt(start),
            verts@.len() == 1 ==> dir == Dir::East && pt(cur).1 == pt(start).1 && pt(cur).0 == pt(
                start,
            ).0 + hist.len(),
            verts@.len() >= 2 ==> verts@[1].1 == verts@[0].1 && verts@[0].0 < verts@[1].0,
            forall|i: int|
                0 <= i < verts@.len() - 2 ==> (horiz(#[trigger] verts@[i], verts@[i + 1])
                    <==> !horiz(verts@[i + 1], verts@[i + 2])),
            verts@.len() >= 2 ==> (horiz(verts@[verts@.len() - 2], verts@[verts@.len() - 1])
                <==> (dir == Dir::South || dir == Dir::North)),
            !(pt(cur) == pt(start) && verts@.len() > 1) ==> pts(verts@) + walk_from(
                *region,
                state_at(cur, dir),
                pt(start),
                (n_states() - hist.len()) as nat,
            ) == traced_outline(*region),
            pt(cur) == pt(start) && verts@.len() > 1 ==> pts(verts@) == traced_outline(*region),
            verts@.len() >= 1 + one_if(ss) + one_if(sw) + one_if(sn),
            dir == Dir::South ==> ss,
            dir == Dir::West ==> sw,
            dir == Dir::North ==> sn,
            !sw ==> verts@.len() == 1 || pt(cur).0 >= pt(start).0 + 1,
            !ss ==> pt(cur).1 <= pt(start).1,
            pt(cur) == pt(start) && verts@.len() > 1 ==> verts@.last() == start && dir == Dir::East
                && verts@.len() >= 5,
            hist.len() <= n_states(),
            forall|k: int|
                0 <= k < hist.len() ==> st_inv(*region, #[trigger] hist[k]) && st_bounds(hist[k]),
            forall|k: int|
                1 <= k < hist.len() ==> #[trigger] hist[k] == st_next(*region, hist[k - 1])
                    && hist[k].c != pt(start),
            hist.no_duplicates(),
            hist.len() == 0 ==> cur == start && dir == Dir::East && verts@.len() == 1,
            hist.len() >= 1 ==> hist[0] == state_at(start, Dir::East) && state_at(cur, dir)
                == st_next(
                *region,
                hist.last(),
            ),
        decreases n_states() - hist.len(),
    {
        proof {
            let cst = state_at(cur, dir);
            // The walk has never stood in this state before: states form a
            // chain under the injective transition, so a repeat would force
            // an earlier repeat, back to the start corner, where the loop
            // would already have stopped.
            assert forall|k: int| 0 <= k < hist.len() implies hist[k] != cst by {
                if hist[k] == cst {
                    if k == 0 {
                        assert(pt(cur) == pt(start));
                        assert(cur.0 == start.0 && cur.1 == start.1);
                        assert(verts@.len() == 1);
                        assert(false);
                    } else {
                        lemma_st_next_injective(*region, hist[k - 1], hist[hist.len() - 1]);
                        assert(false);
                    }
                }
            }
            if hist.len() >= 1 && pt(cur) == pt(start) {
                assert(cur.0 == start.0 && cur.1 == start.1);
                assert(verts@.len() == 1);
                assert(false);
            }
            lemma_state_bounds(*region, cst);
            hist = hist.push(cst);
            lemma_history_bound(hist);
            lemma_next_state(*region, cst);
            lemma_aligned_step(pt(verts@.last()), pt(cur), dir);
        }
        let ghost pst = state_at(cur, dir);
        let ghost fuel: nat = (n_states() - hist.len() + 1) as nat;
        let stepped = trace_step(region, cur, dir);
        proof {
            assert(fuel >= 1);
            assert(pts(verts@) + walk_from(*region, pst, pt(start), fuel) == traced_outline(
                *region,
            ));
        }
        if !(stepped.1 == dir) {
            let ghost vs0 = verts@;
            verts.push(stepped.0);
            proof {
                lemma_pts_push(vs0, stepped.0);
                if ss == false && stepped.1 == Dir::South {
                    ss = true;
                }
                if sw == false && stepped.1 == Dir::West {
                    sw = true;
                }
                if sn == false && stepped.1 == Dir::North {
                    sn = true;
                }
                // The new polygon edge runs along the old heading; the turn
                // makes the next one perpendicular to it.
                assert(horiz(vs0[vs0.len() - 1], stepped.0) <==> (dir == Dir::East || dir
                    == Dir::West));
                assert(horiz(verts@[verts@.len() - 2], verts@[verts@.len() - 1]) <==> (stepped.1
                    == Dir::South || stepped.1 == Dir::North));
                assert forall|i: int|
                    0 <= i < verts@.len() - 2 implies (horiz(#[trigger] verts@[i], verts@[i + 1])
                    <==> !horiz(verts@[i + 1], verts@[i + 2])) by {
                    if i < vs0.len() - 2 {
                        assert(verts@[i] == vs0[i] && verts@[i + 1] == vs0[i + 1] && verts@[i + 2]
                            == vs0[i + 2]);
                    }
                }
                if pt(stepped.0) == pt(start) {
                    // The closing arrival: it comes heading north, with the
                    // other three flags already set, and turns right onto
                    // the initial eastward heading, recording the corner.
                    lemma_closing_arrival(*region, pst);
                    assert(pst.d == Dir::North);
                    assert(sn);
                    assert(ss);
                    assert(sw);
                    // The spec walk stops on this very step, emitting the
                    // closing corner: the outline is complete.
                    assert(walk_from(*region, pst, pt(start), fuel) == seq![pt(stepped.0)]);
                    assert(pts(verts@) == traced_outline(*region));
                } else {
                    // One turn of the spec walk is consumed.
                    let tail = walk_from(
                        *region,
                        state_at(stepped.0, stepped.1),
                        pt(start),
                        (fuel - 1) as nat,
                    );
                    assert(walk_from(*region, pst, pt(start), fuel) == seq![pt(stepped.0)] + tail);
                    assert(pts(vs0) + (seq![pt(stepped.0)] + tail) =~= (pts(vs0) + seq![pt(
                        stepped.0,
                    )]) + tail);
                    assert(pts(verts@) + tail == traced_outline(*region));
                }
            }
        } else {
            proof {
                if pt(stepped.0) == pt(start) {
                    lemma_closing_arrival(*region, pst);
                    assert(false);
                }
                // A straight step of the spec walk emits nothing.
                let tail = walk_from(
                    *region,
                    state_at(stepped.0, stepped.1),
                    pt(start),
                    (fuel - 1) as nat,
                );
                assert(walk_from(*region, pst, pt(start), fuel) == Seq::<(int, int)>::empty()
                    + tail);
                assert(Seq::<(int, int)>::empty() + tail =~= tail);
                assert(pts(verts@) + tail == traced_outline(*region));
            }
        }
        cur = stepped.0;
        dir = stepped.1;
    }
    verts
}

/// Tests `Region::bounded` at run time.
fn check_bounded(region: &Region) -> (b: bool)
    ensures
        b == region.bounded(),
{
    let mut i: usize = 0;
    while i < region.members.len()
        invariant
            i <= region.members@.len(),
            forall|j: int|
                0 <= j < i ==> (#[trigger] region.members@[j]).0 < usize::MAX
                    && region.members@[j].1 < usize::MAX,
        decreases region.members@.len() - i,
    {
        let m = region.members[i];
        if m.0 == usize::MAX || m.1 == usize::MAX {
            return false;
        }
        i = i + 1;
    }
    true
}

/// Tests `Region::traceable` at run time.
fn check_traceable(region: &Region) -> (b: bool)
    ensures
        b == region.traceable(),
{
    let sx = region.start.0;
    let sy = region.start.1;
    let has_start = region.contains(sx, sy);
    let has_w = if sx > 0 {
        region.contains(sx - 1, sy)
    } else {
        false
    };
    let has_n = if sy > 0 {
        region.contains(sx, sy - 1)
    } else {
        false
    };
    let has_nw = if sx > 0 && sy > 0 {
        region.contains(sx - 1, sy - 1)
    } else {
        false
    };
    has_start && !has_w && !has_n && !has_nw
}

/// Checks the tracing preconditions at run time, then traces the boundary.
/// Returns `Some` polygon exactly when `region` is bounded and its start
/// cell seeds a traceable corner; a misuse (a start cell in the middle of an
/// edge, a membership list reaching `usize::MAX`) is reported as `None`
/// rather than producing wrong geometry.
pub fn trace_boundary(region: &Region) -> (res: Option<Vec<(usize, usize)>>)
    ensures
        res is Some <==> region.bounded() && region.traceable(),
        res matches Some(verts) ==> pts(verts@) == traced_outline(*region),
        res matches Some(verts) ==> verts@.len() >= 5 && verts@[0] == region.start
            && verts@[verts@.len() - 1] == region.start && verts@[1].1 == verts@[0].1
            && verts@[0].0 < verts@[1].0 && (forall|i: int|
            1 <= i < verts@.len() - 1 ==> verts@[i] != region.start) && (forall|i: int|
            0 <= i < verts@.len() - 1 ==> rect_step(#[trigger] verts@[i], verts@[i + 1])) && (
        forall|i: int|
            0 <= i < verts@.len() - 2 ==> (horiz(#[trigger] verts@[i], verts@[i + 1]) <==> !horiz(
                verts@[i + 1],
                verts@[i + 2],
            ))) && (forall|i: int|
            0 <= i < verts@.len() ==> region.is_corner(pt(#[trigger] verts@[i]))),
{
    if check_bounded(region) && check_traceable(region) {
        Some(get_verts(region))
    } else {
        None
    }
}

} // verus!
