//! Region discovery: partitions the solid cells of a grid into maximal
//! 4-connected regions by flood fill.
//!
//! Cells are scanned column by column (outer loop over `x`, inner loop over
//! `y`). Every solid cell not yet claimed seeds a fill that collects exactly
//! the connected component containing it; a single visited bitmap shared
//! across the scan guarantees that no cell lands in two regions.

use vstd::prelude::*;

use crate::grid::Grid;
use crate::region::adj;
use crate::region::cells_have;
use crate::region::pt;
use crate::region::is_path;
use crate::region::member_path;
use crate::region::reach;
use crate::region::Region;

verus! {

use vstd::pervasive::VecAdditionalExecFns;

/// The result of partitioning a grid: every solid cell lies in exactly one
/// of these regions.
pub struct Floodfill {
    pub regions: Vec<Region>,
}

/// A region's membership is exactly the 4-connected solid component of its
/// start cell, listed without duplicates.
pub open spec fn region_matches(g: Grid, r: Region) -> bool {
    &&& r.members@.no_duplicates()
    &&& r.has(pt(r.start))
    &&& forall|c: (int, int)| #[trigger] r.has(c) <==> g.sol(c.0, c.1) && reach(g, pt(r.start), c)
}

/// The regions partition the solid cells: each matches its start's
/// component, together they cover every solid cell, and no cell lies in two
/// of them.
#[verifier::opaque]
pub open spec fn is_partition(g: Grid, f: Floodfill) -> bool {
    &&& forall|k: int| 0 <= k < f.regions@.len() ==> region_matches(g, #[trigger] f.regions@[k])
    &&& forall|c: (int, int)|
        g.sol(c.0, c.1) ==> exists|k: int|
            0 <= k < f.regions@.len() && (#[trigger] f.regions@[k]).has(c)
    &&& forall|k1: int, k2: int, c: (int, int)|
        0 <= k1 < f.regions@.len() && 0 <= k2 < f.regions@.len() && k1 != k2 ==> !(
        #[trigger] f.regions@[k1].has(c) && #[trigger] f.regions@[k2].has(c))
}

/// Connectivity is internal: every member cell is joined to the region's
/// start by a walk that never leaves the membership. A solid walk from the
/// start witnesses reachability, and each of its cells is itself reachable
/// from the start through its prefix, hence a member.
pub proof fn lemma_members_internally_connected(g: Grid, r: Region, c: (int, int))
    requires
        region_matches(g, r),
        r.has(c),
    ensures
        exists|p: Seq<(int, int)>|
            #[trigger] member_path(r, p) && p.first() == pt(r.start) && p.last() == c,
{
    reveal(crate::region::reach);
    assert(reach(g, pt(r.start), c));
    let p = choose|p: Seq<(int, int)>|
        #[trigger] is_path(g, p) && p.first() == pt(r.start) && p.last() == c;
    assert forall|i: int| 0 <= i < p.len() implies r.has(#[trigger] p[i]) by {
        let q = p.subrange(0, i + 1);
        assert(is_path(g, q));
        assert(q.first() == pt(r.start) && q.last() == p[i]);
        assert(reach(g, pt(r.start), p[i]));
    }
    assert(member_path(r, p) && p.first() == pt(r.start) && p.last() == c);
}

/// Whether position `a` comes before `b` in the x-major scan order: outer
/// loop over `x`, inner loop over `y`.
pub open spec fn scan_before(a: (int, int), b: (int, int)) -> bool {
    a.0 < b.0 || (a.0 == b.0 && a.1 < b.1)
}

/// The start cell is the scan-order minimum of the region's membership:
/// what the discovery scan always produces.
pub open spec fn start_is_scan_min(r: Region) -> bool {
    forall|c: (int, int)| #[trigger] r.has(c) ==> c == pt(r.start) || scan_before(pt(r.start), c)
}

/// Two regions with the same membership, cell for cell.
#[verifier::opaque]
pub open spec fn same_cells(a: Region, b: Region) -> bool {
    forall|c: (int, int)| #![trigger a.has(c)] #![trigger b.has(c)] a.has(c) <==> b.has(c)
}

/// Each region of a partition matches its start cell's component.
pub proof fn lemma_partition_region(g: Grid, f: Floodfill, k: int)
    requires
        is_partition(g, f),
        0 <= k < f.regions@.len(),
    ensures
        region_matches(g, f.regions@[k]),
{
    reveal(is_partition);
}

/// Every solid cell lies in some region of a partition.
pub proof fn lemma_partition_covers(g: Grid, f: Floodfill, c: (int, int))
    requires
        is_partition(g, f),
        g.sol(c.0, c.1),
    ensures
        exists|k: int| 0 <= k < f.regions@.len() && (#[trigger] f.regions@[k]).has(c),
{
    reveal(is_partition);
}

/// No cell lies in two distinct regions of a partition.
pub proof fn lemma_partition_disjoint(g: Grid, f: Floodfill, k1: int, k2: int, c: (int, int))
    requires
        is_partition(g, f),
        0 <= k1 < f.regions@.len(),
        0 <= k2 < f.regions@.len(),
        k1 != k2,
    ensures
        !(f.regions@[k1].has(c) && f.regions@[k2].has(c)),
{
    reveal(is_partition);
}

/// Two regions that each match their component and share a cell have the
/// same membership: components are equivalence classes of reachability.
proof fn lemma_same_component(g: Grid, r1: Region, r2: Region)
    requires
        region_matches(g, r1),
        region_matches(g, r2),
        r2.has(pt(r1.start)),
    ensures
        same_cells(r1, r2),
{
    reveal(same_cells);
    assert forall|c: (int, int)| #![trigger r1.has(c)] #![trigger r2.has(c)]
        r1.has(c) <==> r2.has(c) by {
        if r1.has(c) {
            crate::region::lemma_reach_trans(g, pt(r2.start), pt(r1.start), c);
            assert(r2.has(c));
        }
        if r2.has(c) {
            crate::region::lemma_reach_symm(g, pt(r2.start), pt(r1.start));
            crate::region::lemma_reach_trans(g, pt(r1.start), pt(r2.start), c);
            assert(r1.has(c));
        }
    }
}

/// Whether some region of `f` has exactly the membership of `r`.
pub open spec fn has_match(f: Floodfill, r: Region) -> bool {
    exists|j: int| 0 <= j < f.regions@.len() && same_cells(r, #[trigger] f.regions@[j])
}

/// Partitioning is canonical: two partitions of one grid list the same
/// membership sets, whatever order their regions come in and whichever
/// start cells seeded them. Running the partition twice can therefore only
/// reproduce the same region memberships.
pub proof fn lemma_partition_unique(g: Grid, f1: Floodfill, f2: Floodfill)
    requires
        is_partition(g, f1),
        is_partition(g, f2),
    ensures
        forall|i: int| 0 <= i < f1.regions@.len() ==> has_match(f2, #[trigger] f1.regions@[i]),
{
    assert forall|i: int| 0 <= i < f1.regions@.len() implies has_match(
        f2,
        #[trigger] f1.regions@[i],
    ) by {
        let r1 = f1.regions@[i];
        lemma_partition_region(g, f1, i);
        assert(r1.has(pt(r1.start)));
        assert(g.sol(pt(r1.start).0, pt(r1.start).1));
        lemma_partition_covers(g, f2, pt(r1.start));
        let j = choose|j: int|
            0 <= j < f2.regions@.len() && (#[trigger] f2.regions@[j]).has(pt(r1.start));
        lemma_partition_region(g, f2, j);
        lemma_same_component(g, r1, f2.regions@[j]);
        assert(0 <= j < f2.regions@.len() && same_cells(r1, f2.regions@[j]));
    }
}

/// The in-bounds 4-connected neighbours of `p`, in the fixed order west,
/// east, north, south; positions beyond an edge are simply absent.
pub open spec fn neighbor_seq(p: (usize, usize), width: usize, height: usize) -> Seq<
    (usize, usize),
> {
    let west: Seq<(usize, usize)> = if p.0 > 0 {
        seq![(((p.0 - 1) as usize), p.1)]
    } else {
        Seq::empty()
    };
    let east: Seq<(usize, usize)> = if p.0 + 1 < width {
        seq![(((p.0 + 1) as usize), p.1)]
    } else {
        Seq::empty()
    };
    let north: Seq<(usize, usize)> = if p.1 > 0 {
        seq![(p.0, ((p.1 - 1) as usize))]
    } else {
        Seq::empty()
    };
    let south: Seq<(usize, usize)> = if p.1 + 1 < height {
        seq![(p.0, ((p.1 + 1) as usize))]
    } else {
        Seq::empty()
    };
    west + east + north + south
}

/// Collects into `v` exactly the 4-connected neighbours of `p` that lie
/// inside a `width` by `height` grid, each once, in the fixed order west,
/// east, north, south; positions beyond an edge are simply absent, and `v`'s
/// previous contents are discarded.
pub fn neighbors(p: (usize, usize), width: usize, height: usize, v: &mut Vec<(usize, usize)>)
    requires
        p.0 < width,
        p.1 < height,
    ensures
        final(v)@ == neighbor_seq(p, width, height),
        final(v)@.no_duplicates(),
        forall|j: int|
            0 <= j < final(v)@.len() ==> (#[trigger] final(v)@[j]).0 < width && final(v)@[j].1
                < height && adj(pt(p), pt(final(v)@[j])),
        forall|c: (int, int)|
            0 <= c.0 < width && 0 <= c.1 < height && #[trigger] adj(pt(p), c) ==> cells_have(
                final(v)@,
                c,
            ),
{
    v.clear();
    if p.0 > 0 {
        v.push((p.0 - 1, p.1));
    }
    if p.0 + 1 < width {
        v.push((p.0 + 1, p.1));
    }
    if p.1 > 0 {
        v.push((p.0, p.1 - 1));
    }
    if p.1 + 1 < height {
        v.push((p.0, p.1 + 1));
    }
    proof {
        assert(v@ =~= neighbor_seq(p, width, height));
        let n_w: int = if p.0 > 0 {
            1
        } else {
            0
        };
        let n_e: int = if p.0 + 1 < width {
            1
        } else {
            0
        };
        let n_n: int = if p.1 > 0 {
            1
        } else {
            0
        };
        assert forall|c: (int, int)|
            0 <= c.0 < width && 0 <= c.1 < height && #[trigger] adj(pt(p), c) implies cells_have(
            v@,
            c,
        ) by {
            if c == (pt(p).0 - 1, pt(p).1) {
                assert(pt(v@[0]) == c);
            } else if c == (pt(p).0 + 1, pt(p).1) {
                assert(pt(v@[n_w]) == c);
            } else if c == (pt(p).0, pt(p).1 - 1) {
                assert(pt(v@[n_w + n_e]) == c);
            } else {
                assert(c == (pt(p).0, pt(p).1 + 1));
                assert(pt(v@[n_w + n_e + n_n]) == c);
            }
        }
    }
}

/// The number of `false` entries in a bitmap: the flood fill's fuel.
pub closed spec fn count_false(s: Seq<bool>) -> nat
    decreases s.len(),
{
    if s.len() == 0 {
        0
    } else {
        count_false(s.drop_last()) + if s.last() {
            0nat
        } else {
            1nat
        }
    }
}

/// Marking a `false` entry `true` lowers the count by one.
proof fn lemma_count_false_update(s: Seq<bool>, i: int)
    requires
        0 <= i < s.len(),
        !s[i],
    ensures
        count_false(s) == count_false(s.update(i, true)) + 1,
    decreases s.len(),
{
    let t = s.update(i, true);
    if i == s.len() - 1 {
        assert(t.drop_last() =~= s.drop_last());
    } else {
        assert(t.drop_last() =~= s.drop_last().update(i, true));
        lemma_count_false_update(s.drop_last(), i);
    }
}

/// Whether `m` occurs in the list `ms`.
spec fn in_list(ms: Seq<(usize, usize)>, m: (usize, usize)) -> bool {
    exists|i: int| 0 <= i < ms.len() && #[trigger] ms[i] == m
}

/// How membership predicates change when a cell is appended.
proof fn lemma_cells_have_push(ms: Seq<(usize, usize)>, m: (usize, usize))
    ensures
        forall|c: (int, int)| #[trigger]
            cells_have(ms.push(m), c) <==> cells_have(ms, c) || c == pt(m),
        forall|x: (usize, usize)| #[trigger] in_list(ms.push(m), x) <==> in_list(ms, x) || x == m,
{
    assert forall|c: (int, int)| #[trigger]
        cells_have(ms.push(m), c) <==> cells_have(ms, c) || c == pt(m) by {
        if cells_have(ms.push(m), c) {
            let i = choose|i: int| 0 <= i < ms.push(m).len() && pt(#[trigger] ms.push(m)[i]) == c;
            if i < ms.len() {
                assert(pt(ms[i]) == c);
            }
        }
        if cells_have(ms, c) {
            let i = choose|i: int| 0 <= i < ms.len() && pt(#[trigger] ms[i]) == c;
            assert(pt(ms.push(m)[i]) == c);
        }
        if c == pt(m) {
            assert(pt(ms.push(m)[ms.len() as int]) == c);
        }
    }
    assert forall|x: (usize, usize)| #[trigger]
        in_list(ms.push(m), x) <==> in_list(ms, x) || x == m by {
        if in_list(ms.push(m), x) {
            let i = choose|i: int| 0 <= i < ms.push(m).len() && #[trigger] ms.push(m)[i] == x;
            if i < ms.len() {
                assert(ms[i] == x);
            }
        }
        if in_list(ms, x) {
            let i = choose|i: int| 0 <= i < ms.len() && #[trigger] ms[i] == x;
            assert(ms.push(m)[i] == x);
        }
        if x == m {
            assert(ms.push(m)[ms.len() as int] == x);
        }
    }
}

/// How membership in a stack changes when its top is popped.
proof fn lemma_in_list_pop(ms: Seq<(usize, usize)>)
    requires
        ms.len() > 0,
    ensures
        forall|x: (usize, usize)| #[trigger]
            in_list(ms, x) <==> in_list(ms.subrange(0, ms.len() - 1), x) || x == ms[ms.len() - 1],
{
    let t = ms.subrange(0, ms.len() - 1);
    assert forall|x: (usize, usize)| #[trigger]
        in_list(ms, x) <==> in_list(t, x) || x == ms[ms.len() - 1] by {
        if in_list(ms, x) {
            let i = choose|i: int| 0 <= i < ms.len() && #[trigger] ms[i] == x;
            if i < ms.len() - 1 {
                assert(t[i] == x);
            }
        }
        if in_list(t, x) {
            let i = choose|i: int| 0 <= i < t.len() && #[trigger] t[i] == x;
            assert(ms[i] == x);
        }
        if x == ms[ms.len() - 1] {
            assert(ms[ms.len() - 1] == x);
        }
    }
}

/// Row-major index arithmetic: a cell's index lies inside the bitmap.
proof fn lemma_idx_range(w: int, h: int, x: int, y: int)
    requires
        0 <= x < w,
        0 <= y < h,
    ensures
        0 <= y * w + x < w * h,
{
    assert(0 <= y * w + x < w * h) by (nonlinear_arith)
        requires
            0 <= x < w,
            0 <= y < h,
    ;
}

/// Row-major index arithmetic: distinct cells get distinct indices.
proof fn lemma_idx_inj(w: int, x: int, y: int, xi: int, yi: int)
    requires
        0 <= x < w,
        0 <= xi < w,
        y * w + x == yi * w + xi,
    ensures
        x == xi,
        y == yi,
{
    assert(x == xi && y == yi) by (nonlinear_arith)
        requires
            0 <= x < w,
            0 <= xi < w,
            y * w + x == yi * w + xi,
    ;
}

/// Whether the bitmap `s`, laid out row-major for grid `g`, marks the cell
/// at position `c`; positions outside the grid are never marked.
pub open spec fn seen_at(s: Seq<bool>, g: Grid, c: (int, int)) -> bool {
    &&& 0 <= c.0 < g.spec_width()
    &&& 0 <= c.1 < g.spec_height()
    &&& s[c.1 * g.spec_width() + c.0]
}

/// Reads the bitmap entry of cell `(x, y)`.
fn seen_get(g: &Grid, s: &Vec<bool>, x: usize, y: usize) -> (b: bool)
    requires
        g.wf(),
        s@.len() == g.spec_width() * g.spec_height(),
        x < g.spec_width(),
        y < g.spec_height(),
    ensures
        b == seen_at(s@, *g, pt((x, y))),
{
    proof {
        g.lemma_dims();
        lemma_idx_range(g.spec_width(), g.spec_height(), x as int, y as int);
    }
    let idx: usize = y * g.width() + x;
    s[idx]
}

/// Marks the bitmap entry of cell `(x, y)`; every other cell keeps its
/// entry, and marking a fresh cell lowers the false-count by one.
fn seen_mark(g: &Grid, s: &mut Vec<bool>, x: usize, y: usize)
    requires
        g.wf(),
        old(s)@.len() == g.spec_width() * g.spec_height(),
        x < g.spec_width(),
        y < g.spec_height(),
    ensures
        final(s)@.len() == old(s)@.len(),
        seen_at(final(s)@, *g, pt((x, y))),
        forall|c: (int, int)|
            c != pt((x, y)) ==> #[trigger] seen_at(final(s)@, *g, c) == seen_at(old(s)@, *g, c),
        !seen_at(old(s)@, *g, pt((x, y))) ==> count_false(old(s)@) == count_false(final(s)@) + 1,
{
    proof {
        g.lemma_dims();
        lemma_idx_range(g.spec_width(), g.spec_height(), x as int, y as int);
    }
    let idx: usize = y * g.width() + x;
    let ghost olds = s@;
    s.set(idx, true);
    proof {
        if !olds[idx as int] {
            lemma_count_false_update(olds, idx as int);
        } else {
            assert(olds.update(idx as int, true) =~= olds);
        }
        assert forall|c: (int, int)| c != pt((x, y)) implies #[trigger] seen_at(s@, *g, c)
            == seen_at(olds, *g, c) by {
            if 0 <= c.0 < g.spec_width() && 0 <= c.1 < g.spec_height() {
                lemma_idx_range(g.spec_width(), g.spec_height(), c.0, c.1);
                if c.1 * g.spec_width() + c.0 == idx {
                    lemma_idx_inj(g.spec_width(), x as int, y as int, c.0, c.1);
                }
            }
        }
    }
}

/// Flood fill: collects into a new region exactly the 4-connected solid
/// component of `start`, marking each collected cell in the shared visited
/// bitmap. Cells already marked on entry must be unreachable from `start`;
/// the scan in `floodfill_all` guarantees that, since marked cells always
/// form whole components.
#[verifier::rlimit(60)]
fn fill(g: &Grid, start: (usize, usize), seen: &mut Vec<bool>) -> (r: Region)
    requires
        g.wf(),
        old(seen)@.len() == g.spec_width() * g.spec_height(),
        g.sol(start.0 as int, start.1 as int),
        !seen_at(old(seen)@, *g, pt(start)),
        forall|c: (int, int)| #[trigger]
            reach(*g, pt(start), c) ==> !seen_at(old(seen)@, *g, c),
    ensures
        r.start == start,
        r.members@.no_duplicates(),
        r.has(pt(start)),
        forall|c: (int, int)| #[trigger] r.has(c) <==> g.sol(c.0, c.1) && reach(*g, pt(start), c),
        forall|c: (int, int)| #[trigger] r.has(c) ==> !seen_at(old(seen)@, *g, c),
        final(seen)@.len() == old(seen)@.len(),
        forall|c: (int, int)| #[trigger]
            seen_at(final(seen)@, *g, c) <==> seen_at(old(seen)@, *g, c) || r.has(c),
{
    let width = g.width();
    let height = g.height();
    let mut members: Vec<(usize, usize)> = Vec::new();
    let mut stack: Vec<(usize, usize)> = Vec::new();
    let mut nbuf: Vec<(usize, usize)> = Vec::new();
    proof {
        g.lemma_sol_bounds(start.0 as int, start.1 as int);
        crate::region::lemma_reach_refl(*g, pt(start));
        lemma_cells_have_push(members@, start);
    }
    seen_mark(g, seen, start.0, start.1);
    members.push(start);
    stack.push(start);
    while stack.len() > 0
        invariant
            g.wf(),
            width == g.spec_width(),
            height == g.spec_height(),
            seen@.len() == old(seen)@.len(),
            old(seen)@.len() == g.spec_width() * g.spec_height(),
            g.sol(start.0 as int, start.1 as int),
            forall|c: (int, int)| #[trigger]
                reach(*g, pt(start), c) ==> !seen_at(old(seen)@, *g, c),
            cells_have(members@, pt(start)),
            members@.no_duplicates(),
            forall|c: (int, int)| #[trigger]
                seen_at(seen@, *g, c) <==> seen_at(old(seen)@, *g, c) || cells_have(members@, c),
            forall|c: (int, int)| #[trigger]
                cells_have(members@, c) ==> g.sol(c.0, c.1) && reach(*g, pt(start), c),
            forall|i: int|
                0 <= i < stack@.len() ==> cells_have(members@, pt(#[trigger] stack@[i])),
            forall|j: int, d: (int, int)|
                0 <= j < members@.len() && #[trigger] adj(pt(members@[j]), d) && g.sol(d.0, d.1)
                    && !in_list(stack@, members@[j]) ==> cells_have(members@, d),
        decreases count_false(seen@), stack@.len(),
    {
        let ghost cf0 = count_false(seen@);
        let ghost st0 = stack@.len();
        let ghost stk0 = stack@;
        let p = stack.pop().unwrap();
        proof {
            assert(stk0 =~= stack@.push(p));
            lemma_in_list_pop(stk0);
            assert(stk0.subrange(0, stk0.len() - 1) =~= stack@);
            assert(cells_have(members@, pt(p)));
            g.lemma_sol_bounds(pt(p).0, pt(p).1);
        }
        neighbors(p, width, height, &mut nbuf);
        let mut k: usize = 0;
        while k < nbuf.len()
            invariant
                g.wf(),
                width == g.spec_width(),
                height == g.spec_height(),
                seen@.len() == old(seen)@.len(),
                old(seen)@.len() == g.spec_width() * g.spec_height(),
                g.sol(start.0 as int, start.1 as int),
                forall|c: (int, int)| #[trigger]
                    reach(*g, pt(start), c) ==> !seen_at(old(seen)@, *g, c),
                cells_have(members@, pt(start)),
                cells_have(members@, pt(p)),
                members@.no_duplicates(),
                k <= nbuf@.len(),
                forall|j: int|
                    0 <= j < nbuf@.len() ==> (#[trigger] nbuf@[j]).0 < width && nbuf@[j].1 < height
                        && adj(pt(p), pt(nbuf@[j])),
                forall|c: (int, int)|
                    0 <= c.0 < width && 0 <= c.1 < height && #[trigger] adj(pt(p), c)
                        ==> cells_have(nbuf@, c),
                forall|c: (int, int)| #[trigger]
                    seen_at(seen@, *g, c) <==> seen_at(old(seen)@, *g, c) || cells_have(
                        members@,
                        c,
                    ),
                forall|c: (int, int)| #[trigger]
                    cells_have(members@, c) ==> g.sol(c.0, c.1) && reach(*g, pt(start), c),
                forall|i: int|
                    0 <= i < stack@.len() ==> cells_have(members@, pt(#[trigger] stack@[i])),
                forall|j: int, d: (int, int)|
                    0 <= j < members@.len() && #[trigger] adj(pt(members@[j]), d) && g.sol(
                        d.0,
                        d.1,
                    ) && !in_list(stack@, members@[j]) && members@[j] != p ==> cells_have(
                        members@,
                        d,
                    ),
                forall|j: int|
                    0 <= j < k && g.sol(pt(#[trigger] nbuf@[j]).0, pt(nbuf@[j]).1) ==> cells_have(
                        members@,
                        pt(nbuf@[j]),
                    ),
                count_false(seen@) <= cf0,
                count_false(seen@) < cf0 || stack@.len() == st0 - 1,
            decreases nbuf@.len() - k,
        {
            let n = nbuf[k];
            if g.is_solid(n.0, n.1) {
                proof {
                    crate::region::lemma_reach_adj(*g, pt(start), pt(p), pt(n));
                }
                if !seen_get(g, &*seen, n.0, n.1) {
                    proof {
                        lemma_cells_have_push(members@, n);
                        lemma_cells_have_push(stack@, n);
                    }
                    seen_mark(g, seen, n.0, n.1);
                    members.push(n);
                    stack.push(n);
                }
            }
            k = k + 1;
        }
        proof {
            assert forall|j: int, d: (int, int)|
                0 <= j < members@.len() && #[trigger] adj(pt(members@[j]), d) && g.sol(d.0, d.1)
                    && !in_list(stack@, members@[j]) implies cells_have(members@, d) by {
                if members@[j] == p {
                    g.lemma_sol_bounds(d.0, d.1);
                    assert(cells_have(nbuf@, d));
                    let i = choose|i: int| 0 <= i < nbuf@.len() && pt(#[trigger] nbuf@[i]) == d;
                    assert(cells_have(members@, pt(nbuf@[i])));
                }
            }
        }
    }
    proof {
        let s = Set::new(|c: (int, int)| cells_have(members@, c));
        assert forall|c: (int, int)|
            g.sol(c.0, c.1) && reach(*g, pt(start), c) implies cells_have(members@, c) by {
            assert forall|a: (int, int), d: (int, int)|
                s.contains(a) && #[trigger] adj(a, d) && g.sol(d.0, d.1) implies s.contains(d) by {
                let i = choose|i: int| 0 <= i < members@.len() && pt(#[trigger] members@[i]) == a;
                assert(adj(pt(members@[i]), d));
                assert(cells_have(members@, d));
            }
            crate::region::lemma_reach_in_closed(*g, s, pt(start), c);
        }
    }
    Region { start, members }
}

/// Partitions the grid's solid cells into maximal 4-connected regions.
///
/// Cells are scanned in x-major order (outer loop over `x`, inner loop over
/// `y`); every solid cell not yet claimed by an earlier region seeds a flood
/// fill. The scan order makes each region's start cell the x-major-minimal
/// cell of its component, so every returned region is traceable.
#[verifier::rlimit(100)]
pub fn floodfill_all(g: &Grid) -> (f: Floodfill)
    requires
        g.wf(),
    ensures
        is_partition(*g, f),
        forall|k: int|
            0 <= k < f.regions@.len() ==> (#[trigger] f.regions@[k]).traceable()
                && f.regions@[k].bounded() && start_is_scan_min(f.regions@[k]),
        forall|k1: int, k2: int|
            0 <= k1 < k2 < f.regions@.len() ==> scan_before(
                pt((#[trigger] f.regions@[k1]).start),
                pt(#[trigger] f.regions@[k2].start),
            ),
{
    let width = g.width();
    let height = g.height();
    proof {
        g.lemma_dims();
    }
    let n: usize = width * height;
    let mut seen: Vec<bool> = Vec::new();
    let mut i: usize = 0;
    while i < n
        invariant
            i <= n,
            seen@.len() == i,
            forall|j: int| 0 <= j < i ==> !seen@[j],
        decreases n - i,
    {
        seen.push(false);
        i = i + 1;
    }
    proof {
        assert forall|c: (int, int)| !seen_at(seen@, *g, c) by {
            if 0 <= c.0 < g.spec_width() && 0 <= c.1 < g.spec_height() {
                lemma_idx_range(g.spec_width(), g.spec_height(), c.0, c.1);
            }
        }
    }
    let mut regions: Vec<Region> = Vec::new();
    let mut x: usize = 0;
    while x < width
        invariant
            g.wf(),
            width == g.spec_width(),
            height == g.spec_height(),
            seen@.len() == g.spec_width() * g.spec_height(),
            x <= width,
            forall|k: int| 0 <= k < regions@.len() ==> region_matches(*g, #[trigger] regions@[k]),
            forall|k: int|
                0 <= k < regions@.len() ==> (#[trigger] regions@[k]).traceable()
                    && regions@[k].bounded() && start_is_scan_min(regions@[k]),
            forall|k: int|
                0 <= k < regions@.len() ==> scan_before(
                    pt((#[trigger] regions@[k]).start),
                    (x as int, 0),
                ),
            forall|k1: int, k2: int|
                0 <= k1 < k2 < regions@.len() ==> scan_before(
                    pt((#[trigger] regions@[k1]).start),
                    pt(#[trigger] regions@[k2].start),
                ),
            forall|c: (int, int)| #[trigger]
                seen_at(seen@, *g, c) <==> exists|k: int|
                    0 <= k < regions@.len() && (#[trigger] regions@[k]).has(c),
            forall|c: (int, int)|
                0 <= c.0 < x && g.sol(c.0, c.1) ==> #[trigger] seen_at(seen@, *g, c),
            forall|k1: int, k2: int, c: (int, int)|
                0 <= k1 < regions@.len() && 0 <= k2 < regions@.len() && k1 != k2 ==> !(
                #[trigger] regions@[k1].has(c) && #[trigger] regions@[k2].has(c)),
        decreases width - x,
    {
        let mut y: usize = 0;
        while y < height
            invariant
                g.wf(),
                width == g.spec_width(),
                height == g.spec_height(),
                seen@.len() == g.spec_width() * g.spec_height(),
                x < width,
                y <= height,
                forall|k: int|
                    0 <= k < regions@.len() ==> region_matches(*g, #[trigger] regions@[k]),
                forall|k: int|
                    0 <= k < regions@.len() ==> (#[trigger] regions@[k]).traceable()
                        && regions@[k].bounded() && start_is_scan_min(regions@[k]),
                forall|k: int|
                    0 <= k < regions@.len() ==> scan_before(
                        pt((#[trigger] regions@[k]).start),
                        (x as int, y as int),
                    ),
                forall|k1: int, k2: int|
                    0 <= k1 < k2 < regions@.len() ==> scan_before(
                        pt((#[trigger] regions@[k1]).start),
                        pt(#[trigger] regions@[k2].start),
                    ),
                forall|c: (int, int)| #[trigger]
                    seen_at(seen@, *g, c) <==> exists|k: int|
                        0 <= k < regions@.len() && (#[trigger] regions@[k]).has(c),
                forall|c: (int, int)|
                    (0 <= c.0 < x || (c.0 == x && 0 <= c.1 < y)) && g.sol(c.0, c.1)
                        ==> #[trigger] seen_at(seen@, *g, c),
                forall|k1: int, k2: int, c: (int, int)|
                    0 <= k1 < regions@.len() && 0 <= k2 < regions@.len() && k1 != k2 ==> !(
                    #[trigger] regions@[k1].has(c) && #[trigger] regions@[k2].has(c)),
            decreases height - y,
        {
            if g.is_solid(x, y) {
                if !seen_get(g, &seen, x, y) {
                    proof {
                        // Nothing reachable from (x, y) is already claimed:
                        // claimed cells form whole components, and a shared
                        // component would have claimed (x, y) itself.
                        assert forall|c: (int, int)| #[trigger]
                            reach(*g, pt((x, y)), c) implies !seen_at(seen@, *g, c) by {
                            if seen_at(seen@, *g, c) {
                                let k = choose|k: int|
                                    0 <= k < regions@.len() && (#[trigger] regions@[k]).has(c);
                                crate::region::lemma_reach_symm(*g, pt((x, y)), c);
                                crate::region::lemma_reach_trans(
                                    *g,
                                    pt(regions@[k].start),
                                    c,
                                    pt((x, y)),
                                );
                                assert(regions@[k].has(pt((x, y))));
                                assert(seen_at(seen@, *g, pt((x, y))));
                                assert(false);
                            }
                        }
                    }
                    let ghost seen0 = seen@;
                    let ghost regions0 = regions@;
                    let r = fill(g, (x, y), &mut seen);
                    proof {
                        // The three cells west, north and north-west of the
                        // start are at scan positions already covered, so a
                        // membership would contradict the fill's freshness.
                        assert(!r.has((x as int - 1, y as int)));
                        assert(!r.has((x as int, y as int - 1)));
                        assert(!r.has((x as int - 1, y as int - 1)));
                        assert(r.traceable());
                        // Every member sits at or after the scan position
                        // that seeded the region: earlier positions were
                        // already claimed, and the fill's cells were fresh.
                        assert forall|c: (int, int)| #[trigger] r.has(c) implies c == pt(r.start)
                            || scan_before(pt(r.start), c) by {
                            g.lemma_sol_bounds(c.0, c.1);
                        }
                        assert(start_is_scan_min(r));
                        assert forall|j: int|
                            0 <= j < r.members@.len() implies (#[trigger] r.members@[j]).0
                            < usize::MAX && r.members@[j].1 < usize::MAX by {
                            assert(r.has(pt(r.members@[j])));
                            g.lemma_sol_bounds(pt(r.members@[j]).0, pt(r.members@[j]).1);
                        }
                        assert(r.bounded());
                    }
                    regions.push(r);
                    proof {
                        assert forall|c: (int, int)| #[trigger]
                            seen_at(seen@, *g, c) <==> exists|k: int|
                                0 <= k < regions@.len() && (#[trigger] regions@[k]).has(c) by {
                            if seen_at(seen@, *g, c) {
                                if seen_at(seen0, *g, c) {
                                    let k = choose|k: int|
                                        0 <= k < regions0.len() && (#[trigger] regions0[k]).has(c);
                                    assert(regions@[k].has(c));
                                } else {
                                    assert(r.has(c));
                                    assert(regions@[regions@.len() - 1].has(c));
                                }
                            }
                            if exists|k: int|
                                0 <= k < regions@.len() && (#[trigger] regions@[k]).has(c) {
                                let k = choose|k: int|
                                    0 <= k < regions@.len() && (#[trigger] regions@[k]).has(c);
                                if k < regions0.len() {
                                    assert(regions0[k].has(c));
                                    assert(seen_at(seen0, *g, c));
                                }
                            }
                        }
                        assert forall|k1: int, k2: int, c: (int, int)|
                            0 <= k1 < regions@.len() && 0 <= k2 < regions@.len() && k1
                            != k2 implies !(#[trigger] regions@[k1].has(c)
                            && #[trigger] regions@[k2].has(c)) by {
                            if regions@[k1].has(c) && regions@[k2].has(c) {
                                if k1 < regions0.len() && k2 < regions0.len() {
                                    assert(regions0[k1].has(c) && regions0[k2].has(c));
                                } else if k1 < regions0.len() {
                                    assert(regions0[k1].has(c));
                                    assert(seen_at(seen0, *g, c));
                                    assert(r.has(c));
                                    assert(false);
                                } else {
                                    assert(regions0[k2].has(c));
                                    assert(seen_at(seen0, *g, c));
                                    assert(r.has(c));
                                    assert(false);
                                }
                            }
                        }
                    }
                }
            }
            y = y + 1;
            proof {
                assert forall|c: (int, int)|
                    (0 <= c.0 < x || (c.0 == x && 0 <= c.1 < y)) && g.sol(c.0, c.1)
                    implies #[trigger] seen_at(seen@, *g, c) by {
                    if c.0 == x && c.1 == y - 1 {
                        assert(c == pt((x, (y - 1) as usize)));
                    }
                }
            }
        }
        x = x + 1;
        proof {
            assert forall|c: (int, int)| 0 <= c.0 < x && g.sol(c.0, c.1) implies #[trigger]
            seen_at(seen@, *g, c) by {
                g.lemma_sol_bounds(c.0, c.1);
            }
        }
    }
    let f = Floodfill { regions };
    proof {
        reveal(is_partition);
        assert forall|c: (int, int)| g.sol(c.0, c.1) implies exists|k: int|
            0 <= k < f.regions@.len() && (#[trigger] f.regions@[k]).has(c) by {
            g.lemma_sol_bounds(c.0, c.1);
            assert(seen_at(seen@, *g, c));
            let k = choose|k: int| 0 <= k < regions@.len() && (#[trigger] regions@[k]).has(c);
            assert((f.regions@[k]).has(c));
        }
    }
    f
}

} // verus!
