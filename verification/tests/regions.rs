use floodfill::get_verts;
use floodfill::neighbors;
use floodfill::Floodfill;
use floodfill::Grid;

/// Builds a grid from rows of text: `#` marks a solid cell.
fn grid_from(rows: &[&str]) -> Grid {
    let height = rows.len();
    let width = if height == 0 { 0 } else { rows[0].len() };
    let mut g = Grid::new(width, height);
    for (y, row) in rows.iter().enumerate() {
        assert_eq!(row.len(), width, "rows must share one width");
        for (x, ch) in row.chars().enumerate() {
            if ch == '#' {
                g.set_solid(x, y, true);
            }
        }
    }
    g
}

fn sorted_members(f: &Floodfill, k: usize) -> Vec<(usize, usize)> {
    let mut m = f.regions[k].members.clone();
    m.sort();
    m
}

#[test]
fn empty_grid_yields_no_regions() {
    let g = grid_from(&["....", "....", "...."]);
    let f = floodfill::floodfill_all(&g);
    assert_eq!(f.regions.len(), 0);
}

#[test]
fn two_blobs_yield_two_regions() {
    let g = grid_from(&[
        "##..", //
        "##..", //
        "...#", //
        "...#",
    ]);
    let f = floodfill::floodfill_all(&g);
    assert_eq!(f.regions.len(), 2);
    assert_eq!(sorted_members(&f, 0), vec![(0, 0), (0, 1), (1, 0), (1, 1)]);
    assert_eq!(sorted_members(&f, 1), vec![(3, 2), (3, 3)]);
    for r in &f.regions {
        let verts = get_verts(r);
        assert!(verts.len() >= 5);
        assert_eq!(verts.first(), verts.last());
        assert_eq!(verts[0], r.start);
    }
}

#[test]
fn diagonal_cells_are_not_connected() {
    let g = grid_from(&[
        "#.", //
        ".#",
    ]);
    let f = floodfill::floodfill_all(&g);
    assert_eq!(f.regions.len(), 2);
    assert_eq!(sorted_members(&f, 0), vec![(0, 0)]);
    assert_eq!(sorted_members(&f, 1), vec![(1, 1)]);
}

#[test]
fn regions_cover_solid_cells_and_are_disjoint() {
    let g = grid_from(&[
        "#.##", //
        "#..#", //
        "##.#",
    ]);
    let f = floodfill::floodfill_all(&g);
    let mut claimed: Vec<(usize, usize)> = Vec::new();
    for r in &f.regions {
        for m in &r.members {
            assert!(!claimed.contains(m), "cell {:?} claimed twice", m);
            claimed.push(*m);
        }
    }
    claimed.sort();
    let mut solid: Vec<(usize, usize)> = Vec::new();
    for y in 0..3 {
        for x in 0..4 {
            if g.is_solid(x, y) {
                solid.push((x, y));
            }
        }
    }
    solid.sort();
    assert_eq!(claimed, solid);
}

#[test]
fn membership_is_reachable_from_start() {
    let g = grid_from(&[
        ".###", //
        ".#..", //
        ".##.",
    ]);
    let f = floodfill::floodfill_all(&g);
    assert_eq!(f.regions.len(), 1);
    let r = &f.regions[0];
    // Breadth-first closure from the start over the membership list alone.
    let mut seen = vec![r.start];
    let mut frontier = vec![r.start];
    while let Some((x, y)) = frontier.pop() {
        for m in &r.members {
            let close = (m.0 == x && (m.1 + 1 == y || y + 1 == m.1))
                || (m.1 == y && (m.0 + 1 == x || x + 1 == m.0));
            if close && !seen.contains(m) {
                seen.push(*m);
                frontier.push(*m);
            }
        }
    }
    assert_eq!(seen.len(), r.members.len());
}

#[test]
fn repartitioning_reproduces_memberships() {
    let rows = [
        "##..#", //
        ".#..#", //
        ".#...", //
        "....#",
    ];
    let f1 = floodfill::floodfill_all(&grid_from(&rows));
    let f2 = floodfill::floodfill_all(&grid_from(&rows));
    assert_eq!(f1.regions.len(), f2.regions.len());
    for k in 0..f1.regions.len() {
        assert_eq!(f1.regions[k].start, f2.regions[k].start);
        assert_eq!(f1.regions[k].members, f2.regions[k].members);
    }
}

#[test]
fn region_starts_trace_from_floodfill() {
    let g = grid_from(&[
        "..#..", //
        ".###.", //
        "..#..",
    ]);
    let f = floodfill::floodfill_all(&g);
    assert_eq!(f.regions.len(), 1);
    let r = &f.regions[0];
    // The scan is x-major, so the westmost column of the region is found
    // first and the start sits on the outline with empty cells above it.
    assert_eq!(r.start, (1, 1));
    let verts = get_verts(r);
    assert_eq!(verts.first(), verts.last());
    assert!(verts.len() >= 5);
}

#[test]
fn neighbors_inside_grid() {
    let mut v: Vec<(usize, usize)> = Vec::new();
    neighbors((2, 3), 5, 7, &mut v);
    // Exactly the four in-bounds neighbours, in west-east-north-south order.
    assert_eq!(v, vec![(1, 3), (3, 3), (2, 2), (2, 4)]);
}

#[test]
fn neighbors_at_origin_corner() {
    let mut v: Vec<(usize, usize)> = vec![(9, 9)];
    neighbors((0, 0), 5, 7, &mut v);
    // Previous contents are discarded; out-of-bounds neighbours are absent.
    assert_eq!(v, vec![(1, 0), (0, 1)]);
}

#[test]
fn neighbors_at_far_corner() {
    let mut v: Vec<(usize, usize)> = Vec::new();
    neighbors((4, 6), 5, 7, &mut v);
    assert_eq!(v, vec![(3, 6), (4, 5)]);
}

#[test]
fn exposed_cells_are_edge_or_beside_empty() {
    let g = grid_from(&[
        "###", //
        "###", //
        "###",
    ]);
    // Every border cell of a full grid is exposed; the centre is buried.
    for y in 0..3 {
        for x in 0..3 {
            let expect = x == 0 || x == 2 || y == 0 || y == 2;
            assert_eq!(floodfill::is_exposed_and_solid(&g, x, y), expect);
        }
    }
    let h = grid_from(&[
        ".....", //
        ".###.", //
        ".###.", //
        ".###.", //
        ".....",
    ]);
    // An interior block: its ring is exposed through empty neighbours, the
    // middle cell is not, and empty cells never are.
    assert!(!floodfill::is_exposed_and_solid(&h, 0, 0));
    assert!(floodfill::is_exposed_and_solid(&h, 1, 1));
    assert!(floodfill::is_exposed_and_solid(&h, 2, 1));
    assert!(!floodfill::is_exposed_and_solid(&h, 2, 2));
    assert!(floodfill::is_exposed_and_solid(&h, 3, 3));
}

#[test]
fn grid_set_and_query() {
    let mut g = Grid::new(3, 2);
    assert!(!g.is_solid(1, 1));
    g.set_solid(1, 1, true);
    assert!(g.is_solid(1, 1));
    assert!(!g.is_solid(0, 1));
    g.set_solid(1, 1, false);
    assert!(!g.is_solid(1, 1));
    assert_eq!(g.width(), 3);
    assert_eq!(g.height(), 2);
}
