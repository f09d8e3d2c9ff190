use floodfill::get_verts;
use floodfill::trace_boundary;
use floodfill::Region;

/// Twice the signed area a closed vertex list encloses, by the shoelace
/// formula; positive for the clockwise orientation the tracer emits.
fn shoelace_double_area(verts: &[(usize, usize)]) -> i64 {
    let mut sum: i64 = 0;
    for w in verts.windows(2) {
        let (x0, y0) = (w[0].0 as i64, w[0].1 as i64);
        let (x1, y1) = (w[1].0 as i64, w[1].1 as i64);
        sum += x0 * y1 - x1 * y0;
    }
    sum
}

/// Whether two closed axis-aligned segments share a point other than the
/// shared endpoint of consecutive polygon edges.
fn segments_cross(a: ((i64, i64), (i64, i64)), b: ((i64, i64), (i64, i64))) -> bool {
    let span = |p: i64, q: i64| if p <= q { (p, q) } else { (q, p) };
    let (ax, ay) = (span(a.0 .0, a.1 .0), span(a.0 .1, a.1 .1));
    let (bx, by) = (span(b.0 .0, b.1 .0), span(b.0 .1, b.1 .1));
    let overlap_x = ax.0.max(bx.0) <= ax.1.min(bx.1);
    let overlap_y = ay.0.max(by.0) <= ay.1.min(by.1);
    overlap_x && overlap_y
}

/// Checks that no two non-consecutive edges of the closed polygon touch, and
/// that consecutive edges meet only at their shared vertex.
fn assert_no_self_intersection(verts: &[(usize, usize)]) {
    let n = verts.len() - 1; // the last vertex repeats the first
    let edge = |i: usize| {
        (
            (verts[i].0 as i64, verts[i].1 as i64),
            (verts[i + 1].0 as i64, verts[i + 1].1 as i64),
        )
    };
    for i in 0..n {
        for j in (i + 1)..n {
            let consecutive = j == i + 1 || (i == 0 && j == n - 1);
            if consecutive {
                continue;
            }
            assert!(
                !segments_cross(edge(i), edge(j)),
                "edges {} and {} intersect",
                i,
                j
            );
        }
    }
}

#[test]
fn square() {
    let r = Region {
        start: (0, 0),
        members: vec![(0, 0)],
    };

    let verts = get_verts(&r);

    assert_eq!(verts, vec![(0, 0), (1, 0), (1, 1), (0, 1), (0, 0)]);
}

#[test]
fn wide() {
    let r = Region {
        start: (0, 0),
        members: vec![(0, 0), (1, 0), (2, 0)],
    };

    let verts = get_verts(&r);

    assert_eq!(verts, vec![(0, 0), (3, 0), (3, 1), (0, 1), (0, 0)]);
}

#[test]
fn tall() {
    let r = Region {
        start: (0, 0),
        members: vec![(0, 0), (0, 1), (0, 2)],
    };

    let verts = get_verts(&r);

    assert_eq!(verts, vec![(0, 0), (1, 0), (1, 3), (0, 3), (0, 0)]);
}

#[test]
fn star() {
    let r = Region {
        start: (2, 0),
        members: vec![
            (2, 0),
            (1, 1),
            (2, 1),
            (3, 1),
            (0, 2),
            (1, 2),
            (2, 2),
            (3, 2),
            (4, 2),
            (1, 3),
            (2, 3),
            (3, 3),
            (2, 4),
        ],
    };

    let output = vec![
        (2, 0),
        (3, 0),
        (3, 1),
        (4, 1),
        (4, 2),
        (5, 2),
        (5, 3),
        (4, 3),
        (4, 4),
        (3, 4),
        (3, 5),
        (2, 5),
        (2, 4),
        (1, 4),
        (1, 3),
        (0, 3),
        (0, 2),
        (1, 2),
        (1, 1),
        (2, 1),
        (2, 0),
    ];

    assert_eq!(get_verts(&r), output);
}

#[test]
fn closure_holds_on_fixtures() {
    let fixtures = vec![
        Region {
            start: (0, 0),
            members: vec![(0, 0)],
        },
        Region {
            start: (0, 0),
            members: vec![(0, 0), (1, 0), (2, 0)],
        },
        Region {
            start: (0, 0),
            members: vec![(0, 0), (0, 1), (1, 1)],
        },
    ];
    for r in &fixtures {
        let verts = get_verts(r);
        assert!(verts.len() >= 5);
        assert_eq!(verts.first(), verts.last());
        assert_eq!(verts[0], r.start);
    }
}

#[test]
fn shoelace_area_equals_cell_count() {
    let fixtures = vec![
        (
            Region {
                start: (0, 0),
                members: vec![(0, 0)],
            },
            1,
        ),
        (
            Region {
                start: (0, 0),
                members: vec![(0, 0), (1, 0), (2, 0)],
            },
            3,
        ),
        (
            Region {
                start: (0, 0),
                members: vec![(0, 0), (0, 1), (0, 2)],
            },
            3,
        ),
        (
            Region {
                start: (0, 0),
                members: vec![(0, 0), (0, 1), (1, 1)],
            },
            3,
        ),
        (
            Region {
                start: (2, 0),
                members: vec![
                    (2, 0),
                    (1, 1),
                    (2, 1),
                    (3, 1),
                    (0, 2),
                    (1, 2),
                    (2, 2),
                    (3, 2),
                    (4, 2),
                    (1, 3),
                    (2, 3),
                    (3, 3),
                    (2, 4),
                ],
            },
            13,
        ),
    ];
    for (r, cells) in &fixtures {
        let verts = get_verts(r);
        assert_eq!(shoelace_double_area(&verts), 2 * cells);
    }
}

#[test]
fn no_self_intersection_on_fixtures() {
    let star = Region {
        start: (2, 0),
        members: vec![
            (2, 0),
            (1, 1),
            (2, 1),
            (3, 1),
            (0, 2),
            (1, 2),
            (2, 2),
            (3, 2),
            (4, 2),
            (1, 3),
            (2, 3),
            (3, 3),
            (2, 4),
        ],
    };
    assert_no_self_intersection(&get_verts(&star));
    let ell = Region {
        start: (0, 0),
        members: vec![(0, 0), (0, 1), (1, 1)],
    };
    assert_no_self_intersection(&get_verts(&ell));
}

#[test]
fn trace_boundary_accepts_scan_order_start() {
    let r = Region {
        start: (0, 0),
        members: vec![(0, 0), (1, 0)],
    };
    let verts = trace_boundary(&r).unwrap();
    assert_eq!(verts, vec![(0, 0), (2, 0), (2, 1), (0, 1), (0, 0)]);
}

#[test]
fn retracing_gives_identical_output() {
    let r = Region {
        start: (0, 0),
        members: vec![(0, 0), (0, 1), (1, 1)],
    };
    let again = Region {
        start: (0, 0),
        members: vec![(0, 0), (0, 1), (1, 1)],
    };
    assert_eq!(get_verts(&r), get_verts(&again));
}

#[test]
fn trace_boundary_rejects_mid_edge_start() {
    // The start cell has a member directly west of it, so its top-left
    // corner sits in the middle of a boundary run: the walk could not close
    // there, and the checked entry point reports the misuse.
    let r = Region {
        start: (1, 0),
        members: vec![(0, 0), (1, 0)],
    };
    assert!(trace_boundary(&r).is_none());
}

#[test]
fn trace_boundary_rejects_unbounded_coordinates() {
    let r = Region {
        start: (usize::MAX, 0),
        members: vec![(usize::MAX, 0)],
    };
    assert!(trace_boundary(&r).is_none());
}
