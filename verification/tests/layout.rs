use splice_core::geometry::{DisplayRect, EdgeSide, Vec2, Vec2I, PIXEL};
use splice_core::layout::{
    clamp_into_displays, compute_links, edge_specs_for, to_canvas, to_local, union_contains,
    EdgeLink, EdgeSpec, MachineGeom, MachinePlacement,
};
use splice_core::machine::MachineId;

fn machine_id(value: &str) -> MachineId {
    MachineId(value.to_owned())
}

fn display(id: &str, x: i32, y: i32, w: u32, h: u32) -> DisplayRect {
    DisplayRect { id: id.to_owned(), x, y, w, h, scale: 1000 }
}

fn machine(id: &str, displays: Vec<DisplayRect>, offset: (i32, i32)) -> MachineGeom {
    MachineGeom {
        id: machine_id(id),
        displays,
        placement: MachinePlacement {
            offset: Vec2I { x: offset.0, y: offset.1 },
            enabled: true,
        },
        reachable: true,
    }
}

fn find_link<'a>(links: &'a [EdgeLink], from: &str, to: &str) -> &'a EdgeLink {
    links
        .iter()
        .find(|link| link.from.0 == from && link.to.0 == to)
        .unwrap_or_else(|| panic!("missing link {from} -> {to}"))
}

fn point(x: f64, y: f64) -> Vec2 {
    Vec2 { x: (x * PIXEL as f64) as i64, y: (y * PIXEL as f64) as i64 }
}

#[test]
fn two_machines_side_by_side_link_in_both_directions() {
    let machines = [
        machine("a", vec![display("a-display", 0, 0, 1920, 1080)], (0, 0)),
        machine("b", vec![display("b-display", 0, 0, 1920, 1080)], (1920, 0)),
    ];

    let links = compute_links(&machines);

    assert_eq!(links.len(), 2);
    assert_eq!(
        find_link(&links, "a", "b"),
        &EdgeLink {
            from: machine_id("a"),
            to: machine_id("b"),
            side: EdgeSide::Right,
            at: 1920,
            from_range: (0, 1080),
            to_range: (0, 1080),
            to_at: 0,
        }
    );
    assert_eq!(
        find_link(&links, "b", "a"),
        &EdgeLink {
            from: machine_id("b"),
            to: machine_id("a"),
            side: EdgeSide::Left,
            at: 0,
            from_range: (0, 1080),
            to_range: (0, 1080),
            to_at: 1920,
        }
    );
}

#[test]
fn partial_vertical_overlap_uses_only_the_shared_range() {
    let machines = [
        machine("a", vec![display("a-display", 0, 0, 100, 100)], (0, 0)),
        machine("b", vec![display("b-display", 0, 0, 100, 50)], (100, 25)),
    ];

    let links = compute_links(&machines);

    assert_eq!(links.len(), 2);
    let a_to_b = find_link(&links, "a", "b");
    assert_eq!(a_to_b.from_range, (25, 75));
    assert_eq!(a_to_b.to_range, (0, 50));
    let b_to_a = find_link(&links, "b", "a");
    assert_eq!(b_to_a.from_range, (0, 50));
    assert_eq!(b_to_a.to_range, (25, 75));
}

#[test]
fn horizontal_links_convert_canvas_overlap_to_each_local_space() {
    let machines = [
        machine("a", vec![display("a-display", -50, 10, 100, 80)], (20, 30)),
        machine("b", vec![display("b-display", 0, 0, 60, 40)], (-10, 120)),
    ];

    let links = compute_links(&machines);

    assert_eq!(links.len(), 2);
    assert_eq!(
        find_link(&links, "a", "b"),
        &EdgeLink {
            from: machine_id("a"),
            to: machine_id("b"),
            side: EdgeSide::Bottom,
            at: 90,
            from_range: (-30, 30),
            to_range: (0, 60),
            to_at: 0,
        }
    );
    assert_eq!(
        find_link(&links, "b", "a"),
        &EdgeLink {
            from: machine_id("b"),
            to: machine_id("a"),
            side: EdgeSide::Top,
            at: 0,
            from_range: (0, 60),
            to_range: (-30, 30),
            to_at: 90,
        }
    );
}

#[test]
fn three_side_by_side_only_link_adjacent_machines() {
    let machines = [
        machine("a", vec![display("a-display", 0, 0, 100, 100)], (0, 0)),
        machine("b", vec![display("b-display", 0, 0, 100, 100)], (100, 0)),
        machine("c", vec![display("c-display", 0, 0, 100, 100)], (200, 0)),
    ];

    let links = compute_links(&machines);

    assert_eq!(links.len(), 4);
    assert_eq!(find_link(&links, "b", "a").side, EdgeSide::Left);
    assert_eq!(find_link(&links, "b", "c").side, EdgeSide::Right);
    assert!(!links.iter().any(|link| {
        (link.from.0 == "a" && link.to.0 == "c") || (link.from.0 == "c" && link.to.0 == "a")
    }));
}

#[test]
fn non_rectangular_union_excludes_dead_corner_spans() {
    let machines = [
        machine(
            "a",
            vec![display("laptop", 0, 50, 100, 50), display("external", 100, 0, 100, 150)],
            (0, 0),
        ),
        machine("b", vec![display("b-display", 0, 0, 100, 150)], (-100, 0)),
    ];

    let links = compute_links(&machines);

    assert_eq!(links.len(), 2);
    assert_eq!(find_link(&links, "a", "b").from_range, (50, 100));
    assert_eq!(find_link(&links, "b", "a").from_range, (50, 100));
}

#[test]
fn disabled_or_unreachable_machines_do_not_link() {
    let a = machine("a", vec![display("a-display", 0, 0, 100, 100)], (0, 0));
    let mut b = machine("b", vec![display("b-display", 0, 0, 100, 100)], (100, 0));
    b.placement.enabled = false;
    let mut machines = [a, b];

    assert!(compute_links(&machines).is_empty());

    machines[1].placement.enabled = true;
    machines[1].reachable = false;
    assert!(compute_links(&machines).is_empty());
}

#[test]
fn alignment_tolerance_accepts_two_pixels_and_rejects_slivers() {
    let machines = [
        machine("a", vec![display("a-display", 0, 0, 100, 100)], (0, 0)),
        machine("b", vec![display("b-display", 0, 0, 100, 32)], (102, 0)),
    ];
    assert_eq!(compute_links(&machines).len(), 2);

    let machines = [
        machine("a", vec![display("a-display", 0, 0, 100, 100)], (0, 0)),
        machine("b", vec![display("b-display", 0, 0, 100, 31)], (102, 0)),
    ];
    assert!(compute_links(&machines).is_empty());

    let machines = [
        machine("a", vec![display("a-display", 0, 0, 100, 100)], (0, 0)),
        machine("b", vec![display("b-display", 0, 0, 100, 100)], (103, 0)),
    ];
    assert!(compute_links(&machines).is_empty());
}

#[test]
fn edge_specs_filter_outgoing_links_and_number_the_result() {
    let links = vec![
        EdgeLink {
            from: machine_id("other"),
            to: machine_id("self"),
            side: EdgeSide::Left,
            at: 0,
            from_range: (0, 50),
            to_range: (10, 60),
            to_at: 100,
        },
        EdgeLink {
            from: machine_id("self"),
            to: machine_id("right"),
            side: EdgeSide::Right,
            at: 100,
            from_range: (20, 80),
            to_range: (0, 60),
            to_at: 0,
        },
        EdgeLink {
            from: machine_id("self"),
            to: machine_id("top"),
            side: EdgeSide::Top,
            at: 0,
            from_range: (30, 90),
            to_range: (5, 65),
            to_at: 100,
        },
    ];

    assert_eq!(
        edge_specs_for(&links, &machine_id("self")),
        vec![
            EdgeSpec { id: 0, side: EdgeSide::Right, at: 100, from: 20, to: 80 },
            EdgeSpec { id: 1, side: EdgeSide::Top, at: 0, from: 30, to: 90 },
        ]
    );
}

#[test]
fn clamp_uses_the_nearest_display_and_first_display_for_ties() {
    let displays = vec![display("left", 0, 0, 100, 100), display("right", 200, 0, 100, 100)];

    assert_eq!(clamp_into_displays(&displays, point(149.5, 120.0)), point(99.0, 99.0));
    assert_eq!(clamp_into_displays(&displays, point(240.5, 30.25)), point(240.5, 30.25));
    assert_eq!(clamp_into_displays(&[], point(3.0, 4.0)), point(3.0, 4.0));
}

#[test]
fn a_point_inside_is_its_own_nearest_point() {
    let displays = vec![display("left", 0, 0, 100, 100), display("right", 200, 0, 100, 100)];
    for inside in [point(99.5, 50.0), point(299.75, 99.75), point(0.0, 0.0)] {
        assert!(union_contains(&displays, inside));
        assert_eq!(clamp_into_displays(&displays, inside), inside);
    }
    assert_eq!(clamp_into_displays(&displays, point(100.0, 50.0)), point(99.0, 50.0));
}

#[test]
fn to_canvas_and_to_local_roundtrip() {
    let placement = MachinePlacement { offset: Vec2I { x: -137, y: 82 }, enabled: true };
    let local = point(12.75, -99.5);

    assert_eq!(to_local(&placement, to_canvas(&placement, local)), local);
}

#[test]
fn a_point_is_on_a_display_up_to_its_far_edge() {
    let displays = vec![display("one", 0, 0, 100, 100), display("none", 300, 0, 0, 100)];
    assert!(union_contains(&displays, point(0.0, 0.0)));
    assert!(union_contains(&displays, point(99.5, 99.5)));
    assert!(!union_contains(&displays, point(100.0, 50.0)));
    assert!(!union_contains(&displays, point(300.0, 50.0)));
}

#[test]
fn links_lead_back_where_they_came_from() {
    let machines = [
        machine("a", vec![display("one", 0, 0, 300, 200)], (-40, 17)),
        machine("b", vec![display("two", 5, 5, 100, 300)], (255, 0)),
    ];
    let links = compute_links(&machines);
    assert_eq!(links.len(), 2);
    let there = find_link(&links, "a", "b");
    let back = find_link(&links, "b", "a");
    assert_eq!((there.at, there.to_at), (back.to_at, back.at));
    assert_eq!((there.from_range, there.to_range), (back.to_range, back.from_range));
}

#[test]
fn every_link_has_its_way_back() {
    let machines = [
        machine("a", vec![display("1", 0, 0, 1920, 1080)], (0, 0)),
        machine("b", vec![display("1", 0, 0, 800, 600), display("2", 0, 600, 800, 600)], (1920, 200)),
        machine("c", vec![display("1", 5, 5, 640, 480)], (300, 1075)),
    ];
    let links = compute_links(&machines);
    assert!(links.len() >= 4);
    for link in &links {
        assert!(links.iter().any(|back| back.from == link.to
            && back.to == link.from
            && back.side != link.side
            && back.at == link.to_at
            && back.to_at == link.at
            && back.from_range == link.to_range
            && back.to_range == link.from_range));
    }
}
