use splice_core::arrange::{
    components, drag_step, normalize, resolve, resting_side, seams, Area, Body, Bounds, Placement,
    Rules, SeamSegment, Step, MIN_SEAM,
};
use splice_core::geometry::{DisplayRect, EdgeSide, Vec2I};

const RULES: Rules = Rules {
    min_seam: 20,
    align_tolerance: 0,
};

fn display(x: i32, y: i32, w: u32, h: u32) -> DisplayRect {
    DisplayRect {
        id: format!("{x},{y}"),
        x,
        y,
        w,
        h,
        scale: 1000,
    }
}

fn square(x: i32, y: i32) -> Body {
    Body::new(&[display(0, 0, 100, 100)], Vec2I { x, y })
}

fn at(x: i32, y: i32) -> Vec2I {
    Vec2I { x, y }
}

fn place(
    moving: &Body,
    desired: Vec2I,
    fixed: &[Body],
    current: Option<EdgeSide>,
) -> Placement {
    resolve(moving, desired, fixed, &RULES, current).expect("attachable")
}

#[test]
fn slides_along_the_seam_and_stops_at_the_dead_corner() {
    let moving = square(100, 0);
    let fixed = [square(0, 0)];

    assert_eq!(place(&moving, at(0, 30), &fixed, None).delta, at(0, 30));
    assert_eq!(place(&moving, at(0, 95), &fixed, None).delta, at(0, 80));
    assert_eq!(place(&moving, at(0, -95), &fixed, None).delta, at(0, -80));
    assert_eq!(place(&moving, at(-30, 30), &fixed, None).delta, at(0, 30));
}

#[test]
fn flips_to_the_top_once_the_pointer_is_past_the_corner() {
    let moving = square(100, 0);
    let fixed = [square(0, 0)];
    let resting = Some(EdgeSide::Left);

    let placement = place(&moving, at(0, -110), &fixed, resting);
    assert_eq!(placement.delta, at(-20, -100));
    assert_eq!(placement.side, EdgeSide::Bottom);

    let placement = place(&moving, at(0, -95), &fixed, resting);
    assert_eq!(placement.delta, at(0, -80));
    assert_eq!(placement.side, EdgeSide::Left);

    let placement = place(&moving, at(-120, 0), &fixed, resting);
    assert_eq!(placement.delta, at(-200, 0));
    assert_eq!(placement.side, EdgeSide::Right);
}

#[test]
fn the_corner_itself_is_never_a_valid_position() {
    let moving = square(100, 0);
    let fixed = [square(0, 0)];

    let delta = place(&moving, at(0, -100), &fixed, None).delta;
    assert!(delta == at(0, -80) || delta == at(-20, -100), "{delta:?}");
}

#[test]
fn slides_across_the_top_of_two_neighbours() {
    let moving = square(0, -100);
    let fixed = [square(0, 0), square(100, 0)];

    assert_eq!(place(&moving, at(-50, 0), &fixed, None).delta, at(-50, 0));
    assert_eq!(place(&moving, at(50, 0), &fixed, None).delta, at(50, 0));
    assert_eq!(place(&moving, at(150, 0), &fixed, None).delta, at(150, 0));
    assert_eq!(place(&moving, at(190, 0), &fixed, None).delta, at(180, 0));
    assert_eq!(place(&moving, at(250, 0), &fixed, None).delta, at(200, 20));
}

#[test]
fn never_overlaps_and_fills_a_gap_it_fits_into() {
    let moving = square(100, 0);
    let fixed = [square(0, 0), square(200, 0)];

    assert_eq!(place(&moving, at(50, 0), &fixed, None).delta, at(0, 0));
    assert_eq!(place(&moving, at(150, 0), &fixed, None).delta, at(200, 0));
    assert_eq!(place(&moving, at(0, 50), &fixed, None).delta, at(0, 50));
    assert_eq!(place(&moving, at(0, 90), &fixed, None).delta, at(0, 80));
}

#[test]
fn flush_edges_and_centres_attract_within_tolerance() {
    let rules = Rules {
        min_seam: 20,
        align_tolerance: 5,
    };
    let moving = square(100, 0);
    let fixed = [Body::new(&[display(0, 0, 100, 200)], at(0, 0))];

    let snap = |dy: i32| {
        resolve(&moving, at(0, dy), &fixed, &rules, None)
            .unwrap()
            .delta
    };
    assert_eq!(snap(4), at(0, 0));
    assert_eq!(snap(7), at(0, 7));
    assert_eq!(snap(53), at(0, 50));
    assert_eq!(snap(97), at(0, 100));
}

#[test]
fn alignment_is_sticky_once_flush() {
    let rules = Rules {
        min_seam: 20,
        align_tolerance: 30,
    };
    let fixed = [Body::new(&[display(0, 0, 100, 200)], at(0, 0))];
    let top = square(100, 0);
    let centred = square(100, 50);

    assert_eq!(
        resolve(&top, at(0, 28), &fixed, &rules, None)
            .unwrap()
            .delta,
        at(0, 0)
    );
    assert_eq!(
        resolve(&top, at(0, 32), &fixed, &rules, None)
            .unwrap()
            .delta,
        at(0, 50)
    );
    assert_eq!(
        resolve(&centred, at(0, -22), &fixed, &rules, None)
            .unwrap()
            .delta,
        at(0, 0)
    );
    assert_eq!(
        resolve(&centred, at(0, -32), &fixed, &rules, None)
            .unwrap()
            .delta,
        at(0, -50)
    );
}

#[test]
fn a_step_never_moves_the_dragged_card_against_the_pointer() {
    let rules = Rules {
        min_seam: MIN_SEAM,
        align_tolerance: 60,
    };
    let bodies = [
        Body::new(&[display(0, 0, 1920, 1080)], at(0, -64)),
        Body::new(&[display(0, 0, 3440, 1440)], at(1920, 856)),
        Body::new(&[display(0, 0, 1080, 1920)], at(5360, 67)),
    ];
    let vacated = Bounds {
        left: 1920,
        top: 10,
        right: 5360,
        bottom: 1450,
    };
    let mut placed = bodies.to_vec();
    let mut side = Some(EdgeSide::Left);
    let mut goal = at(1759, 361);
    for _ in 0..12 {
        let step = drag_step(&placed, 1, goal, vacated, side, &rules).unwrap();
        let net = step.deltas[1];
        let along = i64::from(net.x) * i64::from(goal.x) + i64::from(net.y) * i64::from(goal.y);
        assert!(along >= 0, "{net:?} against {goal:?}");
        placed = applied(&placed, &step.deltas);
        assert!(legal(&placed, &rules));
        side = Some(step.side);
        goal = at(goal.x + 160 - net.x, goal.y + 110 - net.y);
    }
}

#[test]
fn multi_display_bodies_keep_every_display_clear() {
    let moving = square(0, 0);
    let fixed = [Body::new(
        &[display(0, 50, 100, 50), display(100, 0, 100, 150)],
        at(0, 0),
    )];

    assert_eq!(place(&moving, at(0, -20), &fixed, None).delta, at(0, -50));
}

#[test]
fn nothing_to_attach_to_yields_none() {
    assert!(resolve(&square(0, 0), at(5, 5), &[], &RULES, None).is_none());
    assert!(resolve(&Body::default(), at(5, 5), &[square(0, 0)], &RULES, None).is_none());
}

fn step(bodies: &[Body], dragged: usize, desired: Vec2I, current: Option<EdgeSide>) -> Step {
    let vacated = bodies[dragged].bounds().expect("dragged body has displays");
    drag_step(bodies, dragged, desired, vacated, current, &RULES).expect("attachable")
}

fn applied(bodies: &[Body], deltas: &[Vec2I]) -> Vec<Body> {
    bodies
        .iter()
        .zip(deltas)
        .map(|(body, delta)| body.shifted(*delta))
        .collect()
}

fn legal(bodies: &[Body], rules: &Rules) -> bool {
    components(bodies, rules).len() == 1
        && bodies
            .iter()
            .enumerate()
            .all(|(i, a)| bodies.iter().skip(i + 1).all(|b| !a.overlaps(b)))
}

#[test]
fn lifting_the_middle_card_out_of_a_row_closes_the_row() {
    let bodies = [square(0, 0), square(100, 0), square(200, 0)];

    let step = step(&bodies, 1, at(-5, -110), Some(EdgeSide::Left));

    assert_eq!(step.deltas, vec![at(0, 0), at(-20, -100), at(-100, 0)]);
    assert_eq!(step.side, EdgeSide::Bottom);
    assert!(legal(&applied(&bodies, &step.deltas), &RULES));
}

#[test]
fn sliding_the_middle_card_moves_nothing_else() {
    let bodies = [square(0, 0), square(100, 0), square(200, 0)];

    let step = step(&bodies, 1, at(0, -30), Some(EdgeSide::Left));

    assert_eq!(step.deltas, vec![at(0, 0), at(0, -30), at(0, 0)]);

    let real = Rules {
        min_seam: MIN_SEAM,
        align_tolerance: 60,
    };
    let row = [
        Body::new(&[display(0, 0, 1512, 982)], at(0, 0)),
        Body::new(&[display(0, 0, 1920, 1080)], at(1512, 0)),
        Body::new(&[display(0, 0, 2560, 1440)], at(3432, 0)),
    ];
    let vacated = row[1].bounds().unwrap();
    for dy in [-200, -400, -700] {
        let step = drag_step(&row, 1, at(0, dy), vacated, Some(EdgeSide::Left), &real).unwrap();
        assert_eq!(step.deltas, vec![at(0, 0), at(0, dy), at(0, 0)], "dy {dy}");
    }
}

#[test]
fn pushing_through_a_neighbour_reorders_the_row() {
    let bodies = [square(0, 0), square(100, 0), square(200, 0)];

    let step = step(&bodies, 1, at(160, 0), Some(EdgeSide::Left));

    assert_eq!(step.deltas, vec![at(0, 0), at(100, 0), at(-100, 0)]);
    assert!(legal(&applied(&bodies, &step.deltas), &RULES));
}

#[test]
fn a_straight_push_goes_through_a_larger_neighbour_not_over_it() {
    let rules = Rules {
        min_seam: MIN_SEAM,
        align_tolerance: 60,
    };
    let big = Body::new(&[display(0, 0, 2560, 1440)], at(0, 0));
    let small = Body::new(&[display(0, 0, 1920, 1080)], at(2560, 0));
    let mut sides = Vec::new();
    for dx in (1..=40).map(|i| -80 * i) {
        let placement = resolve(
            &small,
            at(dx, 0),
            std::slice::from_ref(&big),
            &rules,
            Some(EdgeSide::Left),
        )
        .unwrap();
        sides.push(placement.side);
        assert_eq!(
            placement.delta.y, 0,
            "dx {dx} detoured to {:?}",
            placement.delta
        );
    }
    assert_eq!(sides.last(), Some(&EdgeSide::Right));
}

#[test]
fn a_card_hanging_off_the_dragged_one_rides_along_and_can_be_pushed() {
    let bodies = [square(0, 0), square(100, 0), square(100, 100)];

    let up = step(&bodies, 1, at(0, -30), Some(EdgeSide::Left));
    assert_eq!(up.deltas, vec![at(0, 0), at(0, -30), at(0, -30)]);
    assert!(legal(&applied(&bodies, &up.deltas), &RULES));

    let down = step(&bodies, 1, at(0, 30), Some(EdgeSide::Left));
    assert_eq!(down.deltas, vec![at(0, 0), at(0, 30), at(0, 30)]);
    assert!(legal(&applied(&bodies, &down.deltas), &RULES));
}

#[test]
fn a_rider_that_would_collide_reattaches_with_the_smallest_move() {
    let bodies = [square(0, 0), square(100, 0), square(100, 100)];

    let step = step(&bodies, 1, at(-5, -110), Some(EdgeSide::Left));

    assert_eq!(step.deltas[1], at(-20, -100));
    assert!(
        step.deltas[2] == at(0, -20) || step.deltas[2] == at(-20, 0),
        "{:?}",
        step.deltas
    );
    assert!(legal(&applied(&bodies, &step.deltas), &RULES));
}

#[test]
fn a_step_is_a_fixed_point() {
    let bodies = [
        Body::new(&[display(0, 0, 100, 300)], at(0, 0)),
        square(100, 0),
        square(200, 0),
        square(200, 100),
    ];

    let first = step(&bodies, 1, at(160, 0), Some(EdgeSide::Left));
    let moved = applied(&bodies, &first.deltas);
    assert!(legal(&moved, &RULES));
    let again = drag_step(
        &moved,
        1,
        at(0, 0),
        bodies[1].bounds().unwrap(),
        Some(first.side),
        &RULES,
    )
    .unwrap();
    assert!(
        again.deltas.iter().all(|delta| *delta == at(0, 0)),
        "{:?}",
        again.deltas
    );
}

#[test]
fn the_frame_never_moves_when_a_card_is_pushed_through_riders() {
    let rules = Rules {
        min_seam: MIN_SEAM,
        align_tolerance: 60,
    };
    let bodies = [
        Body::new(&[display(0, 0, 3840, 2160)], at(0, 0)),
        Body::new(&[display(0, 0, 1512, 982)], at(3840, 98)),
        Body::new(
            &[display(0, 0, 1920, 1080), display(1920, 0, 1920, 1080)],
            at(5352, 0),
        ),
        Body::new(&[display(0, 0, 1512, 982)], at(9192, 0)),
    ];
    let vacated = bodies[1].bounds().unwrap();

    let step = drag_step(
        &bodies,
        1,
        at(1160, 34),
        vacated,
        Some(EdgeSide::Right),
        &rules,
    )
    .unwrap();

    assert_eq!(step.deltas[0], at(0, 0));
    assert!(
        legal(&applied(&bodies, &step.deltas), &rules),
        "{:?}",
        step.deltas
    );
    let moved = applied(&bodies, &step.deltas);
    let again = drag_step(&moved, 1, at(0, 0), vacated, Some(step.side), &rules).unwrap();
    assert!(
        again.deltas.iter().all(|delta| *delta == at(0, 0)),
        "{:?}",
        again.deltas
    );
}

#[test]
fn a_push_through_a_row_never_spends_the_residual_on_another_seam() {
    let rules = Rules {
        min_seam: MIN_SEAM,
        align_tolerance: 60,
    };
    let row = [
        Body::new(&[display(0, 0, 1512, 982)], at(0, 0)),
        Body::new(&[display(0, 0, 1920, 1080)], at(1512, 0)),
        Body::new(&[display(0, 0, 2560, 1440)], at(3432, 0)),
    ];
    let vacated = row[1].bounds().unwrap();

    let step = drag_step(&row, 1, at(-1750, 0), vacated, Some(EdgeSide::Left), &rules).unwrap();

    assert_eq!(step.deltas[1].y, 0, "{:?}", step.deltas);
    assert!(
        legal(&applied(&row, &step.deltas), &rules),
        "{:?}",
        step.deltas
    );
}

#[test]
fn resting_side_reports_the_seam_a_body_sits_on() {
    let others = [square(0, 0)];
    assert_eq!(
        resting_side(&square(100, 30), &others, &RULES),
        Some(EdgeSide::Left)
    );
    assert_eq!(
        resting_side(&square(-20, -100), &others, &RULES),
        Some(EdgeSide::Bottom)
    );
    assert_eq!(resting_side(&square(100, 90), &others, &RULES), None);
    assert_eq!(resting_side(&square(300, 0), &others, &RULES), None);
}

#[test]
fn a_pair_has_nothing_to_settle() {
    let bodies = [square(0, 0), square(100, 0)];

    let step = step(&bodies, 1, at(-120, 0), Some(EdgeSide::Left));

    assert_eq!(step.deltas, vec![at(0, 0), at(-200, 0)]);
    assert!(drag_step(
        &bodies[1..],
        0,
        at(1, 1),
        bodies[1].bounds().unwrap(),
        None,
        &RULES
    )
    .is_none());
}

#[test]
fn normalize_repairs_gaps_overlaps_and_leaves_legal_arrangements_alone() {
    let row = [square(0, 0), square(100, 0), square(200, 0)];
    assert!(normalize(&row, &RULES)
        .iter()
        .all(|delta| *delta == at(0, 0)));

    let scattered = [
        square(0, 0),
        square(400, 300),
        square(50, 50),
        Body::default(),
    ];
    let deltas = normalize(&scattered, &RULES);
    assert_eq!(deltas[0], at(0, 0));
    assert_eq!(deltas[3], at(0, 0));
    assert!(legal(&applied(&scattered[..3], &deltas[..3]), &RULES));

    let tangled = [square(0, 0), square(100, 0), square(100, 50)];
    let deltas = normalize(&tangled, &RULES);
    assert_eq!(deltas[0], at(0, 0));
    assert!(legal(&applied(&tangled, &deltas), &RULES));
}

#[test]
fn a_pushed_rider_still_attached_elsewhere_is_moved_out_of_the_way() {
    let bodies = [
        Body::new(&[display(0, 0, 100, 200)], at(0, -100)),
        square(100, 0),
        square(100, 100),
        square(200, 50),
    ];

    let step = step(&bodies, 1, at(0, 40), Some(EdgeSide::Left));

    assert_eq!(&step.deltas[..3], &[at(0, 0), at(0, 40), at(0, 40)]);
    assert!(
        legal(&applied(&bodies, &step.deltas), &RULES),
        "{:?}",
        step.deltas
    );
}

#[test]
fn components_ignore_bodies_without_displays() {
    let bodies = [
        square(0, 0),
        Body::default(),
        square(100, 0),
        square(300, 0),
    ];

    assert_eq!(components(&bodies, &RULES), vec![vec![0, 2], vec![3]]);
}

#[test]
fn seams_report_shared_segments_above_the_minimum() {
    let bodies = [square(0, 0), square(100, 30), square(0, 100)];

    assert_eq!(
        seams(&bodies, 20),
        vec![
            SeamSegment {
                a: 0,
                b: 1,
                from: (100, 30),
                to: (100, 100),
            },
            SeamSegment {
                a: 0,
                b: 2,
                from: (0, 100),
                to: (100, 100),
            },
            SeamSegment {
                a: 1,
                b: 2,
                from: (100, 100),
                to: (100, 130),
            },
        ]
    );
    assert_eq!(seams(&bodies, 80).len(), 1);
}

#[test]
fn a_card_rests_at_the_nearest_place() {
    let fixed = [square(0, 0), square(300, 40)];
    let desired = at(150, -60);
    let found = place(&square(0, 300), desired, &fixed, None).delta;
    let square_to = |delta: Vec2I| {
        let x = i64::from(delta.x - desired.x);
        let y = i64::from(delta.y - desired.y);
        x * x + y * y
    };
    for x in -50..=450 {
        for y in -500..=0 {
            let there = square(0, 300).shifted(at(x, y));
            let rests = resting_side(&there, &fixed, &RULES).is_some();
            if rests && fixed.iter().all(|body| !there.overlaps(body)) {
                assert!(square_to(found) <= square_to(at(x, y)));
            }
        }
    }
}

#[test]
fn a_repair_is_not_repeated() {
    let bodies = [square(0, 0), square(40, 30), square(900, -500), square(905, -490)];
    let first = normalize(&bodies, &RULES);
    assert!(first.iter().any(|delta| *delta != at(0, 0)));
    let repaired: Vec<Body> =
        bodies.iter().zip(&first).map(|(body, delta)| body.shifted(*delta)).collect();
    assert_eq!(components(&repaired, &RULES).len(), 1);
    assert_eq!(normalize(&repaired, &RULES), vec![at(0, 0); 4]);
}

#[test]
fn rings_that_block_each_other_come_apart() {
    let ring = Body::new(
        &[
            display(-14, -14, 128, 9),
            display(-14, 105, 128, 9),
            display(-14, -5, 9, 110),
            display(105, -5, 9, 110),
        ],
        at(0, 0),
    );
    let bodies = [square(0, 0), ring.clone(), ring];
    let deltas = normalize(&bodies, &RULES);
    let repaired = applied(&bodies, &deltas);
    assert!(legal(&repaired, &RULES));
    assert_eq!(components(&repaired, &RULES).len(), 1);
    assert_eq!(normalize(&repaired, &RULES), vec![at(0, 0); 3]);
}

#[test]
fn only_nothing_leaves_a_body_unplaced() {
    let none = Body::default();
    assert!(resolve(&square(0, 0), at(0, 0), &[none.clone()], &RULES, None).is_none());
    assert!(resolve(&none, at(0, 0), &[square(0, 0)], &RULES, None).is_none());
    let ring = [square(0, 0), square(100, 0), square(0, 100), square(100, 100)];
    assert!(resolve(&square(50, 50), at(0, 0), &ring, &RULES, Some(EdgeSide::Top)).is_some());
    let bodies = [square(0, 0), none];
    let vacated = bodies[0].bounds().unwrap();
    assert!(drag_step(&bodies, 0, at(5, 0), vacated, None, &RULES).is_none());
    assert!(drag_step(&bodies, 1, at(5, 0), vacated, None, &RULES).is_none());
}

#[test]
fn areas_add_up_beyond_what_a_number_holds() {
    let rect = 1i128 << 95;
    let two = Area::zero().with(rect).with(rect);
    assert_eq!(two, Area { high: 1, low: 0 });
    assert_eq!(two.with(-1), Area { high: 0, low: (1 << 96) - 1 });
    assert_eq!(Area::zero().with(-1), Area { high: -1, low: (1 << 96) - 1 });
    assert_eq!(two.with(-1).plus(two.with(1)), Area { high: 2, low: 0 });
    let mut large = two;
    for _ in 0..100 {
        large = large.plus(large);
    }
    assert_eq!(large, Area { high: 1 << 100, low: 0 });
    assert!(large.exceeds(two) && !two.exceeds(large) && !large.exceeds(large));
    assert!(large.with(1).exceeds(large) && large.exceeds(large.with(-1)));
    assert!(Area::zero().exceeds(Area::zero().with(-1)));
}
