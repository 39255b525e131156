use minirt::csg::{csg_shortcut, csg_walk, CsgOp, Shortcut};

#[test]
fn union_of_overlapping_intervals_keeps_outer_bounds() {
    // a: [0, 2], b: [1, 3], merged: a-in b-in a-out b-out
    let faces = [true, true, false, false];
    assert_eq!(csg_walk(CsgOp::Union, &faces), vec![(0, true), (3, false)]);
}

#[test]
fn union_of_disjoint_intervals_keeps_all_hits() {
    let faces = [true, false, true, false];
    assert_eq!(
        csg_walk(CsgOp::Union, &faces),
        vec![(0, true), (1, false), (2, true), (3, false)]
    );
}

#[test]
fn intersection_of_overlapping_intervals_keeps_inner_bounds() {
    let faces = [true, true, false, false];
    assert_eq!(csg_walk(CsgOp::Intersection, &faces), vec![(1, true), (2, false)]);
}

#[test]
fn intersection_of_disjoint_intervals_is_empty() {
    let faces = [true, false, true, false];
    assert_eq!(csg_walk(CsgOp::Intersection, &faces), vec![]);
}

#[test]
fn difference_cuts_the_second_interval_out_of_the_first() {
    // a: [0, 3] twice, b: [1, 2] inside it
    // merged: a-in a-in b-in b-out a-out a-out
    let faces = [true, true, true, false, false, false];
    assert_eq!(
        csg_walk(CsgOp::Difference, &faces),
        vec![(1, true), (2, false), (3, true), (4, false)]
    );
}

#[test]
fn difference_with_a_disjoint_second_interval_keeps_the_first() {
    // a: [0, 1] twice, b: [2, 3]
    let faces = [true, true, false, false, true, false];
    assert_eq!(csg_walk(CsgOp::Difference, &faces), vec![(1, true), (2, false)]);
}

#[test]
fn difference_of_a_solid_with_itself_emits_coincident_pairs() {
    // two intervals, each hit three times: entries and exits come out in
    // front/back pairs at one place, which cancellation then removes
    let faces = [true, true, true, false, false, false, true, true, true, false, false, false];
    let out = csg_walk(CsgOp::Difference, &faces);
    assert_eq!(
        out,
        vec![(1, true), (2, false), (3, true), (4, false), (7, true), (8, false), (9, true), (10, false)]
    );
}

#[test]
fn union_and_intersection_of_a_solid_with_itself_keep_one_copy() {
    let faces = [true, true, false, false, true, true, false, false];
    assert_eq!(
        csg_walk(CsgOp::Union, &faces),
        vec![(0, true), (3, false), (4, true), (7, false)]
    );
    assert_eq!(
        csg_walk(CsgOp::Intersection, &faces),
        vec![(1, true), (2, false), (5, true), (6, false)]
    );
}

#[test]
fn empty_stream_emits_nothing() {
    assert_eq!(csg_walk(CsgOp::Union, &[]), vec![]);
    assert_eq!(csg_walk(CsgOp::Difference, &[]), vec![]);
}

#[test]
fn shortcuts_follow_set_algebra() {
    assert_eq!(csg_shortcut(CsgOp::Union, true, false), Shortcut::Second);
    assert_eq!(csg_shortcut(CsgOp::Union, false, true), Shortcut::First);
    assert_eq!(csg_shortcut(CsgOp::Intersection, true, false), Shortcut::First);
    assert_eq!(csg_shortcut(CsgOp::Intersection, false, true), Shortcut::Second);
    assert_eq!(csg_shortcut(CsgOp::Difference, true, false), Shortcut::First);
    assert_eq!(csg_shortcut(CsgOp::Difference, false, true), Shortcut::First);
    assert_eq!(csg_shortcut(CsgOp::Difference, false, false), Shortcut::Merge);
}

#[test]
fn cube_minus_concentric_sphere_keeps_only_the_shell() {
    // a ray from (0, 0, 5) along -z meets the cube [-1, 1]^3 at 4 and 6 (twice,
    // as the first child of a difference) and the sphere of radius 0.5 at 4.5
    // and 5.5: entries at 4, 4, 4.5, exits at 5.5, 6, 6
    let faces = [true, true, true, false, false, false];
    // the cube's entry, the sphere's wall at 4.5 as a back face, the sphere's
    // wall at 5.5 as a front face, the cube's exit: nothing between 4.5 and 5.5
    assert_eq!(
        csg_walk(CsgOp::Difference, &faces),
        vec![(1, true), (2, false), (3, true), (4, false)]
    );
    // a ray through a corner of the cube misses the sphere and keeps the cube
    assert_eq!(csg_shortcut(CsgOp::Difference, false, true), Shortcut::First);
}
