use faf_text::outline::{contour_counts, flatten, masters_compatible, Command, Point, Segment};

fn p(x: f32, y: f32) -> Point {
    Point { x: x.to_bits(), y: y.to_bits() }
}

fn ends(segment: Segment) -> (Point, Point) {
    match segment {
        Segment::Line { from, to } => (from, to),
        Segment::Quad { from, to, .. } => (from, to),
        Segment::Cubic { from, to, .. } => (from, to),
    }
}

#[test]
fn lines_become_degenerate_quads_and_contours_close() {
    let contours = flatten(&vec![
        Command::MoveTo(p(0.0, 0.0)),
        Command::LineTo(p(1.0, 0.0)),
        Command::LineTo(p(1.0, 1.0)),
        Command::Close,
    ]);
    assert_eq!(contours.len(), 1);
    let q = &contours[0];
    assert_eq!(q.len(), 3);
    assert!(q.iter().all(|s| matches!(s, Segment::Line { .. }) && s.quadratics() == 1));
    // The closing edge returns to the contour's start.
    assert_eq!(ends(q[2]).1, p(0.0, 0.0));
    assert_eq!(contour_counts(&contours), vec![3]);
}

#[test]
fn unterminated_contour_is_closed_by_move_to() {
    let contours = flatten(&vec![
        Command::MoveTo(p(0.0, 0.0)),
        Command::LineTo(p(1.0, 0.0)),
        Command::MoveTo(p(5.0, 5.0)),
        Command::LineTo(p(6.0, 5.0)),
        Command::Close,
    ]);
    let q: Vec<Segment> = contours.iter().flatten().copied().collect();
    assert_eq!(q.len(), 4);
    assert_eq!(ends(q[1]).1, p(0.0, 0.0));
    assert_eq!(contour_counts(&contours), vec![2, 2]);
}

#[test]
fn cubic_splits_into_four_quads_hitting_endpoints() {
    let contours = flatten(&vec![
        Command::MoveTo(p(0.0, 0.0)),
        Command::CurveTo(p(0.0, 1.0), p(1.0, 1.0), p(1.0, 0.0)),
    ]);
    let q = contours[0][0];
    assert_eq!(q.quadratics(), 4);
    assert_eq!(ends(q), (p(0.0, 0.0), p(1.0, 0.0)));
    // The path ends open, so a line closes it.
    assert_eq!(ends(contours[0][1]), (p(1.0, 0.0), p(0.0, 0.0)));
    assert_eq!(contour_counts(&contours), vec![5]);
}

#[test]
fn segments_of_a_contour_follow_each_other() {
    let contours = flatten(&vec![
        Command::MoveTo(p(0.0, 0.0)),
        Command::QuadTo(p(0.5, 1.0), p(1.0, 0.0)),
        Command::LineTo(p(0.0, 0.0)),
        Command::Close,
        Command::Close,
    ]);
    assert_eq!(contours.len(), 1, "an empty contour is none");
    assert_eq!(contours[0].len(), 2, "a contour that ends where it started needs no closing line");
    for pair in contours[0].windows(2) {
        assert_eq!(ends(pair[0]).1, ends(pair[1]).0);
    }
}

#[test]
fn masters_pair_up_only_when_their_command_sequences_match() {
    let q = |x: f32| p(x, x);
    let a = vec![
        Command::MoveTo(q(0.0)),
        Command::LineTo(q(1.0)),
        Command::QuadTo(q(2.0), q(3.0)),
        Command::Close,
    ];
    let bolder = vec![
        Command::MoveTo(q(0.1)),
        Command::LineTo(q(1.4)),
        Command::QuadTo(q(2.2), q(3.9)),
        Command::Close,
    ];
    assert!(masters_compatible(&a, &bolder), "same commands, moved points");

    let retyped = vec![
        Command::MoveTo(q(0.0)),
        Command::QuadTo(q(1.0), q(1.5)),
        Command::QuadTo(q(2.0), q(3.0)),
        Command::Close,
    ];
    assert!(!masters_compatible(&a, &retyped));
    assert!(!masters_compatible(&a, &a[..3].to_vec()), "a dropped contour");
    assert!(!masters_compatible(&a[..1].to_vec(), &a));
}
