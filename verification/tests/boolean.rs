use vgc::boolean::{
    can_trace, compress_coord_ptr, file_crossing, CurveEnd, links_fit, do_difference, do_intersection, find_index_false, handle_touching_shape, CoordOfIntersection,
    Direction, ExtractedCurves, GreinerError, GreinerShape, IntersectionType, ShapeIntersection,
};
use vgc::fill::Rgba;
use vgc::ids::{IdGenerator, LayerId};
use vgc::margin::MarginCoord;
use vgc::shape::{DbCoord, Shape};

type P = (f32, f32);
type Node = CoordOfIntersection<P, f32>;

fn node(next: usize, prev: usize, kind: IntersectionType, coord: P) -> Node {
    CoordOfIntersection {
        curve_index: 0,
        t: 0.0,
        neighbor: None,
        next: Some(next),
        prev: Some(prev),
        entry: false,
        intersect: kind,
        coord,
        rel_coord: None,
    }
}

/// Six points in the loop 0, 2, 3, 1, 4, 5: points 0 and 1 are crossings (counterparts of
/// the same points of the other outline), the others ordinary, at `(k, y)`.
fn ring(y: f32, entry0: bool, entry1: bool) -> GreinerShape<P, f32> {
    let links = [(2, 5), (4, 3), (3, 0), (1, 2), (5, 1), (0, 4)];
    let mut data = Vec::new();
    for (k, (next, prev)) in links.iter().enumerate() {
        let kind = if k < 2 { IntersectionType::Intersection } else { IntersectionType::Nothing };
        let mut n = node(*next, *prev, kind, (k as f32, y));
        if k < 2 {
            n.neighbor = Some(k);
        }
        data.push(n);
    }
    data[0].entry = entry0;
    data[1].entry = entry1;
    GreinerShape::new(data, 0, 2)
}

fn shape_a() -> Shape<P> {
    let mut a = Shape::new();
    a.id = LayerId::from_value(7);
    a.color = Rgba::new(1, 2, 3, 4);
    a
}

fn coords(s: &Shape<P>) -> Vec<P> {
    s.path.iter().map(|c| c.coord).collect()
}

#[test]
fn intersection_type_predicates() {
    let all = [
        IntersectionType::Intersection,
        IntersectionType::UnspecifiedCommonIntersection,
        IntersectionType::CommonIntersection,
        IntersectionType::IntersectionCommon,
        IntersectionType::Common,
        IntersectionType::Nothing,
    ];
    let inter: Vec<bool> = all.iter().map(|t| t.is_intersection()).collect();
    assert_eq!(inter, vec![true, true, true, false, false, false]);
    let any: Vec<bool> = all.iter().map(|t| t.is_any_intersection()).collect();
    assert_eq!(any, vec![true, true, true, true, false, false]);
    let common: Vec<bool> = all.iter().map(|t| t.is_common()).collect();
    assert_eq!(common, vec![false, false, true, true, true, false]);
}

#[test]
fn find_index_false_gives_first_false() {
    assert_eq!(find_index_false(&vec![true, false, false]), Some(1));
    assert_eq!(find_index_false(&vec![true, true]), None);
    assert_eq!(find_index_false(&vec![]), None);
}

#[test]
fn move_by_follows_links() {
    let g = ring(0.0, false, false);
    let (i, c) = g.move_by(0, 3, Direction::Forward).unwrap();
    assert_eq!(i, 1);
    assert_eq!(c.coord, (1.0, 0.0));
    let (i, _) = g.move_by(0, 2, Direction::Backward).unwrap();
    assert_eq!(i, 4);
    assert_eq!(g.move_by(9, 1, Direction::Forward).err(), Some(GreinerError::IndexOutOfBound));
    let mut h = ring(0.0, false, false);
    h.data[2].next = None;
    assert_eq!(h.move_by(0, 3, Direction::Forward).err(), Some(GreinerError::NoNext));
    let (i, c) = h.move_by_mut(0, 1, Direction::Forward).unwrap();
    c.entry = true;
    assert_eq!(i, 2);
    assert!(h.data[2].entry);
}

#[test]
fn next_curve_and_get() {
    let g = ring(0.0, false, false);
    assert_eq!(
        g.next_curve(0, Direction::Forward),
        Ok(((0.0, 0.0), (2.0, 0.0), (3.0, 0.0), (1.0, 0.0)))
    );
    assert_eq!(
        g.next_curve(1, Direction::Backward),
        Ok(((1.0, 0.0), (3.0, 0.0), (2.0, 0.0), (0.0, 0.0)))
    );
    assert_eq!(g.next_curve(8, Direction::Forward), Err(GreinerError::NoNext));
    assert_eq!(g.get(0).coord, (0.0, 0.0));
    assert_eq!(g.get(3).coord, (1.0, 0.0));
    assert_eq!(g.get(6).coord, (0.0, 0.0));
    assert_eq!(g.len(), 6);
}

#[test]
fn run_mark_entry_alternates_on_crossings() {
    let mut g = ring(0.0, false, false);
    g.run_mark_entry(0, true).unwrap();
    // Rounds land on 1, 0, 1: the crossings get true, false, true.
    assert!(!g.data[0].entry);
    assert!(g.data[1].entry);
}

#[test]
fn difference_traces_one_shape() {
    let ag = ring(0.0, false, false);
    let bg = ring(1.0, false, false);
    let a = shape_a();
    let mut ids = IdGenerator::new();
    let shapes = do_difference(&ag, &bg, &a, &a, &mut ids).unwrap();
    assert_eq!(shapes.len(), 1);
    assert_eq!(shapes[0].id, a.id);
    assert_eq!(shapes[0].color, a.color);
    assert_eq!(
        coords(&shapes[0]),
        vec![(0.0, 0.0), (2.0, 0.0), (3.0, 0.0), (1.0, 0.0), (3.0, 1.0), (2.0, 1.0), (0.0, 1.0)]
    );
}

#[test]
fn intersection_traces_one_shape() {
    let ag = ring(0.0, true, false);
    let bg = ring(1.0, false, false);
    let a = shape_a();
    let mut ids = IdGenerator::new();
    let shapes = do_intersection(&ag, &bg, &a, &a, &mut ids).unwrap();
    assert_eq!(shapes.len(), 1);
    assert_eq!(
        coords(&shapes[0]),
        vec![(0.0, 0.0), (2.0, 0.0), (3.0, 0.0), (1.0, 0.0), (3.0, 1.0), (2.0, 1.0), (0.0, 1.0)]
    );
}

#[test]
fn trace_keeps_points_of_the_shape() {
    let mut ag = ring(0.0, false, false);
    let mut ids = IdGenerator::new();
    let kept = DbCoord::new((2.0, 0.0), &mut ids);
    ag.data[2].rel_coord = Some(kept);
    let bg = ring(1.0, false, false);
    let a = shape_a();
    let shapes = do_difference(&ag, &bg, &a, &a, &mut ids).unwrap();
    assert_eq!(shapes[0].path[1], kept);
    assert_ne!(shapes[0].path[2].id, kept.id);
}

#[test]
fn set_common_in_out_settles_open_points() {
    let mut g = ring(0.0, false, false);
    g.data[0].intersect = IntersectionType::UnspecifiedCommonIntersection;
    g.data[1].intersect = IntersectionType::UnspecifiedCommonIntersection;
    g.set_common_in_out(&vec![(true, false), (false, false)]);
    assert_eq!(g.data[0].intersect, IntersectionType::IntersectionCommon);
    assert_eq!(g.data[1].intersect, IntersectionType::Intersection);
    let mut h = ring(0.0, false, false);
    h.data[0].intersect = IntersectionType::UnspecifiedCommonIntersection;
    h.data[1].intersect = IntersectionType::UnspecifiedCommonIntersection;
    h.set_common_in_out(&vec![(true, true), (false, true)]);
    assert_eq!(h.data[0].intersect, IntersectionType::Common);
    assert_eq!(h.data[1].intersect, IntersectionType::CommonIntersection);
}

#[test]
fn first_free_point() {
    let g = ring(0.0, false, false);
    // From 0, every third point: 0 (crossing), 1 (crossing), 0 again.
    assert_eq!(g.find_first_p_not_intersection(), Err(GreinerError::NoFreePoint));
    let mut h = ring(0.0, false, false);
    h.data[1].intersect = IntersectionType::Nothing;
    assert_eq!(h.find_first_p_not_intersection(), Ok(1));
}

#[test]
fn touching_shapes() {
    let ag = ring(0.0, false, false);
    let bg = ring(1.0, false, false);
    assert!(matches!(handle_touching_shape(&ag, &bg), Ok(None)));

    let mut odd = ring(0.0, false, false);
    odd.data[1].intersect = IntersectionType::Common;
    assert!(matches!(handle_touching_shape(&odd, &bg), Err(GreinerError::OddIntersections)));

    let mut a2 = ring(0.0, true, false);
    a2.data[0].intersect = IntersectionType::Common;
    a2.intersections_len = 1;
    let mut b2 = ring(1.0, true, false);
    assert!(matches!(handle_touching_shape(&a2, &b2), Ok(Some(ShapeIntersection::Nothing))));
    b2.data[0].entry = false;
    assert!(matches!(handle_touching_shape(&a2, &b2), Ok(Some(ShapeIntersection::B))));
    a2.data[0].entry = false;
    b2.data[0].entry = true;
    assert!(matches!(handle_touching_shape(&a2, &b2), Ok(Some(ShapeIntersection::A))));

    let same_a = GreinerShape::new(a2.data[0..3].to_vec(), 0, 1);
    let same_b = GreinerShape::new(b2.data[0..3].to_vec(), 0, 1);
    assert!(matches!(handle_touching_shape(&same_a, &same_b), Err(GreinerError::SameOutline)));
}

#[test]
fn crossings_ordered_by_next_link() {
    let mut g = ring(0.0, false, false);
    // Crossing 0 links to 2, crossing 1 to 4.
    assert_eq!(g.crossings_by_next(), vec![0, 1]);
    g.data[0].next = Some(5);
    assert_eq!(g.crossings_by_next(), vec![1, 0]);
    g.data[1].next = Some(5);
    assert_eq!(g.crossings_by_next(), vec![0, 1]);
}

#[test]
fn extract_and_drop_false_crossings() {
    let mut ag = ring(0.0, false, false);
    let bg = ring(1.0, false, false);
    let extracted: Vec<ExtractedCurves<P>> = ag.extract_curves(&bg).unwrap();
    assert_eq!(extracted.len(), 2);
    assert_eq!(extracted[0].index_c0, 0);
    assert_eq!(extracted[0].coords_c1, ((0.0, 0.0), (2.0, 0.0), (3.0, 0.0), (1.0, 0.0)));
    assert_eq!(extracted[0].coords_c0, ((0.0, 0.0), (5.0, 0.0), (4.0, 0.0), (1.0, 0.0)));
    assert_eq!(extracted[0].coords_neighbor_c1, ((0.0, 1.0), (2.0, 1.0), (3.0, 1.0), (1.0, 1.0)));
    assert_eq!(extracted[1].index_c1, 1);
    ag.handle_non_intersection(&extracted, &vec![true, false]);
    assert_eq!(ag.data[0].intersect, IntersectionType::Intersection);
    assert_eq!(ag.data[1].intersect, IntersectionType::Common);
}

#[test]
fn extract_pairs_common_stretch() {
    let mut ag = ring(0.0, false, false);
    ag.data[0].intersect = IntersectionType::IntersectionCommon;
    ag.data[1].intersect = IntersectionType::CommonIntersection;
    let mut bg = ring(1.0, false, false);
    bg.data[0].intersect = IntersectionType::IntersectionCommon;
    let extracted = ag.extract_curves(&bg).unwrap();
    assert_eq!(extracted.len(), 1);
    assert_eq!(extracted[0].index_c0, 0);
    assert_eq!(extracted[0].index_c1, 1);
    assert_eq!(extracted[0].coords_c1, ((1.0, 0.0), (4.0, 0.0), (5.0, 0.0), (0.0, 0.0)));
    ag.data[1].intersect = IntersectionType::Common;
    assert_eq!(ag.extract_curves(&bg).err(), Some(GreinerError::EndlessWalk));
}

#[test]
fn margin_coord_defaults_to_one() {
    assert_eq!(MarginCoord::default(), MarginCoord(1));
    assert_eq!(MarginCoord::from(4), MarginCoord(4));
}

#[test]
fn intersection_type_labels() {
    assert_eq!(IntersectionType::Intersection.to_string(), "Inter.");
    assert_eq!(IntersectionType::Common.to_string(), "Common");
    assert_eq!(IntersectionType::Nothing.to_string(), "None");
    assert_eq!(IntersectionType::CommonIntersection.to_string(), "C.Int.");
    assert_eq!(IntersectionType::IntersectionCommon.to_string(), "Int.C.");
    assert_eq!(IntersectionType::UnspecifiedCommonIntersection.to_string(), "Unspec.");
}

#[test]
fn compress_coord_ptr_ties_handles_of_straight_curves_to_their_points() {
    let mut list: Vec<Node> = (0..6)
        .map(|i| node((i + 1) % 6, (i + 5) % 6, IntersectionType::Nothing, (i as f32, 0.0)))
        .collect();
    let mut ids = IdGenerator::new();
    let straight = |p0: P, _cp0: P, _cp1: P, _p1: P| p0.0 == 0.0;

    compress_coord_ptr(&mut list, 0, &straight, &mut ids);

    assert_eq!(list[1].coord, (0.0, 0.0));
    assert_eq!(list[2].coord, (3.0, 0.0));
    let r0 = list[0].rel_coord.unwrap();
    let r1 = list[3].rel_coord.unwrap();
    assert_eq!(r0.coord, (0.0, 0.0));
    assert_eq!(r1.coord, (3.0, 0.0));
    assert_ne!(r0.id, r1.id);
    assert_eq!(list[1].rel_coord.unwrap().id, r0.id);
    assert_eq!(list[2].rel_coord.unwrap().id, r1.id);
    assert!(list[4].rel_coord.is_none());
    assert!(list[5].rel_coord.is_none());
    assert_eq!(list[4].coord, (4.0, 0.0));
    assert_eq!(list[5].coord, (5.0, 0.0));
    assert_eq!(ids.next(), 3);
}

#[test]
fn links_fit_checks_links_inside_and_forward() {
    let g = ring(0.0, true, false);
    assert!(links_fit(&g.data, true));
    let mut data = g.data.clone();
    data[3].next = None;
    assert!(links_fit(&data, false));
    assert!(!links_fit(&data, true));
    data[2].prev = Some(6);
    assert!(!links_fit(&data, false));
}

#[test]
fn can_trace_needs_links_and_counterparts() {
    let a = ring(0.0, true, false);
    let b = ring(1.0, false, true);
    assert!(can_trace(&a, &b));
    let mut broken = b.clone();
    broken.data[0].neighbor = None;
    assert!(!can_trace(&a, &broken));
    let mut unlinked = a.clone();
    unlinked.data[4].prev = None;
    assert!(!can_trace(&unlinked, &b));
    let mut stray = a.clone();
    stray.data[5].intersect = IntersectionType::Intersection;
    assert!(!can_trace(&stray, &b));
}

#[test]
fn file_crossing_moves_an_end_point_to_the_next_curve() {
    let mut ids = IdGenerator::new();
    let a0 = DbCoord::new((0.0, 0.0), &mut ids);
    let a1 = DbCoord::new((1.0, 0.0), &mut ids);
    let b0 = DbCoord::new((0.5, -1.0), &mut ids);
    let b1 = DbCoord::new((0.5, 1.0), &mut ids);

    // Inside both curves: a plain crossing.
    let (pa, pb) = file_crossing((0.5, 0.0), 0.5f32, 0.5f32, 0.0, 1, 4, CurveEnd::Inside, (a0, a1), 2, 3, CurveEnd::Inside, (b0, b1), 7, 7);
    assert_eq!((pa.curve_index, pa.t, pa.rel_coord, pa.neighbor), (1, 0.5, None, Some(7)));
    assert_eq!((pb.curve_index, pb.t, pb.rel_coord, pb.neighbor), (2, 0.5, None, Some(7)));
    assert_eq!(pa.intersect, IntersectionType::Intersection);
    assert_eq!(pb.intersect, IntersectionType::Intersection);
    assert_eq!(pa.next, None);
    assert!(!pb.entry);

    // At the end of the last curve of the first shape: filed at the start of its first curve.
    let (pa, pb) = file_crossing((1.0, 0.0), 1.0f32, 0.25f32, 0.0, 3, 4, CurveEnd::End, (a0, a1), 0, 3, CurveEnd::Inside, (b0, b1), 2, 5);
    assert_eq!((pa.curve_index, pa.t, pa.rel_coord), (0, 0.0, Some(a1)));
    assert_eq!((pb.curve_index, pb.t, pb.rel_coord), (0, 0.25, Some(a1)));
    assert_eq!(pa.neighbor, Some(5));
    assert_eq!(pb.neighbor, Some(2));
    assert_eq!(pa.intersect, IntersectionType::UnspecifiedCommonIntersection);
    assert_eq!(pb.intersect, IntersectionType::UnspecifiedCommonIntersection);

    // At ends of both curves: the point of the second shape wins.
    let (pa, pb) = file_crossing((0.5, -1.0), 0.0f32, 0.0f32, 0.0, 0, 4, CurveEnd::Start, (a0, a1), 2, 3, CurveEnd::End, (b0, b1), 0, 0);
    assert_eq!(pa.rel_coord, Some(b1));
    assert_eq!(pb.rel_coord, Some(b1));
    assert_eq!((pb.curve_index, pb.t), (0, 0.0));
    assert_eq!((pa.curve_index, pa.t), (0, 0.0));
}
