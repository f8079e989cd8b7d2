use vgc::fill::Rgba;
use vgc::ids::{CoordId, IdGenerator, LayerId};
use vgc::shape::{CoordType, DbCoord, DrawStep, Shape};

type P = (f32, f32);

fn four_points(ids: &mut IdGenerator, layer_ids: &mut IdGenerator, n: usize) -> Shape<P> {
    let mut path = Vec::new();
    for _ in 0..n {
        path.push(DbCoord::new((0.0, 0.0), ids));
    }
    Shape { id: LayerId::new(layer_ids), path, color: Rgba::new(0, 0, 0, 0) }
}

#[test]
fn given_a_shape_not_closed_when_delete_coord_p0_then_1_elment() {
    let mut ids = IdGenerator::new();
    let mut layer_ids = IdGenerator::new();
    let mut shape = four_points(&mut ids, &mut layer_ids, 4);
    let id3 = shape.path[3].id;

    shape.coord_delete(shape.path[0].id).unwrap();

    assert_eq!(shape.path.len(), 1);
    assert_eq!(shape.path[0].id, id3);
}

#[test]
fn given_a_shape_not_closed_when_delete_coord_p1_then_1_elment() {
    let mut ids = IdGenerator::new();
    let mut layer_ids = IdGenerator::new();
    let mut shape = four_points(&mut ids, &mut layer_ids, 4);
    let id0 = shape.path[0].id;

    shape.coord_delete(shape.path[3].id).unwrap();

    assert_eq!(shape.path.len(), 1);
    assert_eq!(shape.path[0].id, id0);
}

#[test]
fn given_a_shape_closed_when_delete_coord_p0_then_0_elment() {
    let mut ids = IdGenerator::new();
    let mut layer_ids = IdGenerator::new();
    let mut shape = four_points(&mut ids, &mut layer_ids, 4);
    shape.path[3].id = shape.path[0].id;

    shape.coord_delete(shape.path[0].id).unwrap();

    assert_eq!(shape.path.len(), 0);
}

#[test]
fn given_a_shape_closed_when_delete_coord_p1_then_0_elment() {
    let mut ids = IdGenerator::new();
    let mut layer_ids = IdGenerator::new();
    let mut shape = four_points(&mut ids, &mut layer_ids, 4);
    shape.path[3].id = shape.path[0].id;

    shape.coord_delete(shape.path[3].id).unwrap();

    assert_eq!(shape.path.len(), 0);
}

#[test]
fn given_a_shape_closed_when_delete_coord_p1_in_middle_then_4_elment() {
    let mut ids = IdGenerator::new();
    let mut layer_ids = IdGenerator::new();
    let mut shape = four_points(&mut ids, &mut layer_ids, 7);
    shape.path[6].id = shape.path[0].id;
    let id2 = shape.path[2].id;
    let id3 = shape.path[3].id;
    let id4 = shape.path[4].id;

    shape.coord_delete(shape.path[3].id).unwrap();

    assert_eq!(shape.path.len(), 4);
    assert!(shape.path.iter().all(|c| c.id != id3));
    assert!(shape.path.iter().all(|c| c.id != id2));
    assert!(shape.path.iter().all(|c| c.id != id4));
}

#[test]
fn coord_delete_handles_fall_back_and_unknown_id_fails() {
    let mut ids = IdGenerator::new();
    let mut shape: Shape<P> = Shape::new();
    for i in 0..7 {
        shape.path.push(DbCoord::new((i as f32, 0.0), &mut ids));
    }
    let before = shape.path.clone();
    shape.coord_delete(before[1].id).unwrap();
    assert_eq!(shape.path[1], before[2]);
    shape.coord_delete(before[5].id).unwrap();
    assert_eq!(shape.path[5], before[4]);
    assert_eq!(shape.coord_delete(CoordId::from(1000)), Err("Coord not found".to_string()));
}

fn lines(ids: &mut IdGenerator, pts: &[P]) -> Shape<P> {
    let coords: Vec<DbCoord<P>> = pts.iter().map(|p| DbCoord::new(*p, ids)).collect();
    Shape::new_from_lines(coords)
}

#[test]
fn given_closed_shape_when_insert_smooth_0_then_no_cp_free() {
    let mut ids = IdGenerator::new();
    let mut shape = lines(&mut ids, &[(0.0, 0.0), (0.0, 1.0), (1.0, 1.0)]);

    // the points that cutting the first curve at t = 0.5 gives
    let t = 0.5f32;
    let c = shape.curve_select(0).unwrap();
    let (p0, q0, q1, p1) = (c.p0.coord, c.cp0.coord, c.cp1.coord, c.p1.coord);
    let lerp = |a: P, b: P| (a.0 + (b.0 - a.0) * t, a.1 + (b.1 - a.1) * t);
    let a = lerp(p0, q0);
    let b = lerp(q0, q1);
    let cc = lerp(q1, p1);
    let d = lerp(a, b);
    let e = lerp(b, cc);
    let m = lerp(d, e);
    shape.curve_insert_smooth_with(0, (a, d, m, e, cc), &mut ids);

    let mut seen = Vec::new();
    for coord in &shape.path {
        if !seen.contains(&coord.id) {
            seen.push(coord.id);
        }
    }

    assert_eq!(seen.len(), 4, "There should be 4 coord because everything is a line");
}

#[test]
fn new_from_lines_closes_the_polygon() {
    let mut ids = IdGenerator::new();
    let shape = lines(&mut ids, &[(0.0, 0.0), (0.0, 1.0), (1.0, 1.0)]);
    assert_eq!(shape.path.len(), 10);
    assert!(shape.is_closed());
    assert_eq!(shape.curves_len(), 3);
    let c = shape.curve_select(1).unwrap();
    assert!(c.is_straight());
    assert!(!c.left_handle_free());
    assert!(!c.right_handle_free());
    assert!(shape.curve_select(3).is_none());
    assert_eq!(shape.curves().len(), 3);
    assert!(Shape::<P>::new_from_lines(vec![]).is_empty());
}

#[test]
fn coord_index_select_gives_roles() {
    let mut ids = IdGenerator::new();
    let shape = lines(&mut ids, &[(0.0, 0.0), (0.0, 1.0), (1.0, 1.0)]);
    let p = &shape.path;
    assert!(matches!(shape.coord_index_select(p[0].id), Some((0, CoordType::P0))));
    assert!(matches!(shape.coord_index_select(p[3].id), Some((2, CoordType::CP1))));
    assert!(shape.coord_index_select(CoordId::from(999)).is_none());
    assert_eq!(shape.coord_select(p[4].id).unwrap().coord, (0.0, 1.0));
    // the corner (0, 1) first appears as the handle at index 2
    assert_eq!(shape.curve_select_of_coord_id(p[2].id), None);
    assert_eq!(shape.curve_select_of_coord_id(p[0].id), Some(2));
}

#[test]
fn handle_join_and_separate() {
    let mut ids = IdGenerator::new();
    let mut shape = lines(&mut ids, &[(0.0, 0.0), (0.0, 1.0), (1.0, 1.0)]);
    assert!(shape.is_handles_joined(0));
    shape.handle_separate_to(0, (0.0, 0.5), (0.5, 1.0), &mut ids);
    assert!(!shape.is_handles_joined(0));
    assert_eq!(shape.path[2].coord, (0.0, 0.5));
    assert_eq!(shape.path[4].coord, (0.5, 1.0));
    shape.handle_join(0);
    assert!(shape.is_handles_joined(0));
    assert_eq!(shape.path[2], shape.path[3]);
    assert_eq!(shape.path[4], shape.path[3]);
}

#[test]
fn curve_insert_line_adds_a_corner() {
    let mut ids = IdGenerator::new();
    let mut shape = lines(&mut ids, &[(0.0, 0.0), (0.0, 1.0), (1.0, 1.0)]);
    shape.curve_insert_line(0, (0.0, 0.5), &mut ids);
    assert_eq!(shape.path.len(), 13);
    assert_eq!(shape.curves_len(), 4);
    assert_eq!(shape.path[2].coord, (0.0, 0.5));
    assert_eq!(shape.path[2], shape.path[3]);
    assert_eq!(shape.path[3], shape.path[4]);
}

#[test]
fn curves_path_update_id_fills_null_ids_in_order() {
    let mut ids = IdGenerator::new();
    let mut shape: Shape<P> = Shape::new();
    shape.path.push(DbCoord { id: CoordId::null(), coord: (0.0, 0.0) });
    shape.path.push(DbCoord { id: CoordId::from(77), coord: (1.0, 0.0) });
    shape.path.push(DbCoord { id: CoordId::null(), coord: (2.0, 0.0) });
    shape.curves_path_update_id(&mut ids);
    assert_eq!(shape.path[0].id.value(), 1);
    assert_eq!(shape.path[1].id.value(), 77);
    assert_eq!(shape.path[2].id.value(), 2);
    assert_eq!(ids.next(), 3);
}

#[test]
fn toggle_handle_separates_then_joins() {
    let mut ids = IdGenerator::new();
    let mut layer_ids = IdGenerator::new();
    let mut shape = four_points(&mut ids, &mut layer_ids, 7);
    for k in 0..7 {
        shape.path[k].coord = (k as f32, 0.0);
    }
    shape.path[6] = shape.path[0];
    shape.path[2] = shape.path[3];
    shape.path[4] = shape.path[3];
    assert!(shape.is_handles_joined(0));
    shape.toggle_separate_join_handle(0, ((2.5, 1.0), (3.5, 1.0)), &mut ids);
    assert!(!shape.is_handles_joined(0));
    assert_eq!(shape.path[2].coord, (2.5, 1.0));
    assert_eq!(shape.path[4].coord, (3.5, 1.0));
    assert_ne!(shape.path[2].id, shape.path[3].id);
    shape.toggle_separate_join_handle(0, ((0.0, 0.0), (0.0, 0.0)), &mut ids);
    assert!(shape.is_handles_joined(0));
    assert_eq!(shape.path[2], shape.path[3]);
    assert_eq!(shape.path[4], shape.path[3]);
}

/// Points a third of the way from the joint of curves `index` and the one after it toward
/// the other ends of the two curves: where the separated handles go.
fn corners_of(shape: &Shape<P>, index: usize) -> (P, P) {
    let n = shape.curves_len();
    let a = shape.curve_select(index).unwrap();
    let b = shape.curve_select((index + 1) % n).unwrap();
    let third = |p: P, q: P| (p.0 + (q.0 - p.0) / 3.0, p.1 + (q.1 - p.1) / 3.0);
    (third(a.p1.coord, a.p0.coord), third(b.p0.coord, b.p1.coord))
}

#[test]
fn given_closed_shape_when_toggle_handle_0_then_handles_separated() {
    let mut ids = IdGenerator::new();
    let mut shape = lines(&mut ids, &[(0.0, 0.0), (0.0, 1.0), (1.0, 1.0)]);
    let curve = shape.curve_select_of_coord_id(shape.path[0].id).expect("Not 404");

    let corners = corners_of(&shape, curve);
    shape.toggle_separate_join_handle(curve, corners, &mut ids);

    assert_ne!(shape.path[1].coord, (0.0, 0.0));
    assert_ne!(shape.path[8].coord, (0.0, 0.0));
}

#[test]
fn coord_select_mut_changes_only_the_first_point_with_the_id() {
    let mut ids = IdGenerator::new();
    let mut layer_ids = IdGenerator::new();
    let mut shape = four_points(&mut ids, &mut layer_ids, 4);
    shape.path[3].id = shape.path[0].id;
    let id0 = shape.path[0].id;

    let c = shape.coord_select_mut(id0).unwrap();
    c.coord = (2.0, 3.0);

    assert_eq!(shape.path[0].coord, (2.0, 3.0));
    assert_eq!(shape.path[3].coord, (0.0, 0.0));
    assert_eq!(shape.path.len(), 4);

    let mut other = IdGenerator::new();
    for _ in 0..10 {
        DbCoord::new((0.0, 0.0), &mut other);
    }
    let missing = DbCoord::new((0.0, 0.0), &mut other).id;
    assert!(shape.coord_select_mut(missing).is_none());
}

#[test]
fn can_delete_tells_where_deleting_stays_inside_the_path() {
    let mut ids = IdGenerator::new();
    let mut layer_ids = IdGenerator::new();
    let open = four_points(&mut ids, &mut layer_ids, 4);
    assert!(open.can_delete(open.path[0].id));
    assert!(open.can_delete(open.path[1].id));
    assert!(open.can_delete(open.path[3].id));
    let mut closed = four_points(&mut ids, &mut layer_ids, 7);
    closed.path[6].id = closed.path[0].id;
    assert!(!closed.can_delete(closed.path[0].id));
    assert!(closed.can_delete(closed.path[4].id));
    let short = four_points(&mut ids, &mut layer_ids, 2);
    assert!(!short.can_delete(short.path[0].id));
    assert!(!short.can_delete(short.path[1].id));
}

#[test]
fn render_leaves_out_two_points_after_the_last_curve() {
    let mut ids = IdGenerator::new();
    let mut path = Vec::new();
    for k in 0..5 {
        path.push(DbCoord::new((k as f32, 0.0), &mut ids));
    }
    let shape = Shape { id: LayerId::from_value(1), path, color: Rgba::new(1, 2, 3, 4) };
    let steps = shape.render();
    assert_eq!(
        steps,
        vec![
            DrawStep::SetFill(Rgba::new(1, 2, 3, 4)),
            DrawStep::StartShape((0.0, 0.0)),
            DrawStep::MoveCurve((1.0, 0.0), (2.0, 0.0), (3.0, 0.0)),
            DrawStep::CloseShape,
            DrawStep::End,
        ]
    );
}
