use vgc::fill::Rgba;
use vgc::ids::{CoordId, IdGenerator, LayerId};
use vgc::scene::Scene;
use vgc::selection::{set_color_of, CoordState, HoverCoord, SelectedLevel, SelectedShape, UserSelection};
use vgc::shape::{DbCoord, Shape};

type P = (f32, f32);

#[test]
fn selected_level_steps() {
    assert_eq!(SelectedLevel::Nothing.plus(), SelectedLevel::Shape);
    assert_eq!(SelectedLevel::Shape.plus(), SelectedLevel::Coord);
    assert_eq!(SelectedLevel::Coord.plus(), SelectedLevel::Coord);
    assert_eq!(SelectedLevel::Nothing.minus(), SelectedLevel::Nothing);
    assert_eq!(SelectedLevel::Shape.minus(), SelectedLevel::Nothing);
    assert_eq!(SelectedLevel::Coord.minus(), SelectedLevel::Shape);
    for l in [SelectedLevel::Nothing, SelectedLevel::Shape] {
        assert_eq!(l.plus().minus(), l);
    }
    for l in [SelectedLevel::Shape, SelectedLevel::Coord] {
        assert_eq!(l.minus().plus(), l);
    }
}

#[test]
fn selected_level_and_clear() {
    let mut sel: UserSelection<P> = UserSelection::new();
    assert_eq!(sel.get_selected_level(), SelectedLevel::Nothing);
    sel.shapes.push(SelectedShape::new(LayerId::from(1)));
    sel.shapes.push(SelectedShape::new(LayerId::from(2)));
    assert_eq!(sel.get_selected_level(), SelectedLevel::Shape);
    sel.shapes[1].coords.push(CoordId::from(5));
    assert_eq!(sel.get_selected_level(), SelectedLevel::Coord);
    sel.clear_to_level(SelectedLevel::Coord);
    assert_eq!(sel.get_selected_level(), SelectedLevel::Coord);
    sel.clear_to_level(SelectedLevel::Shape);
    assert_eq!(sel.get_selected_level(), SelectedLevel::Shape);
    assert_eq!(sel.shapes.len(), 2);
    sel.clear_to_level(SelectedLevel::Nothing);
    assert_eq!(sel.get_selected_level(), SelectedLevel::Nothing);
}

#[test]
fn coord_state_prefers_hover() {
    let mut sel: UserSelection<P> = UserSelection::new();
    let mut shape = SelectedShape::new(LayerId::from(1));
    shape.coords.push(CoordId::from(3));
    assert_eq!(shape.coord_state(&sel, CoordId::from(3)), CoordState::Selected);
    assert_eq!(shape.coord_state(&sel, CoordId::from(4)), CoordState::Nothing);
    sel.hover_coord = Some(HoverCoord::new(LayerId::from(1), CoordId::from(3)));
    assert_eq!(shape.coord_state(&sel, CoordId::from(3)), CoordState::Hover);
}

#[test]
fn remove_shape_drops_first_match() {
    let mut sel: UserSelection<P> = UserSelection::new();
    for i in [1, 2, 1] {
        sel.shapes.push(SelectedShape::new(LayerId::from(i)));
    }
    sel.remove_shape(LayerId::from(1));
    let ids: Vec<LayerId> = sel.shapes.iter().map(|s| s.shape_id).collect();
    assert_eq!(ids, vec![LayerId::from(2), LayerId::from(1)]);
    sel.remove_shape(LayerId::from(9));
    assert_eq!(sel.shapes.len(), 2);
}

#[test]
fn selected_colors_are_distinct_and_in_order() {
    let mut layer_ids = IdGenerator::new();
    let mut coord_ids = IdGenerator::new();
    let mut scene: Scene<P> = Scene::new();
    let mut ids = Vec::new();
    for c in [Rgba::white(), Rgba::black(), Rgba::white()] {
        let mut s = Shape::new();
        s.color = c;
        ids.push(scene.shape_insert(s, &mut layer_ids, &mut coord_ids));
    }
    let mut sel: UserSelection<P> = UserSelection::new();
    assert!(sel.get_selected_colors(&scene).is_empty());
    for id in [ids[2], ids[1], ids[0], LayerId::from(99)] {
        sel.shapes.push(SelectedShape::new(id));
    }
    assert_eq!(sel.get_selected_colors(&scene), vec![Rgba::white(), Rgba::black()]);
}

fn square(scene: &mut Scene<P>, layer_ids: &mut IdGenerator, coord_ids: &mut IdGenerator, x: f32) -> LayerId {
    let mut path = Vec::new();
    for k in 0..4 {
        path.push(DbCoord::new((x + k as f32, 0.0), coord_ids));
    }
    scene.shape_insert(Shape::new_from_path(path), layer_ids, coord_ids)
}

fn near(cursor: P) -> impl Fn(P) -> bool {
    move |c: P| (c.0 - cursor.0).abs() < 0.1 && (c.1 - cursor.1).abs() < 0.1
}

fn two_squares() -> (Scene<P>, LayerId, LayerId) {
    let mut layer_ids = IdGenerator::new();
    let mut coord_ids = IdGenerator::new();
    let mut scene: Scene<P> = Scene::new();
    let a = square(&mut scene, &mut layer_ids, &mut coord_ids, 0.0);
    let b = square(&mut scene, &mut layer_ids, &mut coord_ids, 10.0);
    (scene, a, b)
}

#[test]
fn hover_follows_last_selected_shape() {
    let (scene, a, b) = two_squares();
    let b_coord = scene.shape_select(b).unwrap().path[2].id;
    let mut sel: UserSelection<P> = UserSelection::new();
    sel.change_hover(&scene, &near((12.0, 0.0)));
    assert_eq!(sel.hover_coord, None);
    sel.shapes.push(SelectedShape::new(a));
    sel.shapes.push(SelectedShape::new(b));
    sel.change_hover(&scene, &near((12.0, 0.0)));
    assert_eq!(sel.hover_coord, Some(HoverCoord::new(b, b_coord)));
    // A point of the first shape only: the last shape has none, so nothing is hovered.
    sel.change_hover(&scene, &near((1.0, 0.0)));
    assert_eq!(sel.hover_coord, None);
}

#[test]
fn change_selection_picks_shape_then_point() {
    let (scene, a, b) = two_squares();
    let mut sel: UserSelection<P> = UserSelection::new();
    let inside_b = |s: &Shape<P>| s.id == b;
    sel.change_selection(&scene, &near((50.0, 0.0)), &inside_b);
    assert_eq!(sel.shapes.len(), 1);
    assert_eq!(sel.shapes[0].shape_id, b);
    let b_coord = scene.shape_select(b).unwrap().path[1].id;
    sel.change_selection(&scene, &near((11.0, 0.0)), &inside_b);
    assert_eq!(sel.shapes[0].coords, vec![b_coord]);
    sel.change_selection(&scene, &near((50.0, 0.0)), &inside_b);
    assert_eq!(sel.shapes.len(), 1);
    assert!(sel.shapes[0].coords.is_empty());
    let none = |_: &Shape<P>| false;
    let mut empty: UserSelection<P> = UserSelection::new();
    empty.change_selection(&scene, &near((0.0, 0.0)), &none);
    assert!(empty.shapes.is_empty());
    let _ = a;
}

#[test]
fn add_selection_toggles_points_and_shapes() {
    let (scene, a, b) = two_squares();
    let a_coord = scene.shape_select(a).unwrap().path[3].id;
    let mut sel: UserSelection<P> = UserSelection::new();
    sel.shapes.push(SelectedShape::new(a));
    let inside_b = |s: &Shape<P>| s.id == b;
    sel.add_selection(&scene, &near((3.0, 0.0)), &inside_b);
    assert_eq!(sel.shapes[0].coords, vec![a_coord]);
    sel.add_selection(&scene, &near((3.0, 0.0)), &inside_b);
    assert!(sel.shapes[0].coords.is_empty());
    sel.add_selection(&scene, &near((50.0, 0.0)), &inside_b);
    let ids: Vec<LayerId> = sel.shapes.iter().map(|s| s.shape_id).collect();
    assert_eq!(ids, vec![a, b]);
    sel.add_selection(&scene, &near((50.0, 0.0)), &inside_b);
    let ids: Vec<LayerId> = sel.shapes.iter().map(|s| s.shape_id).collect();
    assert_eq!(ids, vec![a]);
}

#[test]
fn keep_first_shape_drops_the_others_and_the_points() {
    let mut sel: UserSelection<P> = UserSelection::new();
    let mut first = SelectedShape::new(LayerId::from(3));
    first.coords.push(CoordId::from_value(9));
    sel.shapes.push(first);
    sel.shapes.push(SelectedShape::new(LayerId::from(4)));
    sel.hover_coord = Some(HoverCoord::new(LayerId::from(4), CoordId::from_value(2)));

    sel.keep_first_shape();

    assert_eq!(sel.shapes.len(), 1);
    assert_eq!(sel.shapes[0].shape_id, LayerId::from(3));
    assert!(sel.shapes[0].coords.is_empty());
    assert_eq!(sel.hover_coord, Some(HoverCoord::new(LayerId::from(4), CoordId::from_value(2))));
}

#[test]
fn set_color_of_paints_the_selected_shapes() {
    let mut layer_ids = IdGenerator::new();
    let mut coord_ids = IdGenerator::new();
    let mut scene: Scene<P> = Scene::new();
    let mut ids = Vec::new();
    for _ in 0..3 {
        let mut s = Shape::new();
        s.color = Rgba::white();
        ids.push(scene.shape_insert(s, &mut layer_ids, &mut coord_ids));
    }
    let mut sel: UserSelection<P> = UserSelection::new();
    sel.shapes.push(SelectedShape::new(ids[0]));
    sel.shapes.push(SelectedShape::new(ids[2]));
    sel.shapes.push(SelectedShape::new(LayerId::from(99)));
    let red = Rgba::new(255, 0, 0, 255);

    set_color_of(&mut scene, &mut sel, red);

    assert_eq!(sel.color, red);
    assert_eq!(sel.shapes.len(), 3);
    assert_eq!(scene.shape_select(ids[0]).unwrap().color, red);
    assert_eq!(scene.shape_select(ids[1]).unwrap().color, Rgba::white());
    assert_eq!(scene.shape_select(ids[2]).unwrap().color, red);
}
