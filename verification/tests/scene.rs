use vgc::fill::Rgba;
use vgc::ids::{IdGenerator, LayerId};
use vgc::scene::{LayerType, RenderOption, Scene};
use vgc::shape::{DbCoord, DrawStep, Shape};

type P = (f32, f32);

fn circle(center: P, radius: P, ids: &mut IdGenerator) -> Shape<P> {
    let a = 1.000_055_2f32;
    let b = 0.553_426_86f32;
    let c = 0.998_735_85f32;
    let pts = [
        (b, c),
        (c, b),
        (a, 0.0),
        (c, -b),
        (b, -c),
        (0.0, -a),
        (-b, -c),
        (-c, -b),
        (-a, 0.0),
        (-c, b),
        (-b, c),
    ];
    let t = |p: P| (p.0 * radius.0 + center.0, p.1 * radius.1 + center.1);
    let start = DbCoord::new(t((0.0, a)), ids);
    let mut v = vec![start];
    for p in pts {
        v.push(DbCoord::new(t(p), ids));
    }
    v.push(start);
    Shape::new_from_path(v)
}

#[test]
fn given_3_layers_when_move_top_then_id_correct() {
    let mut layer_ids = IdGenerator::new();
    let mut coord_ids = IdGenerator::new();
    let mut scene: Scene<P> = Scene::new();
    let id1 = scene.shape_insert(Shape::new(), &mut layer_ids, &mut coord_ids);
    let id2 = scene.shape_insert(Shape::new(), &mut layer_ids, &mut coord_ids);
    let id3 = scene.shape_insert(Shape::new(), &mut layer_ids, &mut coord_ids);

    scene.layer_move_top(id3);

    let layer_ids: Vec<LayerId> = scene.layer_ids();
    assert_eq!(layer_ids, vec![id3, id1, id2]);

    scene.layer_move_top(id1);

    let layer_ids: Vec<LayerId> = scene.layer_ids();
    assert_eq!(layer_ids, vec![id1, id3, id2]);
}

#[test]
fn test_shape_insert() {
    let mut layer_ids = IdGenerator::new();
    let mut coord_ids = IdGenerator::new();
    let mut db: Scene<P> = Scene::new();
    let shape = Shape::new();
    let inserted_id = db.shape_insert(shape, &mut layer_ids, &mut coord_ids);
    let shape = db.shape_select(inserted_id).unwrap();
    assert_eq!(shape.id, inserted_id);
    assert_eq!(shape.color, Rgba::new(0, 0, 0, 0));
}

#[test]
fn shape_insert_names_layer_and_gives_ids() {
    let mut layer_ids = IdGenerator::new();
    let mut coord_ids = IdGenerator::new();
    let mut scene: Scene<P> = Scene::new();
    let mut shape = Shape::new();
    shape.path.push(DbCoord { id: vgc::ids::CoordId::null(), coord: (0.0, 0.0) });
    let a = scene.shape_insert(shape, &mut layer_ids, &mut coord_ids);
    let b = scene.shape_insert(circle((0.0, 0.0), (1.0, 1.0), &mut coord_ids), &mut layer_ids, &mut coord_ids);
    assert_eq!(a.value(), 1);
    assert_eq!(b.value(), 2);
    assert_eq!(scene.layer_at(0).name, "Shape 1");
    assert_eq!(scene.layer_at(1).name, "Shape 2");
    // the null point of the first shape received a fresh identifier
    let first = scene.shape_select(a).unwrap();
    assert_ne!(first.path[0].id, vgc::ids::CoordId::null());
    let tree = scene.get_tree_view();
    assert_eq!(tree.len(), 2);
    assert_eq!(tree[1].layer_id, 2);
    assert_eq!(tree[1].layer_type, "Shape");
    assert_eq!(tree[1].name, "Shape 2");
    assert_eq!(tree[1].level, 0);
}

#[test]
fn shape_insert_keeps_given_id() {
    let mut layer_ids = IdGenerator::new();
    let mut coord_ids = IdGenerator::new();
    let mut scene: Scene<P> = Scene::new();
    let mut shape = Shape::new();
    shape.id = LayerId::from(42);
    let id = scene.shape_insert(shape, &mut layer_ids, &mut coord_ids);
    assert_eq!(id, LayerId::from(42));
    assert_eq!(scene.layer_at(0).name, "Shape 42");
}

fn three_layers() -> (Scene<P>, LayerId, LayerId, LayerId) {
    let mut layer_ids = IdGenerator::new();
    let mut coord_ids = IdGenerator::new();
    let mut scene: Scene<P> = Scene::new();
    let a = scene.shape_insert(Shape::new(), &mut layer_ids, &mut coord_ids);
    let b = scene.shape_insert(Shape::new(), &mut layer_ids, &mut coord_ids);
    let c = scene.shape_insert(Shape::new(), &mut layer_ids, &mut coord_ids);
    (scene, a, b, c)
}

#[test]
fn layer_move_up_and_down_swap_neighbours() {
    let (mut scene, a, b, c) = three_layers();
    scene.layer_move_up(c);
    assert_eq!(scene.layer_ids(), vec![a, c, b]);
    scene.layer_move_down(c);
    assert_eq!(scene.layer_ids(), vec![a, b, c]);
    scene.layer_move_up(a);
    assert_eq!(scene.layer_ids(), vec![a, b, c]);
    scene.layer_move_down(c);
    assert_eq!(scene.layer_ids(), vec![a, b, c]);
}

#[test]
fn layer_move_at_and_before() {
    let (mut scene, a, b, c) = three_layers();
    assert_eq!(scene.layer_move_at(a, 2), Ok(()));
    assert_eq!(scene.layer_ids(), vec![b, c, a]);
    assert_eq!(scene.layer_move_before(a, b), Ok(()));
    assert_eq!(scene.layer_ids(), vec![a, b, c]);
    let missing = LayerId::from(99);
    assert_eq!(scene.layer_move_at(missing, 0), Err("id_to_move not found".to_string()));
    assert_eq!(scene.layer_move_before(a, missing), Err("id_position not found".to_string()));
    assert_eq!(scene.layer_move_before(missing, a), Err("id_to_move not found".to_string()));
    assert_eq!(scene.layer_ids(), vec![a, b, c]);
}

#[test]
fn layer_position_and_delete() {
    let (mut scene, a, b, c) = three_layers();
    assert_eq!(scene.layer_position(b), Some(1));
    assert_eq!(scene.layer_position(LayerId::from(7)), None);
    scene.layer_delete(b);
    assert_eq!(scene.layer_ids(), vec![a, c]);
    scene.layer_delete(LayerId::from(7));
    assert_eq!(scene.layer_ids(), vec![a, c]);
}

#[test]
fn shape_select_mut_and_put_change_one_layer() {
    let (mut scene, a, b, _c) = three_layers();
    scene.shape_select_mut(b).unwrap().color = Rgba::white();
    assert_eq!(scene.shape_select(b).unwrap().color, Rgba::white());
    assert_eq!(scene.shape_select(a).unwrap().color, Rgba::transparent());
    let mut s = Shape::new();
    s.id = a;
    s.color = Rgba::black();
    scene.shape_put(s);
    assert_eq!(scene.shape_select(a).unwrap().color, Rgba::black());
    assert!(scene.shape_select(LayerId::from(50)).is_none());
    assert!(scene.shape_select_mut(LayerId::from(50)).is_none());
}

#[test]
fn layers_to_render_goes_back_to_front() {
    let (scene, a, b, c) = three_layers();
    assert_eq!(scene.layers_to_render(&RenderOption::default()), vec![2, 1, 0]);
    let stop = RenderOption { to_layer: Some(b), skip_layers: vec![], only_layers: vec![] };
    assert_eq!(scene.layers_to_render(&stop), vec![2]);
    let skip = RenderOption { to_layer: None, skip_layers: vec![c], only_layers: vec![] };
    assert_eq!(scene.layers_to_render(&skip), vec![1, 0]);
    let only = RenderOption { to_layer: None, skip_layers: vec![], only_layers: vec![a, c] };
    assert_eq!(scene.layers_to_render(&only), vec![2, 0]);
}

#[test]
fn layer_type_names() {
    assert_eq!(LayerType::<P>::Folder.type_string(), "Folder");
    assert_eq!(LayerType::Shape(Shape::<P>::new()).type_string(), "Shape");
    let scene: Scene<P> = Scene::new();
    assert_eq!(scene.background, Rgba::new(255, 255, 255, 0));
    assert_eq!(scene.layer_count(), 0);
}

#[test]
fn shape_select_contains_finds_first_passing_shape() {
    let mut layer_ids = IdGenerator::new();
    let mut coord_ids = IdGenerator::new();
    let mut scene: Scene<P> = Scene::new();
    let a = scene.shape_insert(circle((0.0, 0.0), (1.0, 1.0), &mut coord_ids), &mut layer_ids, &mut coord_ids);
    let b = scene.shape_insert(circle((5.0, 0.0), (1.0, 1.0), &mut coord_ids), &mut layer_ids, &mut coord_ids);
    let right_of_3 = |s: &Shape<P>| s.path[0].coord.0 > 3.0;
    assert_eq!(scene.shape_select_contains(&right_of_3).unwrap().id, b);
    let any = |_: &Shape<P>| true;
    assert_eq!(scene.shape_select_contains(&any).unwrap().id, a);
    let none = |_: &Shape<P>| false;
    assert!(scene.shape_select_contains(&none).is_none());
}

#[test]
fn layer_render_steps() {
    let mut coord_ids = IdGenerator::new();
    let mut shape = circle((0.0, 0.0), (1.0, 1.0), &mut coord_ids);
    shape.color = Rgba::new(9, 8, 7, 6);
    let steps = shape.render();
    assert_eq!(steps.len(), 2 + 4 + 2);
    assert_eq!(steps[0], DrawStep::SetFill(Rgba::new(9, 8, 7, 6)));
    assert_eq!(steps[1], DrawStep::StartShape(shape.path[0].coord));
    assert_eq!(
        steps[2],
        DrawStep::MoveCurve(shape.path[1].coord, shape.path[2].coord, shape.path[3].coord)
    );
    assert_eq!(steps[6], DrawStep::CloseShape);
    assert_eq!(steps[7], DrawStep::End);
    let layer = LayerType::Shape(shape.clone());
    assert_eq!(layer.render(), steps);
    assert!(LayerType::<P>::Folder.render().is_empty());
}

/// Even-odd test of `pt` against the polygon through all the points of the path.
fn polygon_contains(s: &Shape<P>, pt: P) -> bool {
    let pts: Vec<P> = s.path.iter().map(|c| c.coord).collect();
    let mut inside = false;
    let n = pts.len();
    for i in 0..n {
        let (a, b) = (pts[i], pts[(i + 1) % n]);
        if (a.1 > pt.1) != (b.1 > pt.1) {
            let x = a.0 + (pt.1 - a.1) / (b.1 - a.1) * (b.0 - a.0);
            if pt.0 < x {
                inside = !inside;
            }
        }
    }
    inside
}

#[test]
fn test_shape_select() {
    let mut layer_ids = IdGenerator::new();
    let mut coord_ids = IdGenerator::new();
    let mut db: Scene<P> = Scene::new();

    let c1 = circle((0.0, 0.0), (1.0, 1.0), &mut coord_ids);
    let selected_id = db.shape_insert(c1, &mut layer_ids, &mut coord_ids);
    let c2 = circle((0.2, 0.2), (0.7, 0.7), &mut coord_ids);
    db.shape_insert(c2, &mut layer_ids, &mut coord_ids);

    let contains = |s: &Shape<P>| polygon_contains(s, (-0.3, -0.3));
    let result = db.shape_select_contains_mut(&contains);
    assert_eq!(result.is_some(), true);
    assert_eq!(result.unwrap().id, selected_id);
}

#[test]
fn test_shape_render() {
    let mut coord_ids = IdGenerator::new();
    let shape = circle((0.0, 0.0), (1.0, 1.0), &mut coord_ids);
    let steps = shape.render();
    assert!(!steps.is_empty());
}
