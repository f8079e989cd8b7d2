use vgc::boolean::{ShapeDifference, ShapeIntersection};
use vgc::fill::Rgba;
use vgc::ids::{IdGenerator, LayerId};
use vgc::scene::Scene;
use vgc::shape::{DbCoord, Shape};

type P = (f32, f32);

fn shape_at(x: f32, ids: &mut IdGenerator) -> Shape<P> {
    let path = (0..4).map(|k| DbCoord::new((x + k as f32, 0.0), ids)).collect();
    Shape::new_from_path(path)
}

fn two(ids: &mut IdGenerator, layer_ids: &mut IdGenerator) -> (Scene<P>, LayerId, LayerId) {
    let mut scene: Scene<P> = Scene::new();
    let a = shape_at(0.0, ids);
    let a = scene.shape_insert(a, layer_ids, ids);
    let b = shape_at(10.0, ids);
    let b = scene.shape_insert(b, layer_ids, ids);
    (scene, a, b)
}

#[test]
fn difference_results_change_the_scene() {
    let mut ids = IdGenerator::new();
    let mut layer_ids = IdGenerator::new();

    let (mut scene, a, b) = two(&mut ids, &mut layer_ids);
    let added = scene.apply_difference(a, b, ShapeDifference::A, &mut layer_ids, &mut ids);
    assert!(added.is_empty());
    assert_eq!(scene.layer_ids(), vec![a]);

    let (mut scene, a, b) = two(&mut ids, &mut layer_ids);
    scene.apply_difference(a, b, ShapeDifference::EraseA, &mut layer_ids, &mut ids);
    assert_eq!(scene.layer_count(), 0);

    let (mut scene, a, b) = two(&mut ids, &mut layer_ids);
    let before = scene.clone();
    scene.apply_difference(a, b, ShapeDifference::AWithBHole, &mut layer_ids, &mut ids);
    assert_eq!(scene, before);

    let (mut scene, a, b) = two(&mut ids, &mut layer_ids);
    let first = shape_at(20.0, &mut ids);
    let mut second = shape_at(30.0, &mut ids);
    second.color = Rgba::new(5, 6, 7, 8);
    let first_path = first.path.clone();
    let added = scene.apply_difference(a, b, ShapeDifference::New(vec![first, second]), &mut layer_ids, &mut ids);
    assert_eq!(added.len(), 1);
    assert_eq!(scene.layer_ids(), vec![a, added[0]]);
    assert_eq!(scene.shape_select(a).unwrap().path, first_path);
    assert_eq!(scene.shape_select(added[0]).unwrap().color, Rgba::new(5, 6, 7, 8));
}

#[test]
fn intersection_results_change_the_scene() {
    let mut ids = IdGenerator::new();
    let mut layer_ids = IdGenerator::new();

    let (mut scene, a, b) = two(&mut ids, &mut layer_ids);
    let b_path = scene.shape_select(b).unwrap().path.clone();
    let added = scene.apply_intersection(a, b, ShapeIntersection::B, &mut layer_ids, &mut ids);
    assert!(added.is_empty());
    assert_eq!(scene.layer_ids(), vec![a]);
    assert_eq!(scene.shape_select(a).unwrap().path, b_path);

    let (mut scene, a, b) = two(&mut ids, &mut layer_ids);
    let a_path = scene.shape_select(a).unwrap().path.clone();
    scene.apply_intersection(a, b, ShapeIntersection::A, &mut layer_ids, &mut ids);
    assert_eq!(scene.shape_select(a).unwrap().path, a_path);
    assert_eq!(scene.layer_count(), 1);

    let (mut scene, a, b) = two(&mut ids, &mut layer_ids);
    scene.apply_intersection(a, b, ShapeIntersection::Nothing, &mut layer_ids, &mut ids);
    assert_eq!(scene.layer_count(), 0);

    let (mut scene, a, b) = two(&mut ids, &mut layer_ids);
    let only = shape_at(40.0, &mut ids);
    let only_path = only.path.clone();
    let added = scene.apply_intersection(a, b, ShapeIntersection::New(vec![only]), &mut layer_ids, &mut ids);
    assert!(added.is_empty());
    assert_eq!(scene.shape_select(a).unwrap().path, only_path);
}

#[test]
fn difference_extra_shapes_keep_their_points_and_take_fresh_ids() {
    let mut ids = IdGenerator::new();
    let mut layer_ids = IdGenerator::new();
    let (mut scene, a, b) = two(&mut ids, &mut layer_ids);
    let first = shape_at(20.0, &mut ids);
    let mut second: Shape<P> = Shape::new();
    for k in 0..4 {
        second.path.push(DbCoord { id: vgc::ids::CoordId::null(), coord: (50.0 + k as f32, 1.0) });
    }
    let kept = shape_at(60.0, &mut ids);
    let kept_path = kept.path.clone();
    let added = scene.apply_difference(a, b, ShapeDifference::New(vec![first, second, kept]), &mut layer_ids, &mut ids);
    assert_eq!(added.len(), 2);
    let fresh = scene.shape_select(added[0]).unwrap();
    assert_eq!(fresh.id, added[0]);
    for k in 0..4 {
        assert_eq!(fresh.path[k].coord, (50.0 + k as f32, 1.0));
        assert_ne!(fresh.path[k].id, vgc::ids::CoordId::null());
    }
    assert_ne!(fresh.path[0].id, fresh.path[1].id);
    assert_eq!(scene.shape_select(added[1]).unwrap().path, kept_path);
    assert_eq!(scene.layer_at(1).name, format!("Shape {}", added[0].value()));
}
