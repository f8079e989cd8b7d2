use vgc::commands::{Command, CommandError, CommandsHandler, EditCommand, MoveLayer, ToggleHandle};
use vgc::ids::{IdGenerator, LayerId};
use vgc::scene::Scene;
use vgc::shape::{DbCoord, Shape};

type P = (f32, f32);

fn circle(center: P, radius: P, ids: &mut IdGenerator) -> Shape<P> {
    let a = 1.000_055_2f32;
    let b = 0.553_426_86f32;
    let c = 0.998_735_85f32;
    let pts = [
        (b, c),
        (c, b),
        (a, 0.0),
        (c, -b),
        (b, -c),
        (0.0, -a),
        (-b, -c),
        (-c, -b),
        (-a, 0.0),
        (-c, b),
        (-b, c),
    ];
    let t = |p: P| (p.0 * radius.0 + center.0, p.1 * radius.1 + center.1);
    let start = DbCoord::new(t((0.0, a)), ids);
    let mut v = vec![start];
    for p in pts {
        v.push(DbCoord::new(t(p), ids));
    }
    v.push(start);
    Shape::new_from_path(v)
}

#[test]
fn given_scene_2_layers_when_move_up() {
    let mut ids_gen = IdGenerator::new();
    let mut layer_ids = IdGenerator::new();
    let mut coord_ids = IdGenerator::new();
    let mut scene: Scene<P> = Scene::new();
    let c1 = circle((0.0, 0.0), (0.5, 0.5), &mut coord_ids);
    let layer1 = scene.shape_insert(c1, &mut layer_ids, &mut coord_ids);
    let c2 = circle((0.0, 0.0), (0.5, 0.5), &mut coord_ids);
    let layer2 = scene.shape_insert(c2, &mut layer_ids, &mut coord_ids);

    let mut move_layer = MoveLayer::new(layer2, layer1);
    move_layer.execute(&mut scene, &mut ids_gen).unwrap();
    assert_eq!(scene.layer_position(layer2).unwrap(), 0);
    assert_eq!(scene.layer_position(layer1).unwrap(), 1);

    move_layer.undo(&mut scene, &mut ids_gen).unwrap();
    assert_eq!(scene.layer_position(layer2).unwrap(), 1);
    assert_eq!(scene.layer_position(layer1).unwrap(), 0);
}

fn scene_of(n: usize) -> (Scene<P>, Vec<LayerId>) {
    let mut layer_ids = IdGenerator::new();
    let mut coord_ids = IdGenerator::new();
    let mut scene: Scene<P> = Scene::new();
    let mut ids = Vec::new();
    for _ in 0..n {
        ids.push(scene.shape_insert(Shape::new(), &mut layer_ids, &mut coord_ids));
    }
    (scene, ids)
}

#[test]
fn move_layer_undo_restores_every_layer() {
    let mut ids_gen = IdGenerator::new();
    let (mut scene, ids) = scene_of(5);
    let before = scene.clone();
    let mut m = MoveLayer::new(ids[1], ids[4]);
    m.execute(&mut scene, &mut ids_gen).unwrap();
    assert_eq!(scene.layer_ids(), vec![ids[0], ids[2], ids[3], ids[4], ids[1]]);
    m.undo(&mut scene, &mut ids_gen).unwrap();
    assert_eq!(scene, before);
}

#[test]
fn move_layer_errors() {
    let mut ids_gen = IdGenerator::new();
    let (mut scene, ids) = scene_of(2);
    let mut m = MoveLayer::new(ids[0], LayerId::from(9));
    assert_eq!(m.execute(&mut scene, &mut ids_gen), Err(CommandError::LayerNotFound));
    assert_eq!(m.undo(&mut scene, &mut ids_gen), Err(CommandError::NoPositionToUndo));
    assert_eq!(CommandError::LayerNotFound.message(), "layer not found");
    assert_eq!(CommandError::NoPositionToUndo.message(), "no position to undo");
    assert_eq!(CommandError::Scene("x".to_string()).message(), "x");

    let mut far = MoveLayer::new(ids[1], ids[0]);
    far.execute(&mut scene, &mut ids_gen).unwrap();
    scene.layer_delete(ids[0]);
    assert_eq!(far.undo(&mut scene, &mut ids_gen), Err(CommandError::PositionOutOfRange));
    assert_eq!(CommandError::PositionOutOfRange.message(), "position out of range");
}

#[test]
fn handler_undo_redo_walk_the_history() {
    let mut ids_gen = IdGenerator::new();
    let (scene, ids) = scene_of(3);
    let before = scene.clone();
    let mut handler: CommandsHandler<P, MoveLayer> = CommandsHandler::from(scene);
    handler.execute(MoveLayer::new(ids[2], ids[0]), &mut ids_gen).unwrap();
    handler.execute(MoveLayer::new(ids[1], ids[2]), &mut ids_gen).unwrap();
    assert_eq!(handler.history_len(), 2);
    assert_eq!(handler.done_len(), 2);
    let after_two = handler.scene().clone();
    assert_eq!(after_two.layer_ids(), vec![ids[1], ids[2], ids[0]]);

    handler.undo(&mut ids_gen).unwrap();
    handler.undo(&mut ids_gen).unwrap();
    assert_eq!(handler.done_len(), 0);
    assert_eq!(*handler.scene(), before);
    handler.undo(&mut ids_gen).unwrap();
    assert_eq!(handler.done_len(), 0);

    handler.redo(&mut ids_gen).unwrap();
    handler.redo(&mut ids_gen).unwrap();
    assert_eq!(*handler.scene(), after_two);
    handler.redo(&mut ids_gen).unwrap();
    assert_eq!(handler.done_len(), 2);

    handler.undo(&mut ids_gen).unwrap();
    handler.execute(MoveLayer::new(ids[0], ids[2]), &mut ids_gen).unwrap();
    assert_eq!(handler.history_len(), 2);
    assert_eq!(handler.done_len(), 2);
}

#[test]
fn handler_keeps_failed_command_out() {
    let mut ids_gen = IdGenerator::new();
    let (scene, ids) = scene_of(2);
    let mut handler: CommandsHandler<P, MoveLayer> = CommandsHandler::from(scene);
    assert_eq!(
        handler.execute(MoveLayer::new(ids[0], LayerId::from(50)), &mut ids_gen),
        Err(CommandError::LayerNotFound)
    );
    assert_eq!(handler.history_len(), 0);
    handler.unsafe_scene_mut().layer_delete(ids[0]);
    assert_eq!(handler.scene().layer_ids(), vec![ids[1]]);
}

#[test]
fn toggle_handle_separates_and_undo_puts_back() {
    let mut ids_gen = IdGenerator::new();
    let mut layer_ids = IdGenerator::new();
    let mut coord_ids = IdGenerator::new();
    let mut scene: Scene<P> = Scene::new();
    let mut path = Vec::new();
    for k in 0..7 {
        path.push(DbCoord::new((k as f32, 0.0), &mut coord_ids));
    }
    // A closed path whose handles around its start point lie on it.
    path[6] = path[0];
    path[5] = path[0];
    path[1] = path[0];
    let joint = path[0];
    let id = scene.shape_insert(Shape::new_from_path(path), &mut layer_ids, &mut coord_ids);
    let before = scene.clone();

    let mut toggle = ToggleHandle::new(id, joint.id, ((5.5, 1.0), (0.5, 1.0)));
    toggle.execute(&mut scene, &mut coord_ids).unwrap();
    let shape = scene.shape_select(id).unwrap();
    assert_eq!(shape.path[5].coord, (5.5, 1.0));
    assert_eq!(shape.path[1].coord, (0.5, 1.0));
    assert!(!shape.is_handles_joined(1));

    toggle.undo(&mut scene, &mut coord_ids).unwrap();
    assert_eq!(scene, before);

    let mut missing = ToggleHandle::new(LayerId::from(99), joint.id, ((0.0, 0.0), (0.0, 0.0)));
    assert_eq!(missing.execute(&mut scene, &mut ids_gen), Err(CommandError::ShapeNotFound));
    let handle_id = scene.shape_select(id).unwrap().path[2].id;
    let mut on_handle = ToggleHandle::new(id, handle_id, ((0.0, 0.0), (0.0, 0.0)));
    assert_eq!(on_handle.execute(&mut scene, &mut ids_gen), Err(CommandError::CurveNotFound));
    assert_eq!(on_handle.undo(&mut scene, &mut ids_gen), Err(CommandError::CurveNotFound));
    let mut never_run = ToggleHandle::new(id, joint.id, ((0.0, 0.0), (0.0, 0.0)));
    assert_eq!(never_run.undo(&mut scene, &mut ids_gen), Err(CommandError::NoCoordToUndo));
    assert_eq!(CommandError::NoCoordToUndo.message(), "No coord to undo");
}

fn corners_of(shape: &Shape<P>, index: usize) -> (P, P) {
    let n = shape.curves_len();
    let a = shape.curve_select(index).unwrap();
    let b = shape.curve_select((index + 1) % n).unwrap();
    let third = |p: P, q: P| (p.0 + (q.0 - p.0) / 3.0, p.1 + (q.1 - p.1) / 3.0);
    (third(a.p1.coord, a.p0.coord), third(b.p0.coord, b.p1.coord))
}

#[test]
fn given_circle_when_toggle_coord() {
    let mut ids_gen = IdGenerator::new();
    let mut layer_ids = IdGenerator::new();
    let mut scene: Scene<P> = Scene::new();
    let shape = circle((0.0, 0.0), (0.5, 0.5), &mut ids_gen);
    let coord_id = shape.path[0].id;
    let expected = shape.path.clone();
    let corners = corners_of(&shape, shape.curves_len() - 1);
    let shape_id = scene.shape_insert(shape, &mut layer_ids, &mut ids_gen);

    let mut command = ToggleHandle::new(shape_id, coord_id, corners);
    command.execute(&mut scene, &mut ids_gen).unwrap();

    let new_shape = scene.shape_select(shape_id).unwrap();

    assert_eq!(new_shape.path[1], new_shape.path[0]);

    command.undo(&mut scene, &mut ids_gen).unwrap();

    let new_shape = scene.shape_select(shape_id).unwrap();
    assert_eq!(expected, new_shape.path);
}

#[test]
fn given_square_when_toggle_coord() {
    let mut ids_gen = IdGenerator::new();
    let mut layer_ids = IdGenerator::new();
    let mut scene: Scene<P> = Scene::new();
    let pts = [(0.0, 0.0), (1.0, 0.0), (1.0, 1.0), (0.0, 1.0)];
    let coords: Vec<DbCoord<P>> = pts.iter().map(|p| DbCoord::new(*p, &mut ids_gen)).collect();
    let shape = Shape::new_from_lines(coords);
    let expected = shape.path.clone();
    let coord_id = shape.path[0].id;
    let corners = corners_of(&shape, shape.curves_len() - 1);
    let shape_id = scene.shape_insert(shape, &mut layer_ids, &mut ids_gen);

    let mut command = ToggleHandle::new(shape_id, coord_id, corners);
    command.execute(&mut scene, &mut ids_gen).unwrap();

    let new_shape = scene.shape_select(shape_id).unwrap();

    assert_ne!(new_shape.path[1], new_shape.path[0]);

    command.undo(&mut scene, &mut ids_gen).unwrap();

    let new_shape = scene.shape_select(shape_id).unwrap();
    assert_eq!(expected, new_shape.path);
}

#[test]
fn edit_commands_run_what_they_hold_and_never_merge() {
    let mut ids_gen = IdGenerator::new();
    let (scene, ids) = scene_of(3);
    let before = scene.clone();
    let mut handler: CommandsHandler<P, EditCommand<P>> = CommandsHandler::from(scene);
    handler.execute(EditCommand::MoveLayer(MoveLayer::new(ids[2], ids[0])), &mut ids_gen).unwrap();
    handler.execute(EditCommand::MoveLayer(MoveLayer::new(ids[1], ids[2])), &mut ids_gen).unwrap();
    assert_eq!(handler.history_len(), 2);
    assert_eq!(handler.scene().layer_ids(), vec![ids[1], ids[2], ids[0]]);
    assert_eq!(
        handler.execute(EditCommand::MoveLayer(MoveLayer::new(ids[1], LayerId::from(50))), &mut ids_gen),
        Err(CommandError::LayerNotFound)
    );
    assert_eq!(handler.history_len(), 2);
    handler.undo(&mut ids_gen).unwrap();
    handler.undo(&mut ids_gen).unwrap();
    assert_eq!(*handler.scene(), before);

    let a = EditCommand::<P>::MoveLayer(MoveLayer::new(ids[0], ids[1]));
    let b = EditCommand::<P>::MoveLayer(MoveLayer::new(ids[1], ids[0]));
    assert!(a.merge(&b).is_none());
    let m = MoveLayer::new(ids[0], ids[1]);
    assert!(Command::<P>::merge(&m, &MoveLayer::new(ids[1], ids[0])).is_none());
}

#[test]
fn handler_toggle_undo_gives_back_and_redo_repeats() {
    let mut layer_ids = IdGenerator::new();
    let mut coord_ids = IdGenerator::new();
    let mut scene: Scene<P> = Scene::new();
    let mut path = Vec::new();
    for k in 0..7 {
        path.push(DbCoord::new((k as f32, 0.0), &mut coord_ids));
    }
    path[6] = path[0];
    path[5] = path[0];
    path[1] = path[0];
    let joint = path[0];
    let id = scene.shape_insert(Shape::new_from_path(path), &mut layer_ids, &mut coord_ids);
    let before = scene.clone();
    let mut handler: CommandsHandler<P, EditCommand<P>> = CommandsHandler::from(scene);
    let toggle = ToggleHandle::new(id, joint.id, ((5.5, 1.0), (0.5, 1.0)));
    handler.execute(EditCommand::ToggleHandle(toggle), &mut coord_ids).unwrap();
    let after = handler.scene().clone();
    assert_eq!(after.shape_select(id).unwrap().path[5].coord, (5.5, 1.0));

    handler.undo(&mut coord_ids).unwrap();
    assert_eq!(*handler.scene(), before);
    assert_eq!(handler.done_len(), 0);

    handler.redo(&mut coord_ids).unwrap();
    assert_eq!(handler.done_len(), 1);
    let redone = handler.scene().shape_select(id).unwrap();
    let first = after.shape_select(id).unwrap();
    assert_eq!(redone.path.len(), first.path.len());
    for k in 0..redone.path.len() {
        assert_eq!(redone.path[k].coord, first.path[k].coord);
    }
    // The separated handles take new identifiers on each run.
    assert_ne!(redone.path[5].id, first.path[5].id);
}
