use vstd::prelude::*;

use crate::ids::{CoordId, IdGenerator, LayerId};
use crate::shape::{
    coord_type_at, counter_after, curve_count, handles_joined, has_no_id, is_first_index_of,
    joined_path, separated_path, CoordType, DbCoord, Shape,
};
use crate::scene::{
    first_layer, has_layer, has_no_layer, is_first_layer, lemma_first_layer_unique,
    lemma_move_layer_undo_restores, seq_move, unique_layer, Layer, LayerType, Scene,
};

verus! {

/// Why a command could not be carried out or undone.
#[derive(Debug, Clone, PartialEq)]
pub enum CommandError {
    /// A layer that the command names is not in the scene.
    LayerNotFound,
    /// The shape that the command names is not in the scene.
    ShapeNotFound,
    /// The point that the command names is not the end of a curve of the shape.
    CurveNotFound,
    /// The command was not carried out, so there are no points to put back.
    NoCoordToUndo,
    /// The command was not carried out, so there is nothing to undo.
    NoPositionToUndo,
    /// The position to move a layer back to is past the end of the scene.
    PositionOutOfRange,
    /// The scene refused the change, with its message.
    Scene(String),
}

impl CommandError {
    /// The message of the error.
    pub fn message(&self) -> (s: String)
        ensures
            s@ == match self {
                CommandError::LayerNotFound => "layer not found"@,
                CommandError::ShapeNotFound => "Shape not found"@,
                CommandError::CurveNotFound => "Curve not found"@,
                CommandError::NoCoordToUndo => "No coord to undo"@,
                CommandError::NoPositionToUndo => "no position to undo"@,
                CommandError::PositionOutOfRange => "position out of range"@,
                CommandError::Scene(m) => m@,
            },
    {
        proof {
            reveal_strlit("layer not found");
            reveal_strlit("Shape not found");
            reveal_strlit("Curve not found");
            reveal_strlit("No coord to undo");
            reveal_strlit("no position to undo");
            reveal_strlit("position out of range");
        }
        match self {
            CommandError::LayerNotFound => String::from_str("layer not found"),
            CommandError::ShapeNotFound => String::from_str("Shape not found"),
            CommandError::CurveNotFound => String::from_str("Curve not found"),
            CommandError::NoCoordToUndo => String::from_str("No coord to undo"),
            CommandError::NoPositionToUndo => String::from_str("no position to undo"),
            CommandError::PositionOutOfRange => String::from_str("position out of range"),
            CommandError::Scene(m) => m.clone(),
        }
    }
}

/// A change of a scene that can be undone.
pub trait Command<C>: Sized {
    /// Whether carrying out this command on `scene` succeeds.
    spec fn succeeds_on(&self, scene: Scene<C>) -> bool;

    /// Whether the later command `future` merges into this one.
    spec fn merges_with(&self, future: Self) -> bool;

    /// Whether merging a later command into this one can fail.
    spec fn merge_can_fail(&self) -> bool;

    /// What carrying out this command on `before` does where it succeeds: the scene becomes
    /// `after` and the command `done`, identifiers being taken from `first` up to `next`.
    spec fn executed(&self, done: Self, before: Scene<C>, after: Scene<C>, first: nat, next: nat) -> bool;

    /// What carrying out this command on `before` does where it fails with `e`.
    spec fn execute_failed(&self, before: Scene<C>, after: Scene<C>, e: CommandError) -> bool;

    /// What undoing this command on `before` does where it succeeds: the scene becomes
    /// `after` and the command `done`, identifiers being taken from `first` up to `next`.
    spec fn undone(&self, done: Self, before: Scene<C>, after: Scene<C>, first: nat, next: nat) -> bool;

    /// What undoing this command on `before` does where it fails with `e`.
    spec fn undo_failed(&self, before: Scene<C>, after: Scene<C>, e: CommandError) -> bool;

    /// How merging `future` into this command fails with `e`.
    spec fn merge_failed(&self, future: Self, e: CommandError) -> bool;

    /// Once carried out from `before` to `after`, the undo of this command finds in `after`
    /// what the command changed in `before`.
    spec fn undo_finds_it(&self, before: Scene<C>, after: Scene<C>) -> bool;

    /// Undoing a command right after carrying it out gives the scene back, where the undo
    /// finds what the command changed.
    proof fn lemma_undo_restores(
        c: Self,
        d: Self,
        u: Self,
        s0: Scene<C>,
        s1: Scene<C>,
        s2: Scene<C>,
        i0: nat,
        i1: nat,
        i2: nat,
        i3: nat,
    )
        requires
            <Self as Command<C>>::executed(&c, d, s0, s1, i0, i1),
            <Self as Command<C>>::undone(&d, u, s1, s2, i2, i3),
            <Self as Command<C>>::undo_finds_it(&c, s0, s1),
        ensures
            same_layers(s2.layers(), s0.layers()),
            s2.spec_background() == s0.spec_background(),
    ;

    /// Carrying out again a command that was carried out and then undone does on the scene
    /// it finds what the command itself does there.
    proof fn lemma_redo_repeats(
        c: Self,
        d: Self,
        u: Self,
        r: Self,
        s0: Scene<C>,
        s1: Scene<C>,
        s2: Scene<C>,
        s3: Scene<C>,
        i0: nat,
        i1: nat,
        i2: nat,
        i3: nat,
        i4: nat,
        i5: nat,
    )
        requires
            <Self as Command<C>>::executed(&c, d, s0, s1, i0, i1),
            <Self as Command<C>>::undone(&d, u, s1, s2, i2, i3),
            <Self as Command<C>>::executed(&u, r, s2, s3, i4, i5),
        ensures
            <Self as Command<C>>::executed(&c, r, s2, s3, i4, i5),
    ;

    /// Carries out the change, taking new point identifiers from `ids`; succeeds exactly
    /// where `succeeds_on` says, doing what `executed` says, and otherwise fails as
    /// `execute_failed` says.
    fn execute(&mut self, scene: &mut Scene<C>, ids: &mut IdGenerator) -> (res: Result<
        (),
        CommandError,
    >)
        ensures
            res is Ok <==> <Self as Command<C>>::succeeds_on(old(self), *old(scene)),
            res is Ok ==> <Self as Command<C>>::executed(
                old(self),
                *final(self),
                *old(scene),
                *final(scene),
                old(ids).peek(),
                final(ids).peek(),
            ),
            res matches Err(e) ==> <Self as Command<C>>::execute_failed(
                old(self),
                *old(scene),
                *final(scene),
                e,
            ),
    ;

    /// Undoes the change that `execute` made, as `undone` says, or fails as `undo_failed`
    /// says.
    fn undo(&mut self, scene: &mut Scene<C>, ids: &mut IdGenerator) -> (res: Result<
        (),
        CommandError,
    >)
        ensures
            res is Ok ==> <Self as Command<C>>::undone(
                old(self),
                *final(self),
                *old(scene),
                *final(scene),
                old(ids).peek(),
                final(ids).peek(),
            ),
            res matches Err(e) ==> <Self as Command<C>>::undo_failed(
                old(self),
                *old(scene),
                *final(scene),
                e,
            ),
    ;

    /// One command doing what this command and then `future` do, where the two can be
    /// merged to save memory (as `merges_with` says); `None` where they cannot. Fails only
    /// where `merge_can_fail` says it can, as `merge_failed` says.
    fn merge(&self, future: &Self) -> (r: Option<Result<Self, CommandError>>)
        ensures
            r is Some <==> <Self as Command<C>>::merges_with(self, *future),
            r matches Some(Err(_)) ==> <Self as Command<C>>::merge_can_fail(self),
            r matches Some(Err(e)) ==> <Self as Command<C>>::merge_failed(self, *future, e),
    ;
}

/// A layer that is there has a first place.
proof fn lemma_first_layer_exists<C>(layers: Seq<Layer<C>>, id: LayerId)
    requires
        has_layer(layers, id),
    ensures
        is_first_layer(layers, id, first_layer(layers, id)),
    decreases layers.len(),
{
    if layers[0].id == id {
        assert(is_first_layer(layers, id, 0));
    } else {
        let rest = layers.drop_first();
        let w = choose|j: int| 0 <= j < layers.len() && layers[j].id == id;
        assert(rest[w - 1].id == id);
        lemma_first_layer_exists(rest, id);
        let k = first_layer(rest, id);
        assert forall|j: int| 0 <= j < k + 1 implies layers[j].id != id by {
            if j > 0 {
                assert(layers[j] == rest[j - 1]);
            }
        }
        assert(is_first_layer(layers, id, k + 1));
    }
}

/// Every scene holds the same layers as itself.
proof fn lemma_same_layers_refl<C>(l: Seq<Layer<C>>)
    ensures
        same_layers(l, l),
{
    assert forall|i: int| 0 <= i < l.len() implies same_layer(#[trigger] l[i], l[i]) by {
        match l[i].value {
            LayerType::Folder => {},
            LayerType::Shape(x) => {},
        }
    }
}

/// Moves a layer to where another layer is, and back on undo.
#[derive(Debug, Clone, PartialEq)]
pub struct MoveLayer {
    layer: LayerId,
    move_to: LayerId,
    undo_pos: Option<usize>,
}

impl MoveLayer {
    /// The layer that moves.
    pub closed spec fn spec_layer(&self) -> LayerId {
        self.layer
    }

    /// The layer to whose place it moves.
    pub closed spec fn spec_move_to(&self) -> LayerId {
        self.move_to
    }

    /// Where the layer was before the move, once the move was made.
    pub closed spec fn spec_undo_pos(&self) -> Option<usize> {
        self.undo_pos
    }

    /// A command that moves `layer` to where `move_to` is.
    pub fn new(layer: LayerId, move_to: LayerId) -> (m: MoveLayer)
        ensures
            m.spec_layer() == layer,
            m.spec_move_to() == move_to,
            m.spec_undo_pos() is None,
    {
        MoveLayer { layer, move_to, undo_pos: None }
    }
}

impl<C: Copy> Command<C> for MoveLayer {
    /// Both layers are in the scene.
    open spec fn succeeds_on(&self, scene: Scene<C>) -> bool {
        has_layer(scene.layers(), self.spec_layer()) && has_layer(
            scene.layers(),
            self.spec_move_to(),
        )
    }

    /// Moves of layers are never merged.
    open spec fn merges_with(&self, future: Self) -> bool {
        false
    }

    /// Merging into it never fails.
    open spec fn merge_can_fail(&self) -> bool {
        false
    }

    /// The layer moves to the place of the other one, and the command remembers where it
    /// was.
    open spec fn executed(
        &self,
        done: Self,
        before: Scene<C>,
        after: Scene<C>,
        first: nat,
        next: nat,
    ) -> bool {
        let p = first_layer(before.layers(), self.spec_layer());
        let q = first_layer(before.layers(), self.spec_move_to());
        &&& done.spec_layer() == self.spec_layer()
        &&& done.spec_move_to() == self.spec_move_to()
        &&& done.spec_undo_pos() == Some(p as usize)
        &&& next == first
        &&& after.spec_background() == before.spec_background()
        &&& has_layer(before.layers(), self.spec_layer())
        &&& has_layer(before.layers(), self.spec_move_to())
        &&& after.layers() == seq_move(before.layers(), p, q)
    }

    /// A layer is missing, and nothing changes.
    open spec fn execute_failed(&self, before: Scene<C>, after: Scene<C>, e: CommandError) -> bool {
        &&& e == CommandError::LayerNotFound
        &&& after.layers() == before.layers()
        &&& after.spec_background() == before.spec_background()
    }

    /// The layer moves back to where it was.
    open spec fn undone(
        &self,
        done: Self,
        before: Scene<C>,
        after: Scene<C>,
        first: nat,
        next: nat,
    ) -> bool {
        &&& done == *self
        &&& next == first
        &&& after.spec_background() == before.spec_background()
        &&& self.spec_undo_pos() is Some
        &&& has_layer(before.layers(), self.spec_layer())
        &&& after.layers() == seq_move(
            before.layers(),
            first_layer(before.layers(), self.spec_layer()),
            self.spec_undo_pos()->0 as int,
        )
    }

    /// The move was not made, or its place is past the end, or the layer is gone; nothing
    /// changes.
    open spec fn undo_failed(&self, before: Scene<C>, after: Scene<C>, e: CommandError) -> bool {
        &&& after.layers() == before.layers()
        &&& after.spec_background() == before.spec_background()
        &&& match e {
            CommandError::NoPositionToUndo => self.spec_undo_pos() is None,
            CommandError::PositionOutOfRange => self.spec_undo_pos() is Some && has_layer(
                before.layers(),
                self.spec_layer(),
            ) && self.spec_undo_pos()->0 >= before.layers().len(),
            CommandError::Scene(m) => self.spec_undo_pos() is Some && has_no_layer(
                before.layers(),
                self.spec_layer(),
            ) && m@ == "id_to_move not found"@,
            _ => false,
        }
    }

    /// Merging never fails.
    open spec fn merge_failed(&self, future: Self, e: CommandError) -> bool {
        false
    }

    /// The layer that moves occurs once.
    open spec fn undo_finds_it(&self, before: Scene<C>, after: Scene<C>) -> bool {
        unique_layer(before.layers(), self.spec_layer())
    }

    proof fn lemma_undo_restores(
        c: Self,
        d: Self,
        u: Self,
        s0: Scene<C>,
        s1: Scene<C>,
        s2: Scene<C>,
        i0: nat,
        i1: nat,
        i2: nat,
        i3: nat,
    ) {
        let l0 = s0.layers();
        let q = first_layer(l0, c.spec_move_to());
        s0.lemma_layers_fit();
        lemma_first_layer_exists(l0, c.spec_move_to());
        lemma_first_layer_exists(l0, c.spec_layer());
        lemma_move_layer_undo_restores(l0, c.spec_layer(), q);
        lemma_same_layers_refl(l0);
    }

    proof fn lemma_redo_repeats(
        c: Self,
        d: Self,
        u: Self,
        r: Self,
        s0: Scene<C>,
        s1: Scene<C>,
        s2: Scene<C>,
        s3: Scene<C>,
        i0: nat,
        i1: nat,
        i2: nat,
        i3: nat,
        i4: nat,
        i5: nat,
    ) {
    }

    /// Moves the layer to the place of the other one and remembers where it was; fails,
    /// changing nothing, where either layer is missing.
    fn execute(&mut self, scene: &mut Scene<C>, ids: &mut IdGenerator) -> (res: Result<
        (),
        CommandError,
    >)
        ensures
            final(self).spec_layer() == old(self).spec_layer(),
            final(self).spec_move_to() == old(self).spec_move_to(),
            final(ids).peek() == old(ids).peek(),
            final(scene).spec_background() == old(scene).spec_background(),
            match res {
                Ok(()) => {
                    let p = first_layer(old(scene).layers(), old(self).spec_layer());
                    let q = first_layer(old(scene).layers(), old(self).spec_move_to());
                    &&& has_layer(old(scene).layers(), old(self).spec_layer())
                    &&& has_layer(old(scene).layers(), old(self).spec_move_to())
                    &&& final(self).spec_undo_pos() == Some(p as usize)
                    &&& final(scene).layers() == seq_move(old(scene).layers(), p, q)
                },
                Err(e) => {
                    &&& e == CommandError::LayerNotFound
                    &&& final(scene).layers() == old(scene).layers()
                    &&& final(self).spec_undo_pos() == old(self).spec_undo_pos()
                    &&& (has_no_layer(old(scene).layers(), old(self).spec_layer()) || has_no_layer(
                        old(scene).layers(),
                        old(self).spec_move_to(),
                    ))
                },
            },
    {
        let before_pos = match scene.layer_position(self.layer) {
            Some(p) => p,
            None => {
                return Err(CommandError::LayerNotFound);
            },
        };
        match scene.layer_position(self.move_to) {
            Some(_) => {},
            None => {
                return Err(CommandError::LayerNotFound);
            },
        }
        proof {
            lemma_first_layer_unique(scene.layers(), self.layer, before_pos as int);
        }
        match scene.layer_move_before(self.layer, self.move_to) {
            Ok(()) => {},
            Err(e) => {
                assert(false);
                return Err(CommandError::Scene(e));
            },
        }
        self.undo_pos = Some(before_pos);
        Ok(())
    }

    /// Moves the layer back to where it was before `execute`; fails, changing nothing, where
    /// `execute` did not run, or where that place is past the end of the scene while the layer
    /// is in it.
    fn undo(&mut self, scene: &mut Scene<C>, ids: &mut IdGenerator) -> (res: Result<
        (),
        CommandError,
    >)
        ensures
            *final(self) == *old(self),
            final(ids).peek() == old(ids).peek(),
            final(scene).spec_background() == old(scene).spec_background(),
            match res {
                Ok(()) => {
                    let p = first_layer(old(scene).layers(), old(self).spec_layer());
                    &&& old(self).spec_undo_pos() is Some
                    &&& has_layer(old(scene).layers(), old(self).spec_layer())
                    &&& final(scene).layers() == seq_move(
                        old(scene).layers(),
                        p,
                        old(self).spec_undo_pos()->0 as int,
                    )
                },
                Err(e) => final(scene).layers() == old(scene).layers() && match e {
                    CommandError::NoPositionToUndo => old(self).spec_undo_pos() is None,
                    CommandError::PositionOutOfRange => old(self).spec_undo_pos() is Some
                        && has_layer(old(scene).layers(), old(self).spec_layer())
                        && old(self).spec_undo_pos()->0 >= old(scene).layers().len(),
                    CommandError::Scene(m) => old(self).spec_undo_pos() is Some && has_no_layer(
                        old(scene).layers(),
                        old(self).spec_layer(),
                    ) && m@ == "id_to_move not found"@,
                    _ => false,
                },
            },
    {
        let before_pos = match self.undo_pos {
            Some(p) => p,
            None => {
                return Err(CommandError::NoPositionToUndo);
            },
        };
        if before_pos >= scene.layer_count() {
            if let Some(i) = scene.layer_position(self.layer) {
                proof {
                    lemma_first_layer_unique(scene.layers(), self.layer, i as int);
                }
                return Err(CommandError::PositionOutOfRange);
            }
        }
        match scene.layer_move_at(self.layer, before_pos) {
            Ok(()) => Ok(()),
            Err(e) => Err(CommandError::Scene(e)),
        }
    }

    /// Moves of layers are not merged.
    fn merge(&self, future: &MoveLayer) -> (r: Option<Result<MoveLayer, CommandError>>) {
        None
    }
}

/// The curve whose end point is the first point of `path` with identifier `id`: curve
/// `(i - 1) / 3` for an end point at `i`, the last curve for the start point; none for a
/// handle or a missing point.
pub open spec fn curve_of_coord<C>(path: Seq<DbCoord<C>>, id: CoordId) -> Option<int> {
    if exists|i: int| is_first_index_of(path, id, i) {
        let i = choose|i: int| is_first_index_of(path, id, i);
        if coord_type_at(i) == CoordType::P1 {
            Some((i - 1) / 3)
        } else if coord_type_at(i) == CoordType::P0 {
            Some(curve_count(path.len()) - 1)
        } else {
            None
        }
    } else {
        None
    }
}

/// The point `id` of `path` is the end point of a curve of the path.
pub open spec fn ends_curve<C>(path: Seq<DbCoord<C>>, id: CoordId) -> bool {
    &&& path.len() > 0
    &&& curve_of_coord(path, id) matches Some(ci)
    &&& 0 <= ci < curve_count(path.len())
}

/// `path` with the handles around the end point of curve `ci` separated (moved to
/// `corners`, with new identifiers from `first`) where they are joined, else joined.
pub open spec fn toggle_path<C>(
    path: Seq<DbCoord<C>>,
    ci: int,
    corners: (C, C),
    first: nat,
) -> Seq<DbCoord<C>> {
    if handles_joined(path, ci) {
        separated_path(path, ci, corners.0, corners.1, first)
    } else {
        joined_path(path, ci)
    }
}

/// The first index of a point is unique.
proof fn lemma_first_index_unique<C>(path: Seq<DbCoord<C>>, id: CoordId, i: int, j: int)
    requires
        is_first_index_of(path, id, i),
        is_first_index_of(path, id, j),
    ensures
        i == j,
{
    if i < j {
        assert(path[i].id == id);
    } else if j < i {
        assert(path[j].id == id);
    }
}

/// Separates or joins the handles around a point of a shape, and puts them back on undo.
#[derive(Debug, Clone)]
pub struct ToggleHandle<C> {
    shapes: LayerId,
    coord: CoordId,
    corner_left: C,
    corner_right: C,
    cp_to_undo: Option<(DbCoord<C>, DbCoord<C>)>,
}

impl<C: Copy> ToggleHandle<C> {
    /// The shape whose handles toggle.
    pub closed spec fn spec_shape(&self) -> LayerId {
        self.shapes
    }

    /// The point around which the handles toggle.
    pub closed spec fn spec_coord(&self) -> CoordId {
        self.coord
    }

    /// Where separated handles go: the left and the right one.
    pub closed spec fn spec_corners(&self) -> (C, C) {
        (self.corner_left, self.corner_right)
    }

    /// The handles as they were before the toggle, once it was made.
    pub closed spec fn spec_cp_to_undo(&self) -> Option<(DbCoord<C>, DbCoord<C>)> {
        self.cp_to_undo
    }

    /// A command that toggles the handles around the point `curve` of shape `shape_index`,
    /// moving separated handles to `corners`.
    pub fn new(shape_index: LayerId, curve: CoordId, corners: (C, C)) -> (t: ToggleHandle<C>)
        ensures
            t.spec_shape() == shape_index,
            t.spec_coord() == curve,
            t.spec_corners() == corners,
            t.spec_cp_to_undo() is None,
    {
        ToggleHandle {
            shapes: shape_index,
            coord: curve,
            corner_left: corners.0,
            corner_right: corners.1,
            cp_to_undo: None,
        }
    }

    /// The curve whose end point is the command's point, where it is one.
    fn curve_of(&self, shape: &Shape<C>) -> (res: Option<usize>)
        ensures
            match res {
                Some(ci) => ends_curve(shape.path@, self.coord) && curve_of_coord(
                    shape.path@,
                    self.coord,
                ) == Some(ci as int),
                None => !ends_curve(shape.path@, self.coord),
            },
    {
        if shape.path.len() == 0 {
            return None;
        }
        if shape.path[0].id == self.coord && shape.curves_len() == 0 {
            proof {
                assert(is_first_index_of(shape.path@, self.coord, 0));
                let i = choose|i: int| is_first_index_of(shape.path@, self.coord, i);
                lemma_first_index_unique(shape.path@, self.coord, 0, i);
            }
            return None;
        }
        let res = shape.curve_select_of_coord_id(self.coord);
        proof {
            match res {
                Some(c) => {
                    let i = choose|i: int|
                        is_first_index_of(shape.path@, self.coord, i) && ((coord_type_at(i)
                            == CoordType::P1 && c == (i - 1) / 3) || (coord_type_at(i)
                            == CoordType::P0 && c == curve_count(shape.path@.len()) - 1));
                    let w = choose|w: int| is_first_index_of(shape.path@, self.coord, w);
                    lemma_first_index_unique(shape.path@, self.coord, i, w);
                },
                None => {
                    if exists|i: int| is_first_index_of(shape.path@, self.coord, i) {
                        let w = choose|w: int| is_first_index_of(shape.path@, self.coord, w);
                        if !has_no_id(shape.path@, self.coord) {
                            let i = choose|i: int|
                                is_first_index_of(shape.path@, self.coord, i) && (coord_type_at(i)
                                    == CoordType::CP0 || coord_type_at(i) == CoordType::CP1);
                            lemma_first_index_unique(shape.path@, self.coord, i, w);
                        } else {
                            assert(shape.path@[w].id == self.coord);
                        }
                    }
                },
            }
        }
        res
    }
}

impl<C: Copy> Command<C> for ToggleHandle<C> {
    /// The first layer of the shape holds a shape, and the point is the end point of one of
    /// its curves.
    open spec fn succeeds_on(&self, scene: Scene<C>) -> bool {
        exists|p: int|
            #[trigger] is_first_layer(scene.layers(), self.spec_shape(), p)
                && scene.layers()[p].value is Shape && ends_curve(
                scene.layers()[p].value->Shape_0.path@,
                self.spec_coord(),
            )
    }

    /// Toggles are never merged.
    open spec fn merges_with(&self, future: Self) -> bool {
        false
    }

    /// Merging into it never fails.
    open spec fn merge_can_fail(&self) -> bool {
        false
    }

    /// The handles around the end point of the curve toggle, and the command remembers them.
    open spec fn executed(
        &self,
        done: Self,
        before: Scene<C>,
        after: Scene<C>,
        first: nat,
        next: nat,
    ) -> bool {
        &&& done.spec_shape() == self.spec_shape()
        &&& done.spec_coord() == self.spec_coord()
        &&& done.spec_corners() == self.spec_corners()
        &&& after.spec_background() == before.spec_background()
        &&& exists|p: int|
            #[trigger] is_first_layer(before.layers(), self.spec_shape(), p)
                && before.layers()[p].value is Shape && ends_curve(
                before.layers()[p].value->Shape_0.path@,
                self.spec_coord(),
            ) && toggled_in(
                before.layers(),
                after.layers(),
                p,
                before.layers()[p].value->Shape_0,
                curve_of_coord(before.layers()[p].value->Shape_0.path@, self.spec_coord())->0,
                self.spec_corners(),
                first,
                next,
                done.spec_cp_to_undo(),
            )
    }

    /// The shape or the curve is missing, and nothing changes.
    open spec fn execute_failed(&self, before: Scene<C>, after: Scene<C>, e: CommandError) -> bool {
        &&& after.layers() == before.layers()
        &&& after.spec_background() == before.spec_background()
        &&& (e == CommandError::ShapeNotFound || e == CommandError::CurveNotFound)
        &&& e == CommandError::ShapeNotFound <==> !shape_found(
            before.layers(),
            self.spec_shape(),
        )
        &&& e == CommandError::CurveNotFound ==> exists|p: int|
            #[trigger] is_first_layer(before.layers(), self.spec_shape(), p)
                && before.layers()[p].value is Shape && !ends_curve(
                before.layers()[p].value->Shape_0.path@,
                self.spec_coord(),
            )
    }

    /// The remembered handles go back around the end point of the curve.
    open spec fn undone(
        &self,
        done: Self,
        before: Scene<C>,
        after: Scene<C>,
        first: nat,
        next: nat,
    ) -> bool {
        &&& done == *self
        &&& next == first
        &&& after.spec_background() == before.spec_background()
        &&& exists|p: int|
            #[trigger] is_first_layer(before.layers(), self.spec_shape(), p)
                && before.layers()[p].value is Shape && ends_curve(
                before.layers()[p].value->Shape_0.path@,
                self.spec_coord(),
            ) && self.spec_cp_to_undo() is Some && restored_in(
                before.layers(),
                after.layers(),
                p,
                before.layers()[p].value->Shape_0,
                curve_of_coord(before.layers()[p].value->Shape_0.path@, self.spec_coord())->0,
                self.spec_cp_to_undo()->0,
            )
    }

    /// The shape or the curve is missing, or there are no handles to put back; nothing
    /// changes.
    open spec fn undo_failed(&self, before: Scene<C>, after: Scene<C>, e: CommandError) -> bool {
        &&& after.layers() == before.layers()
        &&& after.spec_background() == before.spec_background()
        &&& e == CommandError::ShapeNotFound <==> !shape_found(
            before.layers(),
            self.spec_shape(),
        )
        &&& e == CommandError::CurveNotFound ==> exists|p: int|
            #[trigger] is_first_layer(before.layers(), self.spec_shape(), p)
                && before.layers()[p].value is Shape && !ends_curve(
                before.layers()[p].value->Shape_0.path@,
                self.spec_coord(),
            )
        &&& e == CommandError::NoCoordToUndo ==> self.spec_cp_to_undo() is None
        &&& (e == CommandError::ShapeNotFound || e == CommandError::CurveNotFound || e
            == CommandError::NoCoordToUndo)
    }

    /// Merging never fails.
    open spec fn merge_failed(&self, future: Self, e: CommandError) -> bool {
        false
    }

    /// The point ends the same curve of the shape in both scenes.
    open spec fn undo_finds_it(&self, before: Scene<C>, after: Scene<C>) -> bool {
        curve_of_coord(
            after.layers()[first_layer(after.layers(), self.spec_shape())].value->Shape_0.path@,
            self.spec_coord(),
        ) == curve_of_coord(
            before.layers()[first_layer(before.layers(), self.spec_shape())].value->Shape_0.path@,
            self.spec_coord(),
        )
    }

    proof fn lemma_undo_restores(
        c: Self,
        d: Self,
        u: Self,
        s0: Scene<C>,
        s1: Scene<C>,
        s2: Scene<C>,
        i0: nat,
        i1: nat,
        i2: nat,
        i3: nat,
    ) {
        let l0 = s0.layers();
        let l1 = s1.layers();
        let p = choose|p: int|
            #[trigger] is_first_layer(l0, c.spec_shape(), p) && l0[p].value is Shape && ends_curve(
                l0[p].value->Shape_0.path@,
                c.spec_coord(),
            ) && toggled_in(
                l0,
                l1,
                p,
                l0[p].value->Shape_0,
                curve_of_coord(l0[p].value->Shape_0.path@, c.spec_coord())->0,
                c.spec_corners(),
                i0,
                i1,
                d.spec_cp_to_undo(),
            );
        let p2 = choose|p2: int|
            #[trigger] is_first_layer(l1, d.spec_shape(), p2) && l1[p2].value is Shape && ends_curve(
                l1[p2].value->Shape_0.path@,
                d.spec_coord(),
            ) && d.spec_cp_to_undo() is Some && restored_in(
                l1,
                s2.layers(),
                p2,
                l1[p2].value->Shape_0,
                curve_of_coord(l1[p2].value->Shape_0.path@, d.spec_coord())->0,
                d.spec_cp_to_undo()->0,
            );
        assert forall|j: int| 0 <= j < p implies l1[j].id != c.spec_shape() by {
            assert(l1[j] == l0[j]);
        }
        assert(is_first_layer(l1, c.spec_shape(), p));
        lemma_first_layer_unique(l1, c.spec_shape(), p);
        lemma_first_layer_unique(l1, c.spec_shape(), p2);
        lemma_first_layer_unique(l0, c.spec_shape(), p);
        let ci = curve_of_coord(l0[p].value->Shape_0.path@, c.spec_coord())->0;
        lemma_toggle_undo_restores(
            l0,
            l1,
            s2.layers(),
            p,
            ci,
            c.spec_corners(),
            i0,
            i1,
            d.spec_cp_to_undo(),
        );
    }

    proof fn lemma_redo_repeats(
        c: Self,
        d: Self,
        u: Self,
        r: Self,
        s0: Scene<C>,
        s1: Scene<C>,
        s2: Scene<C>,
        s3: Scene<C>,
        i0: nat,
        i1: nat,
        i2: nat,
        i3: nat,
        i4: nat,
        i5: nat,
    ) {
    }

    /// Finds the curve that ends at the point, remembers the two handles around its end point
    /// and toggles them: separates them to the corners where they are joined (with new
    /// identifiers from `ids`), joins them otherwise. Fails, changing nothing, where the shape
    /// or the curve is missing.
    fn execute(&mut self, scene: &mut Scene<C>, ids: &mut IdGenerator) -> (res: Result<
        (),
        CommandError,
    >)
        ensures
            final(self).spec_shape() == old(self).spec_shape(),
            final(self).spec_coord() == old(self).spec_coord(),
            final(self).spec_corners() == old(self).spec_corners(),
            final(scene).spec_background() == old(scene).spec_background(),
            match res {
                Ok(()) => exists|p: int|
                    #[trigger] is_first_layer(old(scene).layers(), old(self).spec_shape(), p) && old(scene).layers()[p].value is Shape && ends_curve(
                        old(scene).layers()[p].value->Shape_0.path@,
                        old(self).spec_coord(),
                    ) && toggled_in(
                        old(scene).layers(),
                        final(scene).layers(),
                        p,
                        old(scene).layers()[p].value->Shape_0,
                        curve_of_coord(old(scene).layers()[p].value->Shape_0.path@, old(self).spec_coord())->0,
                        old(self).spec_corners(),
                        old(ids).peek(),
                        final(ids).peek(),
                        final(self).spec_cp_to_undo(),
                    ),
                Err(e) => {
                    &&& final(scene).layers() == old(scene).layers()
                    &&& final(ids).peek() == old(ids).peek()
                    &&& final(self).spec_cp_to_undo() == old(self).spec_cp_to_undo()
                    &&& (e == CommandError::ShapeNotFound || e == CommandError::CurveNotFound)
                    &&& e == CommandError::ShapeNotFound <==> !shape_found(
                        old(scene).layers(),
                        old(self).spec_shape(),
                    )
                    &&& e == CommandError::CurveNotFound ==> exists|p: int, s: Shape<C>|
                        is_first_layer(old(scene).layers(), old(self).spec_shape(), p) && old(scene).layers()[p].value == LayerType::Shape(s) && !ends_curve(
                            s.path@,
                            old(self).spec_coord(),
                        )
                },
            },
    {
        let ghost layers0 = scene.layers();
        let shape = match scene.shape_select_mut(self.shapes) {
            Some(shape) => shape,
            None => {
                return Err(CommandError::ShapeNotFound);
            },
        };
        let ghost s0 = *shape;
        proof {
            let i = choose|i: int|
                is_first_layer(layers0, self.shapes, i) && layers0[i].value == LayerType::Shape(s0);
            assert(is_first_layer(layers0, self.spec_shape(), i));
        }
        let ci = match self.curve_of(shape) {
            Some(ci) => ci,
            None => {
                proof {
                    let i = choose|i: int|
                        is_first_layer(layers0, self.shapes, i) && layers0[i].value
                            == LayerType::Shape(*shape);
                    assert(is_first_layer(layers0, self.spec_shape(), i));
                    assert(!ends_curve(layers0[i].value->Shape_0.path@, self.spec_coord()));
                }
                proof {
                    assert(scene.layers() == layers0);
                    assert(shape_found(layers0, self.spec_shape()));
                    assert(self.execute_failed(*old(scene), *scene, CommandError::CurveNotFound));
                }
                return Err(CommandError::CurveNotFound);
            },
        };
        let n = shape.curves_len();
        let (cp1, cp0) = match (shape.curve_select(ci), shape.curve_select((ci + 1) % n)) {
            (Some(curve), Some(after)) => (*curve.cp1, *after.cp0),
            _ => {
                assert(false);
                return Err(CommandError::CurveNotFound);
            },
        };
        self.cp_to_undo = Some((cp1, cp0));
        let ghost first = ids.peek();
        shape.toggle_separate_join_handle(ci, (self.corner_left, self.corner_right), ids);
        let ghost s1 = *shape;
        proof {
            let i = choose|i: int|
                is_first_layer(layers0, self.shapes, i) && layers0[i].value == LayerType::Shape(s0)
                    && scene.layers() == layers0.update(
                    i,
                    Layer { id: layers0[i].id, name: layers0[i].name, value: LayerType::Shape(s1) },
                );
            assert(toggled_in(
                layers0,
                scene.layers(),
                i,
                s0,
                curve_of_coord(s0.path@, self.coord)->0,
                (self.corner_left, self.corner_right),
                first,
                ids.peek(),
                self.cp_to_undo,
            ));
            assert(is_first_layer(layers0, self.shapes, i) && layers0[i].value == LayerType::Shape(
                s0,
            ) && ends_curve(s0.path@, self.coord));
        }
        Ok(())
    }

    /// Puts back the two handles that `execute` remembered, around the end point of the curve
    /// that ends at the point. Fails, changing nothing, where the shape or the curve is
    /// missing or `execute` did not run.
    fn undo(&mut self, scene: &mut Scene<C>, ids: &mut IdGenerator) -> (res: Result<
        (),
        CommandError,
    >)
        ensures
            *final(self) == *old(self),
            final(ids).peek() == old(ids).peek(),
            final(scene).spec_background() == old(scene).spec_background(),
            match res {
                Ok(()) => exists|p: int|
                    #[trigger] is_first_layer(old(scene).layers(), old(self).spec_shape(), p) && old(scene).layers()[p].value is Shape && ends_curve(
                        old(scene).layers()[p].value->Shape_0.path@,
                        old(self).spec_coord(),
                    ) && old(self).spec_cp_to_undo() is Some && restored_in(
                        old(scene).layers(),
                        final(scene).layers(),
                        p,
                        old(scene).layers()[p].value->Shape_0,
                        curve_of_coord(old(scene).layers()[p].value->Shape_0.path@, old(self).spec_coord())->0,
                        old(self).spec_cp_to_undo()->0,
                    ),
                Err(e) => {
                    &&& final(scene).layers() == old(scene).layers()
                    &&& e == CommandError::ShapeNotFound <==> !shape_found(
                        old(scene).layers(),
                        old(self).spec_shape(),
                    )
                    &&& e == CommandError::CurveNotFound ==> exists|p: int, s: Shape<C>|
                        is_first_layer(old(scene).layers(), old(self).spec_shape(), p) && old(scene).layers()[p].value == LayerType::Shape(s) && !ends_curve(
                            s.path@,
                            old(self).spec_coord(),
                        )
                    &&& e == CommandError::NoCoordToUndo ==> old(self).spec_cp_to_undo() is None
                    &&& (e == CommandError::ShapeNotFound || e == CommandError::CurveNotFound || e
                        == CommandError::NoCoordToUndo)
                },
            },
    {
        let ghost layers0 = scene.layers();
        let shape = match scene.shape_select_mut(self.shapes) {
            Some(shape) => shape,
            None => {
                return Err(CommandError::ShapeNotFound);
            },
        };
        proof {
            let s0 = *shape;
            let i = choose|i: int|
                is_first_layer(layers0, self.shapes, i) && layers0[i].value == LayerType::Shape(s0);
            assert(is_first_layer(layers0, self.spec_shape(), i));
        }
        let ci = match self.curve_of(shape) {
            Some(ci) => ci,
            None => {
                proof {
                    let i = choose|i: int|
                        is_first_layer(layers0, self.shapes, i) && layers0[i].value
                            == LayerType::Shape(*shape);
                    assert(is_first_layer(layers0, self.spec_shape(), i));
                    assert(!ends_curve(layers0[i].value->Shape_0.path@, self.spec_coord()));
                }
                proof {
                    assert(scene.layers() == layers0);
                    assert(shape_found(layers0, self.spec_shape()));
                    assert(self.undo_failed(*old(scene), *scene, CommandError::CurveNotFound));
                }
                return Err(CommandError::CurveNotFound);
            },
        };
        let (a, b) = match self.cp_to_undo {
            Some(pair) => pair,
            None => {
                proof {
                    assert(scene.layers() == layers0);
                    assert(shape_found(layers0, self.spec_shape()));
                    assert(self.undo_failed(*old(scene), *scene, CommandError::NoCoordToUndo));
                }
                return Err(CommandError::NoCoordToUndo);
            },
        };
        let path_len = shape.path.len();
        let curves_len = shape.curves_len();
        assert(3 * ci + 3 < path_len);
        let ghost s0 = *shape;
        shape.path.set((ci * 3 + 2) % path_len, a);
        shape.path.set((((ci + 1) % curves_len) * 3 + 1) % path_len, b);
        let ghost s1 = *shape;
        proof {
            let i = choose|i: int|
                is_first_layer(layers0, self.shapes, i) && layers0[i].value == LayerType::Shape(s0)
                    && scene.layers() == layers0.update(
                    i,
                    Layer { id: layers0[i].id, name: layers0[i].name, value: LayerType::Shape(s1) },
                );
            assert(restored_in(
                layers0,
                scene.layers(),
                i,
                s0,
                curve_of_coord(s0.path@, self.coord)->0,
                (a, b),
            ));
            assert(is_first_layer(layers0, self.shapes, i) && layers0[i].value == LayerType::Shape(
                s0,
            ) && ends_curve(s0.path@, self.coord));
        }
        Ok(())
    }

    /// Toggles are not merged.
    fn merge(&self, future: &ToggleHandle<C>) -> (r: Option<Result<ToggleHandle<C>, CommandError>>) {
        None
    }
}

/// The scene finds a shape for `id`.
pub open spec fn shape_found<C>(layers: Seq<Layer<C>>, id: LayerId) -> bool {
    exists|p: int| is_first_layer(layers, id, p) && layers[p].value is Shape
}

/// `after` is `before` with the shape `s` of layer `p` having its handles around the end point
/// of curve `ci` toggled (new identifiers from `first`, the generator then at `next`), and
/// `undo` holds the two handles as they were.
pub open spec fn toggled_in<C>(
    before: Seq<Layer<C>>,
    after: Seq<Layer<C>>,
    p: int,
    s: Shape<C>,
    ci: int,
    corners: (C, C),
    first: nat,
    next: nat,
    undo: Option<(DbCoord<C>, DbCoord<C>)>,
) -> bool {
    let n = curve_count(s.path@.len()) as int;
    &&& after.len() == before.len()
    &&& forall|q: int| 0 <= q < before.len() && q != p ==> after[q] == before[q]
    &&& after[p].id == before[p].id
    &&& after[p].name == before[p].name
    &&& after[p].value is Shape
    &&& after[p].value->Shape_0.id == s.id
    &&& after[p].value->Shape_0.color == s.color
    &&& after[p].value->Shape_0.path@ == toggle_path(s.path@, ci, corners, first)
    &&& next == if handles_joined(s.path@, ci) {
        counter_after(first, 2)
    } else {
        first
    }
    &&& undo == Some((s.path@[3 * ci + 2], s.path@[3 * ((ci + 1) % n) + 1]))
}

/// `after` is `before` with the two handles around the end point of curve `ci` of the shape
/// `s` of layer `p` set to `cps`.
pub open spec fn restored_in<C>(
    before: Seq<Layer<C>>,
    after: Seq<Layer<C>>,
    p: int,
    s: Shape<C>,
    ci: int,
    cps: (DbCoord<C>, DbCoord<C>),
) -> bool {
    let len = s.path@.len() as int;
    let n = curve_count(s.path@.len()) as int;
    &&& after.len() == before.len()
    &&& forall|q: int| 0 <= q < before.len() && q != p ==> after[q] == before[q]
    &&& after[p].id == before[p].id
    &&& after[p].name == before[p].name
    &&& after[p].value is Shape
    &&& after[p].value->Shape_0.id == s.id
    &&& after[p].value->Shape_0.color == s.color
    &&& after[p].value->Shape_0.path@ == s.path@.update((3 * ci + 2) % len, cps.0).update(
        (3 * ((ci + 1) % n) + 1) % len,
        cps.1,
    )
}

/// Two layers hold the same: same identifier and name, and both the same folder or shapes
/// with the same identifier, color and points.
pub open spec fn same_layer<C>(a: Layer<C>, b: Layer<C>) -> bool {
    &&& a.id == b.id
    &&& a.name == b.name
    &&& match (a.value, b.value) {
        (LayerType::Folder, LayerType::Folder) => true,
        (LayerType::Shape(x), LayerType::Shape(y)) => x.id == y.id && x.color == y.color && x.path@
            == y.path@,
        _ => false,
    }
}

/// Two scenes hold the same layers in the same order.
pub open spec fn same_layers<C>(a: Seq<Layer<C>>, b: Seq<Layer<C>>) -> bool {
    &&& a.len() == b.len()
    &&& forall|i: int| 0 <= i < a.len() ==> same_layer(#[trigger] a[i], b[i])
}

/// Putting back the two handles that a toggle remembered gives the path back.
pub proof fn lemma_toggle_restore_path<C>(
    path: Seq<DbCoord<C>>,
    ci: int,
    corners: (C, C),
    first: nat,
)
    requires
        path.len() > 0,
        0 <= ci < curve_count(path.len()),
    ensures
        ({
            let len = path.len() as int;
            let n = curve_count(path.len()) as int;
            toggle_path(path, ci, corners, first).update((3 * ci + 2) % len, path[3 * ci + 2]).update(
                (3 * ((ci + 1) % n) + 1) % len,
                path[3 * ((ci + 1) % n) + 1],
            ) == path
        }),
{
    let len = path.len() as int;
    let n = curve_count(path.len()) as int;
    let il = 3 * ci + 2;
    let j = (ci + 1) % n;
    let ir = 3 * j + 1;
    assert(0 <= j < n);
    vstd::arithmetic::div_mod::lemma_small_mod(il as nat, len as nat);
    vstd::arithmetic::div_mod::lemma_small_mod(ir as nat, len as nat);
    let t = toggle_path(path, ci, corners, first);
    let r = t.update(il, path[il]).update(ir, path[ir]);
    assert(r =~= path);
}

/// Undoing a toggle right after it, where the undo finds the same curve, gives the scene back.
pub proof fn lemma_toggle_undo_restores<C>(
    l0: Seq<Layer<C>>,
    l1: Seq<Layer<C>>,
    l2: Seq<Layer<C>>,
    p: int,
    ci: int,
    corners: (C, C),
    first: nat,
    next: nat,
    undo: Option<(DbCoord<C>, DbCoord<C>)>,
)
    requires
        0 <= p < l0.len(),
        l0[p].value is Shape,
        l0[p].value->Shape_0.path@.len() > 0,
        0 <= ci < curve_count(l0[p].value->Shape_0.path@.len()),
        toggled_in(l0, l1, p, l0[p].value->Shape_0, ci, corners, first, next, undo),
        undo is Some,
        restored_in(l1, l2, p, l1[p].value->Shape_0, ci, undo->0),
    ensures
        same_layers(l2, l0),
{
    let s = l0[p].value->Shape_0;
    lemma_toggle_restore_path(s.path@, ci, corners, first);
    assert forall|i: int| 0 <= i < l2.len() implies same_layer(#[trigger] l2[i], l0[i]) by {
        if i != p {
            assert(l2[i] == l1[i] && l1[i] == l0[i]);
            match l0[i].value {
                LayerType::Folder => {},
                LayerType::Shape(x) => {},
            }
        }
    }
}

/// The commands the editor records.
#[derive(Debug, Clone)]
pub enum EditCommand<C> {
    MoveLayer(MoveLayer),
    ToggleHandle(ToggleHandle<C>),
}

impl<C: Copy> Command<C> for EditCommand<C> {
    /// The command it holds succeeds.
    open spec fn succeeds_on(&self, scene: Scene<C>) -> bool {
        match self {
            EditCommand::MoveLayer(c) => <MoveLayer as Command<C>>::succeeds_on(c, scene),
            EditCommand::ToggleHandle(c) => c.succeeds_on(scene),
        }
    }

    /// Edits are never merged.
    open spec fn merges_with(&self, future: Self) -> bool {
        false
    }

    /// Merging into it never fails.
    open spec fn merge_can_fail(&self) -> bool {
        false
    }

    /// The command it holds does what it does, and stays of the same kind.
    open spec fn executed(
        &self,
        done: Self,
        before: Scene<C>,
        after: Scene<C>,
        first: nat,
        next: nat,
    ) -> bool {
        match (self, done) {
            (EditCommand::MoveLayer(c), EditCommand::MoveLayer(d)) => <MoveLayer as Command<
                C,
            >>::executed(c, d, before, after, first, next),
            (EditCommand::ToggleHandle(c), EditCommand::ToggleHandle(d)) => c.executed(
                d,
                before,
                after,
                first,
                next,
            ),
            _ => false,
        }
    }

    /// The command it holds fails so.
    open spec fn execute_failed(&self, before: Scene<C>, after: Scene<C>, e: CommandError) -> bool {
        match self {
            EditCommand::MoveLayer(c) => <MoveLayer as Command<C>>::execute_failed(
                c,
                before,
                after,
                e,
            ),
            EditCommand::ToggleHandle(c) => c.execute_failed(before, after, e),
        }
    }

    /// The command it holds is undone so, and stays of the same kind.
    open spec fn undone(
        &self,
        done: Self,
        before: Scene<C>,
        after: Scene<C>,
        first: nat,
        next: nat,
    ) -> bool {
        match (self, done) {
            (EditCommand::MoveLayer(c), EditCommand::MoveLayer(d)) => <MoveLayer as Command<
                C,
            >>::undone(c, d, before, after, first, next),
            (EditCommand::ToggleHandle(c), EditCommand::ToggleHandle(d)) => c.undone(
                d,
                before,
                after,
                first,
                next,
            ),
            _ => false,
        }
    }

    /// The undo of the command it holds fails so.
    open spec fn undo_failed(&self, before: Scene<C>, after: Scene<C>, e: CommandError) -> bool {
        match self {
            EditCommand::MoveLayer(c) => <MoveLayer as Command<C>>::undo_failed(c, before, after, e),
            EditCommand::ToggleHandle(c) => c.undo_failed(before, after, e),
        }
    }

    /// Merging never fails.
    open spec fn merge_failed(&self, future: Self, e: CommandError) -> bool {
        false
    }

    /// The undo of the command it holds finds what that command changed.
    open spec fn undo_finds_it(&self, before: Scene<C>, after: Scene<C>) -> bool {
        match self {
            EditCommand::MoveLayer(c) => <MoveLayer as Command<C>>::undo_finds_it(c, before, after),
            EditCommand::ToggleHandle(c) => c.undo_finds_it(before, after),
        }
    }

    proof fn lemma_undo_restores(
        c: Self,
        d: Self,
        u: Self,
        s0: Scene<C>,
        s1: Scene<C>,
        s2: Scene<C>,
        i0: nat,
        i1: nat,
        i2: nat,
        i3: nat,
    ) {
        match (c, d, u) {
            (EditCommand::MoveLayer(x), EditCommand::MoveLayer(y), EditCommand::MoveLayer(z)) => {
                <MoveLayer as Command<C>>::lemma_undo_restores(x, y, z, s0, s1, s2, i0, i1, i2, i3);
            },
            (
                EditCommand::ToggleHandle(x),
                EditCommand::ToggleHandle(y),
                EditCommand::ToggleHandle(z),
            ) => {
                ToggleHandle::<C>::lemma_undo_restores(x, y, z, s0, s1, s2, i0, i1, i2, i3);
            },
            _ => {},
        }
    }

    proof fn lemma_redo_repeats(
        c: Self,
        d: Self,
        u: Self,
        r: Self,
        s0: Scene<C>,
        s1: Scene<C>,
        s2: Scene<C>,
        s3: Scene<C>,
        i0: nat,
        i1: nat,
        i2: nat,
        i3: nat,
        i4: nat,
        i5: nat,
    ) {
        match (c, d, u, r) {
            (
                EditCommand::MoveLayer(x),
                EditCommand::MoveLayer(y),
                EditCommand::MoveLayer(z),
                EditCommand::MoveLayer(w),
            ) => {
                <MoveLayer as Command<C>>::lemma_redo_repeats(
                    x, y, z, w, s0, s1, s2, s3, i0, i1, i2, i3, i4, i5,
                );
            },
            (
                EditCommand::ToggleHandle(x),
                EditCommand::ToggleHandle(y),
                EditCommand::ToggleHandle(z),
                EditCommand::ToggleHandle(w),
            ) => {
                ToggleHandle::<C>::lemma_redo_repeats(
                    x, y, z, w, s0, s1, s2, s3, i0, i1, i2, i3, i4, i5,
                );
            },
            _ => {},
        }
    }

    /// Carries out the command it holds.
    fn execute(&mut self, scene: &mut Scene<C>, ids: &mut IdGenerator) -> (res: Result<
        (),
        CommandError,
    >) {
        match self {
            EditCommand::MoveLayer(c) => c.execute(scene, ids),
            EditCommand::ToggleHandle(c) => c.execute(scene, ids),
        }
    }

    /// Undoes the command it holds.
    fn undo(&mut self, scene: &mut Scene<C>, ids: &mut IdGenerator) -> (res: Result<
        (),
        CommandError,
    >) {
        match self {
            EditCommand::MoveLayer(c) => c.undo(scene, ids),
            EditCommand::ToggleHandle(c) => c.undo(scene, ids),
        }
    }

    /// Edits are not merged.
    fn merge(&self, future: &EditCommand<C>) -> (r: Option<Result<EditCommand<C>, CommandError>>) {
        None
    }
}

/// A scene with the history of the commands carried out on it: the commands before
/// `index` are done, those from `index` on were undone and can be redone.
pub struct CommandsHandler<C, K> {
    scene: Scene<C>,
    stack: Vec<K>,
    index: usize,
}

impl<C: Copy, K: Command<C>> CommandsHandler<C, K> {
    /// No more commands are done than the history holds.
    pub closed spec fn wf(&self) -> bool {
        self.index <= self.stack@.len()
    }

    /// The scene.
    pub closed spec fn spec_scene(&self) -> Scene<C> {
        self.scene
    }

    /// The commands of the history, oldest first.
    pub closed spec fn history(&self) -> Seq<K> {
        self.stack@
    }

    /// How many commands of the history are done.
    pub closed spec fn done(&self) -> nat {
        self.index as nat
    }

    /// A handler of `scene` with an empty history.
    pub fn from(scene: Scene<C>) -> (h: CommandsHandler<C, K>)
        ensures
            h.wf(),
            h.spec_scene() == scene,
            h.history().len() == 0,
            h.done() == 0,
    {
        CommandsHandler { scene, stack: Vec::new(), index: 0 }
    }

    /// The scene.
    pub fn scene(&self) -> (s: &Scene<C>)
        ensures
            *s == self.spec_scene(),
    {
        &self.scene
    }

    /// The scene, to change it without recording a command.
    pub fn unsafe_scene_mut(&mut self) -> (s: &mut Scene<C>)
        ensures
            *s == old(self).spec_scene(),
            final(self).spec_scene() == *final(s),
            old(self).wf() ==> final(self).wf(),
            final(self).history() == old(self).history(),
            final(self).done() == old(self).done(),
    {
        &mut self.scene
    }

    /// Number of commands in the history.
    pub fn history_len(&self) -> (n: usize)
        ensures
            n == self.history().len(),
    {
        self.stack.len()
    }

    /// Number of commands of the history that are done.
    pub fn done_len(&self) -> (n: usize)
        ensures
            n == self.done(),
    {
        self.index
    }

    /// `after` is `before` once `command` was carried out, becoming `done`, and added after
    /// the done commands in place of the undone ones; identifiers were taken from `first`
    /// up to `next`.
    pub open spec fn added(before: Self, command: K, done: K, after: Self, first: nat, next: nat) -> bool {
        &&& command.executed(done, before.spec_scene(), after.spec_scene(), first, next)
        &&& !(before.done() > 0 && before.history()[before.done() - 1].merges_with(done))
        &&& after.history() == before.history().take(before.done() as int).push(done)
        &&& after.done() == before.done() + 1
    }

    /// `after` is `before` once `command` was carried out, becoming `done`, and merged into
    /// the last done command; the undone commands are dropped.
    pub open spec fn merged(before: Self, command: K, done: K, after: Self, first: nat, next: nat) -> bool {
        &&& command.executed(done, before.spec_scene(), after.spec_scene(), first, next)
        &&& before.done() > 0
        &&& before.history()[before.done() - 1].merges_with(done)
        &&& after.done() == before.done()
        &&& after.history().len() == before.done()
        &&& after.history().take(before.done() - 1) == before.history().take(before.done() - 1)
    }

    /// `after` is `before` with its last done command undone: that command's `undo` ran on
    /// the scene and the command, identifiers being taken from `first` up to `next`.
    pub open spec fn undid(before: Self, after: Self, first: nat, next: nat) -> bool {
        let i = before.done() - 1;
        &&& before.done() > 0
        &&& before.history()[i].undone(after.history()[i], before.spec_scene(), after.spec_scene(), first, next)
        &&& after.history() == before.history().update(i, after.history()[i])
        &&& after.done() == before.done() - 1
    }

    /// `after` is `before` with its first undone command carried out again: that command's
    /// `execute` ran on the scene and the command, identifiers being taken from `first` up
    /// to `next`.
    pub open spec fn redid(before: Self, after: Self, first: nat, next: nat) -> bool {
        let i = before.done() as int;
        &&& before.done() < before.history().len()
        &&& before.history()[i].executed(after.history()[i], before.spec_scene(), after.spec_scene(), first, next)
        &&& after.history() == before.history().update(i, after.history()[i])
        &&& after.done() == before.done() + 1
    }

    /// Carries out `command` and records it: the undone commands are dropped from the history,
    /// then the command is merged into the last done one where the two merge, and otherwise
    /// added after it. Where the command fails, it fails with the command's error and nothing
    /// is recorded; where the merge fails, it fails with the merge's error, the undone
    /// commands are dropped and the command is not recorded. It succeeds where the command
    /// succeeds on the scene and merging into the last done command cannot fail.
    pub fn execute(&mut self, command: K, ids: &mut IdGenerator) -> (res: Result<(), CommandError>)
        requires
            old(self).wf(),
        ensures
            final(self).wf(),
            res is Ok ==> command.succeeds_on(old(self).spec_scene()),
            command.succeeds_on(old(self).spec_scene()) && (old(self).done() == 0
                || !old(self).history()[old(self).done() - 1].merge_can_fail()) ==> res is Ok,
            res is Ok ==> exists|d: K|
                Self::added(*old(self), command, d, *final(self), old(ids).peek(), final(ids).peek())
                || Self::merged(*old(self), command, d, *final(self), old(ids).peek(), final(ids).peek()),
            !command.succeeds_on(old(self).spec_scene()) ==> {
                &&& res matches Err(e) && command.execute_failed(
                    old(self).spec_scene(),
                    final(self).spec_scene(),
                    e,
                )
                &&& final(self).history() == old(self).history()
                &&& final(self).done() == old(self).done()
            },
            res matches Err(e) ==> command.succeeds_on(old(self).spec_scene()) ==> exists|d: K|
                {
                    &&& #[trigger] command.executed(
                        d,
                        old(self).spec_scene(),
                        final(self).spec_scene(),
                        old(ids).peek(),
                        final(ids).peek(),
                    )
                    &&& old(self).done() > 0
                    &&& old(self).history()[old(self).done() - 1].merges_with(d)
                    &&& old(self).history()[old(self).done() - 1].merge_failed(d, e)
                    &&& final(self).history() == old(self).history().take(old(self).done() as int)
                    &&& final(self).done() == old(self).done()
                },
    {
        let ghost c0 = command;
        let mut command = command;
        let ghost s0 = self.scene;
        let ghost i0 = ids.peek();
        let executed = command.execute(&mut self.scene, ids);
        let ghost d = command;
        match executed {
            Ok(()) => {},
            Err(e) => {
                return Err(e);
            },
        }
        let ghost before = self.stack@;
        self.stack.truncate(self.index);
        assert(self.stack@ =~= before.take(self.index as int));
        if self.index > 0 {
            let merged = self.stack[self.index - 1].merge(&command);
            match merged {
                Some(Ok(merged_command)) => {
                    self.stack.pop();
                    self.stack.push(merged_command);
                    assert(self.stack@.take(self.index - 1) =~= before.take(self.index - 1));
                    assert(Self::merged(*old(self), c0, d, *self, i0, ids.peek()));
                    return Ok(());
                },
                Some(Err(e)) => {
                    assert(s0 == old(self).spec_scene() && i0 == old(ids).peek());
                    assert(c0.executed(d, old(self).spec_scene(), self.spec_scene(), old(ids).peek(), ids.peek()));
                    assert(self.history() == old(self).history().take(old(self).done() as int));
                    return Err(e);
                },
                None => {},
            }
        }
        self.stack.push(command);
        self.index = self.stack.len();
        assert(self.stack@ =~= before.take(old(self).index as int).push(d));
        assert(Self::added(*old(self), c0, d, *self, i0, ids.peek()));
        Ok(())
    }

    /// Undoes the last done command with its `undo`. With nothing done, does nothing; where
    /// the undo fails, it fails with the undo's error and the command stays done.
    pub fn undo(&mut self, ids: &mut IdGenerator) -> (res: Result<(), CommandError>)
        requires
            old(self).wf(),
        ensures
            final(self).wf(),
            final(self).history().len() == old(self).history().len(),
            old(self).done() == 0 ==> res is Ok && *final(self) == *old(self),
            old(self).done() > 0 && res is Ok ==> Self::undid(
                *old(self),
                *final(self),
                old(ids).peek(),
                final(ids).peek(),
            ),
            res matches Err(e) ==> old(self).done() > 0 ==> {
                &&& old(self).history()[old(self).done() - 1].undo_failed(
                    old(self).spec_scene(),
                    final(self).spec_scene(),
                    e,
                )
                &&& final(self).done() == old(self).done()
            },
            forall|i: int|
                0 <= i < old(self).history().len() && i != old(self).done() - 1 ==> final(self).history()[i] == old(self).history()[i],
    {
        if self.index == 0 {
            return Ok(());
        }
        let i = self.index - 1;
        let undone = {
            let command = vec_index_mut(&mut self.stack, i);
            command.undo(&mut self.scene, ids)
        };
        assert(self.stack@ =~= old(self).stack@.update(i as int, self.stack@[i as int]));
        match undone {
            Ok(()) => {
                self.index = i;
                Ok(())
            },
            Err(e) => Err(e),
        }
    }

    /// Carries out again the first undone command with its `execute`. With nothing undone,
    /// does nothing; where the command fails, it fails with the command's error and the
    /// command stays undone.
    pub fn redo(&mut self, ids: &mut IdGenerator) -> (res: Result<(), CommandError>)
        requires
            old(self).wf(),
        ensures
            final(self).wf(),
            final(self).history().len() == old(self).history().len(),
            old(self).done() == old(self).history().len() ==> res is Ok && *final(self) == *old(self),
            old(self).done() < old(self).history().len() ==> (res is Ok <==> old(self).history()[old(self).done() as int].succeeds_on(old(self).spec_scene())),
            old(self).done() < old(self).history().len() && res is Ok ==> Self::redid(
                *old(self),
                *final(self),
                old(ids).peek(),
                final(ids).peek(),
            ),
            res matches Err(e) ==> old(self).done() < old(self).history().len() ==> {
                &&& old(self).history()[old(self).done() as int].execute_failed(
                    old(self).spec_scene(),
                    final(self).spec_scene(),
                    e,
                )
                &&& final(self).done() == old(self).done()
            },
            forall|i: int|
                0 <= i < old(self).history().len() && i != old(self).done() ==> final(self).history()[i] == old(self).history()[i],
    {
        if self.index == self.stack.len() {
            return Ok(());
        }
        let i = self.index;
        let redone = {
            let command = vec_index_mut(&mut self.stack, i);
            command.execute(&mut self.scene, ids)
        };
        assert(self.stack@ =~= old(self).stack@.update(i as int, self.stack@[i as int]));
        match redone {
            Ok(()) => {
                self.index = i + 1;
                Ok(())
            },
            Err(e) => Err(e),
        }
    }
}

/// Undoing a command right after the handler carried it out and added it gives the scene
/// back, and the done commands are those that were done before, where the undo finds what
/// the command changed.
pub proof fn lemma_handler_undo_after_execute<C: Copy, K: Command<C>>(
    h0: CommandsHandler<C, K>,
    h1: CommandsHandler<C, K>,
    h2: CommandsHandler<C, K>,
    command: K,
    done: K,
    i0: nat,
    i1: nat,
    i2: nat,
    i3: nat,
)
    requires
        h0.wf(),
        CommandsHandler::added(h0, command, done, h1, i0, i1),
        CommandsHandler::undid(h1, h2, i2, i3),
        command.undo_finds_it(h0.spec_scene(), h1.spec_scene()),
    ensures
        same_layers(h2.spec_scene().layers(), h0.spec_scene().layers()),
        h2.spec_scene().spec_background() == h0.spec_scene().spec_background(),
        h2.done() == h0.done(),
        h2.history().take(h0.done() as int) == h0.history().take(h0.done() as int),
{
    let n = h0.done() as int;
    assert(h1.history()[n] == done);
    let u = h2.history()[n];
    K::lemma_undo_restores(command, done, u, h0.spec_scene(), h1.spec_scene(), h2.spec_scene(), i0, i1, i2, i3);
    assert(h2.history().take(n) =~= h0.history().take(n));
}

/// Redoing a command that the handler carried out, added and then undid does what that
/// command does on the scene the undo left, and the same commands are done again.
pub proof fn lemma_handler_redo_after_undo<C: Copy, K: Command<C>>(
    h0: CommandsHandler<C, K>,
    h1: CommandsHandler<C, K>,
    h2: CommandsHandler<C, K>,
    h3: CommandsHandler<C, K>,
    command: K,
    done: K,
    i0: nat,
    i1: nat,
    i2: nat,
    i3: nat,
    i4: nat,
    i5: nat,
)
    requires
        h0.wf(),
        CommandsHandler::added(h0, command, done, h1, i0, i1),
        CommandsHandler::undid(h1, h2, i2, i3),
        CommandsHandler::redid(h2, h3, i4, i5),
    ensures
        command.executed(
            h3.history()[h0.done() as int],
            h2.spec_scene(),
            h3.spec_scene(),
            i4,
            i5,
        ),
        h3.done() == h1.done(),
        h3.history().len() == h1.history().len(),
        h3.history().take(h0.done() as int) == h0.history().take(h0.done() as int),
{
    let n = h0.done() as int;
    assert(h1.history()[n] == done);
    let u = h2.history()[n];
    let r = h3.history()[n];
    K::lemma_redo_repeats(
        command,
        done,
        u,
        r,
        h0.spec_scene(),
        h1.spec_scene(),
        h2.spec_scene(),
        h3.spec_scene(),
        i0,
        i1,
        i2,
        i3,
        i4,
        i5,
    );
    assert(h3.history().take(n) =~= h0.history().take(n));
}

/// A mutable reference to the item at `i`.
fn vec_index_mut<T>(v: &mut Vec<T>, i: usize) -> (item: &mut T)
    requires
        i < old(v)@.len(),
    ensures
        *item == old(v)@[i as int],
        final(v)@ == old(v)@.update(i as int, *final(item)),
{
    &mut v[i]
}

}
