use vstd::prelude::*;

use crate::fill::Rgba;
use crate::ids::{CoordId, LayerId};
use crate::scene::{
    is_first_layer, lemma_first_layer_unique, none_inside, vec_index_mut, Layer, LayerType, Scene,
};
use crate::shape::{DbCoord, Shape};

verus! {

/// How deep the user has selected: nothing, whole shapes, or points of shapes.
#[derive(Debug, Clone, Copy, PartialEq, Eq, Structural)]
pub enum SelectedLevel {
    Nothing,
    Shape,
    Coord,
}

/// One level shallower; nothing stays nothing.
pub open spec fn level_minus(l: SelectedLevel) -> SelectedLevel {
    match l {
        SelectedLevel::Nothing => SelectedLevel::Nothing,
        SelectedLevel::Shape => SelectedLevel::Nothing,
        SelectedLevel::Coord => SelectedLevel::Shape,
    }
}

/// One level deeper; points stay points.
pub open spec fn level_plus(l: SelectedLevel) -> SelectedLevel {
    match l {
        SelectedLevel::Nothing => SelectedLevel::Shape,
        SelectedLevel::Shape => SelectedLevel::Coord,
        SelectedLevel::Coord => SelectedLevel::Coord,
    }
}

impl SelectedLevel {
    /// One level shallower (nothing stays nothing).
    pub fn minus(&self) -> (l: SelectedLevel)
        ensures
            l == level_minus(*self),
    {
        match self {
            SelectedLevel::Nothing => SelectedLevel::Nothing,
            SelectedLevel::Shape => SelectedLevel::Nothing,
            SelectedLevel::Coord => SelectedLevel::Shape,
        }
    }

    /// One level deeper (points stay points).
    pub fn plus(&self) -> (l: SelectedLevel)
        ensures
            l == level_plus(*self),
    {
        match self {
            SelectedLevel::Nothing => SelectedLevel::Shape,
            SelectedLevel::Shape => SelectedLevel::Coord,
            SelectedLevel::Coord => SelectedLevel::Coord,
        }
    }
}

/// The point of a shape under the cursor.
#[derive(Debug, Clone, Copy, PartialEq, Eq, Structural)]
pub struct HoverCoord {
    pub shape_index: LayerId,
    pub id: CoordId,
}

impl HoverCoord {
    pub fn new(shape_index: LayerId, coord: CoordId) -> (h: HoverCoord)
        ensures
            h == (HoverCoord { shape_index, id: coord }),
    {
        HoverCoord { shape_index, id: coord }
    }
}

/// A selected shape, with its selected points.
#[derive(Debug, Clone, PartialEq)]
pub struct SelectedShape {
    pub shape_id: LayerId,
    pub coords: Vec<CoordId>,
}

/// How a point is shown: under the cursor, selected, or neither.
#[derive(Debug, Clone, Copy, PartialEq, Eq, Structural)]
pub enum CoordState {
    Hover,
    Selected,
    Nothing,
}

impl SelectedShape {
    /// The shape `shape_index`, with no point selected.
    pub fn new(shape_index: LayerId) -> (s: SelectedShape)
        ensures
            s.shape_id == shape_index,
            s.coords@.len() == 0,
    {
        SelectedShape { shape_id: shape_index, coords: Vec::new() }
    }

    /// Whether the point `coord_ref` is under the cursor, else selected in this shape.
    pub fn coord_state<C>(&self, selected: &UserSelection<C>, coord_ref: CoordId) -> (s:
        CoordState)
        ensures
            s == if selected.hover_coord matches Some(h) && h.id == coord_ref {
                CoordState::Hover
            } else if self.coords@.contains(coord_ref) {
                CoordState::Selected
            } else {
                CoordState::Nothing
            },
    {
        let hovered = match &selected.hover_coord {
            Some(hover_coord) => hover_coord.id == coord_ref,
            None => false,
        };
        if hovered {
            return CoordState::Hover;
        }
        let mut i: usize = 0;
        while i < self.coords.len()
            invariant
                i <= self.coords@.len(),
                forall|j: int| 0 <= j < i ==> self.coords@[j] != coord_ref,
                !(selected.hover_coord matches Some(h) && h.id == coord_ref),
            decreases self.coords@.len() - i,
        {
            if self.coords[i] == coord_ref {
                assert(self.coords@[i as int] == coord_ref);
                return CoordState::Selected;
            }
            i = i + 1;
        }
        CoordState::Nothing
    }
}

/// What the user has selected: shapes with some of their points, the position of the mouse,
/// the point under the cursor, and the colour for new shapes.
#[derive(Debug, Clone, PartialEq)]
pub struct UserSelection<C> {
    pub shapes: Vec<SelectedShape>,
    pub mouse_position: Option<C>,
    pub hover_coord: Option<HoverCoord>,
    pub color: Rgba,
}

/// The level that a selection of `shapes` has: nothing, points where some shape has a point
/// selected, else shapes.
pub open spec fn level_of(shapes: Seq<SelectedShape>) -> SelectedLevel {
    if shapes.len() == 0 {
        SelectedLevel::Nothing
    } else if exists|i: int| 0 <= i < shapes.len() && shapes[i].coords@.len() > 0 {
        SelectedLevel::Coord
    } else {
        SelectedLevel::Shape
    }
}

/// The colour of the shape that the scene finds for `id`, if it finds one.
pub open spec fn shape_color<C>(layers: Seq<Layer<C>>, id: LayerId) -> Option<Rgba> {
    if exists|i: int| is_first_layer(layers, id, i) && layers[i].value is Shape {
        let i = choose|i: int| is_first_layer(layers, id, i) && layers[i].value is Shape;
        Some(layers[i].value->Shape_0.color)
    } else {
        None
    }
}

/// The colours of the selected shapes found in the scene, each once, in the order in which
/// they first appear.
pub open spec fn distinct_colors<C>(layers: Seq<Layer<C>>, ids: Seq<LayerId>) -> Seq<Rgba>
    decreases ids.len(),
{
    if ids.len() == 0 {
        Seq::empty()
    } else {
        let prev = distinct_colors(layers, ids.drop_last());
        match shape_color(layers, ids.last()) {
            Some(c) => if prev.contains(c) {
                prev
            } else {
                prev.push(c)
            },
            None => prev,
        }
    }
}

/// The identifiers of the selected shapes, in order.
pub open spec fn selected_ids(shapes: Seq<SelectedShape>) -> Seq<LayerId> {
    shapes.map_values(|s: SelectedShape| s.shape_id)
}

fn rgba_list_contains(list: &Vec<Rgba>, c: Rgba) -> (b: bool)
    ensures
        b == list@.contains(c),
{
    let mut i: usize = 0;
    while i < list.len()
        invariant
            i <= list@.len(),
            forall|j: int| 0 <= j < i ==> list@[j] != c,
        decreases list@.len() - i,
    {
        if list[i] == c {
            assert(list@[i as int] == c);
            return true;
        }
        i = i + 1;
    }
    false
}

impl<C: Copy> UserSelection<C> {
    /// Nothing selected, no mouse position, black as the colour for new shapes.
    pub fn new() -> (s: UserSelection<C>)
        ensures
            s.shapes@.len() == 0,
            s.mouse_position is None,
            s.hover_coord is None,
            s.color == (Rgba { r: 0, g: 0, b: 0, a: 255 }),
    {
        UserSelection {
            shapes: Vec::new(),
            mouse_position: None,
            hover_coord: None,
            color: Rgba::black(),
        }
    }

    /// Keeps only the first selected shape, with none of its points selected; the rest of the
    /// selection stays.
    pub fn keep_first_shape(&mut self)
        requires
            old(self).shapes@.len() >= 1,
        ensures
            final(self).shapes@.len() == 1,
            final(self).shapes@[0].shape_id == old(self).shapes@[0].shape_id,
            final(self).shapes@[0].coords@.len() == 0,
            final(self).mouse_position == old(self).mouse_position,
            final(self).hover_coord == old(self).hover_coord,
            final(self).color == old(self).color,
    {
        let mut first = self.shapes.remove(0);
        first.coords.clear();
        self.shapes.clear();
        self.shapes.push(first);
    }

    /// Nothing, shapes, or points: points where some selected shape has a point selected.
    pub fn get_selected_level(&self) -> (l: SelectedLevel)
        ensures
            l == level_of(self.shapes@),
    {
        if self.shapes.len() == 0 {
            return SelectedLevel::Nothing;
        }
        let mut i: usize = 0;
        while i < self.shapes.len()
            invariant
                i <= self.shapes@.len(),
                forall|j: int| 0 <= j < i ==> self.shapes@[j].coords@.len() == 0,
            decreases self.shapes@.len() - i,
        {
            if self.shapes[i].coords.len() != 0 {
                return SelectedLevel::Coord;
            }
            i = i + 1;
        }
        SelectedLevel::Shape
    }

    /// Drops what is selected below `selected_level`: everything for `None`, the points for
    /// `Shape`, nothing for `Coord`.
    pub fn clear_to_level(&mut self, selected_level: SelectedLevel)
        ensures
            final(self).mouse_position == old(self).mouse_position,
            final(self).hover_coord == old(self).hover_coord,
            final(self).color == old(self).color,
            match selected_level {
                SelectedLevel::Nothing => final(self).shapes@.len() == 0,
                SelectedLevel::Shape => final(self).shapes@.len() == old(self).shapes@.len()
                    && forall|i: int|
                    0 <= i < final(self).shapes@.len() ==> (#[trigger] final(self).shapes@[i]).shape_id
                        == old(self).shapes@[i].shape_id && final(self).shapes@[i].coords@.len()
                        == 0,
                SelectedLevel::Coord => final(self).shapes@ == old(self).shapes@,
            },
    {
        match selected_level {
            SelectedLevel::Nothing => {
                self.shapes.clear();
            },
            SelectedLevel::Shape => {
                let mut i: usize = 0;
                while i < self.shapes.len()
                    invariant
                        i <= self.shapes@.len(),
                        self.shapes@.len() == old(self).shapes@.len(),
                        self.mouse_position == old(self).mouse_position,
                        self.hover_coord == old(self).hover_coord,
                        self.color == old(self).color,
                        forall|j: int|
                            0 <= j < self.shapes@.len() ==> (#[trigger] self.shapes@[j]).shape_id
                                == old(self).shapes@[j].shape_id,
                        forall|j: int| 0 <= j < i ==> (#[trigger] self.shapes@[j]).coords@.len() == 0,
                    decreases self.shapes@.len() - i,
                {
                    let id = self.shapes[i].shape_id;
                    self.shapes.set(i, SelectedShape::new(id));
                    i = i + 1;
                }
            },
            SelectedLevel::Coord => {},
        }
    }

    /// The colours of the selected shapes that the scene holds, each once.
    pub fn get_selected_colors(&self, scene: &Scene<C>) -> (colors: Vec<Rgba>)
        ensures
            colors@ == distinct_colors(scene.layers(), selected_ids(self.shapes@)),
    {
        let mut colors: Vec<Rgba> = Vec::new();
        let ghost ids = selected_ids(self.shapes@);
        let mut i: usize = 0;
        while i < self.shapes.len()
            invariant
                i <= self.shapes@.len(),
                ids == selected_ids(self.shapes@),
                colors@ == distinct_colors(scene.layers(), ids.subrange(0, i as int)),
            decreases self.shapes@.len() - i,
        {
            proof {
                assert(ids.subrange(0, i + 1).drop_last() =~= ids.subrange(0, i as int));
                assert(ids.subrange(0, i + 1).last() == self.shapes@[i as int].shape_id);
            }
            let id = self.shapes[i].shape_id;
            match scene.shape_select(id) {
                Some(shape) => {
                    proof {
                        let k = choose|k: int|
                            is_first_layer(scene.layers(), id, k) && scene.layers()[k].value
                                == LayerType::Shape(*shape);
                        crate::scene::lemma_first_layer_unique(scene.layers(), id, k);
                        let w = choose|w: int|
                            is_first_layer(scene.layers(), id, w) && scene.layers()[w].value is Shape;
                        crate::scene::lemma_first_layer_unique(scene.layers(), id, w);
                        assert(shape_color(scene.layers(), id) == Some(shape.color));
                    }
                    if !rgba_list_contains(&colors, shape.color) {
                        colors.push(shape.color);
                    }
                },
                None => {
                    proof {
                        if exists|w: int|
                            is_first_layer(scene.layers(), id, w) && scene.layers()[w].value is Shape {
                            let w = choose|w: int|
                                is_first_layer(scene.layers(), id, w)
                                    && scene.layers()[w].value is Shape;
                            if crate::scene::has_no_layer(scene.layers(), id) {
                                assert(scene.layers()[w].id == id);
                            } else {
                                let k = choose|k: int|
                                    is_first_layer(scene.layers(), id, k)
                                        && scene.layers()[k].value == LayerType::<C>::Folder;
                                crate::scene::lemma_first_layer_unique(scene.layers(), id, k);
                                crate::scene::lemma_first_layer_unique(scene.layers(), id, w);
                            }
                        }
                    }
                },
            }
            i = i + 1;
        }
        assert(ids.subrange(0, self.shapes@.len() as int) =~= ids);
        colors
    }

    /// Drops the first selected shape with identifier `shape_index`, if there is one.
    pub fn remove_shape(&mut self, shape_index: LayerId)
        ensures
            final(self).mouse_position == old(self).mouse_position,
            final(self).hover_coord == old(self).hover_coord,
            final(self).color == old(self).color,
            (forall|j: int|
                0 <= j < old(self).shapes@.len() ==> old(self).shapes@[j].shape_id != shape_index)
                ==> final(self).shapes@ == old(self).shapes@,
            forall|i: int|
                0 <= i < old(self).shapes@.len() && old(self).shapes@[i].shape_id == shape_index
                    && (forall|j: int| 0 <= j < i ==> old(self).shapes@[j].shape_id != shape_index)
                    ==> final(self).shapes@ == old(self).shapes@.remove(i),
    {
        let mut i: usize = 0;
        while i < self.shapes.len()
            invariant
                i <= self.shapes@.len(),
                self.shapes@ == old(self).shapes@,
                self.mouse_position == old(self).mouse_position,
                self.hover_coord == old(self).hover_coord,
                self.color == old(self).color,
                forall|j: int| 0 <= j < i ==> self.shapes@[j].shape_id != shape_index,
            decreases self.shapes@.len() - i,
        {
            if self.shapes[i].shape_id == shape_index {
                self.shapes.remove(i);
                return;
            }
            i = i + 1;
        }
    }
}

/// The path of the shape that the scene finds for `id` (empty where it finds none).
pub open spec fn selected_path<C>(layers: Seq<Layer<C>>, id: LayerId) -> Seq<DbCoord<C>> {
    if exists|i: int| is_first_layer(layers, id, i) && layers[i].value is Shape {
        let i = choose|i: int| is_first_layer(layers, id, i) && layers[i].value is Shape;
        layers[i].value->Shape_0.path@
    } else {
        Seq::empty()
    }
}

/// The scene holds a shape for every selected shape.
pub open spec fn all_found<C>(layers: Seq<Layer<C>>, shapes: Seq<SelectedShape>) -> bool {
    forall|s: int|
        0 <= s < shapes.len() ==> exists|i: int|
            is_first_layer(layers, (#[trigger] shapes[s]).shape_id, i) && layers[i].value is Shape
}

/// None of the first `n` points of `path` passes `hit`.
pub open spec fn misses<C, F: Fn(C) -> bool>(hit: F, path: Seq<DbCoord<C>>, n: int) -> bool {
    forall|k: int| 0 <= k < n ==> hit.ensures(((#[trigger] path[k]).coord,), false)
}

/// Point `k` is the first point of `path` that passes `hit`.
pub open spec fn first_hit<C, F: Fn(C) -> bool>(hit: F, path: Seq<DbCoord<C>>, k: int) -> bool {
    &&& 0 <= k < path.len()
    &&& hit.ensures((path[k].coord,), true)
    &&& misses(hit, path, k)
}

/// No point of the first `n` selected shapes passes `hit`.
pub open spec fn shapes_missed<C, F: Fn(C) -> bool>(
    layers: Seq<Layer<C>>,
    shapes: Seq<SelectedShape>,
    hit: F,
    n: int,
) -> bool {
    forall|t: int|
        0 <= t < n ==> misses(
            hit,
            selected_path(layers, (#[trigger] shapes[t]).shape_id),
            selected_path(layers, shapes[t].shape_id).len() as int,
        )
}

/// Point `k` of selected shape `s` is the first point, shape by shape, that passes `hit`.
pub open spec fn first_hit_in<C, F: Fn(C) -> bool>(
    layers: Seq<Layer<C>>,
    shapes: Seq<SelectedShape>,
    hit: F,
    s: int,
    k: int,
) -> bool {
    &&& 0 <= s < shapes.len()
    &&& first_hit(hit, selected_path(layers, shapes[s].shape_id), k)
    &&& shapes_missed(layers, shapes, hit, s)
}

/// The shape of layer `i` is the first shape, front to back, that passes `inside`.
pub open spec fn found_inside<C, F: Fn(&Shape<C>) -> bool>(
    layers: Seq<Layer<C>>,
    inside: F,
    i: int,
) -> bool {
    &&& 0 <= i < layers.len()
    &&& layers[i].value is Shape
    &&& inside.ensures((&layers[i].value->Shape_0,), true)
    &&& none_inside(layers, inside, i)
}

/// The path of the shape found at layer `i` is what `selected_path` gives.
proof fn lemma_selected_path<C>(layers: Seq<Layer<C>>, id: LayerId, i: int, s: Shape<C>)
    requires
        is_first_layer(layers, id, i),
        layers[i].value == LayerType::Shape(s),
    ensures
        selected_path(layers, id) == s.path@,
{
    let w = choose|w: int| is_first_layer(layers, id, w) && layers[w].value is Shape;
    lemma_first_layer_unique(layers, id, i);
    lemma_first_layer_unique(layers, id, w);
}

/// Index of the first occurrence of `id` in `ids`.
fn coord_position(ids: &Vec<CoordId>, id: CoordId) -> (res: Option<usize>)
    ensures
        match res {
            Some(p) => p < ids@.len() && ids@[p as int] == id && forall|j: int|
                0 <= j < p ==> ids@[j] != id,
            None => !ids@.contains(id),
        },
{
    let mut i: usize = 0;
    while i < ids.len()
        invariant
            i <= ids@.len(),
            forall|j: int| 0 <= j < i ==> ids@[j] != id,
        decreases ids@.len() - i,
    {
        if ids[i] == id {
            return Some(i);
        }
        i = i + 1;
    }
    None
}

/// Index of the first selected shape with identifier `id`.
fn shape_position(shapes: &Vec<SelectedShape>, id: LayerId) -> (res: Option<usize>)
    ensures
        match res {
            Some(p) => p < shapes@.len() && shapes@[p as int].shape_id == id && forall|j: int|
                0 <= j < p ==> shapes@[j].shape_id != id,
            None => forall|j: int| 0 <= j < shapes@.len() ==> shapes@[j].shape_id != id,
        },
{
    let mut i: usize = 0;
    while i < shapes.len()
        invariant
            i <= shapes@.len(),
            forall|j: int| 0 <= j < i ==> shapes@[j].shape_id != id,
        decreases shapes@.len() - i,
    {
        if shapes[i].shape_id == id {
            return Some(i);
        }
        i = i + 1;
    }
    None
}

/// Looks in the path of the scene's shape `id` for the first point that passes `hit`.
fn find_hit<C: Copy, F: Fn(C) -> bool>(scene: &Scene<C>, id: LayerId, hit: &F) -> (res: Option<
    CoordId,
>)
    requires
        forall|c: C| #[trigger] hit.requires((c,)),
        exists|i: int| is_first_layer(scene.layers(), id, i) && scene.layers()[i].value is Shape,
    ensures
        ({
            let p = selected_path(scene.layers(), id);
            match res {
                Some(c) => exists|k: int| first_hit(*hit, p, k) && p[k].id == c,
                None => misses(*hit, p, p.len() as int),
            }
        }),
{
    let shape = match scene.shape_select(id) {
        Some(shape) => shape,
        None => {
            proof {
                let w = choose|w: int|
                    is_first_layer(scene.layers(), id, w) && scene.layers()[w].value is Shape;
                if !crate::scene::has_no_layer(scene.layers(), id) {
                    let k = choose|k: int|
                        is_first_layer(scene.layers(), id, k) && scene.layers()[k].value
                            == LayerType::<C>::Folder;
                    lemma_first_layer_unique(scene.layers(), id, k);
                    lemma_first_layer_unique(scene.layers(), id, w);
                } else {
                    assert(scene.layers()[w].id == id);
                }
            }
            return None;
        },
    };
    proof {
        let i = choose|i: int|
            is_first_layer(scene.layers(), id, i) && scene.layers()[i].value == LayerType::Shape(
                *shape,
            );
        lemma_selected_path(scene.layers(), id, i, *shape);
    }
    let mut k: usize = 0;
    while k < shape.path.len()
        invariant
            k <= shape.path@.len(),
            forall|c: C| #[trigger] hit.requires((c,)),
            misses(*hit, shape.path@, k as int),
            selected_path(scene.layers(), id) == shape.path@,
        decreases shape.path@.len() - k,
    {
        let c = shape.path[k];
        if hit(c.coord) {
            assert(first_hit(*hit, shape.path@, k as int));
            assert(shape.path@[k as int].id == c.id);
            return Some(c.id);
        }
        k = k + 1;
    }
    None
}

/// `after` is `before` with the shape `id` selected where it was not, or unselected where
/// it was selected without points (the last selected shape taking its place).
pub open spec fn shape_added_or_dropped(
    before: Seq<SelectedShape>,
    after: Seq<SelectedShape>,
    id: LayerId,
) -> bool {
    if exists|p: int| 0 <= p < before.len() && before[p].shape_id == id {
        let p = choose|p: int|
            0 <= p < before.len() && before[p].shape_id == id && forall|j: int|
                0 <= j < p ==> before[j].shape_id != id;
        if before[p].coords@.len() == 0 {
            after == before.update(p, before.last()).drop_last()
        } else {
            after == before
        }
    } else {
        &&& after.len() == before.len() + 1
        &&& after.drop_last() == before
        &&& after.last().shape_id == id
        &&& after.last().coords@.len() == 0
    }
}

/// Index of the first occurrence of `id` in `cs`.
pub open spec fn first_index_of(cs: Seq<CoordId>, id: CoordId) -> int {
    choose|p: int| 0 <= p < cs.len() && cs[p] == id && forall|j: int| 0 <= j < p ==> cs[j] != id
}

/// `cs` with `id` taken out (its first occurrence replaced by the last item) where it is
/// there, else added at the end.
pub open spec fn toggled(cs: Seq<CoordId>, id: CoordId) -> Seq<CoordId> {
    if cs.contains(id) {
        cs.update(first_index_of(cs, id), cs.last()).drop_last()
    } else {
        cs.push(id)
    }
}

/// Shift-clicking a point among points selected once each: a selected point is taken out
/// (afterwards it is not selected, and every other point is selected exactly where it was
/// before, still once), and a point that was not selected is added after the others.
pub proof fn lemma_toggled_flips_only_that_point(cs: Seq<CoordId>, id: CoordId)
    requires
        cs.no_duplicates(),
    ensures
        toggled(cs, id).contains(id) <==> !cs.contains(id),
        forall|x: CoordId| x != id ==> (toggled(cs, id).contains(x) <==> cs.contains(x)),
        toggled(cs, id).no_duplicates(),
        cs.contains(id) ==> toggled(cs, id).len() + 1 == cs.len(),
        !cs.contains(id) ==> toggled(cs, id) == cs.push(id),
{
    if cs.contains(id) {
        let w = choose|w: int| 0 <= w < cs.len() && cs[w] == id;
        assert(exists|p: int| 0 <= p < cs.len() && cs[p] == id && forall|j: int| 0 <= j < p ==> cs[j] != id) by {
            assert(0 <= w < cs.len() && cs[w] == id && forall|j: int| 0 <= j < w ==> cs[j] != id);
        }
        let p = first_index_of(cs, id);
        let n = cs.len() - 1;
        let t = toggled(cs, id);
        assert(t =~= cs.update(p, cs[n]).drop_last());
        assert forall|j: int| 0 <= j < t.len() implies t[j] != id by {
            if j == p {
                assert(t[j] == cs[n]);
                if p != n {
                    assert(cs[p] != cs[n]);
                }
            } else {
                assert(t[j] == cs[j]);
            }
        }
        assert forall|x: CoordId| x != id implies (t.contains(x) <==> cs.contains(x)) by {
            if cs.contains(x) {
                let k = choose|k: int| 0 <= k < cs.len() && cs[k] == x;
                if k == n {
                    if p < n {
                        assert(t[p] == x);
                    }
                } else {
                    assert(k != p);
                    assert(t[k] == x);
                }
            }
            if t.contains(x) {
                let k = choose|k: int| 0 <= k < t.len() && t[k] == x;
                if k == p {
                    assert(cs[n] == x);
                } else {
                    assert(cs[k] == x);
                }
            }
        }
        assert forall|i: int, j: int| 0 <= i < t.len() && 0 <= j < t.len() && i != j implies t[i] != t[j] by {
            let ii = if i == p { n } else { i };
            let jj = if j == p { n } else { j };
            assert(t[i] == cs[ii]);
            assert(t[j] == cs[jj]);
        }
    } else {
        let t = cs.push(id);
        assert forall|x: CoordId| x != id implies (t.contains(x) <==> cs.contains(x)) by {
            if t.contains(x) {
                let k = choose|k: int| 0 <= k < t.len() && t[k] == x;
                assert(k < cs.len());
                assert(cs[k] == x);
            }
            if cs.contains(x) {
                let k = choose|k: int| 0 <= k < cs.len() && cs[k] == x;
                assert(t[k] == x);
            }
        }
        assert(t[cs.len() as int] == id);
        assert forall|i: int, j: int| 0 <= i < t.len() && 0 <= j < t.len() && i != j implies t[i] != t[j] by {
            if i == cs.len() {
                assert(!cs.contains(t[j]) || t[j] != id);
                if j < cs.len() {
                    assert(cs[j] == t[j]);
                }
            } else if j == cs.len() {
                assert(cs[i] == t[i]);
            }
        }
    }
}

fn toggle_coord(coords: &mut Vec<CoordId>, id: CoordId)
    ensures
        final(coords)@ == toggled(old(coords)@, id),
{
    match coord_position(coords, id) {
        Some(p) => {
            proof {
                let q = first_index_of(old(coords)@, id);
                assert(old(coords)@.contains(id));
                if q < p {
                } else if q > p {
                    assert(old(coords)@[p as int] == id);
                }
                assert(q == p);
            }
            coords.swap_remove(p);
        },
        None => {
            coords.push(id);
        },
    }
}

impl<C: Copy> UserSelection<C> {
    /// Sets the point under the cursor from the last selected shape: its first point that
    /// passes `hit` (the test whether the cursor is near a point), or none. With no shape
    /// selected the point under the cursor stays as it was.
    pub fn change_hover<F: Fn(C) -> bool>(&mut self, scene: &Scene<C>, hit: &F)
        requires
            forall|c: C| #[trigger] hit.requires((c,)),
            all_found(scene.layers(), old(self).shapes@),
        ensures
            final(self).shapes@ == old(self).shapes@,
            final(self).mouse_position == old(self).mouse_position,
            final(self).color == old(self).color,
            old(self).shapes@.len() == 0 ==> final(self).hover_coord == old(self).hover_coord,
            old(self).shapes@.len() > 0 ==> ({
                let last = old(self).shapes@.last().shape_id;
                let p = selected_path(scene.layers(), last);
                match final(self).hover_coord {
                    Some(h) => h.shape_index == last && exists|k: int|
                        first_hit(*hit, p, k) && p[k].id == h.id,
                    None => misses(*hit, p, p.len() as int),
                }
            }),
    {
        let mut s: usize = 0;
        while s < self.shapes.len()
            invariant
                s <= self.shapes@.len(),
                self.shapes@ == old(self).shapes@,
                self.mouse_position == old(self).mouse_position,
                self.color == old(self).color,
                forall|c: C| #[trigger] hit.requires((c,)),
                all_found(scene.layers(), self.shapes@),
                s == 0 ==> self.hover_coord == old(self).hover_coord,
                s > 0 ==> ({
                    let id = self.shapes@[s - 1].shape_id;
                    let p = selected_path(scene.layers(), id);
                    match self.hover_coord {
                        Some(h) => h.shape_index == id && exists|k: int|
                            first_hit(*hit, p, k) && p[k].id == h.id,
                        None => misses(*hit, p, p.len() as int),
                    }
                }),
            decreases self.shapes@.len() - s,
        {
            let id = self.shapes[s].shape_id;
            assert(self.shapes@[s as int].shape_id == id);
            match find_hit(scene, id, hit) {
                Some(c) => {
                    self.hover_coord = Some(HoverCoord::new(id, c));
                },
                None => {
                    self.hover_coord = None;
                },
            }
            s = s + 1;
        }
        assert(s > 0 ==> old(self).shapes@.last() == self.shapes@[s - 1]);
    }

    /// Selects on a press. With nothing selected, selects the first shape, front to back,
    /// that passes `inside` (the test whether the press is inside a shape). Otherwise drops
    /// the selected points and selects the first point, shape by shape, that passes `hit`
    /// (the test whether the press is near a point).
    pub fn change_selection<F: Fn(C) -> bool, G: Fn(&Shape<C>) -> bool>(
        &mut self,
        scene: &Scene<C>,
        hit: &F,
        inside: &G,
    )
        requires
            forall|c: C| #[trigger] hit.requires((c,)),
            forall|sh: &Shape<C>| #[trigger] inside.requires((sh,)),
            all_found(scene.layers(), old(self).shapes@),
        ensures
            final(self).mouse_position == old(self).mouse_position,
            final(self).hover_coord == old(self).hover_coord,
            final(self).color == old(self).color,
            old(self).shapes@.len() == 0 ==> ((exists|i: int|
                found_inside(scene.layers(), *inside, i) && final(self).shapes@.len() == 1
                    && final(self).shapes@[0].shape_id == scene.layers()[i].value->Shape_0.id
                    && final(self).shapes@[0].coords@.len() == 0) || (none_inside(
                scene.layers(),
                *inside,
                scene.layers().len() as int,
            ) && final(self).shapes@.len() == 0)),
            old(self).shapes@.len() > 0 ==> {
                &&& final(self).shapes@.len() == old(self).shapes@.len()
                &&& forall|t: int|
                    0 <= t < old(self).shapes@.len() ==> (#[trigger] final(self).shapes@[t]).shape_id
                        == old(self).shapes@[t].shape_id
                &&& (exists|s: int, k: int|
                    first_hit_in(scene.layers(), old(self).shapes@, *hit, s, k) && forall|t: int|
                        0 <= t < old(self).shapes@.len() ==> (#[trigger] final(self).shapes@[t]).coords@
                            == if t == s {
                            seq![selected_path(scene.layers(), old(self).shapes@[s].shape_id)[k].id]
                        } else {
                            Seq::<CoordId>::empty()
                        }) || (shapes_missed(
                    scene.layers(),
                    old(self).shapes@,
                    *hit,
                    old(self).shapes@.len() as int,
                ) && forall|t: int|
                    0 <= t < old(self).shapes@.len() ==> (#[trigger] final(self).shapes@[t]).coords@.len()
                        == 0)
            },
    {
        if self.shapes.len() == 0 {
            match scene.shape_select_contains(inside) {
                Some(shape) => {
                    self.shapes.push(SelectedShape::new(shape.id));
                    proof {
                        let i = choose|i: int|
                            0 <= i < scene.layers().len() && scene.layers()[i].value
                                == LayerType::Shape(*shape) && inside.ensures((shape,), true)
                                && none_inside(scene.layers(), *inside, i);
                        assert(found_inside(scene.layers(), *inside, i));
                    }
                },
                None => {},
            }
            return;
        }
        let len = self.shapes.len();
        let mut t: usize = 0;
        while t < len
            invariant
                len == self.shapes@.len(),
                len == old(self).shapes@.len(),
                t <= len,
                self.mouse_position == old(self).mouse_position,
                self.hover_coord == old(self).hover_coord,
                self.color == old(self).color,
                forall|x: int|
                    0 <= x < len ==> (#[trigger] self.shapes@[x]).shape_id == old(self).shapes@[x].shape_id,
                forall|x: int| 0 <= x < t ==> (#[trigger] self.shapes@[x]).coords@.len() == 0,
            decreases len - t,
        {
            let id = self.shapes[t].shape_id;
            self.shapes.set(t, SelectedShape::new(id));
            t = t + 1;
        }
        let mut t: usize = 0;
        while t < len
            invariant
                len == self.shapes@.len(),
                len == old(self).shapes@.len(),
                t <= len,
                self.mouse_position == old(self).mouse_position,
                self.hover_coord == old(self).hover_coord,
                self.color == old(self).color,
                forall|c: C| #[trigger] hit.requires((c,)),
                all_found(scene.layers(), old(self).shapes@),
                forall|x: int|
                    0 <= x < len ==> (#[trigger] self.shapes@[x]).shape_id == old(self).shapes@[x].shape_id,
                forall|x: int| 0 <= x < len ==> (#[trigger] self.shapes@[x]).coords@.len() == 0,
                shapes_missed(scene.layers(), old(self).shapes@, *hit, t as int),
            decreases len - t,
        {
            let id = self.shapes[t].shape_id;
            assert(old(self).shapes@[t as int].shape_id == id);
            match find_hit(scene, id, hit) {
                Some(c) => {
                    let ghost before = self.shapes@;
                    let sel = vec_index_mut(&mut self.shapes, t);
                    sel.coords.push(c);
                    proof {
                        let p = selected_path(scene.layers(), id);
                        let k = choose|k: int| first_hit(*hit, p, k) && p[k].id == c;
                        assert(first_hit_in(scene.layers(), old(self).shapes@, *hit, t as int, k));
                        assert(self.shapes@[t as int].coords@ =~= seq![p[k].id]);
                        assert forall|x: int| 0 <= x < len implies (#[trigger] self.shapes@[x]).coords@
                            == if x == t {
                            seq![selected_path(scene.layers(), old(self).shapes@[t as int].shape_id)[k].id]
                        } else {
                            Seq::<CoordId>::empty()
                        } by {
                            if x != t {
                                assert(self.shapes@[x] == before[x]);
                                assert(before[x].coords@ =~= Seq::<CoordId>::empty());
                            }
                        }
                    }
                    return;
                },
                None => {},
            }
            t = t + 1;
        }
    }

    /// Adds to the selection on a press. The first point, shape by shape, that passes `hit`
    /// is selected, or unselected where it already is. Where no point passes, the first shape
    /// that passes `inside` is selected, or unselected where it is selected without points
    /// (the last selected shape takes its place).
    pub fn add_selection<F: Fn(C) -> bool, G: Fn(&Shape<C>) -> bool>(
        &mut self,
        scene: &Scene<C>,
        hit: &F,
        inside: &G,
    )
        requires
            forall|c: C| #[trigger] hit.requires((c,)),
            forall|sh: &Shape<C>| #[trigger] inside.requires((sh,)),
            all_found(scene.layers(), old(self).shapes@),
        ensures
            final(self).mouse_position == old(self).mouse_position,
            final(self).hover_coord == old(self).hover_coord,
            final(self).color == old(self).color,
            (exists|s: int, k: int|
                first_hit_in(scene.layers(), old(self).shapes@, *hit, s, k) && {
                    &&& final(self).shapes@.len() == old(self).shapes@.len()
                    &&& forall|t: int|
                        0 <= t < old(self).shapes@.len() && t != s ==> #[trigger] final(self).shapes@[t] == old(self).shapes@[t]
                    &&& final(self).shapes@[s].shape_id == old(self).shapes@[s].shape_id
                    &&& final(self).shapes@[s].coords@ == toggled(
                        old(self).shapes@[s].coords@,
                        selected_path(scene.layers(), old(self).shapes@[s].shape_id)[k].id,
                    )
                }) || (shapes_missed(
                scene.layers(),
                old(self).shapes@,
                *hit,
                old(self).shapes@.len() as int,
            ) && ((exists|i: int|
                found_inside(scene.layers(), *inside, i) && shape_added_or_dropped(
                    old(self).shapes@,
                    final(self).shapes@,
                    scene.layers()[i].value->Shape_0.id,
                )) || (none_inside(scene.layers(), *inside, scene.layers().len() as int) && final(self).shapes@ == old(self).shapes@))),
    {
        let len = self.shapes.len();
        let mut t: usize = 0;
        while t < len
            invariant
                len == self.shapes@.len(),
                self.shapes@ == old(self).shapes@,
                t <= len,
                self.mouse_position == old(self).mouse_position,
                self.hover_coord == old(self).hover_coord,
                self.color == old(self).color,
                forall|c: C| #[trigger] hit.requires((c,)),
                all_found(scene.layers(), old(self).shapes@),
                shapes_missed(scene.layers(), old(self).shapes@, *hit, t as int),
            decreases len - t,
        {
            let id = self.shapes[t].shape_id;
            match find_hit(scene, id, hit) {
                Some(c) => {
                    let sel = vec_index_mut(&mut self.shapes, t);
                    toggle_coord(&mut sel.coords, c);
                    proof {
                        let p = selected_path(scene.layers(), id);
                        let k = choose|k: int| first_hit(*hit, p, k) && p[k].id == c;
                        assert(first_hit_in(scene.layers(), old(self).shapes@, *hit, t as int, k));
                    }
                    return;
                },
                None => {},
            }
            t = t + 1;
        }
        match scene.shape_select_contains(inside) {
            Some(shape) => {
                let ghost i = choose|i: int|
                    0 <= i < scene.layers().len() && scene.layers()[i].value == LayerType::Shape(
                        *shape,
                    ) && inside.ensures((shape,), true) && none_inside(scene.layers(), *inside, i);
                assert(found_inside(scene.layers(), *inside, i));
                let ghost before = self.shapes@;
                match shape_position(&self.shapes, shape.id) {
                    Some(p) => {
                        proof {
                            let q = choose|q: int|
                                0 <= q < before.len() && before[q].shape_id == shape.id && forall|
                                    j: int,
                                | 0 <= j < q ==> before[j].shape_id != shape.id;
                            assert(before[p as int].shape_id == shape.id);
                            if q < p {
                            } else if q > p {
                            }
                            assert(q == p);
                        }
                        if self.shapes[p].coords.len() == 0 {
                            self.shapes.swap_remove(p);
                        }
                    },
                    None => {
                        self.shapes.push(SelectedShape::new(shape.id));
                        assert(self.shapes@.drop_last() =~= before);
                    },
                }
                assert(shape_added_or_dropped(before, self.shapes@, shape.id));
            },
            None => {},
        }
    }

}

/// Going one level deeper and then one shallower gives the level back, except from points,
/// which stay points going deeper.
pub proof fn lemma_plus_then_minus(l: SelectedLevel)
    requires
        l != SelectedLevel::Coord,
    ensures
        level_minus(level_plus(l)) == l,
{
}

/// Going one level shallower and then one deeper gives the level back, except from nothing,
/// which stays nothing going shallower.
pub proof fn lemma_minus_then_plus(l: SelectedLevel)
    requires
        l != SelectedLevel::Nothing,
    ensures
        level_plus(level_minus(l)) == l,
{
}


/// Layer `k` of `layers` is the first layer of its identifier, holds a shape, and that
/// identifier is among `ids`.
pub open spec fn recolors<C>(layers: Seq<Layer<C>>, ids: Seq<LayerId>, k: int) -> bool {
    &&& is_first_layer(layers, layers[k].id, k)
    &&& layers[k].value is Shape
    &&& ids.contains(layers[k].id)
}

/// `layer` with its shape in colour `color`.
pub open spec fn in_color<C>(layer: Layer<C>, color: Rgba) -> Layer<C> {
    match layer.value {
        LayerType::Shape(s) => Layer {
            value: LayerType::Shape(Shape { color, ..s }),
            ..layer
        },
        LayerType::Folder => layer,
    }
}

/// `layers` with the shapes of the layers `ids` select in colour `color`.
pub open spec fn recolored<C>(layers: Seq<Layer<C>>, ids: Seq<LayerId>, color: Rgba) -> Seq<Layer<C>> {
    Seq::new(
        layers.len(),
        |k: int|
            if recolors(layers, ids, k) {
                in_color(layers[k], color)
            } else {
                layers[k]
            },
    )
}

/// Sets the colour for new shapes to `color`, and gives that colour to every selected shape
/// (each the first layer of its identifier, where that layer holds a shape).
pub fn set_color_of<C: Copy>(scene: &mut Scene<C>, selected: &mut UserSelection<C>, color: Rgba)
    ensures
        final(selected).color == color,
        final(selected).shapes@ == old(selected).shapes@,
        final(selected).hover_coord == old(selected).hover_coord,
        final(selected).mouse_position == old(selected).mouse_position,
        final(scene).spec_background() == old(scene).spec_background(),
        final(scene).layers() == recolored(
            old(scene).layers(),
            selected_ids(old(selected).shapes@),
            color,
        ),
{
    selected.color = color;
    let ghost orig = scene.layers();
    let ghost all_ids = selected_ids(selected.shapes@);
    let mut i: usize = 0;
    proof {
        assert(recolored(orig, all_ids.take(0), color) =~= orig);
    }
    while i < selected.shapes.len()
        invariant
            i <= selected.shapes@.len(),
            all_ids == selected_ids(selected.shapes@),
            selected.color == color,
            scene.spec_background() == old(scene).spec_background(),
            orig == old(scene).layers(),
            selected.shapes@ == old(selected).shapes@,
            selected.hover_coord == old(selected).hover_coord,
            selected.mouse_position == old(selected).mouse_position,
            scene.layers() == recolored(orig, all_ids.take(i as int), color),
        decreases selected.shapes@.len() - i,
    {
        let id = selected.shapes[i].shape_id;
        let ghost cur = scene.layers();
        let ghost ids0 = all_ids.take(i as int);
        let ghost ids1 = all_ids.take(i + 1);
        proof {
            assert(ids1 =~= ids0.push(id));
            assert(all_ids[i as int] == id);
        }
        match scene.shape_select_mut(id) {
            Some(shape) => {
                shape.color = color;
            },
            None => {},
        }
        proof {
            let now = scene.layers();
            assert forall|k: int| 0 <= k < orig.len() implies cur[k].id == orig[k].id && (
            cur[k].value is Shape <==> orig[k].value is Shape) by {
                assert(cur[k] == recolored(orig, ids0, color)[k]);
            }
            assert forall|k: int| 0 <= k < orig.len() implies is_first_layer(cur, id, k)
                == is_first_layer(orig, id, k) by {
                if is_first_layer(orig, id, k) {
                    assert forall|j: int| 0 <= j < k implies cur[j].id != id by {
                        assert(cur[j].id == orig[j].id);
                    }
                }
                if is_first_layer(cur, id, k) {
                    assert forall|j: int| 0 <= j < k implies orig[j].id != id by {
                        assert(cur[j].id == orig[j].id);
                    }
                }
            }
            assert forall|k: int| 0 <= k < orig.len() implies #[trigger] now[k] == recolored(
                orig,
                ids1,
                color,
            )[k] by {
                let x = orig[k].id;
                assert(ids1.contains(x) <==> (ids0.contains(x) || x == id)) by {
                    if ids1.contains(x) {
                        let j = choose|j: int| 0 <= j < ids1.len() && ids1[j] == x;
                        if j < ids0.len() {
                            assert(ids0[j] == x);
                        }
                    }
                    if ids0.contains(x) {
                        let j = choose|j: int| 0 <= j < ids0.len() && ids0[j] == x;
                        assert(ids1[j] == x);
                    }
                    if x == id {
                        assert(ids1[ids0.len() as int] == id);
                    }
                }
                if is_first_layer(orig, orig[k].id, k) && orig[k].id == id && orig[k].value is Shape
                    && !ids0.contains(id) {
                    assert(is_first_layer(cur, id, k));
                }
                if is_first_layer(orig, orig[k].id, k) && orig[k].id == id && orig[k].value is Shape
                    && ids0.contains(id) {
                    assert(is_first_layer(cur, id, k));
                }
                if orig[k].id == id && !is_first_layer(orig, id, k) {
                    assert(!is_first_layer(cur, id, k));
                }
            }
            assert(now =~= recolored(orig, ids1, color));
        }
        i = i + 1;
    }
    proof {
        assert(all_ids.take(i as int) =~= all_ids);
    }
}

}
