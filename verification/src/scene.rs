use vstd::prelude::*;

use crate::fill::Rgba;
use crate::ids::{IdGenerator, LayerId};
use crate::shape::{counter_after, draw_steps, ids_refreshed, null_count, DrawStep, Shape};
use crate::text::{decimal, push_decimal};

verus! {

/// What a layer holds.
#[derive(Debug, Clone, PartialEq)]
pub enum LayerType<C> {
    Shape(Shape<C>),
    Folder,
}

/// One layer of a scene: its identifier, its name and what it holds.
#[derive(Debug, Clone, PartialEq)]
pub struct Layer<C> {
    pub id: LayerId,
    pub name: String,
    pub value: LayerType<C>,
}

/// The layers of a drawing in front-to-back order (index 0 is the foreground), over a
/// background colour.
#[derive(Debug, Clone, PartialEq)]
pub struct Scene<C> {
    pub background: Rgba,
    layers: Vec<Layer<C>>,
}

/// A line of the tree view of a scene.
#[derive(Debug, Clone, PartialEq)]
pub struct TreeViewModel {
    pub layer_id: usize,
    pub layer_type: String,
    pub name: String,
    pub level: usize,
}

/// Which layers to draw.
#[derive(Debug, Clone, Default)]
pub struct RenderOption {
    /// If set, only render the layers up to this layer not included
    pub to_layer: Option<LayerId>,
    /// If set, skip the layers with these ids
    pub skip_layers: Vec<LayerId>,
    /// If set, only render the layers with these ids
    pub only_layers: Vec<LayerId>,
}

/// `i` is the first index of a layer with identifier `id`.
pub open spec fn is_first_layer<C>(layers: Seq<Layer<C>>, id: LayerId, i: int) -> bool {
    &&& 0 <= i < layers.len()
    &&& layers[i].id == id
    &&& forall|j: int| 0 <= j < i ==> layers[j].id != id
}

/// No layer has identifier `id`.
pub open spec fn has_no_layer<C>(layers: Seq<Layer<C>>, id: LayerId) -> bool {
    forall|j: int| 0 <= j < layers.len() ==> layers[j].id != id
}

/// Some layer has identifier `id`.
pub open spec fn has_layer<C>(layers: Seq<Layer<C>>, id: LayerId) -> bool {
    exists|j: int| 0 <= j < layers.len() && layers[j].id == id
}

/// The index of the first layer with identifier `id` (meaningful where there is one).
pub open spec fn first_layer<C>(layers: Seq<Layer<C>>, id: LayerId) -> int {
    choose|i: int| is_first_layer(layers, id, i)
}

/// `s` with the items at `i` and `j` exchanged.
pub open spec fn seq_swap<A>(s: Seq<A>, i: int, j: int) -> Seq<A> {
    s.update(i, s[j]).update(j, s[i])
}

/// `s` with the item at `from` taken out and put back so that it ends up at index `to`.
pub open spec fn seq_move<A>(s: Seq<A>, from: int, to: int) -> Seq<A> {
    s.remove(from).insert(to, s[from])
}

/// The identifiers of the layers, in order.
pub open spec fn layer_ids_of<C>(layers: Seq<Layer<C>>) -> Seq<LayerId> {
    layers.map_values(|l: Layer<C>| l.id)
}

/// `"Shape"` or `"Folder"`.
pub open spec fn layer_kind_name<C>(value: LayerType<C>) -> Seq<char> {
    match value {
        LayerType::Shape(_) => "Shape"@,
        LayerType::Folder => "Folder"@,
    }
}

/// The name given to a shape inserted with identifier value `id`: `"Shape {id}"`.
pub open spec fn shape_layer_name(id: nat) -> Seq<char> {
    "Shape "@ + decimal(id)
}

/// Whether the layer with identifier `id` is drawn, apart from where drawing stops.
pub open spec fn drawn(options_skip: Seq<LayerId>, options_only: Seq<LayerId>, id: LayerId) -> bool {
    !options_skip.contains(id) && (options_only.len() == 0 || options_only.contains(id))
}

/// Indices of the layers to draw, back to front: starting from the last layer of `ids`
/// and going towards the first, drawing stops at the layer `to_layer`, and each layer is drawn
/// if `drawn` says so. `k` is how many layers from the back are considered.
pub open spec fn render_order(
    ids: Seq<LayerId>,
    k: nat,
    to_layer: Option<LayerId>,
    skip: Seq<LayerId>,
    only: Seq<LayerId>,
) -> Seq<int>
    decreases k,
{
    if k == 0 || k > ids.len() {
        Seq::empty()
    } else {
        let prev = render_order(ids, (k - 1) as nat, to_layer, skip, only);
        let i = ids.len() - k;
        if stopped_before(ids, (k - 1) as nat, to_layer) || to_layer == Some(ids[i]) {
            prev
        } else if drawn(skip, only, ids[i]) {
            prev.push(i)
        } else {
            prev
        }
    }
}

/// Drawing stopped among the last `k` layers of `ids`.
pub open spec fn stopped_before(ids: Seq<LayerId>, k: nat, to_layer: Option<LayerId>) -> bool {
    exists|j: int| ids.len() - k <= j < ids.len() && to_layer == Some(ids[j])
}


/// The first index of a layer is where `first_layer` points.
pub proof fn lemma_first_layer_unique<C>(layers: Seq<Layer<C>>, id: LayerId, i: int)
    requires
        is_first_layer(layers, id, i),
    ensures
        first_layer(layers, id) == i,
        has_layer(layers, id),
{
    let k = first_layer(layers, id);
    assert(is_first_layer(layers, id, k));
    if k < i {
        assert(layers[k].id != id);
    } else if k > i {
        assert(layers[i].id != id);
    }
}


/// The layer `id` occurs once among `layers`.
pub open spec fn unique_layer<C>(layers: Seq<Layer<C>>, id: LayerId) -> bool {
    forall|i: int, j: int|
        0 <= i < layers.len() && 0 <= j < layers.len() && layers[i].id == id && layers[j].id == id
            ==> i == j
}

/// Moving an item from `from` to `to` and then from `to` back to `from` gives the sequence
/// back.
pub proof fn lemma_seq_move_back<A>(s: Seq<A>, from: int, to: int)
    requires
        0 <= from < s.len(),
        0 <= to < s.len(),
    ensures
        seq_move(s, from, to).len() == s.len(),
        seq_move(s, from, to)[to] == s[from],
        seq_move(seq_move(s, from, to), to, from) == s,
{
    let m = seq_move(s, from, to);
    assert(m.remove(to) =~= s.remove(from));
    assert(s.remove(from).insert(from, s[from]) =~= s);
}

/// After a move, a layer whose identifier occurs once is found where it was moved to, and
/// still occurs once.
pub proof fn lemma_move_finds_moved<C>(layers: Seq<Layer<C>>, id: LayerId, from: int, to: int)
    requires
        is_first_layer(layers, id, from),
        unique_layer(layers, id),
        0 <= to < layers.len(),
    ensures
        is_first_layer(seq_move(layers, from, to), id, to),
        first_layer(seq_move(layers, from, to), id) == to,
        unique_layer(seq_move(layers, from, to), id),
{
    let m = seq_move(layers, from, to);
    let r = layers.remove(from);
    assert forall|j: int| 0 <= j < r.len() implies r[j].id != id by {
        if j < from {
            assert(r[j] == layers[j]);
        } else {
            assert(r[j] == layers[j + 1]);
        }
    }
    assert forall|j: int| 0 <= j < m.len() && j != to implies m[j].id != id by {
        if j < to {
            assert(m[j] == r[j]);
        } else {
            assert(m[j] == r[j - 1]);
        }
    }
    lemma_first_layer_unique(m, id, to);
}

/// Undoing the move of a layer (moving it back from where it went to where it was) puts
/// every layer back, where its identifier occurs once: `MoveLayer::undo` after
/// `MoveLayer::execute` gives the scene back.
pub proof fn lemma_move_layer_undo_restores<C>(layers: Seq<Layer<C>>, id: LayerId, to: int)
    requires
        has_layer(layers, id),
        unique_layer(layers, id),
        0 <= to < layers.len(),
    ensures
        ({
            let p = first_layer(layers, id);
            let moved = seq_move(layers, p, to);
            &&& has_layer(moved, id)
            &&& p < moved.len()
            &&& seq_move(moved, first_layer(moved, id), p) == layers
        }),
{
    let w = choose|j: int| 0 <= j < layers.len() && layers[j].id == id;
    assert forall|j: int| 0 <= j < w implies layers[j].id != id by {}
    lemma_first_layer_unique(layers, id, w);
    let p = first_layer(layers, id);
    lemma_move_finds_moved(layers, id, p, to);
    lemma_seq_move_back(layers, p, to);
}

/// Moving a layer whose identifier occurs once one step up and then one step down puts
/// every layer back, where it was not already at the front.
pub proof fn lemma_move_up_then_down<C>(layers: Seq<Layer<C>>, id: LayerId)
    requires
        has_layer(layers, id),
        unique_layer(layers, id),
        first_layer(layers, id) > 0,
    ensures
        ({
            let p = first_layer(layers, id);
            let up = seq_swap(layers, p, p - 1);
            &&& has_layer(up, id)
            &&& first_layer(up, id) == p - 1
            &&& first_layer(up, id) < up.len() - 1
            &&& seq_swap(up, p - 1, p) == layers
        }),
{
    let w = choose|j: int| 0 <= j < layers.len() && layers[j].id == id;
    lemma_first_layer_unique(layers, id, w);
    let p = first_layer(layers, id);
    let up = seq_swap(layers, p, p - 1);
    assert forall|j: int| 0 <= j < p - 1 implies up[j].id != id by {
        assert(up[j] == layers[j]);
    }
    assert(up[p - 1] == layers[p]);
    lemma_first_layer_unique(up, id, p - 1);
    assert(seq_swap(up, p - 1, p) =~= layers);
}

/// Once drawing has stopped, no further layer is drawn.
/// What is drawn: every index lies in the scene, the indices go from the back towards the
/// front, no layer whose identifier is in `skip` is drawn, whatever `only` holds, where `only`
/// is not empty only layers whose identifier is in it are drawn, and the layer where drawing
/// stops is not drawn.
pub proof fn lemma_render_order_respects_options(
    ids: Seq<LayerId>,
    k: nat,
    to_layer: Option<LayerId>,
    skip: Seq<LayerId>,
    only: Seq<LayerId>,
)
    ensures
        ({
            let r = render_order(ids, k, to_layer, skip, only);
            &&& r.len() <= k
            &&& forall|m: int|
                #![trigger r[m]]
                0 <= m < r.len() ==> {
                    &&& ids.len() - k <= r[m] < ids.len()
                    &&& !skip.contains(ids[r[m]])
                    &&& (only.len() > 0 ==> only.contains(ids[r[m]]))
                    &&& to_layer != Some(ids[r[m]])
                }
            &&& forall|m1: int, m2: int| 0 <= m1 < m2 < r.len() ==> r[m1] > r[m2]
            &&& forall|m: int, j: int|
                #![trigger r[m], ids[j]]
                0 <= m < r.len() && r[m] <= j < ids.len() ==> to_layer != Some(ids[j])
            &&& forall|i: int|
                #![trigger ids[i]]
                ids.len() - k <= i < ids.len() && k <= ids.len() && !skip.contains(ids[i]) && (
                only.len() == 0 || only.contains(ids[i])) && (forall|j: int|
                    i <= j < ids.len() ==> to_layer != Some(#[trigger] ids[j])) ==> r.contains(i)
        }),
    decreases k,
{
    if k > 0 && k <= ids.len() {
        lemma_render_order_respects_options(ids, (k - 1) as nat, to_layer, skip, only);
        let prev = render_order(ids, (k - 1) as nat, to_layer, skip, only);
        let r = render_order(ids, k, to_layer, skip, only);
        let i0 = ids.len() - k;
        assert(r == prev || r == prev.push(i0));
        assert forall|x: int| prev.contains(x) implies r.contains(x) by {
            let m = choose|m: int| 0 <= m < prev.len() && prev[m] == x;
            assert(r[m] == x);
        }
        if r == prev.push(i0) && r != prev {
            assert(!stopped_before(ids, (k - 1) as nat, to_layer));
            assert forall|m: int, j: int|
                #![trigger r[m], ids[j]]
                0 <= m < r.len() && r[m] <= j < ids.len() implies to_layer != Some(ids[j]) by {
                if m < prev.len() {
                    assert(r[m] == prev[m]);
                } else if j > i0 && to_layer == Some(ids[j]) {
                    assert(stopped_before(ids, (k - 1) as nat, to_layer));
                }
            }
        }
        assert forall|i: int|
            #![trigger ids[i]]
            ids.len() - k <= i < ids.len() && k <= ids.len() && !skip.contains(ids[i]) && (
            only.len() == 0 || only.contains(ids[i])) && (forall|j: int|
                i <= j < ids.len() ==> to_layer != Some(#[trigger] ids[j])) implies r.contains(i) by {
            if i == i0 {
                if stopped_before(ids, (k - 1) as nat, to_layer) {
                    let j = choose|j: int|
                        ids.len() - (k - 1) <= j < ids.len() && to_layer == Some(ids[j]);
                    assert(to_layer != Some(ids[j]));
                }
                assert(to_layer != Some(ids[i0]));
                assert(r == prev.push(i0));
                assert(r[prev.len() as int] == i0);
            } else {
                assert(prev.contains(i));
            }
        }
    }
}

proof fn lemma_render_order_stopped(
    ids: Seq<LayerId>,
    k: nat,
    n: nat,
    to_layer: Option<LayerId>,
    skip: Seq<LayerId>,
    only: Seq<LayerId>,
)
    requires
        1 <= k <= n,
        n == ids.len(),
        to_layer == Some(ids[n - k]),
        !stopped_before(ids, (k - 1) as nat, to_layer),
    ensures
        render_order(ids, n, to_layer, skip, only) == render_order(
            ids,
            (k - 1) as nat,
            to_layer,
            skip,
            only,
        ),
    decreases n - k,
{
    if k < n {
        lemma_render_order_stopped_after(ids, k, n, to_layer, skip, only);
    }
}

proof fn lemma_render_order_stopped_after(
    ids: Seq<LayerId>,
    k: nat,
    m: nat,
    to_layer: Option<LayerId>,
    skip: Seq<LayerId>,
    only: Seq<LayerId>,
)
    requires
        1 <= k <= m <= ids.len(),
        to_layer == Some(ids[ids.len() - k]),
    ensures
        render_order(ids, m, to_layer, skip, only) == render_order(
            ids,
            (k - 1) as nat,
            to_layer,
            skip,
            only,
        ),
    decreases m - k,
{
    if m > k {
        lemma_render_order_stopped_after(ids, k, (m - 1) as nat, to_layer, skip, only);
        let j = ids.len() - k;
        assert(ids.len() - (m - 1) <= j < ids.len());
        assert(stopped_before(ids, (m - 1) as nat, to_layer));
    }
}

/// A mutable reference to the item at `i`.
/// A mutable reference to the item at `i`.
pub(crate) fn vec_index_mut<T>(v: &mut Vec<T>, i: usize) -> (item: &mut T)
    requires
        i < old(v)@.len(),
    ensures
        *item == old(v)@[i as int],
        final(v)@ == old(v)@.update(i as int, *final(item)),
{
    &mut v[i]
}

fn contains_id(ids: &Vec<LayerId>, id: LayerId) -> (b: bool)
    ensures
        b == ids@.contains(id),
{
    let mut i: usize = 0;
    while i < ids.len()
        invariant
            i <= ids@.len(),
            forall|j: int| 0 <= j < i ==> ids@[j] != id,
        decreases ids@.len() - i,
    {
        if ids[i] == id {
            assert(ids@[i as int] == id);
            return true;
        }
        i = i + 1;
    }
    false
}

/// No shape among the first `n` layers passes `inside`.
pub open spec fn none_inside<C, F: Fn(&Shape<C>) -> bool>(
    layers: Seq<Layer<C>>,
    inside: F,
    n: int,
) -> bool {
    forall|j: int|
        0 <= j < n ==> ((#[trigger] layers[j]).value matches LayerType::Shape(s) ==> inside.ensures(
            (&s,),
            false,
        ))
}

/// The drawing calls for a layer: those of its shape, none for a folder.
pub open spec fn layer_draw_steps<C>(l: LayerType<C>) -> Seq<DrawStep<C>> {
    match l {
        LayerType::Shape(s) => draw_steps(s.path@, s.color),
        LayerType::Folder => Seq::empty(),
    }
}

/// A layer that can be drawn: a folder, or a shape whose path is one point and whole curves,
/// maybe with two points left over.
pub open spec fn drawable<C>(l: LayerType<C>) -> bool {
    match l {
        LayerType::Shape(s) => s.path@.len() % 3 != 0,
        LayerType::Folder => true,
    }
}

impl<C: Copy> LayerType<C> {
    /// The drawing calls that draw this layer.
    pub fn render(&self) -> (steps: Vec<DrawStep<C>>)
        requires
            drawable(*self),
        ensures
            steps@ == layer_draw_steps(*self),
    {
        match self {
            LayerType::Shape(shape) => shape.render(),
            LayerType::Folder => Vec::new(),
        }
    }
}

impl<C> LayerType<C> {
    /// `"Shape"` or `"Folder"`.
    pub fn type_string(&self) -> (s: String)
        ensures
            s@ == layer_kind_name(*self),
    {
        proof {
            reveal_strlit("Shape");
            reveal_strlit("Folder");
        }
        match self {
            LayerType::Shape(_) => String::from_str("Shape"),
            LayerType::Folder => String::from_str("Folder"),
        }
    }
}

impl<C> Scene<C> {
    /// The layers, front to back.
    pub closed spec fn layers(&self) -> Seq<Layer<C>> {
        self.layers@
    }

    /// The background colour.
    pub closed spec fn spec_background(&self) -> Rgba {
        self.background
    }

    /// A scene holds no more layers than a `usize` counts.
    pub proof fn lemma_layers_fit(&self)
        ensures
            self.layers().len() <= usize::MAX,
    {
        assert(self.layers@.len() == self.layers.len());
    }
}

impl<C: Copy> Scene<C> {

    /// An empty scene on a transparent white background.
    pub fn new() -> (s: Scene<C>)
        ensures
            s.spec_background() == (Rgba { r: 255, g: 255, b: 255, a: 0 }),
            s.layers().len() == 0,
    {
        Scene { background: Rgba::new(255, 255, 255, 0), layers: Vec::new() }
    }

    /// A scene of `layers`, front to back, over `background`.
    pub fn from_layers(background: Rgba, layers: Vec<Layer<C>>) -> (s: Scene<C>)
        ensures
            s.spec_background() == background,
            s.layers() == layers@,
    {
        Scene { background, layers }
    }

    /// The identifiers of the layers, front to back.
    pub fn layer_ids(&self) -> (ids: Vec<LayerId>)
        ensures
            ids@ == layer_ids_of(self.layers()),
    {
        let mut ids: Vec<LayerId> = Vec::new();
        let mut i: usize = 0;
        while i < self.layers.len()
            invariant
                i <= self.layers@.len(),
                ids@ == layer_ids_of(self.layers@.subrange(0, i as int)),
            decreases self.layers@.len() - i,
        {
            ids.push(self.layers[i].id);
            assert(layer_ids_of(self.layers@.subrange(0, i + 1)) =~= layer_ids_of(
                self.layers@.subrange(0, i as int),
            ).push(self.layers@[i as int].id));
            i = i + 1;
        }
        assert(self.layers@.subrange(0, self.layers@.len() as int) =~= self.layers@);
        ids
    }

    /// Number of layers.
    pub fn layer_count(&self) -> (n: usize)
        ensures
            n == self.layers().len(),
    {
        self.layers.len()
    }

    /// The layer at `index` (front to back).
    pub fn layer_at(&self, index: usize) -> (l: &Layer<C>)
        requires
            index < self.layers().len(),
        ensures
            *l == self.layers()[index as int],
    {
        &self.layers[index]
    }

    /// Index of the first layer with identifier `id`.
    pub fn layer_position(&self, id: LayerId) -> (res: Option<usize>)
        ensures
            match res {
                Some(i) => is_first_layer(self.layers(), id, i as int),
                None => has_no_layer(self.layers(), id),
            },
    {
        let mut i: usize = 0;
        while i < self.layers.len()
            invariant
                i <= self.layers@.len(),
                forall|j: int| 0 <= j < i ==> self.layers@[j].id != id,
            decreases self.layers@.len() - i,
        {
            if self.layers[i].id == id {
                return Some(i);
            }
            i = i + 1;
        }
        None
    }

    /// Removes every layer with identifier `id`, keeping the order of the others.
    pub fn layer_delete(&mut self, id: LayerId)
        ensures
            final(self).spec_background() == old(self).spec_background(),
            final(self).layers() == old(self).layers().filter(|l: Layer<C>| l.id != id),
    {
        let ghost before = self.layers@;
        let ghost pred = |l: Layer<C>| l.id != id;
        let mut i: usize = 0;
        let ghost mut j: int = 0;
        while i < self.layers.len()
            invariant
                0 <= i <= j <= before.len(),
                i <= self.layers@.len(),
                self.layers@.len() - i == before.len() - j,
                self.background == old(self).background,
                self.layers@.subrange(0, i as int) == before.subrange(0, j).filter(pred),
                forall|k: int|
                    0 <= k < self.layers@.len() - i ==> #[trigger] self.layers@[i + k] == before[j
                        + k],
                pred == (|l: Layer<C>| l.id != id),
            decreases self.layers@.len() - i,
        {
            proof {
                assert(before.subrange(0, j + 1).drop_last() =~= before.subrange(0, j));
                assert(before[j] == self.layers@[i + 0]);
                reveal_with_fuel(Seq::<_>::filter, 1);
            }
            if self.layers[i].id == id {
                let ghost prev = self.layers@;
                self.layers.remove(i);
                proof {
                    assert(self.layers@.subrange(0, i as int) =~= prev.subrange(0, i as int));
                    assert forall|k: int|
                        0 <= k < self.layers@.len() - i implies #[trigger] self.layers@[i + k]
                        == before[j + 1 + k] by {
                        assert(prev[i + (k + 1)] == before[j + (k + 1)]);
                    }
                    j = j + 1;
                }
            } else {
                proof {
                    assert(self.layers@.subrange(0, i + 1) =~= self.layers@.subrange(
                        0,
                        i as int,
                    ).push(before[j]));
                    assert forall|k: int|
                        0 <= k < self.layers@.len() - (i + 1) implies #[trigger] self.layers@[(i
                        + 1) + k] == before[(j + 1) + k] by {
                        assert(self.layers@[i + (k + 1)] == before[j + (k + 1)]);
                    }
                    j = j + 1;
                }
                i = i + 1;
            }
        }
        proof {
            assert(j == before.len());
            assert(self.layers@ =~= self.layers@.subrange(0, i as int));
            assert(before.subrange(0, j) =~= before);
        }
    }

    fn move_item(&mut self, from: usize, to: usize)
        requires
            from < old(self).layers@.len(),
            to < old(self).layers@.len(),
        ensures
            final(self).spec_background() == old(self).spec_background(),
            final(self).layers@ == seq_move(old(self).layers@, from as int, to as int),
    {
        let layer = self.layers.remove(from);
        self.layers.insert(to, layer);
    }

    /// Moves the layer `id` one step towards the front.
    pub fn layer_move_up(&mut self, id: LayerId)
        requires
            has_layer(old(self).layers(), id),
        ensures
            final(self).spec_background() == old(self).spec_background(),
            ({
                let p = first_layer(old(self).layers(), id);
                final(self).layers() == if p > 0 {
                    seq_swap(old(self).layers(), p, p - 1)
                } else {
                    old(self).layers()
                }
            }),
    {
        let index = self.position_of_present(id);
        if index > 0 {
            let ghost before = self.layers@;
            self.move_item(index, index - 1);
            assert(self.layers@ =~= seq_swap(before, index as int, index - 1));
        }
    }

    /// Moves the layer `id` to the front.
    pub fn layer_move_top(&mut self, id: LayerId)
        requires
            has_layer(old(self).layers(), id),
        ensures
            final(self).spec_background() == old(self).spec_background(),
            ({
                let p = first_layer(old(self).layers(), id);
                final(self).layers() == seq_move(old(self).layers(), p, 0)
            }),
    {
        let index = self.position_of_present(id);
        if index > 0 {
            self.move_item(index, 0);
        } else {
            assert(self.layers@ =~= seq_move(self.layers@, 0, 0));
        }
    }

    /// Moves the layer `id` one step towards the back.
    pub fn layer_move_down(&mut self, id: LayerId)
        requires
            has_layer(old(self).layers(), id),
        ensures
            final(self).spec_background() == old(self).spec_background(),
            ({
                let p = first_layer(old(self).layers(), id);
                final(self).layers() == if p < old(self).layers().len() - 1 {
                    seq_swap(old(self).layers(), p, p + 1)
                } else {
                    old(self).layers()
                }
            }),
    {
        let index = self.position_of_present(id);
        if index < self.layers.len() - 1 {
            let ghost before = self.layers@;
            self.move_item(index, index + 1);
            assert(self.layers@ =~= seq_swap(before, index as int, index + 1));
        }
    }

    fn position_of_present(&self, id: LayerId) -> (i: usize)
        requires
            has_layer(self.layers@, id),
        ensures
            is_first_layer(self.layers@, id, i as int),
            i as int == first_layer(self.layers@, id),
    {
        match self.layer_position(id) {
            Some(i) => {
                proof {
                    lemma_first_layer_unique(self.layers@, id, i as int);
                }
                i
            },
            None => {
                assert(false);
                0
            },
        }
    }

    /// Moves the layer `id_to_move` so that it ends up at `index`; fails where there is no
    /// such layer.
    pub fn layer_move_at(&mut self, id_to_move: LayerId, index: usize) -> (res: Result<(), String>)
        requires
            has_layer(old(self).layers(), id_to_move) ==> index < old(self).layers().len(),
        ensures
            final(self).spec_background() == old(self).spec_background(),
            match res {
                Ok(()) => has_layer(old(self).layers(), id_to_move) && final(self).layers()
                    == seq_move(
                    old(self).layers(),
                    first_layer(old(self).layers(), id_to_move),
                    index as int,
                ),
                Err(e) => has_no_layer(old(self).layers(), id_to_move) && final(self).layers()
                    == old(self).layers() && e@ == "id_to_move not found"@,
            },
    {
        match self.layer_position(id_to_move) {
            Some(index_to_move) => {
                proof {
                    lemma_first_layer_unique(self.layers@, id_to_move, index_to_move as int);
                }
                self.move_item(index_to_move, index);
                Ok(())
            },
            None => {
                proof {
                    reveal_strlit("id_to_move not found");
                }
                Err(String::from_str("id_to_move not found"))
            },
        }
    }

    /// Moves the layer `id_to_move` to where the layer `id_position` is; fails where either
    /// layer is missing.
    pub fn layer_move_before(&mut self, id_to_move: LayerId, id_position: LayerId) -> (res:
        Result<(), String>)
        ensures
            final(self).spec_background() == old(self).spec_background(),
            match res {
                Ok(()) => has_layer(old(self).layers(), id_to_move) && has_layer(
                    old(self).layers(),
                    id_position,
                ) && final(self).layers() == seq_move(
                    old(self).layers(),
                    first_layer(old(self).layers(), id_to_move),
                    first_layer(old(self).layers(), id_position),
                ),
                Err(e) => final(self).layers() == old(self).layers() && ((has_no_layer(
                    old(self).layers(),
                    id_position,
                ) && e@ == "id_position not found"@) || (has_layer(
                    old(self).layers(),
                    id_position,
                ) && has_no_layer(old(self).layers(), id_to_move) && e@
                    == "id_to_move not found"@)),
            },
    {
        match self.layer_position(id_position) {
            Some(index_position) => {
                proof {
                    lemma_first_layer_unique(self.layers@, id_position, index_position as int);
                }
                self.layer_move_at(id_to_move, index_position)
            },
            None => {
                proof {
                    reveal_strlit("id_position not found");
                }
                Err(String::from_str("id_position not found"))
            },
        }
    }

    /// Puts `shape` behind all the layers, as a layer named `"Shape {id}"`. A shape with the
    /// null identifier gets a new one from `layer_ids`, and its points with the null identifier
    /// get new ones from `coord_ids`. Returns the identifier of the shape.
    pub fn shape_insert(
        &mut self,
        shape: Shape<C>,
        layer_ids: &mut IdGenerator,
        coord_ids: &mut IdGenerator,
    ) -> (id: LayerId)
        ensures
            final(self).spec_background() == old(self).spec_background(),
            shape.id.spec_value() == 0 ==> id.spec_value() == old(layer_ids).peek()
                && final(layer_ids).peek() == counter_after(old(layer_ids).peek(), 1),
            shape.id.spec_value() != 0 ==> id == shape.id
                && final(layer_ids).peek() == old(layer_ids).peek(),
            final(coord_ids).peek() == counter_after(old(coord_ids).peek(), null_count(shape.path@)),
            final(self).layers().len() == old(self).layers().len() + 1,
            final(self).layers().drop_last() == old(self).layers(),
            ({
                let l = final(self).layers().last();
                &&& l.id == id
                &&& l.name@ == shape_layer_name(id.spec_value() as nat)
                &&& l.value matches LayerType::Shape(s) && s.id == id && s.color == shape.color
                    && ids_refreshed(shape.path@, s.path@, old(coord_ids).peek())
            }),
    {
        let mut shape = shape;
        let null = LayerId::null();
        proof {
            LayerId::lemma_value_injective(shape.id, null);
            reveal_with_fuel(counter_after, 2);
        }
        if shape.id == null {
            shape.id.update(layer_ids);
        }
        let id = shape.id;
        shape.curves_path_update_id(coord_ids);
        let mut name = String::from_str("Shape ");
        proof {
            reveal_strlit("Shape ");
        }
        push_decimal(&mut name, id.value());
        let ghost before = self.layers@;
        self.layers.push(Layer { id, value: LayerType::Shape(shape), name });
        assert(self.layers@.drop_last() =~= before);
        id
    }

    /// What the first layer with identifier `id` holds.
    fn layer_select(&self, id: LayerId) -> (res: Option<&LayerType<C>>)
        ensures
            match res {
                Some(v) => exists|i: int|
                    is_first_layer(self.layers(), id, i) && self.layers()[i].value == *v,
                None => has_no_layer(self.layers(), id),
            },
    {
        match self.layer_position(id) {
            Some(i) => Some(&self.layers[i].value),
            None => None,
        }
    }

    /// What the first layer with identifier `id` holds, to change in place. Nothing else of
    /// the scene changes.
    fn layer_select_mut(&mut self, id: LayerId) -> (res: Option<&mut LayerType<C>>)
        ensures
            final(self).spec_background() == old(self).spec_background(),
            match res {
                Some(v) => exists|i: int|
                    is_first_layer(old(self).layers(), id, i) && old(self).layers()[i].value == *v
                        && final(self).layers() == old(self).layers().update(
                        i,
                        Layer {
                            id: old(self).layers()[i].id,
                            name: old(self).layers()[i].name,
                            value: *final(v),
                        },
                    ),
                None => has_no_layer(old(self).layers(), id) && final(self).layers() == old(
                    self,
                ).layers(),
            },
    {
        match self.layer_position(id) {
            Some(i) => {
                let layer = vec_index_mut(&mut self.layers, i);
                Some(&mut layer.value)
            },
            None => None,
        }
    }

    /// The shape of the first layer with identifier `id`, if that layer holds a shape.
    pub fn shape_select(&self, id: LayerId) -> (res: Option<&Shape<C>>)
        ensures
            match res {
                Some(s) => exists|i: int|
                    is_first_layer(self.layers(), id, i) && self.layers()[i].value
                        == LayerType::Shape(*s),
                None => has_no_layer(self.layers(), id) || exists|i: int|
                    is_first_layer(self.layers(), id, i) && self.layers()[i].value
                        == LayerType::<C>::Folder,
            },
    {
        match self.layer_select(id) {
            Some(LayerType::Shape(shape)) => Some(shape),
            _ => None,
        }
    }

    /// The shape of the first layer with identifier `id`, to change in place, if that layer
    /// holds a shape. Nothing else of the scene changes.
    pub fn shape_select_mut(&mut self, id: LayerId) -> (res: Option<&mut Shape<C>>)
        ensures
            final(self).spec_background() == old(self).spec_background(),
            match res {
                Some(s) => exists|i: int|
                    is_first_layer(old(self).layers(), id, i) && old(self).layers()[i].value
                        == LayerType::Shape(*s) && final(self).layers() == old(self).layers().update(
                        i,
                        Layer {
                            id: old(self).layers()[i].id,
                            name: old(self).layers()[i].name,
                            value: LayerType::Shape(*final(s)),
                        },
                    ),
                None => final(self).layers() == old(self).layers() && (has_no_layer(
                    old(self).layers(),
                    id,
                ) || exists|i: int|
                    is_first_layer(old(self).layers(), id, i) && old(self).layers()[i].value
                        == LayerType::<C>::Folder),
            },
    {
        match self.layer_select_mut(id) {
            Some(LayerType::Shape(shape)) => Some(shape),
            _ => None,
        }
    }

    /// The shape of the first layer, front to back, that holds a shape for which `inside`
    /// holds (the shape that holds a point, where `inside` tests that point).
    pub fn shape_select_contains<F: Fn(&Shape<C>) -> bool>(&self, inside: &F) -> (res: Option<
        &Shape<C>,
    >)
        requires
            forall|s: &Shape<C>| #[trigger] inside.requires((s,)),
        ensures
            match res {
                Some(s) => exists|i: int|
                    0 <= i < self.layers().len() && self.layers()[i].value == LayerType::Shape(*s)
                        && inside.ensures((s,), true) && none_inside(
                        self.layers(),
                        *inside,
                        i,
                    ),
                None => none_inside(self.layers(), *inside, self.layers().len() as int),
            },
    {
        let mut i: usize = 0;
        while i < self.layers.len()
            invariant
                i <= self.layers@.len(),
                forall|s: &Shape<C>| #[trigger] inside.requires((s,)),
                none_inside(self.layers@, *inside, i as int),
            decreases self.layers@.len() - i,
        {
            match &self.layers[i].value {
                LayerType::Shape(shape) => {
                    if inside(shape) {
                        assert(self.layers()[i as int].value == LayerType::Shape(*shape));
                        assert(none_inside(self.layers(), *inside, i as int));
                        return Some(shape);
                    }
                },
                LayerType::Folder => {},
            }
            i = i + 1;
        }
        None
    }

    /// The shape of the first layer, front to back, that holds a shape for which `inside`
    /// holds, to change in place. Nothing else of the scene changes.
    pub fn shape_select_contains_mut<F: Fn(&Shape<C>) -> bool>(&mut self, inside: &F) -> (res:
        Option<&mut Shape<C>>)
        requires
            forall|s: &Shape<C>| #[trigger] inside.requires((s,)),
        ensures
            final(self).spec_background() == old(self).spec_background(),
            match res {
                Some(s) => exists|i: int|
                    0 <= i < old(self).layers().len() && old(self).layers()[i].value
                        == LayerType::Shape(*s) && inside.ensures((&*s,), true) && #[trigger] none_inside(
                        old(self).layers(),
                        *inside,
                        i,
                    ) && final(self).layers() == old(self).layers().update(
                        i,
                        Layer {
                            id: old(self).layers()[i].id,
                            name: old(self).layers()[i].name,
                            value: LayerType::Shape(*final(s)),
                        },
                    ),
                None => final(self).layers() == old(self).layers() && none_inside(
                    old(self).layers(),
                    *inside,
                    old(self).layers().len() as int,
                ),
            },
    {
        match self.first_inside(inside) {
            Some(k) => {
                assert(none_inside(self.layers(), *inside, k as int));
                let layer = vec_index_mut(&mut self.layers, k);
                match &mut layer.value {
                    LayerType::Shape(shape) => Some(shape),
                    LayerType::Folder => {
                        assert(false);
                        None
                    },
                }
            },
            None => None,
        }
    }

    /// Index of the first layer, front to back, that holds a shape for which `inside` holds.
    fn first_inside<F: Fn(&Shape<C>) -> bool>(&self, inside: &F) -> (res: Option<usize>)
        requires
            forall|s: &Shape<C>| #[trigger] inside.requires((s,)),
        ensures
            match res {
                Some(k) => k < self.layers@.len() && self.layers@[k as int].value is Shape
                    && inside.ensures((&self.layers@[k as int].value->Shape_0,), true)
                    && none_inside(self.layers@, *inside, k as int),
                None => none_inside(self.layers@, *inside, self.layers@.len() as int),
            },
    {
        let mut i: usize = 0;
        while i < self.layers.len()
            invariant
                i <= self.layers@.len(),
                forall|s: &Shape<C>| #[trigger] inside.requires((s,)),
                none_inside(self.layers@, *inside, i as int),
            decreases self.layers@.len() - i,
        {
            match &self.layers[i].value {
                LayerType::Shape(shape) => {
                    if inside(shape) {
                        return Some(i);
                    }
                },
                LayerType::Folder => {},
            }
            i = i + 1;
        }
        None
    }

    /// Replaces the shape of the first layer whose identifier is the shape's own.
    pub fn shape_put(&mut self, shape: Shape<C>)
        requires
            has_layer(old(self).layers(), shape.id),
        ensures
            final(self).spec_background() == old(self).spec_background(),
            ({
                let p = first_layer(old(self).layers(), shape.id);
                final(self).layers() == old(self).layers().update(
                    p,
                    Layer {
                        id: old(self).layers()[p].id,
                        name: old(self).layers()[p].name,
                        value: LayerType::Shape(shape),
                    },
                )
            }),
    {
        let index = self.position_of_present(shape.id);
        let layer = self.layers.remove(index);
        let Layer { id, name, value: _ } = layer;
        self.layers.insert(index, Layer { id, name, value: LayerType::Shape(shape) });
    }

    /// One line per layer, front to back: its identifier, kind and name, at level 0.
    pub fn get_tree_view(&self) -> (res: Vec<TreeViewModel>)
        ensures
            res@.len() == self.layers().len(),
            forall|i: int|
                0 <= i < res@.len() ==> {
                    &&& (#[trigger] res@[i]).layer_id == self.layers()[i].id.spec_value()
                    &&& res@[i].name@ == self.layers()[i].name@
                    &&& res@[i].layer_type@ == layer_kind_name(self.layers()[i].value)
                    &&& res@[i].level == 0
                },
    {
        let mut res: Vec<TreeViewModel> = Vec::new();
        let mut i: usize = 0;
        while i < self.layers.len()
            invariant
                i <= self.layers@.len(),
                res@.len() == i,
                forall|k: int|
                    0 <= k < i ==> {
                        &&& (#[trigger] res@[k]).layer_id == self.layers@[k].id.spec_value()
                        &&& res@[k].name@ == self.layers@[k].name@
                        &&& res@[k].layer_type@ == layer_kind_name(self.layers@[k].value)
                        &&& res@[k].level == 0
                    },
            decreases self.layers@.len() - i,
        {
            let layer = &self.layers[i];
            res.push(
                TreeViewModel {
                    layer_id: layer.id.value(),
                    name: layer.name.clone(),
                    layer_type: layer.value.type_string(),
                    level: 0,
                },
            );
            i = i + 1;
        }
        res
    }

    /// Indices of the layers to draw, in drawing order (back to front), as `render_order`
    /// says: drawing stops at `options.to_layer`, skips `options.skip_layers`, and keeps only
    /// `options.only_layers` where that list is not empty.
    pub fn layers_to_render(&self, options: &RenderOption) -> (res: Vec<usize>)
        ensures
            res@.map_values(|i: usize| i as int) == render_order(
                layer_ids_of(self.layers()),
                self.layers().len(),
                options.to_layer,
                options.skip_layers@,
                options.only_layers@,
            ),
            forall|m: int|
                0 <= m < res@.len() ==> {
                    &&& (#[trigger] res@[m]) < self.layers().len()
                    &&& !options.skip_layers@.contains(self.layers()[res@[m] as int].id)
                    &&& (options.only_layers@.len() > 0 ==> options.only_layers@.contains(
                        self.layers()[res@[m] as int].id,
                    ))
                },
    {
        let ghost ids = layer_ids_of(self.layers@);
        let n = self.layers.len();
        let mut res: Vec<usize> = Vec::new();
        let mut k: usize = 0;
        while k < n
            invariant
                n == self.layers@.len(),
                ids == layer_ids_of(self.layers@),
                k <= n,
                res@.map_values(|i: usize| i as int) == render_order(
                    ids,
                    k as nat,
                    options.to_layer,
                    options.skip_layers@,
                    options.only_layers@,
                ),
                !stopped_before(ids, k as nat, options.to_layer),
            decreases n - k,
        {
            let i = n - 1 - k;
            let id = self.layers[i].id;
            assert(ids[i as int] == id);
            if let Some(to_layer) = options.to_layer {
                if id == to_layer {
                    proof {
                        lemma_render_order_stopped(
                            ids,
                            (k + 1) as nat,
                            n as nat,
                            options.to_layer,
                            options.skip_layers@,
                            options.only_layers@,
                        );
                        self.lemma_render_indices(options, res@);
                    }
                    return res;
                }
            }
            let skip = contains_id(&options.skip_layers, id);
            if !skip && (options.only_layers.len() == 0 || contains_id(&options.only_layers, id)) {
                res.push(i);
                assert(res@.map_values(|i: usize| i as int) =~= render_order(
                    ids,
                    k as nat,
                    options.to_layer,
                    options.skip_layers@,
                    options.only_layers@,
                ).push(i as int));
            }
            proof {
                assert(!stopped_before(ids, (k + 1) as nat, options.to_layer)) by {
                    if stopped_before(ids, (k + 1) as nat, options.to_layer) {
                        let j = choose|j: int|
                            ids.len() - (k + 1) <= j < ids.len() && options.to_layer == Some(
                                ids[j],
                            );
                        if j != i {
                            assert(stopped_before(ids, k as nat, options.to_layer));
                        }
                    }
                }
            }
            k = k + 1;
        }
        proof {
            self.lemma_render_indices(options, res@);
        }
        res
    }

    /// What `lemma_render_order_respects_options` says, for the indices of this scene.
    proof fn lemma_render_indices(&self, options: &RenderOption, res: Seq<usize>)
        requires
            res.map_values(|i: usize| i as int) == render_order(
                layer_ids_of(self.layers()),
                self.layers().len(),
                options.to_layer,
                options.skip_layers@,
                options.only_layers@,
            ),
        ensures
            forall|m: int|
                0 <= m < res.len() ==> {
                    &&& (#[trigger] res[m]) < self.layers().len()
                    &&& !options.skip_layers@.contains(self.layers()[res[m] as int].id)
                    &&& (options.only_layers@.len() > 0 ==> options.only_layers@.contains(
                        self.layers()[res[m] as int].id,
                    ))
                },
    {
        let ids = layer_ids_of(self.layers());
        let r = render_order(ids, self.layers().len(), options.to_layer, options.skip_layers@, options.only_layers@);
        lemma_render_order_respects_options(ids, self.layers().len(), options.to_layer, options.skip_layers@, options.only_layers@);
        assert forall|m: int| 0 <= m < res.len() implies {
            &&& (#[trigger] res[m]) < self.layers().len()
            &&& !options.skip_layers@.contains(self.layers()[res[m] as int].id)
            &&& (options.only_layers@.len() > 0 ==> options.only_layers@.contains(
                self.layers()[res[m] as int].id,
            ))
        } by {
            assert(r[m] == res[m] as int);
            assert(ids[r[m]] == self.layers()[res[m] as int].id);
        }
    }
}

}
