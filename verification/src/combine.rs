use vstd::prelude::*;

use crate::boolean::{ShapeDifference, ShapeIntersection};
use crate::commands::shape_found;
use crate::ids::{IdGenerator, LayerId};
use crate::scene::{
    first_layer, is_first_layer, lemma_first_layer_unique, shape_layer_name, Layer, LayerType, Scene,
};
use crate::shape::{counter_after, ids_refreshed, null_count, DbCoord, Shape};

verus! {

/// The layers without those with identifier `id`.
pub open spec fn without<C>(layers: Seq<Layer<C>>, id: LayerId) -> Seq<Layer<C>> {
    layers.filter(|l: Layer<C>| l.id != id)
}

/// Number of points with the null identifier in the paths of the first `k` shapes.
pub open spec fn nulls_before<C>(shapes: Seq<Shape<C>>, k: nat) -> nat
    decreases k,
{
    if k == 0 {
        0
    } else {
        nulls_before(shapes, (k - 1) as nat) + null_count(shapes[k - 1].path@)
    }
}

/// Taking `a` identifiers and then `b` more is taking `a + b`.
proof fn lemma_counter_after_add(start: nat, a: nat, b: nat)
    ensures
        counter_after(counter_after(start, a), b) == counter_after(start, a + b),
    decreases b,
{
    if b > 0 {
        lemma_counter_after_add(start, a, (b - 1) as nat);
        assert((a + b - 1) as nat == a + (b - 1) as nat);
    }
}

/// `after` is `before` with the shape of the first layer `a` given the path `path`, followed
/// by one new layer per shape of `extra`, in order, as inserting them does: with the
/// identifiers `ids`, named after them, with the colors of those shapes and their paths,
/// points with the null identifier taking new ones counted from `start`.
pub open spec fn replaced_and_added<C>(
    before: Seq<Layer<C>>,
    after: Seq<Layer<C>>,
    a: LayerId,
    path: Seq<DbCoord<C>>,
    extra: Seq<Shape<C>>,
    ids: Seq<LayerId>,
    start: nat,
) -> bool {
    let p = first_layer(before, a);
    &&& after.len() == before.len() + extra.len()
    &&& ids.len() == extra.len()
    &&& after[p].id == before[p].id
    &&& after[p].name == before[p].name
    &&& after[p].value is Shape
    &&& after[p].value->Shape_0.id == before[p].value->Shape_0.id
    &&& after[p].value->Shape_0.color == before[p].value->Shape_0.color
    &&& after[p].value->Shape_0.path@ == path
    &&& forall|q: int| 0 <= q < before.len() && q != p ==> after[q] == before[q]
    &&& forall|k: int|
        0 <= k < extra.len() ==> {
            &&& (#[trigger] after[before.len() + k]).id == ids[k]
            &&& after[before.len() + k].name@ == shape_layer_name(ids[k].spec_value() as nat)
            &&& after[before.len() + k].value is Shape
            &&& after[before.len() + k].value->Shape_0.id == ids[k]
            &&& after[before.len() + k].value->Shape_0.color == extra[k].color
            &&& ids_refreshed(
                extra[k].path@,
                after[before.len() + k].value->Shape_0.path@,
                counter_after(start, nulls_before(extra, k as nat)),
            )
        }
}

/// Layer `q` is the same in both.
spec fn same_at<C>(x: Seq<Layer<C>>, y: Seq<Layer<C>>, q: int) -> bool {
    x[q] == y[q]
}

/// A copy of `path`.
fn copy_path<C: Copy>(path: &Vec<DbCoord<C>>) -> (res: Vec<DbCoord<C>>)
    ensures
        res@ == path@,
{
    let mut res: Vec<DbCoord<C>> = Vec::new();
    let mut i: usize = 0;
    while i < path.len()
        invariant
            i <= path@.len(),
            res@ == path@.subrange(0, i as int),
        decreases path@.len() - i,
    {
        res.push(path[i]);
        assert(res@ =~= path@.subrange(0, i + 1));
        i = i + 1;
    }
    assert(path@.subrange(0, path@.len() as int) =~= path@);
    res
}

impl<C: Copy> Scene<C> {
    /// Gives the shape of layer `a` the path of the first of `shapes` and puts the others
    /// behind all layers, returning their identifiers.
    fn replace_and_add(
        &mut self,
        a: LayerId,
        shapes: Vec<Shape<C>>,
        layer_ids: &mut IdGenerator,
        coord_ids: &mut IdGenerator,
    ) -> (ids: Vec<LayerId>)
        requires
            shape_found(old(self).layers(), a),
            shapes@.len() > 0,
        ensures
            final(self).spec_background() == old(self).spec_background(),
            replaced_and_added(
                old(self).layers(),
                final(self).layers(),
                a,
                shapes@[0].path@,
                shapes@.drop_first(),
                ids@,
                old(coord_ids).peek(),
            ),
            final(coord_ids).peek() == counter_after(
                old(coord_ids).peek(),
                nulls_before(shapes@.drop_first(), (shapes@.len() - 1) as nat),
            ),
    {
        let ghost l0 = self.layers();
        let ghost c0 = coord_ids.peek();
        let ghost extra = shapes@.drop_first();
        let mut shapes = shapes;
        let first = shapes.remove(0);
        assert(shapes@ =~= extra);
        let ghost first_path = first.path@;
        proof {
            let w = choose|w: int| is_first_layer(l0, a, w) && l0[w].value is Shape;
            lemma_first_layer_unique(l0, a, w);
        }
        let ghost mut pair: Option<(Shape<C>, Shape<C>)> = None;
        match self.shape_select_mut(a) {
            Some(s) => {
                let ghost s0 = *s;
                s.path = first.path;
                proof {
                    pair = Some((s0, *s));
                }
            },
            None => {
                proof {
                    let w = choose|w: int| is_first_layer(l0, a, w) && l0[w].value is Shape;
                    if crate::scene::has_no_layer(l0, a) {
                        assert(l0[w].id == a);
                    } else {
                        let k = choose|k: int|
                            is_first_layer(l0, a, k) && l0[k].value == LayerType::<C>::Folder;
                        lemma_first_layer_unique(l0, a, k);
                        lemma_first_layer_unique(l0, a, w);
                    }
                }
            },
        }
        proof {
            let (s0, s1) = pair->0;
            let i = choose|i: int|
                is_first_layer(l0, a, i) && l0[i].value == LayerType::Shape(s0)
                    && self.layers() == l0.update(
                    i,
                    Layer { id: l0[i].id, name: l0[i].name, value: LayerType::Shape(s1) },
                );
            lemma_first_layer_unique(l0, a, i);
            assert(s1.path@ == first_path);
            assert(forall|q: int| 0 <= q < l0.len() && q != first_layer(l0, a) ==> same_at(self.layers(), l0, q));
        }
        let ghost l1 = self.layers();
        let mut ids: Vec<LayerId> = Vec::new();
        let mut k: usize = 0;
        let n = shapes.len();
        while k < n
            invariant
                n == shapes@.len(),
                shapes@ == extra,
                k <= n,
                ids@.len() == k,
                self.spec_background() == old(self).spec_background(),
                self.layers().len() == l1.len() + k,
                self.layers().subrange(0, l1.len() as int) == l1,
                c0 == old(coord_ids).peek(),
                coord_ids.peek() == counter_after(c0, nulls_before(extra, k as nat)),
                forall|j: int|
                    0 <= j < k ==> {
                        &&& (#[trigger] self.layers()[l1.len() + j]).id == ids@[j]
                        &&& self.layers()[l1.len() + j].name@ == shape_layer_name(
                            ids@[j].spec_value() as nat,
                        )
                        &&& self.layers()[l1.len() + j].value is Shape
                        &&& self.layers()[l1.len() + j].value->Shape_0.id == ids@[j]
                        &&& self.layers()[l1.len() + j].value->Shape_0.color == extra[j].color
                        &&& ids_refreshed(
                            extra[j].path@,
                            self.layers()[l1.len() + j].value->Shape_0.path@,
                            counter_after(c0, nulls_before(extra, j as nat)),
                        )
                    },
            decreases n - k,
        {
            let shape = copy_shape(&shapes[k]);
            let ghost before = self.layers();
            let ghost ck = coord_ids.peek();
            let id = self.shape_insert(shape, layer_ids, coord_ids);
            ids.push(id);
            proof {
                lemma_counter_after_add(c0, nulls_before(extra, k as nat), null_count(extra[k as int].path@));
                assert(ck == counter_after(c0, nulls_before(extra, k as nat)));
                assert(self.layers().drop_last() == before);
                assert forall|j: int| 0 <= j < l1.len() implies self.layers().subrange(0, l1.len() as int)[j] == l1[j] by {
                    assert(self.layers()[j] == before[j]);
                    assert(before.subrange(0, l1.len() as int)[j] == before[j]);
                }
                assert(self.layers().subrange(0, l1.len() as int) =~= l1);
                assert forall|j: int| 0 <= j < k + 1 implies {
                    &&& (#[trigger] self.layers()[l1.len() + j]).id == ids@[j]
                    &&& self.layers()[l1.len() + j].name@ == shape_layer_name(
                        ids@[j].spec_value() as nat,
                    )
                    &&& self.layers()[l1.len() + j].value is Shape
                    &&& self.layers()[l1.len() + j].value->Shape_0.id == ids@[j]
                    &&& self.layers()[l1.len() + j].value->Shape_0.color == extra[j].color
                    &&& ids_refreshed(
                        extra[j].path@,
                        self.layers()[l1.len() + j].value->Shape_0.path@,
                        counter_after(c0, nulls_before(extra, j as nat)),
                    )
                } by {
                    if j < k {
                        assert(self.layers()[l1.len() + j] == before[l1.len() + j]);
                    }
                }
            }
            k = k + 1;
        }
        proof {
            let p = first_layer(l0, a);
            assert forall|j: int| 0 <= j < l1.len() implies self.layers()[j] == l1[j] by {
                assert(self.layers().subrange(0, l1.len() as int)[j] == self.layers()[j]);
            }
            let after = self.layers();
            assert(after.len() == l0.len() + extra.len());
            assert(after[p] == l1[p]);
            assert(after[p].id == l0[p].id);
            assert(after[p].value->Shape_0.path@ == first_path);
            assert forall|q: int| 0 <= q < l0.len() && q != p implies after[q] == l0[q] by {
                assert(after[q] == l1[q]);
                assert(same_at(l1, l0, q));
            }
        }
        ids
    }

    /// Carries out on the scene what the difference of the shapes `a` and `b` gave: `b`
    /// goes; `a` goes too where it was erased; where new shapes came out, `a` takes the path
    /// of the first and the others are put behind all layers (their identifiers are
    /// returned); nothing changes where `a` would have a hole.
    pub fn apply_difference(
        &mut self,
        a: LayerId,
        b: LayerId,
        result: ShapeDifference<C>,
        layer_ids: &mut IdGenerator,
        coord_ids: &mut IdGenerator,
    ) -> (ids: Vec<LayerId>)
        requires
            shape_found(old(self).layers(), a),
            shape_found(old(self).layers(), b),
            a != b,
            result matches ShapeDifference::New(v) ==> v@.len() > 0,
        ensures
            final(self).spec_background() == old(self).spec_background(),
            match result {
                ShapeDifference::A => final(self).layers() == without(old(self).layers(), b)
                    && ids@.len() == 0,
                ShapeDifference::EraseA => final(self).layers() == without(
                    without(old(self).layers(), b),
                    a,
                ) && ids@.len() == 0,
                ShapeDifference::New(v) => replaced_and_added(
                    without(old(self).layers(), b),
                    final(self).layers(),
                    a,
                    v@[0].path@,
                    v@.drop_first(),
                    ids@,
                    old(coord_ids).peek(),
                ),
                ShapeDifference::AWithBHole => final(self).layers() == old(self).layers()
                    && ids@.len() == 0,
            },
    {
        match result {
            ShapeDifference::A => {
                self.layer_delete(b);
                Vec::new()
            },
            ShapeDifference::EraseA => {
                self.layer_delete(b);
                self.layer_delete(a);
                Vec::new()
            },
            ShapeDifference::New(shapes) => {
                self.layer_delete(b);
                proof {
                    lemma_found_after_delete(old(self).layers(), a, b);
                }
                self.replace_and_add(a, shapes, layer_ids, coord_ids)
            },
            ShapeDifference::AWithBHole => Vec::new(),
        }
    }

    /// Carries out on the scene what the intersection of the shapes `a` and `b` gave: `b`
    /// goes; where `b` was the result `a` takes its path; where new shapes came out, `a`
    /// takes the path of the first and the others are put behind all layers (their
    /// identifiers are returned); `a` goes too where the shapes did not meet.
    pub fn apply_intersection(
        &mut self,
        a: LayerId,
        b: LayerId,
        result: ShapeIntersection<C>,
        layer_ids: &mut IdGenerator,
        coord_ids: &mut IdGenerator,
    ) -> (ids: Vec<LayerId>)
        requires
            shape_found(old(self).layers(), a),
            shape_found(old(self).layers(), b),
            a != b,
            result matches ShapeIntersection::New(v) ==> v@.len() > 0,
        ensures
            final(self).spec_background() == old(self).spec_background(),
            match result {
                ShapeIntersection::A => final(self).layers() == without(old(self).layers(), b)
                    && ids@.len() == 0,
                ShapeIntersection::B => replaced_and_added(
                    without(old(self).layers(), b),
                    final(self).layers(),
                    a,
                    old(self).layers()[first_layer(old(self).layers(), b)].value->Shape_0.path@,
                    Seq::empty(),
                    ids@,
                    old(coord_ids).peek(),
                ),
                ShapeIntersection::New(v) => replaced_and_added(
                    without(old(self).layers(), b),
                    final(self).layers(),
                    a,
                    v@[0].path@,
                    v@.drop_first(),
                    ids@,
                    old(coord_ids).peek(),
                ),
                ShapeIntersection::Nothing => final(self).layers() == without(
                    without(old(self).layers(), b),
                    a,
                ) && ids@.len() == 0,
            },
    {
        match result {
            ShapeIntersection::A => {
                self.layer_delete(b);
                Vec::new()
            },
            ShapeIntersection::B => {
                let ghost l0 = self.layers();
                let b_path = match self.shape_select(b) {
                    Some(s) => copy_path(&s.path),
                    None => {
                        proof {
                            lemma_found_is_selected(l0, b);
                        }
                        Vec::new()
                    },
                };
                proof {
                    lemma_found_is_selected(l0, b);
                }
                let mut holder = Shape::new();
                holder.path = b_path;
                let mut shapes: Vec<Shape<C>> = Vec::new();
                shapes.push(holder);
                self.layer_delete(b);
                proof {
                    lemma_found_after_delete(old(self).layers(), a, b);
                    assert(shapes@.drop_first() =~= Seq::<Shape<C>>::empty());
                }
                self.replace_and_add(a, shapes, layer_ids, coord_ids)
            },
            ShapeIntersection::New(shapes) => {
                self.layer_delete(b);
                proof {
                    lemma_found_after_delete(old(self).layers(), a, b);
                }
                self.replace_and_add(a, shapes, layer_ids, coord_ids)
            },
            ShapeIntersection::Nothing => {
                self.layer_delete(b);
                self.layer_delete(a);
                Vec::new()
            },
        }
    }
}

/// A copy of `s`.
fn copy_shape<C: Copy>(s: &Shape<C>) -> (r: Shape<C>)
    ensures
        r.id == s.id,
        r.color == s.color,
        r.path@ == s.path@,
{
    Shape { id: s.id, path: copy_path(&s.path), color: s.color }
}

/// What `shape_select` finds for a found shape.
proof fn lemma_found_is_selected<C>(layers: Seq<Layer<C>>, id: LayerId)
    requires
        shape_found(layers, id),
    ensures
        is_first_layer(layers, id, first_layer(layers, id)),
        layers[first_layer(layers, id)].value is Shape,
        !crate::scene::has_no_layer(layers, id),
        forall|i: int| #[trigger] is_first_layer(layers, id, i) ==> i == first_layer(layers, id),
{
    let w = choose|w: int| is_first_layer(layers, id, w) && layers[w].value is Shape;
    lemma_first_layer_unique(layers, id, w);
    assert(layers[w].id == id);
    assert forall|i: int| #[trigger] is_first_layer(layers, id, i) implies i == first_layer(layers, id) by {
        lemma_first_layer_unique(layers, id, i);
    }
}

/// Deleting another layer keeps a shape found.
proof fn lemma_found_after_delete<C>(layers: Seq<Layer<C>>, a: LayerId, b: LayerId)
    requires
        shape_found(layers, a),
        a != b,
    ensures
        shape_found(without(layers, b), a),
{
    let i = choose|i: int| is_first_layer(layers, a, i) && layers[i].value is Shape;
    lemma_first_kept(layers, a, b, i);
    let j = choose|j: int|
        is_first_layer(without(layers, b), a, j) && without(layers, b)[j] == layers[i];
    assert(is_first_layer(without(layers, b), a, j) && without(layers, b)[j].value is Shape);
}

/// The first layer with identifier `a` stays first among those with `a` when the layers
/// with another identifier `b` go.
proof fn lemma_first_kept<C>(layers: Seq<Layer<C>>, a: LayerId, b: LayerId, i: int)
    requires
        a != b,
        is_first_layer(layers, a, i),
    ensures
        exists|j: int| is_first_layer(without(layers, b), a, j) && without(layers, b)[j] == layers[i],
    decreases layers.len(),
{
    let pred = |l: Layer<C>| l.id != b;
    let rest = layers.drop_last();
    let fr = rest.filter(pred);
    assert(without(layers, b) == if pred(layers.last()) {
        fr.push(layers.last())
    } else {
        fr
    }) by {
        reveal_with_fuel(Seq::<_>::filter, 1);
    }
    if i < layers.len() - 1 {
        assert(is_first_layer(rest, a, i));
        lemma_first_kept(rest, a, b, i);
        let j = choose|j: int| is_first_layer(without(rest, b), a, j) && without(rest, b)[j] == rest[i];
        assert(is_first_layer(without(layers, b), a, j));
    } else {
        assert(pred(layers.last()));
        assert forall|j: int| 0 <= j < fr.len() implies fr[j].id != a by {
            if fr[j].id == a {
                assert(fr.contains(fr[j]));
                rest.lemma_filter_contains_rev(pred, fr[j]);
                let k = choose|k: int| 0 <= k < rest.len() && rest[k] == fr[j];
                assert(layers[k].id == a);
            }
        }
        let j = fr.len() as int;
        assert(is_first_layer(without(layers, b), a, j));
    }
}

} // verus!
