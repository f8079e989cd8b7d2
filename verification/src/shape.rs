use vstd::prelude::*;

use crate::fill::Rgba;
use crate::ids::{CoordId, IdGenerator, LayerId};
use crate::scene::vec_index_mut;

verus! {

/// A point of a path together with the identifier that ties it to the other points that
/// share its position (a handle that lies on its point has that point's identifier).
/// `C` is the type of the position itself, which the path logic only copies.
#[derive(Debug, Clone, Copy, PartialEq)]
pub struct DbCoord<C> {
    pub id: CoordId,
    pub coord: C,
}

impl<C: Copy> DbCoord<C> {
    /// A point at `coord` with a new identifier taken from `ids`.
    pub fn new(coord: C, ids: &mut IdGenerator) -> (c: DbCoord<C>)
        ensures
            c.coord == coord,
            c.id.spec_value() == old(ids).peek(),
            final(ids).peek() == next_counter(old(ids).peek()),
    {
        DbCoord { id: CoordId::new(ids), coord }
    }

    pub fn coord(&self) -> (c: C)
        ensures
            c == self.coord,
    {
        self.coord
    }
}

/// The counter of a generator after one identifier has been taken from it.
pub open spec fn next_counter(p: nat) -> nat {
    if p == usize::MAX {
        0
    } else {
        p + 1
    }
}

/// Role of a point in a path: the first point, the two handles of a curve, or its end point.
#[derive(Debug, Clone, Copy, PartialEq, Eq, Structural)]
pub enum CoordType {
    P0,
    CP0,
    CP1,
    P1,
}

/// A closed or open path of cubic curves: `path[0]` is the start, then each curve adds its
/// two handles and its end point, so a path of `n` curves has `3 n + 1` points.
#[derive(Debug, Clone, PartialEq)]
pub struct Shape<C> {
    pub id: LayerId,
    pub path: Vec<DbCoord<C>>,
    pub color: Rgba,
}

/// The four points of one curve of a path.
#[derive(Debug)]
pub struct Curve<'a, C> {
    pub p0: &'a DbCoord<C>,
    pub cp0: &'a DbCoord<C>,
    pub cp1: &'a DbCoord<C>,
    pub p1: &'a DbCoord<C>,
}

impl<'a, C> Curve<'a, C> {
    /// Both handles lie on their points, so the curve is a straight line.
    pub fn is_straight(&self) -> (b: bool)
        ensures
            b == (self.p0.id == self.cp0.id && self.cp1.id == self.p1.id),
    {
        self.p0.id == self.cp0.id && self.cp1.id == self.p1.id
    }

    /// The handle of the end point is not on the end point.
    pub fn right_handle_free(&self) -> (b: bool)
        ensures
            b == (self.cp1.id != self.p1.id),
    {
        self.cp1.id != self.p1.id
    }

    /// The handle of the start point is not on the start point.
    pub fn left_handle_free(&self) -> (b: bool)
        ensures
            b == (self.cp0.id != self.p0.id),
    {
        self.cp0.id != self.p0.id
    }
}

/// Role of the point at index `i` of a path.
pub open spec fn coord_type_at(i: int) -> CoordType {
    if i == 0 {
        CoordType::P0
    } else if (i - 1) % 3 == 0 {
        CoordType::CP0
    } else if (i - 1) % 3 == 1 {
        CoordType::CP1
    } else {
        CoordType::P1
    }
}

/// `i` is the first index of the path whose point has identifier `id`.
pub open spec fn is_first_index_of<C>(path: Seq<DbCoord<C>>, id: CoordId, i: int) -> bool {
    &&& 0 <= i < path.len()
    &&& path[i].id == id
    &&& forall|j: int| 0 <= j < i ==> path[j].id != id
}

/// No point of the path has identifier `id`.
pub open spec fn has_no_id<C>(path: Seq<DbCoord<C>>, id: CoordId) -> bool {
    forall|j: int| 0 <= j < path.len() ==> path[j].id != id
}

/// The first and last points of the path are the same point.
pub open spec fn path_closed<C>(path: Seq<DbCoord<C>>) -> bool {
    path.len() > 0 && path[0].id == path[path.len() - 1].id
}

/// Number of curves of a path of `len >= 1` points.
pub open spec fn curve_count(len: nat) -> nat {
    ((len - 1) / 3) as nat
}

/// Deleting the point first found at index `i` can be done without going out of the path.
pub open spec fn delete_defined<C>(path: Seq<DbCoord<C>>, i: int) -> bool {
    match coord_type_at(i) {
        CoordType::P0 => if path_closed(path) {
            path.len() == 4
        } else {
            path.len() >= 3
        },
        CoordType::CP0 => i + 1 < path.len(),
        _ => true,
    }
}

/// The path after deleting the point first found at index `i`:
/// a start point takes its outgoing curve with it (or empties a closed path of one curve),
/// a handle falls back onto its point, and an end point takes its two handles with it.
pub open spec fn path_after_delete<C>(path: Seq<DbCoord<C>>, i: int) -> Seq<DbCoord<C>> {
    let len = path.len() as int;
    match coord_type_at(i) {
        CoordType::P0 => if path_closed(path) {
            Seq::empty()
        } else {
            path.subrange(3, len)
        },
        CoordType::CP0 => path.update(i, path[i + 1]),
        CoordType::CP1 => path.update(i, path[i - 1]),
        CoordType::P1 => if i == len - 1 {
            path.subrange(0, len - 3)
        } else {
            path.subrange(0, i - 1) + path.subrange(i + 2, len)
        },
    }
}

/// A path on which each point whose identifier is null received a fresh one: the points are
/// otherwise the same, and the `k`-th null identifier received the `k`-th value of the
/// generator that started at `start`.
pub open spec fn ids_refreshed<C>(
    old_path: Seq<DbCoord<C>>,
    new_path: Seq<DbCoord<C>>,
    start: nat,
) -> bool {
    &&& new_path.len() == old_path.len()
    &&& forall|i: int|
        0 <= i < old_path.len() ==> {
            &&& (#[trigger] new_path[i]).coord == old_path[i].coord
            &&& if old_path[i].id.spec_value() == 0 {
                new_path[i].id.spec_value() == counter_after(
                    start,
                    null_count(old_path.subrange(0, i)),
                )
            } else {
                new_path[i].id == old_path[i].id
            }
        }
}

/// Number of points whose identifier is null.
pub open spec fn null_count<C>(path: Seq<DbCoord<C>>) -> nat
    decreases path.len(),
{
    if path.len() == 0 {
        0
    } else {
        null_count(path.drop_last()) + if path.last().id.spec_value() == 0 {
            1nat
        } else {
            0nat
        }
    }
}

/// The counter of a generator that started at `start` after `k` identifiers were taken.
pub open spec fn counter_after(start: nat, k: nat) -> nat
    decreases k,
{
    if k == 0 {
        start
    } else {
        next_counter(counter_after(start, (k - 1) as nat))
    }
}


/// The path after cutting curve `c` in two: the new point `p1` goes between the handles of
/// the curve, with the new handles `cp1l` and `cp1r` beside it unless the curve is a straight
/// line (then they lie on `p1`); the outer handles move to `cp0` and `cp2` where they are
/// free of their points.
pub open spec fn path_after_smooth_insert<C>(
    path: Seq<DbCoord<C>>,
    c: int,
    cp0: C,
    cp1l: DbCoord<C>,
    p1: DbCoord<C>,
    cp1r: DbCoord<C>,
    cp2: C,
) -> Seq<DbCoord<C>> {
    let i = 3 * c + 2;
    let straight = path[3 * c].id == path[3 * c + 1].id && path[3 * c + 2].id == path[3 * c
        + 3].id;
    let left_free = path[3 * c + 1].id != path[3 * c].id;
    let right_free = path[3 * c + 2].id != path[3 * c + 3].id;
    let mid = if straight {
        seq![p1, p1, p1]
    } else {
        seq![cp1l, p1, cp1r]
    };
    let s0 = path.subrange(0, i) + mid + path.subrange(i, path.len() as int);
    let s1 = if left_free {
        s0.update(i - 1, DbCoord { id: s0[i - 1].id, coord: cp0 })
    } else {
        s0
    };
    if right_free {
        s1.update(i + 3, DbCoord { id: s1[i + 3].id, coord: cp2 })
    } else {
        s1
    }
}

/// Cutting curve `c` of a path at the new point `p1`: the points before the curve's first
/// handle stay; that handle keeps its identifier and moves to `cp0` where it is free of its
/// point; then come the new left handle `cp1l`, the new point and the new right handle `cp1r`
/// (all three the new point where the curve is straight); then the curve's second handle,
/// moved to `cp2` where it is free of its point, and the rest of the path, unchanged.
pub proof fn lemma_smooth_insert_layout<C>(
    path: Seq<DbCoord<C>>,
    c: int,
    cp0: C,
    cp1l: DbCoord<C>,
    p1: DbCoord<C>,
    cp1r: DbCoord<C>,
    cp2: C,
)
    requires
        path.len() > 0,
        0 <= c < curve_count(path.len()),
    ensures
        ({
            let r = path_after_smooth_insert(path, c, cp0, cp1l, p1, cp1r, cp2);
            let straight = path[3 * c].id == path[3 * c + 1].id && path[3 * c + 2].id
                == path[3 * c + 3].id;
            &&& r.len() == path.len() + 3
            &&& forall|j: int| 0 <= j <= 3 * c ==> r[j] == path[j]
            &&& r[3 * c + 1].id == path[3 * c + 1].id
            &&& r[3 * c + 1].coord == if path[3 * c + 1].id != path[3 * c].id {
                cp0
            } else {
                path[3 * c + 1].coord
            }
            &&& r[3 * c + 2] == if straight { p1 } else { cp1l }
            &&& r[3 * c + 3] == p1
            &&& r[3 * c + 4] == if straight { p1 } else { cp1r }
            &&& r[3 * c + 5].id == path[3 * c + 2].id
            &&& r[3 * c + 5].coord == if path[3 * c + 2].id != path[3 * c + 3].id {
                cp2
            } else {
                path[3 * c + 2].coord
            }
            &&& forall|j: int| 3 * c + 3 <= j < path.len() ==> r[j + 3] == path[j]
        }),
{
    assert(3 * c + 3 < path.len()) by {
        assert((path.len() - 1) / 3 > c);
    }
}

/// Each point three times over: the handle that comes into it, the point, the handle that
/// goes out of it.
pub open spec fn corners<C>(coords: Seq<DbCoord<C>>) -> Seq<DbCoord<C>>
    decreases coords.len(),
{
    if coords.len() == 0 {
        Seq::empty()
    } else {
        let c = coords.last();
        corners(coords.drop_last()) + seq![c, c, c]
    }
}

/// The path of the closed polygon through `coords`: the first point with its outgoing
/// handle, every other point as a corner, and the first point again with its incoming handle.
pub open spec fn lines_path<C>(coords: Seq<DbCoord<C>>) -> Seq<DbCoord<C>> {
    if coords.len() == 0 {
        Seq::empty()
    } else {
        seq![coords[0], coords[0]] + corners(coords.drop_first()) + seq![coords[0], coords[0]]
    }
}

/// The points of curve `index` lie inside a path of `len` points.
proof fn lemma_curve_in_path(len: int, index: int)
    requires
        len > 0,
        0 <= index < (len - 1) / 3,
    ensures
        3 * index + 3 < len,
        (3 * index + 1) % len == 3 * index + 1,
        (3 * index + 2) % len == 3 * index + 2,
        (3 * index + 3) % len == 3 * index + 3,
{
    assert(3 * index + 3 <= len - 1) by (nonlinear_arith)
        requires
            0 <= index < (len - 1) / 3,
            len > 0,
    ;
    vstd::arithmetic::div_mod::lemma_small_mod((3 * index + 1) as nat, len as nat);
    vstd::arithmetic::div_mod::lemma_small_mod((3 * index + 2) as nat, len as nat);
    vstd::arithmetic::div_mod::lemma_small_mod((3 * index + 3) as nat, len as nat);
}

/// Both handles around the end point of curve `i` are that point.
pub open spec fn handles_joined<C>(path: Seq<DbCoord<C>>, i: int) -> bool {
    path[3 * i + 2].id == path[3 * i + 3].id && path[3 * ((i + 1) % curve_count(path.len()) as int)
        + 1].id == path[3 * i + 3].id
}

/// `path` with both handles around the end point of curve `i` put onto that point: the last
/// handle of curve `i` and the first handle of the curve after it (the first curve after the
/// last one).
pub open spec fn joined_path<C>(path: Seq<DbCoord<C>>, i: int) -> Seq<DbCoord<C>> {
    let len = path.len() as int;
    let n = curve_count(path.len()) as int;
    let p = (3 * i + 3) % len;
    path.update((3 * i + 2) % len, path[p]).update((3 * ((i + 1) % n) + 1) % len, path[p])
}

/// `path` with the handles around the end point of curve `i` moved to `left` and `right`,
/// with the identifiers `first` and the one after it.
pub open spec fn separated_path<C>(
    path: Seq<DbCoord<C>>,
    i: int,
    left: C,
    right: C,
    first: nat,
) -> Seq<DbCoord<C>> {
    let len = path.len() as int;
    let n = curve_count(path.len()) as int;
    let il = (3 * i + 2) % len;
    let ir = (3 * ((i + 1) % n) + 1) % len;
    path.update(il, DbCoord { id: CoordId::spec_from_value(first as usize), coord: left }).update(
        ir,
        DbCoord { id: CoordId::spec_from_value(counter_after(first, 1) as usize), coord: right },
    )
}

/// One call of a drawing context that draws a shape.
#[derive(Debug, Clone, Copy, PartialEq)]
pub enum DrawStep<C> {
    /// Fill with this color.
    SetFill(Rgba),
    /// Start the outline at this point.
    StartShape(C),
    /// A cubic curve through two control points to an end point.
    MoveCurve(C, C, C),
    /// Close the outline.
    CloseShape,
    /// Finish the shape.
    End,
}

/// The drawing calls for a shape of color `color` whose path is `path`: set the fill, start at
/// the first point, one curve per three following points, close, end.
pub open spec fn draw_steps<C>(path: Seq<DbCoord<C>>, color: Rgba) -> Seq<DrawStep<C>> {
    seq![DrawStep::SetFill(color), DrawStep::StartShape(path[0].coord)] + Seq::new(
        ((path.len() - 1) / 3) as nat,
        |k: int|
            DrawStep::MoveCurve(
                path[3 * k + 1].coord,
                path[3 * k + 2].coord,
                path[3 * k + 3].coord,
            ),
    ) + seq![DrawStep::CloseShape, DrawStep::End]
}

impl<C: Copy> Shape<C> {
    /// The drawing calls that draw this shape, as `draw_steps` says (two points left over
    /// after the last whole curve are not drawn).
    pub fn render(&self) -> (steps: Vec<DrawStep<C>>)
        requires
            self.path@.len() % 3 != 0,
        ensures
            steps@ == draw_steps(self.path@, self.color),
    {
        let mut steps: Vec<DrawStep<C>> = Vec::new();
        steps.push(DrawStep::SetFill(self.color));
        steps.push(DrawStep::StartShape(self.path[0].coord));
        let len = self.path.len();
        let n = (len - 1) / 3;
        let ghost path = self.path@;
        let ghost curves = Seq::new(
            n as nat,
            |k: int|
                DrawStep::MoveCurve(
                    path[3 * k + 1].coord,
                    path[3 * k + 2].coord,
                    path[3 * k + 3].coord,
                ),
        );
        let mut k: usize = 0;
        while k < n
            invariant
                path == self.path@,
                len == path.len(),
                3 * n + 1 <= path.len(),
                curves.len() == n,
                forall|j: int|
                    0 <= j < n ==> #[trigger] curves[j] == DrawStep::MoveCurve(
                        path[3 * j + 1].coord,
                        path[3 * j + 2].coord,
                        path[3 * j + 3].coord,
                    ),
                k <= n,
                steps@ == seq![DrawStep::SetFill(self.color), DrawStep::StartShape(path[0].coord)]
                    + curves.subrange(0, k as int),
            decreases n - k,
        {
            let i = 3 * k + 1;
            steps.push(
                DrawStep::MoveCurve(self.path[i].coord, self.path[i + 1].coord, self.path[i + 2].coord),
            );
            assert(curves.subrange(0, k + 1) =~= curves.subrange(0, k as int).push(curves[k as int]));
            assert(curves[k as int] == DrawStep::MoveCurve(path[i as int].coord, path[i + 1].coord, path[i + 2].coord));
            k = k + 1;
        }
        assert(curves.subrange(0, n as int) =~= curves);
        steps.push(DrawStep::CloseShape);
        steps.push(DrawStep::End);
        assert(steps@ =~= draw_steps(path, self.color));
        steps
    }

    /// An empty, transparent shape with the null identifier.
    pub fn new() -> (s: Shape<C>)
        ensures
            s.id.spec_value() == 0,
            s.path@.len() == 0,
            s.color == (Rgba { r: 0, g: 0, b: 0, a: 0 }),
    {
        Shape { id: LayerId::null(), path: Vec::new(), color: Rgba::transparent() }
    }

    pub fn is_empty(&self) -> (b: bool)
        ensures
            b == (self.path@.len() == 0),
    {
        self.path.len() == 0
    }

    /// The first and last points are the same point.
    pub fn is_closed(&self) -> (b: bool)
        requires
            self.path@.len() > 0,
        ensures
            b == path_closed(self.path@),
    {
        self.path[0].id == self.path[self.path.len() - 1].id
    }

    /// Number of curves of the path.
    pub fn curves_len(&self) -> (n: usize)
        requires
            self.path@.len() > 0,
        ensures
            n == curve_count(self.path@.len()),
    {
        (self.path.len() - 1) / 3
    }

    /// The point whose identifier is `id`, first found.
    pub fn coord_select(&self, id: CoordId) -> (res: Option<&DbCoord<C>>)
        ensures
            match res {
                Some(c) => exists|i: int| is_first_index_of(self.path@, id, i) && *c == self.path@[i],
                None => has_no_id(self.path@, id),
            },
    {
        let mut i: usize = 0;
        while i < self.path.len()
            invariant
                i <= self.path@.len(),
                forall|j: int| 0 <= j < i ==> self.path@[j].id != id,
            decreases self.path@.len() - i,
        {
            if self.path[i].id == id {
                assert(is_first_index_of(self.path@, id, i as int));
                return Some(&self.path[i]);
            }
            i = i + 1;
        }
        None
    }

    /// The point whose identifier is `id`, first found, to change in place. Nothing else of
    /// the shape changes.
    pub fn coord_select_mut(&mut self, id: CoordId) -> (res: Option<&mut DbCoord<C>>)
        ensures
            final(self).id == old(self).id,
            final(self).color == old(self).color,
            match res {
                Some(c) => exists|i: int|
                    is_first_index_of(old(self).path@, id, i) && *c == old(self).path@[i]
                        && final(self).path@ == old(self).path@.update(i, *final(c)),
                None => has_no_id(old(self).path@, id) && final(self).path@ == old(self).path@,
            },
    {
        match self.coord_index_select(id) {
            Some((i, _)) => Some(vec_index_mut(&mut self.path, i)),
            None => None,
        }
    }

    /// Index and role of the point whose identifier is `id`, first found.
    pub fn coord_index_select(&self, id: CoordId) -> (res: Option<(usize, CoordType)>)
        ensures
            match res {
                Some((i, t)) => is_first_index_of(self.path@, id, i as int) && t == coord_type_at(
                    i as int,
                ),
                None => has_no_id(self.path@, id),
            },
    {
        let mut i: usize = 0;
        while i < self.path.len()
            invariant
                i <= self.path@.len(),
                forall|j: int| 0 <= j < i ==> self.path@[j].id != id,
            decreases self.path@.len() - i,
        {
            if self.path[i].id == id {
                if i == 0 {
                    return Some((i, CoordType::P0));
                }
                let t = if (i - 1) % 3 == 0 {
                    CoordType::CP0
                } else if (i - 1) % 3 == 1 {
                    CoordType::CP1
                } else {
                    CoordType::P1
                };
                return Some((i, t));
            }
            i = i + 1;
        }
        None
    }

    /// Whether deleting the point with identifier `id` stays inside the path, as
    /// `coord_delete` asks (it does where no point has that identifier).
    pub fn can_delete(&self, id: CoordId) -> (b: bool)
        ensures
            b == (forall|i: int|
                is_first_index_of(self.path@, id, i) ==> delete_defined(self.path@, i)),
    {
        match self.coord_index_select(id) {
            None => {
                assert forall|i2: int| !is_first_index_of(self.path@, id, i2) by {
                    if 0 <= i2 < self.path@.len() {
                        assert(has_no_id(self.path@, id));
                        assert(self.path@[i2].id != id);
                    }
                }
                true
            },
            Some((i, t)) => {
                assert forall|i2: int| is_first_index_of(self.path@, id, i2) implies i2 == i by {
                    if i2 < i {
                        assert(self.path@[i2].id != id);
                    } else if i2 > i {
                        assert(self.path@[i as int].id != id);
                    }
                }
                let b = match t {
                    CoordType::P0 => {
                        if self.is_closed() {
                            self.path.len() == 4
                        } else {
                            self.path.len() >= 3
                        }
                    },
                    CoordType::CP0 => i + 1 < self.path.len(),
                    _ => true,
                };
                assert(b == delete_defined(self.path@, i as int));
                b
            },
        }
    }

    /// Deletes the point whose identifier is `id` (first found), as `path_after_delete` says;
    /// fails where no point has that identifier.
    pub fn coord_delete(&mut self, id: CoordId) -> (res: Result<(), String>)
        requires
            forall|i: int|
                is_first_index_of(old(self).path@, id, i) ==> delete_defined(old(self).path@, i),
        ensures
            final(self).id == old(self).id,
            final(self).color == old(self).color,
            match res {
                Ok(()) => exists|i: int|
                    is_first_index_of(old(self).path@, id, i) && final(self).path@
                        == path_after_delete(old(self).path@, i),
                Err(e) => has_no_id(old(self).path@, id) && final(self).path@ == old(self).path@ && e@ == "Coord not found"@,
            },
    {
        let found = self.coord_index_select(id);
        let (index, coord_type) = match found {
            Some(f) => f,
            None => {
                proof {
                    reveal_strlit("Coord not found");
                }
                return Err(String::from_str("Coord not found"));
            },
        };
        let ghost old_path = self.path@;
        assert(delete_defined(old_path, index as int));
        match coord_type {
            CoordType::P0 => {
                if self.is_closed() {
                    let len = self.path.len();
                    if len == 4 {
                        self.path.clear();
                        assert(self.path@ =~= path_after_delete(old_path, index as int));
                        return Ok(());
                    }
                    let index = len - 1;
                    self.path.remove(index);
                    self.path.remove(index);
                    self.path.remove(index);
                } else {
                    self.path.remove(index);
                    self.path.remove(index);
                    self.path.remove(index);
                    assert(self.path@ =~= path_after_delete(old_path, index as int));
                }
            },
            CoordType::CP0 => {
                let c = self.path[index + 1];
                self.path.set(index, c);
                assert(self.path@ =~= path_after_delete(old_path, index as int));
            },
            CoordType::CP1 => {
                let c = self.path[index - 1];
                self.path.set(index, c);
                assert(self.path@ =~= path_after_delete(old_path, index as int));
            },
            CoordType::P1 => {
                if self.path.len() - 1 == index {
                    if !self.is_closed() {
                        self.path.remove(index - 2);
                        self.path.remove(index - 2);
                        self.path.remove(index - 2);
                        assert(self.path@ =~= path_after_delete(old_path, index as int));
                    } else {
                        // The end point is the start point here, which is found first.
                        assert(old_path[0].id == id);
                        assert(false);
                    }
                } else {
                    self.path.remove(index);
                    self.path.remove(index);
                    self.path.remove(index - 1);
                    assert(self.path@ =~= path_after_delete(old_path, index as int));
                }
            },
        }
        Ok(())
    }

    /// The four points of curve `index`, if the path has that many curves.
    pub fn curve_select(&self, index: usize) -> (res: Option<Curve<'_, C>>)
        requires
            self.path@.len() > 0,
        ensures
            match res {
                Some(c) => index < curve_count(self.path@.len()) && *c.p0 == self.path@[3
                    * index] && *c.cp0 == self.path@[3 * index + 1] && *c.cp1 == self.path@[3
                    * index + 2] && *c.p1 == self.path@[3 * index + 3],
                None => index >= curve_count(self.path@.len()),
            },
    {
        if index < self.curves_len() {
            let len = self.path.len();
            proof {
                lemma_curve_in_path(len as int, index as int);
            }
            let p0 = &self.path[index * 3];
            let cp0 = &self.path[(index * 3 + 1) % len];
            let cp1 = &self.path[(index * 3 + 2) % len];
            let p1 = &self.path[(index * 3 + 3) % len];
            return Some(Curve { p0, cp0, cp1, p1 });
        }
        None
    }

    /// All the curves of the path, in order.
    pub fn curves(&self) -> (res: Vec<Curve<'_, C>>)
        requires
            self.path@.len() > 0,
        ensures
            res@.len() == curve_count(self.path@.len()),
            forall|k: int|
                0 <= k < res@.len() ==> *(#[trigger] res@[k]).p0 == self.path@[3 * k] && *res@[k].cp0
                    == self.path@[3 * k + 1] && *res@[k].cp1 == self.path@[3 * k + 2]
                    && *res@[k].p1 == self.path@[3 * k + 3],
    {
        let n = self.curves_len();
        let mut res: Vec<Curve<'_, C>> = Vec::new();
        let mut k: usize = 0;
        while k < n
            invariant
                n == curve_count(self.path@.len()),
                self.path@.len() > 0,
                k <= n,
                res@.len() == k,
                forall|j: int|
                    0 <= j < k ==> *(#[trigger] res@[j]).p0 == self.path@[3 * j] && *res@[j].cp0
                        == self.path@[3 * j + 1] && *res@[j].cp1 == self.path@[3 * j + 2]
                        && *res@[j].p1 == self.path@[3 * j + 3],
            decreases n - k,
        {
            match self.curve_select(k) {
                Some(c) => res.push(c),
                None => {
                    assert(false);
                },
            }
            k = k + 1;
        }
        res
    }

    /// The curve that the point `id` ends: the curve before it for an end point, the last
    /// curve for the start point; `None` for a handle or an unknown identifier.
    pub fn curve_select_of_coord_id(&self, id: CoordId) -> (res: Option<usize>)
        requires
            self.path@.len() > 0 && self.path@[0].id == id ==> curve_count(self.path@.len()) > 0,
        ensures
            match res {
                Some(c) => exists|i: int|
                    is_first_index_of(self.path@, id, i) && ((coord_type_at(i) == CoordType::P1
                        && c == (i - 1) / 3) || (coord_type_at(i) == CoordType::P0 && c
                        == curve_count(self.path@.len()) - 1)),
                None => has_no_id(self.path@, id) || exists|i: int|
                    is_first_index_of(self.path@, id, i) && (coord_type_at(i) == CoordType::CP0
                        || coord_type_at(i) == CoordType::CP1),
            },
    {
        match self.coord_index_select(id) {
            Some((index, coord_type)) => match coord_type {
                CoordType::P1 => Some((index - 1) / 3),
                CoordType::P0 => {
                    if self.curves_len() == 0 {
                        // `curves_len() - 1` would go below zero here.
                        assert(false);
                        None
                    } else {
                        Some(self.curves_len() - 1)
                    }
                },
                _ => None,
            },
            None => None,
        }
    }

    /// Both handles around the end point of curve `index` lie on that point.
    pub fn is_handles_joined(&self, index: usize) -> (b: bool)
        requires
            self.path@.len() > 0,
            index < curve_count(self.path@.len()),
        ensures
            b == (self.path@[3 * index + 2].id == self.path@[3 * index + 3].id && self.path@[3
                * ((index + 1) % curve_count(self.path@.len()) as int) + 1].id == self.path@[3
                * index + 3].id),
    {
        let n = self.curves_len();
        let curve = self.curve_select(index);
        let curve_next = self.curve_select((index + 1) % n);
        match (curve, curve_next) {
            (Some(curve), Some(curve_next)) => curve.cp1.id == curve.p1.id && curve_next.cp0.id
                == curve.p1.id,
            _ => {
                assert(false);
                false
            },
        }
    }

    /// Puts both handles around the end point of curve `curve_index_p1` onto that point.
    pub fn handle_join(&mut self, curve_index_p1: usize)
        requires
            old(self).path@.len() > 0,
            3 * curve_index_p1 + 3 <= usize::MAX,
            (3 * curve_index_p1 + 3) % (old(self).path@.len() as int) > 0,
        ensures
            final(self).id == old(self).id,
            final(self).color == old(self).color,
            ({
                let len = old(self).path@.len() as int;
                let i = (3 * curve_index_p1 + 3) % len;
                final(self).path@ == old(self).path@.update((i - 1) % len, old(self).path@[i]).update(
                    (i + 1) % len,
                    old(self).path@[i],
                )
            }),
    {
        let len = self.path.len();
        let index_p1 = (curve_index_p1 * 3 + 3) % len;
        let c = self.path[index_p1];
        self.path.set((index_p1 - 1) % len, c);
        let c2 = self.path[index_p1];
        proof {
            vstd::arithmetic::div_mod::lemma_small_mod((index_p1 - 1) as nat, len as nat);
        }
        self.path.set((index_p1 + 1) % len, c2);
    }

    /// Moves the two handles around the end point of curve `curve_index_p1` to `cp1_left`
    /// and `cp0_right`, each with a new identifier, so that they are free of the point.
    pub fn handle_separate_to(
        &mut self,
        curve_index_p1: usize,
        cp1_left: C,
        cp0_right: C,
        ids: &mut IdGenerator,
    )
        requires
            old(self).path@.len() > 0,
            curve_index_p1 < curve_count(old(self).path@.len()),
        ensures
            final(self).id == old(self).id,
            final(self).color == old(self).color,
            final(ids).peek() == counter_after(old(ids).peek(), 2),
            ({
                let len = old(self).path@.len() as int;
                let n = curve_count(old(self).path@.len()) as int;
                let il = (3 * curve_index_p1 + 2) % len;
                let ir = (3 * ((curve_index_p1 + 1) % n) + 1) % len;
                let s1 = old(self).path@.update(
                    il,
                    DbCoord { id: CoordId::spec_from_value(old(ids).peek() as usize), coord: cp1_left },
                );
                final(self).path@ == s1.update(
                    ir,
                    DbCoord {
                        id: CoordId::spec_from_value(counter_after(old(ids).peek(), 1) as usize),
                        coord: cp0_right,
                    },
                )
            }),
    {
        let len = self.path.len();
        let curve_len = self.curves_len();
        let il = (curve_index_p1 * 3 + 2) % len;
        let left_id = CoordId::new(ids);
        self.path.set(il, DbCoord { id: left_id, coord: cp1_left });
        let ir = (((curve_index_p1 + 1) % curve_len) * 3 + 1) % len;
        let right_id = CoordId::new(ids);
        self.path.set(ir, DbCoord { id: right_id, coord: cp0_right });
        proof {
            CoordId::lemma_from_value(left_id);
            CoordId::lemma_from_value(right_id);
            reveal_with_fuel(counter_after, 3);
        }
    }

    /// Separates the handles around the end point of curve `index` where they are joined,
    /// moving them to `corners` (the left and the right handle) with new identifiers; joins
    /// them otherwise.
    pub fn toggle_separate_join_handle(&mut self, index: usize, corners: (C, C), ids: &mut IdGenerator)
        requires
            old(self).path@.len() > 0,
            index < curve_count(old(self).path@.len()),
        ensures
            final(self).id == old(self).id,
            final(self).color == old(self).color,
            handles_joined(old(self).path@, index as int) ==> final(self).path@ == separated_path(
                old(self).path@,
                index as int,
                corners.0,
                corners.1,
                old(ids).peek(),
            ) && final(ids).peek() == counter_after(old(ids).peek(), 2),
            !handles_joined(old(self).path@, index as int) ==> final(self).path@ == joined_path(
                old(self).path@,
                index as int,
            ) && final(ids).peek() == old(ids).peek(),
    {
        if self.is_handles_joined(index) {
            self.handle_separate_to(index, corners.0, corners.1, ids);
        } else {
            self.join_handles(index);
        }
    }

    /// Puts the last handle of curve `index` and the first handle of the curve after it onto
    /// the end point of curve `index`, as `joined_path` says.
    fn join_handles(&mut self, index: usize)
        requires
            old(self).path@.len() > 0,
            index < curve_count(old(self).path@.len()),
        ensures
            final(self).id == old(self).id,
            final(self).color == old(self).color,
            final(self).path@ == joined_path(old(self).path@, index as int),
    {
        let len = self.path.len();
        let n = self.curves_len();
        assert(3 * index + 3 < len);
        let c = self.path[(index * 3 + 3) % len];
        self.path.set((index * 3 + 2) % len, c);
        self.path.set((((index + 1) % n) * 3 + 1) % len, c);
    }

    /// A shape whose path is `coords` (a start point then three points per curve).
    pub fn new_from_path(coords: Vec<DbCoord<C>>) -> (s: Shape<C>)
        requires
            coords@.len() > 0,
            (coords@.len() - 1) % 3 == 0,
        ensures
            s.id.spec_value() == 0,
            s.path@ == coords@,
            s.color == (Rgba { r: 0, g: 0, b: 0, a: 0 }),
    {
        let mut shape = Shape::new();
        shape.path = coords;
        shape
    }

    /// A closed shape of straight lines through `coords`, back to the first one: every
    /// corner is its own two handles.
    pub fn new_from_lines(coords: Vec<DbCoord<C>>) -> (s: Shape<C>)
        ensures
            s.id.spec_value() == 0,
            s.color == (Rgba { r: 0, g: 0, b: 0, a: 0 }),
            s.path@ == lines_path(coords@),
    {
        let mut shape = Shape::new();
        if coords.len() == 0 {
            assert(shape.path@ =~= lines_path(coords@));
            return shape;
        }
        let first = coords[0];
        shape.path.push(first);
        shape.path.push(first);
        let mut k: usize = 1;
        while k < coords.len()
            invariant
                1 <= k <= coords@.len(),
                first == coords@[0],
                shape.id.spec_value() == 0,
                shape.color == (Rgba { r: 0, g: 0, b: 0, a: 0 }),
                shape.path@ == seq![first, first] + corners(coords@.subrange(1, k as int)),
            decreases coords@.len() - k,
        {
            let c = coords[k];
            shape.path.push(c);
            shape.path.push(c);
            shape.path.push(c);
            proof {
                let prev = coords@.subrange(1, k as int);
                let next = coords@.subrange(1, k + 1);
                assert(next.drop_last() =~= prev);
                assert(next.last() == c);
                assert(shape.path@ =~= seq![first, first] + corners(next));
            }
            k = k + 1;
        }
        shape.path.push(first);
        shape.path.push(first);
        assert(coords@.subrange(1, coords@.len() as int) =~= coords@.drop_first());
        assert(shape.path@ =~= lines_path(coords@));
        shape
    }

    /// Cuts curve `curve_index` at a new straight corner `coord` (with a new identifier):
    /// the corner and its two handles go between the handles of the curve.
    pub fn curve_insert_line(&mut self, curve_index: usize, coord: C, ids: &mut IdGenerator)
        requires
            old(self).path@.len() > 0,
            3 * curve_index + 2 <= usize::MAX,
        ensures
            final(self).id == old(self).id,
            final(self).color == old(self).color,
            final(ids).peek() == next_counter(old(ids).peek()),
            ({
                let i = (3 * curve_index + 2) % (old(self).path@.len() as int);
                let p1 = DbCoord {
                    id: CoordId::spec_from_value(old(ids).peek() as usize),
                    coord,
                };
                final(self).path@ == old(self).path@.subrange(0, i) + seq![p1, p1, p1] + old(self).path@.subrange(i, old(self).path@.len() as int)
            }),
    {
        let p1 = DbCoord::new(coord, ids);
        let index_cp1 = (curve_index * 3 + 2) % self.path.len();
        let ghost before = self.path@;
        self.path.insert(index_cp1, p1);
        self.path.insert(index_cp1, p1);
        self.path.insert(index_cp1, p1);
        proof {
            CoordId::lemma_from_value(p1.id);
            assert(self.path@ =~= before.subrange(0, index_cp1 as int) + seq![p1, p1, p1]
                + before.subrange(index_cp1 as int, before.len() as int));
        }
    }

    /// Cuts curve `curve_index` in two without changing its course, given the points that
    /// cutting it gives (`parts`: the new outer handle of the start, the handles left and right
    /// of the new point, the new point, the new outer handle of the end). The new point and its
    /// handles get new identifiers, which are returned (left handle, point, right handle).
    pub fn curve_insert_smooth_with(
        &mut self,
        curve_index: usize,
        parts: (C, C, C, C, C),
        ids: &mut IdGenerator,
    ) -> (res: (CoordId, CoordId, CoordId))
        requires
            old(self).path@.len() > 0,
            curve_index < curve_count(old(self).path@.len()),
        ensures
            final(self).id == old(self).id,
            final(self).color == old(self).color,
            res.0.spec_value() == old(ids).peek(),
            res.1.spec_value() == counter_after(old(ids).peek(), 1),
            res.2.spec_value() == counter_after(old(ids).peek(), 2),
            final(ids).peek() == counter_after(old(ids).peek(), 3),
            final(self).path@ == path_after_smooth_insert(
                old(self).path@,
                curve_index as int,
                parts.0,
                DbCoord { id: res.0, coord: parts.1 },
                DbCoord { id: res.1, coord: parts.2 },
                DbCoord { id: res.2, coord: parts.3 },
                parts.4,
            ),
            final(self).path@.len() == old(self).path@.len() + 3,
            final(self).path@[3 * curve_index + 3] == (DbCoord { id: res.1, coord: parts.2 }),
            !(old(self).path@[3 * curve_index].id == old(self).path@[3 * curve_index + 1].id
                && old(self).path@[3 * curve_index + 2].id == old(self).path@[3 * curve_index
                + 3].id) ==> {
                &&& final(self).path@[3 * curve_index + 2] == (DbCoord { id: res.0, coord: parts.1 })
                &&& final(self).path@[3 * curve_index + 4] == (DbCoord { id: res.2, coord: parts.3 })
            },
    {
        let ghost before = self.path@;
        let len = self.path.len();
        proof {
            lemma_curve_in_path(len as int, curve_index as int);
        }
        let (cp0, cp1l, p1, cp1r, cp2) = parts;
        let index_cp1 = (curve_index * 3 + 2) % len;
        let is_straight = self.path[curve_index * 3].id == self.path[curve_index * 3 + 1].id
            && self.path[curve_index * 3 + 2].id == self.path[curve_index * 3 + 3].id;
        let left_handle_free = self.path[curve_index * 3 + 1].id != self.path[curve_index * 3].id;
        let right_handle_free = self.path[curve_index * 3 + 2].id != self.path[curve_index * 3
            + 3].id;

        let cp1l = DbCoord::new(cp1l, ids);
        let p1 = DbCoord::new(p1, ids);
        let cp1r = DbCoord::new(cp1r, ids);

        self.path.insert(index_cp1, p1);
        self.path.insert(index_cp1, p1);
        self.path.insert(index_cp1, p1);
        let ghost s0_straight = self.path@;
        assert(s0_straight =~= before.subrange(0, index_cp1 as int) + seq![p1, p1, p1]
            + before.subrange(index_cp1 as int, before.len() as int));
        if !is_straight {
            self.path.set(index_cp1, cp1l);
            self.path.set(index_cp1 + 2, cp1r);
            assert(self.path@ =~= before.subrange(0, index_cp1 as int) + seq![cp1l, p1, cp1r]
                + before.subrange(index_cp1 as int, before.len() as int));
        }
        if left_handle_free {
            let id = self.path[index_cp1 - 1].id;
            self.path.set(index_cp1 - 1, DbCoord { id, coord: cp0 });
        }
        if right_handle_free {
            let id = self.path[index_cp1 + 3].id;
            self.path.set(index_cp1 + 3, DbCoord { id, coord: cp2 });
        }
        proof {
            reveal_with_fuel(counter_after, 4);
            lemma_smooth_insert_layout(
                before,
                curve_index as int,
                cp0,
                cp1l,
                p1,
                cp1r,
                cp2,
            );
        }
        (cp1l.id, p1.id, cp1r.id)
    }

    /// Gives each point whose identifier is null a new one from `ids`, in path order.
    pub fn curves_path_update_id(&mut self, ids: &mut IdGenerator)
        ensures
            final(self).id == old(self).id,
            final(self).color == old(self).color,
            ids_refreshed(old(self).path@, final(self).path@, old(ids).peek()),
            final(ids).peek() == counter_after(old(ids).peek(), null_count(old(self).path@)),
    {
        let ghost before = self.path@;
        let ghost start = ids.peek();
        let mut i: usize = 0;
        while i < self.path.len()
            invariant
                self.id == old(self).id,
                self.color == old(self).color,
                self.path@.len() == before.len(),
                i <= before.len(),
                ids.peek() == counter_after(start, null_count(before.subrange(0, i as int))),
                forall|j: int| i <= j < before.len() ==> self.path@[j] == before[j],
                forall|j: int|
                    0 <= j < i ==> {
                        &&& (#[trigger] self.path@[j]).coord == before[j].coord
                        &&& if before[j].id.spec_value() == 0 {
                            self.path@[j].id.spec_value() == counter_after(
                                start,
                                null_count(before.subrange(0, j)),
                            )
                        } else {
                            self.path@[j].id == before[j].id
                        }
                    },
            decreases before.len() - i,
        {
            let c = self.path[i];
            proof {
                assert(before.subrange(0, i + 1).drop_last() =~= before.subrange(0, i as int));
                assert(before.subrange(0, i + 1).last() == before[i as int]);
            }
            let null = CoordId::null();
            proof {
                CoordId::lemma_value_injective(c.id, null);
            }
            if c.id == null {
                let mut id = c.id;
                id.update(ids);
                self.path.set(i, DbCoord { id, coord: c.coord });
            }
            i = i + 1;
        }
        assert(before.subrange(0, before.len() as int) =~= before);
    }
}

}
