use vstd::prelude::*;

use crate::boolean::{CoordOfIntersection, GreinerShape};

verus! {

/// Where a curve of the shape is cut by a crossing: right at its start point, which the
/// crossing then stands in for, or inside it, with the two handles of the piece before the
/// crossing.
#[derive(Debug, Clone, Copy)]
pub enum Cut<C, T> {
    AtStart(usize),
    Split(CoordOfIntersection<C, T>, CoordOfIntersection<C, T>, usize),
}

/// How one curve of the shape goes into the outline: its cuts, in order along the curve, then
/// the two handles and the end point of the piece after the last cut.
#[derive(Debug, Clone)]
pub struct CurveCuts<C, T> {
    pub cuts: Vec<Cut<C, T>>,
    pub cp0: CoordOfIntersection<C, T>,
    pub cp1: CoordOfIntersection<C, T>,
    pub p1: CoordOfIntersection<C, T>,
}

/// A place of the outline: one of the crossings, by its index, or a point of its own.
pub enum Slot<C, T> {
    Crossing(nat),
    Point(CoordOfIntersection<C, T>),
}

/// `n` without its links.
pub open spec fn unlinked<C, T>(n: CoordOfIntersection<C, T>) -> CoordOfIntersection<C, T> {
    CoordOfIntersection { next: None, prev: None, ..n }
}

/// The index of the crossing a cut is at.
pub open spec fn cut_crossing<C, T>(cut: Cut<C, T>) -> nat {
    match cut {
        Cut::AtStart(i) => i as nat,
        Cut::Split(_, _, i) => i as nat,
    }
}

/// The places `e` with one more cut: one at the start takes the place of the last point; one
/// inside adds the two handles and the crossing.
pub open spec fn after_cut<C, T>(e: Seq<Slot<C, T>>, cut: Cut<C, T>) -> Seq<Slot<C, T>> {
    match cut {
        Cut::AtStart(i) => e.drop_last().push(Slot::Crossing(i as nat)),
        Cut::Split(a, b, i) => e.push(Slot::Point(unlinked(a))).push(Slot::Point(unlinked(b))).push(
            Slot::Crossing(i as nat),
        ),
    }
}

/// The places `e` with the first `j` cuts of `cuts`.
pub open spec fn after_cuts<C, T>(e: Seq<Slot<C, T>>, cuts: Seq<Cut<C, T>>, j: nat) -> Seq<
    Slot<C, T>,
>
    decreases j,
{
    if j == 0 {
        e
    } else {
        after_cut(after_cuts(e, cuts, (j - 1) as nat), cuts[j - 1])
    }
}

/// The places `e` with the curve `cc`: its cuts, then the last two handles and its end point.
pub open spec fn after_curve<C, T>(e: Seq<Slot<C, T>>, cc: CurveCuts<C, T>) -> Seq<Slot<C, T>> {
    after_cuts(e, cc.cuts@, cc.cuts@.len()).push(Slot::Point(unlinked(cc.cp0))).push(
        Slot::Point(unlinked(cc.cp1)),
    ).push(Slot::Point(unlinked(cc.p1)))
}

/// The places `e` with the first `c` curves of `plan`.
pub open spec fn after_curves<C, T>(e: Seq<Slot<C, T>>, plan: Seq<CurveCuts<C, T>>, c: nat) -> Seq<
    Slot<C, T>,
>
    decreases c,
{
    if c == 0 {
        e
    } else {
        after_curve(after_curves(e, plan, (c - 1) as nat), plan[c - 1])
    }
}

/// The places of the outline of a closed shape that starts at `first` and whose curves go in
/// as `plan` says, in order round the outline: the last end point is the first point again
/// and is left out.
pub open spec fn ring_of<C, T>(first: CoordOfIntersection<C, T>, plan: Seq<CurveCuts<C, T>>) -> Seq<
    Slot<C, T>,
> {
    after_curves(seq![Slot::Point(unlinked(first))], plan, plan.len()).drop_last()
}

/// Number of points of their own among `e`.
pub open spec fn own_points<C, T>(e: Seq<Slot<C, T>>) -> nat
    decreases e.len(),
{
    if e.len() == 0 {
        0
    } else {
        own_points(e.drop_last()) + if e.last() is Point {
            1nat
        } else {
            0nat
        }
    }
}

/// The point a place holds, without its links.
pub open spec fn slot_node<C, T>(s: Slot<C, T>, crossings: Seq<CoordOfIntersection<C, T>>) -> CoordOfIntersection<C, T> {
    match s {
        Slot::Crossing(i) => unlinked(crossings[i as int]),
        Slot::Point(n) => n,
    }
}

/// Cuts `plan` can be put in: every cut is at one of the `m` crossings, no crossing twice, a
/// cut at the start of a curve comes before its other cuts, and there is at least one curve.
pub open spec fn plan_fits<C, T>(plan: Seq<CurveCuts<C, T>>, m: nat) -> bool {
    &&& plan.len() >= 1
    &&& forall|c: int, j: int|
        0 <= c < plan.len() && 0 <= j < plan[c].cuts@.len() ==> cut_crossing(
            #[trigger] plan[c].cuts@[j],
        ) < m
    &&& forall|c: int, j: int|
        0 <= c < plan.len() && 0 < j < plan[c].cuts@.len() ==> (#[trigger] plan[c].cuts@[j]) is Split
    &&& forall|c1: int, j1: int, c2: int, j2: int|
        0 <= c1 < plan.len() && 0 <= j1 < plan[c1].cuts@.len() && 0 <= c2 < plan.len() && 0 <= j2
            < plan[c2].cuts@.len() && (c1 != c2 || j1 != j2) ==> cut_crossing(
            #[trigger] plan[c1].cuts@[j1],
        ) != cut_crossing(#[trigger] plan[c2].cuts@[j2])
}

/// `data` holds the places `r` as a ring linked both ways, place `k` at index `idx[k]`: the
/// crossings at their own indices, the points of their own after the `m` crossings; crossings
/// not in the ring are as they were.
pub open spec fn holds_ring<C, T>(
    data: Seq<CoordOfIntersection<C, T>>,
    crossings: Seq<CoordOfIntersection<C, T>>,
    r: Seq<Slot<C, T>>,
    idx: Seq<int>,
) -> bool {
    let m = crossings.len();
    let n = r.len() as int;
    &&& idx.len() == n
    &&& data.len() == m + own_points(r)
    &&& forall|k1: int, k2: int| 0 <= k1 < k2 < n ==> idx[k1] != idx[k2]
    &&& forall|k: int|
        0 <= k < n ==> match #[trigger] r[k] {
            Slot::Crossing(i) => idx[k] == i && i < m,
            Slot::Point(_) => m <= idx[k] < data.len(),
        }
    &&& forall|k: int|
        0 <= k < n ==> {
            &&& unlinked(data[#[trigger] idx[k]]) == slot_node(r[k], crossings)
            &&& data[idx[k]].next == Some(idx[(k + 1) % n] as usize)
            &&& data[idx[k]].prev == Some(idx[(k + n - 1) % n] as usize)
        }
    &&& forall|i: int|
        0 <= i < m && (forall|k: int| 0 <= k < n ==> r[k] != Slot::<C, T>::Crossing(i as nat))
            ==> #[trigger] data[i] == crossings[i]
}

/// Crossing `i` is not among the places `e`.
pub open spec fn absent<C, T>(e: Seq<Slot<C, T>>, i: nat) -> bool {
    forall|k: int| 0 <= k < e.len() ==> e[k] != Slot::<C, T>::Crossing(i)
}

/// `data` holds the places `e` built so far, place `k` at index `idx[k]`, linked both ways
/// from the first to the last; the points of their own sit after the crossings, the last one
/// at the end; crossings not yet placed are as they were.
#[verifier::opaque]
pub open spec fn building<C, T>(
    data: Seq<CoordOfIntersection<C, T>>,
    crossings: Seq<CoordOfIntersection<C, T>>,
    e: Seq<Slot<C, T>>,
    idx: Seq<int>,
) -> bool {
    let m = crossings.len();
    let n = e.len();
    &&& n >= 1
    &&& idx.len() == n
    &&& data.len() == m + own_points(e)
    &&& forall|k1: int, k2: int| 0 <= k1 < k2 < n ==> idx[k1] != idx[k2]
    &&& forall|k: int|
        0 <= k < n ==> match #[trigger] e[k] {
            Slot::Crossing(i) => idx[k] == i && i < m,
            Slot::Point(_) => m <= idx[k] < data.len(),
        }
    &&& e.last() is Point ==> idx.last() == data.len() - 1
    &&& forall|k: int| 0 <= k < n ==> unlinked(data[#[trigger] idx[k]]) == slot_node(e[k], crossings)
    &&& forall|k: int| 0 <= k < n - 1 ==> data[#[trigger] idx[k]].next == Some(idx[k + 1] as usize)
    &&& forall|k: int| 1 <= k < n ==> data[#[trigger] idx[k]].prev == Some(idx[k - 1] as usize)
    &&& e[0] is Point ==> data[idx[0]].prev is None
    &&& forall|i: int| 0 <= i < m && absent(e, i as nat) ==> #[trigger] data[i] == crossings[i]
}

/// What the exec code needs of a partly built outline.
proof fn lemma_building_facts<C, T>(
    data: Seq<CoordOfIntersection<C, T>>,
    crossings: Seq<CoordOfIntersection<C, T>>,
    e: Seq<Slot<C, T>>,
    idx: Seq<int>,
)
    requires
        building(data, crossings, e, idx),
    ensures
        e.len() >= 1,
        idx.len() == e.len(),
        data.len() >= crossings.len() + own_points(e),
        forall|k: int| 0 <= k < e.len() ==> 0 <= #[trigger] idx[k] < data.len(),
        e.last() is Point ==> idx.last() == data.len() - 1,
        e.len() >= 2 ==> data[idx.last()].prev == Some(idx[e.len() - 2] as usize) && idx[0]
            != idx.last(),
        e.len() == 1 && e[0] is Point ==> data[idx[0]].prev is None,
{
    reveal(building);
    assert forall|k: int| 0 <= k < e.len() implies 0 <= #[trigger] idx[k] < data.len() by {
        match e[k] {
            Slot::Crossing(_) => {},
            Slot::Point(_) => {},
        }
    }
}

/// `data` with the link forward of point `i` set to `n`.
pub open spec fn set_next_of<C, T>(data: Seq<CoordOfIntersection<C, T>>, i: int, n: int) -> Seq<
    CoordOfIntersection<C, T>,
> {
    data.update(i, CoordOfIntersection { next: Some(n as usize), ..data[i] })
}

/// `data` with the link back of point `i` set to `p`.
pub open spec fn set_prev_of<C, T>(data: Seq<CoordOfIntersection<C, T>>, i: int, p: int) -> Seq<
    CoordOfIntersection<C, T>,
> {
    data.update(i, CoordOfIntersection { prev: Some(p as usize), ..data[i] })
}

proof fn lemma_own_points_push<C, T>(e: Seq<Slot<C, T>>, s: Slot<C, T>)
    ensures
        own_points(e.push(s)) == own_points(e) + if s is Point {
            1nat
        } else {
            0nat
        },
{
    assert(e.push(s).drop_last() =~= e);
}

/// A point of its own added after the last place.
proof fn lemma_build_point<C, T>(
    data: Seq<CoordOfIntersection<C, T>>,
    crossings: Seq<CoordOfIntersection<C, T>>,
    e: Seq<Slot<C, T>>,
    idx: Seq<int>,
    node: CoordOfIntersection<C, T>,
)
    requires
        building(data, crossings, e, idx),
        node.prev == Some(idx.last() as usize),
        data.len() <= usize::MAX,
    ensures
        building(
            set_next_of(data, idx.last(), data.len() as int).push(node),
            crossings,
            e.push(Slot::Point(unlinked(node))),
            idx.push(data.len() as int),
        ),
{
    reveal(building);
    let d1 = set_next_of(data, idx.last(), data.len() as int).push(node);
    let e1 = e.push(Slot::Point(unlinked(node)));
    let i1 = idx.push(data.len() as int);
    let n = e.len();
    lemma_own_points_push(e, Slot::Point(unlinked(node)));
    assert forall|k: int| 0 <= k < n + 1 implies match #[trigger] e1[k] {
        Slot::Crossing(i) => i1[k] == i && i < crossings.len(),
        Slot::Point(_) => crossings.len() <= i1[k] < d1.len(),
    } by {
        if k < n {
            assert(e1[k] == e[k]);
        }
    }
    assert forall|k: int| 0 <= k < n + 1 implies unlinked(d1[#[trigger] i1[k]]) == slot_node(
        e1[k],
        crossings,
    ) by {
        if k < n {
            assert(e1[k] == e[k]);
            assert(i1[k] == idx[k]);
        }
    }
    assert forall|k: int| 0 <= k < n implies d1[#[trigger] i1[k]].next == Some(i1[k + 1] as usize) by {
        assert(i1[k] == idx[k]);
    }
    assert forall|k: int| 1 <= k < n + 1 implies d1[#[trigger] i1[k]].prev == Some(
        i1[k - 1] as usize,
    ) by {
        if k < n {
            assert(i1[k] == idx[k]);
        }
    }
    assert forall|i: int| 0 <= i < crossings.len() && absent(e1, i as nat) implies #[trigger] d1[i]
        == crossings[i] by {
        assert forall|k: int| 0 <= k < n implies e[k] != Slot::<C, T>::Crossing(i as nat) by {
            assert(e1[k] == e[k]);
        }
    }
    assert forall|k1: int, k2: int| 0 <= k1 < k2 < n + 1 implies i1[k1] != i1[k2] by {
        if k2 < n {
            assert(i1[k1] == idx[k1] && i1[k2] == idx[k2]);
        } else {
            match e[k1] {
                Slot::Crossing(_) => {},
                Slot::Point(_) => {},
            }
            assert(e1[k1] == e[k1]);
        }
    }
    assert(e1[0] == e[0]) by {
        assert(n >= 1);
    }
}

/// A crossing linked after the last place.
proof fn lemma_build_crossing<C, T>(
    data: Seq<CoordOfIntersection<C, T>>,
    crossings: Seq<CoordOfIntersection<C, T>>,
    e: Seq<Slot<C, T>>,
    idx: Seq<int>,
    i: nat,
)
    requires
        building(data, crossings, e, idx),
        i < crossings.len(),
        absent(e, i),
    ensures
        building(
            set_prev_of(set_next_of(data, idx.last(), i as int), i as int, idx.last()),
            crossings,
            e.push(Slot::Crossing(i)),
            idx.push(i as int),
        ),
{
    reveal(building);
    let d1 = set_prev_of(set_next_of(data, idx.last(), i as int), i as int, idx.last());
    let e1 = e.push(Slot::Crossing(i));
    let i1 = idx.push(i as int);
    let n = e.len();
    lemma_own_points_push(e, Slot::<C, T>::Crossing(i));
    assert(data[i as int] == crossings[i as int]);
    assert forall|k: int| 0 <= k < n implies idx[k] != i by {
        assert(e[k] != Slot::<C, T>::Crossing(i));
        match e[k] {
            Slot::Crossing(j) => {},
            Slot::Point(_) => {},
        }
    }
    assert forall|k: int| 0 <= k < n + 1 implies match #[trigger] e1[k] {
        Slot::Crossing(j) => i1[k] == j && j < crossings.len(),
        Slot::Point(_) => crossings.len() <= i1[k] < d1.len(),
    } by {
        if k < n {
            assert(e1[k] == e[k]);
        }
    }
    assert forall|k: int| 0 <= k < n + 1 implies unlinked(d1[#[trigger] i1[k]]) == slot_node(
        e1[k],
        crossings,
    ) by {
        if k < n {
            assert(e1[k] == e[k]);
            assert(i1[k] == idx[k]);
        }
    }
    assert forall|k: int| 0 <= k < n implies d1[#[trigger] i1[k]].next == Some(i1[k + 1] as usize) by {
        assert(i1[k] == idx[k]);
    }
    assert forall|k: int| 1 <= k < n + 1 implies d1[#[trigger] i1[k]].prev == Some(
        i1[k - 1] as usize,
    ) by {
        if k < n {
            assert(i1[k] == idx[k]);
        }
    }
    assert forall|j: int| 0 <= j < crossings.len() && absent(e1, j as nat) implies #[trigger] d1[j]
        == crossings[j] by {
        assert forall|k: int| 0 <= k < n implies e[k] != Slot::<C, T>::Crossing(j as nat) by {
            assert(e1[k] == e[k]);
        }
        assert(e1[n as int] == Slot::<C, T>::Crossing(i));
        match e.last() {
            Slot::Crossing(_) => {},
            Slot::Point(_) => {},
        }
        assert(e[n - 1] != Slot::<C, T>::Crossing(j as nat));
        match e[n - 1] {
            Slot::Crossing(_) => {},
            Slot::Point(_) => {},
        }
    }
    assert(e1[0] == e[0]);
}

/// A crossing that takes the place of the first point, when nothing else is placed yet.
proof fn lemma_build_at_first<C, T>(
    data: Seq<CoordOfIntersection<C, T>>,
    crossings: Seq<CoordOfIntersection<C, T>>,
    e: Seq<Slot<C, T>>,
    idx: Seq<int>,
    i: nat,
)
    requires
        building(data, crossings, e, idx),
        e.len() == 1,
        e.last() is Point,
        i < crossings.len(),
        absent(e, i),
    ensures
        building(data.drop_last(), crossings, seq![Slot::Crossing(i)], seq![i as int]),
{
    reveal(building);
    let d2 = data.drop_last();
    let e1 = seq![Slot::<C, T>::Crossing(i)];
    assert(e1 =~= Seq::<Slot<C, T>>::empty().push(Slot::<C, T>::Crossing(i)));
    assert(e =~= Seq::<Slot<C, T>>::empty().push(e[0]));
    lemma_own_points_push(Seq::<Slot<C, T>>::empty(), e[0]);
    lemma_own_points_push(Seq::<Slot<C, T>>::empty(), Slot::<C, T>::Crossing(i));
    assert(data[i as int] == crossings[i as int]);
    assert(idx[0] == data.len() - 1);
    assert forall|j: int| 0 <= j < crossings.len() && absent(e1, j as nat) implies #[trigger] d2[j]
        == crossings[j] by {
        assert(e[0] != Slot::<C, T>::Crossing(j as nat));
        assert(absent(e, j as nat));
    }
}

/// A crossing that takes the place of the last point, a point of its own at the end, after
/// other places.
#[verifier::spinoff_prover]
#[verifier::rlimit(80)]
proof fn lemma_build_at_start<C, T>(
    data: Seq<CoordOfIntersection<C, T>>,
    crossings: Seq<CoordOfIntersection<C, T>>,
    e: Seq<Slot<C, T>>,
    idx: Seq<int>,
    i: nat,
)
    requires
        building(data, crossings, e, idx),
        e.len() >= 2,
        e.last() is Point,
        i < crossings.len(),
        absent(e, i),
    ensures
        building(
            set_prev_of(
                set_next_of(data, idx[e.len() - 2], i as int),
                i as int,
                idx[e.len() - 2],
            ).drop_last(),
            crossings,
            e.drop_last().push(Slot::Crossing(i)),
            idx.drop_last().push(i as int),
        ),
{
    reveal(building);
    let n = e.len();
    let d1 = set_prev_of(set_next_of(data, idx[n - 2], i as int), i as int, idx[n - 2]);
    let d2 = d1.drop_last();
    let e0 = e.drop_last();
    let e1 = e0.push(Slot::Crossing(i));
    let i1 = idx.drop_last().push(i as int);
    assert(e0.push(e.last()) =~= e);
    lemma_own_points_push(e0, e.last());
    lemma_own_points_push(e0, Slot::<C, T>::Crossing(i));
    assert(data[i as int] == crossings[i as int]);
    assert forall|k: int| 0 <= k < n implies idx[k] != i by {
        assert(e[k] != Slot::<C, T>::Crossing(i));
        match e[k] {
            Slot::Crossing(j) => {},
            Slot::Point(_) => {},
        }
    }
    assert forall|k: int| 0 <= k < n - 1 implies idx[k] < data.len() - 1 by {
        assert(idx[k] != idx[n - 1]);
        match e[k] {
            Slot::Crossing(j) => {},
            Slot::Point(_) => {},
        }
    }
    assert forall|k: int| 0 <= k < n implies match #[trigger] e1[k] {
        Slot::Crossing(j) => i1[k] == j && j < crossings.len(),
        Slot::Point(_) => crossings.len() <= i1[k] < d2.len(),
    } by {
        if k < n - 1 {
            assert(e1[k] == e[k]);
            assert(i1[k] == idx[k]);
        }
    }
    assert forall|k: int| 0 <= k < n implies unlinked(d2[#[trigger] i1[k]]) == slot_node(
        e1[k],
        crossings,
    ) by {
        if k < n - 1 {
            assert(e1[k] == e[k]);
            assert(i1[k] == idx[k]);
        }
    }
    assert forall|k: int| 0 <= k < n - 1 implies d2[#[trigger] i1[k]].next == Some(
        i1[k + 1] as usize,
    ) by {
        assert(i1[k] == idx[k]);
        if k < n - 2 {
            assert(i1[k + 1] == idx[k + 1]);
        }
    }
    assert forall|k: int| 1 <= k < n implies d2[#[trigger] i1[k]].prev == Some(
        i1[k - 1] as usize,
    ) by {
        assert(i1[k - 1] == idx[k - 1]);
        if k < n - 1 {
            assert(i1[k] == idx[k]);
        }
    }
    assert forall|j: int| 0 <= j < crossings.len() && absent(e1, j as nat) implies #[trigger] d2[j]
        == crossings[j] by {
        assert forall|k: int| 0 <= k < n implies e[k] != Slot::<C, T>::Crossing(j as nat) by {
            if k < n - 1 {
                assert(e1[k] == e[k]);
            }
        }
        assert(e1[n - 1] == Slot::<C, T>::Crossing(i));
    }
    assert forall|k1: int, k2: int| 0 <= k1 < k2 < n implies i1[k1] != i1[k2] by {
        assert(i1[k1] == idx[k1]);
        if k2 < n - 1 {
            assert(i1[k2] == idx[k2]);
        }
    }
    assert(e1[0] == e[0]);
}

/// The neighbours of place `k` of a ring of `n` places.
proof fn lemma_ring_index(k: int, n: int)
    requires
        0 <= k < n,
    ensures
        (k + 1) % n == if k + 1 < n {
            k + 1
        } else {
            0
        },
        (k + n - 1) % n == if k >= 1 {
            k - 1
        } else {
            n - 1
        },
{
    if k + 1 < n {
        vstd::arithmetic::div_mod::lemma_small_mod((k + 1) as nat, n as nat);
    } else {
        vstd::arithmetic::div_mod::lemma_mod_self_0(n);
    }
    if k >= 1 {
        assert((k + n - 1) % n == k - 1) by {
            vstd::arithmetic::div_mod::lemma_mod_add_multiples_vanish(k - 1, n);
            vstd::arithmetic::div_mod::lemma_small_mod((k - 1) as nat, n as nat);
        }
    } else {
        vstd::arithmetic::div_mod::lemma_small_mod((n - 1) as nat, n as nat);
    }
}

/// The last point dropped (it is the first point again) and the ring closed.
#[verifier::spinoff_prover]
#[verifier::rlimit(40)]
proof fn lemma_build_close<C, T>(
    data: Seq<CoordOfIntersection<C, T>>,
    crossings: Seq<CoordOfIntersection<C, T>>,
    e: Seq<Slot<C, T>>,
    idx: Seq<int>,
)
    requires
        building(data, crossings, e, idx),
        e.len() >= 4,
        e.last() is Point,
        e[e.len() - 2] is Point,
        idx[e.len() - 2] == data.len() - 2,
    ensures
        ({
            let d = data.drop_last();
            let last = data.len() - 2;
            holds_ring(
                set_prev_of(set_next_of(d, last, idx[0]), idx[0], last),
                crossings,
                e.drop_last(),
                idx.drop_last(),
            )
        }),
{
    reveal(building);
    let n = e.len();
    let d = data.drop_last();
    let last = data.len() - 2;
    let d1 = set_prev_of(set_next_of(d, last, idx[0]), idx[0], last);
    let r = e.drop_last();
    let ir = idx.drop_last();
    let nr = r.len() as int;
    assert(r.push(e.last()) =~= e);
    lemma_own_points_push(r, e.last());
    assert(idx[0] != idx[n - 2]);
    assert forall|k: int| 0 <= k < n - 1 implies idx[k] < data.len() - 1 by {
        assert(idx[k] != idx[n - 1]);
        match e[k] {
            Slot::Crossing(j) => {},
            Slot::Point(_) => {},
        }
    }
    assert forall|k: int| 0 <= k < nr implies match #[trigger] r[k] {
        Slot::Crossing(i) => ir[k] == i && i < crossings.len(),
        Slot::Point(_) => crossings.len() <= ir[k] < d1.len(),
    } by {
        assert(r[k] == e[k]);
        assert(ir[k] == idx[k]);
    }
    assert forall|k: int| 0 <= k < nr implies {
        &&& unlinked(d1[#[trigger] ir[k]]) == slot_node(r[k], crossings)
        &&& d1[ir[k]].next == Some(ir[(k + 1) % nr] as usize)
        &&& d1[ir[k]].prev == Some(ir[(k + nr - 1) % nr] as usize)
    } by {
        assert(r[k] == e[k]);
        assert(ir[k] == idx[k]);
        lemma_ring_index(k, nr);
    }
    assert forall|i: int|
        0 <= i < crossings.len() && (forall|k: int|
            0 <= k < nr ==> r[k] != Slot::<C, T>::Crossing(i as nat)) implies #[trigger] d1[i]
        == crossings[i] by {
        assert forall|k: int| 0 <= k < n implies e[k] != Slot::<C, T>::Crossing(i as nat) by {
            if k < nr {
                assert(r[k] == e[k]);
            }
        }
        assert(absent(e, i as nat));
    }
    assert forall|k1: int, k2: int| 0 <= k1 < k2 < nr implies ir[k1] != ir[k2] by {
        assert(ir[k1] == idx[k1] && ir[k2] == idx[k2]);
    }
}

fn set_next<C: Copy, T: Copy>(v: &mut Vec<CoordOfIntersection<C, T>>, i: usize, n: usize)
    requires
        i < old(v)@.len(),
    ensures
        final(v)@ == set_next_of(old(v)@, i as int, n as int),
{
    let mut node = v[i];
    node.next = Some(n);
    v.set(i, node);
}

fn set_prev<C: Copy, T: Copy>(v: &mut Vec<CoordOfIntersection<C, T>>, i: usize, p: usize)
    requires
        i < old(v)@.len(),
    ensures
        final(v)@ == set_prev_of(old(v)@, i as int, p as int),
{
    let mut node = v[i];
    node.prev = Some(p);
    v.set(i, node);
}

/// A place added after the places `e` keeps out every crossing that `e` kept out but `i`.
proof fn lemma_absent_after<C, T>(e: Seq<Slot<C, T>>, s: Slot<C, T>, x: nat)
    requires
        absent(e, x),
        s != Slot::<C, T>::Crossing(x),
    ensures
        absent(e.push(s), x),
        e.len() >= 1 ==> absent(e.drop_last().push(s), x),
{
    assert forall|k: int| 0 <= k < e.len() + 1 implies e.push(s)[k] != Slot::<C, T>::Crossing(x) by {
        if k < e.len() {
            assert(e.push(s)[k] == e[k]);
        }
    }
    if e.len() >= 1 {
        assert forall|k: int| 0 <= k < e.len() implies e.drop_last().push(s)[k] != Slot::<
            C,
            T,
        >::Crossing(x) by {
            if k < e.len() - 1 {
                assert(e.drop_last().push(s)[k] == e[k]);
            }
        }
    }
}

/// Adds `node` as a point of its own after the point at `current`; gives its index.
fn link_point<C: Copy, T: Copy>(
    result: &mut Vec<CoordOfIntersection<C, T>>,
    current: usize,
    node: CoordOfIntersection<C, T>,
) -> (at: usize)
    requires
        current < old(result)@.len(),
    ensures
        at == old(result)@.len(),
        final(result)@ == set_next_of(old(result)@, current as int, at as int).push(
            CoordOfIntersection { prev: Some(current), ..node },
        ),
{
    let at = result.len();
    set_next(result, current, at);
    let mut n = node;
    n.prev = Some(current);
    result.push(n);
    at
}

/// Builds the outline of a closed shape for a boolean operation: the crossings first, at
/// their own indices, then the first point of the shape, then, curve by curve, the pieces
/// `plan` cuts it into, each point linked to the one before and after it; a cut at the start of
/// a curve puts its crossing in place of the point there. The last end point is the first
/// point again and is dropped, and the outline closes on its start.
pub fn link_outline<C: Copy, T: Copy>(
    crossings: Vec<CoordOfIntersection<C, T>>,
    first: CoordOfIntersection<C, T>,
    plan: &Vec<CurveCuts<C, T>>,
) -> (g: GreinerShape<C, T>)
    requires
        plan_fits(plan@, crossings@.len()),
    ensures
        g.intersections_len == crossings@.len(),
        exists|idx: Seq<int>|
            holds_ring(g.data@, crossings@, ring_of(first, plan@), idx) && g.start == idx[0],
{
    let ghost cr = crossings@;
    let ghost first_seq = seq![Slot::<C, T>::Point(unlinked(first))];
    let m = crossings.len();
    let mut result = crossings;
    let mut p = first;
    p.next = None;
    p.prev = None;
    result.push(p);
    let mut current = m;
    let mut start = m;
    let ghost mut e: Seq<Slot<C, T>> = first_seq;
    let ghost mut idx: Seq<int> = seq![m as int];
    proof {
        assert(first_seq =~= Seq::<Slot<C, T>>::empty().push(Slot::Point(unlinked(first))));
        lemma_own_points_push(Seq::<Slot<C, T>>::empty(), Slot::Point(unlinked(first)));
        assert(after_curves(first_seq, plan@, 0) == first_seq);
        assert(building(result@, cr, e, idx)) by {
            reveal(building);
            assert(unlinked(result@[m as int]) == unlinked(first));
            assert forall|i: int| 0 <= i < m && absent(e, i as nat) implies #[trigger] result@[i]
                == cr[i] by {
                assert(result@[i] == cr[i]);
            }
        }
        assert forall|c2: int, j2: int|
            0 <= c2 < plan@.len() && 0 <= j2 < plan@[c2].cuts@.len() implies absent(
            e,
            cut_crossing(#[trigger] plan@[c2].cuts@[j2]),
        ) by {
            assert(e[0] is Point);
        }
    }
    let mut c: usize = 0;
    while c < plan.len()
        invariant
            cr.len() == m,
            plan_fits(plan@, m as nat),
            c <= plan@.len(),
            first_seq == seq![Slot::<C, T>::Point(unlinked(first))],
            e == after_curves(first_seq, plan@, c as nat),
            building(result@, cr, e, idx),
            current as int == idx.last(),
            start as int == idx[0],
            e.last() is Point,
            c >= 1 ==> e.len() >= 4 && e[e.len() - 2] is Point && idx[e.len() - 2] == result@.len()
                - 2,
            forall|c2: int, j2: int|
                c <= c2 < plan@.len() && 0 <= j2 < plan@[c2].cuts@.len() ==> absent(
                    e,
                    cut_crossing(#[trigger] plan@[c2].cuts@[j2]),
                ),
        decreases plan@.len() - c,
    {
        let cuts = &plan[c].cuts;
        let mut j: usize = 0;
        let ghost e_c = e;
        proof {
            assert(after_cuts(e_c, cuts@, 0) == e_c);
        }
        while j < cuts.len()
            invariant
                cr.len() == m,
                plan_fits(plan@, m as nat),
                c < plan@.len(),
                *cuts == plan@[c as int].cuts,
                j <= cuts@.len(),
                e_c == after_curves(first_seq, plan@, c as nat),
                e == after_cuts(e_c, cuts@, j as nat),
                building(result@, cr, e, idx),
                current as int == idx.last(),
                start as int == idx[0],
                j == 0 ==> e.last() is Point,
                forall|c2: int, j2: int|
                    ((c2 == c && j <= j2) || (c < c2 && c2 < plan@.len())) && 0 <= j2
                        < plan@[c2].cuts@.len() ==> absent(
                        e,
                        cut_crossing(#[trigger] plan@[c2].cuts@[j2]),
                    ),
            decreases cuts@.len() - j,
        {
            let cut = cuts[j];
            let ghost x = cut_crossing(cut);
            proof {
                lemma_building_facts(result@, cr, e, idx);
                assert(plan@[c as int].cuts@[j as int] == cut);
                assert(absent(e, x));
                assert(x < m);
            }
            let ghost d0 = result@;
            let ghost e0 = e;
            let ghost i0 = idx;
            match cut {
                Cut::AtStart(i) => {
                    proof {
                        assert(j == 0) by {
                            if j > 0 {
                                assert(plan@[c as int].cuts@[j as int] is Split);
                            }
                        }
                    }
                    match result[current].prev {
                        Some(prev) => {
                            set_next(&mut result, prev, i);
                            set_prev(&mut result, i, prev);
                        },
                        None => {},
                    }
                    result.remove(current);
                    if current == start {
                        start = i;
                    }
                    current = i;
                    proof {
                        let n = e0.len();
                        if n >= 2 {
                            assert(d0[i0[n - 1]].prev == Some(i0[n - 2] as usize));
                            lemma_build_at_start(d0, cr, e0, i0, i as nat);
                            assert(result@ =~= set_prev_of(
                                set_next_of(d0, i0[n - 2], i as int),
                                i as int,
                                i0[n - 2],
                            ).drop_last());
                            assert(i0[0] != i0[n - 1]);
                        } else {
                            lemma_build_at_first(d0, cr, e0, i0, i as nat);
                            assert(result@ =~= d0.drop_last());
                            assert(e0.drop_last().push(Slot::<C, T>::Crossing(i as nat)) =~= seq![
                                Slot::<C, T>::Crossing(i as nat),
                            ]);
                            assert(i0.drop_last().push(i as int) =~= seq![i as int]);
                        }
                        e = e0.drop_last().push(Slot::Crossing(i as nat));
                        idx = i0.drop_last().push(i as int);
                        assert forall|c2: int, j2: int|
                            ((c2 == c && j + 1 <= j2) || (c < c2 && c2 < plan@.len())) && 0 <= j2
                                < plan@[c2].cuts@.len() implies absent(
                            e,
                            cut_crossing(#[trigger] plan@[c2].cuts@[j2]),
                        ) by {
                            lemma_absent_after(
                                e0,
                                Slot::<C, T>::Crossing(i as nat),
                                cut_crossing(plan@[c2].cuts@[j2]),
                            );
                        }
                    }
                },
                Cut::Split(a, b, i) => {
                    let at_a = link_point(&mut result, current, a);
                    let ghost na = CoordOfIntersection { prev: Some(current), ..a };
                    proof {
                        lemma_build_point(d0, cr, e0, i0, na);
                        assert(unlinked(na) == unlinked(a));
                        e = e0.push(Slot::Point(unlinked(a)));
                        idx = i0.push(at_a as int);
                    }
                    current = at_a;
                    let ghost d1 = result@;
                    let ghost e1 = e;
                    let ghost i1 = idx;
                    proof {
                        lemma_building_facts(d1, cr, e1, i1);
                    }
                    let at_b = link_point(&mut result, current, b);
                    let ghost nb = CoordOfIntersection { prev: Some(current), ..b };
                    proof {
                        lemma_build_point(d1, cr, e1, i1, nb);
                        assert(unlinked(nb) == unlinked(b));
                        e = e1.push(Slot::Point(unlinked(b)));
                        idx = i1.push(at_b as int);
                    }
                    current = at_b;
                    let ghost d2 = result@;
                    let ghost e2 = e;
                    let ghost i2 = idx;
                    proof {
                        lemma_building_facts(d2, cr, e2, i2);
                        lemma_absent_after(e0, Slot::Point(unlinked(a)), i as nat);
                        lemma_absent_after(e1, Slot::Point(unlinked(b)), i as nat);
                    }
                    set_next(&mut result, current, i);
                    set_prev(&mut result, i, current);
                    current = i;
                    proof {
                        lemma_build_crossing(d2, cr, e2, i2, i as nat);
                        e = e2.push(Slot::Crossing(i as nat));
                        idx = i2.push(i as int);
                        assert forall|c2: int, j2: int|
                            ((c2 == c && j + 1 <= j2) || (c < c2 && c2 < plan@.len())) && 0 <= j2
                                < plan@[c2].cuts@.len() implies absent(
                            e,
                            cut_crossing(#[trigger] plan@[c2].cuts@[j2]),
                        ) by {
                            let y = cut_crossing(plan@[c2].cuts@[j2]);
                            lemma_absent_after(e0, Slot::Point(unlinked(a)), y);
                            lemma_absent_after(e1, Slot::Point(unlinked(b)), y);
                            lemma_absent_after(e2, Slot::<C, T>::Crossing(i as nat), y);
                        }
                    }
                },
            }
            j = j + 1;
        }
        let ghost d0 = result@;
        let ghost e0 = e;
        let ghost i0 = idx;
        proof {
            lemma_building_facts(d0, cr, e0, i0);
        }
        let cc = &plan[c];
        let at0 = link_point(&mut result, current, cc.cp0);
        proof {
            lemma_build_point(d0, cr, e0, i0, CoordOfIntersection { prev: Some(current), ..cc.cp0 });
            e = e0.push(Slot::Point(unlinked(cc.cp0)));
            idx = i0.push(at0 as int);
        }
        current = at0;
        let ghost d1 = result@;
        let ghost e1 = e;
        let ghost i1 = idx;
        proof {
            lemma_building_facts(d1, cr, e1, i1);
        }
        let at1 = link_point(&mut result, current, cc.cp1);
        proof {
            lemma_build_point(d1, cr, e1, i1, CoordOfIntersection { prev: Some(current), ..cc.cp1 });
            e = e1.push(Slot::Point(unlinked(cc.cp1)));
            idx = i1.push(at1 as int);
        }
        current = at1;
        let ghost d2 = result@;
        let ghost e2 = e;
        let ghost i2 = idx;
        proof {
            lemma_building_facts(d2, cr, e2, i2);
        }
        let at2 = link_point(&mut result, current, cc.p1);
        proof {
            lemma_build_point(d2, cr, e2, i2, CoordOfIntersection { prev: Some(current), ..cc.p1 });
            e = e2.push(Slot::Point(unlinked(cc.p1)));
            idx = i2.push(at2 as int);
            assert(e == after_curve(e_c, plan@[c as int]));
            assert(e == after_curves(first_seq, plan@, (c + 1) as nat));
            assert forall|c2: int, j2: int|
                c + 1 <= c2 < plan@.len() && 0 <= j2 < plan@[c2].cuts@.len() implies absent(
                e,
                cut_crossing(#[trigger] plan@[c2].cuts@[j2]),
            ) by {
                let y = cut_crossing(plan@[c2].cuts@[j2]);
                lemma_absent_after(e0, Slot::Point(unlinked(cc.cp0)), y);
                lemma_absent_after(e1, Slot::Point(unlinked(cc.cp1)), y);
                lemma_absent_after(e2, Slot::Point(unlinked(cc.p1)), y);
            }
        }
        current = at2;
        c = c + 1;
    }
    let ghost d0 = result@;
    proof {
        lemma_building_facts(d0, cr, e, idx);
        lemma_build_close(d0, cr, e, idx);
    }
    result.pop();
    let last = result.len() - 1;
    set_next(&mut result, last, start);
    set_prev(&mut result, start, last);
    proof {
        assert(d0.subrange(0, d0.len() - 1) =~= d0.drop_last());
        assert(ring_of(first, plan@) == e.drop_last());
        assert(holds_ring(result@, cr, ring_of(first, plan@), idx.drop_last()));
        assert(start as int == idx.drop_last()[0]);
    }
    GreinerShape::new(result, start, m)
}

/// Cut `j` of curve `c` comes before cut `j2` of curve `c2` in `plan`.
pub open spec fn cut_before(c: int, j: int, c2: int, j2: int) -> bool {
    c < c2 || (c == c2 && j < j2)
}

/// The cuts of `plan` before cut `j` of curve `c` fit the way `plan_fits` asks.
pub open spec fn fits_before<C, T>(plan: Seq<CurveCuts<C, T>>, m: nat, c: int, j: int) -> bool {
    &&& forall|c1: int, j1: int|
        0 <= c1 < plan.len() && 0 <= j1 < plan[c1].cuts@.len() && cut_before(c1, j1, c, j) ==> {
            &&& cut_crossing(#[trigger] plan[c1].cuts@[j1]) < m
            &&& (j1 > 0 ==> plan[c1].cuts@[j1] is Split)
        }
    &&& forall|c1: int, j1: int, c2: int, j2: int|
        0 <= c1 < plan.len() && 0 <= j1 < plan[c1].cuts@.len() && 0 <= c2 < plan.len() && 0 <= j2
            < plan[c2].cuts@.len() && cut_before(c1, j1, c, j) && cut_before(c2, j2, c, j) && (c1
            != c2 || j1 != j2) ==> cut_crossing(#[trigger] plan[c1].cuts@[j1]) != cut_crossing(
            #[trigger] plan[c2].cuts@[j2],
        )
}

/// Whether `plan` fits `m` crossings, as `link_outline` asks.
pub fn check_plan<C: Copy, T: Copy>(plan: &Vec<CurveCuts<C, T>>, m: usize) -> (b: bool)
    ensures
        b == plan_fits(plan@, m as nat),
{
    let mut seen: Vec<bool> = Vec::new();
    let mut k: usize = 0;
    while k < m
        invariant
            k <= m,
            seen@.len() == k,
            forall|i: int| 0 <= i < k ==> !seen@[i],
        decreases m - k,
    {
        seen.push(false);
        k = k + 1;
    }
    let mut c: usize = 0;
    while c < plan.len()
        invariant
            c <= plan@.len(),
            seen@.len() == m,
            fits_before(plan@, m as nat, c as int, 0),
            forall|i: int|
                0 <= i < m && #[trigger] seen@[i] ==> exists|c1: int, j1: int|
                    0 <= c1 < plan@.len() && 0 <= j1 < plan@[c1].cuts@.len() && cut_before(
                        c1,
                        j1,
                        c as int,
                        0,
                    ) && cut_crossing(#[trigger] plan@[c1].cuts@[j1]) == i,
            forall|c1: int, j1: int|
                0 <= c1 < plan@.len() && 0 <= j1 < plan@[c1].cuts@.len() && cut_before(
                    c1,
                    j1,
                    c as int,
                    0,
                ) ==> seen@[cut_crossing(#[trigger] plan@[c1].cuts@[j1]) as int],
        decreases plan@.len() - c,
    {
        let cuts = &plan[c].cuts;
        let mut j: usize = 0;
        while j < cuts.len()
            invariant
                c < plan@.len(),
                *cuts == plan@[c as int].cuts,
                j <= cuts@.len(),
                seen@.len() == m,
                fits_before(plan@, m as nat, c as int, j as int),
                forall|i: int|
                    0 <= i < m && #[trigger] seen@[i] ==> exists|c1: int, j1: int|
                        0 <= c1 < plan@.len() && 0 <= j1 < plan@[c1].cuts@.len() && cut_before(
                            c1,
                            j1,
                            c as int,
                            j as int,
                        ) && cut_crossing(#[trigger] plan@[c1].cuts@[j1]) == i,
                forall|c1: int, j1: int|
                    0 <= c1 < plan@.len() && 0 <= j1 < plan@[c1].cuts@.len() && cut_before(
                        c1,
                        j1,
                        c as int,
                        j as int,
                    ) ==> seen@[cut_crossing(#[trigger] plan@[c1].cuts@[j1]) as int],
            decreases cuts@.len() - j,
        {
            let cut = cuts[j];
            proof {
                assert(plan@[c as int].cuts@[j as int] == cut);
            }
            let x = match cut {
                Cut::AtStart(i) => {
                    if j > 0 {
                        return false;
                    }
                    i
                },
                Cut::Split(_, _, i) => i,
            };
            if x >= m {
                return false;
            }
            if seen[x] {
                proof {
                    let (c1, j1) = choose|c1: int, j1: int|
                        0 <= c1 < plan@.len() && 0 <= j1 < plan@[c1].cuts@.len() && cut_before(
                            c1,
                            j1,
                            c as int,
                            j as int,
                        ) && cut_crossing(#[trigger] plan@[c1].cuts@[j1]) == x;
                    assert(cut_crossing(plan@[c1].cuts@[j1]) == cut_crossing(
                        plan@[c as int].cuts@[j as int],
                    ));
                }
                return false;
            }
            seen.set(x, true);
            proof {
                assert forall|i: int|
                    0 <= i < m && #[trigger] seen@[i] implies exists|c1: int, j1: int|
                        0 <= c1 < plan@.len() && 0 <= j1 < plan@[c1].cuts@.len() && cut_before(
                            c1,
                            j1,
                            c as int,
                            j + 1,
                        ) && cut_crossing(#[trigger] plan@[c1].cuts@[j1]) == i by {
                    if i == x {
                        assert(cut_crossing(plan@[c as int].cuts@[j as int]) == i);
                    }
                }
            }
            j = j + 1;
        }
        proof {
            assert forall|i: int|
                0 <= i < m && #[trigger] seen@[i] implies exists|c1: int, j1: int|
                    0 <= c1 < plan@.len() && 0 <= j1 < plan@[c1].cuts@.len() && cut_before(
                        c1,
                        j1,
                        c + 1,
                        0,
                    ) && cut_crossing(#[trigger] plan@[c1].cuts@[j1]) == i by {
                let (c1, j1) = choose|c1: int, j1: int|
                    0 <= c1 < plan@.len() && 0 <= j1 < plan@[c1].cuts@.len() && cut_before(
                        c1,
                        j1,
                        c as int,
                        j as int,
                    ) && cut_crossing(#[trigger] plan@[c1].cuts@[j1]) == i;
                assert(cut_before(c1, j1, c + 1, 0));
            }
        }
        c = c + 1;
    }
    plan.len() >= 1
}

} // verus!
