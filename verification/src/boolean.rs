use vstd::prelude::*;

use crate::ids::{CoordId, IdGenerator};
use crate::scene::vec_index_mut;
use crate::shape::{counter_after, next_counter, DbCoord, Shape};

verus! {

/// How a point where the outlines of two shapes meet relates the two outlines: they cross
/// there, or they run together on one side of it, on both sides, or it is an ordinary point.
#[derive(Debug, Clone, Copy, PartialEq, Eq, Structural)]
pub enum IntersectionType {
    Intersection,
    UnspecifiedCommonIntersection,
    CommonIntersection,
    IntersectionCommon,
    Common,
    Nothing,
}

/// The outlines cross at a point of this kind (leaving a common part counts).
pub open spec fn crosses(t: IntersectionType) -> bool {
    t == IntersectionType::Intersection || t == IntersectionType::CommonIntersection || t
        == IntersectionType::UnspecifiedCommonIntersection
}

/// The outlines cross at a point of this kind, entering or leaving a common part.
pub open spec fn crosses_any(t: IntersectionType) -> bool {
    crosses(t) || t == IntersectionType::IntersectionCommon
}

/// The outlines run together on at least one side of a point of this kind.
pub open spec fn runs_together(t: IntersectionType) -> bool {
    t == IntersectionType::Common || t == IntersectionType::CommonIntersection || t
        == IntersectionType::IntersectionCommon
}

/// The short label of a kind of meeting point in a table of outline points.
pub open spec fn intersection_label(t: IntersectionType) -> Seq<char> {
    match t {
        IntersectionType::Intersection => "Inter."@,
        IntersectionType::Common => "Common"@,
        IntersectionType::Nothing => "None"@,
        IntersectionType::CommonIntersection => "C.Int."@,
        IntersectionType::IntersectionCommon => "Int.C."@,
        IntersectionType::UnspecifiedCommonIntersection => "Unspec."@,
    }
}

impl IntersectionType {
    /// The short label of this kind of point, as a table of outline points shows it.
    pub fn to_string(&self) -> (s: String)
        ensures
            s@ == intersection_label(*self),
    {
        proof {
            reveal_strlit("Inter.");
            reveal_strlit("Common");
            reveal_strlit("None");
            reveal_strlit("C.Int.");
            reveal_strlit("Int.C.");
            reveal_strlit("Unspec.");
        }
        match self {
            IntersectionType::Intersection => String::from_str("Inter."),
            IntersectionType::Common => String::from_str("Common"),
            IntersectionType::Nothing => String::from_str("None"),
            IntersectionType::CommonIntersection => String::from_str("C.Int."),
            IntersectionType::IntersectionCommon => String::from_str("Int.C."),
            IntersectionType::UnspecifiedCommonIntersection => String::from_str("Unspec."),
        }
    }

    /// The outlines cross here (leaving a common part counts).
    pub fn is_intersection(&self) -> (b: bool)
        ensures
            b == crosses(*self),
    {
        match self {
            IntersectionType::Intersection => true,
            IntersectionType::CommonIntersection => true,
            IntersectionType::UnspecifiedCommonIntersection => true,
            _ => false,
        }
    }

    /// The outlines cross here, entering or leaving a common part.
    pub fn is_any_intersection(&self) -> (b: bool)
        ensures
            b == crosses_any(*self),
    {
        match self {
            IntersectionType::Intersection => true,
            IntersectionType::CommonIntersection => true,
            IntersectionType::UnspecifiedCommonIntersection => true,
            IntersectionType::IntersectionCommon => true,
            _ => false,
        }
    }

    /// The outlines run together on at least one side of this point.
    pub fn is_common(&self) -> (b: bool)
        ensures
            b == runs_together(*self),
    {
        match self {
            IntersectionType::Common => true,
            IntersectionType::CommonIntersection => true,
            IntersectionType::IntersectionCommon => true,
            _ => false,
        }
    }
}

/// A crossing is always a crossing in the wider sense.
pub proof fn lemma_intersection_is_any_intersection(t: IntersectionType)
    ensures
        crosses(t) ==> crosses_any(t),
{
}

/// Index of the first `false` in `v`.
pub fn find_index_false(v: &Vec<bool>) -> (res: Option<usize>)
    ensures
        match res {
            Some(i) => i < v@.len() && !v@[i as int] && forall|j: int| 0 <= j < i ==> v@[j],
            None => forall|j: int| 0 <= j < v@.len() ==> v@[j],
        },
{
    let mut i: usize = 0;
    while i < v.len()
        invariant
            i <= v@.len(),
            forall|j: int| 0 <= j < i ==> v@[j],
        decreases v@.len() - i,
    {
        if !v[i] {
            return Some(i);
        }
        i = i + 1;
    }
    None
}

/// How two curves that run together lie on each other.
#[derive(Debug, Clone, Copy, PartialEq, Eq, Structural)]
pub enum Overlap {
    /// The first curve is the shorter one and lies on the second.
    ASmallerAndInsideB,
    /// The second curve is the shorter one and lies on the first.
    BSmallerAndInsideA,
    /// The curves do not lie on each other.
    Nothing,
}

/// Which way to walk the outline.
#[derive(Debug, Clone, Copy, PartialEq, Eq, Structural)]
pub enum Direction {
    Forward,
    Backward,
}

/// Why a walk along an outline failed.
#[derive(Debug, Clone, Copy, PartialEq, Eq, Structural)]
pub enum GreinerError {
    /// The walk reached an index past the end of the outline.
    IndexOutOfBound,
    /// A point on the walk has no next point.
    NoNext,
    /// A point on the walk has no previous point.
    NoPrev,
    /// A crossing has no counterpart on the other outline.
    NoNeighbor,
    /// The walk never came back to where it started.
    EndlessWalk,
    /// No point of the outline lies off the other outline.
    NoFreePoint,
    /// The outlines cross an odd number of times.
    OddIntersections,
    /// The outlines only touch where they run together: they are the same outline.
    SameOutline,
}

/// A point of an outline prepared for a boolean operation: the points of the shape with the
/// crossings with the other shape put in, linked both ways.
#[derive(Debug, Clone, Copy)]
pub struct CoordOfIntersection<C, T> {
    /// The curve of the shape that the point lies on.
    pub curve_index: usize,
    /// Where on that curve.
    pub t: T,
    /// For a crossing, the index of the same crossing in the other outline.
    pub neighbor: Option<usize>,
    pub next: Option<usize>,
    pub prev: Option<usize>,
    /// Whether the walk enters the other shape here.
    pub entry: bool,
    pub intersect: IntersectionType,
    pub coord: C,
    /// The point of the shape that this point is, where it is one.
    pub rel_coord: Option<DbCoord<C>>,
}

/// An outline prepared for a boolean operation. Its first `intersections_len` points are the
/// crossings, in the order in which they were found; `start` is where the outline starts.
#[derive(Debug, Clone)]
pub struct GreinerShape<C, T> {
    pub data: Vec<CoordOfIntersection<C, T>>,
    pub start: usize,
    pub intersections_len: usize,
}

/// The link of a point in direction `dir`.
pub open spec fn link<C, T>(c: CoordOfIntersection<C, T>, dir: Direction) -> Option<usize> {
    match dir {
        Direction::Forward => c.next,
        Direction::Backward => c.prev,
    }
}

/// The error of a missing link in direction `dir`.
pub open spec fn missing_link(dir: Direction) -> GreinerError {
    match dir {
        Direction::Forward => GreinerError::NoNext,
        Direction::Backward => GreinerError::NoPrev,
    }
}

/// Where `count` steps in direction `dir` from `cur` lead.
pub open spec fn walk<C, T>(
    data: Seq<CoordOfIntersection<C, T>>,
    cur: int,
    count: nat,
    dir: Direction,
) -> Result<int, GreinerError>
    decreases count,
{
    if count == 0 {
        Ok(cur)
    } else if !(0 <= cur < data.len()) {
        Err(GreinerError::IndexOutOfBound)
    } else {
        match link(data[cur], dir) {
            None => Err(missing_link(dir)),
            Some(n) => walk(data, n as int, (count - 1) as nat, dir),
        }
    }
}

/// The points of the curve that starts at `cur` and goes in direction `dir`, if the links
/// are there.
pub open spec fn curve_from<C, T>(
    data: Seq<CoordOfIntersection<C, T>>,
    cur: int,
    dir: Direction,
) -> Option<(C, C, C, C)> {
    let i0 = cur;
    if !(0 <= i0 < data.len()) || link(data[i0], dir) is None {
        None
    } else {
        let i1 = link(data[i0], dir)->0 as int;
        if !(0 <= i1 < data.len()) || link(data[i1], dir) is None {
            None
        } else {
            let i2 = link(data[i1], dir)->0 as int;
            if !(0 <= i2 < data.len()) || link(data[i2], dir) is None {
                None
            } else {
                let i3 = link(data[i2], dir)->0 as int;
                if !(0 <= i3 < data.len()) {
                    None
                } else {
                    Some((data[i0].coord, data[i1].coord, data[i2].coord, data[i3].coord))
                }
            }
        }
    }
}

/// Every link points into the outline.
pub open spec fn links_in_range<C, T>(data: Seq<CoordOfIntersection<C, T>>) -> bool {
    forall|i: int|
        0 <= i < data.len() ==> ((#[trigger] data[i]).next matches Some(n) ==> n < data.len()) && (
        data[i].prev matches Some(p) ==> p < data.len())
}

/// The point reached from `cur` by following at most `k` next links (stopping early at a
/// point without one).
pub open spec fn follow_next<C, T>(data: Seq<CoordOfIntersection<C, T>>, cur: int, k: nat) -> int
    decreases k,
{
    if k == 0 || !(0 <= cur < data.len()) || data[cur].next is None {
        cur
    } else {
        follow_next(data, data[cur].next->0 as int, (k - 1) as nat)
    }
}

/// `c` with `entry` set to `e`.
pub open spec fn with_entry<C, T>(c: CoordOfIntersection<C, T>, e: bool) -> CoordOfIntersection<
    C,
    T,
> {
    CoordOfIntersection { entry: e, ..c }
}

/// Number of rounds of marking for an outline of `len` points: one per three points, over
/// `len + 2` (the rounds of `(0..len + 2).step_by(3)`).
pub open spec fn mark_rounds(len: nat) -> nat {
    ((len + 2 + 2) / 3) as nat
}

/// The outline, the point reached, the entry status to give next, and the error that stopped
/// the marking (if any), after `n` rounds of marking from `cur` with status `status`: each
/// round goes three points forward; a crossing gets the status, which then flips; a point
/// where the outlines run together gets the status, which stays.
pub open spec fn marked<C, T>(
    data: Seq<CoordOfIntersection<C, T>>,
    cur: int,
    status: bool,
    n: nat,
) -> (Seq<CoordOfIntersection<C, T>>, int, bool, Option<GreinerError>)
    decreases n,
{
    if n == 0 {
        (data, cur, status, None)
    } else {
        let prev = marked(data, cur, status, (n - 1) as nat);
        let (d, c, st, e) = prev;
        if e is Some {
            prev
        } else {
            match walk(d, c, 3, Direction::Forward) {
                Err(err) => (d, c, st, Some(err)),
                Ok(i) => {
                    let node = d[i];
                    if crosses(node.intersect) {
                        (d.update(i, with_entry(node, st)), i, !st, None)
                    } else if runs_together(node.intersect) {
                        (d.update(i, with_entry(node, st)), i, st, None)
                    } else {
                        (d, i, st, None)
                    }
                },
            }
        }
    }
}

/// Steps along links that point into the outline end inside it.
pub proof fn lemma_walk_lands_in_range<C, T>(
    data: Seq<CoordOfIntersection<C, T>>,
    cur: int,
    count: nat,
    dir: Direction,
)
    requires
        links_in_range(data),
        count > 0,
    ensures
        walk(data, cur, count, dir) matches Ok(i) ==> 0 <= i < data.len(),
    decreases count,
{
    if 0 <= cur < data.len() {
        match link(data[cur], dir) {
            None => {},
            Some(n) => {
                if count > 1 {
                    lemma_walk_lands_in_range(data, n as int, (count - 1) as nat, dir);
                }
            },
        }
    }
}

/// Changing where the walk enters the other shape keeps the links.
pub proof fn lemma_entry_keeps_links<C, T>(
    data: Seq<CoordOfIntersection<C, T>>,
    i: int,
    e: bool,
)
    requires
        links_in_range(data),
        0 <= i < data.len(),
    ensures
        links_in_range(data.update(i, with_entry(data[i], e))),
        forall|cur: int, count: nat, dir: Direction|
            #[trigger] walk(data.update(i, with_entry(data[i], e)), cur, count, dir) == walk(
                data,
                cur,
                count,
                dir,
            ),
{
    let d2 = data.update(i, with_entry(data[i], e));
    assert forall|j: int| 0 <= j < d2.len() implies link(d2[j], Direction::Forward) == link(
        data[j],
        Direction::Forward,
    ) && link(d2[j], Direction::Backward) == link(data[j], Direction::Backward) by {}
    assert forall|cur: int, count: nat, dir: Direction|
        #[trigger] walk(d2, cur, count, dir) == walk(data, cur, count, dir) by {
        lemma_walk_same_links(data, d2, cur, count, dir);
    }
}

/// Walks depend on the links alone.
proof fn lemma_walk_same_links<C, T>(
    a: Seq<CoordOfIntersection<C, T>>,
    b: Seq<CoordOfIntersection<C, T>>,
    cur: int,
    count: nat,
    dir: Direction,
)
    requires
        a.len() == b.len(),
        forall|j: int| 0 <= j < a.len() ==> #[trigger] link(a[j], dir) == link(b[j], dir),
    ensures
        walk(a, cur, count, dir) == walk(b, cur, count, dir),
    decreases count,
{
    if count > 0 && 0 <= cur < a.len() {
        assert(link(a[cur], dir) == link(b[cur], dir));
        match link(a[cur], dir) {
            None => {},
            Some(n) => {
                lemma_walk_same_links(a, b, n as int, (count - 1) as nat, dir);
            },
        }
    }
}

/// Once marking has stopped on an error, further rounds change nothing.
proof fn lemma_marked_stays_stopped<C, T>(
    data: Seq<CoordOfIntersection<C, T>>,
    cur: int,
    status: bool,
    k: nat,
    n: nat,
)
    requires
        k <= n,
        marked(data, cur, status, k).3 is Some,
    ensures
        marked(data, cur, status, n) == marked(data, cur, status, k),
    decreases n - k,
{
    if k < n {
        lemma_marked_stays_stopped(data, cur, status, (k + 1) as nat, n);
    }
}

/// No crossing in `v`.
pub fn empty_intersection<C, T>(v: &Vec<CoordOfIntersection<C, T>>) -> (b: bool)
    ensures
        b == forall|i: int| 0 <= i < v@.len() ==> !crosses(#[trigger] v@[i].intersect),
{
    let mut i: usize = 0;
    while i < v.len()
        invariant
            i <= v@.len(),
            forall|j: int| 0 <= j < i ==> !crosses(#[trigger] v@[j].intersect),
        decreases v@.len() - i,
    {
        if v[i].intersect.is_intersection() {
            return false;
        }
        i = i + 1;
    }
    true
}

impl<C: Copy, T: Copy> CoordOfIntersection<C, T> {
    /// The point of the shape that this point stands for: its own point where it has one,
    /// else a point at its position with a new identifier.
    pub fn coord_ptr(&self, ids: &mut IdGenerator) -> (c: DbCoord<C>)
        ensures
            match self.rel_coord {
                Some(r) => c == r && final(ids).peek() == old(ids).peek(),
                None => c.coord == self.coord && c.id.spec_value() == old(ids).peek()
                    && final(ids).peek() == next_counter(old(ids).peek()),
            },
    {
        match &self.rel_coord {
            Some(rel_coord) => *rel_coord,
            None => DbCoord::new(self.coord, ids),
        }
    }
}

impl<C: Copy, T: Copy> GreinerShape<C, T> {
    pub fn new(data: Vec<CoordOfIntersection<C, T>>, start: usize, intersections_len: usize) -> (g:
        GreinerShape<C, T>)
        ensures
            g.data@ == data@,
            g.start == start,
            g.intersections_len == intersections_len,
    {
        GreinerShape { data, start, intersections_len }
    }

    pub fn len(&self) -> (n: usize)
        ensures
            n == self.data@.len(),
    {
        self.data.len()
    }

    /// The point reached by `count` steps in direction `dir` from `start`, with its index.
    pub fn move_by(&self, start: usize, count: usize, direction: Direction) -> (res: Result<
        (usize, &CoordOfIntersection<C, T>),
        GreinerError,
    >)
        requires
            walk(self.data@, start as int, count as nat, direction) matches Ok(i) ==> 0 <= i
                < self.data@.len(),
        ensures
            match res {
                Ok((i, c)) => walk(self.data@, start as int, count as nat, direction) == Ok::<
                    int,
                    GreinerError,
                >(i as int) && *c == self.data@[i as int],
                Err(e) => walk(self.data@, start as int, count as nat, direction) == Err::<
                    int,
                    GreinerError,
                >(e),
            },
    {
        match self.walk_index(start, count, direction) {
            Ok(i) => Ok((i, &self.data[i])),
            Err(e) => Err(e),
        }
    }

    /// The index reached by `count` steps in direction `dir` from `start`.
    fn walk_index(&self, start: usize, count: usize, direction: Direction) -> (res: Result<
        usize,
        GreinerError,
    >)
        ensures
            match res {
                Ok(i) => walk(self.data@, start as int, count as nat, direction) == Ok::<
                    int,
                    GreinerError,
                >(i as int),
                Err(e) => walk(self.data@, start as int, count as nat, direction) == Err::<
                    int,
                    GreinerError,
                >(e),
            },
    {
        let mut current = start;
        let mut remaining = count;
        while remaining > 0
            invariant
                walk(self.data@, start as int, count as nat, direction) == walk(
                    self.data@,
                    current as int,
                    remaining as nat,
                    direction,
                ),
            decreases remaining,
        {
            if current >= self.data.len() {
                return Err(GreinerError::IndexOutOfBound);
            }
            let value = &self.data[current];
            let next = match direction {
                Direction::Forward => value.next,
                Direction::Backward => value.prev,
            };
            match next {
                Some(n) => {
                    current = n;
                },
                None => {
                    return match direction {
                        Direction::Forward => Err(GreinerError::NoNext),
                        Direction::Backward => Err(GreinerError::NoPrev),
                    };
                },
            }
            remaining = remaining - 1;
        }
        Ok(current)
    }

    /// The point reached by `count` steps in direction `dir` from `start`, with its index, to
    /// change in place.
    pub fn move_by_mut(&mut self, start: usize, count: usize, direction: Direction) -> (res:
        Result<(usize, &mut CoordOfIntersection<C, T>), GreinerError>)
        requires
            walk(old(self).data@, start as int, count as nat, direction) matches Ok(i) ==> 0 <= i
                < old(self).data@.len(),
        ensures
            final(self).start == old(self).start,
            final(self).intersections_len == old(self).intersections_len,
            match res {
                Ok((i, c)) => walk(old(self).data@, start as int, count as nat, direction) == Ok::<
                    int,
                    GreinerError,
                >(i as int) && *c == old(self).data@[i as int] && final(self).data@ == old(
                    self).data@.update(i as int, *final(c)),
                Err(e) => walk(old(self).data@, start as int, count as nat, direction) == Err::<
                    int,
                    GreinerError,
                >(e) && final(self).data@ == old(self).data@,
            },
    {
        match self.walk_index(start, count, direction) {
            Ok(i) => Ok((i, vec_index_mut(&mut self.data, i))),
            Err(e) => Err(e),
        }
    }

    /// The four points of the curve that starts at `current_index` and goes in direction
    /// `direction`.
    pub fn next_curve(&self, current_index: usize, direction: Direction) -> (res: Result<
        (C, C, C, C),
        GreinerError,
    >)
        ensures
            match res {
                Ok(c) => curve_from(self.data@, current_index as int, direction) == Some(c),
                Err(e) => curve_from(self.data@, current_index as int, direction) is None && e
                    == GreinerError::NoNext,
            },
    {
        let i0 = current_index;
        if i0 >= self.data.len() {
            return Err(GreinerError::NoNext);
        }
        let i1 = match self.link_of(i0, direction) {
            Some(n) => n,
            None => {
                return Err(GreinerError::NoNext);
            },
        };
        if i1 >= self.data.len() {
            return Err(GreinerError::NoNext);
        }
        let i2 = match self.link_of(i1, direction) {
            Some(n) => n,
            None => {
                return Err(GreinerError::NoNext);
            },
        };
        if i2 >= self.data.len() {
            return Err(GreinerError::NoNext);
        }
        let i3 = match self.link_of(i2, direction) {
            Some(n) => n,
            None => {
                return Err(GreinerError::NoNext);
            },
        };
        if i3 >= self.data.len() {
            return Err(GreinerError::NoNext);
        }
        Ok((self.data[i0].coord, self.data[i1].coord, self.data[i2].coord, self.data[i3].coord))
    }

    fn link_of(&self, i: usize, direction: Direction) -> (l: Option<usize>)
        requires
            i < self.data@.len(),
        ensures
            l == link(self.data@[i as int], direction),
    {
        match direction {
            Direction::Forward => self.data[i].next,
            Direction::Backward => self.data[i].prev,
        }
    }

    /// The point `index` steps forward from the start (or the last one reached, where the
    /// outline ends before).
    pub fn get(&self, index: usize) -> (c: &CoordOfIntersection<C, T>)
        requires
            self.start < self.data@.len(),
            links_in_range(self.data@),
        ensures
            *c == self.data@[follow_next(self.data@, self.start as int, index as nat)],
    {
        let mut current = self.start;
        let mut count: usize = 0;
        while count < index && self.data[current].next.is_some()
            invariant
                current < self.data@.len(),
                links_in_range(self.data@),
                count <= index,
                follow_next(self.data@, self.start as int, index as nat) == follow_next(
                    self.data@,
                    current as int,
                    (index - count) as nat,
                ),
            decreases index - count,
        {
            let n = match self.data[current].next {
                Some(n) => n,
                None => current,
            };
            current = n;
            count = count + 1;
        }
        &self.data[current]
    }

    /// Marks from `start_index` which crossings enter the other shape, alternating from
    /// `status_entry`, as `marked` says.
    pub fn run_mark_entry(&mut self, start_index: usize, status_entry: bool) -> (res: Result<
        (),
        GreinerError,
    >)
        requires
            links_in_range(old(self).data@),
            old(self).data@.len() + 2 <= usize::MAX,
        ensures
            final(self).start == old(self).start,
            final(self).intersections_len == old(self).intersections_len,
            ({
                let m = marked(
                    old(self).data@,
                    start_index as int,
                    status_entry,
                    mark_rounds(old(self).data@.len()),
                );
                &&& final(self).data@ == m.0
                &&& match res {
                    Ok(()) => m.3 is None,
                    Err(e) => m.3 == Some(e),
                }
            }),
    {
        let ghost data0 = self.data@;
        let ghost status0 = status_entry;
        let len = self.data.len();
        let rounds = if (len + 2) % 3 == 0 {
            (len + 2) / 3
        } else {
            (len + 2) / 3 + 1
        };
        assert(rounds == mark_rounds(len as nat));
        let mut current_index = start_index;
        let mut status = status_entry;
        let mut k: usize = 0;
        while k < rounds
            invariant
                k <= rounds,
                rounds == mark_rounds(data0.len()),
                data0 == old(self).data@,
                status0 == status_entry,
                self.start == old(self).start,
                self.intersections_len == old(self).intersections_len,
                self.data@.len() == data0.len(),
                links_in_range(self.data@),
                marked(data0, start_index as int, status0, k as nat) == (
                    self.data@,
                    current_index as int,
                    status,
                    None::<GreinerError>,
                ),
            decreases rounds - k,
        {
            proof {
                lemma_walk_lands_in_range(self.data@, current_index as int, 3, Direction::Forward);
            }
            let step = self.walk_index(current_index, 3, Direction::Forward);
            match step {
                Err(e) => {
                    proof {
                        assert(marked(data0, start_index as int, status0, (k + 1) as nat) == (
                            self.data@,
                            current_index as int,
                            status,
                            Some(e),
                        ));
                        lemma_marked_stays_stopped(
                            data0,
                            start_index as int,
                            status0,
                            (k + 1) as nat,
                            rounds as nat,
                        );
                    }
                    return Err(e);
                },
                Ok(i) => {
                    current_index = i;
                    let mut node = self.data[i];
                    if node.intersect.is_intersection() {
                        proof {
                            lemma_entry_keeps_links(self.data@, i as int, status);
                        }
                        node.entry = status;
                        self.data.set(i, node);
                        status = !status;
                    } else if node.intersect.is_common() {
                        proof {
                            lemma_entry_keeps_links(self.data@, i as int, status);
                        }
                        node.entry = status;
                        self.data.set(i, node);
                    }
                },
            }
            k = k + 1;
        }
        Ok(())
    }
}


/// Which boolean operation an outline trace builds.
#[derive(Debug, Clone, Copy, PartialEq, Eq, Structural)]
pub enum BooleanOp {
    /// The part of the first shape outside the second.
    Difference,
    /// The part common to both shapes.
    Intersection,
}

/// Whether a trace that is on a point of the second outline (`on_b`) or of the first, with
/// entry status `entry`, goes forward.
pub open spec fn walks_forward(op: BooleanOp, on_b: bool, entry: bool) -> bool {
    match op {
        BooleanOp::Difference => on_b == entry,
        BooleanOp::Intersection => entry,
    }
}

/// Whether a trace stops at `node` (of the second outline where `on_b`) and goes over to the
/// other outline: at any crossing for a difference; for an intersection at a plain crossing, or
/// where the outlines start or stop running together in the way that leaves the common part.
pub open spec fn stops<C, T>(op: BooleanOp, on_b: bool, node: CoordOfIntersection<C, T>) -> bool {
    match op {
        BooleanOp::Difference => crosses(node.intersect),
        BooleanOp::Intersection => node.intersect == IntersectionType::Intersection || (
        node.intersect == IntersectionType::IntersectionCommon && node.entry == on_b) || (
        node.intersect == IntersectionType::CommonIntersection && node.entry != on_b),
    }
}

/// The direction that `forward` names.
pub open spec fn dir_of(forward: bool) -> Direction {
    if forward {
        Direction::Forward
    } else {
        Direction::Backward
    }
}

/// Two outlines that a trace can walk: links point inside, every point has both links,
/// both have the same number of crossings at their front, every point where a trace can stop
/// is one of those, and each crossing knows its counterpart on the other outline.
pub open spec fn traceable<C, T>(g: GreinerShape<C, T>, other: GreinerShape<C, T>) -> bool {
    &&& links_in_range(g.data@)
    &&& forall|i: int|
        0 <= i < g.data@.len() ==> (#[trigger] g.data@[i]).next is Some && g.data@[i].prev is Some
    &&& g.intersections_len <= g.data@.len()
    &&& g.intersections_len == other.intersections_len
    &&& forall|i: int|
        0 <= i < g.data@.len() && crosses_any((#[trigger] g.data@[i]).intersect) ==> i
            < g.intersections_len
    &&& forall|i: int|
        0 <= i < g.intersections_len ==> ((#[trigger] g.data@[i]).neighbor matches Some(n) && n
            < other.data@.len())
}

/// The point that a point of an outline stands for in a traced path: its own point where it
/// has one, else one at its position (with a new identifier).
pub open spec fn stands_for<C, T>(p: DbCoord<C>, node: CoordOfIntersection<C, T>) -> bool {
    match node.rel_coord {
        Some(r) => p == r,
        None => p.coord == node.coord,
    }
}

/// `count` steps in direction `dir` from `from` lead to a point that `p` stands for.
pub open spec fn walked_to<C, T>(
    data: Seq<CoordOfIntersection<C, T>>,
    from: int,
    count: nat,
    dir: Direction,
    p: DbCoord<C>,
) -> bool {
    match walk(data, from, count, dir) {
        Ok(x) => 0 <= x < data.len() && stands_for(p, data[x]),
        Err(_) => false,
    }
}

/// Number of `false` in `v`.
pub open spec fn count_false(v: Seq<bool>) -> nat
    decreases v.len(),
{
    if v.len() == 0 {
        0
    } else {
        count_false(v.drop_last()) + if v.last() {
            0nat
        } else {
            1nat
        }
    }
}

proof fn lemma_count_false_set_true(v: Seq<bool>, i: int)
    requires
        0 <= i < v.len(),
    ensures
        count_false(v.update(i, true)) == if v[i] {
            count_false(v)
        } else {
            (count_false(v) - 1) as nat
        },
    decreases v.len(),
{
    let w = v.update(i, true);
    assert(count_false(w) == count_false(w.drop_last()) + if w.last() {
        0nat
    } else {
        1nat
    });
    assert(count_false(v) == count_false(v.drop_last()) + if v.last() {
        0nat
    } else {
        1nat
    });
    if i == v.len() - 1 {
        assert(w.drop_last() =~= v.drop_last());
    } else {
        assert(w.drop_last() =~= v.drop_last().update(i, true));
        assert(w.last() == v.last());
        assert(v.drop_last()[i] == v[i]);
        lemma_count_false_set_true(v.drop_last(), i);
        if !v[i] {
            lemma_count_false_positive(v.drop_last(), i);
        }
    }
}

proof fn lemma_count_false_positive(v: Seq<bool>, i: int)
    requires
        0 <= i < v.len(),
        !v[i],
    ensures
        count_false(v) > 0,
    decreases v.len(),
{
    if i < v.len() - 1 {
        lemma_count_false_positive(v.drop_last(), i);
    }
}

/// `done` only gained marks from `before`.
pub open spec fn only_gained(before: Seq<bool>, done: Seq<bool>) -> bool {
    &&& done.len() == before.len()
    &&& forall|x: int| 0 <= x < before.len() && before[x] ==> #[trigger] done[x]
}

proof fn lemma_only_gained_count(before: Seq<bool>, done: Seq<bool>)
    requires
        only_gained(before, done),
    ensures
        count_false(done) <= count_false(before),
    decreases before.len(),
{
    if before.len() > 0 {
        let b = before.drop_last();
        let d = done.drop_last();
        assert forall|x: int| 0 <= x < b.len() && b[x] implies #[trigger] d[x] by {
            assert(before[x]);
        }
        lemma_only_gained_count(b, d);
        assert(before.last() ==> done[before.len() - 1]);
    }
}

/// The marks in `done` after a leg of `r` rounds of three steps from `cur`: for an
/// intersection every crossing the leg lands on at the end of a round, for a difference the
/// crossing where it stops.
pub open spec fn leg_marks<C, T>(
    done: Seq<bool>,
    data: Seq<CoordOfIntersection<C, T>>,
    cur: int,
    dir: Direction,
    op: BooleanOp,
    r: nat,
) -> Seq<bool>
    decreases r,
{
    match op {
        BooleanOp::Difference => done.update(walk(data, cur, 3 * r, dir)->Ok_0, true),
        BooleanOp::Intersection => if r == 0 {
            done
        } else {
            let prev = leg_marks(done, data, cur, dir, op, (r - 1) as nat);
            let x = walk(data, cur, 3 * r, dir)->Ok_0;
            if x < done.len() {
                prev.update(x, true)
            } else {
                prev
            }
        },
    }
}

/// The number of rounds of three steps in direction `dir` from `cur` after which the walk
/// first lands on a point where the trace goes over, looking at no more than `fuel` rounds.
pub open spec fn first_stop<C, T>(
    data: Seq<CoordOfIntersection<C, T>>,
    cur: int,
    dir: Direction,
    op: BooleanOp,
    on_b: bool,
    fuel: nat,
) -> Option<nat>
    decreases fuel,
{
    if fuel == 0 {
        None
    } else {
        match walk(data, cur, 3, dir) {
            Ok(x) => if !(0 <= x < data.len()) {
                None
            } else if stops(op, on_b, data[x]) {
                Some(1)
            } else {
                match first_stop(data, x, dir, op, on_b, (fuel - 1) as nat) {
                    Some(r) => Some(r + 1),
                    None => None,
                }
            },
            Err(_) => None,
        }
    }
}

/// The first `r` rounds of three steps from `from` land inside the outline, on points where
/// the trace does not go over.
pub open spec fn no_stop_upto<C, T>(
    data: Seq<CoordOfIntersection<C, T>>,
    from: int,
    dir: Direction,
    op: BooleanOp,
    on_b: bool,
    r: nat,
) -> bool {
    forall|q: nat|
        1 <= q <= r ==> (#[trigger] walk(data, from, 3 * q, dir) matches Ok(x) && 0 <= x
            < data.len() && !stops(op, on_b, data[x]))
}

/// A walk that first stops after `r` rounds gives `first_stop` `r`.
proof fn lemma_first_stop_found<C, T>(
    data: Seq<CoordOfIntersection<C, T>>,
    from: int,
    dir: Direction,
    op: BooleanOp,
    on_b: bool,
    r: nat,
    fuel: nat,
)
    requires
        1 <= r <= fuel,
        no_stop_upto(data, from, dir, op, on_b, (r - 1) as nat),
        walk(data, from, 3 * r, dir) matches Ok(x) && 0 <= x < data.len() && stops(op, on_b, data[x]),
    ensures
        first_stop(data, from, dir, op, on_b, fuel) == Some(r),
    decreases r,
{
    if r > 1 {
        assert(walk(data, from, 3 * 1, dir) matches Ok(x) && 0 <= x < data.len());
        let x1 = walk(data, from, 3, dir)->Ok_0;
        assert forall|q: nat| 1 <= q <= (r - 2) as nat implies (#[trigger] walk(data, x1, 3 * q, dir) matches Ok(x)
            && 0 <= x < data.len() && !stops(op, on_b, data[x])) by {
            lemma_walk_concat(data, from, 3, 3 * q, dir);
            assert(walk(data, from, 3 * (q + 1), dir) matches Ok(_));
            assert(3 + 3 * q == 3 * (q + 1));
        }
        lemma_walk_concat(data, from, 3, 3 * ((r - 1) as nat), dir);
        assert(3 + 3 * ((r - 1) as nat) == 3 * r);
        lemma_first_stop_found(data, x1, dir, op, on_b, (r - 1) as nat, (fuel - 1) as nat);
    }
}

/// A walk that does not stop in `fuel` rounds gives no `first_stop`.
proof fn lemma_first_stop_none<C, T>(
    data: Seq<CoordOfIntersection<C, T>>,
    from: int,
    dir: Direction,
    op: BooleanOp,
    on_b: bool,
    fuel: nat,
)
    requires
        no_stop_upto(data, from, dir, op, on_b, fuel),
    ensures
        first_stop(data, from, dir, op, on_b, fuel) is None,
    decreases fuel,
{
    if fuel > 0 {
        assert(walk(data, from, 3 * 1, dir) matches Ok(x) && 0 <= x < data.len());
        let x1 = walk(data, from, 3, dir)->Ok_0;
        assert forall|q: nat| 1 <= q <= (fuel - 1) as nat implies (#[trigger] walk(data, x1, 3 * q, dir) matches Ok(x)
            && 0 <= x < data.len() && !stops(op, on_b, data[x])) by {
            lemma_walk_concat(data, from, 3, 3 * q, dir);
            assert(walk(data, from, 3 * (q + 1), dir) matches Ok(_));
            assert(3 + 3 * q == 3 * (q + 1));
        }
        lemma_first_stop_none(data, x1, dir, op, on_b, (fuel - 1) as nat);
    }
}

impl<C: Copy, T: Copy> GreinerShape<C, T> {
    fn stops_at(&self, op: BooleanOp, on_b: bool, i: usize) -> (b: bool)
        requires
            i < self.data@.len(),
        ensures
            b == stops(op, on_b, self.data@[i as int]),
    {
        let node = &self.data[i];
        match op {
            BooleanOp::Difference => node.intersect.is_intersection(),
            BooleanOp::Intersection => node.intersect == IntersectionType::Intersection || (
            node.intersect == IntersectionType::IntersectionCommon && node.entry == on_b) || (
            node.intersect == IntersectionType::CommonIntersection && node.entry != on_b),
        }
    }

    /// Walks from `from` three points at a time, in direction `forward`, adding the points
    /// walked over to `path`, until a point where the trace goes over to the other outline;
    /// returns that point. Crossings walked onto are marked in `done` (for an intersection every
    /// crossing reached, for a difference the one where the walk ends). Fails on a walk that
    /// would never end.
    fn walk_to_stop(
        &self,
        other: &GreinerShape<C, T>,
        from: usize,
        forward: bool,
        op: BooleanOp,
        on_b: bool,
        path: &mut Vec<DbCoord<C>>,
        done: &mut Vec<bool>,
        ids: &mut IdGenerator,
    ) -> (res: Result<usize, GreinerError>)
        requires
            traceable(*self, *other),
            from < self.data@.len(),
            old(done)@.len() == self.intersections_len,
        ensures
            only_gained(old(done)@, final(done)@),
            match res {
                Ok(end) => {
                    &&& final(done)@ == leg_marks(
                        old(done)@,
                        self.data@,
                        from as int,
                        dir_of(forward),
                        op,
                        ((final(path)@.len() - old(path)@.len()) / 3) as nat,
                    )
                    &&& end < self.data@.len()
                    &&& stops(op, on_b, self.data@[end as int])
                    &&& final(path)@.len() > old(path)@.len()
                    &&& final(path)@.len() - old(path)@.len() == 3 * ((final(path)@.len()
                        - old(path)@.len()) / 3)
                    &&& final(path)@.subrange(0, old(path)@.len() as int) == old(path)@
                    &&& forall|m: int|
                        old(path)@.len() <= m < final(path)@.len() ==> walked_to(
                            self.data@,
                            from as int,
                            (m - old(path)@.len() + 1) as nat,
                            dir_of(forward),
                            #[trigger] final(path)@[m],
                        )
                    &&& walk(
                        self.data@,
                        from as int,
                        (final(path)@.len() - old(path)@.len()) as nat,
                        dir_of(forward),
                    ) == Ok::<int, GreinerError>(end as int)
                    &&& first_stop(
                        self.data@,
                        from as int,
                        dir_of(forward),
                        op,
                        on_b,
                        self.data@.len(),
                    ) == Some(((final(path)@.len() - old(path)@.len()) / 3) as nat)
                },
                Err(e) => e == GreinerError::EndlessWalk && first_stop(
                    self.data@,
                    from as int,
                    dir_of(forward),
                    op,
                    on_b,
                    self.data@.len(),
                ) is None,
            },
    {
        let ghost path0 = path@;
        let ghost done0 = done@;
        let dir = if forward {
            Direction::Forward
        } else {
            Direction::Backward
        };
        let len = self.data.len();
        let mut cur = from;
        let mut rounds: usize = 0;
        loop
            invariant_except_break
                done0 == old(done)@,
                path0 == old(path)@,
                traceable(*self, *other),
                len == self.data@.len(),
                dir == dir_of(forward),
                cur < len,
                rounds <= len + 1,
                done@.len() == self.intersections_len,
                only_gained(done0, done@),
                path@.len() == path0.len() + 3 * rounds,
                path@.subrange(0, path0.len() as int) == path0,
                walk(self.data@, from as int, 3 * rounds as nat, dir) == Ok::<int, GreinerError>(
                    cur as int,
                ),
                no_stop_upto(self.data@, from as int, dir, op, on_b, rounds as nat),
                op == BooleanOp::Intersection ==> done@ == leg_marks(
                    done0,
                    self.data@,
                    from as int,
                    dir,
                    op,
                    rounds as nat,
                ),
                op == BooleanOp::Difference ==> done@ == done0,
                forall|m: int|
                    path0.len() <= m < path@.len() ==> walked_to(
                        self.data@,
                        from as int,
                        (m - path0.len() + 1) as nat,
                        dir,
                        #[trigger] path@[m],
                    ),
            decreases len + 1 - rounds,
        {
            if rounds >= len {
                proof {
                    lemma_first_stop_none(self.data@, from as int, dir, op, on_b, len as nat);
                }
                return Err(GreinerError::EndlessWalk);
            }
            let mut k: usize = 0;
            while k < 3
                invariant
                    traceable(*self, *other),
                    len == self.data@.len(),
                    dir == dir_of(forward),
                    cur < len,
                    k <= 3,
                    rounds < len,
                    path@.len() == path0.len() + 3 * rounds + k,
                    path@.subrange(0, path0.len() as int) == path0,
                    walk(self.data@, from as int, (3 * rounds + k) as nat, dir) == Ok::<
                        int,
                        GreinerError,
                    >(cur as int),
                    forall|m: int|
                        path0.len() <= m < path@.len() ==> walked_to(
                            self.data@,
                            from as int,
                            (m - path0.len() + 1) as nat,
                            dir,
                            #[trigger] path@[m],
                        ),
                decreases 3 - k,
            {
                let next = match self.link_of(cur, dir) {
                    Some(n) => n,
                    None => {
                        assert(false);
                        cur
                    },
                };
                proof {
                    lemma_walk_extend(self.data@, from as int, (3 * rounds + k) as nat, dir, cur as int);
                }
                let p = self.data[next].coord_ptr(ids);
                let ghost before = path@;
                path.push(p);
                proof {
                    assert(path@.subrange(0, path0.len() as int) =~= before.subrange(
                        0,
                        path0.len() as int,
                    ));
                    assert forall|m: int|
                        path0.len() <= m < path@.len() implies walked_to(
                            self.data@,
                            from as int,
                            (m - path0.len() + 1) as nat,
                            dir,
                            #[trigger] path@[m],
                        ) by {
                        if m < before.len() {
                            assert(path@[m] == before[m]);
                        }
                    }
                }
                cur = next;
                k = k + 1;
            }
            rounds = rounds + 1;
            match op {
                BooleanOp::Intersection => {
                    if cur < self.intersections_len {
                        proof {
                            let d = done@;
                            assert(only_gained(done0, d.update(cur as int, true)));
                        }
                        done.set(cur, true);
                    }
                },
                BooleanOp::Difference => {},
            }
            if self.stops_at(op, on_b, cur) {
                if op == BooleanOp::Difference {
                    proof {
                        let d = done@;
                        assert(only_gained(done0, d.update(cur as int, true)));
                    }
                    done.set(cur, true);
                }
                assert((path@.len() - path0.len()) == 3 * rounds);
                assert((3 * rounds as int) / 3 == rounds as int);
                proof {
                    lemma_first_stop_found(
                        self.data@,
                        from as int,
                        dir,
                        op,
                        on_b,
                        rounds as nat,
                        len as nat,
                    );
                }
                return Ok(cur);
            }
            proof {
                assert forall|q: nat| 1 <= q <= rounds as nat implies (#[trigger] walk(
                    self.data@,
                    from as int,
                    3 * q,
                    dir,
                ) matches Ok(x) && 0 <= x < self.data@.len() && !stops(op, on_b, self.data@[x])) by {
                    if q == rounds {
                        assert(3 * q == 3 * (rounds as nat));
                    }
                }
            }
        }
    }
}

/// One more step from where `count` steps led.
proof fn lemma_walk_extend<C, T>(
    data: Seq<CoordOfIntersection<C, T>>,
    from: int,
    count: nat,
    dir: Direction,
    cur: int,
)
    requires
        walk(data, from, count, dir) == Ok::<int, GreinerError>(cur),
        0 <= cur < data.len(),
        link(data[cur], dir) is Some,
    ensures
        walk(data, from, count + 1, dir) == Ok::<int, GreinerError>(
            link(data[cur], dir)->0 as int,
        ),
    decreases count,
{
    if count > 0 {
        let n = link(data[from], dir)->0 as int;
        assert(walk(data, from, count, dir) == walk(data, n, (count - 1) as nat, dir));
        lemma_walk_extend(data, n, (count - 1) as nat, dir, cur);
        assert(walk(data, from, count + 1, dir) == walk(data, n, count, dir));
    } else {
        let n = link(data[cur], dir)->0 as int;
        assert(walk(data, n, 0, dir) == Ok::<int, GreinerError>(n));
    }
}

/// The outline that a trace walks: the second one where `on_b`.
pub open spec fn outline_of<C, T>(
    ag: GreinerShape<C, T>,
    bg: GreinerShape<C, T>,
    on_b: bool,
) -> GreinerShape<C, T> {
    if on_b {
        bg
    } else {
        ag
    }
}

/// The points that `count` single steps in direction `dir` from `cur` walk over, in order.
pub open spec fn walked_nodes<C, T>(
    data: Seq<CoordOfIntersection<C, T>>,
    cur: int,
    count: nat,
    dir: Direction,
) -> Seq<CoordOfIntersection<C, T>> {
    Seq::new(count, |m: int| data[walk(data, cur, (m + 1) as nat, dir)->Ok_0])
}

/// What a trace gives: the crossing of the first outline it starts from, the points it walks
/// over in order, the marks in `done` once it is over, and how many legs it took.
pub struct Trace<C, T> {
    pub start: int,
    pub nodes: Seq<CoordOfIntersection<C, T>>,
    pub done: Seq<bool>,
    pub legs: nat,
}

/// The rest of the trace that started at crossing `start` of the first outline (whose
/// counterpart on the second outline is `start_nb`), from point `cur` of the outline that
/// `on_b` names, with the marks `done`: each leg walks three points at a time, in the direction
/// the point it starts from gives, until the first point where the trace goes over, leaving its
/// marks, then jumps to that point's counterpart on the other outline; the trace ends when it
/// is back at `start` or at `start_nb`. `None` where a leg never stops or `legs` legs do not
/// close the trace.
#[verifier::opaque]
pub open spec fn trace_walk<C, T>(
    ag: GreinerShape<C, T>,
    bg: GreinerShape<C, T>,
    op: BooleanOp,
    start: int,
    start_nb: int,
    cur: int,
    on_b: bool,
    legs: nat,
    done: Seq<bool>,
) -> Option<Trace<C, T>>
    decreases legs,
{
    let g = outline_of(ag, bg, on_b);
    let dir = dir_of(walks_forward(op, on_b, g.data@[cur].entry));
    if legs == 0 {
        None
    } else {
        match first_stop(g.data@, cur, dir, op, on_b, g.data@.len()) {
            None => None,
            Some(r) => {
                let leg = walked_nodes(g.data@, cur, 3 * r, dir);
                let marked = leg_marks(done, g.data@, cur, dir, op, r);
                let end = walk(g.data@, cur, 3 * r, dir)->Ok_0;
                let nb = g.data@[end].neighbor->0 as int;
                if (on_b && nb == start) || (!on_b && nb == start_nb) {
                    Some(Trace { start, nodes: leg, done: marked, legs: 1 })
                } else {
                    match trace_walk(
                        ag,
                        bg,
                        op,
                        start,
                        start_nb,
                        nb,
                        !on_b,
                        (legs - 1) as nat,
                        marked,
                    ) {
                        Some(t) => Some(
                            Trace { start, nodes: leg + t.nodes, done: t.done, legs: t.legs + 1 },
                        ),
                        None => None,
                    }
                }
            },
        }
    }
}

/// One leg of a trace: where the walk from `cur` first stops after `r` rounds and jumps to
/// `nb`, the trace is that leg, then the rest of the trace from `nb` on the other outline.
proof fn lemma_trace_step<C, T>(
    ag: GreinerShape<C, T>,
    bg: GreinerShape<C, T>,
    op: BooleanOp,
    start: int,
    start_nb: int,
    cur: int,
    on_b: bool,
    legs: nat,
    done: Seq<bool>,
    r: nat,
    nb: int,
)
    requires
        legs >= 1,
        ({
            let g = outline_of(ag, bg, on_b);
            let dir = dir_of(walks_forward(op, on_b, g.data@[cur].entry));
            &&& first_stop(g.data@, cur, dir, op, on_b, g.data@.len()) == Some(r)
            &&& nb == g.data@[walk(g.data@, cur, 3 * r, dir)->Ok_0].neighbor->0 as int
        }),
    ensures
        ({
            let g = outline_of(ag, bg, on_b);
            let dir = dir_of(walks_forward(op, on_b, g.data@[cur].entry));
            let leg = walked_nodes(g.data@, cur, 3 * r, dir);
            let marked = leg_marks(done, g.data@, cur, dir, op, r);
            trace_walk(ag, bg, op, start, start_nb, cur, on_b, legs, done) == if (on_b && nb
                == start) || (!on_b && nb == start_nb) {
                Some(Trace { start, nodes: leg, done: marked, legs: 1 })
            } else {
                match trace_walk(
                    ag,
                    bg,
                    op,
                    start,
                    start_nb,
                    nb,
                    !on_b,
                    (legs - 1) as nat,
                    marked,
                ) {
                    Some(t) => Some(
                        Trace { start, nodes: leg + t.nodes, done: t.done, legs: t.legs + 1 },
                    ),
                    None => None,
                }
            }
        }),
{
    reveal(trace_walk);
}

/// A trace is tagged with the crossing it started from.
proof fn lemma_trace_start<C, T>(
    ag: GreinerShape<C, T>,
    bg: GreinerShape<C, T>,
    op: BooleanOp,
    start: int,
    start_nb: int,
    cur: int,
    on_b: bool,
    legs: nat,
    done: Seq<bool>,
)
    ensures
        trace_walk(ag, bg, op, start, start_nb, cur, on_b, legs, done) matches Some(t) ==> t.start
            == start && t.legs >= 1,
{
    reveal(trace_walk);
}

/// A trace with no legs left, or whose next leg never stops, gives nothing.
proof fn lemma_trace_none<C, T>(
    ag: GreinerShape<C, T>,
    bg: GreinerShape<C, T>,
    op: BooleanOp,
    start: int,
    start_nb: int,
    cur: int,
    on_b: bool,
    legs: nat,
    done: Seq<bool>,
)
    requires
        legs == 0 || ({
            let g = outline_of(ag, bg, on_b);
            let dir = dir_of(walks_forward(op, on_b, g.data@[cur].entry));
            first_stop(g.data@, cur, dir, op, on_b, g.data@.len()) is None
        }),
    ensures
        trace_walk(ag, bg, op, start, start_nb, cur, on_b, legs, done) is None,
{
    reveal(trace_walk);
}

/// The points a leg adds to a path stand, in order, for the points the leg walks over.
proof fn lemma_leg_stands<C, T>(
    before: Seq<DbCoord<C>>,
    after: Seq<DbCoord<C>>,
    nodes: Seq<CoordOfIntersection<C, T>>,
    data: Seq<CoordOfIntersection<C, T>>,
    cur: int,
    dir: Direction,
    r: nat,
)
    requires
        before.len() == nodes.len() + 1,
        after.len() == before.len() + 3 * r,
        after.subrange(0, before.len() as int) == before,
        forall|m: int| 0 <= m < nodes.len() ==> stands_for(#[trigger] before[m + 1], nodes[m]),
        forall|m: int|
            before.len() <= m < after.len() ==> walked_to(
                data,
                cur,
                (m - before.len() + 1) as nat,
                dir,
                #[trigger] after[m],
            ),
    ensures
        after[0] == before[0],
        forall|m: int|
            0 <= m < nodes.len() + 3 * r ==> stands_for(
                #[trigger] after[m + 1],
                (nodes + walked_nodes(data, cur, 3 * r, dir))[m],
            ),
{
    let leg = walked_nodes(data, cur, 3 * r, dir);
    assert(after.subrange(0, before.len() as int)[0] == after[0]);
    assert forall|m: int| 0 <= m < nodes.len() + 3 * r implies stands_for(
        #[trigger] after[m + 1],
        (nodes + leg)[m],
    ) by {
        if m < nodes.len() {
            assert(after.subrange(0, before.len() as int)[m + 1] == after[m + 1]);
        } else {
            let q = m - nodes.len();
            assert(walked_to(data, cur, (m + 1 - before.len() + 1) as nat, dir, after[m + 1]));
            assert((m + 1 - before.len() + 1) as nat == (q + 1) as nat);
        }
    }
}

/// How many steps the traces of two outlines may take together: twice as many as both have
/// points.
pub open spec fn visit_limit<C, T>(ag: GreinerShape<C, T>, bg: GreinerShape<C, T>) -> nat {
    (ag.data@.len() + bg.data@.len()) * 2
}

/// Index of the first `false` in `v`.
pub open spec fn first_false(v: Seq<bool>) -> Option<nat>
    decreases v.len(),
{
    if v.len() == 0 {
        None
    } else if !v[0] {
        Some(0)
    } else {
        match first_false(v.drop_first()) {
            Some(i) => Some(i + 1),
            None => None,
        }
    }
}

proof fn lemma_first_false(v: Seq<bool>, res: Option<usize>)
    requires
        match res {
            Some(i) => i < v.len() && !v[i as int] && forall|j: int| 0 <= j < i ==> v[j],
            None => forall|j: int| 0 <= j < v.len() ==> v[j],
        },
    ensures
        first_false(v) == match res {
            Some(i) => Some(i as nat),
            None => None::<nat>,
        },
    decreases v.len(),
{
    if v.len() > 0 {
        let rest = v.drop_first();
        match res {
            Some(i) => {
                if i > 0 {
                    assert(v[0]);
                    assert forall|j: int| 0 <= j < (i - 1) as usize implies rest[j] by {
                        assert(v[j + 1]);
                    }
                    lemma_first_false(rest, Some((i - 1) as usize));
                }
            },
            None => {
                assert(v[0]);
                assert forall|j: int| 0 <= j < rest.len() implies rest[j] by {
                    assert(v[j + 1]);
                }
                lemma_first_false(rest, None);
            },
        }
    }
}

/// The marks before any trace: every crossing of the first outline where a trace does not
/// go over counts as passed.
pub open spec fn initial_marks<C, T>(ag: GreinerShape<C, T>, op: BooleanOp) -> Seq<bool> {
    Seq::new(ag.intersections_len as nat, |x: int| !stops(op, false, ag.data@[x]))
}

/// The traces, in order, from marks `done` with `used` steps of the limit already taken,
/// looking at no more than `fuel` of them: while a crossing is not marked, the trace from the
/// first such (marked first) with the legs the steps left allow, each leg past the first taking
/// three steps. `None` where one of them gives nothing.
#[verifier::opaque]
pub open spec fn trace_all<C, T>(
    ag: GreinerShape<C, T>,
    bg: GreinerShape<C, T>,
    op: BooleanOp,
    done: Seq<bool>,
    used: nat,
    fuel: nat,
) -> Option<Seq<Trace<C, T>>>
    decreases fuel,
{
    if fuel == 0 {
        None
    } else {
        match first_false(done) {
            None => Some(Seq::empty()),
            Some(i) => match trace_walk(
                ag,
                bg,
                op,
                i as int,
                ag.data@[i as int].neighbor->0 as int,
                i as int,
                false,
                ((visit_limit(ag, bg) - used) / 3 + 1) as nat,
                done.update(i as int, true),
            ) {
                None => None,
                Some(t) => match trace_all(
                    ag,
                    bg,
                    op,
                    t.done,
                    (used + 3 * (t.legs - 1)) as nat,
                    (fuel - 1) as nat,
                ) {
                    Some(rest) => Some(seq![t] + rest),
                    None => None,
                },
            },
        }
    }
}

proof fn lemma_trace_all_step<C, T>(
    ag: GreinerShape<C, T>,
    bg: GreinerShape<C, T>,
    op: BooleanOp,
    done: Seq<bool>,
    used: nat,
    fuel: nat,
)
    requires
        fuel >= 1,
    ensures
        trace_all(ag, bg, op, done, used, fuel) == match first_false(done) {
            None => Some(Seq::empty()),
            Some(i) => match trace_walk(
                ag,
                bg,
                op,
                i as int,
                ag.data@[i as int].neighbor->0 as int,
                i as int,
                false,
                ((visit_limit(ag, bg) - used) / 3 + 1) as nat,
                done.update(i as int, true),
            ) {
                None => None,
                Some(t) => match trace_all(
                    ag,
                    bg,
                    op,
                    t.done,
                    (used + 3 * (t.legs - 1)) as nat,
                    (fuel - 1) as nat,
                ) {
                    Some(rest) => Some(seq![t] + rest),
                    None => None,
                },
            },
        },
{
    reveal(trace_all);
}

/// All the traces of a boolean operation on two prepared outlines.
pub open spec fn traces_of<C, T>(
    ag: GreinerShape<C, T>,
    bg: GreinerShape<C, T>,
    op: BooleanOp,
) -> Option<Seq<Trace<C, T>>> {
    trace_all(ag, bg, op, initial_marks(ag, op), 0, (ag.intersections_len + 1) as nat)
}

/// `s` is the shape of trace `t`: it has the identifier and color of `a`, its path is one
/// point followed by whole curves, its first point stands for the crossing the trace starts
/// from (one where a trace goes over) and the others, in order, for the points it walks over.
pub open spec fn shape_of_trace<C, T>(
    ag: GreinerShape<C, T>,
    op: BooleanOp,
    a: Shape<C>,
    t: Trace<C, T>,
    s: Shape<C>,
) -> bool {
    &&& s.id == a.id
    &&& s.color == a.color
    &&& s.path@.len() >= 4
    &&& (s.path@.len() - 1) % 3 == 0
    &&& 0 <= t.start < ag.intersections_len
    &&& stops(op, false, ag.data@[t.start])
    &&& stands_for(s.path@[0], ag.data@[t.start])
    &&& s.path@.len() == t.nodes.len() + 1
    &&& forall|m: int| 0 <= m < t.nodes.len() ==> stands_for(#[trigger] s.path@[m + 1], t.nodes[m])
}

proof fn lemma_count_false_le_len(v: Seq<bool>)
    ensures
        count_false(v) <= v.len(),
    decreases v.len(),
{
    if v.len() > 0 {
        lemma_count_false_le_len(v.drop_last());
    }
}

fn forward_of(op: BooleanOp, on_b: bool, entry: bool) -> (f: bool)
    ensures
        f == walks_forward(op, on_b, entry),
{
    match op {
        BooleanOp::Difference => on_b == entry,
        BooleanOp::Intersection => entry,
    }
}

/// Traces the shapes of a boolean operation from two prepared outlines: from each crossing
/// of the first outline where the trace goes over that no trace has passed yet, walks one
/// outline until a point where the trace goes over, jumps to the same point on the other
/// outline, and so on until the trace is back where it started. Each traced shape takes the
/// identifier and color of `a`. Fails with `EndlessWalk` on a leg that never stops, or once the
/// traces together have taken more steps than twice the points of both outlines.
pub fn trace_outlines<C: Copy, T: Copy>(
    ag: &GreinerShape<C, T>,
    bg: &GreinerShape<C, T>,
    a: &Shape<C>,
    op: BooleanOp,
    ids: &mut IdGenerator,
) -> (res: Result<Vec<Shape<C>>, GreinerError>)
    requires
        traceable(*ag, *bg),
        traceable(*bg, *ag),
        ag.data@.len() + bg.data@.len() <= usize::MAX / 4,
    ensures
        match res {
            Ok(shapes) => {
                &&& shapes@.len() <= ag.intersections_len
                &&& traces_of(*ag, *bg, op) matches Some(ts) && ts.len() == shapes@.len() && (
                forall|k: int|
                    0 <= k < ts.len() ==> shape_of_trace(*ag, op, *a, ts[k], #[trigger] shapes@[k]))
            },
            Err(e) => e == GreinerError::EndlessWalk && traces_of(*ag, *bg, op) is None,
        },
{
    let n = ag.intersections_len;
    let mut done: Vec<bool> = Vec::new();
    let mut j: usize = 0;
    while j < n
        invariant
            traceable(*ag, *bg),
            n == ag.intersections_len,
            j <= n,
            done@.len() == j,
            forall|x: int| 0 <= x < j ==> done@[x] == !stops(op, false, #[trigger] ag.data@[x]),
        decreases n - j,
    {
        done.push(!ag.stops_at(op, false, j));
        j = j + 1;
    }
    let max_visit = (ag.data.len() + bg.data.len()) * 2;
    let mut visit_count: usize = 0;
    let mut shapes: Vec<Shape<C>> = Vec::new();
    let ghost mut traces: Seq<Trace<C, T>> = Seq::empty();
    let ghost mut fuel: nat = (n + 1) as nat;
    proof {
        lemma_count_false_le_len(done@);
        assert(done@ =~= initial_marks(*ag, op));
    }
    loop
        invariant
            traceable(*ag, *bg),
            traceable(*bg, *ag),
            ag.data@.len() + bg.data@.len() <= usize::MAX / 4,
            n == ag.intersections_len,
            done@.len() == n,
            forall|x: int| 0 <= x < n && !done@[x] ==> stops(op, false, #[trigger] ag.data@[x]),
            shapes@.len() + count_false(done@) <= n,
            max_visit == visit_limit(*ag, *bg),
            visit_count <= max_visit,
            count_false(done@) < fuel,
            traces_of(*ag, *bg, op) == match trace_all(
                *ag,
                *bg,
                op,
                done@,
                visit_count as nat,
                fuel,
            ) {
                Some(rest) => Some(traces + rest),
                None => None,
            },
            shapes@.len() == traces.len(),
            forall|k: int|
                0 <= k < traces.len() ==> shape_of_trace(*ag, op, *a, traces[k], #[trigger] shapes@[k]),
        ensures
            traces_of(*ag, *bg, op) == Some(traces),
        decreases count_false(done@),
    {
        let found = find_index_false(&done);
        proof {
            lemma_first_false(done@, found);
            lemma_trace_all_step(*ag, *bg, op, done@, visit_count as nat, fuel);
        }
        let i = match found {
            Some(i) => i,
            None => {
                assert(traces + Seq::<Trace<C, T>>::empty() =~= traces);
                assert(traces_of(*ag, *bg, op) == Some(traces));
                break;
            },
        };
        let ghost done_before = done@;
        let ghost vc0 = visit_count;
        let ghost f0 = ((visit_limit(*ag, *bg) - vc0) / 3 + 1) as nat;
        done.set(i, true);
        proof {
            lemma_count_false_positive(done_before, i as int);
            lemma_count_false_set_true(done_before, i as int);
        }
        let ghost done_start = done@;
        let first_neighbor = match ag.data[i].neighbor {
            Some(nb) => nb,
            None => i,
        };
        let mut path: Vec<DbCoord<C>> = Vec::new();
        path.push(ag.data[i].coord_ptr(ids));
        let ghost p0 = path@[0];
        let mut cur = i;
        let mut on_b = false;
        let ghost mut nodes: Seq<CoordOfIntersection<C, T>> = Seq::empty();
        let ghost mut legs: nat = 0;
        proof {
            assert(ag.data@[i as int].neighbor is Some);
            lemma_trace_start(
                *ag,
                *bg,
                op,
                i as int,
                first_neighbor as int,
                i as int,
                false,
                f0,
                done_start,
            );
            match trace_walk(
                *ag,
                *bg,
                op,
                i as int,
                first_neighbor as int,
                i as int,
                false,
                f0,
                done_start,
            ) {
                Some(t) => {
                    assert(Seq::<CoordOfIntersection<C, T>>::empty() + t.nodes =~= t.nodes);
                },
                None => {},
            }
        }
        loop
            invariant_except_break
                trace_walk(*ag, *bg, op, i as int, first_neighbor as int, i as int, false, f0, done_start)
                    == match trace_walk(
                    *ag,
                    *bg,
                    op,
                    i as int,
                    first_neighbor as int,
                    cur as int,
                    on_b,
                    (f0 - legs) as nat,
                    done@,
                ) {
                    Some(t) => Some(
                        Trace {
                            start: i as int,
                            nodes: nodes + t.nodes,
                            done: t.done,
                            legs: t.legs + legs,
                        },
                    ),
                    None => None,
                },
                visit_count == vc0 + 3 * legs,
            invariant
                traceable(*ag, *bg),
                traceable(*bg, *ag),
                n == ag.intersections_len,
                i < n,
                first_neighbor as int == ag.data@[i as int].neighbor->0 as int,
                stops(op, false, ag.data@[i as int]),
                stands_for(p0, ag.data@[i as int]),
                done@.len() == n,
                only_gained(done_start, done@),
                count_false(done_start) < count_false(done_before),
                forall|x: int| 0 <= x < n && !done@[x] ==> stops(op, false, #[trigger] ag.data@[x]),
                cur < (if on_b {
                    bg.data@.len()
                } else {
                    ag.data@.len()
                }),
                path@.len() == nodes.len() + 1,
                path@[0] == p0,
                (path@.len() - 1) % 3 == 0,
                forall|m: int| 0 <= m < nodes.len() ==> stands_for(#[trigger] path@[m + 1], nodes[m]),
                max_visit == visit_limit(*ag, *bg),
                ag.data@.len() + bg.data@.len() <= usize::MAX / 4,
                visit_count <= max_visit,
                vc0 <= visit_count,
                f0 == ((visit_limit(*ag, *bg) - vc0) / 3 + 1) as nat,
                traces_of(*ag, *bg, op) == match trace_walk(
                    *ag,
                    *bg,
                    op,
                    i as int,
                    first_neighbor as int,
                    i as int,
                    false,
                    f0,
                    done_start,
                ) {
                    None => None,
                    Some(t) => match trace_all(
                        *ag,
                        *bg,
                        op,
                        t.done,
                        (vc0 + 3 * (t.legs - 1)) as nat,
                        (fuel - 1) as nat,
                    ) {
                        Some(rest) => Some(traces + (seq![t] + rest)),
                        None => None,
                    },
                },
            ensures
                path@.len() >= 4,
                legs >= 1,
                visit_count == vc0 + 3 * (legs - 1),
                trace_walk(*ag, *bg, op, i as int, first_neighbor as int, i as int, false, f0, done_start)
                    == Some(Trace { start: i as int, nodes, done: done@, legs }),
            decreases max_visit - visit_count,
        {
            let (shape, other) = if on_b {
                (bg, ag)
            } else {
                (ag, bg)
            };
            let forward = forward_of(op, on_b, shape.data[cur].entry);
            let ghost path_before = path@;
            let ghost done_mid = done@;
            let ghost left = (f0 - legs) as nat;
            proof {
                assert(shape == outline_of(*ag, *bg, on_b));
                assert(legs < f0) by {
                    assert(3 * legs <= visit_limit(*ag, *bg) - vc0);
                }
            }
            let end = match shape.walk_to_stop(
                other,
                cur,
                forward,
                op,
                on_b,
                &mut path,
                &mut done,
                ids,
            ) {
                Ok(end) => end,
                Err(e) => {
                    proof {
                        lemma_trace_none(
                            *ag,
                            *bg,
                            op,
                            i as int,
                            first_neighbor as int,
                            cur as int,
                            on_b,
                            left,
                            done_mid,
                        );
                    }
                    return Err(e);
                },
            };
            let ghost dir = dir_of(forward);
            let ghost r = ((path@.len() - path_before.len()) / 3) as nat;
            let ghost leg = walked_nodes(shape.data@, cur as int, 3 * r, dir);
            proof {
                assert(path@.len() - path_before.len() == 3 * r);
                lemma_leg_stands(path_before, path@, nodes, shape.data@, cur as int, dir, r);
                assert forall|x: int| 0 <= x < n && !done@[x] implies stops(
                    op,
                    false,
                    #[trigger] ag.data@[x],
                ) by {
                    if done_mid[x] {
                        assert(done@[x]);
                    }
                }
                assert forall|x: int| 0 <= x < done_start.len() && done_start[x] implies #[trigger] done@[x] by {
                    assert(done_mid[x]);
                }
            }
            let nb = match shape.data[end].neighbor {
                Some(nb) => nb,
                None => {
                    assert(false);
                    end
                },
            };
            proof {
                lemma_trace_step(
                    *ag,
                    *bg,
                    op,
                    i as int,
                    first_neighbor as int,
                    cur as int,
                    on_b,
                    left,
                    done_mid,
                    r,
                    nb as int,
                );
                match trace_walk(
                    *ag,
                    *bg,
                    op,
                    i as int,
                    first_neighbor as int,
                    nb as int,
                    !on_b,
                    (left - 1) as nat,
                    done@,
                ) {
                    Some(t) => {
                        assert((nodes + leg) + t.nodes =~= nodes + (leg + t.nodes));
                    },
                    None => {},
                }
                nodes = nodes + leg;
                legs = legs + 1;
            }
            on_b = !on_b;
            cur = nb;
            if (!on_b && cur == i) || (on_b && cur == first_neighbor) {
                break;
            }
            visit_count = visit_count + 3;
            if visit_count > max_visit {
                proof {
                    assert(legs == f0);
                    lemma_trace_none(
                        *ag,
                        *bg,
                        op,
                        i as int,
                        first_neighbor as int,
                        cur as int,
                        on_b,
                        (f0 - legs) as nat,
                        done@,
                    );
                }
                return Err(GreinerError::EndlessWalk);
            }
        }
        proof {
            lemma_only_gained_count(done_start, done@);
        }
        let shape = Shape { id: a.id, path, color: a.color };
        let ghost t = Trace { start: i as int, nodes, done: done@, legs };
        let ghost old_traces = traces;
        let ghost old_shapes = shapes@;
        shapes.push(shape);
        proof {
            assert(shape_of_trace(*ag, op, *a, t, shape));
            traces = traces.push(t);
            fuel = (fuel - 1) as nat;
            match trace_all(*ag, *bg, op, done@, visit_count as nat, fuel) {
                Some(rest) => {
                    assert(old_traces + (seq![t] + rest) =~= traces + rest);
                },
                None => {},
            }
            assert forall|k: int| 0 <= k < traces.len() implies shape_of_trace(
                *ag,
                op,
                *a,
                traces[k],
                #[trigger] shapes@[k],
            ) by {
                if k < old_traces.len() {
                    assert(shapes@[k] == old_shapes[k]);
                    assert(traces[k] == old_traces[k]);
                }
            }
        }
    }
    Ok(shapes)
}

/// The shapes of the part of `a` outside `b`, traced from their prepared outlines.
pub fn do_difference<C: Copy, T: Copy>(
    ag: &GreinerShape<C, T>,
    bg: &GreinerShape<C, T>,
    a: &Shape<C>,
    _b: &Shape<C>,
    ids: &mut IdGenerator,
) -> (res: Result<Vec<Shape<C>>, GreinerError>)
    requires
        traceable(*ag, *bg),
        traceable(*bg, *ag),
        ag.data@.len() + bg.data@.len() <= usize::MAX / 4,
    ensures
        match res {
            Ok(shapes) => {
                &&& shapes@.len() <= ag.intersections_len
                &&& traces_of(*ag, *bg, BooleanOp::Difference) matches Some(ts) && ts.len()
                    == shapes@.len() && (forall|k: int|
                    0 <= k < ts.len() ==> shape_of_trace(
                        *ag,
                        BooleanOp::Difference,
                        *a,
                        ts[k],
                        #[trigger] shapes@[k],
                    ))
            },
            Err(e) => e == GreinerError::EndlessWalk && traces_of(
                *ag,
                *bg,
                BooleanOp::Difference,
            ) is None,
        },
{
    trace_outlines(ag, bg, a, BooleanOp::Difference, ids)
}

/// The shapes of the part common to `a` and `b`, traced from their prepared outlines.
pub fn do_intersection<C: Copy, T: Copy>(
    ag: &GreinerShape<C, T>,
    bg: &GreinerShape<C, T>,
    a: &Shape<C>,
    _b: &Shape<C>,
    ids: &mut IdGenerator,
) -> (res: Result<Vec<Shape<C>>, GreinerError>)
    requires
        traceable(*ag, *bg),
        traceable(*bg, *ag),
        ag.data@.len() + bg.data@.len() <= usize::MAX / 4,
    ensures
        match res {
            Ok(shapes) => {
                &&& shapes@.len() <= ag.intersections_len
                &&& traces_of(*ag, *bg, BooleanOp::Intersection) matches Some(ts) && ts.len()
                    == shapes@.len() && (forall|k: int|
                    0 <= k < ts.len() ==> shape_of_trace(
                        *ag,
                        BooleanOp::Intersection,
                        *a,
                        ts[k],
                        #[trigger] shapes@[k],
                    ))
            },
            Err(e) => e == GreinerError::EndlessWalk && traces_of(
                *ag,
                *bg,
                BooleanOp::Intersection,
            ) is None,
        },
{
    trace_outlines(ag, bg, a, BooleanOp::Intersection, ids)
}


/// The kind of a point where the outlines meet at a point of both, from whether they run
/// together after it (`forward`) and before it (`backward`).
pub open spec fn common_kind(forward: bool, backward: bool) -> IntersectionType {
    if forward && backward {
        IntersectionType::Common
    } else if forward {
        IntersectionType::IntersectionCommon
    } else if backward {
        IntersectionType::CommonIntersection
    } else {
        IntersectionType::Intersection
    }
}

/// The outline `data` whose first `n` points, where their kind is still open, get the kind
/// that `overlaps` gives for them.
pub open spec fn settled<C, T>(
    data: Seq<CoordOfIntersection<C, T>>,
    n: int,
    overlaps: Seq<(bool, bool)>,
) -> Seq<CoordOfIntersection<C, T>> {
    Seq::new(
        data.len(),
        |i: int|
            if i < n && data[i].intersect == IntersectionType::UnspecifiedCommonIntersection {
                CoordOfIntersection {
                    intersect: common_kind(overlaps[i].0, overlaps[i].1),
                    ..data[i]
                }
            } else {
                data[i]
            },
    )
}

fn common_kind_of(forward: bool, backward: bool) -> (t: IntersectionType)
    ensures
        t == common_kind(forward, backward),
{
    if forward && backward {
        IntersectionType::Common
    } else if forward {
        IntersectionType::IntersectionCommon
    } else if backward {
        IntersectionType::CommonIntersection
    } else {
        IntersectionType::Intersection
    }
}

/// `count` steps are `a` steps and then `b` more.
proof fn lemma_walk_concat<C, T>(
    data: Seq<CoordOfIntersection<C, T>>,
    from: int,
    a: nat,
    b: nat,
    dir: Direction,
)
    ensures
        walk(data, from, a + b, dir) == match walk(data, from, a, dir) {
            Ok(x) => walk(data, x, b, dir),
            Err(e) => Err(e),
        },
    decreases a,
{
    if a > 0 && 0 <= from < data.len() {
        match link(data[from], dir) {
            None => {},
            Some(n) => {
                lemma_walk_concat(data, n as int, (a - 1) as nat, b, dir);
                assert(walk(data, from, a + b, dir) == walk(data, n as int, (a - 1 + b) as nat, dir));
            },
        }
    }
}

/// A walk fails only for an index out of the outline or a missing link.
proof fn lemma_walk_error_kind<C, T>(
    data: Seq<CoordOfIntersection<C, T>>,
    cur: int,
    count: nat,
    dir: Direction,
)
    ensures
        walk(data, cur, count, dir) matches Err(e) ==> (e == GreinerError::IndexOutOfBound || e
            == missing_link(dir)),
    decreases count,
{
    if count > 0 && 0 <= cur < data.len() {
        match link(data[cur], dir) {
            None => {},
            Some(n) => {
                lemma_walk_error_kind(data, n as int, (count - 1) as nat, dir);
            },
        }
    }
}

/// A point that lies off the other outline.
pub open spec fn free_point<C, T>(c: CoordOfIntersection<C, T>) -> bool {
    c.intersect == IntersectionType::Nothing
}

/// The points reached by the first `r` rounds of three steps forward from `start` are all
/// there and all on the other outline.
pub open spec fn none_free_before<C, T>(
    data: Seq<CoordOfIntersection<C, T>>,
    start: int,
    r: nat,
) -> bool {
    forall|q: nat|
        q < r ==> (#[trigger] walk(data, start, 3 * q, Direction::Forward) matches Ok(x) && 0 <= x
            < data.len() && !free_point(data[x]))
}

impl<C: Copy, T: Copy> GreinerShape<C, T> {
    /// Settles the kind of each of the first `intersections_len` points whose kind is still
    /// open, from `overlaps[i]`: whether the outlines run together after point `i` and before
    /// it, as `common_kind` says.
    pub fn set_common_in_out(&mut self, overlaps: &Vec<(bool, bool)>)
        requires
            old(self).intersections_len <= old(self).data@.len(),
            old(self).intersections_len <= overlaps@.len(),
        ensures
            final(self).start == old(self).start,
            final(self).intersections_len == old(self).intersections_len,
            final(self).data@ == settled(
                old(self).data@,
                old(self).intersections_len as int,
                overlaps@,
            ),
    {
        let ghost data0 = self.data@;
        let n = self.intersections_len;
        let mut i: usize = 0;
        while i < n
            invariant
                n == self.intersections_len,
                n == old(self).intersections_len,
                self.start == old(self).start,
                data0 == old(self).data@,
                n <= data0.len(),
                n <= overlaps@.len(),
                i <= n,
                self.data@.len() == data0.len(),
                forall|j: int|
                    0 <= j < self.data@.len() ==> #[trigger] self.data@[j] == if j < i {
                        settled(data0, n as int, overlaps@)[j]
                    } else {
                        data0[j]
                    },
            decreases n - i,
        {
            if self.data[i].intersect == IntersectionType::UnspecifiedCommonIntersection {
                let (forward, backward) = overlaps[i];
                let mut node = self.data[i];
                node.intersect = common_kind_of(forward, backward);
                self.data.set(i, node);
            }
            i = i + 1;
        }
        assert(self.data@ =~= settled(data0, n as int, overlaps@));
    }

    /// The first point, taking every third point forward from the start, that lies off the
    /// other outline; `NoFreePoint` where none of the `mark_rounds` first such points does.
    pub fn find_first_p_not_intersection(&self) -> (res: Result<usize, GreinerError>)
        requires
            links_in_range(self.data@),
            self.start < self.data@.len(),
        ensures
            match res {
                Ok(i) => exists|r: nat|
                    r < mark_rounds(self.data@.len()) && #[trigger] walk(
                        self.data@,
                        self.start as int,
                        3 * r,
                        Direction::Forward,
                    ) == Ok::<int, GreinerError>(i as int) && i < self.data@.len() && free_point(
                        self.data@[i as int],
                    ) && none_free_before(self.data@, self.start as int, r),
                Err(GreinerError::NoFreePoint) => none_free_before(
                    self.data@,
                    self.start as int,
                    mark_rounds(self.data@.len()),
                ),
                Err(e) => exists|r: nat|
                    r < mark_rounds(self.data@.len()) && #[trigger] walk(
                        self.data@,
                        self.start as int,
                        3 * r,
                        Direction::Forward,
                    ) == Err::<int, GreinerError>(e) && none_free_before(
                        self.data@,
                        self.start as int,
                        r,
                    ),
            },
    {
        let len = self.data.len();
        let rounds = if len % 3 == 1 {
            len / 3 + 1
        } else if len % 3 == 0 {
            len / 3 + 1
        } else {
            len / 3 + 2
        };
        assert(rounds == mark_rounds(len as nat));
        let ghost d = self.data@;
        let ghost s = self.start as int;
        let mut cur = self.start;
        let mut r: usize = 0;
        assert(walk(d, s, 0, Direction::Forward) == Ok::<int, GreinerError>(s));
        while r < rounds
            invariant
                d == self.data@,
                s == self.start,
                len == d.len(),
                links_in_range(d),
                cur < len,
                rounds == mark_rounds(len as nat),
                r <= rounds,
                r < rounds ==> walk(d, s, 3 * r as nat, Direction::Forward) == Ok::<
                    int,
                    GreinerError,
                >(cur as int),
                none_free_before(d, s, r as nat),
            decreases rounds - r,
        {
            if self.data[cur].intersect == IntersectionType::Nothing {
                return Ok(cur);
            }
            if r + 1 < rounds {
                proof {
                    lemma_walk_concat(d, s, 3 * r as nat, 3, Direction::Forward);
                    assert(3 * r as nat + 3 == 3 * (r + 1) as nat);
                }
                proof {
                    lemma_walk_lands_in_range(d, cur as int, 3, Direction::Forward);
                }
                match self.walk_index(cur, 3, Direction::Forward) {
                    Ok(n) => {
                        cur = n;
                    },
                    Err(e) => {
                        proof {
                            lemma_walk_error_kind(d, cur as int, 3, Direction::Forward);
                            assert(none_free_before(d, s, (r + 1) as nat)) by {
                                assert forall|q: nat| q < r + 1 implies (#[trigger] walk(
                                    d,
                                    s,
                                    3 * q,
                                    Direction::Forward,
                                ) matches Ok(x) && 0 <= x < d.len() && !free_point(d[x])) by {
                                    if q < r {
                                    } else {
                                        assert(q == r);
                                    }
                                }
                            }
                            assert(walk(d, s, 3 * (r + 1) as nat, Direction::Forward) == Err::<
                                int,
                                GreinerError,
                            >(e));
                        }
                        return Err(e);
                    },
                }
            }
            proof {
                assert forall|q: nat| q < r + 1 implies (#[trigger] walk(
                    d,
                    s,
                    3 * q,
                    Direction::Forward,
                ) matches Ok(x) && 0 <= x < d.len() && !free_point(d[x])) by {
                    if q < r {
                    } else {
                        assert(q == r);
                    }
                }
            }
            r = r + 1;
        }
        Err(GreinerError::NoFreePoint)
    }
}


/// What the intersection of two shapes gives.
#[derive(Debug, Clone)]
pub enum ShapeIntersection<C> {
    /// The second shape holds the first: the result is the first.
    A,
    /// The first shape holds the second: the result is the second.
    B,
    /// New shapes, where neither shape holds the other.
    New(Vec<Shape<C>>),
    /// The shapes do not meet.
    Nothing,
}

/// What the difference of two shapes gives.
#[derive(Debug, Clone)]
pub enum ShapeDifference<C> {
    /// The first shape is left as it is.
    A,
    /// The second shape covers the first entirely.
    EraseA,
    /// New shapes, where neither shape holds the other.
    New(Vec<Shape<C>>),
    /// The first shape with a hole the shape of the second.
    AWithBHole,
}

/// Number of crossings among the first `n` points of `data`.
pub open spec fn crossing_count<C, T>(data: Seq<CoordOfIntersection<C, T>>, n: nat) -> nat
    decreases n,
{
    if n == 0 {
        0
    } else {
        crossing_count(data, (n - 1) as nat) + if crosses(data[n - 1].intersect) {
            1nat
        } else {
            0nat
        }
    }
}

/// Every third point of the outline is a point where the outlines meet.
pub open spec fn only_meeting_points<C, T>(g: GreinerShape<C, T>) -> bool {
    g.intersections_len * 3 == g.data@.len()
}

/// The outlines do not cross, but do not simply run together everywhere either.
pub open spec fn touching_only<C, T>(ag: GreinerShape<C, T>, bg: GreinerShape<C, T>) -> bool {
    &&& crossing_count(ag.data@, ag.intersections_len as nat) == 0
    &&& !(only_meeting_points(ag) && only_meeting_points(bg))
}

/// Decides the intersection of two shapes whose outlines do not cross: an odd number of
/// crossings is an error; outlines that only meet where they run together are the same
/// outline, an error too; without crossings, where each outline starts tells which holds
/// the other (`None` where the outlines cross, and the trace decides).
pub fn handle_touching_shape<C: Copy, T: Copy>(
    ag: &GreinerShape<C, T>,
    bg: &GreinerShape<C, T>,
) -> (res: Result<Option<ShapeIntersection<C>>, GreinerError>)
    requires
        ag.intersections_len <= ag.data@.len(),
        touching_only(*ag, *bg) ==> ag.data@.len() > 0 && bg.data@.len() > 0 && (
        ag.data@[0].entry || bg.data@[0].entry),
    ensures
        ({
            let c = crossing_count(ag.data@, ag.intersections_len as nat);
            if c % 2 == 1 {
                res matches Err(GreinerError::OddIntersections)
            } else if c == 0 && only_meeting_points(*ag) && only_meeting_points(*bg) {
                res matches Err(GreinerError::SameOutline)
            } else if c == 0 {
                let ea = ag.data@[0].entry;
                let eb = bg.data@[0].entry;
                &&& (ea && eb ==> (res matches Ok(Some(ShapeIntersection::Nothing))))
                &&& (ea && !eb ==> (res matches Ok(Some(ShapeIntersection::B))))
                &&& (!ea && eb ==> (res matches Ok(Some(ShapeIntersection::A))))
            } else {
                res matches Ok(None)
            }
        }),
{
    let n = ag.intersections_len;
    let mut count: usize = 0;
    let mut i: usize = 0;
    while i < n
        invariant
            n == ag.intersections_len,
            n <= ag.data@.len(),
            i <= n,
            count == crossing_count(ag.data@, i as nat),
            count <= i,
        decreases n - i,
    {
        if ag.data[i].intersect.is_intersection() {
            count = count + 1;
        }
        i = i + 1;
    }
    if count % 2 == 1 {
        return Err(GreinerError::OddIntersections);
    }
    let a_len = ag.data.len();
    let b_len = bg.data.len();
    let a_meeting = a_len % 3 == 0 && ag.intersections_len == a_len / 3;
    let b_meeting = b_len % 3 == 0 && bg.intersections_len == b_len / 3;
    if count == 0 && a_meeting && b_meeting {
        return Err(GreinerError::SameOutline);
    }
    if count == 0 {
        let ea = ag.data[0].entry;
        let eb = bg.data[0].entry;
        if ea && eb {
            return Ok(Some(ShapeIntersection::Nothing));
        } else if ea && !eb {
            return Ok(Some(ShapeIntersection::B));
        } else {
            return Ok(Some(ShapeIntersection::A));
        }
    }
    Ok(None)
}


/// The link forward of point `i`, as a number (no link counts as 0).
pub open spec fn next_key<C, T>(data: Seq<CoordOfIntersection<C, T>>, i: int) -> int {
    match data[i].next {
        Some(n) => n as int,
        None => 0,
    }
}

/// Point `i` comes before point `j` when ordered by their forward links, the smaller index
/// first where the links are equal.
pub open spec fn before_by_next<C, T>(data: Seq<CoordOfIntersection<C, T>>, i: int, j: int) -> bool {
    next_key(data, i) < next_key(data, j) || (next_key(data, i) == next_key(data, j) && i < j)
}

/// `order` holds the indices of the first `n` points, ordered by their forward links (a
/// stable sort by the link).
pub open spec fn ordered_by_next<C, T>(
    data: Seq<CoordOfIntersection<C, T>>,
    n: nat,
    order: Seq<usize>,
) -> bool {
    &&& order.len() == n
    &&& forall|p: int| 0 <= p < order.len() ==> #[trigger] order[p] < n
    &&& forall|p: int, q: int|
        0 <= p < q < order.len() ==> before_by_next(data, #[trigger] order[p] as int, #[trigger] order[q] as int)
}

impl<C: Copy, T: Copy> GreinerShape<C, T> {
    fn next_key_of(&self, i: usize) -> (k: usize)
        requires
            i < self.data@.len(),
        ensures
            k == next_key(self.data@, i as int),
    {
        match self.data[i].next {
            Some(x) => x,
            None => 0,
        }
    }

    /// The indices of the crossings, ordered by their forward links.
    pub fn crossings_by_next(&self) -> (order: Vec<usize>)
        requires
            self.intersections_len <= self.data@.len(),
        ensures
            ordered_by_next(self.data@, self.intersections_len as nat, order@),
    {
        let n = self.intersections_len;
        let ghost d = self.data@;
        let mut order: Vec<usize> = Vec::new();
        let mut k: usize = 0;
        while k < n
            invariant
                d == self.data@,
                n == self.intersections_len,
                n <= d.len(),
                k <= n,
                order@.len() == k,
                forall|p: int| 0 <= p < order@.len() ==> #[trigger] order@[p] < k,
                forall|p: int, q: int|
                    0 <= p < q < order@.len() ==> before_by_next(
                        d,
                        #[trigger] order@[p] as int,
                        #[trigger] order@[q] as int,
                    ),
            decreases n - k,
        {
            let key = self.next_key_of(k);
            let mut pos: usize = 0;
            while pos < order.len() && self.next_key_of(order[pos]) <= key
                invariant
                    d == self.data@,
                    n <= d.len(),
                    k < n,
                    key == next_key(d, k as int),
                    pos <= order@.len(),
                    forall|p: int| 0 <= p < order@.len() ==> #[trigger] order@[p] < k,
                    forall|p: int| 0 <= p < pos ==> next_key(d, #[trigger] order@[p] as int) <= key,
                decreases order@.len() - pos,
            {
                pos = pos + 1;
            }
            let ghost before = order@;
            proof {
                assert(pos < before.len() ==> next_key(d, before[pos as int] as int) > key);
            }
            order.insert(pos, k);
            proof {
                assert forall|p: int| 0 <= p < order@.len() implies #[trigger] order@[p] < k + 1 by {
                    if p < pos {
                        assert(order@[p] == before[p]);
                    } else if p > pos {
                        assert(order@[p] == before[p - 1]);
                    }
                }
                assert forall|p: int, q: int|
                    0 <= p < q < order@.len() implies before_by_next(
                        d,
                        #[trigger] order@[p] as int,
                        #[trigger] order@[q] as int,
                    ) by {
                    if q < pos {
                        assert(order@[p] == before[p] && order@[q] == before[q]);
                    } else if q == pos {
                        assert(order@[p] == before[p]);
                        assert(next_key(d, before[p] as int) <= key);
                    } else if p == pos {
                        assert(order@[q] == before[q - 1]);
                        if q - 1 > pos {
                            assert(before_by_next(d, before[pos as int] as int, before[q - 1] as int));
                        }
                    } else if p < pos {
                        assert(order@[p] == before[p] && order@[q] == before[q - 1]);
                    } else {
                        assert(order@[p] == before[p - 1] && order@[q] == before[q - 1]);
                    }
                }
            }
            k = k + 1;
        }
        order
    }
}


/// The curves on both sides of a crossing, or of a stretch where the outlines run together,
/// on an outline and on the other outline: the curve that ends at the first point (`c0`) and
/// the one that starts at the last point (`c1`).
#[derive(Debug)]
pub struct ExtractedCurves<C> {
    pub index_c0: usize,
    pub coords_c0: (C, C, C, C),
    pub coords_neighbor_c0: (C, C, C, C),
    pub index_c1: usize,
    pub coords_c1: (C, C, C, C),
    pub coords_neighbor_c1: (C, C, C, C),
}

/// The position in `order`, searching from the one after `p` and around (`k` positions
/// already searched), of the first point where the outlines stop running together.
pub open spec fn partner_search<C, T>(
    data: Seq<CoordOfIntersection<C, T>>,
    order: Seq<usize>,
    p: int,
    k: nat,
) -> Option<int>
    decreases order.len() - k,
{
    if k >= order.len() {
        None
    } else {
        let j = if p + 1 + k < order.len() {
            p + 1 + k
        } else {
            p + 1 + k - order.len()
        };
        if data[order[j] as int].intersect == IntersectionType::CommonIntersection {
            Some(j)
        } else {
            partner_search(data, order, p, k + 1)
        }
    }
}

/// The extracted curves, where all four are there.
pub open spec fn extracted_of<C>(
    i0: int,
    c0: Option<(C, C, C, C)>,
    n0: Option<(C, C, C, C)>,
    i1: int,
    c1: Option<(C, C, C, C)>,
    n1: Option<(C, C, C, C)>,
) -> Result<ExtractedCurves<C>, GreinerError> {
    if c0 is Some && n0 is Some && c1 is Some && n1 is Some {
        Ok(
            ExtractedCurves {
                index_c0: i0 as usize,
                coords_c0: c0->0,
                coords_neighbor_c0: n0->0,
                index_c1: i1 as usize,
                coords_c1: c1->0,
                coords_neighbor_c1: n1->0,
            },
        )
    } else {
        Err(GreinerError::NoNext)
    }
}

/// The curves around the crossing at position `p` of `order`: for a plain crossing, the
/// curves before and after it on both outlines; where the outlines start running together,
/// the curve before it and the curve after the point where they stop (the next such point in
/// `order`), on both outlines; nothing for other points.
pub open spec fn curves_around<C, T>(
    g: GreinerShape<C, T>,
    other: GreinerShape<C, T>,
    order: Seq<usize>,
    p: int,
) -> Option<Result<ExtractedCurves<C>, GreinerError>> {
    let d = g.data@;
    let o = other.data@;
    let i = order[p] as int;
    if d[i].intersect == IntersectionType::Intersection {
        Some(
            extracted_of(
                i,
                curve_from(d, i, Direction::Backward),
                curve_from(o, i, Direction::Backward),
                i,
                curve_from(d, i, Direction::Forward),
                curve_from(o, i, Direction::Forward),
            ),
        )
    } else if d[i].intersect == IntersectionType::IntersectionCommon {
        match partner_search(d, order, p, 0) {
            None => Some(Err(GreinerError::EndlessWalk)),
            Some(j) => {
                let oi = order[j] as int;
                if o[i].intersect == IntersectionType::IntersectionCommon {
                    Some(
                        extracted_of(
                            i,
                            curve_from(d, i, Direction::Backward),
                            curve_from(o, i, Direction::Backward),
                            oi,
                            curve_from(d, oi, Direction::Forward),
                            curve_from(o, oi, Direction::Forward),
                        ),
                    )
                } else {
                    Some(
                        extracted_of(
                            i,
                            curve_from(d, i, Direction::Backward),
                            curve_from(o, oi, Direction::Backward),
                            oi,
                            curve_from(d, oi, Direction::Forward),
                            curve_from(o, i, Direction::Forward),
                        ),
                    )
                }
            },
        }
    } else {
        None
    }
}

/// The curves around the crossings at the first `k` positions of `order`, or the first error.
pub open spec fn extracted_upto<C, T>(
    g: GreinerShape<C, T>,
    other: GreinerShape<C, T>,
    order: Seq<usize>,
    k: nat,
) -> Result<Seq<ExtractedCurves<C>>, GreinerError>
    decreases k,
{
    if k == 0 {
        Ok(Seq::empty())
    } else {
        match extracted_upto(g, other, order, (k - 1) as nat) {
            Err(e) => Err(e),
            Ok(s) => match curves_around(g, other, order, k - 1) {
                None => Ok(s),
                Some(Err(e)) => Err(e),
                Some(Ok(x)) => Ok(s.push(x)),
            },
        }
    }
}

/// The extracted pair names point `j`.
pub open spec fn names<C>(e: ExtractedCurves<C>, j: int) -> bool {
    e.index_c0 == j || e.index_c1 == j
}

/// Some extracted pair whose curves do not really cross names point `j`.
pub open spec fn uncrossed_at<C>(
    extracted: Seq<ExtractedCurves<C>>,
    really: Seq<bool>,
    j: int,
) -> bool {
    exists|k: int| 0 <= k < extracted.len() && !really[k] && #[trigger] names(extracted[k], j)
}

/// `data` where every point named by an extracted pair whose curves do not really cross
/// becomes a point where the outlines run together.
pub open spec fn uncrossed<C, T>(
    data: Seq<CoordOfIntersection<C, T>>,
    extracted: Seq<ExtractedCurves<C>>,
    really: Seq<bool>,
) -> Seq<CoordOfIntersection<C, T>> {
    Seq::new(
        data.len(),
        |j: int|
            if uncrossed_at(extracted, really, j) {
                CoordOfIntersection { intersect: IntersectionType::Common, ..data[j] }
            } else {
                data[j]
            },
    )
}

/// Once extraction has failed, it stays failed.
proof fn lemma_extracted_stays_err<C, T>(
    g: GreinerShape<C, T>,
    other: GreinerShape<C, T>,
    order: Seq<usize>,
    k: nat,
    n: nat,
)
    requires
        k <= n,
        extracted_upto(g, other, order, k) is Err,
    ensures
        extracted_upto(g, other, order, n) == extracted_upto(g, other, order, k),
    decreases n - k,
{
    if k < n {
        lemma_extracted_stays_err(g, other, order, k + 1, n);
    }
}

impl<C: Copy, T: Copy> GreinerShape<C, T> {
    /// The position, from the one after `p` and around, of the first crossing in `order`
    /// where the outlines stop running together.
    fn find_partner(&self, order: &Vec<usize>, p: usize) -> (j: Option<usize>)
        requires
            p < order@.len(),
            forall|x: int| 0 <= x < order@.len() ==> #[trigger] order@[x] < self.data@.len(),
        ensures
            j matches Some(jj) ==> jj < order@.len() && partner_search(
                self.data@,
                order@,
                p as int,
                0,
            ) == Some(jj as int),
            j is None ==> partner_search(self.data@, order@, p as int, 0) is None,
    {
        let len = order.len();
        let mut k: usize = 0;
        let mut j = if p + 1 < len {
            p + 1
        } else {
            0
        };
        while k < len
            invariant
                len == order@.len(),
                p < len,
                k <= len,
                forall|x: int| 0 <= x < order@.len() ==> #[trigger] order@[x] < self.data@.len(),
                j < len,
                k < len ==> j as int == if p + 1 + k < len {
                    p + 1 + k
                } else {
                    p + 1 + k - len
                },
                partner_search(self.data@, order@, p as int, 0) == partner_search(
                    self.data@,
                    order@,
                    p as int,
                    k as nat,
                ),
            decreases len - k,
        {
            if self.data[order[j]].intersect == IntersectionType::CommonIntersection {
                return Some(j);
            }
            j = if j + 1 < len {
                j + 1
            } else {
                0
            };
            k = k + 1;
        }
        None
    }

    /// The curves around each crossing in the order of their forward links, as
    /// `extracted_upto` says, or the first error.
    pub fn extract_curves(&self, other: &GreinerShape<C, T>) -> (res: Result<
        Vec<ExtractedCurves<C>>,
        GreinerError,
    >)
        requires
            self.intersections_len <= self.data@.len(),
            forall|i: int|
                0 <= i < self.intersections_len && (#[trigger] self.data@[i]).intersect
                    == IntersectionType::Intersection ==> self.data@[i].neighbor == Some(
                    i as usize,
                ),
            forall|i: int|
                0 <= i < self.intersections_len && (#[trigger] self.data@[i]).intersect
                    == IntersectionType::IntersectionCommon ==> i < other.data@.len(),
        ensures
            exists|order: Seq<usize>|
                ordered_by_next(self.data@, self.intersections_len as nat, order) && match res {
                    Ok(v) => extracted_upto(
                        *self,
                        *other,
                        order,
                        self.intersections_len as nat,
                    ) == Ok::<Seq<ExtractedCurves<C>>, GreinerError>(v@),
                    Err(e) => extracted_upto(
                        *self,
                        *other,
                        order,
                        self.intersections_len as nat,
                    ) == Err::<Seq<ExtractedCurves<C>>, GreinerError>(e),
                },
    {
        let order = self.crossings_by_next();
        let n = order.len();
        let mut extracted: Vec<ExtractedCurves<C>> = Vec::new();
        let mut p: usize = 0;
        while p < n
            invariant
                n == order@.len(),
                n == self.intersections_len,
                ordered_by_next(self.data@, self.intersections_len as nat, order@),
                self.intersections_len <= self.data@.len(),
                forall|i: int|
                    0 <= i < self.intersections_len && (#[trigger] self.data@[i]).intersect
                        == IntersectionType::Intersection ==> self.data@[i].neighbor == Some(
                        i as usize,
                    ),
                forall|i: int|
                    0 <= i < self.intersections_len && (#[trigger] self.data@[i]).intersect
                        == IntersectionType::IntersectionCommon ==> i < other.data@.len(),
                p <= n,
                extracted_upto(*self, *other, order@, p as nat) == Ok::<
                    Seq<ExtractedCurves<C>>,
                    GreinerError,
                >(extracted@),
            decreases n - p,
        {
            let i = order[p];
            assert(i < self.intersections_len);
            let kind = self.data[i].intersect;
            if kind == IntersectionType::Intersection {
                let c0 = self.next_curve(i, Direction::Backward);
                let n0 = other.next_curve(i, Direction::Backward);
                let c1 = self.next_curve(i, Direction::Forward);
                let n1 = other.next_curve(i, Direction::Forward);
                match (c0, n0, c1, n1) {
                    (Ok(c0), Ok(n0), Ok(c1), Ok(n1)) => {
                        extracted.push(
                            ExtractedCurves {
                                index_c0: i,
                                coords_c0: c0,
                                coords_neighbor_c0: n0,
                                index_c1: i,
                                coords_c1: c1,
                                coords_neighbor_c1: n1,
                            },
                        );
                    },
                    _ => {
                        proof {
                            lemma_extracted_stays_err(*self, *other, order@, (p + 1) as nat, n as nat);
                        }
                        return Err(GreinerError::NoNext);
                    },
                }
            } else if kind == IntersectionType::IntersectionCommon {
                let j = match self.find_partner(&order, p) {
                    Some(j) => j,
                    None => {
                        proof {
                            lemma_extracted_stays_err(*self, *other, order@, (p + 1) as nat, n as nat);
                        }
                        return Err(GreinerError::EndlessWalk);
                    },
                };
                let oi = order[j];
                let c0 = self.next_curve(i, Direction::Backward);
                let c1 = self.next_curve(oi, Direction::Forward);
                let (n0, n1) = if other.data[i].intersect == IntersectionType::IntersectionCommon {
                    (other.next_curve(i, Direction::Backward), other.next_curve(oi, Direction::Forward))
                } else {
                    (other.next_curve(oi, Direction::Backward), other.next_curve(i, Direction::Forward))
                };
                match (c0, n0, c1, n1) {
                    (Ok(c0), Ok(n0), Ok(c1), Ok(n1)) => {
                        extracted.push(
                            ExtractedCurves {
                                index_c0: i,
                                coords_c0: c0,
                                coords_neighbor_c0: n0,
                                index_c1: oi,
                                coords_c1: c1,
                                coords_neighbor_c1: n1,
                            },
                        );
                    },
                    _ => {
                        proof {
                            lemma_extracted_stays_err(*self, *other, order@, (p + 1) as nat, n as nat);
                        }
                        return Err(GreinerError::NoNext);
                    },
                }
            }
            p = p + 1;
        }
        Ok(extracted)
    }

    /// Makes every point named by an extracted pair whose curves do not really cross
    /// (`really[k]` false) a point where the outlines run together.
    pub fn handle_non_intersection(
        &mut self,
        extracted: &Vec<ExtractedCurves<C>>,
        really: &Vec<bool>,
    )
        requires
            really@.len() == extracted@.len(),
            forall|k: int|
                0 <= k < extracted@.len() ==> (#[trigger] extracted@[k]).index_c0 < old(
                    self,
                ).data@.len() && extracted@[k].index_c1 < old(self).data@.len(),
        ensures
            final(self).start == old(self).start,
            final(self).intersections_len == old(self).intersections_len,
            final(self).data@ == uncrossed(old(self).data@, extracted@, really@),
    {
        let ghost data0 = self.data@;
        let mut k: usize = 0;
        while k < extracted.len()
            invariant
                data0 == old(self).data@,
                self.start == old(self).start,
                self.intersections_len == old(self).intersections_len,
                really@.len() == extracted@.len(),
                forall|x: int|
                    0 <= x < extracted@.len() ==> (#[trigger] extracted@[x]).index_c0 < data0.len()
                        && extracted@[x].index_c1 < data0.len(),
                k <= extracted@.len(),
                self.data@ == uncrossed(data0, extracted@.subrange(0, k as int), really@.subrange(0, k as int)),
            decreases extracted@.len() - k,
        {
            let ghost before = self.data@;
            if !really[k] {
                let i0 = extracted[k].index_c0;
                let i1 = extracted[k].index_c1;
                let mut node = self.data[i0];
                node.intersect = IntersectionType::Common;
                self.data.set(i0, node);
                let mut node = self.data[i1];
                node.intersect = IntersectionType::Common;
                self.data.set(i1, node);
            }
            proof {
                let e1 = extracted@.subrange(0, k + 1);
                let r1 = really@.subrange(0, k + 1);
                let e0 = extracted@.subrange(0, k as int);
                let r0 = really@.subrange(0, k as int);
                assert forall|j: int| 0 <= j < data0.len() implies self.data@[j] == uncrossed(
                    data0,
                    e1,
                    r1,
                )[j] by {
                    assert(before[j] == uncrossed(data0, e0, r0)[j]);
                    if uncrossed_at(e0, r0, j) {
                        let x = choose|x: int|
                            0 <= x < e0.len() && !r0[x] && #[trigger] names(e0[x], j);
                        assert(e1[x] == e0[x] && r1[x] == r0[x]);
                        assert(names(e1[x], j));
                        assert(uncrossed_at(e1, r1, j));
                    } else if !really@[k as int] && names(extracted@[k as int], j) {
                        assert(e1[k as int] == extracted@[k as int]);
                        assert(names(e1[k as int], j));
                        assert(uncrossed_at(e1, r1, j));
                    } else {
                        assert forall|x: int| 0 <= x < e1.len() && !r1[x] implies !#[trigger] names(
                            e1[x],
                            j,
                        ) by {
                            if x < k {
                                assert(e1[x] == e0[x] && r1[x] == r0[x]);
                            }
                        }
                    }
                }
                assert(self.data@ =~= uncrossed(data0, e1, r1));
            }
            k = k + 1;
        }
        assert(extracted@.subrange(0, extracted@.len() as int) =~= extracted@);
        assert(really@.subrange(0, really@.len() as int) =~= really@);
    }
}

/// The point that a point of an outline gives: its own point where it has one, else one at its
/// position with the identifier `counter`.
pub open spec fn point_of<C, T>(node: CoordOfIntersection<C, T>, counter: nat) -> DbCoord<C> {
    match node.rel_coord {
        Some(r) => r,
        None => DbCoord { id: CoordId::spec_from_value(counter as usize), coord: node.coord },
    }
}

/// The identifier counter once `point_of(node, counter)` has been taken.
pub open spec fn counter_after_point<C, T>(node: CoordOfIntersection<C, T>, counter: nat) -> nat {
    match node.rel_coord {
        Some(_) => counter,
        None => next_counter(counter),
    }
}

/// `data` with point `i` at position `coord`.
pub open spec fn with_coord<C, T>(data: Seq<CoordOfIntersection<C, T>>, i: int, coord: C) -> Seq<
    CoordOfIntersection<C, T>,
> {
    data.update(i, CoordOfIntersection { coord, ..data[i] })
}

/// `data` with point `i` standing for `p`.
pub open spec fn with_point<C, T>(data: Seq<CoordOfIntersection<C, T>>, i: int, p: DbCoord<C>) -> Seq<
    CoordOfIntersection<C, T>,
> {
    data.update(i, CoordOfIntersection { rel_coord: Some(p), ..data[i] })
}

/// The curve from point `p0` through handles `c0`, `c1` to point `p1` made straight, with the
/// counter of identifiers `counter`: each handle moves onto its point and takes the point the
/// point gives (which the point keeps, taking a new identifier where it had none).
#[verifier::opaque]
pub open spec fn straighten<C, T>(
    data: Seq<CoordOfIntersection<C, T>>,
    p0: int,
    c0: int,
    c1: int,
    p1: int,
    counter: nat,
) -> (Seq<CoordOfIntersection<C, T>>, nat) {
    let s1 = with_coord(data, c0, data[p0].coord);
    let s2 = with_coord(s1, c1, s1[p1].coord);
    let r0 = point_of(s2[p0], counter);
    let k0 = counter_after_point(s2[p0], counter);
    let s4 = with_point(with_point(s2, p0, r0), c0, r0);
    let r1 = point_of(s4[p1], k0);
    let k1 = counter_after_point(s4[p1], k0);
    (with_point(with_point(s4, p1, r1), c1, r1), k1)
}

/// Where `j` steps forward from `start` lead.
pub open spec fn ahead<C, T>(data: Seq<CoordOfIntersection<C, T>>, start: int, j: nat) -> int {
    walk(data, start, j, Direction::Forward)->Ok_0
}

/// How many curves, counted from the start, the straightening looks at: one for each three
/// points, rounded up, and one more.
pub open spec fn straighten_rounds(len: nat) -> nat {
    (len + 4) / 3
}

/// The outline `data` once the first `k` curves from `start` have been looked at, `lines[q]`
/// telling whether curve `q` is straight, with the counter of identifiers `counter`.
#[verifier::opaque]
pub open spec fn straightened<C, T>(
    data: Seq<CoordOfIntersection<C, T>>,
    start: int,
    lines: Seq<bool>,
    k: nat,
    counter: nat,
) -> (Seq<CoordOfIntersection<C, T>>, nat)
    decreases k,
{
    if k == 0 {
        (data, counter)
    } else {
        let prev = straightened(data, start, lines, (k - 1) as nat, counter);
        let q = 3 * (k - 1);
        if lines[k - 1] {
            straighten(
                prev.0,
                ahead(data, start, q as nat),
                ahead(data, start, (q + 1) as nat),
                ahead(data, start, (q + 2) as nat),
                ahead(data, start, (q + 3) as nat),
                prev.1,
            )
        } else {
            prev
        }
    }
}

/// The positions of curve `k` from `start`, as the outline `s` has them then.
pub open spec fn curve_positions<C, T>(
    s: Seq<CoordOfIntersection<C, T>>,
    data: Seq<CoordOfIntersection<C, T>>,
    start: int,
    k: nat,
) -> (C, C, C, C) {
    (
        s[ahead(data, start, 3 * k)].coord,
        s[ahead(data, start, 3 * k + 1)].coord,
        s[ahead(data, start, 3 * k + 2)].coord,
        s[ahead(data, start, 3 * k + 3)].coord,
    )
}

/// Straightening leaves the links and the length as they are.
#[verifier::spinoff_prover]
proof fn lemma_straighten_keeps_links<C, T>(
    data: Seq<CoordOfIntersection<C, T>>,
    p0: int,
    c0: int,
    c1: int,
    p1: int,
    counter: nat,
)
    requires
        0 <= p0 < data.len(),
        0 <= c0 < data.len(),
        0 <= c1 < data.len(),
        0 <= p1 < data.len(),
    ensures
        straighten(data, p0, c0, c1, p1, counter).0.len() == data.len(),
        forall|i: int|
            0 <= i < data.len() ==> (#[trigger] straighten(data, p0, c0, c1, p1, counter).0[i]).next
                == data[i].next,
{
    reveal(straighten);
}

/// What the first `k` curves give does not depend on the decisions for later ones.
proof fn lemma_straightened_prefix<C, T>(
    data: Seq<CoordOfIntersection<C, T>>,
    start: int,
    lines: Seq<bool>,
    b: bool,
    k: nat,
    counter: nat,
)
    requires
        k <= lines.len(),
    ensures
        straightened(data, start, lines.push(b), k, counter) == straightened(
            data,
            start,
            lines,
            k,
            counter,
        ),
    decreases k,
{
    reveal(straightened);
    if k > 0 {
        lemma_straightened_prefix(data, start, lines, b, (k - 1) as nat, counter);
        assert(lines.push(b)[k - 1] == lines[k - 1]);
    }
}

/// One more curve looked at: straightened where `b` says it is straight.
proof fn lemma_straightened_step<C, T>(
    data: Seq<CoordOfIntersection<C, T>>,
    start: int,
    lines: Seq<bool>,
    b: bool,
    k: nat,
    counter: nat,
)
    requires
        k == lines.len(),
    ensures
        ({
            let prev = straightened(data, start, lines, k, counter);
            straightened(data, start, lines.push(b), k + 1, counter) == if b {
                straighten(
                    prev.0,
                    ahead(data, start, 3 * k),
                    ahead(data, start, 3 * k + 1),
                    ahead(data, start, 3 * k + 2),
                    ahead(data, start, 3 * k + 3),
                    prev.1,
                )
            } else {
                prev
            }
        }),
{
    reveal(straightened);
    lemma_straightened_prefix(data, start, lines, b, k, counter);
    assert(lines.push(b)[k as int] == b);
}

/// Straightens the curve from point `p0` through handles `c0`, `c1` to point `p1`.
fn straighten_at<C: Copy, T: Copy>(
    list: &mut Vec<CoordOfIntersection<C, T>>,
    p0: usize,
    c0: usize,
    c1: usize,
    p1: usize,
    ids: &mut IdGenerator,
)
    requires
        p0 < old(list)@.len(),
        c0 < old(list)@.len(),
        c1 < old(list)@.len(),
        p1 < old(list)@.len(),
    ensures
        final(list)@ == straighten(old(list)@, p0 as int, c0 as int, c1 as int, p1 as int, old(ids).peek()).0,
        final(ids).peek() == straighten(
            old(list)@,
            p0 as int,
            c0 as int,
            c1 as int,
            p1 as int,
            old(ids).peek(),
        ).1,
{
    reveal(straighten);
    let ghost s0 = list@;
    let ghost k0 = ids.peek();
    let p0_coord = list[p0].coord;
    let mut n = list[c0];
    n.coord = p0_coord;
    list.set(c0, n);
    let p1_coord = list[p1].coord;
    let mut n = list[c1];
    n.coord = p1_coord;
    list.set(c1, n);
    let ghost s2 = list@;
    assert(s2 =~= with_coord(with_coord(s0, c0 as int, s0[p0 as int].coord), c1 as int, with_coord(s0, c0 as int, s0[p0 as int].coord)[p1 as int].coord));
    let r0 = list[p0].coord_ptr(ids);
    proof {
        CoordId::lemma_from_value(r0.id);
    }
    let mut n = list[p0];
    n.rel_coord = Some(r0);
    list.set(p0, n);
    let mut n = list[c0];
    n.rel_coord = Some(r0);
    list.set(c0, n);
    let ghost s4 = list@;
    assert(s4 =~= with_point(with_point(s2, p0 as int, r0), c0 as int, r0));
    let r1 = list[p1].coord_ptr(ids);
    proof {
        CoordId::lemma_from_value(r1.id);
    }
    let mut n = list[p1];
    n.rel_coord = Some(r1);
    list.set(p1, n);
    let mut n = list[c1];
    n.rel_coord = Some(r1);
    list.set(c1, n);
    assert(list@ =~= with_point(with_point(s4, p1 as int, r1), c1 as int, r1));
}

/// Makes the straight curves of the outline `list` straight in their handles too: looking at
/// curves three points at a time forward from `start`, as many as `straighten_rounds` says,
/// each curve that `is_line` finds straight gets its handles moved onto its points, and each
/// handle then stands for the same point as its point (the point taking a new identifier where
/// it stood for none).
pub fn compress_coord_ptr<C: Copy, T: Copy, F: Fn(C, C, C, C) -> bool>(
    list: &mut Vec<CoordOfIntersection<C, T>>,
    start: usize,
    is_line: &F,
    ids: &mut IdGenerator,
)
    requires
        start < old(list)@.len(),
        linked_round(old(list)@),
        forall|a: C, b: C, c: C, d: C| #[trigger] is_line.requires((a, b, c, d)),
    ensures
        (exists|lines: Seq<bool>|
            lines.len() == straighten_rounds(old(list)@.len()) && (forall|k: int|
                    0 <= k < lines.len() ==> call_ensures(
                        is_line,
                        curve_positions(
                            straightened(
                                old(list)@,
                                start as int,
                                lines,
                                k as nat,
                                old(ids).peek(),
                            ).0,
                            old(list)@,
                            start as int,
                            k as nat,
                        ),
                        #[trigger] lines[k],
                    )) && final(list)@ == straightened(
                    old(list)@,
                    start as int,
                    lines,
                    lines.len(),
                    old(ids).peek(),
                ).0 && final(ids).peek() == straightened(
                    old(list)@,
                    start as int,
                    lines,
                    lines.len(),
                    old(ids).peek(),
                ).1),
{
    let ghost s0 = list@;
    let ghost k0 = ids.peek();
    let len = list.len();
    let rounds = len / 3 + 1 + if len % 3 == 2 {
        1
    } else {
        0
    };
    assert(rounds == straighten_rounds(len as nat));
    let mut current = start;
    let mut k: usize = 0;
    let ghost mut lines: Seq<bool> = Seq::empty();
    assert(straightened(s0, start as int, lines, 0, k0) == (s0, k0)) by {
        reveal(straightened);
    }
    while k < rounds
        invariant
            s0 == old(list)@,
            k0 == old(ids).peek(),
            len == s0.len(),
            rounds == straighten_rounds(len as nat),
            start < len,
            links_in_range(s0),
            forall|i: int| 0 <= i < s0.len() ==> (#[trigger] s0[i]).next is Some,
            forall|a: C, b: C, c: C, d: C| #[trigger] is_line.requires((a, b, c, d)),
            k <= rounds,
            lines.len() == k,
            walk(s0, start as int, 3 * k as nat, Direction::Forward) == Ok::<int, GreinerError>(
                current as int,
            ),
            current < len,
            list@ == straightened(s0, start as int, lines, k as nat, k0).0,
            ids.peek() == straightened(s0, start as int, lines, k as nat, k0).1,
            list@.len() == len,
            forall|i: int| 0 <= i < len ==> (#[trigger] list@[i]).next == s0[i].next,
            forall|j: int|
                0 <= j < k ==> call_ensures(
                    is_line,
                    curve_positions(
                        straightened(s0, start as int, lines, j as nat, k0).0,
                        s0,
                        start as int,
                        j as nat,
                    ),
                    #[trigger] lines[j],
                ),
        decreases rounds - k,
    {
        let i_p0 = current;
        let i_cp0 = match list[i_p0].next {
            Some(n) => n,
            None => {
                assert(false);
                i_p0
            },
        };
        proof {
            lemma_walk_extend(s0, start as int, (3 * k) as nat, Direction::Forward, i_p0 as int);
        }
        let i_cp1 = match list[i_cp0].next {
            Some(n) => n,
            None => {
                assert(false);
                i_cp0
            },
        };
        proof {
            lemma_walk_extend(s0, start as int, (3 * k + 1) as nat, Direction::Forward, i_cp0 as int);
        }
        let i_p1 = match list[i_cp1].next {
            Some(n) => n,
            None => {
                assert(false);
                i_cp1
            },
        };
        proof {
            lemma_walk_extend(s0, start as int, (3 * k + 2) as nat, Direction::Forward, i_cp1 as int);
            assert(3 * k + 3 == 3 * (k + 1));
        }
        current = i_p1;
        let ghost before = list@;
        let ghost counter = ids.peek();
        let line = is_line(list[i_p0].coord, list[i_cp0].coord, list[i_cp1].coord, list[i_p1].coord);
        if line {
            straighten_at(list, i_p0, i_cp0, i_cp1, i_p1, ids);
            proof {
                lemma_straighten_keeps_links(
                    before,
                    i_p0 as int,
                    i_cp0 as int,
                    i_cp1 as int,
                    i_p1 as int,
                    counter,
                );
            }
        }
        proof {
            assert(ahead(s0, start as int, (3 * k) as nat) == i_p0);
            assert(ahead(s0, start as int, (3 * k + 1) as nat) == i_cp0);
            assert(ahead(s0, start as int, (3 * k + 2) as nat) == i_cp1);
            assert(ahead(s0, start as int, (3 * k + 3) as nat) == i_p1);
            let old_lines = lines;
            lemma_straightened_step(s0, start as int, old_lines, line, k as nat, k0);
            lines = lines.push(line);
            assert forall|j: int| 0 <= j < k + 1 implies call_ensures(
                is_line,
                curve_positions(
                    straightened(s0, start as int, lines, j as nat, k0).0,
                    s0,
                    start as int,
                    j as nat,
                ),
                #[trigger] lines[j],
            ) by {
                lemma_straightened_prefix(s0, start as int, old_lines, line, j as nat, k0);
                if j < k {
                    assert(lines[j] == old_lines[j]);
                }
            }
        }
        k = k + 1;
    }
}

/// Every point of `data` links forward, and all links point inside.
pub open spec fn linked_round<C, T>(data: Seq<CoordOfIntersection<C, T>>) -> bool {
    &&& links_in_range(data)
    &&& forall|i: int| 0 <= i < data.len() ==> (#[trigger] data[i]).next is Some
}

/// Whether every link of `data` points inside it, and, where `forward_too`, every point links
/// forward.
pub fn links_fit<C: Copy, T: Copy>(data: &Vec<CoordOfIntersection<C, T>>, forward_too: bool) -> (b:
    bool)
    ensures
        b == (links_in_range(data@) && (forward_too ==> linked_round(data@))),
{
    let len = data.len();
    let mut i: usize = 0;
    while i < len
        invariant
            len == data@.len(),
            i <= len,
            forall|j: int|
                0 <= j < i ==> ((#[trigger] data@[j]).next matches Some(n) ==> n < len) && (
                data@[j].prev matches Some(p) ==> p < len),
            forward_too ==> forall|j: int| 0 <= j < i ==> (#[trigger] data@[j]).next is Some,
        decreases len - i,
    {
        let node = &data[i];
        let next_ok = match node.next {
            Some(n) => n < len,
            None => !forward_too,
        };
        let prev_ok = match node.prev {
            Some(p) => p < len,
            None => true,
        };
        if !next_ok || !prev_ok {
            proof {
                if !next_ok && (node.next matches Some(n)) {
                    assert(!links_in_range(data@));
                }
                if !prev_ok {
                    assert(!links_in_range(data@));
                }
            }
            return false;
        }
        i = i + 1;
    }
    true
}

/// Whether a trace can walk outline `g` with `other` as the other outline.
fn traceable_one<C: Copy, T: Copy>(g: &GreinerShape<C, T>, other: &GreinerShape<C, T>) -> (b: bool)
    ensures
        b == traceable(*g, *other),
{
    let len = g.data.len();
    let n = g.intersections_len;
    if n > len || n != other.intersections_len {
        return false;
    }
    let mut i: usize = 0;
    while i < len
        invariant
            len == g.data@.len(),
            n == g.intersections_len,
            n <= len,
            i <= len,
            forall|j: int|
                0 <= j < i ==> {
                    &&& ((#[trigger] g.data@[j]).next matches Some(x) && x < len)
                    &&& (g.data@[j].prev matches Some(x) && x < len)
                    &&& (crosses_any(g.data@[j].intersect) ==> j < n)
                    &&& (j < n ==> (g.data@[j].neighbor matches Some(x) && x
                        < other.data@.len()))
                },
        decreases len - i,
    {
        let node = &g.data[i];
        let next_ok = match node.next {
            Some(x) => x < len,
            None => false,
        };
        let prev_ok = match node.prev {
            Some(x) => x < len,
            None => false,
        };
        let kind_ok = !node.intersect.is_any_intersection() || i < n;
        let neighbor_ok = i >= n || match node.neighbor {
            Some(x) => x < other.data.len(),
            None => false,
        };
        if !(next_ok && prev_ok && kind_ok && neighbor_ok) {
            return false;
        }
        i = i + 1;
    }
    true
}

/// Whether the traces of a boolean operation can walk the two outlines: each is traceable with
/// the other, and together they are small enough to count their steps.
pub fn can_trace<C: Copy, T: Copy>(ag: &GreinerShape<C, T>, bg: &GreinerShape<C, T>) -> (b: bool)
    ensures
        b == (traceable(*ag, *bg) && traceable(*bg, *ag) && ag.data@.len() + bg.data@.len()
            <= usize::MAX / 4),
{
    ag.data.len() <= usize::MAX / 4 && bg.data.len() <= usize::MAX / 4 - ag.data.len()
        && traceable_one(ag, bg) && traceable_one(bg, ag)
}


/// Where a crossing lies on a curve: inside it, at its start point or at its end point.
#[derive(Debug, Clone, Copy, PartialEq, Eq, Structural)]
pub enum CurveEnd {
    Inside,
    Start,
    End,
}

/// The curve under which a crossing found on curve `i` of an outline of `n` curves is filed:
/// the next curve, at its start, where the crossing is the end point of curve `i`.
pub open spec fn filed_curve(i: int, n: int, at: CurveEnd) -> int {
    if at == CurveEnd::End {
        (i + 1) % n
    } else {
        i
    }
}

/// The point of the shapes that a crossing is, where it lies at an end of one of the two
/// curves (`ends_a` and `ends_b` being their start and end points); an end of the curve of
/// the second shape wins over one of the first.
pub open spec fn shared_point<C>(
    ends_a: (DbCoord<C>, DbCoord<C>),
    at_a: CurveEnd,
    ends_b: (DbCoord<C>, DbCoord<C>),
    at_b: CurveEnd,
) -> Option<DbCoord<C>> {
    match at_b {
        CurveEnd::End => Some(ends_b.1),
        CurveEnd::Start => Some(ends_b.0),
        CurveEnd::Inside => match at_a {
            CurveEnd::End => Some(ends_a.1),
            CurveEnd::Start => Some(ends_a.0),
            CurveEnd::Inside => None,
        },
    }
}

/// The two points, one per outline, that file a crossing at `coord` found at `t_a` on curve
/// `i` of the first shape (of `na` curves) and at `t_b` on curve `j` of the second (of `nb`
/// curves), `len_a` and `len_b` crossings being filed already: a crossing at the end of a
/// curve is filed at the start (`zero`) of the next one, one at an end of a curve is that
/// point of the shape and starts or ends a common part, and each point links to the other
/// by its place in the other list.
pub fn file_crossing<C: Copy, T: Copy>(
    coord: C,
    t_a: T,
    t_b: T,
    zero: T,
    i: usize,
    na: usize,
    at_a: CurveEnd,
    ends_a: (DbCoord<C>, DbCoord<C>),
    j: usize,
    nb: usize,
    at_b: CurveEnd,
    ends_b: (DbCoord<C>, DbCoord<C>),
    len_a: usize,
    len_b: usize,
) -> (res: (CoordOfIntersection<C, T>, CoordOfIntersection<C, T>))
    requires
        i < na,
        j < nb,
    ensures
        res.0.curve_index == filed_curve(i as int, na as int, at_a),
        res.1.curve_index == filed_curve(j as int, nb as int, at_b),
        res.0.t == if at_a == CurveEnd::End { zero } else { t_a },
        res.1.t == if at_b == CurveEnd::End { zero } else { t_b },
        res.0.rel_coord == shared_point(ends_a, at_a, ends_b, at_b),
        res.1.rel_coord == shared_point(ends_a, at_a, ends_b, at_b),
        res.0.intersect == res.1.intersect,
        res.0.intersect == if at_a != CurveEnd::Inside || at_b != CurveEnd::Inside {
            IntersectionType::UnspecifiedCommonIntersection
        } else {
            IntersectionType::Intersection
        },
        res.0.neighbor == Some(len_b),
        res.1.neighbor == Some(len_a),
        res.0.coord == coord,
        res.1.coord == coord,
        res.0.next is None && res.0.prev is None && !res.0.entry,
        res.1.next is None && res.1.prev is None && !res.1.entry,
{
    let mut pa = CoordOfIntersection {
        curve_index: i,
        t: t_a,
        neighbor: None,
        next: None,
        prev: None,
        entry: false,
        intersect: IntersectionType::Intersection,
        coord,
        rel_coord: None,
    };
    let mut pb = CoordOfIntersection {
        curve_index: j,
        t: t_b,
        neighbor: None,
        next: None,
        prev: None,
        entry: false,
        intersect: IntersectionType::Intersection,
        coord,
        rel_coord: None,
    };
    match at_a {
        CurveEnd::End => {
            pa.t = zero;
            pa.curve_index = (pa.curve_index + 1) % na;
            pa.rel_coord = Some(ends_a.1);
            pb.rel_coord = Some(ends_a.1);
        },
        CurveEnd::Start => {
            pa.rel_coord = Some(ends_a.0);
            pb.rel_coord = Some(ends_a.0);
        },
        CurveEnd::Inside => {},
    }
    match at_b {
        CurveEnd::End => {
            pb.t = zero;
            pb.curve_index = (pb.curve_index + 1) % nb;
            pb.rel_coord = Some(ends_b.1);
            pa.rel_coord = Some(ends_b.1);
        },
        CurveEnd::Start => {
            pb.rel_coord = Some(ends_b.0);
            pa.rel_coord = Some(ends_b.0);
        },
        CurveEnd::Inside => {},
    }
    if at_a != CurveEnd::Inside || at_b != CurveEnd::Inside {
        pa.intersect = IntersectionType::UnspecifiedCommonIntersection;
        pb.intersect = IntersectionType::UnspecifiedCommonIntersection;
    }
    pa.neighbor = Some(len_b);
    pb.neighbor = Some(len_a);
    (pa, pb)
}


/// Each leg of a trace leaves its point by the link the operation calls for: in a difference,
/// along the first outline forward (`next`) exactly where the point does not enter the second
/// shape, so that the trace follows the first shape outside the second, and along the second
/// outline forward exactly where the point enters the first shape; in an intersection, forward
/// exactly where the point enters the other shape, on either outline. The first point the leg
/// walks onto is the one that link names.
pub proof fn lemma_trace_leg_direction<C, T>(
    ag: GreinerShape<C, T>,
    bg: GreinerShape<C, T>,
    op: BooleanOp,
    start: int,
    start_nb: int,
    cur: int,
    on_b: bool,
    legs: nat,
    done: Seq<bool>,
)
    requires
        trace_walk(ag, bg, op, start, start_nb, cur, on_b, legs, done) is Some,
    ensures
        ({
            let data = if on_b { bg.data@ } else { ag.data@ };
            let node = data[cur];
            let t = trace_walk(ag, bg, op, start, start_nb, cur, on_b, legs, done)->0;
            let ahead = match op {
                BooleanOp::Difference => if on_b { node.entry } else { !node.entry },
                BooleanOp::Intersection => node.entry,
            };
            &&& 0 <= cur < data.len()
            &&& t.nodes.len() >= 3
            &&& ahead ==> node.next is Some && t.nodes[0] == data[node.next->0 as int]
            &&& !ahead ==> node.prev is Some && t.nodes[0] == data[node.prev->0 as int]
        }),
{
    reveal(trace_walk);
    let g = outline_of(ag, bg, on_b);
    let data = g.data@;
    let dir = dir_of(walks_forward(op, on_b, data[cur].entry));
    let r = first_stop(data, cur, dir, op, on_b, data.len())->0;
    assert(walk(data, cur, 3, dir) is Ok);
    assert(0 <= cur < data.len());
    let n = link(data[cur], dir)->0;
    assert(link(data[cur], dir) is Some);
    assert(walk(data, n as int, 0, dir) == Ok::<int, GreinerError>(n as int));
    assert(walk(data, cur, 1, dir) == Ok::<int, GreinerError>(n as int));
    assert(walk(data, cur, 3, dir) == walk(data, n as int, 2, dir));
    assert(0 <= n < data.len());
    assert(r >= 1);
    let leg = walked_nodes(data, cur, 3 * r, dir);
    assert(leg[0] == data[n as int]);
}

/// Where a leg of an intersection trace ends, after `r` rounds of three steps: at a plain
/// crossing, at a point where the outlines stop running together, or at one where they start
/// to; a point of kind `IntersectionCommon` ends a leg on the first outline only where its
/// entry flag is false, and on the second only where it is true. Every point the leg passes
/// over before that is no plain crossing, and one of kind `IntersectionCommon` among them has
/// the other entry flag.
pub proof fn lemma_intersection_leg_end<C, T>(
    data: Seq<CoordOfIntersection<C, T>>,
    cur: int,
    dir: Direction,
    on_b: bool,
    fuel: nat,
)
    requires
        first_stop(data, cur, dir, BooleanOp::Intersection, on_b, fuel) is Some,
    ensures
        ({
            let r = first_stop(data, cur, dir, BooleanOp::Intersection, on_b, fuel)->0;
            let x = walk(data, cur, 3 * r, dir)->Ok_0;
            &&& r >= 1
            &&& walk(data, cur, 3 * r, dir) is Ok
            &&& 0 <= x < data.len()
            &&& data[x].intersect == IntersectionType::Intersection || data[x].intersect
                == IntersectionType::IntersectionCommon || data[x].intersect
                == IntersectionType::CommonIntersection
            &&& data[x].intersect == IntersectionType::IntersectionCommon ==> (data[x].entry
                <==> on_b)
            &&& forall|q: nat|
                1 <= q < r ==> {
                    let y = walk(data, cur, 3 * q, dir)->Ok_0;
                    &&& #[trigger] walk(data, cur, 3 * q, dir) is Ok
                    &&& 0 <= y < data.len()
                    &&& data[y].intersect != IntersectionType::Intersection
                    &&& data[y].intersect == IntersectionType::IntersectionCommon ==> (
                    data[y].entry <==> !on_b)
                }
        }),
    decreases fuel,
{
    let op = BooleanOp::Intersection;
    let x = walk(data, cur, 3, dir)->Ok_0;
    if !stops(op, on_b, data[x]) {
        let r1 = first_stop(data, x, dir, op, on_b, (fuel - 1) as nat)->0;
        lemma_intersection_leg_end(data, x, dir, on_b, (fuel - 1) as nat);
        lemma_walk_concat(data, cur, 3, 3 * r1, dir);
        assert(3 + 3 * r1 == 3 * (r1 + 1));
        assert forall|q: nat| 1 <= q < r1 + 1 implies {
            let y = walk(data, cur, 3 * q, dir)->Ok_0;
            &&& #[trigger] walk(data, cur, 3 * q, dir) is Ok
            &&& 0 <= y < data.len()
            &&& data[y].intersect != IntersectionType::Intersection
            &&& data[y].intersect == IntersectionType::IntersectionCommon ==> (data[y].entry
                <==> !on_b)
        } by {
            if q == 1 {
                assert(3 * q == 3);
            } else {
                let q1 = (q - 1) as nat;
                lemma_walk_concat(data, cur, 3, 3 * q1, dir);
                assert(3 + 3 * q1 == 3 * q);
                assert(walk(data, x, 3 * q1, dir) is Ok);
            }
        }
    }
}

/// Before any intersection trace, a crossing of the first outline is a place a trace can
/// start from (left unmarked) exactly where the trace goes over there: always at a plain
/// crossing, never where the outlines do not cross, and at a point of kind
/// `IntersectionCommon` exactly where its entry flag is false.
pub proof fn lemma_intersection_starts<C, T>(ag: GreinerShape<C, T>)
    requires
        ag.intersections_len <= ag.data@.len(),
    ensures
        initial_marks(ag, BooleanOp::Intersection).len() == ag.intersections_len,
        forall|x: int|
            0 <= x < ag.intersections_len ==> {
                let node = #[trigger] ag.data@[x];
                let marked = initial_marks(ag, BooleanOp::Intersection)[x];
                &&& node.intersect == IntersectionType::Intersection ==> !marked
                &&& node.intersect == IntersectionType::IntersectionCommon ==> (marked
                    <==> node.entry)
                &&& (node.intersect == IntersectionType::Nothing || node.intersect
                    == IntersectionType::Common) ==> marked
            },
{
}

/// A shape traced for an intersection starts at a crossing of the first outline where the
/// trace goes over: at one of kind `IntersectionCommon` only where its entry flag is false.
pub proof fn lemma_intersection_shape_start<C, T>(
    ag: GreinerShape<C, T>,
    a: Shape<C>,
    t: Trace<C, T>,
    s: Shape<C>,
)
    requires
        shape_of_trace(ag, BooleanOp::Intersection, a, t, s),
    ensures
        ag.data@[t.start].intersect == IntersectionType::IntersectionCommon ==> !ag.data@[t.start].entry,
        ag.data@[t.start].intersect != IntersectionType::Nothing,
        ag.data@[t.start].intersect != IntersectionType::Common,
{
}

/// Where a leg of a difference trace ends, after `r` rounds of three steps: at the first
/// point, in rounds of three, where the outlines cross (a plain crossing, or one that leaves or
/// is still open between running together and crossing); the points passed over before it are
/// none of these.
pub proof fn lemma_difference_leg_end<C, T>(
    data: Seq<CoordOfIntersection<C, T>>,
    cur: int,
    dir: Direction,
    on_b: bool,
    fuel: nat,
)
    requires
        first_stop(data, cur, dir, BooleanOp::Difference, on_b, fuel) is Some,
    ensures
        ({
            let r = first_stop(data, cur, dir, BooleanOp::Difference, on_b, fuel)->0;
            let x = walk(data, cur, 3 * r, dir)->Ok_0;
            &&& r >= 1
            &&& walk(data, cur, 3 * r, dir) is Ok
            &&& 0 <= x < data.len()
            &&& (data[x].intersect == IntersectionType::Intersection || data[x].intersect
                == IntersectionType::CommonIntersection || data[x].intersect
                == IntersectionType::UnspecifiedCommonIntersection)
            &&& forall|q: nat|
                1 <= q < r ==> {
                    let y = walk(data, cur, 3 * q, dir)->Ok_0;
                    &&& #[trigger] walk(data, cur, 3 * q, dir) is Ok
                    &&& 0 <= y < data.len()
                    &&& (data[y].intersect == IntersectionType::Nothing || data[y].intersect
                        == IntersectionType::Common || data[y].intersect
                        == IntersectionType::IntersectionCommon)
                }
        }),
    decreases fuel,
{
    let op = BooleanOp::Difference;
    let x = walk(data, cur, 3, dir)->Ok_0;
    if !stops(op, on_b, data[x]) {
        let r1 = first_stop(data, x, dir, op, on_b, (fuel - 1) as nat)->0;
        lemma_difference_leg_end(data, x, dir, on_b, (fuel - 1) as nat);
        lemma_walk_concat(data, cur, 3, 3 * r1, dir);
        assert(3 + 3 * r1 == 3 * (r1 + 1));
        assert forall|q: nat| 1 <= q < r1 + 1 implies {
            let y = walk(data, cur, 3 * q, dir)->Ok_0;
            &&& #[trigger] walk(data, cur, 3 * q, dir) is Ok
            &&& 0 <= y < data.len()
            &&& (data[y].intersect == IntersectionType::Nothing || data[y].intersect
                == IntersectionType::Common || data[y].intersect
                == IntersectionType::IntersectionCommon)
        } by {
            if q == 1 {
                assert(3 * q == 3);
            } else {
                let q1 = (q - 1) as nat;
                lemma_walk_concat(data, cur, 3, 3 * q1, dir);
                assert(3 + 3 * q1 == 3 * q);
                assert(walk(data, x, 3 * q1, dir) is Ok);
            }
        }
    }
}

/// Before any difference trace, a crossing of the first outline is a place a trace can start
/// from (left unmarked) exactly where the outlines cross there.
pub proof fn lemma_difference_starts<C, T>(ag: GreinerShape<C, T>)
    requires
        ag.intersections_len <= ag.data@.len(),
    ensures
        initial_marks(ag, BooleanOp::Difference).len() == ag.intersections_len,
        forall|x: int|
            0 <= x < ag.intersections_len ==> (!(#[trigger] initial_marks(ag, BooleanOp::Difference)[x])
                <==> (ag.data@[x].intersect == IntersectionType::Intersection
                || ag.data@[x].intersect == IntersectionType::CommonIntersection
                || ag.data@[x].intersect == IntersectionType::UnspecifiedCommonIntersection)),
{
}

} // verus!
