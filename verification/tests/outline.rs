use vgc::boolean::{CoordOfIntersection, IntersectionType};
use vgc::outline::{check_plan, link_outline, Cut, CurveCuts};

type P = (f32, f32);
type Node = CoordOfIntersection<P, f32>;

fn point(x: f32, kind: IntersectionType) -> Node {
    CoordOfIntersection {
        curve_index: 0,
        t: 0.0,
        neighbor: None,
        next: None,
        prev: None,
        entry: false,
        intersect: kind,
        coord: (x, 0.0),
        rel_coord: None,
    }
}

fn plain(x: f32) -> Node {
    point(x, IntersectionType::Nothing)
}

/// Follows the forward links from `start`, collecting the x of each point, `n` times.
fn walk_x(data: &[Node], start: usize, n: usize) -> Vec<f32> {
    let mut out = Vec::new();
    let mut cur = start;
    for _ in 0..n {
        out.push(data[cur].coord.0);
        cur = data[cur].next.unwrap();
    }
    out
}

fn check_back_links(data: &[Node]) {
    for (i, node) in data.iter().enumerate() {
        if let Some(n) = node.next {
            assert_eq!(data[n].prev, Some(i));
        }
    }
}

#[test]
fn link_outline_puts_a_crossing_inside_a_curve() {
    let crossings = vec![point(100.0, IntersectionType::Intersection)];
    let plan = vec![CurveCuts {
        cuts: vec![Cut::Split(plain(1.0), plain(2.0), 0)],
        cp0: plain(3.0),
        cp1: plain(4.0),
        p1: plain(0.0),
    }];

    let g = link_outline(crossings, plain(0.0), &plan);

    assert_eq!(g.intersections_len, 1);
    assert_eq!(g.data.len(), 6);
    assert_eq!(g.start, 1);
    assert_eq!(walk_x(&g.data, g.start, 7), vec![0.0, 1.0, 2.0, 100.0, 3.0, 4.0, 0.0]);
    assert_eq!(g.data[0].intersect, IntersectionType::Intersection);
    check_back_links(&g.data);
}

#[test]
fn link_outline_crossing_at_the_first_point_takes_its_place() {
    let crossings = vec![point(100.0, IntersectionType::Intersection)];
    let plan = vec![CurveCuts { cuts: vec![Cut::AtStart(0)], cp0: plain(3.0), cp1: plain(4.0), p1: plain(0.0) }];

    let g = link_outline(crossings, plain(0.0), &plan);

    assert_eq!(g.start, 0);
    assert_eq!(g.data.len(), 3);
    assert_eq!(walk_x(&g.data, g.start, 4), vec![100.0, 3.0, 4.0, 100.0]);
    check_back_links(&g.data);
}

#[test]
fn link_outline_crossing_at_the_start_of_a_later_curve() {
    let crossings = vec![point(100.0, IntersectionType::Intersection), point(200.0, IntersectionType::Intersection)];
    let plan = vec![
        CurveCuts { cuts: vec![Cut::Split(plain(1.0), plain(2.0), 1)], cp0: plain(3.0), cp1: plain(4.0), p1: plain(5.0) },
        CurveCuts { cuts: vec![Cut::AtStart(0)], cp0: plain(6.0), cp1: plain(7.0), p1: plain(0.0) },
    ];

    let g = link_outline(crossings, plain(0.0), &plan);

    assert_eq!(g.start, 2);
    assert_eq!(g.data.len(), 2 + 7);
    assert_eq!(
        walk_x(&g.data, g.start, 9),
        vec![0.0, 1.0, 2.0, 200.0, 3.0, 4.0, 100.0, 6.0, 7.0]
    );
    assert_eq!(walk_x(&g.data, g.start, 10)[9], 0.0);
    check_back_links(&g.data);
}

#[test]
fn check_plan_accepts_only_plans_link_outline_can_take() {
    let tail = |cuts: Vec<Cut<P, f32>>| CurveCuts { cuts, cp0: plain(3.0), cp1: plain(4.0), p1: plain(0.0) };
    let split = |i: usize| Cut::Split(plain(1.0), plain(2.0), i);
    assert!(check_plan(&vec![tail(vec![split(0)])], 1));
    assert!(check_plan(&vec![tail(vec![Cut::AtStart(1), split(0)])], 2));
    assert!(check_plan(&vec![tail(vec![]), tail(vec![Cut::AtStart(0)])], 1));
    assert!(!check_plan::<P, f32>(&vec![], 0));
    assert!(!check_plan(&vec![tail(vec![split(1)])], 1));
    assert!(!check_plan(&vec![tail(vec![split(0), Cut::AtStart(1)])], 2));
    assert!(!check_plan(&vec![tail(vec![split(0)]), tail(vec![split(0)])], 1));
}
