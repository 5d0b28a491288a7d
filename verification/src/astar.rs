//! A* search over the points of the integer plane, with the Manhattan
//! distance as the estimate of the cost that remains.

use crate::frontier::first_cheapest;
use crate::search::{
    lemma_after_pop,
    lemma_cheapest,
    lemma_direction_unique,
    lemma_finish,
    lemma_initial,
    lemma_links_cost,
    lemma_links_passable,
    lemma_links_same,
    lemma_no_walk,
    lemma_relax,
    lemma_skip,
    lemma_walk_length,
    node_ok,
    search_inv,
    without_candidate,
    Search,
};
use vstd::prelude::*;

verus! {

/// A point of the integer plane.
#[derive(Debug, Copy, Clone, PartialEq, Eq, Hash, Structural)]
pub struct Point {
    pub x: i32,
    pub y: i32,
}

impl Point {
    /// The point `(x, y)`.
    pub fn from_pos(x: i32, y: i32) -> (p: Self)
        ensures
            p == (Point { x, y }),
    {
        Self { x, y }
    }
}

/// The distance between two integers.
pub open spec fn distance(a: int, b: int) -> int {
    if a >= b {
        a - b
    } else {
        b - a
    }
}

/// The Manhattan distance between `(x1, y1)` and `(x2, y2)`: the sum of the
/// distances of the coordinates.
pub open spec fn manhattan(x1: int, y1: int, x2: int, y2: int) -> int {
    distance(x1, x2) + distance(y1, y2)
}

/// The Manhattan distance between two points.
pub open spec fn point_distance(a: Point, b: Point) -> int {
    manhattan(a.x as int, a.y as int, b.x as int, b.y as int)
}

/// A cost held in a `u32`: a value above `u32::MAX` is held as `u32::MAX`.
pub open spec fn saturated(v: int) -> u32 {
    if v > u32::MAX {
        u32::MAX
    } else {
        v as u32
    }
}

/// The Manhattan distance between `(x1, y1)` and `(x2, y2)`, held at
/// `u32::MAX` where it would not fit.
pub fn manhattan_distance(x1: i32, y1: i32, x2: i32, y2: i32) -> (d: u32)
    ensures
        d == saturated(manhattan(x1 as int, y1 as int, x2 as int, y2 as int)),
{
    let dx: i64 = if x1 >= x2 {
        x1 as i64 - x2 as i64
    } else {
        x2 as i64 - x1 as i64
    };
    let dy: i64 = if y1 >= y2 {
        y1 as i64 - y2 as i64
    } else {
        y2 as i64 - y1 as i64
    };
    let sum: i64 = dx + dy;
    if sum > u32::MAX as i64 {
        u32::MAX
    } else {
        sum as u32
    }
}

/// Two points are adjacent when one step along one axis leads from one to
/// the other.
pub open spec fn adjacent(a: Point, b: Point) -> bool {
    point_distance(a, b) == 1
}

/// The coordinates one step from `p` in direction `d`: left, right, up, down
/// for 0, 1, 2, 3.
pub open spec fn offset(p: Point, d: int) -> (int, int) {
    if d == 0 {
        (p.x - 1, p.y as int)
    } else if d == 1 {
        (p.x + 1, p.y as int)
    } else if d == 2 {
        (p.x as int, p.y - 1)
    } else {
        (p.x as int, p.y + 1)
    }
}

/// The direction in which `q` lies from an adjacent point `p`.
pub open spec fn direction_to(p: Point, q: Point) -> int {
    if q.x < p.x {
        0
    } else if q.x > p.x {
        1
    } else if q.y < p.y {
        2
    } else {
        3
    }
}

/// The point one step from `p` in direction `direction`, if its coordinates
/// fit in `i32`.
pub fn neighbor(p: Point, direction: usize) -> (r: Option<Point>)
    requires
        direction < 4,
    ensures
        match r {
            Some(q) => (q.x as int, q.y as int) == offset(p, direction as int) && adjacent(p, q)
                && direction_to(p, q) == direction,
            None => forall|q: Point| !(adjacent(p, q) && direction_to(p, q) == direction),
        },
{
    let (x, y) = if direction == 0 {
        (p.x.checked_add(-1), Some(p.y))
    } else if direction == 1 {
        (p.x.checked_add(1), Some(p.y))
    } else if direction == 2 {
        (Some(p.x), p.y.checked_add(-1))
    } else {
        (Some(p.x), p.y.checked_add(1))
    };
    match (x, y) {
        (Some(x), Some(y)) => Some(Point::from_pos(x, y)),
        _ => None,
    }
}

/// A key that stands for a point in a map: no two points share one.
pub open spec fn point_key(p: Point) -> u64 {
    ((p.x + 0x8000_0000) * 0x1_0000_0000 + (p.y + 0x8000_0000)) as u64
}

/// Different points have different keys.
pub proof fn lemma_point_key_injective(p: Point, q: Point)
    ensures
        point_key(p) == point_key(q) ==> p == q,
{
}

/// The key of `p`.
pub fn key_of(p: &Point) -> (k: u64)
    ensures
        k == point_key(*p),
{
    let x: u64 = (p.x as i64 + 0x8000_0000) as u64;
    let y: u64 = (p.y as i64 + 0x8000_0000) as u64;
    x * 0x1_0000_0000 + y
}

/// A candidate of the search: a point, the cost `g_cost` of reaching it from
/// the start and the estimate `h_cost` of the cost from it to the goal.
#[derive(Debug, Copy, Clone, PartialEq, Eq, Structural)]
pub struct PathNode {
    pub point: Point,
    pub g_cost: u32,
    pub h_cost: u32,
}

impl PathNode {
    /// The total cost by which candidates are ranked: `g_cost + h_cost`,
    /// held at `u32::MAX` where it would not fit.
    pub open spec fn spec_f_cost(&self) -> u32 {
        saturated(self.g_cost + self.h_cost)
    }

    /// The candidate for `pos` with the given costs.
    pub fn new(pos: &Point, g_cost: u32, h_cost: u32) -> (node: Self)
        ensures
            node == (PathNode { point: *pos, g_cost, h_cost }),
    {
        Self { point: *pos, g_cost, h_cost }
    }

    /// The total cost by which candidates are ranked.
    pub fn f_cost(&self) -> (f: u32)
        ensures
            f == self.spec_f_cost(),
    {
        self.g_cost.saturating_add(self.h_cost)
    }
}

/// The cost function may answer `Some(c)` for the step from `a` to `b`.
pub open spec fn passes<G: Fn(&Point, &Point) -> Option<u32>>(
    f: G,
    a: Point,
    b: Point,
    c: u32,
) -> bool {
    call_ensures(f, (&a, &b), Some(c))
}

/// The cost function may answer `None` for the step from `a` to `b`.
pub open spec fn blocks<G: Fn(&Point, &Point) -> Option<u32>>(f: G, a: Point, b: Point) -> bool {
    call_ensures(f, (&a, &b), None::<u32>)
}

/// `price` tells what the cost function answers: whatever the cost function
/// may answer for a step is what `price` gives for it.
pub open spec fn answers_by<G: Fn(&Point, &Point) -> Option<u32>>(
    f: G,
    price: spec_fn(Point, Point) -> Option<u32>,
) -> bool {
    forall|a: Point, b: Point, r: Option<u32>|
        #[trigger] call_ensures(f, (&a, &b), r) ==> r == price(a, b)
}

/// `w` leads from `start` to `goal` by steps between adjacent points.
pub open spec fn is_walk(w: Seq<Point>, start: Point, goal: Point) -> bool {
    &&& w.len() > 0
    &&& w[0] == start
    &&& w[w.len() - 1] == goal
    &&& forall|i: int| 0 <= i < w.len() - 1 ==> adjacent(#[trigger] w[i], w[i + 1])
}

/// The cost function may let the step from `a` to `b` pass.
pub open spec fn may_pass<G: Fn(&Point, &Point) -> Option<u32>>(f: G, a: Point, b: Point) -> bool {
    exists|c: u32| #[trigger] passes(f, a, b, c)
}

/// The cost function may let every step of `w` pass.
pub open spec fn passable<G: Fn(&Point, &Point) -> Option<u32>>(f: G, w: Seq<Point>) -> bool {
    forall|i: int| 0 <= i < w.len() - 1 ==> may_pass(f, #[trigger] w[i], w[i + 1])
}

/// The cost function cannot answer `None` for any step of `w`.
pub open spec fn unblocked<G: Fn(&Point, &Point) -> Option<u32>>(f: G, w: Seq<Point>) -> bool {
    forall|i: int| 0 <= i < w.len() - 1 ==> !blocks(f, #[trigger] w[i], w[i + 1])
}

/// The cost of the step from `a` to `b`; nothing where the step cannot be
/// taken.
pub open spec fn step_cost(price: spec_fn(Point, Point) -> Option<u32>, a: Point, b: Point) -> int {
    match price(a, b) {
        Some(c) => c as int,
        None => 0,
    }
}

/// The sum of the costs of the steps of `w`.
pub open spec fn walk_cost(price: spec_fn(Point, Point) -> Option<u32>, w: Seq<Point>) -> int
    decreases w.len(),
{
    if w.len() <= 1 {
        0
    } else {
        walk_cost(price, w.drop_last()) + step_cost(price, w[w.len() - 2], w[w.len() - 1])
    }
}

/// The step from `a` to `b` can be taken, at a cost of at least 1.
pub open spec fn costs_at_least_one(
    price: spec_fn(Point, Point) -> Option<u32>,
    a: Point,
    b: Point,
) -> bool {
    price(a, b) matches Some(c) && c >= 1
}

/// Every step of `w` can be taken, at a cost of at least 1.
pub open spec fn priced(price: spec_fn(Point, Point) -> Option<u32>, w: Seq<Point>) -> bool {
    forall|i: int| 0 <= i < w.len() - 1 ==> costs_at_least_one(price, #[trigger] w[i], w[i + 1])
}

/// No walk from `start` to `goal` whose steps cost at least 1 each and less
/// than `u32::MAX` together costs less than `path`.
pub open spec fn cheapest(
    price: spec_fn(Point, Point) -> Option<u32>,
    path: Seq<Point>,
    start: Point,
    goal: Point,
) -> bool {
    forall|w: Seq<Point>|
        #![trigger is_walk(w, start, goal), priced(price, w)]
        is_walk(w, start, goal) && priced(price, w) && walk_cost(price, w) < u32::MAX ==> walk_cost(
            price,
            path,
        ) <= walk_cost(price, w)
}

/// What a search from `start` to `goal` may return.
///
/// A path is a walk from `start` to `goal` whose every step the cost
/// function let pass. Whatever function `price` tells the answers of the
/// cost function, the path costs no more than any walk from `start` to
/// `goal` whose steps cost at least 1 each and less than `u32::MAX`
/// together. `None` is returned only where every walk from `start` to `goal`
/// has a step for which the cost function may answer `None`.
pub open spec fn search_result<G: Fn(&Point, &Point) -> Option<u32>>(
    f: G,
    start: Point,
    goal: Point,
    r: Option<Seq<Point>>,
) -> bool {
    match r {
        Some(path) => {
            &&& is_walk(path, start, goal)
            &&& passable(f, path)
            &&& forall|price: spec_fn(Point, Point) -> Option<u32>| #[trigger]
                answers_by(f, price) ==> cheapest(price, path, start, goal)
        },
        None => forall|w: Seq<Point>| #[trigger] is_walk(w, start, goal) ==> !unblocked(f, w),
    }
}

/// The path as a sequence of points, where there is one.
pub open spec fn path_view(r: Option<Vec<Point>>) -> Option<Seq<Point>> {
    match r {
        Some(path) => Some(path@),
        None => None,
    }
}

/// Searches a path from `start` to `goal` by steps to adjacent points.
/// `cost_func` gives the cost of a step, or `None` where the step cannot be
/// taken. The path holds `start` first and `goal` last.
pub fn find_path<G>(start: &Point, goal: &Point, cost_func: G) -> (r: Option<Vec<Point>>) where
    G: Fn(&Point, &Point) -> Option<u32>,

    requires
        forall|a: Point, b: Point| adjacent(a, b) ==> call_requires(cost_func, (&a, &b)),
    ensures
        search_result(cost_func, *start, *goal, path_view(r)),
{
    let mut search = Search::new(start, goal);
    proof {
        lemma_initial(cost_func, *start, *goal);
    }
    loop
        invariant
            search_inv(cost_func, search@, *start, *goal, None, 0),
            forall|a: Point, b: Point| adjacent(a, b) ==> call_requires(cost_func, (&a, &b)),
        decreases search.slack(), search@.open.len(),
    {
        let ghost before = search@;
        let ghost slack_before = search.slack();
        let current_node = match search.pop() {
            Some(node) => node,
            None => {
                proof {
                    lemma_no_walk(cost_func, before, *start, *goal);
                }
                return None;
            },
        };
        let ghost i = choose|i: int|
            {
                &&& #[trigger] first_cheapest(before.open, i)
                &&& current_node == before.open[i]
                &&& search@ == without_candidate(before, i)
            };
        let current_point = current_node.point;
        proof {
            assert(node_ok(before, before.open[i], *goal));
        }
        if current_point == *goal {
            proof {
                lemma_links_same(cost_func, before, *start, i);
            }
            let path = search.path_to::<G>(goal, Ghost(*start), Ghost(cost_func));
            proof {
                lemma_links_passable(cost_func, search@, *start, path@);
                assert forall|price: spec_fn(Point, Point) -> Option<u32>| #[trigger]
                    answers_by(cost_func, price) implies cheapest(price, path@, *start, *goal) by {
                    assert forall|w: Seq<Point>|
                        #![trigger is_walk(w, *start, *goal), priced(price, w)]
                        is_walk(w, *start, *goal) && priced(price, w) && walk_cost(price, w)
                            < u32::MAX implies walk_cost(price, path@) <= walk_cost(price, w) by {
                        lemma_cheapest(cost_func, price, before, *start, *goal, i, w);
                        lemma_links_cost(
                            cost_func,
                            price,
                            search@,
                            *start,
                            path@,
                            path@.len() - 1,
                        );
                        assert(path@.take(path@.len() - 1 + 1) =~= path@);
                    }
                }
            }
            return Some(path);
        }
        proof {
            lemma_after_pop(cost_func, before, *start, *goal, i);
        }
        let ghost waiting = search@.open.len();
        let mut direction: usize = 0;
        while direction < 4
            invariant
                direction <= 4,
                search_inv(
                    cost_func,
                    search@,
                    *start,
                    *goal,
                    Some(current_point),
                    direction as int,
                ),
                forall|a: Point, b: Point| adjacent(a, b) ==> call_requires(cost_func, (&a, &b)),
                search@.open.len() >= waiting,
                search.slack() + (search@.open.len() - waiting) <= slack_before,
            decreases 4 - direction,
        {
            match neighbor(current_point, direction) {
                Some(next) => {
                    match cost_func(&current_point, &next) {
                        Some(tile_cost) => {
                            proof {
                                lemma_relax(
                                    cost_func,
                                    search@,
                                    *start,
                                    *goal,
                                    current_point,
                                    next,
                                    tile_cost,
                                );
                            }
                            search.relax(&current_point, &next, tile_cost, goal);
                        },
                        None => {
                            proof {
                                assert forall|q: Point| #[trigger]
                                    adjacent(current_point, q) && direction_to(current_point, q)
                                        == direction implies blocks(cost_func, current_point, q) by {
                                    lemma_direction_unique(current_point, next, q);
                                }
                                lemma_skip(
                                    cost_func,
                                    search@,
                                    *start,
                                    *goal,
                                    current_point,
                                    direction as int,
                                );
                            }
                        },
                    }
                },
                None => {
                    proof {
                        lemma_skip(
                            cost_func,
                            search@,
                            *start,
                            *goal,
                            current_point,
                            direction as int,
                        );
                    }
                },
            }
            direction += 1;
        }
        proof {
            lemma_finish(cost_func, search@, *start, *goal, current_point);
        }
    }
}

/// Where no walk from `start` to `goal` may pass, a search returns no path.
pub proof fn lemma_unreachable_goal<G: Fn(&Point, &Point) -> Option<u32>>(
    f: G,
    start: Point,
    goal: Point,
    r: Option<Seq<Point>>,
)
    requires
        search_result(f, start, goal, r),
        forall|w: Seq<Point>| #[trigger] is_walk(w, start, goal) ==> !passable(f, w),
    ensures
        r.is_none(),
{
    if let Some(path) = r {
        assert(is_walk(path, start, goal));
    }
}

/// `p` lies in the rectangle of the points `(x, y)` with
/// `left <= x < right` and `top <= y < bottom`.
pub open spec fn in_rectangle(p: Point, left: int, right: int, top: int, bottom: int) -> bool {
    left <= p.x < right && top <= p.y < bottom
}

/// The point `i` steps along the way from `a` to `b` that first runs along
/// the x axis and then along the y axis.
pub open spec fn corner_walk_point(a: Point, b: Point, i: int) -> Point {
    let across = distance(a.x as int, b.x as int);
    if i <= across {
        Point {
            x: (if b.x >= a.x {
                a.x + i
            } else {
                a.x - i
            }) as i32,
            y: a.y,
        }
    } else {
        Point {
            x: b.x,
            y: (if b.y >= a.y {
                a.y + (i - across)
            } else {
                a.y - (i - across)
            }) as i32,
        }
    }
}

/// The walk from `a` to `b` that first runs along the x axis and then along
/// the y axis.
pub open spec fn corner_walk(a: Point, b: Point) -> Seq<Point> {
    Seq::new((point_distance(a, b) + 1) as nat, |i: int| corner_walk_point(a, b, i))
}

/// The point `i` steps along the corner walk lies between `a` and `b` in
/// both coordinates.
proof fn lemma_corner_point(a: Point, b: Point, i: int)
    requires
        0 <= i <= point_distance(a, b),
    ensures
        ({
            let p = corner_walk_point(a, b, i);
            &&& a.x <= p.x <= b.x || b.x <= p.x <= a.x
            &&& a.y <= p.y <= b.y || b.y <= p.y <= a.y
            &&& i <= distance(a.x as int, b.x as int) ==> distance(a.x as int, p.x as int) == i
                && p.y == a.y
            &&& i > distance(a.x as int, b.x as int) ==> p.x == b.x && distance(
                a.y as int,
                p.y as int,
            ) == i - distance(a.x as int, b.x as int)
        }),
{
}

/// One step along the corner walk leads to an adjacent point.
proof fn lemma_corner_step(a: Point, b: Point, i: int)
    requires
        0 <= i < point_distance(a, b),
    ensures
        adjacent(corner_walk_point(a, b, i), corner_walk_point(a, b, i + 1)),
{
    lemma_corner_point(a, b, i);
    lemma_corner_point(a, b, i + 1);
    let across = distance(a.x as int, b.x as int);
    let p = corner_walk_point(a, b, i);
    let q = corner_walk_point(a, b, i + 1);
    if i + 1 <= across {
        assert(p.y == q.y);
        assert(distance(p.x as int, q.x as int) == 1);
    } else if i >= across {
        assert(p.x == q.x);
        assert(distance(p.y as int, q.y as int) == 1);
    }
}

/// The corner walk is a walk from `a` to `b` of as many steps as `a` and `b`
/// are apart, and stays in a rectangle that holds both.
pub proof fn lemma_corner_walk(a: Point, b: Point, left: int, right: int, top: int, bottom: int)
    requires
        in_rectangle(a, left, right, top, bottom),
        in_rectangle(b, left, right, top, bottom),
    ensures
        is_walk(corner_walk(a, b), a, b),
        corner_walk(a, b).len() == point_distance(a, b) + 1,
        forall|i: int|
            0 <= i < corner_walk(a, b).len() ==> in_rectangle(
                #[trigger] corner_walk(a, b)[i],
                left,
                right,
                top,
                bottom,
            ),
{
    let w = corner_walk(a, b);
    assert forall|i: int| 0 <= i < w.len() - 1 implies adjacent(#[trigger] w[i], w[i + 1]) by {
        lemma_corner_step(a, b, i);
    }
    assert forall|i: int| 0 <= i < w.len() implies in_rectangle(
        #[trigger] w[i],
        left,
        right,
        top,
        bottom,
    ) by {
        lemma_corner_point(a, b, i);
    }
    lemma_corner_point(a, b, 0);
    lemma_corner_point(a, b, point_distance(a, b));
    assert(w[0] == a);
    assert(w[w.len() - 1] == b);
}

/// A walk whose every step costs 1 costs as much as it has steps.
pub proof fn lemma_unit_cost(price: spec_fn(Point, Point) -> Option<u32>, w: Seq<Point>)
    requires
        w.len() > 0,
        forall|i: int| 0 <= i < w.len() - 1 ==> price(#[trigger] w[i], w[i + 1]) == Some(1u32),
    ensures
        walk_cost(price, w) == w.len() - 1,
    decreases w.len(),
{
    if w.len() > 1 {
        let rest = w.drop_last();
        assert forall|i: int| 0 <= i < rest.len() - 1 implies price(#[trigger] rest[i], rest[i + 1])
            == Some(1u32) by {
            assert(rest[i] == w[i] && rest[i + 1] == w[i + 1]);
        }
        lemma_unit_cost(price, rest);
        assert(price(w[w.len() - 2], w[w.len() - 2 + 1]) == Some(1u32));
    }
}

/// On an open rectangle, a search returns a path with as many steps as its
/// ends are apart: where every step between two points of the rectangle
/// can be taken and every step that can be taken costs 1, a search between
/// two points of the rectangle that are less than `u32::MAX` apart returns
/// a path, and the path has `point_distance(start, goal)` steps.
pub proof fn lemma_open_rectangle<G: Fn(&Point, &Point) -> Option<u32>>(
    f: G,
    price: spec_fn(Point, Point) -> Option<u32>,
    start: Point,
    goal: Point,
    left: int,
    right: int,
    top: int,
    bottom: int,
    r: Option<Seq<Point>>,
)
    requires
        search_result(f, start, goal, r),
        answers_by(f, price),
        in_rectangle(start, left, right, top, bottom),
        in_rectangle(goal, left, right, top, bottom),
        point_distance(start, goal) < u32::MAX,
        forall|a: Point, b: Point|
            in_rectangle(a, left, right, top, bottom) && in_rectangle(b, left, right, top, bottom)
                && #[trigger] adjacent(a, b) ==> price(a, b) == Some(1u32),
        forall|a: Point, b: Point| (#[trigger] price(a, b)).is_some() ==> price(a, b) == Some(1u32),
    ensures
        r matches Some(path) && path.len() - 1 == point_distance(start, goal),
{
    let w = corner_walk(start, goal);
    lemma_corner_walk(start, goal, left, right, top, bottom);
    assert forall|i: int| 0 <= i < w.len() - 1 implies price(#[trigger] w[i], w[i + 1]) == Some(
        1u32,
    ) by {
        assert(in_rectangle(w[i], left, right, top, bottom));
        assert(in_rectangle(w[i + 1], left, right, top, bottom));
        assert(adjacent(w[i], w[i + 1]));
    }
    lemma_unit_cost(price, w);
    assert forall|i: int| 0 <= i < w.len() - 1 implies costs_at_least_one(
        price,
        #[trigger] w[i],
        w[i + 1],
    ) && !blocks(f, w[i], w[i + 1]) by {
        assert(price(w[i], w[i + 1]) == Some(1u32));
    }
    assert(priced(price, w));
    assert(unblocked(f, w));
    assert(is_walk(w, start, goal));
    match r {
        Some(path) => {
            assert forall|i: int| 0 <= i < path.len() - 1 implies price(
                #[trigger] path[i],
                path[i + 1],
            ) == Some(1u32) by {
                assert(may_pass(f, path[i], path[i + 1]));
                let c = choose|c: u32| #[trigger] passes(f, path[i], path[i + 1], c);
                assert(price(path[i], path[i + 1]) == Some(c));
            }
            lemma_unit_cost(price, path);
            lemma_walk_length(path, 0);
            assert(cheapest(price, path, start, goal));
            assert(walk_cost(price, path) <= walk_cost(price, w));
        },
        None => {
            assert(!unblocked(f, w));
        },
    }
}

} // verus!
