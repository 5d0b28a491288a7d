//! The state of a search and the facts that hold of it between two steps.

use crate::astar::{
    adjacent,
    blocks,
    direction_to,
    answers_by,
    costs_at_least_one,
    is_walk,
    may_pass,
    passable,
    passes,
    point_distance,
    priced,
    saturated,
    step_cost,
    unblocked,
    walk_cost,
    PathNode,
    Point,
};
use crate::astar::{key_of, lemma_point_key_injective, manhattan_distance, point_key};
use crate::frontier::{first_cheapest, OpenSet};
use std::collections::HashMap;
use vstd::prelude::*;

verus! {

/// The estimate of the cost from `p` to `goal`.
pub open spec fn estimate(p: Point, goal: Point) -> u32 {
    saturated(point_distance(p, goal))
}

/// What a search holds: the candidates that wait, the least cost found so
/// far to each point reached, the point from which each was reached at that
/// cost, and when that cost was recorded.
pub struct SearchView {
    pub open: Seq<PathNode>,
    pub g: Map<Point, u32>,
    pub came: Map<Point, Point>,
    pub stamp: Map<Point, nat>,
    pub clock: nat,
}

impl SearchView {
    /// A cost to `p` has been recorded.
    pub open spec fn discovered(self, p: Point) -> bool {
        self.g.dom().contains(p)
    }

    /// The least cost to `p` found so far.
    pub open spec fn g_of(self, p: Point) -> u32 {
        self.g[p]
    }

    /// A point from which `p` was reached has been recorded.
    pub open spec fn has_prev(self, p: Point) -> bool {
        self.came.dom().contains(p)
    }

    /// The point from which `p` was reached at its least cost.
    pub open spec fn prev_of(self, p: Point) -> Point {
        self.came[p]
    }

    /// When the cost to `p` was recorded.
    pub open spec fn stamp_of(self, p: Point) -> nat {
        self.stamp[p]
    }

    /// A candidate for `p` with its least cost waits.
    pub open spec fn pending(self, p: Point) -> bool {
        exists|i: int|
            0 <= i < self.open.len() && (#[trigger] self.open[i]).point == p && self.open[i].g_cost
                == self.g_of(p)
    }
}

/// The step from `a` to `b` needs no further look: it may be blocked, or
/// `b` has been reached at no more than the cost through `a`.
pub open spec fn relaxed_edge<G: Fn(&Point, &Point) -> Option<u32>>(
    f: G,
    s: SearchView,
    a: Point,
    b: Point,
) -> bool {
    ||| blocks(f, a, b)
    ||| exists|c: u32|
        #[trigger] passes(f, a, b, c) && s.discovered(b) && s.g_of(b) <= saturated(s.g_of(a) + c)
}

/// The steps from `p` in the directions below `done` need no further look.
pub open spec fn settled_to<G: Fn(&Point, &Point) -> Option<u32>>(
    f: G,
    s: SearchView,
    p: Point,
    done: int,
) -> bool {
    forall|q: Point| #[trigger] adjacent(p, q) && direction_to(p, q) < done ==> relaxed_edge(f, s, p, q)
}

/// `p` was reached from `q` by a step that may pass, at no less than the
/// cost through `q`, and `q` comes before `p` in the order by cost and time.
pub open spec fn link_ok<G: Fn(&Point, &Point) -> Option<u32>>(
    f: G,
    s: SearchView,
    q: Point,
    p: Point,
) -> bool {
    &&& s.discovered(p)
    &&& s.discovered(q)
    &&& adjacent(q, p)
    &&& exists|c: u32| #[trigger] passes(f, q, p, c) && saturated(s.g_of(q) + c) <= s.g_of(p)
    &&& s.g_of(q) <= s.g_of(p)
    &&& s.g_of(q) < s.g_of(p) || s.stamp_of(q) < s.stamp_of(p)
}

/// The recorded links lead from every point reached back to `start`.
pub open spec fn links_inv<G: Fn(&Point, &Point) -> Option<u32>>(
    f: G,
    s: SearchView,
    start: Point,
) -> bool {
    &&& s.discovered(start)
    &&& s.g_of(start) == 0
    &&& !s.has_prev(start)
    &&& forall|p: Point| #[trigger] s.has_prev(p) ==> link_ok(f, s, s.prev_of(p), p)
    &&& forall|p: Point|
        #[trigger] s.discovered(p) ==> {
            &&& p == start || s.has_prev(p)
            &&& s.stamp.dom().contains(p)
            &&& s.stamp_of(p) < s.clock
        }
}

/// A waiting candidate is for a point reached, at no less than its least
/// cost, with the estimate to `goal`.
pub open spec fn node_ok(s: SearchView, node: PathNode, goal: Point) -> bool {
    &&& s.discovered(node.point)
    &&& node.g_cost >= s.g_of(node.point)
    &&& node.h_cost == estimate(node.point, goal)
}

/// Every point reached either waits with its least cost or has had all its
/// steps looked at; `current`, if any, has had those below `done` looked at.
pub open spec fn frontier_inv<G: Fn(&Point, &Point) -> Option<u32>>(
    f: G,
    s: SearchView,
    goal: Point,
    current: Option<Point>,
    done: int,
) -> bool {
    &&& forall|i: int| 0 <= i < s.open.len() ==> node_ok(s, #[trigger] s.open[i], goal)
    &&& forall|p: Point|
        #[trigger] s.discovered(p) ==> {
            ||| s.pending(p)
            ||| p != goal && settled_to(f, s, p, 4)
            ||| current == Some(p) && settled_to(f, s, p, done)
        }
    &&& current matches Some(c) ==> c != goal && s.discovered(c)
}

/// What holds of a search between two steps.
pub open spec fn search_inv<G: Fn(&Point, &Point) -> Option<u32>>(
    f: G,
    s: SearchView,
    start: Point,
    goal: Point,
    current: Option<Point>,
    done: int,
) -> bool {
    links_inv(f, s, start) && frontier_inv(f, s, goal, current, done)
}

/// The state in which a search from `start` begins.
pub open spec fn initial(start: Point, goal: Point) -> SearchView {
    SearchView {
        open: seq![PathNode { point: start, g_cost: 0, h_cost: estimate(start, goal) }],
        g: map![start => 0u32],
        came: Map::empty(),
        stamp: map![start => 0nat],
        clock: 1,
    }
}

/// The cost at which `nb` is reached through `cur` by a step of cost `c`.
pub open spec fn through(s: SearchView, cur: Point, c: u32) -> u32 {
    saturated(s.g_of(cur) + c)
}

/// The step from `cur` to `nb` at cost `c` reaches `nb` for the first time
/// or at less than its recorded cost.
pub open spec fn improves(s: SearchView, cur: Point, nb: Point, c: u32) -> bool {
    !s.discovered(nb) || through(s, cur, c) < s.g_of(nb)
}

/// The state after the step from `cur` to `nb` at cost `c` has been looked
/// at: where it improves on what is recorded for `nb`, the new cost and link
/// are recorded and a candidate for `nb` waits.
pub open spec fn relaxed(s: SearchView, cur: Point, nb: Point, c: u32, goal: Point) -> SearchView {
    if improves(s, cur, nb, c) {
        SearchView {
            open: s.open.push(
                PathNode { point: nb, g_cost: through(s, cur, c), h_cost: estimate(nb, goal) },
            ),
            g: s.g.insert(nb, through(s, cur, c)),
            came: s.came.insert(nb, cur),
            stamp: s.stamp.insert(nb, s.clock),
            clock: s.clock + 1,
        }
    } else {
        s
    }
}

/// A search begins in a state of which the invariant holds.
pub proof fn lemma_initial<G: Fn(&Point, &Point) -> Option<u32>>(f: G, start: Point, goal: Point)
    ensures
        search_inv(f, initial(start, goal), start, goal, None, 0),
{
    let s = initial(start, goal);
    assert forall|p: Point| #[trigger] s.discovered(p) implies s.pending(p) by {
        assert(s.open[0].point == p);
    }
}

/// The state without the waiting candidate at position `i`.
pub open spec fn without_candidate(s: SearchView, i: int) -> SearchView {
    SearchView { open: s.open.remove(i), ..s }
}

/// Whether a step needs a further look depends on the recorded costs alone.
proof fn lemma_same_costs<G: Fn(&Point, &Point) -> Option<u32>>(
    f: G,
    s: SearchView,
    s2: SearchView,
    p: Point,
    done: int,
)
    requires
        s2.g == s.g,
        settled_to(f, s, p, done),
    ensures
        settled_to(f, s2, p, done),
{
    assert forall|q: Point| #[trigger] adjacent(p, q) && direction_to(p, q) < done implies relaxed_edge(
        f,
        s2,
        p,
        q,
    ) by {
        assert(relaxed_edge(f, s, p, q));
        if !blocks(f, p, q) {
            let c = choose|c: u32|
                #[trigger] passes(f, p, q, c) && s.discovered(q) && s.g_of(q) <= saturated(
                    s.g_of(p) + c,
                );
            assert(passes(f, p, q, c) && s2.discovered(q) && s2.g_of(q) <= saturated(s2.g_of(p) + c));
        }
    }
}

/// Taking out a candidate for a point other than the goal leaves a state in
/// which that point is the one looked at, with no step done yet.
pub proof fn lemma_after_pop<G: Fn(&Point, &Point) -> Option<u32>>(
    f: G,
    s: SearchView,
    start: Point,
    goal: Point,
    i: int,
)
    requires
        search_inv(f, s, start, goal, None, 0),
        0 <= i < s.open.len(),
        s.open[i].point != goal,
    ensures
        search_inv(f, without_candidate(s, i), start, goal, Some(s.open[i].point), 0),
{
    let s2 = without_candidate(s, i);
    let cur = s.open[i].point;
    assert(node_ok(s, s.open[i], goal));
    assert forall|p: Point| #[trigger] s2.has_prev(p) implies link_ok(f, s2, s2.prev_of(p), p) by {
        assert(s.has_prev(p));
        assert(link_ok(f, s, s.prev_of(p), p));
    }
    assert forall|p: Point| #[trigger] s2.discovered(p) implies {
        &&& p == start || s2.has_prev(p)
        &&& s2.stamp.dom().contains(p)
        &&& s2.stamp_of(p) < s2.clock
    } by {
        assert(s.discovered(p));
    }
    assert forall|j: int| 0 <= j < s2.open.len() implies node_ok(s2, #[trigger] s2.open[j], goal) by {
        if j < i {
            assert(node_ok(s, s.open[j], goal));
        } else {
            assert(node_ok(s, s.open[j + 1], goal));
        }
    }
    assert forall|p: Point| #[trigger] s2.discovered(p) implies {
        ||| s2.pending(p)
        ||| p != goal && settled_to(f, s2, p, 4)
        ||| Some(cur) == Some(p) && settled_to(f, s2, p, 0)
    } by {
        assert(s.discovered(p));
        if p == cur {
        } else if s.pending(p) {
            let k = choose|k: int|
                0 <= k < s.open.len() && (#[trigger] s.open[k]).point == p && s.open[k].g_cost
                    == s.g_of(p);
            if k < i {
                assert(s2.open[k] == s.open[k]);
            } else {
                assert(s2.open[k - 1] == s.open[k]);
            }
        } else {
            lemma_same_costs(f, s, s2, p, 4);
        }
    }
}

/// Which candidates wait does not matter to the links.
pub proof fn lemma_links_same<G: Fn(&Point, &Point) -> Option<u32>>(
    f: G,
    s: SearchView,
    start: Point,
    i: int,
)
    requires
        links_inv(f, s, start),
    ensures
        links_inv(f, without_candidate(s, i), start),
{
    let s2 = without_candidate(s, i);
    assert forall|p: Point| #[trigger] s2.has_prev(p) implies link_ok(f, s2, s2.prev_of(p), p) by {
        assert(s.has_prev(p));
        assert(link_ok(f, s, s.prev_of(p), p));
    }
    assert forall|p: Point| #[trigger] s2.discovered(p) implies {
        &&& p == start || s2.has_prev(p)
        &&& s2.stamp.dom().contains(p)
        &&& s2.stamp_of(p) < s2.clock
    } by {
        assert(s.discovered(p));
    }
}

/// A point whose four directions are done needs no further look.
pub proof fn lemma_finish<G: Fn(&Point, &Point) -> Option<u32>>(
    f: G,
    s: SearchView,
    start: Point,
    goal: Point,
    cur: Point,
)
    requires
        search_inv(f, s, start, goal, Some(cur), 4),
    ensures
        search_inv(f, s, start, goal, None, 0),
{
    assert forall|p: Point| #[trigger] s.discovered(p) implies {
        ||| s.pending(p)
        ||| p != goal && settled_to(f, s, p, 4)
        ||| None::<Point> == Some(p) && settled_to(f, s, p, 0)
    } by {
        if !s.pending(p) && !(p != goal && settled_to(f, s, p, 4)) {
            assert(p == cur);
        }
    }
}

/// Steps that need no further look stay so while costs only fall and the
/// cost to the point they leave from stays.
proof fn lemma_settled_stable<G: Fn(&Point, &Point) -> Option<u32>>(
    f: G,
    s: SearchView,
    s2: SearchView,
    p: Point,
    done: int,
)
    requires
        settled_to(f, s, p, done),
        s2.g_of(p) == s.g_of(p),
        forall|q: Point| #[trigger] s.discovered(q) ==> s2.discovered(q) && s2.g_of(q) <= s.g_of(q),
    ensures
        settled_to(f, s2, p, done),
{
    assert forall|q: Point| #[trigger] adjacent(p, q) && direction_to(p, q) < done implies relaxed_edge(
        f,
        s2,
        p,
        q,
    ) by {
        assert(relaxed_edge(f, s, p, q));
        if !blocks(f, p, q) {
            let c = choose|c: u32|
                #[trigger] passes(f, p, q, c) && s.discovered(q) && s.g_of(q) <= saturated(
                    s.g_of(p) + c,
                );
            assert(s.discovered(q));
            assert(passes(f, p, q, c) && s2.discovered(q) && s2.g_of(q) <= saturated(s2.g_of(p) + c));
        }
    }
}

/// A direction whose step needs no further look is done.
pub proof fn lemma_step_done<G: Fn(&Point, &Point) -> Option<u32>>(
    f: G,
    s: SearchView,
    start: Point,
    goal: Point,
    cur: Point,
    d: int,
)
    requires
        search_inv(f, s, start, goal, Some(cur), d),
        forall|q: Point|
            #[trigger] adjacent(cur, q) && direction_to(cur, q) == d ==> relaxed_edge(f, s, cur, q),
    ensures
        search_inv(f, s, start, goal, Some(cur), d + 1),
{
    assert forall|p: Point| #[trigger] s.discovered(p) implies {
        ||| s.pending(p)
        ||| p != goal && settled_to(f, s, p, 4)
        ||| Some(cur) == Some(p) && settled_to(f, s, p, d + 1)
    } by {
        if !s.pending(p) && !(p != goal && settled_to(f, s, p, 4)) {
            assert(p == cur && settled_to(f, s, p, d));
            assert forall|q: Point| #[trigger]
                adjacent(p, q) && direction_to(p, q) < d + 1 implies relaxed_edge(f, s, p, q) by {
                if direction_to(p, q) == d {
                    assert(relaxed_edge(f, s, cur, q));
                }
            }
        }
    }
}

/// A direction in which no step can pass is done.
pub proof fn lemma_skip<G: Fn(&Point, &Point) -> Option<u32>>(
    f: G,
    s: SearchView,
    start: Point,
    goal: Point,
    cur: Point,
    d: int,
)
    requires
        search_inv(f, s, start, goal, Some(cur), d),
        forall|q: Point| #[trigger] adjacent(cur, q) && direction_to(cur, q) == d ==> blocks(f, cur, q),
    ensures
        search_inv(f, s, start, goal, Some(cur), d + 1),
{
    lemma_step_done(f, s, start, goal, cur, d);
}

/// A point has one neighbour in each direction.
pub proof fn lemma_direction_unique(cur: Point, nb: Point, q: Point)
    requires
        adjacent(cur, nb),
        adjacent(cur, q),
        direction_to(cur, q) == direction_to(cur, nb),
    ensures
        q == nb,
{
}

/// Recording a better cost for `nb` keeps the links in order.
proof fn lemma_relax_links<G: Fn(&Point, &Point) -> Option<u32>>(
    f: G,
    s: SearchView,
    start: Point,
    goal: Point,
    cur: Point,
    nb: Point,
    c: u32,
)
    requires
        links_inv(f, s, start),
        s.discovered(cur),
        nb != cur,
        adjacent(cur, nb),
        passes(f, cur, nb, c),
        improves(s, cur, nb, c),
    ensures
        links_inv(f, relaxed(s, cur, nb, c, goal), start),
{
    let s2 = relaxed(s, cur, nb, c, goal);
    assert(nb != start);
    assert forall|p: Point| #[trigger] s2.has_prev(p) implies link_ok(f, s2, s2.prev_of(p), p) by {
        if p == nb {
            assert(passes(f, cur, nb, c) && saturated(s2.g_of(cur) + c) <= s2.g_of(nb));
            assert(s.stamp_of(cur) < s.clock);
        } else {
            assert(s.has_prev(p));
            let q = s.prev_of(p);
            assert(link_ok(f, s, q, p));
            let c2 = choose|c2: u32| #[trigger]
                passes(f, q, p, c2) && saturated(s.g_of(q) + c2) <= s.g_of(p);
            assert(passes(f, q, p, c2) && saturated(s2.g_of(q) + c2) <= s2.g_of(p));
        }
    }
    assert forall|p: Point| #[trigger] s2.discovered(p) implies {
        &&& p == start || s2.has_prev(p)
        &&& s2.stamp.dom().contains(p)
        &&& s2.stamp_of(p) < s2.clock
    } by {
        if p != nb {
            assert(s.discovered(p));
        }
    }
}

/// Recording a better cost for `nb` keeps the waiting candidates in order.
proof fn lemma_relax_nodes(s: SearchView, goal: Point, cur: Point, nb: Point, c: u32)
    requires
        forall|i: int| 0 <= i < s.open.len() ==> node_ok(s, #[trigger] s.open[i], goal),
        improves(s, cur, nb, c),
    ensures
        forall|i: int|
            0 <= i < relaxed(s, cur, nb, c, goal).open.len() ==> node_ok(
                relaxed(s, cur, nb, c, goal),
                #[trigger] relaxed(s, cur, nb, c, goal).open[i],
                goal,
            ),
{
    let s2 = relaxed(s, cur, nb, c, goal);
    assert forall|j: int| 0 <= j < s2.open.len() implies node_ok(s2, #[trigger] s2.open[j], goal) by {
        if j < s.open.len() {
            assert(node_ok(s, s.open[j], goal));
            assert(s2.open[j] == s.open[j]);
        }
    }
}

/// Recording a better cost for `nb` leaves every point reached waiting or
/// looked at, and the direction of `nb` done.
proof fn lemma_relax_points<G: Fn(&Point, &Point) -> Option<u32>>(
    f: G,
    s: SearchView,
    goal: Point,
    cur: Point,
    nb: Point,
    c: u32,
    p: Point,
)
    requires
        s.discovered(cur),
        nb != cur,
        adjacent(cur, nb),
        passes(f, cur, nb, c),
        improves(s, cur, nb, c),
        relaxed(s, cur, nb, c, goal).discovered(p),
        p != nb ==> {
            ||| s.pending(p)
            ||| p != goal && settled_to(f, s, p, 4)
            ||| cur == p && settled_to(f, s, p, direction_to(cur, nb))
        },
    ensures
        ({
            let s2 = relaxed(s, cur, nb, c, goal);
            ||| s2.pending(p)
            ||| p != goal && settled_to(f, s2, p, 4)
            ||| cur == p && settled_to(f, s2, p, direction_to(cur, nb) + 1)
        }),
{
    let d = direction_to(cur, nb);
    let s2 = relaxed(s, cur, nb, c, goal);
    assert forall|q: Point| #[trigger] s.discovered(q) implies s2.discovered(q) && s2.g_of(q)
        <= s.g_of(q) by {}
    if p == nb {
        assert(s2.open[s.open.len() as int].point == nb);
    } else {
        if s.pending(p) {
            let k = choose|k: int|
                0 <= k < s.open.len() && (#[trigger] s.open[k]).point == p && s.open[k].g_cost
                    == s.g_of(p);
            assert(s2.open[k] == s.open[k]);
        } else if p != goal && settled_to(f, s, p, 4) {
            lemma_settled_stable(f, s, s2, p, 4);
        } else {
            lemma_settled_stable(f, s, s2, p, d);
            assert(passes(f, cur, nb, c) && s2.discovered(nb) && s2.g_of(nb) <= saturated(
                s2.g_of(cur) + c,
            ));
            assert(relaxed_edge(f, s2, cur, nb));
            assert forall|q: Point| #[trigger]
                adjacent(p, q) && direction_to(p, q) < d + 1 implies relaxed_edge(f, s2, p, q) by {
                if direction_to(p, q) == d {
                    lemma_direction_unique(cur, nb, q);
                }
            }
        }
    }
}

/// Looking at the step from the current point to `nb`, which may pass at
/// cost `c`, leaves a state in which the direction of `nb` is done.
pub proof fn lemma_relax<G: Fn(&Point, &Point) -> Option<u32>>(
    f: G,
    s: SearchView,
    start: Point,
    goal: Point,
    cur: Point,
    nb: Point,
    c: u32,
)
    requires
        search_inv(f, s, start, goal, Some(cur), direction_to(cur, nb)),
        adjacent(cur, nb),
        passes(f, cur, nb, c),
    ensures
        search_inv(
            f,
            relaxed(s, cur, nb, c, goal),
            start,
            goal,
            Some(cur),
            direction_to(cur, nb) + 1,
        ),
{
    let d = direction_to(cur, nb);
    let s2 = relaxed(s, cur, nb, c, goal);
    if !improves(s, cur, nb, c) {
        assert(relaxed_edge(f, s, cur, nb));
        assert forall|q: Point| #[trigger]
            adjacent(cur, q) && direction_to(cur, q) == d implies relaxed_edge(f, s, cur, q) by {
            lemma_direction_unique(cur, nb, q);
        }
        lemma_step_done(f, s, start, goal, cur, d);
    } else {
        assert(nb != cur);
        lemma_relax_links(f, s, start, goal, cur, nb, c);
        lemma_relax_nodes(s, goal, cur, nb, c);
        assert forall|p: Point| #[trigger] s2.discovered(p) implies {
            ||| s2.pending(p)
            ||| p != goal && settled_to(f, s2, p, 4)
            ||| Some(cur) == Some(p) && settled_to(f, s2, p, d + 1)
        } by {
            if p != nb {
                assert(s.discovered(p));
            }
            lemma_relax_points(f, s, goal, cur, nb, c, p);
        }
    }
}

/// Once no candidate waits, every point of a walk from `start` that cannot
/// be blocked has been reached.
proof fn lemma_walk_discovered<G: Fn(&Point, &Point) -> Option<u32>>(
    f: G,
    s: SearchView,
    start: Point,
    goal: Point,
    w: Seq<Point>,
    i: int,
)
    requires
        search_inv(f, s, start, goal, None, 0),
        s.open.len() == 0,
        is_walk(w, start, w[w.len() - 1]),
        unblocked(f, w),
        0 <= i < w.len(),
    ensures
        s.discovered(w[i]),
    decreases i,
{
    if i > 0 {
        lemma_walk_discovered(f, s, start, goal, w, i - 1);
        let a = w[i - 1];
        assert(s.discovered(a));
        assert(!s.pending(a));
        assert(settled_to(f, s, a, 4));
        assert(adjacent(a, w[i - 1 + 1]));
        assert(relaxed_edge(f, s, a, w[i]));
        assert(!blocks(f, a, w[i - 1 + 1]));
    }
}

/// Once no candidate waits, every walk from `start` to `goal` has a step
/// that may be blocked.
pub proof fn lemma_no_walk<G: Fn(&Point, &Point) -> Option<u32>>(
    f: G,
    s: SearchView,
    start: Point,
    goal: Point,
)
    requires
        search_inv(f, s, start, goal, None, 0),
        s.open.len() == 0,
    ensures
        forall|w: Seq<Point>| #[trigger] is_walk(w, start, goal) ==> !unblocked(f, w),
{
    assert forall|w: Seq<Point>| #[trigger] is_walk(w, start, goal) implies !unblocked(f, w) by {
        if unblocked(f, w) {
            lemma_walk_discovered(f, s, start, goal, w, w.len() - 1);
            assert(s.discovered(goal));
            assert(!s.pending(goal));
        }
    }
}

/// A walk takes at least as many steps as its ends are apart.
pub proof fn lemma_walk_length(w: Seq<Point>, i: int)
    requires
        w.len() > 0,
        forall|j: int| 0 <= j < w.len() - 1 ==> adjacent(#[trigger] w[j], w[j + 1]),
        0 <= i < w.len(),
    ensures
        point_distance(w[i], w[w.len() - 1]) <= w.len() - 1 - i,
    decreases w.len() - i,
{
    if i < w.len() - 1 {
        lemma_walk_length(w, i + 1);
        assert(adjacent(w[i], w[i + 1]));
    }
}

/// The cost of the first `i` steps of a walk and the cost of one more step.
pub proof fn lemma_cost_step(price: spec_fn(Point, Point) -> Option<u32>, w: Seq<Point>, i: int)
    requires
        0 <= i < w.len() - 1,
    ensures
        walk_cost(price, w.take(i + 2)) == walk_cost(price, w.take(i + 1)) + step_cost(
            price,
            w[i],
            w[i + 1],
        ),
{
    let t = w.take(i + 2);
    assert(t.drop_last() =~= w.take(i + 1));
    assert(t[t.len() - 2] == w[i]);
    assert(t[t.len() - 1] == w[i + 1]);
}

/// The steps of a priced walk after the first `i` cost at least 1 each.
pub proof fn lemma_cost_rest(
    price: spec_fn(Point, Point) -> Option<u32>,
    w: Seq<Point>,
    i: int,
    j: int,
)
    requires
        priced(price, w),
        0 <= i <= j < w.len(),
    ensures
        walk_cost(price, w.take(j + 1)) >= walk_cost(price, w.take(i + 1)) + (j - i),
    decreases j - i,
{
    if i < j {
        lemma_cost_rest(price, w, i, j - 1);
        lemma_cost_step(price, w, j - 1);
        assert(costs_at_least_one(price, w[j - 1], w[j - 1 + 1]));
    }
}

/// On a priced walk from `start`, from any point reached at no more than
/// the cost of the walk so far, some point at or after it waits with such
/// a cost.
proof fn lemma_waiting_on_walk<G: Fn(&Point, &Point) -> Option<u32>>(
    f: G,
    price: spec_fn(Point, Point) -> Option<u32>,
    s: SearchView,
    start: Point,
    goal: Point,
    w: Seq<Point>,
    j: int,
) -> (k: int)
    requires
        search_inv(f, s, start, goal, None, 0),
        answers_by(f, price),
        is_walk(w, start, goal),
        priced(price, w),
        0 <= j < w.len(),
        s.discovered(w[j]),
        s.g_of(w[j]) <= walk_cost(price, w.take(j + 1)),
    ensures
        j <= k < w.len(),
        s.pending(w[k]),
        s.g_of(w[k]) <= walk_cost(price, w.take(k + 1)),
    decreases w.len() - j,
{
    if s.pending(w[j]) {
        j
    } else {
        let a = w[j];
        assert(a != goal && settled_to(f, s, a, 4));
        assert(j < w.len() - 1);
        let b = w[j + 1];
        assert(adjacent(a, b));
        assert(relaxed_edge(f, s, a, b));
        assert(costs_at_least_one(price, a, b));
        assert(!blocks(f, a, b));
        let c2 = choose|c: u32|
            #[trigger] passes(f, a, b, c) && s.discovered(b) && s.g_of(b) <= saturated(
                s.g_of(a) + c,
            );
        assert(price(a, b) == Some(c2));
        lemma_cost_step(price, w, j);
        lemma_waiting_on_walk(f, price, s, start, goal, w, j + 1)
    }
}

/// When a candidate for `goal` is the cheapest that waits, `goal` has been
/// reached at no more than the cost of any priced walk from `start`.
pub proof fn lemma_cheapest<G: Fn(&Point, &Point) -> Option<u32>>(
    f: G,
    price: spec_fn(Point, Point) -> Option<u32>,
    s: SearchView,
    start: Point,
    goal: Point,
    i: int,
    w: Seq<Point>,
)
    requires
        search_inv(f, s, start, goal, None, 0),
        first_cheapest(s.open, i),
        s.open[i].point == goal,
        answers_by(f, price),
        is_walk(w, start, goal),
        priced(price, w),
        walk_cost(price, w) < u32::MAX,
    ensures
        s.g_of(goal) <= walk_cost(price, w),
{
    assert(w.take(1).len() == 1);
    assert(walk_cost(price, w.take(1)) == 0);
    let k = lemma_waiting_on_walk(f, price, s, start, goal, w, 0);
    let m = choose|m: int|
        0 <= m < s.open.len() && (#[trigger] s.open[m]).point == w[k] && s.open[m].g_cost == s.g_of(
            w[k],
        );
    let waiting = s.open[m];
    let popped = s.open[i];
    assert(node_ok(s, waiting, goal));
    assert(node_ok(s, popped, goal));
    lemma_walk_length(w, k);
    lemma_cost_rest(price, w, k, w.len() - 1);
    assert(w.take(w.len() - 1 + 1) =~= w);
    assert(popped.spec_f_cost() <= waiting.spec_f_cost());
}

/// Each point of `path` after the first was reached from the one before it.
pub open spec fn follows_links(s: SearchView, path: Seq<Point>) -> bool {
    forall|j: int|
        0 <= j < path.len() - 1 ==> s.has_prev(#[trigger] path[j + 1]) && s.prev_of(path[j + 1])
            == path[j]
}

/// A path along the links from `start` is a walk that may pass.
pub proof fn lemma_links_passable<G: Fn(&Point, &Point) -> Option<u32>>(
    f: G,
    s: SearchView,
    start: Point,
    path: Seq<Point>,
)
    requires
        links_inv(f, s, start),
        path.len() > 0,
        path[0] == start,
        follows_links(s, path),
    ensures
        is_walk(path, start, path[path.len() - 1]),
        passable(f, path),
{
    assert forall|j: int| 0 <= j < path.len() - 1 implies adjacent(#[trigger] path[j], path[j + 1])
        && may_pass(f, path[j], path[j + 1]) by {
        assert(s.has_prev(path[j + 1]));
        assert(link_ok(f, s, s.prev_of(path[j + 1]), path[j + 1]));
    }
}

/// A path along the links from `start` costs no more than what is recorded
/// for its end, where that is less than `u32::MAX`.
pub proof fn lemma_links_cost<G: Fn(&Point, &Point) -> Option<u32>>(
    f: G,
    price: spec_fn(Point, Point) -> Option<u32>,
    s: SearchView,
    start: Point,
    path: Seq<Point>,
    j: int,
)
    requires
        links_inv(f, s, start),
        answers_by(f, price),
        path.len() > 0,
        path[0] == start,
        follows_links(s, path),
        0 <= j < path.len(),
        s.discovered(path[j]),
        s.g_of(path[j]) < u32::MAX,
    ensures
        walk_cost(price, path.take(j + 1)) <= s.g_of(path[j]),
    decreases j,
{
    if j == 0 {
        assert(path.take(1).len() == 1);
    } else {
        let p = path[j];
        let q = path[j - 1];
        assert(s.has_prev(path[j - 1 + 1]));
        assert(link_ok(f, s, q, p));
        lemma_links_cost(f, price, s, start, path, j - 1);
        lemma_cost_step(price, path, j - 1);
        let c = choose|c: u32| #[trigger] passes(f, q, p, c) && saturated(s.g_of(q) + c) <= s.g_of(p);
        assert(price(q, p) == Some(c));
    }
}

/// What a recorded cost leaves below the ceiling of `u32::MAX + 1`; nothing
/// where no cost is recorded.
pub open spec fn room(g: Map<u64, u32>, k: u64) -> nat {
    if g.dom().contains(k) {
        (0x1_0000_0000 - g[k]) as nat
    } else {
        0
    }
}

/// The sum of `room` over the keys below `n`.
pub open spec fn room_below(g: Map<u64, u32>, n: nat) -> nat
    decreases n,
{
    if n == 0 {
        0
    } else {
        room_below(g, (n - 1) as nat) + room(g, (n - 1) as u64)
    }
}

/// The number of keys.
pub open spec fn key_count() -> nat {
    0x1_0000_0000_0000_0000
}

/// How much the recorded costs may still fall, plus how many are still to
/// be recorded: each key weighs `u32::MAX + 1` until it has a cost.
pub open spec fn slack(g: Map<u64, u32>) -> nat {
    (key_count() * 0x1_0000_0000 - room_below(g, key_count())) as nat
}

/// The room below `n` is at most `u32::MAX + 1` for each key.
pub proof fn lemma_room_bound(g: Map<u64, u32>, n: nat)
    ensures
        room_below(g, n) <= n * 0x1_0000_0000,
    decreases n,
{
    if n > 0 {
        lemma_room_bound(g, (n - 1) as nat);
    }
}

/// Recording a first or a lower cost for `k` adds to the room.
pub proof fn lemma_room_insert(g: Map<u64, u32>, k: u64, v: u32, n: nat)
    requires
        n <= key_count(),
        !g.dom().contains(k) || v < g[k],
    ensures
        room_below(g.insert(k, v), n) >= room_below(g, n),
        k < n ==> room_below(g.insert(k, v), n) > room_below(g, n),
    decreases n,
{
    if n > 0 {
        lemma_room_insert(g, k, v, (n - 1) as nat);
    }
}

/// Recording a first or a lower cost takes from the slack.
pub proof fn lemma_slack_insert(g: Map<u64, u32>, k: u64, v: u32)
    requires
        !g.dom().contains(k) || v < g[k],
    ensures
        slack(g.insert(k, v)) < slack(g),
{
    lemma_room_insert(g, k, v, key_count());
    lemma_room_bound(g.insert(k, v), key_count());
    lemma_room_bound(g, key_count());
}

/// A map over keys, read as a map over the points that the keys stand for.
pub open spec fn by_point<V>(m: Map<u64, V>) -> Map<Point, V> {
    Map::new(|p: Point| m.dom().contains(point_key(p)), |p: Point| m[point_key(p)])
}

/// An entry under the key of `p` is an entry for `p`.
pub proof fn lemma_by_point_insert<V>(m: Map<u64, V>, p: Point, v: V)
    ensures
        by_point(m.insert(point_key(p), v)) == by_point(m).insert(p, v),
{
    assert forall|q: Point| q != p implies point_key(q) != point_key(p) by {
        lemma_point_key_injective(q, p);
    }
    assert(by_point(m.insert(point_key(p), v)) =~= by_point(m).insert(p, v));
}

/// A search in progress.
pub(crate) struct Search {
    open: OpenSet,
    g_scores: HashMap<u64, u32>,
    came_from: HashMap<u64, Point>,
    stamp: Ghost<Map<Point, nat>>,
    clock: Ghost<nat>,
}

impl View for Search {
    type V = SearchView;

    closed spec fn view(&self) -> SearchView {
        SearchView {
            open: self.open@,
            g: by_point(self.g_scores@),
            came: by_point(self.came_from@),
            stamp: self.stamp@,
            clock: self.clock@,
        }
    }
}

impl Search {
    /// A bound on the steps the search can still take that record a cost.
    pub(crate) closed spec fn slack(&self) -> nat {
        slack(self.g_scores@)
    }

    /// The search from `start` to `goal` before its first step.
    pub(crate) fn new(start: &Point, goal: &Point) -> (search: Self)
        ensures
            search@ == initial(*start, *goal),
    {
        broadcast use vstd::std_specs::hash::group_hash_axioms;

        let mut open = OpenSet::new();
        let mut g_scores: HashMap<u64, u32> = HashMap::new();
        let came_from: HashMap<u64, Point> = HashMap::new();
        g_scores.insert(key_of(start), 0);
        open.push(PathNode::new(start, 0, manhattan_distance(start.x, start.y, goal.x, goal.y)));
        let stamp: Ghost<Map<Point, nat>> = Ghost(Map::<Point, nat>::empty().insert(*start, 0nat));
        let clock: Ghost<nat> = Ghost(1);
        let search = Search { open, g_scores, came_from, stamp, clock };
        proof {
            lemma_by_point_insert(Map::<u64, u32>::empty(), *start, 0u32);
            assert(by_point(Map::<u64, u32>::empty()) =~= Map::<Point, u32>::empty());
            assert(by_point(Map::<u64, Point>::empty()) =~= Map::<Point, Point>::empty());
            assert(search@.open =~= initial(*start, *goal).open);
            assert(search@.g =~= initial(*start, *goal).g);
            assert(search@.stamp =~= initial(*start, *goal).stamp);
        }
        search
    }

    /// Takes out the first waiting candidate of least total cost; `None`
    /// when no candidate waits.
    pub(crate) fn pop(&mut self) -> (r: Option<PathNode>)
        ensures
            final(self).slack() == old(self).slack(),
            match r {
                Some(node) => exists|i: int|
                    {
                        &&& #[trigger] first_cheapest(old(self)@.open, i)
                        &&& node == old(self)@.open[i]
                        &&& final(self)@ == without_candidate(old(self)@, i)
                    },
                None => old(self)@.open.len() == 0 && final(self)@ == old(self)@,
            },
    {
        let ghost before = self@;
        let r = self.open.pop();
        proof {
            if let Some(node) = r {
                let i = choose|i: int|
                    {
                        &&& #[trigger] first_cheapest(before.open, i)
                        &&& node == before.open[i]
                        &&& self.open@ == before.open.remove(i)
                    };
                assert(self@ == without_candidate(before, i));
            }
        }
        r
    }

    /// Looks at the step from `current` to `neighbor`, which costs
    /// `tile_cost`: where it reaches `neighbor` for the first time or at
    /// less than its recorded cost, records the cost and the link and lets a
    /// candidate for `neighbor` wait.
    pub(crate) fn relax(&mut self, current: &Point, neighbor: &Point, tile_cost: u32, goal: &Point)
        requires
            old(self)@.discovered(*current),
        ensures
            final(self)@ == relaxed(old(self)@, *current, *neighbor, tile_cost, *goal),
            final(self)@.open.len() >= old(self)@.open.len(),
            final(self).slack() + (final(self)@.open.len() - old(self)@.open.len()) <= old(
                self,
            ).slack(),
    {
        broadcast use vstd::std_specs::hash::group_hash_axioms;

        let ghost before = self@;
        let current_key = key_of(current);
        let neighbor_key = key_of(neighbor);
        let reached = match self.g_scores.get(&current_key) {
            Some(g) => *g,
            None => 0,
        };
        let g_score = reached.saturating_add(tile_cost);
        let better = match self.g_scores.get(&neighbor_key) {
            Some(known) => g_score < *known,
            None => true,
        };
        assert(g_score == through(before, *current, tile_cost));
        assert(better == improves(before, *current, *neighbor, tile_cost));
        if better {
            proof {
                lemma_slack_insert(self.g_scores@, neighbor_key, g_score);
                lemma_by_point_insert(self.g_scores@, *neighbor, g_score);
                lemma_by_point_insert(self.came_from@, *neighbor, *current);
            }
            self.g_scores.insert(neighbor_key, g_score);
            let h_cost = manhattan_distance(neighbor.x, neighbor.y, goal.x, goal.y);
            self.open.push(PathNode::new(neighbor, g_score, h_cost));
            self.came_from.insert(neighbor_key, *current);
            proof {
                self.stamp@ = self.stamp@.insert(*neighbor, self.clock@);
                self.clock@ = self.clock@ + 1;
            }
        }
    }

    /// The points from `start` to `goal` along the recorded links.
    pub(crate) fn path_to<G: Fn(&Point, &Point) -> Option<u32>>(
        &self,
        goal: &Point,
        Ghost(start): Ghost<Point>,
        Ghost(f): Ghost<G>,
    ) -> (path: Vec<Point>)
        requires
            links_inv(f, self@, start),
            self@.discovered(*goal),
        ensures
            path@.len() > 0,
            path@[0] == start,
            path@[path@.len() - 1] == *goal,
            follows_links(self@, path@),
    {
        broadcast use vstd::std_specs::hash::group_hash_axioms;

        let mut current = *goal;
        let mut trail: Vec<Point> = Vec::new();
        trail.push(current);
        loop
            invariant_except_break
                links_inv(f, self@, start),
                trail@.len() > 0,
                trail@[0] == *goal,
                trail@[trail@.len() - 1] == current,
                self@.discovered(current),
                forall|j: int|
                    0 <= j < trail@.len() - 1 ==> self@.has_prev(#[trigger] trail@[j])
                        && self@.prev_of(trail@[j]) == trail@[j + 1],
            ensures
                trail@.len() > 0,
                trail@[0] == *goal,
                trail@[trail@.len() - 1] == start,
                forall|j: int|
                    0 <= j < trail@.len() - 1 ==> self@.has_prev(#[trigger] trail@[j])
                        && self@.prev_of(trail@[j]) == trail@[j + 1],
            decreases self@.g_of(current), self@.stamp_of(current),
        {
            match self.came_from.get(&key_of(&current)) {
                Some(previous) => {
                    proof {
                        assert(self@.has_prev(current));
                        assert(link_ok(f, self@, self@.prev_of(current), current));
                    }
                    trail.push(*previous);
                    current = *previous;
                },
                None => {
                    assert(!self@.has_prev(current));
                    break ;
                },
            }
        }
        let count = trail.len();
        let mut path: Vec<Point> = Vec::new();
        let mut taken: usize = 0;
        while taken < count
            invariant
                count == trail@.len(),
                taken <= count,
                path@.len() == taken,
                forall|j: int| 0 <= j < taken ==> path@[j] == trail@[count - 1 - j],
            decreases count - taken,
        {
            path.push(trail[count - 1 - taken]);
            taken += 1;
        }
        proof {
            assert forall|j: int| 0 <= j < path@.len() - 1 implies self@.has_prev(
                #[trigger] path@[j + 1],
            ) && self@.prev_of(path@[j + 1]) == path@[j] by {
                assert(path@[j + 1] == trail@[count - 2 - j]);
                assert(trail@[count - 2 - j + 1] == path@[j]);
            }
        }
        path
    }
}

} // verus!
