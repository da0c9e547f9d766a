//! Deterministic 4-neighbor A* search on an implicit grid.

use vstd::prelude::*;

verus! {

/// A 2D grid position.
#[derive(Debug, Clone, Copy, PartialEq, Eq, PartialOrd, Ord, Hash, Structural)]
pub struct GridPos {
    pub x: i32,
    pub z: i32,
}

impl GridPos {
    pub fn new(x: i32, z: i32) -> (res: Self)
        ensures
            res.x == x,
            res.z == z,
    {
        GridPos { x, z }
    }
}

/// Two positions one step apart along x or z.
pub open spec fn adjacent(a: GridPos, b: GridPos) -> bool {
    (a.x == b.x && (a.z - b.z == 1 || b.z - a.z == 1)) || (a.z == b.z && (a.x - b.x == 1 || b.x
        - a.x == 1))
}

/// A walk from `start` to `goal` by single steps.
pub open spec fn is_walk(path: Seq<GridPos>, start: GridPos, goal: GridPos) -> bool {
    &&& path.len() >= 1
    &&& path[0] == start
    &&& path[path.len() - 1] == goal
    &&& forall|i: int| 0 <= i < path.len() - 1 ==> adjacent(#[trigger] path[i], path[i + 1])
}

/// Search state of one visited position.
#[derive(Clone, Copy)]
struct NodeRec {
    pos: GridPos,
    g: i32,
    parent: usize,
    has_parent: bool,
    closed: bool,
}

/// An open-list entry: estimated total cost, cost so far, position, and its record.
#[derive(Clone, Copy)]
struct OpenEntry {
    f: i32,
    g: i32,
    pos: GridPos,
    node: usize,
}

/// `a` comes before `b` in the open-list order: smaller (f, g, x, z) first.
spec fn open_before(a: OpenEntry, b: OpenEntry) -> bool {
    a.f < b.f || (a.f == b.f && (a.g < b.g || (a.g == b.g && (a.pos.x < b.pos.x || (a.pos.x
        == b.pos.x && a.pos.z <= b.pos.z)))))
}

fn open_le(a: &OpenEntry, b: &OpenEntry) -> (res: bool)
    ensures
        res == open_before(*a, *b),
{
    if a.f != b.f {
        return a.f < b.f;
    }
    if a.g != b.g {
        return a.g < b.g;
    }
    if a.pos.x != b.pos.x {
        return a.pos.x < b.pos.x;
    }
    a.pos.z <= b.pos.z
}

/// Manhattan distance between two positions.
pub open spec fn manhattan(a: GridPos, b: GridPos) -> int {
    (if a.x >= b.x { a.x - b.x } else { b.x - a.x }) + (if a.z >= b.z { a.z - b.z } else { b.z - a.z })
}

/// Manhattan distance, capped at `i32::MAX`.
fn heuristic(a: GridPos, b: GridPos) -> (res: i32)
    ensures
        res >= 0,
        res == if manhattan(a, b) > i32::MAX { i32::MAX as int } else { manhattan(a, b) },
{
    let dx = a.x as i64 - b.x as i64;
    let dz = a.z as i64 - b.z as i64;
    let adx = if dx < 0 {
        -dx
    } else {
        dx
    };
    let adz = if dz < 0 {
        -dz
    } else {
        dz
    };
    let h = adx + adz;
    if h > i32::MAX as i64 {
        i32::MAX
    } else {
        h as i32
    }
}

/// The search records are consistent: positions are distinct, the start is record 0 with no
/// parent and cost 0, every other record has a closed parent one step away and one cost
/// lower, and every recorded position was reported walkable.
spec fn records_ok<F: Fn(GridPos) -> bool>(ns: Seq<NodeRec>, start: GridPos, walkable: F) -> bool {
    &&& ns.len() >= 1
    &&& ns[0].pos == start
    &&& ns[0].g == 0
    &&& !ns[0].has_parent
    &&& forall|i: int, j: int| 0 <= i < j < ns.len() ==> (#[trigger] ns[i]).pos != (#[trigger] ns[j]).pos
    &&& forall|i: int| 0 <= i < ns.len() ==> (#[trigger] ns[i]).g >= 0
    &&& forall|i: int| 0 < i < ns.len() ==> (#[trigger] ns[i]).has_parent
    &&& forall|i: int|
        0 <= i < ns.len() && (#[trigger] ns[i]).has_parent ==> {
            let p = ns[i].parent as int;
            &&& 0 <= p < ns.len()
            &&& ns[p].closed
            &&& ns[p].g + 1 == ns[i].g
            &&& adjacent(ns[i].pos, ns[p].pos)
        }
    &&& forall|i: int| 0 <= i < ns.len() ==> walkable.ensures(((#[trigger] ns[i]).pos,), true)
}

fn find_node(ns: &Vec<NodeRec>, p: GridPos) -> (res: Option<usize>)
    ensures
        match res {
            Some(i) => i < ns@.len() && ns@[i as int].pos == p,
            None => forall|i: int| 0 <= i < ns@.len() ==> (#[trigger] ns@[i]).pos != p,
        },
{
    let mut i: usize = 0;
    while i < ns.len()
        invariant
            i <= ns@.len(),
            forall|j: int| 0 <= j < i ==> (#[trigger] ns@[j]).pos != p,
        decreases ns@.len() - i,
    {
        if ns[i].pos == p {
            return Some(i);
        }
        i = i + 1;
    }
    None
}

/// Index of the first entry that is smallest in the open-list order.
fn min_open(open: &Vec<OpenEntry>) -> (res: usize)
    requires
        open@.len() > 0,
    ensures
        res < open@.len(),
        forall|j: int| 0 <= j < open@.len() ==> open_before(open@[res as int], #[trigger] open@[j]),
{
    let mut best: usize = 0;
    let mut i: usize = 1;
    while i < open.len()
        invariant
            1 <= i <= open@.len(),
            best < i,
            forall|j: int| 0 <= j < i ==> open_before(open@[best as int], #[trigger] open@[j]),
        decreases open@.len() - i,
    {
        if !open_le(&open[best], &open[i]) {
            best = i;
        }
        i = i + 1;
    }
    best
}

/// `a + b`, clamped to the i32 range.
fn saturating_add_i32(a: i32, b: i32) -> (res: i32)
    ensures
        res == (if a + b > i32::MAX {
            i32::MAX as int
        } else if a + b < i32::MIN {
            i32::MIN as int
        } else {
            a + b
        }),
{
    let sum = a as i64 + b as i64;
    if sum > i32::MAX as i64 {
        i32::MAX
    } else if sum < i32::MIN as i64 {
        i32::MIN
    } else {
        sum as i32
    }
}

fn neighbor_offset(k: usize) -> (res: (i32, i32))
    requires
        k < 4,
    ensures
        (res.0 == 0 && (res.1 == 1 || res.1 == -1)) || (res.1 == 0 && (res.0 == 1 || res.0 == -1)),
        res.0 == off_x(k as int),
        res.1 == off_z(k as int),
{
    if k == 0 {
        (-1, 0)
    } else if k == 1 {
        (1, 0)
    } else if k == 2 {
        (0, -1)
    } else {
        (0, 1)
    }
}

/// The closure reported `p` walkable.
pub open spec fn walkable_by<F: Fn(GridPos) -> bool>(f: F, p: GridPos) -> bool {
    f.ensures((p,), true)
}

/// The closure gives one answer per position.
pub open spec fn answers_consistently<F: Fn(GridPos) -> bool>(f: F) -> bool {
    forall|p: GridPos, r: bool| #[trigger] f.ensures((p,), r) ==> (r == walkable_by(f, p))
}

/// A walk from `a` to `b` by single steps through positions the closure reports walkable.
pub open spec fn walkable_walk<F: Fn(GridPos) -> bool>(f: F, w: Seq<GridPos>, a: GridPos, b: GridPos) -> bool {
    &&& is_walk(w, a, b)
    &&& forall|i: int| 0 <= i < w.len() ==> walkable_by(f, #[trigger] w[i])
}

/// The search's costs and estimates stay below `i32::MAX`: twice the expansion budget plus
/// the distance between start and goal is smaller.
pub open spec fn search_fits(start: GridPos, goal: GridPos, max_expansions: usize) -> bool {
    2 * max_expansions + manhattan(start, goal) < i32::MAX
}

/// The positions the closure reports walkable.
pub open spec fn walkable_cells<F: Fn(GridPos) -> bool>(f: F) -> Set<GridPos> {
    Set::new(|p: GridPos| walkable_by(f, p))
}

spec fn hcap(p: GridPos, goal: GridPos) -> int {
    if manhattan(p, goal) > i32::MAX {
        i32::MAX as int
    } else {
        manhattan(p, goal)
    }
}

spec fn sat(v: int) -> int {
    if v > i32::MAX {
        i32::MAX as int
    } else {
        v
    }
}

spec fn off_x(k: int) -> int {
    if k == 0 {
        -1
    } else if k == 1 {
        1
    } else {
        0
    }
}

spec fn off_z(k: int) -> int {
    if k == 2 {
        -1
    } else if k == 3 {
        1
    } else {
        0
    }
}

/// A record at `q` that is closed or costs at most `bound`.
spec fn covered(ns: Seq<NodeRec>, q: GridPos, bound: int) -> bool {
    exists|i: int| 0 <= i < ns.len() && (#[trigger] ns[i]).pos == q && (ns[i].closed || ns[i].g <= bound)
}

/// The neighbour of record `j` in direction `k`, when it exists and is walkable, is covered
/// within one more than `j`'s cost.
spec fn dir_done<F: Fn(GridPos) -> bool>(ns: Seq<NodeRec>, j: int, f: F, k: int) -> bool {
    let p = ns[j].pos;
    let qx = p.x + off_x(k);
    let qz = p.z + off_z(k);
    (i32::MIN <= qx <= i32::MAX && i32::MIN <= qz <= i32::MAX && walkable_by(
        f,
        GridPos { x: qx as i32, z: qz as i32 },
    )) ==> covered(ns, GridPos { x: qx as i32, z: qz as i32 }, ns[j].g + 1)
}

/// Record `j` has been expanded: all four neighbours are done.
spec fn expanded<F: Fn(GridPos) -> bool>(ns: Seq<NodeRec>, j: int, f: F) -> bool {
    forall|k: int| 0 <= k < 4 ==> #[trigger] dir_done(ns, j, f, k)
}

/// No walkable walk reaches record `j`'s position in fewer steps than its cost.
spec fn optimal<F: Fn(GridPos) -> bool>(ns: Seq<NodeRec>, j: int, f: F, start: GridPos) -> bool {
    forall|w: Seq<GridPos>| #[trigger] walkable_walk(f, w, start, ns[j].pos) ==> w.len() - 1 >= ns[j].g
}

/// Some closed record sits at `p`.
spec fn closed_at(ns: Seq<NodeRec>, p: GridPos) -> bool {
    exists|j: int| 0 <= j < ns.len() && (#[trigger] ns[j]).pos == p && ns[j].closed
}

/// `ns2` grew from `ns`: same positions, closed stays closed, costs only drop.
spec fn grew(ns: Seq<NodeRec>, ns2: Seq<NodeRec>) -> bool {
    &&& ns.len() <= ns2.len()
    &&& forall|i: int|
        0 <= i < ns.len() ==> (#[trigger] ns2[i]).pos == ns[i].pos && (ns[i].closed ==> ns2[i].closed
            && ns2[i].g == ns[i].g) && ns2[i].g <= ns[i].g
}

proof fn lemma_grew_keeps(ns: Seq<NodeRec>, ns2: Seq<NodeRec>, q: GridPos, b: int)
    requires
        grew(ns, ns2),
        covered(ns, q, b),
    ensures
        covered(ns2, q, b),
{
    let i = choose|i: int| 0 <= i < ns.len() && (#[trigger] ns[i]).pos == q && (ns[i].closed || ns[i].g <= b);
    assert(ns2[i].pos == q);
}

proof fn lemma_grew_expanded<F: Fn(GridPos) -> bool>(ns: Seq<NodeRec>, ns2: Seq<NodeRec>, j: int, f: F, start: GridPos)
    requires
        grew(ns, ns2),
        0 <= j < ns.len(),
        ns[j].closed,
        expanded(ns, j, f),
        optimal(ns, j, f, start),
    ensures
        expanded(ns2, j, f),
        optimal(ns2, j, f, start),
        ns2[j].closed,
{
    assert(ns2[j].pos == ns[j].pos && ns2[j].g == ns[j].g);
    assert forall|k: int| 0 <= k < 4 implies #[trigger] dir_done(ns2, j, f, k) by {
        assert(dir_done(ns, j, f, k));
        let p = ns[j].pos;
        let q = GridPos { x: (p.x + off_x(k)) as i32, z: (p.z + off_z(k)) as i32 };
        if i32::MIN <= p.x + off_x(k) <= i32::MAX && i32::MIN <= p.z + off_z(k) <= i32::MAX && walkable_by(f, q) {
            lemma_grew_keeps(ns, ns2, q, ns[j].g + 1);
        }
    }
    assert forall|w: Seq<GridPos>| #[trigger] walkable_walk(f, w, start, ns2[j].pos) implies w.len() - 1 >= ns2[j].g by {
        assert(walkable_walk(f, w, start, ns[j].pos));
    }
}

/// Along a walk, positions `a` and `b` steps apart are at most `b - a` apart.
proof fn lemma_walk_distance(w: Seq<GridPos>, a: int, b: int)
    requires
        0 <= a <= b < w.len(),
        forall|i: int| 0 <= i < w.len() - 1 ==> adjacent(#[trigger] w[i], w[i + 1]),
    ensures
        manhattan(w[a], w[b]) <= b - a,
    decreases b - a,
{
    if a < b {
        lemma_walk_distance(w, a, b - 1);
        assert(adjacent(w[b - 1], w[b]));
    }
}

/// Triangle inequality for the Manhattan distance.
proof fn lemma_manhattan_triangle(a: GridPos, b: GridPos, c: GridPos)
    ensures
        manhattan(a, c) <= manhattan(a, b) + manhattan(b, c),
        manhattan(a, b) == manhattan(b, a),
{
}

/// A step between adjacent positions is one of the four directions.
proof fn lemma_adjacent_dir(p: GridPos, q: GridPos) -> (k: int)
    requires
        adjacent(p, q),
    ensures
        0 <= k < 4,
        q.x == p.x + off_x(k),
        q.z == p.z + off_z(k),
{
    if q.x == p.x - 1 {
        0
    } else if q.x == p.x + 1 {
        1
    } else if q.z == p.z - 1 {
        2
    } else {
        3
    }
}

/// Some position of a sequence fails `closed_at` when its last one does; the first such.
proof fn lemma_first_open(ns: Seq<NodeRec>, w: Seq<GridPos>, n: int) -> (i: int)
    requires
        0 <= n < w.len(),
        !closed_at(ns, w[n]),
    ensures
        0 <= i <= n,
        !closed_at(ns, w[i]),
        forall|j: int| 0 <= j < i ==> closed_at(ns, #[trigger] w[j]),
    decreases n,
{
    if n == 0 {
        0
    } else if closed_at(ns, w[n - 1]) {
        if forall|j: int| 0 <= j < n ==> closed_at(ns, #[trigger] w[j]) {
            n
        } else {
            let m = choose|j: int| 0 <= j < n && !closed_at(ns, #[trigger] w[j]);
            lemma_first_open(ns, w, m)
        }
    } else {
        lemma_first_open(ns, w, n - 1)
    }
}

/// Every open entry names a record at its position, costs no less than the record, at
/// most `exp`, and carries its estimate.
spec fn entries_ok(ns: Seq<NodeRec>, open: Seq<OpenEntry>, goal: GridPos, exp: int) -> bool {
    forall|k: int|
        0 <= k < open.len() ==> {
            let e = #[trigger] open[k];
            &&& (e.node as int) < ns.len()
            &&& ns[e.node as int].pos == e.pos
            &&& e.g >= ns[e.node as int].g
            &&& e.g <= exp
            &&& e.f == sat(e.g + hcap(e.pos, goal))
        }
}

/// Every record not yet closed has an open entry at its cost.
spec fn open_covers(ns: Seq<NodeRec>, open: Seq<OpenEntry>) -> bool {
    forall|j: int|
        #![trigger ns[j]]
        0 <= j < ns.len() && !ns[j].closed ==> exists|k: int|
            0 <= k < open.len() && (#[trigger] open[k]).node == j && open[k].g == ns[j].g
}

/// Costs are at most `exp` and at least the distance from the start.
spec fn costs_ok(ns: Seq<NodeRec>, start: GridPos, exp: int) -> bool {
    forall|j: int| 0 <= j < ns.len() ==> (#[trigger] ns[j]).g <= exp && manhattan(start, ns[j].pos) <= ns[j].g
}

/// The goal has no closed record.
spec fn goal_unclosed(ns: Seq<NodeRec>, goal: GridPos) -> bool {
    forall|j: int| 0 <= j < ns.len() && (#[trigger] ns[j]).closed ==> ns[j].pos != goal
}

/// Closed records have optimal costs and are expanded, except record `skip`, whose first
/// `kdone` directions are done.
spec fn closed_done<F: Fn(GridPos) -> bool>(ns: Seq<NodeRec>, f: F, start: GridPos, skip: int, kdone: int) -> bool {
    forall|j: int|
        0 <= j < ns.len() && (#[trigger] ns[j]).closed ==> optimal(ns, j, f, start) && (j != skip ==> expanded(
            ns,
            j,
            f,
        )) && (j == skip ==> forall|k: int| 0 <= k < kdone ==> #[trigger] dir_done(ns, j, f, k))
}

/// `cps` lists the closed records' positions once each; all are walkable.
spec fn counted<F: Fn(GridPos) -> bool>(ns: Seq<NodeRec>, cps: Seq<GridPos>, f: F) -> bool {
    &&& cps.no_duplicates()
    &&& forall|i: int| 0 <= i < cps.len() ==> walkable_by(f, #[trigger] cps[i])
    &&& forall|j: int| 0 <= j < ns.len() && (#[trigger] ns[j]).closed ==> cps.contains(ns[j].pos)
    &&& forall|i: int| 0 <= i < cps.len() ==> closed_at(ns, #[trigger] cps[i])
}

proof fn lemma_drop_entry(ns_old: Seq<NodeRec>, ns: Seq<NodeRec>, open_b: Seq<OpenEntry>, best: int, goal: GridPos, exp: int)
    requires
        0 <= best < open_b.len(),
        open_covers(ns_old, open_b),
        entries_ok(ns_old, open_b, goal, exp),
        ns.len() == ns_old.len(),
        (open_b[best].node as int) < ns.len(),
        ns[open_b[best].node as int].closed,
        forall|j: int|
            0 <= j < ns.len() ==> (#[trigger] ns[j]).pos == ns_old[j].pos && ns[j].g == ns_old[j].g && (!ns[j].closed
                ==> !ns_old[j].closed),
    ensures
        open_covers(ns, open_b.remove(best)),
        entries_ok(ns, open_b.remove(best), goal, exp),
{
    let open = open_b.remove(best);
    assert forall|j: int| #![trigger ns[j]] 0 <= j < ns.len() && !ns[j].closed implies exists|k: int|
        0 <= k < open.len() && (#[trigger] open[k]).node == j && open[k].g == ns[j].g by {
        assert(!ns_old[j].closed);
        let k = choose|k: int| 0 <= k < open_b.len() && (#[trigger] open_b[k]).node == j && open_b[k].g == ns_old[j].g;
        assert(k != best);
        if k < best {
            assert(open[k] == open_b[k]);
        } else {
            assert(open[k - 1] == open_b[k]);
        }
    }
    assert forall|k: int| 0 <= k < open.len() implies {
        let e = #[trigger] open[k];
        &&& (e.node as int) < ns.len()
        &&& ns[e.node as int].pos == e.pos
        &&& e.g >= ns[e.node as int].g
        &&& e.g <= exp
        &&& e.f == sat(e.g + hcap(e.pos, goal))
    } by {
        if k < best {
            assert(open[k] == open_b[k]);
        } else {
            assert(open[k] == open_b[k + 1]);
        }
        let e = open[k];
        assert(ns[e.node as int].pos == ns_old[e.node as int].pos);
    }
}

/// The record taken off the open list with the smallest estimate has an optimal cost.
proof fn lemma_pop_optimal<F: Fn(GridPos) -> bool>(
    ns: Seq<NodeRec>,
    open_b: Seq<OpenEntry>,
    best: int,
    f: F,
    start: GridPos,
    goal: GridPos,
    exp: int,
    max_exp: usize,
    w: Seq<GridPos>,
)
    requires
        records_ok(ns, start, f),
        0 <= best < open_b.len(),
        forall|j: int| 0 <= j < open_b.len() ==> open_before(open_b[best], #[trigger] open_b[j]),
        entries_ok(ns, open_b, goal, exp),
        open_covers(ns, open_b),
        costs_ok(ns, start, exp),
        closed_done(ns, f, start, -1, 0),
        !ns[open_b[best].node as int].closed,
        exp <= max_exp,
        search_fits(start, goal, max_exp),
        walkable_walk(f, w, start, ns[open_b[best].node as int].pos),
    ensures
        w.len() - 1 >= ns[open_b[best].node as int].g,
{
    let e = open_b[best];
    let cur = e.node as int;
    let n = w.len() - 1;
    assert(w[n] == ns[cur].pos);
    assert(!closed_at(ns, w[n])) by {
        if closed_at(ns, w[n]) {
            let j = choose|j: int| 0 <= j < ns.len() && (#[trigger] ns[j]).pos == w[n] && ns[j].closed;
            if j != cur {
                if j < cur {
                    assert(ns[j].pos != ns[cur].pos);
                } else {
                    assert(ns[cur].pos != ns[j].pos);
                }
            }
        }
    }
    let i = lemma_first_open(ns, w, n);
    // A record at w[i], not closed, with cost at most i.
    let u = w[i];
    let j: int = if i == 0 {
        0
    } else {
        let p = choose|p: int| 0 <= p < ns.len() && (#[trigger] ns[p]).pos == w[i - 1] && ns[p].closed;
        assert(closed_at(ns, w[i - 1]));
        assert(optimal(ns, p, f, start) && expanded(ns, p, f));
        let pre = w.subrange(0, i);
        assert(walkable_walk(f, pre, start, ns[p].pos)) by {
            assert forall|t: int| 0 <= t < pre.len() - 1 implies adjacent(#[trigger] pre[t], pre[t + 1]) by {
                assert(pre[t] == w[t] && pre[t + 1] == w[t + 1]);
            }
            assert forall|t: int| 0 <= t < pre.len() implies walkable_by(f, #[trigger] pre[t]) by {
                assert(pre[t] == w[t]);
            }
        }
        assert(i - 1 >= ns[p].g);
        assert(adjacent(w[i - 1], w[i]));
        let k = lemma_adjacent_dir(w[i - 1], w[i]);
        assert(dir_done(ns, p, f, k));
        assert(walkable_by(f, w[i]));
        assert(GridPos { x: (ns[p].pos.x + off_x(k)) as i32, z: (ns[p].pos.z + off_z(k)) as i32 } == u);
        assert(covered(ns, u, ns[p].g + 1));
        let jj = choose|jj: int| 0 <= jj < ns.len() && (#[trigger] ns[jj]).pos == u && (ns[jj].closed || ns[jj].g <= ns[p].g + 1);
        if ns[jj].closed {
            assert(closed_at(ns, u));
        }
        jj
    };
    assert(0 <= j < ns.len() && ns[j].pos == u && !ns[j].closed && ns[j].g <= i) by {
        if i == 0 {
            assert(u == start);
            if ns[0].closed {
                assert(closed_at(ns, u));
            }
        }
    }
    let k = choose|k: int| 0 <= k < open_b.len() && (#[trigger] open_b[k]).node == j && open_b[k].g == ns[j].g;
    let ek = open_b[k];
    assert(open_before(e, ek));
    // Estimates are exact below i32::MAX.
    lemma_manhattan_triangle(u, start, goal);
    lemma_manhattan_triangle(ns[cur].pos, start, goal);
    assert(manhattan(start, ns[j].pos) <= ns[j].g);
    assert(manhattan(start, ns[cur].pos) <= ns[cur].g);
    assert(ek.f == ek.g + manhattan(u, goal));
    assert(e.f == sat(e.g + hcap(ns[cur].pos, goal)));
    assert(hcap(ns[cur].pos, goal) == manhattan(ns[cur].pos, goal));
    assert(e.f == e.g + manhattan(ns[cur].pos, goal));
    lemma_walk_distance(w, i, n);
    lemma_manhattan_triangle(u, ns[cur].pos, goal);
}

/// One more direction of record `cur` is done.
proof fn lemma_dir_step<F: Fn(GridPos) -> bool>(ns: Seq<NodeRec>, cur: int, f: F, start: GridPos, kk: int, good: bool)
    requires
        0 <= cur < ns.len(),
        good ==> closed_done(ns, f, start, cur, kk),
        good ==> dir_done(ns, cur, f, kk),
    ensures
        good ==> closed_done(ns, f, start, cur, kk + 1),
{
    if good {
        assert forall|j: int| 0 <= j < ns.len() && (#[trigger] ns[j]).closed implies optimal(ns, j, f, start) && (j
            != cur ==> expanded(ns, j, f)) && (j == cur ==> forall|k: int| 0 <= k < kk + 1 ==> #[trigger] dir_done(ns, j, f, k)) by {
            if j == cur {
                assert forall|k: int| 0 <= k < kk + 1 implies #[trigger] dir_done(ns, j, f, k) by {
                    if k < kk {
                        assert(dir_done(ns, j, f, k));
                    }
                }
            }
        }
    }
}

/// How a relaxation changes the records: record `idx` (an open record, or a new one)
/// becomes `fresh`.
spec fn relaxed(ns_b: Seq<NodeRec>, ns: Seq<NodeRec>, idx: int, fresh: NodeRec) -> bool {
    &&& 0 <= idx <= ns_b.len()
    &&& !fresh.closed
    &&& idx < ns_b.len() ==> ns == ns_b.update(idx, fresh) && ns_b[idx].pos == fresh.pos && !ns_b[idx].closed
        && fresh.g < ns_b[idx].g
    &&& idx == ns_b.len() ==> ns == ns_b.push(fresh)
}

proof fn lemma_relaxed_grew(ns_b: Seq<NodeRec>, ns: Seq<NodeRec>, idx: int, fresh: NodeRec)
    requires
        relaxed(ns_b, ns, idx, fresh),
    ensures
        grew(ns_b, ns),
        ns.len() >= ns_b.len(),
        ns[idx] == fresh,
        forall|i: int| 0 <= i < ns.len() && i != idx ==> #[trigger] ns[i] == ns_b[i],
{
    assert forall|i: int| 0 <= i < ns_b.len() implies (#[trigger] ns[i]).pos == ns_b[i].pos && (ns_b[i].closed ==> ns[i].closed
        && ns[i].g == ns_b[i].g) && ns[i].g <= ns_b[i].g by {
        if i != idx {
            assert(ns[i] == ns_b[i]);
        }
    }
}

/// A relaxation and its new open entry keep the open list's invariants.
#[verifier::spinoff_prover]
proof fn lemma_relax_open(
    ns_b: Seq<NodeRec>,
    ns: Seq<NodeRec>,
    open_b: Seq<OpenEntry>,
    open: Seq<OpenEntry>,
    idx: int,
    fresh: NodeRec,
    goal: GridPos,
    exp: int,
)
    requires
        relaxed(ns_b, ns, idx, fresh),
        idx <= usize::MAX,
        fresh.g <= exp,
        open == open_b.push(
            OpenEntry { f: sat(fresh.g + hcap(fresh.pos, goal)) as i32, g: fresh.g, pos: fresh.pos, node: idx as usize },
        ),
        entries_ok(ns_b, open_b, goal, exp),
        forall|q: int|
            0 <= q < open_b.len() ==> (#[trigger] open_b[q]).node < ns_b.len() && ns_b[open_b[q].node as int].pos
                == open_b[q].pos,
        open_covers(ns_b, open_b),
    ensures
        entries_ok(ns, open, goal, exp),
        forall|q: int|
            0 <= q < open.len() ==> (#[trigger] open[q]).node < ns.len() && ns[open[q].node as int].pos == open[q].pos,
        open_covers(ns, open),
{
    lemma_relaxed_grew(ns_b, ns, idx, fresh);
    assert forall|q: int| 0 <= q < open.len() implies {
        let e = #[trigger] open[q];
        &&& (e.node as int) < ns.len()
        &&& ns[e.node as int].pos == e.pos
        &&& e.g >= ns[e.node as int].g
        &&& e.g <= exp
        &&& e.f == sat(e.g + hcap(e.pos, goal))
    } by {
        if q < open_b.len() {
            assert(open[q] == open_b[q]);
            let e = open_b[q];
            assert(ns[e.node as int].pos == ns_b[e.node as int].pos);
        } else {
            assert(open[q].node as int == idx);
        }
    }
    assert forall|q: int| 0 <= q < open.len() implies (#[trigger] open[q]).node < ns.len() && ns[open[q].node as int].pos == open[q].pos by {
        if q < open_b.len() {
            assert(open[q] == open_b[q]);
        }
    }
    assert forall|j: int| #![trigger ns[j]] 0 <= j < ns.len() && !ns[j].closed implies exists|k: int|
        0 <= k < open.len() && (#[trigger] open[k]).node == j && open[k].g == ns[j].g by {
        if j == idx {
            assert(open[open.len() - 1].node as int == j);
        } else {
            assert(ns[j] == ns_b[j]);
            let k = choose|k: int| 0 <= k < open_b.len() && (#[trigger] open_b[k]).node == j && open_b[k].g == ns_b[j].g;
            assert(open[k] == open_b[k]);
        }
    }
}

/// A relaxation keeps the cost bounds, the unclosed goal and the closed-position count.
#[verifier::spinoff_prover]
proof fn lemma_relax_costs<F: Fn(GridPos) -> bool>(
    ns_b: Seq<NodeRec>,
    ns: Seq<NodeRec>,
    idx: int,
    fresh: NodeRec,
    cur: int,
    start: GridPos,
    goal: GridPos,
    exp: int,
    cps: Seq<GridPos>,
    f: F,
)
    requires
        relaxed(ns_b, ns, idx, fresh),
        0 <= cur < ns_b.len(),
        fresh.g == ns_b[cur].g + 1,
        fresh.g <= exp,
        manhattan(ns_b[cur].pos, fresh.pos) <= 1,
        costs_ok(ns_b, start, exp),
        goal_unclosed(ns_b, goal),
        counted(ns_b, cps, f),
    ensures
        costs_ok(ns, start, exp),
        goal_unclosed(ns, goal),
        counted(ns, cps, f),
{
    lemma_relaxed_grew(ns_b, ns, idx, fresh);
    assert forall|j: int| 0 <= j < ns.len() implies (#[trigger] ns[j]).g <= exp && manhattan(start, ns[j].pos) <= ns[j].g by {
        if j == idx {
            assert(manhattan(start, ns_b[cur].pos) <= ns_b[cur].g);
            lemma_manhattan_triangle(start, ns_b[cur].pos, fresh.pos);
        } else {
            assert(ns[j] == ns_b[j]);
        }
    }
    assert forall|j: int| 0 <= j < ns.len() && (#[trigger] ns[j]).closed implies ns[j].pos != goal by {
        assert(ns[j] == ns_b[j]);
    }
    assert forall|t: int| 0 <= t < cps.len() implies closed_at(ns, #[trigger] cps[t]) by {
        assert(closed_at(ns_b, cps[t]));
        let jj = choose|jj: int| 0 <= jj < ns_b.len() && (#[trigger] ns_b[jj]).pos == cps[t] && ns_b[jj].closed;
        assert(ns[jj].pos == cps[t] && ns[jj].closed);
    }
    assert forall|j: int| 0 <= j < ns.len() && (#[trigger] ns[j]).closed implies cps.contains(ns[j].pos) by {
        assert(ns[j] == ns_b[j]);
    }
}

/// A relaxation of `cur`'s neighbour in direction `kk` completes that direction and keeps
/// what closed records had.
#[verifier::spinoff_prover]
proof fn lemma_relax_closed<F: Fn(GridPos) -> bool>(
    ns_b: Seq<NodeRec>,
    ns: Seq<NodeRec>,
    idx: int,
    fresh: NodeRec,
    cur: int,
    kk: int,
    f: F,
    start: GridPos,
)
    requires
        relaxed(ns_b, ns, idx, fresh),
        0 <= cur < ns_b.len(),
        ns_b[cur].closed,
        fresh.g == ns_b[cur].g + 1,
        fresh.pos == (GridPos { x: (ns_b[cur].pos.x + off_x(kk)) as i32, z: (ns_b[cur].pos.z + off_z(kk)) as i32 }),
        closed_done(ns_b, f, start, cur, kk),
    ensures
        closed_done(ns, f, start, cur, kk + 1),
{
    lemma_relaxed_grew(ns_b, ns, idx, fresh);
    assert forall|j: int| 0 <= j < ns.len() && (#[trigger] ns[j]).closed implies optimal(ns, j, f, start) && (j != cur
        ==> expanded(ns, j, f)) && (j == cur ==> forall|k: int| 0 <= k < kk + 1 ==> #[trigger] dir_done(ns, j, f, k)) by {
        assert(j != idx);
        assert(ns[j] == ns_b[j]);
        assert(ns_b[j].closed);
        if j == cur {
            assert forall|w: Seq<GridPos>| #[trigger] walkable_walk(f, w, start, ns[j].pos) implies w.len() - 1 >= ns[j].g by {
                assert(optimal(ns_b, j, f, start));
                assert(walkable_walk(f, w, start, ns_b[j].pos));
            }
            assert forall|k: int| 0 <= k < kk + 1 implies #[trigger] dir_done(ns, j, f, k) by {
                if k < kk {
                    assert(dir_done(ns_b, j, f, k));
                    let p = ns_b[j].pos;
                    let q = GridPos { x: (p.x + off_x(k)) as i32, z: (p.z + off_z(k)) as i32 };
                    if i32::MIN <= p.x + off_x(k) <= i32::MAX && i32::MIN <= p.z + off_z(k) <= i32::MAX && walkable_by(f, q) {
                        lemma_grew_keeps(ns_b, ns, q, ns_b[j].g + 1);
                    }
                } else {
                    assert(ns[idx].pos == fresh.pos && ns[idx].g <= ns[j].g + 1);
                    assert(covered(ns, fresh.pos, ns[j].g + 1));
                }
            }
        } else {
            lemma_grew_expanded(ns_b, ns, j, f, start);
        }
    }
}

/// Every position of a walkable walk from the start has a closed record once every record
/// is closed and expanded.
proof fn lemma_walk_closed<F: Fn(GridPos) -> bool>(ns: Seq<NodeRec>, f: F, start: GridPos, w: Seq<GridPos>, goal: GridPos, i: int)
    requires
        records_ok(ns, start, f),
        forall|j: int| 0 <= j < ns.len() ==> (#[trigger] ns[j]).closed,
        closed_done(ns, f, start, -1, 0),
        walkable_walk(f, w, start, goal),
        0 <= i < w.len(),
    ensures
        closed_at(ns, w[i]),
    decreases i,
{
    if i == 0 {
        assert(ns[0].pos == w[0] && ns[0].closed);
    } else {
        lemma_walk_closed(ns, f, start, w, goal, i - 1);
        let p = choose|p: int| 0 <= p < ns.len() && (#[trigger] ns[p]).pos == w[i - 1] && ns[p].closed;
        assert(expanded(ns, p, f));
        assert(adjacent(w[i - 1], w[i]));
        let k = lemma_adjacent_dir(w[i - 1], w[i]);
        assert(dir_done(ns, p, f, k));
        assert(walkable_by(f, w[i]));
        assert(GridPos { x: (ns[p].pos.x + off_x(k)) as i32, z: (ns[p].pos.z + off_z(k)) as i32 } == w[i]);
        assert(covered(ns, w[i], ns[p].g + 1));
        let jj = choose|jj: int| 0 <= jj < ns.len() && (#[trigger] ns[jj]).pos == w[i] && (ns[jj].closed || ns[jj].g <= ns[p].g + 1);
        assert(ns[jj].closed);
    }
}

/// A search that ran out of open entries leaves no walkable walk to the goal.
proof fn lemma_exhausted<F: Fn(GridPos) -> bool>(
    ns: Seq<NodeRec>,
    open: Seq<OpenEntry>,
    f: F,
    start: GridPos,
    goal: GridPos,
    w: Seq<GridPos>,
)
    requires
        open.len() == 0,
        open_covers(ns, open),
        records_ok(ns, start, f),
        closed_done(ns, f, start, -1, 0),
        goal_unclosed(ns, goal),
    ensures
        !walkable_walk(f, w, start, goal),
{
    if walkable_walk(f, w, start, goal) {
        assert forall|j: int| 0 <= j < ns.len() implies (#[trigger] ns[j]).closed by {
            if !ns[j].closed {
                let k = choose|k: int| 0 <= k < open.len() && (#[trigger] open[k]).node == j && open[k].g == ns[j].g;
            }
        }
        lemma_walk_closed(ns, f, start, w, goal, w.len() - 1);
        let j = choose|j: int| 0 <= j < ns.len() && (#[trigger] ns[j]).pos == w[w.len() - 1] && ns[j].closed;
    }
}

/// Closing the record taken off the open list: it joins the closed positions, keeps its
/// optimal cost, and no closed record loses what it had.
#[verifier::spinoff_prover]
proof fn lemma_close_step<F: Fn(GridPos) -> bool>(
    ns0: Seq<NodeRec>,
    ns: Seq<NodeRec>,
    cur: int,
    cps0: Seq<GridPos>,
    f: F,
    start: GridPos,
    goal: GridPos,
    exp: int,
    good: bool,
)
    requires
        records_ok(ns0, start, f),
        0 <= cur < ns0.len(),
        !ns0[cur].closed,
        ns == ns0.update(cur, NodeRec { closed: true, ..ns0[cur] }),
        counted(ns0, cps0, f),
        costs_ok(ns0, start, exp),
        goal_unclosed(ns0, goal),
        good ==> closed_done(ns0, f, start, -1, 0),
        good ==> forall|w: Seq<GridPos>| #[trigger] walkable_walk(f, w, start, ns0[cur].pos) ==> w.len() - 1 >= ns0[cur].g,
    ensures
        grew(ns0, ns),
        counted(ns, cps0.push(ns0[cur].pos), f),
        costs_ok(ns, start, exp),
        ns0[cur].pos != goal ==> goal_unclosed(ns, goal),
        good ==> closed_done(ns, f, start, cur, 0),
        ns[cur].closed,
        ns[cur].pos == ns0[cur].pos,
        ns[cur].g == ns0[cur].g,
{
    let cps = cps0.push(ns0[cur].pos);
    assert(grew(ns0, ns)) by {
        assert forall|i: int| 0 <= i < ns0.len() implies (#[trigger] ns[i]).pos == ns0[i].pos && (ns0[i].closed ==> ns[i].closed
            && ns[i].g == ns0[i].g) && ns[i].g <= ns0[i].g by {
            if i != cur {
                assert(ns[i] == ns0[i]);
            }
        }
    }
    assert(!cps0.contains(ns0[cur].pos)) by {
        if cps0.contains(ns0[cur].pos) {
            let t = choose|t: int| 0 <= t < cps0.len() && cps0[t] == ns0[cur].pos;
            assert(closed_at(ns0, cps0[t]));
            let jj = choose|jj: int| 0 <= jj < ns0.len() && (#[trigger] ns0[jj]).pos == cps0[t] && ns0[jj].closed;
            if jj != cur {
                if jj < cur {
                    assert(ns0[jj].pos != ns0[cur].pos);
                } else {
                    assert(ns0[cur].pos != ns0[jj].pos);
                }
            }
        }
    }
    assert forall|t: int| 0 <= t < cps.len() implies closed_at(ns, #[trigger] cps[t]) by {
        if t < cps0.len() {
            assert(cps[t] == cps0[t]);
            assert(closed_at(ns0, cps0[t]));
            let jj = choose|jj: int| 0 <= jj < ns0.len() && (#[trigger] ns0[jj]).pos == cps0[t] && ns0[jj].closed;
            assert(ns[jj].pos == cps0[t] && ns[jj].closed);
        } else {
            assert(ns[cur].pos == cps[t] && ns[cur].closed);
        }
    }
    assert forall|t: int| 0 <= t < cps.len() implies walkable_by(f, #[trigger] cps[t]) by {
        if t < cps0.len() {
            assert(cps[t] == cps0[t]);
        } else {
            assert(walkable_by(f, ns0[cur].pos));
        }
    }
    assert forall|jj: int| 0 <= jj < ns.len() && (#[trigger] ns[jj]).closed implies cps.contains(ns[jj].pos) by {
        if jj == cur {
            assert(cps[cps.len() - 1] == ns[jj].pos);
        } else {
            assert(ns[jj] == ns0[jj]);
            assert(cps0.contains(ns0[jj].pos));
            let t = choose|t: int| 0 <= t < cps0.len() && cps0[t] == ns0[jj].pos;
            assert(cps[t] == cps0[t]);
        }
    }
    assert(cps.no_duplicates()) by {
        assert forall|a: int, b: int| 0 <= a < cps.len() && 0 <= b < cps.len() && a != b implies cps[a] != cps[b] by {
            if a < cps0.len() && b < cps0.len() {
                assert(cps[a] == cps0[a] && cps[b] == cps0[b]);
            } else if a < cps0.len() {
                assert(cps[a] == cps0[a]);
                assert(cps0.contains(cps0[a]));
            } else if b < cps0.len() {
                assert(cps[b] == cps0[b]);
                assert(cps0.contains(cps0[b]));
            }
        }
    }
    assert forall|j: int| 0 <= j < ns.len() implies (#[trigger] ns[j]).g <= exp && manhattan(start, ns[j].pos) <= ns[j].g by {
        assert(ns[j].g == ns0[j].g && ns[j].pos == ns0[j].pos);
    }
    if ns0[cur].pos != goal {
        assert forall|j: int| 0 <= j < ns.len() && (#[trigger] ns[j]).closed implies ns[j].pos != goal by {
            if j != cur {
                assert(ns[j] == ns0[j]);
            }
        }
    }
    if good {
        assert forall|jj: int| 0 <= jj < ns.len() && (#[trigger] ns[jj]).closed implies optimal(ns, jj, f, start) && (jj != cur
            ==> expanded(ns, jj, f)) && (jj == cur ==> forall|k: int| 0 <= k < 0 ==> #[trigger] dir_done(ns, jj, f, k)) by {
            if jj == cur {
                assert forall|w: Seq<GridPos>| #[trigger] walkable_walk(f, w, start, ns[jj].pos) implies w.len() - 1 >= ns[jj].g by {
                    assert(walkable_walk(f, w, start, ns0[cur].pos));
                }
            } else {
                assert(ns0[jj].closed);
                lemma_grew_expanded(ns0, ns, jj, f, start);
            }
        }
    }
}

/// The closed positions are distinct walkable positions, so there are no more of them than
/// walkable positions.
proof fn lemma_budget<F: Fn(GridPos) -> bool>(cps: Seq<GridPos>, f: F)
    requires
        cps.no_duplicates(),
        forall|i: int| 0 <= i < cps.len() ==> walkable_by(f, #[trigger] cps[i]),
        walkable_cells(f).finite(),
    ensures
        cps.len() <= walkable_cells(f).len(),
{
    assert(cps.to_set().subset_of(walkable_cells(f))) by {
        assert forall|p: GridPos| cps.to_set().contains(p) implies walkable_cells(f).contains(p) by {
            let t = choose|t: int| 0 <= t < cps.len() && cps[t] == p;
            assert(walkable_by(f, cps[t]));
        }
    }
    vstd::set_lib::lemma_len_subset(cps.to_set(), walkable_cells(f));
    cps.unique_seq_to_set();
}

/// Deterministic 4-neighbor A*. Positions are expanded in order of smallest (f, g, x, z),
/// neighbors in the order -x, +x, -z, +z; the search gives up after `max_expansions`
/// expansions. A returned path is a walk by single steps from `start` to `goal` whose every
/// position (except a start equal to the goal) was reported walkable; when start and goal
/// coincide the path is just the start. When the closure answers consistently and the costs
/// fit (`search_fits`), a returned path is a shortest walkable walk, and a path is found
/// whenever a walkable walk exists and there are at most `max_expansions` walkable
/// positions.
#[verifier::spinoff_prover]
#[verifier::rlimit(50)]
pub fn astar_path_4dir<F: Fn(GridPos) -> bool>(
    start: GridPos,
    goal: GridPos,
    is_walkable: F,
    max_expansions: usize,
) -> (res: Option<Vec<GridPos>>)
    requires
        forall|p: GridPos| is_walkable.requires((p,)),
    ensures
        start == goal ==> res.is_some() && res.unwrap()@ == seq![start],
        res matches Some(found) ==> is_walk(found@, start, goal),
        start != goal ==> (res matches Some(found) ==> forall|i: int|
            0 <= i < found@.len() ==> is_walkable.ensures((#[trigger] found@[i],), true)),
        answers_consistently(is_walkable) && search_fits(start, goal, max_expansions) ==> (res matches Some(
            found,
        ) ==> forall|w: Seq<GridPos>| #[trigger] walkable_walk(is_walkable, w, start, goal) ==> found@.len() <= w.len()),
        answers_consistently(is_walkable) && search_fits(start, goal, max_expansions) && (exists|w: Seq<GridPos>|
            #[trigger] walkable_walk(is_walkable, w, start, goal)) && walkable_cells(is_walkable).finite()
            && walkable_cells(is_walkable).len() <= max_expansions ==> res is Some,
{
    if start == goal {
        let mut only: Vec<GridPos> = Vec::new();
        only.push(start);
        proof {
            assert forall|w: Seq<GridPos>| #[trigger] walkable_walk(is_walkable, w, start, goal) implies 1 <= w.len() by {}
        }
        return Some(only);
    }
    let ghost good = answers_consistently(is_walkable) && search_fits(start, goal, max_expansions);
    let start_ok = is_walkable(start);
    if !start_ok {
        proof {
            assert forall|w: Seq<GridPos>| good implies !#[trigger] walkable_walk(is_walkable, w, start, goal) by {
                if walkable_walk(is_walkable, w, start, goal) {
                    assert(walkable_by(is_walkable, w[0]));
                }
            }
        }
        return None;
    }
    let goal_ok = is_walkable(goal);
    if !goal_ok {
        proof {
            assert forall|w: Seq<GridPos>| good implies !#[trigger] walkable_walk(is_walkable, w, start, goal) by {
                if walkable_walk(is_walkable, w, start, goal) {
                    assert(walkable_by(is_walkable, w[w.len() - 1]));
                }
            }
        }
        return None;
    }
    let mut nodes: Vec<NodeRec> = Vec::new();
    nodes.push(NodeRec { pos: start, g: 0, parent: 0, has_parent: false, closed: false });
    let mut open: Vec<OpenEntry> = Vec::new();
    open.push(OpenEntry { f: heuristic(start, goal), g: 0, pos: start, node: 0 });
    let mut expansions: usize = 0;
    let ghost mut cps: Seq<GridPos> = Seq::empty();
    proof {
        assert(nodes@[0].pos == start);
        assert(open@[0].node == 0);
        assert(open_covers(nodes@, open@));
    }
    while open.len() > 0
        invariant
            forall|p: GridPos| is_walkable.requires((p,)),
            start != goal,
            good == (answers_consistently(is_walkable) && search_fits(start, goal, max_expansions)),
            walkable_by(is_walkable, start),
            walkable_by(is_walkable, goal),
            records_ok(nodes@, start, is_walkable),
            forall|k: int|
                0 <= k < open@.len() ==> (#[trigger] open@[k]).node < nodes@.len()
                    && nodes@[open@[k].node as int].pos == open@[k].pos,
            entries_ok(nodes@, open@, goal, expansions as int),
            open_covers(nodes@, open@),
            costs_ok(nodes@, start, expansions as int),
            goal_unclosed(nodes@, goal),
            good ==> closed_done(nodes@, is_walkable, start, -1, 0),
            counted(nodes@, cps, is_walkable),
            cps.len() == expansions,
            expansions <= max_expansions,
        decreases max_expansions - expansions, open@.len(),
    {
        let ghost open_b = open@;
        let ghost ns0 = nodes@;
        let best = min_open(&open);
        let entry = open.remove(best);
        proof {
            assert(entry == open_b[best as int]);
            assert(open@ == open_b.remove(best as int));
            assert forall|k: int|
                0 <= k < open@.len() implies (#[trigger] open@[k]).node < nodes@.len()
                    && nodes@[open@[k].node as int].pos == open@[k].pos by {
                if k < best {
                    assert(open@[k] == open_b[k]);
                } else {
                    assert(open@[k] == open_b[k + 1]);
                }
            }
        }
        let cur = entry.node;
        if nodes[cur].closed {
            proof {
                lemma_drop_entry(ns0, nodes@, open_b, best as int, goal, expansions as int);
            }
            continue;
        }
        proof {
            if good {
                assert forall|w: Seq<GridPos>| #[trigger] walkable_walk(is_walkable, w, start, ns0[cur as int].pos) implies w.len()
                    - 1 >= ns0[cur as int].g by {
                    lemma_pop_optimal(ns0, open_b, best as int, is_walkable, start, goal, expansions as int, max_expansions, w);
                }
            }
        }
        let ghost ns_b = nodes@;
        let mut rec = nodes[cur];
        rec.closed = true;
        nodes.set(cur, rec);
        let ghost cps0 = cps;
        proof {
            lemma_close_keeps_records(ns_b, nodes@, cur as int, start, is_walkable);
            lemma_drop_entry(ns0, nodes@, open_b, best as int, goal, expansions as int);
            lemma_close_step(ns0, nodes@, cur as int, cps0, is_walkable, start, goal, expansions as int, good);
            cps = cps0.push(ns0[cur as int].pos);
        }
        if entry.pos == goal {
            let path = reconstruct(&nodes, cur, start, goal, &is_walkable);
            proof {
                if good {
                    assert forall|w: Seq<GridPos>| #[trigger] walkable_walk(is_walkable, w, start, goal) implies path@.len() <= w.len() by {
                        assert(optimal(nodes@, cur as int, is_walkable, start));
                        assert(walkable_walk(is_walkable, w, start, nodes@[cur as int].pos));
                    }
                }
            }
            return Some(path);
        }
        if expansions >= max_expansions {
            proof {
                if walkable_cells(is_walkable).finite() {
                    lemma_budget(cps, is_walkable);
                }
            }
            return None;
        }
        expansions = expansions + 1;
        let current_g = nodes[cur].g;
        let cur_pos = entry.pos;
        let mut k: usize = 0;
        while k < 4
            invariant
                forall|p: GridPos| is_walkable.requires((p,)),
                start != goal,
                good == (answers_consistently(is_walkable) && search_fits(start, goal, max_expansions)),
                walkable_by(is_walkable, start),
                walkable_by(is_walkable, goal),
                records_ok(nodes@, start, is_walkable),
                forall|q: int|
                    0 <= q < open@.len() ==> (#[trigger] open@[q]).node < nodes@.len()
                        && nodes@[open@[q].node as int].pos == open@[q].pos,
                entries_ok(nodes@, open@, goal, expansions as int),
                open_covers(nodes@, open@),
                costs_ok(nodes@, start, expansions as int),
                goal_unclosed(nodes@, goal),
                good ==> closed_done(nodes@, is_walkable, start, cur as int, k as int),
                counted(nodes@, cps, is_walkable),
                cps.len() == expansions,
                1 <= expansions <= max_expansions,
                cur < nodes@.len(),
                nodes@[cur as int].closed,
                nodes@[cur as int].pos == cur_pos,
                nodes@[cur as int].g == current_g,
                current_g + 1 <= expansions,
                k <= 4,
            decreases 4 - k,
        {
            let (ox, oz) = neighbor_offset(k);
            let ghost kk = k as int;
            let ghost ns_k = nodes@;
            k = k + 1;
            let nx = cur_pos.x.checked_add(ox);
            let nz = cur_pos.z.checked_add(oz);
            if nx.is_none() || nz.is_none() {
                proof {
                    lemma_dir_step(nodes@, cur as int, is_walkable, start, kk, good);
                }
                continue;
            }
            let neighbor = GridPos::new(nx.unwrap(), nz.unwrap());
            proof {
                assert(adjacent(neighbor, cur_pos));
                assert(neighbor == GridPos { x: (cur_pos.x + off_x(kk)) as i32, z: (cur_pos.z + off_z(kk)) as i32 });
            }
            let found = find_node(&nodes, neighbor);
            let is_closed = match found {
                Some(j) => nodes[j].closed,
                None => false,
            };
            if is_closed {
                proof {
                    let j = found.unwrap() as int;
                    assert(covered(nodes@, neighbor, current_g + 1)) by {
                        assert(nodes@[j].pos == neighbor && nodes@[j].closed);
                    }
                    lemma_dir_step(nodes@, cur as int, is_walkable, start, kk, good);
                }
                continue;
            }
            let walkable = is_walkable(neighbor);
            if !walkable {
                proof {
                    if good {
                        assert(!walkable_by(is_walkable, neighbor));
                    }
                    lemma_dir_step(nodes@, cur as int, is_walkable, start, kk, good);
                }
                continue;
            }
            let tentative = saturating_add_i32(current_g, 1);
            let best_g = match found {
                Some(j) => nodes[j].g,
                None => i32::MAX,
            };
            if tentative >= best_g {
                proof {
                    if good {
                        assert(tentative == current_g + 1);
                        let j = found.unwrap() as int;
                        assert(covered(nodes@, neighbor, current_g + 1)) by {
                            assert(nodes@[j].pos == neighbor && nodes@[j].g <= current_g + 1);
                        }
                    }
                    lemma_dir_step(nodes@, cur as int, is_walkable, start, kk, good);
                }
                continue;
            }
            let ghost ns_b = nodes@;
            let ghost open_b2 = open@;
            let fresh = NodeRec { pos: neighbor, g: tentative, parent: cur, has_parent: true, closed: false };
            let node_idx = match found {
                Some(j) => {
                    nodes.set(j, fresh);
                    j
                },
                None => {
                    nodes.push(fresh);
                    nodes.len() - 1
                },
            };
            proof {
                lemma_relax_keeps_records(ns_b, nodes@, node_idx as int, fresh, cur as int, start, is_walkable);
            }
            let h = heuristic(neighbor, goal);
            open.push(OpenEntry { f: saturating_add_i32(tentative, h), g: tentative, pos: neighbor, node: node_idx });
            proof {
                assert(relaxed(ns_b, nodes@, node_idx as int, fresh));
                assert(manhattan(cur_pos, neighbor) <= 1);
                lemma_relax_open(ns_b, nodes@, open_b2, open@, node_idx as int, fresh, goal, expansions as int);
                lemma_relax_costs(ns_b, nodes@, node_idx as int, fresh, cur as int, start, goal, expansions as int, cps, is_walkable);
                if good {
                    lemma_relax_closed(ns_b, nodes@, node_idx as int, fresh, cur as int, kk, is_walkable, start);
                }
                assert(nodes@[cur as int] == ns_b[cur as int]);
            }
        }
    }
    proof {
        if good && (exists|w: Seq<GridPos>| #[trigger] walkable_walk(is_walkable, w, start, goal)) {
            let w = choose|w: Seq<GridPos>| #[trigger] walkable_walk(is_walkable, w, start, goal);
            lemma_exhausted(nodes@, open@, is_walkable, start, goal, w);
        }
    }
    None
}

#[verifier::spinoff_prover]
fn reconstruct<F: Fn(GridPos) -> bool>(
    nodes: &Vec<NodeRec>,
    cur: usize,
    start: GridPos,
    goal: GridPos,
    is_walkable: &F,
) -> (path: Vec<GridPos>)
    requires
        records_ok(nodes@, start, *is_walkable),
        cur < nodes@.len(),
        nodes@[cur as int].pos == goal,
        start != goal,
    ensures
        is_walk(path@, start, goal),
        forall|i: int| 0 <= i < path@.len() ==> is_walkable.ensures((#[trigger] path@[i],), true),
        path@.len() == nodes@[cur as int].g + 1,
{
    proof {
        assert(is_walkable.ensures((nodes@[cur as int].pos,), true));
    }
    let mut rev: Vec<GridPos> = Vec::new();
    rev.push(goal);
    let mut c = cur;
    let mut done = false;
    while !done
        invariant
            records_ok(nodes@, start, *is_walkable),
            c < nodes@.len(),
            rev@.len() >= 1,
            rev@[0] == goal,
            !done ==> rev@[rev@.len() - 1] == nodes@[c as int].pos,
            done ==> rev@[rev@.len() - 1] == start,
            !done ==> nodes@[c as int].pos != start,
            !done ==> rev@.len() + nodes@[c as int].g == nodes@[cur as int].g + 1,
            done ==> rev@.len() == nodes@[cur as int].g + 1,
            forall|i: int| 0 <= i < rev@.len() - 1 ==> adjacent(#[trigger] rev@[i], rev@[i + 1]),
            forall|i: int| 0 <= i < rev@.len() ==> is_walkable.ensures((#[trigger] rev@[i],), true),
        decreases (if done {
            0
        } else {
            nodes@[c as int].g + 1
        }),
    {
        proof {
            assert(nodes@[c as int].g >= 0);
            assert(is_walkable.ensures((nodes@[c as int].pos,), true));
        }
        if nodes[c].has_parent {
            let p = nodes[c].parent;
            let ghost r_b = rev@;
            rev.push(nodes[p].pos);
            proof {
                assert(adjacent(nodes@[c as int].pos, nodes@[p as int].pos));
                assert(is_walkable.ensures((nodes@[p as int].pos,), true));
                assert forall|i: int| 0 <= i < rev@.len() - 1 implies adjacent(#[trigger] rev@[i], rev@[i + 1]) by {
                    if i < r_b.len() - 1 {
                        assert(rev@[i] == r_b[i] && rev@[i + 1] == r_b[i + 1]);
                    }
                }
                assert forall|i: int| 0 <= i < rev@.len() implies is_walkable.ensures((#[trigger] rev@[i],), true) by {
                    if i < r_b.len() {
                        assert(rev@[i] == r_b[i]);
                    }
                }
            }
            if nodes[p].pos == start {
                done = true;
            } else {
                c = p;
            }
        } else {
            done = true;
        }
    }
    let mut path: Vec<GridPos> = Vec::new();
    let mut i: usize = rev.len();
    while i > 0
        invariant
            i <= rev@.len(),
            path@.len() == rev@.len() - i,
            forall|k: int| 0 <= k < path@.len() ==> #[trigger] path@[k] == rev@[rev@.len() - 1 - k],
        decreases i,
    {
        i = i - 1;
        path.push(rev[i]);
    }
    proof {
        let n = rev@.len() as int;
        assert forall|k: int| 0 <= k < path@.len() - 1 implies adjacent(#[trigger] path@[k], path@[k + 1]) by {
            assert(path@[k] == rev@[n - 1 - k]);
            assert(path@[k + 1] == rev@[n - 1 - (k + 1)]);
            assert(adjacent(rev@[n - 2 - k], rev@[n - 2 - k + 1]));
        }
        assert forall|k: int| 0 <= k < path@.len() implies is_walkable.ensures((#[trigger] path@[k],), true) by {
            assert(path@[k] == rev@[n - 1 - k]);
        }
        assert(path@[0] == rev@[n - 1]);
        assert(path@[n - 1] == rev@[0]);
    }
    path
}

#[verifier::spinoff_prover]
proof fn lemma_close_keeps_records<F: Fn(GridPos) -> bool>(
    ns_b: Seq<NodeRec>,
    ns: Seq<NodeRec>,
    cur: int,
    start: GridPos,
    walkable: F,
)
    requires
        records_ok(ns_b, start, walkable),
        0 <= cur < ns_b.len(),
        ns == ns_b.update(cur, NodeRec { closed: true, ..ns_b[cur] }),
    ensures
        records_ok(ns, start, walkable),
        forall|i: int| 0 <= i < ns.len() ==> #[trigger] ns[i].pos == ns_b[i].pos,
{
    assert forall|i: int| 0 <= i < ns.len() implies #[trigger] ns[i].pos == ns_b[i].pos by {
    }
    assert forall|i: int, j: int| 0 <= i < j < ns.len() implies (#[trigger] ns[i]).pos != (#[trigger] ns[j]).pos by {
        assert(ns_b[i].pos != ns_b[j].pos);
    }
    assert forall|i: int| 0 <= i < ns.len() && (#[trigger] ns[i]).has_parent implies {
        let p = ns[i].parent as int;
        &&& 0 <= p < ns.len()
        &&& ns[p].closed
        &&& ns[p].g + 1 == ns[i].g
        &&& adjacent(ns[i].pos, ns[p].pos)
    } by {
        assert(ns_b[i].has_parent);
    }
    assert forall|i: int| 0 <= i < ns.len() implies walkable.ensures(((#[trigger] ns[i]).pos,), true) by {
        assert(walkable.ensures((ns_b[i].pos,), true));
    }
    assert forall|i: int| 0 <= i < ns.len() implies (#[trigger] ns[i]).g >= 0 by {
        assert(ns_b[i].g >= 0);
    }
    assert forall|i: int| 0 < i < ns.len() implies (#[trigger] ns[i]).has_parent by {
        assert(ns_b[i].has_parent);
    }
}

proof fn lemma_relax_keeps_records<F: Fn(GridPos) -> bool>(
    ns_b: Seq<NodeRec>,
    ns: Seq<NodeRec>,
    idx: int,
    fresh: NodeRec,
    cur: int,
    start: GridPos,
    walkable: F,
)
    requires
        records_ok(ns_b, start, walkable),
        0 <= cur < ns_b.len(),
        ns_b[cur].closed,
        fresh.has_parent,
        fresh.parent == cur,
        !fresh.closed,
        fresh.g == ns_b[cur].g + 1,
        adjacent(fresh.pos, ns_b[cur].pos),
        walkable.ensures((fresh.pos,), true),
        0 <= idx <= ns_b.len(),
        idx <= usize::MAX,
        idx < ns_b.len() ==> ns == ns_b.update(idx, fresh) && ns_b[idx].pos == fresh.pos
            && !ns_b[idx].closed && fresh.g < ns_b[idx].g,
        idx == ns_b.len() ==> ns == ns_b.push(fresh) && forall|i: int|
            0 <= i < ns_b.len() ==> (#[trigger] ns_b[i]).pos != fresh.pos,
    ensures
        records_ok(ns, start, walkable),
        forall|i: int| 0 <= i < ns_b.len() ==> #[trigger] ns[i].pos == ns_b[i].pos,
        0 <= idx < ns.len() && ns[idx].pos == fresh.pos,
{
    assert(idx != 0) by {
        if idx == 0 {
            assert(ns_b[0].g == 0);
        }
    }
    assert forall|i: int| 0 <= i < ns_b.len() implies #[trigger] ns[i].pos == ns_b[i].pos by {
        if idx < ns_b.len() {
            if i == idx {
                assert(ns[i] == fresh);
            } else {
                assert(ns[i] == ns_b[i]);
            }
        } else {
            assert(ns[i] == ns_b[i]);
        }
    }
    assert forall|i: int, j: int| 0 <= i < j < ns.len() implies (#[trigger] ns[i]).pos != (#[trigger] ns[j]).pos by {
        if j < ns_b.len() {
            assert(ns[i].pos == ns_b[i].pos && ns[j].pos == ns_b[j].pos);
            assert(ns_b[i].pos != ns_b[j].pos);
        } else {
            assert(ns[i] == ns_b[i] && ns[j] == fresh);
            assert(ns_b[i].pos != fresh.pos);
        }
    }
    assert forall|i: int| 0 <= i < ns.len() && (#[trigger] ns[i]).has_parent implies {
        let p = ns[i].parent as int;
        &&& 0 <= p < ns.len()
        &&& ns[p].closed
        &&& ns[p].g + 1 == ns[i].g
        &&& adjacent(ns[i].pos, ns[p].pos)
    } by {
        assert(cur != idx);
        if i == idx {
            assert(ns[cur] == ns_b[cur]);
        } else {
            assert(ns[i] == ns_b[i]);
            assert(ns_b[i].has_parent);
            let p = ns_b[i].parent as int;
            assert(ns_b[p].closed);
            assert(p != idx);
            assert(ns[p] == ns_b[p]);
        }
    }
    assert forall|i: int| 0 <= i < ns.len() implies walkable.ensures(((#[trigger] ns[i]).pos,), true) by {
        if i != idx {
            assert(ns[i] == ns_b[i]);
        }
    }
    assert forall|i: int| 0 <= i < ns.len() implies (#[trigger] ns[i]).g >= 0 by {
        if i != idx {
            assert(ns[i] == ns_b[i]);
        } else {
            assert(ns_b[cur].g >= 0);
        }
    }
    assert forall|i: int| 0 < i < ns.len() implies (#[trigger] ns[i]).has_parent by {
        if i != idx {
            assert(ns[i] == ns_b[i]);
        }
    }
}

} // verus!
