//! Move legality: the shortest way for a circle from its cell to an empty
//! cell, through empty cells only.

use std::collections::VecDeque;
use vstd::prelude::*;
use vstd::set_lib::{lemma_int_range, lemma_len_subset, set_int_range};
use crate::common::{cell_index, is_free, on_board, Grid, CELL_COUNT, FIELD_SIZE};
use crate::game_state::GameState;
use crate::table::{table_at, table_get, table_new, table_shaped, table_store};

verus! {

/// Whether a circle that starts at `from` may stand on the cell at `pos`: the cell is on the
/// board and is empty, or is the start itself, which the circle leaves behind.
pub open spec fn passable(g: Grid, from: (usize, usize), pos: (usize, usize)) -> bool {
    on_board(pos) && (pos == from || is_free(g, pos))
}

/// Whether two cells share an edge.
pub open spec fn adjacent(a: (usize, usize), b: (usize, usize)) -> bool {
    ||| (a.1 == b.1 && (a.0 + 1 == b.0 || b.0 + 1 == a.0))
    ||| (a.0 == b.0 && (a.1 + 1 == b.1 || b.1 + 1 == a.1))
}

/// Whether the cells at `i` and `i + 1` of `path` share an edge.
pub open spec fn step_ok(path: Seq<(usize, usize)>, i: int) -> bool {
    adjacent(path[i], path[i + 1])
}

/// Whether `path` is a way for the circle at `from` to the cell at `to`, listed from `to` back
/// to `from`: it starts at `to`, ends at `from`, every cell of it is passable and each cell
/// shares an edge with the next.
pub open spec fn is_route(
    g: Grid,
    from: (usize, usize),
    to: (usize, usize),
    path: Seq<(usize, usize)>,
) -> bool {
    &&& path.len() >= 1
    &&& path[0] == to
    &&& path[path.len() - 1] == from
    &&& forall|i: int| 0 <= i < path.len() ==> passable(g, from, #[trigger] path[i])
    &&& forall|i: int| 0 <= i < path.len() - 1 ==> #[trigger] step_ok(path, i)
}

/// Whether the circle at `from` can get to the cell at `to`.
pub open spec fn reachable(g: Grid, from: (usize, usize), to: (usize, usize)) -> bool {
    exists|path: Seq<(usize, usize)>| is_route(g, from, to, path)
}

/// The direction of the step from the cell at `a` to the adjacent cell at `b`: the `k` with
/// `neighbor(a, k) == Some(b)`.
pub open spec fn direction(a: (usize, usize), b: (usize, usize)) -> int {
    if b.0 + 1 == a.0 {
        0
    } else if a.0 + 1 == b.0 {
        1
    } else if b.1 + 1 == a.1 {
        2
    } else {
        3
    }
}

/// The directions of the first `path.len() - 1 - i` steps of the circle on its way along
/// `path`, that is from the last cell of `path`, where it starts, to the cell at `i`.
pub open spec fn steps_to(path: Seq<(usize, usize)>, i: int) -> Seq<int> {
    Seq::new(
        (path.len() - 1 - i) as nat,
        |j: int| direction(path[path.len() - 1 - j], path[path.len() - 2 - j]),
    )
}

/// The directions of the steps of the circle on its way along `path`, from its start, which
/// `path` lists last, to its goal, which `path` lists first.
pub open spec fn route_steps(path: Seq<(usize, usize)>) -> Seq<int> {
    steps_to(path, 0)
}

/// Whether `a` and `b` agree on their first `i` steps and `a` then takes the direction that
/// the search tries sooner.
pub open spec fn parts_at(a: Seq<int>, b: Seq<int>, i: int) -> bool {
    &&& 0 <= i < a.len()
    &&& i < b.len()
    &&& a[i] < b[i]
    &&& forall|j: int| 0 <= j < i ==> a[j] == b[j]
}

/// Whether the steps `a` come before the steps `b` in the order of the search: where the two
/// first part, `a` takes the direction that the search tries sooner.
pub open spec fn steps_before(a: Seq<int>, b: Seq<int>) -> bool {
    exists|i: int| #[trigger] parts_at(a, b, i)
}

/// Whether `path` is the way that the search finds for the circle at `from` to the cell at
/// `to`: it is a route, no route is shorter, and every other route of its length takes steps
/// that come after its own.
pub open spec fn is_found_path(
    g: Grid,
    from: (usize, usize),
    to: (usize, usize),
    path: Seq<(usize, usize)>,
) -> bool {
    &&& is_route(g, from, to, path)
    &&& forall|other: Seq<(usize, usize)>|
        #[trigger] is_route(g, from, to, other) ==> path.len() <= other.len()
    &&& forall|other: Seq<(usize, usize)>|
        #[trigger] is_route(g, from, to, other) && other.len() == path.len() && other != path
            ==> steps_before(route_steps(path), route_steps(other))
}

/// The neighbour of `pos` in direction `k`, if it is on the board.  The directions are, in the
/// order in which the search tries them: up, down, left, right.
pub open spec fn neighbor(pos: (usize, usize), k: int) -> Option<(usize, usize)> {
    if k == 0 {
        if pos.0 >= 1 {
            Some(((pos.0 - 1) as usize, pos.1))
        } else {
            None
        }
    } else if k == 1 {
        if pos.0 + 1 < FIELD_SIZE {
            Some(((pos.0 + 1) as usize, pos.1))
        } else {
            None
        }
    } else if k == 2 {
        if pos.1 >= 1 {
            Some((pos.0, (pos.1 - 1) as usize))
        } else {
            None
        }
    } else if k == 3 {
        if pos.1 + 1 < FIELD_SIZE {
            Some((pos.0, (pos.1 + 1) as usize))
        } else {
            None
        }
    } else {
        None
    }
}

/// Mark of a cell that the search has not come to.
pub const UNSEEN: usize = CELL_COUNT;

/// Computes the neighbour of `pos` in direction `k`.
fn step(pos: (usize, usize), k: usize) -> (next: Option<(usize, usize)>)
    requires
        on_board(pos),
    ensures
        next == neighbor(pos, k as int),
        next matches Some(w) ==> on_board(w) && adjacent(pos, w),
{
    if k == 0 {
        if pos.0 >= 1 {
            Some((pos.0 - 1, pos.1))
        } else {
            None
        }
    } else if k == 1 {
        if pos.0 + 1 < FIELD_SIZE {
            Some((pos.0 + 1, pos.1))
        } else {
            None
        }
    } else if k == 2 {
        if pos.1 >= 1 {
            Some((pos.0, pos.1 - 1))
        } else {
            None
        }
    } else if k == 3 {
        if pos.1 + 1 < FIELD_SIZE {
            Some((pos.0, pos.1 + 1))
        } else {
            None
        }
    } else {
        None
    }
}

/// A cell that shares an edge with `pos` is its neighbour in one of the four directions.
proof fn lemma_adjacent_is_neighbor(pos: (usize, usize), other: (usize, usize))
    requires
        on_board(pos),
        on_board(other),
        adjacent(other, pos),
    ensures
        exists|k: int| 0 <= k < 4 && #[trigger] neighbor(pos, k) == Some(other),
{
    if other.1 == pos.1 && other.0 + 1 == pos.0 {
        assert(neighbor(pos, 0) == Some(other));
    } else if other.1 == pos.1 && pos.0 + 1 == other.0 {
        assert(neighbor(pos, 1) == Some(other));
    } else if other.0 == pos.0 && other.1 + 1 == pos.1 {
        assert(neighbor(pos, 2) == Some(other));
    } else {
        assert(neighbor(pos, 3) == Some(other));
    }
}

/// Pairwise distinct cells of the board are at most as many as the board has cells.
proof fn lemma_distinct_cells(s: Seq<(usize, usize)>)
    requires
        forall|i: int| 0 <= i < s.len() ==> on_board(#[trigger] s[i]),
        forall|i: int, j: int| 0 <= i < j < s.len() ==> #[trigger] s[i] != #[trigger] s[j],
    ensures
        s.len() <= CELL_COUNT,
{
    let t = Seq::new(s.len(), |i: int| cell_index(s[i]));
    assert forall|i: int, j: int| 0 <= i < t.len() && 0 <= j < t.len() && i != j implies t[i]
        != t[j] by {
        assert(on_board(s[i]) && on_board(s[j]));
        if i < j {
            assert(s[i] != s[j]);
        } else {
            assert(s[j] != s[i]);
        }
    }
    assert(t.no_duplicates());
    t.unique_seq_to_set();
    lemma_int_range(0, CELL_COUNT as int);
    assert forall|x: int| t.to_set().contains(x) implies set_int_range(
        0,
        CELL_COUNT as int,
    ).contains(x) by {
        let i = choose|i: int| 0 <= i < t.len() && t[i] == x;
        assert(on_board(s[i]));
    }
    assert(t.to_set().subset_of(set_int_range(0, CELL_COUNT as int)));
    lemma_len_subset(t.to_set(), set_int_range(0, CELL_COUNT as int));
}

/// Two cells next to `u` in the same direction are one cell.
proof fn lemma_direction_fixes_cell(u: (usize, usize), x: (usize, usize), y: (usize, usize))
    requires
        adjacent(u, x),
        adjacent(u, y),
        direction(u, x) == direction(u, y),
    ensures
        x == y,
{
}

/// The order of steps is transitive.
proof fn lemma_steps_before_trans(a: Seq<int>, b: Seq<int>, c: Seq<int>)
    requires
        steps_before(a, b),
        steps_before(b, c),
    ensures
        steps_before(a, c),
{
    let i1 = choose|i: int| #[trigger] parts_at(a, b, i);
    let i2 = choose|i: int| #[trigger] parts_at(b, c, i);
    let m = if i1 <= i2 {
        i1
    } else {
        i2
    };
    assert(parts_at(a, c, m));
}

/// Steps that come before others still do when both go on by one step.
proof fn lemma_steps_before_push(a: Seq<int>, b: Seq<int>, x: int, y: int)
    requires
        steps_before(a, b),
    ensures
        steps_before(a.push(x), b.push(y)),
{
    let i = choose|i: int| #[trigger] parts_at(a, b, i);
    assert(parts_at(a.push(x), b.push(y), i));
}

/// Of two ways that part at their last step, the one with the sooner direction comes first.
proof fn lemma_steps_before_last(a: Seq<int>, x: int, y: int)
    requires
        x < y,
    ensures
        steps_before(a.push(x), a.push(y)),
{
    assert(parts_at(a.push(x), a.push(y), a.len() as int));
}

/// At most one way is the way that the search finds.
pub proof fn lemma_found_path_unique(
    g: Grid,
    from: (usize, usize),
    to: (usize, usize),
    a: Seq<(usize, usize)>,
    b: Seq<(usize, usize)>,
)
    requires
        is_found_path(g, from, to, a),
        is_found_path(g, from, to, b),
    ensures
        a == b,
{
    if a != b {
        assert(a.len() == b.len());
        lemma_steps_before_trans(route_steps(a), route_steps(b), route_steps(a));
        let i = choose|i: int| #[trigger] parts_at(route_steps(a), route_steps(a), i);
    }
}

/// Whether the search has come to the cell at `v`.
spec fn seen(d: Vec<Vec<usize>>, v: (usize, usize)) -> bool {
    table_at(d, v) != UNSEEN
}

/// Whether the search has dealt with the neighbour of `u` in direction `k`: if a circle may
/// stand there, the search has come to it, at most one step later than to `u`.
spec fn handled(
    g: Grid,
    from: (usize, usize),
    d: Vec<Vec<usize>>,
    u: (usize, usize),
    k: int,
) -> bool {
    match neighbor(u, k) {
        Some(w) => passable(g, from, w) ==> seen(d, w) && table_at(d, w) <= table_at(d, u) + 1,
        None => true,
    }
}

/// The places of the cells after the cell at `w` has taken place `n`.
spec fn rank_with(rank: spec_fn((usize, usize)) -> int, w: (usize, usize), n: int) -> spec_fn(
    (usize, usize),
) -> int {
    |x: (usize, usize)|
        if x == w {
            n
        } else {
            rank(x)
        }
}

/// The steps to the cells after the search has come to the cell at `w` by the steps `s`.
spec fn key_with(
    key: spec_fn((usize, usize)) -> Seq<int>,
    w: (usize, usize),
    s: Seq<int>,
) -> spec_fn((usize, usize)) -> Seq<int> {
    |x: (usize, usize)|
        if x == w {
            s
        } else {
            key(x)
        }
}

/// What holds of the search between two steps.  `order` lists the cells in the order in which
/// the search came to them.  The first `head` of them have had all their neighbours tried, and
/// the next one those in the first `tried` directions.  `rank` gives each cell its place in
/// `order`, and `key` the steps by which the search came to it.
spec fn search_inv(
    g: Grid,
    from: (usize, usize),
    d: Vec<Vec<usize>>,
    p: Vec<Vec<(usize, usize)>>,
    order: Seq<(usize, usize)>,
    head: int,
    tried: int,
    rank: spec_fn((usize, usize)) -> int,
    key: spec_fn((usize, usize)) -> Seq<int>,
) -> bool {
    &&& table_shaped(d)
    &&& table_shaped(p)
    &&& on_board(from)
    &&& 1 <= order.len() <= CELL_COUNT
    &&& 0 <= head <= order.len()
    &&& order[0] == from
    &&& table_at(d, from) == 0
    &&& table_at(p, from) == (UNSEEN, UNSEEN)
    &&& key(from).len() == 0
    &&& forall|i: int|
        0 <= i < order.len() ==> {
            let v = #[trigger] order[i];
            on_board(v) && passable(g, from, v) && table_at(d, v) <= i && rank(v) == i
        }
    &&& forall|v: (usize, usize)|
        on_board(v) && #[trigger] seen(d, v) ==> 0 <= rank(v) < order.len() && order[rank(v)] == v
            && key(v).len() == table_at(d, v)
    &&& forall|v: (usize, usize)|
        on_board(v) && #[trigger] seen(d, v) && v != from ==> {
            let u = table_at(p, v);
            &&& on_board(u)
            &&& seen(d, u)
            &&& adjacent(u, v)
            &&& table_at(d, v) == table_at(d, u) + 1
            &&& key(v) == key(u).push(direction(u, v))
            &&& rank(u) < head || (rank(u) == head && direction(u, v) < tried)
        }
    &&& forall|v: (usize, usize), i: int|
        on_board(v) && #[trigger] seen(d, v) && v != from && 0 <= i < rank(table_at(p, v))
            ==> !adjacent(#[trigger] order[i], v)
    &&& forall|i: int, j: int|
        head <= i <= j < order.len() ==> table_at(d, #[trigger] order[i]) <= table_at(
            d,
            #[trigger] order[j],
        )
    &&& forall|i: int, j: int|
        0 <= i < j < order.len() && table_at(d, #[trigger] order[i]) == table_at(
            d,
            #[trigger] order[j],
        ) ==> steps_before(key(order[i]), key(order[j]))
    &&& head < order.len() ==> forall|v: (usize, usize)|
        on_board(v) && #[trigger] seen(d, v) ==> table_at(d, v) <= table_at(d, order[head]) + 1
    &&& forall|v: (usize, usize), k: int|
        on_board(v) && seen(d, v) && rank(v) < head && 0 <= k < 4 ==> #[trigger] handled(
            g,
            from,
            d,
            v,
            k,
        )
}

/// The search comes to the unseen empty cell `w`, the neighbour in direction `k` of the cell
/// `cur` that it is working on.
proof fn lemma_visit(
    g: Grid,
    from: (usize, usize),
    d0: Vec<Vec<usize>>,
    p0: Vec<Vec<(usize, usize)>>,
    d1: Vec<Vec<usize>>,
    p1: Vec<Vec<(usize, usize)>>,
    order: Seq<(usize, usize)>,
    head: int,
    rank: spec_fn((usize, usize)) -> int,
    key: spec_fn((usize, usize)) -> Seq<int>,
    cur: (usize, usize),
    w: (usize, usize),
    k: int,
)
    requires
        search_inv(g, from, d0, p0, order, head, k, rank, key),
        head < order.len(),
        cur == order[head],
        0 <= k < 4,
        neighbor(cur, k) == Some(w),
        on_board(w),
        is_free(g, w),
        !seen(d0, w),
        table_shaped(d1),
        table_shaped(p1),
        table_at(d1, w) == table_at(d0, cur) + 1,
        table_at(p1, w) == cur,
        forall|q: (usize, usize)|
            on_board(q) && q != w ==> #[trigger] table_at(d1, q) == table_at(d0, q),
        forall|q: (usize, usize)|
            on_board(q) && q != w ==> #[trigger] table_at(p1, q) == table_at(p0, q),
        forall|j: int| 0 <= j < k ==> #[trigger] handled(g, from, d0, cur, j),
    ensures
        search_inv(
            g,
            from,
            d1,
            p1,
            order.push(w),
            head,
            k + 1,
            rank_with(rank, w, order.len() as int),
            key_with(key, w, key(cur).push(k)),
        ),
        forall|j: int| 0 <= j <= k ==> #[trigger] handled(g, from, d1, cur, j),
{
    let order1 = order.push(w);
    let n = order.len() as int;
    let rank1 = rank_with(rank, w, n);
    let key1 = key_with(key, w, key(cur).push(k));
    assert(on_board(cur) && seen(d0, cur) && table_at(d0, cur) <= head);
    assert(cur != w);
    assert(adjacent(cur, w));
    assert(direction(cur, w) == k);
    assert(rank(cur) == head);
    assert forall|i: int| 0 <= i < n implies order[i] != w && seen(d0, #[trigger] order[i]) by {}
    assert forall|i: int, j: int| 0 <= i < j < order1.len() implies #[trigger] order1[i]
        != #[trigger] order1[j] by {
        if j < n {
            assert(rank(order[i]) == i && rank(order[j]) == j);
        }
    }
    assert forall|i: int| 0 <= i < order1.len() implies on_board(#[trigger] order1[i]) by {
        if i < n {
            assert(on_board(order[i]));
        }
    }
    lemma_distinct_cells(order1);
    assert forall|v: (usize, usize)| on_board(v) && seen(d1, v) && v != w implies seen(d0, v) by {
        assert(table_at(d1, v) == table_at(d0, v));
    }
    assert forall|v: (usize, usize)| on_board(v) && seen(d0, v) implies seen(d1, v) && table_at(
        d1,
        v,
    ) == table_at(d0, v) && table_at(p1, v) == table_at(p0, v) && v != w by {
        assert(table_at(d1, v) == table_at(d0, v));
        assert(table_at(p1, v) == table_at(p0, v));
    }
    assert(table_at(d1, from) == 0 && table_at(p1, from) == (UNSEEN, UNSEEN) && from != w) by {
        assert(seen(d0, from));
    }
    assert forall|i: int| 0 <= i < order1.len() implies ({
        let v = #[trigger] order1[i];
        on_board(v) && passable(g, from, v) && table_at(d1, v) <= i && rank1(v) == i
    }) by {
        if i < n {
            let v = order[i];
            assert(on_board(v) && passable(g, from, v) && table_at(d0, v) <= i && rank(v) == i);
            assert(seen(d0, v));
        }
    }
    assert forall|v: (usize, usize)| on_board(v) && #[trigger] seen(d1, v) implies 0 <= rank1(v)
        < order1.len() && order1[rank1(v)] == v && key1(v).len() == table_at(d1, v) by {
        if v != w {
            assert(seen(d0, v));
            assert(order[rank(v)] == v);
        }
    }
    assert forall|v: (usize, usize)| on_board(v) && #[trigger] seen(d1, v) && v != from implies ({
        let u = table_at(p1, v);
        &&& on_board(u)
        &&& seen(d1, u)
        &&& adjacent(u, v)
        &&& table_at(d1, v) == table_at(d1, u) + 1
        &&& key1(v) == key1(u).push(direction(u, v))
        &&& rank1(u) < head || (rank1(u) == head && direction(u, v) < k + 1)
    }) by {
        if v != w {
            assert(seen(d0, v));
            let u = table_at(p0, v);
            assert(on_board(u) && seen(d0, u));
            assert(u != w);
        }
    }
    assert forall|v: (usize, usize), i: int|
        on_board(v) && #[trigger] seen(d1, v) && v != from && 0 <= i < rank1(
            table_at(p1, v),
        ) implies !adjacent(#[trigger] order1[i], v) by {
        if v != w {
            assert(seen(d0, v));
            let u = table_at(p0, v);
            assert(on_board(u) && seen(d0, u));
            assert(u != w);
            assert(rank(u) < n);
            assert(!adjacent(order[i], v));
        } else {
            let x = order[i];
            assert(i < head);
            assert(on_board(x) && seen(d0, x) && rank(x) == i);
            if adjacent(x, w) {
                lemma_adjacent_is_neighbor(x, w);
                let j = choose|j: int| 0 <= j < 4 && #[trigger] neighbor(x, j) == Some(w);
                assert(handled(g, from, d0, x, j));
                assert(passable(g, from, w));
            }
        }
    }
    assert forall|v: (usize, usize)| on_board(v) && #[trigger] seen(d1, v) implies table_at(d1, v)
        <= table_at(d1, order1[head]) + 1 by {
        if v != w {
            assert(seen(d0, v));
        }
    }
    assert forall|i: int, j: int| head <= i <= j < order1.len() implies table_at(
        d1,
        #[trigger] order1[i],
    ) <= table_at(d1, #[trigger] order1[j]) by {
        if j < n {
            assert(table_at(d0, order[i]) <= table_at(d0, order[j]));
            assert(seen(d0, order[i]) && seen(d0, order[j]));
        } else if i < n {
            assert(seen(d0, order[i]));
        }
    }
    assert forall|i: int, j: int|
        0 <= i < j < order1.len() && table_at(d1, #[trigger] order1[i]) == table_at(
            d1,
            #[trigger] order1[j],
        ) implies steps_before(key1(order1[i]), key1(order1[j])) by {
        let v = order[i];
        assert(seen(d0, v) && on_board(v));
        if j < n {
            assert(seen(d0, order[j]));
            assert(table_at(d0, order[i]) == table_at(d0, order[j]));
            assert(steps_before(key(order[i]), key(order[j])));
        } else {
            assert(table_at(d0, v) == table_at(d0, cur) + 1);
            assert(v != from);
            let u = table_at(p0, v);
            assert(on_board(u) && seen(d0, u));
            assert(key(v) == key(u).push(direction(u, v)));
            assert(order[rank(u)] == u);
            if rank(u) == head {
                assert(u == cur);
                lemma_steps_before_last(key(cur), direction(u, v), k);
            } else {
                assert(rank(u) < head);
                assert(table_at(d0, order[rank(u)]) == table_at(d0, order[head]));
                assert(steps_before(key(order[rank(u)]), key(order[head])));
                lemma_steps_before_push(key(u), key(cur), direction(u, v), k);
            }
        }
    }
    assert forall|v: (usize, usize), j: int|
        on_board(v) && seen(d0, v) && 0 <= j < 4 && handled(
            g,
            from,
            d0,
            v,
            j,
        ) implies #[trigger] handled(g, from, d1, v, j) by {
        match neighbor(v, j) {
            Some(x) => {
                if passable(g, from, x) {
                    assert(seen(d0, x));
                }
            },
            None => {},
        }
    }
    assert forall|v: (usize, usize), j: int|
        on_board(v) && seen(d1, v) && rank1(v) < head && 0 <= j < 4 implies #[trigger] handled(
        g,
        from,
        d1,
        v,
        j,
    ) by {
        assert(v != w);
        assert(seen(d0, v));
        assert(handled(g, from, d0, v, j));
    }
    assert forall|j: int| 0 <= j <= k implies #[trigger] handled(g, from, d1, cur, j) by {
        if j < k {
            assert(handled(g, from, d0, cur, j));
        }
    }
}

/// The search has tried one more direction from the cell that it is working on and has found
/// nothing new there.
proof fn lemma_skip(
    g: Grid,
    from: (usize, usize),
    d: Vec<Vec<usize>>,
    p: Vec<Vec<(usize, usize)>>,
    order: Seq<(usize, usize)>,
    head: int,
    k: int,
    rank: spec_fn((usize, usize)) -> int,
    key: spec_fn((usize, usize)) -> Seq<int>,
)
    requires
        search_inv(g, from, d, p, order, head, k, rank, key),
    ensures
        search_inv(g, from, d, p, order, head, k + 1, rank, key),
{
}

/// The search has tried every direction from the cell at `head` and goes on to the next cell.
proof fn lemma_advance(
    g: Grid,
    from: (usize, usize),
    d: Vec<Vec<usize>>,
    p: Vec<Vec<(usize, usize)>>,
    order: Seq<(usize, usize)>,
    head: int,
    rank: spec_fn((usize, usize)) -> int,
    key: spec_fn((usize, usize)) -> Seq<int>,
)
    requires
        search_inv(g, from, d, p, order, head, 4, rank, key),
        head < order.len(),
        forall|j: int| 0 <= j < 4 ==> #[trigger] handled(g, from, d, order[head], j),
    ensures
        search_inv(g, from, d, p, order, head + 1, 0, rank, key),
{
    assert forall|v: (usize, usize), j: int|
        on_board(v) && seen(d, v) && rank(v) < head + 1 && 0 <= j < 4 implies #[trigger] handled(
        g,
        from,
        d,
        v,
        j,
    ) by {
        if rank(v) == head {
            assert(order[rank(v)] == v);
        }
    }
    if head + 1 < order.len() {
        assert(table_at(d, order[head]) <= table_at(d, order[head + 1]));
    }
}

/// What a finished search knows: the invariant holds with every cell done.
spec fn search_done(
    g: Grid,
    from: (usize, usize),
    d: Vec<Vec<usize>>,
    p: Vec<Vec<(usize, usize)>>,
    order: Seq<(usize, usize)>,
    rank: spec_fn((usize, usize)) -> int,
    key: spec_fn((usize, usize)) -> Seq<int>,
) -> bool {
    search_inv(g, from, d, p, order, order.len() as int, 0, rank, key)
}

/// What the walk back from the goal needs of a finished search: every cell that the search
/// came to is passable and, unless it is the start, has a cell before it that the search came
/// to one step sooner.
spec fn trail_inv(
    g: Grid,
    from: (usize, usize),
    d: Vec<Vec<usize>>,
    p: Vec<Vec<(usize, usize)>>,
    key: spec_fn((usize, usize)) -> Seq<int>,
) -> bool {
    &&& table_shaped(d)
    &&& table_shaped(p)
    &&& on_board(from)
    &&& table_at(d, from) == 0
    &&& table_at(p, from) == (UNSEEN, UNSEEN)
    &&& key(from).len() == 0
    &&& forall|v: (usize, usize)| on_board(v) && #[trigger] seen(d, v) ==> passable(g, from, v)
    &&& forall|v: (usize, usize)|
        on_board(v) && #[trigger] seen(d, v) && v != from ==> {
            let u = table_at(p, v);
            &&& on_board(u)
            &&& seen(d, u)
            &&& adjacent(u, v)
            &&& table_at(d, v) == table_at(d, u) + 1
            &&& key(v) == key(u).push(direction(u, v))
        }
}

/// What a finished search knows of the neighbours of the cells that it came to: each of them
/// that a circle may stand on was seen, at most one step later.
spec fn closed_inv(g: Grid, from: (usize, usize), d: Vec<Vec<usize>>) -> bool {
    &&& on_board(from)
    &&& table_at(d, from) == 0
    &&& forall|v: (usize, usize), k: int|
        on_board(v) && seen(d, v) && 0 <= k < 4 ==> #[trigger] handled(g, from, d, v, k)
}

/// What a finished search knows of the order in which it came to the cells: no cell that it
/// came to sooner than to the cell before `v` is next to `v`, and of two cells as many steps
/// away it came sooner to the one whose steps come first.
spec fn order_inv(
    from: (usize, usize),
    d: Vec<Vec<usize>>,
    p: Vec<Vec<(usize, usize)>>,
    order: Seq<(usize, usize)>,
    rank: spec_fn((usize, usize)) -> int,
    key: spec_fn((usize, usize)) -> Seq<int>,
) -> bool {
    &&& forall|v: (usize, usize)|
        on_board(v) && #[trigger] seen(d, v) ==> 0 <= rank(v) < order.len() && order[rank(v)] == v
    &&& forall|v: (usize, usize), i: int|
        on_board(v) && #[trigger] seen(d, v) && v != from && 0 <= i < rank(table_at(p, v))
            ==> !adjacent(#[trigger] order[i], v)
    &&& forall|i: int, j: int|
        0 <= i < j < order.len() && table_at(d, #[trigger] order[i]) == table_at(
            d,
            #[trigger] order[j],
        ) ==> steps_before(key(order[i]), key(order[j]))
}

/// A finished search leaves a trail to walk back on, has dealt with every neighbour and has
/// kept its order.
proof fn lemma_finish(
    g: Grid,
    from: (usize, usize),
    d: Vec<Vec<usize>>,
    p: Vec<Vec<(usize, usize)>>,
    order: Seq<(usize, usize)>,
    rank: spec_fn((usize, usize)) -> int,
    key: spec_fn((usize, usize)) -> Seq<int>,
)
    requires
        search_done(g, from, d, p, order, rank, key),
    ensures
        trail_inv(g, from, d, p, key),
        closed_inv(g, from, d),
        order_inv(from, d, p, order, rank, key),
{
    assert forall|v: (usize, usize)| on_board(v) && #[trigger] seen(d, v) implies passable(
        g,
        from,
        v,
    ) by {
        assert(order[rank(v)] == v);
    }
}

/// Whether `path` is a chain of passable cells, each next to the one before, that ends at
/// `from`.
spec fn is_chain(g: Grid, from: (usize, usize), path: Seq<(usize, usize)>) -> bool {
    &&& path.len() >= 1
    &&& path[path.len() - 1] == from
    &&& forall|j: int| 0 <= j < path.len() ==> passable(g, from, #[trigger] path[j])
    &&& forall|j: int| 0 <= j < path.len() - 1 ==> #[trigger] step_ok(path, j)
}

/// On a finished search every route costs at least as many steps as the search took: the cell
/// at `i` of a chain was seen after at most as many steps as the chain has from its end to
/// there.
proof fn lemma_route_bound(
    g: Grid,
    from: (usize, usize),
    d: Vec<Vec<usize>>,
    path: Seq<(usize, usize)>,
    i: int,
)
    requires
        closed_inv(g, from, d),
        is_chain(g, from, path),
        0 <= i < path.len(),
    ensures
        seen(d, path[i]),
        table_at(d, path[i]) <= path.len() - 1 - i,
        i < path.len() - 1 ==> table_at(d, path[i]) <= table_at(d, path[i + 1]) + 1,
    decreases path.len() - i,
{
    if i < path.len() - 1 {
        lemma_route_bound(g, from, d, path, i + 1);
        let u = path[i + 1];
        let v = path[i];
        assert(step_ok(path, i));
        assert(passable(g, from, u) && passable(g, from, v));
        lemma_adjacent_is_neighbor(u, v);
        let k = choose|k: int| 0 <= k < 4 && #[trigger] neighbor(u, k) == Some(v);
        assert(handled(g, from, d, u, k));
    }
}

/// The steps to the cell at `i` of a chain are those to the cell after it and one more.
proof fn lemma_steps_to_push(path: Seq<(usize, usize)>, i: int)
    requires
        0 <= i < path.len() - 1,
    ensures
        steps_to(path, i) == steps_to(path, i + 1).push(direction(path[i + 1], path[i])),
{
    assert(steps_to(path, i) =~= steps_to(path, i + 1).push(direction(path[i + 1], path[i])));
}

/// One step of the comparison: `v` is a cell that the search came to from `u`, and `x` is a
/// cell next to `v` that the search came to in as many steps as to `u`.  Steps `t` that the
/// steps of the search to `x` equal or come before, continued by the step from `x` to `v`,
/// are the steps of the search to `v` or come after them.
proof fn lemma_order_step(
    g: Grid,
    from: (usize, usize),
    d: Vec<Vec<usize>>,
    p: Vec<Vec<(usize, usize)>>,
    order: Seq<(usize, usize)>,
    rank: spec_fn((usize, usize)) -> int,
    key: spec_fn((usize, usize)) -> Seq<int>,
    v: (usize, usize),
    x: (usize, usize),
    t: Seq<int>,
)
    requires
        trail_inv(g, from, d, p, key),
        order_inv(from, d, p, order, rank, key),
        on_board(v),
        seen(d, v),
        v != from,
        on_board(x),
        seen(d, x),
        adjacent(x, v),
        table_at(d, v) == table_at(d, x) + 1,
        key(x) == t || steps_before(key(x), t),
    ensures
        key(v) == t.push(direction(x, v)) || steps_before(key(v), t.push(direction(x, v))),
{
    let u = table_at(p, v);
    assert(on_board(u) && seen(d, u) && adjacent(u, v));
    assert(key(v) == key(u).push(direction(u, v)));
    assert(order[rank(u)] == u && order[rank(x)] == x);
    assert(0 <= rank(u) < order.len() && 0 <= rank(x) < order.len());
    if rank(x) < rank(u) {
        assert(!adjacent(order[rank(x)], v));
    }
    if rank(u) == rank(x) {
        assert(u == x);
        if key(x) != t {
            lemma_steps_before_push(key(x), t, direction(x, v), direction(x, v));
        }
    } else {
        assert(rank(u) < rank(x));
        assert(table_at(d, order[rank(u)]) == table_at(d, order[rank(x)]));
        assert(steps_before(key(order[rank(u)]), key(order[rank(x)])));
        if key(x) != t {
            lemma_steps_before_trans(key(u), key(x), t);
        }
        lemma_steps_before_push(key(u), t, direction(u, v), direction(x, v));
    }
}

/// On a finished search, a chain that gets to its cell at `i` in as few steps as the search
/// did takes the steps of the search or steps that come after them.
proof fn lemma_route_order(
    g: Grid,
    from: (usize, usize),
    d: Vec<Vec<usize>>,
    p: Vec<Vec<(usize, usize)>>,
    order: Seq<(usize, usize)>,
    rank: spec_fn((usize, usize)) -> int,
    key: spec_fn((usize, usize)) -> Seq<int>,
    path: Seq<(usize, usize)>,
    i: int,
)
    requires
        trail_inv(g, from, d, p, key),
        closed_inv(g, from, d),
        order_inv(from, d, p, order, rank, key),
        is_chain(g, from, path),
        0 <= i < path.len(),
        table_at(d, path[i]) == path.len() - 1 - i,
    ensures
        key(path[i]) == steps_to(path, i) || steps_before(key(path[i]), steps_to(path, i)),
    decreases path.len() - i,
{
    let v = path[i];
    lemma_route_bound(g, from, d, path, i);
    if i == path.len() - 1 {
        assert(key(v) =~= steps_to(path, i));
    } else {
        let x = path[i + 1];
        lemma_route_bound(g, from, d, path, i + 1);
        lemma_route_order(g, from, d, p, order, rank, key, path, i + 1);
        lemma_steps_to_push(path, i);
        assert(step_ok(path, i));
        assert(passable(g, from, v) && passable(g, from, x));
        lemma_order_step(g, from, d, p, order, rank, key, v, x, steps_to(path, i + 1));
    }
}

/// Whether the steps of the search to the cell at `i` of `path` are those to the cell after it
/// and the step between the two.
spec fn key_link(key: spec_fn((usize, usize)) -> Seq<int>, path: Seq<(usize, usize)>, i: int) -> bool {
    key(path[i]) == key(path[i + 1]).push(direction(path[i + 1], path[i]))
}

/// A chain that follows the search back from a cell takes the steps of the search.
proof fn lemma_key_is_steps(
    key: spec_fn((usize, usize)) -> Seq<int>,
    path: Seq<(usize, usize)>,
    i: int,
)
    requires
        path.len() >= 1,
        key(path[path.len() - 1]).len() == 0,
        forall|j: int| 0 <= j < path.len() - 1 ==> #[trigger] key_link(key, path, j),
        0 <= i < path.len(),
    ensures
        key(path[i]) == steps_to(path, i),
    decreases path.len() - i,
{
    if i == path.len() - 1 {
        assert(key(path[i]) =~= steps_to(path, i));
    } else {
        lemma_key_is_steps(key, path, i + 1);
        lemma_steps_to_push(path, i);
        assert(key_link(key, path, i));
    }
}

/// Two chains of one length that end at one cell and take the same steps are one chain.
proof fn lemma_steps_fix_route(a: Seq<(usize, usize)>, b: Seq<(usize, usize)>, i: int)
    requires
        a.len() == b.len(),
        a.len() >= 1,
        a[a.len() - 1] == b[b.len() - 1],
        forall|j: int| 0 <= j < a.len() - 1 ==> #[trigger] step_ok(a, j),
        forall|j: int| 0 <= j < b.len() - 1 ==> #[trigger] step_ok(b, j),
        route_steps(a) == route_steps(b),
        0 <= i < a.len(),
    ensures
        a[i] == b[i],
    decreases a.len() - i,
{
    if i < a.len() - 1 {
        lemma_steps_fix_route(a, b, i + 1);
        let j = a.len() - 2 - i;
        assert(route_steps(a)[j] == direction(a[i + 1], a[i]));
        assert(route_steps(b)[j] == direction(b[i + 1], b[i]));
        assert(step_ok(a, i) && step_ok(b, i));
        lemma_direction_fixes_cell(a[i + 1], a[i], b[i]);
    }
}

impl GameState {
    /// Finds the way for the circle at `from` to the cell at `to` that a breadth-first search
    /// finds which tries the directions up, down, left, right in this order.
    ///
    /// The way leads over cells that share an edge, and over empty cells only; the cell at
    /// `from` counts as empty whatever it holds.  The result lists the way from `to` back to
    /// `from`, both included, and is `None` exactly if there is no such way.  No way is
    /// shorter than the result, and of the ways of its length it is the one whose steps come
    /// first.
    pub fn find_path(&self, from: (usize, usize), to: (usize, usize)) -> (result: Option<
        Vec<(usize, usize)>,
    >)
        requires
            self.wf(),
            on_board(from),
            on_board(to),
        ensures
            result.is_some() <==> reachable(self@, from, to),
            result matches Some(path) ==> is_route(self@, from, to, path@),
            result matches Some(path) ==> forall|other: Seq<(usize, usize)>|
                is_route(self@, from, to, other) ==> path@.len() <= other.len(),
            result matches Some(path) ==> forall|other: Seq<(usize, usize)>|
                is_route(self@, from, to, other) && other.len() == path@.len() && other != path@
                    ==> steps_before(route_steps(path@), route_steps(other)),
            result matches Some(path) ==> is_found_path(self@, from, to, path@),
    {
        let mut d: Vec<Vec<usize>> = table_new(UNSEEN);
        let mut p: Vec<Vec<(usize, usize)>> = table_new((UNSEEN, UNSEEN));
        table_store(&mut d, from, 0);
        let mut q: VecDeque<(usize, usize)> = VecDeque::new();
        q.push_back(from);
        let ghost mut order: Seq<(usize, usize)> = seq![from];
        let ghost mut head: int = 0;
        let ghost mut rank: spec_fn((usize, usize)) -> int = |x: (usize, usize)| 0int;
        let ghost mut key: spec_fn((usize, usize)) -> Seq<int> = |x: (usize, usize)|
            Seq::<int>::empty();
        proof {
            assert(q@ =~= order.subrange(0, 1));
            assert forall|v: (usize, usize)| on_board(v) && #[trigger] seen(d, v) implies v
                == from by {
                if v != from {
                    assert(table_at(d, v) == UNSEEN);
                }
            }
            assert(table_at(p, from) == (UNSEEN, UNSEEN));
        }
        while q.len() > 0
            invariant
                self.wf(),
                search_inv(self@, from, d, p, order, head, 0, rank, key),
                q@ == order.subrange(head, order.len() as int),
            decreases CELL_COUNT - head,
        {
            let cur = q.pop_front().unwrap();
            proof {
                assert(cur == order[head]);
                assert(on_board(cur) && seen(d, cur));
                assert(q@ =~= order.subrange(head + 1, order.len() as int));
            }
            let mut k: usize = 0;
            while k < 4
                invariant
                    self.wf(),
                    search_inv(self@, from, d, p, order, head, k as int, rank, key),
                    head < order.len(),
                    cur == order[head],
                    on_board(cur),
                    seen(d, cur),
                    q@ == order.subrange(head + 1, order.len() as int),
                    k <= 4,
                    forall|j: int| 0 <= j < k ==> #[trigger] handled(self@, from, d, cur, j),
                decreases 4 - k,
            {
                match step(cur, k) {
                    Some(w) => {
                        if self.get(w).is_empty() && table_get(&d, w) == UNSEEN {
                            let ghost d0 = d;
                            let ghost p0 = p;
                            let steps = table_get(&d, cur);
                            table_store(&mut d, w, steps + 1);
                            table_store(&mut p, w, cur);
                            q.push_back(w);
                            proof {
                                lemma_visit(
                                    self@,
                                    from,
                                    d0,
                                    p0,
                                    d,
                                    p,
                                    order,
                                    head,
                                    rank,
                                    key,
                                    cur,
                                    w,
                                    k as int,
                                );
                                assert(q@ =~= order.push(w).subrange(
                                    head + 1,
                                    order.len() as int + 1,
                                ));
                                rank = rank_with(rank, w, order.len() as int);
                                key = key_with(key, w, key(cur).push(k as int));
                                order = order.push(w);
                            }
                        } else {
                            proof {
                                if passable(self@, from, w) {
                                    assert(seen(d, w));
                                }
                                lemma_skip(self@, from, d, p, order, head, k as int, rank, key);
                            }
                        }
                    },
                    None => {
                        proof {
                            lemma_skip(self@, from, d, p, order, head, k as int, rank, key);
                        }
                    },
                }
                k = k + 1;
            }
            proof {
                lemma_advance(self@, from, d, p, order, head, rank, key);
                head = head + 1;
            }
        }

        proof {
            assert(head == order.len()) by {
                assert(q@.len() == 0);
            }
            lemma_finish(self@, from, d, p, order, rank, key);
        }
        if table_get(&d, to) == UNSEEN {
            proof {
                if reachable(self@, from, to) {
                    let other = choose|other: Seq<(usize, usize)>| is_route(self@, from, to, other);
                    lemma_route_bound(self@, from, d, other, 0);
                }
            }
            return None;
        }
        let mut path: Vec<(usize, usize)> = Vec::new();
        let mut cur = to;
        while cur.0 != UNSEEN || cur.1 != UNSEEN
            invariant
                trail_inv(self@, from, d, p, key),
                on_board(to),
                seen(d, to),
                cur == (UNSEEN, UNSEEN) || (on_board(cur) && seen(d, cur)),
                cur == (UNSEEN, UNSEEN) ==> path@.len() == table_at(d, to) + 1,
                cur != (UNSEEN, UNSEEN) ==> path@.len() + table_at(d, cur) == table_at(d, to),
                path@.len() == 0 ==> cur == to,
                path@.len() > 0 ==> path@[0] == to,
                path@.len() > 0 && cur == (UNSEEN, UNSEEN) ==> path@[path@.len() - 1] == from,
                path@.len() > 0 && cur != (UNSEEN, UNSEEN) ==> adjacent(
                    path@[path@.len() - 1],
                    cur,
                ) && key(path@[path@.len() - 1]) == key(cur).push(
                    direction(cur, path@[path@.len() - 1]),
                ),
                forall|i: int| 0 <= i < path@.len() ==> passable(self@, from, #[trigger] path@[i]),
                forall|i: int| 0 <= i < path@.len() - 1 ==> #[trigger] step_ok(path@, i),
                forall|i: int| 0 <= i < path@.len() - 1 ==> #[trigger] key_link(key, path@, i),
            decreases
                    if cur == (UNSEEN, UNSEEN) {
                        0
                    } else {
                        table_at(d, cur) + 1
                    },
        {
            let ghost before = path@;
            path.push(cur);
            proof {
                assert(passable(self@, from, cur));
                assert forall|i: int| 0 <= i < path@.len() - 1 implies #[trigger] step_ok(
                    path@,
                    i,
                ) by {
                    if i < before.len() - 1 {
                        assert(step_ok(before, i));
                    }
                }
                assert forall|i: int| 0 <= i < path@.len() - 1 implies #[trigger] key_link(
                    key,
                    path@,
                    i,
                ) by {
                    if i < before.len() - 1 {
                        assert(key_link(key, before, i));
                    }
                }
            }
            cur = table_get(&p, cur);
        }
        proof {
            assert(is_route(self@, from, to, path@));
            lemma_key_is_steps(key, path@, 0);
            assert forall|other: Seq<(usize, usize)>|
                is_route(self@, from, to, other) implies path@.len() <= other.len() by {
                lemma_route_bound(self@, from, d, other, 0);
            }
            assert forall|other: Seq<(usize, usize)>|
                is_route(self@, from, to, other) && other.len() == path@.len() && other
                    != path@ implies steps_before(route_steps(path@), route_steps(other)) by {
                lemma_route_order(self@, from, d, p, order, rank, key, other, 0);
                if key(to) == steps_to(other, 0) {
                    assert forall|i: int| 0 <= i < other.len() implies other[i] == path@[i] by {
                        lemma_steps_fix_route(other, path@, i);
                    }
                    assert(other =~= path@);
                }
            }
        }
        Some(path)
    }
}

} // verus!
