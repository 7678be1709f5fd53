//! The shortest-path primitive: breadth-first search on the 8 x 8 board from
//! the snake's head to one food cell, returning the first move of a shortest
//! path (moves tried in the order Up, Left, Down, Right).
use vstd::prelude::*;

use crate::grid::{
    dir_dx, dir_dy, expand, flag, layer_count, layer_is, layer_reaches, lemma_count_grid_le,
    lemma_count_grid_lt, lemma_reach_grows, lemma_stable, on_board, open_cell, reach, reachable,
    square, start_layer, rows, cell_open, step_dx, step_dy, MAX_SIDE,
};

verus! {

/// Side of the board that the path search works on.
pub const PATH_SIDE: usize = 8;

/// Cell `(x, y)` is one of the snake's segments other than the head and the
/// tail; `snake` holds the segments as `x, y` pairs, head first.
pub open spec fn body_blocks(snake: Seq<i32>, x: int, y: int) -> bool {
    exists|s: int|
        1 <= s && 2 * s + 2 < snake.len() && #[trigger] snake[2 * s] == x && snake[2 * s + 1] == y
}

/// Cell `(x, y)` is one of the pairs of `barriers`.
pub open spec fn barrier_blocks(barriers: Seq<i32>, x: int, y: int) -> bool {
    exists|s: int|
        0 <= s && 2 * s + 1 < barriers.len() && #[trigger] barriers[2 * s] == x && barriers[2 * s
            + 1] == y
}

/// The obstacle map of the search: segments between head and tail, and barriers.
pub open spec fn obstacles_of(g: Seq<Seq<bool>>, snake: Seq<i32>, barriers: Seq<i32>) -> bool {
    &&& square(g, PATH_SIDE as int)
    &&& forall|x: int, y: int|
        on_board(PATH_SIDE as int, x, y) ==> #[trigger] flag(g, x, y) == (body_blocks(snake, x, y)
            || barrier_blocks(barriers, x, y))
}

/// Moving `d` from `(hx, hy)` enters an open cell from which `(fx, fy)` is
/// reachable within `k` moves.
pub open spec fn first_step_ok(
    g: Seq<Seq<bool>>,
    hx: int,
    hy: int,
    d: int,
    k: nat,
    fx: int,
    fy: int,
) -> bool {
    open_cell(g, hx + dir_dx(d), hy + dir_dy(d)) && reach(
        g,
        hx + dir_dx(d),
        hy + dir_dy(d),
        k,
        fx,
        fy,
    )
}

/// `k` is the length of a shortest path from `(hx, hy)` to `(fx, fy)`.
pub open spec fn is_distance(g: Seq<Seq<bool>>, hx: int, hy: int, fx: int, fy: int, k: nat) -> bool {
    reach(g, hx, hy, k, fx, fy) && (k == 0 || !reach(g, hx, hy, (k - 1) as nat, fx, fy))
}

/// `d` is the first move, in the order Up, Left, Down, Right, that starts a
/// shortest path of length `k` to `(fx, fy)`.
pub open spec fn is_first_move(
    g: Seq<Seq<bool>>,
    hx: int,
    hy: int,
    fx: int,
    fy: int,
    k: nat,
    d: int,
) -> bool {
    &&& 0 <= d < 4
    &&& first_step_ok(g, hx, hy, d, (k - 1) as nat, fx, fy)
    &&& forall|e: int| 0 <= e < d ==> !#[trigger] first_step_ok(g, hx, hy, e, (k - 1) as nat, fx, fy)
}

/// What the search returns when the food can be reached: 0 when the head is on
/// it, otherwise the first move of a shortest path.
pub open spec fn search_result(g: Seq<Seq<bool>>, hx: int, hy: int, fx: int, fy: int, r: int) -> bool {
    if hx == fx && hy == fy {
        r == 0
    } else {
        forall|k: nat| is_distance(g, hx, hy, fx, fy, k) ==> is_first_move(g, hx, hy, fx, fy, k, r)
    }
}

/// The first move, in the order Up, Left, Down, Right, that enters an open
/// cell; Up when there is none.
pub open spec fn first_open_move(g: Seq<Seq<bool>>, hx: int, hy: int) -> int {
    if open_cell(g, hx, hy + 1) {
        0
    } else if open_cell(g, hx - 1, hy) {
        1
    } else if open_cell(g, hx, hy - 1) {
        2
    } else if open_cell(g, hx + 1, hy) {
        3
    } else {
        0
    }
}

/// A path that starts with a move onto an open cell is one move longer than
/// the path from that cell.
pub proof fn lemma_prepend(
    g: Seq<Seq<bool>>,
    hx: int,
    hy: int,
    d: int,
    k: nat,
    x: int,
    y: int,
)
    requires
        0 <= d < 4,
        first_step_ok(g, hx, hy, d, k, x, y),
    ensures
        reach(g, hx, hy, k + 1, x, y),
    decreases k,
{
    let nx = hx + dir_dx(d);
    let ny = hy + dir_dy(d);
    if k == 0 {
        assert(reach(g, hx, hy, 0, hx, hy));
    } else {
        let km = (k - 1) as nat;
        if reach(g, nx, ny, km, x, y) {
            lemma_prepend(g, hx, hy, d, km, x, y);
            lemma_reach_grows(g, hx, hy, k, k + 1, x, y);
        } else {
            if reach(g, nx, ny, km, x, y + 1) {
                lemma_prepend(g, hx, hy, d, km, x, y + 1);
            } else if reach(g, nx, ny, km, x - 1, y) {
                lemma_prepend(g, hx, hy, d, km, x - 1, y);
            } else if reach(g, nx, ny, km, x, y - 1) {
                lemma_prepend(g, hx, hy, d, km, x, y - 1);
            } else {
                lemma_prepend(g, hx, hy, d, km, x + 1, y);
            }
        }
    }
}

proof fn lemma_next_to_start(g: Seq<Seq<bool>>, hx: int, hy: int, k: nat, x: int, y: int)
    requires
        open_cell(g, x, y),
        (x == hx && y + 1 == hy) || (x - 1 == hx && y == hy) || (x == hx && y - 1 == hy) || (x
            + 1 == hx && y == hy),
    ensures
        first_step_ok(g, hx, hy, 0, k, x, y) || first_step_ok(g, hx, hy, 1, k, x, y)
            || first_step_ok(g, hx, hy, 2, k, x, y) || first_step_ok(g, hx, hy, 3, k, x, y),
{
    assert(reach(g, x, y, 0, x, y));
    lemma_reach_grows(g, x, y, 0, k, x, y);
}

/// Every path from `(hx, hy)` to another cell starts with one of the four moves.
pub proof fn lemma_first_step(g: Seq<Seq<bool>>, hx: int, hy: int, k: nat, x: int, y: int)
    requires
        reach(g, hx, hy, k + 1, x, y),
    ensures
        (x == hx && y == hy) || first_step_ok(g, hx, hy, 0, k, x, y) || first_step_ok(
            g,
            hx,
            hy,
            1,
            k,
            x,
            y,
        ) || first_step_ok(g, hx, hy, 2, k, x, y) || first_step_ok(g, hx, hy, 3, k, x, y),
    decreases k,
{
    if reach(g, hx, hy, k, x, y) {
        if k > 0 {
            let km = (k - 1) as nat;
            lemma_first_step(g, hx, hy, km, x, y);
            assert forall|d: int| 0 <= d < 4 && #[trigger] first_step_ok(g, hx, hy, d, km, x, y) implies first_step_ok(g, hx, hy, d, k, x, y) by {
                lemma_reach_grows(g, hx + dir_dx(d), hy + dir_dy(d), km, k, x, y);
            }
        }
    } else {
        // the last move enters (x, y) from a neighbour (mx, my)
        let (mx, my) = if reach(g, hx, hy, k, x, y + 1) {
            (x, y + 1)
        } else if reach(g, hx, hy, k, x - 1, y) {
            (x - 1, y)
        } else if reach(g, hx, hy, k, x, y - 1) {
            (x, y - 1)
        } else {
            (x + 1, y)
        };
        assert(reach(g, hx, hy, k, mx, my));
        if mx == hx && my == hy {
            lemma_next_to_start(g, hx, hy, k, x, y);
        } else if k == 0 {
        } else {
            let km = (k - 1) as nat;
            lemma_first_step(g, hx, hy, km, mx, my);
            assert forall|d: int| 0 <= d < 4 && #[trigger] first_step_ok(g, hx, hy, d, km, mx, my) implies first_step_ok(g, hx, hy, d, k, x, y) by {
                let nx = hx + dir_dx(d);
                let ny = hy + dir_dy(d);
                assert(reach(g, nx, ny, km, mx, my));
            }
        }
    }
}

/// The move chosen by the search lies on a shortest path: from the cell it
/// enters, the food is exactly one move nearer than from the head.
pub proof fn lemma_first_move_shortest(
    g: Seq<Seq<bool>>,
    hx: int,
    hy: int,
    fx: int,
    fy: int,
    k: nat,
    d: int,
)
    requires
        k >= 1,
        is_distance(g, hx, hy, fx, fy, k),
        is_first_move(g, hx, hy, fx, fy, k, d),
    ensures
        is_distance(g, hx + dir_dx(d), hy + dir_dy(d), fx, fy, (k - 1) as nat),
{
    let km = (k - 1) as nat;
    if km > 0 && reach(g, hx + dir_dx(d), hy + dir_dy(d), (km - 1) as nat, fx, fy) {
        lemma_prepend(g, hx, hy, d, (km - 1) as nat, fx, fy);
    }
}

/// Whether `(fx, fy)` is reachable from `(sx, sy)` within `k` moves.
fn reaches_within(g: &Vec<Vec<bool>>, sx: i64, sy: i64, k: u64, fx: i64, fy: i64) -> (r: bool)
    requires
        g@.len() <= MAX_SIDE,
        square(rows(g@), g@.len() as int),
    ensures
        r == reach(rows(g@), sx as int, sy as int, k as nat, fx as int, fy as int),
{
    let mut lay = start_layer(g.len(), sx, sy);
    let mut i: u64 = 0;
    while i < k
        invariant
            g@.len() <= MAX_SIDE,
            square(rows(g@), g@.len() as int),
            square(rows(lay@), g@.len() as int),
            i <= k,
            layer_is(rows(g@), rows(lay@), sx as int, sy as int, i as nat),
        decreases k - i,
    {
        let (next, _) = expand(g, &lay, sx, sy, Ghost(i as nat));
        lay = next;
        i = i + 1;
    }
    layer_reaches(g, &lay, sx, sy, Ghost(k as nat), fx, fy)
}

/// Length of a shortest path from `(sx, sy)` to `(fx, fy)`, if there is one.
fn distance(g: &Vec<Vec<bool>>, sx: i64, sy: i64, fx: i64, fy: i64) -> (r: Option<u64>)
    requires
        g@.len() <= MAX_SIDE,
        square(rows(g@), g@.len() as int),
    ensures
        r is None ==> !reachable(rows(g@), sx as int, sy as int, fx as int, fy as int),
        r matches Some(k) ==> is_distance(rows(g@), sx as int, sy as int, fx as int, fy as int, k as nat),
{
    let n = g.len();
    let mut lay = start_layer(n, sx, sy);
    let mut k: u64 = 0;
    loop
        invariant
            n == g@.len() <= MAX_SIDE,
            square(rows(g@), n as int),
            square(rows(lay@), n as int),
            layer_is(rows(g@), rows(lay@), sx as int, sy as int, k as nat),
            k <= layer_count(rows(lay@)),
            k > 0 ==> !reach(rows(g@), sx as int, sy as int, (k - 1) as nat, fx as int, fy as int),
        decreases (n * n) as int - layer_count(rows(lay@)),
    {
        proof {
            lemma_count_grid_le(
                |x: int, y: int| flag(rows(lay@), x, y),
                |x: int, y: int| flag(rows(lay@), x, y),
                n as int,
                n as int,
            );
            assert(n * n <= MAX_SIDE * MAX_SIDE) by (nonlinear_arith)
                requires
                    n <= MAX_SIDE,
            ;
        }
        if layer_reaches(g, &lay, sx, sy, Ghost(k as nat), fx, fy) {
            return Some(k);
        }
        let (next, grew) = expand(g, &lay, sx, sy, Ghost(k as nat));
        if !grew {
            proof {
                assert forall|j: nat| !#[trigger] reach(
                    rows(g@),
                    sx as int,
                    sy as int,
                    j,
                    fx as int,
                    fy as int,
                ) by {
                    if j <= k {
                        if reach(rows(g@), sx as int, sy as int, j, fx as int, fy as int) {
                            lemma_reach_grows(rows(g@), sx as int, sy as int, j, k as nat, fx as int, fy as int);
                        }
                    } else {
                        lemma_stable(rows(g@), sx as int, sy as int, k as nat, j);
                    }
                }
            }
            return None;
        }
        proof {
            let (wx, wy) = choose|x: int, y: int|
                on_board(n as int, x, y) && #[trigger] reach(rows(g@), sx as int, sy as int, (k + 1) as nat, x, y)
                    && !reach(rows(g@), sx as int, sy as int, k as nat, x, y);
            let p = |x: int, y: int| flag(rows(lay@), x, y);
            let q = |x: int, y: int| flag(rows(next@), x, y);
            assert forall|x: int, y: int|
                1 <= x <= n && 1 <= y <= n implies #[trigger] p(x, y) ==> q(x, y) by {
                assert(flag(rows(lay@), x, y) == reach(rows(g@), sx as int, sy as int, k as nat, x, y));
                assert(flag(rows(next@), x, y) == reach(rows(g@), sx as int, sy as int, (k + 1) as nat, x, y));
            }
            assert(flag(rows(lay@), wx, wy) == reach(rows(g@), sx as int, sy as int, k as nat, wx, wy));
            assert(flag(rows(next@), wx, wy) == reach(rows(g@), sx as int, sy as int, (k + 1) as nat, wx, wy));
            lemma_count_grid_lt(p, q, n as int, n as int, wx, wy);
            lemma_count_grid_le(q, q, n as int, n as int);
        }
        lay = next;
        k = k + 1;
    }
}

/// The first move of a shortest path from `(hx, hy)` to `(fx, fy)`: 0 when the
/// head is on the food, `None` when the food cannot be reached.
pub fn shortest_first_move(g: &Vec<Vec<bool>>, hx: i64, hy: i64, fx: i64, fy: i64) -> (r: Option<
    i32,
>)
    requires
        g@.len() <= MAX_SIDE,
        square(rows(g@), g@.len() as int),
        i32::MIN <= hx <= i32::MAX,
        i32::MIN <= hy <= i32::MAX,
    ensures
        r is None <==> !reachable(rows(g@), hx as int, hy as int, fx as int, fy as int),
        r matches Some(d) ==> search_result(rows(g@), hx as int, hy as int, fx as int, fy as int, d as int),
{
    if hx == fx && hy == fy {
        proof {
            assert(reach(rows(g@), hx as int, hy as int, 0, fx as int, fy as int));
        }
        return Some(0);
    }
    let dist = distance(g, hx, hy, fx, fy);
    match dist {
        None => None,
        Some(k) => {
            let ghost gs = rows(g@);
            proof {
                assert(k > 0);
                lemma_first_step(rows(g@), hx as int, hy as int, (k - 1) as nat, fx as int, fy as int);
            }
            let mut d: usize = 0;
            while d < 4
                invariant
                    gs == rows(g@),
                    g@.len() <= MAX_SIDE,
                    square(rows(g@), g@.len() as int),
                    i32::MIN <= hx <= i32::MAX,
                    i32::MIN <= hy <= i32::MAX,
                    k > 0,
                    d <= 4,
                    !(hx == fx && hy == fy),
                    is_distance(rows(g@), hx as int, hy as int, fx as int, fy as int, k as nat),
                    forall|e: int| 0 <= e < d ==> !#[trigger] first_step_ok(rows(g@), hx as int, hy as int, e, (k - 1) as nat, fx as int, fy as int),
                    first_step_ok(rows(g@), hx as int, hy as int, 0, (k - 1) as nat, fx as int, fy as int)
                        || first_step_ok(rows(g@), hx as int, hy as int, 1, (k - 1) as nat, fx as int, fy as int)
                        || first_step_ok(rows(g@), hx as int, hy as int, 2, (k - 1) as nat, fx as int, fy as int)
                        || first_step_ok(rows(g@), hx as int, hy as int, 3, (k - 1) as nat, fx as int, fy as int),
                decreases 4 - d,
            {
                let nx = hx + step_dx(d);
                let ny = hy + step_dy(d);
                if cell_open(g, nx, ny) && reaches_within(g, nx, ny, k - 1, fx, fy) {
                    proof {
                        assert forall|j: nat| is_distance(gs, hx as int, hy as int, fx as int, fy as int, j) implies is_first_move(gs, hx as int, hy as int, fx as int, fy as int, j, d as int) by {
                            if j < k {
                                lemma_reach_grows(gs, hx as int, hy as int, j, (k - 1) as nat, fx as int, fy as int);
                            } else if j > k {
                                lemma_reach_grows(gs, hx as int, hy as int, k as nat, (j - 1) as nat, fx as int, fy as int);
                            }
                        }
                    }
                    return Some(d as i32);
                }
                d += 1;
            }
            proof {
                assert(false);
            }
            None
        },
    }
}

/// Whether the pair `s` of `v` (entries `2s` and `2s + 1`) is `(x, y)`, for
/// some `s` with `from <= s` and `2s + 1 + gap < v.len()`.
fn pair_listed(v: &[i32], from: usize, gap: usize, x: i64, y: i64) -> (r: bool)
    requires
        gap <= 2,
    ensures
        r == exists|s: int|
            from <= s && 2 * s + 1 + gap < v@.len() && #[trigger] v@[2 * s] == x && v@[2 * s + 1]
                == y,
{
    let lim: usize = if v.len() > 1 + gap {
        v.len() - 1 - gap
    } else {
        0
    };
    let mut s: usize = from;
    while s < v.len() / 2 && 2 * s < lim
        invariant
            from <= s,
            lim == if v@.len() > 1 + gap {
                v@.len() - 1 - gap
            } else {
                0
            },
            gap <= 2,
            forall|t: int|
                from <= t < s && 2 * t + 1 + gap < v@.len() ==> !(#[trigger] v@[2 * t] == x && v@[2
                    * t + 1] == y),
        decreases v@.len() - s,
    {
        if v[2 * s] as i64 == x && v[2 * s + 1] as i64 == y {
            return true;
        }
        s += 1;
    }
    proof {
        assert forall|t: int|
            from <= t && 2 * t + 1 + gap < v@.len() implies !(#[trigger] v@[2 * t] == x && v@[2 * t
                + 1] == y) by {
            if t >= s {
                assert(2 * t + 1 + gap >= 2 * s + 1 + gap);
            }
        }
    }
    false
}

/// The 8 x 8 obstacle map: the snake's segments between head and tail, and the
/// barriers.
fn build_obstacles(snake: &[i32], barriers: &[i32]) -> (g: Vec<Vec<bool>>)
    ensures
        obstacles_of(rows(g@), snake@, barriers@),
{
    let mut g: Vec<Vec<bool>> = Vec::new();
    let mut r: usize = 0;
    while r < PATH_SIDE
        invariant
            r <= PATH_SIDE,
            g@.len() == r,
            forall|i: int| 0 <= i < r ==> (#[trigger] g@[i])@.len() == PATH_SIDE,
            forall|x: int, y: int|
                1 <= x <= PATH_SIDE && 1 <= y <= r ==> #[trigger] flag(rows(g@), x, y) == (body_blocks(
                    snake@,
                    x,
                    y,
                ) || barrier_blocks(barriers@, x, y)),
        decreases PATH_SIDE - r,
    {
        let mut row: Vec<bool> = Vec::new();
        let mut c: usize = 0;
        while c < PATH_SIDE
            invariant
                c <= PATH_SIDE,
                r < PATH_SIDE,
                row@.len() == c,
                forall|i: int|
                    0 <= i < c ==> #[trigger] row@[i] == (body_blocks(snake@, i + 1, r + 1)
                        || barrier_blocks(barriers@, i + 1, r + 1)),
            decreases PATH_SIDE - c,
        {
            let x = c as i64 + 1;
            let y = r as i64 + 1;
            let b = pair_listed(snake, 1, 1, x, y) || pair_listed(barriers, 0, 0, x, y);
            row.push(b);
            c += 1;
        }
        let ghost before = g@;
        let ghost rv = row@;
        g.push(row);
        r += 1;
        assert forall|x: int, y: int|
            1 <= x <= PATH_SIDE && 1 <= y <= r implies #[trigger] flag(rows(g@), x, y) == (body_blocks(
                snake@,
                x,
                y,
            ) || barrier_blocks(barriers@, x, y)) by {
            if y < r {
                assert(g@[y - 1] == before[y - 1]);
                assert(flag(rows(before), x, y) == (body_blocks(snake@, x, y) || barrier_blocks(
                    barriers@,
                    x,
                    y,
                )));
            } else {
                assert(g@[y - 1]@ == rv);
                assert(rv[x - 1] == (body_blocks(snake@, (x - 1) + 1, r as int) || barrier_blocks(
                    barriers@,
                    (x - 1) + 1,
                    r as int,
                )));
            }
        }
    }
    g
}

/// First move towards the food along a shortest path on the 8 x 8 board.
/// `snake` lists the segments as `x, y` pairs, head first; the segments between
/// head and tail are obstacles (the tail moves away). `food` starts with the
/// food's `x, y`. When the food cannot be reached, the first move onto an open
/// neighbour is returned, or Up when there is none.
pub fn greedy_snake_move(snake: &[i32], food: &[i32]) -> (r: i32)
    requires
        snake@.len() >= 2,
        food@.len() >= 2,
    ensures
        exists|g: Seq<Seq<bool>>|
            #[trigger] obstacles_of(g, snake@, Seq::empty()) && if reachable(
                g,
                snake@[0] as int,
                snake@[1] as int,
                food@[0] as int,
                food@[1] as int,
            ) {
                search_result(
                    g,
                    snake@[0] as int,
                    snake@[1] as int,
                    food@[0] as int,
                    food@[1] as int,
                    r as int,
                )
            } else {
                r == first_open_move(g, snake@[0] as int, snake@[1] as int)
            },
{
    let none: Vec<i32> = Vec::new();
    let g = build_obstacles(snake, none.as_slice());
    proof {
        assert(none@ == Seq::<i32>::empty());
    }
    let hx = snake[0] as i64;
    let hy = snake[1] as i64;
    assert(obstacles_of(rows(g@), snake@, Seq::empty()));
    match shortest_first_move(&g, hx, hy, food[0] as i64, food[1] as i64) {
        Some(d) => d,
        None => {
            if cell_open(&g, hx, hy + 1) {
                0
            } else if cell_open(&g, hx - 1, hy) {
                1
            } else if cell_open(&g, hx, hy - 1) {
                2
            } else if cell_open(&g, hx + 1, hy) {
                3
            } else {
                0
            }
        },
    }
}

/// First move towards the food along a shortest path on the 8 x 8 board, with
/// `barriers` (as `x, y` pairs) as further obstacles; -1 when the food cannot
/// be reached.
pub fn greedy_snake_move_barriers(snake: &[i32], food: &[i32], barriers: &[i32]) -> (r: i32)
    requires
        snake@.len() >= 2,
        food@.len() >= 2,
        barriers@.len() % 2 == 0,
    ensures
        exists|g: Seq<Seq<bool>>|
            #[trigger] obstacles_of(g, snake@, barriers@) && if reachable(
                g,
                snake@[0] as int,
                snake@[1] as int,
                food@[0] as int,
                food@[1] as int,
            ) {
                search_result(
                    g,
                    snake@[0] as int,
                    snake@[1] as int,
                    food@[0] as int,
                    food@[1] as int,
                    r as int,
                )
            } else {
                r == -1
            },
{
    let g = build_obstacles(snake, barriers);
    assert(obstacles_of(rows(g@), snake@, barriers@));
    match shortest_first_move(&g, snake[0] as i64, snake[1] as i64, food[0] as i64, food[1] as i64) {
        Some(d) => d,
        None => -1,
    }
}

} // verus!
