//! Square boards, obstacle maps and 4-connected reachability.
//!
//! A board of side `n` holds the cells `(x, y)` with `1 <= x, y <= n`. An
//! obstacle map (and any other per-cell flag map) is stored as `n` rows of `n`
//! flags: the flag of cell `(x, y)` is `rows[y - 1][x - 1]`.
use vstd::prelude::*;

verus! {

/// The largest board side handled; coordinates stay far from `i64` limits.
pub const MAX_SIDE: usize = 2147483647;

/// The four moves in evaluation order: Up, Left, Down, Right.
pub open spec fn dir_dx(d: int) -> int {
    if d == 1 {
        -1
    } else if d == 3 {
        1
    } else {
        0
    }
}

pub open spec fn dir_dy(d: int) -> int {
    if d == 0 {
        1
    } else if d == 2 {
        -1
    } else {
        0
    }
}

/// Horizontal offset of move `d` (0 Up, 1 Left, 2 Down, 3 Right).
pub fn step_dx(d: usize) -> (r: i64)
    ensures
        r == dir_dx(d as int),
{
    if d == 1 {
        -1
    } else if d == 3 {
        1
    } else {
        0
    }
}

/// Vertical offset of move `d` (0 Up, 1 Left, 2 Down, 3 Right).
pub fn step_dy(d: usize) -> (r: i64)
    ensures
        r == dir_dy(d as int),
{
    if d == 0 {
        1
    } else if d == 2 {
        -1
    } else {
        0
    }
}

/// The flags of an exec flag map, row by row.
pub open spec fn rows(g: Seq<Vec<bool>>) -> Seq<Seq<bool>> {
    Seq::new(g.len(), |i: int| g[i]@)
}

/// Every row of `g` has `n` flags and there are `n` rows.
pub open spec fn square(g: Seq<Seq<bool>>, n: int) -> bool {
    &&& g.len() == n
    &&& forall|r: int| 0 <= r < n ==> (#[trigger] g[r]).len() == n
}

pub open spec fn on_board(n: int, x: int, y: int) -> bool {
    1 <= x <= n && 1 <= y <= n
}

/// The flag that `g` holds for cell `(x, y)`.
pub open spec fn flag(g: Seq<Seq<bool>>, x: int, y: int) -> bool {
    g[y - 1][x - 1]
}

/// A cell that a snake may enter: on the board and not an obstacle.
pub open spec fn open_cell(g: Seq<Seq<bool>>, x: int, y: int) -> bool {
    on_board(g.len() as int, x, y) && !flag(g, x, y)
}

/// `(x, y)` can be reached from `(sx, sy)` in at most `k` moves, each onto an
/// open cell. The start itself need not be open.
pub open spec fn reach(g: Seq<Seq<bool>>, sx: int, sy: int, k: nat, x: int, y: int) -> bool
    decreases k,
{
    if k == 0 {
        x == sx && y == sy
    } else {
        reach(g, sx, sy, (k - 1) as nat, x, y) || (open_cell(g, x, y) && (reach(
            g,
            sx,
            sy,
            (k - 1) as nat,
            x,
            y + 1,
        ) || reach(g, sx, sy, (k - 1) as nat, x - 1, y) || reach(
            g,
            sx,
            sy,
            (k - 1) as nat,
            x,
            y - 1,
        ) || reach(g, sx, sy, (k - 1) as nat, x + 1, y)))
    }
}

/// `(x, y)` can be reached from `(sx, sy)` in some number of moves.
pub open spec fn reachable(g: Seq<Seq<bool>>, sx: int, sy: int, x: int, y: int) -> bool {
    exists|k: nat| #[trigger] reach(g, sx, sy, k, x, y)
}

/// Number of cells `(x, y')` with `y' == y`, `1 <= x <= w` satisfying `p`.
pub open spec fn count_row(p: spec_fn(int, int) -> bool, y: int, w: int) -> nat
    decreases w,
{
    if w <= 0 {
        0
    } else {
        count_row(p, y, w - 1) + if p(w, y) {
            1nat
        } else {
            0nat
        }
    }
}

/// Number of cells with `1 <= x <= w`, `1 <= y <= h` satisfying `p`.
pub open spec fn count_grid(p: spec_fn(int, int) -> bool, h: int, w: int) -> nat
    decreases h,
{
    if h <= 0 {
        0
    } else {
        count_grid(p, h - 1, w) + count_row(p, h, w)
    }
}

/// Number of board cells reachable from `(sx, sy)`, the start included.
pub open spec fn reach_area(g: Seq<Seq<bool>>, sx: int, sy: int) -> nat {
    count_grid(|x: int, y: int| reachable(g, sx, sy, x, y), g.len() as int, g.len() as int)
}

/// The flood-fill area: zero from a start that is not open, otherwise the
/// number of cells reachable from it.
pub open spec fn free_area(g: Seq<Seq<bool>>, sx: int, sy: int) -> nat {
    if open_cell(g, sx, sy) {
        reach_area(g, sx, sy)
    } else {
        0
    }
}

/// `lay` holds, on every board cell, whether it is reachable within `k` moves.
pub open spec fn layer_is(g: Seq<Seq<bool>>, lay: Seq<Seq<bool>>, sx: int, sy: int, k: nat) -> bool {
    forall|x: int, y: int|
        on_board(g.len() as int, x, y) ==> #[trigger] flag(lay, x, y) == reach(g, sx, sy, k, x, y)
}

pub open spec fn layer_count(lay: Seq<Seq<bool>>) -> nat {
    count_grid(|x: int, y: int| flag(lay, x, y), lay.len() as int, lay.len() as int)
}

pub proof fn lemma_reach_grows(g: Seq<Seq<bool>>, sx: int, sy: int, j: nat, k: nat, x: int, y: int)
    requires
        j <= k,
        reach(g, sx, sy, j, x, y),
    ensures
        reach(g, sx, sy, k, x, y),
    decreases k - j,
{
    if j < k {
        lemma_reach_grows(g, sx, sy, j, (k - 1) as nat, x, y);
    }
}

pub proof fn lemma_off_board(g: Seq<Seq<bool>>, sx: int, sy: int, k: nat, x: int, y: int)
    requires
        !on_board(g.len() as int, x, y),
    ensures
        reach(g, sx, sy, k, x, y) == (x == sx && y == sy),
    decreases k,
{
    if k > 0 {
        lemma_off_board(g, sx, sy, (k - 1) as nat, x, y);
    }
}

/// Once one more move adds no cell, no number of moves adds one.
pub proof fn lemma_stable(g: Seq<Seq<bool>>, sx: int, sy: int, k: nat, j: nat)
    requires
        k <= j,
        forall|x: int, y: int|
            on_board(g.len() as int, x, y) ==> #[trigger] reach(g, sx, sy, k + 1, x, y) == reach(
                g,
                sx,
                sy,
                k,
                x,
                y,
            ),
    ensures
        forall|x: int, y: int| #[trigger] reach(g, sx, sy, j, x, y) == reach(g, sx, sy, k, x, y),
    decreases j - k,
{
    if j > k {
        lemma_stable(g, sx, sy, k, (j - 1) as nat);
        assert forall|x: int, y: int| #[trigger]
            reach(g, sx, sy, j, x, y) == reach(g, sx, sy, k, x, y) by {
            if on_board(g.len() as int, x, y) {
                let jm = (j - 1) as nat;
                assert(reach(g, sx, sy, jm, x, y) == reach(g, sx, sy, k, x, y));
                assert(reach(g, sx, sy, jm, x, y + 1) == reach(g, sx, sy, k, x, y + 1));
                assert(reach(g, sx, sy, jm, x - 1, y) == reach(g, sx, sy, k, x - 1, y));
                assert(reach(g, sx, sy, jm, x, y - 1) == reach(g, sx, sy, k, x, y - 1));
                assert(reach(g, sx, sy, jm, x + 1, y) == reach(g, sx, sy, k, x + 1, y));
                assert(reach(g, sx, sy, k + 1, x, y) == reach(g, sx, sy, k, x, y));
            } else {
                lemma_off_board(g, sx, sy, j, x, y);
                lemma_off_board(g, sx, sy, k, x, y);
            }
        }
    }
}

/// At a stable layer, reachability within `k` moves is reachability.
proof fn lemma_stable_reachable(g: Seq<Seq<bool>>, sx: int, sy: int, k: nat)
    requires
        forall|x: int, y: int|
            on_board(g.len() as int, x, y) ==> #[trigger] reach(g, sx, sy, k + 1, x, y) == reach(
                g,
                sx,
                sy,
                k,
                x,
                y,
            ),
    ensures
        forall|x: int, y: int| #[trigger]
            reachable(g, sx, sy, x, y) == reach(g, sx, sy, k, x, y),
{
    assert forall|x: int, y: int| #[trigger]
        reachable(g, sx, sy, x, y) == reach(g, sx, sy, k, x, y) by {
        if reachable(g, sx, sy, x, y) {
            let j = choose|j: nat| #[trigger] reach(g, sx, sy, j, x, y);
            if j <= k {
                lemma_reach_grows(g, sx, sy, j, k, x, y);
            } else {
                lemma_stable(g, sx, sy, k, j);
            }
        }
        if reach(g, sx, sy, k, x, y) {
            assert(reachable(g, sx, sy, x, y));
        }
    }
}

proof fn lemma_count_row_le(p: spec_fn(int, int) -> bool, q: spec_fn(int, int) -> bool, y: int, w: int)
    requires
        forall|x: int| 1 <= x <= w ==> #[trigger] p(x, y) ==> q(x, y),
    ensures
        count_row(p, y, w) <= count_row(q, y, w),
        count_row(p, y, w) <= if w <= 0 {
            0
        } else {
            w
        },
    decreases w,
{
    if w > 0 {
        lemma_count_row_le(p, q, y, w - 1);
    }
}

proof fn lemma_count_row_lt(
    p: spec_fn(int, int) -> bool,
    q: spec_fn(int, int) -> bool,
    y: int,
    w: int,
    x0: int,
)
    requires
        forall|x: int| 1 <= x <= w ==> #[trigger] p(x, y) ==> q(x, y),
        1 <= x0 <= w,
        !p(x0, y),
        q(x0, y),
    ensures
        count_row(p, y, w) < count_row(q, y, w),
    decreases w,
{
    if x0 < w {
        lemma_count_row_lt(p, q, y, w - 1, x0);
    } else {
        lemma_count_row_le(p, q, y, w - 1);
    }
}

pub proof fn lemma_count_grid_le(p: spec_fn(int, int) -> bool, q: spec_fn(int, int) -> bool, h: int, w: int)
    requires
        forall|x: int, y: int| 1 <= x <= w && 1 <= y <= h ==> #[trigger] p(x, y) ==> q(x, y),
        w >= 0,
    ensures
        count_grid(p, h, w) <= count_grid(q, h, w),
        count_grid(p, h, w) <= if h <= 0 {
            0
        } else {
            h * w
        },
    decreases h,
{
    if h > 0 {
        lemma_count_grid_le(p, q, h - 1, w);
        assert forall|x: int| 1 <= x <= w implies #[trigger] p(x, h) ==> q(x, h) by {
            if p(x, h) {
                assert(p(x, h) ==> q(x, h));
            }
        }
        lemma_count_row_le(p, q, h, w);
        assert((h - 1) * w + w == h * w) by (nonlinear_arith);
        if h - 1 <= 0 {
            assert(h == 1);
        }
    }
}

pub proof fn lemma_count_grid_lt(
    p: spec_fn(int, int) -> bool,
    q: spec_fn(int, int) -> bool,
    h: int,
    w: int,
    x0: int,
    y0: int,
)
    requires
        forall|x: int, y: int| 1 <= x <= w && 1 <= y <= h ==> #[trigger] p(x, y) ==> q(x, y),
        1 <= x0 <= w,
        1 <= y0 <= h,
        !p(x0, y0),
        q(x0, y0),
    ensures
        count_grid(p, h, w) < count_grid(q, h, w),
    decreases h,
{
    assert forall|x: int| 1 <= x <= w implies #[trigger] p(x, h) ==> q(x, h) by {
        if p(x, h) {
            assert(p(x, h) ==> q(x, h));
        }
    }
    if y0 < h {
        lemma_count_grid_lt(p, q, h - 1, w, x0, y0);
        lemma_count_row_le(p, q, h, w);
    } else {
        lemma_count_grid_le(p, q, h - 1, w);
        lemma_count_row_lt(p, q, h, w, x0);
    }
}

/// Whether `(x, y)` is in the set that `lay` describes: on the board, its
/// flag; off the board, only the start.
fn layer_has(lay: &Vec<Vec<bool>>, sx: i64, sy: i64, x: i64, y: i64) -> (r: bool)
    requires
        square(rows(lay@), lay@.len() as int),
        lay@.len() <= MAX_SIDE,
    ensures
        r == if on_board(lay@.len() as int, x as int, y as int) {
            flag(rows(lay@), x as int, y as int)
        } else {
            x == sx && y == sy
        },
{
    let n = lay.len() as i64;
    if 1 <= x && x <= n && 1 <= y && y <= n {
        let row = &lay[(y - 1) as usize];
        assert(rows(lay@)[y - 1] == row@);
        row[(x - 1) as usize]
    } else {
        x == sx && y == sy
    }
}

/// The cells reachable with no move: the start alone.
pub(crate) fn start_layer(n: usize, sx: i64, sy: i64) -> (lay: Vec<Vec<bool>>)
    requires
        n <= MAX_SIDE,
    ensures
        square(rows(lay@), n as int),
        forall|x: int, y: int|
            on_board(n as int, x, y) ==> #[trigger] flag(rows(lay@), x, y) == (x == sx && y == sy),
{
    let mut lay: Vec<Vec<bool>> = Vec::new();
    let mut r: usize = 0;
    while r < n
        invariant
            r <= n <= MAX_SIDE,
            lay@.len() == r,
            forall|i: int| 0 <= i < r ==> (#[trigger] lay@[i])@.len() == n,
            forall|x: int, y: int|
                1 <= x <= n && 1 <= y <= r ==> #[trigger] flag(rows(lay@), x, y) == (x == sx && y == sy),
        decreases n - r,
    {
        let mut row: Vec<bool> = Vec::new();
        let mut c: usize = 0;
        while c < n
            invariant
                c <= n <= MAX_SIDE,
                r < n,
                row@.len() == c,
                forall|i: int|
                    0 <= i < c ==> #[trigger] row@[i] == (i + 1 == sx && r as int + 1 == sy),
            decreases n - c,
        {
            row.push(c as i64 + 1 == sx && r as i64 + 1 == sy);
            c += 1;
        }
        let ghost before = lay@;
        let ghost rv = row@;
        lay.push(row);
        r += 1;
        assert forall|x: int, y: int|
            1 <= x <= n && 1 <= y <= r implies #[trigger] flag(rows(lay@), x, y) == (x == sx && y == sy) by {
            if y < r {
                assert(lay@[y - 1] == before[y - 1]);
                assert(flag(rows(before), x, y) == (x == sx && y == sy));
            } else {
                assert(lay@[y - 1]@ == rv);
            }
        }
    }
    lay
}

/// One more move: from the cells reachable within `k` moves to those
/// reachable within `k + 1`. Also tells whether any cell was added.
pub(crate) fn expand(g: &Vec<Vec<bool>>, lay: &Vec<Vec<bool>>, sx: i64, sy: i64, Ghost(k): Ghost<nat>) -> (res: (
    Vec<Vec<bool>>,
    bool,
))
    requires
        g@.len() <= MAX_SIDE,
        square(rows(g@), g@.len() as int),
        square(rows(lay@), g@.len() as int),
        layer_is(rows(g@), rows(lay@), sx as int, sy as int, k),
    ensures
        square(rows(res.0@), g@.len() as int),
        layer_is(rows(g@), rows(res.0@), sx as int, sy as int, k + 1),
        !res.1 ==> forall|x: int, y: int|
            on_board(g@.len() as int, x, y) ==> #[trigger] reach(rows(g@), sx as int, sy as int, k + 1, x, y)
                == reach(rows(g@), sx as int, sy as int, k, x, y),
        res.1 ==> exists|x: int, y: int|
            on_board(g@.len() as int, x, y) && #[trigger] reach(rows(g@), sx as int, sy as int, k + 1, x, y)
                && !reach(rows(g@), sx as int, sy as int, k, x, y),
{
    let n = g.len();
    let ghost gs = rows(g@);
    let mut out: Vec<Vec<bool>> = Vec::new();
    let mut grew = false;
    let ghost mut wx: int = 0;
    let ghost mut wy: int = 0;
    let mut r: usize = 0;
    while r < n
        invariant
            n == g@.len() <= MAX_SIDE,
            gs == rows(g@),
            square(rows(g@), n as int),
            square(rows(lay@), n as int),
            layer_is(rows(g@), rows(lay@), sx as int, sy as int, k),
            r <= n,
            out@.len() == r,
            forall|i: int| 0 <= i < r ==> (#[trigger] out@[i])@.len() == n,
            forall|x: int, y: int|
                1 <= x <= n && 1 <= y <= r ==> #[trigger] flag(rows(out@), x, y) == reach(
                    rows(g@),
                    sx as int,
                    sy as int,
                    k + 1,
                    x,
                    y,
                ),
            !grew ==> forall|x: int, y: int|
                1 <= x <= n && 1 <= y <= r ==> #[trigger] reach(rows(g@), sx as int, sy as int, k + 1, x, y)
                    == reach(rows(g@), sx as int, sy as int, k, x, y),
            grew ==> on_board(n as int, wx, wy) && reach(rows(g@), sx as int, sy as int, k + 1, wx, wy)
                && !reach(rows(g@), sx as int, sy as int, k, wx, wy),
        decreases n - r,
    {
        let mut row: Vec<bool> = Vec::new();
        let mut c: usize = 0;
        let grow = &g[r];
        let lrow = &lay[r];
        while c < n
            invariant
                n == g@.len() <= MAX_SIDE,
                square(rows(g@), n as int),
                square(rows(lay@), n as int),
                layer_is(rows(g@), rows(lay@), sx as int, sy as int, k),
                r < n,
                c <= n,
                grow@ == g@[r as int]@,
                lrow@ == lay@[r as int]@,
                row@.len() == c,
                forall|i: int|
                    0 <= i < c ==> #[trigger] row@[i] == reach(
                        rows(g@),
                        sx as int,
                        sy as int,
                        k + 1,
                        i + 1,
                        r + 1,
                    ),
                !grew ==> forall|x: int, y: int|
                    1 <= x <= n && 1 <= y <= r ==> #[trigger] reach(rows(g@), sx as int, sy as int, k + 1, x, y)
                        == reach(rows(g@), sx as int, sy as int, k, x, y),
                !grew ==> forall|i: int|
                    0 <= i < c ==> #[trigger] reach(rows(g@), sx as int, sy as int, k + 1, i + 1, r + 1)
                        == reach(rows(g@), sx as int, sy as int, k, i + 1, r + 1),
                grew ==> on_board(n as int, wx, wy) && reach(rows(g@), sx as int, sy as int, k + 1, wx, wy)
                    && !reach(rows(g@), sx as int, sy as int, k, wx, wy),
            decreases n - c,
        {
            let x = c as i64 + 1;
            let y = r as i64 + 1;
            assert(flag(rows(lay@), x as int, y as int) == lrow@[c as int]);
            assert(flag(rows(g@), x as int, y as int) == grow@[c as int]);
            let was = lrow[c];
            let v = was || (!grow[c] && (layer_has(lay, sx, sy, x, y + 1) || layer_has(
                lay,
                sx,
                sy,
                x - 1,
                y,
            ) || layer_has(lay, sx, sy, x, y - 1) || layer_has(lay, sx, sy, x + 1, y)));
            proof {
                if !on_board(n as int, x as int, y as int + 1) {
                    lemma_off_board(rows(g@), sx as int, sy as int, k, x as int, y as int + 1);
                }
                if !on_board(n as int, x as int - 1, y as int) {
                    lemma_off_board(rows(g@), sx as int, sy as int, k, x as int - 1, y as int);
                }
                if !on_board(n as int, x as int, y as int - 1) {
                    lemma_off_board(rows(g@), sx as int, sy as int, k, x as int, y as int - 1);
                }
                if !on_board(n as int, x as int + 1, y as int) {
                    lemma_off_board(rows(g@), sx as int, sy as int, k, x as int + 1, y as int);
                }
                assert(v == reach(rows(g@), sx as int, sy as int, k + 1, x as int, y as int));
            }
            if v && !was {
                grew = true;
                proof {
                    wx = x as int;
                    wy = y as int;
                }
            }
            row.push(v);
            c += 1;
        }
        let ghost before = out@;
        let ghost rv = row@;
        out.push(row);
        r += 1;
        assert forall|x: int, y: int|
            1 <= x <= n && 1 <= y <= r implies #[trigger] flag(rows(out@), x, y) == reach(
                rows(g@),
                sx as int,
                sy as int,
                k + 1,
                x,
                y,
            ) by {
            if y < r {
                assert(out@[y - 1] == before[y - 1]);
                assert(flag(rows(before), x, y) == reach(rows(g@), sx as int, sy as int, k + 1, x, y));
            } else {
                assert(out@[y - 1]@ == rv);
                assert(rv[x - 1] == reach(rows(g@), sx as int, sy as int, k + 1, (x - 1) + 1, r as int));
            }
        }
        assert(!grew ==> forall|x: int, y: int|
            1 <= x <= n && 1 <= y <= r ==> #[trigger] reach(rows(g@), sx as int, sy as int, k + 1, x, y)
                == reach(rows(g@), sx as int, sy as int, k, x, y)) by {
            if !grew {
                assert forall|x: int, y: int|
                    1 <= x <= n && 1 <= y <= r implies #[trigger] reach(
                        rows(g@),
                        sx as int,
                        sy as int,
                        k + 1,
                        x,
                        y,
                    ) == reach(rows(g@), sx as int, sy as int, k, x, y) by {
                    if y == r {
                        assert(reach(rows(g@), sx as int, sy as int, k + 1, (x - 1) + 1, r as int)
                            == reach(rows(g@), sx as int, sy as int, k, (x - 1) + 1, r as int));
                    }
                }
            }
        }
    }
    (out, grew)
}

/// Whether `(x, y)`, on the board or not, is reachable within `k` moves,
/// read from the layer of those cells.
pub(crate) fn layer_reaches(
    g: &Vec<Vec<bool>>,
    lay: &Vec<Vec<bool>>,
    sx: i64,
    sy: i64,
    Ghost(k): Ghost<nat>,
    x: i64,
    y: i64,
) -> (r: bool)
    requires
        g@.len() <= MAX_SIDE,
        square(rows(g@), g@.len() as int),
        square(rows(lay@), g@.len() as int),
        layer_is(rows(g@), rows(lay@), sx as int, sy as int, k),
    ensures
        r == reach(rows(g@), sx as int, sy as int, k, x as int, y as int),
{
    proof {
        if !on_board(g@.len() as int, x as int, y as int) {
            lemma_off_board(rows(g@), sx as int, sy as int, k, x as int, y as int);
        }
    }
    layer_has(lay, sx, sy, x, y)
}

/// Whether `(x, y)` is open: on the board and not an obstacle.
pub fn cell_open(g: &Vec<Vec<bool>>, x: i64, y: i64) -> (r: bool)
    requires
        g@.len() <= MAX_SIDE,
        square(rows(g@), g@.len() as int),
    ensures
        r == open_cell(rows(g@), x as int, y as int),
{
    let n = g.len() as i64;
    if 1 <= x && x <= n && 1 <= y && y <= n {
        let row = &g[(y - 1) as usize];
        assert(rows(g@)[y - 1] == row@);
        !row[(x - 1) as usize]
    } else {
        false
    }
}

/// The set of cells reachable from `(sx, sy)`, as a flag map.
fn reachable_layer(g: &Vec<Vec<bool>>, sx: i64, sy: i64) -> (lay: Vec<Vec<bool>>)
    requires
        g@.len() <= MAX_SIDE,
        square(rows(g@), g@.len() as int),
    ensures
        square(rows(lay@), g@.len() as int),
        forall|x: int, y: int|
            on_board(g@.len() as int, x, y) ==> #[trigger] flag(rows(lay@), x, y) == reachable(
                rows(g@),
                sx as int,
                sy as int,
                x,
                y,
            ),
{
    let n = g.len();
    let mut lay = start_layer(n, sx, sy);
    let ghost mut k: nat = 0;
    loop
        invariant
            n == g@.len() <= MAX_SIDE,
            square(rows(g@), n as int),
            square(rows(lay@), n as int),
            layer_is(rows(g@), rows(lay@), sx as int, sy as int, k),
        decreases (n * n) as int - layer_count(rows(lay@)),
    {
        proof {
            lemma_count_grid_le(
                |x: int, y: int| flag(rows(lay@), x, y),
                |x: int, y: int| flag(rows(lay@), x, y),
                n as int,
                n as int,
            );
        }
        let (next, grew) = expand(g, &lay, sx, sy, Ghost(k));
        if !grew {
            proof {
                lemma_stable_reachable(rows(g@), sx as int, sy as int, k);
            }
            return lay;
        }
        proof {
            let (wx, wy) = choose|x: int, y: int|
                on_board(n as int, x, y) && #[trigger] reach(rows(g@), sx as int, sy as int, k + 1, x, y)
                    && !reach(rows(g@), sx as int, sy as int, k, x, y);
            let p = |x: int, y: int| flag(rows(lay@), x, y);
            let q = |x: int, y: int| flag(rows(next@), x, y);
            assert forall|x: int, y: int|
                1 <= x <= n && 1 <= y <= n implies #[trigger] p(x, y) ==> q(x, y) by {
                assert(flag(rows(lay@), x, y) == reach(rows(g@), sx as int, sy as int, k, x, y));
                assert(flag(rows(next@), x, y) == reach(rows(g@), sx as int, sy as int, k + 1, x, y));
            }
            assert(flag(rows(lay@), wx, wy) == reach(rows(g@), sx as int, sy as int, k, wx, wy));
            assert(flag(rows(next@), wx, wy) == reach(rows(g@), sx as int, sy as int, k + 1, wx, wy));
            lemma_count_grid_lt(p, q, n as int, n as int, wx, wy);
            lemma_count_grid_le(q, q, n as int, n as int);
        }
        lay = next;
        proof {
            k = k + 1;
        }
    }
}

/// Number of board cells reachable from `(sx, sy)`, the start included
/// (the start need not be open).
pub fn reach_area_of(g: &Vec<Vec<bool>>, sx: i64, sy: i64) -> (r: u64)
    requires
        g@.len() <= MAX_SIDE,
        square(rows(g@), g@.len() as int),
    ensures
        r == reach_area(rows(g@), sx as int, sy as int),
        r <= g@.len() * g@.len(),
{
    let n = g.len();
    let lay = reachable_layer(g, sx, sy);
    let ghost p = |x: int, y: int| reachable(rows(g@), sx as int, sy as int, x, y);
    let mut total: u64 = 0;
    let mut r: usize = 0;
    while r < n
        invariant
            n == g@.len() <= MAX_SIDE,
            square(rows(lay@), n as int),
            forall|x: int, y: int| on_board(n as int, x, y) ==> #[trigger] flag(rows(lay@), x, y) == p(x, y),
            r <= n,
            total == count_grid(p, r as int, n as int),
        decreases n - r,
    {
        let row = &lay[r];
        let mut c: usize = 0;
        let mut in_row: u64 = 0;
        while c < n
            invariant
                n == g@.len() <= MAX_SIDE,
                square(rows(lay@), n as int),
                forall|x: int, y: int|
                    on_board(n as int, x, y) ==> #[trigger] flag(rows(lay@), x, y) == p(x, y),
                r < n,
                c <= n,
                row@ == lay@[r as int]@,
                in_row == count_row(p, r + 1, c as int),
                in_row <= c,
            decreases n - c,
        {
            assert(flag(rows(lay@), c as int + 1, r as int + 1) == row@[c as int]);
            if row[c] {
                in_row = in_row + 1;
            }
            c += 1;
        }
        proof {
            lemma_count_grid_le(p, p, r as int, n as int);
            assert(r * n + n <= n * n) by (nonlinear_arith)
                requires
                    r < n,
            ;
            assert(n * n <= MAX_SIDE * MAX_SIDE) by (nonlinear_arith)
                requires
                    n <= MAX_SIDE,
            ;
        }
        total = total + in_row;
        r += 1;
    }
    proof {
        lemma_count_grid_le(p, p, n as int, n as int);
    }
    total
}

/// Flood fill: zero when the start is off the board or an obstacle, otherwise
/// the number of cells reachable from it through open cells.
pub fn free_area_of(g: &Vec<Vec<bool>>, sx: i64, sy: i64) -> (r: u64)
    requires
        g@.len() <= MAX_SIDE,
        square(rows(g@), g@.len() as int),
    ensures
        r == free_area(rows(g@), sx as int, sy as int),
{
    let n = g.len() as i64;
    if sx < 1 || sx > n || sy < 1 || sy > n {
        return 0;
    }
    let row = &g[(sy - 1) as usize];
    assert(rows(g@)[sy - 1] == row@);
    if row[(sx - 1) as usize] {
        return 0;
    }
    reach_area_of(g, sx, sy)
}

} // verus!
