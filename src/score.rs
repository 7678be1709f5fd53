//! Per-move scoring: contested-food prediction, the food, survival and
//! aggression sub-scores, and their weighted total.
//!
//! Scores are integers in thousandths of a point. The survival score uses the
//! square root of the reachable area, truncated to three decimals.
use vstd::prelude::*;

use crate::board::{abs_int, all_in_i32, in_i32, manhattan, Cell};
use crate::session::OpponentRecord;

verus! {

/// Thousandths in a point.
pub const MILLI: i128 = 1000;

/// Where an opponent is expected one move ahead: its head displaced by the
/// movement over its retained trajectory (newest minus oldest entry); none
/// with fewer than two entries.
pub open spec fn predicted(r: OpponentRecord) -> Option<Cell> {
    if r.trajectory@.len() >= 2 {
        let f = r.trajectory@[0];
        let l = r.trajectory@.last();
        let h = r.body@[0];
        Some(((h.0 + l.0 - f.0) as i64, (h.1 + l.1 - f.1) as i64))
    } else {
        None
    }
}

/// Least distance from a predicted position of `recs[0 .. j]` to `f`.
pub open spec fn pred_min(recs: Seq<OpponentRecord>, f: Cell, j: int) -> Option<int>
    decreases j,
{
    if j <= 0 {
        None
    } else {
        let b = pred_min(recs, f, j - 1);
        match predicted(recs[j - 1]) {
            None => b,
            Some(p) => {
                let d = manhattan(p, f);
                match b {
                    None => Some(d),
                    Some(e) => Some(
                        if d < e {
                            d
                        } else {
                            e
                        },
                    ),
                }
            },
        }
    }
}

/// A food is contested when some predicted opponent position is within two
/// moves of it.
pub open spec fn contested_spec(recs: Seq<OpponentRecord>, f: Cell) -> bool {
    match pred_min(recs, f, recs.len() as int) {
        Some(d) => d <= 2,
        None => false,
    }
}

pub open spec fn opt_i64(m: Option<i64>) -> Option<int> {
    match m {
        Some(v) => Some(v as int),
        None => None,
    }
}

pub open spec fn recs_ok(recs: Seq<OpponentRecord>) -> bool {
    forall|j: int|
        0 <= j < recs.len() ==> {
            &&& all_in_i32((#[trigger] recs[j]).trajectory@)
            &&& recs[j].body@.len() >= 1
            &&& all_in_i32(recs[j].body@)
        }
}

proof fn lemma_pred_min_bound(recs: Seq<OpponentRecord>, f: Cell, j: int)
    requires
        recs_ok(recs),
        in_i32(f),
        j <= recs.len(),
    ensures
        pred_min(recs, f, j) matches Some(d) ==> 0 <= d <= 0x4_0000_0000,
    decreases j,
{
    if j > 0 {
        lemma_pred_min_bound(recs, f, j - 1);
        let r = recs[j - 1];
        if r.trajectory@.len() >= 2 {
            assert(in_i32(r.trajectory@[0]));
            assert(in_i32(r.trajectory@[r.trajectory@.len() - 1]));
            assert(in_i32(r.body@[0]));
        }
    }
}

fn predicted_of(r: &OpponentRecord) -> (p: Option<Cell>)
    requires
        all_in_i32(r.trajectory@),
        r.body@.len() >= 1,
        all_in_i32(r.body@),
    ensures
        p == predicted(*r),
{
    let t = &r.trajectory;
    if t.len() >= 2 {
        let f = t[0];
        let l = t[t.len() - 1];
        let h = r.body[0];
        assert(in_i32(f) && in_i32(l) && in_i32(h));
        Some((h.0 + l.0 - f.0, h.1 + l.1 - f.1))
    } else {
        None
    }
}

pub(crate) fn dist(a: Cell, b: Cell) -> (r: i64)
    requires
        -0x4_0000_0000 <= a.0 <= 0x4_0000_0000,
        -0x4_0000_0000 <= a.1 <= 0x4_0000_0000,
        -0x4_0000_0000 <= b.0 <= 0x4_0000_0000,
        -0x4_0000_0000 <= b.1 <= 0x4_0000_0000,
    ensures
        r == manhattan(a, b),
{
    let dx = if a.0 >= b.0 {
        a.0 - b.0
    } else {
        b.0 - a.0
    };
    let dy = if a.1 >= b.1 {
        a.1 - b.1
    } else {
        b.1 - a.1
    };
    dx + dy
}

/// For each food cell, whether it is contested and the least distance to it
/// from a predicted opponent position (none when no opponent is predicted).
pub fn predict_contested_food(foods: &Vec<Cell>, recs: &Vec<OpponentRecord>) -> (res: (
    Vec<bool>,
    Vec<Option<i64>>,
))
    requires
        all_in_i32(foods@),
        recs_ok(recs@),
    ensures
        res.0@.len() == foods@.len(),
        res.1@.len() == foods@.len(),
        forall|i: int|
            0 <= i < foods@.len() ==> #[trigger] res.0@[i] == contested_spec(recs@, foods@[i]),
        forall|i: int|
            0 <= i < foods@.len() ==> opt_i64(#[trigger] res.1@[i]) == pred_min(
                recs@,
                foods@[i],
                recs@.len() as int,
            ),
        forall|i: int|
            0 <= i < foods@.len() ==> (#[trigger] res.1@[i] matches Some(d) ==> 0 <= d
                <= 0x4_0000_0000),
{
    let mut contested: Vec<bool> = Vec::new();
    let mut enemy: Vec<Option<i64>> = Vec::new();
    let mut i: usize = 0;
    while i < foods.len()
        invariant
            all_in_i32(foods@),
            recs_ok(recs@),
            i <= foods@.len(),
            contested@.len() == i,
            enemy@.len() == i,
            forall|t: int|
                0 <= t < i ==> #[trigger] contested@[t] == contested_spec(recs@, foods@[t]),
            forall|t: int|
                0 <= t < i ==> opt_i64(#[trigger] enemy@[t]) == pred_min(
                    recs@,
                    foods@[t],
                    recs@.len() as int,
                ),
            forall|t: int|
                0 <= t < i ==> (#[trigger] enemy@[t] matches Some(d) ==> 0 <= d <= 0x4_0000_0000),
        decreases foods@.len() - i,
    {
        let f = foods[i];
        assert(in_i32(f));
        let mut best: Option<i64> = None;
        let mut j: usize = 0;
        while j < recs.len()
            invariant
                recs_ok(recs@),
                in_i32(f),
                j <= recs@.len(),
                opt_i64(best) == pred_min(recs@, f, j as int),
                best matches Some(d) ==> 0 <= d <= 0x4_0000_0000,
            decreases recs@.len() - j,
        {
            proof {
                lemma_pred_min_bound(recs@, f, j + 1);
            }
            let r = &recs[j];
            assert(all_in_i32(r.trajectory@) && r.body@.len() >= 1 && all_in_i32(r.body@));
            match predicted_of(r) {
                None => {},
                Some(p) => {
                    proof {
                        let t = r.trajectory@;
                        assert(in_i32(t[0]) && in_i32(t[t.len() - 1]) && in_i32(r.body@[0]));
                    }
                    let d = dist(p, f);
                    best = match best {
                        None => Some(d),
                        Some(e) => Some(
                            if d < e {
                                d
                            } else {
                                e
                            },
                        ),
                    };
                },
            }
            j += 1;
        }
        contested.push(
            match best {
                Some(d) => d <= 2,
                None => false,
            },
        );
        enemy.push(best);
        i += 1;
    }
    (contested, enemy)
}

/// The food lies within 1.5 (Manhattan) of the board centre, given as twice
/// its coordinates (`c2` on both axes).
pub open spec fn near_center(f: Cell, c2: int) -> bool {
    abs_int(2 * f.0 - c2) + abs_int(2 * f.1 - c2) < 3
}

/// The contribution of one food to the food score of a move to `h`.
pub open spec fn food_term(h: Cell, f: Cell, contested: bool, enemy: Option<int>, c2: int) -> int {
    let d = manhattan(h, f);
    let bonus = if near_center(f, c2) {
        10int
    } else {
        0int
    };
    if contested {
        -3 * d + bonus
    } else {
        match enemy {
            Some(e) => if e < d {
                -d + bonus
            } else {
                0
            },
            None => 0,
        }
    }
}

pub open spec fn food_terms(
    h: Cell,
    foods: Seq<Cell>,
    contested: Seq<bool>,
    enemy: Seq<Option<i64>>,
    c2: int,
    i: int,
) -> int
    decreases i,
{
    if i <= 0 {
        0
    } else {
        food_terms(h, foods, contested, enemy, c2, i - 1) + food_term(
            h,
            foods[i - 1],
            contested[i - 1],
            opt_i64(enemy[i - 1]),
            c2,
        )
    }
}

/// Least distance from `h` to `foods[0 .. i]` (`i >= 1`).
pub open spec fn min_food_dist(h: Cell, foods: Seq<Cell>, i: int) -> int
    decreases i,
{
    if i <= 1 {
        manhattan(h, foods[0])
    } else {
        let b = min_food_dist(h, foods, i - 1);
        let d = manhattan(h, foods[i - 1]);
        if d < b {
            d
        } else {
            b
        }
    }
}

/// The food score of a move to `h`, in points: 100 on a food cell; otherwise
/// the sum of the foods' terms less the distance to the nearest food.
pub open spec fn food_score(
    h: Cell,
    foods: Seq<Cell>,
    contested: Seq<bool>,
    enemy: Seq<Option<i64>>,
    c2: int,
) -> int {
    if foods.contains(h) {
        100
    } else if foods.len() == 0 {
        0
    } else {
        food_terms(h, foods, contested, enemy, c2, foods.len() as int) - min_food_dist(
            h,
            foods,
            foods.len() as int,
        )
    }
}

/// A move onto a food cell scores exactly 100 for food, whatever the
/// distances to the other foods.
pub proof fn lemma_food_on_cell(
    h: Cell,
    foods: Seq<Cell>,
    contested: Seq<bool>,
    enemy: Seq<Option<i64>>,
    c2: int,
)
    requires
        foods.contains(h),
    ensures
        food_score(h, foods, contested, enemy, c2) == 100,
{
}

/// The food score of a move to `h`, in points (see `food_score`).
pub fn compute_food_score(
    h: Cell,
    foods: &Vec<Cell>,
    contested: &Vec<bool>,
    enemy: &Vec<Option<i64>>,
    c2: i64,
) -> (r: i128)
    requires
        in_i32(h),
        all_in_i32(foods@),
        contested@.len() == foods@.len(),
        enemy@.len() == foods@.len(),
        0 <= c2 <= 16,
    ensures
        r == food_score(h, foods@, contested@, enemy@, c2 as int),
        -0x10_0000_0000 * (foods@.len() + 1) <= r <= 0x10_0000_0000 * (foods@.len() + 1),
{
    if crate::board::has_cell(foods, h) {
        return 100;
    }
    if foods.len() == 0 {
        return 0;
    }
    let mut score: i128 = 0;
    let mut min_d: i64 = 0;
    let mut i: usize = 0;
    while i < foods.len()
        invariant
            in_i32(h),
            all_in_i32(foods@),
            contested@.len() == foods@.len(),
            enemy@.len() == foods@.len(),
            0 <= c2 <= 16,
            i <= foods@.len(),
            score == food_terms(h, foods@, contested@, enemy@, c2 as int, i as int),
            -(i as int) * 0x10_0000_0000 <= score <= (i as int) * 0x10_0000_0000,
            i >= 1 ==> min_d == min_food_dist(h, foods@, i as int),
            0 <= min_d <= 0x10_0000_0000,
        decreases foods@.len() - i,
    {
        let f = foods[i];
        assert(in_i32(f));
        let d = dist(h, f);
        let bonus: i128 = if dist((2 * f.0, 2 * f.1), (c2, c2)) < 3 {
            10
        } else {
            0
        };
        let term: i128 = if contested[i] {
            -3 * (d as i128) + bonus
        } else {
            match enemy[i] {
                Some(e) => if e < d {
                    -(d as i128) + bonus
                } else {
                    0
                },
                None => 0,
            }
        };
        score = score + term;
        if i == 0 || d < min_d {
            min_d = d;
        }
        i += 1;
    }
    score - min_d as i128
}

/// `r` is the integer square root of `v`.
pub open spec fn is_root(v: int, r: int) -> bool {
    0 <= r && r * r <= v < (r + 1) * (r + 1)
}

/// The integer square root of `v` (`v >= 0`).
pub open spec fn root(v: int) -> int {
    choose|r: int| is_root(v, r)
}

proof fn lemma_root_unique(v: int, a: int, b: int)
    requires
        is_root(v, a),
        is_root(v, b),
    ensures
        a == b,
{
    if a < b {
        assert((a + 1) * (a + 1) <= b * b) by (nonlinear_arith)
            requires
                0 <= a + 1 <= b,
        ;
    } else if b < a {
        assert((b + 1) * (b + 1) <= a * a) by (nonlinear_arith)
            requires
                0 <= b + 1 <= a,
        ;
    }
}

/// The integer square root, by bisection.
pub fn isqrt(v: u128) -> (r: u128)
    requires
        v < 0x10_0000_0000_0000_0000_0000,
    ensures
        r == root(v as int),
        r < 0x400_0000_0000,
{
    let mut lo: u128 = 0;
    let mut hi: u128 = 0x400_0000_0000;
    assert(hi * hi > v) by (nonlinear_arith)
        requires
            hi == 0x400_0000_0000,
            v < 0x10_0000_0000_0000_0000_0000,
    ;
    while hi - lo > 1
        invariant
            lo < hi <= 0x400_0000_0000,
            lo * lo <= v,
            v < hi * hi,
        decreases hi - lo,
    {
        let mid = lo + (hi - lo) / 2;
        assert(mid * mid <= 0x400_0000_0000 * 0x400_0000_0000) by (nonlinear_arith)
            requires
                0 <= mid <= 0x400_0000_0000,
        ;
        if mid * mid <= v {
            lo = mid;
        } else {
            hi = mid;
        }
    }
    proof {
        assert(is_root(v as int, lo as int));
        lemma_root_unique(v as int, lo as int, root(v as int));
    }
    lo
}

} // verus!
