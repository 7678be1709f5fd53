//! Cells, snake bodies and food lists, as read from the raw integer input,
//! and the occupancy maps built from them.
use vstd::prelude::*;

use crate::grid::{rows, square, MAX_SIDE};

verus! {

/// A board cell `(x, y)`.
pub type Cell = (i64, i64);

pub open spec fn abs_int(a: int) -> int {
    if a < 0 {
        -a
    } else {
        a
    }
}

/// Manhattan distance between two cells.
pub open spec fn manhattan(a: Cell, b: Cell) -> int {
    abs_int(a.0 - b.0) + abs_int(a.1 - b.1)
}

/// Both coordinates lie in the range of `i32`.
pub open spec fn in_i32(c: Cell) -> bool {
    i32::MIN <= c.0 <= i32::MAX && i32::MIN <= c.1 <= i32::MAX
}

pub open spec fn all_in_i32(s: Seq<Cell>) -> bool {
    forall|i: int| 0 <= i < s.len() ==> in_i32(#[trigger] s[i])
}

/// The body that `raw` holds from entry `off` on, starting at its pair `i`:
/// up to four `x, y` pairs, ending at the first pair with a coordinate below 1
/// or at the end of `raw`.
pub open spec fn body_from(raw: Seq<i32>, off: int, i: int) -> Seq<Cell>
    decreases 4 - i,
{
    if 0 <= i < 4 && 0 <= off && off + 2 * i + 1 < raw.len() && raw[off + 2 * i] >= 1 && raw[off
        + 2 * i + 1] >= 1 {
        seq![(raw[off + 2 * i] as i64, raw[off + 2 * i + 1] as i64)] + body_from(raw, off, i + 1)
    } else {
        Seq::empty()
    }
}

/// The food cells of `raw` among its first `i` pairs: those with both
/// coordinates at least 1, in order.
pub open spec fn foods_upto(raw: Seq<i32>, i: int) -> Seq<Cell>
    decreases i,
{
    if i <= 0 {
        Seq::empty()
    } else {
        let before = foods_upto(raw, i - 1);
        if raw[2 * (i - 1)] >= 1 && raw[2 * (i - 1) + 1] >= 1 {
            before.push((raw[2 * (i - 1)] as i64, raw[2 * (i - 1) + 1] as i64))
        } else {
            before
        }
    }
}

pub open spec fn food_list(raw: Seq<i32>) -> Seq<Cell> {
    foods_upto(raw, (raw.len() / 2) as int)
}

/// The opponents present this round: the non-empty bodies of the slots, in
/// slot order.
pub open spec fn present_upto(raw: Seq<i32>, k: int) -> Seq<Seq<Cell>>
    decreases k,
{
    if k <= 0 {
        Seq::empty()
    } else {
        let b = body_from(raw, 8 * (k - 1), 0);
        if b.len() > 0 {
            present_upto(raw, k - 1).push(b)
        } else {
            present_upto(raw, k - 1)
        }
    }
}

pub open spec fn present_bodies(raw: Seq<i32>) -> Seq<Seq<Cell>> {
    present_upto(raw, (raw.len() / 8) as int)
}

/// Some body of `bodies`, or `extra`, covers `(x, y)`.
pub open spec fn occupied(bodies: Seq<Seq<Cell>>, extra: Seq<Cell>, x: int, y: int) -> bool {
    extra.contains((x as i64, y as i64)) || exists|j: int|
        0 <= j < bodies.len() && (#[trigger] bodies[j]).contains((x as i64, y as i64))
}

/// The `n x n` flag map of the cells that `bodies` or `extra` cover.
pub open spec fn occupancy(n: int, bodies: Seq<Seq<Cell>>, extra: Seq<Cell>) -> Seq<Seq<bool>> {
    Seq::new(n as nat, |r: int| Seq::new(n as nat, |c: int| occupied(bodies, extra, c + 1, r + 1)))
}

/// The views of a list of bodies.
pub open spec fn views(v: Seq<Vec<Cell>>) -> Seq<Seq<Cell>> {
    Seq::new(v.len(), |i: int| v[i]@)
}

proof fn lemma_body_from_len(raw: Seq<i32>, off: int, i: int)
    ensures
        body_from(raw, off, i).len() <= if 0 <= i <= 4 {
            4 - i
        } else {
            0
        },
        all_in_i32(body_from(raw, off, i)),
        forall|j: int|
            0 <= j < body_from(raw, off, i).len() ==> (#[trigger] body_from(raw, off, i)[j]).0 >= 1
                && body_from(raw, off, i)[j].1 >= 1,
    decreases 4 - i,
{
    if 0 <= i < 4 && 0 <= off && off + 2 * i + 1 < raw.len() && raw[off + 2 * i] >= 1 && raw[off
        + 2 * i + 1] >= 1 {
        lemma_body_from_len(raw, off, i + 1);
        let rest = body_from(raw, off, i + 1);
        let s = seq![(raw[off + 2 * i] as i64, raw[off + 2 * i + 1] as i64)] + rest;
        assert forall|j: int| 0 <= j < s.len() implies in_i32(#[trigger] s[j]) && s[j].0 >= 1
            && s[j].1 >= 1 by {
            if j > 0 {
                assert(s[j] == rest[j - 1]);
            }
        }
    }
}

/// The body held in `raw` from entry `off`: up to four `x, y` pairs, head
/// first, ending at the first pair with a coordinate below 1.
pub fn parse_snake_coords(raw: &[i32], off: usize) -> (body: Vec<Cell>)
    ensures
        body@ == body_from(raw@, off as int, 0),
        body@.len() <= 4,
        all_in_i32(body@),
{
    proof {
        lemma_body_from_len(raw@, off as int, 0);
    }
    let mut body: Vec<Cell> = Vec::new();
    let mut i: usize = 0;
    while i < 4
        invariant
            i <= 4,
            body_from(raw@, off as int, 0) == body@ + body_from(raw@, off as int, i as int),
            body_from(raw@, off as int, 0).len() <= 4,
            all_in_i32(body_from(raw@, off as int, 0)),
        decreases 4 - i,
    {
        if off >= raw.len() || raw.len() - off < 2 * i + 2 {
            assert(body_from(raw@, off as int, i as int) =~= Seq::empty());
            assert(body@ + Seq::empty() =~= body@);
            return body;
        }
        let x = raw[off + 2 * i];
        let y = raw[off + 2 * i + 1];
        if x < 1 || y < 1 {
            assert(body@ + Seq::empty() =~= body@);
            return body;
        }
        let ghost before = body@;
        body.push((x as i64, y as i64));
        proof {
            let rest = body_from(raw@, off as int, i + 1);
            assert(before + (seq![(x as i64, y as i64)] + rest) =~= body@ + rest);
        }
        i += 1;
    }
    assert(body@ + body_from(raw@, off as int, 4) =~= body@);
    body
}

pub proof fn lemma_food_cells(raw: Seq<i32>, i: int)
    ensures
        all_in_i32(foods_upto(raw, i)),
    decreases i,
{
    if i > 0 {
        lemma_food_cells(raw, i - 1);
        let before = foods_upto(raw, i - 1);
        assert forall|j: int| 0 <= j < foods_upto(raw, i).len() implies in_i32(
            #[trigger] foods_upto(raw, i)[j],
        ) by {
            if j < before.len() {
                assert(foods_upto(raw, i)[j] == before[j]);
            }
        }
    }
}

/// The food cells of `raw`: each `x, y` pair with both coordinates at least 1.
pub fn parse_food_coords(raw: &[i32]) -> (foods: Vec<Cell>)
    ensures
        foods@ == food_list(raw@),
{
    let len = raw.len();
    let count = len / 2;
    let mut foods: Vec<Cell> = Vec::new();
    let mut i: usize = 0;
    while i < count
        invariant
            len == raw@.len(),
            count == raw@.len() / 2,
            i <= count,
            foods@ == foods_upto(raw@, i as int),
        decreases count - i,
    {
        assert(2 * i + 1 < raw@.len());
        let x = raw[2 * i];
        let y = raw[2 * i + 1];
        if x >= 1 && y >= 1 {
            foods.push((x as i64, y as i64));
        }
        i += 1;
    }
    foods
}

proof fn lemma_present_cells(raw: Seq<i32>, k: int)
    ensures
        forall|j: int|
            0 <= j < present_upto(raw, k).len() ==> all_in_i32(#[trigger] present_upto(raw, k)[j])
                && present_upto(raw, k)[j].len() > 0 && present_upto(raw, k)[j].len() <= 4,
    decreases k,
{
    if k > 0 {
        lemma_present_cells(raw, k - 1);
        lemma_body_from_len(raw, 8 * (k - 1), 0);
        let before = present_upto(raw, k - 1);
        let b = body_from(raw, 8 * (k - 1), 0);
        if b.len() > 0 {
            assert forall|j: int| 0 <= j < before.push(b).len() implies all_in_i32(
                #[trigger] before.push(b)[j],
            ) && before.push(b)[j].len() > 0 && before.push(b)[j].len() <= 4 by {
                if j < before.len() {
                    assert(before.push(b)[j] == before[j]);
                }
            }
        }
    }
}

/// The bodies of the opponents present this round: `raw` holds one block of
/// eight entries per opponent slot; empty bodies (dead opponents) are left out.
pub fn parse_other_snakes(raw: &[i32]) -> (bodies: Vec<Vec<Cell>>)
    ensures
        views(bodies@) == present_bodies(raw@),
        bodies@.len() <= raw@.len() / 8,
        forall|j: int|
            0 <= j < bodies@.len() ==> all_in_i32((#[trigger] bodies@[j])@) && bodies@[j]@.len()
                > 0 && bodies@[j]@.len() <= 4,
{
    let len = raw.len();
    let slots = len / 8;
    let mut bodies: Vec<Vec<Cell>> = Vec::new();
    let mut k: usize = 0;
    while k < slots
        invariant
            len == raw@.len(),
            slots == raw@.len() / 8,
            k <= slots,
            views(bodies@) == present_upto(raw@, k as int),
            bodies@.len() <= k,
        decreases slots - k,
    {
        assert(8 * k + 8 <= raw@.len());
        let b = parse_snake_coords(raw, 8 * k);
        if b.len() > 0 {
            let ghost before = bodies@;
            bodies.push(b);
            assert(views(bodies@) =~= views(before).push(b@));
        }
        k += 1;
    }
    proof {
        lemma_present_cells(raw@, slots as int);
        assert forall|j: int| 0 <= j < bodies@.len() implies all_in_i32((#[trigger] bodies@[j])@)
            && bodies@[j]@.len() > 0 && bodies@[j]@.len() <= 4 by {
            assert(views(bodies@)[j] == bodies@[j]@);
        }
    }
    bodies
}

/// Whether `s` holds the cell `c`.
pub fn has_cell(s: &Vec<Cell>, c: Cell) -> (r: bool)
    ensures
        r == s@.contains(c),
{
    let mut i: usize = 0;
    while i < s.len()
        invariant
            i <= s@.len(),
            forall|j: int| 0 <= j < i ==> s@[j] != c,
        decreases s@.len() - i,
    {
        let e = s[i];
        if e.0 == c.0 && e.1 == c.1 {
            assert(s@[i as int] == c);
            return true;
        }
        i += 1;
    }
    false
}

fn covered(bodies: &Vec<Vec<Cell>>, extra: &Vec<Cell>, c: Cell) -> (r: bool)
    ensures
        r == occupied(views(bodies@), extra@, c.0 as int, c.1 as int),
{
    if has_cell(extra, c) {
        return true;
    }
    let mut j: usize = 0;
    while j < bodies.len()
        invariant
            j <= bodies@.len(),
            forall|t: int| 0 <= t < j ==> !(#[trigger] views(bodies@)[t]).contains(c),
        decreases bodies@.len() - j,
    {
        if has_cell(&bodies[j], c) {
            assert(views(bodies@)[j as int] == bodies@[j as int]@);
            return true;
        }
        assert(views(bodies@)[j as int] == bodies@[j as int]@);
        j += 1;
    }
    false
}

/// The `n x n` map of the cells covered by `bodies` or by `extra`.
pub fn occupancy_map(bodies: &Vec<Vec<Cell>>, extra: &Vec<Cell>, n: usize) -> (g: Vec<Vec<bool>>)
    requires
        n <= MAX_SIDE,
    ensures
        rows(g@) == occupancy(n as int, views(bodies@), extra@),
        square(rows(g@), n as int),
{
    let ghost want = occupancy(n as int, views(bodies@), extra@);
    let mut g: Vec<Vec<bool>> = Vec::new();
    let mut r: usize = 0;
    while r < n
        invariant
            r <= n <= MAX_SIDE,
            want == occupancy(n as int, views(bodies@), extra@),
            g@.len() == r,
            forall|i: int| 0 <= i < r ==> (#[trigger] g@[i])@ == want[i],
        decreases n - r,
    {
        let mut row: Vec<bool> = Vec::new();
        let mut c: usize = 0;
        while c < n
            invariant
                c <= n <= MAX_SIDE,
                r < n,
                want == occupancy(n as int, views(bodies@), extra@),
                row@.len() == c,
                forall|i: int| 0 <= i < c ==> #[trigger] row@[i] == want[r as int][i],
            decreases n - c,
        {
            let v = covered(bodies, extra, (c as i64 + 1, r as i64 + 1));
            row.push(v);
            c += 1;
        }
        assert(row@ =~= want[r as int]);
        g.push(row);
        r += 1;
    }
    assert(rows(g@) =~= want);
    g
}

} // verus!
