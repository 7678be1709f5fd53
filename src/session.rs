//! The state kept across the rounds of one game: opponent identities, their
//! recent head positions and food scores, last round's food, and the game mode.
use vstd::prelude::*;

use crate::board::{all_in_i32, has_cell, Cell};

verus! {

/// What is remembered of one opponent, under its stable id.
pub struct OpponentRecord {
    pub id: u64,
    /// Its body in the latest round, head first.
    pub body: Vec<Cell>,
    /// Its most recent head positions, oldest first (at most five).
    pub trajectory: Vec<Cell>,
    /// How many times its head was found on a food cell of the round before.
    pub score: u64,
}

/// The state of one game session.
pub struct Session {
    /// The opponent-count parameter of the first call, kept for the session.
    pub mode: Option<i32>,
    /// The opponents present in the latest round, in that round's slot order.
    pub records: Vec<OpponentRecord>,
    /// The food cells of the latest round.
    pub last_foods: Vec<Cell>,
    /// How many times the controlled snake's head was found on last round's food.
    pub my_score: u64,
    /// The next fresh stable id; every id issued so far is below it.
    pub next_id: u64,
}

/// Longest trajectory kept for an opponent.
pub const TRAJECTORY_LEN: usize = 5;

/// Least overlap for two bodies of consecutive rounds to be the same opponent.
pub const MIN_OVERLAP: usize = 3;

pub open spec fn record_ok(r: OpponentRecord, next_id: u64) -> bool {
    &&& r.id < next_id
    &&& 1 <= r.trajectory@.len() <= TRAJECTORY_LEN
    &&& all_in_i32(r.trajectory@)
    &&& 1 <= r.body@.len() <= 4
    &&& all_in_i32(r.body@)
}

pub open spec fn ids_distinct(recs: Seq<OpponentRecord>) -> bool {
    forall|i: int, j: int|
        0 <= i < recs.len() && 0 <= j < recs.len() && i != j ==> (#[trigger] recs[i]).id
            != (#[trigger] recs[j]).id
}

impl Session {
    pub open spec fn wf(&self) -> bool {
        &&& forall|i: int|
            0 <= i < self.records@.len() ==> record_ok(#[trigger] self.records@[i], self.next_id)
        &&& ids_distinct(self.records@)
    }

    /// A fresh session: no mode yet, no opponents, no food seen, no score.
    pub fn new() -> (s: Session)
        ensures
            s.wf(),
            s.mode is None,
            s.records@.len() == 0,
            s.last_foods@.len() == 0,
            s.my_score == 0,
            s.next_id == 0,
    {
        Session { mode: None, records: Vec::new(), last_foods: Vec::new(), my_score: 0, next_id: 0 }
    }
}

/// Number of cells of `cur` that `prev` holds too.
pub open spec fn overlap(cur: Seq<Cell>, prev: Seq<Cell>) -> nat
    decreases cur.len(),
{
    if cur.len() == 0 {
        0
    } else {
        overlap(cur.drop_last(), prev) + if prev.contains(cur.last()) {
            1nat
        } else {
            0nat
        }
    }
}

/// The best match for `body` among `prev[0 .. j]`: the record, not among
/// `used`, with the largest overlap of at least three, the earliest on ties;
/// as its index and overlap.
pub open spec fn best_from(body: Seq<Cell>, prev: Seq<OpponentRecord>, used: Seq<u64>, j: int) -> Option<
    (int, nat),
>
    decreases j,
{
    if j <= 0 {
        None
    } else {
        let b = best_from(body, prev, used, j - 1);
        let c = overlap(body, prev[j - 1].body@);
        let better = match b {
            Some((_, bc)) => c > bc,
            None => true,
        };
        if c >= MIN_OVERLAP && !used.contains(prev[j - 1].id) && better {
            Some((j - 1, c))
        } else {
            b
        }
    }
}

/// The outcome of matching: for each current body, the index of the record it
/// continues (if any) and its stable id; and the next fresh id.
pub struct Assignment {
    pub matches: Seq<Option<int>>,
    pub ids: Seq<u64>,
    pub next: int,
}

/// Greedy matching of the first `i` current bodies, in order, against the
/// previous round's records; a body with no match gets the next fresh id.
pub open spec fn assign(cur: Seq<Seq<Cell>>, prev: Seq<OpponentRecord>, next: u64, i: int) -> Assignment
    decreases i,
{
    if i <= 0 {
        Assignment { matches: Seq::empty(), ids: Seq::empty(), next: next as int }
    } else {
        let a = assign(cur, prev, next, i - 1);
        match best_from(cur[i - 1], prev, a.ids, prev.len() as int) {
            Some((j, _)) => Assignment {
                matches: a.matches.push(Some(j)),
                ids: a.ids.push(prev[j].id),
                next: a.next,
            },
            None => Assignment {
                matches: a.matches.push(None),
                ids: a.ids.push(a.next as u64),
                next: a.next + 1,
            },
        }
    }
}

/// The trajectory after appending `head`, the oldest entry dropped beyond five.
pub open spec fn next_trajectory(old: Seq<Cell>, head: Cell) -> Seq<Cell> {
    let t = old.push(head);
    if t.len() > TRAJECTORY_LEN {
        t.drop_first()
    } else {
        t
    }
}

/// A score raised by one when `ate` (held at the largest `u64`).
pub open spec fn bump(s: u64, ate: bool) -> u64 {
    if ate && s < u64::MAX {
        (s + 1) as u64
    } else {
        s
    }
}

/// The record of current body `i` after the round.
pub open spec fn record_after(
    r: OpponentRecord,
    cur: Seq<Seq<Cell>>,
    prev: Seq<OpponentRecord>,
    a: Assignment,
    last_foods: Seq<Cell>,
    i: int,
) -> bool {
    let head = cur[i][0];
    let (old_traj, old_score) = match a.matches[i] {
        Some(j) => (prev[j].trajectory@, prev[j].score),
        None => (Seq::empty(), 0u64),
    };
    &&& r.id == a.ids[i]
    &&& r.body@ == cur[i]
    &&& r.trajectory@ == next_trajectory(old_traj, head)
    &&& r.score == bump(old_score, last_foods.contains(head))
}

pub open spec fn bodies_ok(cur: Seq<Seq<Cell>>) -> bool {
    forall|i: int|
        0 <= i < cur.len() ==> 1 <= (#[trigger] cur[i]).len() <= 4 && all_in_i32(cur[i])
}

/// Number of cells of `cur` that `prev` holds too.
pub fn count_overlap(cur: &Vec<Cell>, prev: &Vec<Cell>) -> (r: usize)
    ensures
        r == overlap(cur@, prev@),
{
    let mut r: usize = 0;
    let mut i: usize = 0;
    while i < cur.len()
        invariant
            i <= cur@.len(),
            r == overlap(cur@.subrange(0, i as int), prev@),
            r <= i,
        decreases cur@.len() - i,
    {
        proof {
            let s = cur@.subrange(0, i + 1);
            assert(s.drop_last() =~= cur@.subrange(0, i as int));
        }
        if has_cell(prev, cur[i]) {
            r = r + 1;
        }
        i += 1;
    }
    assert(cur@.subrange(0, cur@.len() as int) =~= cur@);
    r
}

fn id_used(used: &Vec<u64>, id: u64) -> (r: bool)
    ensures
        r == used@.contains(id),
{
    let mut i: usize = 0;
    while i < used.len()
        invariant
            i <= used@.len(),
            forall|t: int| 0 <= t < i ==> used@[t] != id,
        decreases used@.len() - i,
    {
        if used[i] == id {
            return true;
        }
        i += 1;
    }
    false
}

/// What a best match is: a record in range, unused, overlapping by three or more.
pub proof fn lemma_best_from(body: Seq<Cell>, prev: Seq<OpponentRecord>, used: Seq<u64>, j: int)
    requires
        j <= prev.len(),
    ensures
        best_from(body, prev, used, j) matches Some(b) ==> 0 <= b.0 < j && b.1 == overlap(
            body,
            prev[b.0].body@,
        ) && b.1 >= MIN_OVERLAP && !used.contains(prev[b.0].id),
    decreases j,
{
    if j > 0 {
        lemma_best_from(body, prev, used, j - 1);
    }
}

pub open spec fn as_int_opt(m: Option<usize>) -> Option<int> {
    match m {
        Some(j) => Some(j as int),
        None => None,
    }
}

/// The best match for `body` among the records, not among `used`.
fn best_match(body: &Vec<Cell>, prev: &Vec<OpponentRecord>, used: &Vec<u64>) -> (r: Option<usize>)
    ensures
        as_int_opt(r) == match best_from(body@, prev@, used@, prev@.len() as int) {
            Some(b) => Some(b.0),
            None => None,
        },
{
    let mut best: Option<usize> = None;
    let mut best_count: usize = 0;
    let mut j: usize = 0;
    while j < prev.len()
        invariant
            j <= prev@.len(),
            as_int_opt(best) == match best_from(body@, prev@, used@, j as int) {
                Some(b) => Some(b.0),
                None => None,
            },
            best_from(body@, prev@, used@, j as int) matches Some(b) ==> best_count == b.1,
            best is None <==> best_from(body@, prev@, used@, j as int) is None,
        decreases prev@.len() - j,
    {
        proof {
            lemma_best_from(body@, prev@, used@, j as int);
        }
        let count = count_overlap(body, &prev[j].body);
        if count >= MIN_OVERLAP && (best.is_none() || count > best_count) && !id_used(used, prev[j].id) {
            best = Some(j);
            best_count = count;
        }
        j += 1;
    }
    best
}

/// Stable ids for this round's opponent bodies, greedily, in order: each body
/// takes the unused previous record with the largest overlap of at least three
/// cells (the earliest on ties), or else a fresh id.
pub fn match_enemy_snakes(cur: &Vec<Vec<Cell>>, prev: &Vec<OpponentRecord>, next: u64) -> (res: (
    Vec<Option<usize>>,
    Vec<u64>,
    u64,
))
    requires
        next + cur@.len() <= u64::MAX,
    ensures
        res.0@.len() == cur@.len(),
        res.1@ == assign(crate::board::views(cur@), prev@, next, cur@.len() as int).ids,
        res.2 == assign(crate::board::views(cur@), prev@, next, cur@.len() as int).next,
        forall|i: int|
            0 <= i < cur@.len() ==> as_int_opt(#[trigger] res.0@[i]) == assign(
                crate::board::views(cur@),
                prev@,
                next,
                cur@.len() as int,
            ).matches[i],
{
    let ghost cv = crate::board::views(cur@);
    let mut matches: Vec<Option<usize>> = Vec::new();
    let mut ids: Vec<u64> = Vec::new();
    let mut fresh = next;
    let mut i: usize = 0;
    while i < cur.len()
        invariant
            cv == crate::board::views(cur@),
            next + cur@.len() <= u64::MAX,
            i <= cur@.len(),
            matches@.len() == i,
            ids@ == assign(cv, prev@, next, i as int).ids,
            fresh == assign(cv, prev@, next, i as int).next,
            fresh <= next + i,
            assign(cv, prev@, next, i as int).matches.len() == i,
            forall|t: int|
                0 <= t < i ==> as_int_opt(#[trigger] matches@[t]) == assign(cv, prev@, next, i as int).matches[t],
        decreases cur@.len() - i,
    {
        assert(cv[i as int] == cur@[i as int]@);
        let m = best_match(&cur[i], prev, &ids);
        proof {
            lemma_best_from(cv[i as int], prev@, ids@, prev@.len() as int);
        }
        let ghost a = assign(cv, prev@, next, i as int);
        match m {
            Some(j) => {
                matches.push(Some(j));
                ids.push(prev[j].id);
            },
            None => {
                matches.push(None);
                ids.push(fresh);
                fresh = fresh + 1;
            },
        }
        proof {
            let a2 = assign(cv, prev@, next, i + 1);
            assert(a2.matches == a.matches.push(a2.matches[i as int]));
            assert forall|t: int| 0 <= t < i + 1 implies as_int_opt(#[trigger] matches@[t]) == a2.matches[t] by {
                if t < i {
                    assert(a2.matches[t] == a.matches[t]);
                }
            }
        }
        i += 1;
    }
    (matches, ids, fresh)
}


/// Facts of the greedy matching: each id is a matched record's or a fresh
/// one, fresh ids count up from `next`, and no id is given twice.
pub proof fn lemma_assign(cur: Seq<Seq<Cell>>, prev: Seq<OpponentRecord>, next: u64, i: int)
    requires
        0 <= i <= cur.len(),
        next + cur.len() <= u64::MAX,
        forall|j: int| 0 <= j < prev.len() ==> (#[trigger] prev[j]).id < next,
    ensures
        assign(cur, prev, next, i).ids.len() == i,
        assign(cur, prev, next, i).matches.len() == i,
        next <= assign(cur, prev, next, i).next <= next + i,
        forall|t: int|
            0 <= t < i ==> match #[trigger] assign(cur, prev, next, i).matches[t] {
                Some(j) => 0 <= j < prev.len() && assign(cur, prev, next, i).ids[t] == prev[j].id
                    && overlap(cur[t], prev[j].body@) >= MIN_OVERLAP,
                None => next <= assign(cur, prev, next, i).ids[t] < assign(cur, prev, next, i).next,
            },
        forall|t: int, u: int|
            0 <= t < i && 0 <= u < i && t != u ==> #[trigger] assign(cur, prev, next, i).ids[t]
                != #[trigger] assign(cur, prev, next, i).ids[u],
    decreases i,
{
    if i > 0 {
        lemma_assign(cur, prev, next, i - 1);
        let a = assign(cur, prev, next, i - 1);
        let a2 = assign(cur, prev, next, i);
        lemma_best_from(cur[i - 1], prev, a.ids, prev.len() as int);
        assert forall|t: int| 0 <= t < i - 1 implies a2.ids[t] == a.ids[t] && a2.matches[t]
            == a.matches[t] by {}
        assert forall|t: int|
            0 <= t < i implies match #[trigger] a2.matches[t] {
            Some(j) => 0 <= j < prev.len() && a2.ids[t] == prev[j].id && overlap(cur[t], prev[j].body@)
                >= MIN_OVERLAP,
            None => next <= a2.ids[t] < a2.next,
        } by {
            if t < i - 1 {
                assert(a2.ids[t] == a.ids[t] && a2.matches[t] == a.matches[t]);
            }
        }
        assert forall|t: int, u: int|
            0 <= t < i && 0 <= u < i && t != u implies #[trigger] a2.ids[t] != #[trigger] a2.ids[u] by {
            if t < i - 1 && u < i - 1 {
                assert(a2.ids[t] == a.ids[t] && a2.ids[u] == a.ids[u]);
            } else {
                let (o, l) = if t < i - 1 {
                    (t, u)
                } else {
                    (u, t)
                };
                assert(l == i - 1);
                assert(a2.ids[o] == a.ids[o] && a2.matches[o] == a.matches[o]);
                match a2.matches[i - 1] {
                    Some(j) => {
                        assert(a.ids[o] == a.ids[o]);
                        assert(a.ids.contains(a.ids[o]));
                    },
                    None => {
                        match a.matches[o] {
                            Some(j) => {
                                assert(prev[j].id < next);
                            },
                            None => {},
                        }
                    },
                }
            }
        }
    }
}

/// Later bodies leave the ids of earlier ones as they were.
proof fn lemma_assign_prefix(cur: Seq<Seq<Cell>>, prev: Seq<OpponentRecord>, next: u64, i: int, m: int)
    requires
        0 <= i < m <= cur.len(),
        next + cur.len() <= u64::MAX,
        forall|j: int| 0 <= j < prev.len() ==> (#[trigger] prev[j]).id < next,
    ensures
        assign(cur, prev, next, m).ids[i] == assign(cur, prev, next, i + 1).ids[i],
    decreases m - i,
{
    if m > i + 1 {
        lemma_assign_prefix(cur, prev, next, i, m - 1);
        lemma_assign(cur, prev, next, m - 1);
    }
}

/// With exactly one eligible record, the best match is that record.
proof fn lemma_best_unique(body: Seq<Cell>, prev: Seq<OpponentRecord>, used: Seq<u64>, j: int, upto: int)
    requires
        0 <= j < prev.len(),
        0 <= upto <= prev.len(),
        overlap(body, prev[j].body@) >= MIN_OVERLAP,
        !used.contains(prev[j].id),
        forall|q: int|
            0 <= q < prev.len() && q != j ==> overlap(body, (#[trigger] prev[q]).body@) < MIN_OVERLAP,
    ensures
        best_from(body, prev, used, upto) == if upto > j {
            Some((j, overlap(body, prev[j].body@)))
        } else {
            None
        },
    decreases upto,
{
    if upto > 0 {
        lemma_best_unique(body, prev, used, j, upto - 1);
    }
}

/// Identity is kept: an opponent whose body overlaps a previous opponent's
/// body by three cells or more keeps that opponent's id, when no other
/// previous body overlaps it that much and no other current body overlaps
/// that previous body that much.
pub proof fn lemma_identity_kept(
    cur: Seq<Seq<Cell>>,
    prev: Seq<OpponentRecord>,
    next: u64,
    i: int,
    j: int,
)
    requires
        0 <= i < cur.len(),
        0 <= j < prev.len(),
        next + cur.len() <= u64::MAX,
        forall|q: int| 0 <= q < prev.len() ==> (#[trigger] prev[q]).id < next,
        ids_distinct(prev),
        overlap(cur[i], prev[j].body@) >= MIN_OVERLAP,
        forall|q: int|
            0 <= q < prev.len() && q != j ==> overlap(cur[i], (#[trigger] prev[q]).body@)
                < MIN_OVERLAP,
        forall|t: int|
            0 <= t < cur.len() && t != i ==> overlap(#[trigger] cur[t], prev[j].body@) < MIN_OVERLAP,
    ensures
        assign(cur, prev, next, cur.len() as int).ids[i] == prev[j].id,
{
    lemma_assign(cur, prev, next, i);
    let a = assign(cur, prev, next, i);
    assert(!a.ids.contains(prev[j].id)) by {
        if a.ids.contains(prev[j].id) {
            let t = choose|t: int| 0 <= t < a.ids.len() && a.ids[t] == prev[j].id;
            match a.matches[t] {
                Some(q) => {
                    assert(prev[q].id == prev[j].id);
                    if q != j {
                        assert(prev[q].id != prev[j].id);
                    }
                },
                None => {},
            }
        }
    }
    lemma_best_unique(cur[i], prev, a.ids, j, prev.len() as int);
    lemma_assign_prefix(cur, prev, next, i, cur.len() as int);
}

/// An opponent whose body shares no cell with any previous body gets a fresh
/// id: at least `next` (so none issued before) and unlike every other id of
/// the round.
pub proof fn lemma_fresh_id(cur: Seq<Seq<Cell>>, prev: Seq<OpponentRecord>, next: u64, i: int)
    requires
        0 <= i < cur.len(),
        next + cur.len() <= u64::MAX,
        forall|q: int| 0 <= q < prev.len() ==> (#[trigger] prev[q]).id < next,
        forall|q: int| 0 <= q < prev.len() ==> overlap(cur[i], (#[trigger] prev[q]).body@) == 0,
    ensures
        assign(cur, prev, next, cur.len() as int).ids[i] >= next,
        forall|t: int|
            0 <= t < cur.len() && t != i ==> #[trigger] assign(cur, prev, next, cur.len() as int).ids[t]
                != assign(cur, prev, next, cur.len() as int).ids[i],
{
    lemma_assign(cur, prev, next, i);
    lemma_assign(cur, prev, next, i + 1);
    lemma_assign(cur, prev, next, cur.len() as int);
    let a = assign(cur, prev, next, i);
    lemma_best_from(cur[i], prev, a.ids, prev.len() as int);
    lemma_assign_prefix(cur, prev, next, i, cur.len() as int);
}

/// Trajectories never hold more than five entries.
pub proof fn lemma_trajectory_bounded(s: Session)
    requires
        s.wf(),
    ensures
        forall|i: int|
            0 <= i < s.records@.len() ==> (#[trigger] s.records@[i]).trajectory@.len()
                <= TRAJECTORY_LEN,
{
    assert forall|i: int| 0 <= i < s.records@.len() implies (#[trigger] s.records@[i]).trajectory@.len()
        <= TRAJECTORY_LEN by {
        assert(record_ok(s.records@[i], s.next_id));
    }
}

/// An exact copy of a list of cells.
pub fn copy_cells(v: &Vec<Cell>) -> (r: Vec<Cell>)
    ensures
        r@ == v@,
{
    let mut r: Vec<Cell> = Vec::new();
    let mut i: usize = 0;
    while i < v.len()
        invariant
            i <= v@.len(),
            r@ == v@.subrange(0, i as int),
        decreases v@.len() - i,
    {
        r.push(v[i]);
        i += 1;
        assert(r@ =~= v@.subrange(0, i as int));
    }
    assert(v@.subrange(0, v@.len() as int) =~= v@);
    r
}

impl Session {
    /// Matches this round's opponent bodies (`cur`, present opponents only, in
    /// slot order) to stable ids, and renews the records: each body's record
    /// continues the matched one, with its head appended to the trajectory
    /// (five entries at most) and its score raised by one when the head is on a
    /// food cell of last round. Records of opponents that are gone are dropped.
    pub fn track_opponents(&mut self, cur: &Vec<Vec<Cell>>)
        requires
            old(self).wf(),
            bodies_ok(crate::board::views(cur@)),
            old(self).next_id + cur@.len() <= u64::MAX,
        ensures
            final(self).wf(),
            final(self).mode == old(self).mode,
            final(self).last_foods@ == old(self).last_foods@,
            final(self).my_score == old(self).my_score,
            final(self).next_id == assign(
                crate::board::views(cur@),
                old(self).records@,
                old(self).next_id,
                cur@.len() as int,
            ).next,
            final(self).records@.len() == cur@.len(),
            forall|i: int|
                0 <= i < cur@.len() ==> record_after(
                    #[trigger] final(self).records@[i],
                    crate::board::views(cur@),
                    old(self).records@,
                    assign(
                        crate::board::views(cur@),
                        old(self).records@,
                        old(self).next_id,
                        cur@.len() as int,
                    ),
                    old(self).last_foods@,
                    i,
                ),
    {
        let ghost cv = crate::board::views(cur@);
        let ghost prev = self.records@;
        let ghost a = assign(cv, prev, self.next_id, cur@.len() as int);
        proof {
            lemma_assign(cv, prev, self.next_id, cur@.len() as int);
        }
        let (matches, ids, fresh) = match_enemy_snakes(cur, &self.records, self.next_id);
        let mut recs: Vec<OpponentRecord> = Vec::new();
        let mut i: usize = 0;
        while i < cur.len()
            invariant
                cv == crate::board::views(cur@),
                bodies_ok(cv),
                prev == self.records@,
                old(self).wf(),
                self.records@ == old(self).records@,
                self.last_foods@ == old(self).last_foods@,
                self.next_id == old(self).next_id,
                a == assign(cv, prev, self.next_id, cur@.len() as int),
                matches@.len() == cur@.len(),
                ids@ == a.ids,
                fresh == a.next,
                forall|t: int| 0 <= t < cur@.len() ==> as_int_opt(#[trigger] matches@[t]) == a.matches[t],
                a.ids.len() == cur@.len(),
                a.matches.len() == cur@.len(),
                self.next_id <= a.next,
                forall|t: int|
                    0 <= t < cur@.len() ==> match #[trigger] a.matches[t] {
                        Some(j) => 0 <= j < prev.len() && a.ids[t] == prev[j].id,
                        None => self.next_id <= a.ids[t] < a.next,
                    },
                i <= cur@.len(),
                recs@.len() == i,
                forall|t: int|
                    0 <= t < i ==> record_after(#[trigger] recs@[t], cv, prev, a, self.last_foods@, t),
                forall|t: int| 0 <= t < i ==> record_ok(#[trigger] recs@[t], fresh),
            decreases cur@.len() - i,
        {
            let body = &cur[i];
            assert(cv[i as int] == body@);
            let head = body[0];
            let m = matches[i];
            assert(as_int_opt(matches@[i as int]) == a.matches[i as int]);
            let (mut traj, score) = match m {
                Some(j) => {
                    assert(record_ok(self.records@[j as int], self.next_id));
                    (copy_cells(&self.records[j].trajectory), self.records[j].score)
                },
                None => (Vec::new(), 0u64),
            };
            let ghost old_traj = traj@;
            traj.push(head);
            if traj.len() > TRAJECTORY_LEN {
                traj.remove(0);
            }
            let ate = has_cell(&self.last_foods, head);
            let score = if ate && score < u64::MAX {
                score + 1
            } else {
                score
            };
            let rec = OpponentRecord { id: ids[i], body: copy_cells(body), trajectory: traj, score };
            proof {
                let t2 = old_traj.push(head);
                if t2.len() > TRAJECTORY_LEN {
                    assert(rec.trajectory@ =~= t2.drop_first());
                } else {
                    assert(rec.trajectory@ =~= t2);
                }
                assert(rec.trajectory@ == next_trajectory(old_traj, head));
                assert forall|q: int| 0 <= q < rec.trajectory@.len() implies crate::board::in_i32(
                    #[trigger] rec.trajectory@[q],
                ) by {
                    if t2.len() > TRAJECTORY_LEN {
                        assert(rec.trajectory@[q] == t2[q + 1]);
                    }
                    if q < old_traj.len() || (t2.len() > TRAJECTORY_LEN && q + 1 < old_traj.len()) {
                    }
                }
                assert(record_after(rec, cv, prev, a, self.last_foods@, i as int));
                assert(record_ok(rec, fresh));
            }
            recs.push(rec);
            i += 1;
        }
        self.records = recs;
        self.next_id = fresh;
        proof {
            assert forall|t: int, u: int|
                0 <= t < self.records@.len() && 0 <= u < self.records@.len() && t != u implies (
            #[trigger] self.records@[t]).id != (#[trigger] self.records@[u]).id by {
                assert(record_after(self.records@[t], cv, prev, a, self.last_foods@, t));
                assert(record_after(self.records@[u], cv, prev, a, self.last_foods@, u));
                assert(a.ids[t] != a.ids[u]);
            }
        }
    }
}

} // verus!
