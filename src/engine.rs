//! One round of move selection: the four candidate moves are scored in the
//! order Up, Left, Down, Right and the best is taken, the earliest on ties.
use vstd::prelude::*;

use crate::board::{
    all_in_i32, body_from, food_list, has_cell, in_i32, manhattan, occupancy, occupancy_map,
    occupied, parse_food_coords, parse_other_snakes, parse_snake_coords, present_bodies, views,
    Cell,
};
use crate::grid::{
    cell_open, dir_dx, dir_dy, free_area, free_area_of, on_board, reach_area, reach_area_of,
    rows, square, step_dx, step_dy, MAX_SIDE,
};
use crate::score::{
    compute_food_score, contested_spec, food_score, isqrt, opt_i64, pred_min, predict_contested_food,
    root, MILLI,
};
use crate::session::{
    assign, bodies_ok, bump, copy_cells, record_after, record_ok, OpponentRecord, Session,
};

verus! {

/// Survival score of a move that leaves too little room, in points.
pub const CRAMPED: i128 = -100;

/// Reachable area below which an opponent counts as trapped.
pub const TRAP_AREA: u64 = 3;

/// Everything the scoring of one round reads.
pub struct Round {
    /// Side of the board.
    pub n: usize,
    /// The controlled snake's body, head first.
    pub me: Vec<Cell>,
    /// The bodies of the opponents present, head first.
    pub others: Vec<Vec<Cell>>,
    /// The cumulative food score of each opponent, in the order of `others`.
    pub opp_scores: Vec<u64>,
    /// This round's food cells.
    pub foods: Vec<Cell>,
    /// For each food, whether an opponent is predicted within two moves of it.
    pub contested: Vec<bool>,
    /// For each food, the least distance to it from a predicted opponent position.
    pub enemy_dist: Vec<Option<i64>>,
    /// The cells covered by any snake.
    pub danger: Vec<Vec<bool>>,
    /// The controlled snake's cumulative food score.
    pub my_score: u64,
    /// The session is a four-snake game.
    pub four_way: bool,
    /// This call reports two snakes.
    pub duel: bool,
}

/// The body after moving the head to `c`: it grows on a food cell, otherwise
/// the tail moves along.
pub open spec fn moved_body(me: Seq<Cell>, c: Cell, foods: Seq<Cell>) -> Seq<Cell> {
    if foods.contains(c) {
        seq![c] + me
    } else {
        seq![c] + me.drop_last()
    }
}

impl Round {
    pub open spec fn wf(&self) -> bool {
        &&& 1 <= self.n <= MAX_SIDE
        &&& 1 <= self.me@.len() <= 4
        &&& all_in_i32(self.me@)
        &&& bodies_ok(views(self.others@))
        &&& self.opp_scores@.len() == self.others@.len()
        &&& all_in_i32(self.foods@)
        &&& self.contested@.len() == self.foods@.len()
        &&& self.enemy_dist@.len() == self.foods@.len()
        &&& rows(self.danger@) == occupancy(self.n as int, views(self.others@), self.me@)
        &&& square(rows(self.danger@), self.n as int)
    }

    /// Twice the board centre's coordinate.
    pub open spec fn center2(&self) -> int {
        if self.four_way {
            9
        } else {
            5
        }
    }

    pub open spec fn survival_weight(&self) -> int {
        if self.four_way {
            10
        } else {
            3
        }
    }

    pub open spec fn aggression_weight(&self) -> int {
        if self.duel {
            3
        } else {
            1
        }
    }

    /// The cell that move `d` leads the head to.
    pub open spec fn target(&self, d: int) -> Cell {
        ((self.me@[0].0 + dir_dx(d)) as i64, (self.me@[0].1 + dir_dy(d)) as i64)
    }

    /// A move to `c` is allowed: on the board, and onto a free cell or onto the
    /// snake's own tail when that cell holds no food and the snake is longer
    /// than one.
    pub open spec fn legal(&self, c: Cell) -> bool {
        &&& on_board(self.n as int, c.0 as int, c.1 as int)
        &&& (!occupied(views(self.others@), self.me@, c.0 as int, c.1 as int) || (c
            == self.me@.last() && !self.foods@.contains(c) && self.me@.len() > 1))
    }

    /// Survival score of a move to `c`: -100 when the cells reachable from the
    /// new head (among those no body covers after the move; the head's own cell
    /// counts) are fewer than the new body's length; else 50 times the square
    /// root of their number.
    pub open spec fn survival(&self, c: Cell) -> int {
        let nb = moved_body(self.me@, c, self.foods@);
        let area = reach_area(occupancy(self.n as int, views(self.others@), nb), c.0 as int, c.1 as int);
        if area < nb.len() {
            CRAMPED * MILLI
        } else {
            50 * root((area * 1_000_000) as int)
        }
    }

    /// Bonus for a move to `c` near opponent `j` whose food score is below ours.
    pub open spec fn trade(&self, c: Cell, j: int) -> int {
        if self.my_score > self.opp_scores@[j] && manhattan(c, self.others@[j]@[0]) <= 2
            && !occupied(views(self.others@), self.me@, c.0 as int, c.1 as int) {
            if self.four_way {
                100 * MILLI
            } else {
                1000 * MILLI
            }
        } else {
            0
        }
    }

    /// Bonus for a move to `c` near opponent `j` that leaves it little room:
    /// `(3 - area) / distance`, the distance taken as 1 when it is 0.
    pub open spec fn trap(&self, c: Cell, j: int) -> int {
        let h = self.others@[j]@[0];
        let d = manhattan(c, h);
        if d <= 2 {
            let a = free_area(
                occupancy(self.n as int, views(self.others@), self.me@.push(c)),
                h.0 as int,
                h.1 as int,
            );
            if a < TRAP_AREA {
                (TRAP_AREA - a) * MILLI / if d == 0 {
                    1
                } else {
                    d
                }
            } else {
                0
            }
        } else {
            0
        }
    }

    pub open spec fn aggression_upto(&self, c: Cell, j: int) -> int
        decreases j,
    {
        if j <= 0 {
            0
        } else {
            self.aggression_upto(c, j - 1) + self.trade(c, j - 1) + self.trap(c, j - 1)
        }
    }

    pub open spec fn aggression(&self, c: Cell) -> int {
        self.aggression_upto(c, self.others@.len() as int)
    }

    /// The weighted total of a move to `c`.
    pub open spec fn total(&self, c: Cell) -> int {
        MILLI * food_score(c, self.foods@, self.contested@, self.enemy_dist@, self.center2())
            + self.survival_weight() * self.survival(c) + self.aggression_weight()
            * self.aggression(c)
    }

    /// The score of move `d`, or none when it is not allowed.
    pub open spec fn candidate(&self, d: int) -> Option<int> {
        if self.legal(self.target(d)) {
            Some(self.total(self.target(d)))
        } else {
            None
        }
    }

    /// The best of moves `0 .. i` with its score: the highest, the earliest on ties.
    pub open spec fn best_upto(&self, i: int) -> Option<(int, int)>
        decreases i,
    {
        if i <= 0 {
            None
        } else {
            let b = self.best_upto(i - 1);
            match self.candidate(i - 1) {
                None => b,
                Some(v) => match b {
                    None => Some((i - 1, v)),
                    Some((_, bv)) => if v > bv {
                        Some((i - 1, v))
                    } else {
                        b
                    },
                },
            }
        }
    }

    /// The chosen move: the best allowed one, Up when none is allowed.
    pub open spec fn best_move(&self) -> int {
        match self.best_upto(4) {
            Some((d, _)) => d,
            None => 0,
        }
    }
}


impl Round {
    /// The body after moving the head to `c` (see `moved_body`).
    fn moved(&self, c: Cell) -> (nb: Vec<Cell>)
        requires
            self.wf(),
        ensures
            nb@ == moved_body(self.me@, c, self.foods@),
    {
        let grow = has_cell(&self.foods, c);
        let keep = if grow {
            self.me.len()
        } else {
            self.me.len() - 1
        };
        let mut nb: Vec<Cell> = Vec::new();
        nb.push(c);
        let mut i: usize = 0;
        while i < keep
            invariant
                self.wf(),
                keep <= self.me@.len(),
                i <= keep,
                nb@ == seq![c] + self.me@.subrange(0, i as int),
            decreases keep - i,
        {
            nb.push(self.me[i]);
            i += 1;
            assert(nb@ =~= seq![c] + self.me@.subrange(0, i as int));
        }
        assert(self.me@.subrange(0, self.me@.len() as int) =~= self.me@);
        assert(self.me@.subrange(0, self.me@.len() - 1) =~= self.me@.drop_last());
        nb
    }

    /// Survival score of a move to `c`, in thousandths (see `survival`).
    pub fn survival_score(&self, c: Cell) -> (r: i128)
        requires
            self.wf(),
            on_board(self.n as int, c.0 as int, c.1 as int),
        ensures
            r == self.survival(c),
            CRAMPED * MILLI <= r <= 50 * 0x400_0000_0000,
    {
        let nb = self.moved(c);
        let map = occupancy_map(&self.others, &nb, self.n);
        let area = reach_area_of(&map, c.0, c.1);
        if area < nb.len() as u64 {
            CRAMPED * MILLI
        } else {
            proof {
                assert(self.n * self.n <= MAX_SIDE * MAX_SIDE) by (nonlinear_arith)
                    requires
                        self.n <= MAX_SIDE,
                ;
                assert(MAX_SIDE * MAX_SIDE == 4611686014132420609) by (nonlinear_arith);
                assert(area <= 4611686014132420609);
            }
            let rt = isqrt(area as u128 * 1_000_000);
            50 * rt as i128
        }
    }

    /// Aggression score of a move to `c`, in thousandths (see `aggression`).
    pub fn aggression_score(&self, c: Cell) -> (r: i128)
        requires
            self.wf(),
            on_board(self.n as int, c.0 as int, c.1 as int),
        ensures
            r == self.aggression(c),
            0 <= r <= 1_003_000 * self.others@.len(),
    {
        let mut extra = crate::session::copy_cells(&self.me);
        extra.push(c);
        let tmap = occupancy_map(&self.others, &extra, self.n);
        let blocked = !cell_open(&self.danger, c.0, c.1);
        let no = self.others.len();
        let mut total: i128 = 0;
        let mut j: usize = 0;
        while j < no
            invariant
                self.wf(),
                no == self.others@.len(),
                on_board(self.n as int, c.0 as int, c.1 as int),
                extra@ == self.me@.push(c),
                rows(tmap@) == occupancy(self.n as int, views(self.others@), extra@),
                square(rows(tmap@), self.n as int),
                blocked == occupied(views(self.others@), self.me@, c.0 as int, c.1 as int),
                j <= no,
                total == self.aggression_upto(c, j as int),
                0 <= total <= 1_003_000 * j,
            decreases no - j,
        {
            assert(views(self.others@)[j as int] == self.others@[j as int]@);
            let body = &self.others[j];
            let h = body[0];
            assert(in_i32(h));
            let d = crate::score::dist(c, h);
            if self.my_score > self.opp_scores[j] && d <= 2 && !blocked {
                total = total + if self.four_way {
                    100 * MILLI
                } else {
                    1000 * MILLI
                };
            }
            if d <= 2 {
                let a = free_area_of(&tmap, h.0, h.1);
                if a < TRAP_AREA {
                    let dd: u64 = if d == 0 {
                        1
                    } else {
                        d as u64
                    };
                    let bonus = (TRAP_AREA - a) * 1000 / dd;
                    assert(bonus <= 3000);
                    total = total + bonus as i128;
                }
            }
            j += 1;
        }
        total
    }

    /// The score of move `d` (0 Up, 1 Left, 2 Down, 3 Right), or none when the
    /// move leaves the board or runs into a snake.
    pub fn score_move(&self, d: usize) -> (r: Option<i128>)
        requires
            self.wf(),
            d < 4,
        ensures
            match r {
                Some(v) => self.candidate(d as int) == Some(v as int),
                None => self.candidate(d as int) is None,
            },
    {
        let head = self.me[0];
        assert(in_i32(head));
        let c: Cell = (head.0 + step_dx(d), head.1 + step_dy(d));
        let n = self.n as i64;
        if c.0 < 1 || c.0 > n || c.1 < 1 || c.1 > n {
            return None;
        }
        if !cell_open(&self.danger, c.0, c.1) {
            let tail = self.me[self.me.len() - 1];
            let own_tail = tail.0 == c.0 && tail.1 == c.1;
            if !(own_tail && !has_cell(&self.foods, c) && self.me.len() > 1) {
                return None;
            }
        }
        let nf = self.foods.len();
        let no = self.others.len();
        let c2: i64 = if self.four_way {
            9
        } else {
            5
        };
        let food = compute_food_score(c, &self.foods, &self.contested, &self.enemy_dist, c2);
        let surv = self.survival_score(c);
        let aggr = self.aggression_score(c);
        let ws: i128 = if self.four_way {
            10
        } else {
            3
        };
        let wa: i128 = if self.duel {
            3
        } else {
            1
        };
        proof {
            assert(-0x10_0000_0000 * (nf + 1) * 1000 >= -0x10_0000_0000 * 0x1_0000_0000_0000_0000 * 1000) by (nonlinear_arith)
                requires
                    nf <= usize::MAX,
            ;
            assert(1_003_000 * no <= 1_003_000 * 0x1_0000_0000_0000_0000) by (nonlinear_arith)
                requires
                    no <= usize::MAX,
            ;
            assert(MILLI * food >= -0x10_0000_0000 * (nf + 1) * 1000 && MILLI * food <= 0x10_0000_0000 * (nf + 1) * 1000) by (nonlinear_arith)
                requires
                    -0x10_0000_0000 * (nf + 1) <= food <= 0x10_0000_0000 * (nf + 1),
            ;
            assert(-0x10_0000_0000 * (nf + 1) * 1000 <= 0x10_0000_0000 * 0x1_0000_0000_0000_0000 * 1000) by (nonlinear_arith)
                requires
                    nf <= usize::MAX,
            ;
            assert(0x10_0000_0000 * (nf + 1) * 1000 <= 0x10_0000_0000 * 0x1_0000_0000_0000_0000 * 1000) by (nonlinear_arith)
                requires
                    nf <= usize::MAX,
            ;
        }
        Some(MILLI * food + ws * surv + wa * aggr)
    }

    /// The chosen move: the highest-scoring allowed move in the order Up, Left,
    /// Down, Right (the earliest on ties), or Up when none is allowed.
    pub fn choose_move(&self) -> (r: i32)
        requires
            self.wf(),
        ensures
            r == self.best_move(),
            0 <= r < 4,
    {
        let mut best: Option<(usize, i128)> = None;
        let mut d: usize = 0;
        while d < 4
            invariant
                self.wf(),
                d <= 4,
                match best {
                    Some((bd, bv)) => self.best_upto(d as int) == Some((bd as int, bv as int)),
                    None => self.best_upto(d as int) is None,
                },
                best matches Some((bd, _)) ==> bd < 4,
            decreases 4 - d,
        {
            match self.score_move(d) {
                None => {},
                Some(v) => {
                    best = match best {
                        None => Some((d, v)),
                        Some((bd, bv)) => if v > bv {
                            Some((d, v))
                        } else {
                            Some((bd, bv))
                        },
                    };
                },
            }
            d += 1;
        }
        match best {
            Some((bd, _)) => bd as i32,
            None => 0,
        }
    }
}


/// A move that leaves fewer reachable cells than the new body's length
/// scores exactly -100 for survival.
pub proof fn lemma_cramped(rd: Round, c: Cell)
    requires
        reach_area(
            occupancy(rd.n as int, views(rd.others@), moved_body(rd.me@, c, rd.foods@)),
            c.0 as int,
            c.1 as int,
        ) < moved_body(rd.me@, c, rd.foods@).len(),
    ensures
        rd.survival(c) == CRAMPED * MILLI,
{
}

/// Following the tail is allowed: with a body longer than one, a move onto
/// the snake's own tail cell that holds no food is scored, not rejected,
/// even though the tail cell is covered.
pub proof fn lemma_tail_follow(rd: Round, d: int)
    requires
        rd.wf(),
        on_board(rd.n as int, rd.target(d).0 as int, rd.target(d).1 as int),
        rd.target(d) == rd.me@.last(),
        !rd.foods@.contains(rd.target(d)),
        rd.me@.len() > 1,
    ensures
        rd.legal(rd.target(d)),
        rd.candidate(d) is Some,
{
}

pub open spec fn rec_bodies(recs: Seq<OpponentRecord>) -> Seq<Seq<Cell>> {
    Seq::new(recs.len(), |j: int| recs[j].body@)
}

pub open spec fn rec_scores(recs: Seq<OpponentRecord>) -> Seq<u64> {
    Seq::new(recs.len(), |j: int| recs[j].score)
}

/// `rd` is the round that the updated session `s` and this call's inputs
/// describe: board side `n`, own body `me`, food cells `foods`, and the
/// opponent-count parameter `snake_num`.
pub open spec fn round_of(
    rd: Round,
    s: Session,
    n: int,
    me: Seq<Cell>,
    foods: Seq<Cell>,
    snake_num: i32,
) -> bool {
    &&& rd.wf()
    &&& rd.n == n
    &&& rd.me@ == me
    &&& views(rd.others@) == rec_bodies(s.records@)
    &&& rd.opp_scores@ == rec_scores(s.records@)
    &&& rd.foods@ == foods
    &&& forall|i: int|
        0 <= i < foods.len() ==> #[trigger] rd.contested@[i] == contested_spec(s.records@, foods[i])
            && opt_i64(rd.enemy_dist@[i]) == pred_min(s.records@, foods[i], s.records@.len() as int)
    &&& rd.my_score == s.my_score
    &&& rd.four_way == (s.mode == Some(3i32))
    &&& rd.duel == (snake_num == 2)
}

/// Plays one round: returns the move (0 Up, 1 Left, 2 Down, 3 Right) for the
/// controlled snake and updates the session.
///
/// `n` is the board side; `my_snake` holds up to four `x, y` pairs, head
/// first, ended by a coordinate below 1; `other_snakes` holds one block of
/// eight entries per opponent slot in the same form; `foods` holds `x, y`
/// pairs. `snake_num` is latched as the session's mode on the first call and
/// also weighs aggression in this call; `food_num` and `round` are not used.
///
/// A dead snake (empty body) gets Up and leaves the session as it was, but
/// for the mode latch.
pub fn greedy_snake_step(
    session: &mut Session,
    n: i32,
    my_snake: Vec<i32>,
    snake_num: i32,
    other_snakes: Vec<i32>,
    _food_num: i32,
    foods: Vec<i32>,
    _round: i32,
) -> (r: i32)
    requires
        old(session).wf(),
        n >= 1,
        old(session).next_id + other_snakes@.len() / 8 <= u64::MAX,
    ensures
        final(session).wf(),
        final(session).mode == if old(session).mode is None {
            Some(snake_num)
        } else {
            old(session).mode
        },
        body_from(my_snake@, 0, 0).len() == 0 ==> {
            &&& r == 0
            &&& final(session).records@ == old(session).records@
            &&& final(session).last_foods@ == old(session).last_foods@
            &&& final(session).my_score == old(session).my_score
            &&& final(session).next_id == old(session).next_id
        },
        body_from(my_snake@, 0, 0).len() > 0 ==> {
            let cur = present_bodies(other_snakes@);
            let a = assign(cur, old(session).records@, old(session).next_id, cur.len() as int);
            let me = body_from(my_snake@, 0, 0);
            &&& final(session).next_id == a.next
            &&& final(session).records@.len() == cur.len()
            &&& forall|i: int|
                0 <= i < cur.len() ==> record_after(
                    #[trigger] final(session).records@[i],
                    cur,
                    old(session).records@,
                    a,
                    old(session).last_foods@,
                    i,
                )
            &&& final(session).last_foods@ == food_list(foods@)
            &&& final(session).my_score == bump(
                old(session).my_score,
                old(session).last_foods@.contains(me[0]),
            )
            &&& 0 <= r < 4
            &&& exists|rd: Round|
                #[trigger] round_of(rd, *final(session), n as int, me, food_list(foods@), snake_num)
                    && r == rd.best_move()
        },
{
    if session.mode.is_none() {
        session.mode = Some(snake_num);
    }
    let me = parse_snake_coords(my_snake.as_slice(), 0);
    if me.len() == 0 {
        return 0;
    }
    let others = parse_other_snakes(other_snakes.as_slice());
    proof {
        assert(bodies_ok(views(others@)));
    }
    session.track_opponents(&others);
    let food_cells = parse_food_coords(foods.as_slice());
    let head = me[0];
    let ate = has_cell(&session.last_foods, head);
    if ate && session.my_score < u64::MAX {
        session.my_score = session.my_score + 1;
    }
    proof {
        assert forall|j: int| 0 <= j < session.records@.len() implies {
            &&& all_in_i32((#[trigger] session.records@[j]).trajectory@)
            &&& session.records@[j].body@.len() >= 1
            &&& all_in_i32(session.records@[j].body@)
        } by {
            assert(record_ok(session.records@[j], session.next_id));
        }
        assert(all_in_i32(food_cells@)) by {
            crate::board::lemma_food_cells(foods@, (foods@.len() / 2) as int);
        }
    }
    let (contested, enemy) = predict_contested_food(&food_cells, &session.records);
    let danger = occupancy_map(&others, &me, n as usize);
    let mut opp_scores: Vec<u64> = Vec::new();
    let mut j: usize = 0;
    while j < session.records.len()
        invariant
            j <= session.records@.len(),
            opp_scores@ == rec_scores(session.records@).subrange(0, j as int),
        decreases session.records@.len() - j,
    {
        opp_scores.push(session.records[j].score);
        j += 1;
        assert(opp_scores@ =~= rec_scores(session.records@).subrange(0, j as int));
    }
    let four_way = match session.mode {
        Some(m) => m == 3,
        None => false,
    };
    session.last_foods = copy_cells(&food_cells);
    let rd = Round {
        n: n as usize,
        me,
        others,
        opp_scores,
        foods: food_cells,
        contested,
        enemy_dist: enemy,
        danger,
        my_score: session.my_score,
        four_way,
        duel: snake_num == 2,
    };
    proof {
        assert(opp_scores@ =~= rec_scores(session.records@));
        assert(views(rd.others@) =~= rec_bodies(session.records@)) by {
            assert forall|i: int| 0 <= i < rd.others@.len() implies views(rd.others@)[i]
                == rec_bodies(session.records@)[i] by {
                assert(record_after(
                    session.records@[i],
                    present_bodies(other_snakes@),
                    old(session).records@,
                    assign(
                        present_bodies(other_snakes@),
                        old(session).records@,
                        old(session).next_id,
                        present_bodies(other_snakes@).len() as int,
                    ),
                    old(session).last_foods@,
                    i,
                ));
            }
        }
        assert(round_of(rd, *session, n as int, rd.me@, food_list(foods@), snake_num));
    }
    let r = rd.choose_move();
    r
}

} // verus!
