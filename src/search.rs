//! Iterative-deepening negamax with alpha-beta pruning, quiescence search,
//! killer moves, a triangular principal-variation table, late-move
//! reduction, futility pruning and a stop signal.

use crate::board::{
    Board, BoardModel, Coordinate, MATERIAL_LIMIT, Square, after, at_most_one_king, attacked,
    evaluation, king_of, king_safe, lemma_after_keeps_own_king, lemma_once_at_most_one,
    lemma_piece_at, own_king_once,
};
use crate::movegen::{Move, MoveGen, MoveList, MoveModel, pseudo_legal, views};
use std::sync::Arc;
use std::sync::atomic::{AtomicBool, Ordering};
use vstd::prelude::*;

verus! {

pub const MAX_PLY: usize = 127;

pub const INFINITY: i32 = 1000000;

pub const MATE_VALUE: i32 = INFINITY - 150;

pub const MATE_SCORE: i32 = INFINITY - 300;

/// What a search cut short by the stop signal or the clock reports.
pub const TIME_UP: i32 = INFINITY + 500;

/// Rows and columns of the principal-variation table.
pub const PV_WIDTH: usize = MAX_PLY + 1;

/// `PV_WIDTH * PV_WIDTH`.
pub const PV_CELLS: usize = 16384;

/// Relies on `SystemTime::now` and `duration_since(UNIX_EPOCH)`: the wall
/// clock in milliseconds (0 for a clock set before 1970). Nothing is assumed
/// of its value.
#[verifier::external_body]
fn now_millis() -> (r: u128) {
    match std::time::SystemTime::now().duration_since(std::time::UNIX_EPOCH) {
        Ok(d) => d.as_millis(),
        Err(_) => 0,
    }
}

/// Whether a search stops: the stop signal is `raised`, or the search is
/// timed and the clock `now` is past `stoptime`.
pub fn stop_decision(raised: bool, timeset: bool, now: u128, stoptime: u128) -> (r: bool)
    ensures
        r == (raised || (timeset && now > stoptime)),
{
    raised || (timeset && now > stoptime)
}

/// The move that stands for "no move found".
pub open spec fn no_move() -> MoveModel {
    MoveModel::Normal((0, 0), (0, 0))
}

pub fn null_move() -> (r: Move)
    ensures
        r@ == no_move(),
{
    Move::Normal(Coordinate::new(0, 0), Coordinate::new(0, 0))
}

/// The placeholder move is never legal: no piece moves onto its own square.
pub proof fn lemma_no_move_illegal(b: BoardModel)
    ensures
        !legal_move(b, no_move()),
{
}

/// `m` is a pseudo-legal move of `b` after which the mover's king is safe.
pub open spec fn legal_move(b: BoardModel, m: MoveModel) -> bool {
    pseudo_legal(b, m) && king_safe(after(b, m), b.white_to_move)
}

/// The king of the side to move stands attacked.
pub open spec fn in_check(b: BoardModel) -> bool {
    exists|c: Square|
        b.at(c) == Some(king_of(b.white_to_move)) && attacked(b, c, !b.white_to_move)
}

/// No move of the side to move, ray moves aside, leaves its king safe.
pub open spec fn no_legal_move(b: BoardModel) -> bool {
    forall|m: MoveModel|
        #![trigger pseudo_legal(b, m)]
        pseudo_legal(b, m) && !(m is InfiniteRay) ==> !king_safe(after(b, m), b.white_to_move)
}

/// The search window of a node below the root, once cut to the mate
/// bounds, is not empty.
pub open spec fn window_open(alpha: int, beta: int) -> bool {
    let low = if alpha < -MATE_VALUE { -MATE_VALUE as int } else { alpha };
    let high = if beta > MATE_VALUE - 1 { MATE_VALUE - 1 } else { beta };
    low < high
}

/// No pseudo-legal move of `b` is ordered at 8000 or more (captures and
/// promotions are), given killer moves `k0` and `k1`: quiescence searches none.
pub open spec fn no_capture(b: BoardModel, k0: MoveModel, k1: MoveModel) -> bool {
    forall|m: MoveModel| #[trigger] pseudo_legal(b, m) ==> order_score(b, m, k0, k1) < 8000
}

/// `m` is a plain move or a promotion onto an empty square.
pub open spec fn quiet_move(b: BoardModel, m: MoveModel) -> bool {
    match m {
        MoveModel::Normal(_, t) => b.empty_at(t),
        MoveModel::Promotion(_, t, _) => b.empty_at(t),
        _ => false,
    }
}

proof fn lemma_kept(a: Seq<Move>, b: Seq<Move>, c: Seq<Move>, lo: int, n: int)
    requires
        0 <= lo,
        0 <= n,
        lo + n + 1 <= a.len(),
        a.len() == b.len(),
        b.len() == c.len(),
        a.subrange(lo, lo + n + 1) == b.subrange(lo, lo + n + 1),
        b.subrange(lo, lo + n) == c.subrange(lo, lo + n),
        b[lo + n] == c[lo + n],
    ensures
        a.subrange(lo, lo + n) == c.subrange(lo, lo + n),
        a[lo + n] == c[lo + n],
{
    assert forall|i: int| lo <= i < lo + n + 1 implies a[i] == b[i] by {
        assert(a.subrange(lo, lo + n + 1)[i - lo] == a[i]);
        assert(b.subrange(lo, lo + n + 1)[i - lo] == b[i]);
    }
    assert forall|i: int| lo <= i < lo + n implies b[i] == c[i] by {
        assert(b.subrange(lo, lo + n)[i - lo] == b[i]);
        assert(c.subrange(lo, lo + n)[i - lo] == c[i]);
    }
    assert(a.subrange(lo, lo + n) =~= c.subrange(lo, lo + n));
}

/// The lower end of the search window of a node: below the root it is
/// raised to `-MATE_VALUE`.
pub open spec fn window_low(alpha: int, root: bool) -> int {
    if !root && alpha < -MATE_VALUE {
        -MATE_VALUE as int
    } else {
        alpha
    }
}

/// The upper end of the search window of a node: below the root it is
/// lowered to `MATE_VALUE - 1`.
pub open spec fn window_high(beta: int, root: bool) -> int {
    if !root && beta > MATE_VALUE - 1 {
        MATE_VALUE - 1
    } else {
        beta
    }
}

/// Static (reverse) futility pruning cuts the node off: not in check, a
/// null window, shallow depth, and a static score `ev` that stays at or above
/// `beta` after a margin of 100 per ply of depth.
pub open spec fn futility_cut(ev: int, alpha: int, beta: int, depth: int, check: bool) -> bool {
    !check && beta - alpha <= 1 && depth < 3 && abs(beta - 1) > 48900 && ev - 100 * depth >= beta
}

/// The ordering score of a move that is not the principal-variation move:
/// captures first (8000 plus the value taken minus the value of the taker),
/// then killer moves (4000 for the first, 2500 for the second), castling 400;
/// promotions score 9500 plus the new piece's value.
pub open spec fn order_score(b: BoardModel, m: MoveModel, k0: MoveModel, k1: MoveModel) -> int {
    match m {
        MoveModel::Normal(f, t) => match b.at(t) {
            Some(c) => 8000 + c.worth() - match b.at(f) {
                Some(a) => a.worth(),
                None => 0,
            },
            None => if m == k0 {
                4000
            } else if m == k1 {
                2500
            } else {
                0
            },
        },
        MoveModel::Castling(_, _) => 400,
        MoveModel::Promotion(_, _, q) => 9500 + q.worth(),
        _ => 0,
    }
}

pub open spec fn abs(v: int) -> int {
    if v >= 0 {
        v
    } else {
        -v
    }
}

fn abs_i32(v: i32) -> (r: i32)
    requires
        v > i32::MIN,
    ensures
        r == abs(v as int),
{
    if v >= 0 {
        v
    } else {
        -v
    }
}

/// The state of a search.
pub struct Searcher {
    /// Distance from the root of the node being searched.
    pub ply: usize,
    pub nodes: u64,
    /// Wall clock at the start of the search, in milliseconds.
    pub time: u128,
    /// Two killer moves per ply: the first at `ply`, the second at
    /// `PV_WIDTH + ply`.
    pub killers: Vec<Move>,
    /// Row `p` (cells `p * PV_WIDTH ..`) holds the principal variation found
    /// at ply `p`.
    pub pv_table: Vec<Move>,
    pub pv_length: Vec<usize>,
    pub follow_pv: bool,
    pub score_pv: bool,
    pub full_depth_moves: usize,
    pub reduction_limit: u8,
    pub inc: i32,
    pub movetime: i32,
    pub movestogo: i32,
    pub playtime: i32,
    pub timeset: bool,
    /// Wall clock, in milliseconds, after which a timed search stops.
    pub stoptime: u128,
    /// Raised by anyone holding a handle to stop the search.
    pub stop: Arc<AtomicBool>,
    /// The score of the last completed depth.
    pub score: i32,
    /// Set once a poll of the stop signal or the clock has fired; every
    /// later poll then fires too, until the next search starts.
    pub stopped: bool,
    /// How many depths the last search completed.
    pub depth_done: u8,
    /// Depth, score, node count and principal-variation length of each
    /// completed depth of the last search.
    pub progress: Vec<(u8, i32, u64, usize)>,
}

impl Searcher {
    pub open spec fn wf(&self) -> bool {
        &&& self.killers@.len() == 2 * PV_WIDTH
        &&& self.pv_table@.len() == PV_CELLS
        &&& self.pv_length@.len() == PV_WIDTH
        &&& self.ply <= MAX_PLY
        &&& self.reduction_limit >= 2
        &&& forall|k: int| 0 <= k < PV_WIDTH ==> #[trigger] self.pv_length@[k] <= MAX_PLY
    }

    pub fn new() -> (r: Searcher)
        ensures
            r.wf(),
            r.ply == 0,
            r.nodes == 0,
            !r.timeset,
            r.full_depth_moves == 3,
            r.reduction_limit == 2,
            forall|k: int| 0 <= k < 2 * PV_WIDTH ==> #[trigger] r.killers@[k]@ == no_move(),
            forall|k: int| 0 <= k < PV_CELLS ==> #[trigger] r.pv_table@[k]@ == no_move(),
            forall|k: int| 0 <= k < PV_WIDTH ==> #[trigger] r.pv_length@[k] == 0,
            !r.follow_pv,
            !r.score_pv,
            !r.stopped,
            r.time == 0,
            r.stoptime == 0,
            r.inc == 0,
            r.movetime == -1,
            r.movestogo == 30,
            r.playtime == -1,
            r.score == 0,
            r.depth_done == 0,
            r.progress@.len() == 0,
    {
        let mut killers: Vec<Move> = Vec::new();
        let mut i: usize = 0;
        while i < 2 * PV_WIDTH
            invariant
                i <= 2 * PV_WIDTH,
                killers@.len() == i,
                forall|k: int| 0 <= k < i ==> #[trigger] killers@[k]@ == no_move(),
            decreases 2 * PV_WIDTH - i,
        {
            killers.push(null_move());
            i += 1;
        }
        let mut pv_table: Vec<Move> = Vec::new();
        let mut i: usize = 0;
        while i < PV_CELLS
            invariant
                i <= PV_CELLS,
                pv_table@.len() == i,
                forall|k: int| 0 <= k < i ==> #[trigger] pv_table@[k]@ == no_move(),
            decreases PV_CELLS - i,
        {
            pv_table.push(null_move());
            i += 1;
        }
        let mut pv_length: Vec<usize> = Vec::new();
        let mut i: usize = 0;
        while i < PV_WIDTH
            invariant
                i <= PV_WIDTH,
                pv_length@.len() == i,
                forall|k: int| 0 <= k < i ==> #[trigger] pv_length@[k] == 0,
            decreases PV_WIDTH - i,
        {
            pv_length.push(0);
            i += 1;
        }
        Searcher {
            ply: 0,
            nodes: 0,
            time: 0,
            killers,
            pv_table,
            pv_length,
            follow_pv: false,
            score_pv: false,
            full_depth_moves: 3,
            reduction_limit: 2,
            inc: 0,
            movetime: -1,
            movestogo: 30,
            playtime: -1,
            timeset: false,
            stoptime: 0,
            stop: Arc::new(AtomicBool::new(false)),
            score: 0,
            stopped: false,
            depth_done: 0,
            progress: Vec::new(),
        }
    }

    /// Polls the stop signal and the clock: whether the search must stop.
    /// Once it has answered yes, it keeps answering yes.
    pub fn stop_search(&mut self) -> (r: bool)
        ensures
            old(self).stopped ==> r,
            *final(self) == (Searcher { stopped: old(self).stopped || r, ..*old(self) }),
    {
        if self.stopped {
            return true;
        }
        let raised = self.stop.load(Ordering::Relaxed);
        let now = if self.timeset {
            now_millis()
        } else {
            0
        };
        let r = stop_decision(raised, self.timeset, now, self.stoptime);
        self.stopped = r;
        r
    }

    fn count_node(&mut self)
        ensures
            *final(self) == (Searcher { nodes: final(self).nodes, ..*old(self) }),
    {
        if self.nodes < u64::MAX {
            self.nodes = self.nodes + 1;
        }
    }
}


impl Searcher {
    /// The ordering score of `mv` at the current ply: 16000 for the
    /// principal-variation move while its scoring is on (which turns it off),
    /// `order_score` otherwise.
    fn score_move(&mut self, board: &Board, mv: &Move) -> (r: u32)
        requires
            old(self).wf(),
            board.wf(),
        ensures
            final(self).wf(),
            *final(self) == (Searcher { score_pv: final(self).score_pv, ..*old(self) }),
            if old(self).score_pv && old(self).pv_table@[old(self).ply as int]@ == mv@ {
                r == 16000 && !final(self).score_pv
            } else {
                r == order_score(
                    board@,
                    mv@,
                    old(self).killers@[old(self).ply as int]@,
                    old(self).killers@[PV_WIDTH + old(self).ply]@,
                ) && final(self).score_pv == old(self).score_pv
            },
    {
        let ply = self.ply;
        if self.score_pv && self.pv_table[ply].equals(mv) {
            self.score_pv = false;
            return 16000;
        }
        match mv {
            Move::Normal(from, to) => match board.piece_on(to) {
                Some(captured) => {
                    let attacker = match board.piece_on(from) {
                        Some(a) => a.value(),
                        None => 0,
                    };
                    (8000 + captured.value() - attacker) as u32
                },
                None => {
                    if self.killers[ply].equals(mv) {
                        4000
                    } else if self.killers[PV_WIDTH + ply].equals(mv) {
                        2500
                    } else {
                        0
                    }
                },
            },
            Move::Castling(_, _) => 400,
            Move::Promotion(_, _, promoted) => (9500 + promoted.value()) as u32,
            _ => 0,
        }
    }

    /// The ordering score of each move.
    fn assign_move_scores(&mut self, board: &Board, moves: &Vec<Move>) -> (r: Vec<u32>)
        requires
            old(self).wf(),
            board.wf(),
        ensures
            final(self).wf(),
            *final(self) == (Searcher { score_pv: final(self).score_pv, ..*old(self) }),
            r@.len() == moves@.len(),
            !old(self).score_pv ==> !final(self).score_pv && forall|k: int|
                0 <= k < r@.len() ==> #[trigger] r@[k] == order_score(
                    board@,
                    moves@[k]@,
                    old(self).killers@[old(self).ply as int]@,
                    old(self).killers@[PV_WIDTH + old(self).ply]@,
                ),
            forall|k: int|
                0 <= k < r@.len() ==> #[trigger] r@[k] == 16000 || r@[k] == order_score(
                    board@,
                    moves@[k]@,
                    old(self).killers@[old(self).ply as int]@,
                    old(self).killers@[PV_WIDTH + old(self).ply]@,
                ),
    {
        let mut scores: Vec<u32> = Vec::new();
        let mut i: usize = 0;
        while i < moves.len()
            invariant
                self.wf(),
                board.wf(),
                *self == (Searcher { score_pv: self.score_pv, ..*old(self) }),
                i <= moves.len(),
                scores@.len() == i,
                !old(self).score_pv ==> !self.score_pv && forall|k: int|
                    0 <= k < i ==> #[trigger] scores@[k] == order_score(
                        board@,
                        moves@[k]@,
                        old(self).killers@[old(self).ply as int]@,
                        old(self).killers@[PV_WIDTH + old(self).ply]@,
                    ),
                forall|k: int|
                    0 <= k < i ==> #[trigger] scores@[k] == 16000 || scores@[k] == order_score(
                        board@,
                        moves@[k]@,
                        old(self).killers@[old(self).ply as int]@,
                        old(self).killers@[PV_WIDTH + old(self).ply]@,
                    ),
            decreases moves.len() - i,
        {
            let v = self.score_move(board, &moves[i]);
            scores.push(v);
            i += 1;
        }
        scores
    }

    /// Brings a best-scored move of `start..count` to `start`, by one swap,
    /// and returns a copy of it.
    fn sort_next_move(&self, moves: &mut Vec<Move>, move_scores: &mut Vec<u32>, start: usize, count: usize) -> (r: Move)
        requires
            start < count,
            count == old(moves)@.len(),
            count == old(move_scores)@.len(),
        ensures
            final(moves)@.len() == count,
            final(move_scores)@.len() == count,
            r@ == final(moves)@[start as int]@,
            forall|k: int| start <= k < count ==> final(move_scores)@[start as int] >= #[trigger] final(move_scores)@[k],
            exists|best: int|
                start <= best < count && final(moves)@ == old(moves)@.update(start as int, old(moves)@[best]).update(
                    best,
                    old(moves)@[start as int],
                ) && final(move_scores)@ == old(move_scores)@.update(
                    start as int,
                    old(move_scores)@[best],
                ).update(best, old(move_scores)@[start as int]),
    {
        let mut best_score = move_scores[start];
        let mut best_index = start;
        let mut index = start + 1;
        while index < count
            invariant
                start < index <= count,
                count == moves@.len(),
                count == move_scores@.len(),
                start <= best_index < index,
                best_score == move_scores@[best_index as int],
                forall|k: int| start <= k < index ==> best_score >= #[trigger] move_scores@[k],
            decreases count - index,
        {
            if move_scores[index] > best_score {
                best_score = move_scores[index];
                best_index = index;
            }
            index += 1;
        }
        if best_index != start {
            let ghost ms = moves@;
            let b = moves.remove(best_index);
            let a = moves.remove(start);
            moves.insert(start, b);
            moves.insert(best_index, a);
            assert(moves@ =~= ms.update(start as int, ms[best_index as int]).update(
                best_index as int,
                ms[start as int],
            ));
            let low = move_scores[start];
            let high = move_scores[best_index];
            move_scores.set(start, high);
            move_scores.set(best_index, low);
        }
        proof {
            let best = best_index as int;
            assert forall|k: int| start <= k < count implies move_scores@[start as int] >= #[trigger] move_scores@[k] by {
                if k == best {
                    assert(move_scores@[k] == old(move_scores)@[start as int]);
                }
            }
            if best == start {
                assert(moves@ =~= old(moves)@.update(start as int, old(moves)@[best]).update(
                    best,
                    old(moves)@[start as int],
                ));
                assert(move_scores@ =~= old(move_scores)@.update(start as int, old(move_scores)@[best]).update(
                    best,
                    old(move_scores)@[start as int],
                ));
            }
        }
        moves[start].copy()
    }
}


impl Searcher {
    /// Capture-only search below the horizon, from the side to move's view,
    /// with a stand-pat score. The position and undo stack come back as they
    /// were.
    pub fn quiescence(&mut self, board: &mut Board, alpha: i32, beta: i32) -> (r: i32)
        requires
            old(self).wf(),
            old(board).wf(),
            -INFINITY <= alpha < beta <= INFINITY,
        ensures
            final(self).wf(),
            final(self).ply == old(self).ply,
            final(self).pv_table == old(self).pv_table,
            r == TIME_UP ==> final(self).stopped,
            old(self).stopped ==> final(self).stopped,
            final(self).killers == old(self).killers,
            !old(self).score_pv && old(self).ply < MAX_PLY && no_capture(
                old(board)@,
                old(self).killers@[old(self).ply as int]@,
                old(self).killers@[PV_WIDTH + old(self).ply]@,
            ) && evaluation(old(board).placed(), old(board).side_to_move) < beta && r != TIME_UP
                ==> r == if evaluation(old(board).placed(), old(board).side_to_move) > alpha {
                evaluation(old(board).placed(), old(board).side_to_move)
            } else {
                alpha as int
            },
            final(board).wf(),
            final(board)@ == old(board)@,
            final(board).past() == old(board).past(),
            r == TIME_UP || -INFINITY <= r <= INFINITY,
            evaluation(old(board).placed(), old(board).side_to_move) >= beta ==> r == beta,
            evaluation(old(board).placed(), old(board).side_to_move) < beta && old(self).ply
                == MAX_PLY ==> r == evaluation(old(board).placed(), old(board).side_to_move),
            evaluation(old(board).placed(), old(board).side_to_move) < beta && old(self).ply
                < MAX_PLY ==> r == TIME_UP || (alpha <= r <= beta && evaluation(
                old(board).placed(),
                old(board).side_to_move,
            ) <= r),
        decreases MAX_PLY - old(self).ply, 0nat,
    {
        let ghost b0 = board@;
        let ghost p0 = board.past();
        let mut lower = alpha;
        self.count_node();
        let eval = board.evaluate();
        if eval >= beta {
            return beta;
        } else if eval > lower {
            lower = eval;
        }
        if self.ply >= MAX_PLY {
            return eval;
        }
        if self.stop_search() {
            return TIME_UP;
        }
        let mut list = MoveList::new();
        MoveGen::generate_moves(board, &mut list);
        let mut moves = list.moves;
        let n = moves.len();
        let ghost k0 = self.killers@[self.ply as int]@;
        let ghost k1 = self.killers@[PV_WIDTH + self.ply]@;
        let ghost quiet = !old(self).score_pv && no_capture(b0, k0, k1);
        let mut scores = self.assign_move_scores(board, &moves);
        proof {
            if quiet {
                assert forall|k: int| 0 <= k < n implies #[trigger] scores@[k] < 8000 by {
                    assert(views(moves@)[k] == moves@[k]@);
                    assert(views(moves@).subrange(0, n as int) =~= views(moves@));
                    assert(views(moves@).contains(moves@[k]@));
                }
            }
        }
        let ghost start_lower = lower;
        let mut count: usize = 0;
        while count < n
            invariant
                self.wf(),
                self.ply == old(self).ply,
                self.ply < MAX_PLY,
                self.pv_table == old(self).pv_table,
                board.wf(),
                board@ == b0,
                board.past() == p0,
                b0 == old(board)@,
                p0 == old(board).past(),
                moves@.len() == n,
                scores@.len() == n,
                -INFINITY <= lower < beta <= INFINITY,
                alpha <= lower,
                eval <= lower,
                old(self).stopped ==> self.stopped,
                self.killers == old(self).killers,
                quiet ==> lower == start_lower && forall|k: int| 0 <= k < n ==> #[trigger] scores@[k] < 8000,
                quiet == (!old(self).score_pv && no_capture(b0, k0, k1)),
                k0 == old(self).killers@[old(self).ply as int]@,
                k1 == old(self).killers@[PV_WIDTH + old(self).ply]@,
                start_lower == (if eval > alpha { eval } else { alpha }),
                eval == evaluation(old(board).placed(), old(board).side_to_move),
            decreases n - count,
        {
            let ghost before_moves = moves@;
            let ghost before_scores = scores@;
            let mv = self.sort_next_move(&mut moves, &mut scores, count, n);
            proof {
                if quiet {
                    let best = choose|best: int|
                        count <= best < n && moves@ == before_moves.update(
                            count as int,
                            before_moves[best],
                        ).update(best, before_moves[count as int]) && scores@
                            == before_scores.update(count as int, before_scores[best]).update(
                            best,
                            before_scores[count as int],
                        );
                    assert(scores@[count as int] == before_scores[best]);
                }
            }
            if scores[count] < 8000 {
                break;
            }
            count += 1;
            let undo = mv.copy();
            if !board.make(mv) {
                board.unmake(undo);
                continue;
            }
            self.ply = self.ply + 1;
            let child = self.quiescence(board, -beta, -lower);
            let score = -child;
            board.unmake(undo);
            self.ply = self.ply - 1;
            if self.stop_search() {
                return TIME_UP;
            }
            if score > lower {
                lower = score;
                if score >= beta {
                    return beta;
                }
            }
        }
        lower
    }
}


/// Whether the side to move is in check (by the first king of its colour
/// found, when there are several).
fn side_in_check(board: &mut Board) -> (r: bool)
    requires
        old(board).wf(),
    ensures
        *final(board) == *old(board),
        at_most_one_king(old(board)@, old(board).side_to_move) ==> r == in_check(old(board)@),
{
    let side = board.side_to_move;
    match board.find_king(side) {
        Some(king) => board.is_attacked(king, !side),
        None => {
            proof {
                board.lemma_view_at();
                assert forall|c: Square| board@.at(c) != Some(king_of(side)) by {
                    lemma_piece_at(board.placed(), c);
                }
            }
            false
        },
    }
}

impl Searcher {
    /// Makes `mv` followed by the next ply's principal variation the
    /// principal variation of the current ply.
    fn record_pv(&mut self, mv: &Move)
        requires
            old(self).wf(),
            old(self).ply < MAX_PLY,
        ensures
            final(self).wf(),
            *final(self) == (Searcher {
                pv_table: final(self).pv_table,
                pv_length: final(self).pv_length,
                ..*old(self)
            }),
            old(self).ply > 0 ==> forall|i: int|
                0 <= i < PV_WIDTH ==> #[trigger] final(self).pv_table@[i] == old(self).pv_table@[i],
            old(self).ply == 0 ==> final(self).pv_table@[0]@ == mv@,
    {
        let ply = self.ply;
        self.pv_table.set(ply * PV_WIDTH + ply, mv.copy());
        let next_len = self.pv_length[ply + 1];
        let mut next = ply + 1;
        let row = ply * PV_WIDTH;
        let below = row + PV_WIDTH;
        assert(ply > 0 ==> row >= PV_WIDTH);
        while next < next_len
            invariant
                row == ply * PV_WIDTH,
                below == row + PV_WIDTH,
                below + MAX_PLY < PV_CELLS,
                ply > 0 ==> row >= PV_WIDTH,
                self.wf(),
                ply == old(self).ply,
                *self == (Searcher { pv_table: self.pv_table, ..*old(self) }),
                ply < MAX_PLY,
                ply + 1 <= next,
                next_len <= MAX_PLY,
                ply > 0 ==> forall|i: int|
                    0 <= i < PV_WIDTH ==> #[trigger] self.pv_table@[i] == old(self).pv_table@[i],
                ply == 0 ==> self.pv_table@[0]@ == mv@,
            decreases next_len - next,
        {
            let cell = self.pv_table[below + next].copy();
            self.pv_table.set(row + next, cell);
            next += 1;
        }
        self.pv_length.set(ply, next_len);
    }

    /// Searches the position after a move, one ply down, and returns its
    /// score from the mover's view: the first move gets the full window; a
    /// later one a reduced-depth null-window search when late-move reduction
    /// applies, then a null-window search at full depth if it may beat
    /// `lower`, then the full window if it lands inside it.
    fn search_child(
        &mut self,
        board: &mut Board,
        lower: i32,
        upper: i32,
        remaining: u8,
        moves_searched: usize,
        checked: bool,
    ) -> (r: i32)
        requires
            old(self).wf(),
            old(board).wf(),
            1 <= old(self).ply <= MAX_PLY,
            remaining >= 1,
            -INFINITY <= lower < upper <= INFINITY,
        ensures
            final(self).wf(),
            final(self).ply == old(self).ply,
            final(board).wf(),
            final(board)@ == old(board)@,
            final(board).past() == old(board).past(),
            r == -TIME_UP || -INFINITY < r <= INFINITY,
            r == -TIME_UP ==> final(self).stopped,
            old(self).stopped ==> final(self).stopped,
            final(self).killers@.subrange(0, old(self).ply as int) == old(self).killers@.subrange(
                0,
                old(self).ply as int,
            ),
            final(self).killers@.subrange(PV_WIDTH as int, PV_WIDTH + old(self).ply) == old(
                self,
            ).killers@.subrange(PV_WIDTH as int, PV_WIDTH + old(self).ply),
            forall|i: int|
                0 <= i < PV_WIDTH ==> #[trigger] final(self).pv_table@[i] == old(self).pv_table@[i],
        decreases MAX_PLY - old(self).ply, 2nat,
    {
        let mut score: i32;
        if moves_searched == 0 {
            let child = self.negamax(board, -upper, -lower, remaining - 1);
            score = -child;
        } else {
            if moves_searched >= self.full_depth_moves && remaining >= self.reduction_limit
                && !checked {
                let child = self.negamax(board, -lower - 1, -lower, remaining - 2);
                score = -child;
            } else {
                score = lower + 1;
            }
            if score > lower {
                let child = self.negamax(board, -lower - 1, -lower, remaining - 1);
                score = -child;
                if score > lower && score < upper {
                    let child = self.negamax(board, -upper, -lower, remaining - 1);
                    score = -child;
                }
            }
        }
        score
    }

    /// Alpha-beta search to `depth` from the side to move's view, fail-hard.
    /// The position and undo stack come back as they were. At the root, the
    /// first cell of the principal-variation table is either left alone or
    /// set to a legal move of the position; deeper nodes leave the root's row
    /// alone.
    #[verifier::rlimit(100)]
    pub fn negamax(&mut self, board: &mut Board, alpha: i32, beta: i32, depth: u8) -> (r: i32)
        requires
            old(self).wf(),
            old(board).wf(),
            -INFINITY <= alpha < beta <= INFINITY,
        ensures
            final(self).wf(),
            final(self).ply == old(self).ply,
            final(board).wf(),
            final(board)@ == old(board)@,
            final(board).past() == old(board).past(),
            r == TIME_UP || -INFINITY <= r <= INFINITY,
            old(self).ply == MAX_PLY ==> r == evaluation(old(board).placed(), old(board).side_to_move),
            old(self).ply < MAX_PLY && depth > 0 && (old(self).ply == 0 || window_open(
                alpha as int,
                beta as int,
            )) && at_most_one_king(old(board)@, old(board).side_to_move) && !futility_cut(
                evaluation(old(board).placed(), old(board).side_to_move),
                alpha as int,
                beta as int,
                depth as int,
                in_check(old(board)@),
            ) && no_legal_move(old(board)@) && r != TIME_UP ==> r == if in_check(old(board)@) {
                -MATE_VALUE + old(self).ply
            } else {
                0
            },
            r == TIME_UP ==> final(self).stopped,
            old(self).stopped ==> final(self).stopped,
            old(self).ply > 0 && r != TIME_UP ==> r < INFINITY,
            final(self).killers@.subrange(0, old(self).ply as int) == old(self).killers@.subrange(
                0,
                old(self).ply as int,
            ),
            final(self).killers@.subrange(PV_WIDTH as int, PV_WIDTH + old(self).ply) == old(
                self,
            ).killers@.subrange(PV_WIDTH as int, PV_WIDTH + old(self).ply),
            old(self).ply < MAX_PLY ==> (final(self).killers@[old(self).ply as int]
                == old(self).killers@[old(self).ply as int] && final(self).killers@[PV_WIDTH
                + old(self).ply] == old(self).killers@[PV_WIDTH + old(self).ply]) || (quiet_move(
                old(board)@,
                final(self).killers@[old(self).ply as int]@,
            ) && legal_move(old(board)@, final(self).killers@[old(self).ply as int]@)
                && final(self).killers@[PV_WIDTH + old(self).ply]@ == old(
                self,
            ).killers@[old(self).ply as int]@ && r == window_high(
                beta as int,
                old(self).ply == 0,
            )),
            old(self).ply < MAX_PLY && depth == 0 && (old(self).ply == 0 || window_open(
                alpha as int,
                beta as int,
            )) && evaluation(old(board).placed(), old(board).side_to_move) >= window_high(
                beta as int,
                old(self).ply == 0,
            ) ==> r == window_high(beta as int, old(self).ply == 0),
            0 < old(self).ply < MAX_PLY && !window_open(alpha as int, beta as int) ==> r
                == window_low(alpha as int, false),
            old(self).ply < MAX_PLY && depth > 0 && (old(self).ply == 0 || window_open(
                alpha as int,
                beta as int,
            )) && at_most_one_king(old(board)@, old(board).side_to_move) && futility_cut(
                evaluation(old(board).placed(), old(board).side_to_move),
                alpha as int,
                beta as int,
                depth as int,
                in_check(old(board)@),
            ) ==> r == evaluation(old(board).placed(), old(board).side_to_move) - 100 * depth,
            old(self).ply < MAX_PLY && (old(self).ply == 0 || window_open(alpha as int, beta as int))
                && own_king_once(old(board)@) && !futility_cut(
                evaluation(old(board).placed(), old(board).side_to_move),
                alpha as int,
                beta as int,
                depth as int,
                in_check(old(board)@),
            ) && !no_legal_move(old(board)@) && r != TIME_UP ==> window_low(
                alpha as int,
                old(self).ply == 0,
            ) <= r <= window_high(beta as int, old(self).ply == 0),
            old(self).ply == 0 && alpha == -INFINITY && beta == INFINITY && depth > 0
                && own_king_once(old(board)@) && !no_legal_move(old(board)@) && r != TIME_UP
                ==> legal_move(old(board)@, final(self).pv_table@[0]@),
            old(self).ply > 0 ==> forall|i: int|
                0 <= i < PV_WIDTH ==> #[trigger] final(self).pv_table@[i] == old(self).pv_table@[i],
            old(self).ply == 0 ==> (final(self).pv_table@[0] == old(self).pv_table@[0] || legal_move(
                old(board)@,
                final(self).pv_table@[0]@,
            )),
        decreases MAX_PLY - old(self).ply, 1nat,
    {
        let ghost b0 = board@;
        let ghost p0 = board.past();
        let mut lower = alpha;
        let mut upper = beta;
        let mut remaining = depth;
        let pv_node = upper - lower > 1;
        let is_root = self.ply == 0;
        self.count_node();
        if self.ply >= MAX_PLY {
            return board.evaluate();
        }
        let ply = self.ply;
        self.pv_length.set(ply, ply);
        if !is_root {
            if lower < -MATE_VALUE {
                lower = -MATE_VALUE;
            }
            if upper > MATE_VALUE - 1 {
                upper = MATE_VALUE - 1;
            }
            if lower >= upper {
                return lower;
            }
        }
        if remaining == 0 {
            return self.quiescence(board, lower, upper);
        }
        proof {
            if own_king_once(b0) {
                lemma_once_at_most_one(b0, b0.white_to_move);
            }
        }
        let checked = side_in_check(board);
        if checked && remaining < 255 {
            remaining = remaining + 1;
        }
        let eval = board.evaluate();
        if !checked && !pv_node && remaining < 3 && abs_i32(upper - 1) > 48900 {
            let margin = 100 * remaining as i32;
            if eval - margin >= upper {
                return eval - margin;
            }
        }
        assert(!(at_most_one_king(b0, b0.white_to_move) && futility_cut(
            eval as int,
            alpha as int,
            beta as int,
            depth as int,
            in_check(b0),
        )));
        if self.stop_search() {
            return TIME_UP;
        }
        let mut list = MoveList::new();
        MoveGen::generate_moves(board, &mut list);
        assert(views(list.moves@).subrange(0, list.moves@.len() as int) =~= views(list.moves@));
        let mut moves = list.moves;
        let n = moves.len();
        let mut scores = self.assign_move_scores(board, &moves);
        proof {
            assert forall|k: int| 0 <= k < n implies #[trigger] pseudo_legal(b0, moves@[k]@) by {
                assert(views(moves@)[k] == moves@[k]@);
                assert(views(moves@).contains(moves@[k]@));
            }
            assert forall|x: MoveModel| #[trigger] pseudo_legal(b0, x) implies exists|k: int|
                0 <= k < n && moves@[k]@ == x by {
                assert(views(moves@).contains(x));
                let k = choose|k: int| 0 <= k < views(moves@).len() && views(moves@)[k] == x;
                assert(moves@[k]@ == x);
            }
        }
        let mut legal_moves: usize = 0;
        let mut moves_searched: usize = 0;
        let mut best_score: i32 = -INFINITY;
        let mut skip_quiet = false;
        let mut count: usize = 0;
        while count < n
            invariant
                self.wf(),
                self.ply == ply,
                ply == old(self).ply,
                ply < MAX_PLY,
                is_root == (ply == 0),
                board.wf(),
                board@ == b0,
                board.past() == p0,
                b0 == old(board)@,
                p0 == old(board).past(),
                moves@.len() == n,
                scores@.len() == n,
                forall|k: int| 0 <= k < n ==> #[trigger] pseudo_legal(b0, moves@[k]@),
                -INFINITY <= lower < upper <= INFINITY,
                -INFINITY <= best_score <= INFINITY,
                legal_moves <= count,
                moves_searched <= count,
                count <= n,
                remaining >= 1,
                -MATERIAL_LIMIT <= eval <= MATERIAL_LIMIT,
                no_legal_move(b0) ==> legal_moves == 0,
                eval == evaluation(old(board).placed(), old(board).side_to_move),
                !(at_most_one_king(b0, b0.white_to_move) && futility_cut(
                    eval as int,
                    alpha as int,
                    beta as int,
                    depth as int,
                    in_check(b0),
                )),
                old(self).stopped ==> self.stopped,
                upper == window_high(beta as int, is_root),
                window_low(alpha as int, is_root) <= lower,
                legal_moves == 0 ==> lower == window_low(alpha as int, is_root) && !skip_quiet
                    && best_score == -INFINITY,
                moves_searched == legal_moves,
                self.killers@.subrange(0, ply as int) == old(self).killers@.subrange(0, ply as int),
                self.killers@.subrange(PV_WIDTH as int, PV_WIDTH + ply) == old(
                    self,
                ).killers@.subrange(PV_WIDTH as int, PV_WIDTH + ply),
                self.killers@[ply as int] == old(self).killers@[ply as int],
                self.killers@[PV_WIDTH + ply] == old(self).killers@[PV_WIDTH + ply],
                old(self).killers@.len() == 2 * PV_WIDTH,
                depth > 0,
                own_king_once(b0) && legal_moves == 0 ==> forall|k: int|
                    0 <= k < count ==> (#[trigger] moves@[k]@ is InfiniteRay || !king_safe(
                        after(b0, moves@[k]@),
                        b0.white_to_move,
                    )),
                forall|x: MoveModel| #[trigger]
                    pseudo_legal(b0, x) ==> exists|k: int| 0 <= k < n && moves@[k]@ == x,
                is_root && alpha == -INFINITY && legal_moves > 0 ==> legal_move(
                    b0,
                    self.pv_table@[0]@,
                ),
                ply > 0 ==> forall|i: int|
                    0 <= i < PV_WIDTH ==> #[trigger] self.pv_table@[i] == old(self).pv_table@[i],
                ply == 0 ==> (self.pv_table@[0] == old(self).pv_table@[0] || legal_move(
                    b0,
                    self.pv_table@[0]@,
                )),
            decreases n - count,
        {
            let ghost before = moves@;
            let ghost before_scores = scores@;
            let mv = self.sort_next_move(&mut moves, &mut scores, count, n);
            let ghost picked = moves@[count as int]@;
            proof {
                let best = choose|best: int|
                    count <= best < n && moves@ == before.update(count as int, before[best]).update(
                        best,
                        before[count as int],
                    ) && scores@ == before_scores.update(
                        count as int,
                        before_scores[best],
                    ).update(best, before_scores[count as int]);
                assert forall|x: MoveModel| #[trigger] pseudo_legal(b0, x) implies exists|k: int|
                    0 <= k < n && moves@[k]@ == x by {
                    let k = choose|k: int| 0 <= k < n && before[k]@ == x;
                    if k == count {
                        assert(moves@[best]@ == x);
                    } else if k == best {
                        assert(moves@[count as int]@ == x);
                    } else {
                        assert(moves@[k]@ == x);
                    }
                }
            }
            assert(pseudo_legal(b0, picked));
            count += 1;
            let is_ray = match &mv {
                Move::InfiniteRay(_, _) => true,
                _ => false,
            };
            if is_ray {
                continue;
            }
            let is_quiet = match &mv {
                Move::Normal(_, to) => board.piece_on(to).is_none(),
                Move::Promotion(_, to, _) => board.piece_on(to).is_none(),
                _ => false,
            };
            if is_quiet && skip_quiet {
                continue;
            }
            let is_killer = self.killers[ply].equals(&mv) || self.killers[PV_WIDTH + ply].equals(&mv);
            if !is_root && best_score > -INFINITY && remaining < 8 && is_quiet && !is_killer && eval
                <= lower && abs_i32(lower) < INFINITY - 100 {
                skip_quiet = true;
                continue;
            }
            let keep = mv.copy();
            let undo = mv.copy();
            proof {
                if own_king_once(b0) {
                    lemma_after_keeps_own_king(b0, picked);
                }
            }
            if !board.make(mv) {
                board.unmake(undo);
                continue;
            }
            assert(board@ == after(b0, picked));
            self.ply = ply + 1;
            legal_moves += 1;
            let ghost pre_killers = self.killers@;
            let score = self.search_child(board, lower, upper, remaining, moves_searched, checked);
            proof {
                lemma_kept(self.killers@, pre_killers, old(self).killers@, 0, ply as int);
                lemma_kept(self.killers@, pre_killers, old(self).killers@, PV_WIDTH as int, ply as int);
            }
            board.unmake(undo);
            self.ply = ply;
            if self.stop_search() {
                return TIME_UP;
            }
            moves_searched += 1;
            if score > best_score {
                best_score = score;
            }
            if score > lower {
                best_score = score;
                lower = score;
                self.record_pv(&keep);
                if score >= upper {
                    if is_quiet {
                        let ghost pre = self.killers@;
                        let first = self.killers[ply].copy();
                        self.killers.set(PV_WIDTH + ply, first);
                        self.killers.set(ply, keep);
                        assert(self.killers@.subrange(0, ply as int) =~= pre.subrange(0, ply as int));
                        assert(self.killers@.subrange(PV_WIDTH as int, PV_WIDTH + ply) =~= pre.subrange(
                            PV_WIDTH as int,
                            PV_WIDTH + ply,
                        ));
                    }
                    return upper;
                }
            }
        }
        proof {
            if own_king_once(b0) && !no_legal_move(b0) && legal_moves == 0 {
                let m = choose|m: MoveModel|
                    pseudo_legal(b0, m) && !(m is InfiniteRay) && king_safe(
                        after(b0, m),
                        b0.white_to_move,
                    );
                let k = choose|k: int| 0 <= k < n && moves@[k]@ == m;
                assert(false);
            }
        }
        if legal_moves == 0 {
            return if checked {
                -MATE_VALUE + ply as i32
            } else {
                0
            };
        }
        lower
    }
}


impl Searcher {
    /// Searches depths 1 to `depth` in turn and returns the best root move of
    /// the last depth that completed before the stop signal or the deadline:
    /// a legal move of the position, or `null_move()` when none was found.
    /// The position and undo stack come back as they were; `score` holds the
    /// last completed depth's score.
    pub fn search_position(&mut self, board: &mut Board, depth: u8) -> (r: Move)
        requires
            old(self).wf(),
            old(board).wf(),
        ensures
            final(self).wf(),
            final(board).wf(),
            final(board)@ == old(board)@,
            final(board).past() == old(board).past(),
            r@ == no_move() || legal_move(old(board)@, r@),
            depth == 0 ==> r@ == no_move(),
            final(self).depth_done <= depth,
            final(self).depth_done >= 1 ==> -INFINITY <= final(self).score <= INFINITY,
            final(self).depth_done >= 1 && own_king_once(old(board)@) && !no_legal_move(old(board)@)
                ==> legal_move(old(board)@, r@) && r@ != no_move(),
    {
        let ghost b0 = board@;
        self.stop.store(false, Ordering::Relaxed);
        self.stopped = false;
        self.depth_done = 0;
        self.progress = Vec::new();
        self.time = now_millis();
        self.nodes = 0;
        self.ply = 0;
        self.pv_table.set(0, null_move());
        self.pv_length.set(0, 0);
        let mut best_move = null_move();
        let mut current: u16 = 1;
        let mut done: u8 = 0;
        let mut last: i32 = 0;
        proof {
            lemma_no_move_illegal(b0);
        }
        while current <= depth as u16
            invariant
                self.wf(),
                self.ply == 0,
                board.wf(),
                board@ == old(board)@,
                board.past() == old(board).past(),
                b0 == old(board)@,
                !legal_move(b0, no_move()),
                self.pv_table@[0]@ == no_move() || legal_move(b0, self.pv_table@[0]@),
                best_move@ == no_move() || legal_move(b0, best_move@),
                1 <= current <= 256,
                done as int == current - 1,
                current - 1 <= depth,
                done == 0 ==> best_move@ == no_move(),
                done >= 1 ==> -INFINITY <= last <= INFINITY,
                done >= 1 && own_king_once(b0) && !no_legal_move(b0) ==> legal_move(
                    b0,
                    best_move@,
                ),
            decreases 256 - current,
        {
            if self.stop_search() {
                break;
            }
            self.follow_pv = true;
            let score = self.negamax(board, -INFINITY, INFINITY, current as u8);
            if self.stop_search() {
                break;
            }
            last = score;
            best_move = self.pv_table[0].copy();
            done = current as u8;
            let plies = self.pv_length[0];
            self.progress.push((current as u8, score, self.nodes, plies));
            current += 1;
        }
        self.score = last;
        self.depth_done = done;
        best_move
    }

    /// A handle on the stop signal: storing `true` in it stops a running
    /// search at its next poll.
    pub fn stop_handle(&self) -> Arc<AtomicBool> {
        self.stop.clone()
    }
}

} // verus!
