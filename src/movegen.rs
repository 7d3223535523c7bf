//! Moves and the pseudo-legal move generator of the unbounded board.
//!
//! Sliding pieces do not list the empty squares they could reach: on each of
//! their directions they either capture the nearest piece, when it is an
//! opponent's, or, when no piece stands on that ray at all, produce a symbolic
//! `InfiniteRay` move.

use crate::board::{Board, BoardModel, Coordinate, Piece, Square, lemma_piece_at};
use crate::integer::Integer;
use vstd::prelude::*;

verus! {

/// The eight directions of the board; "top" is towards higher ranks, "right"
/// towards higher files.
#[derive(Debug, Clone, Copy, PartialEq, Eq, Structural)]
pub enum Direction {
    TopLeft,
    TopRight,
    BottomLeft,
    BottomRight,
    Top,
    Bottom,
    Left,
    Right,
}

/// A move: from a square to a square, or along an unobstructed ray.
#[derive(Debug)]
pub enum Move {
    Normal(Coordinate, Coordinate),
    Castling(Coordinate, Coordinate),
    EnPassant(Coordinate, Coordinate),
    Promotion(Coordinate, Coordinate, Piece),
    InfiniteRay(Coordinate, Direction),
}

/// The mathematical content of a move.
pub enum MoveModel {
    Normal(Square, Square),
    Castling(Square, Square),
    EnPassant(Square, Square),
    Promotion(Square, Square, Piece),
    InfiniteRay(Square, Direction),
}

impl MoveModel {
    /// The square the moving piece leaves.
    pub open spec fn source(self) -> Square {
        match self {
            MoveModel::Normal(f, _) => f,
            MoveModel::Castling(f, _) => f,
            MoveModel::EnPassant(f, _) => f,
            MoveModel::Promotion(f, _, _) => f,
            MoveModel::InfiniteRay(f, _) => f,
        }
    }
}

impl View for Move {
    type V = MoveModel;

    open spec fn view(&self) -> MoveModel {
        match self {
            Move::Normal(f, t) => MoveModel::Normal(f@, t@),
            Move::Castling(f, t) => MoveModel::Castling(f@, t@),
            Move::EnPassant(f, t) => MoveModel::EnPassant(f@, t@),
            Move::Promotion(f, t, p) => MoveModel::Promotion(f@, t@, *p),
            Move::InfiniteRay(f, d) => MoveModel::InfiniteRay(f@, *d),
        }
    }
}

impl Move {
    /// An equal move.
    pub fn copy(&self) -> (r: Move)
        ensures
            r@ == self@,
    {
        match self {
            Move::Normal(f, t) => Move::Normal(f.copy(), t.copy()),
            Move::Castling(f, t) => Move::Castling(f.copy(), t.copy()),
            Move::EnPassant(f, t) => Move::EnPassant(f.copy(), t.copy()),
            Move::Promotion(f, t, p) => Move::Promotion(f.copy(), t.copy(), *p),
            Move::InfiniteRay(f, d) => Move::InfiniteRay(f.copy(), *d),
        }
    }

    pub fn equals(&self, o: &Move) -> (r: bool)
        ensures
            r == (self@ == o@),
    {
        match (self, o) {
            (Move::Normal(f, t), Move::Normal(g, u)) => f.equals(g) && t.equals(u),
            (Move::Castling(f, t), Move::Castling(g, u)) => f.equals(g) && t.equals(u),
            (Move::EnPassant(f, t), Move::EnPassant(g, u)) => f.equals(g) && t.equals(u),
            (Move::Promotion(f, t, p), Move::Promotion(g, u, q)) => f.equals(g) && t.equals(u)
                && *p == *q,
            (Move::InfiniteRay(f, d), Move::InfiniteRay(g, e)) => f.equals(g) && *d == *e,
            _ => false,
        }
    }
}

pub open spec fn views(s: Seq<Move>) -> Seq<MoveModel> {
    s.map_values(|m: Move| m@)
}

/// A list of moves under construction.
pub struct MoveList {
    pub moves: Vec<Move>,
}

impl MoveList {
    pub fn new() -> (r: MoveList)
        ensures
            r.moves@.len() == 0,
    {
        MoveList { moves: Vec::new() }
    }

    /// Appends `move_`.
    pub fn add(&mut self, move_: Move)
        ensures
            views(final(self).moves@) == views(old(self).moves@).push(move_@),
    {
        add_move(&mut self.moves, move_);
    }

    pub fn count(&self) -> (r: usize)
        ensures
            r == self.moves@.len(),
    {
        self.moves.len()
    }
}

/// The largest of `|a|` and `|b|`.
pub open spec fn chebyshev(a: int, b: int) -> int {
    let x = if a >= 0 { a } else { -a };
    let y = if b >= 0 { b } else { -b };
    if x >= y { x } else { y }
}

/// How many king steps separate `s` and `t`.
pub open spec fn distance(s: Square, t: Square) -> int {
    chebyshev(t.0 - s.0, t.1 - s.1)
}

/// `t` lies on the ray that leaves `s` in direction `d` (`s` excluded).
pub open spec fn on_ray(s: Square, d: Direction, t: Square) -> bool {
    let a = t.0 - s.0;
    let b = t.1 - s.1;
    match d {
        Direction::Top => a == 0 && b > 0,
        Direction::Bottom => a == 0 && b < 0,
        Direction::Right => b == 0 && a > 0,
        Direction::Left => b == 0 && a < 0,
        Direction::TopRight => a == b && a > 0,
        Direction::BottomLeft => a == b && a < 0,
        Direction::BottomRight => a == -b && a > 0,
        Direction::TopLeft => a == -b && a < 0,
    }
}

/// `t` holds the piece nearest to `s` on the ray in direction `d`.
pub open spec fn nearest_on_ray(b: BoardModel, s: Square, d: Direction, t: Square) -> bool {
    &&& b.at(t) is Some
    &&& on_ray(s, d, t)
    &&& forall|u: Square|
        #![trigger on_ray(s, d, u), b.at(u)]
        b.at(u) is Some && on_ray(s, d, u) ==> distance(s, t) <= distance(s, u)
}

/// No piece stands on the ray from `s` in direction `d`.
pub open spec fn ray_clear(b: BoardModel, s: Square, d: Direction) -> bool {
    forall|u: Square| #![trigger on_ray(s, d, u), b.at(u)] on_ray(s, d, u) ==> b.at(u) is None
}

/// `t` is empty or holds a piece of the other colour than `white`.
pub open spec fn free_for(b: BoardModel, white: bool, t: Square) -> bool {
    match b.at(t) {
        Some(q) => q.white() != white,
        None => true,
    }
}

/// `t` holds a piece of the other colour than `white`.
pub open spec fn enemy_at(b: BoardModel, white: bool, t: Square) -> bool {
    match b.at(t) {
        Some(q) => q.white() != white,
        None => false,
    }
}

/// The move of a sliding piece of colour `white` on `s` along direction `d`.
pub open spec fn ray_move(b: BoardModel, s: Square, white: bool, d: Direction, m: MoveModel) -> bool {
    match m {
        MoveModel::Normal(f, t) => f == s && nearest_on_ray(b, s, d, t) && enemy_at(b, white, t),
        MoveModel::InfiniteRay(f, e) => f == s && e == d && ray_clear(b, s, d),
        _ => false,
    }
}

pub open spec fn rook_move(b: BoardModel, s: Square, white: bool, m: MoveModel) -> bool {
    ||| ray_move(b, s, white, Direction::Top, m)
    ||| ray_move(b, s, white, Direction::Bottom, m)
    ||| ray_move(b, s, white, Direction::Right, m)
    ||| ray_move(b, s, white, Direction::Left, m)
}

pub open spec fn bishop_move(b: BoardModel, s: Square, white: bool, m: MoveModel) -> bool {
    ||| ray_move(b, s, white, Direction::TopRight, m)
    ||| ray_move(b, s, white, Direction::BottomRight, m)
    ||| ray_move(b, s, white, Direction::TopLeft, m)
    ||| ray_move(b, s, white, Direction::BottomLeft, m)
}

pub open spec fn knight_step(a: int, c: int) -> bool {
    ||| (a == 2 || a == -2) && (c == 1 || c == -1)
    ||| (a == 1 || a == -1) && (c == 2 || c == -2)
}

pub open spec fn king_step(a: int, c: int) -> bool {
    -1 <= a <= 1 && -1 <= c <= 1 && !(a == 0 && c == 0)
}

pub open spec fn knight_move(b: BoardModel, s: Square, white: bool, m: MoveModel) -> bool {
    match m {
        MoveModel::Normal(f, t) => f == s && knight_step(t.0 - s.0, t.1 - s.1) && free_for(b, white, t),
        _ => false,
    }
}

/// Castling of the king of colour `white` standing on `s`.
pub open spec fn castle_move(b: BoardModel, s: Square, white: bool, m: MoveModel) -> bool {
    let r: int = if white { 1 } else { 8 };
    let short: u8 = if white { 8 } else { 2 };
    let long: u8 = if white { 4 } else { 1 };
    match m {
        MoveModel::Castling(f, t) => f == s && s == (5int, r) && ((t == (7int, r) && b.castling
            & short != 0 && b.empty_at((6, r)) && b.empty_at((7, r))) || (t == (3int, r)
            && b.castling & long != 0 && b.empty_at((4, r)) && b.empty_at((3, r)) && b.empty_at(
            (2, r),
        ))),
        _ => false,
    }
}

pub open spec fn king_move(b: BoardModel, s: Square, white: bool, m: MoveModel) -> bool {
    let step = match m {
        MoveModel::Normal(f, t) => f == s && king_step(t.0 - s.0, t.1 - s.1) && free_for(b, white, t),
        _ => false,
    };
    step || castle_move(b, s, white, m)
}

/// A piece that a pawn of colour `white` may become.
pub open spec fn promotion_piece(white: bool, q: Piece) -> bool {
    if white {
        q is WhiteQueen || q is WhiteRook || q is WhiteKnight || q is WhiteBishop
    } else {
        q is BlackQueen || q is BlackRook || q is BlackKnight || q is BlackBishop
    }
}

pub open spec fn pawn_dir(white: bool) -> int {
    if white { 1 } else { -1 }
}

pub open spec fn promotion_rank(white: bool) -> int {
    if white { 8 } else { 1 }
}

pub open spec fn start_rank(white: bool) -> int {
    if white { 2 } else { 7 }
}

/// `t` is a square that a pawn of colour `white` on `s` may reach by its
/// push or by a capture: the target it may take as a plain move or a promotion.
pub open spec fn pawn_reach(b: BoardModel, s: Square, white: bool, t: Square) -> bool {
    let d = pawn_dir(white);
    ||| t == (s.0, s.1 + d) && b.empty_at(t)
    ||| (t == (s.0 + 1, s.1 + d) || t == (s.0 - 1, s.1 + d)) && enemy_at(b, white, t)
}

pub open spec fn pawn_move(b: BoardModel, s: Square, white: bool, m: MoveModel) -> bool {
    let d = pawn_dir(white);
    match m {
        MoveModel::Normal(f, t) => f == s && ((pawn_reach(b, s, white, t) && t.1
            != promotion_rank(white)) || (s.1 == start_rank(white) && t == (s.0, s.1 + 2 * d)
            && b.empty_at((s.0, s.1 + d)) && b.empty_at(t))),
        MoveModel::Promotion(f, t, q) => f == s && promotion_piece(white, q) && t.1
            == promotion_rank(white) && pawn_reach(b, s, white, t),
        MoveModel::EnPassant(f, t) => f == s && (t == (s.0 + 1, s.1 + d) || t == (s.0 - 1, s.1
            + d)) && b.empty_at(t) && b.en_passant == Some(t),
        _ => false,
    }
}

/// `m` is a move of the piece `p` standing on `s`.
pub open spec fn piece_move(b: BoardModel, s: Square, p: Piece, m: MoveModel) -> bool {
    if p.pawn() {
        pawn_move(b, s, p.white(), m)
    } else if p.knight() {
        knight_move(b, s, p.white(), m)
    } else if p.king() {
        king_move(b, s, p.white(), m)
    } else if p.rook() {
        rook_move(b, s, p.white(), m)
    } else if p.bishop() {
        bishop_move(b, s, p.white(), m)
    } else {
        rook_move(b, s, p.white(), m) || bishop_move(b, s, p.white(), m)
    }
}

/// `m` is a pseudo-legal move of the side to move: geometry and captures are
/// right, the safety of the mover's king is not considered.
pub open spec fn pseudo_legal(b: BoardModel, m: MoveModel) -> bool {
    match b.at(m.source()) {
        Some(p) => p.white() == b.white_to_move && piece_move(b, m.source(), p, m),
        None => false,
    }
}

/// `ms` holds each pseudo-legal move of `b` exactly once, and nothing else.
pub open spec fn lists_exactly(ms: Seq<MoveModel>, b: BoardModel) -> bool {
    &&& ms.no_duplicates()
    &&& forall|m: MoveModel| #[trigger] ms.contains(m) <==> pseudo_legal(b, m)
}

/// Moves of `ms` leave squares other than `s`, and no move appears twice.
pub open spec fn fresh_for(ms: Seq<MoveModel>, s: Square) -> bool {
    &&& ms.no_duplicates()
    &&& forall|m: MoveModel| #[trigger] ms.contains(m) ==> m.source() != s
}

proof fn lemma_push_contains(s: Seq<MoveModel>, x: MoveModel)
    ensures
        forall|m: MoveModel| #[trigger] s.push(x).contains(m) <==> (s.contains(m) || m == x),
        s.no_duplicates() && !s.contains(x) ==> s.push(x).no_duplicates(),
{
    assert forall|m: MoveModel| #[trigger] s.push(x).contains(m) <==> (s.contains(m) || m == x) by {
        if s.contains(m) {
            let i = choose|i: int| 0 <= i < s.len() && s[i] == m;
            assert(s.push(x)[i] == m);
        }
        if m == x {
            assert(s.push(x)[s.len() as int] == m);
        }
        if s.push(x).contains(m) {
            let i = choose|i: int| 0 <= i < s.push(x).len() && s.push(x)[i] == m;
            if i < s.len() {
                assert(s[i] == m);
            }
        }
    }
    if s.no_duplicates() && !s.contains(x) {
        let t = s.push(x);
        assert forall|i: int, j: int| 0 <= i < t.len() && 0 <= j < t.len() && i != j implies t[i]
            != t[j] by {
            if i < s.len() && j < s.len() {
                assert(t[i] == s[i] && t[j] == s[j]);
            } else if i < s.len() {
                assert(t[i] == s[i]);
            } else if j < s.len() {
                assert(t[j] == s[j]);
            }
        }
    }
}

fn add_move(out: &mut Vec<Move>, m: Move)
    ensures
        views(final(out)@) == views(old(out)@).push(m@),
        forall|x: MoveModel| #[trigger]
            views(final(out)@).contains(x) <==> (views(old(out)@).contains(x) || x == m@),
        views(old(out)@).no_duplicates() && !views(old(out)@).contains(m@) ==> views(
            final(out)@,
        ).no_duplicates(),
{
    let ghost mm = m@;
    out.push(m);
    assert(views(out@) =~= views(old(out)@).push(mm));
    proof {
        lemma_push_contains(views(old(out)@), mm);
    }
}


pub open spec fn step_move(s: Square, dx: int, dy: int) -> MoveModel {
    MoveModel::Normal(s, (s.0 + dx, s.1 + dy))
}

/// How far `t` is from `s` along direction `d`, when it lies on that ray.
fn ray_distance(s: &Coordinate, d: Direction, t: &Coordinate) -> (r: Option<Integer>)
    ensures
        match r {
            Some(k) => on_ray(s@, d, t@) && k@ == distance(s@, t@),
            None => !on_ray(s@, d, t@),
        },
{
    let a = t.0.sub(&s.0);
    let b = t.1.sub(&s.1);
    let na = s.0.sub(&t.0);
    let nb = s.1.sub(&t.1);
    match d {
        Direction::Top => if a.is(0) && b.is_positive() { Some(b) } else { None },
        Direction::Bottom => if a.is(0) && nb.is_positive() { Some(nb) } else { None },
        Direction::Right => if b.is(0) && a.is_positive() { Some(a) } else { None },
        Direction::Left => if b.is(0) && na.is_positive() { Some(na) } else { None },
        Direction::TopRight => if a.equals(&b) && a.is_positive() { Some(a) } else { None },
        Direction::BottomLeft => if na.equals(&nb) && na.is_positive() { Some(na) } else { None },
        Direction::BottomRight => if a.equals(&nb) && a.is_positive() { Some(a) } else { None },
        Direction::TopLeft => if na.equals(&b) && na.is_positive() { Some(na) } else { None },
    }
}

/// The index of the placement nearest to `s` on the ray in direction `d`.
fn nearest(board: &Board, s: &Coordinate, d: Direction) -> (r: Option<usize>)
    requires
        board.wf(),
    ensures
        match r {
            Some(i) => i < board.placed().len() && nearest_on_ray(board@, s@, d, board.placed()[i as int].0),
            None => ray_clear(board@, s@, d),
        },
{
    let ghost ps = board.placed();
    proof {
        board.lemma_view_at();
    }
    let mut best: Option<(usize, Integer)> = None;
    let mut i: usize = 0;
    while i < board.state.len()
        invariant
            board.wf(),
            ps == board.placed(),
            i <= board.state.len(),
            match best {
                Some((j, k)) => j < i && on_ray(s@, d, ps[j as int].0) && k@ == distance(s@, ps[j as int].0)
                    && forall|l: int| 0 <= l < i && on_ray(s@, d, ps[l].0) ==> k@ <= distance(s@, ps[l].0),
                None => forall|l: int| 0 <= l < i ==> !on_ray(s@, d, ps[l].0),
            },
        decreases board.state.len() - i,
    {
        match ray_distance(s, d, &board.state[i].0) {
            Some(k) => {
                let closer = match &best {
                    Some((_, bk)) => k.less_than(bk),
                    None => true,
                };
                if closer {
                    best = Some((i, k));
                }
            },
            None => {},
        }
        i += 1;
    }
    match best {
        Some((j, k)) => {
            proof {
                lemma_piece_at(ps, ps[j as int].0);
                assert forall|u: Square|
                    #![trigger on_ray(s@, d, u), board@.at(u)]
                    board@.at(u) is Some && on_ray(s@, d, u) implies distance(s@, ps[j as int].0)
                    <= distance(s@, u) by {
                    lemma_piece_at(ps, u);
                }
            }
            Some(j)
        },
        None => {
            proof {
                assert forall|u: Square| #![trigger on_ray(s@, d, u), board@.at(u)] on_ray(s@, d, u) implies board@.at(u) is None by {
                    lemma_piece_at(ps, u);
                }
            }
            None
        },
    }
}

/// Two squares on one ray at the same distance coincide.
proof fn lemma_ray_unique(s: Square, d: Direction, t: Square, u: Square)
    requires
        on_ray(s, d, t),
        on_ray(s, d, u),
        distance(s, t) == distance(s, u),
    ensures
        t == u,
{
}

/// A move of a piece leaves the piece's square.
pub proof fn lemma_piece_move_source(b: BoardModel, s: Square, p: Piece, m: MoveModel)
    requires
        piece_move(b, s, p, m),
    ensures
        m.source() == s,
{
}

/// Every plain move and every promotion that the generator lists lands on an
/// empty square or on a piece of the opponent.
pub proof fn lemma_targets_free(b: BoardModel, m: MoveModel)
    requires
        pseudo_legal(b, m),
    ensures
        match m {
            MoveModel::Normal(_, t) => free_for(b, b.white_to_move, t),
            MoveModel::Promotion(_, t, _) => free_for(b, b.white_to_move, t),
            _ => true,
        },
{
}

pub struct MoveGen;

impl MoveGen {
    /// Whether `target_piece` belongs to the other side than `piece`.
    pub fn is_opponent_piece(piece: Piece, target_piece: Piece) -> (r: bool)
        ensures
            r == (piece.white() != target_piece.white()),
    {
        piece.is_white() != target_piece.is_white()
    }

    fn generate_rook_moves(board: &Board, coord: &Coordinate, piece: Piece, out: &mut Vec<Move>)
        requires
            board.wf(),
            fresh_for(views(old(out)@), coord@),
        ensures
            views(final(out)@).no_duplicates(),
            forall|x: MoveModel| #[trigger]
                views(final(out)@).contains(x) <==> (views(old(out)@).contains(x) || rook_move(
                    board@,
                    coord@,
                    piece.white(),
                    x,
                )),
    {
        let white = piece.is_white();
        Self::slide(board, coord, white, Direction::Top, out);
        Self::slide(board, coord, white, Direction::Bottom, out);
        Self::slide(board, coord, white, Direction::Right, out);
        Self::slide(board, coord, white, Direction::Left, out);
    }

    fn generate_bishop_moves(board: &Board, coord: &Coordinate, piece: Piece, out: &mut Vec<Move>)
        requires
            board.wf(),
            views(old(out)@).no_duplicates(),
            forall|x: MoveModel| #[trigger] views(old(out)@).contains(x) ==> !bishop_move(
                board@,
                coord@,
                piece.white(),
                x,
            ),
        ensures
            views(final(out)@).no_duplicates(),
            forall|x: MoveModel| #[trigger]
                views(final(out)@).contains(x) <==> (views(old(out)@).contains(x) || bishop_move(
                    board@,
                    coord@,
                    piece.white(),
                    x,
                )),
    {
        let white = piece.is_white();
        Self::slide(board, coord, white, Direction::TopRight, out);
        Self::slide(board, coord, white, Direction::BottomRight, out);
        Self::slide(board, coord, white, Direction::TopLeft, out);
        Self::slide(board, coord, white, Direction::BottomLeft, out);
    }

    fn generate_queen_moves(board: &Board, coord: &Coordinate, piece: Piece, out: &mut Vec<Move>)
        requires
            board.wf(),
            fresh_for(views(old(out)@), coord@),
        ensures
            views(final(out)@).no_duplicates(),
            forall|x: MoveModel| #[trigger]
                views(final(out)@).contains(x) <==> (views(old(out)@).contains(x) || rook_move(
                    board@,
                    coord@,
                    piece.white(),
                    x,
                ) || bishop_move(board@, coord@, piece.white(), x)),
    {
        Self::generate_rook_moves(board, coord, piece, out);
        proof {
            assert forall|x: MoveModel| #[trigger] views(out@).contains(x) implies !bishop_move(
                board@,
                coord@,
                piece.white(),
                x,
            ) by {
                if rook_move(board@, coord@, piece.white(), x) && bishop_move(board@, coord@, piece.white(), x) {
                    match x {
                        MoveModel::Normal(f, t) => {
                            assert(on_ray(coord@, Direction::Top, t) || on_ray(coord@, Direction::Bottom, t) || on_ray(coord@, Direction::Right, t) || on_ray(coord@, Direction::Left, t));
                        },
                        _ => {},
                    }
                }
            }
        }
        Self::generate_bishop_moves(board, coord, piece, out);
    }

    /// The plain move from `coord` by `(dx, dy)`, when the target is empty
    /// or holds an opponent's piece.
    fn add_step(board: &Board, coord: &Coordinate, white: bool, dx: i64, dy: i64, out: &mut Vec<Move>)
        requires
            board.wf(),
        ensures
            forall|x: MoveModel| #[trigger]
                views(final(out)@).contains(x) <==> (views(old(out)@).contains(x) || (x == step_move(
                    coord@,
                    dx as int,
                    dy as int,
                ) && free_for(board@, white, (coord@.0 + dx, coord@.1 + dy)))),
            views(old(out)@).no_duplicates() && !views(old(out)@).contains(
                step_move(coord@, dx as int, dy as int),
            ) ==> views(final(out)@).no_duplicates(),
    {
        let target = coord.offset(dx, dy);
        let free = match board.piece_on(&target) {
            Some(q) => q.is_white() != white,
            None => true,
        };
        if free {
            add_move(out, Move::Normal(coord.copy(), target));
        }
    }

    fn generate_knight_moves(board: &Board, coord: &Coordinate, piece: Piece, out: &mut Vec<Move>)
        requires
            board.wf(),
            fresh_for(views(old(out)@), coord@),
        ensures
            views(final(out)@).no_duplicates(),
            forall|x: MoveModel| #[trigger]
                views(final(out)@).contains(x) <==> (views(old(out)@).contains(x) || knight_move(
                    board@,
                    coord@,
                    piece.white(),
                    x,
                )),
    {
        let white = piece.is_white();
        Self::add_step(board, coord, white, 2, 1, out);
        Self::add_step(board, coord, white, 2, -1, out);
        Self::add_step(board, coord, white, -2, 1, out);
        Self::add_step(board, coord, white, -2, -1, out);
        Self::add_step(board, coord, white, 1, 2, out);
        Self::add_step(board, coord, white, 1, -2, out);
        Self::add_step(board, coord, white, -1, 2, out);
        Self::add_step(board, coord, white, -1, -2, out);
    }

    fn generate_king_moves(board: &Board, coord: &Coordinate, piece: Piece, out: &mut Vec<Move>)
        requires
            board.wf(),
            piece.king(),
            fresh_for(views(old(out)@), coord@),
        ensures
            views(final(out)@).no_duplicates(),
            forall|x: MoveModel| #[trigger]
                views(final(out)@).contains(x) <==> (views(old(out)@).contains(x) || king_move(
                    board@,
                    coord@,
                    piece.white(),
                    x,
                )),
    {
        let white = piece.is_white();
        Self::add_step(board, coord, white, 1, 0, out);
        Self::add_step(board, coord, white, 1, 1, out);
        Self::add_step(board, coord, white, 0, 1, out);
        Self::add_step(board, coord, white, -1, 1, out);
        Self::add_step(board, coord, white, -1, 0, out);
        Self::add_step(board, coord, white, -1, -1, out);
        Self::add_step(board, coord, white, 0, -1, out);
        Self::add_step(board, coord, white, 1, -1, out);
        let rank: i64 = if white { 1 } else { 8 };
        let short: u8 = if white { 8 } else { 2 };
        let long: u8 = if white { 4 } else { 1 };
        if coord.is(5, rank) {
            if board.castling_rights & short != 0 && board.piece_on(&Coordinate::new(6, rank)).is_none()
                && board.piece_on(&Coordinate::new(7, rank)).is_none() {
                add_move(out, Move::Castling(coord.copy(), Coordinate::new(7, rank)));
            }
            if board.castling_rights & long != 0 && board.piece_on(&Coordinate::new(4, rank)).is_none()
                && board.piece_on(&Coordinate::new(3, rank)).is_none() && board.piece_on(
                &Coordinate::new(2, rank),
            ).is_none() {
                add_move(out, Move::Castling(coord.copy(), Coordinate::new(3, rank)));
            }
        }
    }

    /// The four promotions from `from` to `to` for a pawn of colour `white`.
    fn add_promotions(from: &Coordinate, to: &Coordinate, white: bool, out: &mut Vec<Move>)
        ensures
            forall|x: MoveModel| #[trigger]
                views(final(out)@).contains(x) <==> (views(old(out)@).contains(x) || (x
                    is Promotion && x->Promotion_0 == from@ && x->Promotion_1 == to@
                    && promotion_piece(white, x->Promotion_2))),
            views(old(out)@).no_duplicates() && (forall|x: MoveModel| #[trigger] views(old(out)@).contains(x) ==> !(x
                    is Promotion && x->Promotion_0 == from@ && x->Promotion_1 == to@))
                ==> views(final(out)@).no_duplicates(),
    {
        if white {
            add_move(out, Move::Promotion(from.copy(), to.copy(), Piece::WhiteQueen));
            add_move(out, Move::Promotion(from.copy(), to.copy(), Piece::WhiteRook));
            add_move(out, Move::Promotion(from.copy(), to.copy(), Piece::WhiteKnight));
            add_move(out, Move::Promotion(from.copy(), to.copy(), Piece::WhiteBishop));
        } else {
            add_move(out, Move::Promotion(from.copy(), to.copy(), Piece::BlackQueen));
            add_move(out, Move::Promotion(from.copy(), to.copy(), Piece::BlackRook));
            add_move(out, Move::Promotion(from.copy(), to.copy(), Piece::BlackKnight));
            add_move(out, Move::Promotion(from.copy(), to.copy(), Piece::BlackBishop));
        }
    }

    /// The diagonal capture of a pawn towards file offset `dx`, or its
    /// en-passant capture.
    fn pawn_capture(board: &Board, coord: &Coordinate, white: bool, dx: i64, out: &mut Vec<Move>)
        requires
            board.wf(),
            dx == 1 || dx == -1,
            views(old(out)@).no_duplicates(),
            forall|x: MoveModel| #[trigger] views(old(out)@).contains(x) ==> x.source() != coord@ || match x {
                MoveModel::Normal(_, t) => t.0 != coord@.0 + dx,
                MoveModel::Promotion(_, t, _) => t.0 != coord@.0 + dx,
                MoveModel::EnPassant(_, t) => t.0 != coord@.0 + dx,
                _ => true,
            },
        ensures
            views(final(out)@).no_duplicates(),
            forall|x: MoveModel| #[trigger]
                views(final(out)@).contains(x) <==> (views(old(out)@).contains(x) || (
                    pawn_move(board@, coord@, white, x) && match x {
                    MoveModel::Normal(_, t) => t == (coord@.0 + dx, coord@.1 + pawn_dir(white)),
                    MoveModel::Promotion(_, t, _) => t == (coord@.0 + dx, coord@.1 + pawn_dir(white)),
                    MoveModel::EnPassant(_, t) => t == (coord@.0 + dx, coord@.1 + pawn_dir(white)),
                    _ => false,
                })),
    {
        let dir: i64 = if white { 1 } else { -1 };
        let promotion: i64 = if white { 8 } else { 1 };
        let target = coord.offset(dx, dir);
        match board.piece_on(&target) {
            Some(q) => {
                if q.is_white() != white {
                    if target.1.is(promotion) {
                        Self::add_promotions(coord, &target, white, out);
                    } else {
                        add_move(out, Move::Normal(coord.copy(), target));
                    }
                }
            },
            None => {
                let hit = match &board.en_passant {
                    Some(e) => e.equals(&target),
                    None => false,
                };
                if hit {
                    add_move(out, Move::EnPassant(coord.copy(), target));
                }
            },
        }
    }

    fn generate_pawn_moves(board: &Board, coord: &Coordinate, piece: Piece, out: &mut Vec<Move>)
        requires
            board.wf(),
            fresh_for(views(old(out)@), coord@),
        ensures
            views(final(out)@).no_duplicates(),
            forall|x: MoveModel| #[trigger]
                views(final(out)@).contains(x) <==> (views(old(out)@).contains(x) || pawn_move(
                    board@,
                    coord@,
                    piece.white(),
                    x,
                )),
    {
        let white = piece.is_white();
        let dir: i64 = if white { 1 } else { -1 };
        let start: i64 = if white { 2 } else { 7 };
        let promotion: i64 = if white { 8 } else { 1 };
        let forward = coord.offset(0, dir);
        let forward_free = board.piece_on(&forward).is_none();
        if forward_free {
            if forward.1.is(promotion) {
                Self::add_promotions(coord, &forward, white, out);
            } else {
                add_move(out, Move::Normal(coord.copy(), forward.copy()));
            }
        }
        if coord.1.is(start) {
            let double = coord.offset(0, 2 * dir);
            if forward_free && board.piece_on(&double).is_none() {
                add_move(out, Move::Normal(coord.copy(), double));
            }
        }
        Self::pawn_capture(board, coord, white, 1, out);
        Self::pawn_capture(board, coord, white, -1, out);
    }

    /// Appends the pseudo-legal moves of the side to move: each once, and
    /// nothing else.
    pub fn generate_moves(board: &Board, move_list: &mut MoveList)
        requires
            board.wf(),
        ensures
            final(move_list).moves@.len() >= old(move_list).moves@.len(),
            final(move_list).moves@.subrange(0, old(move_list).moves@.len() as int)
                == old(move_list).moves@,
            lists_exactly(
                views(final(move_list).moves@).subrange(
                    old(move_list).moves@.len() as int,
                    final(move_list).moves@.len() as int,
                ),
                board@,
            ),
    {
        let mut out = Self::pseudo_legal_moves(board);
        let ghost added = out@;
        move_list.moves.append(&mut out);
        assert(move_list.moves@.subrange(0, old(move_list).moves@.len() as int) =~= old(
            move_list,
        ).moves@);
        assert(views(move_list.moves@).subrange(
            old(move_list).moves@.len() as int,
            move_list.moves@.len() as int,
        ) =~= views(added));
    }

    /// The pseudo-legal moves of the side to move, each once.
    pub fn pseudo_legal_moves(board: &Board) -> (r: Vec<Move>)
        requires
            board.wf(),
        ensures
            lists_exactly(views(r@), board@),
    {
        let ghost b = board@;
        let ghost ps = board.placed();
        let mut out: Vec<Move> = Vec::new();
        let mut i: usize = 0;
        while i < board.state.len()
            invariant
                board.wf(),
                b == board@,
                ps == board.placed(),
                i <= board.state.len(),
                views(out@).no_duplicates(),
                forall|x: MoveModel| #[trigger]
                    views(out@).contains(x) <==> exists|j: int|
                        0 <= j < i && ps[j].1.white() == b.white_to_move && #[trigger] piece_move(
                            b,
                            ps[j].0,
                            ps[j].1,
                            x,
                        ),
            decreases board.state.len() - i,
        {
            let coord = &board.state[i].0;
            let piece = board.state[i].1;
            let ghost before = views(out@);
            assert(ps[i as int].0 == coord@ && ps[i as int].1 == piece);
            proof {
                assert forall|x: MoveModel| #[trigger] before.contains(x) implies x.source() != coord@ by {
                    let j = choose|j: int|
                        0 <= j < i && ps[j].1.white() == b.white_to_move && #[trigger] piece_move(
                            b,
                            ps[j].0,
                            ps[j].1,
                            x,
                        );
                    lemma_piece_move_source(b, ps[j].0, ps[j].1, x);
                }
            }
            if piece.is_white() == board.side_to_move {
                match piece {
                    Piece::WhitePawn | Piece::BlackPawn => {
                        Self::generate_pawn_moves(board, coord, piece, &mut out);
                    },
                    Piece::WhiteRook | Piece::BlackRook => {
                        Self::generate_rook_moves(board, coord, piece, &mut out);
                    },
                    Piece::WhiteKnight | Piece::BlackKnight => {
                        Self::generate_knight_moves(board, coord, piece, &mut out);
                    },
                    Piece::WhiteBishop | Piece::BlackBishop => {
                        proof {
                            assert forall|x: MoveModel| #[trigger] before.contains(x) implies !bishop_move(
                                b,
                                coord@,
                                piece.white(),
                                x,
                            ) by {
                                if bishop_move(b, coord@, piece.white(), x) {
                                    lemma_piece_move_source(b, coord@, piece, x);
                                }
                            }
                        }
                        Self::generate_bishop_moves(board, coord, piece, &mut out);
                    },
                    Piece::WhiteQueen | Piece::BlackQueen => {
                        Self::generate_queen_moves(board, coord, piece, &mut out);
                    },
                    Piece::WhiteKing | Piece::BlackKing => {
                        Self::generate_king_moves(board, coord, piece, &mut out);
                    },
                }
            }
            proof {
                assert forall|x: MoveModel| #[trigger]
                    views(out@).contains(x) <==> exists|j: int|
                        0 <= j < i + 1 && ps[j].1.white() == b.white_to_move && #[trigger] piece_move(
                            b,
                            ps[j].0,
                            ps[j].1,
                            x,
                        ) by {
                    if views(out@).contains(x) && !before.contains(x) {
                        assert(ps[i as int].1.white() == b.white_to_move && piece_move(b, ps[i as int].0, ps[i as int].1, x));
                    }
                    if exists|j: int|
                        0 <= j < i + 1 && ps[j].1.white() == b.white_to_move && #[trigger] piece_move(
                            b,
                            ps[j].0,
                            ps[j].1,
                            x,
                        ) {
                        let j = choose|j: int|
                            0 <= j < i + 1 && ps[j].1.white() == b.white_to_move && #[trigger] piece_move(
                                b,
                                ps[j].0,
                                ps[j].1,
                                x,
                            );
                        if j < i {
                            assert(before.contains(x));
                        }
                    }
                }
            }
            i += 1;
        }
        proof {
            board.lemma_view_at();
            assert forall|x: MoveModel| #[trigger] views(out@).contains(x) <==> pseudo_legal(b, x) by {
                lemma_piece_at(ps, x.source());
                if views(out@).contains(x) {
                    let j = choose|j: int|
                        0 <= j < ps.len() && ps[j].1.white() == b.white_to_move && #[trigger] piece_move(
                            b,
                            ps[j].0,
                            ps[j].1,
                            x,
                        );
                    lemma_piece_move_source(b, ps[j].0, ps[j].1, x);
                }
                if pseudo_legal(b, x) {
                    let j = choose|j: int| 0 <= j < ps.len() && ps[j].0 == x.source();
                    assert(piece_move(b, ps[j].0, ps[j].1, x));
                }
            }
        }
        out
    }

    /// The move along direction `d` of a sliding piece on `coord`.
    fn slide(board: &Board, coord: &Coordinate, white: bool, d: Direction, out: &mut Vec<Move>)
        requires
            board.wf(),
            views(old(out)@).no_duplicates(),
            forall|x: MoveModel| #[trigger] views(old(out)@).contains(x) ==> !ray_move(board@, coord@, white, d, x),
        ensures
            views(final(out)@).no_duplicates(),
            forall|x: MoveModel| #[trigger]
                views(final(out)@).contains(x) <==> (views(old(out)@).contains(x) || ray_move(
                    board@,
                    coord@,
                    white,
                    d,
                    x,
                )),
    {
        let ghost b = board@;
        let ghost s = coord@;
        match nearest(board, coord, d) {
            Some(i) => {
                let ghost t = board.placed()[i as int].0;
                proof {
                    lemma_piece_at(board.placed(), t);
                    assert forall|x: MoveModel| ray_move(b, s, white, d, x) implies x == MoveModel::Normal(s, t) by {
                        match x {
                            MoveModel::Normal(f, u) => {
                                lemma_ray_unique(s, d, t, u);
                            },
                            MoveModel::InfiniteRay(f, e) => {
                                assert(on_ray(s, d, t));
                            },
                            _ => {},
                        }
                    }
                }
                let q = board.state[i].1;
                if q.is_white() != white {
                    let m = Move::Normal(coord.copy(), board.state[i].0.copy());
                    add_move(out, m);
                }
            },
            None => {
                proof {
                    assert forall|x: MoveModel| ray_move(b, s, white, d, x) implies x == MoveModel::InfiniteRay(s, d) by {
                        match x {
                            MoveModel::Normal(f, u) => {
                                assert(on_ray(s, d, u));
                            },
                            _ => {},
                        }
                    }
                }
                add_move(out, Move::InfiniteRay(coord.copy(), d));
            },
        }
    }
}

} // verus!
