//! Pieces, coordinates and the position: a sparse board with side to move,
//! castling rights, en-passant square and an undo stack of snapshots.

use crate::integer::Integer;
use crate::movegen::{Move, MoveGen, MoveList, MoveModel, lists_exactly, pseudo_legal, views};
use vstd::prelude::*;

verus! {

/// A square of the unbounded board as a pair of mathematical integers.
pub type Square = (int, int);

/// The twelve pieces.
#[derive(Debug, Clone, Copy, PartialEq, Eq, Hash, Structural)]
pub enum Piece {
    WhitePawn,
    WhiteRook,
    WhiteKnight,
    WhiteBishop,
    WhiteQueen,
    WhiteKing,
    BlackPawn,
    BlackRook,
    BlackKnight,
    BlackBishop,
    BlackQueen,
    BlackKing,
}

impl Piece {
    /// Whether the piece belongs to White.
    pub open spec fn white(self) -> bool {
        self is WhitePawn || self is WhiteRook || self is WhiteKnight || self is WhiteBishop
            || self is WhiteQueen || self is WhiteKing
    }

    pub open spec fn pawn(self) -> bool {
        self is WhitePawn || self is BlackPawn
    }

    pub open spec fn king(self) -> bool {
        self is WhiteKing || self is BlackKing
    }

    pub open spec fn rook(self) -> bool {
        self is WhiteRook || self is BlackRook
    }

    pub open spec fn knight(self) -> bool {
        self is WhiteKnight || self is BlackKnight
    }

    pub open spec fn bishop(self) -> bool {
        self is WhiteBishop || self is BlackBishop
    }

    pub open spec fn queen(self) -> bool {
        self is WhiteQueen || self is BlackQueen
    }

    /// The material value of the piece.
    pub open spec fn worth(self) -> int {
        if self.pawn() {
            100
        } else if self.knight() {
            300
        } else if self.bishop() {
            400
        } else if self.rook() {
            700
        } else if self.queen() {
            1200
        } else {
            0
        }
    }

    pub fn is_white(&self) -> (r: bool)
        ensures
            r == self.white(),
    {
        match self {
            Piece::WhitePawn | Piece::WhiteRook | Piece::WhiteKnight | Piece::WhiteBishop
            | Piece::WhiteQueen | Piece::WhiteKing => true,
            _ => false,
        }
    }

    pub fn is_black(&self) -> (r: bool)
        ensures
            r == !self.white(),
    {
        match self {
            Piece::BlackPawn | Piece::BlackRook | Piece::BlackKnight | Piece::BlackBishop
            | Piece::BlackQueen | Piece::BlackKing => true,
            _ => false,
        }
    }

    /// The material value of the piece: pawn 100, knight 300, bishop 400,
    /// rook 700, queen 1200, king 0.
    pub fn value(&self) -> (r: i32)
        ensures
            r == self.worth(),
    {
        match self {
            Piece::WhitePawn | Piece::BlackPawn => 100,
            Piece::WhiteKnight | Piece::BlackKnight => 300,
            Piece::WhiteBishop | Piece::BlackBishop => 400,
            Piece::WhiteRook | Piece::BlackRook => 700,
            Piece::WhiteQueen | Piece::BlackQueen => 1200,
            Piece::WhiteKing | Piece::BlackKing => 0,
        }
    }
}

/// The king of the given colour.
pub open spec fn king_of(white: bool) -> Piece {
    if white {
        Piece::WhiteKing
    } else {
        Piece::BlackKing
    }
}

/// A square: file `0`, rank `1`.
#[derive(Debug)]
pub struct Coordinate(pub Integer, pub Integer);

impl View for Coordinate {
    type V = Square;

    open spec fn view(&self) -> Square {
        (self.0@, self.1@)
    }
}

impl Coordinate {
    pub fn new(x: i64, y: i64) -> (r: Coordinate)
        ensures
            r@ == (x as int, y as int),
    {
        Coordinate(Integer::from_i64(x), Integer::from_i64(y))
    }

    /// An equal coordinate.
    pub fn copy(&self) -> (r: Coordinate)
        ensures
            r@ == self@,
    {
        Coordinate(self.0.copy(), self.1.copy())
    }

    pub fn equals(&self, o: &Coordinate) -> (r: bool)
        ensures
            r == (self@ == o@),
    {
        self.0.equals(&o.0) && self.1.equals(&o.1)
    }

    /// Whether this is the square `(x, y)`.
    pub fn is(&self, x: i64, y: i64) -> (r: bool)
        ensures
            r == (self@ == (x as int, y as int)),
    {
        self.0.is(x) && self.1.is(y)
    }

    /// The square `(x + dx, y + dy)`.
    pub fn offset(&self, dx: i64, dy: i64) -> (r: Coordinate)
        ensures
            r@ == (self@.0 + dx, self@.1 + dy),
    {
        Coordinate(self.0.add_i64(dx), self.1.add_i64(dy))
    }
}

/// The piece on `c` in the opening setup.
pub open spec fn opening_piece(c: Square) -> Option<Piece> {
    if !(1 <= c.0 <= 8) {
        None
    } else if c.1 == 2 {
        Some(Piece::WhitePawn)
    } else if c.1 == 7 {
        Some(Piece::BlackPawn)
    } else if c.1 == 1 || c.1 == 8 {
        let white = c.1 == 1;
        Some(
            if c.0 == 1 || c.0 == 8 {
                if white { Piece::WhiteRook } else { Piece::BlackRook }
            } else if c.0 == 2 || c.0 == 7 {
                if white { Piece::WhiteKnight } else { Piece::BlackKnight }
            } else if c.0 == 3 || c.0 == 6 {
                if white { Piece::WhiteBishop } else { Piece::BlackBishop }
            } else if c.0 == 4 {
                if white { Piece::WhiteQueen } else { Piece::BlackQueen }
            } else {
                if white { Piece::WhiteKing } else { Piece::BlackKing }
            },
        )
    } else {
        None
    }
}

/// The piece on square `c` of a list of placements: the last placement on `c`.
pub open spec fn piece_at(s: Seq<(Square, Piece)>, c: Square) -> Option<Piece>
    decreases s.len(),
{
    if s.len() == 0 {
        None
    } else if s.last().0 == c {
        Some(s.last().1)
    } else {
        piece_at(s.drop_last(), c)
    }
}

/// No two placements share a square.
pub open spec fn distinct_squares(s: Seq<(Square, Piece)>) -> bool {
    forall|i: int, j: int| 0 <= i < j < s.len() ==> s[i].0 != s[j].0
}

pub proof fn lemma_piece_at(s: Seq<(Square, Piece)>, c: Square)
    ensures
        piece_at(s, c) is None <==> (forall|i: int| 0 <= i < s.len() ==> s[i].0 != c),
        distinct_squares(s) ==> forall|i: int|
            0 <= i < s.len() && s[i].0 == c ==> piece_at(s, c) == Some(s[i].1),
    decreases s.len(),
{
    if s.len() > 0 {
        lemma_piece_at(s.drop_last(), c);
        if piece_at(s, c) is None {
            assert forall|i: int| 0 <= i < s.len() implies s[i].0 != c by {
                if i < s.len() - 1 {
                    assert(s.drop_last()[i] == s[i]);
                }
            }
        }
        if forall|i: int| 0 <= i < s.len() ==> s[i].0 != c {
            assert(s.last() == s[s.len() - 1]);
            assert forall|i: int| 0 <= i < s.drop_last().len() implies s.drop_last()[i].0 != c by {
                assert(s.drop_last()[i] == s[i]);
            }
        }
        if distinct_squares(s) {
            assert forall|i: int| 0 <= i < s.len() && s[i].0 == c implies piece_at(s, c) == Some(
                s[i].1,
            ) by {
                if i < s.len() - 1 {
                    assert(s.drop_last()[i] == s[i]);
                    assert(s[s.len() - 1].0 != c);
                }
            }
        }
    }
}

/// The position without its undo stack.
pub struct Snapshot {
    pub state: Vec<(Coordinate, Piece)>,
    pub castling_rights: u8,
    pub en_passant: Option<Coordinate>,
    pub side_to_move: bool,
}

/// The mathematical content of a position without its undo stack.
pub struct BoardModel {
    pub squares: Map<Square, Piece>,
    pub castling: u8,
    pub en_passant: Option<Square>,
    pub white_to_move: bool,
}

impl BoardModel {
    pub open spec fn at(self, c: Square) -> Option<Piece> {
        if self.squares.dom().contains(c) {
            Some(self.squares[c])
        } else {
            None
        }
    }

    pub open spec fn empty_at(self, c: Square) -> bool {
        self.at(c) is None
    }
}

pub open spec fn placements(s: Seq<(Coordinate, Piece)>) -> Seq<(Square, Piece)> {
    s.map_values(|e: (Coordinate, Piece)| (e.0@, e.1))
}

/// The board that a list of placements describes.
pub open spec fn squares_of(s: Seq<(Square, Piece)>) -> Map<Square, Piece> {
    Map::new(|c: Square| piece_at(s, c) is Some, |c: Square| piece_at(s, c)->Some_0)
}

pub proof fn lemma_squares_of(s: Seq<(Square, Piece)>)
    ensures
        forall|c: Square| #[trigger] squares_of(s).dom().contains(c) <==> piece_at(s, c) is Some,
        forall|c: Square| piece_at(s, c) is Some ==> #[trigger] squares_of(s)[c] == piece_at(s, c)->Some_0,
{
}

pub open spec fn opt_square(c: Option<Coordinate>) -> Option<Square> {
    match c {
        Some(c) => Some(c@),
        None => None,
    }
}

impl View for Snapshot {
    type V = BoardModel;

    open spec fn view(&self) -> BoardModel {
        BoardModel {
            squares: squares_of(placements(self.state@)),
            castling: self.castling_rights,
            en_passant: opt_square(self.en_passant),
            white_to_move: self.side_to_move,
        }
    }
}

/// A position: pieces on squares, castling rights, en-passant square, side to
/// move, and the snapshots that `unmake` returns to.
pub struct Board {
    pub state: Vec<(Coordinate, Piece)>,
    /// Bit 3: White short, bit 2: White long, bit 1: Black short, bit 0: Black long.
    pub castling_rights: u8,
    pub en_passant: Option<Coordinate>,
    /// `true` when White is to move.
    pub side_to_move: bool,
    pub history: Vec<Snapshot>,
}

impl View for Board {
    type V = BoardModel;

    open spec fn view(&self) -> BoardModel {
        BoardModel {
            squares: squares_of(placements(self.state@)),
            castling: self.castling_rights,
            en_passant: opt_square(self.en_passant),
            white_to_move: self.side_to_move,
        }
    }
}

impl Board {
    /// The placements in the order the board holds them.
    pub open spec fn placed(&self) -> Seq<(Square, Piece)> {
        placements(self.state@)
    }

    /// No two pieces share a square, on the board and in each snapshot.
    pub open spec fn wf(&self) -> bool {
        &&& distinct_squares(self.placed())
        &&& forall|i: int|
            0 <= i < self.history@.len() ==> distinct_squares(
                #[trigger] placements(self.history@[i].state@),
            )
    }

    /// The snapshots on the undo stack, oldest first.
    pub open spec fn past(&self) -> Seq<BoardModel> {
        self.history@.map_values(|s: Snapshot| s@)
    }

    pub proof fn lemma_view_at(&self)
        ensures
            forall|c: Square| #[trigger] self@.at(c) == piece_at(self.placed(), c),
    {
        lemma_squares_of(self.placed());
    }

    /// The index of the placement on `c`.
    fn find(&self, c: &Coordinate) -> (r: Option<usize>)
        ensures
            match r {
                Some(i) => i < self.state.len() && self.placed()[i as int].0 == c@,
                None => forall|i: int| 0 <= i < self.placed().len() ==> self.placed()[i].0 != c@,
            },
    {
        let mut i: usize = 0;
        while i < self.state.len()
            invariant
                i <= self.state.len(),
                forall|j: int| 0 <= j < i ==> self.placed()[j].0 != c@,
            decreases self.state.len() - i,
        {
            if self.state[i].0.equals(c) {
                return Some(i);
            }
            i += 1;
        }
        None
    }

    /// The piece on `c`.
    pub fn piece_on(&self, c: &Coordinate) -> (r: Option<Piece>)
        requires
            self.wf(),
        ensures
            r == self@.at(c@),
    {
        proof {
            lemma_piece_at(self.placed(), c@);
            self.lemma_view_at();
        }
        match self.find(c) {
            Some(i) => Some(self.state[i].1),
            None => None,
        }
    }

    pub fn get_piece(&self, coord: &Coordinate) -> (r: Option<&Piece>)
        requires
            self.wf(),
        ensures
            match r {
                Some(p) => self@.at(coord@) == Some(*p),
                None => self@.at(coord@) is None,
            },
    {
        proof {
            lemma_piece_at(self.placed(), coord@);
            self.lemma_view_at();
        }
        match self.find(coord) {
            Some(i) => Some(&self.state[i].1),
            None => None,
        }
    }
}


impl Board {
    /// Some piece on the board is the king of the given colour.
    pub open spec fn has_king(&self, white: bool) -> bool {
        exists|i: int| 0 <= i < self.placed().len() && self.placed()[i].1 == king_of(white)
    }

    /// A board with no pieces, all castling rights, no en-passant square and
    /// White to move.
    pub fn empty() -> (r: Board)
        ensures
            r.wf(),
            r.state@.len() == 0,
            forall|c: Square| r@.at(c) is None,
            r.castling_rights == 15,
            r.en_passant is None,
            r.side_to_move,
            r.history@.len() == 0,
    {
        let r = Board {
            state: Vec::new(),
            castling_rights: 15,
            en_passant: None,
            side_to_move: true,
            history: Vec::new(),
        };
        proof {
            r.lemma_view_at();
        }
        r
    }

    /// The opening setup: White on ranks 1 and 2, Black on ranks 7 and 8.
    pub fn new() -> (r: Board)
        ensures
            r.wf(),
            forall|c: Square| #[trigger] r@.at(c) == opening_piece(c),
            r@ == opening(),
            r.castling_rights == 15,
            r.en_passant is None,
            r.side_to_move,
            r.history@.len() == 0,
    {
        let mut b = Board::empty();
        let back: [Piece; 8] = [
            Piece::WhiteRook,
            Piece::WhiteKnight,
            Piece::WhiteBishop,
            Piece::WhiteQueen,
            Piece::WhiteKing,
            Piece::WhiteBishop,
            Piece::WhiteKnight,
            Piece::WhiteRook,
        ];
        let black_back: [Piece; 8] = [
            Piece::BlackRook,
            Piece::BlackKnight,
            Piece::BlackBishop,
            Piece::BlackQueen,
            Piece::BlackKing,
            Piece::BlackBishop,
            Piece::BlackKnight,
            Piece::BlackRook,
        ];
        let mut i: usize = 0;
        while i < 8
            invariant
                i <= 8,
                b.wf(),
                back@ == seq![
                    Piece::WhiteRook,
                    Piece::WhiteKnight,
                    Piece::WhiteBishop,
                    Piece::WhiteQueen,
                    Piece::WhiteKing,
                    Piece::WhiteBishop,
                    Piece::WhiteKnight,
                    Piece::WhiteRook,
                ],
                black_back@ == seq![
                    Piece::BlackRook,
                    Piece::BlackKnight,
                    Piece::BlackBishop,
                    Piece::BlackQueen,
                    Piece::BlackKing,
                    Piece::BlackBishop,
                    Piece::BlackKnight,
                    Piece::BlackRook,
                ],
                forall|c: Square| #[trigger]
                    b@.at(c) == if 1 <= c.0 <= i {
                        opening_piece(c)
                    } else {
                        None
                    },
                b.castling_rights == 15,
                b.en_passant is None,
                b.side_to_move,
                b.history@.len() == 0,
            decreases 8 - i,
        {
            let x = (i + 1) as i64;
            b.set_piece(Coordinate::new(x, 1), back[i]);
            b.set_piece(Coordinate::new(x, 2), Piece::WhitePawn);
            b.set_piece(Coordinate::new(x, 7), Piece::BlackPawn);
            b.set_piece(Coordinate::new(x, 8), black_back[i]);
            i += 1;
        }
        assert(b@.squares =~= opening().squares) by {
            assert forall|c: Square| #[trigger] b@.squares.dom().contains(c) == opening().squares.dom().contains(c) by {
                assert(b@.at(c) == opening_piece(c));
            }
            assert forall|c: Square| b@.squares.dom().contains(c) implies #[trigger] b@.squares[c] == opening().squares[c] by {
                assert(b@.at(c) == opening_piece(c));
            }
        }
        b
    }

    /// Puts `piece` on `coord`, replacing what stood there.
    pub fn set_piece(&mut self, coord: Coordinate, piece: Piece)
        requires
            old(self).wf(),
        ensures
            final(self).wf(),
            forall|c: Square| #[trigger]
                final(self)@.at(c) == if c == coord@ {
                    Some(piece)
                } else {
                    old(self)@.at(c)
                },
            final(self).castling_rights == old(self).castling_rights,
            final(self).en_passant == old(self).en_passant,
            final(self).side_to_move == old(self).side_to_move,
            final(self).history == old(self).history,
            final(self)@.squares == old(self)@.squares.insert(coord@, piece),
    {
        let ghost s = self.placed();
        let ghost before = self@.squares;
        let ghost c = coord@;
        proof {
            self.lemma_view_at();
        }
        match self.find(&coord) {
            Some(i) => {
                let ghost c = coord@;
                self.state.set(i, (coord, piece));
                let ghost t = self.placed();
                assert(t =~= s.update(i as int, (c, piece)));
                assert forall|a: int, b: int| 0 <= a < b < t.len() implies t[a].0 != t[b].0 by {
                    assert(t[a].0 == s[a].0);
                    assert(t[b].0 == s[b].0);
                }
                assert forall|d: Square| #[trigger]
                    piece_at(t, d) == if d == c {
                        Some(piece)
                    } else {
                        piece_at(s, d)
                    } by {
                    lemma_piece_at(s, d);
                    lemma_piece_at(t, d);
                    if d == c {
                        assert(t[i as int].0 == c);
                    } else {
                        if piece_at(s, d) is None {
                            assert forall|j: int| 0 <= j < t.len() implies t[j].0 != d by {
                                if j != i {
                                    assert(t[j] == s[j]);
                                }
                            }
                        } else {
                            let j = choose|j: int| 0 <= j < s.len() && s[j].0 == d;
                            assert(t[j] == s[j]);
                        }
                    }
                }
            },
            None => {
                let ghost c = coord@;
                self.state.push((coord, piece));
                let ghost t = self.placed();
                assert(t =~= s.push((c, piece)));
                assert(t.drop_last() =~= s);
            },
        }
        proof {
            self.lemma_view_at();
            assert(self@.squares =~= before.insert(c, piece));
        }
    }

    /// Clears `coord`.
    pub fn remove_piece(&mut self, coord: &Coordinate)
        requires
            old(self).wf(),
        ensures
            final(self).wf(),
            forall|c: Square| #[trigger]
                final(self)@.at(c) == if c == coord@ {
                    None
                } else {
                    old(self)@.at(c)
                },
            final(self).castling_rights == old(self).castling_rights,
            final(self).en_passant == old(self).en_passant,
            final(self).side_to_move == old(self).side_to_move,
            final(self).history == old(self).history,
            final(self)@.squares == old(self)@.squares.remove(coord@),
    {
        let ghost s = self.placed();
        let ghost before = self@.squares;
        proof {
            lemma_piece_at(s, coord@);
            self.lemma_view_at();
        }
        match self.find(coord) {
            Some(i) => {
                self.state.remove(i);
                let ghost t = self.placed();
                assert(t =~= s.remove(i as int));
                assert forall|d: Square| #[trigger]
                    piece_at(t, d) == if d == coord@ {
                        None
                    } else {
                        piece_at(s, d)
                    } by {
                    lemma_piece_at(s, d);
                    lemma_piece_at(t, d);
                    if piece_at(s, d) is None || d == coord@ {
                        assert forall|j: int| 0 <= j < t.len() implies t[j].0 != d by {
                            if j < i {
                                assert(t[j] == s[j]);
                            } else {
                                assert(t[j] == s[j + 1]);
                            }
                        }
                    } else {
                        let j = choose|j: int| 0 <= j < s.len() && s[j].0 == d;
                        if j < i {
                            assert(t[j] == s[j]);
                        } else {
                            assert(t[j - 1] == s[j]);
                        }
                    }
                }
            },
            None => {},
        }
        proof {
            self.lemma_view_at();
            assert(self@.squares =~= before.remove(coord@));
        }
    }

    /// Where the king of the given colour stands.
    pub fn king_position(&self, is_white: bool) -> (r: Coordinate)
        requires
            self.wf(),
            self.has_king(is_white),
        ensures
            self@.at(r@) == Some(king_of(is_white)),
    {
        match self.find_king(is_white) {
            Some(c) => c,
            None => {
                proof {
                    let i = choose|i: int|
                        0 <= i < self.placed().len() && self.placed()[i].1 == king_of(is_white);
                    assert(false);
                }
                Coordinate::new(0, 0)
            },
        }
    }

    /// Where the king of the given colour stands, if it is on the board.
    pub fn find_king(&self, is_white: bool) -> (r: Option<Coordinate>)
        requires
            self.wf(),
        ensures
            match r {
                Some(c) => self@.at(c@) == Some(king_of(is_white)),
                None => !self.has_king(is_white),
            },
    {
        let king = if is_white {
            Piece::WhiteKing
        } else {
            Piece::BlackKing
        };
        let mut i: usize = 0;
        while i < self.state.len()
            invariant
                self.wf(),
                i <= self.state.len(),
                king == king_of(is_white),
                forall|j: int| 0 <= j < i ==> self.placed()[j].1 != king,
            decreases self.state.len() - i,
        {
            if self.state[i].1 == king {
                proof {
                    lemma_piece_at(self.placed(), self.placed()[i as int].0);
                    self.lemma_view_at();
                }
                return Some(self.state[i].0.copy());
            }
            i += 1;
        }
        None
    }
}


/// The castling right that rook `q` holds by standing on its corner `c`:
/// bit 3 for a white rook on (8, 1), bit 2 for one on (1, 1), bit 1 for a
/// black rook on (8, 8), bit 0 for one on (1, 8); none for any other piece or
/// square.
pub open spec fn rook_bit(q: Option<Piece>, c: Square) -> u8 {
    match q {
        Some(Piece::WhiteRook) => if c == (8int, 1int) {
            8
        } else if c == (1int, 1int) {
            4
        } else {
            0
        },
        Some(Piece::BlackRook) => if c == (8int, 8int) {
            2
        } else if c == (1int, 8int) {
            1
        } else {
            0
        },
        _ => 0,
    }
}

/// The castling rights that a move of `p` gives up by itself.
pub open spec fn king_bits(p: Piece) -> u8 {
    if p is WhiteKing {
        12
    } else if p is BlackKing {
        3
    } else {
        0
    }
}

/// Castling rights after `p` moves from `f` to `t`, where `taken` stood: a
/// moving king gives up both of its side's rights, a rook leaving its corner
/// gives up that corner's right, and so does a rook taken on its corner.
pub open spec fn castling_after(mask: u8, p: Piece, f: Square, t: Square, taken: Option<Piece>) -> u8 {
    mask & !(king_bits(p) | rook_bit(Some(p), f) | rook_bit(taken, t))
}

/// The en-passant square after `p` moves from `f` to `t`: the square passed
/// over by a pawn that advanced two ranks.
pub open spec fn ep_after(p: Piece, f: Square, t: Square) -> Option<Square> {
    if p.pawn() && t.0 == f.0 && t.1 - f.1 == 2 {
        Some((f.0, f.1 + 1))
    } else if p.pawn() && t.0 == f.0 && t.1 - f.1 == -2 {
        Some((f.0, f.1 - 1))
    } else {
        None
    }
}

/// For a king stepping from its home square two files sideways, the rook's
/// corner and the square the king crosses.
pub open spec fn castling_rook(p: Piece, f: Square, t: Square) -> Option<(Square, Square)> {
    let r: int = if p is WhiteKing { 1 } else { 8 };
    if p.king() && f == (5int, r) && t == (3int, r) {
        Some(((1int, r), (4int, r)))
    } else if p.king() && f == (5int, r) && t == (7int, r) {
        Some(((8int, r), (6int, r)))
    } else {
        None
    }
}

/// A pawn `p` moving from `f` onto the en-passant square `t` takes the
/// opponent's pawn on `(t.0, f.1)`.
pub open spec fn takes_en_passant(b: BoardModel, p: Piece, f: Square, t: Square) -> bool {
    &&& p.pawn()
    &&& b.en_passant == Some(t)
    &&& match b.at((t.0, f.1)) {
        Some(q) => q.pawn() && q.white() != p.white(),
        None => false,
    }
}

/// The board after `p` moves from `f` to `t`: what stood on `t` is taken,
/// a pawn taken en passant leaves, and a castling king brings its rook.
pub open spec fn slid(b: BoardModel, p: Piece, f: Square, t: Square) -> Map<Square, Piece> {
    let m0 = b.squares.remove(t);
    let m1 = if takes_en_passant(b, p, f, t) {
        m0.remove((t.0, f.1))
    } else {
        m0
    };
    let m2 = m1.remove(f).insert(t, p);
    match castling_rook(p, f, t) {
        Some((from_r, to_r)) => if m2.dom().contains(from_r) {
            m2.remove(from_r).insert(to_r, m2[from_r])
        } else {
            m2
        },
        None => m2,
    }
}

/// The position after the piece on `f` moves to `t`, side to move unchanged.
pub open spec fn moved_piece(b: BoardModel, f: Square, t: Square) -> BoardModel {
    match b.at(f) {
        Some(p) => BoardModel {
            squares: slid(b, p, f, t),
            castling: castling_after(b.castling, p, f, t, b.at(t)),
            en_passant: ep_after(p, f, t),
            white_to_move: b.white_to_move,
        },
        None => b,
    }
}

/// The position after `m` is played, before any test of the mover's king.
/// A move from an empty square, and a ray move, change nothing but the side
/// to move.
pub open spec fn after(b: BoardModel, m: MoveModel) -> BoardModel {
    let a = match m {
        MoveModel::Normal(f, t) => moved_piece(b, f, t),
        MoveModel::Castling(f, t) => moved_piece(b, f, t),
        MoveModel::EnPassant(f, t) => moved_piece(b, f, t),
        MoveModel::Promotion(f, t, q) => if b.at(f) is Some {
            BoardModel { squares: moved_piece(b, f, t).squares.insert(t, q), ..moved_piece(b, f, t) }
        } else {
            b
        },
        MoveModel::InfiniteRay(_, _) => b,
    };
    BoardModel { white_to_move: !b.white_to_move, ..a }
}

/// `b` with `by_white` to move.
pub open spec fn with_side(b: BoardModel, by_white: bool) -> BoardModel {
    BoardModel { white_to_move: by_white, ..b }
}

/// `m` is a plain move or a promotion onto `c`.
pub open spec fn lands_on(m: MoveModel, c: Square) -> bool {
    match m {
        MoveModel::Normal(_, t) => t == c,
        MoveModel::Promotion(_, t, _) => t == c,
        _ => false,
    }
}

/// A plain move or a promotion of the given side lands on `c`.
pub open spec fn attacked(b: BoardModel, c: Square, by_white: bool) -> bool {
    exists|m: MoveModel|
        #![trigger pseudo_legal(with_side(b, by_white), m)]
        pseudo_legal(with_side(b, by_white), m) && lands_on(m, c)
}

/// The king of colour `white` is on the board and not attacked.
pub open spec fn king_safe(b: BoardModel, white: bool) -> bool {
    exists|c: Square| b.at(c) == Some(king_of(white)) && !attacked(b, c, !white)
}

/// At most one king of colour `white` is on the board.
pub open spec fn at_most_one_king(b: BoardModel, white: bool) -> bool {
    forall|c: Square, d: Square|
        b.at(c) == Some(king_of(white)) && b.at(d) == Some(king_of(white)) ==> c == d
}

/// The position and undo stack after `make(m)` returned `ok`.
pub open spec fn made(b: BoardModel, past: Seq<BoardModel>, m: MoveModel, ok: bool) -> (BoardModel, Seq<BoardModel>) {
    (if ok { after(b, m) } else { b }, past.push(b))
}

/// The position and undo stack after `unmake`.
pub open spec fn unmade(b: BoardModel, past: Seq<BoardModel>) -> (BoardModel, Seq<BoardModel>) {
    (past.last(), past.drop_last())
}

/// An exact copy of a list of placements.
fn copy_state(v: &Vec<(Coordinate, Piece)>) -> (r: Vec<(Coordinate, Piece)>)
    ensures
        placements(r@) == placements(v@),
{
    let mut r: Vec<(Coordinate, Piece)> = Vec::new();
    let mut i: usize = 0;
    while i < v.len()
        invariant
            i <= v.len(),
            r@.len() == i,
            placements(r@) == placements(v@).subrange(0, i as int),
        decreases v.len() - i,
    {
        let c = v[i].0.copy();
        let ghost before = r@;
        r.push((c, v[i].1));
        assert(r@ == before.push((c, v@[i as int].1)));
        assert(placements(r@) =~= placements(v@).subrange(0, i + 1)) by {
            assert(placements(r@)[i as int] == placements(v@)[i as int]);
            assert forall|k: int| 0 <= k < i implies placements(r@)[k] == placements(v@)[k] by {
                assert(r@[k] == before[k]);
                assert(placements(before)[k] == placements(v@).subrange(0, i as int)[k]);
            }
        }
        i += 1;
    }
    assert(placements(v@).subrange(0, v@.len() as int) =~= placements(v@));
    r
}

fn copy_square(c: &Option<Coordinate>) -> (r: Option<Coordinate>)
    ensures
        opt_square(r) == opt_square(*c),
{
    match c {
        Some(c) => Some(c.copy()),
        None => None,
    }
}

fn rook_mask(q: Option<Piece>, c: &Coordinate) -> (r: u8)
    ensures
        r == rook_bit(q, c@),
{
    match q {
        Some(Piece::WhiteRook) => if c.is(8, 1) {
            8
        } else if c.is(1, 1) {
            4
        } else {
            0
        },
        Some(Piece::BlackRook) => if c.is(8, 8) {
            2
        } else if c.is(1, 8) {
            1
        } else {
            0
        },
        _ => 0,
    }
}

impl Board {
    /// A copy of the position without its undo stack.
    pub fn snapshot(&self) -> (r: Snapshot)
        ensures
            r@ == self@,
            placements(r.state@) == self.placed(),
    {
        Snapshot {
            state: copy_state(&self.state),
            castling_rights: self.castling_rights,
            en_passant: copy_square(&self.en_passant),
            side_to_move: self.side_to_move,
        }
    }

    /// Moves the piece on `from` to `to`, with the captures, the rook of a
    /// castling, and the updates of castling rights and en-passant square
    /// that go with it. Nothing happens when `from` is empty.
    pub fn move_piece(&mut self, from: Coordinate, to: Coordinate)
        requires
            old(self).wf(),
        ensures
            final(self).wf(),
            final(self)@ == moved_piece(old(self)@, from@, to@),
            final(self).history == old(self).history,
    {
        let ghost b = self@;
        let p = match self.piece_on(&from) {
            Some(p) => p,
            None => {
                return ;
            },
        };
        let taken = self.piece_on(&to);
        let is_pawn = match p {
            Piece::WhitePawn | Piece::BlackPawn => true,
            _ => false,
        };
        let victim = Coordinate(to.0.copy(), from.1.copy());
        let on_passant = match &self.en_passant {
            Some(e) => e.equals(&to),
            None => false,
        };
        let takes = is_pawn && on_passant && match self.piece_on(&victim) {
            Some(q) => (q == Piece::WhitePawn || q == Piece::BlackPawn) && q.is_white() != p.is_white(),
            None => false,
        };
        assert(takes == takes_en_passant(b, p, from@, to@));
        self.remove_piece(&to);
        if takes {
            self.remove_piece(&victim);
        }
        self.remove_piece(&from);
        self.set_piece(to.copy(), p);
        let ghost m2 = self@.squares;
        let is_king = p == Piece::WhiteKing || p == Piece::BlackKing;
        let rank: i64 = if p == Piece::WhiteKing { 1 } else { 8 };
        if is_king && from.is(5, rank) && (to.is(3, rank) || to.is(7, rank)) {
            let (corner, crossed) = if to.is(3, rank) {
                (Coordinate::new(1, rank), Coordinate::new(4, rank))
            } else {
                (Coordinate::new(8, rank), Coordinate::new(6, rank))
            };
            match self.piece_on(&corner) {
                Some(rook) => {
                    self.remove_piece(&corner);
                    self.set_piece(crossed, rook);
                },
                None => {},
            }
        }
        assert(self@.squares == slid(b, p, from@, to@));
        let clear = match p {
            Piece::WhiteKing => 12u8,
            Piece::BlackKing => 3u8,
            _ => 0u8,
        } | rook_mask(Some(p), &from) | rook_mask(taken, &to);
        self.castling_rights = self.castling_rights & !clear;
        let mut passed: Option<Coordinate> = None;
        if is_pawn && from.0.equals(&to.0) {
            let dy = to.1.sub(&from.1);
            if dy.is(2) {
                passed = Some(from.offset(0, 1));
            } else if dy.is(-2) {
                passed = Some(from.offset(0, -1));
            }
        }
        self.en_passant = passed;
        assert(self@.squares == slid(b, p, from@, to@));
    }
}


impl Board {
    /// Whether a move of the side `by_white` lands on `coord`. The position
    /// is left as it was.
    pub fn is_attacked(&mut self, coord: Coordinate, by_white: bool) -> (r: bool)
        requires
            old(self).wf(),
        ensures
            *final(self) == *old(self),
            r == attacked(old(self)@, coord@, by_white),
    {
        let side = self.side_to_move;
        self.side_to_move = by_white;
        let ghost b = self@;
        assert(b == with_side(old(self)@, by_white));
        let mut list = MoveList::new();
        MoveGen::generate_moves(self, &mut list);
        let ghost ms = views(list.moves@);
        assert(ms.subrange(0, ms.len() as int) =~= ms);
        let mut found = false;
        let mut i: usize = 0;
        while i < list.moves.len() && !found
            invariant
                i <= list.moves.len(),
                ms == views(list.moves@),
                b == with_side(old(self)@, by_white),
                lists_exactly(ms, b),
                found ==> attacked(old(self)@, coord@, by_white),
                !found ==> forall|k: int| 0 <= k < i ==> !lands_on(ms[k], coord@),
            decreases list.moves.len() - i,
        {
            let hit = match &list.moves[i] {
                Move::Normal(_, t) => t.equals(&coord),
                Move::Promotion(_, t, _) => t.equals(&coord),
                _ => false,
            };
            if hit {
                assert(ms[i as int] == list.moves@[i as int]@);
                assert(ms.contains(ms[i as int]));
                assert(pseudo_legal(with_side(old(self)@, by_white), ms[i as int]));
                found = true;
                i += 1;
            } else {
                assert(ms[i as int] == list.moves@[i as int]@);
                i += 1;
            }
        }
        proof {
            if !found {
                assert forall|m: MoveModel| pseudo_legal(with_side(old(self)@, by_white), m) implies !lands_on(m, coord@) by {
                    assert(ms.contains(m));
                    let k = choose|k: int| 0 <= k < ms.len() && ms[k] == m;
                }
            }
        }
        self.side_to_move = side;
        found
    }

    /// Copies the newest snapshot back into the position, keeping it on the
    /// stack.
    fn restore_last(&mut self)
        requires
            old(self).wf(),
            old(self).history.len() > 0,
        ensures
            final(self).wf(),
            final(self)@ == old(self).past().last(),
            final(self).history == old(self).history,
    {
        let k = self.history.len() - 1;
        let state = copy_state(&self.history[k].state);
        let en_passant = copy_square(&self.history[k].en_passant);
        self.state = state;
        self.castling_rights = self.history[k].castling_rights;
        self.en_passant = en_passant;
        self.side_to_move = self.history[k].side_to_move;
        assert(distinct_squares(placements(self.history@[k as int].state@)));
    }

    /// Plays `mv` and keeps a snapshot for `unmake`. Returns whether the
    /// mover's king is on the board and unattacked afterwards; when it is
    /// not, the position is put back as it was (the snapshot stays).
    pub fn make(&mut self, mv: Move) -> (r: bool)
        requires
            old(self).wf(),
        ensures
            final(self).wf(),
            (final(self)@, final(self).past()) == made(old(self)@, old(self).past(), mv@, r),
            r ==> king_safe(final(self)@, old(self).side_to_move),
            at_most_one_king(after(old(self)@, mv@), old(self).side_to_move) ==> (r == king_safe(
                after(old(self)@, mv@),
                old(self).side_to_move,
            )),
    {
        let ghost b = self@;
        let ghost m = mv@;
        let snap = self.snapshot();
        self.history.push(snap);
        assert(self.past() =~= old(self).past().push(b));
        let mover = self.side_to_move;
        match mv {
            Move::Normal(f, t) => self.move_piece(f, t),
            Move::Castling(f, t) => self.move_piece(f, t),
            Move::EnPassant(f, t) => self.move_piece(f, t),
            Move::Promotion(f, t, q) => {
                if self.piece_on(&f).is_some() {
                    let target = t.copy();
                    self.move_piece(f, t);
                    self.set_piece(target, q);
                }
            },
            Move::InfiniteRay(_, _) => {},
        }
        self.side_to_move = !mover;
        assert(self@ == after(b, m));
        let legal = match self.find_king(mover) {
            Some(k) => !self.is_attacked(k, !mover),
            None => {
                proof {
                    self.lemma_view_at();
                    assert forall|c: Square| self@.at(c) != Some(king_of(mover)) by {
                        lemma_piece_at(self.placed(), c);
                    }
                }
                false
            },
        };
        if !legal {
            self.restore_last();
        }
        legal
    }

    /// Returns to the newest snapshot and takes it off the stack.
    pub fn unmake(&mut self, mv: Move)
        requires
            old(self).wf(),
            old(self).past().len() > 0,
        ensures
            final(self).wf(),
            (final(self)@, final(self).past()) == unmade(old(self)@, old(self).past()),
    {
        let ghost past = self.past();
        match self.history.pop() {
            Some(snap) => {
                assert(distinct_squares(placements(snap.state@))) by {
                    assert(snap == old(self).history@[old(self).history.len() - 1]);
                }
                self.state = snap.state;
                self.castling_rights = snap.castling_rights;
                self.en_passant = snap.en_passant;
                self.side_to_move = snap.side_to_move;
                assert(self.past() =~= past.drop_last());
            },
            None => {},
        }
    }
}


/// The largest material edge that `evaluate` reports; larger edges are cut
/// to it. It keeps static scores inside the search's score range and below
/// its mate scores (which start at 999700), so that no sum or negation of
/// scores overflows an `i32` and a material edge is never read as a mate.
pub const MATERIAL_LIMIT: i32 = 900000;

/// The material of one side in a list of placements.
pub open spec fn side_material(s: Seq<(Square, Piece)>, white: bool) -> int
    decreases s.len(),
{
    if s.len() == 0 {
        0
    } else {
        side_material(s.drop_last(), white) + if s.last().1.white() == white {
            s.last().1.worth()
        } else {
            0
        }
    }
}

/// How many placements hold a piece with property `f`.
pub open spec fn count_pieces(s: Seq<(Square, Piece)>, f: spec_fn(Piece) -> bool) -> nat
    decreases s.len(),
{
    if s.len() == 0 {
        0
    } else {
        count_pieces(s.drop_last(), f) + if f(s.last().1) {
            1nat
        } else {
            0nat
        }
    }
}

pub open spec fn minor_of(white: bool) -> spec_fn(Piece) -> bool {
    |p: Piece| p.white() == white && (p.knight() || p.bishop())
}

/// No pawn on the board, no rook or queen, and at most one knight or bishop
/// for each side: a draw.
pub open spec fn insufficient(s: Seq<(Square, Piece)>) -> bool {
    &&& count_pieces(s, |p: Piece| p.pawn()) == 0
    &&& count_pieces(s, |p: Piece| p.rook() || p.queen()) == 0
    &&& count_pieces(s, minor_of(true)) <= 1
    &&& count_pieces(s, minor_of(false)) <= 1
}

pub open spec fn clamp_material(v: int) -> int {
    if v > MATERIAL_LIMIT {
        MATERIAL_LIMIT as int
    } else if v < -MATERIAL_LIMIT {
        -MATERIAL_LIMIT
    } else {
        v
    }
}

/// The static score for the side to move: White's material minus Black's
/// (cut to `MATERIAL_LIMIT`), negated for Black, and 0 for a draw by
/// insufficient material.
pub open spec fn evaluation(s: Seq<(Square, Piece)>, white_to_move: bool) -> int {
    if insufficient(s) {
        0
    } else if white_to_move {
        clamp_material(side_material(s, true) - side_material(s, false))
    } else {
        -clamp_material(side_material(s, true) - side_material(s, false))
    }
}

proof fn lemma_material_bound(s: Seq<(Square, Piece)>, white: bool)
    ensures
        0 <= side_material(s, white) <= 1200 * s.len(),
    decreases s.len(),
{
    if s.len() > 0 {
        lemma_material_bound(s.drop_last(), white);
    }
}

impl Board {
    /// The static score of the position for the side to move.
    pub fn evaluate(&self) -> (r: i32)
        ensures
            r == evaluation(self.placed(), self.side_to_move),
            -MATERIAL_LIMIT <= r <= MATERIAL_LIMIT,
    {
        let ghost s = self.placed();
        let mut white: u128 = 0;
        let mut black: u128 = 0;
        let mut pawns: usize = 0;
        let mut majors: usize = 0;
        let mut white_minors: usize = 0;
        let mut black_minors: usize = 0;
        let mut i: usize = 0;
        while i < self.state.len()
            invariant
                s == self.placed(),
                i <= self.state.len(),
                white == side_material(s.subrange(0, i as int), true),
                black == side_material(s.subrange(0, i as int), false),
                pawns == count_pieces(s.subrange(0, i as int), |p: Piece| p.pawn()),
                majors == count_pieces(s.subrange(0, i as int), |p: Piece| p.rook() || p.queen()),
                white_minors == count_pieces(s.subrange(0, i as int), minor_of(true)),
                black_minors == count_pieces(s.subrange(0, i as int), minor_of(false)),
                pawns <= i && majors <= i && white_minors <= i && black_minors <= i,
            decreases self.state.len() - i,
        {
            let p = self.state[i].1;
            let ghost t = s.subrange(0, i + 1);
            assert(t.drop_last() =~= s.subrange(0, i as int));
            assert(t.last() == s[i as int]);
            proof {
                lemma_material_bound(s.subrange(0, i as int), true);
                lemma_material_bound(s.subrange(0, i as int), false);
            }
            let v = p.value() as u128;
            if p.is_white() {
                white = white + v;
            } else {
                black = black + v;
            }
            match p {
                Piece::WhitePawn | Piece::BlackPawn => {
                    pawns += 1;
                },
                Piece::WhiteRook | Piece::BlackRook | Piece::WhiteQueen | Piece::BlackQueen => {
                    majors += 1;
                },
                Piece::WhiteKnight | Piece::WhiteBishop => {
                    white_minors += 1;
                },
                Piece::BlackKnight | Piece::BlackBishop => {
                    black_minors += 1;
                },
                _ => {},
            }
            i += 1;
        }
        assert(s.subrange(0, s.len() as int) =~= s);
        if pawns == 0 && majors == 0 && white_minors <= 1 && black_minors <= 1 {
            return 0;
        }
        proof {
            lemma_material_bound(s, true);
            lemma_material_bound(s, false);
        }
        let d: i128 = white as i128 - black as i128;
        let edge: i32 = if d > MATERIAL_LIMIT as i128 {
            MATERIAL_LIMIT
        } else if d < -MATERIAL_LIMIT as i128 {
            -MATERIAL_LIMIT
        } else {
            d as i32
        };
        if self.side_to_move {
            edge
        } else {
            -edge
        }
    }
}


/// Undoing a move returns the position and the undo stack that were there
/// before it, whether the move was accepted or refused.
pub proof fn lemma_make_unmake(b: BoardModel, past: Seq<BoardModel>, m: MoveModel, ok: bool)
    ensures
        unmade(made(b, past, m, ok).0, made(b, past, m, ok).1) == (b, past),
{
    assert(past.push(b).drop_last() =~= past);
}

/// An accepted move hands the turn to the other side; a refused one keeps it.
pub proof fn lemma_side_alternates(b: BoardModel, past: Seq<BoardModel>, m: MoveModel, ok: bool)
    ensures
        made(b, past, m, ok).0.white_to_move == (b.white_to_move != ok),
{
}

/// After an accepted move, the mover's king (when it is the only one of its
/// colour) is not attacked by the opponent.
pub proof fn lemma_mover_not_in_check(a: BoardModel, white: bool, c: Square)
    requires
        king_safe(a, white),
        at_most_one_king(a, white),
        a.at(c) == Some(king_of(white)),
    ensures
        !attacked(a, c, !white),
{
}


/// Exactly one square of `m` holds `k`.
pub open spec fn holds_once(m: Map<Square, Piece>, k: Piece) -> bool {
    exists|c: Square|
        m.dom().contains(c) && m[c] == k && forall|d: Square|
            m.dom().contains(d) && m[d] == k ==> d == c
}

proof fn lemma_once_remove(m: Map<Square, Piece>, k: Piece, x: Square)
    requires
        holds_once(m, k),
        !(m.dom().contains(x) && m[x] == k),
    ensures
        holds_once(m.remove(x), k),
{
    let c = choose|c: Square|
        m.dom().contains(c) && m[c] == k && forall|d: Square|
            m.dom().contains(d) && m[d] == k ==> d == c;
    assert(m.remove(x).dom().contains(c) && m.remove(x)[c] == k);
}

proof fn lemma_once_insert(m: Map<Square, Piece>, k: Piece, x: Square, q: Piece)
    requires
        holds_once(m, k),
        !(m.dom().contains(x) && m[x] == k),
        q != k,
    ensures
        holds_once(m.insert(x, q), k),
{
    let c = choose|c: Square|
        m.dom().contains(c) && m[c] == k && forall|d: Square|
            m.dom().contains(d) && m[d] == k ==> d == c;
    assert(m.insert(x, q).dom().contains(c) && m.insert(x, q)[c] == k);
}

proof fn lemma_once_relocate(m: Map<Square, Piece>, k: Piece, x: Square, y: Square)
    requires
        holds_once(m, k),
        m.dom().contains(x),
        !(m.dom().contains(y) && m[y] == k),
    ensures
        holds_once(m.remove(x).insert(y, m[x]), k),
{
    let n = m.remove(x).insert(y, m[x]);
    let c = choose|c: Square|
        m.dom().contains(c) && m[c] == k && forall|d: Square|
            m.dom().contains(d) && m[d] == k ==> d == c;
    if m[x] == k {
        assert(n.dom().contains(y) && n[y] == k);
        assert forall|d: Square| n.dom().contains(d) && n[d] == k implies d == y by {
            if d != y {
                assert(m.dom().contains(d) && m[d] == k);
            }
        }
    } else {
        assert(n.dom().contains(c) && n[c] == k);
    }
}

/// One king of each colour, and the side that just moved is not in check:
/// what holds of every position reached from the opening by legal moves.
pub open spec fn kings_in_order(b: BoardModel) -> bool {
    &&& holds_once(b.squares, Piece::WhiteKing)
    &&& holds_once(b.squares, Piece::BlackKing)
    &&& forall|c: Square|
        b.at(c) == Some(king_of(!b.white_to_move)) ==> !attacked(b, c, b.white_to_move)
}

proof fn lemma_slid_keeps_king(b: BoardModel, p: Piece, f: Square, t: Square, k: Piece)
    requires
        k.king(),
        holds_once(b.squares, k),
        b.at(f) == Some(p),
        b.at(t) != Some(k),
        castling_rook(p, f, t) matches Some((x, y)) ==> b.empty_at(y) && y != t && y != f && x != t && x != f,
    ensures
        holds_once(slid(b, p, f, t), k),
{
    let m0 = b.squares.remove(t);
    lemma_once_remove(b.squares, k, t);
    let m1 = if takes_en_passant(b, p, f, t) {
        m0.remove((t.0, f.1))
    } else {
        m0
    };
    if takes_en_passant(b, p, f, t) {
        lemma_once_remove(m0, k, (t.0, f.1));
    }
    let m2 = m1.remove(f).insert(t, p);
    if f == t {
        assert(m1.remove(f).insert(t, p) =~= m1.insert(t, p));
        if p == k {
            assert(holds_once(m2, k)) by {
                assert forall|d: Square| m2.dom().contains(d) && m2[d] == k implies d == t by {
                    if d != t {
                        assert(b.squares.dom().contains(d) && b.squares[d] == k);
                    }
                }
            }
        } else {
            lemma_once_insert(m1, k, t, p);
        }
    } else {
        assert(m1.dom().contains(f) && m1[f] == p);
        assert(m2 =~= m1.remove(f).insert(t, m1[f]));
        lemma_once_relocate(m1, k, f, t);
    }
    match castling_rook(p, f, t) {
        Some((x, y)) => {
            if m2.dom().contains(x) {
                lemma_once_relocate(m2, k, x, y);
            }
        },
        None => {},
    }
}

proof fn lemma_after_keeps_king(b: BoardModel, m: MoveModel, k: Piece)
    requires
        kings_in_order(b),
        pseudo_legal(b, m),
        k == Piece::WhiteKing || k == Piece::BlackKing,
    ensures
        holds_once(after(b, m).squares, k),
{
    assert(with_side(b, b.white_to_move) == b);
    let w = b.white_to_move;
    assert(holds_once(b.squares, k));
    match m {
        MoveModel::Normal(f, t) => {
            let p = b.at(f)->Some_0;
            if b.at(t) == Some(k) {
                if k.white() != w {
                    assert(lands_on(m, t));
                    assert(attacked(b, t, w));
                }
                assert(false);
            }
            lemma_slid_keeps_king(b, p, f, t, k);
        },
        MoveModel::Castling(f, t) => {
            let p = b.at(f)->Some_0;
            lemma_slid_keeps_king(b, p, f, t, k);
        },
        MoveModel::EnPassant(f, t) => {
            let p = b.at(f)->Some_0;
            lemma_slid_keeps_king(b, p, f, t, k);
        },
        MoveModel::Promotion(f, t, q) => {
            let p = b.at(f)->Some_0;
            if b.at(t) == Some(k) {
                if k.white() != w {
                    assert(lands_on(m, t));
                    assert(attacked(b, t, w));
                }
                assert(false);
            }
            lemma_slid_keeps_king(b, p, f, t, k);
            lemma_once_insert(slid(b, p, f, t), k, t, q);
        },
        MoveModel::InfiniteRay(_, _) => {},
    }
}

/// A pseudo-legal move from a position in order keeps one king of each
/// colour, and when it is accepted (the mover's king is safe afterwards) the
/// position it leads to is in order again.
pub proof fn lemma_kings_kept(b: BoardModel, m: MoveModel)
    requires
        kings_in_order(b),
        pseudo_legal(b, m),
    ensures
        holds_once(after(b, m).squares, Piece::WhiteKing),
        holds_once(after(b, m).squares, Piece::BlackKing),
        king_safe(after(b, m), b.white_to_move) ==> kings_in_order(after(b, m)),
{
    assert(with_side(b, b.white_to_move) == b);
    let a = after(b, m);
    let f = m.source();
    let p = b.at(f)->Some_0;
    lemma_after_keeps_king(b, m, Piece::WhiteKing);
    lemma_after_keeps_king(b, m, Piece::BlackKing);
    if king_safe(a, b.white_to_move) {
        assert forall|c: Square|
            a.at(c) == Some(king_of(!a.white_to_move)) implies !attacked(a, c, a.white_to_move) by {
            let k = king_of(b.white_to_move);
            let c0 = choose|c0: Square| a.at(c0) == Some(k) && !attacked(a, c0, !b.white_to_move);
            let e = choose|e: Square|
                a.squares.dom().contains(e) && a.squares[e] == k && forall|d: Square|
                    a.squares.dom().contains(d) && a.squares[d] == k ==> d == e;
            assert(c0 == e);
            assert(c == e);
        }
    }
}


/// The opening position is in order: one king of each colour, and Black,
/// which is not to move, is not in check.
pub proof fn lemma_opening_in_order(b: BoardModel)
    requires
        forall|c: Square| #[trigger] b.at(c) == opening_piece(c),
        b.white_to_move,
    ensures
        kings_in_order(b),
{
    assert(b.at((5, 1)) == opening_piece((5, 1)));
    assert(b.at((5, 8)) == opening_piece((5, 8)));
    assert(holds_once(b.squares, Piece::WhiteKing)) by {
        assert forall|d: Square| b.squares.dom().contains(d) && b.squares[d] == Piece::WhiteKing implies d == (5int, 1int) by {
            assert(b.at(d) == opening_piece(d));
        }
    }
    assert(holds_once(b.squares, Piece::BlackKing)) by {
        assert forall|d: Square| b.squares.dom().contains(d) && b.squares[d] == Piece::BlackKing implies d == (5int, 8int) by {
            assert(b.at(d) == opening_piece(d));
        }
    }
    assert(with_side(b, true) == b);
    assert forall|c: Square| b.at(c) == Some(king_of(false)) implies !attacked(b, c, true) by {
        assert(b.at(c) == opening_piece(c));
        assert forall|m: MoveModel| pseudo_legal(b, m) implies !lands_on(m, c) by {
            assert(b.at(m.source()) == opening_piece(m.source()));
        }
    }
}


/// The side to move has exactly one king.
pub open spec fn own_king_once(b: BoardModel) -> bool {
    holds_once(b.squares, king_of(b.white_to_move))
}

pub proof fn lemma_once_at_most_one(b: BoardModel, white: bool)
    requires
        holds_once(b.squares, king_of(white)),
    ensures
        at_most_one_king(b, white),
{
}

/// A pseudo-legal move keeps exactly one king of the mover's colour.
pub proof fn lemma_after_keeps_own_king(b: BoardModel, m: MoveModel)
    requires
        own_king_once(b),
        pseudo_legal(b, m),
    ensures
        holds_once(after(b, m).squares, king_of(b.white_to_move)),
        at_most_one_king(after(b, m), b.white_to_move),
{
    let k = king_of(b.white_to_move);
    match m {
        MoveModel::Normal(f, t) => {
            lemma_slid_keeps_king(b, b.at(f)->Some_0, f, t, k);
        },
        MoveModel::Castling(f, t) => {
            lemma_slid_keeps_king(b, b.at(f)->Some_0, f, t, k);
        },
        MoveModel::EnPassant(f, t) => {
            lemma_slid_keeps_king(b, b.at(f)->Some_0, f, t, k);
        },
        MoveModel::Promotion(f, t, q) => {
            let p = b.at(f)->Some_0;
            lemma_slid_keeps_king(b, p, f, t, k);
            lemma_once_insert(slid(b, p, f, t), k, t, q);
        },
        MoveModel::InfiniteRay(_, _) => {},
    }
    lemma_once_at_most_one(after(b, m), b.white_to_move);
}


proof fn lemma_remove_contribution(s: Seq<(Square, Piece)>, j: int, white: bool, f: spec_fn(Piece) -> bool)
    requires
        0 <= j < s.len(),
    ensures
        side_material(s, white) == side_material(s.remove(j), white) + if s[j].1.white() == white {
            s[j].1.worth()
        } else {
            0
        },
        count_pieces(s, f) == count_pieces(s.remove(j), f) + if f(s[j].1) {
            1nat
        } else {
            0nat
        },
    decreases s.len(),
{
    if j == s.len() - 1 {
        assert(s.remove(j) =~= s.drop_last());
    } else {
        lemma_remove_contribution(s.drop_last(), j, white, f);
        assert(s.remove(j).drop_last() =~= s.drop_last().remove(j));
        assert(s.remove(j).last() == s.last());
    }
}

/// Two lists of placements without repeated squares that describe the same
/// board have the same static score: the order of the list does not matter.
pub proof fn lemma_evaluation_of_board(s1: Seq<(Square, Piece)>, s2: Seq<(Square, Piece)>, white_to_move: bool)
    requires
        distinct_squares(s1),
        distinct_squares(s2),
        squares_of(s1) == squares_of(s2),
    ensures
        evaluation(s1, white_to_move) == evaluation(s2, white_to_move),
{
    lemma_same_pieces(s1, s2, |p: Piece| p.pawn());
    lemma_same_pieces(s1, s2, |p: Piece| p.rook() || p.queen());
    lemma_same_pieces(s1, s2, minor_of(true));
    lemma_same_pieces(s1, s2, minor_of(false));
}

proof fn lemma_same_map_same_piece(s1: Seq<(Square, Piece)>, s2: Seq<(Square, Piece)>, d: Square)
    requires
        squares_of(s1) == squares_of(s2),
    ensures
        piece_at(s1, d) == piece_at(s2, d),
{
    lemma_squares_of(s1);
    lemma_squares_of(s2);
    let m1 = squares_of(s1);
    let m2 = squares_of(s2);
    assert(m1.dom().contains(d) <==> piece_at(s1, d) is Some);
    assert(m2.dom().contains(d) <==> piece_at(s2, d) is Some);
    if piece_at(s1, d) is Some {
        assert(piece_at(s2, d) is Some);
        assert(m1[d] == piece_at(s1, d)->Some_0);
        assert(m2[d] == piece_at(s2, d)->Some_0);
    } else {
        assert(piece_at(s2, d) is None);
    }
}

proof fn lemma_same_pieces(s1: Seq<(Square, Piece)>, s2: Seq<(Square, Piece)>, f: spec_fn(Piece) -> bool)
    requires
        distinct_squares(s1),
        distinct_squares(s2),
        squares_of(s1) == squares_of(s2),
    ensures
        side_material(s1, true) == side_material(s2, true),
        side_material(s1, false) == side_material(s2, false),
        count_pieces(s1, f) == count_pieces(s2, f),
    decreases s1.len(),
{
    lemma_squares_of(s1);
    lemma_squares_of(s2);
    if s1.len() == 0 {
        if s2.len() > 0 {
            lemma_piece_at(s2, s2[0].0);
            lemma_piece_at(s1, s2[0].0);
            assert(squares_of(s2).dom().contains(s2[0].0));
        }
    } else {
        let (c, p) = s1.last();
        lemma_piece_at(s1, c);
        lemma_piece_at(s2, c);
        assert(s1[s1.len() - 1] == s1.last());
        assert(squares_of(s1).dom().contains(c));
        lemma_same_map_same_piece(s1, s2, c);
        let j = choose|j: int| 0 <= j < s2.len() && s2[j].0 == c;
        assert(s2[j].1 == p);
        let t1 = s1.drop_last();
        let t2 = s2.remove(j);
        assert(distinct_squares(t1)) by {
            assert forall|a: int, b: int| 0 <= a < b < t1.len() implies t1[a].0 != t1[b].0 by {
                assert(t1[a] == s1[a] && t1[b] == s1[b]);
            }
        }
        assert(distinct_squares(t2)) by {
            assert forall|a: int, b: int| 0 <= a < b < t2.len() implies t2[a].0 != t2[b].0 by {
                let a2 = if a < j { a } else { a + 1 };
                let b2 = if b < j { b } else { b + 1 };
                assert(t2[a] == s2[a2] && t2[b] == s2[b2]);
            }
        }
        lemma_squares_of(t1);
        lemma_squares_of(t2);
        assert forall|d: Square| #[trigger] piece_at(t1, d) == piece_at(t2, d) by {
            lemma_piece_at(t1, d);
            lemma_piece_at(t2, d);
            lemma_piece_at(s1, d);
            lemma_piece_at(s2, d);
            if d == c {
                assert forall|k: int| 0 <= k < t1.len() implies t1[k].0 != d by {
                    assert(t1[k] == s1[k]);
                }
                assert forall|k: int| 0 <= k < t2.len() implies t2[k].0 != d by {
                    let k2 = if k < j { k } else { k + 1 };
                    assert(t2[k] == s2[k2]);
                }
            } else {
                assert(piece_at(s1, d) == piece_at(t1, d));
                if piece_at(s2, d) is Some {
                    let k = choose|k: int| 0 <= k < s2.len() && s2[k].0 == d;
                    let k2 = if k < j { k } else { k - 1 };
                    assert(t2[k2] == s2[k]);
                } else {
                    assert forall|k: int| 0 <= k < t2.len() implies t2[k].0 != d by {
                        let k2 = if k < j { k } else { k + 1 };
                        assert(t2[k] == s2[k2]);
                    }
                }
                lemma_same_map_same_piece(s1, s2, d);
            }
        }
        assert(squares_of(t1) =~= squares_of(t2));
        lemma_same_pieces(t1, t2, f);
        lemma_remove_contribution(s2, j, true, f);
        lemma_remove_contribution(s2, j, false, f);
    }
}


/// The position and undo stack after `make` of each move of `ms` in turn,
/// the `i`-th returning `oks[i]`.
pub open spec fn made_all(b: BoardModel, past: Seq<BoardModel>, ms: Seq<MoveModel>, oks: Seq<bool>) -> (BoardModel, Seq<BoardModel>)
    decreases ms.len(),
{
    if ms.len() == 0 || oks.len() != ms.len() {
        (b, past)
    } else {
        let prev = made_all(b, past, ms.drop_last(), oks.drop_last());
        made(prev.0, prev.1, ms.last(), oks.last())
    }
}

/// The position and undo stack after `n` calls of `unmake`.
pub open spec fn unmade_n(b: BoardModel, past: Seq<BoardModel>, n: nat) -> (BoardModel, Seq<BoardModel>)
    decreases n,
{
    if n == 0 {
        (b, past)
    } else {
        let prev = unmade(b, past);
        unmade_n(prev.0, prev.1, (n - 1) as nat)
    }
}

/// Any run of `make` calls, accepted or refused, undone by as many `unmake`
/// calls in reverse order, returns the position and undo stack it started
/// from.
pub proof fn lemma_make_unmake_all(b: BoardModel, past: Seq<BoardModel>, ms: Seq<MoveModel>, oks: Seq<bool>)
    requires
        oks.len() == ms.len(),
    ensures
        unmade_n(made_all(b, past, ms, oks).0, made_all(b, past, ms, oks).1, ms.len()) == (b, past),
    decreases ms.len(),
{
    if ms.len() > 0 {
        let prev = made_all(b, past, ms.drop_last(), oks.drop_last());
        lemma_make_unmake(prev.0, prev.1, ms.last(), oks.last());
        lemma_make_unmake_all(b, past, ms.drop_last(), oks.drop_last());
    }
}

/// The opening position.
pub open spec fn opening() -> BoardModel {
    BoardModel {
        squares: Map::new(|c: Square| opening_piece(c) is Some, |c: Square| opening_piece(c)->Some_0),
        castling: 15,
        en_passant: None,
        white_to_move: true,
    }
}

/// The position reached from the opening by the moves of `ms`.
pub open spec fn reached(ms: Seq<MoveModel>) -> BoardModel
    decreases ms.len(),
{
    if ms.len() == 0 {
        opening()
    } else {
        after(reached(ms.drop_last()), ms.last())
    }
}

/// Each move of `ms` is pseudo-legal where it is played and leaves the
/// mover's king safe: the moves that `make` accepts.
pub open spec fn legal_line(ms: Seq<MoveModel>) -> bool
    decreases ms.len(),
{
    if ms.len() == 0 {
        true
    } else {
        let b = reached(ms.drop_last());
        legal_line(ms.drop_last()) && pseudo_legal(b, ms.last()) && king_safe(
            after(b, ms.last()),
            b.white_to_move,
        )
    }
}

/// Every position reached from the opening by accepted moves has exactly one
/// king of each colour, and the side that just moved is not in check.
pub proof fn lemma_reached_in_order(ms: Seq<MoveModel>)
    requires
        legal_line(ms),
    ensures
        kings_in_order(reached(ms)),
        holds_once(reached(ms).squares, Piece::WhiteKing),
        holds_once(reached(ms).squares, Piece::BlackKing),
    decreases ms.len(),
{
    if ms.len() == 0 {
        lemma_opening_in_order(opening());
    } else {
        lemma_reached_in_order(ms.drop_last());
        lemma_kings_kept(reached(ms.drop_last()), ms.last());
    }
}


/// In every position reached from the opening by accepted moves, each side
/// has exactly one king: `make` then decides legality by that king, and the
/// search's check, mate and stalemate rules apply.
pub proof fn lemma_reached_one_king(ms: Seq<MoveModel>)
    requires
        legal_line(ms),
    ensures
        own_king_once(reached(ms)),
        at_most_one_king(reached(ms), true),
        at_most_one_king(reached(ms), false),
{
    lemma_reached_in_order(ms);
    lemma_once_at_most_one(reached(ms), true);
    lemma_once_at_most_one(reached(ms), false);
}

} // verus!
