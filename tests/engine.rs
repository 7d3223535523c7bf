use infinite_chess::board::{Board, Coordinate, Piece};
use infinite_chess::integer::Integer;
use infinite_chess::movegen::{Direction, Move, MoveGen, MoveList};
use infinite_chess::search::{stop_decision, Searcher, MATE_VALUE, MAX_PLY};

fn sq(x: i64, y: i64) -> Coordinate {
    Coordinate::new(x, y)
}

fn moves_of(board: &Board) -> Vec<Move> {
    let mut list = MoveList::new();
    MoveGen::generate_moves(board, &mut list);
    list.moves
}

fn is_ray(m: &Move) -> bool {
    matches!(m, Move::InfiniteRay(_, _))
}

fn from_of(m: &Move) -> &Coordinate {
    match m {
        Move::Normal(f, _) | Move::Castling(f, _) | Move::EnPassant(f, _) => f,
        Move::Promotion(f, _, _) => f,
        Move::InfiniteRay(f, _) => f,
    }
}

fn target_of(m: &Move) -> Option<&Coordinate> {
    match m {
        Move::Normal(_, t) | Move::Castling(_, t) | Move::EnPassant(_, t) => Some(t),
        Move::Promotion(_, t, _) => Some(t),
        Move::InfiniteRay(_, _) => None,
    }
}

fn contains(moves: &[Move], m: &Move) -> bool {
    moves.iter().any(|x| x.equals(m))
}

#[test]
fn opening_move_count() {
    let board = Board::new();
    let moves = moves_of(&board);
    let plain = moves.iter().filter(|m| !is_ray(m)).count();
    let rays = moves.iter().filter(|m| is_ray(m)).count();
    // 16 pawn moves, 7 + 7 knight moves and 3 king steps towards rank 0.
    assert_eq!(plain, 33);
    // Rooks, bishops and the queen see nothing below rank 1.
    assert_eq!(rays, 11);
    let pawn_moves = moves
        .iter()
        .filter(|m| !is_ray(m) && from_of(m).1.is(2))
        .count();
    assert_eq!(pawn_moves, 16);
    assert!(contains(&moves, &Move::Normal(sq(7, 1), sq(6, 3))));
    assert!(contains(&moves, &Move::Normal(sq(5, 1), sq(5, 0))));
    assert!(contains(&moves, &Move::InfiniteRay(sq(1, 1), Direction::Bottom)));
    assert!(!contains(&moves, &Move::InfiniteRay(sq(1, 1), Direction::Top)));
}

#[test]
fn opening_moves_are_distinct() {
    let board = Board::new();
    let moves = moves_of(&board);
    for i in 0..moves.len() {
        for j in i + 1..moves.len() {
            assert!(!moves[i].equals(&moves[j]));
        }
    }
}

#[test]
fn double_push_sets_en_passant() {
    let mut board = Board::new();
    assert!(board.make(Move::Normal(sq(5, 2), sq(5, 4))));
    let ep = board.en_passant.as_ref().expect("en passant square");
    assert!(ep.is(5, 3));
    assert!(!board.side_to_move);
    assert!(board.make(Move::Normal(sq(1, 7), sq(1, 6))));
    assert!(board.en_passant.is_none());
    assert!(board.side_to_move);
}

#[test]
fn queenside_rook_clears_its_right() {
    let mut board = Board::new();
    assert_eq!(board.castling_rights, 0b1111);
    assert!(board.make(Move::Normal(sq(1, 1), sq(1, 2))));
    assert_eq!(board.castling_rights, 0b1011);
    board.make(Move::Normal(sq(1, 2), sq(1, 1)));
    assert_eq!(board.castling_rights, 0b1011);
    board.unmake(Move::Normal(sq(1, 2), sq(1, 1)));
    assert_eq!(board.castling_rights, 0b1011);
    board.unmake(Move::Normal(sq(1, 1), sq(1, 2)));
    assert_eq!(board.castling_rights, 0b1111);
    assert_eq!(board.get_piece(&sq(1, 1)), Some(&Piece::WhiteRook));
    assert_eq!(board.get_piece(&sq(1, 2)), Some(&Piece::WhitePawn));
}

#[test]
fn rook_on_empty_board() {
    let mut board = Board::empty();
    board.set_piece(sq(0, 0), Piece::WhiteRook);
    board.set_piece(sq(0, -5), Piece::WhiteKing);
    board.set_piece(sq(0, 5), Piece::BlackKing);
    let moves = moves_of(&board);
    let rook: Vec<&Move> = moves.iter().filter(|m| from_of(m).is(0, 0)).collect();
    let rays: Vec<&&Move> = rook.iter().filter(|m| is_ray(m)).collect();
    assert_eq!(rays.len(), 2);
    assert!(contains(&moves, &Move::InfiniteRay(sq(0, 0), Direction::Left)));
    assert!(contains(&moves, &Move::InfiniteRay(sq(0, 0), Direction::Right)));
    // The black king is the nearest piece upwards: it can be taken.
    assert!(contains(&moves, &Move::Normal(sq(0, 0), sq(0, 5))));
    // The white king below blocks the ray and cannot be taken.
    assert_eq!(rook.len(), 3);
    let king_moves = moves.iter().filter(|m| from_of(m).is(0, -5)).count();
    assert_eq!(king_moves, 8);
}

#[test]
fn search_on_three_rooks() {
    let mut board = Board::empty();
    board.set_piece(sq(4, 8), Piece::WhiteKing);
    board.set_piece(sq(4, 1), Piece::BlackKing);
    board.set_piece(sq(3, -5), Piece::WhiteRook);
    board.set_piece(sq(6, -5), Piece::WhiteRook);
    board.set_piece(sq(0, -10), Piece::WhiteRook);
    let mut searcher = Searcher::new();
    let best = searcher.search_position(&mut board, 4);
    // Rooks have no captures here and ray moves are not searched, so the
    // engine plays a king step.
    match &best {
        Move::Normal(f, t) => {
            assert!(f.is(4, 8));
            assert!(board.get_piece(t).is_none());
        }
        other => panic!("unexpected move {:?}", other),
    }
    assert!(board.make(best));
    assert!(board.side_to_move == false);
    // The position came back unchanged before the move was played.
    assert_eq!(board.get_piece(&sq(0, -10)), Some(&Piece::WhiteRook));
}

fn boxed_black_king(with_check: bool) -> Board {
    let mut board = Board::empty();
    board.set_piece(sq(0, 0), Piece::BlackKing);
    board.set_piece(sq(-1, 5), Piece::WhiteRook);
    board.set_piece(sq(1, 5), Piece::WhiteRook);
    board.set_piece(sq(5, 1), Piece::WhiteRook);
    board.set_piece(sq(5, -1), Piece::WhiteRook);
    board.set_piece(sq(20, 20), Piece::WhiteKing);
    if with_check {
        board.set_piece(sq(0, 10), Piece::WhiteRook);
    }
    board.side_to_move = false;
    board
}

#[test]
fn stalemate_scores_zero() {
    let mut board = boxed_black_king(false);
    assert!(!board.is_attacked(sq(0, 0), true));
    let mut searcher = Searcher::new();
    assert_eq!(searcher.negamax(&mut board, -1_000_000, 1_000_000, 1), 0);
}

#[test]
fn mate_scores_mate_value() {
    let mut board = boxed_black_king(true);
    assert!(board.is_attacked(sq(0, 0), true));
    let mut searcher = Searcher::new();
    assert_eq!(searcher.negamax(&mut board, -1_000_000, 1_000_000, 1), -MATE_VALUE);
    let mut board = boxed_black_king(true);
    let mut searcher = Searcher::new();
    searcher.ply = 1;
    let score = searcher.negamax(&mut board, -1_000_000, 1_000_000, 1);
    assert_eq!(score, -MATE_VALUE + 1);
    assert!(score > -MATE_VALUE && score <= -MATE_VALUE + MAX_PLY as i32);
}

#[test]
fn make_then_unmake_restores_everything() {
    let mut board = Board::new();
    board.make(Move::Normal(sq(5, 2), sq(5, 4)));
    let before_moves = moves_of(&board).len();
    let before_side = board.side_to_move;
    assert!(board.make(Move::Normal(sq(4, 7), sq(4, 5))));
    assert!(board.make(Move::Normal(sq(5, 4), sq(4, 5))));
    board.unmake(Move::Normal(sq(5, 4), sq(4, 5)));
    board.unmake(Move::Normal(sq(4, 7), sq(4, 5)));
    assert_eq!(board.side_to_move, before_side);
    assert!(board.en_passant.as_ref().unwrap().is(5, 3));
    assert_eq!(board.castling_rights, 15);
    assert_eq!(moves_of(&board).len(), before_moves);
    assert_eq!(board.get_piece(&sq(4, 7)), Some(&Piece::BlackPawn));
    assert_eq!(board.get_piece(&sq(4, 5)), None);
    assert_eq!(board.history.len(), 1);
}

#[test]
fn illegal_move_is_refused_and_undone() {
    let mut board = Board::empty();
    board.set_piece(sq(0, 0), Piece::WhiteKing);
    board.set_piece(sq(0, 8), Piece::BlackRook);
    board.set_piece(sq(9, 9), Piece::BlackKing);
    // Stepping along the rook's file stays in its line of fire.
    assert!(!board.make(Move::Normal(sq(0, 0), sq(0, 1))));
    assert!(board.side_to_move);
    assert_eq!(board.get_piece(&sq(0, 0)), Some(&Piece::WhiteKing));
    board.unmake(Move::Normal(sq(0, 0), sq(0, 1)));
    assert!(board.history.is_empty());
    assert!(board.make(Move::Normal(sq(0, 0), sq(1, 0))));
    assert!(!board.side_to_move);
}

#[test]
fn is_attacked_leaves_position_alone() {
    let mut board = Board::new();
    let first = board.is_attacked(sq(6, 3), true);
    let second = board.is_attacked(sq(6, 3), true);
    assert!(first && second);
    assert!(board.side_to_move);
    assert!(!board.is_attacked(sq(6, 3), false));
    assert!(board.side_to_move);
    assert!(board.is_attacked(sq(6, 6), false));
}

#[test]
fn castling_moves_the_rook() {
    let mut board = Board::empty();
    board.set_piece(sq(5, 1), Piece::WhiteKing);
    board.set_piece(sq(8, 1), Piece::WhiteRook);
    board.set_piece(sq(1, 1), Piece::WhiteRook);
    board.set_piece(sq(5, 20), Piece::BlackKing);
    let moves = moves_of(&board);
    assert!(contains(&moves, &Move::Castling(sq(5, 1), sq(7, 1))));
    assert!(contains(&moves, &Move::Castling(sq(5, 1), sq(3, 1))));
    assert!(board.make(Move::Castling(sq(5, 1), sq(7, 1))));
    assert_eq!(board.get_piece(&sq(7, 1)), Some(&Piece::WhiteKing));
    assert_eq!(board.get_piece(&sq(6, 1)), Some(&Piece::WhiteRook));
    assert_eq!(board.get_piece(&sq(8, 1)), None);
    assert_eq!(board.castling_rights, 0b0011);
}

#[test]
fn en_passant_capture() {
    let mut board = Board::empty();
    board.set_piece(sq(5, 1), Piece::WhiteKing);
    board.set_piece(sq(5, 30), Piece::BlackKing);
    board.set_piece(sq(5, 5), Piece::WhitePawn);
    board.set_piece(sq(4, 7), Piece::BlackPawn);
    board.side_to_move = false;
    assert!(board.make(Move::Normal(sq(4, 7), sq(4, 5))));
    let moves = moves_of(&board);
    assert!(contains(&moves, &Move::EnPassant(sq(5, 5), sq(4, 6))));
    assert!(board.make(Move::EnPassant(sq(5, 5), sq(4, 6))));
    assert_eq!(board.get_piece(&sq(4, 6)), Some(&Piece::WhitePawn));
    assert_eq!(board.get_piece(&sq(4, 5)), None);
}

#[test]
fn promotion_in_movers_colour() {
    let mut board = Board::empty();
    board.set_piece(sq(0, 0), Piece::WhiteKing);
    board.set_piece(sq(20, 20), Piece::BlackKing);
    board.set_piece(sq(3, 2), Piece::BlackPawn);
    board.side_to_move = false;
    let moves = moves_of(&board);
    let promotions = moves.iter().filter(|m| matches!(m, Move::Promotion(_, _, _))).count();
    assert_eq!(promotions, 4);
    assert!(contains(&moves, &Move::Promotion(sq(3, 2), sq(3, 1), Piece::BlackKnight)));
    assert!(board.make(Move::Promotion(sq(3, 2), sq(3, 1), Piece::BlackQueen)));
    assert_eq!(board.get_piece(&sq(3, 1)), Some(&Piece::BlackQueen));
    assert_eq!(board.get_piece(&sq(3, 2)), None);
}

#[test]
fn evaluation_material_and_draws() {
    let mut board = Board::new();
    assert_eq!(board.evaluate(), 0);
    board.remove_piece(&sq(4, 8));
    assert_eq!(board.evaluate(), 1200);
    board.side_to_move = false;
    assert_eq!(board.evaluate(), -1200);

    let mut bare = Board::empty();
    bare.set_piece(sq(0, 0), Piece::WhiteKing);
    bare.set_piece(sq(9, 9), Piece::BlackKing);
    bare.set_piece(sq(3, 3), Piece::WhiteKnight);
    assert_eq!(bare.evaluate(), 0);
    bare.set_piece(sq(4, 4), Piece::BlackBishop);
    assert_eq!(bare.evaluate(), 0);
    bare.set_piece(sq(5, 5), Piece::WhiteBishop);
    assert_eq!(bare.evaluate(), 300);
    bare.set_piece(sq(6, 6), Piece::BlackRook);
    assert_eq!(bare.evaluate(), 300 + 400 - 400 - 700);
}

#[test]
fn piece_colours_and_values() {
    assert!(Piece::WhiteQueen.is_white());
    assert!(!Piece::WhiteQueen.is_black());
    assert!(Piece::BlackPawn.is_black());
    assert!(MoveGen::is_opponent_piece(Piece::WhiteKnight, Piece::BlackKing));
    assert!(!MoveGen::is_opponent_piece(Piece::BlackKnight, Piece::BlackKing));
    assert_eq!(Piece::BlackRook.value(), 700);
    assert_eq!(Piece::WhiteKing.value(), 0);
}

#[test]
fn integers_beyond_machine_range() {
    let big = Integer::from_i64(i64::MAX).add_i64(1);
    assert!(Integer::from_i64(i64::MAX).less_than(&big));
    assert!(!big.is(i64::MAX));
    let back = big.sub(&Integer::from_i64(1));
    assert!(back.is(i64::MAX));
    let sum = Integer::from_i64(-7).add(&Integer::from_i64(3));
    assert!(sum.is(-4));
    assert!(Integer::from_i64(-4).equals(&sum));
    assert!(!sum.is_positive());
    let c = sq(3, 4).offset(2, -1);
    assert!(c.is(5, 3));
    assert!(!c.equals(&sq(3, 4)));
}

#[test]
fn far_away_pieces_interact() {
    let mut board = Board::empty();
    let far = Coordinate(Integer::from_i64(i64::MAX).add_i64(10), Integer::from_i64(0));
    board.set_piece(far.copy(), Piece::BlackQueen);
    board.set_piece(sq(0, 0), Piece::WhiteRook);
    board.set_piece(sq(0, -3), Piece::WhiteKing);
    board.set_piece(sq(0, 3), Piece::BlackKing);
    let moves = moves_of(&board);
    assert!(contains(&moves, &Move::Normal(sq(0, 0), far)));
    assert!(!contains(&moves, &Move::InfiniteRay(sq(0, 0), Direction::Right)));
}

#[test]
fn generated_targets_are_free() {
    let mut board = Board::new();
    board.make(Move::Normal(sq(5, 2), sq(5, 4)));
    board.make(Move::Normal(sq(4, 7), sq(4, 5)));
    let white = board.side_to_move;
    for m in moves_of(&board) {
        if let Move::Normal(_, t) | Move::Promotion(_, t, _) = &m {
            match board.get_piece(t) {
                Some(p) => assert_ne!(p.is_white(), white),
                None => {}
            }
        }
    }
    assert!(contains(&moves_of(&board), &Move::Normal(sq(5, 4), sq(4, 5))));
}

#[test]
fn accepted_move_leaves_king_safe() {
    let mut board = Board::new();
    for m in [
        Move::Normal(sq(5, 2), sq(5, 4)),
        Move::Normal(sq(6, 7), sq(6, 6)),
        Move::Normal(sq(4, 1), sq(8, 5)),
    ] {
        let mover = board.side_to_move;
        assert!(board.make(m));
        let king = board.king_position(mover);
        assert!(!board.is_attacked(king, !mover));
    }
    // Black's king is in check from the queen now: a move that ignores it
    // is refused.
    let black_king = board.king_position(false);
    assert!(board.is_attacked(black_king, true));
    assert!(!board.make(Move::Normal(sq(1, 7), sq(1, 6))));
    board.unmake(Move::Normal(sq(1, 7), sq(1, 6)));
    assert!(board.make(Move::Normal(sq(7, 7), sq(7, 6))));
}

#[test]
fn search_score_matches_best_move() {
    let mut board = Board::empty();
    board.set_piece(sq(0, 0), Piece::WhiteKing);
    board.set_piece(sq(30, 30), Piece::BlackKing);
    board.set_piece(sq(-20, 5), Piece::WhiteRook);
    board.set_piece(sq(-20, 9), Piece::BlackQueen);
    let mut searcher = Searcher::new();
    let best = searcher.search_position(&mut board, 1);
    assert!(best.equals(&Move::Normal(sq(-20, 5), sq(-20, 9))));
    assert_eq!(searcher.score, 700);
    assert!(board.make(best));
    // From the opponent's side the resulting position is worth the negation.
    assert_eq!(-board.evaluate(), searcher.score);
}

#[test]
fn kings_stay_single_through_play() {
    let mut board = Board::new();
    let line = [
        Move::Normal(sq(5, 2), sq(5, 4)),
        Move::Normal(sq(4, 7), sq(4, 5)),
        Move::Normal(sq(5, 4), sq(4, 5)),
        Move::Normal(sq(4, 8), sq(4, 5)),
        Move::Normal(sq(5, 1), sq(5, 2)),
    ];
    for m in line {
        assert!(board.make(m));
        let white_kings = board.state.iter().filter(|(_, p)| *p == Piece::WhiteKing).count();
        let black_kings = board.state.iter().filter(|(_, p)| *p == Piece::BlackKing).count();
        assert_eq!((white_kings, black_kings), (1, 1));
    }
}

#[test]
fn material_edge_is_capped() {
    let mut board = Board::empty();
    board.set_piece(sq(0, 0), Piece::WhiteKing);
    board.set_piece(sq(-5, -5), Piece::BlackKing);
    for i in 0..700 {
        board.set_piece(sq(i, 100), Piece::WhiteQueen);
    }
    assert_eq!(board.evaluate(), 840_000);
    for i in 0..60 {
        board.set_piece(sq(i, 200), Piece::WhiteQueen);
    }
    assert_eq!(board.evaluate(), 900_000);
    board.side_to_move = false;
    assert_eq!(board.evaluate(), -900_000);
}

#[test]
fn stop_signal_keeps_placeholder() {
    let mut board = Board::new();
    let mut searcher = Searcher::new();
    searcher.timeset = true;
    searcher.stoptime = 0;
    let best = searcher.search_position(&mut board, 3);
    assert!(best.equals(&infinite_chess::search::null_move()));
    assert_eq!(board.history.len(), 0);
    assert!(board.side_to_move);
}

#[test]
fn stop_decision_cases() {
    assert!(stop_decision(true, false, 0, 0));
    assert!(!stop_decision(false, false, 10, 5));
    assert!(stop_decision(false, true, 10, 5));
    assert!(!stop_decision(false, true, 5, 5));
}

#[test]
fn depth_zero_returns_placeholder() {
    let mut board = Board::new();
    let mut searcher = Searcher::new();
    let best = searcher.search_position(&mut board, 0);
    assert!(best.equals(&infinite_chess::search::null_move()));
    assert_eq!(searcher.depth_done, 0);
    assert!(searcher.progress.is_empty());
}

#[test]
fn quiescence_without_captures_stands_pat() {
    let mut board = Board::new();
    let mut searcher = Searcher::new();
    searcher.ply = 1;
    assert_eq!(searcher.quiescence(&mut board, -50, 50), 0);
    assert_eq!(searcher.quiescence(&mut board, 20, 50), 20);
    assert_eq!(searcher.quiescence(&mut board, -50, -10), -10);
}

#[test]
fn completed_depths_are_recorded() {
    let mut board = Board::empty();
    board.set_piece(sq(0, 0), Piece::WhiteKing);
    board.set_piece(sq(30, 30), Piece::BlackKing);
    let mut searcher = Searcher::new();
    let best = searcher.search_position(&mut board, 2);
    assert_eq!(searcher.depth_done, 2);
    assert_eq!(searcher.progress.len(), 2);
    assert_eq!(searcher.progress[0].0, 1);
    assert!(matches!(best, Move::Normal(_, _)));
    assert!(board.make(best));
}

#[test]
fn castling_rights_follow_kings_and_rooks_only() {
    let mut board = Board::empty();
    board.set_piece(sq(1, 1), Piece::WhiteKnight);
    board.set_piece(sq(5, 1), Piece::WhiteKing);
    board.set_piece(sq(5, 8), Piece::BlackKing);
    board.set_piece(sq(8, 8), Piece::BlackRook);
    board.set_piece(sq(8, 3), Piece::WhiteRook);
    assert!(board.make(Move::Normal(sq(1, 1), sq(2, 3))));
    assert_eq!(board.castling_rights, 0b1111);
    assert!(board.make(Move::Normal(sq(5, 8), sq(4, 8))));
    assert_eq!(board.castling_rights, 0b1100);
    board.unmake(Move::Normal(sq(5, 8), sq(4, 8)));
    board.unmake(Move::Normal(sq(1, 1), sq(2, 3)));
    assert!(board.make(Move::Normal(sq(8, 3), sq(8, 8))));
    assert_eq!(board.castling_rights, 0b1101);
}
