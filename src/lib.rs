//! A chess engine on the unbounded board: pieces stand on integer coordinates
//! without any edge, sliding pieces that meet no obstacle produce symbolic
//! ray moves, and an alpha-beta searcher picks a move.

pub mod board;
pub mod integer;
pub mod movegen;
pub mod search;
