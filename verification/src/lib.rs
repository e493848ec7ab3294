pub mod bits;
pub mod moves;
pub mod text;
pub mod zobrist;
pub mod generation;
pub mod board;
pub mod makemove;
pub mod sliders;
pub mod attacks;
pub mod movegen;
pub mod pawns;
pub mod legality;
pub mod position;
pub mod perft;
pub mod fen;
pub mod magics;
pub mod eval;
pub mod tt;
pub mod move_ordering;
pub mod search;
pub mod time;
pub mod engine;
pub mod passed_pawns;
pub mod cli;
pub mod fen_round_trip;
pub mod magic_tables;
pub mod move_names;
