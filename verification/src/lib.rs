//! The verified core of a MuZero engine: search trees, game-playing opponents,
//! replay storage, evaluation ladders and the rules of their configuration.
#![allow(unused_imports)]

pub mod batch;
pub mod call_laws;
pub mod chess_bot;
pub mod chess_eval;
pub mod config;
pub mod considered;
pub mod course;
pub mod eval;
pub mod eval_laws;
pub mod extract;
pub mod game_buffer;
pub mod gumbel;
pub mod kept;
pub mod mcts;
pub mod metrics;
pub mod networks;
pub mod opponent;
pub mod othello;
pub mod position;
pub mod replay_buffer;
pub mod rng;
pub mod search;
pub mod search_laws;
pub mod session;
pub mod single;
pub mod text;
pub mod train;
pub mod tree;
pub mod uci;
pub mod utils;
pub mod wave;
pub mod wave_course;
pub mod wave_laws;
