//! A verified rules engine for Dominion, Base set 2nd edition, with the
//! heuristic bots built on it.

pub mod card;
pub mod rng;
pub mod state;
pub mod census;
pub mod engine;
pub mod effects;
pub mod determinize;
pub mod agent;
pub mod policy;
pub mod buy;
pub mod match_runner;
pub mod text;
pub mod log;
pub mod prior;
pub mod selfplay;
pub mod mcts;
pub mod roundtrip;
pub mod play;
pub mod web;
pub mod compact;
pub mod describe;
pub mod advise;
pub mod net;
pub mod session;
