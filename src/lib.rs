//! Monte-Carlo tree search over a simplified model of combat in a
//! five-player territorial conquest game.
pub mod card;
pub mod chance;
pub mod features;
pub mod game;
pub mod map;
pub mod player;
pub mod record;
pub mod rollout;
pub mod search;
pub mod state;
pub mod tree;
