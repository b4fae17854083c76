//! A solver for Dobutsu Shogi.
pub mod bits;
pub mod offset;
pub mod pieces;
pub mod node;
pub mod coords;
pub mod outcome;
pub mod movement;
pub mod children;
pub mod parents;
pub mod lineage;
pub mod state;
pub mod state_map;
pub mod state_trie;
pub mod state_set;
pub mod state_key_set;
pub mod retrograde;
pub mod backward_pass;
pub mod best_child_map;
pub mod forward_pass;
pub mod prune;
pub mod state_stats;
pub mod stat_retrograde;
pub mod stat_solver;
pub mod inspector;
pub mod bytes;
pub mod service;
pub mod solution_file;
pub mod pretty;
