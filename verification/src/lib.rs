//! The rules behind a local poker study server: canonical flops and the keys
//! of the precomputed flop cache, the flop strategies a cache entry stores,
//! and the sessions that replay a hand against a cached or a live solve.
//!
//! Every function states what it computes in its contract. Numbers that the
//! solving engine produces (frequencies, expected values) pass through as bit
//! patterns; the engine itself, the files and the sockets belong to the
//! program around this library.

pub mod cache;
pub mod cards;
pub mod events;
pub mod flops;
pub mod keys;
pub mod precompute;
pub mod registry;
pub mod replay;
pub mod routes;
pub mod server;
pub mod solver;
pub mod suits;
pub mod text;
pub mod textures;
pub mod tree;

