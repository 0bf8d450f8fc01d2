//! The rules of a word game for several players, and the server's side of its
//! protocol.
//!
//! Players gather; everybody picks a forbidden word for the next one in a ring;
//! then all of them talk, and whoever says the own forbidden word is out. The
//! last one in the running wins.
pub mod chance;
pub mod game;
pub mod guard;
pub mod laws;
pub mod model;
pub mod names;
pub mod outcomes;
pub mod protocol;
pub mod session;
pub mod text;
