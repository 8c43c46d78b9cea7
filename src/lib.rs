//! A vim-golf challenge bot's core: challenge definitions parsed from chat
//! text, challenge records and their submissions, the protocol that drives a
//! text editor to evaluate a keystroke sequence, and the verdict on its result.

pub mod text;
pub mod challenge;
pub mod manage;
pub mod session;
pub mod verdict;
