//! Verified core of a multi-user chat service: account validation, session
//! tokens, room membership, message windows and friend/block associations.
pub mod seqs;
pub mod text;
pub mod validation;
pub mod crypto;
pub mod models;
pub mod database;
pub mod handler;
pub mod laws;
pub mod client;
