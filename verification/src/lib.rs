//! The rules of a program that runs language models on the local machine: which
//! model is run and with what settings, how a conversation is written down for it,
//! how its tokens become an answer, and what of the answer is shown.
//!
//! Files, the network, the console and the model itself are the caller's.

pub mod config;
pub mod console;
pub mod download;
pub mod inference;
pub mod prompt;
pub mod session;
pub mod stream;
pub mod text;
pub mod thinking;
