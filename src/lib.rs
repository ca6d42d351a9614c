//! A minimal proof-of-work chain: blocks commit to their predecessor through a
//! SHA-256 hash pointer, and a block is admitted only when its digest starts
//! with a configured run of `'0'` hex characters.
pub mod block;
pub mod chain;
pub mod text;
