use vstd::prelude::*;

pub mod text;
pub mod board;
pub mod clock;
pub mod comment;
pub mod field;
pub mod mail;
pub mod net;
pub mod storage;
pub mod cli;

verus! {
} // verus!
