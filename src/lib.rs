use vstd::prelude::*;

pub mod args;
pub mod assoc;
pub mod cmd;
pub mod config;
pub mod db;
pub mod decimal;
pub mod err;
pub mod frame;
pub mod frame_laws;
pub mod laws;
pub mod list;
pub mod parser;
pub mod protocol;
pub mod session;
pub mod trie;
pub mod value;

pub use config::Arg;
pub use err::RedisErr;
pub use frame::Frame;

verus! {

} // verus!
