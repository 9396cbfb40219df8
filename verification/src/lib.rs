//! Static checks for Soroban smart contracts.
//!
//! A check walks the syntax tree of a contract's source file ([`syntax::File`]) and reports
//! [`finding::Finding`]s. Three checks are here: mutable global state ([`global_state`]),
//! colliding symbol keys ([`key_collision`]) and risky storage usage ([`storage`]).

pub mod finding;
pub mod global_state;
pub mod key_collision;
pub mod literal;
pub mod storage;
pub mod syntax;
pub mod text;
pub mod util;
pub mod walk;
