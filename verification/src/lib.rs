//! Wildcard byte-pattern search, paginated scanning of remote address ranges
//! and reconstruction of class hierarchies from compiler-emitted type
//! information, with machine-checked contracts.
//!
//! The library never reads another process's memory itself. Where bytes of
//! the inspected process are needed, a state machine names the read
//! (`scan::PageScan`, `walk::RttiWalk`), and the caller hands back what was
//! read or the news that the read failed.
//!
//! - `pattern`, `text`: patterns, their textual form and the skip-table search
//! - `scan`: the search of a range page by page
//! - `rtti`, `walk`, `collect`: type descriptors and virtual tables in a
//!   module's snapshot, the walk through a class's metadata, and the
//!   collection of the classes without duplicates
//! - `module`, `process`: lookup among the modules and processes that the
//!   system lists
//! - `bytes`, `utf16`, `arith`: little-endian numbers, recovered text and
//!   checked address arithmetic
//! - `game`: the character data of the game as plain values
//! - `error`: the errors

pub mod arith;
pub mod bytes;
pub mod collect;
pub mod error;
pub mod game;
pub mod module;
pub mod pattern;
pub mod process;
pub mod rtti;
pub mod scan;
pub mod text;
pub mod utf16;
pub mod walk;
