//! A code graph: symbols and references extracted from source trees, bound to
//! each other by name, fingerprinted by structure, and queried for impact.

use vstd::prelude::*;

pub mod canon;
pub mod config;
pub mod db;
pub mod diagnosis;
pub mod doctor;
pub mod facade;
pub mod gather;
pub mod graph;
pub mod index;
pub mod init;
pub mod lines;
pub mod lookup;
pub mod order;
pub mod ranks;
pub mod settings;
pub mod spelling;
pub mod text;

verus! {

} // verus!
