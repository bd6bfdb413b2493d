//! Maps the logical memories of circuits onto distributed RAM and two block-RAM macro
//! kinds at least estimated area, then merges pairs of half-full single-port macros into
//! true-dual-port ones.

pub mod area;
pub mod circuits;
pub mod cost;
pub mod driver;
pub mod mapper;
pub mod model;
pub mod report;
pub mod sharing;

pub use driver::assign_ram;
pub use model::{Circuit, CircuitResult, MapError, MemMode, Memory, PhysConfig, PhysType, RamMapping};
