//! Sheaf-theoretic consistency checking for fleets of agents.
//!
//! Each agent sees a subset of the shared state variables (an open set of
//! an `OpenCover`) and holds a local section over it. The modules here hold
//! the combinatorial side of the theory: covers and their intersection
//! lattice, restriction maps, the Čech coboundary matrices, gluing of
//! sections, obstruction classification, persistence tracking, and cellular
//! sheaves over graphs, of which groups of agents are one kind.

pub mod sorted;
pub mod cover;
pub mod section;
pub mod obstruction;
pub mod persistence;
pub mod gluing;
pub mod cochain;
pub mod error;
pub mod sheaf;
pub mod agent;

pub use cover::{OpenCover, RestrictionMap};
pub use section::LocalSection;
pub use obstruction::ObstructionClass;
