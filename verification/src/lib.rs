//! Open, undirected, typed multigraphs in the style of ZX-calculus diagrams.
//!
//! Vertices ("spiders" or boundary points) carry a kind and an exact rational
//! phase; edges carry a kind; an ordered subset of the vertices is marked as
//! the diagram's inputs and outputs.  The crate states the capability contract
//! that any graph backend must satisfy, together with the structural operators
//! (adjoint, sequential and parallel composition), and proves one reference
//! backend against that contract.

pub mod graph;
pub mod model;
pub mod phase;
pub mod simple_graph;
