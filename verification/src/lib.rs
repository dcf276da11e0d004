//! Incremental trapezoidal decomposition of the plane with a point-location DAG.

pub mod change;
pub mod clear;
pub mod effect;
pub mod geom;
pub mod idx;
pub mod insert;
pub mod laws;
pub mod model;
pub mod order;
pub mod querynode;
pub mod route;
pub mod settle;
pub mod split;
pub mod text;
pub mod trace;
pub mod trapezoid;
pub mod trapezoidation;

pub use geom::{Coords, Nexus, Segment};
pub use idx::{Arena, Idx, NexusIdx, QueryIdx, SegmentIdx, TrapezoidIdx};
pub use insert::InsertError;
pub use querynode::{IndexedQueryNode, QueryNode, QueryNodeBranch};
pub use trapezoid::Trapezoid;
pub use trapezoidation::Trapezoidation;
