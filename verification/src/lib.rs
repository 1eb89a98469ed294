//! Placement of box-shaped items into bounded containers.
//!
//! Items are placed by priority: each in a container of its zone if there
//! is room; if there is none, room is made by moving an occupant of lower
//! priority to another container; what still has no place goes wherever
//! there is room. [`placement::optimize_placement`] runs such a batch on top
//! of what is stored already, and [`placement_service::PlacementService`]
//! offers a second strategy, which starts from empty containers.
//!
//! Lengths are whole numbers of a fixed unit, the smallest distance that the
//! engine tells apart; see [`geometry`]. Every function states what it
//! computes in its contract, and [`simulation::lawful`] states what holds of
//! every state of a batch: boxes do not overlap, lie inside their containers
//! and are supported, no item fills two boxes, and the moves that were
//! written down lead from the state at the start to the state at the end.

pub mod accessibility;
pub mod displacement;
pub mod feasibility;
pub mod geometry;
pub mod homing;
pub mod models;
pub mod orchestrator;
pub mod placement;
pub mod placement_service;
pub mod ranking;
pub mod rearrangement;
pub mod search;
pub mod simulation;
