//! The decision core of a time-difference-of-arrival position solver.
//!
//! A solve estimates where an emitter stands from the times at which a set
//! of anchors heard it. The numeric work (distances, sums, random
//! directions) belongs to the caller; this crate holds every decision that
//! the solve takes on those numbers, each with a proved contract:
//!
//! * [`arrival`]: which anchor lists are accepted, and the order in which
//!   the anchors are taken;
//! * [`seeds`]: the starting points of the descents, by anchor index;
//! * [`descent`]: the control of one randomized descent;
//! * [`cluster`]: the grouping of the points that the descents found;
//! * [`ranking`]: which clusters are reported, and in what order.
//!
//! Numbers enter the crate by their encoding, see [`scalar`]. Both orderings
//! are stable, see [`order`].

pub mod scalar;
pub mod seeds;
pub mod descent;
pub mod cluster;
pub mod order;
pub mod arrival;
pub mod ranking;
