//! Sprite-atlas packing: axis-aligned boxes with integer sides are placed,
//! optionally rotated by a quarter turn, into one or more bins of a fixed
//! maximum size so that no two of them overlap.
//!
//! [`pack`] is the entry point. It orders the boxes by each of the chosen
//! [`PackHeuristic`]s in turn and, for each order, fills [`Bin`]s by first
//! fit over a guillotine partition ([`Node`]). Every function carries a
//! contract over a mathematical model of its data: a partition is the
//! sequence of its leaves ([`Cell`]), a bin is a [`BinModel`], and a packing
//! run is the function [`pack::packed`] of its inputs. What holds of every
//! outcome of a run is proved in [`guarantees`].

pub mod atlas;
pub mod bin;
pub mod geometry;
pub mod guarantees;
pub mod heuristics;
pub mod node;
pub mod options;
pub mod pack;

pub use atlas::{compute_atlas_size, is_supported_format, mark_points, smallest};
pub use bin::{Bin, BinModel};
pub use geometry::{Dimension, Fit, Placement, Rectangle};
pub use heuristics::{PackHeuristic, PackInput};
pub use node::{Cell, Node};
pub use options::{HeuristicSet, PackOptions};
pub use pack::{pack, PackErr, PackResult};
