//! Broad-phase collision detection in the plane.
//!
//! The elements are axis-aligned bounding boxes with a payload. A
//! [`tree::Tree`] arranges them in a median-split KD-tree whose nodes keep the
//! elements that cross their divider, and reports every pair of colliding
//! elements once.

pub mod active;
pub mod builder;
pub mod checks;
pub mod colfind;
pub mod geom;
pub mod handler;
pub mod laws;
pub mod node;
pub mod num_level;
pub mod oned;
pub mod oracle;
pub mod pairs;
pub mod par;
pub mod perm;
pub mod pmut;
pub mod tree;
pub mod util;
