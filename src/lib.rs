//! Plottable line art: a Hilbert curve on an integer lattice, and the corner
//! analysis that offset strokes are built from.

pub mod corner;
pub mod hilbert;
pub mod vec;

pub use corner::{direction_of_corner, is_valid_path, offset_corners, Corner};
pub use hilbert::{hilbert_curve, hilbert_lattice};
pub use vec::{vec2, Vec2};
