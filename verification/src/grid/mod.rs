//! Text-grid geometry: path footprints and corridor-aware label placement.

pub mod cells;
pub mod line;
pub mod layout;
pub mod label_placement;
pub mod attachment;
