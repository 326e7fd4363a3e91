//! Spatial data structures backing a hexagonal tile map: axial hex
//! coordinates with neighborhood enumeration, sparse two-sided storage
//! indexed by those coordinates, and an adaptive region quadtree that
//! merges uniform regions.

pub mod hexagons;
pub mod quad_tree;
pub mod sparse;
pub mod values;
