//! FlowPaint's verified core: the solver-grid geometry, the paint
//! bucket's flood fill and contour walk, the sketch model's object tree
//! and undo history, the editor selection, scene-file routing and tree
//! repair, the probe store, and the small enumerations shared with the
//! UI.

pub mod geometry;
pub mod flood;
pub mod settings;
pub mod model;
pub mod scene;
pub mod selection;
pub mod probes;

pub use geometry::{GridRect, Geometry, CELL_FLUID, CELL_WALL, CELL_INLET, CELL_OUTLET};
