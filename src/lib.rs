//! Connected components ("islands") of land cells in a boolean grid under
//! 8-connectivity, each reported as the bounding box of its cells.
pub mod grid;
pub mod connectivity;
pub mod engine;
pub mod laws;
