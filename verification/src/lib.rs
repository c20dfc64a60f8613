pub mod coordinate;
pub mod maze;
pub mod depthfirstsearch;
mod rng;

pub use coordinate::Coordinate;
pub use depthfirstsearch::depth_first;
pub use maze::Maze;
