pub mod octree;
pub mod util;
pub mod worldgen;
