//! Tile grids: chunked sparse storage, a cost grid with an A* path finder and a queue of
//! searches, tile layer builders, and the outline of hexagonal colliders.

pub mod coordinates;
pub mod math;
pub mod path;
pub mod pathfinding;
pub mod queue;
pub mod save;
pub mod storage;
pub mod tile;
