pub mod shared;
pub mod table;
pub mod map;
pub mod pathfinding;
pub mod game;
