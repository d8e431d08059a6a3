pub mod hexagon_pos;
pub mod world;
pub mod pathfinding;
pub mod movement;
pub mod visibility;
pub mod borders;
pub mod economy;
pub mod players;
pub mod map_file;
pub mod countries;
pub mod battle;
pub mod stacking;
pub mod client;
