pub mod model;
pub mod combat;
pub mod occupation;
pub mod economy;
pub mod movement;
pub mod diplomacy;
pub mod random;
pub mod ai;
pub mod turn;
pub mod save;
pub mod actions;
pub mod events;
pub mod map;
