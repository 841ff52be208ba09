pub mod ai;
pub mod combat;
pub mod components;
pub mod progress;
pub mod systems;
pub mod textures;
pub mod tower;
pub mod units;
pub mod upgrade_modal;
pub mod upgrades;
