pub mod components;
pub mod difficulties;
pub mod game;
pub mod systems;
