pub mod components;
pub mod difficulties;
pub mod systems;
