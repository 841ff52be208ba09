pub mod cards;
pub mod deck;
pub mod game;
