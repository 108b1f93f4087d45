pub mod cards;
pub mod sorting;
pub mod player;
pub mod board;
pub mod game;
pub mod multiverse;
pub mod hand_laws;
