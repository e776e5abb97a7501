//! A two-player numeric card game: a shared deck holds the cards 1 through 23.
//! Picking a card scores its value for the player; every proper divisor of the
//! pick still in the deck is removed and scored for the enemy.

pub mod game;
pub mod laws;
