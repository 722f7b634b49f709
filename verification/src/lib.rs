//! Extraction of cached gacha-history request URLs from a game client's
//! web-cache byte buffer, and reconstruction of the backend API URL that
//! re-queries the draw history for a chosen game.

pub mod extract;
pub mod game;
pub mod history;
pub mod laws;
pub mod text;
pub mod url;
