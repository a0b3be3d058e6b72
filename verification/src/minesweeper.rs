pub mod base36;
pub mod base62;
pub mod error;
pub mod minesweeper_logic;
pub mod parsers;
pub mod provider;
pub mod renderer;
pub mod textures;
