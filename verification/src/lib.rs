//! A terminal run-and-gun platformer: levels, their validator, the renderer and the game rules.
pub mod level;
pub mod gates;
pub mod text;
pub mod parse;
pub mod load;
pub mod render;
pub mod sprites;
pub mod game;
pub mod validator;
pub mod report;
pub mod input;
pub mod fullscreen;
pub mod tiles;
pub mod hud;
