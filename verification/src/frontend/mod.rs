//! What the front ends decide: how the console reads its input and draws
//! the board, and what the buttons of the menu do.

pub mod frontend_utils;
pub mod main_menu;
pub mod play_level;
