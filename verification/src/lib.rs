//! Game logic for a first-person maze: the grid model, shortest routes over
//! it, the enemy's decision making, totems, the player's health, the menu
//! and the software pixel buffer. Rendering, input, audio and everything
//! measured in floating-point world units live in the application crate.
pub mod maze;
pub mod pathfind;
pub mod enemy;
pub mod totem;
pub mod player;
pub mod game;
pub mod menu;
pub mod color;
pub mod framebuffer;
pub mod textures;
pub mod map_view;
