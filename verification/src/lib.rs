//! Rules engine for a sliding-tile maze board game.
//!
//! A square board of rotatable tiles forms a maze. Each turn a player pushes
//! the spare tile into a movable line, which slides that line by one cell, and
//! then walks through the maze to collect items in a fixed order.
//!
//! The modules, leaf first: [`tile`] holds the tile model and [`layout`] the
//! geometry of the board. [`board`] holds the grid with the pushing of lines,
//! [`generate`] the making of a fresh board and [`maze`] the search for
//! paths. [`player`] holds the players and their turn order, and [`game`] the
//! turn cycle that ties them together. [`chance`] is the only place where a
//! random number is drawn.

pub mod board;
pub mod chance;
pub mod game;
pub mod generate;
pub mod layout;
pub mod maze;
pub mod player;
pub mod tile;
