//! Core engine of a terminal typing-and-harvesting game: a grid with an
//! A*-style shortest-path search over a dynamic obstacle set, a rejection
//! sampling spawn placement algorithm for an elliptical island, per-node
//! typing-progress state machines, and the per-keystroke orchestrator that
//! couples typing accuracy to quantized player movement.

pub mod ascii_objects;
pub mod clock;
pub mod coastline;
pub mod crafting;
pub mod game;
pub mod islands;
pub mod pathfinding;
pub mod resource_types;
pub mod rng;
pub mod save_system;
pub mod updater;
pub mod word_lists;
