//! Turn-based simulation core of a dungeon crawler: level generation, visibility
//! bookkeeping, monster decisions, combat and item effects, and progression.
//!
//! Everything here works on plain values. Drawing, key and mouse polling, field-of-view
//! casting, path search and persistence are done by the caller, which hands their results
//! to the functions of this crate.

pub mod ai;
pub mod bsp;
pub mod color;
pub mod equipment;
pub mod game;
pub mod generator;
pub mod input;
pub mod inventory;
pub mod level;
pub mod map;
pub mod message;
pub mod object;
pub mod progress;
pub mod reach;
pub mod rng;
pub mod spells;
pub mod text;
pub mod view;
