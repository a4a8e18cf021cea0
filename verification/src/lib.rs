//! An ant colony on a grid: the board, what each ant can see, the options it
//! is offered, the checks its answers go through, and the simulation that
//! carries the chosen intents out.

pub mod config;
pub mod grid;
pub mod nest;
pub mod scent;
pub mod text;
pub mod vision;
pub mod plank;
pub mod action;
pub mod options;
pub mod chance;
pub mod decisions;
pub mod rules;
pub mod api;
pub mod jev;
pub mod world;
pub mod colony;
pub mod scenario;
pub mod level;
pub mod questions;
pub mod panels;
pub mod bar;
pub mod inspector;
pub mod hud;
pub mod game;
