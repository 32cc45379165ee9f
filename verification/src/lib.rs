//! Keyboard-driven pointing: the grid, the hint labels, the screenshot analysis and the
//! overlay's state machine.

pub mod active_monitor;
pub mod animation_laws;
pub mod app_scan;
pub mod atspi_scan;
pub mod canvas;
pub mod cheat_sheet;
pub mod config;
pub mod demo;
pub mod drawing;
pub mod drawing_laws;
pub mod element_laws;
pub mod fullscan_viz;
pub mod grid;
pub mod growth_viz;
pub mod hints;
pub mod ipc;
pub mod key_laws;
pub mod outputs;
pub mod overlay;
pub mod overlay_laws;
pub mod pieces;
pub mod pointer;
pub mod screencap;
pub mod settings_tui;
pub mod sorting;
pub mod text;
pub mod units;
pub mod vision;
