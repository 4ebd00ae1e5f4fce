//! Event-timeline compiler and real-time tile scheduler for a falling-note
//! music visualizer.

pub mod event;
pub mod timeline;
pub mod tile;
pub mod song;
pub mod smf;
pub mod keyboard;
