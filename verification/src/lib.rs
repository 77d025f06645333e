//! Watches a Steam screenshots folder and files each screenshot into a
//! subdirectory named after the game that produced it, matching the numeric
//! game identifier embedded in the screenshot's file name against a local
//! manifest catalog or a remote profile library.

pub mod organizer;
pub mod steam;
pub mod text;
pub mod update_handler;
