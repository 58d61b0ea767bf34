//! A media library manager: indexing of movie and show directories, guessing
//! titles and season/episode numbers from file names, watch history records and
//! the decisions taken while playing media.

pub mod cli;
pub mod clock;
pub mod db;
pub mod indexer;
pub mod library;
pub mod monitor;
pub mod paths;
pub mod playback;
pub mod session;
pub mod sorting;
pub mod state;
pub mod text;
pub mod utils;
