//! The commands of the command line.

use vstd::prelude::*;

verus! {

/// The command line: one command.
#[derive(Clone, Debug)]
pub struct App {
    pub command: Commands,
}

/// The commands.
#[derive(Clone, Debug)]
pub enum Commands {
    /// List indexed media files.
    List,
    /// List the most recently viewed items.
    Recent,
    /// Play an item.
    Play(PlayArgs),
    /// Resume the last item.
    Resume,
    /// Index the media files again.
    Sync,
    /// Organize the media files.
    Organize,
}

/// Options of `play`: a movie or a show.
#[derive(Clone, Copy, Debug)]
pub struct PlayArgs {
    pub movie: bool,
    pub tv: bool,
}

} // verus!
