//! What is watched, and the records kept of watching.

use vstd::prelude::*;
use crate::clock::{is_id_char, new_id, now, Timestamp};

verus! {

/// The kind of media a record is about.
#[derive(Clone, Copy, Debug, PartialEq, Eq, Structural)]
pub enum MediaType {
    Movie,
    Show,
}

/// One record of watching: which movie or episode, how far (in percent),
/// whether it was finished, and when.
#[derive(Clone, Debug)]
pub struct WatchEntry {
    pub id: String,
    pub media_id: String,
    pub media_type: MediaType,
    pub progress: i16,
    pub complete: bool,
    pub watched_at: Timestamp,
}

impl WatchEntry {
    /// A new record of watching, made now, with a fresh id of 21 characters
    /// of the id alphabet (the length `nanoid!()` gives).
    pub fn record(media_id: String, media_type: MediaType, progress: i16, complete: bool) -> (r:
        WatchEntry)
        ensures
            r.media_id == media_id,
            r.media_type == media_type,
            r.progress == progress,
            r.complete == complete,
            r.id@.len() == 21,
            forall|i: int| 0 <= i < r.id@.len() ==> is_id_char(#[trigger] r.id@[i]),
    {
        WatchEntry { id: new_id(21), media_id, media_type, progress, complete, watched_at: now() }
    }

    /// A copy of the record.
    pub fn duplicate(&self) -> (r: WatchEntry)
        ensures
            r == *self,
    {
        WatchEntry {
            id: self.id.clone(),
            media_id: self.media_id.clone(),
            media_type: self.media_type,
            progress: self.progress,
            complete: self.complete,
            watched_at: self.watched_at,
        }
    }
}

} // verus!
