//! The decisions of a playback session: which item is playing, and what each
//! event from the player leads to.
//!
//! Waiting for events, the player itself, the database and the playback
//! position (a percentage the player reports as a floating-point number) are
//! left to the caller. For a position it hands over only whether the position
//! lies past the completion mark.

use vstd::prelude::*;
use crate::indexer::{Episode, Tv};
use crate::library::{spec_next_episode, spec_prev_episode, str_eq, MediaLibrary};
use crate::state::MediaType;
use crate::text::str_chars;

verus! {

/// The item a session plays, and whether its completion was already handled.
#[derive(Clone, Debug)]
pub struct Session {
    pub current_media_id: String,
    pub media_type: MediaType,
    pub has_reached_completion: bool,
}

/// An event from the player, as the session decides on it.
#[derive(Clone, Debug)]
pub enum SessionEvent {
    Started,
    Stopped,
    Paused,
    Resumed,
    /// The position changed, for the item with id `media_id`; whether it lies
    /// past the completion mark.
    Position { media_id: String, past_completion: bool },
    Completed,
    Exited,
    RequestNext,
    RequestPrev,
    RequestQuit,
    Error,
}

/// What the caller does in answer to an event.
#[derive(Clone, Debug)]
pub enum SessionAction {
    /// Report the event; nothing more.
    Report,
    /// The position is about an item that no longer plays: report that it is
    /// skipped.
    SkipPosition,
    /// Record the position.
    RecordPosition,
    /// Record the position and save the progress; then play `next` where
    /// there is one, else end the session.
    CompleteAndAdvance { next: Option<Episode> },
    /// Report the end of playback; save the progress first where `save`; end
    /// the session.
    Finish { save: bool },
    /// End the program.
    Exit,
    /// Play `episode`, which the user asked for (the next one where
    /// `forward`, else the previous one); report that there is none where it
    /// is `None`.
    Switch { episode: Option<Episode>, forward: bool },
    /// Quit the player; save the progress first where `save` (where an item
    /// is playing, that is where its id is not empty).
    Quit { save: bool },
    /// Nothing (a request to change episode while a movie plays).
    Ignore,
}

/// Whether a position event is about the item playing and reaches the
/// completion mark for the first time.
pub open spec fn completes_current(s: Session, e: SessionEvent) -> bool {
    match e {
        SessionEvent::Position { media_id, past_completion } => media_id@ == s.current_media_id@
            && past_completion && !s.has_reached_completion,
        _ => false,
    }
}

/// The episode after (or, where `!forward`, before) the one playing, for a
/// session that plays a show.
pub open spec fn neighbour(s: Session, shows: Seq<Tv>, forward: bool) -> Option<Episode> {
    if s.media_type == MediaType::Show {
        if forward {
            spec_next_episode(shows, s.current_media_id@)
        } else {
            spec_prev_episode(shows, s.current_media_id@)
        }
    } else {
        None
    }
}

/// What the session does in answer to event `e`, given the shows of the
/// library.
pub open spec fn spec_session_action(s: Session, e: SessionEvent, shows: Seq<Tv>) -> SessionAction {
    match e {
        SessionEvent::Position { media_id, past_completion } => if media_id@ != s.current_media_id@ {
            SessionAction::SkipPosition
        } else if past_completion && !s.has_reached_completion {
            SessionAction::CompleteAndAdvance { next: neighbour(s, shows, true) }
        } else {
            SessionAction::RecordPosition
        },
        SessionEvent::Completed => SessionAction::Finish { save: !s.has_reached_completion },
        SessionEvent::Exited => SessionAction::Exit,
        SessionEvent::RequestNext => if s.media_type == MediaType::Show {
            SessionAction::Switch { episode: neighbour(s, shows, true), forward: true }
        } else {
            SessionAction::Ignore
        },
        SessionEvent::RequestPrev => if s.media_type == MediaType::Show {
            SessionAction::Switch { episode: neighbour(s, shows, false), forward: false }
        } else {
            SessionAction::Ignore
        },
        SessionEvent::RequestQuit => SessionAction::Quit { save: s.current_media_id@.len() > 0 },
        _ => SessionAction::Report,
    }
}

/// Whether the completion of the item is handled after event `e`: a start
/// clears it, reaching the mark sets it until another episode is taken up,
/// and taking up a requested episode clears it.
pub open spec fn spec_reached_after(s: Session, e: SessionEvent, shows: Seq<Tv>) -> bool {
    match spec_session_action(s, e, shows) {
        SessionAction::CompleteAndAdvance { next } => next is None,
        SessionAction::Switch { episode, .. } => if episode is Some {
            false
        } else {
            s.has_reached_completion
        },
        _ => if e is Started {
            false
        } else {
            s.has_reached_completion
        },
    }
}

impl Session {
    /// A session that starts playing the item with id `media_id`.
    pub fn new(media_id: String, media_type: MediaType) -> (r: Session)
        ensures
            r.current_media_id@ == media_id@,
            r.media_type == media_type,
            !r.has_reached_completion,
    {
        Session { current_media_id: media_id, media_type, has_reached_completion: false }
    }

    /// Decides on event `e`: returns what to do and updates whether the
    /// completion of the item playing is handled. The item playing changes
    /// only through `now_playing`, once the player has taken up another one.
    pub fn on_event(&mut self, e: &SessionEvent, index: &MediaLibrary) -> (r: SessionAction)
        ensures
            r == spec_session_action(*old(self), *e, index@.library.shows@),
            final(self).has_reached_completion == spec_reached_after(
                *old(self),
                *e,
                index@.library.shows@,
            ),
            final(self).current_media_id == old(self).current_media_id,
            final(self).media_type == old(self).media_type,
    {
        let is_show = self.media_type == MediaType::Show;
        match e {
            SessionEvent::Position { media_id, past_completion } => {
                if !str_eq(media_id.as_str(), self.current_media_id.as_str()) {
                    SessionAction::SkipPosition
                } else if *past_completion && !self.has_reached_completion {
                    let next = if is_show {
                        index.get_next_episode(self.current_media_id.as_str())
                    } else {
                        None
                    };
                    self.has_reached_completion = next.is_none();
                    SessionAction::CompleteAndAdvance { next }
                } else {
                    SessionAction::RecordPosition
                }
            },
            SessionEvent::Completed => SessionAction::Finish { save: !self.has_reached_completion },
            SessionEvent::Exited => SessionAction::Exit,
            SessionEvent::RequestNext => {
                if is_show {
                    let episode = index.get_next_episode(self.current_media_id.as_str());
                    if episode.is_some() {
                        self.has_reached_completion = false;
                    }
                    SessionAction::Switch { episode, forward: true }
                } else {
                    SessionAction::Ignore
                }
            },
            SessionEvent::RequestPrev => {
                if is_show {
                    let episode = index.get_prev_episode(self.current_media_id.as_str());
                    if episode.is_some() {
                        self.has_reached_completion = false;
                    }
                    SessionAction::Switch { episode, forward: false }
                } else {
                    SessionAction::Ignore
                }
            },
            SessionEvent::RequestQuit => {
                let id = str_chars(self.current_media_id.as_str());
                SessionAction::Quit { save: id.len() > 0 }
            },
            SessionEvent::Started => {
                self.has_reached_completion = false;
                SessionAction::Report
            },
            _ => SessionAction::Report,
        }
    }

    /// Records that the player has taken up the episode with id `media_id`.
    pub fn now_playing(&mut self, media_id: String)
        ensures
            final(self).current_media_id@ == media_id@,
            final(self).media_type == old(self).media_type,
            final(self).has_reached_completion == old(self).has_reached_completion,
    {
        self.current_media_id = media_id;
    }
}

/// The progress of an item is saved once: after its position reached the
/// completion mark, later positions of it are only recorded, and its end asks
/// for no second save.
pub proof fn lemma_completion_saved_once(s: Session, e: SessionEvent, shows: Seq<Tv>)
    requires
        s.has_reached_completion,
    ensures
        !(spec_session_action(s, e, shows) is CompleteAndAdvance),
        e is Completed ==> spec_session_action(s, e, shows) == (SessionAction::Finish {
            save: false,
        }),
{
}

/// Reaching the completion mark of an episode moves on to the next episode
/// of its show, with its completion not yet handled; for a movie, or the last
/// episode, the session ends.
pub proof fn lemma_completion_advances(s: Session, e: SessionEvent, shows: Seq<Tv>)
    requires
        completes_current(s, e),
    ensures
        spec_session_action(s, e, shows) == (SessionAction::CompleteAndAdvance {
            next: neighbour(s, shows, true),
        }),
        s.media_type == MediaType::Movie ==> neighbour(s, shows, true) is None,
        spec_reached_after(s, e, shows) == (neighbour(s, shows, true) is None),
{
}

} // verus!
