//! What the player monitor does with each line that mpv sends on its IPC
//! socket, and how long it waits for playback to start. Reading the socket
//! and parsing its JSON is left to the caller.

use vstd::prelude::*;
use crate::library::str_eq;

verus! {

/// The `data` of a property change, as far as the monitor reads it.
#[derive(Clone, Debug)]
pub enum PropertyData {
    Bool(bool),
    Number,
    Other,
    Missing,
}

/// One read from the mpv socket.
#[derive(Clone, Debug)]
pub enum MpvNotice {
    /// The socket was closed (a read of zero bytes).
    Closed,
    /// Reading failed.
    ReadError,
    /// A line holding only whitespace.
    Blank,
    /// A line that is no event object.
    NotAnEvent,
    /// An event: its name; for a property change, the property's name and data
    /// where they could be read; for an end of file, the reason where it could
    /// be read.
    Event { event: String, property: Option<(String, PropertyData)>, end_reason: Option<String> },
}

/// What the monitor does in answer to a notice.
#[derive(Clone, Debug, PartialEq, Eq, Structural)]
pub enum MonitorAction {
    /// Nothing; read on.
    Ignore,
    /// mpv exited: report `Exited`, stop playback, end monitoring.
    Exit,
    /// The socket failed: report the error, end monitoring.
    Fail,
    /// Pause changed: report `Paused` (or `Resumed`) and record whether playing.
    Pause { paused: bool },
    /// The position changed: report it and record it.
    Position,
    /// The end of the file was reached: report `Completed`, stop playback.
    Complete { from_property: bool },
    /// Playback was stopped or quit: report `Stopped`, stop playback.
    Stop,
    /// An end of file for another reason: log it, read on.
    UnhandledEnd,
    /// mpv shuts down: report `Stopped`, stop playback, end monitoring.
    Shutdown,
}

pub open spec fn spec_monitor_action(n: MpvNotice) -> MonitorAction {
    match n {
        MpvNotice::Closed => MonitorAction::Exit,
        MpvNotice::ReadError => MonitorAction::Fail,
        MpvNotice::Blank => MonitorAction::Ignore,
        MpvNotice::NotAnEvent => MonitorAction::Ignore,
        MpvNotice::Event { event, property, end_reason } => {
            if event@ == "property-change"@ {
                match property {
                    Some((name, data)) => if name@ == "pause"@ {
                        match data {
                            PropertyData::Bool(p) => MonitorAction::Pause { paused: p },
                            _ => MonitorAction::Ignore,
                        }
                    } else if name@ == "percent-pos"@ {
                        match data {
                            PropertyData::Number => MonitorAction::Position,
                            _ => MonitorAction::Ignore,
                        }
                    } else if name@ == "eof-reached"@ {
                        match data {
                            PropertyData::Bool(true) => MonitorAction::Complete { from_property: true },
                            _ => MonitorAction::Ignore,
                        }
                    } else {
                        MonitorAction::Ignore
                    },
                    None => MonitorAction::Ignore,
                }
            } else if event@ == "end-file"@ {
                match end_reason {
                    Some(reason) => if reason@ == "eof"@ {
                        MonitorAction::Complete { from_property: false }
                    } else if reason@ == "stop"@ || reason@ == "quit"@ {
                        MonitorAction::Stop
                    } else {
                        MonitorAction::UnhandledEnd
                    },
                    None => MonitorAction::Ignore,
                }
            } else if event@ == "shutdown"@ {
                MonitorAction::Shutdown
            } else {
                MonitorAction::Ignore
            }
        },
    }
}

/// Whether the monitor stops reading after an action.
pub open spec fn ends_monitoring(a: MonitorAction) -> bool {
    a == MonitorAction::Exit || a == MonitorAction::Fail || a == MonitorAction::Shutdown
}

/// Decides what the monitor does with one notice from mpv.
pub fn monitor_action(n: &MpvNotice) -> (r: MonitorAction)
    ensures
        r == spec_monitor_action(*n),
{
    match n {
        MpvNotice::Closed => MonitorAction::Exit,
        MpvNotice::ReadError => MonitorAction::Fail,
        MpvNotice::Blank => MonitorAction::Ignore,
        MpvNotice::NotAnEvent => MonitorAction::Ignore,
        MpvNotice::Event { event, property, end_reason } => {
            if str_eq(event.as_str(), "property-change") {
                match property {
                    Some((name, data)) => if str_eq(name.as_str(), "pause") {
                        match data {
                            PropertyData::Bool(p) => MonitorAction::Pause { paused: *p },
                            _ => MonitorAction::Ignore,
                        }
                    } else if str_eq(name.as_str(), "percent-pos") {
                        match data {
                            PropertyData::Number => MonitorAction::Position,
                            _ => MonitorAction::Ignore,
                        }
                    } else if str_eq(name.as_str(), "eof-reached") {
                        match data {
                            PropertyData::Bool(true) => MonitorAction::Complete { from_property: true },
                            _ => MonitorAction::Ignore,
                        }
                    } else {
                        MonitorAction::Ignore
                    },
                    None => MonitorAction::Ignore,
                }
            } else if str_eq(event.as_str(), "end-file") {
                match end_reason {
                    Some(reason) => if str_eq(reason.as_str(), "eof") {
                        MonitorAction::Complete { from_property: false }
                    } else if str_eq(reason.as_str(), "stop") || str_eq(reason.as_str(), "quit") {
                        MonitorAction::Stop
                    } else {
                        MonitorAction::UnhandledEnd
                    },
                    None => MonitorAction::Ignore,
                }
            } else if str_eq(event.as_str(), "shutdown") {
                MonitorAction::Shutdown
            } else {
                MonitorAction::Ignore
            }
        },
    }
}

/// Whether the monitor stops reading after `a`.
pub fn action_ends_monitoring(a: &MonitorAction) -> (r: bool)
    ensures
        r == ends_monitoring(*a),
{
    match a {
        MonitorAction::Exit => true,
        MonitorAction::Fail => true,
        MonitorAction::Shutdown => true,
        _ => false,
    }
}

/// How many times the player is asked for the playback time before giving up.
pub const MAX_INIT_ATTEMPTS: u32 = 30;

/// The outcome of one attempt to see playback started.
#[derive(Clone, Copy, Debug, PartialEq, Eq, Structural)]
pub enum WaitOutcome {
    /// Playback has started.
    Ready,
    /// The last attempt failed: give up.
    TimedOut,
    /// Wait a second and ask again.
    Retry,
}


/// A change of the `pause` property carries its value: `true` pauses,
/// `false` resumes.
pub proof fn lemma_pause_change(n: MpvNotice, b: bool)
    requires
        n matches MpvNotice::Event { event, property: Some((name, PropertyData::Bool(v))), .. }
            && event@ == "property-change"@ && name@ == "pause"@ && v == b,
    ensures
        spec_monitor_action(n) == (MonitorAction::Pause { paused: b }),
{
}

/// A numeric change of the `percent-pos` property is a new position.
pub proof fn lemma_position_change(n: MpvNotice)
    requires
        n matches MpvNotice::Event { event, property: Some((name, PropertyData::Number)), .. }
            && event@ == "property-change"@ && name@ == "percent-pos"@,
    ensures
        spec_monitor_action(n) == MonitorAction::Position,
{
    reveal_strlit("pause");
    reveal_strlit("percent-pos");
    assert("pause"@.len() == 5);
    assert("percent-pos"@.len() == 11);
}

/// The end of the file, whether reported by `eof-reached` turning true or by
/// an `end-file` event for reason `eof`, completes playback; an `end-file`
/// for reason `stop` or `quit` stops it.
pub proof fn lemma_end_of_file(n: MpvNotice)
    ensures
        (n matches MpvNotice::Event { event, property: Some((name, PropertyData::Bool(true))), .. }
            && event@ == "property-change"@ && name@ == "eof-reached"@) ==> spec_monitor_action(n)
            == (MonitorAction::Complete { from_property: true }),
        (n matches MpvNotice::Event { event, end_reason: Some(reason), .. } && event@ == "end-file"@
            && reason@ == "eof"@) ==> spec_monitor_action(n) == (MonitorAction::Complete {
            from_property: false,
        }),
        (n matches MpvNotice::Event { event, end_reason: Some(reason), .. } && event@ == "end-file"@
            && (reason@ == "stop"@ || reason@ == "quit"@)) ==> spec_monitor_action(n)
            == MonitorAction::Stop,
{
    reveal_strlit("pause");
    reveal_strlit("percent-pos");
    reveal_strlit("eof-reached");
    reveal_strlit("property-change");
    reveal_strlit("end-file");
    reveal_strlit("eof");
    reveal_strlit("stop");
    reveal_strlit("quit");
    assert("pause"@.len() == 5);
    assert("percent-pos"@.len() == 11);
    assert("eof-reached"@.len() == 11);
    assert("eof-reached"@[0] != "percent-pos"@[0]);
    assert("property-change"@.len() == 15);
    assert("end-file"@.len() == 8);
    assert("eof"@.len() == 3);
    assert("stop"@.len() == 4);
    assert("quit"@.len() == 4);
}

pub open spec fn spec_wait_outcome(attempt: u32, has_time: bool) -> WaitOutcome {
    if has_time {
        WaitOutcome::Ready
    } else if attempt + 1 >= MAX_INIT_ATTEMPTS {
        WaitOutcome::TimedOut
    } else {
        WaitOutcome::Retry
    }
}

/// Decides, after attempt number `attempt` (from 0), whether playback is
/// ready (the player reported a playback time), to give up, or to retry.
pub fn wait_outcome(attempt: u32, has_time: bool) -> (r: WaitOutcome)
    ensures
        r == spec_wait_outcome(attempt, has_time),
{
    if has_time {
        WaitOutcome::Ready
    } else if attempt >= MAX_INIT_ATTEMPTS - 1 {
        WaitOutcome::TimedOut
    } else {
        WaitOutcome::Retry
    }
}

} // verus!
