//! The events that drive a session, and the rule by which the reader of keys
//! ends its work.

use vstd::prelude::*;

verus! {

/// A key as the terminal reports it. Enter is the line feed character.
#[derive(Debug, Clone, Copy, PartialEq, Eq, Structural)]
pub enum Key {
    Char(char),
    Ctrl(char),
    Backspace,
    Esc,
    /// Any other key; none of them has a meaning here.
    Other,
}

/// What reaches the session: a key, or the start or the end of a
/// synchronisation pass.
#[derive(Debug)]
pub enum Event<I> {
    Input(I),
    Updating,
    Updated,
}

/// The key that ends a session.
pub open spec fn exit_key() -> Key {
    Key::Char('q')
}

/// Whether the reader of keys ends its work after handing on `key`: it does
/// after the exit key, unless it has been told to ignore that key.
pub open spec fn input_ends(key: Key, ignore_exit_key: bool) -> bool {
    key == exit_key() && !ignore_exit_key
}

/// Whether the reader of keys ends its work after handing on `key`.
pub fn ends_input(key: Key, ignore_exit_key: bool) -> (ends: bool)
    ensures
        ends == input_ends(key, ignore_exit_key),
{
    !ignore_exit_key && key == Key::Char('q')
}

/// What the worker that keeps the items up to date does next.
#[derive(Debug, Clone, Copy, PartialEq, Eq, Structural)]
pub enum SyncStep {
    /// Announce the pass: hand on `Event::Updating`.
    Announce,
    /// Fetch the feeds and take their items in.
    Pass,
    /// Report the end of the pass: hand on `Event::Updated`.
    Report,
    /// Sleep for the update interval.
    Rest,
    /// End: nobody listens any more.
    Stop,
}

/// The step that follows `step`. `delivered` says whether the event of an
/// announcement or a report could be handed on; where it could not, the
/// worker stops. Otherwise the steps follow each other in a ring.
pub open spec fn step_after(step: SyncStep, delivered: bool) -> SyncStep {
    match step {
        SyncStep::Announce => if delivered {
            SyncStep::Pass
        } else {
            SyncStep::Stop
        },
        SyncStep::Pass => SyncStep::Report,
        SyncStep::Report => if delivered {
            SyncStep::Rest
        } else {
            SyncStep::Stop
        },
        SyncStep::Rest => SyncStep::Announce,
        SyncStep::Stop => SyncStep::Stop,
    }
}

/// The step that follows `step`.
pub fn next_step(step: SyncStep, delivered: bool) -> (next: SyncStep)
    ensures
        next == step_after(step, delivered),
{
    match step {
        SyncStep::Announce => if delivered {
            SyncStep::Pass
        } else {
            SyncStep::Stop
        },
        SyncStep::Pass => SyncStep::Report,
        SyncStep::Report => if delivered {
            SyncStep::Rest
        } else {
            SyncStep::Stop
        },
        SyncStep::Rest => SyncStep::Announce,
        SyncStep::Stop => SyncStep::Stop,
    }
}

} // verus!
