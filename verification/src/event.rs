//! Scheduled events, their identifiers and pending edits.
//!
//! All times are whole sample counts at the sequencer's sample rate. An
//! event plays on the half-open sample interval `[start_time, end_time)`;
//! `end_time == i64::MAX` stands for an open-ended event that is later
//! shortened through an edit.

use crate::fade::Fade;
use vstd::prelude::*;

verus! {

/// Globally unique ID for a sequencer event.
#[derive(PartialEq, Eq, Structural, Hash, Clone, Copy, Debug, Default)]
pub struct EventId(pub u64);

/// Mints event identifiers from a monotone counter: every identifier handed
/// out is distinct from all earlier ones of the same source.
#[derive(Clone, Copy, Debug)]
pub struct IdSource {
    /// The next identifier to hand out; all minted ones are below it.
    pub next: u64,
}

impl IdSource {
    /// A source whose first identifier is zero.
    pub fn new() -> (r: IdSource)
        ensures
            r.next == 0,
    {
        IdSource { next: 0 }
    }
}

impl EventId {
    /// Create a new event ID, unique among all IDs minted by `ids`.
    pub fn new(ids: &mut IdSource) -> (r: EventId)
        requires
            old(ids).next < u64::MAX,
        ensures
            r.0 == old(ids).next,
            final(ids).next == old(ids).next + 1,
    {
        let r = EventId(ids.next);
        ids.next = ids.next + 1;
        r
    }
}

/// A scheduled playback record. The audio unit it renders through is owned
/// by the rendering layer and looked up by `id`; the record itself carries
/// only the exact timing data the scheduler decides with.
#[derive(PartialEq, Eq, Structural, Clone, Copy, Debug, Default)]
pub struct Event {
    /// First sample of the event.
    pub start_time: i64,
    /// One past the last sample of the event.
    pub end_time: i64,
    /// Fade curve used for both the fade in and the fade out.
    pub fade_ease: Fade,
    /// Length of the fade in, in samples.
    pub fade_in: i64,
    /// Length of the fade out, in samples.
    pub fade_out: i64,
    /// Globally unique identifier.
    pub id: EventId,
}

impl Event {
    /// Create a new event. Fade in and fade out may overlap but may not
    /// exceed the duration of the event.
    pub fn new(
        start_time: i64,
        end_time: i64,
        fade_ease: Fade,
        fade_in: i64,
        fade_out: i64,
        ids: &mut IdSource,
    ) -> (r: Event)
        requires
            old(ids).next < u64::MAX,
            fade_in <= end_time - start_time,
            fade_out <= end_time - start_time,
        ensures
            final(ids).next == old(ids).next + 1,
            r == (Event {
                start_time,
                end_time,
                fade_ease,
                fade_in,
                fade_out,
                id: EventId(old(ids).next),
            }),
    {
        let id = EventId::new(ids);
        Event { start_time, end_time, fade_ease, fade_in, fade_out, id }
    }

    /// Whether the event has expired by sample `t`: nothing of it remains to
    /// render at or after `t`.
    pub open spec fn expires(self, t: int) -> bool {
        self.end_time <= t
    }

    /// Whether the event belongs to the active set once the promotion
    /// threshold is `threshold`.
    pub open spec fn promotes(self, threshold: int) -> bool {
        self.start_time < threshold
    }
}

/// A pending modification to an event: a new end time and fade out. Edits
/// are meant to shorten events whose final length was unknown when pushed.
#[derive(PartialEq, Eq, Structural, Clone, Copy, Debug, Default)]
pub struct Edit {
    /// The new end of the event, in samples.
    pub end_time: i64,
    /// The new fade out length, in samples.
    pub fade_out: i64,
}

/// No two events of the sequence share an identifier.
pub open spec fn unique_ids(s: Seq<Event>) -> bool {
    forall|i: int, j: int| 0 <= i < j < s.len() ==> (#[trigger] s[i]).id != (#[trigger] s[j]).id
}

/// Every identifier in the sequence was minted below `n`.
pub open spec fn ids_below(s: Seq<Event>, n: u64) -> bool {
    forall|i: int| 0 <= i < s.len() ==> (#[trigger] s[i]).id.0 < n
}

} // verus!
