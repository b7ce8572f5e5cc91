//! The sequencer mixes together scheduled audio units with sample accurate
//! timing.
//!
//! The sequencer itself never touches sample data: each call to [`Sequencer::process`]
//! or [`Sequencer::tick`] updates the schedule exactly as the timeline
//! demands and returns a [`BlockPlan`] or [`TickPlan`] describing which
//! events render which sample indices and with which fade phases. A
//! rendering layer executes the plan against the audio units it owns,
//! which are looked up by [`EventId`].

use crate::backend::{FrontLink, Message, SequencerBackend};
use crate::event::{ids_below, unique_ids, Edit, Event, EventId, IdSource};
use crate::fade::Fade;
use std::collections::HashMap;
use vstd::prelude::*;

verus! {

broadcast use vstd::std_specs::hash::group_hash_axioms;

/// Saturating sum of two sample times.
pub open spec fn sat_add_spec(a: int, b: int) -> int {
    if a + b > i64::MAX {
        i64::MAX as int
    } else if a + b < i64::MIN {
        i64::MIN as int
    } else {
        a + b
    }
}

/// Add two sample times, saturating at the ends of the representable range
/// (an open-ended event keeps `i64::MAX` as its end under translation).
pub fn sat_add(a: i64, b: i64) -> (r: i64)
    ensures
        r as int == sat_add_spec(a as int, b as int),
{
    let s: i128 = a as i128 + b as i128;
    if s > i64::MAX as i128 {
        i64::MAX
    } else if s < i64::MIN as i128 {
        i64::MIN
    } else {
        s as i64
    }
}

/// The map mirrors the active vector exactly: each active event's id maps to
/// its index, and every key of the map is the id of the event at its index.
pub open spec fn map_matches(active: Seq<Event>, m: Map<u64, usize>) -> bool {
    &&& (forall|i: int|
        0 <= i < active.len() ==> m.contains_key(#[trigger] active[i].id.0) && m[active[i].id.0]
            == i)
    &&& (forall|k: u64| #[trigger]
        m.contains_key(k) ==> m[k] < active.len() && active[m[k] as int].id.0 == k)
}

/// No identifier occurs in both sequences.
pub open spec fn ids_disjoint(a: Seq<Event>, b: Seq<Event>) -> bool {
    forall|i: int, j: int|
        0 <= i < a.len() && 0 <= j < b.len() ==> (#[trigger] a[i]).id != (#[trigger] b[j]).id
}

/// Sequencer unit. The sequencer schedules events over a timeline measured
/// in whole samples and describes, block by block, the mix the rendering
/// layer must produce.
pub struct Sequencer {
    /// Current events, unsorted.
    pub active: Vec<Event>,
    /// Index of each active event's id in `active`.
    pub active_map: HashMap<u64, usize>,
    /// Events that start before this sample are active.
    pub active_threshold: i64,
    /// Future events; promotion scans the whole vector, so no order is kept.
    pub ready: Vec<Event>,
    /// Past events, unsorted, awaiting replay or return to the frontend.
    pub past: Vec<Event>,
    /// Edits against events still waiting in `ready`.
    pub edit_map: HashMap<u64, Edit>,
    /// Number of output channels.
    pub outputs: usize,
    /// Current time in samples. Does not apply to frontends.
    pub time: i64,
    /// Current sample rate in Hz.
    pub sample_rate: u64,
    /// Source of fresh event identifiers.
    pub ids: IdSource,
    /// Channel endpoints towards the backend, if one was split off.
    pub front: Option<FrontLink>,
    /// Whether we replay existing events after a call to `reset`.
    pub replay_events: bool,
}

impl Sequencer {
    /// The configuration fields that scheduling never changes.
    pub open spec fn same_config(self, other: Sequencer) -> bool {
        &&& self.outputs == other.outputs
        &&& self.sample_rate == other.sample_rate
        &&& self.replay_events == other.replay_events
        &&& self.ids == other.ids
        &&& self.front == other.front
    }

    /// The core well-formedness: the active map mirrors the active vector,
    /// all identifiers are distinct and were minted by this sequencer's
    /// source, and every active event starts before the threshold. During a
    /// block the threshold runs ahead of time; at rest it does not.
    pub open spec fn wf_core(self) -> bool {
        &&& map_matches(self.active@, self.active_map@)
        &&& unique_ids(self.ready@)
        &&& unique_ids(self.active@)
        &&& unique_ids(self.past@)
        &&& ids_disjoint(self.ready@, self.active@)
        &&& ids_disjoint(self.ready@, self.past@)
        &&& ids_disjoint(self.active@, self.past@)
        &&& ids_below(self.ready@, self.ids.next)
        &&& ids_below(self.active@, self.ids.next)
        &&& ids_below(self.past@, self.ids.next)
        &&& (forall|i: int|
            0 <= i < self.active@.len() ==> (#[trigger] self.active@[i]).promotes(
                self.active_threshold as int,
            ))
        &&& 0 <= self.time
    }

    /// Well-formedness at rest: between blocks the promotion threshold also
    /// never runs ahead of time.
    pub open spec fn wf(self) -> bool {
        &&& self.wf_core()
        &&& self.active_threshold <= self.time
    }

    /// Whether `id` occurs nowhere in the schedule.
    pub open spec fn fresh_id(self, id: EventId) -> bool {
        &&& (forall|i: int| 0 <= i < self.ready@.len() ==> (#[trigger] self.ready@[i]).id != id)
        &&& (forall|i: int| 0 <= i < self.active@.len() ==> (#[trigger] self.active@[i]).id != id)
        &&& (forall|i: int| 0 <= i < self.past@.len() ==> (#[trigger] self.past@[i]).id != id)
    }

    /// Relation between the schedule before and after an event lands in it.
    /// A frontend forwards the event to its backend and is left unchanged;
    /// otherwise the event joins `active` if it starts before the threshold
    /// and `ready` if not.
    pub open spec fn placed(pre: Sequencer, post: Sequencer, event: Event) -> bool {
        if pre.front is Some {
            post == pre
        } else if event.start_time < pre.active_threshold {
            &&& post.active@ == pre.active@.push(event)
            &&& post.active_map@ == pre.active_map@.insert(event.id.0, pre.active@.len() as usize)
            &&& post.ready == pre.ready
            &&& post.past == pre.past
            &&& post.edit_map == pre.edit_map
            &&& post.active_threshold == pre.active_threshold
            &&& post.time == pre.time
            &&& pre.same_config(post)
        } else {
            &&& post.ready@ == pre.ready@.push(event)
            &&& post.active == pre.active
            &&& post.active_map == pre.active_map
            &&& post.past == pre.past
            &&& post.edit_map == pre.edit_map
            &&& post.active_threshold == pre.active_threshold
            &&& post.time == pre.time
            &&& pre.same_config(post)
        }
    }

    /// Create a new sequencer. The sequencer has zero inputs; the number of
    /// outputs is decided by the user. If `replay_events` is true, then past
    /// events are retained and played back after a reset; if false, all
    /// events are cleared on reset.
    pub fn new(replay_events: bool, outputs: usize) -> (r: Sequencer)
        ensures
            r.wf(),
            r.outputs == outputs,
            r.replay_events == replay_events,
            r.time == 0,
            r.active_threshold == i64::MIN,
            r.active@ =~= Seq::<Event>::empty(),
            r.ready@ =~= Seq::<Event>::empty(),
            r.past@ =~= Seq::<Event>::empty(),
            r.edit_map@ =~= Map::<u64, Edit>::empty(),
            r.active_map@ =~= Map::<u64, usize>::empty(),
            r.ids.next == 0,
            r.front is None,
            r.sample_rate == 44100,
    {
        Sequencer {
            active: Vec::new(),
            active_map: HashMap::new(),
            active_threshold: i64::MIN,
            ready: Vec::new(),
            past: Vec::new(),
            edit_map: HashMap::new(),
            outputs,
            time: 0,
            sample_rate: 44100,
            ids: IdSource::new(),
            front: None,
            replay_events,
        }
    }

    /// Current time in samples. This method is not applicable to frontends,
    /// which do not process audio.
    pub fn time(&self) -> (r: i64)
        ensures
            r == self.time,
    {
        self.time
    }

    /// Returns whether this sequencer has a backend.
    pub fn has_backend(&self) -> (r: bool)
        ensures
            r == (self.front is Some),
    {
        self.front.is_some()
    }

    /// Returns whether we retain past events and replay them after a reset.
    pub fn replay_events(&self) -> (r: bool)
        ensures
            r == self.replay_events,
    {
        self.replay_events
    }

    /// Number of output channels.
    pub fn outputs(&self) -> (r: usize)
        ensures
            r == self.outputs,
    {
        self.outputs
    }

    /// Place a freshly created event, or forward it to the backend.
    pub(crate) fn push_event(&mut self, event: Event)
        requires
            old(self).wf(),
            old(self).fresh_id(event.id),
            event.id.0 < old(self).ids.next,
        ensures
            final(self).wf(),
            Sequencer::placed(*old(self), *final(self), event),
    {
        if self.front.is_some() {
            let link = self.front.as_ref().unwrap();
            link.drain_returns();
            link.send(Message::Push(event));
        } else if event.start_time < self.active_threshold {
            let idx = self.active.len();
            self.active_map.insert(event.id.0, idx);
            self.active.push(event);
            proof {
                lemma_place_active(*old(self), *self, event);
            }
        } else {
            self.ready.push(event);
            proof {
                lemma_place_ready(*old(self), *self, event);
            }
        }
    }

    /// Add an event. All times are in samples. Fade in and fade out may
    /// overlap but may not exceed the duration of the event. The unit the
    /// rendering layer will play under the returned id must have zero inputs
    /// and as many outputs as the sequencer. Returns the ID of the event.
    pub fn push(
        &mut self,
        start_time: i64,
        end_time: i64,
        fade_ease: Fade,
        fade_in_time: i64,
        fade_out_time: i64,
        unit_inputs: usize,
        unit_outputs: usize,
    ) -> (r: EventId)
        requires
            old(self).wf(),
            old(self).ids.next < u64::MAX,
            fade_in_time <= end_time - start_time,
            fade_out_time <= end_time - start_time,
            unit_inputs == 0,
            unit_outputs == old(self).outputs,
        ensures
            final(self).wf(),
            r == EventId(old(self).ids.next),
            final(self).ids.next == old(self).ids.next + 1,
            Sequencer::placed(
                Sequencer { ids: IdSource { next: (old(self).ids.next + 1) as u64 }, ..*old(self) },
                *final(self),
                (Event {
                    start_time,
                    end_time,
                    fade_ease,
                    fade_in: fade_in_time,
                    fade_out: fade_out_time,
                    id: r,
                }),
            ),
    {
        let event = Event::new(
            start_time,
            end_time,
            fade_ease,
            fade_in_time,
            fade_out_time,
            &mut self.ids,
        );
        let id = event.id;
        self.push_event(event);
        id
    }

    /// Add an event whose times are relative to the current time. A start
    /// time of zero starts the event as soon as possible. On a frontend the
    /// translation happens on the backend when the message is consumed, so
    /// "now" is the backend's now.
    pub fn push_relative(
        &mut self,
        start_time: i64,
        end_time: i64,
        fade_ease: Fade,
        fade_in_time: i64,
        fade_out_time: i64,
        unit_inputs: usize,
        unit_outputs: usize,
    ) -> (r: EventId)
        requires
            old(self).wf(),
            old(self).ids.next < u64::MAX,
            fade_in_time <= end_time - start_time,
            fade_out_time <= end_time - start_time,
            unit_inputs == 0,
            unit_outputs == old(self).outputs,
        ensures
            final(self).wf(),
            r == EventId(old(self).ids.next),
            final(self).ids.next == old(self).ids.next + 1,
            Sequencer::placed(
                Sequencer { ids: IdSource { next: (old(self).ids.next + 1) as u64 }, ..*old(self) },
                *final(self),
                (Event {
                    start_time: if old(self).front is Some {
                        start_time
                    } else {
                        sat_add_spec(old(self).time as int, start_time as int) as i64
                    },
                    end_time: if old(self).front is Some {
                        end_time
                    } else {
                        sat_add_spec(old(self).time as int, end_time as int) as i64
                    },
                    fade_ease,
                    fade_in: fade_in_time,
                    fade_out: fade_out_time,
                    id: r,
                }),
            ),
    {
        let event = Event::new(
            start_time,
            end_time,
            fade_ease,
            fade_in_time,
            fade_out_time,
            &mut self.ids,
        );
        let id = event.id;
        self.push_relative_event(event);
        id
    }

    /// Place a relative event: translate it by the current time, or forward
    /// it untranslated to the backend, which translates on arrival.
    pub(crate) fn push_relative_event(&mut self, event: Event)
        requires
            old(self).wf(),
            old(self).fresh_id(event.id),
            event.id.0 < old(self).ids.next,
        ensures
            final(self).wf(),
            Sequencer::placed(
                *old(self),
                *final(self),
                if old(self).front is Some {
                    event
                } else {
                    (Event {
                        start_time: sat_add_spec(
                            old(self).time as int,
                            event.start_time as int,
                        ) as i64,
                        end_time: sat_add_spec(old(self).time as int, event.end_time as int) as i64,
                        ..event
                    })
                },
            ),
    {
        if self.front.is_some() {
            let link = self.front.as_ref().unwrap();
            link.drain_returns();
            link.send(Message::PushRelative(event));
        } else {
            let translated = Event {
                start_time: sat_add(self.time, event.start_time),
                end_time: sat_add(self.time, event.end_time),
                ..event
            };
            self.push_event(translated);
        }
    }

    /// Add an event from a start time and a duration, both in samples.
    pub fn push_duration(
        &mut self,
        start_time: i64,
        duration: i64,
        fade_ease: Fade,
        fade_in_time: i64,
        fade_out_time: i64,
        unit_inputs: usize,
        unit_outputs: usize,
    ) -> (r: EventId)
        requires
            old(self).wf(),
            old(self).ids.next < u64::MAX,
            0 <= duration,
            start_time + duration <= i64::MAX,
            fade_in_time <= duration,
            fade_out_time <= duration,
            unit_inputs == 0,
            unit_outputs == old(self).outputs,
        ensures
            final(self).wf(),
            r == EventId(old(self).ids.next),
            final(self).ids.next == old(self).ids.next + 1,
            Sequencer::placed(
                Sequencer { ids: IdSource { next: (old(self).ids.next + 1) as u64 }, ..*old(self) },
                *final(self),
                (Event {
                    start_time,
                    end_time: (start_time + duration) as i64,
                    fade_ease,
                    fade_in: fade_in_time,
                    fade_out: fade_out_time,
                    id: r,
                }),
            ),
    {
        self.push(
            start_time,
            start_time + duration,
            fade_ease,
            fade_in_time,
            fade_out_time,
            unit_inputs,
            unit_outputs,
        )
    }
}

/// Pushing a fresh event onto the active set together with its map entry
/// keeps the sequencer well formed.
proof fn lemma_place_active(pre: Sequencer, post: Sequencer, event: Event)
    requires
        pre.wf(),
        pre.fresh_id(event.id),
        event.id.0 < pre.ids.next,
        event.start_time < pre.active_threshold,
        pre.active@.len() <= usize::MAX,
        post.active@ == pre.active@.push(event),
        post.active_map@ == pre.active_map@.insert(event.id.0, pre.active@.len() as usize),
        post.ready == pre.ready,
        post.past == pre.past,
        post.active_threshold == pre.active_threshold,
        post.time == pre.time,
        post.ids == pre.ids,
    ensures
        post.wf(),
{
    let a = post.active@;
    let m = post.active_map@;
    assert forall|i: int|
        0 <= i < a.len() implies m.contains_key(#[trigger] a[i].id.0) && m[a[i].id.0] == i by {
        if i < pre.active@.len() {
            assert(a[i] == pre.active@[i]);
            assert(pre.active_map@.contains_key(pre.active@[i].id.0) && pre.active_map@[pre.active@[
                i
            ].id.0] == i);
            assert(a[i].id != event.id);
            assert(a[i].id.0 != event.id.0);
        } else {
            assert(a[i] == event);
        }
    }
    assert forall|k: u64| #[trigger]
        m.contains_key(k) implies m[k] < a.len() && a[m[k] as int].id.0 == k by {
        if k == event.id.0 {
            assert(a[pre.active@.len() as int] == event);
        } else {
            assert(pre.active_map@.contains_key(k));
            assert(a[pre.active_map@[k] as int] == pre.active@[pre.active_map@[k] as int]);
        }
    }
    assert forall|i: int, j: int|
        0 <= i < j < a.len() implies a[i].id != a[j].id by {
        if j < pre.active@.len() {
        } else {
            assert(a[j] == event);
            assert(a[i] == pre.active@[i]);
        }
    }
}

/// Pushing a fresh event onto the ready set keeps the sequencer well formed.
proof fn lemma_place_ready(pre: Sequencer, post: Sequencer, event: Event)
    requires
        pre.wf(),
        pre.fresh_id(event.id),
        event.id.0 < pre.ids.next,
        post.ready@ == pre.ready@.push(event),
        post.active == pre.active,
        post.active_map == pre.active_map,
        post.past == pre.past,
        post.active_threshold == pre.active_threshold,
        post.time == pre.time,
        post.ids == pre.ids,
    ensures
        post.wf(),
{
    let r = post.ready@;
    assert forall|i: int, j: int|
        0 <= i < j < r.len() implies r[i].id != r[j].id by {
        if j < pre.ready@.len() {
        } else {
            assert(r[j] == event);
            assert(r[i] == pre.ready@[i]);
        }
    }
    assert forall|i: int, j: int|
        0 <= i < r.len() && 0 <= j < post.active@.len() implies r[i].id != post.active@[j].id by {
        if i < pre.ready@.len() {
        } else {
            assert(r[i] == event);
        }
    }
    assert forall|i: int, j: int|
        0 <= i < r.len() && 0 <= j < post.past@.len() implies r[i].id != post.past@[j].id by {
        if i < pre.ready@.len() {
        } else {
            assert(r[i] == event);
        }
    }
}

/// The event as promotion delivers it: any pending edit for its id applied.
pub open spec fn apply_edit_spec(e: Event, edits: Map<u64, Edit>) -> Event {
    if edits.contains_key(e.id.0) {
        Event { end_time: edits[e.id.0].end_time, fade_out: edits[e.id.0].fade_out, ..e }
    } else {
        e
    }
}

/// The events of `ready` that stay behind a promotion up to `threshold`, in
/// their original order.
pub open spec fn kept_spec(ready: Seq<Event>, threshold: int) -> Seq<Event>
    decreases ready.len(),
{
    if ready.len() == 0 {
        Seq::empty()
    } else {
        let rest = kept_spec(ready.drop_last(), threshold);
        if ready.last().promotes(threshold) {
            rest
        } else {
            rest.push(ready.last())
        }
    }
}

/// The events of `ready` that a promotion up to `threshold` moves to the
/// active set, in order and with their pending edits applied.
pub open spec fn promoted_spec(ready: Seq<Event>, edits: Map<u64, Edit>, threshold: int) -> Seq<
    Event,
>
    decreases ready.len(),
{
    if ready.len() == 0 {
        Seq::empty()
    } else {
        let rest = promoted_spec(ready.drop_last(), edits, threshold);
        if ready.last().promotes(threshold) {
            rest.push(apply_edit_spec(ready.last(), edits))
        } else {
            rest
        }
    }
}

/// Whether some event of `ready` with identifier `k` promotes at `threshold`.
pub open spec fn ready_promotes_id(ready: Seq<Event>, k: u64, threshold: int) -> bool {
    exists|i: int|
        0 <= i < ready.len() && (#[trigger] ready[i]).promotes(threshold) && ready[i].id.0 == k
}

/// The edit map after a promotion: exactly the entries whose target did not
/// promote, with their values untouched.
pub open spec fn edits_after_promotion(
    pre_edits: Map<u64, Edit>,
    ready: Seq<Event>,
    threshold: int,
    post_edits: Map<u64, Edit>,
) -> bool {
    &&& (forall|k: u64|
        #[trigger] post_edits.contains_key(k) <==> (pre_edits.contains_key(k)
            && !ready_promotes_id(ready, k, threshold)))
    &&& (forall|k: u64| #[trigger]
        post_edits.contains_key(k) ==> post_edits[k] == pre_edits[k])
}

/// One step of the promotion split: extending the scanned prefix of `ready`
/// by one event extends either the kept or the promoted side.
proof fn lemma_sched_take_succ(ready: Seq<Event>, edits: Map<u64, Edit>, threshold: int, idx: int)
    requires
        0 <= idx < ready.len(),
    ensures
        kept_spec(ready.take(idx + 1), threshold) == if ready[idx].promotes(threshold) {
            kept_spec(ready.take(idx), threshold)
        } else {
            kept_spec(ready.take(idx), threshold).push(ready[idx])
        },
        promoted_spec(ready.take(idx + 1), edits, threshold) == if ready[idx].promotes(threshold) {
            promoted_spec(ready.take(idx), edits, threshold).push(apply_edit_spec(ready[idx], edits))
        } else {
            promoted_spec(ready.take(idx), edits, threshold)
        },
{
    assert(ready.take(idx + 1).drop_last() =~= ready.take(idx));
    assert(ready.take(idx + 1).last() == ready[idx]);
}

/// One step of the promoted-id test: scanning one more event of `ready`
/// adds exactly that event's id when it promotes.
proof fn lemma_rpi_take_succ(ready: Seq<Event>, k: u64, threshold: int, idx: int)
    requires
        0 <= idx < ready.len(),
    ensures
        ready_promotes_id(ready.take(idx + 1), k, threshold) <==> (ready_promotes_id(
            ready.take(idx),
            k,
            threshold,
        ) || (ready[idx].promotes(threshold) && ready[idx].id.0 == k)),
{
    let a = ready.take(idx);
    let b = ready.take(idx + 1);
    if ready_promotes_id(b, k, threshold) {
        let i = choose|i: int| 0 <= i < b.len() && (#[trigger] b[i]).promotes(threshold) && b[i].id.0 == k;
        if i < idx {
            assert(a[i] == b[i]);
            assert(ready_promotes_id(a, k, threshold));
        } else {
            assert(b[i] == ready[idx]);
        }
    }
    if ready_promotes_id(a, k, threshold) {
        let i = choose|i: int| 0 <= i < a.len() && (#[trigger] a[i]).promotes(threshold) && a[i].id.0 == k;
        assert(b[i] == a[i]);
        assert(ready_promotes_id(b, k, threshold));
    }
    if ready[idx].promotes(threshold) && ready[idx].id.0 == k {
        assert(b[idx] == ready[idx]);
        assert(ready_promotes_id(b, k, threshold));
    }
}

impl Sequencer {
    /// Move events that start before `next_end_time` (less half a sample,
    /// which whole-sample times absorb into a strict comparison) from the
    /// ready set to the active set, applying pending edits on the way.
    pub(crate) fn ready_to_active(&mut self, next_end_time: i64)
        requires
            old(self).wf_core(),
            old(self).active_threshold <= next_end_time,
        ensures
            final(self).wf_core(),
            final(self).active_threshold == next_end_time,
            final(self).time == old(self).time,
            final(self).past@ == old(self).past@,
            old(self).same_config(*final(self)),
            final(self).ready@ == kept_spec(old(self).ready@, next_end_time as int),
            final(self).active@ == old(self).active@ + promoted_spec(
                old(self).ready@,
                old(self).edit_map@,
                next_end_time as int,
            ),
            edits_after_promotion(
                old(self).edit_map@,
                old(self).ready@,
                next_end_time as int,
                final(self).edit_map@,
            ),
    {
        let ghost r0 = old(self).ready@;
        let ghost a0 = old(self).active@;
        let ghost e0 = old(self).edit_map@;
        let ghost t = next_end_time as int;
        self.active_threshold = next_end_time;
        let mut still: Vec<Event> = Vec::new();
        let mut idx: usize = 0;
        proof {
            assert(r0.take(0) =~= Seq::<Event>::empty());
            assert(a0 + promoted_spec(r0.take(0), e0, t) =~= a0);
        }
        while idx < self.ready.len()
            invariant
                0 <= idx <= r0.len(),
                self.ready@ == r0,
                self.past@ == old(self).past@,
                self.time == old(self).time,
                self.active_threshold == next_end_time,
                old(self).same_config(*self),
                old(self).wf_core(),
                old(self).active_threshold <= next_end_time,
                r0 == old(self).ready@,
                a0 == old(self).active@,
                e0 == old(self).edit_map@,
                t == next_end_time as int,
                still@ == kept_spec(r0.take(idx as int), t),
                self.active@ == a0 + promoted_spec(r0.take(idx as int), e0, t),
                edits_after_promotion(e0, r0.take(idx as int), t, self.edit_map@),
                map_matches(self.active@, self.active_map@),
                unique_ids(self.active@),
                unique_ids(still@),
                forall|i: int, j: int|
                    idx <= i < r0.len() && 0 <= j < self.active@.len() ==> (#[trigger] r0[i]).id
                        != (#[trigger] self.active@[j]).id,
                forall|i: int, j: int|
                    idx <= i < r0.len() && 0 <= j < still@.len() ==> (#[trigger] r0[i]).id
                        != (#[trigger] still@[j]).id,
                ids_disjoint(still@, self.active@),
                ids_disjoint(still@, self.past@),
                ids_disjoint(self.active@, self.past@),
                ids_below(still@, self.ids.next),
                ids_below(self.active@, self.ids.next),
                forall|j: int|
                    0 <= j < self.active@.len() ==> (#[trigger] self.active@[j]).promotes(t),
            decreases r0.len() - idx,
        {
            let ev = self.ready[idx];
            proof {
                lemma_sched_take_succ(r0, e0, t, idx as int);
                assert(ev == r0[idx as int]);
            }
            if ev.start_time < next_end_time {
                proof {
                    if e0.contains_key(ev.id.0) && ready_promotes_id(r0.take(idx as int), ev.id.0, t) {
                        let i = choose|i: int|
                            0 <= i < r0.take(idx as int).len() && (#[trigger] r0.take(
                                idx as int,
                            )[i]).promotes(t) && r0.take(idx as int)[i].id.0 == ev.id.0;
                        assert(r0.take(idx as int)[i] == r0[i]);
                        assert(r0[i].id != r0[idx as int].id);
                        assert(false);
                    }
                }
                let edit_entry = match self.edit_map.get(&ev.id.0) {
                    Some(edit) => Some(*edit),
                    None => None,
                };
                let mut promoted = ev;
                match edit_entry {
                    Some(edit) => {
                        promoted.end_time = edit.end_time;
                        promoted.fade_out = edit.fade_out;
                        self.edit_map.remove(&ev.id.0);
                    },
                    None => {},
                }
                proof {
                    assert(promoted == apply_edit_spec(ev, e0));
                    assert forall|k: u64|
                        #[trigger] self.edit_map@.contains_key(k) <==> (e0.contains_key(k)
                            && !ready_promotes_id(r0.take(idx as int + 1), k, t)) by {
                        lemma_rpi_take_succ(r0, k, t, idx as int);
                    }
                }
                let ghost a_pre = self.active@;
                let ghost m_pre = self.active_map@;
                let pos = self.active.len();
                self.active_map.insert(promoted.id.0, pos);
                self.active.push(promoted);
                proof {
                    assert forall|j: int|
                        0 <= j < a_pre.len() implies (#[trigger] a_pre[j]).id != promoted.id by {
                        assert(r0[idx as int].id != a_pre[j].id);
                    }
                    lemma_active_push(a_pre, m_pre, promoted);
                    assert((a0 + promoted_spec(r0.take(idx as int), e0, t)).push(promoted) =~= a0
                        + promoted_spec(r0.take(idx as int), e0, t).push(promoted));
                    assert(r0[idx as int].id.0 < self.ids.next);
                }
            } else {
                let ghost still_pre = still@;
                still.push(ev);
                proof {
                    assert forall|k: u64|
                        #[trigger] self.edit_map@.contains_key(k) <==> (e0.contains_key(k)
                            && !ready_promotes_id(r0.take(idx as int + 1), k, t)) by {
                        lemma_rpi_take_succ(r0, k, t, idx as int);
                    }
                    assert forall|i: int, j: int|
                        idx as int + 1 <= i < r0.len() && 0 <= j
                            < still@.len() implies (#[trigger] r0[i]).id != (#[trigger] still@[j]).id by {
                        if j < still_pre.len() {
                            assert(still@[j] == still_pre[j]);
                        } else {
                            assert(still@[j] == r0[idx as int]);
                        }
                    }
                }
            }
            idx = idx + 1;
        }
        proof {
            assert(r0.take(r0.len() as int) =~= r0);
        }
        self.ready = still;
    }
}

/// Appending an event with a fresh identifier, and recording its index,
/// preserves the map correspondence and identifier uniqueness.
proof fn lemma_active_push(a: Seq<Event>, m: Map<u64, usize>, e: Event)
    requires
        map_matches(a, m),
        unique_ids(a),
        forall|j: int| 0 <= j < a.len() ==> (#[trigger] a[j]).id != e.id,
        a.len() <= usize::MAX,
    ensures
        map_matches(a.push(e), m.insert(e.id.0, a.len() as usize)),
        unique_ids(a.push(e)),
{
    let a1 = a.push(e);
    let m1 = m.insert(e.id.0, a.len() as usize);
    assert forall|i: int|
        0 <= i < a1.len() implies m1.contains_key(#[trigger] a1[i].id.0) && m1[a1[i].id.0]
        == i by {
        if i < a.len() {
            assert(a1[i] == a[i]);
            assert(m.contains_key(a[i].id.0) && m[a[i].id.0] == i);
            assert(a[i].id != e.id);
            assert(a[i].id.0 != e.id.0);
        } else {
            assert(a1[i] == e);
        }
    }
    assert forall|k: u64| #[trigger]
        m1.contains_key(k) implies m1[k] < a1.len() && a1[m1[k] as int].id.0 == k by {
        if k == e.id.0 {
            assert(a1[a.len() as int] == e);
        } else {
            assert(m.contains_key(k));
            assert(a1[m[k] as int] == a[m[k] as int]);
        }
    }
    assert forall|i: int, j: int|
        0 <= i < j < a1.len() implies a1[i].id != a1[j].id by {
        if j < a.len() {
        } else {
            assert(a1[j] == e);
            assert(a1[i] == a[i]);
        }
    }
}

/// Index of the first sample of `e` within a block of `n` samples starting
/// at `t0`, before clamping against the end index.
pub open spec fn start_index_spec(e: Event, t0: int, n: int) -> int {
    if e.start_time <= t0 {
        0
    } else {
        e.start_time - t0
    }
}

/// One past the index of the last sample of `e` within a block of `n`
/// samples starting at `t0`.
pub open spec fn end_index_spec(e: Event, t0: int, n: int) -> int {
    if e.end_time >= t0 + n {
        n
    } else {
        e.end_time - t0
    }
}

/// Whether `e` contributes at least one sample to a block of `n` samples
/// starting at `t0`.
pub open spec fn renders(e: Event, t0: int, n: int) -> bool {
    start_index_spec(e, t0, n) < end_index_spec(e, t0, n)
}

/// One directive of a block plan: render `end_index - start_index` frames
/// of the event's unit and mix them into the block at `start_index`, under
/// the event's fade envelopes.
#[derive(Clone, Copy, Debug)]
pub struct BlockOp {
    /// The event to render, as scheduled (edits applied).
    pub event: Event,
    /// First block index the event covers.
    pub start_index: usize,
    /// One past the last block index the event covers.
    pub end_index: usize,
}

/// Everything the rendering layer must do for one block: for each directive,
/// render the unit keyed by the event's id, scale sample `j` of the block by
/// the event's fade gains at time `time0 + j`, and sum into the output.
#[derive(Clone, Debug)]
pub struct BlockPlan {
    /// Time, in samples, of the first frame of the block.
    pub time0: i64,
    /// Number of frames in the block.
    pub size: usize,
    /// The events rendered in this block, one directive each.
    pub ops: Vec<BlockOp>,
}

/// The events of a sequence of directives, in order.
pub open spec fn ops_events(s: Seq<BlockOp>) -> Seq<Event>
    decreases s.len(),
{
    if s.len() == 0 {
        Seq::empty()
    } else {
        ops_events(s.drop_last()).push(s.last().event)
    }
}

/// The active events that contribute samples to a block of `n` samples
/// starting at `t0`, in their active order.
pub open spec fn rendered_spec(active: Seq<Event>, t0: int, n: int) -> Seq<Event>
    decreases active.len(),
{
    if active.len() == 0 {
        Seq::empty()
    } else {
        let rest = rendered_spec(active.drop_last(), t0, n);
        if renders(active.last(), t0, n) {
            rest.push(active.last())
        } else {
            rest
        }
    }
}

/// Every rendered event is an active event that contributes to the block.
pub proof fn lemma_rendered_sound(active: Seq<Event>, t0: int, n: int)
    ensures
        forall|q: int|
            0 <= q < rendered_spec(active, t0, n).len() ==> active.contains(
                #[trigger] rendered_spec(active, t0, n)[q],
            ) && renders(rendered_spec(active, t0, n)[q], t0, n),
    decreases active.len(),
{
    if active.len() > 0 {
        let prior = active.drop_last();
        lemma_rendered_sound(prior, t0, n);
        assert forall|q: int|
            0 <= q < rendered_spec(active, t0, n).len() implies active.contains(
            #[trigger] rendered_spec(active, t0, n)[q],
        ) && renders(rendered_spec(active, t0, n)[q], t0, n) by {
            let r = rendered_spec(active, t0, n);
            if q < rendered_spec(prior, t0, n).len() {
                assert(r[q] == rendered_spec(prior, t0, n)[q]);
                let w = choose|w: int| 0 <= w < prior.len() && prior[w] == r[q];
                assert(active[w] == r[q]);
            } else {
                assert(r[q] == active.last());
                assert(active[active.len() - 1] == r[q]);
            }
        }
    }
}

/// Every active event that contributes to the block is rendered.
pub proof fn lemma_rendered_complete(active: Seq<Event>, t0: int, n: int)
    ensures
        forall|j: int|
            0 <= j < active.len() && renders(#[trigger] active[j], t0, n) ==> rendered_spec(
                active,
                t0,
                n,
            ).contains(active[j]),
    decreases active.len(),
{
    if active.len() > 0 {
        let prior = active.drop_last();
        lemma_rendered_complete(prior, t0, n);
        assert forall|j: int|
            0 <= j < active.len() && renders(#[trigger] active[j], t0, n) implies rendered_spec(
            active,
            t0,
            n,
        ).contains(active[j]) by {
            let r = rendered_spec(active, t0, n);
            if j < active.len() - 1 {
                assert(prior[j] == active[j]);
                let w = choose|w: int|
                    0 <= w < rendered_spec(prior, t0, n).len() && rendered_spec(prior, t0, n)[w]
                        == active[j];
                assert(r[w] == active[j]);
            } else {
                assert(r[r.len() - 1] == active[j]);
            }
        }
    }
}

/// Rendering keeps identifiers distinct: a block plan never names an event
/// twice.
pub proof fn lemma_rendered_unique(active: Seq<Event>, t0: int, n: int)
    requires
        unique_ids(active),
    ensures
        unique_ids(rendered_spec(active, t0, n)),
    decreases active.len(),
{
    if active.len() > 0 {
        let prior = active.drop_last();
        assert forall|i: int, j: int|
            0 <= i < j < prior.len() implies (#[trigger] prior[i]).id != (#[trigger] prior[j]).id by {
            assert(prior[i] == active[i]);
            assert(prior[j] == active[j]);
        }
        lemma_rendered_unique(prior, t0, n);
        lemma_rendered_sound(prior, t0, n);
        let r = rendered_spec(active, t0, n);
        assert forall|i: int, j: int|
            0 <= i < j < r.len() implies (#[trigger] r[i]).id != (#[trigger] r[j]).id by {
            let rp = rendered_spec(prior, t0, n);
            if j < rp.len() {
                assert(r[i] == rp[i]);
                assert(r[j] == rp[j]);
            } else if renders(active.last(), t0, n) {
                assert(r[j] == active.last());
                assert(r[i] == rp[i]);
                assert(prior.contains(rp[i]));
                let w = choose|w: int| 0 <= w < prior.len() && prior[w] == rp[i];
                assert(active[w] == rp[i]);
                assert(active[w].id != active[active.len() - 1].id);
            }
        }
    }
}

/// Removing the expired event at index `i` by swapping in the last event
/// preserves the map correspondence and identifier uniqueness: the removed
/// entry leaves the map, and the swapped-in tail is rekeyed to `i` unless
/// the removed event was itself the tail.
proof fn lemma_retire_step(
    a0: Seq<Event>,
    m0: Map<u64, usize>,
    a1: Seq<Event>,
    m1: Map<u64, usize>,
    i: int,
)
    requires
        map_matches(a0, m0),
        unique_ids(a0),
        0 <= i < a0.len(),
        a1 == a0.update(i, a0.last()).drop_last(),
        m1 == if i + 1 < a0.len() {
            m0.remove(a0[i].id.0).insert(a0[a0.len() - 1].id.0, i as usize)
        } else {
            m0.remove(a0[i].id.0)
        },
    ensures
        map_matches(a1, m1),
        unique_ids(a1),
        a1.len() == a0.len() - 1,
        forall|j: int| 0 <= j < a1.len() && j != i ==> a1[j] == a0[j],
        i < a1.len() ==> a1[i] == a0[a0.len() - 1],
{
    assert forall|j: int|
        0 <= j < a1.len() implies m1.contains_key(#[trigger] a1[j].id.0) && m1[a1[j].id.0]
        == j by {
        if j == i {
            assert(a1[j] == a0[a0.len() - 1]);
            assert(a0[i].id != a0[a0.len() - 1].id);
        } else {
            assert(a1[j] == a0[j]);
            assert(a0[j].id != a0[i].id);
            if i + 1 < a0.len() {
                assert(a0[j].id != a0[a0.len() - 1].id);
            }
        }
    }
    assert forall|k: u64| #[trigger]
        m1.contains_key(k) implies m1[k] < a1.len() && a1[m1[k] as int].id.0 == k by {
        if i + 1 < a0.len() && k == a0[a0.len() - 1].id.0 {
            assert(a1[i] == a0[a0.len() - 1]);
        } else {
            assert(m0.contains_key(k));
            let j = m0[k] as int;
            assert(a0[j].id.0 == k);
            assert(j != i);
            assert(j != a0.len() - 1);
            assert(a1[j] == a0[j]);
        }
    }
    assert forall|p: int, q: int|
        0 <= p < q < a1.len() implies a1[p].id != a1[q].id by {
        if p != i && q != i {
            assert(a1[p] == a0[p]);
            assert(a1[q] == a0[q]);
        } else if p == i {
            assert(a1[p] == a0[a0.len() - 1]);
            assert(a1[q] == a0[q]);
        } else {
            assert(a1[q] == a0[a0.len() - 1]);
            assert(a1[p] == a0[p]);
        }
    }
}

/// The invariant bundle that the retirement sweep maintains around the
/// active and past collections: a prefix of examined survivors, past events
/// that all expired, and conservation of the promoted active set `a1` over
/// the two.
pub open spec fn retire_frame(
    active: Seq<Event>,
    past: Seq<Event>,
    a1: Seq<Event>,
    p1: Seq<Event>,
    i: int,
    t0: int,
) -> bool {
    &&& 0 <= i <= active.len()
    &&& (forall|j: int| 0 <= j < i ==> !(#[trigger] active[j]).expires(t0))
    &&& (forall|j: int| 0 <= j < active.len() ==> a1.contains(#[trigger] active[j]))
    &&& past.len() >= p1.len()
    &&& past.take(p1.len() as int) == p1
    &&& (forall|j: int|
        p1.len() <= j < past.len() ==> (#[trigger] past[j]).expires(t0) && a1.contains(past[j]))
    &&& (forall|k: int|
        0 <= k < a1.len() ==> active.contains(#[trigger] a1[k]) || (exists|j: int|
            p1.len() <= j < past.len() && past[j] == a1[k]))
    &&& active.len() + past.len() == a1.len() + p1.len()
}

/// One retirement step: swapping the expired event at `i` out of the active
/// set and onto the past list preserves the sweep's invariant bundle.
proof fn lemma_retire_frame_step(
    a_pre: Seq<Event>,
    a_post: Seq<Event>,
    past_pre: Seq<Event>,
    past_post: Seq<Event>,
    a1: Seq<Event>,
    p1: Seq<Event>,
    i: int,
    t0: int,
)
    requires
        retire_frame(a_pre, past_pre, a1, p1, i, t0),
        0 <= i < a_pre.len(),
        a_pre[i].expires(t0),
        a_post == a_pre.update(i, a_pre.last()).drop_last(),
        past_post == past_pre.push(a_pre[i]),
    ensures
        retire_frame(a_post, past_post, a1, p1, i, t0),
{
    assert(past_post.take(p1.len() as int) =~= past_pre.take(p1.len() as int));
    assert forall|j: int| 0 <= j < a_post.len() implies a1.contains(#[trigger] a_post[j]) by {
        if j != i {
            assert(a_post[j] == a_pre[j]);
        } else {
            assert(a_post[j] == a_pre[a_pre.len() - 1]);
        }
    }
    assert forall|k: int|
        0 <= k < a1.len() implies a_post.contains(#[trigger] a1[k]) || (exists|j: int|
            p1.len() <= j < past_post.len() && past_post[j] == a1[k]) by {
        if a_pre.contains(a1[k]) {
            let j = choose|j: int| 0 <= j < a_pre.len() && a_pre[j] == a1[k];
            if j == i {
                assert(past_post[past_post.len() - 1] == a_pre[i]);
            } else if j == a_pre.len() - 1 {
                if i < a_pre.len() - 1 {
                    assert(a_post[i] == a_pre[j]);
                    assert(a_post.contains(a1[k]));
                } else {
                    assert(past_post[past_post.len() - 1] == a_pre[i]);
                }
            } else {
                assert(a_post[j] == a_pre[j]);
                assert(a_post.contains(a1[k]));
            }
        } else {
            let j = choose|j: int| p1.len() <= j < past_pre.len() && past_pre[j] == a1[k];
            assert(past_post[j] == a1[k]);
        }
    }
}

impl Sequencer {
    /// Advance the schedule by one block of `size` samples and describe the
    /// rendering work of the block.
    ///
    /// The call drains the past events (unless they are kept for replay),
    /// promotes every ready event that starts inside the block, retires
    /// every active event that has expired by the start of the block, and
    /// moves time to the end of the block. The returned plan holds one
    /// directive per surviving event that covers at least one sample of the
    /// block.
    #[verifier::rlimit(100)]
    pub fn process(&mut self, size: usize) -> (plan: BlockPlan)
        requires
            old(self).wf(),
            old(self).time + size <= i64::MAX,
        ensures
            final(self).wf(),
            final(self).time == old(self).time + size,
            final(self).active_threshold == final(self).time,
            old(self).same_config(*final(self)),
            final(self).ready@ == kept_spec(old(self).ready@, old(self).time + size),
            edits_after_promotion(
                old(self).edit_map@,
                old(self).ready@,
                old(self).time + size,
                final(self).edit_map@,
            ),
            ({
                let t0 = old(self).time as int;
                let a1 = old(self).active@ + promoted_spec(
                    old(self).ready@,
                    old(self).edit_map@,
                    t0 + size,
                );
                let p1 = if old(self).replay_events {
                    old(self).past@
                } else {
                    Seq::<Event>::empty()
                };
                &&& retire_frame(
                    final(self).active@,
                    final(self).past@,
                    a1,
                    p1,
                    final(self).active@.len() as int,
                    t0,
                )
                &&& plan.time0 == old(self).time
                &&& plan.size == size
                &&& ops_events(plan.ops@) == rendered_spec(final(self).active@, t0, size as int)
                &&& (forall|p: int|
                    0 <= p < plan.ops@.len() ==> {
                        let op = #[trigger] plan.ops@[p];
                        &&& op.start_index as int == start_index_spec(op.event, t0, size as int)
                        &&& op.end_index as int == end_index_spec(op.event, t0, size as int)
                        &&& op.start_index < op.end_index
                    })
            }),
    {
        if !self.replay_events {
            self.past.clear();
        }
        let t0 = self.time;
        let end_time = t0 + size as i64;
        self.ready_to_active(end_time);
        let ghost a1 = self.active@;
        let ghost p1 = self.past@;
        let ghost mid = *self;
        let mut i: usize = 0;
        proof {
            assert(self.past@.take(p1.len() as int) =~= p1);
        }
        while i < self.active.len()
            invariant
                self.wf_core(),
                self.active_threshold == end_time,
                self.time == t0,
                0 <= t0,
                t0 as int + size as int == end_time as int,
                self.ready@ == mid.ready@,
                self.edit_map@ == mid.edit_map@,
                mid.same_config(*self),
                a1 == mid.active@,
                p1 == mid.past@,
                retire_frame(self.active@, self.past@, a1, p1, i as int, t0 as int),
            decreases self.active@.len() - i,
        {
            let ev = self.active[i];
            if ev.end_time <= t0 {
                let ghost a_pre = self.active@;
                let ghost m_pre = self.active_map@;
                let ghost past_pre = self.past@;
                self.active_map.remove(&ev.id.0);
                let last_pos = self.active.len() - 1;
                if i < last_pos {
                    let last_id = self.active[last_pos].id.0;
                    self.active_map.insert(last_id, i);
                }
                let removed = self.active.swap_remove(i);
                self.past.push(removed);
                proof {
                    lemma_retire_step(a_pre, m_pre, self.active@, self.active_map@, i as int);
                    lemma_retire_frame_step(
                        a_pre,
                        self.active@,
                        past_pre,
                        self.past@,
                        a1,
                        p1,
                        i as int,
                        t0 as int,
                    );
                }
            } else {
                i = i + 1;
            }
        }
        let ghost af = self.active@;
        let mut ops: Vec<BlockOp> = Vec::new();
        let mut j: usize = 0;
        let ghost settled = *self;
        proof {
            assert(af.take(0) =~= Seq::<Event>::empty());
            assert(ops_events(ops@) =~= rendered_spec(af.take(0), t0 as int, size as int));
        }
        while j < self.active.len()
            invariant
                *self == settled,
                af == settled.active@,
                settled.wf_core(),
                settled.active_threshold == end_time,
                settled.time == t0,
                0 <= t0,
                t0 as int + size as int == end_time as int,
                0 <= j <= af.len(),
                forall|k: int| 0 <= k < af.len() ==> !(#[trigger] af[k]).expires(t0 as int),
                ops_events(ops@) == rendered_spec(af.take(j as int), t0 as int, size as int),
                forall|p: int|
                    0 <= p < ops@.len() ==> {
                        let op = #[trigger] ops@[p];
                        &&& op.start_index as int == start_index_spec(
                            op.event,
                            t0 as int,
                            size as int,
                        )
                        &&& op.end_index as int == end_index_spec(op.event, t0 as int, size as int)
                        &&& op.start_index < op.end_index
                    },
            decreases af.len() - j,
        {
            let ev = self.active[j];
            proof {
                assert(ev.promotes(self.active_threshold as int));
                assert(!ev.expires(t0 as int));
                assert(af.take(j as int + 1).drop_last() =~= af.take(j as int));
                assert(af.take(j as int + 1).last() == af[j as int]);
            }
            let start_index: usize = if ev.start_time <= t0 {
                0
            } else {
                (ev.start_time - t0) as usize
            };
            let end_index: usize = if ev.end_time >= end_time {
                size
            } else {
                (ev.end_time - t0) as usize
            };
            proof {
                assert(start_index as int == start_index_spec(ev, t0 as int, size as int));
                assert(end_index as int == end_index_spec(ev, t0 as int, size as int));
            }
            if end_index > start_index {
                let ghost ops_pre = ops@;
                ops.push(BlockOp { event: ev, start_index, end_index });
                proof {
                    assert(ops@.drop_last() =~= ops_pre);
                    assert(ops@.last() == (BlockOp { event: ev, start_index, end_index }));
                }
            }
            j = j + 1;
        }
        proof {
            assert(af.take(af.len() as int) =~= af);
        }
        self.time = end_time;
        BlockPlan { time0: t0, size, ops }
    }
}

/// Whether the fade in of `e` is still in progress at sample `t`: the event
/// has a fade in and the fade phase `(t - start) / fade_in` is below one.
pub open spec fn has_fade_in(e: Event, t: int) -> bool {
    e.fade_in > 0 && t - e.start_time < e.fade_in
}

/// Whether the fade out of `e` has begun by sample `t`: the event has a
/// fade out and the fade phase `(t - (end - fade_out)) / fade_out` is above
/// zero.
pub open spec fn has_fade_out(e: Event, t: int) -> bool {
    e.fade_out > 0 && t > e.end_time - e.fade_out
}

/// The fade-in phase of `e` at sample `t` as an exact rational
/// `numerator / denominator`, or `None` when the fade in is over or absent.
/// The gain to apply is the fade curve read at this phase.
pub fn fade_in_phase(e: &Event, t: i64) -> (r: Option<(i128, i128)>)
    ensures
        match r {
            Some(ph) => has_fade_in(*e, t as int) && ph.0 as int == t - e.start_time && ph.1 as int
                == e.fade_in,
            None => !has_fade_in(*e, t as int),
        },
{
    let num: i128 = t as i128 - e.start_time as i128;
    if e.fade_in > 0 && num < e.fade_in as i128 {
        Some((num, e.fade_in as i128))
    } else {
        None
    }
}

/// The fade-out phase of `e` at sample `t` as an exact rational
/// `numerator / denominator`, or `None` when the fade out has not begun or
/// is absent. The gain to apply is the fade curve read at one minus this
/// phase.
pub fn fade_out_phase(e: &Event, t: i64) -> (r: Option<(i128, i128)>)
    ensures
        match r {
            Some(ph) => has_fade_out(*e, t as int) && ph.0 as int == t - (e.end_time
                - e.fade_out) && ph.1 as int == e.fade_out,
            None => !has_fade_out(*e, t as int),
        },
{
    let num: i128 = t as i128 - (e.end_time as i128 - e.fade_out as i128);
    if e.fade_out > 0 && num > 0 {
        Some((num, e.fade_out as i128))
    } else {
        None
    }
}

/// One directive of a tick plan: render one frame of the event's unit,
/// scale it by the fade gains at the given phases, and sum it into the
/// output frame.
#[derive(Clone, Copy, Debug)]
pub struct TickOp {
    /// The event to render, as scheduled (edits applied).
    pub event: Event,
    /// Fade-in phase at this sample, if the fade in is in progress.
    pub fade_in_phase: Option<(i128, i128)>,
    /// Fade-out phase at this sample, if the fade out has begun.
    pub fade_out_phase: Option<(i128, i128)>,
}

/// Everything the rendering layer must do for one frame.
#[derive(Clone, Debug)]
pub struct TickPlan {
    /// Time, in samples, of the frame.
    pub time0: i64,
    /// The events rendered in this frame, one directive each.
    pub ops: Vec<TickOp>,
}

/// The phases of a tick directive are exactly the event's fade phases at
/// sample `t`.
pub open spec fn tick_op_wf(op: TickOp, t: int) -> bool {
    &&& (match op.fade_in_phase {
        Some(ph) => has_fade_in(op.event, t) && ph.0 as int == t - op.event.start_time
            && ph.1 as int == op.event.fade_in,
        None => !has_fade_in(op.event, t),
    })
    &&& (match op.fade_out_phase {
        Some(ph) => has_fade_out(op.event, t) && ph.0 as int == t - (op.event.end_time
            - op.event.fade_out) && ph.1 as int == op.event.fade_out,
        None => !has_fade_out(op.event, t),
    })
}

/// The events of a sequence of tick directives, in order.
pub open spec fn tick_events(s: Seq<TickOp>) -> Seq<Event>
    decreases s.len(),
{
    if s.len() == 0 {
        Seq::empty()
    } else {
        tick_events(s.drop_last()).push(s.last().event)
    }
}

/// Over a block of one sample, every surviving active event renders: one
/// whole sample lies between the retirement cut at `t0` and the promotion
/// cut at `t0 + 1`.
proof fn lemma_rendered_all(a: Seq<Event>, t0: int)
    requires
        forall|j: int|
            0 <= j < a.len() ==> !(#[trigger] a[j]).expires(t0) && a[j].promotes(t0 + 1),
    ensures
        rendered_spec(a, t0, 1) == a,
    decreases a.len(),
{
    if a.len() > 0 {
        let prior = a.drop_last();
        assert forall|j: int|
            0 <= j < prior.len() implies !(#[trigger] prior[j]).expires(t0) && prior[j].promotes(
            t0 + 1,
        ) by {
            assert(prior[j] == a[j]);
        }
        lemma_rendered_all(prior, t0);
        assert(a[a.len() - 1] == a.last());
        assert(renders(a.last(), t0, 1));
        assert(prior.push(a.last()) =~= a);
    }
}

impl Sequencer {
    /// Advance the schedule by one sample and describe the frame's work:
    /// one directive per surviving active event, with the exact fade phases
    /// to apply at this sample.
    pub fn tick(&mut self) -> (plan: TickPlan)
        requires
            old(self).wf(),
            old(self).time < i64::MAX,
        ensures
            final(self).wf(),
            final(self).time == old(self).time + 1,
            final(self).active_threshold == final(self).time,
            old(self).same_config(*final(self)),
            final(self).ready@ == kept_spec(old(self).ready@, old(self).time + 1),
            edits_after_promotion(
                old(self).edit_map@,
                old(self).ready@,
                old(self).time + 1,
                final(self).edit_map@,
            ),
            ({
                let t0 = old(self).time as int;
                let a1 = old(self).active@ + promoted_spec(
                    old(self).ready@,
                    old(self).edit_map@,
                    t0 + 1,
                );
                let p1 = if old(self).replay_events {
                    old(self).past@
                } else {
                    Seq::<Event>::empty()
                };
                &&& retire_frame(
                    final(self).active@,
                    final(self).past@,
                    a1,
                    p1,
                    final(self).active@.len() as int,
                    t0,
                )
                &&& plan.time0 == old(self).time
                &&& tick_events(plan.ops@) == final(self).active@
                &&& (forall|p: int|
                    0 <= p < plan.ops@.len() ==> tick_op_wf(#[trigger] plan.ops@[p], t0))
            }),
    {
        let block = self.process(1);
        proof {
            assert forall|j: int|
                0 <= j < self.active@.len() implies !(#[trigger] self.active@[j]).expires(
                block.time0 as int,
            ) && self.active@[j].promotes(block.time0 as int + 1) by {
                assert(self.active@[j].promotes(self.active_threshold as int));
            }
            lemma_rendered_all(self.active@, block.time0 as int);
        }
        let mut ops: Vec<TickOp> = Vec::new();
        let mut k: usize = 0;
        proof {
            assert(block.ops@.take(0) =~= Seq::<BlockOp>::empty());
            assert(tick_events(ops@) =~= ops_events(block.ops@.take(0)));
        }
        while k < block.ops.len()
            invariant
                0 <= k <= block.ops@.len(),
                tick_events(ops@) == ops_events(block.ops@.take(k as int)),
                forall|p: int|
                    0 <= p < ops@.len() ==> tick_op_wf(#[trigger] ops@[p], block.time0 as int),
            decreases block.ops@.len() - k,
        {
            let op = block.ops[k];
            let fade_in = fade_in_phase(&op.event, block.time0);
            let fade_out = fade_out_phase(&op.event, block.time0);
            let ghost ops_pre = ops@;
            ops.push(TickOp { event: op.event, fade_in_phase: fade_in, fade_out_phase: fade_out });
            proof {
                assert(ops@.drop_last() =~= ops_pre);
                assert(block.ops@.take(k as int + 1).drop_last() =~= block.ops@.take(k as int));
                assert(block.ops@.take(k as int + 1).last() == block.ops@[k as int]);
            }
            k = k + 1;
        }
        proof {
            assert(block.ops@.take(block.ops@.len() as int) =~= block.ops@);
        }
        TickPlan { time0: block.time0, ops }
    }
}

/// Relation between the schedule before and after an edit is applied
/// directly (not forwarded to a backend): an active target is shortened in
/// place, a future target's edit is remembered, a past target is ignored.
pub open spec fn edit_applied_local(
    pre: Sequencer,
    post: Sequencer,
    id: EventId,
    edit: Edit,
) -> bool {
    if pre.active_map@.contains_key(id.0) {
        let i = pre.active_map@[id.0] as int;
        &&& post.active@ == pre.active@.update(
            i,
            (Event { end_time: edit.end_time, fade_out: edit.fade_out, ..pre.active@[i] }),
        )
        &&& post.active_map@ == pre.active_map@
        &&& post.ready == pre.ready
        &&& post.past == pre.past
        &&& post.edit_map == pre.edit_map
        &&& post.active_threshold == pre.active_threshold
        &&& post.time == pre.time
        &&& pre.same_config(post)
    } else if edit.end_time < pre.active_threshold {
        post == pre
    } else {
        &&& post.edit_map@ == pre.edit_map@.insert(id.0, edit)
        &&& post.active == pre.active
        &&& post.active_map == pre.active_map
        &&& post.ready == pre.ready
        &&& post.past == pre.past
        &&& post.active_threshold == pre.active_threshold
        &&& post.time == pre.time
        &&& pre.same_config(post)
    }
}

/// Rewriting the end time and fade out of the event at `i` leaves every
/// identifier and start time in place, so the map correspondence and all
/// identifier facts survive.
proof fn lemma_edit_update(a0: Seq<Event>, m: Map<u64, usize>, i: int, e2: Event)
    requires
        map_matches(a0, m),
        unique_ids(a0),
        0 <= i < a0.len(),
        e2.id == a0[i].id,
        e2.start_time == a0[i].start_time,
    ensures
        map_matches(a0.update(i, e2), m),
        unique_ids(a0.update(i, e2)),
        forall|j: int|
            0 <= j < a0.len() ==> (#[trigger] a0.update(i, e2)[j]).id == a0[j].id && a0.update(
                i,
                e2,
            )[j].start_time == a0[j].start_time,
{
    let a1 = a0.update(i, e2);
    assert forall|j: int|
        0 <= j < a0.len() implies (#[trigger] a1[j]).id == a0[j].id && a1[j].start_time
        == a0[j].start_time by {
        if j != i {
            assert(a1[j] == a0[j]);
        }
    }
    assert forall|j: int|
        0 <= j < a1.len() implies m.contains_key(#[trigger] a1[j].id.0) && m[a1[j].id.0] == j by {
        assert(a1[j].id == a0[j].id);
    }
    assert forall|k: u64| #[trigger]
        m.contains_key(k) implies m[k] < a1.len() && a1[m[k] as int].id.0 == k by {
        assert(a1[m[k] as int].id == a0[m[k] as int].id);
    }
}

impl Sequencer {
    /// Apply an edit to the local schedule: shorten the active target in
    /// place, remember the edit for a future target, drop it for a past one.
    pub(crate) fn apply_edit_now(&mut self, id: EventId, end_time: i64, fade_out_time: i64)
        requires
            old(self).wf_core(),
        ensures
            final(self).wf_core(),
            edit_applied_local(
                *old(self),
                *final(self),
                id,
                (Edit { end_time, fade_out: fade_out_time }),
            ),
    {
        let entry = match self.active_map.get(&id.0) {
            Some(i) => Some(*i),
            None => None,
        };
        match entry {
            Some(i) => {
                let mut ev = self.active[i];
                ev.end_time = end_time;
                ev.fade_out = fade_out_time;
                proof {
                    lemma_edit_update(self.active@, self.active_map@, i as int, ev);
                }
                self.active.set(i, ev);
            },
            None => {
                if end_time < self.active_threshold {
                } else {
                    self.edit_map.insert(id.0, Edit { end_time, fade_out: fade_out_time });
                }
            },
        }
    }

    /// Make a change to an existing event. Only the end time and fade out
    /// of the event may be changed; the new end time should only shorten
    /// the event. Edits are intended for events whose final length was
    /// unknown when pushed: the original end time can be `i64::MAX`. An
    /// edit whose target has already expired is silently dropped.
    pub fn edit(&mut self, id: EventId, end_time: i64, fade_out_time: i64)
        requires
            old(self).wf(),
        ensures
            final(self).wf(),
            old(self).front is Some ==> *final(self) == *old(self),
            old(self).front is None ==> edit_applied_local(
                *old(self),
                *final(self),
                id,
                (Edit { end_time, fade_out: fade_out_time }),
            ),
    {
        if self.front.is_some() {
            let link = self.front.as_ref().unwrap();
            link.drain_returns();
            link.send(Message::Edit(id, Edit { end_time, fade_out: fade_out_time }));
        } else {
            self.apply_edit_now(id, end_time, fade_out_time);
        }
    }

    /// Make a change to an existing event, with the new end time relative
    /// to the current time. The event starts fading out immediately when
    /// the end time equals the fade out time. On a frontend, "now" is the
    /// backend's time when the message is consumed.
    pub fn edit_relative(&mut self, id: EventId, end_time: i64, fade_out_time: i64)
        requires
            old(self).wf(),
        ensures
            final(self).wf(),
            old(self).front is Some ==> *final(self) == *old(self),
            old(self).front is None ==> edit_applied_local(
                *old(self),
                *final(self),
                id,
                (Edit {
                    end_time: sat_add_spec(old(self).time as int, end_time as int) as i64,
                    fade_out: fade_out_time,
                }),
            ),
    {
        if self.front.is_some() {
            let link = self.front.as_ref().unwrap();
            link.drain_returns();
            link.send(Message::EditRelative(id, Edit { end_time, fade_out: fade_out_time }));
        } else {
            let absolute_end = sat_add(self.time, end_time);
            self.apply_edit_now(id, absolute_end, fade_out_time);
        }
    }
}

/// Concatenating two id-disjoint schedules with distinct, bounded
/// identifiers yields one with distinct, bounded identifiers.
proof fn lemma_schedule_concat(a: Seq<Event>, b: Seq<Event>, n: u64)
    requires
        unique_ids(a),
        unique_ids(b),
        ids_disjoint(a, b),
        ids_below(a, n),
        ids_below(b, n),
    ensures
        unique_ids(a + b),
        ids_below(a + b, n),
{
    let c = a + b;
    assert forall|i: int, j: int|
        0 <= i < j < c.len() implies (#[trigger] c[i]).id != (#[trigger] c[j]).id by {
        if j < a.len() {
            assert(c[i] == a[i] && c[j] == a[j]);
        } else if i < a.len() {
            assert(c[i] == a[i] && c[j] == b[j - a.len()]);
        } else {
            assert(c[i] == b[i - a.len()] && c[j] == b[j - a.len()]);
        }
    }
    assert forall|i: int| 0 <= i < c.len() implies (#[trigger] c[i]).id.0 < n by {
        if i < a.len() {
            assert(c[i] == a[i]);
        } else {
            assert(c[i] == b[i - a.len()]);
        }
    }
}

/// A schedule disjoint from two others is disjoint from their concatenation.
proof fn lemma_disjoint_concat(a: Seq<Event>, b: Seq<Event>, c: Seq<Event>)
    requires
        ids_disjoint(a, c),
        ids_disjoint(b, c),
    ensures
        ids_disjoint(a + b, c),
{
    let ab = a + b;
    assert forall|i: int, j: int|
        0 <= i < ab.len() && 0 <= j < c.len() implies (#[trigger] ab[i]).id != (
        #[trigger] c[j]).id by {
        if i < a.len() {
            assert(ab[i] == a[i]);
        } else {
            assert(ab[i] == b[i - a.len()]);
        }
    }
}

impl Sequencer {
    /// Move every event, wherever it sits, back to the ready set, clearing
    /// the active map. Edits are kept.
    pub(crate) fn gather_to_ready(&mut self)
        requires
            old(self).wf_core(),
        ensures
            final(self).ready@ == old(self).ready@ + old(self).active@ + old(self).past@,
            unique_ids(final(self).ready@),
            ids_below(final(self).ready@, final(self).ids.next),
            final(self).active@.len() == 0,
            final(self).past@.len() == 0,
            final(self).active_map@ == Map::<u64, usize>::empty(),
            final(self).edit_map@ == old(self).edit_map@,
            final(self).time == old(self).time,
            final(self).active_threshold == old(self).active_threshold,
            old(self).same_config(*final(self)),
    {
        let ghost r0 = self.ready@;
        let ghost a0 = self.active@;
        let ghost p0 = self.past@;
        let mut k: usize = 0;
        proof {
            assert(r0 + a0.take(0) =~= r0);
        }
        while k < self.active.len()
            invariant
                0 <= k <= a0.len(),
                self.active@ == a0,
                self.ready@ == r0 + a0.take(k as int),
                self.past@ == p0,
                self.edit_map@ == old(self).edit_map@,
                self.active_map == old(self).active_map,
                self.time == old(self).time,
                self.active_threshold == old(self).active_threshold,
                old(self).same_config(*self),
            decreases a0.len() - k,
        {
            let ev = self.active[k];
            self.ready.push(ev);
            proof {
                assert(a0.take(k as int + 1).drop_last() =~= a0.take(k as int));
                assert((r0 + a0.take(k as int)).push(ev) =~= r0 + a0.take(k as int + 1));
            }
            k = k + 1;
        }
        proof {
            assert(a0.take(a0.len() as int) =~= a0);
        }
        self.active.clear();
        let mut k2: usize = 0;
        proof {
            assert((r0 + a0) + p0.take(0) =~= r0 + a0);
        }
        while k2 < self.past.len()
            invariant
                0 <= k2 <= p0.len(),
                self.past@ == p0,
                self.active@.len() == 0,
                self.ready@ == (r0 + a0) + p0.take(k2 as int),
                self.edit_map@ == old(self).edit_map@,
                self.active_map == old(self).active_map,
                self.time == old(self).time,
                self.active_threshold == old(self).active_threshold,
                old(self).same_config(*self),
            decreases p0.len() - k2,
        {
            let ev = self.past[k2];
            self.ready.push(ev);
            proof {
                assert(p0.take(k2 as int + 1).drop_last() =~= p0.take(k2 as int));
                assert(((r0 + a0) + p0.take(k2 as int)).push(ev) =~= (r0 + a0) + p0.take(
                    k2 as int + 1,
                ));
            }
            k2 = k2 + 1;
        }
        proof {
            assert(p0.take(p0.len() as int) =~= p0);
            assert((r0 + a0) + p0 =~= r0 + a0 + p0);
        }
        self.past.clear();
        self.active_map.clear();
        proof {
            lemma_schedule_concat(r0, a0, old(self).ids.next);
            lemma_disjoint_concat(r0, a0, p0);
            lemma_schedule_concat(r0 + a0, p0, old(self).ids.next);
        }
    }

    /// Reset the sequencer to time zero. If events are replayed, every
    /// event returns to the ready set (as last played, edits included) and
    /// pending edits stay; otherwise the whole schedule is cleared.
    pub fn reset(&mut self)
        requires
            old(self).wf(),
        ensures
            final(self).wf(),
            final(self).time == 0,
            final(self).active_threshold == i64::MIN,
            final(self).active@.len() == 0,
            final(self).past@.len() == 0,
            final(self).active_map@ == Map::<u64, usize>::empty(),
            old(self).same_config(*final(self)),
            old(self).replay_events ==> final(self).ready@ == old(self).ready@ + old(self).active@
                + old(self).past@ && final(self).edit_map@ == old(self).edit_map@,
            !old(self).replay_events ==> final(self).ready@.len() == 0 && final(self).edit_map@
                == Map::<u64, Edit>::empty(),
    {
        if self.replay_events {
            self.gather_to_ready();
        } else {
            self.ready.clear();
            self.active.clear();
            self.past.clear();
            self.edit_map.clear();
            self.active_map.clear();
        }
        self.time = 0;
        self.active_threshold = i64::MIN;
    }

    /// Set the sample rate, in Hz. On a change, every event returns to the
    /// ready set and the promotion threshold is rewound, so the schedule
    /// replays against the new rate; times in samples are not rescaled.
    pub fn set_sample_rate(&mut self, sample_rate: u64)
        requires
            old(self).wf(),
        ensures
            final(self).wf(),
            final(self).sample_rate == sample_rate,
            sample_rate == old(self).sample_rate ==> *final(self) == *old(self),
            sample_rate != old(self).sample_rate ==> {
                &&& final(self).ready@ == old(self).ready@ + old(self).active@ + old(self).past@
                &&& final(self).active@.len() == 0
                &&& final(self).past@.len() == 0
                &&& final(self).active_map@ == Map::<u64, usize>::empty()
                &&& final(self).edit_map@ == old(self).edit_map@
                &&& final(self).time == old(self).time
                &&& final(self).active_threshold == i64::MIN
                &&& final(self).outputs == old(self).outputs
                &&& final(self).replay_events == old(self).replay_events
                &&& final(self).ids == old(self).ids
                &&& final(self).front == old(self).front
            },
    {
        if sample_rate != self.sample_rate {
            self.sample_rate = sample_rate;
            self.gather_to_ready();
            self.active_threshold = i64::MIN;
        }
    }
}

/// Copy a vector of events element by element.
fn copy_events(v: &Vec<Event>) -> (r: Vec<Event>)
    ensures
        r@ == v@,
{
    let mut r: Vec<Event> = Vec::new();
    let mut k: usize = 0;
    proof {
        assert(v@.take(0) =~= Seq::<Event>::empty());
    }
    while k < v.len()
        invariant
            0 <= k <= v@.len(),
            r@ == v@.take(k as int),
        decreases v@.len() - k,
    {
        r.push(v[k]);
        proof {
            assert(v@.take(k as int + 1).drop_last() =~= v@.take(k as int));
        }
        k = k + 1;
    }
    proof {
        assert(v@.take(v@.len() as int) =~= v@);
    }
    r
}

impl Sequencer {
    /// Create a real-time friendly backend for this sequencer. This
    /// sequencer is then the frontend, and changes made here are forwarded
    /// over a bounded queue and applied by the backend before its next
    /// block. The backend starts from the current state of the schedule.
    /// This can be called only once for a sequencer.
    pub fn backend(&mut self) -> (r: SequencerBackend)
        requires
            old(self).wf(),
            old(self).front is None,
        ensures
            final(self).wf(),
            final(self).front is Some,
            final(self).active@ == old(self).active@,
            final(self).active_map@ == old(self).active_map@,
            final(self).ready@ == old(self).ready@,
            final(self).past@ == old(self).past@,
            final(self).edit_map@ == old(self).edit_map@,
            final(self).time == old(self).time,
            final(self).active_threshold == old(self).active_threshold,
            final(self).ids == old(self).ids,
            final(self).outputs == old(self).outputs,
            final(self).sample_rate == old(self).sample_rate,
            final(self).replay_events == old(self).replay_events,
            r.seq.wf(),
            r.seq.front is None,
            r.seq.active@ == old(self).active@,
            r.seq.active_map@ == old(self).active_map@,
            r.seq.ready@ == old(self).ready@,
            r.seq.past@ == old(self).past@,
            r.seq.edit_map@ == old(self).edit_map@,
            r.seq.time == old(self).time,
            r.seq.active_threshold == old(self).active_threshold,
            r.seq.ids == old(self).ids,
            r.seq.outputs == old(self).outputs,
            r.seq.sample_rate == old(self).sample_rate,
            r.seq.replay_events == old(self).replay_events,
    {
        let (front_link, back_link) = crate::backend::make_links(crate::backend::CHANNEL_CAPACITY);
        let backend_seq = Sequencer {
            active: copy_events(&self.active),
            active_map: self.active_map.clone(),
            active_threshold: self.active_threshold,
            ready: copy_events(&self.ready),
            past: copy_events(&self.past),
            edit_map: self.edit_map.clone(),
            outputs: self.outputs,
            time: self.time,
            sample_rate: self.sample_rate,
            ids: self.ids,
            front: None,
            replay_events: self.replay_events,
        };
        self.front = Some(front_link);
        SequencerBackend::assemble(back_link, backend_seq)
    }
}

/// The active map is exact: every active event's id maps to its own index,
/// and no two keys of the map point at the same index.
pub proof fn lemma_active_map_exact(s: Sequencer)
    requires
        s.wf(),
    ensures
        forall|i: int|
            0 <= i < s.active@.len() ==> s.active_map@.contains_key(
                (#[trigger] s.active@[i]).id.0,
            ) && s.active_map@[s.active@[i].id.0] == i,
        forall|k1: u64, k2: u64|
            #[trigger] s.active_map@.contains_key(k1) && #[trigger] s.active_map@.contains_key(k2)
                && k1 != k2 ==> s.active_map@[k1] != s.active_map@[k2],
{
    assert forall|k1: u64, k2: u64|
        #[trigger] s.active_map@.contains_key(k1) && #[trigger] s.active_map@.contains_key(k2)
            && k1 != k2 implies s.active_map@[k1] != s.active_map@[k2] by {
        assert(s.active@[s.active_map@[k1] as int].id.0 == k1);
        assert(s.active@[s.active_map@[k2] as int].id.0 == k2);
    }
}

/// Event identifiers are unique across the whole schedule: no id occurs
/// twice over the ready, active and past collections together.
pub proof fn lemma_event_ids_unique(s: Sequencer)
    requires
        s.wf(),
    ensures
        unique_ids(s.ready@ + s.active@ + s.past@),
{
    lemma_schedule_concat(s.ready@, s.active@, s.ids.next);
    lemma_disjoint_concat(s.ready@, s.active@, s.past@);
    lemma_schedule_concat(s.ready@ + s.active@, s.past@, s.ids.next);
}

/// An identifier at or above the mint counter is fresh: it occurs nowhere
/// in the schedule. In particular each pushed event's id is new.
pub proof fn lemma_minted_id_fresh(s: Sequencer, id: EventId)
    requires
        s.wf(),
        id.0 >= s.ids.next,
    ensures
        s.fresh_id(id),
{
    assert forall|i: int| 0 <= i < s.ready@.len() implies (#[trigger] s.ready@[i]).id != id by {
        assert(s.ready@[i].id.0 < s.ids.next);
    }
    assert forall|i: int| 0 <= i < s.active@.len() implies (#[trigger] s.active@[i]).id != id by {
        assert(s.active@[i].id.0 < s.ids.next);
    }
    assert forall|i: int| 0 <= i < s.past@.len() implies (#[trigger] s.past@[i]).id != id by {
        assert(s.past@[i].id.0 < s.ids.next);
    }
}

/// An event whose start equals its end covers no sample of any block: it
/// produces no output and can only move to the past list.
pub proof fn lemma_degenerate_event_silent(e: Event, t0: int, n: int)
    requires
        e.start_time == e.end_time,
    ensures
        !renders(e, t0, n),
{
}

/// A degenerate event never appears in a block plan: the rendered events
/// of any active set all cover at least one sample.
pub proof fn lemma_degenerate_never_planned(active: Seq<Event>, t0: int, n: int, e: Event)
    requires
        e.start_time == e.end_time,
    ensures
        !rendered_spec(active, t0, n).contains(e),
{
    lemma_rendered_sound(active, t0, n);
    if rendered_spec(active, t0, n).contains(e) {
        let q = choose|q: int|
            0 <= q < rendered_spec(active, t0, n).len() && rendered_spec(active, t0, n)[q] == e;
        assert(renders(rendered_spec(active, t0, n)[q], t0, n));
    }
}

/// A no-sustain event (fade in plus fade out equal to its duration) wears
/// a continuous crossfade envelope: at every sample of its span exactly
/// one fade is in progress, except the single junction sample, where the
/// fade-in phase reaches one and the fade-out phase starts at zero, both
/// of which read a gain of one.
pub proof fn lemma_crossfade_partition(e: Event, t: int)
    requires
        e.fade_in > 0,
        e.fade_out > 0,
        e.fade_in + e.fade_out == e.end_time - e.start_time,
        e.start_time <= t < e.end_time,
    ensures
        has_fade_in(e, t) <==> t < e.start_time + e.fade_in,
        has_fade_out(e, t) <==> t > e.start_time + e.fade_in,
        !(has_fade_in(e, t) && has_fade_out(e, t)),
        has_fade_in(e, t) || has_fade_out(e, t) || t == e.start_time + e.fade_in,
{
}

/// An event without fades renders at unit gain: no sample of it lies in a
/// fade, so the mix carries the unit's own output unchanged.
pub proof fn lemma_no_fades_identity_gain(e: Event, t: int)
    requires
        e.fade_in <= 0,
        e.fade_out <= 0,
    ensures
        !has_fade_in(e, t),
        !has_fade_out(e, t),
{
}

/// When one event's fade out coincides exactly with another's fade in,
/// the two fades run on the same phase at every sample: the rationals the
/// rendering layer reads the two curves at are equal. For the equal-power
/// curve the two gains then sum to constant power.
pub proof fn lemma_coincident_crossfade_phases(a: Event, b: Event, t: int)
    requires
        a.fade_out > 0,
        a.fade_out == b.fade_in,
        a.end_time - a.fade_out == b.start_time,
    ensures
        has_fade_out(a, t) <==> t > b.start_time,
        has_fade_in(b, t) <==> t - b.start_time < b.fade_in,
        t - (a.end_time - a.fade_out) == t - b.start_time,
{
}

} // verus!
