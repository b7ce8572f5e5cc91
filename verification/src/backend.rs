//! The real-time friendly backend of a sequencer and the bounded queues
//! that connect it to its frontend.
//!
//! A frontend owns the control-thread half: it mints events and sends them,
//! and pending edits, over a bounded single-producer single-consumer queue.
//! The backend consumes the messages before each block, schedules with the
//! same rules as a standalone sequencer, and returns expired events over a
//! second queue so that the control thread frees them.

use crate::event::{Edit, Event, EventId, IdSource};
use crate::sequencer::{
    edit_applied_local, end_index_spec, ops_events, rendered_spec, sat_add, sat_add_spec,
    start_index_spec, tick_events, tick_op_wf, BlockPlan, Sequencer, TickPlan,
};
use thingbuf::mpsc::blocking::{Receiver, Sender};
use thingbuf::recycling::DefaultRecycle;
use vstd::prelude::*;

verus! {

/// Capacity, in slots, of each queue between a frontend and its backend:
/// large enough that a full queue marks a control thread far ahead of real
/// time, not normal operation.
pub const CHANNEL_CAPACITY: usize = 16384;

/// A message from the frontend to the backend.
#[derive(Clone, Copy, Debug)]
pub enum Message {
    /// Schedule an event with absolute times.
    Push(Event),
    /// Schedule an event whose times are relative to the backend's time
    /// when the message is consumed.
    PushRelative(Event),
    /// Shorten an event: a new absolute end time and fade out.
    Edit(EventId, Edit),
    /// Shorten an event: the new end time is relative to the backend's time
    /// when the message is consumed.
    EditRelative(EventId, Edit),
}

impl Default for Message {
    /// The queue's placeholder value; it never reaches the scheduler.
    fn default() -> (r: Self)
        ensures
            r == Message::Edit(EventId(0), (Edit { end_time: 0, fade_out: 0 })),
    {
        Message::Edit(EventId(0), Edit { end_time: 0, fade_out: 0 })
    }
}

#[verifier::external_type_specification]
#[verifier::external_body]
pub struct ExDefaultRecycle(DefaultRecycle);

#[verifier::external_type_specification]
#[verifier::external_body]
#[verifier::reject_recursive_types(T)]
#[verifier::reject_recursive_types(R)]
pub struct ExSender<T, R>(Sender<T, R>);

#[verifier::external_type_specification]
#[verifier::external_body]
#[verifier::reject_recursive_types(T)]
#[verifier::reject_recursive_types(R)]
pub struct ExReceiver<T, R>(Receiver<T, R>);

/// Relies on thingbuf's `mpsc::blocking::channel`: returns the two endpoints
/// of a bounded queue of `capacity` message slots.
#[verifier::external_body]
fn message_channel(capacity: usize) -> (r: (
    Sender<Message, DefaultRecycle>,
    Receiver<Message, DefaultRecycle>,
))
    requires
        capacity > 0,
{
    thingbuf::mpsc::blocking::channel(capacity)
}

/// Relies on thingbuf's `mpsc::blocking::channel`: returns the two endpoints
/// of a bounded queue of `capacity` event slots.
#[verifier::external_body]
fn event_channel(capacity: usize) -> (r: (
    Sender<Event, DefaultRecycle>,
    Receiver<Event, DefaultRecycle>,
))
    requires
        capacity > 0,
{
    thingbuf::mpsc::blocking::channel(capacity)
}

/// Relies on thingbuf's `Sender::try_send`: the message is queued and `true`
/// returned, or the queue is full or closed and `false` returned without
/// blocking.
#[verifier::external_body]
fn message_try_send(sender: &Sender<Message, DefaultRecycle>, message: Message) -> (accepted: bool)
{
    sender.try_send(message).is_ok()
}

/// Relies on thingbuf's `Receiver::try_recv`: the oldest queued message, or
/// `None` when the queue is empty or closed, without blocking.
#[verifier::external_body]
fn message_try_recv(receiver: &Receiver<Message, DefaultRecycle>) -> (r: Option<Message>) {
    receiver.try_recv().ok()
}

/// Relies on thingbuf's `Sender::try_send`: the event is queued and `true`
/// returned, or the queue is full or closed and `false` returned without
/// blocking.
#[verifier::external_body]
fn event_try_send(sender: &Sender<Event, DefaultRecycle>, event: Event) -> (accepted: bool) {
    sender.try_send(event).is_ok()
}

/// Relies on thingbuf's `Receiver::try_recv`: the oldest queued event, or
/// `None` when the queue is empty or closed, without blocking.
#[verifier::external_body]
fn event_try_recv(receiver: &Receiver<Event, DefaultRecycle>) -> (r: Option<Event>) {
    receiver.try_recv().ok()
}

/// The frontend's endpoints: messages out, expired events back in.
pub struct FrontLink {
    /// Control-to-audio message queue.
    pub sender: Sender<Message, DefaultRecycle>,
    /// Audio-to-control returns of expired events.
    pub receiver: Receiver<Event, DefaultRecycle>,
}

impl FrontLink {
    /// Send a message towards the backend; a full queue drops it.
    pub(crate) fn send(&self, message: Message) -> (accepted: bool) {
        message_try_send(&self.sender, message)
    }

    /// Drop the expired events the backend has returned so far, freeing
    /// whatever the rendering layer keyed to them. One pass over the queue's
    /// capacity empties it unless the backend is refilling it concurrently.
    pub(crate) fn drain_returns(&self) {
        let mut n: usize = 0;
        while n < CHANNEL_CAPACITY
            invariant
                n <= CHANNEL_CAPACITY,
            decreases CHANNEL_CAPACITY - n,
        {
            match event_try_recv(&self.receiver) {
                Some(_) => {
                    n = n + 1;
                },
                None => {
                    return;
                },
            }
        }
    }

    /// Receive one returned expired event, if any.
    pub fn recv_return(&self) -> (r: Option<Event>) {
        event_try_recv(&self.receiver)
    }
}

/// The backend's endpoints: messages in, expired events back out.
pub struct BackLink {
    /// Audio-to-control returns of expired events.
    pub sender: Sender<Event, DefaultRecycle>,
    /// Control-to-audio message queue.
    pub receiver: Receiver<Message, DefaultRecycle>,
}

impl BackLink {
    /// Receive one control message, if any.
    pub(crate) fn recv(&self) -> (r: Option<Message>) {
        message_try_recv(&self.receiver)
    }

    /// Return one expired event to the frontend; a full queue refuses it.
    pub(crate) fn send_return(&self, event: Event) -> (accepted: bool) {
        event_try_send(&self.sender, event)
    }
}

/// Create the two queues between a frontend and its backend.
pub(crate) fn make_links(capacity: usize) -> (r: (FrontLink, BackLink))
    requires
        capacity > 0,
{
    let (message_sender, message_receiver) = message_channel(capacity);
    let (event_sender, event_receiver) = event_channel(capacity);
    (
        FrontLink { sender: message_sender, receiver: event_receiver },
        BackLink { sender: event_sender, receiver: message_receiver },
    )
}

/// The audio-thread half of a split sequencer: it schedules and renders,
/// consuming control messages before each block and returning expired
/// events for the control thread to free.
pub struct SequencerBackend {
    /// Queue endpoints towards the frontend.
    pub link: BackLink,
    /// The schedule, advanced on the audio thread.
    pub seq: Sequencer,
}

impl SequencerBackend {
    /// Pair a backend with the queue endpoints it serves.
    pub(crate) fn assemble(link: BackLink, seq: Sequencer) -> (r: SequencerBackend)
        requires
            seq.wf(),
        ensures
            r.seq == seq,
    {
        SequencerBackend { link, seq }
    }
}

impl SequencerBackend {
    /// Apply one control message to the schedule. Events arriving over the
    /// queue carry identifiers the frontend minted above everything seen
    /// here; an identifier that is not fresh cannot come from the intended
    /// frontend and is dropped to keep identifiers unique.
    pub fn handle_message(&mut self, message: Message)
        requires
            old(self).seq.wf(),
            old(self).seq.front is None,
        ensures
            final(self).seq.wf(),
            final(self).seq.front is None,
            final(self).seq.time == old(self).seq.time,
            final(self).seq.active_threshold == old(self).seq.active_threshold,
            final(self).seq.outputs == old(self).seq.outputs,
            final(self).seq.sample_rate == old(self).seq.sample_rate,
            final(self).seq.replay_events == old(self).seq.replay_events,
            (match message {
                Message::Push(ev) => if ev.id.0 >= old(self).seq.ids.next && ev.id.0 < u64::MAX {
                    Sequencer::placed(
                        Sequencer {
                            ids: IdSource { next: (ev.id.0 + 1) as u64 },
                            ..old(self).seq
                        },
                        final(self).seq,
                        ev,
                    )
                } else {
                    final(self).seq == old(self).seq
                },
                Message::PushRelative(ev) => if ev.id.0 >= old(self).seq.ids.next && ev.id.0
                    < u64::MAX {
                    Sequencer::placed(
                        Sequencer {
                            ids: IdSource { next: (ev.id.0 + 1) as u64 },
                            ..old(self).seq
                        },
                        final(self).seq,
                        (Event {
                            start_time: sat_add_spec(
                                old(self).seq.time as int,
                                ev.start_time as int,
                            ) as i64,
                            end_time: sat_add_spec(
                                old(self).seq.time as int,
                                ev.end_time as int,
                            ) as i64,
                            ..ev
                        }),
                    )
                } else {
                    final(self).seq == old(self).seq
                },
                Message::Edit(id, edit) => edit_applied_local(
                    old(self).seq,
                    final(self).seq,
                    id,
                    edit,
                ),
                Message::EditRelative(id, edit) => edit_applied_local(
                    old(self).seq,
                    final(self).seq,
                    id,
                    (Edit {
                        end_time: sat_add_spec(
                            old(self).seq.time as int,
                            edit.end_time as int,
                        ) as i64,
                        fade_out: edit.fade_out,
                    }),
                ),
            }),
    {
        match message {
            Message::Push(event) => {
                if event.id.0 >= self.seq.ids.next && event.id.0 < u64::MAX {
                    self.seq.ids.next = event.id.0 + 1;
                    proof {
                        lemma_fresh_above(old(self).seq, self.seq, event);
                    }
                    self.seq.push_event(event);
                }
            },
            Message::PushRelative(event) => {
                if event.id.0 >= self.seq.ids.next && event.id.0 < u64::MAX {
                    self.seq.ids.next = event.id.0 + 1;
                    proof {
                        lemma_fresh_above(old(self).seq, self.seq, event);
                    }
                    self.seq.push_relative_event(event);
                }
            },
            Message::Edit(id, edit) => {
                self.seq.apply_edit_now(id, edit.end_time, edit.fade_out);
            },
            Message::EditRelative(id, edit) => {
                let absolute_end = sat_add(self.seq.time, edit.end_time);
                self.seq.apply_edit_now(id, absolute_end, edit.fade_out);
            },
        }
    }

    /// Consume the pending control messages, advance the schedule by one
    /// block of `size` samples, and return the expired events to the
    /// frontend unless they are kept for replay. Returns the block's
    /// rendering plan.
    pub fn process(&mut self, size: usize) -> (plan: BlockPlan)
        requires
            old(self).seq.wf(),
            old(self).seq.front is None,
            old(self).seq.time + size <= i64::MAX,
        ensures
            final(self).seq.wf(),
            final(self).seq.front is None,
            final(self).seq.time == old(self).seq.time + size,
            final(self).seq.outputs == old(self).seq.outputs,
            final(self).seq.sample_rate == old(self).seq.sample_rate,
            final(self).seq.replay_events == old(self).seq.replay_events,
            plan.time0 == old(self).seq.time,
            plan.size == size,
            ops_events(plan.ops@) == rendered_spec(
                final(self).seq.active@,
                old(self).seq.time as int,
                size as int,
            ),
            forall|p: int|
                0 <= p < plan.ops@.len() ==> {
                    let op = #[trigger] plan.ops@[p];
                    &&& op.start_index as int == start_index_spec(
                        op.event,
                        old(self).seq.time as int,
                        size as int,
                    )
                    &&& op.end_index as int == end_index_spec(
                        op.event,
                        old(self).seq.time as int,
                        size as int,
                    )
                    &&& op.start_index < op.end_index
                },
            forall|j: int|
                0 <= j < final(self).seq.active@.len() ==> !(#[trigger] final(self).seq.active@[j]).expires(
                    old(self).seq.time as int,
                ),
    {
        self.drain_messages();
        let plan = self.seq.process(size);
        self.return_past_events();
        plan
    }

    /// Consume the pending control messages, advance the schedule by one
    /// sample, and return the expired events to the frontend unless they
    /// are kept for replay. Returns the frame's rendering plan.
    pub fn tick(&mut self) -> (plan: TickPlan)
        requires
            old(self).seq.wf(),
            old(self).seq.front is None,
            old(self).seq.time < i64::MAX,
        ensures
            final(self).seq.wf(),
            final(self).seq.front is None,
            final(self).seq.time == old(self).seq.time + 1,
            final(self).seq.outputs == old(self).seq.outputs,
            final(self).seq.sample_rate == old(self).seq.sample_rate,
            final(self).seq.replay_events == old(self).seq.replay_events,
            plan.time0 == old(self).seq.time,
            tick_events(plan.ops@) == final(self).seq.active@,
            forall|p: int|
                0 <= p < plan.ops@.len() ==> tick_op_wf(
                    #[trigger] plan.ops@[p],
                    old(self).seq.time as int,
                ),
    {
        self.drain_messages();
        let plan = self.seq.tick();
        self.return_past_events();
        plan
    }

    /// Apply every message waiting in the control queue. One pass over the
    /// queue's capacity empties it unless the frontend is refilling it
    /// concurrently.
    fn drain_messages(&mut self)
        requires
            old(self).seq.wf(),
            old(self).seq.front is None,
        ensures
            final(self).seq.wf(),
            final(self).seq.front is None,
            final(self).seq.time == old(self).seq.time,
            final(self).seq.outputs == old(self).seq.outputs,
            final(self).seq.sample_rate == old(self).seq.sample_rate,
            final(self).seq.replay_events == old(self).seq.replay_events,
    {
        let mut n: usize = 0;
        while n < CHANNEL_CAPACITY
            invariant
                self.seq.wf(),
                self.seq.front is None,
                self.seq.time == old(self).seq.time,
                self.seq.outputs == old(self).seq.outputs,
                self.seq.sample_rate == old(self).seq.sample_rate,
                self.seq.replay_events == old(self).seq.replay_events,
                n <= CHANNEL_CAPACITY,
            decreases CHANNEL_CAPACITY - n,
        {
            let message = self.link.recv();
            match message {
                Some(message) => {
                    self.handle_message(message);
                    n = n + 1;
                },
                None => {
                    return;
                },
            }
        }
    }

    /// Send the expired events back to the frontend, which frees them off
    /// the audio thread. When the return queue fills, the rest stay in the
    /// past list for the next block; when events are kept for replay,
    /// nothing is sent.
    fn return_past_events(&mut self)
        requires
            old(self).seq.wf(),
            old(self).seq.front is None,
        ensures
            final(self).seq.wf(),
            final(self).seq.front is None,
            final(self).seq.time == old(self).seq.time,
            final(self).seq.active@ == old(self).seq.active@,
            final(self).seq.outputs == old(self).seq.outputs,
            final(self).seq.sample_rate == old(self).seq.sample_rate,
            final(self).seq.replay_events == old(self).seq.replay_events,
    {
        if self.seq.replay_events {
            return;
        }
        while self.seq.past.len() > 0
            invariant
                self.seq.wf(),
                self.seq.front is None,
                self.seq.time == old(self).seq.time,
                self.seq.active@ == old(self).seq.active@,
                self.seq.outputs == old(self).seq.outputs,
                self.seq.sample_rate == old(self).seq.sample_rate,
                self.seq.replay_events == old(self).seq.replay_events,
            decreases self.seq.past@.len(),
        {
            let ghost past_pre = self.seq.past@;
            let event = match self.seq.past.pop() {
                Some(event) => event,
                None => {
                    return;
                },
            };
            proof {
                assert(self.seq.past@ =~= past_pre.drop_last());
                lemma_drop_last_pointwise(past_pre, self.seq.past@);
            }
            if !self.link.send_return(event) {
                self.seq.past.push(event);
                proof {
                    assert(self.seq.past@ =~= past_pre);
                }
                return;
            }
        }
    }
}

/// Dropping the last element of the past list preserves every identifier
/// fact the schedule's well-formedness states about it.
proof fn lemma_fresh_above(pre: Sequencer, bumped: Sequencer, event: Event)
    requires
        pre.wf(),
        event.id.0 >= pre.ids.next,
        event.id.0 < u64::MAX,
        bumped == (Sequencer { ids: IdSource { next: (event.id.0 + 1) as u64 }, ..pre }),
    ensures
        bumped.wf(),
        bumped.fresh_id(event.id),
        event.id.0 < bumped.ids.next,
{
    assert forall|i: int| 0 <= i < bumped.ready@.len() implies (#[trigger] bumped.ready@[i]).id
        != event.id by {
        assert(bumped.ready@[i].id.0 < pre.ids.next);
    }
    assert forall|i: int| 0 <= i < bumped.active@.len() implies (#[trigger] bumped.active@[i]).id
        != event.id by {
        assert(bumped.active@[i].id.0 < pre.ids.next);
    }
    assert forall|i: int| 0 <= i < bumped.past@.len() implies (#[trigger] bumped.past@[i]).id
        != event.id by {
        assert(bumped.past@[i].id.0 < pre.ids.next);
    }
    assert forall|i: int| 0 <= i < bumped.ready@.len() implies (#[trigger] bumped.ready@[i]).id.0
        < bumped.ids.next by {
        assert(bumped.ready@[i].id.0 < pre.ids.next);
    }
    assert forall|i: int| 0 <= i < bumped.active@.len() implies (#[trigger] bumped.active@[i]).id.0
        < bumped.ids.next by {
        assert(bumped.active@[i].id.0 < pre.ids.next);
    }
    assert forall|i: int| 0 <= i < bumped.past@.len() implies (#[trigger] bumped.past@[i]).id.0
        < bumped.ids.next by {
        assert(bumped.past@[i].id.0 < pre.ids.next);
    }
}

/// Removing the last past event preserves the schedule's identifier facts.
proof fn lemma_drop_last_pointwise(p0: Seq<Event>, p1: Seq<Event>)
    requires
        p1 == p0.drop_last(),
        p0.len() > 0,
    ensures
        forall|i: int| 0 <= i < p1.len() ==> #[trigger] p1[i] == p0[i],
{
}

} // verus!
