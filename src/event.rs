//! Events: timestamped commands, and the context a handler schedules new events through.
use smallvec::SmallVec;
use vstd::prelude::*;

use crate::flow::{time_after, FlowDesc};
use crate::ident::{FlowId, SourceId};
use crate::packet::{Ack, Packet};
use crate::time::{Delta, Time};

verus! {

/// A command for the workload.
#[derive(Debug, Clone, Copy)]
pub enum WorkloadCmd {
    /// Emit the next flow arrival.
    Step,
}

/// A command for a source.
#[derive(Debug, Clone, Copy)]
pub enum SourceCmd {
    /// Try to transmit the next packet, unless `version` is stale.
    TrySend { id: SourceId, version: u128 },
    /// Deliver an acknowledgement to a flow.
    RcvAck { source: SourceId, flow: FlowId, ack: Ack },
    /// A new flow begins.
    FlowArrive { source: SourceId, desc: FlowDesc },
    /// All bytes of a flow reached the destination.
    FlowDepart { source: SourceId, flow: FlowId },
}

/// A command for the bottleneck.
#[derive(Debug, Clone, Copy)]
pub enum BottleneckCmd {
    /// A packet arrives at the ingress of the port.
    Receive(Packet),
    /// The port serves its next packet.
    Step,
}

/// A command, tagged with the component it targets.
#[derive(Debug, Clone, Copy)]
pub enum Command {
    Workload(WorkloadCmd),
    Source(SourceCmd),
    Bottleneck(BottleneckCmd),
}

/// A command to dispatch at an absolute time.
#[derive(Debug, Clone, Copy)]
pub struct Event {
    pub time: Time,
    pub cmd: Command,
}

impl Event {
    /// Creates an event.
    pub fn new(time: Time, cmd: Command) -> (r: Self)
        ensures
            r.time == time,
            r.cmd == cmd,
    {
        Event { time, cmd }
    }

    /// When the event is dispatched.
    pub fn time(&self) -> (r: Time)
        ensures
            r == self.time,
    {
        self.time
    }
}

impl PartialEq for Event {
    fn eq(&self, other: &Event) -> (r: bool)
        ensures
            r == (self.time.0 == other.time.0),
    {
        self.time.0 == other.time.0
    }
}

impl vstd::std_specs::cmp::PartialEqSpecImpl for Event {
    open spec fn obeys_eq_spec() -> bool {
        true
    }

    open spec fn eq_spec(&self, other: &Event) -> bool {
        self.time.0 == other.time.0
    }
}

/// Events are ranked by urgency: the earlier event compares greater.
impl PartialOrd for Event {
    fn partial_cmp(&self, other: &Event) -> (r: Option<core::cmp::Ordering>)
        ensures
            r == urgency_cmp(self.time.0, other.time.0),
    {
        if self.time.0 < other.time.0 {
            Some(core::cmp::Ordering::Greater)
        } else if self.time.0 == other.time.0 {
            Some(core::cmp::Ordering::Equal)
        } else {
            Some(core::cmp::Ordering::Less)
        }
    }
}

/// The earlier of two times ranks higher.
pub open spec fn urgency_cmp(a: u128, b: u128) -> Option<core::cmp::Ordering> {
    if a < b {
        Some(core::cmp::Ordering::Greater)
    } else if a == b {
        Some(core::cmp::Ordering::Equal)
    } else {
        Some(core::cmp::Ordering::Less)
    }
}

impl vstd::std_specs::cmp::PartialOrdSpecImpl for Event {
    open spec fn obeys_partial_cmp_spec() -> bool {
        true
    }

    open spec fn partial_cmp_spec(&self, other: &Event) -> Option<core::cmp::Ordering> {
        urgency_cmp(self.time.0, other.time.0)
    }
}

/// The events a handler produces, in the order scheduled. They are held in a `SmallVec`,
/// since most handlers produce only a few; `event_items` names what it holds.
#[verifier::external_body]
#[derive(Debug)]
pub struct EventList {
    inner: SmallVec<[Event; 4]>,
}

/// The events an event list holds, in order.
pub uninterp spec fn event_items(l: EventList) -> Seq<Event>;

/// Relies on `SmallVec::new`: an empty vector.
#[verifier::external_body]
fn new_event_list() -> (r: EventList)
    ensures
        event_items(r) == Seq::<Event>::empty(),
{
    EventList { inner: SmallVec::new() }
}

/// Relies on `SmallVec::push`: the item is appended at the end. It panics only when the
/// grown capacity overflows (`reserve_one_unchecked`, `try_grow`), which a short list cannot
/// reach.
#[verifier::external_body]
fn push_event(l: &mut EventList, e: Event)
    requires
        event_items(*old(l)).len() < 16,
    ensures
        event_items(*final(l)) == event_items(*old(l)).push(e),
{
    l.inner.push(e)
}

/// Relies on `SmallVec::into_vec`: the same items in the same order.
#[verifier::external_body]
fn event_list_into_vec(l: EventList) -> (r: Vec<Event>)
    ensures
        r@ == event_items(l),
{
    l.inner.into_vec()
}

/// No event of `evs` is a flow arrival.
pub open spec fn arrival_free(evs: Seq<Event>) -> bool {
    forall|i: int|
        0 <= i < evs.len() ==> !((#[trigger] evs[i]).cmd matches Command::Source(SourceCmd::FlowArrive { .. }))
}

/// What a handler sees of the simulation: the current time, and the events it schedules.
#[derive(Debug)]
pub struct Context {
    pub cur_time: Time,
    pub events: EventList,
}

impl Context {
    /// The events scheduled so far.
    pub open spec fn events(&self) -> Seq<Event> {
        event_items(self.events)
    }

    /// Nothing is scheduled before the current time.
    pub open spec fn wf(&self) -> bool {
        forall|i: int| 0 <= i < self.events().len() ==> (#[trigger] self.events()[i]).time.0 >= self.cur_time.0
    }

    /// A context at `cur_time` with nothing scheduled.
    pub fn new(cur_time: Time) -> (r: Self)
        ensures
            r.wf(),
            r.cur_time == cur_time,
            r.events() == Seq::<Event>::empty(),
    {
        Context { cur_time, events: new_event_list() }
    }

    /// Schedules `cmd` to run `delta` after the current time (at the latest representable
    /// time, if that lies beyond it).
    pub fn schedule(&mut self, delta: Delta, cmd: Command)
        requires
            old(self).wf(),
            old(self).events().len() < 16,
        ensures
            final(self).wf(),
            final(self).cur_time == old(self).cur_time,
            final(self).events() == old(self).events().push(
                Event { time: Time(time_after(old(self).cur_time.0 as int, delta.0 as int) as u128), cmd },
            ),
    {
        let time = self.cur_time.saturating_add(delta);
        push_event(&mut self.events, Event { time, cmd });
    }

    /// The events scheduled, in order.
    pub fn into_events(self) -> (r: Vec<Event>)
        ensures
            r@ == self.events(),
    {
        event_list_into_vec(self.events)
    }
}

} // verus!
