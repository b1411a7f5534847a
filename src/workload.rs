//! The workload: emits flow arrivals in order of start time.
use std::collections::VecDeque;

use vstd::prelude::*;

use crate::event::{Command, Context, Event, SourceCmd, WorkloadCmd};
use crate::flow::{time_after, FlowDesc};
use crate::time::{Delta, Time};

verus! {

/// The delay from `now` until `start`, or none when `start` has passed.
pub open spec fn until(start: int, now: int) -> int {
    if start >= now {
        start - now
    } else {
        0
    }
}

/// The flows still to arrive, earliest first.
#[derive(Debug)]
pub struct Workload {
    pub flows: VecDeque<FlowDesc>,
}

impl Workload {
    /// A workload of `flows`, which arrive in the order given.
    pub fn new(flows: Vec<FlowDesc>) -> (r: Self)
        ensures
            r.flows@ == flows@,
    {
        let mut q: VecDeque<FlowDesc> = VecDeque::new();
        let mut i: usize = 0;
        while i < flows.len()
            invariant
                i <= flows@.len(),
                q@ == flows@.subrange(0, i as int),
            decreases flows@.len() - i,
        {
            q.push_back(flows[i]);
            i = i + 1;
            assert(q@ =~= flows@.subrange(0, i as int));
        }
        assert(flows@.subrange(0, flows@.len() as int) =~= flows@);
        Workload { flows: q }
    }

    pub open spec fn step_post(o: Workload, n: Workload, now: Time, evs0: Seq<Event>, evs1: Seq<Event>) -> bool {
        &&& o.flows@.len() == 0 ==> n.flows@ == o.flows@ && evs1
                =~= evs0
        &&& o.flows@.len() > 0 ==> {
                let now = now.0 as int;
                let f = o.flows@[0];
                let rest = o.flows@.subrange(1, o.flows@.len() as int);
                let arrive = Event {
                    time: Time(time_after(now, until(f.start.0 as int, now)) as u128),
                    cmd: Command::Source(SourceCmd::FlowArrive { source: f.source, desc: f }),
                };
                &&& n.flows@ == rest
                &&& rest.len() == 0 ==> evs1 =~= evs0.push(arrive)
                &&& rest.len() > 0 ==> evs1 =~= evs0.push(arrive).push(
                    Event {
                        time: Time(time_after(now, until(rest[0].start.0 as int, now)) as u128),
                        cmd: Command::Workload(WorkloadCmd::Step),
                    },
                )
            }
    }

    /// Emits the next flow: it arrives at its source at its start time, and the workload
    /// steps again at the start of the flow after it.
    pub fn step(&mut self, ctx: &mut Context)
        requires
            old(ctx).wf(),
            old(ctx).events().len() <= 8,
        ensures
            final(ctx).wf(),
            final(ctx).cur_time == old(ctx).cur_time,
            final(ctx).events().len() <= old(ctx).events().len() + 2,
            Workload::step_post(*old(self), *final(self), old(ctx).cur_time, old(ctx).events(), final(ctx).events()),
    {
        let now = ctx.cur_time;
        match self.flows.pop_front() {
            Some(flow) => {
                let delta = Time(flow.start.0 as u128).saturating_sub(now);
                ctx.schedule(delta, Command::Source(SourceCmd::FlowArrive { source: flow.source, desc: flow }));
                if self.flows.len() > 0 {
                    let next = self.flows[0].start;
                    let delta = Time(next.0 as u128).saturating_sub(now);
                    ctx.schedule(delta, Command::Workload(WorkloadCmd::Step));
                }
            },
            None => {},
        }
    }
}

} // verus!
