//! The bottleneck link: a port served at the bottleneck bandwidth, with ECN marking.
use vstd::prelude::*;

use crate::event::{arrival_free, BottleneckCmd, Command, Context, Event, SourceCmd};
use crate::flow::time_after;
use crate::packet::{Ack, Packet};
use crate::port::{heads_of, total_size, DrrState, Port};
use crate::source::ser;
use crate::time::{Delta, Time};
use crate::units::{BitsPerSec, Bytes};

verus! {

/// Whether the port is serving packets.
#[derive(Debug, Clone, Copy, PartialEq, Eq, Structural)]
pub enum Status {
    Running,
    Blocked,
}

/// The events the service of `pkt` at `now` schedules: the next service once `pkt` is
/// serialized, its acknowledgement back at the source, and, for the last packet of a flow,
/// the flow's departure once the packet reaches the destination.
pub open spec fn service_events(pkt: Packet, rest: Seq<Packet>, now: Time, bw: int, threshold: int, hdr: int) -> Seq<Event> {
    let service = ser(pkt.size.0 as int, bw);
    let prop = pkt.btl2dst.0 + pkt.src2btl.0 + pkt.btl2dst.0;
    let ack = Ack {
        nr_bytes: Bytes(if pkt.size.0 >= hdr { (pkt.size.0 - hdr) as u64 } else { 0 }),
        marked: total_size(rest) > threshold,
    };
    let evs = seq![
        Event { time: Time(time_after(now.0 as int, service) as u128), cmd: Command::Bottleneck(BottleneckCmd::Step) },
        Event {
            time: Time(time_after(now.0 as int, service + prop) as u128),
            cmd: Command::Source(SourceCmd::RcvAck { source: pkt.source_id, flow: pkt.flow_id, ack }),
        },
    ];
    if pkt.is_last {
        evs.push(
            Event {
                time: Time(time_after(now.0 as int, service + pkt.btl2dst.0) as u128),
                cmd: Command::Source(SourceCmd::FlowDepart { source: pkt.source_id, flow: pkt.flow_id }),
            },
        )
    } else {
        evs
    }
}

/// The bottleneck: a DRR port served at `bandwidth`, marking packets that leave a sub-queue
/// holding more than `marking_threshold` bytes.
#[derive(Debug)]
pub struct Bottleneck {
    pub bandwidth: BitsPerSec,
    pub port: Port,
    pub status: Status,
    pub marking_threshold: Bytes,
}

impl Bottleneck {
    pub open spec fn wf(&self) -> bool {
        &&& self.bandwidth.0 > 0
        &&& self.port.wf()
    }

    /// A bottleneck before anything happened: blocked, with one empty sub-queue per quantum,
    /// no deficits, and the counter at the first sub-queue, which is owed its quantum.
    pub open spec fn is_fresh(&self, bandwidth: BitsPerSec, quanta: Seq<Bytes>, threshold: Bytes) -> bool {
        &&& self.wf()
        &&& self.bandwidth == bandwidth
        &&& self.marking_threshold == threshold
        &&& self.status == Status::Blocked
        &&& self.port.queues_view() == Seq::new(quanta.len(), |i: int| Seq::<Packet>::empty())
        &&& self.port.drr().quanta == Seq::new(quanta.len(), |i: int| quanta[i].0)
        &&& self.port.drr().deficits == Seq::new(quanta.len(), |i: int| 0u64)
        &&& self.port.drr().counter == 0
        &&& self.port.drr().bump
    }

    /// A blocked bottleneck with an empty port.
    pub fn new(bandwidth: BitsPerSec, port: Port, marking_threshold: Bytes) -> (r: Self)
        requires
            bandwidth.0 > 0,
            port.wf(),
        ensures
            r.wf(),
            r.bandwidth == bandwidth,
            r.port == port,
            r.status == Status::Blocked,
            r.marking_threshold == marking_threshold,
    {
        Bottleneck { bandwidth, port, status: Status::Blocked, marking_threshold }
    }

    pub open spec fn receive_post(o: Bottleneck, n: Bottleneck, pkt: Packet, sz_pkthdr: Bytes, now: Time, evs0: Seq<Event>, evs1: Seq<Event>) -> bool {
        &&& n.bandwidth == o.bandwidth
        &&& n.marking_threshold == o.marking_threshold
        &&& arrival_free(evs0) ==> arrival_free(evs1)
        &&& n.wf()
        &&& n.port.drr().quanta == o.port.drr().quanta
        &&& o.status == Status::Running ==> {
                &&& n.status == Status::Running
                &&& evs1 =~= evs0
                &&& n.port.queues_view() == o.port.queues_view().update(
                    pkt.qindex.0 as int,
                    o.port.queues_view()[pkt.qindex.0 as int].push(pkt),
                )
                &&& n.port.drr().deficits == o.port.drr().deficits
                &&& n.port.drr().counter == o.port.drr().counter
                &&& n.port.drr().bump == o.port.drr().bump
            }
        &&& o.status == Status::Blocked ==> n.status == Status::Running && {
                let queues = o.port.queues_view().update(
                    pkt.qindex.0 as int,
                    o.port.queues_view()[pkt.qindex.0 as int].push(pkt),
                );
                let d = DrrState { heads: heads_of(queues), ..o.port.drr() };
                &&& d.pick().1 matches Some(q) && 0 <= q < queues.len() && queues[q].len() > 0
                &&& evs1 =~= evs0 + service_events(
                    queues[d.pick().1->Some_0][0],
                    queues[d.pick().1->Some_0].subrange(1, queues[d.pick().1->Some_0].len() as int),
                    now,
                    o.bandwidth.0 as int,
                    o.marking_threshold.0 as int,
                    sz_pkthdr.0 as int,
                )
                &&& {
                    let q = d.pick().1->Some_0;
                    let s = queues[q];
                    &&& n.port.queues_view() == queues.update(q, s.subrange(1, s.len() as int))
                    &&& n.port.drr().deficits == if s.len() == 1 {
                        d.pick().0.deficits.update(q, 0)
                    } else {
                        d.pick().0.deficits
                    }
                    &&& n.port.drr().counter == d.pick().0.counter
                    &&& n.port.drr().bump == d.pick().0.bump
                }
            }
    }

    /// `pkt` arrives at the port and joins its sub-queue. A blocked port starts running and
    /// serves at once.
    pub fn receive(&mut self, pkt: Packet, sz_pkthdr: Bytes, ctx: &mut Context)
        requires
            old(self).wf(),
            pkt.qindex.0 < old(self).port.nr_queues(),
            old(ctx).events().len() <= 8,
            old(ctx).wf(),
        ensures
            final(ctx).wf(),
            final(ctx).events().len() <= old(ctx).events().len() + 3,
            final(ctx).cur_time == old(ctx).cur_time,
            Bottleneck::receive_post(*old(self), *final(self), pkt, sz_pkthdr, old(ctx).cur_time, old(ctx).events(), final(ctx).events()),
    {
        self.port.enqueue(pkt);
        match self.status {
            Status::Running => {},
            Status::Blocked => {
                self.status = Status::Running;
                proof {
                    self.port.lemma_drr_view();
                    let d = DrrState { heads: heads_of(self.port.queues_view()), ..old(self).port.drr() };
                    assert(self.port.drr() == d);
                    let q = pkt.qindex.0 as int;
                    assert(self.port.queues_view()[q].len() > 0);
                    assert(self.port.drr().heads[q] is Some);
                    assert(!d.all_empty());
                    d.lemma_pick_nonempty();
                }
                self.step(sz_pkthdr, ctx);
            },
        }
    }

    pub open spec fn step_post(o: Bottleneck, n: Bottleneck, sz_pkthdr: Bytes, now: Time, evs0: Seq<Event>, evs1: Seq<Event>) -> bool {
        &&& n.bandwidth == o.bandwidth
        &&& n.marking_threshold == o.marking_threshold
        &&& arrival_free(evs0) ==> arrival_free(evs1)
        &&& n.wf()
        &&& n.port.drr().quanta == o.port.drr().quanta
        &&& o.status == Status::Blocked ==> n.status == o.status
                && n.port == o.port && evs1 =~= evs0
        &&& o.status == Status::Running ==> {
                let (d, picked) = o.port.drr().pick();
                let queues = o.port.queues_view();
                match picked {
                    Some(q) => {
                        let s = queues[q];
                        &&& 0 <= q < queues.len() && s.len() > 0
                        &&& n.status == Status::Running
                        &&& n.port.queues_view() == queues.update(q, s.subrange(1, s.len() as int))
                        &&& n.port.drr().deficits == if s.len() == 1 {
                            d.deficits.update(q, 0)
                        } else {
                            d.deficits
                        }
                        &&& n.port.drr().counter == d.counter
                        &&& n.port.drr().bump == d.bump
                        &&& evs1 =~= evs0 + service_events(
                            s[0],
                            s.subrange(1, s.len() as int),
                            now,
                            o.bandwidth.0 as int,
                            o.marking_threshold.0 as int,
                            sz_pkthdr.0 as int,
                        )
                    },
                    None => {
                        &&& n.status == Status::Blocked
                        &&& n.port.queues_view() == queues
                        &&& n.port.drr() == d
                        &&& evs1 =~= evs0
                    },
                }
            }
    }

    /// Serves the next packet in DRR order, if the port is running: the packet leaves its
    /// sub-queue, and the next service, its acknowledgement and possibly its flow's departure
    /// are scheduled. With every sub-queue empty the port blocks. A blocked port ignores the
    /// call.
    pub fn step(&mut self, sz_pkthdr: Bytes, ctx: &mut Context)
        requires
            old(self).wf(),
            old(ctx).events().len() <= 8,
            old(ctx).wf(),
        ensures
            final(ctx).wf(),
            final(ctx).events().len() <= old(ctx).events().len() + 3,
            final(ctx).cur_time == old(ctx).cur_time,
            Bottleneck::step_post(*old(self), *final(self), sz_pkthdr, old(ctx).cur_time, old(ctx).events(), final(ctx).events()),
    {
        if self.status == Status::Blocked {
            return;
        }
        proof {
            self.port.lemma_drr_view();
            let s = self.port.drr();
            if !s.all_empty() {
                s.lemma_pick_nonempty();
            }
        }
        match self.port.pick_dequeue_index() {
            Some(qidx) => {
                assert(self.port.queues_view()[qidx.0 as int].len() > 0);
                let ghost rest = self.port.queues_view()[qidx.0 as int].subrange(
                    1,
                    self.port.queues_view()[qidx.0 as int].len() as int,
                );
                let pkt = match self.port.dequeue(qidx) {
                    Some(p) => p,
                    None => {
                        return;
                    },
                };
                let service = self.bandwidth.length(pkt.size);
                let bw_delta = Delta(service.0 as u128);
                ctx.schedule(bw_delta, Command::Bottleneck(BottleneckCmd::Step));
                let prop = pkt.btl2dst.0 as u128 + pkt.hrtt().0;
                let nr_bytes = Bytes(pkt.size.0.saturating_sub(sz_pkthdr.0));
                let marked = self.port.qsize(qidx) > self.marking_threshold.0 as u128;
                ctx.schedule(
                    Delta(service.0 as u128 + prop),
                    Command::Source(
                        SourceCmd::RcvAck {
                            source: pkt.source_id,
                            flow: pkt.flow_id,
                            ack: Ack { nr_bytes, marked },
                        },
                    ),
                );
                if pkt.is_last {
                    ctx.schedule(
                        Delta(service.0 as u128 + pkt.btl2dst.0 as u128),
                        Command::Source(SourceCmd::FlowDepart { source: pkt.source_id, flow: pkt.flow_id }),
                    );
                }
            },
            None => {
                self.status = Status::Blocked;
            },
        }
    }
}

} // verus!
