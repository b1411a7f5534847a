//! Traffic sources: a window-based, rate-paced, round-robin sender over concurrent flows.
use vstd::prelude::*;

use crate::event::{arrival_free, BottleneckCmd, Command, Context, Event, SourceCmd};
use crate::flow::{time_after, Flow, FlowDesc, SenderParams};
use crate::ident::{FlowId, SourceId};
use crate::packet::{Ack, Packet};
use crate::record::Record;
use crate::time::{Delta, Time};
use crate::units::{cap_u64, length_ns, BitsPerSec, Bytes, Nanosecs};

verus! {

/// What the flow queue has to offer at a point in time.
#[derive(Debug)]
pub enum FlowQResult {
    /// The next packet to send.
    Found { pkt: Packet },
    /// No flow may send yet; the earliest that is not window-bound may at `tnext`.
    RateBound { tnext: Time },
    /// Every flow is window-bound.
    WinBound,
    /// There are no flows.
    Empty,
}

/// The flows of a source in round-robin order, with the position the next scan starts from.
#[derive(Debug)]
pub struct FlowQ {
    pub flows: Vec<Flow>,
    pub rr_next: usize,
}

/// Whether `f` may send at `now`: neither rate-bound nor window-bound.
pub open spec fn can_send(f: Flow, now: Time) -> bool {
    !f.spec_is_rate_bound(now) && !f.spec_is_win_bound()
}

/// A round robin of flows: the flows in order, and where the next scan starts.
pub struct RoundRobin {
    pub flows: Seq<Flow>,
    pub rr_next: int,
}

impl RoundRobin {
    pub open spec fn n(&self) -> int {
        self.flows.len() as int
    }

    /// The index the scan starts from.
    pub open spec fn start(&self) -> int {
        self.rr_next % self.n()
    }

    /// The index visited `i`-th in the scan.
    pub open spec fn slot(&self, i: int) -> int {
        if self.start() + i < self.n() {
            self.start() + i
        } else {
            self.start() + i - self.n()
        }
    }

    /// The scan's `i`-th visit finds the first flow that may send.
    pub open spec fn found_at(&self, now: Time, i: int) -> bool {
        &&& 0 <= i < self.n()
        &&& can_send(self.flows[self.slot(i)], now)
        &&& forall|j: int| 0 <= j < i ==> !can_send(#[trigger] self.flows[self.slot(j)], now)
    }

    pub open spec fn has_sender(&self, now: Time) -> bool {
        exists|i: int| self.found_at(now, i)
    }

    /// The index of the flow that sends next.
    pub open spec fn sender(&self, now: Time) -> int {
        self.slot(choose|i: int| self.found_at(now, i))
    }

    pub open spec fn has_viable(&self) -> bool {
        exists|k: int| 0 <= k < self.n() && !(#[trigger] self.flows[k]).spec_is_win_bound()
    }

    /// `t` is the earliest pacing time among the flows that are not window-bound.
    pub open spec fn is_min_viable_tnext(&self, t: u128) -> bool {
        &&& exists|k: int|
            0 <= k < self.n() && !(#[trigger] self.flows[k]).spec_is_win_bound()
                && self.flows[k].tnext.0 == t
        &&& forall|k: int|
            0 <= k < self.n() && !(#[trigger] self.flows[k]).spec_is_win_bound() ==> t
                <= self.flows[k].tnext.0
    }

    /// The earliest pacing time among the flows that are not window-bound.
    pub open spec fn min_viable_tnext(&self) -> u128 {
        choose|t: u128| #[trigger] self.is_min_viable_tnext(t)
    }

    /// What a scan at `now` yields.
    pub open spec fn result(&self, now: Time) -> FlowQResult {
        if self.n() == 0 {
            FlowQResult::Empty
        } else if self.has_sender(now) {
            FlowQResult::Found { pkt: self.flows[self.sender(now)].sent_packet() }
        } else if self.has_viable() {
            FlowQResult::RateBound { tnext: Time(self.min_viable_tnext()) }
        } else {
            FlowQResult::WinBound
        }
    }

    /// The flows after a scan at `now`: the sender has sent, and leaves once drained.
    pub open spec fn flows_after(&self, now: Time) -> Seq<Flow> {
        if self.n() > 0 && self.has_sender(now) {
            let k = self.sender(now);
            let f = self.flows[k].after_send(now);
            if f.spec_bytes_left() == 0 {
                self.flows.remove(k)
            } else {
                self.flows.update(k, f)
            }
        } else {
            self.flows
        }
    }

    /// Where the scan after one at `now` starts: just after the sender.
    pub open spec fn rr_after(&self, now: Time) -> int {
        if self.n() > 0 && self.has_sender(now) {
            self.sender(now) + 1
        } else {
            self.rr_next
        }
    }
}

impl FlowQ {
    /// Every flow is well formed and still has bytes to send.
    pub open spec fn wf(&self) -> bool {
        forall|k: int|
            0 <= k < self.flows@.len() ==> (#[trigger] self.flows@[k]).wf()
                && self.flows@[k].spec_bytes_left() > 0
    }

    pub open spec fn n(&self) -> int {
        self.flows@.len() as int
    }

    /// The flows and the scan position, as values.
    pub open spec fn rr(&self) -> RoundRobin {
        RoundRobin { flows: self.flows@, rr_next: self.rr_next as int }
    }

    /// An empty queue.
    pub fn new() -> (r: Self)
        ensures
            r.wf(),
            r.flows@ == Seq::<Flow>::empty(),
            r.rr_next == 0,
    {
        FlowQ { flows: Vec::new(), rr_next: 0 }
    }

    /// Scans the flows once round, starting after the last sender, for one that may send at
    /// `now`. The first found sends its next packet, and leaves the queue once drained.
    /// Otherwise reports the earliest pacing time of the flows not window-bound, or that all
    /// are window-bound, or that there are none.
    pub fn next_packet(&mut self, now: Time) -> (r: FlowQResult)
        requires
            old(self).wf(),
        ensures
            final(self).wf(),
            r == old(self).rr().result(now),
            r matches FlowQResult::RateBound { tnext } ==> tnext.0 > now.0,
            final(self).flows@ == old(self).rr().flows_after(now),
            final(self).rr_next == old(self).rr().rr_after(now),
    {
        let n = self.flows.len();
        if n == 0 {
            return FlowQResult::Empty;
        }
        let start = self.rr_next % n;
        let k = n - start;
        let mut i: usize = 0;
        while i < n
            invariant
                *self == *old(self),
                self.wf(),
                n == self.n(),
                start == self.rr().start(),
                k == n - start,
                0 <= start < n,
                i <= n,
                forall|j: int| 0 <= j < i ==> !can_send(#[trigger] self.flows@[self.rr().slot(j)], now),
            decreases n - i,
        {
            let idx = if i < k { start + i } else { i - k };
            assert(idx == self.rr().slot(i as int));
            if !self.flows[idx].is_rate_bound(now) && !self.flows[idx].is_win_bound() {
                proof {
                    assert(self.rr().found_at(now, i as int));
                    assert forall|i2: int| #[trigger] self.rr().found_at(now, i2) implies i2 == i by {
                        if i2 < i {
                            assert(!can_send(self.flows@[self.rr().slot(i2)], now));
                        } else if i2 > i {
                            assert(!can_send(self.flows@[self.rr().slot(i as int)], now));
                        }
                    }
                    assert(self.rr().sender(now) == idx);
                }
                let pkt = self.flows[idx].next_packet(now);
                if self.flows[idx].bytes_left().0 == 0 {
                    self.flows.remove(idx);
                    assert forall|q: int| 0 <= q < self.flows@.len() implies (#[trigger] self.flows@[q]).wf()
                        && self.flows@[q].spec_bytes_left() > 0 by {
                        if q >= idx {
                            assert(self.flows@[q] == old(self).flows@[q + 1]);
                        } else {
                            assert(self.flows@[q] == old(self).flows@[q]);
                        }
                    }
                } else {
                    assert forall|q: int| 0 <= q < self.flows@.len() implies (#[trigger] self.flows@[q]).wf()
                        && self.flows@[q].spec_bytes_left() > 0 by {
                        if q != idx {
                            assert(self.flows@[q] == old(self).flows@[q]);
                        }
                    }
                }
                self.rr_next = idx + 1;
                return FlowQResult::Found { pkt };
            }
            i = i + 1;
        }
        proof {
            assert forall|q: int| 0 <= q < n implies !can_send(#[trigger] self.flows@[q], now) by {
                let j = if q >= start { q - start } else { q - start + n };
                assert(self.rr().slot(j) == q);
            }
            assert(!self.rr().has_sender(now));
        }
        let mut best: Option<u128> = None;
        let mut q: usize = 0;
        while q < n
            invariant
                *self == *old(self),
                self.wf(),
                n == self.n(),
                q <= n,
                forall|p: int| 0 <= p < n ==> !can_send(#[trigger] self.flows@[p], now),
                best is None ==> forall|p: int| 0 <= p < q ==> (#[trigger] self.flows@[p]).spec_is_win_bound(),
                best matches Some(t) ==> (exists|p: int|
                    0 <= p < q && !(#[trigger] self.flows@[p]).spec_is_win_bound()
                        && self.flows@[p].tnext.0 == t) && (forall|p: int|
                    0 <= p < q && !(#[trigger] self.flows@[p]).spec_is_win_bound() ==> t
                        <= self.flows@[p].tnext.0),
            decreases n - q,
        {
            if !self.flows[q].is_win_bound() {
                let t = self.flows[q].tnext.0;
                match best {
                    None => {
                        best = Some(t);
                    },
                    Some(b) => {
                        if t < b {
                            best = Some(t);
                        }
                    },
                }
            }
            q = q + 1;
        }
        match best {
            Some(t) => {
                proof {
                    assert(self.rr().is_min_viable_tnext(t));
                    let m = self.rr().min_viable_tnext();
                    assert(self.rr().is_min_viable_tnext(m));
                    assert(m <= t && t <= m);
                }
                FlowQResult::RateBound { tnext: Time(t) }
            },
            None => FlowQResult::WinBound,
        }
    }

    /// Appends `flow` at the end of the round-robin order.
    pub fn add_flow(&mut self, flow: Flow)
        requires
            old(self).wf(),
            flow.wf(),
            flow.spec_bytes_left() > 0,
        ensures
            final(self).wf(),
            final(self).flows@ == old(self).flows@.push(flow),
            final(self).rr_next == old(self).rr_next,
    {
        self.flows.push(flow);
    }

    /// The position of the first flow with ID `id`, if any.
    pub open spec fn find_spec(&self, id: FlowId) -> Option<int> {
        if exists|k: int| 0 <= k < self.n() && (#[trigger] self.flows@[k]).id == id {
            Some(choose|k: int| 0 <= k < self.n() && self.flows@[k].id == id && forall|j: int|
                0 <= j < k ==> (#[trigger] self.flows@[j]).id != id)
        } else {
            None
        }
    }

    /// The position of the first flow with ID `id`, if any.
    pub fn find(&self, id: FlowId) -> (r: Option<usize>)
        ensures
            r is None ==> forall|k: int| 0 <= k < self.n() ==> (#[trigger] self.flows@[k]).id != id,
            r matches Some(k) ==> k < self.n() && self.flows@[k as int].id == id && forall|j: int|
                0 <= j < k ==> (#[trigger] self.flows@[j]).id != id,
    {
        let mut k: usize = 0;
        while k < self.flows.len()
            invariant
                k <= self.n(),
                forall|j: int| 0 <= j < k ==> (#[trigger] self.flows@[j]).id != id,
            decreases self.n() - k,
        {
            if self.flows[k].id.0 == id.0 {
                return Some(k);
            }
            k = k + 1;
        }
        None
    }
}

/// A source configuration.
#[derive(Debug, Clone, Copy)]
pub struct SourceDesc {
    /// The source ID.
    pub id: SourceId,
    /// The propagation delay from the source to the bottleneck link.
    pub delay2btl: Nanosecs,
    /// The rate of the link connecting the source to the bottleneck.
    pub link_rate: BitsPerSec,
}

/// What a source keeps of a flow until it departs.
#[derive(Debug, Clone, Copy)]
pub struct FlowInfo {
    pub id: FlowId,
    pub size: Bytes,
    pub start: Nanosecs,
    pub src2btl: Nanosecs,
    pub btl2dst: Nanosecs,
    pub max_rate: BitsPerSec,
}

/// The payload split of a flow into packets for the ideal completion time: a head packet,
/// full packets, and a tail packet (each with its header; an empty part weighs nothing).
pub open spec fn head_bytes(size: int, pktmax: int, hdr: int) -> int {
    let head = if size <= pktmax { size } else { pktmax };
    if head != 0 { head + hdr } else { 0 }
}

pub open spec fn tail_bytes(size: int, pktmax: int, hdr: int) -> int {
    let head = if size <= pktmax { size } else { pktmax };
    let tail = (size - head) % pktmax;
    if tail != 0 { tail + hdr } else { 0 }
}

pub open spec fn nr_full_packets(size: int, pktmax: int) -> int {
    let head = if size <= pktmax { size } else { pktmax };
    (size - head) / pktmax
}

/// The serialization time of `bytes` at `bps`, as the units compute it.
pub open spec fn ser(bytes: int, bps: int) -> int {
    cap_u64(length_ns(bytes, bps))
}

/// The completion time of a flow on an otherwise empty network of two hops: its head packet
/// is serialized on both hops, the rest pipelines behind it at the slower hop, and the
/// propagation delays add up. Capped at the largest `u64`.
pub open spec fn ideal_fct_ns(
    size: int,
    pktmax: int,
    hdr: int,
    bw_hop1: int,
    bw_hop2: int,
    src2btl: int,
    btl2dst: int,
) -> int {
    let bw_min = if bw_hop1 <= bw_hop2 { bw_hop1 } else { bw_hop2 };
    let head = head_bytes(size, pktmax, hdr);
    cap_u64(
        ser(head, bw_hop1) + ser(head, bw_hop2) + nr_full_packets(size, pktmax) * ser(pktmax + hdr, bw_min)
            + ser(tail_bytes(size, pktmax, hdr), bw_min) + src2btl + btl2dst,
    )
}

/// The ideal completion time of a flow of `size` bytes sent over a link of `bw_hop1` and a
/// bottleneck of `bw_hop2`.
pub fn ideal_fct(
    size: Bytes,
    sz_pktmax: Bytes,
    sz_pkthdr: Bytes,
    bw_hop1: BitsPerSec,
    bw_hop2: BitsPerSec,
    src2btl: Nanosecs,
    btl2dst: Nanosecs,
) -> (r: Nanosecs)
    requires
        sz_pktmax.0 > 0,
        sz_pktmax.0 + sz_pkthdr.0 <= u64::MAX,
        bw_hop1.0 > 0,
        bw_hop2.0 > 0,
    ensures
        r.0 == ideal_fct_ns(
            size.0 as int,
            sz_pktmax.0 as int,
            sz_pkthdr.0 as int,
            bw_hop1.0 as int,
            bw_hop2.0 as int,
            src2btl.0 as int,
            btl2dst.0 as int,
        ),
{
    let bw_min = if bw_hop1.0 <= bw_hop2.0 { bw_hop1 } else { bw_hop2 };
    let head = if size.0 <= sz_pktmax.0 { size.0 } else { sz_pktmax.0 };
    let sz_head = if head != 0 { Bytes(head + sz_pkthdr.0) } else { Bytes(0) };
    let rest = size.0 - head;
    let nr_full = rest / sz_pktmax.0;
    let sz_full = Bytes(sz_pktmax.0 + sz_pkthdr.0);
    let tail = rest % sz_pktmax.0;
    assert(tail < sz_pktmax.0);
    let sz_tail = if tail != 0 { Bytes(tail + sz_pkthdr.0) } else { Bytes(0) };
    let head_delay = bw_hop1.length(sz_head).0 as u128 + bw_hop2.length(sz_head).0 as u128;
    let full_one = bw_min.length(sz_full).0 as u128;
    assert(nr_full as u128 * full_one <= u128::MAX) by (nonlinear_arith)
        requires nr_full <= u64::MAX, full_one <= u64::MAX;
    let full_delay = nr_full as u128 * full_one;
    if full_delay > u64::MAX as u128 {
        return Nanosecs(u64::MAX);
    }
    let total = head_delay + full_delay + bw_min.length(sz_tail).0 as u128 + src2btl.0 as u128
        + btl2dst.0 as u128;
    if total > u64::MAX as u128 {
        Nanosecs(u64::MAX)
    } else {
        Nanosecs(total as u64)
    }
}

/// The events a send attempt at `now` schedules for source `sd` with flows `q`: the packet
/// sent reaches the bottleneck after its serialization and the propagation delay, and the
/// source tries again once the link is free; or, when every flow must wait for its pacing
/// time, the source wakes at the earliest; or nothing.
pub open spec fn send_events(q: RoundRobin, now: Time, sd: SourceDesc, version: u128) -> Seq<Event> {
    match q.result(now) {
        FlowQResult::Found { pkt } => {
            let bw = ser(pkt.size.0 as int, sd.link_rate.0 as int);
            seq![
                Event {
                    time: Time(time_after(now.0 as int, sd.delay2btl.0 + bw) as u128),
                    cmd: Command::Bottleneck(BottleneckCmd::Receive(pkt)),
                },
                Event {
                    time: Time(time_after(now.0 as int, bw) as u128),
                    cmd: Command::Source(SourceCmd::TrySend { id: sd.id, version }),
                },
            ]
        },
        FlowQResult::RateBound { tnext } => seq![
            Event { time: tnext, cmd: Command::Source(SourceCmd::TrySend { id: sd.id, version }) },
        ],
        _ => Seq::empty(),
    }
}

/// When the source wakes after a send attempt at `now`: once the link is free, at the
/// earliest pacing time, or never.
pub open spec fn send_tnext(q: RoundRobin, now: Time, sd: SourceDesc) -> Time {
    match q.result(now) {
        FlowQResult::Found { pkt } => Time(
            time_after(now.0 as int, ser(pkt.size.0 as int, sd.link_rate.0 as int)) as u128,
        ),
        FlowQResult::RateBound { tnext } => tnext,
        _ => Time(u128::MAX),
    }
}

/// The earliest wake-up the link allows after a send attempt at `now`.
pub open spec fn send_earliest(q: RoundRobin, now: Time, sd: SourceDesc, earliest: Time) -> Time {
    match q.result(now) {
        FlowQResult::Found { pkt } => Time(
            time_after(now.0 as int, ser(pkt.size.0 as int, sd.link_rate.0 as int)) as u128,
        ),
        _ => earliest,
    }
}

/// A traffic source: its flows share its access link.
#[derive(Debug)]
pub struct Source {
    pub id: SourceId,
    pub delay2btl: Nanosecs,
    pub link_rate: BitsPerSec,
    /// The earliest wake-up the link allows.
    pub earliest_tnext: Time,
    /// The wake-up scheduled, or the latest representable time when the source is idle.
    pub tnext: Time,
    pub flow_queue: FlowQ,
    pub flow_info: Vec<FlowInfo>,
    /// Bumped to invalidate wake-ups scheduled before.
    pub version: u128,
    pub records: Vec<Record>,
}

/// What a source keeps of flow `f` it sends as the source `sd`.
pub open spec fn info_of(f: FlowDesc, sd: SourceDesc) -> FlowInfo {
    FlowInfo {
        id: f.id,
        size: f.size,
        start: f.start,
        src2btl: sd.delay2btl,
        btl2dst: Nanosecs((f.delay2dst.0 - sd.delay2btl.0) as u64),
        max_rate: sd.link_rate,
    }
}

impl Source {
    /// The configuration of the source.
    pub open spec fn desc(&self) -> SourceDesc {
        SourceDesc { id: self.id, delay2btl: self.delay2btl, link_rate: self.link_rate }
    }

    pub open spec fn wf(&self) -> bool {
        &&& self.link_rate.0 > 0
        &&& self.flow_queue.wf()
        &&& forall|k: int| 0 <= k < self.flow_info@.len() ==> (#[trigger] self.flow_info@[k]).max_rate.0 > 0
    }

    /// Source `sd` before anything happened: idle, with no flows and no records.
    pub open spec fn is_fresh(&self, sd: SourceDesc) -> bool {
        &&& self.desc() == sd
        &&& self.earliest_tnext.0 == 0
        &&& self.tnext.0 == u128::MAX
        &&& self.flow_queue.flows@.len() == 0
        &&& self.flow_queue.rr_next == 0
        &&& self.flow_info@.len() == 0
        &&& self.version == 0
        &&& self.records@.len() == 0
    }

    /// An idle source with no flows.
    pub fn new(desc: &SourceDesc) -> (r: Self)
        requires
            desc.link_rate.0 > 0,
        ensures
            r.wf(),
            r.id == desc.id,
            r.delay2btl == desc.delay2btl,
            r.link_rate == desc.link_rate,
            r.earliest_tnext.0 == 0,
            r.tnext.0 == u128::MAX,
            r.is_fresh(*desc),
    {
        Source {
            id: desc.id,
            delay2btl: desc.delay2btl,
            link_rate: desc.link_rate,
            earliest_tnext: Time(0),
            tnext: Time::max_value(),
            flow_queue: FlowQ::new(),
            flow_info: Vec::new(),
            version: 0,
            records: Vec::new(),
        }
    }

    pub open spec fn try_send_post(o: Source, n: Source, version: u128, now: Time, evs0: Seq<Event>, evs1: Seq<Event>) -> bool {
        &&& n.desc() == o.desc()
        &&& arrival_free(evs0) ==> arrival_free(evs1)
        &&& n.wf()
        &&& version != o.version ==> n == o && evs1
                =~= evs0
        &&& version == o.version ==> {
                let now = now;
                let q = o.flow_queue.rr();
                &&& n.flow_queue.flows@ == q.flows_after(now)
                &&& n.flow_queue.rr_next == q.rr_after(now)
                &&& n == (Source {
                    flow_queue: n.flow_queue,
                    earliest_tnext: n.earliest_tnext,
                    tnext: n.tnext,
                    ..o
                })
                &&& evs1 =~= evs0 + send_events(q, now, o.desc(), version)
                &&& n.earliest_tnext == send_earliest(q, now, o.desc(), o.earliest_tnext)
                &&& n.tnext == send_tnext(q, now, o.desc())
            }
    }

    /// Sends the next packet, if any flow may, unless `version` is stale. A packet reaches the
    /// bottleneck after its serialization on the link and the propagation delay, and the
    /// source tries again once the link is free. When every flow must wait for its pacing
    /// time, the source wakes at the earliest; when all are window-bound or there are none,
    /// it goes idle until an acknowledgement or an arrival.
    pub fn try_send(&mut self, version: u128, ctx: &mut Context)
        requires
            old(self).wf(),
            old(ctx).events().len() <= 8,
            old(ctx).wf(),
        ensures
            final(ctx).wf(),
            final(ctx).events().len() <= old(ctx).events().len() + 3,
            final(ctx).cur_time == old(ctx).cur_time,
            Source::try_send_post(*old(self), *final(self), version, old(ctx).cur_time, old(ctx).events(), final(ctx).events()),
    {
        if version != self.version {
            return;
        }
        let now = ctx.cur_time;
        match self.flow_queue.next_packet(now) {
            FlowQResult::Found { pkt } => {
                let bw = self.link_rate.length(pkt.size);
                let bw_delta = Delta(bw.0 as u128);
                ctx.schedule(
                    Delta(self.delay2btl.0 as u128 + bw.0 as u128),
                    Command::Bottleneck(BottleneckCmd::Receive(pkt)),
                );
                ctx.schedule(bw_delta, Command::Source(SourceCmd::TrySend { id: self.id, version }));
                self.earliest_tnext = now.saturating_add(bw_delta);
                self.tnext = now.saturating_add(bw_delta);
            },
            FlowQResult::RateBound { tnext } => {
                ctx.schedule(
                    Delta(tnext.0 - now.0),
                    Command::Source(SourceCmd::TrySend { id: self.id, version }),
                );
                self.tnext = tnext;
            },
            _ => {
                self.tnext = Time::max_value();
            },
        }
    }

    pub open spec fn rcv_ack_post(o: Source, n: Source, flow_id: FlowId, ack: Ack, now: Time, evs0: Seq<Event>, evs1: Seq<Event>) -> bool {
        &&& n.desc() == o.desc()
        &&& arrival_free(evs0) ==> arrival_free(evs1)
        &&& n.wf()
        &&& n.version == o.version || n.version == o.version + 1
        &&& ({
                let fq = o.flow_queue;
                let now = now;
                match fq.find_spec(flow_id) {
                    Some(k) if ack.nr_bytes.0 <= fq.flows@[k].spec_on_the_fly() => {
                        let f = fq.flows@[k].after_ack(ack);
                        let wake = !f.spec_is_win_bound() && f.tnext.0 < o.tnext.0;
                        let t = if o.earliest_tnext.0 >= f.tnext.0 {
                            o.earliest_tnext
                        } else {
                            f.tnext
                        };
                        &&& n.flow_queue.flows@ == fq.flows@.update(k, f)
                        &&& n.flow_queue.rr_next == fq.rr_next
                        &&& wake ==> n == (Source {
                            flow_queue: n.flow_queue,
                            version: (o.version + 1) as u128,
                            tnext: t,
                            ..o
                        }) && evs1 =~= evs0.push(
                            Event {
                                time: Time(time_after(now.0 as int, if t.0 >= now.0 { t.0 - now.0 } else { 0 }) as u128),
                                cmd: Command::Source(
                                    SourceCmd::TrySend { id: o.id, version: (o.version + 1) as u128 },
                                ),
                            },
                        )
                        &&& !wake ==> n == (Source {
                            flow_queue: n.flow_queue,
                            ..o
                        }) && evs1 =~= evs0
                    },
                    _ => n == o && evs1 =~= evs0,
                }
            })
    }

    /// Delivers `ack` to flow `flow_id`. An acknowledgement for a flow that has left, or for
    /// more bytes than the flow has in flight, is dropped. If the flow may then send before
    /// the source's scheduled wake-up, the source reschedules itself (no earlier than the link
    /// allows) under a new version, which invalidates the old wake-up.
    pub fn rcv_ack(&mut self, flow_id: FlowId, ack: Ack, ctx: &mut Context)
        requires
            old(self).wf(),
            old(self).version < u128::MAX,
            old(ctx).events().len() <= 8,
            old(ctx).wf(),
        ensures
            final(ctx).wf(),
            final(ctx).events().len() <= old(ctx).events().len() + 3,
            final(ctx).cur_time == old(ctx).cur_time,
            Source::rcv_ack_post(*old(self), *final(self), flow_id, ack, old(ctx).cur_time, old(ctx).events(), final(ctx).events()),
    {
        let now = ctx.cur_time;
        let found = self.flow_queue.find(flow_id);
        match found {
            Some(k) => {
                if ack.nr_bytes.0 > self.flow_queue.flows[k].on_the_fly().0 {
                    return;
                }
                self.flow_queue.flows[k].rcv_ack(ack);
                proof {
                    assert forall|q: int| 0 <= q < self.flow_queue.flows@.len() implies (
                    #[trigger] self.flow_queue.flows@[q]).wf() && self.flow_queue.flows@[q].spec_bytes_left()
                        > 0 by {
                        if q != k {
                            assert(self.flow_queue.flows@[q] == old(self).flow_queue.flows@[q]);
                        }
                    }
                }
                let ftnext = self.flow_queue.flows[k].tnext;
                if !self.flow_queue.flows[k].is_win_bound() && ftnext.0 < self.tnext.0 {
                    let t = if self.earliest_tnext.0 >= ftnext.0 { self.earliest_tnext } else { ftnext };
                    self.version = self.version + 1;
                    ctx.schedule(
                        t.saturating_sub(now),
                        Command::Source(SourceCmd::TrySend { id: self.id, version: self.version }),
                    );
                    self.tnext = t;
                }
            },
            None => {},
        }
    }

    pub open spec fn flow_arrive_post(o: Source, n: Source, desc: FlowDesc, params: SenderParams, now: Time, evs0: Seq<Event>, evs1: Seq<Event>) -> bool {
        &&& n.desc() == o.desc()
        &&& arrival_free(evs0) ==> arrival_free(evs1)
        &&& n.wf()
        &&& n.version == o.version || n.version == o.version + 1
        &&& (desc.size.0 == 0 || desc.delay2dst.0 < o.delay2btl.0) ==> n == o && evs1 =~= evs0
        &&& !(desc.size.0 == 0 || desc.delay2dst.0 < o.delay2btl.0) ==> {
                let nf = Flow::fresh(desc, o.delay2btl, o.link_rate, now, params);
                let q = RoundRobin { flows: o.flow_queue.flows@.push(nf), rr_next: o.flow_queue.rr_next as int };
                let attempt = o.earliest_tnext.0 <= now.0 && now.0 < o.tnext.0;
                &&& n.flow_info@ == o.flow_info@.push(info_of(desc, o.desc()))
                &&& n.records == o.records
                &&& !attempt ==> {
                    &&& n.flow_queue.flows@ == q.flows
                    &&& n.flow_queue.rr_next == o.flow_queue.rr_next
                    &&& n.version == o.version
                    &&& n.tnext == o.tnext
                    &&& n.earliest_tnext == o.earliest_tnext
                    &&& evs1 =~= evs0
                }
                &&& attempt ==> {
                    let v = (o.version + 1) as u128;
                    &&& n.flow_queue.flows@ == q.flows_after(now)
                    &&& n.flow_queue.rr_next == q.rr_after(now)
                    &&& n.version == v
                    &&& evs1 =~= evs0 + send_events(q, now, o.desc(), v)
                    &&& n.tnext == send_tnext(q, now, o.desc())
                    &&& n.earliest_tnext == send_earliest(q, now, o.desc(), o.earliest_tnext)
                }
            }
    }

    /// A new flow begins at `now`: it joins the queue at full rate, and the source tries to
    /// send at once if it is neither serializing nor already awake for it. A flow that is
    /// empty, or whose destination is nearer than the bottleneck, is not admitted.
    pub fn flow_arrive(&mut self, desc: FlowDesc, params: &SenderParams, ctx: &mut Context)
        requires
            old(self).wf(),
            old(self).version < u128::MAX,
            params.wf(),
            old(ctx).events().len() <= 8,
            old(ctx).wf(),
        ensures
            final(ctx).wf(),
            final(ctx).events().len() <= old(ctx).events().len() + 3,
            final(ctx).cur_time == old(ctx).cur_time,
            Source::flow_arrive_post(*old(self), *final(self), desc, *params, old(ctx).cur_time, old(ctx).events(), final(ctx).events()),
    {
        if desc.size.0 == 0 || desc.delay2dst.0 < self.delay2btl.0 {
            return;
        }
        let now = ctx.cur_time;
        let info = FlowInfo {
            id: desc.id,
            size: desc.size,
            start: desc.start,
            src2btl: self.delay2btl,
            btl2dst: Nanosecs(desc.delay2dst.0 - self.delay2btl.0),
            max_rate: self.link_rate,
        };
        self.flow_info.push(info);
        let flow = Flow::new(&desc, self.delay2btl, self.link_rate, now, params);
        self.flow_queue.add_flow(flow);
        if self.earliest_tnext.0 <= now.0 && now.0 < self.tnext.0 {
            self.version = self.version + 1;
            let v = self.version;
            self.try_send(v, ctx);
        }
    }

    pub open spec fn flow_depart_post(o: Source, n: Source, flow_id: FlowId, bw_btl: BitsPerSec, params: SenderParams, now: Time) -> bool {
        &&& n.wf()
        &&& n.desc() == o.desc()
        &&& ({
                let now = now.0;
                match info_index(o.flow_info@, flow_id) {
                    Some(k) => {
                        let info = o.flow_info@[k];
                        &&& n.flow_info@ == o.flow_info@.remove(k)
                        &&& n.records@ == o.records@.push(
                            Record {
                                id: info.id,
                                size: info.size,
                                start: info.start,
                                fct: Nanosecs(cap_u64(if now >= info.start.0 { now - info.start.0 } else { 0 }) as u64),
                                ideal: Nanosecs(ideal_fct_ns(
                                    info.size.0 as int,
                                    params.sz_pktmax.0 as int,
                                    params.sz_pkthdr.0 as int,
                                    info.max_rate.0 as int,
                                    bw_btl.0 as int,
                                    info.src2btl.0 as int,
                                    info.btl2dst.0 as int,
                                ) as u64),
                            },
                        )
                        &&& n == (Source {
                            flow_info: n.flow_info,
                            records: n.records,
                            ..o
                        })
                    },
                    None => n == o,
                }
            })
    }

    /// Flow `flow_id` has delivered all its bytes at `now`: its record, with the measured and
    /// the ideal completion times, is appended. A flow the source does not know is ignored.
    pub fn flow_depart(&mut self, flow_id: FlowId, bw_btl: BitsPerSec, params: &SenderParams, ctx: &Context)
        requires
            old(self).wf(),
            bw_btl.0 > 0,
            params.wf(),
        ensures
            Source::flow_depart_post(*old(self), *final(self), flow_id, bw_btl, *params, ctx.cur_time),
    {
        let mut k: usize = 0;
        while k < self.flow_info.len()
            invariant
                *self == *old(self),
                self.wf(),
                params.wf(),
                bw_btl.0 > 0,
                k <= self.flow_info@.len(),
                forall|j: int| 0 <= j < k ==> (#[trigger] self.flow_info@[j]).id != flow_id,
            decreases self.flow_info@.len() - k,
        {
            if self.flow_info[k].id.0 == flow_id.0 {
                let info = self.flow_info.remove(k);
                assert(info_index(old(self).flow_info@, flow_id) == Some(k as int)) by {
                    assert(info_found_at(old(self).flow_info@, flow_id, k as int));
                }
                let now = ctx.cur_time;
                let elapsed = now.saturating_sub(Time(info.start.0 as u128));
                let fct = if elapsed.0 > u64::MAX as u128 { Nanosecs(u64::MAX) } else { Nanosecs(elapsed.0 as u64) };
                let ideal = ideal_fct(
                    info.size,
                    params.sz_pktmax,
                    params.sz_pkthdr,
                    info.max_rate,
                    bw_btl,
                    info.src2btl,
                    info.btl2dst,
                );
                self.records.push(Record { id: info.id, size: info.size, start: info.start, fct, ideal });
                return;
            }
            k = k + 1;
        }
        assert(info_index(old(self).flow_info@, flow_id) is None);
    }
}

/// The first flow record with ID `id` sits at `k`.
pub open spec fn info_found_at(infos: Seq<FlowInfo>, id: FlowId, k: int) -> bool {
    &&& 0 <= k < infos.len()
    &&& infos[k].id == id
    &&& forall|j: int| 0 <= j < k ==> (#[trigger] infos[j]).id != id
}

/// The position of the first flow record with ID `id`, if any.
pub open spec fn info_index(infos: Seq<FlowInfo>, id: FlowId) -> Option<int> {
    if exists|k: int| info_found_at(infos, id, k) {
        Some(choose|k: int| info_found_at(infos, id, k))
    } else {
        None
    }
}

} // verus!
