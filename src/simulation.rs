//! The discrete-event loop.
use vstd::prelude::*;

use crate::bottleneck::Bottleneck;
use crate::count::{count, lemma_count_concat, lemma_count_push, lemma_count_remove, lemma_sum_update, one_if, sum};
use crate::event::{arrival_free, BottleneckCmd, Command, Context, Event, SourceCmd, WorkloadCmd};
use crate::flow::{FlowDesc, SenderParams};
use crate::ident::{FlowId, SourceId};
use crate::record::Record;
use crate::schedule::{is_first_earliest, Schedule};
use crate::source::{ideal_fct_ns, info_of, FlowInfo, Source, SourceDesc};
use crate::flow::time_after;
use crate::time::Time;
use crate::workload::until;
use crate::units::Nanosecs;
use crate::workload::Workload;

verus! {

/// The records of `sources`, source after source.
pub open spec fn all_records(sources: Seq<Source>) -> Seq<Record>
    decreases sources.len(),
{
    if sources.len() == 0 {
        Seq::empty()
    } else {
        all_records(sources.drop_last()) + sources.last().records@
    }
}

/// Record `r` describes flow `f`, sent by source `sd` through a bottleneck of `bw` bits per
/// second: it carries the flow's ID, size and start, and its ideal completion time.
pub open spec fn describes(r: Record, f: FlowDesc, sd: SourceDesc, bw: int, params: SenderParams) -> bool {
    &&& f.source == sd.id
    &&& f.delay2dst.0 >= sd.delay2btl.0
    &&& r.id == f.id
    &&& r.size == f.size
    &&& r.start == f.start
    &&& r.ideal == Nanosecs(
        ideal_fct_ns(
            f.size.0 as int,
            params.sz_pktmax.0 as int,
            params.sz_pkthdr.0 as int,
            sd.link_rate.0 as int,
            bw,
            sd.delay2btl.0 as int,
            f.delay2dst.0 - sd.delay2btl.0,
        ) as u64,
    )
}

/// A pending arrival is of one of `flows`, at its own source.
pub open spec fn arrival_ok(e: Event, flows: Seq<FlowDesc>) -> bool {
    e.cmd matches Command::Source(SourceCmd::FlowArrive { source, desc }) ==> flows.contains(desc)
        && desc.source == source
}

/// What a source `sd` keeps of a flow is of one of `flows`.
pub open spec fn info_sound(info: FlowInfo, sd: SourceDesc, flows: Seq<FlowDesc>) -> bool {
    exists|f: FlowDesc|
        #[trigger] flows.contains(f) && f.source == sd.id && f.delay2dst.0 >= sd.delay2btl.0 && info
            == info_of(f, sd)
}

/// A record of source `sd` describes one of `flows`.
pub open spec fn record_sound(r: Record, sd: SourceDesc, flows: Seq<FlowDesc>, bw: int, params: SenderParams) -> bool {
    exists|f: FlowDesc| #[trigger] flows.contains(f) && describes(r, f, sd, bw, params)
}

/// Record `r` describes one of `flows`, sent by one of the sources `sds`.
pub open spec fn record_of_some(r: Record, sds: Seq<SourceDesc>, flows: Seq<FlowDesc>, bw: int, params: SenderParams) -> bool {
    exists|s: int| 0 <= s < sds.len() && record_sound(r, #[trigger] sds[s], flows, bw, params)
}

/// What source `src` keeps, and has recorded, is of `flows`.
pub open spec fn source_sound(src: Source, flows: Seq<FlowDesc>, bw: int, params: SenderParams) -> bool {
    &&& forall|k: int| 0 <= k < src.flow_info@.len() ==> info_sound(#[trigger] src.flow_info@[k], src.desc(), flows)
    &&& forall|k: int|
        0 <= k < src.records@.len() ==> record_sound(#[trigger] src.records@[k], src.desc(), flows, bw, params)
}

/// Each record of `sources` is one of some source.
pub proof fn lemma_all_records(sources: Seq<Source>, i: int)
    requires
        0 <= i < all_records(sources).len(),
    ensures
        exists|s: int, k: int|
            0 <= s < sources.len() && 0 <= k < sources[s].records@.len() && sources[s].records@[k]
                == all_records(sources)[i],
    decreases sources.len(),
{
    if sources.len() > 0 {
        let init = sources.drop_last();
        let n = all_records(init).len();
        if i < n {
            lemma_all_records(init, i);
            let (s, k) = choose|s: int, k: int|
                0 <= s < init.len() && 0 <= k < init[s].records@.len() && init[s].records@[k]
                    == all_records(init)[i];
            assert(sources[s] == init[s]);
        } else {
            assert(sources[sources.len() - 1].records@[i - n] == all_records(sources)[i]);
        }
    }
}

/// Flow descriptions of flow `x`.
pub open spec fn of_flow(x: FlowId) -> spec_fn(FlowDesc) -> bool {
    |f: FlowDesc| f.id == x
}

/// Arrivals of flow `x`.
pub open spec fn arrival_of(x: FlowId) -> spec_fn(Event) -> bool {
    |e: Event| e.cmd matches Command::Source(SourceCmd::FlowArrive { desc, .. }) && desc.id == x
}

/// What a source keeps of flow `x`.
pub open spec fn info_of_flow(x: FlowId) -> spec_fn(FlowInfo) -> bool {
    |i: FlowInfo| i.id == x
}

/// Records of flow `x`.
pub open spec fn record_of_flow(x: FlowId) -> spec_fn(Record) -> bool {
    |r: Record| r.id == x
}

/// How often a source holds flow `x`: kept while it runs, or recorded once departed.
pub open spec fn held(x: FlowId) -> spec_fn(Source) -> nat {
    |s: Source| count(s.flow_info@, info_of_flow(x)) + count(s.records@, record_of_flow(x))
}

/// A list without arrivals has no arrival of any flow.
pub proof fn lemma_no_arrivals(evs: Seq<Event>, x: FlowId)
    requires
        arrival_free(evs),
    ensures
        count(evs, arrival_of(x)) == 0,
    decreases evs.len(),
{
    if evs.len() > 0 {
        assert(arrival_free(evs.drop_last())) by {
            assert forall|i: int| 0 <= i < evs.drop_last().len() implies !((#[trigger] evs.drop_last()[i]).cmd matches Command::Source(SourceCmd::FlowArrive { .. })) by {
                assert(evs.drop_last()[i] == evs[i]);
            }
        }
        lemma_no_arrivals(evs.drop_last(), x);
        assert(!(evs[evs.len() - 1].cmd matches Command::Source(SourceCmd::FlowArrive { .. })));
    }
}

/// The records of all sources hold flow `x` no more often than the sources do.
pub proof fn lemma_records_counted(sources: Seq<Source>, x: FlowId)
    ensures
        count(all_records(sources), record_of_flow(x)) <= sum(sources, held(x)),
    decreases sources.len(),
{
    if sources.len() > 0 {
        lemma_records_counted(sources.drop_last(), x);
        lemma_count_concat(all_records(sources.drop_last()), sources.last().records@, record_of_flow(x));
    }
}

/// The first source with ID `id` sits at `k`.
pub open spec fn source_found_at(sources: Seq<Source>, id: SourceId, k: int) -> bool {
    &&& 0 <= k < sources.len()
    &&& sources[k].id == id
    &&& forall|j: int| 0 <= j < k ==> (#[trigger] sources[j]).id != id
}

/// The position of the first source with ID `id`, if any.
pub open spec fn source_position(sources: Seq<Source>, id: SourceId) -> Option<int> {
    if exists|k: int| source_found_at(sources, id, k) {
        Some(choose|k: int| source_found_at(sources, id, k))
    } else {
        None
    }
}

/// The source a source command is for.
pub open spec fn target_of(scmd: SourceCmd) -> SourceId {
    match scmd {
        SourceCmd::TrySend { id, .. } => id,
        SourceCmd::RcvAck { source, .. } => source,
        SourceCmd::FlowArrive { source, .. } => source,
        SourceCmd::FlowDepart { source, .. } => source,
    }
}

/// The components `nw`, `ns`, `nb` are `ow`, `os`, `ob` after `cmd` is handled at `now`,
/// which schedules `evs`: the target changes as its handler says, the other components stay.
/// A command for an unknown source, or a packet for a sub-queue the port lacks, changes
/// nothing.
pub open spec fn handled(
    ow: Workload,
    os: Vec<Source>,
    ob: Bottleneck,
    params: SenderParams,
    nw: Workload,
    ns: Vec<Source>,
    nb: Bottleneck,
    cmd: Command,
    now: Time,
    evs: Seq<Event>,
) -> bool {
    match cmd {
        Command::Workload(WorkloadCmd::Step) => {
            &&& Workload::step_post(ow, nw, now, Seq::empty(), evs)
            &&& ns == os
            &&& nb == ob
        },
        Command::Source(scmd) => {
            &&& nw == ow
            &&& nb == ob
            &&& match source_position(os@, target_of(scmd)) {
                None => ns == os && evs.len() == 0,
                Some(k) => {
                    &&& ns@ == os@.update(k, ns@[k])
                    &&& match scmd {
                        SourceCmd::TrySend { version, .. } => Source::try_send_post(
                            os@[k],
                            ns@[k],
                            version,
                            now,
                            Seq::empty(),
                            evs,
                        ),
                        SourceCmd::RcvAck { flow, ack, .. } => Source::rcv_ack_post(
                            os@[k],
                            ns@[k],
                            flow,
                            ack,
                            now,
                            Seq::empty(),
                            evs,
                        ),
                        SourceCmd::FlowArrive { desc, .. } => Source::flow_arrive_post(
                            os@[k],
                            ns@[k],
                            desc,
                            params,
                            now,
                            Seq::empty(),
                            evs,
                        ),
                        SourceCmd::FlowDepart { flow, .. } => Source::flow_depart_post(
                            os@[k],
                            ns@[k],
                            flow,
                            ob.bandwidth,
                            params,
                            now,
                        ) && evs.len() == 0,
                    }
                },
            }
        },
        Command::Bottleneck(BottleneckCmd::Receive(pkt)) => {
            &&& nw == ow
            &&& ns == os
            &&& if pkt.qindex.0 < ob.port.nr_queues() {
                Bottleneck::receive_post(ob, nb, pkt, params.sz_pkthdr, now, Seq::empty(), evs)
            } else {
                nb == ob && evs.len() == 0
            }
        },
        Command::Bottleneck(BottleneckCmd::Step) => {
            &&& nw == ow
            &&& ns == os
            &&& Bottleneck::step_post(ob, nb, params.sz_pkthdr, now, Seq::empty(), evs)
        },
    }
}

/// `new` is `old` after one step: the first of the earliest pending events leaves the
/// schedule, time moves to it, its target handles it, and the events that produces join the
/// schedule.
pub open spec fn stepped(old: Simulation, new: Simulation) -> bool {
    exists|k: int, evs: Seq<Event>|
        {
            &&& is_first_earliest(old.schedule.events@, k)
            &&& new.cur_time == old.schedule.events@[k].time
            &&& new.schedule.events@ == old.schedule.events@.remove(k) + evs
            &&& #[trigger] handled(
                old.workload,
                old.sources,
                old.bottleneck,
                old.params,
                new.workload,
                new.sources,
                new.bottleneck,
                old.schedule.events@[k].cmd,
                old.schedule.events@[k].time,
                evs,
            )
            &&& new.steps == old.steps + 1
            &&& new.params == old.params
            &&& new.timeout == old.timeout
        }
}

/// Whether the loop is over at `sim`: nothing is pending, time has passed the timeout, or the
/// largest number of events was dispatched.
pub open spec fn stops(sim: Simulation) -> bool {
    ||| sim.schedule.events@.len() == 0
    ||| (sim.timeout matches Some(t) && sim.cur_time.0 > t.0)
    ||| sim.steps == u64::MAX
}

/// `trace` is a run: each state steps to the next, and only the last one stops.
pub open spec fn is_run(trace: Seq<Simulation>) -> bool {
    &&& trace.len() > 0
    &&& forall|i: int|
        #![trigger trace[i]]
        0 <= i < trace.len() - 1 ==> !stops(trace[i]) && stepped(trace[i], trace[i + 1])
    &&& stops(trace.last())
}

/// `first` is `sim` with the first workload step scheduled at time zero.
pub open spec fn started(first: Simulation, sim: Simulation) -> bool {
    &&& first.schedule.events@ == sim.schedule.events@.push(
        Event { time: Time(0), cmd: Command::Workload(WorkloadCmd::Step) },
    )
    &&& first == Simulation { schedule: first.schedule, ..sim }
}

/// Running `sim` gives the records `recs`: those of the last state of the run that starts
/// from it, source after source.
pub open spec fn outcome(sim: Simulation, recs: Seq<Record>) -> bool {
    exists|trace: Seq<Simulation>|
        #[trigger] is_run(trace) && started(trace[0], sim) && recs == all_records(trace.last().sources@)
}

/// A simulation: the components, the pending events and the current time.
pub struct Simulation {
    pub cur_time: Time,
    pub schedule: Schedule,
    pub workload: Workload,
    pub sources: Vec<Source>,
    pub bottleneck: Bottleneck,
    pub params: SenderParams,
    /// Events after this time are not dispatched.
    pub timeout: Option<Time>,
    /// The events dispatched so far.
    pub steps: u64,
    /// The flows configured.
    pub configured: Ghost<Seq<FlowDesc>>,
}

impl Simulation {
    /// The components are well formed, no source has bumped its version more often than
    /// events were dispatched, and no pending event is due before the current time.
    pub open spec fn wf(&self) -> bool {
        &&& self.params.wf()
        &&& self.bottleneck.wf()
        &&& forall|i: int| 0 <= i < self.sources@.len() ==> (#[trigger] self.sources@[i]).wf()
        &&& forall|i: int| 0 <= i < self.sources@.len() ==> (#[trigger] self.sources@[i]).version <= self.steps
        &&& forall|i: int|
            0 <= i < self.schedule.events@.len() ==> (#[trigger] self.schedule.events@[i]).time.0
                >= self.cur_time.0
    }

    /// How often flow `x` is still to arrive, pending arrival, running or recorded.
    pub open spec fn held_total(&self, x: FlowId) -> nat {
        count(self.workload.flows@, of_flow(x)) + sum(self.sources@, held(x))
    }

    pub open spec fn tally(&self, x: FlowId) -> nat {
        self.held_total(x) + count(self.schedule.events@, arrival_of(x))
    }

    /// No flow is held more often than it is configured.
    pub open spec fn accounted(&self) -> bool {
        forall|x: FlowId| #[trigger] self.tally(x) <= count(self.configured@, of_flow(x))
    }

    /// The configuration of each source.
    pub open spec fn descs(&self) -> Seq<SourceDesc> {
        Seq::new(self.sources@.len(), |s: int| self.sources@[s].desc())
    }

    /// Everything pending or kept is of `flows`: the flows still to arrive, the pending
    /// arrivals, what each source keeps of its flows, and each record.
    pub open spec fn sound(&self) -> bool {
        let flows = self.configured@;
        &&& forall|i: int| 0 <= i < self.workload.flows@.len() ==> flows.contains(#[trigger] self.workload.flows@[i])
        &&& forall|i: int| 0 <= i < self.schedule.events@.len() ==> arrival_ok(#[trigger] self.schedule.events@[i], flows)
        &&& forall|s: int|
            0 <= s < self.sources@.len() ==> source_sound(
                #[trigger] self.sources@[s],
                flows,
                self.bottleneck.bandwidth.0 as int,
                self.params,
            )
    }

    /// The position of the first source with ID `id`, if any.
    fn find_source(&self, id: SourceId) -> (r: Option<usize>)
        ensures
            r matches Some(k) ==> k < self.sources@.len() && self.sources@[k as int].id == id
                && source_position(self.sources@, id) == Some(k as int),
            r is None ==> source_position(self.sources@, id) is None,
    {
        let mut k: usize = 0;
        while k < self.sources.len()
            invariant
                k <= self.sources@.len(),
                forall|j: int| 0 <= j < k ==> (#[trigger] self.sources@[j]).id != id,
            decreases self.sources@.len() - k,
        {
            if self.sources[k].id.0 == id.0 {
                proof {
                    assert(source_found_at(self.sources@, id, k as int));
                    let c = choose|c: int| source_found_at(self.sources@, id, c);
                    assert(c == k) by {
                        if c < k {
                            assert(self.sources@[c].id != id);
                        } else if c > k {
                            assert(self.sources@[k as int].id != id);
                        }
                    }
                }
                return Some(k);
            }
            k = k + 1;
        }
        None
    }

    /// Dispatches `cmd` to its target, which schedules its follow-up events through `ctx`.
    /// A command for an unknown source, or a packet for a sub-queue the port lacks, is
    /// dropped.
    #[verifier::rlimit(100)]
    fn apply(&mut self, cmd: Command, ctx: &mut Context)
        requires
            old(self).sound(),
            arrival_ok(Event { time: old(ctx).cur_time, cmd }, old(self).configured@),
            old(self).wf(),
            old(ctx).wf(),
            old(ctx).events().len() == 0,
            old(self).steps < u64::MAX,
        ensures
            final(ctx).wf(),
            final(ctx).cur_time == old(ctx).cur_time,
            final(self).params == old(self).params,
            final(self).bottleneck.wf(),
            final(self).cur_time == old(self).cur_time,
            final(self).schedule == old(self).schedule,
            final(self).steps == old(self).steps,
            final(self).timeout == old(self).timeout,
            final(self).configured == old(self).configured,
            handled(
                old(self).workload,
                old(self).sources,
                old(self).bottleneck,
                old(self).params,
                final(self).workload,
                final(self).sources,
                final(self).bottleneck,
                cmd,
                old(ctx).cur_time,
                final(ctx).events(),
            ),
            final(self).sources@.len() == old(self).sources@.len(),
            final(self).bottleneck.bandwidth == old(self).bottleneck.bandwidth,
            forall|i: int|
                0 <= i < final(self).sources@.len() ==> (#[trigger] final(self).sources@[i]).desc()
                    == old(self).sources@[i].desc(),
            forall|i: int| 0 <= i < final(ctx).events().len() ==> arrival_ok(#[trigger] final(ctx).events()[i], old(self).configured@),
            forall|i: int| 0 <= i < final(self).workload.flows@.len() ==> old(self).configured@.contains(#[trigger] final(self).workload.flows@[i]),
            forall|s: int|
                0 <= s < final(self).sources@.len() ==> source_sound(
                    #[trigger] final(self).sources@[s],
                    old(self).configured@,
                    final(self).bottleneck.bandwidth.0 as int,
                    final(self).params,
                ),
            forall|i: int| 0 <= i < final(self).sources@.len() ==> (#[trigger] final(self).sources@[i]).wf(),
            forall|i: int|
                0 <= i < final(self).sources@.len() ==> (#[trigger] final(self).sources@[i]).version
                    <= old(self).steps + 1,
            forall|x: FlowId|
                #[trigger] final(self).held_total(x) + count(final(ctx).events(), arrival_of(x)) <= old(self).held_total(x)
                    + one_if(arrival_of(x), Event { time: old(ctx).cur_time, cmd }),
    {
        let ghost flows = self.configured@;
        let hdr = self.params.sz_pkthdr;
        match cmd {
            Command::Workload(WorkloadCmd::Step) => {
                self.workload.step(ctx);
                proof {
                    let w = old(self).workload.flows@;
                    let now = old(ctx).cur_time.0 as int;
                    assert forall|x: FlowId|
                        #[trigger] self.held_total(x) + count(ctx.events(), arrival_of(x)) <= old(self).held_total(x)
                            + one_if(arrival_of(x), Event { time: old(ctx).cur_time, cmd }) by {
                        if w.len() > 0 {
                            let f = w[0];
                            let rest = w.subrange(1, w.len() as int);
                            let arrive = Event {
                                time: Time(time_after(now, until(f.start.0 as int, now)) as u128),
                                cmd: Command::Source(SourceCmd::FlowArrive { source: f.source, desc: f }),
                            };
                            assert(rest =~= w.remove(0));
                            lemma_count_remove(w, 0, of_flow(x));
                            lemma_count_push(old(ctx).events(), arrive, arrival_of(x));
                            if rest.len() > 0 {
                                let step = Event {
                                    time: Time(time_after(now, until(rest[0].start.0 as int, now)) as u128),
                                    cmd: Command::Workload(WorkloadCmd::Step),
                                };
                                lemma_count_push(old(ctx).events().push(arrive), step, arrival_of(x));
                            }
                        }
                    }
                    let old_flows = old(self).workload.flows@;
                    if old_flows.len() > 0 {
                        assert(flows.contains(old_flows[0]));
                        assert forall|i: int| 0 <= i < self.workload.flows@.len() implies flows.contains(
                            #[trigger] self.workload.flows@[i],
                        ) by {
                            assert(self.workload.flows@[i] == old_flows[i + 1]);
                        }
                    }
                }
            },
            Command::Source(scmd) => {
                let id = match scmd {
                    SourceCmd::TrySend { id, .. } => id,
                    SourceCmd::RcvAck { source, .. } => source,
                    SourceCmd::FlowArrive { source, .. } => source,
                    SourceCmd::FlowDepart { source, .. } => source,
                };
                let k = match self.find_source(id) {
                    Some(k) => k,
                    None => {
                        return;
                    },
                };
                assert(self.sources@[k as int].wf());
                assert(self.sources@[k as int].version <= self.steps);
                assert(source_sound(self.sources@[k as int], flows, self.bottleneck.bandwidth.0 as int, self.params));
                let params = self.params;
                let bw = self.bottleneck.bandwidth;
                let ghost before = self.sources@[k as int];
                match scmd {
                    SourceCmd::TrySend { version, .. } => {
                        self.sources[k].try_send(version, ctx);
                        assert(self.sources@[k as int].flow_info == before.flow_info);
                        assert(self.sources@[k as int].records == before.records);
                        assert forall|x: FlowId| #[trigger] held(x)(self.sources@[k as int]) == held(x)(before) by {}
                    },
                    SourceCmd::RcvAck { flow, ack, .. } => {
                        self.sources[k].rcv_ack(flow, ack, ctx);
                        assert(self.sources@[k as int].flow_info == before.flow_info);
                        assert(self.sources@[k as int].records == before.records);
                        assert forall|x: FlowId| #[trigger] held(x)(self.sources@[k as int]) == held(x)(before) by {}
                    },
                    SourceCmd::FlowArrive { desc, .. } => {
                        self.sources[k].flow_arrive(desc, &params, ctx);
                        proof {
                            let after = self.sources@[k as int];
                            assert forall|x: FlowId|
                                #[trigger] held(x)(after) <= held(x)(before) + one_if(
                                    arrival_of(x),
                                    Event { time: old(ctx).cur_time, cmd },
                                ) by {
                                if !(desc.size.0 == 0 || desc.delay2dst.0 < before.delay2btl.0) {
                                    lemma_count_push(before.flow_info@, info_of(desc, before.desc()), info_of_flow(x));
                                }
                            }
                            assert(flows.contains(desc) && desc.source == before.id);
                            assert forall|q: int| 0 <= q < after.flow_info@.len() implies info_sound(
                                #[trigger] after.flow_info@[q],
                                after.desc(),
                                flows,
                            ) by {
                                if q < before.flow_info@.len() {
                                    assert(after.flow_info@[q] == before.flow_info@[q]);
                                } else {
                                    assert(after.flow_info@[q] == info_of(desc, after.desc()));
                                }
                            }
                        }
                    },
                    SourceCmd::FlowDepart { flow, .. } => {
                        self.sources[k].flow_depart(flow, bw, &params, ctx);
                        proof {
                            let after = self.sources@[k as int];
                            match crate::source::info_index(before.flow_info@, flow) {
                                Some(j) => {
                                    let info = before.flow_info@[j];
                                    assert forall|x: FlowId| #[trigger] held(x)(after) == held(x)(before) by {
                                        lemma_count_remove(before.flow_info@, j, info_of_flow(x));
                                        lemma_count_push(before.records@, after.records@.last(), record_of_flow(x));
                                        assert(after.records@ =~= before.records@.push(after.records@.last()));
                                    }
                                    assert(info_sound(info, before.desc(), flows));
                                    let f = choose|f: FlowDesc|
                                        #[trigger] flows.contains(f) && f.source == before.desc().id && f.delay2dst.0
                                            >= before.desc().delay2btl.0 && info == info_of(f, before.desc());
                                    assert(describes(after.records@[after.records@.len() - 1], f, after.desc(), bw.0 as int, params));
                                    assert(record_sound(after.records@[after.records@.len() - 1], after.desc(), flows, bw.0 as int, params));
                                    assert forall|q: int| 0 <= q < after.flow_info@.len() implies info_sound(
                                        #[trigger] after.flow_info@[q],
                                        after.desc(),
                                        flows,
                                    ) by {
                                        if q < j {
                                            assert(after.flow_info@[q] == before.flow_info@[q]);
                                        } else {
                                            assert(after.flow_info@[q] == before.flow_info@[q + 1]);
                                        }
                                    }
                                    assert forall|q: int| 0 <= q < after.records@.len() implies record_sound(
                                        #[trigger] after.records@[q],
                                        after.desc(),
                                        flows,
                                        bw.0 as int,
                                        params,
                                    ) by {
                                        if q < before.records@.len() {
                                            assert(after.records@[q] == before.records@[q]);
                                        }
                                    }
                                },
                                None => {
                                    assert forall|x: FlowId| #[trigger] held(x)(after) == held(x)(before) by {}
                                },
                            }
                        }
                    },
                }
                proof {
                    assert(self.sources@ =~= old(self).sources@.update(k as int, self.sources@[k as int]));
                    assert forall|x: FlowId|
                        #[trigger] self.held_total(x) + count(ctx.events(), arrival_of(x)) <= old(self).held_total(x)
                            + one_if(arrival_of(x), Event { time: old(ctx).cur_time, cmd }) by {
                        lemma_sum_update(old(self).sources@, k as int, self.sources@[k as int], held(x));
                        lemma_no_arrivals(ctx.events(), x);
                        assert(held(x)(self.sources@[k as int]) <= held(x)(before) + one_if(
                            arrival_of(x),
                            Event { time: old(ctx).cur_time, cmd },
                        ));
                    }
                }
                assert forall|i: int| 0 <= i < self.sources@.len() implies (#[trigger] self.sources@[i]).wf()
                    && self.sources@[i].version <= old(self).steps + 1 && self.sources@[i].desc()
                    == old(self).sources@[i].desc() && source_sound(
                    self.sources@[i],
                    flows,
                    self.bottleneck.bandwidth.0 as int,
                    self.params,
                ) by {
                    if i != k {
                        assert(self.sources@[i] == old(self).sources@[i]);
                    }
                }
            },
            Command::Bottleneck(BottleneckCmd::Receive(pkt)) => {
                proof {
                    self.bottleneck.port.lemma_drr_view();
                }
                if pkt.qindex.0 < self.bottleneck.port.nr_queues_exec() {
                    self.bottleneck.receive(pkt, hdr, ctx);
                }
                assert forall|x: FlowId|
                    #[trigger] self.held_total(x) + count(ctx.events(), arrival_of(x)) <= old(self).held_total(x)
                        + one_if(arrival_of(x), Event { time: old(ctx).cur_time, cmd }) by {
                    lemma_no_arrivals(ctx.events(), x);
                }
            },
            Command::Bottleneck(BottleneckCmd::Step) => {
                self.bottleneck.step(hdr, ctx);
                assert forall|x: FlowId|
                    #[trigger] self.held_total(x) + count(ctx.events(), arrival_of(x)) <= old(self).held_total(x)
                        + one_if(arrival_of(x), Event { time: old(ctx).cur_time, cmd }) by {
                    lemma_no_arrivals(ctx.events(), x);
                }
            },
        }
    }

    /// Dispatches the earliest pending event: time advances to it, its target handles it, and
    /// the events that produces join the schedule. Time never goes back.
    pub fn step(&mut self)
        requires
            old(self).wf(),
            old(self).sound(),
            old(self).accounted(),
            old(self).schedule.events@.len() > 0,
            old(self).steps < u64::MAX,
        ensures
            stepped(*old(self), *final(self)),
            final(self).wf(),
            final(self).sound(),
            final(self).accounted(),
            final(self).configured == old(self).configured,
            final(self).params == old(self).params,
            final(self).bottleneck.bandwidth == old(self).bottleneck.bandwidth,
            forall|i: int|
                0 <= i < final(self).sources@.len() ==> (#[trigger] final(self).sources@[i]).desc()
                    == old(self).sources@[i].desc(),
            final(self).steps == old(self).steps + 1,
            final(self).cur_time.0 >= old(self).cur_time.0,
            final(self).timeout == old(self).timeout,
            final(self).sources@.len() == old(self).sources@.len(),
    {
        let ev = match self.schedule.pop() {
            Some(ev) => ev,
            None => {
                return;
            },
        };
        let ghost k = choose|k: int|
            is_first_earliest(old(self).schedule.events@, k) && Some(ev) == Some(old(self).schedule.events@[k])
                && self.schedule.events@ == old(self).schedule.events@.remove(k);
        assert(ev.time.0 >= old(self).cur_time.0);
        assert(arrival_ok(ev, self.configured@));
        assert forall|i: int| 0 <= i < self.schedule.events@.len() implies (
        #[trigger] self.schedule.events@[i]).time.0 >= ev.time.0 && arrival_ok(
            self.schedule.events@[i],
            self.configured@,
        ) by {
            if i < k {
                assert(self.schedule.events@[i] == old(self).schedule.events@[i]);
            } else {
                assert(self.schedule.events@[i] == old(self).schedule.events@[i + 1]);
            }
        }
        self.cur_time = ev.time;
        let mut ctx = Context::new(ev.time);
        let ghost pre = *self;
        self.apply(ev.cmd, &mut ctx);
        let ghost mid = *self;
        let evs = ctx.into_events();
        let ghost popped = self.schedule.events@;
        self.schedule.push_all(&evs);
        self.steps = self.steps + 1;
        proof {
            assert forall|x: FlowId| #[trigger] self.tally(x) <= count(self.configured@, of_flow(x)) by {
                lemma_count_remove(old(self).schedule.events@, k, arrival_of(x));
                lemma_count_concat(popped, evs@, arrival_of(x));
                assert(old(self).tally(x) <= count(old(self).configured@, of_flow(x)));
                assert(one_if(arrival_of(x), Event { time: ev.time, cmd: ev.cmd }) == one_if(arrival_of(x), ev));
                assert(mid.held_total(x) + count(evs@, arrival_of(x)) <= pre.held_total(x) + one_if(
                    arrival_of(x),
                    Event { time: ev.time, cmd: ev.cmd },
                ));
                assert(pre.held_total(x) == old(self).held_total(x));
                assert(self.held_total(x) == mid.held_total(x));
            }
            assert(self.schedule.events@ == old(self).schedule.events@.remove(k) + evs@);
            assert(handled(
                old(self).workload,
                old(self).sources,
                old(self).bottleneck,
                old(self).params,
                self.workload,
                self.sources,
                self.bottleneck,
                old(self).schedule.events@[k].cmd,
                old(self).schedule.events@[k].time,
                evs@,
            ));
        }
        assert forall|j: int| 0 <= j < self.schedule.events@.len() implies (
        #[trigger] self.schedule.events@[j]).time.0 >= self.cur_time.0 && arrival_ok(
            self.schedule.events@[j],
            self.configured@,
        ) by {
            let m = self.schedule.events@.len() - evs@.len();
            if j >= m {
                assert(self.schedule.events@[j] == evs@[j - m]);
            }
        }
    }

    /// Whether the loop is over: nothing is pending, or time has passed the timeout.
    pub fn should_stop(&self) -> (r: bool)
        ensures
            r <==> self.schedule.events@.len() == 0 || (self.timeout matches Some(t) && self.cur_time.0 > t.0),
    {
        if self.schedule.is_empty() {
            return true;
        }
        match self.timeout {
            Some(t) => self.cur_time.0 > t.0,
            None => false,
        }
    }

    /// Runs the simulation from the first workload step at time zero until nothing is pending
    /// or the timeout has passed (or `u64::MAX` events were dispatched), and returns the
    /// records of all sources, source after source.
    /// Each record describes one of the flows configured, sent by one of the sources.
    pub fn run(self) -> (r: Vec<Record>)
        requires
            self.wf(),
            self.sound(),
            self.accounted(),
            self.cur_time.0 == 0,
        ensures
            outcome(self, r@),
            forall|x: FlowId| #[trigger] count(r@, record_of_flow(x)) <= count(self.configured@, of_flow(x)),
            forall|i: int|
                0 <= i < r@.len() ==> record_of_some(
                    #[trigger] r@[i],
                    self.descs(),
                    self.configured@,
                    self.bottleneck.bandwidth.0 as int,
                    self.params,
                ),
    {
        let ghost first = self;
        let mut sim = self;
        sim.schedule.push(Event::new(Time(0), Command::Workload(WorkloadCmd::Step)));
        assert forall|i: int| 0 <= i < sim.schedule.events@.len() implies arrival_ok(
            #[trigger] sim.schedule.events@[i],
            sim.configured@,
        ) by {
            if i < first.schedule.events@.len() {
                assert(sim.schedule.events@[i] == first.schedule.events@[i]);
            }
        }
        assert forall|x: FlowId| #[trigger] sim.tally(x) <= count(sim.configured@, of_flow(x)) by {
            lemma_count_push(first.schedule.events@, Event { time: Time(0), cmd: Command::Workload(WorkloadCmd::Step) }, arrival_of(x));
            assert(first.tally(x) <= count(first.configured@, of_flow(x)));
            assert(sim.held_total(x) == first.held_total(x));
        }
        let ghost mut trace: Seq<Simulation> = seq![sim];
        assert(started(trace[0], first));
        while sim.steps < u64::MAX && !sim.should_stop()
            invariant
                trace.len() > 0,
                trace.last() == sim,
                started(trace[0], first),
                forall|i: int|
                    #![trigger trace[i]]
                    0 <= i < trace.len() - 1 ==> !stops(trace[i]) && stepped(trace[i], trace[i + 1]),
                sim.wf(),
                sim.sound(),
                sim.accounted(),
                sim.configured == first.configured,
                sim.params == first.params,
                sim.bottleneck.bandwidth == first.bottleneck.bandwidth,
                sim.sources@.len() == first.sources@.len(),
                forall|i: int|
                    0 <= i < sim.sources@.len() ==> (#[trigger] sim.sources@[i]).desc() == first.sources@[i].desc(),
            decreases u64::MAX - sim.steps,
        {
            let ghost prev = sim;
            sim.step();
            proof {
                let t0 = trace;
                trace = trace.push(sim);
                assert forall|i: int|
                    #![trigger trace[i]]
                    0 <= i < trace.len() - 1 implies !stops(trace[i]) && stepped(trace[i], trace[i + 1]) by {
                    if i < t0.len() - 1 {
                        assert(trace[i] == t0[i] && trace[i + 1] == t0[i + 1]);
                    } else {
                        assert(trace[i] == prev);
                    }
                }
            }
        }
        assert(stops(sim));
        assert(is_run(trace));
        let ghost sources = sim.sources@;
        let ghost last = sim;
        let r = sim.finish();
        assert(outcome(first, r@)) by {
            assert(is_run(trace) && started(trace[0], first) && r@ == all_records(trace.last().sources@));
        }
        assert forall|x: FlowId| #[trigger] count(r@, record_of_flow(x)) <= count(first.configured@, of_flow(x)) by {
            lemma_records_counted(sources, x);
            assert(last.tally(x) <= count(last.configured@, of_flow(x)));
        }
        assert forall|i: int| 0 <= i < r@.len() implies record_of_some(
            #[trigger] r@[i],
            first.descs(),
            first.configured@,
            first.bottleneck.bandwidth.0 as int,
            first.params,
        ) by {
            lemma_all_records(sources, i);
            let (s, k) = choose|s: int, k: int|
                0 <= s < sources.len() && 0 <= k < sources[s].records@.len() && sources[s].records@[k]
                    == all_records(sources)[i];
            assert(source_sound(sources[s], first.configured@, first.bottleneck.bandwidth.0 as int, first.params));
            assert(record_sound(sources[s].records@[k], sources[s].desc(), first.configured@, first.bottleneck.bandwidth.0 as int, first.params));
            assert(first.descs()[s] == sources[s].desc());
        }
        r
    }

    /// The records of all sources, source after source.
    pub fn finish(self) -> (r: Vec<Record>)
        ensures
            r@ == all_records(self.sources@),
    {
        let mut out: Vec<Record> = Vec::new();
        let mut i: usize = 0;
        while i < self.sources.len()
            invariant
                i <= self.sources@.len(),
                out@ == all_records(self.sources@.subrange(0, i as int)),
            decreases self.sources@.len() - i,
        {
            let recs = &self.sources[i].records;
            let mut j: usize = 0;
            while j < recs.len()
                invariant
                    j <= recs@.len(),
                    out@ == all_records(self.sources@.subrange(0, i as int)) + recs@.subrange(0, j as int),
                decreases recs@.len() - j,
            {
                out.push(recs[j]);
                j = j + 1;
                assert(out@ =~= all_records(self.sources@.subrange(0, i as int)) + recs@.subrange(0, j as int));
            }
            assert(self.sources@.subrange(0, i + 1).drop_last() =~= self.sources@.subrange(0, i as int));
            assert(recs@.subrange(0, recs@.len() as int) =~= recs@);
            i = i + 1;
        }
        assert(self.sources@.subrange(0, self.sources@.len() as int) =~= self.sources@);
        out
    }
}

} // verus!
