//! A run is determined by its start: states that agree in what they hold step to states that
//! agree, and end with the same records.
use vstd::prelude::*;

use crate::bottleneck::Bottleneck;
use crate::event::{BottleneckCmd, Command, Event, SourceCmd};
use crate::flow::{FlowDesc, SenderParams};
use crate::ident::FlowId;
use crate::packet::{Ack, Packet};
use crate::time::Time;
use crate::units::{BitsPerSec, Bytes};
use crate::record::Record;
use crate::schedule::is_first_earliest;
use crate::simulation::{
    all_records, handled, is_run, outcome, source_found_at, source_position, started, stepped,
    stops, target_of, Simulation,
};
use crate::source::Source;
use crate::workload::Workload;

verus! {

/// Two sources hold the same.
pub open spec fn same_source(a: Source, b: Source) -> bool {
    &&& a.id == b.id
    &&& a.delay2btl == b.delay2btl
    &&& a.link_rate == b.link_rate
    &&& a.earliest_tnext == b.earliest_tnext
    &&& a.tnext == b.tnext
    &&& a.version == b.version
    &&& a.flow_queue.flows@ == b.flow_queue.flows@
    &&& a.flow_queue.rr_next == b.flow_queue.rr_next
    &&& a.flow_info@ == b.flow_info@
    &&& a.records@ == b.records@
}

/// Two lists of sources hold the same.
pub open spec fn same_sources(a: Seq<Source>, b: Seq<Source>) -> bool {
    &&& a.len() == b.len()
    &&& forall|i: int| 0 <= i < a.len() ==> same_source(#[trigger] a[i], b[i])
}

/// Two bottlenecks hold the same.
pub open spec fn same_bottleneck(a: Bottleneck, b: Bottleneck) -> bool {
    &&& a.bandwidth == b.bandwidth
    &&& a.marking_threshold == b.marking_threshold
    &&& a.status == b.status
    &&& a.port.queues_view() == b.port.queues_view()
    &&& a.port.drr() == b.port.drr()
}

/// Two simulations hold the same: the same time, pending events, flows to arrive, sources
/// and bottleneck.
pub open spec fn same_state(a: Simulation, b: Simulation) -> bool {
    &&& a.cur_time == b.cur_time
    &&& a.steps == b.steps
    &&& a.timeout == b.timeout
    &&& a.params == b.params
    &&& a.schedule.events@ == b.schedule.events@
    &&& a.workload.flows@ == b.workload.flows@
    &&& same_sources(a.sources@, b.sources@)
    &&& same_bottleneck(a.bottleneck, b.bottleneck)
}

proof fn lemma_first_earliest_unique(s: Seq<Event>, k1: int, k2: int)
    requires
        is_first_earliest(s, k1),
        is_first_earliest(s, k2),
    ensures
        k1 == k2,
{
    if k1 < k2 {
        assert(s[k2].time.0 < s[k1].time.0);
    } else if k2 < k1 {
        assert(s[k1].time.0 < s[k2].time.0);
    }
}

proof fn lemma_source_position_same(a: Seq<Source>, b: Seq<Source>, id: crate::ident::SourceId)
    requires
        same_sources(a, b),
    ensures
        source_position(a, id) == source_position(b, id),
{
    assert forall|k: int| source_found_at(a, id, k) <==> source_found_at(b, id, k) by {
        if 0 <= k < a.len() {
            assert(same_source(a[k], b[k]));
            assert forall|j: int| 0 <= j < k implies a[j].id == b[j].id by {
                assert(same_source(a[j], b[j]));
            }
        }
    }
    if exists|k: int| source_found_at(a, id, k) {
        let ka = choose|k: int| source_found_at(a, id, k);
        let kb = choose|k: int| source_found_at(b, id, k);
        assert(source_found_at(b, id, ka));
        if ka < kb {
            assert(b[ka].id != id);
        } else if kb < ka {
            assert(a[kb].id != id);
        }
    }
}

proof fn lemma_try_send_same(oa: Source, na: Source, ob: Source, nb: Source, version: u128, now: Time, ea: Seq<Event>, eb: Seq<Event>)
    requires
        same_source(oa, ob),
        Source::try_send_post(oa, na, version, now, Seq::empty(), ea),
        Source::try_send_post(ob, nb, version, now, Seq::empty(), eb),
    ensures
        same_source(na, nb),
        ea == eb,
{
    assert(oa.flow_queue.rr() == ob.flow_queue.rr());
    assert(oa.desc() == ob.desc());
    assert(ea =~= eb);
}

#[verifier::rlimit(100)]
proof fn lemma_rcv_ack_same(oa: Source, na: Source, ob: Source, nb: Source, flow: FlowId, ack: Ack, now: Time, ea: Seq<Event>, eb: Seq<Event>)
    requires
        same_source(oa, ob),
        Source::rcv_ack_post(oa, na, flow, ack, now, Seq::empty(), ea),
        Source::rcv_ack_post(ob, nb, flow, ack, now, Seq::empty(), eb),
    ensures
        same_source(na, nb),
        ea == eb,
{
    assert(oa.flow_queue.find_spec(flow) == ob.flow_queue.find_spec(flow));
    assert(ea =~= eb);
}

proof fn lemma_flow_arrive_same(oa: Source, na: Source, ob: Source, nb: Source, desc: FlowDesc, params: SenderParams, now: Time, ea: Seq<Event>, eb: Seq<Event>)
    requires
        same_source(oa, ob),
        Source::flow_arrive_post(oa, na, desc, params, now, Seq::empty(), ea),
        Source::flow_arrive_post(ob, nb, desc, params, now, Seq::empty(), eb),
    ensures
        same_source(na, nb),
        ea == eb,
{
    assert(oa.desc() == ob.desc());
    assert(ea =~= eb);
}

proof fn lemma_flow_depart_same(oa: Source, na: Source, ob: Source, nb: Source, flow: FlowId, bw: BitsPerSec, params: SenderParams, now: Time)
    requires
        same_source(oa, ob),
        Source::flow_depart_post(oa, na, flow, bw, params, now),
        Source::flow_depart_post(ob, nb, flow, bw, params, now),
    ensures
        same_source(na, nb),
{
}

proof fn lemma_receive_same(oa: Bottleneck, na: Bottleneck, ob: Bottleneck, nb: Bottleneck, pkt: Packet, hdr: Bytes, now: Time, ea: Seq<Event>, eb: Seq<Event>)
    requires
        same_bottleneck(oa, ob),
        Bottleneck::receive_post(oa, na, pkt, hdr, now, Seq::empty(), ea),
        Bottleneck::receive_post(ob, nb, pkt, hdr, now, Seq::empty(), eb),
    ensures
        same_bottleneck(na, nb),
        ea == eb,
{
    assert(ea =~= eb);
    na.port.lemma_drr_view();
    nb.port.lemma_drr_view();
    assert(na.port.drr().heads == nb.port.drr().heads);
    assert(na.port.drr() == nb.port.drr());
}

proof fn lemma_serve_same(oa: Bottleneck, na: Bottleneck, ob: Bottleneck, nb: Bottleneck, hdr: Bytes, now: Time, ea: Seq<Event>, eb: Seq<Event>)
    requires
        same_bottleneck(oa, ob),
        Bottleneck::step_post(oa, na, hdr, now, Seq::empty(), ea),
        Bottleneck::step_post(ob, nb, hdr, now, Seq::empty(), eb),
    ensures
        same_bottleneck(na, nb),
        ea == eb,
{
    assert(ea =~= eb);
    na.port.lemma_drr_view();
    nb.port.lemma_drr_view();
    assert(na.port.drr().heads == nb.port.drr().heads);
    assert(na.port.drr() == nb.port.drr());
}

proof fn lemma_workload_same(oa: Workload, na: Workload, ob: Workload, nb: Workload, now: Time, ea: Seq<Event>, eb: Seq<Event>)
    requires
        oa.flows@ == ob.flows@,
        Workload::step_post(oa, na, now, Seq::empty(), ea),
        Workload::step_post(ob, nb, now, Seq::empty(), eb),
    ensures
        na.flows@ == nb.flows@,
        ea == eb,
{
    assert(ea =~= eb);
}

/// One command, handled in states that hold the same, schedules the same events and leaves
/// states that hold the same.
proof fn lemma_handled_same(
    ow: Workload,
    os: Vec<Source>,
    ob: Bottleneck,
    nw: Workload,
    ns: Vec<Source>,
    nb: Bottleneck,
    ow2: Workload,
    os2: Vec<Source>,
    ob2: Bottleneck,
    nw2: Workload,
    ns2: Vec<Source>,
    nb2: Bottleneck,
    params: SenderParams,
    cmd: Command,
    now: Time,
    evs: Seq<Event>,
    evs2: Seq<Event>,
)
    requires
        ow.flows@ == ow2.flows@,
        same_sources(os@, os2@),
        same_bottleneck(ob, ob2),
        handled(ow, os, ob, params, nw, ns, nb, cmd, now, evs),
        handled(ow2, os2, ob2, params, nw2, ns2, nb2, cmd, now, evs2),
    ensures
        evs == evs2,
        nw.flows@ == nw2.flows@,
        same_sources(ns@, ns2@),
        same_bottleneck(nb, nb2),
{
    match cmd {
        Command::Workload(_) => {
            lemma_workload_same(ow, nw, ow2, nw2, now, evs, evs2);
        },
        Command::Source(scmd) => {
            lemma_source_position_same(os@, os2@, target_of(scmd));
            match source_position(os@, target_of(scmd)) {
                Some(k) => {
                    assert(same_source(os@[k], os2@[k]));
                    match scmd {
                        SourceCmd::TrySend { version, .. } => {
                            lemma_try_send_same(os@[k], ns@[k], os2@[k], ns2@[k], version, now, evs, evs2);
                        },
                        SourceCmd::RcvAck { flow, ack, .. } => {
                            lemma_rcv_ack_same(os@[k], ns@[k], os2@[k], ns2@[k], flow, ack, now, evs, evs2);
                        },
                        SourceCmd::FlowArrive { desc, .. } => {
                            lemma_flow_arrive_same(os@[k], ns@[k], os2@[k], ns2@[k], desc, params, now, evs, evs2);
                        },
                        SourceCmd::FlowDepart { flow, .. } => {
                            lemma_flow_depart_same(os@[k], ns@[k], os2@[k], ns2@[k], flow, ob.bandwidth, params, now);
                            assert(evs =~= evs2);
                        },
                    }
                    assert forall|i: int| 0 <= i < ns@.len() implies same_source(#[trigger] ns@[i], ns2@[i]) by {
                        if i != k {
                            assert(same_source(os@[i], os2@[i]));
                        }
                    }
                },
                None => {
                    assert(evs =~= evs2);
                },
            }
        },
        Command::Bottleneck(BottleneckCmd::Receive(pkt)) => {
            if pkt.qindex.0 < ob.port.nr_queues() {
                lemma_receive_same(ob, nb, ob2, nb2, pkt, params.sz_pkthdr, now, evs, evs2);
            } else {
                assert(evs =~= evs2);
            }
        },
        Command::Bottleneck(BottleneckCmd::Step) => {
            lemma_serve_same(ob, nb, ob2, nb2, params.sz_pkthdr, now, evs, evs2);
        },
    }
}

/// States that hold the same step to states that hold the same.
pub proof fn lemma_stepped_same(a: Simulation, a2: Simulation, b: Simulation, b2: Simulation)
    requires
        same_state(a, b),
        stepped(a, a2),
        stepped(b, b2),
    ensures
        same_state(a2, b2),
{
    let (ka, ea) = choose|k: int, evs: Seq<Event>|
        {
            &&& is_first_earliest(a.schedule.events@, k)
            &&& a2.cur_time == a.schedule.events@[k].time
            &&& a2.schedule.events@ == a.schedule.events@.remove(k) + evs
            &&& #[trigger] handled(
                a.workload,
                a.sources,
                a.bottleneck,
                a.params,
                a2.workload,
                a2.sources,
                a2.bottleneck,
                a.schedule.events@[k].cmd,
                a.schedule.events@[k].time,
                evs,
            )
            &&& a2.steps == a.steps + 1
            &&& a2.params == a.params
            &&& a2.timeout == a.timeout
        };
    let (kb, eb) = choose|k: int, evs: Seq<Event>|
        {
            &&& is_first_earliest(b.schedule.events@, k)
            &&& b2.cur_time == b.schedule.events@[k].time
            &&& b2.schedule.events@ == b.schedule.events@.remove(k) + evs
            &&& #[trigger] handled(
                b.workload,
                b.sources,
                b.bottleneck,
                b.params,
                b2.workload,
                b2.sources,
                b2.bottleneck,
                b.schedule.events@[k].cmd,
                b.schedule.events@[k].time,
                evs,
            )
            &&& b2.steps == b.steps + 1
            &&& b2.params == b.params
            &&& b2.timeout == b.timeout
        };
    lemma_first_earliest_unique(a.schedule.events@, ka, kb);
    lemma_handled_same(
        a.workload,
        a.sources,
        a.bottleneck,
        a2.workload,
        a2.sources,
        a2.bottleneck,
        b.workload,
        b.sources,
        b.bottleneck,
        b2.workload,
        b2.sources,
        b2.bottleneck,
        a.params,
        a.schedule.events@[ka].cmd,
        a.schedule.events@[ka].time,
        ea,
        eb,
    );
}

proof fn lemma_all_records_same(a: Seq<Source>, b: Seq<Source>)
    requires
        same_sources(a, b),
    ensures
        all_records(a) == all_records(b),
    decreases a.len(),
{
    if a.len() > 0 {
        assert(same_sources(a.drop_last(), b.drop_last())) by {
            assert forall|i: int| 0 <= i < a.drop_last().len() implies same_source(
                #[trigger] a.drop_last()[i],
                b.drop_last()[i],
            ) by {
                assert(same_source(a[i], b[i]));
            }
        }
        lemma_all_records_same(a.drop_last(), b.drop_last());
        assert(same_source(a[a.len() - 1], b[b.len() - 1]));
    }
}

/// Two runs from states that hold the same agree step by step.
proof fn lemma_runs_agree(ta: Seq<Simulation>, tb: Seq<Simulation>, i: int)
    requires
        is_run(ta),
        is_run(tb),
        same_state(ta[0], tb[0]),
        0 <= i < ta.len(),
        i < tb.len(),
    ensures
        same_state(ta[i], tb[i]),
    decreases i,
{
    if i > 0 {
        lemma_runs_agree(ta, tb, i - 1);
        assert(stepped(ta[i - 1], ta[i]));
        assert(stepped(tb[i - 1], tb[i]));
        lemma_stepped_same(ta[i - 1], ta[i], tb[i - 1], tb[i]);
    }
}

/// Runs from states that hold the same give the same records.
pub proof fn lemma_outcome_unique(a: Simulation, b: Simulation, ra: Seq<Record>, rb: Seq<Record>)
    requires
        same_state(a, b),
        outcome(a, ra),
        outcome(b, rb),
    ensures
        ra == rb,
{
    let ta = choose|t: Seq<Simulation>| #[trigger] is_run(t) && started(t[0], a) && ra == all_records(t.last().sources@);
    let tb = choose|t: Seq<Simulation>| #[trigger] is_run(t) && started(t[0], b) && rb == all_records(t.last().sources@);
    assert(same_state(ta[0], tb[0]));
    let n = if ta.len() <= tb.len() { ta.len() } else { tb.len() };
    lemma_runs_agree(ta, tb, n - 1);
    assert(stops(ta[n - 1]) <==> stops(tb[n - 1]));
    if ta.len() < tb.len() {
        assert(!stops(tb[n - 1]));
    } else if tb.len() < ta.len() {
        assert(!stops(ta[n - 1]));
    }
    lemma_all_records_same(ta.last().sources@, tb.last().sources@);
}

} // verus!
