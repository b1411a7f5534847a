//! Configuration, its validation, and the entry point of a run.
use vstd::prelude::*;

use crate::bottleneck::Bottleneck;
use crate::flow::{FlowDesc, SenderParams, FRAC_ONE};
use crate::ident::{FlowId, SourceId};
use crate::port::Port;
use crate::record::Record;
use crate::schedule::Schedule;
use crate::count::{count, lemma_count_permutation, sum};
use crate::determinism::{lemma_outcome_unique, same_source, same_state};
use crate::simulation::{held, of_flow, outcome, record_of_flow, record_of_some, Simulation};
use crate::source::{Source, SourceDesc};
use crate::time::Time;
use crate::units::{BitsPerSec, Bytes, Nanosecs};
use crate::workload::Workload;

verus! {

/// A simulation configuration.
#[derive(Debug)]
pub struct Config {
    /// The bottleneck bandwidth.
    pub bandwidth: BitsPerSec,
    /// The sources.
    pub sources: Vec<SourceDesc>,
    /// The flows, in any order.
    pub flows: Vec<FlowDesc>,
    /// The DRR weight of each bottleneck sub-queue.
    pub quanta: Vec<Bytes>,
    /// The congestion window of every flow.
    pub window: Bytes,
    /// A packet leaving a sub-queue that holds more than this is marked.
    pub dctcp_marking_threshold: Bytes,
    /// The DCTCP gain, in millionths, within `(0, 1]`.
    pub dctcp_gain: u64,
    /// The DCTCP additive increase per batch.
    pub dctcp_ai: BitsPerSec,
    /// The largest payload of a packet.
    pub sz_pktmax: Bytes,
    /// The header bytes of each packet.
    pub sz_pkthdr: Bytes,
    /// Events after this time are not dispatched.
    pub timeout: Option<Nanosecs>,
}

/// What is malformed in a configuration.
#[derive(Debug, Clone, Copy, PartialEq, Eq, Structural)]
pub enum Error {
    /// There are no switch quanta.
    EmptyQuanta,
    /// A switch quantum is zero.
    InvalidQuanta,
    /// The bottleneck bandwidth is zero.
    InvalidBandwidth,
    /// The DCTCP gain is outside `(0, 1]`.
    InvalidGain,
    /// The largest payload is zero, or a packet could not hold it with its header.
    InvalidPacketSize,
    /// A source's link rate is zero.
    InvalidLinkRate(SourceId),
    /// A flow names no configured source.
    UnknownSource(FlowId),
    /// A flow's destination is nearer than its source's bottleneck.
    InvalidDelay(FlowId),
    /// A flow has no bytes.
    EmptyFlow(FlowId),
    /// A flow names a bottleneck sub-queue that has no quantum.
    UnknownQueue(FlowId),
}

/// The position of the first source with ID `id`, if any.
pub open spec fn source_index(sources: Seq<SourceDesc>, id: SourceId) -> Option<int> {
    if exists|k: int| 0 <= k < sources.len() && (#[trigger] sources[k]).id == id {
        Some(choose|k: int| 0 <= k < sources.len() && sources[k].id == id && forall|j: int|
            0 <= j < k ==> (#[trigger] sources[j]).id != id)
    } else {
        None
    }
}

/// What is wrong with flow `f`, if anything.
#[verifier::opaque]
pub open spec fn flow_error(cfg: &Config, f: FlowDesc) -> Option<Error> {
    match source_index(cfg.sources@, f.source) {
        None => Some(Error::UnknownSource(f.id)),
        Some(k) => if f.delay2dst.0 < cfg.sources@[k].delay2btl.0 {
            Some(Error::InvalidDelay(f.id))
        } else if f.size.0 == 0 {
            Some(Error::EmptyFlow(f.id))
        } else if f.qindex.0 >= cfg.quanta@.len() {
            Some(Error::UnknownQueue(f.id))
        } else {
            None
        },
    }
}

/// The first flow that is wrong sits at `k`.
pub open spec fn first_bad_flow_at(cfg: &Config, k: int) -> bool {
    &&& 0 <= k < cfg.flows@.len()
    &&& flow_error(cfg, cfg.flows@[k]) is Some
    &&& forall|j: int| 0 <= j < k ==> flow_error(cfg, #[trigger] cfg.flows@[j]) is None
}

/// The first source whose link rate is zero sits at `k`.
pub open spec fn first_dead_source_at(cfg: &Config, k: int) -> bool {
    &&& 0 <= k < cfg.sources@.len()
    &&& cfg.sources@[k].link_rate.0 == 0
    &&& forall|j: int| 0 <= j < k ==> (#[trigger] cfg.sources@[j]).link_rate.0 != 0
}

/// A source with a zero link rate means there is a first one.
pub proof fn lemma_first_dead_source(cfg: &Config, k: int)
    requires
        0 <= k < cfg.sources@.len(),
        cfg.sources@[k].link_rate.0 == 0,
    ensures
        exists|c: int| first_dead_source_at(cfg, c),
    decreases k,
{
    if exists|j: int| 0 <= j < k && (#[trigger] cfg.sources@[j]).link_rate.0 == 0 {
        let j = choose|j: int| 0 <= j < k && (#[trigger] cfg.sources@[j]).link_rate.0 == 0;
        lemma_first_dead_source(cfg, j);
    } else {
        assert(first_dead_source_at(cfg, k));
    }
}

/// Every condition but those on the flows holds.
#[verifier::opaque]
pub open spec fn basics_ok(cfg: &Config) -> bool {
    &&& cfg.quanta@.len() > 0
    &&& forall|i: int| 0 <= i < cfg.quanta@.len() ==> (#[trigger] cfg.quanta@[i]).0 != 0
    &&& cfg.bandwidth.0 != 0
    &&& 0 < cfg.dctcp_gain <= FRAC_ONE
    &&& cfg.sz_pktmax.0 != 0
    &&& cfg.sz_pktmax.0 + cfg.sz_pkthdr.0 <= u64::MAX
    &&& !exists|k: int| first_dead_source_at(cfg, k)
}

/// With the other conditions met, the first flow that is wrong is what is reported.
proof fn lemma_bad_flow_reported(cfg: &Config, f: int)
    requires
        basics_ok(cfg),
        first_bad_flow_at(cfg, f),
    ensures
        config_error(cfg) == flow_error(cfg, cfg.flows@[f]),
{
    reveal(basics_ok);
    let c = choose|k: int| first_bad_flow_at(cfg, k);
    assert(c == f) by {
        if c < f {
            assert(flow_error(cfg, cfg.flows@[c]) is None);
        } else if c > f {
            assert(flow_error(cfg, cfg.flows@[f]) is None);
        }
    }
}

/// With the other conditions met and every flow right, nothing is reported.
proof fn lemma_all_ok(cfg: &Config)
    requires
        basics_ok(cfg),
        forall|j: int| 0 <= j < cfg.flows@.len() ==> flow_error(cfg, #[trigger] cfg.flows@[j]) is None,
    ensures
        config_error(cfg) is None,
{
    reveal(basics_ok);
    assert(!exists|k: int| first_bad_flow_at(cfg, k));
}

/// The error a configuration is reported with: the first condition that fails, in this order.
pub open spec fn config_error(cfg: &Config) -> Option<Error> {
    if cfg.quanta@.len() == 0 {
        Some(Error::EmptyQuanta)
    } else if exists|i: int| 0 <= i < cfg.quanta@.len() && (#[trigger] cfg.quanta@[i]).0 == 0 {
        Some(Error::InvalidQuanta)
    } else if cfg.bandwidth.0 == 0 {
        Some(Error::InvalidBandwidth)
    } else if cfg.dctcp_gain == 0 || cfg.dctcp_gain > FRAC_ONE {
        Some(Error::InvalidGain)
    } else if cfg.sz_pktmax.0 == 0 || cfg.sz_pktmax.0 + cfg.sz_pkthdr.0 > u64::MAX {
        Some(Error::InvalidPacketSize)
    } else if exists|k: int| first_dead_source_at(cfg, k) {
        Some(Error::InvalidLinkRate(cfg.sources@[choose|k: int| first_dead_source_at(cfg, k)].id))
    } else if exists|k: int| first_bad_flow_at(cfg, k) {
        flow_error(cfg, cfg.flows@[choose|k: int| first_bad_flow_at(cfg, k)])
    } else {
        None
    }
}

/// The position of the first source with ID `id`, if any.
fn find_source_desc(sources: &Vec<SourceDesc>, id: SourceId) -> (r: Option<usize>)
    ensures
        r matches Some(k) ==> k < sources@.len() && source_index(sources@, id) == Some(k as int),
        r is None ==> source_index(sources@, id) is None,
{
    let mut k: usize = 0;
    while k < sources.len()
        invariant
            k <= sources@.len(),
            forall|j: int| 0 <= j < k ==> (#[trigger] sources@[j]).id != id,
        decreases sources@.len() - k,
    {
        if sources[k].id.0 == id.0 {
            assert(sources@[k as int].id == id);
            let ghost c = choose|c: int| 0 <= c < sources@.len() && sources@[c].id == id && forall|j: int|
                0 <= j < c ==> (#[trigger] sources@[j]).id != id;
            assert(c == k) by {
                if c < k {
                    assert(sources@[c].id != id);
                } else if c > k {
                    assert(sources@[k as int].id != id);
                }
            }
            return Some(k);
        }
        k = k + 1;
    }
    None
}

/// What is wrong with flow `f`, if anything.
fn check_flow(cfg: &Config, f: &FlowDesc) -> (r: Option<Error>)
    ensures
        r == flow_error(cfg, *f),
{
    reveal(flow_error);
    match find_source_desc(&cfg.sources, f.source) {
        None => Some(Error::UnknownSource(f.id)),
        Some(k) => {
            if f.delay2dst.0 < cfg.sources[k].delay2btl.0 {
                Some(Error::InvalidDelay(f.id))
            } else if f.size.0 == 0 {
                Some(Error::EmptyFlow(f.id))
            } else if f.qindex.0 >= cfg.quanta.len() {
                Some(Error::UnknownQueue(f.id))
            } else {
                None
            }
        },
    }
}

/// The first flow that is wrong, with what is wrong with it.
fn first_flow_error(cfg: &Config) -> (r: Option<(usize, Error)>)
    ensures
        r matches Some((f, e)) ==> first_bad_flow_at(cfg, f as int) && flow_error(cfg, cfg.flows@[f as int])
            == Some(e),
        r is None ==> forall|j: int| 0 <= j < cfg.flows@.len() ==> flow_error(cfg, #[trigger] cfg.flows@[j]) is None,
{
    let mut f: usize = 0;
    while f < cfg.flows.len()
        invariant
            f <= cfg.flows@.len(),
            forall|j: int| 0 <= j < f ==> flow_error(cfg, #[trigger] cfg.flows@[j]) is None,
        decreases cfg.flows@.len() - f,
    {
        match check_flow(cfg, &cfg.flows[f]) {
            Some(e) => {
                return Some((f, e));
            },
            None => {},
        }
        f = f + 1;
    }
    None
}

/// Checks `cfg`, reporting the first problem found.
pub fn validate(cfg: &Config) -> (r: Result<(), Error>)
    ensures
        r == match config_error(cfg) {
            None => Ok(()),
            Some(e) => Err(e),
        },
{
    if cfg.quanta.len() == 0 {
        return Err(Error::EmptyQuanta);
    }
    let mut i: usize = 0;
    while i < cfg.quanta.len()
        invariant
            i <= cfg.quanta@.len(),
            forall|j: int| 0 <= j < i ==> (#[trigger] cfg.quanta@[j]).0 != 0,
        decreases cfg.quanta@.len() - i,
    {
        if cfg.quanta[i].0 == 0 {
            return Err(Error::InvalidQuanta);
        }
        i = i + 1;
    }
    if cfg.bandwidth.0 == 0 {
        return Err(Error::InvalidBandwidth);
    }
    if cfg.dctcp_gain == 0 || cfg.dctcp_gain > FRAC_ONE {
        return Err(Error::InvalidGain);
    }
    if cfg.sz_pktmax.0 == 0 || cfg.sz_pkthdr.0 > u64::MAX - cfg.sz_pktmax.0 {
        return Err(Error::InvalidPacketSize);
    }
    assert(!exists|i: int| 0 <= i < cfg.quanta@.len() && (#[trigger] cfg.quanta@[i]).0 == 0);
    let mut s: usize = 0;
    while s < cfg.sources.len()
        invariant
            cfg.quanta@.len() > 0,
            forall|j: int| 0 <= j < cfg.quanta@.len() ==> (#[trigger] cfg.quanta@[j]).0 != 0,
            cfg.bandwidth.0 != 0,
            0 < cfg.dctcp_gain <= FRAC_ONE,
            cfg.sz_pktmax.0 != 0,
            cfg.sz_pktmax.0 + cfg.sz_pkthdr.0 <= u64::MAX,
            s <= cfg.sources@.len(),
            forall|j: int| 0 <= j < s ==> (#[trigger] cfg.sources@[j]).link_rate.0 != 0,
        decreases cfg.sources@.len() - s,
    {
        if cfg.sources[s].link_rate.0 == 0 {
            proof {
                assert(first_dead_source_at(cfg, s as int));
                let c = choose|k: int| first_dead_source_at(cfg, k);
                assert(c == s) by {
                    if c < s {
                        assert(cfg.sources@[c].link_rate.0 != 0);
                    } else if c > s {
                        assert(cfg.sources@[s as int].link_rate.0 != 0);
                    }
                }
            }
            return Err(Error::InvalidLinkRate(cfg.sources[s].id));
        }
        s = s + 1;
    }
    assert(!exists|k: int| first_dead_source_at(cfg, k));
    assert(basics_ok(cfg)) by {
        reveal(basics_ok);
    }
    match first_flow_error(cfg) {
        Some((f, e)) => {
            proof {
                lemma_bad_flow_reported(cfg, f as int);
            }
            return Err(e);
        },
        None => {
            proof {
                lemma_all_ok(cfg);
            }
        },
    }
    Ok(())
}

/// `s`, in order of start, with `f` placed after every flow that starts no later than it.
pub open spec fn insert_by_start(s: Seq<FlowDesc>, f: FlowDesc) -> Seq<FlowDesc>
    decreases s.len(),
{
    if s.len() == 0 {
        seq![f]
    } else if s.last().start.0 <= f.start.0 {
        s.push(f)
    } else {
        insert_by_start(s.drop_last(), f).push(s.last())
    }
}

/// The flows ordered by start time, those that start together in their given order.
pub open spec fn sorted_by_start(s: Seq<FlowDesc>) -> Seq<FlowDesc>
    decreases s.len(),
{
    if s.len() == 0 {
        s
    } else {
        insert_by_start(sorted_by_start(s.drop_last()), s.last())
    }
}

/// The simulation `cfg` describes, before anything happened: the flows wait in order of
/// start, every source and the bottleneck are fresh, and nothing is scheduled.
pub open spec fn is_initial(sim: Simulation, cfg: &Config) -> bool {
    &&& sim.wf()
    &&& sim.cur_time == Time(0)
    &&& sim.steps == 0
    &&& sim.schedule.events@.len() == 0
    &&& sim.workload.flows@ == sorted_by_start(cfg.flows@)
    &&& sim.sources@.len() == cfg.sources@.len()
    &&& forall|s: int| 0 <= s < cfg.sources@.len() ==> (#[trigger] sim.sources@[s]).is_fresh(cfg.sources@[s])
    &&& sim.bottleneck.is_fresh(cfg.bandwidth, cfg.quanta@, cfg.dctcp_marking_threshold)
    &&& sim.params == params_of(cfg)
    &&& sim.timeout == match cfg.timeout {
        Some(t) => Some(Time(t.0 as u128)),
        None => None,
    }
    &&& sim.configured@ == cfg.flows@
}

/// Two initial simulations of one configuration hold the same.
proof fn lemma_initial_same(cfg: &Config, a: Simulation, b: Simulation)
    requires
        is_initial(a, cfg),
        is_initial(b, cfg),
    ensures
        same_state(a, b),
{
    assert(a.schedule.events@ =~= b.schedule.events@);
    assert forall|i: int| 0 <= i < a.sources@.len() implies same_source(#[trigger] a.sources@[i], b.sources@[i]) by {
        assert(a.sources@[i].is_fresh(cfg.sources@[i]));
        assert(b.sources@[i].is_fresh(cfg.sources@[i]));
        assert(a.sources@[i].flow_queue.flows@ =~= b.sources@[i].flow_queue.flows@);
        assert(a.sources@[i].flow_info@ =~= b.sources@[i].flow_info@);
        assert(a.sources@[i].records@ =~= b.sources@[i].records@);
    }
    a.bottleneck.port.lemma_drr_view();
    b.bottleneck.port.lemma_drr_view();
    assert(a.bottleneck.port.drr().heads == b.bottleneck.port.drr().heads);
    assert(a.bottleneck.port.drr() == b.bottleneck.port.drr());
}

/// Running one configuration twice gives the same records, in the same order: `run`'s records
/// are the outcome of the run from the initial simulation, which the configuration fixes.
pub proof fn lemma_run_deterministic(cfg: &Config, ra: Seq<Record>, rb: Seq<Record>)
    requires
        exists|sim: Simulation| #[trigger] is_initial(sim, cfg) && outcome(sim, ra),
        exists|sim: Simulation| #[trigger] is_initial(sim, cfg) && outcome(sim, rb),
    ensures
        ra == rb,
{
    let a = choose|sim: Simulation| #[trigger] is_initial(sim, cfg) && outcome(sim, ra);
    let b = choose|sim: Simulation| #[trigger] is_initial(sim, cfg) && outcome(sim, rb);
    lemma_initial_same(cfg, a, b);
    lemma_outcome_unique(a, b, ra, rb);
}

/// Relies on `slice::sort_by_key` (std): a stable sort, here of the flows by start time. The
/// flows are only reordered.
#[verifier::external_body]
fn sort_by_start(flows: &mut Vec<FlowDesc>)
    ensures
        final(flows)@ == sorted_by_start(old(flows)@),
        final(flows)@.to_multiset() == old(flows)@.to_multiset(),
        forall|i: int, j: int|
            0 <= i < j < final(flows)@.len() ==> (#[trigger] final(flows)@[i]).start.0
                <= (#[trigger] final(flows)@[j]).start.0,
{
    flows.sort_by_key(|f| f.start.0);
}

/// The sender parameters `cfg` gives every flow.
pub open spec fn params_of(cfg: &Config) -> SenderParams {
    SenderParams {
        window: cfg.window,
        gain: cfg.dctcp_gain,
        additive_inc: cfg.dctcp_ai,
        sz_pktmax: cfg.sz_pktmax,
        sz_pkthdr: cfg.sz_pkthdr,
    }
}

/// Runs the simulation `cfg` describes and returns one record per departed flow, source after
/// source, each in order of departure; or the first problem of the configuration. Every
/// record describes a configured flow (its ID, size and start, and its ideal completion time
/// through its source's link and the bottleneck), and no flow is recorded more often than it
/// is configured.
pub fn run(cfg: Config) -> (r: Result<Vec<Record>, Error>)
    ensures
        config_error(&cfg) matches Some(e) ==> r == Err::<Vec<Record>, Error>(e),
        config_error(&cfg) is None ==> r is Ok,
        r matches Ok(records) ==> exists|sim: Simulation| #[trigger] is_initial(sim, &cfg) && outcome(sim, records@),
        r matches Ok(records) ==> forall|x: FlowId|
            #[trigger] count(records@, record_of_flow(x)) <= count(cfg.flows@, of_flow(x)),
        r matches Ok(records) ==> forall|i: int|
            0 <= i < records@.len() ==> record_of_some(
                #[trigger] records@[i],
                cfg.sources@,
                cfg.flows@,
                cfg.bandwidth.0 as int,
                params_of(&cfg),
            ),
{
    match validate(&cfg) {
        Err(e) => {
            return Err(e);
        },
        Ok(()) => {},
    }
    let ghost configured = cfg.flows@;
    let mut flows = cfg.flows;
    sort_by_start(&mut flows);
    proof {
        broadcast use vstd::seq_lib::group_to_multiset_ensures;

        assert forall|i: int| 0 <= i < flows@.len() implies configured.contains(#[trigger] flows@[i]) by {
            assert(flows@.contains(flows@[i]));
            assert(flows@.to_multiset().count(flows@[i]) > 0);
        }
    }
    assert forall|x: FlowId| #[trigger] count(flows@, of_flow(x)) == count(configured, of_flow(x)) by {
        lemma_count_permutation(flows@, configured, of_flow(x));
    }
    let workload = Workload::new(flows);
    assert forall|j: int| 0 <= j < cfg.sources@.len() implies (#[trigger] cfg.sources@[j]).link_rate.0 != 0 by {
        if cfg.sources@[j].link_rate.0 == 0 {
            lemma_first_dead_source(&cfg, j);
        }
    }
    let mut sources: Vec<Source> = Vec::new();
    let mut i: usize = 0;
    while i < cfg.sources.len()
        invariant
            i <= cfg.sources@.len(),
            sources@.len() == i,
            forall|j: int| 0 <= j < cfg.sources@.len() ==> (#[trigger] cfg.sources@[j]).link_rate.0 != 0,
            forall|j: int|
                0 <= j < i ==> (#[trigger] sources@[j]).wf() && sources@[j].is_fresh(cfg.sources@[j]),
            forall|x: FlowId| #[trigger] sum(sources@, held(x)) == 0,
        decreases cfg.sources@.len() - i,
    {
        let ghost prev = sources@;
        sources.push(Source::new(&cfg.sources[i]));
        assert forall|x: FlowId| #[trigger] sum(sources@, held(x)) == 0 by {
            assert(sources@.drop_last() =~= prev);
            assert(sum(prev, held(x)) == 0);
        }
        i = i + 1;
    }
    assert forall|q: int| 0 <= q < cfg.quanta@.len() implies (#[trigger] cfg.quanta@[q]).0 > 0 by {
        if cfg.quanta@[q].0 == 0 {
            assert(exists|i: int| 0 <= i < cfg.quanta@.len() && (#[trigger] cfg.quanta@[i]).0 == 0);
        }
    }
    let port = Port::new(cfg.quanta.as_slice());
    let bottleneck = Bottleneck::new(cfg.bandwidth, port, cfg.dctcp_marking_threshold);
    let params = SenderParams {
        window: cfg.window,
        gain: cfg.dctcp_gain,
        additive_inc: cfg.dctcp_ai,
        sz_pktmax: cfg.sz_pktmax,
        sz_pkthdr: cfg.sz_pkthdr,
    };
    let timeout = match cfg.timeout {
        Some(t) => Some(Time(t.0 as u128)),
        None => None,
    };
    let sim = Simulation {
        cur_time: Time(0),
        schedule: Schedule::new(),
        workload,
        sources,
        bottleneck,
        params,
        timeout,
        steps: 0,
        configured: Ghost(configured),
    };
    let ghost before = sim;
    assert(is_initial(before, &cfg));
    assert forall|x: FlowId| #[trigger] before.tally(x) <= count(before.configured@, of_flow(x)) by {
        assert(count(before.schedule.events@, crate::simulation::arrival_of(x)) == 0);
    }
    assert(before.params == params_of(&cfg));
    let records = sim.run();
    assert(before.descs() =~= cfg.sources@);
    assert(is_initial(before, &cfg) && outcome(before, records@));
    Ok(records)
}

} // verus!
