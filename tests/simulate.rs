use minim::source::ideal_fct;
use minim::units::{BitsPerSec, Bytes, Gbps, Mbps, Nanosecs, Secs};
use minim::{run, Config, Error, FlowDesc, FlowId, QIndex, Record, SourceDesc, SourceId};

fn gbps(v: u64) -> BitsPerSec {
    Gbps::new(v).into_bps()
}

fn flow(id: usize, source: usize, qindex: usize, size: u64, start: u64, delay2dst: u64) -> FlowDesc {
    FlowDesc {
        id: FlowId::new(id),
        source: SourceId::new(source),
        qindex: QIndex::new(qindex),
        size: Bytes::new(size),
        start: Nanosecs::new(start),
        delay2dst: Nanosecs::new(delay2dst),
    }
}

fn source(id: usize, delay2btl: u64, rate: BitsPerSec) -> SourceDesc {
    SourceDesc { id: SourceId::new(id), delay2btl: Nanosecs::new(delay2btl), link_rate: rate }
}

fn config(sources: Vec<SourceDesc>, flows: Vec<FlowDesc>) -> Config {
    Config {
        bandwidth: gbps(40),
        sources,
        flows,
        quanta: vec![Bytes::new(1000)],
        window: Bytes::new(100_000),
        dctcp_marking_threshold: Bytes::new(300_000),
        dctcp_gain: 62_500,
        dctcp_ai: Mbps::new(615).into_bps(),
        sz_pktmax: Bytes::new(1000),
        sz_pkthdr: Bytes::new(48),
        timeout: None,
    }
}

/// Several sources contending for a slow bottleneck with a low marking threshold.
fn contended() -> Config {
    let mut cfg = config(
        vec![source(0, 1_000, gbps(10)), source(1, 500, gbps(25))],
        vec![
            flow(0, 0, 0, 200_000, 1_000, 3_000),
            flow(1, 1, 1, 150_000, 1_500, 2_000),
            flow(2, 0, 1, 5_000, 2_000, 3_000),
            flow(3, 1, 0, 80_000, 2_000, 2_500),
            flow(4, 0, 0, 999, 50_000, 1_000),
        ],
    );
    cfg.bandwidth = gbps(10);
    cfg.quanta = vec![Bytes::new(1_000), Bytes::new(3_000)];
    cfg.dctcp_marking_threshold = Bytes::new(5_000);
    cfg
}

#[test]
fn ideal_fct_of_short_and_long_flows() {
    let hop1 = gbps(10);
    let hop2 = gbps(40);
    let d1 = Nanosecs::new(1_000);
    let d2 = Nanosecs::new(1_000);
    // 148 bytes take 118 ns on the first hop and 30 ns on the second.
    let short = ideal_fct(Bytes::new(100), Bytes::new(1000), Bytes::new(48), hop1, hop2, d1, d2);
    assert_eq!(short, Nanosecs::new(2_148));
    // A head packet on both hops, then 999 full packets at 838 ns each.
    let long = ideal_fct(Bytes::new(1_000_000), Bytes::new(1000), Bytes::new(48), hop1, hop2, d1, d2);
    assert_eq!(long, Nanosecs::new(840_210));
    // A tail of 500 payload bytes: 548 bytes take 438 ns at 10 Gbps.
    let tail = ideal_fct(Bytes::new(1_500), Bytes::new(1000), Bytes::new(48), hop1, hop2, d1, d2);
    assert_eq!(tail, Nanosecs::new(838 + 210 + 438 + 2_000));
}

#[test]
fn every_flow_gets_one_record_not_below_ideal() {
    let cfg = contended();
    let nr_flows = cfg.flows.len();
    let flows = cfg.flows.clone();
    let records = run(cfg).unwrap();
    assert_eq!(records.len(), nr_flows);
    for f in &flows {
        let mine: Vec<&Record> = records.iter().filter(|r| r.id == f.id).collect();
        assert_eq!(mine.len(), 1);
        let r = mine[0];
        assert_eq!(r.size, f.size);
        assert_eq!(r.start, f.start);
        // A few nanoseconds per packet of rounding are allowed.
        let nr_pkts = f.size.into_u64() / 1000 + 1;
        assert!(r.fct.into_u64() + 2 * nr_pkts >= r.ideal.into_u64(), "{:?}", r);
    }
}

#[test]
fn contention_delays_flows() {
    let records = run(contended()).unwrap();
    assert!(records.iter().any(|r| r.delay().into_u64() > 0));
}

#[test]
fn same_configuration_same_records() {
    let a = run(contended()).unwrap();
    let b = run(contended()).unwrap();
    assert_eq!(a, b);
}

#[test]
fn simultaneous_arrivals_both_complete() {
    let cfg = config(
        vec![source(0, 1_000, gbps(10))],
        vec![flow(0, 0, 0, 50_000, 1_000, 2_000), flow(1, 0, 0, 50_000, 1_000, 2_000)],
    );
    let records = run(cfg).unwrap();
    assert_eq!(records.len(), 2);
    assert_eq!(records[0].start, records[1].start);
    let mut ids: Vec<usize> = records.iter().map(|r| r.id.into_usize()).collect();
    ids.sort();
    assert_eq!(ids, vec![0, 1]);
    // Sharing the link, at least one of them takes longer than alone.
    assert!(records.iter().any(|r| r.fct > r.ideal));
    let again = run(config(
        vec![source(0, 1_000, gbps(10))],
        vec![flow(0, 0, 0, 50_000, 1_000, 2_000), flow(1, 0, 0, 50_000, 1_000, 2_000)],
    ))
    .unwrap();
    assert_eq!(records, again);
}

#[test]
fn flows_out_of_order_arrive_on_time() {
    // Given out of start order, the flows still each arrive at their start.
    let cfg = config(
        vec![source(0, 1_000, gbps(10))],
        vec![
            flow(0, 0, 0, 100, Secs::new(1).into_ns().into_u64(), 2_000),
            flow(1, 0, 0, 100, Secs::new(3).into_ns().into_u64(), 2_000),
            flow(2, 0, 0, 100, Secs::new(2).into_ns().into_u64(), 2_000),
        ],
    );
    let records = run(cfg).unwrap();
    assert_eq!(records.len(), 3);
    for r in &records {
        assert_eq!(r.fct, r.ideal);
        assert_eq!(r.fct, Nanosecs::new(2_148));
    }
    let order: Vec<usize> = records.iter().map(|r| r.id.into_usize()).collect();
    assert_eq!(order, vec![0, 2, 1]);
}

#[test]
fn tiny_window_completes_through_acks() {
    let mut cfg = config(vec![source(0, 1_000, gbps(10))], vec![flow(0, 0, 0, 5_000, 0, 2_000)]);
    cfg.window = Bytes::new(500);
    let records = run(cfg).unwrap();
    assert_eq!(records.len(), 1);
    let r = records[0];
    // Each 500-byte packet waits for the acknowledgement of the one before.
    assert!(r.fct.into_u64() > 9 * 4_000);
    assert!(r.fct > r.ideal);
}

#[test]
fn no_marking_keeps_fct_ideal() {
    let mut cfg = config(vec![source(0, 1_000, gbps(10))], vec![flow(0, 0, 0, 300_000, 0, 2_000)]);
    cfg.dctcp_marking_threshold = Bytes::new(u64::MAX);
    let records = run(cfg).unwrap();
    assert_eq!(records.len(), 1);
    assert_eq!(records[0].fct, records[0].ideal);
}

#[test]
fn timeout_stops_the_run() {
    let mut cfg = config(
        vec![source(0, 1_000, gbps(10))],
        vec![flow(0, 0, 0, 100, 1_000, 2_000), flow(1, 0, 0, 100, Secs::new(5).into_ns().into_u64(), 2_000)],
    );
    cfg.timeout = Some(Secs::new(1).into_ns());
    let records = run(cfg).unwrap();
    assert_eq!(records.len(), 1);
    assert_eq!(records[0].id, FlowId::new(0));
}

#[test]
fn zero_byte_flow_is_rejected() {
    let cfg = config(vec![source(0, 1_000, gbps(10))], vec![flow(3, 0, 0, 0, 0, 2_000)]);
    assert_eq!(run(cfg).unwrap_err(), Error::EmptyFlow(FlowId::new(3)));
}

#[test]
fn config_errors() {
    let base = || config(vec![source(0, 1_000, gbps(10))], vec![flow(0, 0, 0, 100, 0, 2_000)]);
    assert!(run(base()).is_ok());

    let mut c = base();
    c.quanta = vec![];
    assert_eq!(run(c).unwrap_err(), Error::EmptyQuanta);

    let mut c = base();
    c.quanta = vec![Bytes::new(5), Bytes::new(0)];
    assert_eq!(run(c).unwrap_err(), Error::InvalidQuanta);

    let mut c = base();
    c.bandwidth = BitsPerSec::new(0);
    assert_eq!(run(c).unwrap_err(), Error::InvalidBandwidth);

    let mut c = base();
    c.dctcp_gain = 0;
    assert_eq!(run(c).unwrap_err(), Error::InvalidGain);
    let mut c = base();
    c.dctcp_gain = 1_000_001;
    assert_eq!(run(c).unwrap_err(), Error::InvalidGain);

    let mut c = base();
    c.sz_pktmax = Bytes::new(0);
    assert_eq!(run(c).unwrap_err(), Error::InvalidPacketSize);
    let mut c = base();
    c.sz_pkthdr = Bytes::new(u64::MAX);
    assert_eq!(run(c).unwrap_err(), Error::InvalidPacketSize);

    let mut c = base();
    c.sources.push(source(4, 10, BitsPerSec::new(0)));
    assert_eq!(run(c).unwrap_err(), Error::InvalidLinkRate(SourceId::new(4)));

    let mut c = base();
    c.flows.push(flow(9, 2, 0, 100, 0, 2_000));
    assert_eq!(run(c).unwrap_err(), Error::UnknownSource(FlowId::new(9)));

    let mut c = base();
    c.flows.push(flow(8, 0, 0, 100, 0, 999));
    assert_eq!(run(c).unwrap_err(), Error::InvalidDelay(FlowId::new(8)));

    let mut c = base();
    c.flows.push(flow(7, 0, 1, 100, 0, 2_000));
    assert_eq!(run(c).unwrap_err(), Error::UnknownQueue(FlowId::new(7)));

    // The first problem found is the one reported.
    let mut c = base();
    c.flows.insert(0, flow(6, 0, 0, 0, 0, 2_000));
    c.flows.push(flow(5, 3, 0, 100, 0, 2_000));
    assert_eq!(run(c).unwrap_err(), Error::EmptyFlow(FlowId::new(6)));
}

#[test]
fn zero_window_flow_never_departs() {
    // Accepted, but the flow can never put a byte in flight: the schedule drains with no record.
    let mut cfg = config(vec![source(0, 1_000, gbps(10))], vec![flow(0, 0, 0, 1_000, 0, 2_000)]);
    cfg.window = Bytes::new(0);
    let records = run(cfg).unwrap();
    assert!(records.is_empty());
}
