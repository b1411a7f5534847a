use minim::units::{BitsPerSec, Bytes, Gbps, Kilobytes, Mbps, Nanosecs, Secs};
use minim::{Config, FlowDesc, FlowId, QIndex, SourceDesc, SourceId};

fn gbps(v: u64) -> BitsPerSec {
    Gbps::new(v).into_bps()
}

// Make sure FCTs match up for short flows and long flows.
#[test]
fn ideal_fct() {
    let source = SourceDesc {
        id: SourceId::new(0),
        delay2btl: Nanosecs::new(1_000),
        link_rate: gbps(10),
    };
    let flows = vec![
        FlowDesc {
            id: FlowId::new(0),
            source: SourceId::new(0),
            qindex: QIndex::new(0),
            size: Bytes::new(100),
            start: Secs::new(1).into_ns(),
            delay2dst: Nanosecs::new(2_000),
        },
        FlowDesc {
            id: FlowId::new(1),
            source: SourceId::new(0),
            qindex: QIndex::new(0),
            size: Bytes::new(1_000_000),
            start: Secs::new(2).into_ns(),
            delay2dst: Nanosecs::new(2_000),
        },
    ];
    let cfg = Config {
        bandwidth: gbps(40),
        sources: vec![source],
        flows,
        quanta: vec![Bytes::new(1000)],
        window: Kilobytes::new(100).into_bytes(),
        dctcp_marking_threshold: Kilobytes::new(300).into_bytes(),
        // 0.0625, in millionths
        dctcp_gain: 62_500,
        dctcp_ai: Mbps::new(615).into_bps(),
        sz_pktmax: Bytes::new(1000),
        sz_pkthdr: Bytes::new(48),
        timeout: None,
    };
    let records = minim::run(cfg).unwrap();
    assert_eq!(records.len(), 2);
    for record in records {
        assert_eq!(record.fct, record.ideal);
    }
}
