use minim::event::{BottleneckCmd, Command, Context, SourceCmd};
use minim::flow::{CaState, Flow, SenderParams};
use minim::packet::Ack;
use minim::source::Source;
use minim::units::{BitsPerSec, Bytes, Gbps, Mbps, Nanosecs};
use minim::{FlowDesc, FlowId, QIndex, SourceDesc, SourceId, Time};

fn params(window: u64) -> SenderParams {
    SenderParams {
        window: Bytes::new(window),
        gain: 62_500,
        additive_inc: Mbps::new(615).into_bps(),
        sz_pktmax: Bytes::new(1000),
        sz_pkthdr: Bytes::new(48),
    }
}

fn desc(size: u64) -> FlowDesc {
    FlowDesc {
        id: FlowId::new(7),
        source: SourceId::new(0),
        qindex: QIndex::new(0),
        size: Bytes::new(size),
        start: Nanosecs::new(0),
        delay2dst: Nanosecs::new(2_000),
    }
}

fn new_flow(size: u64, window: u64) -> Flow {
    Flow::new(&desc(size), Nanosecs::new(1_000), Gbps::new(10).into_bps(), Time::new(0), &params(window))
}

#[test]
fn flow_sends_capped_packets() {
    let mut f = new_flow(2_500, 100_000);
    let p1 = f.next_packet(Time::new(0));
    assert_eq!(p1.size, Bytes::new(1_048));
    assert!(!p1.is_last);
    // 1048 bytes at 10 Gbps take 838 ns.
    assert_eq!(f.tnext, Time::new(838));
    let _ = f.next_packet(Time::new(838));
    let p3 = f.next_packet(Time::new(1_676));
    assert_eq!(p3.size, Bytes::new(548));
    assert!(p3.is_last);
    assert_eq!(f.bytes_left(), Bytes::new(0));
    assert_eq!(p3.btl2dst, Nanosecs::new(1_000));
    assert_eq!(p3.hrtt().into_ns(), Nanosecs::new(2_000));
}

#[test]
fn sustained_marking_cuts_once_per_window() {
    let mut f = new_flow(10_000, 100_000);
    for _ in 0..3 {
        let _ = f.next_packet(Time::new(0));
    }
    f.rcv_ack(Ack::new(Bytes::new(1_000), true));
    // Cut by α/2 with α = 1, then raised by the additive increase of the first batch.
    assert_eq!(f.rate, BitsPerSec::new(5_615_000_000));
    assert_eq!(f.ca_state, CaState::Reducing);
    f.rcv_ack(Ack::new(Bytes::new(1_000), true));
    f.rcv_ack(Ack::new(Bytes::new(1_000), true));
    assert_eq!(f.rate, BitsPerSec::new(5_615_000_000));
    let _ = f.next_packet(Time::new(0));
    f.rcv_ack(Ack::new(Bytes::new(1_000), true));
    // Past the window of the first cut: cut again.
    assert_eq!(f.rate, BitsPerSec::new(3_422_500_000));
    assert_eq!(f.alpha, 1_000_000);
    assert_eq!(f.snd_una, Bytes::new(4_000));
}

#[test]
fn unmarked_acks_never_lower_the_rate() {
    let mut f = new_flow(10_000, 100_000);
    for _ in 0..3 {
        let _ = f.next_packet(Time::new(0));
    }
    f.rcv_ack(Ack::new(Bytes::new(1_000), true));
    assert_eq!(f.rate, BitsPerSec::new(5_615_000_000));
    f.rcv_ack(Ack::new(Bytes::new(1_000), false));
    f.rcv_ack(Ack::new(Bytes::new(1_000), false));
    assert_eq!(f.rate, BitsPerSec::new(5_615_000_000));
    let _ = f.next_packet(Time::new(0));
    f.rcv_ack(Ack::new(Bytes::new(1_000), false));
    // One of three packets of the batch was marked: α = 0.9375 + 0.0625 / 3, rounded down.
    assert_eq!(f.alpha, 958_333);
    assert_eq!(f.rate, BitsPerSec::new(6_230_000_000));
    assert_eq!(f.ca_state, CaState::Open);
}

#[test]
fn window_bound_source_resumes_on_ack() {
    let sd = SourceDesc { id: SourceId::new(0), delay2btl: Nanosecs::new(1_000), link_rate: Gbps::new(10).into_bps() };
    let mut src = Source::new(&sd);
    let p = params(1_000);

    let mut ctx = Context::new(Time::new(0));
    src.flow_arrive(desc(3_000), &p, &mut ctx);
    let evs = ctx.into_events();
    assert_eq!(evs.len(), 2);
    assert_eq!(evs[0].time(), Time::new(1_838));
    assert!(matches!(evs[0].cmd, Command::Bottleneck(BottleneckCmd::Receive(_))));
    assert_eq!(evs[1].time(), Time::new(838));
    assert!(matches!(evs[1].cmd, Command::Source(SourceCmd::TrySend { version: 1, .. })));

    // The window is full: the source goes idle.
    let mut ctx = Context::new(Time::new(838));
    src.try_send(1, &mut ctx);
    assert_eq!(ctx.into_events().len(), 0);
    assert_eq!(src.tnext, Time::max_value());

    // The acknowledgement frees the window and wakes the source under a new version.
    let mut ctx = Context::new(Time::new(5_000));
    src.rcv_ack(FlowId::new(7), Ack::new(Bytes::new(1_000), false), &mut ctx);
    let evs = ctx.into_events();
    assert_eq!(evs.len(), 1);
    assert_eq!(evs[0].time(), Time::new(5_000));
    assert!(matches!(evs[0].cmd, Command::Source(SourceCmd::TrySend { version: 2, .. })));
    assert_eq!(src.version, 2);

    // The stale wake-up sends nothing; the current one sends.
    let mut ctx = Context::new(Time::new(5_000));
    src.try_send(1, &mut ctx);
    assert_eq!(ctx.into_events().len(), 0);
    let mut ctx = Context::new(Time::new(5_000));
    src.try_send(2, &mut ctx);
    assert_eq!(ctx.into_events().len(), 2);
}

#[test]
fn ack_for_unknown_flow_is_dropped() {
    let sd = SourceDesc { id: SourceId::new(0), delay2btl: Nanosecs::new(1_000), link_rate: Gbps::new(10).into_bps() };
    let mut src = Source::new(&sd);
    let mut ctx = Context::new(Time::new(0));
    src.rcv_ack(FlowId::new(1), Ack::new(Bytes::new(1_000), false), &mut ctx);
    assert_eq!(ctx.into_events().len(), 0);
    assert_eq!(src.version, 0);
}

#[test]
fn context_keeps_events_in_order() {
    let mut ctx = Context::new(Time::new(10));
    ctx.schedule(minim::Delta::new(5), Command::Bottleneck(BottleneckCmd::Step));
    ctx.schedule(minim::Delta::new(0), Command::Bottleneck(BottleneckCmd::Step));
    ctx.schedule(minim::Delta::new(u128::MAX), Command::Bottleneck(BottleneckCmd::Step));
    let evs = ctx.into_events();
    assert_eq!(evs.len(), 3);
    assert_eq!(evs[0].time(), Time::new(15));
    assert_eq!(evs[1].time(), Time::new(10));
    assert_eq!(evs[2].time(), Time::max_value());
}
