use minim::port::Port;
use minim::queue::{FifoQ, QDisc, RrQ};
use minim::units::Bytes;
use minim::{FlowId, Packet, QIndex};

fn mk_pkt(flow_id: FlowId, qindex: QIndex, size: Bytes) -> Packet {
    Packet {
        flow_id,
        qindex,
        size,
        ..Packet::default()
    }
}

fn check_drr_sequence(port: &mut Port, sequence: &[usize]) {
    for &idx in sequence {
        let expected = QIndex::new(idx);
        let actual = port.pick_dequeue_index().expect("all queues empty");
        // Every pick is followed by a dequeue from the sub-queue picked.
        assert_eq!(port.dequeue(actual).unwrap().qindex, expected);
    }
}

#[test]
fn drr_empty_none() {
    let mut port = Port::new(&[Bytes::new(1); 8]);
    assert!(port.pick_dequeue_index().is_none());
}

#[test]
fn drr_nonempty_some() {
    let mut port = Port::new(&[Bytes::new(1); 8]);
    let pkt = mk_pkt(FlowId::new(0), QIndex::new(0), Bytes::new(1_000));
    port.enqueue(pkt);
    assert_eq!(port.pick_dequeue_index(), Some(QIndex::new(0)));
}

#[test]
fn drr_empty_resets_deficit() {
    let mut port = Port::new(&[Bytes::new(1); 2]);

    // One packet in queue 0
    let pkt = mk_pkt(FlowId::new(0), QIndex::new(0), Bytes::new(1_000));
    port.enqueue(pkt);

    // 20 packets in queue 1
    for _ in 0..20 {
        let pkt = mk_pkt(FlowId::new(1), QIndex::new(1), Bytes::new(1_000));
        port.enqueue(pkt);
    }

    // First dequeue should be from queue 0, after which its deficit should be reset
    check_drr_sequence(&mut port, &[0, 1, 1, 1, 1, 1, 1, 1, 1, 1, 1]);

    // 10 more packets in queue 0
    for _ in 0..10 {
        let pkt = mk_pkt(FlowId::new(0), QIndex::new(0), Bytes::new(1_000));
        port.enqueue(pkt);
    }

    // Queue 0 should not have accumulated deficit while it was empty
    check_drr_sequence(
        &mut port,
        &[0, 1, 0, 1, 0, 1, 0, 1, 0, 1, 0, 1, 0, 1, 0, 1, 0, 1, 0, 1],
    );
}

#[test]
fn drr_respects_weights() {
    let mut port = Port::new(&[Bytes::new(1), Bytes::new(3)]);

    let pkt1 = mk_pkt(FlowId::new(0), QIndex::new(0), Bytes::new(1));
    let pkt2 = mk_pkt(FlowId::new(1), QIndex::new(1), Bytes::new(1));
    for _ in 0..6 {
        port.enqueue(pkt1);
        port.enqueue(pkt2);
    }

    check_drr_sequence(&mut port, &[0, 1, 1, 1, 0, 1, 1, 1, 0, 0, 0, 0]);
    assert!(port.pick_dequeue_index().is_none());
}

#[test]
fn drr_serves_bytes_in_proportion_to_quanta() {
    let mut port = Port::new(&[Bytes::new(1_000), Bytes::new(3_000)]);
    for _ in 0..400 {
        port.enqueue(mk_pkt(FlowId::new(0), QIndex::new(0), Bytes::new(500)));
        port.enqueue(mk_pkt(FlowId::new(1), QIndex::new(1), Bytes::new(500)));
    }
    let mut served = [0u64; 2];
    for _ in 0..400 {
        let q = port.pick_dequeue_index().unwrap();
        served[q.inner()] += port.dequeue(q).unwrap().size.into_u64();
    }
    // Both stay backlogged: queue 1 gets three times the bytes of queue 0.
    assert_eq!(served[0] * 3, served[1]);
    assert_eq!(port.qsize(QIndex::new(0)), 300 * 500);
}

#[test]
fn fifo_queue_keeps_order() {
    let mut q = FifoQ::new();
    assert!(q.is_empty());
    q.enqueue(mk_pkt(FlowId::new(1), QIndex::new(0), Bytes::new(10)));
    q.enqueue(mk_pkt(FlowId::new(2), QIndex::new(0), Bytes::new(20)));
    assert_eq!(q.dequeue().unwrap().flow_id, FlowId::new(1));
    assert_eq!(q.dequeue().unwrap().flow_id, FlowId::new(2));
    assert!(q.dequeue().is_none());
    assert!(q.is_empty());
}

#[test]
fn round_robin_queue_serves_flows_in_turn() {
    let mut q = RrQ::new();
    assert!(q.is_empty());
    for size in [1, 2, 3] {
        q.enqueue(mk_pkt(FlowId::new(7), QIndex::new(0), Bytes::new(size)));
    }
    q.enqueue(mk_pkt(FlowId::new(8), QIndex::new(0), Bytes::new(10)));
    let order: Vec<(usize, u64)> = std::iter::from_fn(|| q.dequeue())
        .take(3)
        .map(|p| (p.flow_id.into_usize(), p.size.into_u64()))
        .collect();
    // Flow 7 first, then flow 8, whose last packet drops it out, then flow 7 again.
    assert_eq!(order, vec![(7, 1), (8, 10), (7, 2)]);
    // A flow that dropped out joins at the end of the turn order.
    q.enqueue(mk_pkt(FlowId::new(8), QIndex::new(0), Bytes::new(20)));
    assert_eq!(q.dequeue().unwrap().size, Bytes::new(3));
    assert_eq!(q.dequeue().unwrap().size, Bytes::new(20));
    assert!(q.dequeue().is_none());
    assert!(q.is_empty());
}
