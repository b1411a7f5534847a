use minim::units::{BitsPerSec, Bytes, Gbps, Kilobytes, Mbps, Microsecs, Millisecs, Nanosecs, Secs};
use minim::{FlowId, Record, Time};

#[test]
fn unit_conversions() {
    assert_eq!(Secs::new(2).into_ns(), Nanosecs::new(2_000_000_000));
    assert_eq!(Millisecs::new(3).into_us(), Microsecs::new(3_000));
    assert_eq!(Microsecs::new(4).into_time(), Time::new(4_000));
    assert_eq!(Kilobytes::new(3).into_bits().into_u64(), 24_000);
    assert_eq!(Gbps::new(2).into_mbps(), Mbps::new(2_000));
    assert_eq!(BitsPerSec::new(2_500_000_000).into_gbps(), Gbps::new(3));
    assert_eq!(BitsPerSec::new(2_499_999_999).into_gbps(), Gbps::new(2));
}

#[test]
fn length_rounds_to_nearest() {
    let r = BitsPerSec::new(10_000_000_000);
    assert_eq!(r.length(Bytes::new(148)), Nanosecs::new(118));
    assert_eq!(r.length(Bytes::new(1_048)), Nanosecs::new(838));
    assert_eq!(r.length(Bytes::new(0)), Nanosecs::new(0));
    // A very slow rate: the span is capped.
    assert_eq!(BitsPerSec::new(1).length(Bytes::new(u64::MAX)), Nanosecs::new(u64::MAX));
    assert_eq!(Mbps::new(1).width(Nanosecs::new(8_000)), Bytes::new(1));
}

#[test]
fn time_saturates() {
    assert_eq!(Time::new(5).saturating_sub(Time::new(7)).into_ns(), Nanosecs::new(0));
    assert_eq!(Time::new(7).saturating_sub(Time::new(5)).into_ns(), Nanosecs::new(2));
    assert_eq!(Time::max_value().saturating_add(minim::Delta::new(1)), Time::max_value());
}

#[test]
fn record_delay() {
    let mut r = Record {
        id: FlowId::new(0),
        size: Bytes::new(10),
        start: Nanosecs::new(0),
        fct: Nanosecs::new(150),
        ideal: Nanosecs::new(100),
    };
    assert_eq!(r.delay(), Nanosecs::new(50));
    r.fct = Nanosecs::new(99);
    assert_eq!(r.delay(), Nanosecs::new(0));
}
