use minim::event::{Command, Event, WorkloadCmd};
use minim::units::{Bytes, Gbps, Nanosecs};
use minim::Time;

#[test]
fn rate_length() {
    let rate = Gbps::new(100);
    let size = Bytes::new(64);
    assert_eq!(rate.length(size), Nanosecs::new(5));
}

#[test]
fn rate_width() {
    let rate = Gbps::new(100);
    let delta = Nanosecs::new(5);
    assert_eq!(rate.width(delta), Bytes::new(63));
}

#[test]
fn event_order() {
    let e1 = Event::new(Time::new(0), Command::Workload(WorkloadCmd::Step));
    let e2 = Event::new(Time::new(1), Command::Workload(WorkloadCmd::Step));
    assert!(e1 > e2);
}
