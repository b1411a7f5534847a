//! The DCTCP sender state of one flow.
use vstd::prelude::*;

use crate::ident::{FlowId, SourceId};
use crate::packet::{ceil_div, lemma_ceil_div, Ack, Packet};
use crate::port::QIndex;
use crate::time::{Delta, Time};
use crate::units::{cap_u64, lemma_round_div, length_ns, round_div, BitsPerSec, Bytes, Nanosecs};

verus! {

/// Fractions (the DCTCP gain and α) are held in millionths: this value stands for 1.
pub const FRAC_ONE: u64 = 1_000_000;

/// The lowest rate a flow is slowed to, unless its link is slower still.
pub const MIN_RATE_BPS: u64 = 1_000_000_000;

/// A flow to simulate.
#[derive(Debug, Clone, Copy)]
pub struct FlowDesc {
    /// The flow ID.
    pub id: FlowId,
    /// The source that sends the flow.
    pub source: SourceId,
    /// The bottleneck sub-queue the flow's packets go to.
    pub qindex: QIndex,
    /// The payload bytes to deliver.
    pub size: Bytes,
    /// When the flow starts.
    pub start: Nanosecs,
    /// The propagation delay from the source to the destination.
    pub delay2dst: Nanosecs,
}

/// The DCTCP congestion-avoidance state.
#[derive(Debug, Clone, Copy, PartialEq, Eq, Structural)]
pub enum CaState {
    /// The rate may be cut on the next marked acknowledgement.
    Open,
    /// The rate was cut; no further cut until `high_seq` is acknowledged.
    Reducing,
}

/// The configured parameters of a flow's sender.
#[derive(Debug, Clone, Copy)]
pub struct SenderParams {
    /// The congestion window.
    pub window: Bytes,
    /// The weight of the newest marked fraction in α, in millionths.
    pub gain: u64,
    /// The rate added per fully acknowledged batch.
    pub additive_inc: BitsPerSec,
    /// The largest payload of a packet.
    pub sz_pktmax: Bytes,
    /// The header bytes added to each payload.
    pub sz_pkthdr: Bytes,
}

impl SenderParams {
    pub open spec fn wf(self) -> bool {
        &&& self.gain <= FRAC_ONE
        &&& self.sz_pktmax.0 > 0
        &&& self.sz_pktmax.0 + self.sz_pkthdr.0 <= u64::MAX
    }
}

/// The fraction of marked packets in a batch, in millionths, at most one.
pub open spec fn mark_fraction(marked: int, batch: int) -> int {
    if batch == 0 {
        if marked > 0 {
            FRAC_ONE as int
        } else {
            0
        }
    } else if marked >= batch {
        FRAC_ONE as int
    } else {
        marked * FRAC_ONE / batch
    }
}

/// α moved towards `frac` by `gain`: `(1 − gain)·α + gain·frac`, in millionths, rounded down.
pub open spec fn ewma(alpha: int, gain: int, frac: int) -> int {
    ((FRAC_ONE - gain) * alpha + gain * frac) / (FRAC_ONE as int)
}

/// The rate cut by `α / 2`, rounded to the nearest, and kept at or above `min_rate`.
pub open spec fn reduced_rate(rate: int, alpha: int, min_rate: int) -> int {
    let r = round_div(rate * (2 * FRAC_ONE - alpha), 2 * FRAC_ONE);
    if r >= min_rate {
        r
    } else {
        min_rate
    }
}

/// The rate raised by `inc`, kept at or below `max_rate`.
pub open spec fn increased_rate(rate: int, inc: int, max_rate: int) -> int {
    if rate + inc <= max_rate {
        rate + inc
    } else {
        max_rate
    }
}

/// `now + ns`, or the latest representable time when that lies beyond it.
pub open spec fn time_after(now: int, ns: int) -> int {
    if now + ns <= u128::MAX {
        now + ns
    } else {
        u128::MAX as int
    }
}

/// α stays within `[0, 1]`.
pub proof fn lemma_ewma_bound(alpha: int, gain: int, frac: int)
    requires
        0 <= alpha <= FRAC_ONE,
        0 <= gain <= FRAC_ONE,
        0 <= frac <= FRAC_ONE,
    ensures
        0 <= ewma(alpha, gain, frac) <= FRAC_ONE,
        0 <= (FRAC_ONE - gain) * alpha <= FRAC_ONE * FRAC_ONE,
        0 <= gain * frac <= FRAC_ONE * FRAC_ONE,
{
    let a = (FRAC_ONE - gain) * alpha;
    let b = gain * frac;
    assert(0 <= a <= (FRAC_ONE - gain) * FRAC_ONE) by (nonlinear_arith)
        requires 0 <= alpha <= FRAC_ONE, 0 <= gain <= FRAC_ONE, a == (FRAC_ONE - gain) * alpha;
    assert(0 <= b <= gain * FRAC_ONE) by (nonlinear_arith)
        requires 0 <= frac <= FRAC_ONE, 0 <= gain, b == gain * frac;
    assert((FRAC_ONE - gain) * FRAC_ONE + gain * FRAC_ONE == FRAC_ONE * FRAC_ONE) by (nonlinear_arith);
    assert(a + b <= FRAC_ONE * FRAC_ONE);
    assert((a + b) / (FRAC_ONE as int) <= FRAC_ONE) by (nonlinear_arith)
        requires 0 <= a + b <= FRAC_ONE * FRAC_ONE;
    assert((a + b) / (FRAC_ONE as int) >= 0) by (nonlinear_arith)
        requires 0 <= a + b;
}

/// The marked fraction lies within `[0, 1]`.
pub proof fn lemma_mark_fraction_bound(marked: int, batch: int)
    requires
        marked >= 0,
        batch >= 0,
    ensures
        0 <= mark_fraction(marked, batch) <= FRAC_ONE,
{
    if batch > 0 && marked < batch {
        assert(marked * FRAC_ONE / batch <= FRAC_ONE) by (nonlinear_arith)
            requires 0 <= marked < batch;
        assert(marked * FRAC_ONE / batch >= 0) by (nonlinear_arith)
            requires 0 <= marked, batch > 0;
    }
}

/// A cut rate stays within `[min_rate, rate]`.
pub proof fn lemma_reduced_rate_bound(rate: int, alpha: int, min_rate: int)
    requires
        0 <= min_rate <= rate,
        0 <= alpha <= FRAC_ONE,
    ensures
        min_rate <= reduced_rate(rate, alpha, min_rate) <= rate,
{
    let x = rate * (2 * FRAC_ONE - alpha);
    let d = 2 * FRAC_ONE;
    assert(0 <= x <= rate * d) by (nonlinear_arith)
        requires 0 <= alpha <= FRAC_ONE, rate >= 0, x == rate * (2 * FRAC_ONE - alpha), d == 2 * FRAC_ONE;
    assert((2 * x + d) / (2 * d) <= rate) by (nonlinear_arith)
        requires 0 <= x <= rate * d, d > 0;
}

/// Computes `mark_fraction`.
fn mark_fraction_of(marked: u64, batch: u64) -> (r: u64)
    ensures
        r == mark_fraction(marked as int, batch as int),
{
    if batch == 0 {
        if marked > 0 {
            FRAC_ONE
        } else {
            0
        }
    } else if marked >= batch {
        FRAC_ONE
    } else {
        proof {
            lemma_mark_fraction_bound(marked as int, batch as int);
        }
        assert(marked * FRAC_ONE <= u128::MAX) by (nonlinear_arith)
            requires marked <= u64::MAX;
        ((marked as u128 * FRAC_ONE as u128) / batch as u128) as u64
    }
}

/// Computes `ewma`.
fn ewma_of(alpha: u64, gain: u64, frac: u64) -> (r: u64)
    requires
        alpha <= FRAC_ONE,
        gain <= FRAC_ONE,
        frac <= FRAC_ONE,
    ensures
        r == ewma(alpha as int, gain as int, frac as int),
        r <= FRAC_ONE,
{
    proof {
        lemma_ewma_bound(alpha as int, gain as int, frac as int);
    }
    ((FRAC_ONE - gain) * alpha + gain * frac) / FRAC_ONE
}

/// Computes `reduced_rate`.
fn reduce_rate(rate: u64, alpha: u64, min_rate: u64) -> (r: u64)
    requires
        min_rate <= rate,
        alpha <= FRAC_ONE,
    ensures
        r == reduced_rate(rate as int, alpha as int, min_rate as int),
        min_rate <= r <= rate,
{
    proof {
        lemma_reduced_rate_bound(rate as int, alpha as int, min_rate as int);
        lemma_round_div(rate * (2 * FRAC_ONE - alpha), 2 * FRAC_ONE as int);
    }
    let factor = (2 * FRAC_ONE - alpha) as u128;
    assert(rate as u128 * factor <= u128::MAX) by (nonlinear_arith)
        requires rate <= u64::MAX, factor <= 2 * FRAC_ONE;
    let q = rate as u128 * factor;
    let d = 2 * FRAC_ONE as u128;
    let div = q / d;
    let rem = q % d;
    let r = if rem >= d - rem { div + 1 } else { div };
    assert(r == round_div(rate * (2 * FRAC_ONE - alpha), 2 * FRAC_ONE as int));
    if r >= min_rate as u128 {
        r as u64
    } else {
        min_rate
    }
}

/// Computes `increased_rate`.
fn increase_rate(rate: u64, inc: u64, max_rate: u64) -> (r: u64)
    requires
        rate <= max_rate,
    ensures
        r == increased_rate(rate as int, inc as int, max_rate as int),
{
    if inc <= max_rate - rate {
        rate + inc
    } else {
        max_rate
    }
}

/// The sender state of one flow under DCTCP.
#[derive(Debug, Clone, Copy)]
pub struct Flow {
    pub id: FlowId,
    pub source: SourceId,
    pub qindex: QIndex,
    pub size: Bytes,
    pub src2btl: Nanosecs,
    pub btl2dst: Nanosecs,
    // Rate management
    pub rate: BitsPerSec,
    pub min_rate: BitsPerSec,
    pub max_rate: BitsPerSec,
    pub tnext: Time,
    // Window management
    pub window: Bytes,
    pub snd_nxt: Bytes,
    pub snd_una: Bytes,
    // DCTCP
    pub alpha: u64,
    pub gain: u64,
    pub additive_inc: BitsPerSec,
    pub last_update_seq: Bytes,
    pub batch_size: u64,
    pub marked_count: u64,
    pub ca_state: CaState,
    pub high_seq: Bytes,
    // Packetization
    pub sz_pktmax: Bytes,
    pub sz_pkthdr: Bytes,
}

impl Flow {
    /// Sequence numbers are ordered within the flow, the rate within its bounds, α within
    /// `[0, 1]`, and no more than a window of bytes is unacknowledged.
    pub open spec fn wf(self) -> bool {
        &&& self.snd_una.0 <= self.snd_nxt.0 <= self.size.0
        &&& 1 <= self.min_rate.0 <= self.rate.0 <= self.max_rate.0
        &&& self.alpha <= FRAC_ONE
        &&& self.gain <= FRAC_ONE
        &&& self.snd_nxt.0 - self.snd_una.0 <= self.window.0
        &&& self.sz_pktmax.0 > 0
        &&& self.sz_pktmax.0 + self.sz_pkthdr.0 <= u64::MAX
    }

    pub open spec fn spec_bytes_left(self) -> int {
        self.size.0 - self.snd_nxt.0
    }

    pub open spec fn spec_on_the_fly(self) -> int {
        self.snd_nxt.0 - self.snd_una.0
    }

    /// The window scaled by the share of the maximum rate the flow runs at, rounded down.
    pub open spec fn spec_variable_window(self) -> int {
        self.window.0 * self.rate.0 / (self.max_rate.0 as int)
    }

    /// What the scaled window leaves beyond the bytes in flight.
    pub open spec fn spec_usable_window(self) -> int {
        let w = self.spec_variable_window();
        if w > self.spec_on_the_fly() {
            w - self.spec_on_the_fly()
        } else {
            0
        }
    }

    pub open spec fn spec_is_rate_bound(self, now: Time) -> bool {
        self.tnext.0 > now.0
    }

    pub open spec fn spec_is_win_bound(self) -> bool {
        self.spec_usable_window() == 0
    }

    /// The payload of the next packet: limited by the bytes left, the largest payload and
    /// the usable window.
    pub open spec fn next_payload(self) -> int {
        let a = if self.spec_bytes_left() <= self.sz_pktmax.0 {
            self.spec_bytes_left()
        } else {
            self.sz_pktmax.0 as int
        };
        if a <= self.spec_usable_window() {
            a
        } else {
            self.spec_usable_window()
        }
    }

    /// The packet sent next.
    pub open spec fn sent_packet(self) -> Packet {
        Packet {
            flow_id: self.id,
            source_id: self.source,
            qindex: self.qindex,
            size: Bytes((self.next_payload() + self.sz_pkthdr.0) as u64),
            src2btl: self.src2btl,
            btl2dst: self.btl2dst,
            is_last: self.snd_nxt.0 + self.next_payload() == self.size.0,
        }
    }

    /// The state after the next packet is sent at `now`: the payload counts as sent, and the
    /// flow may send again once the packet is serialized at its rate.
    pub open spec fn after_send(self, now: Time) -> Flow {
        Flow {
            snd_nxt: Bytes((self.snd_nxt.0 + self.next_payload()) as u64),
            tnext: Time(
                time_after(
                    now.0 as int,
                    cap_u64(length_ns(self.sent_packet().size.0 as int, self.rate.0 as int)),
                ) as u128,
            ),
            ..self
        }
    }

    /// The state after `ack` is received.
    pub open spec fn after_ack(self, ack: Ack) -> Flow {
        let una = self.snd_una.0 + ack.nr_bytes.0;
        let marked = if ack.marked && self.marked_count < u64::MAX {
            self.marked_count + 1
        } else {
            self.marked_count as int
        };
        let new_batch = una > self.last_update_seq.0;
        let first_batch = self.last_update_seq.0 == 0;
        let alpha = if new_batch && !first_batch {
            ewma(self.alpha as int, self.gain as int, mark_fraction(marked, self.batch_size as int))
        } else {
            self.alpha as int
        };
        let marked = if new_batch && !first_batch {
            0
        } else {
            marked
        };
        let batch_size = if !new_batch {
            self.batch_size as int
        } else if first_batch {
            ceil_div(self.snd_nxt.0 as int, self.sz_pktmax.0 as int)
        } else {
            ceil_div(self.snd_nxt.0 - una, self.sz_pktmax.0 as int)
        };
        let last_update_seq = if new_batch {
            self.snd_nxt
        } else {
            self.last_update_seq
        };
        let open = self.ca_state == CaState::Open || una > self.high_seq.0;
        let cut = open && ack.marked;
        let rate = if cut {
            reduced_rate(self.rate.0 as int, alpha, self.min_rate.0 as int)
        } else {
            self.rate.0 as int
        };
        let rate = if open && new_batch {
            increased_rate(rate, self.additive_inc.0 as int, self.max_rate.0 as int)
        } else {
            rate
        };
        Flow {
            snd_una: Bytes(una as u64),
            marked_count: marked as u64,
            alpha: alpha as u64,
            batch_size: batch_size as u64,
            last_update_seq,
            ca_state: if cut || !open { CaState::Reducing } else { CaState::Open },
            high_seq: if cut { self.snd_nxt } else { self.high_seq },
            rate: BitsPerSec(rate as u64),
            ..self
        }
    }

    /// A flow at the start of its life: at full rate, nothing sent, eligible to send at `now`,
    /// with α at one.
    pub open spec fn fresh(
        desc: FlowDesc,
        src2btl: Nanosecs,
        link_rate: BitsPerSec,
        now: Time,
        params: SenderParams,
    ) -> Flow {
        Flow {
            id: desc.id,
            source: desc.source,
            qindex: desc.qindex,
            size: desc.size,
            src2btl,
            btl2dst: Nanosecs((desc.delay2dst.0 - src2btl.0) as u64),
            rate: link_rate,
            min_rate: BitsPerSec(if link_rate.0 < MIN_RATE_BPS { link_rate.0 } else { MIN_RATE_BPS }),
            max_rate: link_rate,
            tnext: now,
            window: params.window,
            snd_nxt: Bytes(0),
            snd_una: Bytes(0),
            alpha: FRAC_ONE,
            gain: params.gain,
            additive_inc: params.additive_inc,
            last_update_seq: Bytes(0),
            batch_size: 0,
            marked_count: 0,
            ca_state: CaState::Open,
            high_seq: Bytes(0),
            sz_pktmax: params.sz_pktmax,
            sz_pkthdr: params.sz_pkthdr,
        }
    }

    /// A new flow at the start of its life: at full rate, nothing sent, and eligible to send
    /// at `now`.
    pub fn new(
        desc: &FlowDesc,
        src2btl: Nanosecs,
        link_rate: BitsPerSec,
        now: Time,
        params: &SenderParams,
    ) -> (r: Self)
        requires
            link_rate.0 > 0,
            src2btl.0 <= desc.delay2dst.0,
            params.wf(),
        ensures
            r.wf(),
            r == Flow::fresh(*desc, src2btl, link_rate, now, *params),
    {
        let min_rate = if link_rate.0 < MIN_RATE_BPS { link_rate.0 } else { MIN_RATE_BPS };
        Flow {
            id: desc.id,
            source: desc.source,
            qindex: desc.qindex,
            size: desc.size,
            src2btl,
            btl2dst: Nanosecs(desc.delay2dst.0 - src2btl.0),
            rate: link_rate,
            min_rate: BitsPerSec(min_rate),
            max_rate: link_rate,
            tnext: now,
            window: params.window,
            snd_nxt: Bytes(0),
            snd_una: Bytes(0),
            alpha: FRAC_ONE,
            gain: params.gain,
            additive_inc: params.additive_inc,
            last_update_seq: Bytes(0),
            batch_size: 0,
            marked_count: 0,
            ca_state: CaState::Open,
            high_seq: Bytes(0),
            sz_pktmax: params.sz_pktmax,
            sz_pkthdr: params.sz_pkthdr,
        }
    }

    /// The payload bytes not yet sent.
    pub fn bytes_left(&self) -> (r: Bytes)
        requires
            self.wf(),
        ensures
            r.0 == self.spec_bytes_left(),
    {
        Bytes(self.size.0 - self.snd_nxt.0)
    }

    /// The payload bytes sent and not yet acknowledged.
    pub fn on_the_fly(&self) -> (r: Bytes)
        requires
            self.wf(),
        ensures
            r.0 == self.spec_on_the_fly(),
    {
        Bytes(self.snd_nxt.0 - self.snd_una.0)
    }

    /// The window scaled by `rate / max_rate`, rounded down.
    pub fn variable_window(&self) -> (r: Bytes)
        requires
            self.wf(),
        ensures
            r.0 == self.spec_variable_window(),
            r.0 <= self.window.0,
    {
        let w = self.window.0 as u128;
        assert(w * self.rate.0 <= u128::MAX) by (nonlinear_arith)
            requires w <= u64::MAX, self.rate.0 <= u64::MAX;
        let prod = w * self.rate.0 as u128;
        let v = prod / self.max_rate.0 as u128;
        proof {
            assert(prod <= w * self.max_rate.0) by (nonlinear_arith)
                requires prod == w * self.rate.0, self.rate.0 <= self.max_rate.0, w >= 0;
            let m = self.max_rate.0 as int;
            assert(v as int <= w as int) by (nonlinear_arith)
                requires v as int == prod as int / m, prod <= w * m, m > 0;
        }
        Bytes(v as u64)
    }

    /// The bytes the flow may still put in flight.
    pub fn usable_window(&self) -> (r: Bytes)
        requires
            self.wf(),
        ensures
            r.0 == self.spec_usable_window(),
            self.spec_variable_window() <= self.window.0,
    {
        let w = self.variable_window();
        let f = self.on_the_fly();
        Bytes(w.0.saturating_sub(f.0))
    }

    /// Whether the flow must wait for its pacing time.
    pub fn is_rate_bound(&self, now: Time) -> (r: bool)
        ensures
            r == self.spec_is_rate_bound(now),
    {
        self.tnext.0 > now.0
    }

    /// Whether the flow must wait for acknowledgements.
    pub fn is_win_bound(&self) -> (r: bool)
        requires
            self.wf(),
        ensures
            r == self.spec_is_win_bound(),
    {
        self.usable_window().0 == 0
    }

    /// Sends the next packet at `now`: as much payload as the bytes left, the largest payload
    /// and the usable window allow. The flow may send again once the packet is serialized at
    /// its current rate.
    pub fn next_packet(&mut self, now: Time) -> (pkt: Packet)
        requires
            old(self).wf(),
            old(self).spec_bytes_left() > 0,
            old(self).spec_usable_window() > 0,
        ensures
            final(self).wf(),
            old(self).next_payload() > 0,
            pkt == old(self).sent_packet(),
            *final(self) == old(self).after_send(now),
    {
        let left = self.bytes_left();
        let usable = self.usable_window();
        let mut payload = if left.0 <= self.sz_pktmax.0 { left.0 } else { self.sz_pktmax.0 };
        if usable.0 < payload {
            payload = usable.0;
        }
        self.snd_nxt = Bytes(self.snd_nxt.0 + payload);
        let sz_pkt = Bytes(payload + self.sz_pkthdr.0);
        let rate_delta = self.rate.length(sz_pkt);
        self.tnext = now.saturating_add(Delta(rate_delta.0 as u128));
        Packet {
            flow_id: self.id,
            source_id: self.source,
            qindex: self.qindex,
            size: sz_pkt,
            src2btl: self.src2btl,
            btl2dst: self.btl2dst,
            is_last: self.snd_nxt.0 == self.size.0,
        }
    }

    /// Receives `ack`: advances the acknowledged sequence, updates α once per fully
    /// acknowledged batch, cuts the rate on a marked acknowledgement at most once per window
    /// of data, and raises it additively once per batch.
    pub fn rcv_ack(&mut self, ack: Ack)
        requires
            old(self).wf(),
            old(self).snd_una.0 + ack.nr_bytes.0 <= old(self).snd_nxt.0,
        ensures
            final(self).wf(),
            *final(self) == old(self).after_ack(ack),
    {
        proof {
            lemma_ack_keeps_invariant(*self, ack);
        }
        let ghost o = *self;
        self.snd_una = Bytes(self.snd_una.0 + ack.nr_bytes.0);
        if ack.marked {
            self.marked_count = self.marked_count.saturating_add(1);
        }
        let mut new_batch = false;
        if self.snd_una.0 > self.last_update_seq.0 {
            new_batch = true;
            if self.last_update_seq.0 == 0 {
                self.batch_size = Packet::max_count_in(self.snd_nxt, self.sz_pktmax);
            } else {
                let frac = mark_fraction_of(self.marked_count, self.batch_size);
                proof {
                    lemma_mark_fraction_bound(self.marked_count as int, self.batch_size as int);
                }
                self.alpha = ewma_of(self.alpha, self.gain, frac);
                self.marked_count = 0;
                self.batch_size = Packet::max_count_in(
                    Bytes(self.snd_nxt.0 - self.snd_una.0),
                    self.sz_pktmax,
                );
            }
            self.last_update_seq = self.snd_nxt;
        }
        if self.ca_state == CaState::Reducing && self.snd_una.0 > self.high_seq.0 {
            self.ca_state = CaState::Open;
        }
        if self.ca_state == CaState::Open {
            if ack.marked {
                self.rate = BitsPerSec(reduce_rate(self.rate.0, self.alpha, self.min_rate.0));
                self.ca_state = CaState::Reducing;
                self.high_seq = self.snd_nxt;
            }
            if new_batch {
                self.rate = BitsPerSec(increase_rate(self.rate.0, self.additive_inc.0, self.max_rate.0));
            }
        }
        assert(*self == o.after_ack(ack));
    }
}

/// Every state a flow reaches by acknowledgements keeps its sequence numbers ordered, its
/// rate within `[min_rate, max_rate]` and α within `[0, 1]`.
pub proof fn lemma_ack_keeps_invariant(f: Flow, ack: Ack)
    requires
        f.wf(),
        f.snd_una.0 + ack.nr_bytes.0 <= f.snd_nxt.0,
    ensures
        f.after_ack(ack).wf(),
        f.after_ack(ack).snd_una.0 == f.snd_una.0 + ack.nr_bytes.0,
        f.after_ack(ack).alpha as int == (if f.snd_una.0 + ack.nr_bytes.0 > f.last_update_seq.0
            && f.last_update_seq.0 != 0 {
            ewma(
                f.alpha as int,
                f.gain as int,
                mark_fraction(
                    if ack.marked && f.marked_count < u64::MAX {
                        f.marked_count + 1
                    } else {
                        f.marked_count as int
                    },
                    f.batch_size as int,
                ),
            )
        } else {
            f.alpha as int
        }),
{
    let una = f.snd_una.0 + ack.nr_bytes.0;
    let marked = if ack.marked && f.marked_count < u64::MAX {
        f.marked_count + 1
    } else {
        f.marked_count as int
    };
    lemma_mark_fraction_bound(marked, f.batch_size as int);
    lemma_ewma_bound(f.alpha as int, f.gain as int, mark_fraction(marked, f.batch_size as int));
    let new_batch = una > f.last_update_seq.0;
    let alpha = if new_batch && f.last_update_seq.0 != 0 {
        ewma(f.alpha as int, f.gain as int, mark_fraction(marked, f.batch_size as int))
    } else {
        f.alpha as int
    };
    lemma_reduced_rate_bound(f.rate.0 as int, alpha, f.min_rate.0 as int);
    lemma_ceil_div(f.snd_nxt.0 as int, f.sz_pktmax.0 as int);
    lemma_ceil_div(f.snd_nxt.0 - una, f.sz_pktmax.0 as int);
    let nx = f.snd_nxt.0 as int;
    let rest = f.snd_nxt.0 - una;
    let m = f.sz_pktmax.0 as int;
    if m == 1 {
        assert(nx % 1 == 0 && nx / 1 == nx);
        assert(rest % 1 == 0 && rest / 1 == rest);
    } else {
        assert(nx / m < u64::MAX) by (nonlinear_arith)
            requires m >= 2, 0 <= nx <= u64::MAX;
        assert(rest / m < u64::MAX) by (nonlinear_arith)
            requires m >= 2, 0 <= rest <= u64::MAX;
        assert(nx / m >= 0) by (nonlinear_arith)
            requires m >= 2, 0 <= nx;
        assert(rest / m >= 0) by (nonlinear_arith)
            requires m >= 2, 0 <= rest;
    }
}

/// A window smaller than a packet is used up by a single send: unless the flow is about to
/// finish, it is then window-bound until acknowledgements free the window.
pub proof fn lemma_small_window_fills(f: Flow, now: Time)
    requires
        f.wf(),
        f.spec_usable_window() > 0,
        f.spec_usable_window() <= f.sz_pktmax.0,
        f.spec_usable_window() <= f.spec_bytes_left(),
    ensures
        f.after_send(now).spec_is_win_bound(),
        f.after_send(now).spec_on_the_fly() <= f.window.0,
{
    let g = f.after_send(now);
    assert(g.spec_variable_window() == f.spec_variable_window());
    let w = f.window.0 as int;
    let m = f.max_rate.0 as int;
    assert(w * f.rate.0 / m <= w) by (nonlinear_arith)
        requires 0 <= w, 1 <= f.rate.0 <= m;
}

/// The payload bytes of `pkts`, given the header size.
pub open spec fn payload_sum(pkts: Seq<Packet>, hdr: int) -> int
    decreases pkts.len(),
{
    if pkts.len() == 0 {
        0
    } else {
        payload_sum(pkts.drop_last(), hdr) + pkts.last().size.0 - hdr
    }
}

/// Flow `f` sends `p` at `now`, and `next` is its state before its next send: what happens in
/// between (acknowledgements) moves no sequence number it sends from, nor its size or header.
#[verifier::opaque]
pub open spec fn sends(f: Flow, next: Flow, p: Packet, now: Time) -> bool {
    &&& f.wf()
    &&& f.spec_bytes_left() > 0
    &&& f.spec_usable_window() > 0
    &&& p == f.sent_packet()
    &&& next.snd_nxt == f.after_send(now).snd_nxt
    &&& next.size == f.size
    &&& next.sz_pkthdr == f.sz_pkthdr
}

proof fn lemma_sends(f: Flow, next: Flow, p: Packet, now: Time)
    requires
        sends(f, next, p, now),
    ensures
        next.size == f.size,
        next.sz_pkthdr == f.sz_pkthdr,
        next.snd_nxt.0 == f.snd_nxt.0 + p.size.0 - f.sz_pkthdr.0,
        p.is_last == (next.snd_nxt == f.size),
{
    reveal(sends);
}

/// `fs` are the states of a flow between its sends, `pkts` the packets it sends at `nows`.
pub open spec fn send_history(fs: Seq<Flow>, pkts: Seq<Packet>, nows: Seq<Time>) -> bool {
    &&& fs.len() == pkts.len() + 1
    &&& nows.len() == pkts.len()
    &&& forall|i: int| 0 <= i < pkts.len() ==> #[trigger] sends(fs[i], fs[i + 1], pkts[i], nows[i])
}

/// Over any history of sends, the payloads sent add up to how far the send sequence moved,
/// and a packet is marked last exactly when it brings the sequence to the flow's size.
pub proof fn lemma_payloads_add_up(fs: Seq<Flow>, pkts: Seq<Packet>, nows: Seq<Time>)
    requires
        send_history(fs, pkts, nows),
    ensures
        payload_sum(pkts, fs[0].sz_pkthdr.0 as int) == fs.last().snd_nxt.0 - fs[0].snd_nxt.0,
        forall|i: int|
            0 <= i < pkts.len() ==> (#[trigger] pkts[i]).is_last == (fs[i + 1].snd_nxt == fs[0].size),
    decreases pkts.len(),
{
    if pkts.len() > 0 {
        let n = pkts.len() - 1;
        let fs2 = fs.drop_last();
        let pk2 = pkts.drop_last();
        let nw2 = nows.drop_last();
        assert forall|i: int| 0 <= i < pk2.len() implies #[trigger] sends(fs2[i], fs2[i + 1], pk2[i], nw2[i]) by {
            assert(sends(fs[i], fs[i + 1], pkts[i], nows[i]));
        }
        lemma_payloads_add_up(fs2, pk2, nw2);
        assert(sends(fs[n], fs[n + 1], pkts[n], nows[n]));
        lemma_sends(fs[n], fs[n + 1], pkts[n], nows[n]);
        lemma_history_keeps(fs, pkts, nows, n);
        assert forall|i: int|
            0 <= i < pkts.len() implies (#[trigger] pkts[i]).is_last == (fs[i + 1].snd_nxt == fs[0].size) by {
            if i < n {
                assert(pk2[i] == pkts[i]);
            } else {
                lemma_history_keeps(fs, pkts, nows, n);
            }
        }
    }
}

/// Along a history, the size and header stay those of the first state.
proof fn lemma_history_keeps(fs: Seq<Flow>, pkts: Seq<Packet>, nows: Seq<Time>, i: int)
    requires
        send_history(fs, pkts, nows),
        0 <= i <= pkts.len(),
    ensures
        fs[i].size == fs[0].size,
        fs[i].sz_pkthdr == fs[0].sz_pkthdr,
    decreases i,
{
    if i > 0 {
        lemma_history_keeps(fs, pkts, nows, i - 1);
        let j = i - 1;
        assert(sends(fs[j], fs[j + 1], pkts[j], nows[j]));
        lemma_sends(fs[j], fs[j + 1], pkts[j], nows[j]);
        assert(fs[j + 1] == fs[i]);
    }
}

/// Without a marked acknowledgement the rate never falls.
pub proof fn lemma_unmarked_ack_keeps_rate(f: Flow, ack: Ack)
    requires
        f.wf(),
        f.snd_una.0 + ack.nr_bytes.0 <= f.snd_nxt.0,
        !ack.marked,
    ensures
        f.after_ack(ack).rate.0 >= f.rate.0,
{
}

} // verus!
