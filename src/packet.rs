//! Packets and acknowledgements.
use vstd::prelude::*;

use crate::ident::{FlowId, SourceId};
use crate::port::QIndex;
use crate::time::Delta;
use crate::units::{Bytes, Nanosecs};

verus! {

/// A packet of data on its way from a source through the bottleneck.
#[derive(Debug, Default, Clone, Copy)]
pub struct Packet {
    /// The flow the packet belongs to.
    pub flow_id: FlowId,
    /// The source that sent the packet.
    pub source_id: SourceId,
    /// The bottleneck queue the packet is served from.
    pub qindex: QIndex,
    /// The size on the wire: payload and header.
    pub size: Bytes,
    /// The propagation delay from the source to the bottleneck.
    pub src2btl: Nanosecs,
    /// The propagation delay from the bottleneck to the destination.
    pub btl2dst: Nanosecs,
    /// Whether this packet carries the last bytes of its flow.
    pub is_last: bool,
}

impl Packet {
    /// The propagation delay from the source to the destination.
    pub fn hrtt(&self) -> (r: Delta)
        ensures
            r.0 == self.src2btl.0 + self.btl2dst.0,
    {
        Delta(self.src2btl.0 as u128 + self.btl2dst.0 as u128)
    }

    /// The number of packets of at most `sz_pktmax` payload bytes needed to carry `size` bytes.
    pub fn max_count_in(size: Bytes, sz_pktmax: Bytes) -> (r: u64)
        requires
            sz_pktmax.0 > 0,
        ensures
            r == ceil_div(size.0 as int, sz_pktmax.0 as int),
    {
        let q = size.0 / sz_pktmax.0;
        proof {
            vstd::arithmetic::div_mod::lemma_fundamental_div_mod(size.0 as int, sz_pktmax.0 as int);
            lemma_ceil_div(size.0 as int, sz_pktmax.0 as int);
        }
        if size.0 % sz_pktmax.0 == 0 {
            q
        } else {
            assert(q < u64::MAX) by {
                if sz_pktmax.0 == 1 {
                    assert(size.0 % sz_pktmax.0 == 0);
                } else {
                    assert(sz_pktmax.0 * q >= 2 * q) by (nonlinear_arith)
                        requires sz_pktmax.0 >= 2, q >= 0;
                }
            }
            q + 1
        }
    }
}

/// `x / d` rounded up.
pub open spec fn ceil_div(x: int, d: int) -> int {
    (x + d - 1) / d
}

/// Rounding up through the quotient and the remainder.
pub proof fn lemma_ceil_div(x: int, d: int)
    requires
        x >= 0,
        d > 0,
    ensures
        ceil_div(x, d) == x / d + (if x % d == 0 { 0int } else { 1int }),
{
    vstd::arithmetic::div_mod::lemma_fundamental_div_mod(x, d);
    let q = x / d;
    let r = x % d;
    let e: int = if r == 0 { 0 } else { 1 };
    let rr = r + d - 1 - d * e;
    assert(0 <= rr < d);
    assert(x + d - 1 == (q + e) * d + rr) by (nonlinear_arith)
        requires
            x == d * q + r,
            rr == r + d - 1 - d * e,
    ;
    vstd::arithmetic::div_mod::lemma_fundamental_div_mod_converse_div(x + d - 1, d, q + e, rr);
}

/// An acknowledgement of one packet's payload.
#[derive(Debug, Clone, Copy)]
pub struct Ack {
    /// The payload bytes acknowledged.
    pub nr_bytes: Bytes,
    /// Whether the packet found its queue above the marking threshold.
    pub marked: bool,
}

impl Ack {
    /// Creates an acknowledgement.
    pub fn new(nr_bytes: Bytes, marked: bool) -> (r: Self)
        ensures
            r.nr_bytes == nr_bytes,
            r.marked == marked,
    {
        Ack { nr_bytes, marked }
    }
}

} // verus!
