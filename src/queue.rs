//! Queueing disciplines: the operations the bottleneck needs of any of them, and a FIFO one.
use std::collections::VecDeque;

use vstd::multiset::Multiset;
use vstd::prelude::*;

use crate::ident::FlowId;
use crate::packet::Packet;

verus! {

/// The operations any queueing discipline supports. Which packet leaves first is the
/// discipline's choice; no packet is lost or made up.
pub trait QDisc {
    /// The packets held.
    spec fn packets(&self) -> Multiset<Packet>;

    /// Enqueues a packet.
    fn enqueue(&mut self, pkt: Packet)
        ensures
            final(self).packets() == old(self).packets().insert(pkt),
    ;

    /// Dequeues a packet, or returns `None` when there is none.
    fn dequeue(&mut self) -> (r: Option<Packet>)
        ensures
            r is None <==> old(self).packets().len() == 0,
            r is None ==> final(self).packets() == old(self).packets(),
            r matches Some(p) ==> old(self).packets().count(p) > 0 && final(self).packets()
                == old(self).packets().remove(p),
    ;

    /// Whether no packet is held.
    fn is_empty(&self) -> (r: bool)
        ensures
            r <==> self.packets().len() == 0,
    ;
}

/// A first-in first-out queue.
#[derive(Debug)]
pub struct FifoQ {
    inner: VecDeque<Packet>,
}

impl FifoQ {
    /// The packets held, head first.
    pub closed spec fn order(&self) -> Seq<Packet> {
        self.inner@
    }

    /// An empty queue.
    pub fn new() -> (r: Self)
        ensures
            r.order() == Seq::<Packet>::empty(),
    {
        FifoQ { inner: VecDeque::new() }
    }
}

impl QDisc for FifoQ {
    closed spec fn packets(&self) -> Multiset<Packet> {
        self.inner@.to_multiset()
    }

    /// Appends at the tail.
    fn enqueue(&mut self, pkt: Packet)
        ensures
            final(self).order() == old(self).order().push(pkt),
    {
        proof {
            broadcast use vstd::seq_lib::group_to_multiset_ensures;

        }
        self.inner.push_back(pkt);
    }

    /// Removes the head.
    fn dequeue(&mut self) -> (r: Option<Packet>)
        ensures
            old(self).order().len() > 0 ==> r == Some(old(self).order()[0]) && final(self).order()
                == old(self).order().subrange(1, old(self).order().len() as int),
    {
        proof {
            broadcast use vstd::seq_lib::group_to_multiset_ensures;

            if self.inner@.len() > 0 {
                assert(self.inner@.subrange(1, self.inner@.len() as int) =~= self.inner@.remove(0));
            }
        }
        self.inner.pop_front()
    }

    fn is_empty(&self) -> (r: bool) {
        proof {
            broadcast use vstd::seq_lib::group_to_multiset_ensures;

        }
        self.inner.len() == 0
    }
}

/// The packets of one flow in a round-robin queue, oldest first.
#[derive(Debug)]
pub struct FlowPackets {
    pub id: FlowId,
    pub pkts: VecDeque<Packet>,
}

/// A flow and its packets, as values.
pub open spec fn flow_view(m: FlowPackets) -> (FlowId, Seq<Packet>) {
    (m.id, m.pkts@)
}

/// All packets of the flows `s`.
pub open spec fn all_packets(s: Seq<(FlowId, Seq<Packet>)>) -> Multiset<Packet>
    decreases s.len(),
{
    if s.len() == 0 {
        Multiset::empty()
    } else {
        all_packets(s.drop_last()).add(s.last().1.to_multiset())
    }
}

proof fn lemma_all_packets_push(s: Seq<(FlowId, Seq<Packet>)>, m: (FlowId, Seq<Packet>))
    ensures
        all_packets(s.push(m)) == all_packets(s).add(m.1.to_multiset()),
{
    assert(s.push(m).drop_last() =~= s);
}

proof fn lemma_all_packets_update(s: Seq<(FlowId, Seq<Packet>)>, k: int, m: (FlowId, Seq<Packet>))
    requires
        0 <= k < s.len(),
    ensures
        all_packets(s.update(k, m)).add(s[k].1.to_multiset()) == all_packets(s).add(m.1.to_multiset()),
    decreases s.len(),
{
    broadcast use vstd::multiset::group_multiset_axioms;

    let u = s.update(k, m);
    assert(all_packets(u) == all_packets(u.drop_last()).add(u.last().1.to_multiset()));
    assert(all_packets(s) == all_packets(s.drop_last()).add(s.last().1.to_multiset()));
    if k == s.len() - 1 {
        assert(u.drop_last() =~= s.drop_last());
        assert(all_packets(u).add(s[k].1.to_multiset()) =~= all_packets(s).add(m.1.to_multiset()));
    } else {
        lemma_all_packets_update(s.drop_last(), k, m);
        assert(u.drop_last() =~= s.drop_last().update(k, m));
        assert(u.last() == s.last());
        assert(s.drop_last()[k] == s[k]);
        let du = s.drop_last().update(k, m);
        let l = s.last().1.to_multiset();
        assert(all_packets(u) == all_packets(du).add(l));
        assert forall|x: Packet|
            all_packets(u).add(s[k].1.to_multiset()).count(x) == all_packets(s).add(m.1.to_multiset()).count(x) by {
            assert(all_packets(du).add(s[k].1.to_multiset()).count(x) == all_packets(s.drop_last()).add(
                m.1.to_multiset(),
            ).count(x));
        }
        assert(all_packets(u).add(s[k].1.to_multiset()) =~= all_packets(s).add(m.1.to_multiset()));
    }
}

proof fn lemma_all_packets_first(s: Seq<(FlowId, Seq<Packet>)>)
    requires
        s.len() > 0,
    ensures
        all_packets(s) == all_packets(s.drop_first()).add(s[0].1.to_multiset()),
    decreases s.len(),
{
    broadcast use vstd::multiset::group_multiset_axioms;

    if s.len() == 1 {
        assert(s.drop_first() =~= Seq::<(FlowId, Seq<Packet>)>::empty());
        assert(s.drop_last() =~= Seq::<(FlowId, Seq<Packet>)>::empty());
        assert(all_packets(s) =~= all_packets(s.drop_first()).add(s[0].1.to_multiset()));
    } else {
        lemma_all_packets_first(s.drop_last());
        assert(s.drop_last().drop_first() =~= s.drop_first().drop_last());
        assert(s.drop_first().last() == s.last());
        assert(s.drop_last()[0] == s[0]);
        assert(all_packets(s.drop_first()) == all_packets(s.drop_first().drop_last()).add(
            s.drop_first().last().1.to_multiset(),
        ));
        assert(all_packets(s) =~= all_packets(s.drop_first()).add(s[0].1.to_multiset()));
    }
}

/// A packet added to a flow already held joins the packets held.
proof fn lemma_all_packets_grow(s: Seq<(FlowId, Seq<Packet>)>, k: int, pkt: Packet)
    requires
        0 <= k < s.len(),
    ensures
        all_packets(s.update(k, (s[k].0, s[k].1.push(pkt)))) == all_packets(s).insert(pkt),
{
    broadcast use vstd::seq_lib::group_to_multiset_ensures;
    broadcast use vstd::multiset::group_multiset_axioms;

    let m = (s[k].0, s[k].1.push(pkt));
    lemma_all_packets_update(s, k, m);
    let a = all_packets(s.update(k, m));
    let b = all_packets(s);
    let sk = s[k].1.to_multiset();
    assert(m.1.to_multiset() == sk.insert(pkt));
    assert forall|x: Packet| a.count(x) == b.insert(pkt).count(x) by {
        assert(a.add(sk).count(x) == b.add(sk.insert(pkt)).count(x));
    }
    assert(a =~= b.insert(pkt));
}

/// A packet of a new flow joins the packets held.
proof fn lemma_all_packets_join(s: Seq<(FlowId, Seq<Packet>)>, id: FlowId, pkt: Packet)
    ensures
        all_packets(s.push((id, seq![pkt]))) == all_packets(s).insert(pkt),
{
    broadcast use vstd::seq_lib::group_to_multiset_ensures;
    broadcast use vstd::multiset::group_multiset_axioms;

    lemma_all_packets_push(s, (id, seq![pkt]));
    assert(seq![pkt] =~= Seq::<Packet>::empty().push(pkt));
    assert(all_packets(s.push((id, seq![pkt]))) =~= all_packets(s).insert(pkt));
}

/// A queue that serves flows in turn, one packet each, in the order the flows first arrived.
/// A flow whose last packet leaves drops out, and joins at the end when a packet comes again.
#[derive(Debug)]
pub struct RrQ {
    members: Vec<FlowPackets>,
}

impl RrQ {
    /// The flows in turn order, each with its packets, oldest first.
    pub closed spec fn flows(&self) -> Seq<(FlowId, Seq<Packet>)> {
        Seq::new(self.members@.len(), |i: int| flow_view(self.members@[i]))
    }

    /// No flow is held without packets.
    #[verifier::type_invariant]
    closed spec fn no_idle_flow(&self) -> bool {
        forall|i: int| 0 <= i < self.members@.len() ==> (#[trigger] self.members@[i]).pkts@.len() > 0
    }

    /// An empty queue.
    pub fn new() -> (r: Self)
        ensures
            r.flows() == Seq::<(FlowId, Seq<Packet>)>::empty(),
    {
        let r = RrQ { members: Vec::new() };
        assert(r.flows() =~= Seq::<(FlowId, Seq<Packet>)>::empty());
        r
    }

    /// The position of the first flow with ID `id`, if any.
    pub open spec fn position(s: Seq<(FlowId, Seq<Packet>)>, id: FlowId) -> Option<int> {
        if exists|k: int| 0 <= k < s.len() && (#[trigger] s[k]).0 == id {
            Some(choose|k: int| 0 <= k < s.len() && s[k].0 == id && forall|j: int| 0 <= j < k ==> (#[trigger] s[j]).0 != id)
        } else {
            None
        }
    }
}

impl QDisc for RrQ {
    closed spec fn packets(&self) -> Multiset<Packet> {
        all_packets(self.flows())
    }

    /// Appends `pkt` to its flow's packets; a flow not held joins at the end of the turn order.
    fn enqueue(&mut self, pkt: Packet)
        ensures
            RrQ::position(old(self).flows(), pkt.flow_id) matches Some(k) ==> final(self).flows() == old(self).flows().update(
                k,
                (pkt.flow_id, old(self).flows()[k].1.push(pkt)),
            ),
            RrQ::position(old(self).flows(), pkt.flow_id) is None ==> final(self).flows() == old(self).flows().push(
                (pkt.flow_id, seq![pkt]),
            ),
    {

        proof {
            use_type_invariant(&*self);
        }
        let ghost before = self.flows();
        let mut members: Vec<FlowPackets> = Vec::new();
        std::mem::swap(&mut members, &mut self.members);
        let ghost ms = members@;
        assert(before =~= Seq::new(ms.len(), |i: int| flow_view(ms[i])));
        let mut k: usize = 0;
        while k < members.len()
            invariant
                members@ == ms,
                k <= ms.len(),
                forall|j: int| 0 <= j < k ==> (#[trigger] ms[j]).id != pkt.flow_id,
            ensures
                members@ == ms,
                k <= ms.len(),
                forall|j: int| 0 <= j < k ==> (#[trigger] ms[j]).id != pkt.flow_id,
                k < ms.len() ==> ms[k as int].id == pkt.flow_id,
            decreases ms.len() - k,
        {
            if members[k].id.0 == pkt.flow_id.0 {
                break;
            }
            k = k + 1;
        }
        if k < members.len() {
            members[k].pkts.push_back(pkt);
            proof {
                let c = choose|c: int|
                    0 <= c < before.len() && before[c].0 == pkt.flow_id && forall|j: int|
                        0 <= j < c ==> (#[trigger] before[j]).0 != pkt.flow_id;
                assert(before[k as int].0 == pkt.flow_id);
                assert(c == k) by {
                    if c < k {
                        assert(ms[c].id != pkt.flow_id);
                    } else if c > k {
                        assert(before[k as int].0 != pkt.flow_id);
                    }
                }
                let after = Seq::new(members@.len(), |i: int| flow_view(members@[i]));
                assert(after =~= before.update(k as int, (pkt.flow_id, before[k as int].1.push(pkt))));
                lemma_all_packets_grow(before, k as int, pkt);
            }
        } else {
            let mut pkts: VecDeque<Packet> = VecDeque::new();
            pkts.push_back(pkt);
            members.push(FlowPackets { id: pkt.flow_id, pkts });
            proof {
                let after = Seq::new(members@.len(), |i: int| flow_view(members@[i]));
                assert(!exists|j: int| 0 <= j < before.len() && (#[trigger] before[j]).0 == pkt.flow_id);
                assert(after =~= before.push((pkt.flow_id, seq![pkt])));
                lemma_all_packets_join(before, pkt.flow_id, pkt);
            }
        }
        proof {
            assert forall|i: int| 0 <= i < members@.len() implies (#[trigger] members@[i]).pkts@.len() > 0 by {
                if i < ms.len() && i != k {
                    assert(members@[i] == ms[i]);
                }
            }
        }
        self.members = members;
    }

    /// Serves the flow whose turn it is: its oldest packet leaves, and the flow moves to the
    /// end of the turn order, or drops out with its last packet.
    fn dequeue(&mut self) -> (r: Option<Packet>)
        ensures
            old(self).flows().len() > 0 ==> {
                let m = old(self).flows()[0];
                let rest = old(self).flows().drop_first();
                &&& r == Some(m.1[0])
                &&& m.1.len() == 1 ==> final(self).flows() == rest
                &&& m.1.len() > 1 ==> final(self).flows() == rest.push((m.0, m.1.drop_first()))
            },
    {
        broadcast use vstd::seq_lib::group_to_multiset_ensures;
        broadcast use vstd::multiset::group_multiset_axioms;

        proof {
            use_type_invariant(&*self);
        }
        if self.members.len() == 0 {
            return None;
        }
        let ghost before = self.flows();
        let mut members: Vec<FlowPackets> = Vec::new();
        std::mem::swap(&mut members, &mut self.members);
        let ghost ms = members@;
        assert(before =~= Seq::new(ms.len(), |i: int| flow_view(ms[i])));
        let mut first = members.remove(0);
        let pkt = first.pkts.pop_front();
        proof {
            lemma_all_packets_first(before);
            assert(ms[0].pkts@ =~= seq![ms[0].pkts@[0]] + first.pkts@);
            assert(ms[0].pkts@.to_multiset() =~= first.pkts@.to_multiset().insert(ms[0].pkts@[0])) by {
                assert(ms[0].pkts@ =~= first.pkts@.insert(0, ms[0].pkts@[0]));
            }
        }
        if first.pkts.len() > 0 {
            members.push(first);
            proof {
                let after = Seq::new(members@.len(), |i: int| flow_view(members@[i]));
                assert(after =~= before.drop_first().push((before[0].0, before[0].1.drop_first())));
                lemma_all_packets_push(before.drop_first(), (before[0].0, before[0].1.drop_first()));
            }
        } else {
            proof {
                let after = Seq::new(members@.len(), |i: int| flow_view(members@[i]));
                assert(after =~= before.drop_first());
                assert(before[0].1.drop_first() =~= Seq::<Packet>::empty());
            }
        }
        proof {
            assert forall|i: int| 0 <= i < members@.len() implies (#[trigger] members@[i]).pkts@.len() > 0 by {
                if i < ms.len() - 1 {
                    assert(members@[i] == ms[i + 1]);
                }
            }
        }
        self.members = members;
        pkt
    }

    fn is_empty(&self) -> (r: bool) {
        broadcast use vstd::seq_lib::group_to_multiset_ensures;
        broadcast use vstd::multiset::group_multiset_axioms;

        proof {
            use_type_invariant(&*self);
            if self.members@.len() > 0 {
                lemma_all_packets_first(self.flows());
                assert(self.flows()[0].1.len() > 0);
                assert(self.flows()[0].1.to_multiset().len() > 0);
            }
        }
        self.members.len() == 0
    }
}

} // verus!
