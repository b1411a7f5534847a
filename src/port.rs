//! The bottleneck port: FIFO sub-queues served by deficit round robin.
use std::collections::VecDeque;

use vstd::prelude::*;

use crate::packet::Packet;
use crate::units::Bytes;

verus! {

/// The bytes held by a sequence of packets.
pub open spec fn total_size(s: Seq<Packet>) -> int
    decreases s.len(),
{
    if s.len() == 0 {
        0
    } else {
        s[0].size.0 + total_size(s.subrange(1, s.len() as int))
    }
}

/// Appending a packet adds its size.
pub proof fn lemma_total_size_push(s: Seq<Packet>, p: Packet)
    ensures
        total_size(s.push(p)) == total_size(s) + p.size.0,
    decreases s.len(),
{
    if s.len() > 0 {
        let t = s.subrange(1, s.len() as int);
        lemma_total_size_push(t, p);
        assert(s.push(p).subrange(1, s.push(p).len() as int) =~= t.push(p));
        assert(s.push(p)[0] == s[0]);
    } else {
        assert(s.push(p).subrange(1, 1) =~= Seq::<Packet>::empty());
        assert(total_size(Seq::<Packet>::empty()) == 0);
        assert(s.push(p)[0] == p);
    }
}

/// No packet holds more than `u64::MAX` bytes.
pub proof fn lemma_total_size_bound(s: Seq<Packet>)
    ensures
        0 <= total_size(s) <= s.len() * u64::MAX,
    decreases s.len(),
{
    if s.len() > 0 {
        lemma_total_size_bound(s.subrange(1, s.len() as int));
    }
}

/// A FIFO queue of packets that keeps count of the bytes it holds.
#[derive(Debug)]
pub struct Queue {
    inner: VecDeque<Packet>,
    qsize: u128,
}

impl View for Queue {
    type V = Seq<Packet>;

    closed spec fn view(&self) -> Seq<Packet> {
        self.inner@
    }
}

impl Queue {
    /// The byte count matches the packets held.
    pub closed spec fn wf(&self) -> bool {
        self.qsize == total_size(self.inner@)
    }

    /// Creates an empty queue.
    pub fn new() -> (r: Self)
        ensures
            r.wf(),
            r@ == Seq::<Packet>::empty(),
    {
        Queue { inner: VecDeque::new(), qsize: 0 }
    }

    /// Appends `pkt` at the tail.
    pub fn enqueue(&mut self, pkt: Packet)
        requires
            old(self).wf(),
        ensures
            final(self).wf(),
            final(self)@ == old(self)@.push(pkt),
    {
        proof {
            lemma_total_size_push(self.inner@, pkt);
        }
        self.inner.push_back(pkt);
        let n = self.inner.len();
        proof {
            lemma_total_size_bound(self.inner@);
            assert(n * u64::MAX <= u128::MAX) by (nonlinear_arith)
                requires n <= usize::MAX, usize::MAX <= u64::MAX;
        }
        self.qsize = self.qsize + pkt.size.0 as u128;
    }

    /// Removes and returns the head, if any.
    pub fn dequeue(&mut self) -> (r: Option<Packet>)
        requires
            old(self).wf(),
        ensures
            final(self).wf(),
            old(self)@.len() == 0 ==> r is None && final(self)@ == old(self)@,
            old(self)@.len() > 0 ==> r == Some(old(self)@[0]) && final(self)@ == old(self)@.subrange(
                1,
                old(self)@.len() as int,
            ),
    {
        proof {
            if self.inner@.len() > 0 {
                lemma_total_size_bound(self.inner@.subrange(1, self.inner@.len() as int));
            }
        }
        match self.inner.pop_front() {
            Some(pkt) => {
                self.qsize = self.qsize - pkt.size.0 as u128;
                Some(pkt)
            },
            None => None,
        }
    }

    /// The bytes held.
    pub fn size(&self) -> (r: u128)
        requires
            self.wf(),
        ensures
            r == total_size(self@),
    {
        self.qsize
    }

    /// Whether no packet is held.
    pub fn is_empty(&self) -> (r: bool)
        ensures
            r <==> self@.len() == 0,
    {
        self.inner.len() == 0
    }

    /// The size of the head packet.
    fn head_size(&self) -> (r: u64)
        requires
            self@.len() > 0,
        ensures
            r == self@[0].size.0,
    {
        self.inner[0].size.0
    }
}

/// The index of a sub-queue of the port. Each sub-queue has its own scheduling weight.
#[derive(Debug, Default, Clone, Copy, PartialEq, Eq, PartialOrd, Ord, Hash, Structural)]
pub struct QIndex(pub usize);

impl QIndex {
    /// Creates a queue index.
    pub fn new(val: usize) -> (r: Self)
        ensures
            r.0 == val,
    {
        QIndex(val)
    }

    /// The index as a `usize`.
    pub fn inner(&self) -> (r: usize)
        ensures
            r == self.0,
    {
        self.0
    }
}

/// `a + b` capped at the largest `u64`.
pub open spec fn sat_add(a: int, b: int) -> int {
    if a + b <= u64::MAX {
        a + b
    } else {
        u64::MAX as int
    }
}

/// The size of the head packet of each sub-queue, `None` for an empty one.
pub open spec fn heads_of(queues: Seq<Seq<Packet>>) -> Seq<Option<u64>> {
    Seq::new(queues.len(), |i: int| if queues[i].len() > 0 { Some(queues[i][0].size.0) } else { None })
}

/// The scheduler's view of a port: the head size of each sub-queue (`None` when it is empty),
/// the quanta, the deficits, the round-robin counter and whether the sub-queue under the
/// counter is owed its quantum.
pub struct DrrState {
    pub heads: Seq<Option<u64>>,
    pub quanta: Seq<u64>,
    pub deficits: Seq<u64>,
    pub counter: int,
    pub bump: bool,
}

impl DrrState {
    pub open spec fn n(self) -> int {
        self.heads.len() as int
    }

    /// Shapes agree, every quantum is positive and every empty sub-queue has no deficit.
    pub open spec fn wf(self) -> bool {
        &&& self.n() > 0
        &&& self.quanta.len() == self.n()
        &&& self.deficits.len() == self.n()
        &&& 0 <= self.counter < self.n()
        &&& forall|i: int| 0 <= i < self.n() ==> self.quanta[i] > 0
        &&& forall|i: int| 0 <= i < self.n() && self.heads[i] is None ==> self.deficits[i] == 0
    }

    pub open spec fn all_empty(self) -> bool {
        forall|i: int| 0 <= i < self.n() ==> self.heads[i] is None
    }

    /// Moves the counter to the next sub-queue, which is then owed its quantum.
    pub open spec fn advance(self) -> DrrState {
        DrrState { counter: if self.counter + 1 == self.n() { 0 } else { self.counter + 1 }, bump: true, ..self }
    }

    /// The deficit of the sub-queue under the counter once any quantum owed is added.
    pub open spec fn credited(self) -> int {
        let i = self.counter;
        if self.bump {
            sat_add(self.deficits[i] as int, self.quanta[i] as int)
        } else {
            self.deficits[i] as int
        }
    }

    /// One visit of the sub-queue under the counter: the next state, and whether the
    /// sub-queue is picked.
    pub open spec fn visit(self) -> (DrrState, bool) {
        let i = self.counter;
        match self.heads[i] {
            None => (DrrState { deficits: self.deficits.update(i, 0), ..self }.advance(), false),
            Some(size) => {
                let d = self.credited();
                if d >= size {
                    (DrrState { deficits: self.deficits.update(i, (d - size) as u64), bump: false, ..self }, true)
                } else {
                    (DrrState { deficits: self.deficits.update(i, d as u64), ..self }.advance(), false)
                }
            },
        }
    }

    /// Some non-empty sub-queue, by which progress is measured.
    pub open spec fn witness(self) -> int {
        choose|j: int| 0 <= j < self.n() && self.heads[j] is Some
    }

    /// What the witness still lacks, counted in rounds, plus the distance to it.
    pub open spec fn measure(self) -> int {
        let j = self.witness();
        let size = self.heads[j]->Some_0 as int;
        let lack = if size > self.deficits[j] { size - self.deficits[j] } else { 0 };
        let dist = if j >= self.counter { j - self.counter } else { j - self.counter + self.n() };
        lack * self.n() + dist + (if self.bump { 0 } else { self.n() })
    }

    /// Deficit round robin: visits sub-queues from the counter on until one has deficit
    /// enough for its head packet. Returns the state after the pick and the sub-queue picked,
    /// or `None` when all sub-queues are empty.
    pub open spec fn pick(self) -> (DrrState, Option<int>) {
        if self.all_empty() {
            (DrrState { bump: true, ..self }, None)
        } else {
            self.pick_nonempty()
        }
    }

    /// The pick when some sub-queue is non-empty.
    pub open spec fn pick_nonempty(self) -> (DrrState, Option<int>)
        decreases self.measure(),
        when self.wf() && !self.all_empty()
        via DrrState::pick_decreases
    {
        let (next, picked) = self.visit();
        if picked {
            (next, Some(self.counter))
        } else {
            next.pick_nonempty()
        }
    }

    #[via_fn]
    proof fn pick_decreases(self) {
        self.lemma_visit();
    }

    /// The sub-queue picked is a non-empty one.
    pub proof fn lemma_pick_nonempty(self)
        requires
            self.wf(),
            !self.all_empty(),
        ensures
            self.pick_nonempty().1 matches Some(i) && 0 <= i < self.n() && self.heads[i] is Some,
            self.pick_nonempty().0.wf(),
            self.pick_nonempty().0.heads == self.heads,
            self.pick_nonempty().0.quanta == self.quanta,
        decreases self.measure(),
    {
        self.lemma_visit();
        let (next, picked) = self.visit();
        if !picked {
            next.lemma_pick_nonempty();
        } else {
            assert(self.heads[self.counter] is Some);
        }
    }

    /// A visit that picks nothing keeps the state well formed and brings the pick closer.
    pub proof fn lemma_visit(self)
        requires
            self.wf(),
            !self.all_empty(),
        ensures
            self.visit().0.wf(),
            self.visit().0.heads == self.heads,
            self.visit().0.quanta == self.quanta,
            !self.visit().1 ==> 0 <= self.visit().0.measure() < self.measure(),
    {
        let (next, picked) = self.visit();
        let n = self.n();
        let j = self.witness();
        assert(0 <= j < n && self.heads[j] is Some);
        assert(next.witness() == j);
        let size = self.heads[j]->Some_0 as int;
        let lack = if size > self.deficits[j] { size - self.deficits[j] } else { 0 };
        let lack2 = if size > next.deficits[j] { size - next.deficits[j] } else { 0 };
        assert(lack >= 0 && lack2 >= 0);
        let dist = if j >= self.counter { j - self.counter } else { j - self.counter + n };
        let dist2 = if j >= next.counter { j - next.counter } else { j - next.counter + n };
        assert(0 <= dist < n);
        assert(0 <= dist2 < n);
        if !picked {
            
            assert(next.bump);
            if j == self.counter {
                assert(dist2 == n - 1);
                if self.bump {
                    assert(lack2 <= lack - 1);
                    assert(lack2 * n + n - 1 < lack * n) by (nonlinear_arith)
                        requires lack2 <= lack - 1, n > 0;
                } else {
                    assert(lack2 == lack);
                }
            } else {
                assert(lack2 == lack);
                assert(dist2 == dist - 1);
            }
            assert(0 <= lack2 * n) by (nonlinear_arith)
                requires lack2 >= 0, n > 0;
        }
    }
}

/// A port with one FIFO sub-queue per quantum, served in deficit round-robin order.
#[derive(Debug)]
pub struct Port {
    queues: Vec<Queue>,
    quanta: Vec<Bytes>,
    deficits: Vec<Bytes>,
    counter: usize,
    should_bump: bool,
}

impl Port {
    /// The packets held by each sub-queue.
    pub closed spec fn queues_view(&self) -> Seq<Seq<Packet>> {
        Seq::new(self.queues@.len(), |i: int| self.queues@[i]@)
    }

    /// The scheduler's state.
    pub closed spec fn drr(&self) -> DrrState {
        DrrState {
            heads: Seq::new(
                self.queues@.len(),
                |i: int|
                    if self.queues@[i]@.len() > 0 {
                        Some(self.queues@[i]@[0].size.0)
                    } else {
                        None
                    },
            ),
            quanta: Seq::new(self.quanta@.len(), |i: int| self.quanta@[i].0),
            deficits: Seq::new(self.deficits@.len(), |i: int| self.deficits@[i].0),
            counter: self.counter as int,
            bump: self.should_bump,
        }
    }

    /// Every sub-queue is well formed and the scheduler's state is.
    pub closed spec fn wf(&self) -> bool {
        &&& forall|i: int| 0 <= i < self.queues@.len() ==> (#[trigger] self.queues@[i]).wf()
        &&& self.drr().wf()
    }

    pub open spec fn nr_queues(&self) -> int {
        self.queues_view().len() as int
    }

    /// How the scheduler's state reflects the sub-queues.
    pub proof fn lemma_drr_view(&self)
        requires
            self.wf(),
        ensures
            self.drr().wf(),
            self.drr().n() == self.nr_queues(),
            self.drr().heads == heads_of(self.queues_view()),
            forall|i: int|
                0 <= i < self.nr_queues() ==> (#[trigger] self.drr().heads[i] is Some
                    <==> self.queues_view()[i].len() > 0),
            forall|i: int|
                0 <= i < self.nr_queues() && self.queues_view()[i].len() > 0 ==> #[trigger] self.drr().heads[i]
                    == Some(self.queues_view()[i][0].size.0),
    {
        assert(self.drr().heads =~= heads_of(self.queues_view()));
    }

    /// Every empty sub-queue of a port has no deficit: a sub-queue that empties loses its
    /// deficit before it is credited again.
    pub proof fn lemma_empty_queue_no_deficit(&self)
        requires
            self.wf(),
        ensures
            forall|i: int|
                0 <= i < self.nr_queues() && #[trigger] self.queues_view()[i].len() == 0 ==> self.drr().deficits[i]
                    == 0,
    {
    }

    /// The number of sub-queues.
    pub fn nr_queues_exec(&self) -> (r: usize)
        ensures
            r == self.nr_queues(),
    {
        self.queues.len()
    }

    /// Creates a port with empty sub-queues, one for each of `quanta`.
    pub fn new(quanta: &[Bytes]) -> (r: Self)
        requires
            quanta@.len() > 0,
            forall|i: int| 0 <= i < quanta@.len() ==> quanta@[i].0 > 0,
        ensures
            r.wf(),
            r.queues_view() =~= Seq::new(quanta@.len(), |i: int| Seq::<Packet>::empty()),
            r.drr().quanta =~= Seq::new(quanta@.len(), |i: int| quanta@[i].0),
            r.drr().deficits =~= Seq::new(quanta@.len(), |i: int| 0u64),
            r.drr().counter == 0,
            r.drr().bump,
    {
        let n = quanta.len();
        let mut queues: Vec<Queue> = Vec::new();
        let mut qs: Vec<Bytes> = Vec::new();
        let mut deficits: Vec<Bytes> = Vec::new();
        let mut i: usize = 0;
        while i < n
            invariant
                n == quanta@.len(),
                i <= n,
                queues@.len() == i,
                qs@.len() == i,
                deficits@.len() == i,
                forall|k: int| 0 <= k < i ==> (#[trigger] queues@[k]).wf() && queues@[k]@.len() == 0,
                forall|k: int| 0 <= k < i ==> #[trigger] qs@[k] == quanta@[k],
                forall|k: int| 0 <= k < i ==> (#[trigger] deficits@[k]).0 == 0,
            decreases n - i,
        {
            queues.push(Queue::new());
            qs.push(quanta[i]);
            deficits.push(Bytes(0));
            i = i + 1;
        }
        let r = Port { queues, quanta: qs, deficits, counter: 0, should_bump: true };
        assert forall|k: int| 0 <= k < n implies #[trigger] r.queues_view()[k] =~= Seq::<Packet>::empty() by {
            assert(r.queues@[k]@.len() == 0);
        }
        assert(r.queues_view() =~= Seq::new(quanta@.len(), |i: int| Seq::<Packet>::empty()));
        r
    }

    /// Appends `pkt` to the sub-queue it names.
    pub fn enqueue(&mut self, pkt: Packet)
        requires
            old(self).wf(),
            pkt.qindex.0 < old(self).nr_queues(),
        ensures
            final(self).wf(),
            final(self).queues_view() == old(self).queues_view().update(
                pkt.qindex.0 as int,
                old(self).queues_view()[pkt.qindex.0 as int].push(pkt),
            ),
            final(self).drr().quanta == old(self).drr().quanta,
            final(self).drr().deficits == old(self).drr().deficits,
            final(self).drr().counter == old(self).drr().counter,
            final(self).drr().bump == old(self).drr().bump,
    {
        let q = pkt.qindex.0;
        self.queues[q].enqueue(pkt);
        proof {
            assert(self.queues_view() =~= old(self).queues_view().update(
                q as int,
                old(self).queues_view()[q as int].push(pkt),
            ));
            assert(self.drr().deficits =~= old(self).drr().deficits);
            assert(self.drr().quanta =~= old(self).drr().quanta);
            assert forall|i: int| 0 <= i < self.queues@.len() implies (#[trigger] self.queues@[i]).wf() by {
                if i != q {
                    assert(self.queues@[i] == old(self).queues@[i]);
                }
            }
            assert forall|i: int|
                0 <= i < self.drr().n() && self.drr().heads[i] is None implies self.drr().deficits[i] == 0 by {
                if i != q {
                    assert(self.queues@[i] == old(self).queues@[i]);
                    assert(old(self).drr().heads[i] is None);
                }
            }
        }
    }

    /// Removes the head of sub-queue `q`. A sub-queue left empty loses its deficit.
    pub fn dequeue(&mut self, q: QIndex) -> (r: Option<Packet>)
        requires
            old(self).wf(),
            q.0 < old(self).nr_queues(),
        ensures
            final(self).wf(),
            old(self).queues_view()[q.0 as int].len() == 0 ==> r is None && final(self).queues_view()
                == old(self).queues_view() && final(self).drr() == old(self).drr(),
            old(self).queues_view()[q.0 as int].len() > 0 ==> {
                let s = old(self).queues_view()[q.0 as int];
                &&& r == Some(s[0])
                &&& final(self).queues_view() == old(self).queues_view().update(
                    q.0 as int,
                    s.subrange(1, s.len() as int),
                )
                &&& final(self).drr().deficits == if s.len() == 1 {
                    old(self).drr().deficits.update(q.0 as int, 0)
                } else {
                    old(self).drr().deficits
                }
            },
            final(self).drr().quanta == old(self).drr().quanta,
            final(self).drr().counter == old(self).drr().counter,
            final(self).drr().bump == old(self).drr().bump,
    {
        let i = q.0;
        let r = self.queues[i].dequeue();
        if self.queues[i].is_empty() {
            self.deficits.set(i, Bytes(0));
        }
        proof {
            assert forall|k: int| 0 <= k < self.queues@.len() implies (#[trigger] self.queues@[k]).wf() by {
                if k != i {
                    assert(self.queues@[k] == old(self).queues@[k]);
                }
            }
            assert forall|k: int|
                0 <= k < self.drr().n() && self.drr().heads[k] is None implies self.drr().deficits[k] == 0 by {
                if k != i {
                    assert(self.queues@[k] == old(self).queues@[k]);
                    assert(old(self).drr().heads[k] is None);
                    assert(old(self).drr().deficits[k] == 0);
                    assert(self.deficits@[k] == old(self).deficits@[k]);
                } else {
                    assert(self.queues@[k]@.len() == 0);
                    assert(self.deficits@[k].0 == 0);
                }
            }
            let s = old(self).queues_view()[i as int];
            if s.len() == 0 {
                assert(self.queues_view() =~= old(self).queues_view());
                assert(self.drr().heads =~= old(self).drr().heads);
                assert(self.drr().deficits =~= old(self).drr().deficits);
                assert(self.drr().quanta =~= old(self).drr().quanta);
            } else {
                assert(self.queues_view() =~= old(self).queues_view().update(
                    i as int,
                    s.subrange(1, s.len() as int),
                ));
                if s.len() == 1 {
                    assert(self.drr().deficits =~= old(self).drr().deficits.update(i as int, 0));
                } else {
                    assert(self.drr().deficits =~= old(self).drr().deficits);
                }
            }
            assert(self.drr().quanta =~= old(self).drr().quanta);
        }
        r
    }

    /// The bytes held by sub-queue `q`.
    pub fn qsize(&self, q: QIndex) -> (r: u128)
        requires
            self.wf(),
            q.0 < self.nr_queues(),
        ensures
            r == total_size(self.queues_view()[q.0 as int]),
    {
        self.queues[q.0].size()
    }

    /// Picks the sub-queue whose head is served next, in deficit round-robin order, and
    /// charges that head to its deficit. Returns `None` exactly when all sub-queues are empty.
    /// The packets are not moved: the caller dequeues from the sub-queue picked.
    #[must_use]
    pub fn pick_dequeue_index(&mut self) -> (r: Option<QIndex>)
        requires
            old(self).wf(),
        ensures
            final(self).wf(),
            final(self).queues_view() == old(self).queues_view(),
            final(self).drr() == old(self).drr().pick().0,
            r matches Some(q) ==> old(self).drr().pick().1 == Some(q.0 as int),
            r is None ==> old(self).drr().pick().1 is None,
    {
        let ghost start = self.drr();
        let n = self.queues.len();
        let mut any = false;
        let mut k: usize = 0;
        while k < n
            invariant
                *self == *old(self),
                n == self.queues@.len(),
                k <= n,
                any <==> exists|i: int| 0 <= i < k && self.drr().heads[i] is Some,
            decreases n - k,
        {
            if !self.queues[k].is_empty() {
                any = true;
            }
            assert(self.drr().heads[k as int] is Some <==> self.queues@[k as int]@.len() > 0);
            k = k + 1;
        }
        if !any {
            assert(start.all_empty());
            self.should_bump = true;
            assert(self.drr().heads =~= start.heads);
            assert(self.drr().quanta =~= start.quanta);
            assert(self.drr().deficits =~= start.deficits);
            return None;
        }
        assert(!start.all_empty());
        loop
            invariant
                self.wf(),
                !self.drr().all_empty(),
                n == self.queues@.len(),
                self.queues@ == old(self).queues@,
                self.drr().heads == start.heads,
                self.drr().quanta == start.quanta,
                start == old(self).drr(),
                start.wf(),
                !start.all_empty(),
                self.drr().pick_nonempty() == start.pick_nonempty(),
            decreases self.drr().measure(),
        {
            let ghost before = self.drr();
            proof {
                before.lemma_visit();
            }
            let idx = self.counter;
            let next = if idx + 1 == n { 0 } else { idx + 1 };
            if self.queues[idx].is_empty() {
                self.deficits.set(idx, Bytes(0));
                self.counter = next;
                self.should_bump = true;
            } else {
                let mut d = self.deficits[idx].0;
                if self.should_bump {
                    d = d.saturating_add(self.quanta[idx].0);
                    self.should_bump = false;
                }
                let cost = self.queues[idx].head_size();
                if d >= cost {
                    self.deficits.set(idx, Bytes(d - cost));
                    proof {
                        assert(before.visit().1);
                        assert(before.pick_nonempty() == (before.visit().0, Some(before.counter)));
                        assert(self.drr().deficits =~= before.visit().0.deficits);
                        assert(self.drr().heads =~= before.visit().0.heads);
                        assert(self.drr().quanta =~= before.visit().0.quanta);
                        assert(self.drr() == before.visit().0);
                    }
                    return Some(QIndex(idx));
                }
                self.deficits.set(idx, Bytes(d));
                self.counter = next;
                self.should_bump = true;
            }
            proof {
                assert(self.drr().deficits =~= before.visit().0.deficits);
                assert(self.drr().heads =~= before.visit().0.heads);
                assert(self.drr().quanta =~= before.visit().0.quanta);
                assert(self.drr() == before.visit().0);
            }
        }
    }
}

} // verus!
