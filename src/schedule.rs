//! The schedule: pending events, dispatched earliest first.
use vstd::prelude::*;

use crate::event::Event;

verus! {

/// `k` holds the first of the earliest events.
pub open spec fn is_first_earliest(events: Seq<Event>, k: int) -> bool {
    &&& 0 <= k < events.len()
    &&& forall|j: int| 0 <= j < events.len() ==> events[k].time.0 <= (#[trigger] events[j]).time.0
    &&& forall|j: int| 0 <= j < k ==> events[k].time.0 < (#[trigger] events[j]).time.0
}

/// Pending events. Among events due at the same time, the one scheduled first is dispatched
/// first, so a run is the same every time.
#[derive(Debug)]
pub struct Schedule {
    pub events: Vec<Event>,
}

impl Schedule {
    /// An empty schedule.
    pub fn new() -> (r: Self)
        ensures
            r.events@ == Seq::<Event>::empty(),
    {
        Schedule { events: Vec::new() }
    }

    /// Adds `ev`.
    pub fn push(&mut self, ev: Event)
        ensures
            final(self).events@ == old(self).events@.push(ev),
    {
        self.events.push(ev);
    }

    /// Adds `evs`, in order.
    pub fn push_all(&mut self, evs: &Vec<Event>)
        ensures
            final(self).events@ == old(self).events@ + evs@,
    {
        let mut i: usize = 0;
        while i < evs.len()
            invariant
                i <= evs@.len(),
                self.events@ == old(self).events@ + evs@.subrange(0, i as int),
            decreases evs@.len() - i,
        {
            self.events.push(evs[i]);
            i = i + 1;
            assert(self.events@ =~= old(self).events@ + evs@.subrange(0, i as int));
        }
        assert(evs@.subrange(0, evs@.len() as int) =~= evs@);
    }

    /// Whether no event is pending.
    pub fn is_empty(&self) -> (r: bool)
        ensures
            r <==> self.events@.len() == 0,
    {
        self.events.len() == 0
    }

    /// Removes and returns the earliest event (the first scheduled among equals), if any.
    pub fn pop(&mut self) -> (r: Option<Event>)
        ensures
            old(self).events@.len() == 0 ==> r is None && final(self).events@ == old(self).events@,
            old(self).events@.len() > 0 ==> exists|k: int|
                is_first_earliest(old(self).events@, k) && r == Some(old(self).events@[k])
                    && final(self).events@ == old(self).events@.remove(k),
    {
        let n = self.events.len();
        if n == 0 {
            return None;
        }
        let mut best: usize = 0;
        let mut i: usize = 1;
        while i < n
            invariant
                *self == *old(self),
                n == self.events@.len(),
                1 <= i <= n,
                best < i,
                forall|j: int| 0 <= j < i ==> self.events@[best as int].time.0 <= (#[trigger] self.events@[j]).time.0,
                forall|j: int| 0 <= j < best ==> self.events@[best as int].time.0 < (#[trigger] self.events@[j]).time.0,
            decreases n - i,
        {
            if self.events[i].time.0 < self.events[best].time.0 {
                best = i;
            }
            i = i + 1;
        }
        let ev = self.events.remove(best);
        assert(is_first_earliest(old(self).events@, best as int));
        Some(ev)
    }
}

} // verus!
