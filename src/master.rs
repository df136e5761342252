//! The master's bookkeeping of orders sent to workers: each order goes to every running worker
//! and is answered once all of them have replied, or have died.
use vstd::prelude::*;
use crate::routing::bytes_eq;

verus! {

#[derive(Clone, Copy, PartialEq, Eq, Debug)]
pub enum RunState {
    Running,
    Stopping,
    Stopped,
    NotAnswering,
}

#[derive(Clone, Copy, PartialEq, Eq, Debug)]
pub struct WorkerRecord {
    pub id: u32,
    pub pid: i32,
    pub run_state: RunState,
}

#[derive(Clone, Copy, PartialEq, Eq, Debug)]
pub enum Answer {
    Success,
    Failure,
}

/// An order sent to workers, and the workers whose reply is still awaited.
pub struct Aggregator {
    pub request_id: Vec<u8>,
    pub waiting: Vec<u32>,
    pub failed: bool,
}

pub struct AggregatorModel {
    pub request_id: Seq<u8>,
    pub waiting: Seq<u32>,
    pub failed: bool,
}

impl View for Aggregator {
    type V = AggregatorModel;

    open spec fn view(&self) -> AggregatorModel {
        AggregatorModel { request_id: self.request_id@, waiting: self.waiting@, failed: self.failed }
    }
}

pub struct Supervisor {
    pub workers: Vec<WorkerRecord>,
    pub pending: Vec<Aggregator>,
}

/// The ids of the running workers, in order.
pub open spec fn running_ids(ws: Seq<WorkerRecord>) -> Seq<u32>
    decreases ws.len(),
{
    if ws.len() == 0 {
        Seq::empty()
    } else {
        let rest = running_ids(ws.drop_last());
        if ws.last().run_state == RunState::Running {
            rest.push(ws.last().id)
        } else {
            rest
        }
    }
}

/// `s` without the occurrences of `w`.
pub open spec fn without(s: Seq<u32>, w: u32) -> Seq<u32>
    decreases s.len(),
{
    if s.len() == 0 {
        Seq::empty()
    } else {
        let rest = without(s.drop_last(), w);
        if s.last() == w {
            rest
        } else {
            rest.push(s.last())
        }
    }
}

/// The answer owed for an order once nobody is awaited.
pub open spec fn answer_of(failed: bool) -> Answer {
    if failed { Answer::Failure } else { Answer::Success }
}

/// `a` is the first pending order with id `rid`.
pub open spec fn order_index(ps: Seq<AggregatorModel>, rid: Seq<u8>, a: int) -> bool {
    0 <= a < ps.len() && ps[a].request_id == rid && forall|j: int| 0 <= j < a ==> (#[trigger] ps[j]).request_id != rid
}

fn remove_id(s: &Vec<u32>, w: u32) -> (r: Vec<u32>)
    ensures
        r@ == without(s@, w),
{
    let mut r: Vec<u32> = Vec::new();
    let mut i: usize = 0;
    while i < s.len()
        invariant
            i <= s@.len(),
            r@ == without(s@.subrange(0, i as int), w),
        decreases s@.len() - i,
    {
        assert(s@.subrange(0, i + 1).drop_last() =~= s@.subrange(0, i as int));
        if s[i] != w {
            r.push(s[i]);
        }
        i = i + 1;
    }
    assert(s@.subrange(0, s@.len() as int) =~= s@);
    r
}

/// The pending orders that still await someone once worker `w` is gone.
pub open spec fn decay(ps: Seq<AggregatorModel>, w: u32) -> Seq<AggregatorModel>
    decreases ps.len(),
{
    if ps.len() == 0 {
        Seq::empty()
    } else {
        let rest = decay(ps.drop_last(), w);
        let p = ps.last();
        if without(p.waiting, w).len() == 0 {
            rest
        } else {
            rest.push(AggregatorModel { waiting: without(p.waiting, w), ..p })
        }
    }
}

/// The orders that worker `w` was the last one awaited for, with their answers.
pub open spec fn completed_by_exit(ps: Seq<AggregatorModel>, w: u32) -> Seq<(Seq<u8>, Answer)>
    decreases ps.len(),
{
    if ps.len() == 0 {
        Seq::empty()
    } else {
        let rest = completed_by_exit(ps.drop_last(), w);
        let p = ps.last();
        if without(p.waiting, w).len() == 0 {
            rest.push((p.request_id, answer_of(p.failed)))
        } else {
            rest
        }
    }
}

/// The worker table once worker `w` has stopped.
pub open spec fn stopped(ws: Seq<WorkerRecord>, w: u32) -> Seq<WorkerRecord> {
    ws.map_values(|r: WorkerRecord| if r.id == w { WorkerRecord { run_state: RunState::Stopped, ..r } } else { r })
}

impl Supervisor {
    pub open spec fn pending_view(&self) -> Seq<AggregatorModel> {
        self.pending@.map_values(|a: Aggregator| a@)
    }

    pub fn new(workers: Vec<WorkerRecord>) -> (r: Self)
        ensures
            r.workers@ == workers@,
            r.pending@.len() == 0,
    {
        Supervisor { workers, pending: Vec::new() }
    }

    /// Sends an order to every running worker: records it as pending on them, and returns
    /// their ids. An order that no worker runs is answered at once with success, and not recorded.
    pub fn broadcast(&mut self, request_id: Vec<u8>) -> (r: (Vec<u32>, Option<Answer>))
        ensures
            final(self).workers@ == old(self).workers@,
            r.0@ == running_ids(old(self).workers@),
            r.0@.len() == 0 ==> r.1 == Some(Answer::Success) && final(self).pending_view() == old(self).pending_view(),
            r.0@.len() > 0 ==> r.1 is None && final(self).pending_view() == old(self).pending_view().push(
                AggregatorModel { request_id: request_id@, waiting: r.0@, failed: false },
            ),
    {
        let mut ids: Vec<u32> = Vec::new();
        let mut i: usize = 0;
        while i < self.workers.len()
            invariant
                i <= self.workers@.len(),
                ids@ == running_ids(self.workers@.subrange(0, i as int)),
            decreases self.workers@.len() - i,
        {
            assert(self.workers@.subrange(0, i + 1).drop_last() =~= self.workers@.subrange(0, i as int));
            let w = self.workers[i];
            if matches!(w.run_state, RunState::Running) {
                ids.push(w.id);
            }
            i = i + 1;
        }
        assert(self.workers@.subrange(0, self.workers@.len() as int) =~= self.workers@);
        if ids.len() == 0 {
            return (ids, Some(Answer::Success));
        }
        let waiting = ids.clone();
        let ghost before = self.pending_view();
        self.pending.push(Aggregator { request_id, waiting, failed: false });
        assert(self.pending_view() =~= before.push(AggregatorModel { request_id: request_id@, waiting: ids@, failed: false }));
        (ids, None)
    }

    /// Worker `worker` is gone: it is marked stopped and no order awaits it any more. The orders
    /// that awaited it alone are answered and returned.
    pub fn on_worker_exit(&mut self, worker: u32) -> (r: Vec<(Vec<u8>, Answer)>)
        ensures
            final(self).workers@ == stopped(old(self).workers@, worker),
            final(self).pending_view() == decay(old(self).pending_view(), worker),
            r@.map_values(|c: (Vec<u8>, Answer)| (c.0@, c.1)) == completed_by_exit(old(self).pending_view(), worker),
    {
        let ghost ws = self.workers@;
        let mut workers: Vec<WorkerRecord> = Vec::new();
        let mut i: usize = 0;
        while i < self.workers.len()
            invariant
                i <= ws.len(),
                ws == self.workers@,
                workers@ == stopped(ws.subrange(0, i as int), worker),
            decreases ws.len() - i,
        {
            let w = self.workers[i];
            if w.id == worker {
                workers.push(WorkerRecord { run_state: RunState::Stopped, ..w });
            } else {
                workers.push(w);
            }
            i = i + 1;
            assert(workers@ =~= stopped(ws.subrange(0, i as int), worker));
        }
        assert(ws.subrange(0, ws.len() as int) =~= ws);
        self.workers = workers;

        let ghost ps = self.pending_view();
        let mut remaining: Vec<Aggregator> = Vec::new();
        let mut done: Vec<(Vec<u8>, Answer)> = Vec::new();
        let mut i: usize = 0;
        while i < self.pending.len()
            invariant
                i <= ps.len(),
                ps == self.pending_view(),
                remaining@.map_values(|a: Aggregator| a@) == decay(ps.subrange(0, i as int), worker),
                done@.map_values(|c: (Vec<u8>, Answer)| (c.0@, c.1)) == completed_by_exit(ps.subrange(0, i as int), worker),
            decreases ps.len() - i,
        {
            assert(ps.subrange(0, i + 1).drop_last() =~= ps.subrange(0, i as int));
            assert(ps[i as int] == self.pending@[i as int]@);
            let p = &self.pending[i];
            let rest = remove_id(&p.waiting, worker);
            let ghost r0 = remaining@.map_values(|a: Aggregator| a@);
            let ghost d0 = done@.map_values(|c: (Vec<u8>, Answer)| (c.0@, c.1));
            if rest.len() == 0 {
                let answer = if p.failed { Answer::Failure } else { Answer::Success };
                done.push((p.request_id.clone(), answer));
                assert(done@.map_values(|c: (Vec<u8>, Answer)| (c.0@, c.1)) =~= d0.push((ps[i as int].request_id, answer_of(ps[i as int].failed))));
            } else {
                remaining.push(Aggregator { request_id: p.request_id.clone(), waiting: rest, failed: p.failed });
                assert(remaining@.map_values(|a: Aggregator| a@) =~= r0.push(AggregatorModel { waiting: without(ps[i as int].waiting, worker), ..ps[i as int] }));
            }
            i = i + 1;
        }
        assert(ps.subrange(0, ps.len() as int) =~= ps);
        self.pending = remaining;
        done
    }

    /// Records the reply of worker `worker` to order `request_id`. When nobody else is awaited the
    /// order leaves the pending list and its answer is returned: `Failure` if any reply failed.
    pub fn on_answer(&mut self, request_id: &[u8], worker: u32, ok: bool) -> (r: Option<Answer>)
        ensures
            final(self).workers@ == old(self).workers@,
            (forall|a: int| !order_index(old(self).pending_view(), request_id@, a)) ==> r is None && final(self).pending_view() == old(self).pending_view(),
            forall|a: int| order_index(old(self).pending_view(), request_id@, a) ==> {
                let p = old(self).pending_view()[a];
                let rest = without(p.waiting, worker);
                let failed = p.failed || !ok;
                if rest.len() == 0 {
                    r == Some(answer_of(failed)) && final(self).pending_view() == old(self).pending_view().remove(a)
                } else {
                    r is None && final(self).pending_view() == old(self).pending_view().update(
                        a,
                        AggregatorModel { request_id: p.request_id, waiting: rest, failed },
                    )
                }
            },
    {
        let ghost before = self.pending_view();
        let mut a: usize = 0;
        while a < self.pending.len()
            invariant
                a <= self.pending@.len(),
                before == self.pending_view(),
                forall|j: int| 0 <= j < a ==> (#[trigger] before[j]).request_id != request_id@,
            ensures
                a <= self.pending@.len(),
                before == self.pending_view(),
                forall|j: int| 0 <= j < a ==> (#[trigger] before[j]).request_id != request_id@,
                a < self.pending@.len() ==> before[a as int].request_id == request_id@,
            decreases self.pending@.len() - a,
        {
            assert(before[a as int] == self.pending@[a as int]@);
            if bytes_eq(self.pending[a].request_id.as_slice(), request_id) {
                break;
            }
            a = a + 1;
        }
        if a == self.pending.len() {
            assert forall|x: int| !order_index(before, request_id@, x) by {
                if 0 <= x < before.len() {
                    assert(before[x].request_id != request_id@);
                }
            }
            return None;
        }
        assert(order_index(before, request_id@, a as int));
        assert forall|x: int| order_index(before, request_id@, x) implies x == a by {
            if x < a {
                assert(before[x].request_id != request_id@);
            } else if x > a {
                assert(before[a as int].request_id != request_id@);
            }
        }
        let agg = self.pending.remove(a);
        let rest = remove_id(&agg.waiting, worker);
        let failed = agg.failed || !ok;
        if rest.len() == 0 {
            assert(self.pending_view() =~= before.remove(a as int));
            Some(if failed { Answer::Failure } else { Answer::Success })
        } else {
            let ghost removed = self.pending_view();
            self.pending.insert(a, Aggregator { request_id: agg.request_id, waiting: rest, failed });
            assert(self.pending_view() =~= before.update(a as int, AggregatorModel { request_id: agg.request_id@, waiting: rest@, failed }));
            None
        }
    }
}

} // verus!
