use std::collections::VecDeque;

use vstd::hash_set::StringHashSet;
use vstd::prelude::*;

use crate::link_map::{LinkMap, LinkMapValue, LinkMapView, LinkView};
use crate::process_heap::{
    by_time, insertion_index, process_at, Process, ProcessHeap, ProcessView,
};
use crate::strings::{decimal, push_decimal};

verus! {

/// The mathematical value of a [`Trace`].
pub struct TraceView {
    /// What has been learnt so far.
    pub link_map: LinkMapView,
    /// Every URL ever queued for a first attempt.
    pub seen: Set<Seq<char>>,
    /// The pending attempts, earliest first.
    pub queue: Seq<ProcessView>,
    /// The attempts handed to workers, in the order they were handed out.
    pub in_flight: Seq<ProcessView>,
    /// The size of the worker pool.
    pub capacity: nat,
}

/// Every link recorded begins with the root.
pub open spec fn links_in_scope(lm: LinkMapView) -> bool {
    forall|u: Seq<char>, k: int|
        lm.map.contains_key(u) && lm.map[u] is Links && 0 <= k < lm.map[u]->Links_0.len()
            ==> lm.root.is_prefix_of(#[trigger] lm.map[u]->Links_0[k])
}

/// What holds of a trace at every step.
pub open spec fn trace_inv(tv: TraceView) -> bool {
    &&& by_time(tv.queue)
    &&& tv.in_flight.len() <= if tv.capacity == 0 { 1 } else { tv.capacity }
    &&& links_in_scope(tv.link_map)
    &&& tv.seen.finite()
    &&& tv.link_map.map.dom().finite()
}

/// The trace after queueing attempt `retry` of `url` at `now`. A first attempt is queued only
/// for a URL never seen before, which then joins `seen`; a retry is always queued.
pub open spec fn queued(tv: TraceView, url: Seq<char>, retry: u8, base: u16, now: i64) -> TraceView {
    if retry == 0 && tv.seen.contains(url) {
        tv
    } else {
        let p = process_at(url, retry, base, now);
        TraceView {
            link_map: tv.link_map,
            seen: if retry == 0 { tv.seen.insert(url) } else { tv.seen },
            queue: tv.queue.insert(insertion_index(tv.queue, p.timestamp) as int, p),
            in_flight: tv.in_flight,
            capacity: tv.capacity,
        }
    }
}

/// The trace after queueing a first attempt of each of `links`, in order.
pub open spec fn queued_all(tv: TraceView, links: Seq<Seq<char>>, base: u16, now: i64) -> TraceView
    decreases links.len(),
{
    if links.len() == 0 {
        tv
    } else {
        queued(queued_all(tv, links.drop_last(), base, now), links.last(), 0, base, now)
    }
}

/// The trace after recording `value` for `url`.
pub open spec fn with_result(tv: TraceView, url: Seq<char>, value: LinkView) -> TraceView {
    TraceView {
        link_map: LinkMapView { root: tv.link_map.root, map: tv.link_map.map.insert(url, value) },
        seen: tv.seen,
        queue: tv.queue,
        in_flight: tv.in_flight,
        capacity: tv.capacity,
    }
}

/// The bar of the progress display: `pct` full cells out of a hundred.
pub open spec fn bar(pct: nat) -> Seq<char> {
    Seq::new(100, |i: int| if i < pct { '\u{2588}' } else { ' ' })
}

/// `100 · done / total`, rounded half up; 0 when `total` is 0.
pub open spec fn percentage(done: nat, total: nat) -> nat {
    if total == 0 {
        0
    } else {
        (200 * done + total) / (2 * total)
    }
}

/// A frame of the progress display.
pub open spec fn status_text(tv: TraceView) -> Seq<char> {
    let done = tv.link_map.map.len();
    let total = tv.seen.len();
    seq!['\n'] + "Tracing - "@ + tv.link_map.root + seq!['\n'] + bar(percentage(done, total))
        + " | "@ + decimal(done) + seq!['/'] + decimal(total) + " ... "@ + decimal(tv.queue.len())
        + " queued, "@ + decimal(tv.in_flight.len()) + " in processing"@
}

/// The state of a trace: what has been learnt, which URLs have been seen, the attempts still
/// to make and those under way.
pub struct Trace {
    link_map: LinkMap,
    seen: StringHashSet,
    heap: ProcessHeap,
    processors: VecDeque<Process>,
    capacity: usize,
}

impl View for Trace {
    type V = TraceView;

    closed spec fn view(&self) -> TraceView {
        TraceView {
            link_map: self.link_map@,
            seen: self.seen@,
            queue: self.heap@,
            in_flight: self.processors@.map_values(|p: Process| p@),
            capacity: self.capacity as nat,
        }
    }
}

impl Trace {
    pub closed spec fn wf(&self) -> bool {
        &&& self.link_map.wf()
        &&& self.heap.wf()
        &&& trace_inv(self@)
    }

    /// A trace from `root` with a pool of `worker_pool_size` workers: only the root is seen,
    /// and nothing is queued or under way.
    pub fn new(root: &str, worker_pool_size: u16) -> (r: Trace)
        ensures
            r.wf(),
            r@.link_map.root == root@,
            r@.link_map.map == Map::<Seq<char>, LinkView>::empty(),
            r@.seen == Set::<Seq<char>>::empty().insert(root@),
            r@.queue == Seq::<ProcessView>::empty(),
            r@.in_flight == Seq::<ProcessView>::empty(),
            r@.capacity == worker_pool_size as nat,
    {
        let mut seen = StringHashSet::new();
        seen.insert(root.to_owned());
        let r = Trace {
            link_map: LinkMap::new(root.to_owned()),
            seen,
            heap: ProcessHeap::new(),
            processors: VecDeque::new(),
            capacity: worker_pool_size as usize,
        };
        proof {
            r.link_map.lemma_finite();
            assert(r@.in_flight =~= Seq::<ProcessView>::empty());
            assert(r@.seen =~= Set::<Seq<char>>::empty().insert(root@));
        }
        r
    }

    /// The link map learnt by the trace.
    pub fn get_result(self) -> (r: LinkMap)
        requires
            self.wf(),
        ensures
            r.wf(),
            r@ == self@.link_map,
    {
        self.link_map
    }

    /// Hands `process` to a worker: it joins the attempts under way, last.
    pub fn push_processor(&mut self, process: Process)
        requires
            old(self).wf(),
            old(self)@.in_flight.len() < if old(self)@.capacity == 0 { 1 } else { old(self)@.capacity },
        ensures
            final(self).wf(),
            final(self)@ == (TraceView { in_flight: old(self)@.in_flight.push(process@), ..old(self)@ }),
    {
        let ghost p = process@;
        self.processors.push_back(process);
        assert(self@.in_flight =~= old(self)@.in_flight.push(p));
    }

    /// The attempt under way that was handed out first, if any: it is no longer under way.
    pub fn get_next_processor(&mut self) -> (r: Option<Process>)
        requires
            old(self).wf(),
        ensures
            final(self).wf(),
            old(self)@.in_flight.len() == 0 ==> r is None && final(self)@ == old(self)@,
            old(self)@.in_flight.len() > 0 ==> (r matches Some(p) && p@ == old(self)@.in_flight[0]
                && final(self)@ == (TraceView { in_flight: old(self)@.in_flight.drop_first(), ..old(self)@ })),
    {
        let r = self.processors.pop_front();
        assert(self@.in_flight =~= if old(self)@.in_flight.len() > 0 {
            old(self)@.in_flight.drop_first()
        } else {
            old(self)@.in_flight
        });
        r
    }

    /// The earliest pending attempt, if any: it is no longer pending.
    pub fn get_next_process(&mut self) -> (r: Option<Process>)
        requires
            old(self).wf(),
        ensures
            final(self).wf(),
            old(self)@.queue.len() == 0 ==> r is None && final(self)@ == old(self)@,
            old(self)@.queue.len() > 0 ==> (r matches Some(p) && p@ == old(self)@.queue[0]
                && final(self)@ == (TraceView { queue: old(self)@.queue.drop_first(), ..old(self)@ })),
    {
        self.heap.pop()
    }

    /// Queues attempt `retry` of `url` at `now` (see [`queued`]).
    pub fn queue_to_process(&mut self, url: &str, retry: u8, initial_retry_delay_ms: &u16, now: i64)
        requires
            old(self).wf(),
        ensures
            final(self).wf(),
            final(self)@ == queued(old(self)@, url@, retry, *initial_retry_delay_ms, now),
    {
        if retry == 0 {
            if self.seen.contains(url) {
                return;
            }
            self.seen.insert(url.to_owned());
        }
        self.heap.push(Process::new_at(url, retry, initial_retry_delay_ms, now));
        proof {
            assert(self@.seen.finite());
        }
    }

    /// Records `result` for `url`. Links must be in scope.
    pub fn add_result(&mut self, url: &str, result: LinkMapValue)
        requires
            old(self).wf(),
            result@ is Links ==> forall|k: int|
                0 <= k < (result@->Links_0).len() ==> old(self)@.link_map.root.is_prefix_of(
                    #[trigger] (result@->Links_0)[k],
                ),
        ensures
            final(self).wf(),
            final(self)@ == with_result(old(self)@, url@, result@),
    {
        let ghost v = result@;
        self.link_map.add(url.to_owned(), result);
        proof {
            self.link_map.lemma_finite();
            assert(self@.link_map =~= with_result(old(self)@, url@, v).link_map);
            let lm = self@.link_map;
            assert forall|u: Seq<char>, k: int|
                lm.map.contains_key(u) && lm.map[u] is Links && 0 <= k < lm.map[u]->Links_0.len()
                implies lm.root.is_prefix_of(#[trigger] lm.map[u]->Links_0[k]) by {
                if u != url@ {
                    assert(old(self)@.link_map.map[u] == lm.map[u]);
                }
            }
        }
    }

    /// What holds of a trace at every step.
    pub proof fn lemma_inv(&self)
        requires
            self.wf(),
        ensures
            trace_inv(self@),
    {
    }

    /// The root URL of the trace.
    pub fn root(&self) -> (r: &str)
        ensures
            r@ == self@.link_map.root,
    {
        self.link_map.root()
    }

    /// Whether a worker of the pool is free.
    pub fn has_process_capacity(&self) -> (r: bool)
        ensures
            r == (self@.in_flight.len() < self@.capacity),
    {
        self.processors.len() < self.capacity
    }

    /// The number of pending attempts.
    pub fn queued(&self) -> (r: usize)
        ensures
            r == self@.queue.len(),
    {
        self.heap.len()
    }

    /// The number of attempts under way.
    pub fn in_processing(&self) -> (r: usize)
        ensures
            r == self@.in_flight.len(),
    {
        self.processors.len()
    }

    /// A frame of the progress display (see [`status_text`]).
    pub fn get_status(&self) -> (r: String)
        requires
            self.wf(),
        ensures
            r@ == status_text(self@),
    {
        let done = self.link_map.len();
        let total = self.seen.len();
        let pct: u128 = if total == 0 {
            0
        } else {
            (200 * (done as u128) + total as u128) / (2 * total as u128)
        };
        let mut out = String::new();
        proof {
            reveal_strlit("\n");
            reveal_strlit("Tracing - ");
        }
        out.append("\n");
        out.append("Tracing - ");
        out.append(self.link_map.root());
        out.append("\n");
        let mut i: u128 = 0;
        let ghost start = out@;
        while i < 100
            invariant
                i <= 100,
                out@ == start + bar(pct as nat).take(i as int),
            decreases 100 - i,
        {
            if i < pct {
                proof { reveal_strlit("\u{2588}"); }
                out.append("\u{2588}");
            } else {
                proof { reveal_strlit(" "); }
                out.append(" ");
            }
            assert(bar(pct as nat).take(i + 1) =~= bar(pct as nat).take(i as int).push(bar(pct as nat)[i as int]));
            i = i + 1;
        }
        proof {
            assert(bar(pct as nat).take(100) =~= bar(pct as nat));
            reveal_strlit(" | ");
            reveal_strlit("/");
            reveal_strlit(" ... ");
            reveal_strlit(" queued, ");
            reveal_strlit(" in processing");
        }
        out.append(" | ");
        push_decimal(&mut out, done as u64);
        out.append("/");
        push_decimal(&mut out, total as u64);
        out.append(" ... ");
        push_decimal(&mut out, self.heap.len() as u64);
        out.append(" queued, ");
        push_decimal(&mut out, self.processors.len() as u64);
        out.append(" in processing");
        proof {
            assert(out@ =~= status_text(self@));
        }
        out
    }
}

} // verus!
