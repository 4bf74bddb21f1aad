use vstd::prelude::*;

use crate::link_gatherer::{ErrorView, URLContentGetterError};
use crate::link_map::{LinkMapValue, LinkMapView, LinkView};
use crate::process_heap::{delay_at, insertion_index, now_ms, process_at, Process, ProcessView};
use crate::scope::{lemma_scoped_links_in_scope, scope_links, scoped_links};
use crate::trace::{links_in_scope, queued, queued_all, with_result, Trace, TraceView};

verus! {

/// The settings of a trace.
pub struct SiteTracer {
    /// How many workers may be under way at once.
    pub worker_pool_size: u16,
    /// The delay before the first retry, in milliseconds; it doubles with each retry.
    pub initial_retry_delay_ms: u16,
    /// How many retries a URL gets after its first attempt fails.
    pub max_retries: u8,
}

/// A worker to start: the URL to read, which attempt it is, and how long to wait first.
pub struct Dispatch {
    pub url: String,
    pub retry: u8,
    pub delay_ms: Option<u64>,
}

pub struct DispatchView {
    pub url: Seq<char>,
    pub retry: u8,
    pub delay_ms: Option<u64>,
}

impl View for Dispatch {
    type V = DispatchView;

    open spec fn view(&self) -> DispatchView {
        DispatchView { url: self.url@, retry: self.retry, delay_ms: self.delay_ms }
    }
}

/// What a worker reports: nothing (it failed outside the error taxonomy and is dropped), the
/// raw hrefs of the page, or why the page could not be read.
pub enum OutcomeView {
    Dropped,
    Fetched(Seq<Seq<char>>),
    Failed(ErrorView),
}

pub open spec fn outcome_view(o: Option<Result<Vec<String>, URLContentGetterError>>) -> OutcomeView {
    match o {
        None => OutcomeView::Dropped,
        Some(Ok(raw)) => OutcomeView::Fetched(raw.deep_view()),
        Some(Err(e)) => OutcomeView::Failed(e@),
    }
}

/// The trace after the attempt handed out first reports `o` at `now`.
pub open spec fn recorded(cfg: SiteTracer, tv: TraceView, o: OutcomeView, now: i64) -> TraceView {
    if tv.in_flight.len() == 0 {
        tv
    } else {
        let p = tv.in_flight[0];
        let t1 = TraceView { in_flight: tv.in_flight.drop_first(), ..tv };
        match o {
            OutcomeView::Dropped => t1,
            OutcomeView::Fetched(raw) => {
                let links = scoped_links(raw, tv.link_map.root);
                queued_all(
                    with_result(t1, p.url, LinkView::Links(links)),
                    links,
                    cfg.initial_retry_delay_ms,
                    now,
                )
            },
            OutcomeView::Failed(e) => if p.retry + 1 > cfg.max_retries {
                with_result(t1, p.url, LinkView::Error(e))
            } else {
                queued(t1, p.url, (p.retry + 1) as u8, cfg.initial_retry_delay_ms, now)
            },
        }
    }
}

/// The trace after handing the earliest pending attempts to free workers.
pub open spec fn refilled(tv: TraceView) -> TraceView
    decreases tv.queue.len(),
{
    if tv.in_flight.len() < tv.capacity && tv.queue.len() > 0 {
        refilled(
            TraceView {
                queue: tv.queue.drop_first(),
                in_flight: tv.in_flight.push(tv.queue[0]),
                ..tv
            },
        )
    } else {
        tv
    }
}

/// The workers to start when the attempts under way go from `before` to `after`.
pub open spec fn dispatches(before: TraceView, after: TraceView, now: i64) -> Seq<DispatchView> {
    after.in_flight.skip(before.in_flight.len() as int).map_values(
        |p: ProcessView| DispatchView { url: p.url, retry: p.retry, delay_ms: delay_at(p.timestamp, now) },
    )
}

/// The trace at its start from `root` at `now`: the root is seen and its first attempt under
/// way.
pub open spec fn begun(cfg: SiteTracer, root: Seq<char>, now: i64) -> TraceView {
    TraceView {
        link_map: LinkMapView { root, map: Map::empty() },
        seen: Set::empty().insert(root),
        queue: Seq::empty(),
        in_flight: seq![process_at(root, 0, cfg.initial_retry_delay_ms, now)],
        capacity: cfg.worker_pool_size as nat,
    }
}

proof fn lemma_queued_all_with_result(
    tv: TraceView,
    links: Seq<Seq<char>>,
    base: u16,
    now: i64,
    url: Seq<char>,
    v: LinkView,
)
    ensures
        queued_all(with_result(tv, url, v), links, base, now) == with_result(
            queued_all(tv, links, base, now),
            url,
            v,
        ),
    decreases links.len(),
{
    if links.len() > 0 {
        lemma_queued_all_with_result(tv, links.drop_last(), base, now, url, v);
    }
}

impl SiteTracer {
    /// Starts a trace from `root` at `now`: the root's first attempt is under way, and the
    /// returned worker is the one to start for it.
    pub fn begin_at(&self, root: &str, now: i64) -> (r: (Trace, Dispatch))
        ensures
            r.0.wf(),
            r.0@ == begun(*self, root@, now),
            r.1@ == (DispatchView { url: root@, retry: 0, delay_ms: None }),
    {
        let mut trace = Trace::new(root, self.worker_pool_size);
        let first = Process::new_at(root, 0, &self.initial_retry_delay_ms, now);
        trace.push_processor(first);
        proof {
            assert(trace@.in_flight =~= begun(*self, root@, now).in_flight);
        }
        (trace, Dispatch { url: root.to_owned(), retry: 0, delay_ms: None })
    }

    /// Starts a trace from `root` now.
    pub fn begin(&self, root: &str) -> (r: (Trace, Dispatch))
        ensures
            r.0.wf(),
            exists|now: i64| r.0@ == begun(*self, root@, now),
            r.1@ == (DispatchView { url: root@, retry: 0, delay_ms: None }),
    {
        self.begin_at(root, now_ms())
    }

    /// Applies what the attempt handed out first reports, at `now`, and hands the earliest
    /// pending attempts to the free workers; returns the workers to start, in order.
    ///
    /// Links of a page are recorded and each one never seen before is queued for a first
    /// attempt. A failed attempt is queued again after its delay while retries remain, and its
    /// error recorded otherwise. A dropped report changes nothing but the attempts under way.
    pub fn handle_result_at(
        &self,
        trace: &mut Trace,
        outcome: Option<Result<Vec<String>, URLContentGetterError>>,
        now: i64,
    ) -> (r: Vec<Dispatch>)
        requires
            old(trace).wf(),
        ensures
            final(trace).wf(),
            final(trace)@ == refilled(recorded(*self, old(trace)@, outcome_view(outcome), now)),
            r@.map_values(|d: Dispatch| d@) == dispatches(
                recorded(*self, old(trace)@, outcome_view(outcome), now),
                final(trace)@,
                now,
            ),
    {
        let ghost o = outcome_view(outcome);
        match trace.get_next_processor() {
            None => {},
            Some(p) => {
                match outcome {
                    None => {},
                    Some(Ok(raw)) => {
                        let links = scope_links(raw, trace.root());
                        proof {
                            lemma_scoped_links_in_scope(raw.deep_view(), trace@.link_map.root);
                        }
                        let ghost t1 = trace@;
                        let mut i: usize = 0;
                        while i < links.len()
                            invariant
                                trace.wf(),
                                i <= links.len(),
                                trace@.link_map == t1.link_map,
                                forall|k: int| 0 <= k < links.deep_view().len() ==> t1.link_map.root.is_prefix_of(#[trigger] links.deep_view()[k]),
                                trace@ == queued_all(t1, links.deep_view().take(i as int), self.initial_retry_delay_ms, now),
                            decreases links.len() - i,
                        {
                            proof {
                                let ld = links.deep_view();
                                assert(ld.take(i + 1).drop_last() =~= ld.take(i as int));
                            }
                            trace.queue_to_process(links[i].as_str(), 0, &self.initial_retry_delay_ms, now);
                            i = i + 1;
                        }
                        proof {
                            assert(links.deep_view().take(links.len() as int) =~= links.deep_view());
                            lemma_queued_all_with_result(t1, links.deep_view(), self.initial_retry_delay_ms, now, p.url@, LinkView::Links(links.deep_view()));
                        }
                        trace.add_result(p.url.as_str(), LinkMapValue::Links(links));
                    },
                    Some(Err(e)) => {
                        if p.retry >= self.max_retries {
                            trace.add_result(p.url.as_str(), LinkMapValue::Error(e));
                        } else {
                            trace.queue_to_process(p.url.as_str(), p.retry + 1, &self.initial_retry_delay_ms, now);
                        }
                    },
                }
            },
        }
        let ghost mid = trace@;
        let mut out: Vec<Dispatch> = Vec::new();
        assert(mid.in_flight.skip(mid.in_flight.len() as int) =~= Seq::<ProcessView>::empty());
        while trace.has_process_capacity()
            invariant_except_break
                trace.wf(),
                refilled(trace@) == refilled(mid),
                trace@.in_flight.take(mid.in_flight.len() as int) == mid.in_flight,
                mid.in_flight.len() <= trace@.in_flight.len(),
                out@.map_values(|d: Dispatch| d@) == dispatches(mid, trace@, now),
                trace@.link_map == mid.link_map,
                trace@.seen == mid.seen,
                trace@.capacity == mid.capacity,
            ensures
                trace.wf(),
                trace@ == refilled(mid),
                out@.map_values(|d: Dispatch| d@) == dispatches(mid, trace@, now),
            decreases trace@.queue.len(),
        {
            let ghost before = trace@;
            match trace.get_next_process() {
                Some(p) => {
                    let d = Dispatch { url: p.url.clone(), retry: p.retry, delay_ms: p.get_delay_at(now) };
                    proof {
                        lemma_trace_inv_push_bound(before);
                    }
                    trace.push_processor(p);
                    let ghost prev = out@.map_values(|d: Dispatch| d@);
                    out.push(d);
                    proof {
                        assert(trace@.in_flight =~= before.in_flight.push(before.queue[0]));
                        assert(trace@.in_flight.take(mid.in_flight.len() as int) =~= mid.in_flight);
                        assert(out@.map_values(|d: Dispatch| d@) =~= prev.push(d@));
                        assert(dispatches(mid, trace@, now) =~= dispatches(mid, before, now).push(d@));
                    }
                },
                None => {
                    break;
                },
            }
        }
        out
    }

    /// Applies what the attempt handed out first reports, now (see [`Self::handle_result_at`]).
    pub fn handle_result(
        &self,
        trace: &mut Trace,
        outcome: Option<Result<Vec<String>, URLContentGetterError>>,
    ) -> (r: Vec<Dispatch>)
        requires
            old(trace).wf(),
        ensures
            final(trace).wf(),
            exists|now: i64|
                final(trace)@ == refilled(recorded(*self, old(trace)@, outcome_view(outcome), now))
                    && r@.map_values(|d: Dispatch| d@) == dispatches(
                    recorded(*self, old(trace)@, outcome_view(outcome), now),
                    final(trace)@,
                    now,
                ),
    {
        let now = now_ms();
        self.handle_result_at(trace, outcome, now)
    }
}

proof fn lemma_trace_inv_push_bound(tv: TraceView)
    requires
        tv.in_flight.len() < tv.capacity,
    ensures
        tv.in_flight.len() < if tv.capacity == 0 { 1 } else { tv.capacity },
{
}

// ---------------------------------------------------------------------------------------------
// Laws of the trace.
// ---------------------------------------------------------------------------------------------

/// Every link recorded in a trace begins with the root.
pub proof fn lemma_links_begin_with_root(t: &Trace)
    requires
        t.wf(),
    ensures
        links_in_scope(t@.link_map),
{
    t.lemma_inv();
}

/// The attempts under way never outnumber the workers of the pool.
pub proof fn lemma_workers_within_pool(t: &Trace)
    requires
        t.wf(),
        t@.capacity > 0,
    ensures
        t@.in_flight.len() <= t@.capacity,
{
    t.lemma_inv();
}

/// A URL joins `seen` once: queueing a first attempt of a URL already seen changes nothing.
pub proof fn lemma_first_attempt_queued_once(tv: TraceView, url: Seq<char>, base: u16, now: i64)
    requires
        tv.seen.contains(url),
    ensures
        queued(tv, url, 0, base, now) == tv,
{
}

proof fn lemma_queued_all_seen_grows(tv: TraceView, links: Seq<Seq<char>>, base: u16, now: i64)
    ensures
        tv.seen.subset_of(queued_all(tv, links, base, now).seen),
        queued_all(tv, links, base, now).link_map == tv.link_map,
        queued_all(tv, links, base, now).in_flight == tv.in_flight,
        queued_all(tv, links, base, now).capacity == tv.capacity,
    decreases links.len(),
{
    if links.len() > 0 {
        lemma_queued_all_seen_grows(tv, links.drop_last(), base, now);
    }
}

proof fn lemma_refilled_keeps(tv: TraceView)
    ensures
        refilled(tv).seen == tv.seen,
        refilled(tv).link_map == tv.link_map,
        refilled(tv).capacity == tv.capacity,
    decreases tv.queue.len(),
{
    if tv.in_flight.len() < tv.capacity && tv.queue.len() > 0 {
        refilled_step_keeps(tv);
    }
}

proof fn refilled_step_keeps(tv: TraceView)
    requires
        tv.in_flight.len() < tv.capacity && tv.queue.len() > 0,
    ensures
        refilled(tv).seen == tv.seen,
        refilled(tv).link_map == tv.link_map,
        refilled(tv).capacity == tv.capacity,
    decreases tv.queue.len(), 0nat,
{
    lemma_refilled_keeps(
        TraceView { queue: tv.queue.drop_first(), in_flight: tv.in_flight.push(tv.queue[0]), ..tv },
    );
}

/// `seen` only grows: no step of a trace takes a URL out of it.
pub proof fn lemma_seen_only_grows(cfg: SiteTracer, tv: TraceView, o: OutcomeView, now: i64)
    ensures
        tv.seen.subset_of(refilled(recorded(cfg, tv, o, now)).seen),
{
    let r = recorded(cfg, tv, o, now);
    lemma_refilled_keeps(r);
    if tv.in_flight.len() > 0 {
        let p = tv.in_flight[0];
        let t1 = TraceView { in_flight: tv.in_flight.drop_first(), ..tv };
        match o {
            OutcomeView::Fetched(raw) => {
                let links = scoped_links(raw, tv.link_map.root);
                lemma_queued_all_seen_grows(
                    with_result(t1, p.url, LinkView::Links(links)),
                    links,
                    cfg.initial_retry_delay_ms,
                    now,
                );
            },
            _ => {},
        }
    }
}

/// Every attempt queued or under way is within the retry budget.
pub open spec fn retries_within(tv: TraceView, max_retries: u8) -> bool {
    &&& forall|i: int| 0 <= i < tv.queue.len() ==> (#[trigger] tv.queue[i]).retry <= max_retries
    &&& forall|i: int| 0 <= i < tv.in_flight.len() ==> (#[trigger] tv.in_flight[i]).retry <= max_retries
}

proof fn lemma_queued_within(tv: TraceView, url: Seq<char>, retry: u8, base: u16, now: i64, max: u8)
    requires
        retries_within(tv, max),
        retry <= max,
    ensures
        retries_within(queued(tv, url, retry, base, now), max),
{
    let q = queued(tv, url, retry, base, now);
    if !(retry == 0 && tv.seen.contains(url)) {
        let p = process_at(url, retry, base, now);
        let k = insertion_index(tv.queue, p.timestamp) as int;
        crate::process_heap::lemma_insertion_index_bound(tv.queue, p.timestamp);
        assert forall|i: int| 0 <= i < q.queue.len() implies (#[trigger] q.queue[i]).retry <= max by {
            if i < k {
                assert(q.queue[i] == tv.queue[i]);
            } else if i > k {
                assert(q.queue[i] == tv.queue[i - 1]);
            }
        }
    }
}

proof fn lemma_queued_all_within(tv: TraceView, links: Seq<Seq<char>>, base: u16, now: i64, max: u8)
    requires
        retries_within(tv, max),
    ensures
        retries_within(queued_all(tv, links, base, now), max),
    decreases links.len(),
{
    if links.len() > 0 {
        lemma_queued_all_within(tv, links.drop_last(), base, now, max);
        lemma_queued_within(queued_all(tv, links.drop_last(), base, now), links.last(), 0, base, now, max);
    }
}

proof fn lemma_refilled_within(tv: TraceView, max: u8)
    requires
        retries_within(tv, max),
    ensures
        retries_within(refilled(tv), max),
    decreases tv.queue.len(),
{
    if tv.in_flight.len() < tv.capacity && tv.queue.len() > 0 {
        let nx = TraceView { queue: tv.queue.drop_first(), in_flight: tv.in_flight.push(tv.queue[0]), ..tv };
        assert forall|i: int| 0 <= i < nx.queue.len() implies (#[trigger] nx.queue[i]).retry <= max by {
            assert(nx.queue[i] == tv.queue[i + 1]);
        }
        assert forall|i: int| 0 <= i < nx.in_flight.len() implies (#[trigger] nx.in_flight[i]).retry <= max by {
            if i < tv.in_flight.len() {
                assert(nx.in_flight[i] == tv.in_flight[i]);
            } else {
                assert(nx.in_flight[i] == tv.queue[0]);
            }
        }
        lemma_refilled_within(nx, max);
    }
}

/// No attempt of a trace goes past the retry budget: the trace starts within it, and every
/// step keeps it so.
pub proof fn lemma_retries_stay_within(cfg: SiteTracer, tv: TraceView, o: OutcomeView, now: i64)
    requires
        retries_within(tv, cfg.max_retries),
    ensures
        retries_within(refilled(recorded(cfg, tv, o, now)), cfg.max_retries),
        forall|root: Seq<char>, t: i64| retries_within(#[trigger] begun(cfg, root, t), cfg.max_retries),
{
    assert forall|root: Seq<char>, t: i64| retries_within(#[trigger] begun(cfg, root, t), cfg.max_retries) by {
        let b = begun(cfg, root, t);
        assert forall|i: int| 0 <= i < b.in_flight.len() implies (#[trigger] b.in_flight[i]).retry <= cfg.max_retries by {
            assert(b.in_flight[i].retry == 0);
        }
    }
    if tv.in_flight.len() > 0 {
        let p = tv.in_flight[0];
        let t1 = TraceView { in_flight: tv.in_flight.drop_first(), ..tv };
        assert forall|i: int| 0 <= i < t1.in_flight.len() implies (#[trigger] t1.in_flight[i]).retry <= cfg.max_retries by {
            assert(t1.in_flight[i] == tv.in_flight[i + 1]);
        }
        match o {
            OutcomeView::Dropped => {},
            OutcomeView::Fetched(raw) => {
                let links = scoped_links(raw, tv.link_map.root);
                lemma_queued_all_within(
                    with_result(t1, p.url, LinkView::Links(links)),
                    links,
                    cfg.initial_retry_delay_ms,
                    now,
                    cfg.max_retries,
                );
            },
            OutcomeView::Failed(e) => {
                if p.retry + 1 <= cfg.max_retries {
                    lemma_queued_within(t1, p.url, (p.retry + 1) as u8, cfg.initial_retry_delay_ms, now, cfg.max_retries);
                }
            },
        }
    }
    lemma_refilled_within(recorded(cfg, tv, o, now), cfg.max_retries);
}

/// A failed attempt `r + 1` (of retry `r`) ends in an error record exactly when it was attempt
/// number `max_retries + 1`; before that, the URL is queued again as attempt `r + 2`, after
/// its delay. So a URL whose record is an error was attempted `max_retries + 1` times.
pub proof fn lemma_error_after_last_attempt(cfg: SiteTracer, tv: TraceView, e: ErrorView, now: i64)
    requires
        tv.in_flight.len() > 0,
        tv.in_flight[0].retry <= cfg.max_retries,
    ensures
        ({
            let p = tv.in_flight[0];
            let r = recorded(cfg, tv, OutcomeView::Failed(e), now);
            &&& p.retry == cfg.max_retries ==> r.link_map.map.contains_key(p.url)
                && r.link_map.map[p.url] == LinkView::Error(e) && r.queue == tv.queue
            &&& p.retry < cfg.max_retries ==> r.link_map == tv.link_map && r.queue.contains(
                process_at(p.url, (p.retry + 1) as u8, cfg.initial_retry_delay_ms, now),
            )
        }),
{
    let p = tv.in_flight[0];
    if p.retry < cfg.max_retries {
        let q = process_at(p.url, (p.retry + 1) as u8, cfg.initial_retry_delay_ms, now);
        let k = insertion_index(tv.queue, q.timestamp) as int;
        crate::process_heap::lemma_insertion_index_bound(tv.queue, q.timestamp);
        let r = recorded(cfg, tv, OutcomeView::Failed(e), now);
        assert(r.queue[k] == q);
    }
}

} // verus!
