use vstd::prelude::*;

use crate::link_map::LinkView;
use crate::process_heap::{insertion_index, lemma_insertion_index_bound, process_at, ProcessView};
use crate::scope::scoped_links;
use crate::site_tracer::{begun, recorded, refilled, OutcomeView, SiteTracer};
use crate::trace::{queued, queued_all, with_result, TraceView};

verus! {

/// A trace together with the number of attempts each URL has had so far: one per report of a
/// worker on it.
pub struct RunState {
    pub trace: TraceView,
    pub attempts: Map<Seq<char>, nat>,
}

/// The number of attempts on `u` so far.
pub open spec fn attempts_of(attempts: Map<Seq<char>, nat>, u: Seq<char>) -> nat {
    if attempts.contains_key(u) {
        attempts[u]
    } else {
        0
    }
}

/// The run after the attempt handed out first reports `o` at `now`.
pub open spec fn run_step(cfg: SiteTracer, rs: RunState, o: OutcomeView, now: i64) -> RunState {
    RunState {
        trace: refilled(recorded(cfg, rs.trace, o, now)),
        attempts: if rs.trace.in_flight.len() > 0 {
            let u = rs.trace.in_flight[0].url;
            rs.attempts.insert(u, attempts_of(rs.attempts, u) + 1)
        } else {
            rs.attempts
        },
    }
}

/// A whole run: the trace begun from `root` at `start`, then one step per report, in order,
/// each with the moment it was handled.
pub open spec fn run(cfg: SiteTracer, root: Seq<char>, start: i64, reports: Seq<(OutcomeView, i64)>) -> RunState
    decreases reports.len(),
{
    if reports.len() == 0 {
        RunState { trace: begun(cfg, root, start), attempts: Map::empty() }
    } else {
        run_step(cfg, run(cfg, root, start, reports.drop_last()), reports.last().0, reports.last().1)
    }
}

/// The attempts still to report: those under way, then those queued.
pub open spec fn live(tv: TraceView) -> Seq<ProcessView> {
    tv.in_flight + tv.queue
}

/// What holds of a run at every step.
pub open spec fn run_inv(cfg: SiteTracer, tv: TraceView, att: Map<Seq<char>, nat>) -> bool {
    let l = live(tv);
    &&& forall|i: int, j: int| 0 <= i < j < l.len() ==> (#[trigger] l[i]).url != (#[trigger] l[j]).url
    &&& forall|i: int|
        0 <= i < l.len() ==> {
            &&& tv.seen.contains((#[trigger] l[i]).url)
            &&& !tv.link_map.map.contains_key(l[i].url)
            &&& attempts_of(att, l[i].url) == l[i].retry
            &&& l[i].retry <= cfg.max_retries
        }
    &&& forall|u: Seq<char>|
        #[trigger] tv.link_map.map.contains_key(u) ==> {
            &&& tv.seen.contains(u)
            &&& tv.link_map.map[u] is Error ==> attempts_of(att, u) == cfg.max_retries + 1
            &&& tv.link_map.map[u] is Links ==> 1 <= attempts_of(att, u) <= cfg.max_retries + 1
        }
    &&& forall|u: Seq<char>| !tv.seen.contains(u) ==> #[trigger] attempts_of(att, u) == 0
    &&& forall|u: Seq<char>| #[trigger] attempts_of(att, u) <= cfg.max_retries + 1
}

proof fn lemma_drop_front(cfg: SiteTracer, tv: TraceView, att: Map<Seq<char>, nat>)
    requires
        run_inv(cfg, tv, att),
        tv.in_flight.len() > 0,
    ensures
        ({
            let p = tv.in_flight[0];
            let t1 = TraceView { in_flight: tv.in_flight.drop_first(), ..tv };
            &&& run_inv(cfg, t1, att.insert(p.url, attempts_of(att, p.url) + 1))
            &&& forall|i: int| 0 <= i < live(t1).len() ==> (#[trigger] live(t1)[i]).url != p.url
            &&& tv.seen.contains(p.url)
            &&& !tv.link_map.map.contains_key(p.url)
            &&& attempts_of(att, p.url) == p.retry
            &&& p.retry <= cfg.max_retries
        }),
{
    let p = tv.in_flight[0];
    let t1 = TraceView { in_flight: tv.in_flight.drop_first(), ..tv };
    let att2 = att.insert(p.url, attempts_of(att, p.url) + 1);
    let l = live(tv);
    let l1 = live(t1);
    assert(l1 =~= l.drop_first());
    assert(l[0] == p);
    assert forall|i: int| 0 <= i < l1.len() implies (#[trigger] l1[i]).url != p.url by {
        assert(l1[i] == l[i + 1]);
    }
    assert forall|i: int| 0 <= i < l1.len() implies {
        &&& t1.seen.contains((#[trigger] l1[i]).url)
        &&& !t1.link_map.map.contains_key(l1[i].url)
        &&& attempts_of(att2, l1[i].url) == l1[i].retry
        &&& l1[i].retry <= cfg.max_retries
    } by {
        assert(l1[i] == l[i + 1]);
    }
    assert forall|i: int, j: int| 0 <= i < j < l1.len() implies (#[trigger] l1[i]).url != (#[trigger] l1[j]).url by {
        assert(l1[i] == l[i + 1] && l1[j] == l[j + 1]);
    }
    assert forall|u: Seq<char>| #[trigger] t1.link_map.map.contains_key(u) implies {
        &&& t1.seen.contains(u)
        &&& t1.link_map.map[u] is Error ==> attempts_of(att2, u) == cfg.max_retries + 1
        &&& t1.link_map.map[u] is Links ==> 1 <= attempts_of(att2, u) <= cfg.max_retries + 1
    } by {
        assert(tv.link_map.map.contains_key(u));
    }
    assert forall|u: Seq<char>| !t1.seen.contains(u) implies #[trigger] attempts_of(att2, u) == 0 by {
        assert(attempts_of(att, u) == 0);
    }
    assert forall|u: Seq<char>| #[trigger] attempts_of(att2, u) <= cfg.max_retries + 1 by {
        assert(attempts_of(att, u) <= cfg.max_retries + 1);
    }
}

proof fn lemma_with_result(cfg: SiteTracer, tv: TraceView, att: Map<Seq<char>, nat>, u: Seq<char>, v: LinkView)
    requires
        run_inv(cfg, tv, att),
        tv.seen.contains(u),
        forall|i: int| 0 <= i < live(tv).len() ==> (#[trigger] live(tv)[i]).url != u,
        v is Error ==> attempts_of(att, u) == cfg.max_retries + 1,
        v is Links ==> 1 <= attempts_of(att, u) <= cfg.max_retries + 1,
    ensures
        run_inv(cfg, with_result(tv, u, v), att),
{
    let t = with_result(tv, u, v);
    assert(live(t) == live(tv));
    assert forall|w: Seq<char>| #[trigger] t.link_map.map.contains_key(w) implies {
        &&& t.seen.contains(w)
        &&& t.link_map.map[w] is Error ==> attempts_of(att, w) == cfg.max_retries + 1
        &&& t.link_map.map[w] is Links ==> 1 <= attempts_of(att, w) <= cfg.max_retries + 1
    } by {
        if w != u {
            assert(tv.link_map.map.contains_key(w));
        }
    }
}

proof fn lemma_queued(cfg: SiteTracer, tv: TraceView, att: Map<Seq<char>, nat>, url: Seq<char>, retry: u8, now: i64)
    requires
        run_inv(cfg, tv, att),
        retry <= cfg.max_retries,
        retry > 0 ==> {
            &&& tv.seen.contains(url)
            &&& !tv.link_map.map.contains_key(url)
            &&& attempts_of(att, url) == retry
            &&& forall|i: int| 0 <= i < live(tv).len() ==> (#[trigger] live(tv)[i]).url != url
        },
    ensures
        run_inv(cfg, queued(tv, url, retry, cfg.initial_retry_delay_ms, now), att),
{
    let q = queued(tv, url, retry, cfg.initial_retry_delay_ms, now);
    if !(retry == 0 && tv.seen.contains(url)) {
        let p = process_at(url, retry, cfg.initial_retry_delay_ms, now);
        let k = insertion_index(tv.queue, p.timestamp) as int;
        lemma_insertion_index_bound(tv.queue, p.timestamp);
        let l = live(tv);
        let n = tv.in_flight.len() as int;
        let lq = live(q);
        assert(lq =~= l.insert(n + k, p));
        if retry == 0 {
            assert forall|i: int| 0 <= i < l.len() implies (#[trigger] l[i]).url != url by {
                assert(tv.seen.contains(l[i].url));
            }
            assert(!tv.link_map.map.contains_key(url));
            assert(attempts_of(att, url) == 0);
        }
        assert forall|i: int, j: int| 0 <= i < j < lq.len() implies (#[trigger] lq[i]).url != (#[trigger] lq[j]).url by {
            if i < n + k {
                assert(lq[i] == l[i]);
            } else if i > n + k {
                assert(lq[i] == l[i - 1]);
            }
            if j < n + k {
                assert(lq[j] == l[j]);
            } else if j > n + k {
                assert(lq[j] == l[j - 1]);
            }
        }
        assert forall|i: int| 0 <= i < lq.len() implies {
            &&& q.seen.contains((#[trigger] lq[i]).url)
            &&& !q.link_map.map.contains_key(lq[i].url)
            &&& attempts_of(att, lq[i].url) == lq[i].retry
            &&& lq[i].retry <= cfg.max_retries
        } by {
            if i < n + k {
                assert(lq[i] == l[i]);
            } else if i > n + k {
                assert(lq[i] == l[i - 1]);
            }
        }
        assert forall|u: Seq<char>| !q.seen.contains(u) implies #[trigger] attempts_of(att, u) == 0 by {
            assert(!tv.seen.contains(u));
        }
        assert forall|u: Seq<char>| #[trigger] q.link_map.map.contains_key(u) implies {
            &&& q.seen.contains(u)
            &&& q.link_map.map[u] is Error ==> attempts_of(att, u) == cfg.max_retries + 1
            &&& q.link_map.map[u] is Links ==> 1 <= attempts_of(att, u) <= cfg.max_retries + 1
        } by {
            assert(tv.link_map.map.contains_key(u));
        }
    }
}

proof fn lemma_queued_all(cfg: SiteTracer, tv: TraceView, att: Map<Seq<char>, nat>, links: Seq<Seq<char>>, now: i64)
    requires
        run_inv(cfg, tv, att),
    ensures
        run_inv(cfg, queued_all(tv, links, cfg.initial_retry_delay_ms, now), att),
    decreases links.len(),
{
    if links.len() > 0 {
        lemma_queued_all(cfg, tv, att, links.drop_last(), now);
        lemma_queued(cfg, queued_all(tv, links.drop_last(), cfg.initial_retry_delay_ms, now), att, links.last(), 0, now);
    }
}

proof fn lemma_refilled_live(tv: TraceView)
    ensures
        live(refilled(tv)) == live(tv),
        refilled(tv).seen == tv.seen,
        refilled(tv).link_map == tv.link_map,
    decreases tv.queue.len(),
{
    if tv.in_flight.len() < tv.capacity && tv.queue.len() > 0 {
        let nx = TraceView { queue: tv.queue.drop_first(), in_flight: tv.in_flight.push(tv.queue[0]), ..tv };
        assert(live(nx) =~= live(tv));
        lemma_refilled_live(nx);
    }
}

proof fn lemma_run_step(cfg: SiteTracer, rs: RunState, o: OutcomeView, now: i64)
    requires
        run_inv(cfg, rs.trace, rs.attempts),
    ensures
        run_inv(cfg, run_step(cfg, rs, o, now).trace, run_step(cfg, rs, o, now).attempts),
{
    let tv = rs.trace;
    let nx = run_step(cfg, rs, o, now);
    let r = recorded(cfg, tv, o, now);
    if tv.in_flight.len() > 0 {
        let p = tv.in_flight[0];
        let t1 = TraceView { in_flight: tv.in_flight.drop_first(), ..tv };
        let att = nx.attempts;
        lemma_drop_front(cfg, tv, rs.attempts);
        match o {
            OutcomeView::Dropped => {},
            OutcomeView::Fetched(raw) => {
                let links = scoped_links(raw, tv.link_map.root);
                lemma_with_result(cfg, t1, att, p.url, LinkView::Links(links));
                lemma_queued_all(cfg, with_result(t1, p.url, LinkView::Links(links)), att, links, now);
            },
            OutcomeView::Failed(e) => {
                if p.retry + 1 > cfg.max_retries {
                    lemma_with_result(cfg, t1, att, p.url, LinkView::Error(e));
                } else {
                    lemma_queued(cfg, t1, att, p.url, (p.retry + 1) as u8, now);
                }
            },
        }
    }
    lemma_refilled_live(r);
    let f = nx.trace;
    assert forall|u: Seq<char>| #[trigger] f.link_map.map.contains_key(u) implies {
        &&& f.seen.contains(u)
        &&& f.link_map.map[u] is Error ==> attempts_of(nx.attempts, u) == cfg.max_retries + 1
        &&& f.link_map.map[u] is Links ==> 1 <= attempts_of(nx.attempts, u) <= cfg.max_retries + 1
    } by {
        assert(r.link_map.map.contains_key(u));
    }
}

/// The invariant holds at every step of every run.
pub proof fn lemma_run_inv(cfg: SiteTracer, root: Seq<char>, start: i64, reports: Seq<(OutcomeView, i64)>)
    ensures
        run_inv(cfg, run(cfg, root, start, reports).trace, run(cfg, root, start, reports).attempts),
    decreases reports.len(),
{
    if reports.len() == 0 {
        let tv = begun(cfg, root, start);
        let att = Map::<Seq<char>, nat>::empty();
        assert(live(tv) =~= seq![process_at(root, 0, cfg.initial_retry_delay_ms, start)]);
        assert forall|u: Seq<char>| #[trigger] attempts_of(att, u) <= cfg.max_retries + 1 by {}
    } else {
        lemma_run_inv(cfg, root, start, reports.drop_last());
        lemma_run_step(cfg, run(cfg, root, start, reports.drop_last()), reports.last().0, reports.last().1);
    }
}

/// Over a whole run, a URL whose record is an error was attempted exactly `max_retries + 1`
/// times; no URL is attempted more often than that.
pub proof fn lemma_error_after_every_attempt(
    cfg: SiteTracer,
    root: Seq<char>,
    start: i64,
    reports: Seq<(OutcomeView, i64)>,
    u: Seq<char>,
)
    ensures
        ({
            let rs = run(cfg, root, start, reports);
            &&& rs.trace.link_map.map.contains_key(u) && rs.trace.link_map.map[u] is Error
                ==> attempts_of(rs.attempts, u) == cfg.max_retries + 1
            &&& attempts_of(rs.attempts, u) <= cfg.max_retries + 1
        }),
{
    lemma_run_inv(cfg, root, start, reports);
    let rs = run(cfg, root, start, reports);
    if rs.trace.link_map.map.contains_key(u) {
        assert(rs.trace.link_map.map.contains_key(u));
    }
}

/// Over a whole run, the attempts on a URL form one chain. At most one attempt on it is live at
/// a time, and the live one is numbered after those already made: a first attempt (retry 0)
/// happens only while none has been made, so a URL begins at most once. Once a URL has a
/// record, no attempt on it is live, so no further attempt follows.
pub proof fn lemma_attempts_form_one_chain(
    cfg: SiteTracer,
    root: Seq<char>,
    start: i64,
    reports: Seq<(OutcomeView, i64)>,
    u: Seq<char>,
)
    ensures
        ({
            let rs = run(cfg, root, start, reports);
            let l = live(rs.trace);
            &&& forall|i: int, j: int|
                0 <= i < l.len() && 0 <= j < l.len() && (#[trigger] l[i]).url == u && (#[trigger] l[j]).url == u
                    ==> i == j
            &&& forall|i: int|
                0 <= i < l.len() && (#[trigger] l[i]).url == u ==> l[i].retry == attempts_of(rs.attempts, u)
            &&& rs.trace.link_map.map.contains_key(u) ==> forall|i: int|
                0 <= i < l.len() ==> (#[trigger] l[i]).url != u
        }),
{
    lemma_run_inv(cfg, root, start, reports);
    let rs = run(cfg, root, start, reports);
    let l = live(rs.trace);
    assert forall|i: int, j: int|
        0 <= i < l.len() && 0 <= j < l.len() && (#[trigger] l[i]).url == u && (#[trigger] l[j]).url == u
        implies i == j by {
        if i < j {
            assert(l[i].url != l[j].url);
        } else if j < i {
            assert(l[j].url != l[i].url);
        }
    }
}

} // verus!
