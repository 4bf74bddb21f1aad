use vstd::arithmetic::power2::{lemma_pow2_unfold, pow2};
use vstd::prelude::*;

verus! {

/// The delay before retry `retry` of a URL, in milliseconds: none for the first attempt, and
/// `base · 2^retry` after that.
pub open spec fn retry_delay_ms(base: u16, retry: u8) -> int {
    if retry == 0 {
        0
    } else {
        base * pow2(retry as nat)
    }
}

/// The moment, in milliseconds since the Unix epoch, at which an attempt queued at `now` may
/// start; a moment past the range of `i64` is the last one it holds.
pub open spec fn eligible_time(now: i64, base: u16, retry: u8) -> i64 {
    let t = now + retry_delay_ms(base, retry);
    if t > i64::MAX {
        i64::MAX
    } else {
        t as i64
    }
}

/// Relies on jiff: `Timestamp::now` reads the system clock (it panics only for a clock set
/// outside the years -9999 to 9999), and `Timestamp::as_millisecond` gives the whole
/// milliseconds since the Unix epoch. Nothing is promised of the value.
#[verifier::external_body]
pub(crate) fn now_ms() -> (r: i64) {
    jiff::Timestamp::now().as_millisecond()
}

/// `retry_delay_ms(base, retry)`, or `u64::MAX` where that does not fit.
fn retry_delay(base: u16, retry: u8) -> (r: u64)
    ensures
        r as int == if retry_delay_ms(base, retry) > u64::MAX as int {
            u64::MAX as int
        } else {
            retry_delay_ms(base, retry)
        },
{
    if retry == 0 {
        return 0;
    }
    let mut d: u64 = base as u64;
    let mut i: u8 = 0;
    assert(pow2(0) == 1) by {
        vstd::arithmetic::power2::lemma2_to64();
    }
    while i < retry
        invariant
            i <= retry,
            d as int == if base * pow2(i as nat) > u64::MAX as int {
                u64::MAX as int
            } else {
                base * pow2(i as nat)
            },
        decreases retry - i,
    {
        let ghost exact = base * pow2(i as nat);
        proof {
            lemma_pow2_unfold((i + 1) as nat);
            assert(base * pow2((i + 1) as nat) == 2 * exact) by (nonlinear_arith)
                requires
                    pow2((i + 1) as nat) == 2 * pow2(i as nat),
                    exact == base * pow2(i as nat),
            ;
        }
        if d > u64::MAX / 2 {
            d = u64::MAX;
        } else {
            d = d * 2;
        }
        i = i + 1;
    }
    d
}

/// A pending attempt to read a URL.
pub struct Process {
    pub url: String,
    /// When the attempt may start, in milliseconds since the Unix epoch.
    pub timestamp: i64,
    /// How many attempts came before this one.
    pub retry: u8,
}

pub struct ProcessView {
    pub url: Seq<char>,
    pub timestamp: i64,
    pub retry: u8,
}

impl View for Process {
    type V = ProcessView;

    open spec fn view(&self) -> ProcessView {
        ProcessView { url: self.url@, timestamp: self.timestamp, retry: self.retry }
    }
}

/// The attempt `retry` of `url`, queued at `now`.
pub open spec fn process_at(url: Seq<char>, retry: u8, base: u16, now: i64) -> ProcessView {
    ProcessView { url, timestamp: eligible_time(now, base, retry), retry }
}

/// How long an attempt that may start at `timestamp` still has to wait at `now`, if at all.
pub open spec fn delay_at(timestamp: i64, now: i64) -> Option<u64> {
    if timestamp > now {
        Some((timestamp - now) as u64)
    } else {
        None
    }
}

impl Process {
    /// The attempt `retry` of `url`, queued at `now`: it may start once the retry delay has
    /// passed.
    pub fn new_at(url: &str, retry: u8, base_delay_ms: &u16, now: i64) -> (r: Process)
        ensures
            r@ == process_at(url@, retry, *base_delay_ms, now),
    {
        let delay = retry_delay(*base_delay_ms, retry);
        let t: i128 = now as i128 + delay as i128;
        let timestamp: i64 = if t > i64::MAX as i128 {
            i64::MAX
        } else {
            t as i64
        };
        Process { url: url.to_owned(), timestamp, retry }
    }

    /// The attempt `retry` of `url`, queued now.
    pub fn new(url: &str, retry: u8, base_delay_ms: &u16) -> (r: Process)
        ensures
            exists|now: i64| r@ == process_at(url@, retry, *base_delay_ms, now),
    {
        Process::new_at(url, retry, base_delay_ms, now_ms())
    }

    /// How long the attempt still has to wait at `now`, if at all.
    pub fn get_delay_at(&self, now: i64) -> (r: Option<u64>)
        ensures
            r == delay_at(self.timestamp, now),
    {
        if self.timestamp > now {
            Some((self.timestamp as i128 - now as i128) as u64)
        } else {
            None
        }
    }

    /// How long the attempt still has to wait now, if at all.
    pub fn get_delay(&self) -> (r: Option<u64>)
        ensures
            exists|now: i64| r == delay_at(self.timestamp, now),
    {
        self.get_delay_at(now_ms())
    }
}

/// Where an attempt that may start at `t` goes in the queue: after every leading attempt that
/// may start no later.
pub open spec fn insertion_index(s: Seq<ProcessView>, t: i64) -> nat
    decreases s.len(),
{
    if s.len() > 0 && s[0].timestamp <= t {
        1 + insertion_index(s.drop_first(), t)
    } else {
        0
    }
}

pub proof fn lemma_insertion_index_bound(s: Seq<ProcessView>, t: i64)
    ensures
        insertion_index(s, t) <= s.len(),
    decreases s.len(),
{
    if s.len() > 0 {
        lemma_insertion_index_bound(s.drop_first(), t);
    }
}

/// Earliest first; attempts that may start at the same moment keep the order in which they
/// were queued.
pub open spec fn by_time(s: Seq<ProcessView>) -> bool {
    forall|i: int, j: int| 0 <= i < j < s.len() ==> (#[trigger] s[i]).timestamp <= (#[trigger] s[j]).timestamp
}

/// The queue of pending attempts, earliest first.
pub struct ProcessHeap {
    items: Vec<Process>,
}

impl View for ProcessHeap {
    type V = Seq<ProcessView>;

    closed spec fn view(&self) -> Seq<ProcessView> {
        self.items@.map_values(|p: Process| p@)
    }
}

impl ProcessHeap {
    pub open spec fn wf(&self) -> bool {
        by_time(self@)
    }

    pub fn new() -> (r: ProcessHeap)
        ensures
            r@ == Seq::<ProcessView>::empty(),
            r.wf(),
    {
        let r = ProcessHeap { items: Vec::new() };
        assert(r@ =~= Seq::<ProcessView>::empty());
        r
    }

    /// Queues `process` after every attempt that may start no later than it.
    pub fn push(&mut self, process: Process)
        requires
            old(self).wf(),
        ensures
            final(self).wf(),
            final(self)@ == old(self)@.insert(
                insertion_index(old(self)@, process.timestamp) as int,
                process@,
            ),
    {
        let ghost s = self@;
        let ghost p = process@;
        let mut k: usize = 0;
        assert(s.skip(0) =~= s);
        while k < self.items.len() && self.items[k].timestamp <= process.timestamp
            invariant
                k <= self.items.len(),
                s == self@,
                by_time(s),
                forall|i: int| 0 <= i < k ==> (#[trigger] s[i]).timestamp <= process.timestamp,
                insertion_index(s, process.timestamp) == k + insertion_index(s.skip(k as int), process.timestamp),
            decreases self.items.len() - k,
        {
            assert(s.skip(k as int).drop_first() =~= s.skip(k + 1));
            k = k + 1;
        }
        proof {
            if k < s.len() {
                assert(s.skip(k as int)[0] == s[k as int]);
            }
            assert(insertion_index(s, process.timestamp) == k);
        }
        self.items.insert(k, process);
        proof {
            assert(self@ =~= s.insert(k as int, p));
            assert forall|i: int, j: int| 0 <= i < j < self@.len() implies (#[trigger] self@[i]).timestamp <= (#[trigger] self@[j]).timestamp by {
                if j == k {
                } else if i == k {
                    assert(self@[j] == s[j - 1]);
                    if k < s.len() {
                        assert(s[k as int].timestamp > p.timestamp);
                        if j - 1 > k {
                            assert(s[k as int].timestamp <= s[j - 1].timestamp);
                        }
                    }
                } else if i > k {
                    assert(self@[i] == s[i - 1] && self@[j] == s[j - 1]);
                } else if j > k {
                    assert(self@[j] == s[j - 1]);
                    assert(self@[i] == s[i]);
                    if j - 1 > i {
                        assert(s[i].timestamp <= s[j - 1].timestamp);
                    }
                } else {
                    assert(self@[i] == s[i] && self@[j] == s[j]);
                }
            }
        }
    }

    /// Takes out the earliest attempt, if any.
    pub fn pop(&mut self) -> (r: Option<Process>)
        requires
            old(self).wf(),
        ensures
            final(self).wf(),
            old(self)@.len() == 0 ==> r is None && final(self)@ == old(self)@,
            old(self)@.len() > 0 ==> (r matches Some(p) && p@ == old(self)@[0] && final(self)@
                == old(self)@.drop_first()),
    {
        if self.items.len() == 0 {
            return None;
        }
        let ghost s = self@;
        let p = self.items.remove(0);
        proof {
            assert(self@ =~= s.drop_first());
            assert forall|i: int, j: int| 0 <= i < j < self@.len() implies (#[trigger] self@[i]).timestamp <= (#[trigger] self@[j]).timestamp by {
                assert(self@[i] == s[i + 1] && self@[j] == s[j + 1]);
            }
        }
        Some(p)
    }

    /// The number of queued attempts.
    pub fn len(&self) -> (r: usize)
        ensures
            r == self@.len(),
    {
        self.items.len()
    }
}

} // verus!
