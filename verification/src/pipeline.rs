//! The pipeline's bookkeeping: admission, completion, and rate control.
//!
//! The concurrent run outside the library drives this state machine one
//! event at a time: a candidate admitted to the queue, a probe completed.
//! Every decision — what the counters become, what is filed, what the cursor
//! observes — is made here; the caller only performs the I/O in between.
use vstd::multiset::Multiset;
use vstd::prelude::*;

use crate::progress::Progress;
use crate::store::{storable, extract_tld_spec, DomainStore};

verus! {

/// The queue between generator and prober holds at least one candidate and
/// otherwise twice the concurrency.
pub fn queue_capacity(concurrency: i32) -> (r: usize)
    ensures
        r == if concurrency >= 1 {
            2 * concurrency as int
        } else {
            1int
        },
{
    if concurrency >= 1 {
        2 * (concurrency as usize)
    } else {
        1
    }
}

/// What the pipeline has done so far, abstractly: the three counters and the
/// multiset of filed results.
pub struct PipeState {
    pub enqueued: int,
    pub checked: int,
    pub found: int,
    pub stored: Multiset<Seq<char>>,
}

/// One observable event of a run.
pub enum PipeEvent {
    /// A candidate was handed to the queue.
    Enqueued,
    /// A probe finished for a domain, with or without a hit.
    Completed { domain: Seq<char>, hit: bool },
}

/// Counters in their invariant order.
pub open spec fn counters_ordered(s: PipeState) -> bool {
    s.enqueued >= s.checked >= s.found >= 0
}

/// A completion presupposes an uncompleted enqueued candidate.
pub open spec fn pipe_admissible(s: PipeState, ev: PipeEvent) -> bool {
    match ev {
        PipeEvent::Enqueued => true,
        PipeEvent::Completed { domain, hit } => s.checked < s.enqueued,
    }
}

/// What one event does to the abstract state.
pub open spec fn pipe_step(s: PipeState, ev: PipeEvent) -> PipeState {
    match ev {
        PipeEvent::Enqueued => PipeState { enqueued: s.enqueued + 1, ..s },
        PipeEvent::Completed { domain, hit } => {
            if hit {
                PipeState {
                    checked: s.checked + 1,
                    found: s.found + 1,
                    stored: if storable(domain) {
                        s.stored.insert(domain)
                    } else {
                        s.stored
                    },
                    ..s
                }
            } else {
                PipeState { checked: s.checked + 1, ..s }
            }
        },
    }
}

/// A whole run, event by event.
pub open spec fn pipe_run(s: PipeState, evs: Seq<PipeEvent>) -> PipeState
    decreases evs.len(),
{
    if evs.len() == 0 {
        s
    } else {
        pipe_run(pipe_step(s, evs[0]), evs.skip(1))
    }
}

/// Every event of the run was admissible when it happened.
pub open spec fn pipe_run_ok(s: PipeState, evs: Seq<PipeEvent>) -> bool
    decreases evs.len(),
{
    if evs.len() == 0 {
        true
    } else {
        pipe_admissible(s, evs[0]) && pipe_run_ok(pipe_step(s, evs[0]), evs.skip(1))
    }
}

/// Counter monotonicity: across any admissible run the counters never
/// decrease and stay ordered `enqueued >= checked >= found`, and nothing
/// filed is ever unfiled.
pub proof fn lemma_counters_monotone(s: PipeState, evs: Seq<PipeEvent>)
    requires
        counters_ordered(s),
        pipe_run_ok(s, evs),
    ensures
        counters_ordered(pipe_run(s, evs)),
        pipe_run(s, evs).enqueued >= s.enqueued,
        pipe_run(s, evs).checked >= s.checked,
        pipe_run(s, evs).found >= s.found,
        forall|d: Seq<char>| pipe_run(s, evs).stored.count(d) >= s.stored.count(d),
    decreases evs.len(),
{
    if evs.len() == 0 {
    } else {
        let s1 = pipe_step(s, evs[0]);
        assert(counters_ordered(s1));
        assert(forall|d: Seq<char>| s1.stored.count(d) >= s.stored.count(d));
        lemma_counters_monotone(s1, evs.skip(1));
    }
}

/// Store fidelity: when a probe of a well-formed domain hits, the domain is
/// in the store at the end of the run — later events never remove it.
pub proof fn lemma_store_fidelity(s: PipeState, evs: Seq<PipeEvent>, i: int, d: Seq<char>)
    requires
        counters_ordered(s),
        pipe_run_ok(s, evs),
        0 <= i < evs.len(),
        evs[i] == (PipeEvent::Completed { domain: d, hit: true }),
        storable(d),
    ensures
        pipe_run(s, evs).stored.count(d) >= 1,
    decreases evs.len(),
{
    let s1 = pipe_step(s, evs[0]);
    assert(counters_ordered(s1));
    if i == 0 {
        assert(s1.stored.count(d) >= 1);
        lemma_counters_monotone(s1, evs.skip(1));
    } else {
        assert(evs.skip(1)[i - 1] == evs[i]);
        lemma_store_fidelity(s1, evs.skip(1), i - 1, d);
    }
}

/// Cap discipline: admitting candidates under a positive cap never lets
/// `enqueued` pass the cap.
pub open spec fn admit_allowed(s: PipeState, cap: i64) -> bool {
    cap <= 0 || s.enqueued < cap
}

/// A run that only enqueues when the cap admits it.
pub open spec fn capped_run_ok(s: PipeState, evs: Seq<PipeEvent>, cap: i64) -> bool
    decreases evs.len(),
{
    if evs.len() == 0 {
        true
    } else {
        (evs[0] is Enqueued ==> admit_allowed(s, cap)) && capped_run_ok(
            pipe_step(s, evs[0]),
            evs.skip(1),
            cap,
        )
    }
}

/// Cap discipline: with `cap > 0` and `enqueued <= cap` at the start, any
/// run that respects admission ends with `enqueued <= cap`.
pub proof fn lemma_cap_discipline(s: PipeState, evs: Seq<PipeEvent>, cap: i64)
    requires
        cap > 0,
        s.enqueued <= cap,
        capped_run_ok(s, evs, cap),
    ensures
        pipe_run(s, evs).enqueued <= cap,
    decreases evs.len(),
{
    if evs.len() == 0 {
    } else {
        lemma_cap_discipline(pipe_step(s, evs[0]), evs.skip(1), cap);
    }
}

/// The live pipeline state: counters, results and the resume cursor cell.
pub struct Engine {
    pub progress: Progress,
    pub store: DomainStore,
    pub last_domain: String,
}

impl Engine {
    /// The abstract state this engine is at.
    pub open spec fn view_state(self) -> PipeState {
        PipeState {
            enqueued: self.progress.enqueued as int,
            checked: self.progress.checked as int,
            found: self.progress.found as int,
            stored: self.store.model(),
        }
    }

    pub open spec fn wf(self) -> bool {
        self.store.wf()
    }

    pub fn new(total_planned: i64) -> (r: Engine)
        ensures
            r.wf(),
            r.view_state() == (PipeState {
                enqueued: 0,
                checked: 0,
                found: 0,
                stored: Multiset::<Seq<char>>::empty(),
            }),
            r.progress.total_planned == if total_planned > 0 {
                total_planned
            } else {
                0i64
            },
            r.last_domain@ == Seq::<char>::empty(),
    {
        Engine {
            progress: Progress::new(total_planned),
            store: DomainStore::new(),
            last_domain: String::new(),
        }
    }

    /// Admits one candidate to the queue if the cap allows it; says whether
    /// it was admitted.
    pub fn admit_candidate(&mut self, cap: i64) -> (r: bool)
        requires
            old(self).wf(),
            old(self).progress.enqueued < i64::MAX,
        ensures
            final(self).wf(),
            r == admit_allowed(old(self).view_state(), cap),
            r ==> final(self).view_state() == pipe_step(
                old(self).view_state(),
                PipeEvent::Enqueued,
            ),
            !r ==> *final(self) == *old(self),
            final(self).last_domain == old(self).last_domain,
            final(self).progress.total_planned == old(self).progress.total_planned,
    {
        if cap > 0 && self.progress.enqueued >= cap {
            return false;
        }
        self.progress.inc_enqueued();
        true
    }

    /// Records one completed probe: a hit is filed and counted as found,
    /// every completion is counted as checked, and the cursor observes the
    /// domain.
    pub fn on_probe_completed(&mut self, domain: &str, hit: bool)
        requires
            old(self).wf(),
            old(self).progress.checked < i64::MAX,
            old(self).progress.found < i64::MAX,
        ensures
            final(self).wf(),
            final(self).view_state() == pipe_step(
                old(self).view_state(),
                PipeEvent::Completed { domain: domain@, hit },
            ),
            final(self).last_domain@ == domain@,
            storable(domain@) && hit ==> final(self).store.model().count(domain@) >= 1,
            storable(domain@) && hit ==> final(self).store.stored(
                extract_tld_spec(domain@)->Some_0,
            ) == old(self).store.stored(extract_tld_spec(domain@)->Some_0).push(domain@),
            final(self).progress.total_planned == old(self).progress.total_planned,
            final(self).progress.enqueued == old(self).progress.enqueued,
    {
        if hit {
            self.store.add(domain);
            self.progress.inc_found();
        }
        self.progress.inc_checked();
        self.last_domain = domain.to_owned();
        proof {
            broadcast use vstd::multiset::group_multiset_axioms;

        }
    }
}

/// A token bucket holding at most one refill period's worth of tokens.
pub struct TokenBucket {
    pub tokens: u64,
    pub rate: u64,
}

impl TokenBucket {
    /// A full bucket: one period's burst is available at once.
    pub fn new(rate: u64) -> (r: TokenBucket)
        ensures
            r.tokens == rate,
            r.rate == rate,
    {
        TokenBucket { tokens: rate, rate }
    }

    /// The periodic refill: the bucket returns to exactly one period's worth.
    pub fn refill(&mut self)
        ensures
            final(self).tokens == old(self).rate,
            final(self).rate == old(self).rate,
    {
        self.tokens = self.rate;
    }

    /// Takes one token if any is left; says whether one was taken.
    pub fn try_acquire(&mut self) -> (r: bool)
        ensures
            final(self).rate == old(self).rate,
            r == (old(self).tokens > 0),
            r ==> final(self).tokens == old(self).tokens - 1,
            !r ==> final(self).tokens == old(self).tokens,
    {
        if self.tokens > 0 {
            self.tokens = self.tokens - 1;
            true
        } else {
            false
        }
    }
}

/// How many of `attempts` successive `try_acquire` calls succeed on a bucket
/// of `tokens` tokens with no refill in between.
pub open spec fn granted(tokens: nat, attempts: nat) -> nat
    decreases attempts,
{
    if attempts == 0 {
        0
    } else if tokens > 0 {
        (1 + granted((tokens - 1) as nat, (attempts - 1) as nat)) as nat
    } else {
        0
    }
}

/// Rate discipline: between two refills, no more probes are granted than the
/// bucket held — one period's worth at most.
pub proof fn lemma_rate_limit(tokens: nat, attempts: nat)
    ensures
        granted(tokens, attempts) <= tokens,
        granted(tokens, attempts) <= attempts,
    decreases attempts,
{
    if attempts > 0 && tokens > 0 {
        lemma_rate_limit((tokens - 1) as nat, (attempts - 1) as nat);
    }
}

} // verus!
