//! The probe decision logic: DNS gate, scheme order, retries, acceptance.
//!
//! The network calls happen outside the library; this state machine decides,
//! for each response or transport error, whether the domain is accepted,
//! which URL to try next, and when to give up.
use vstd::prelude::*;

use crate::config::HTTPCheckConfig;

verus! {

#[derive(Clone, Copy, PartialEq, Eq, Structural, Debug)]
pub enum Scheme {
    Https,
    Http,
}

/// The DNS prefilter: probe only domains that resolved to at least one
/// address.
pub fn dns_gate(addr_count: usize) -> (r: bool)
    ensures
        r == (addr_count > 0),
{
    addr_count > 0
}

/// A status the configuration accepts: inside the inclusive range.
pub open spec fn status_accepted_spec(hc: HTTPCheckConfig, status: i32) -> bool {
    hc.accept_status_min <= status <= hc.accept_status_max
}

pub fn status_accepted(hc: &HTTPCheckConfig, status: i32) -> (r: bool)
    ensures
        r == status_accepted_spec(*hc, status),
{
    hc.accept_status_min <= status && status <= hc.accept_status_max
}

/// The scheme of attempt `n`: two attempts per round, the preferred scheme
/// first.
pub open spec fn scheme_at(https_first: bool, n: nat) -> Scheme {
    if n % 2 == 0 {
        if https_first {
            Scheme::Https
        } else {
            Scheme::Http
        }
    } else {
        if https_first {
            Scheme::Http
        } else {
            Scheme::Https
        }
    }
}

/// How many attempts a probe makes in all: both schemes, once per round,
/// `retry + 1` rounds.
pub open spec fn total_attempts(retry: u32) -> nat {
    (2 * (retry + 1)) as nat
}

/// What one response does to a running probe.
pub enum ProbeOutcome {
    /// A response arrived with this status code.
    Status { status: i32 },
    /// The transport failed: DNS of the connection, the connection itself,
    /// or the request timed out.
    TransportError,
}

/// One probe of one domain, attempt by attempt.
pub struct ProbeMachine {
    pub retry: u32,
    pub https_first: bool,
    pub accept_min: i32,
    pub accept_max: i32,
    pub attempt: u64,
    pub verdict: Option<bool>,
}

impl ProbeMachine {
    /// The probe is still running within its attempt budget.
    pub open spec fn wf(self) -> bool {
        self.attempt <= total_attempts(self.retry)
    }

    pub open spec fn running(self) -> bool {
        self.verdict is None && self.attempt < total_attempts(self.retry)
    }

    /// A fresh probe for one domain under this configuration.
    pub fn new(hc: &HTTPCheckConfig) -> (r: ProbeMachine)
        ensures
            r.wf(),
            r.retry == hc.retry,
            r.https_first == hc.try_https_first,
            r.accept_min == hc.accept_status_min,
            r.accept_max == hc.accept_status_max,
            r.attempt == 0,
            r.verdict is None,
            r.running(),
    {
        proof {
            assert(total_attempts(hc.retry) >= 2);
        }
        ProbeMachine {
            retry: hc.retry,
            https_first: hc.try_https_first,
            accept_min: hc.accept_status_min,
            accept_max: hc.accept_status_max,
            attempt: 0,
            verdict: None,
        }
    }

    /// The scheme the next request should use.
    pub fn current_scheme(&self) -> (r: Scheme)
        requires
            self.running(),
        ensures
            r == scheme_at(self.https_first, self.attempt as nat),
    {
        if self.attempt % 2 == 0 {
            if self.https_first {
                Scheme::Https
            } else {
                Scheme::Http
            }
        } else {
            if self.https_first {
                Scheme::Http
            } else {
                Scheme::Https
            }
        }
    }

    /// Feeds the outcome of the current attempt into the probe: a status in
    /// the accepted range settles the probe positively; anything else moves
    /// to the next scheme and round, and exhausting the budget settles it
    /// negatively.
    pub fn on_outcome(&mut self, outcome: ProbeOutcome)
        requires
            old(self).wf(),
            old(self).running(),
        ensures
            final(self).wf(),
            final(self).retry == old(self).retry,
            final(self).https_first == old(self).https_first,
            final(self).accept_min == old(self).accept_min,
            final(self).accept_max == old(self).accept_max,
            match outcome {
                ProbeOutcome::Status { status } => {
                    if old(self).accept_min <= status <= old(self).accept_max {
                        final(self).verdict == Option::Some(true)
                    } else {
                        final(self).attempt == old(self).attempt + 1 && (final(self).verdict
                            == if old(self).attempt + 1 == total_attempts(old(self).retry) {
                            Option::Some(false)
                        } else {
                            Option::<bool>::None
                        })
                    }
                },
                ProbeOutcome::TransportError => final(self).attempt == old(self).attempt + 1 && (
                final(self).verdict == if old(self).attempt + 1 == total_attempts(
                    old(self).retry,
                ) {
                    Option::Some(false)
                } else {
                    Option::<bool>::None
                }),
            },
    {
        let accepted = match outcome {
            ProbeOutcome::Status { status } => self.accept_min <= status && status
                <= self.accept_max,
            ProbeOutcome::TransportError => false,
        };
        if accepted {
            self.verdict = Some(true);
        } else {
            self.attempt = self.attempt + 1;
            let budget = 2 * ((self.retry as u64) + 1);
            if self.attempt == budget {
                self.verdict = Some(false);
            }
        }
    }
}

/// The URL one attempt requests: `scheme://domain/`.
pub open spec fn url_spec(scheme: Scheme, domain: Seq<char>) -> Seq<char> {
    (if scheme is Https {
        "https://"@
    } else {
        "http://"@
    }) + domain + "/"@
}

/// Builds the URL for one attempt.
pub fn probe_url(scheme: Scheme, domain: &str) -> (r: String)
    ensures
        r@ == url_spec(scheme, domain@),
{
    let prefix: &str = match scheme {
        Scheme::Https => "https://",
        Scheme::Http => "http://",
    };
    let mut v = crate::text::chars_of(prefix);
    let dv = crate::text::chars_of(domain);
    crate::text::append_chars(&mut v, &dv);
    let slash = crate::text::chars_of("/");
    crate::text::append_chars(&mut v, &slash);
    crate::text::string_of(&v)
}

/// Whether the configured method name is blank, in which case the probe
/// uses its default request method.
pub fn method_is_default(method: &str) -> (r: bool)
    ensures
        r == crate::config::blank(method@),
{
    crate::config::is_blank(method)
}

} // verus!
