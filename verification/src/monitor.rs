//! Probe outcome classification and the shared outcome tally.

use vstd::prelude::*;

verus! {

/// The result of one completed probe cycle.
#[derive(Clone, Copy, PartialEq, Eq, Structural, Debug)]
pub enum ProbeOutcome {
    Success,
    Failure,
}

/// What happened during one probe cycle, as reported by the transport.
///
/// A cycle has two phases, connection and request, each bounded by its own
/// timeout; every error of a phase is folded into one event for that phase.
/// A well-formed response carries the returned value.
pub enum ProbeEvent {
    /// The connection could not be established (timeout, refusal, handshake
    /// failure, name resolution failure).
    ConnectFailed,
    /// The connection was established but the request failed (timeout,
    /// transport drop, malformed response).
    RequestFailed,
    /// The request returned a well-formed response with this value.
    ResponseReceived(String),
}

/// How an event is classified: only a well-formed response counts as success.
pub open spec fn classify_spec(event: ProbeEvent) -> ProbeOutcome {
    match event {
        ProbeEvent::ResponseReceived(_) => ProbeOutcome::Success,
        _ => ProbeOutcome::Failure,
    }
}

/// Classifies one probe event into the binary outcome that is counted.
pub fn classify(event: &ProbeEvent) -> (outcome: ProbeOutcome)
    ensures
        outcome == classify_spec(*event),
{
    match event {
        ProbeEvent::ResponseReceived(_) => ProbeOutcome::Success,
        ProbeEvent::ConnectFailed => ProbeOutcome::Failure,
        ProbeEvent::RequestFailed => ProbeOutcome::Failure,
    }
}

/// The two monotonically non-decreasing outcome counters.
///
/// The prober is the sole writer, one increment per completed cycle; readers
/// take point-in-time snapshots. Counters start at zero, are never reset and
/// never decremented.
#[derive(Clone, Copy, PartialEq, Eq, Structural, Debug)]
pub struct CounterPair {
    pub success: u64,
    pub failure: u64,
}

impl CounterPair {
    /// A fresh tally: no probe has completed yet.
    pub fn new() -> (c: CounterPair)
        ensures
            c.success == 0,
            c.failure == 0,
    {
        CounterPair { success: 0, failure: 0 }
    }

    /// Records one completed probe cycle: exactly one counter grows by one,
    /// the other is unchanged, so neither ever decreases.
    pub fn record(&mut self, outcome: ProbeOutcome)
        requires
            outcome == ProbeOutcome::Success ==> old(self).success < u64::MAX,
            outcome == ProbeOutcome::Failure ==> old(self).failure < u64::MAX,
        ensures
            outcome == ProbeOutcome::Success ==> final(self).success
                == old(self).success + 1 && final(self).failure == old(self).failure,
            outcome == ProbeOutcome::Failure ==> final(self).failure
                == old(self).failure + 1 && final(self).success == old(self).success,
    {
        match outcome {
            ProbeOutcome::Success => {
                self.success = self.success + 1;
            },
            ProbeOutcome::Failure => {
                self.failure = self.failure + 1;
            },
        }
    }
}

/// Classifies an event and records the outcome in one step: this is the
/// decision a probe cycle ends with. Exactly one counter grows by one.
pub fn observe(counters: &mut CounterPair, event: &ProbeEvent) -> (outcome: ProbeOutcome)
    requires
        old(counters).success < u64::MAX,
        old(counters).failure < u64::MAX,
    ensures
        outcome == classify_spec(*event),
        outcome == ProbeOutcome::Success ==> final(counters).success
            == old(counters).success + 1 && final(counters).failure == old(counters).failure,
        outcome == ProbeOutcome::Failure ==> final(counters).failure
            == old(counters).failure + 1 && final(counters).success == old(counters).success,
{
    let outcome = classify(event);
    counters.record(outcome);
    outcome
}

/// The immutable probe settings, fixed once at startup: the target address,
/// the probe period, and the bound of each of the two probe phases.
pub struct MonitorConfig {
    pub target: String,
    pub interval_secs: u64,
    pub connection_timeout_secs: u64,
    pub request_timeout_secs: u64,
}

impl MonitorConfig {
    /// A usable configuration names its target: the address doubles as the
    /// endpoint label of every rendered sample, which must not be empty.
    pub open spec fn wf(&self) -> bool {
        self.target@.len() > 0
    }

    /// Builds a configuration, rejecting an empty target address.
    pub fn new(
        target: String,
        interval_secs: u64,
        connection_timeout_secs: u64,
        request_timeout_secs: u64,
    ) -> (r: Option<MonitorConfig>)
        ensures
            (match r {
                Some(c) => target@.len() > 0 && c.wf() && c.target@ == target@
                    && c.interval_secs == interval_secs && c.connection_timeout_secs
                    == connection_timeout_secs && c.request_timeout_secs == request_timeout_secs,
                None => target@.len() == 0,
            }),
    {
        if target.unicode_len() == 0 {
            None
        } else {
            Some(
                MonitorConfig {
                    target,
                    interval_secs,
                    connection_timeout_secs,
                    request_timeout_secs,
                },
            )
        }
    }
}

/// How many outcomes of a sequence of completed cycles were successes.
pub open spec fn success_total(outcomes: Seq<ProbeOutcome>) -> nat
    decreases outcomes.len(),
{
    if outcomes.len() == 0 {
        0
    } else {
        success_total(outcomes.drop_last()) + if outcomes.last() == ProbeOutcome::Success {
            1nat
        } else {
            0nat
        }
    }
}

/// How many outcomes of a sequence of completed cycles were failures.
pub open spec fn failure_total(outcomes: Seq<ProbeOutcome>) -> nat
    decreases outcomes.len(),
{
    if outcomes.len() == 0 {
        0
    } else {
        failure_total(outcomes.drop_last()) + if outcomes.last() == ProbeOutcome::Failure {
            1nat
        } else {
            0nat
        }
    }
}

/// After any sequence of completed probe cycles, the two counters account for
/// every cycle: their totals sum to the number of cycles.
pub proof fn lemma_totals_sum(outcomes: Seq<ProbeOutcome>)
    ensures
        success_total(outcomes) + failure_total(outcomes) == outcomes.len(),
    decreases outcomes.len(),
{
    if outcomes.len() > 0 {
        lemma_totals_sum(outcomes.drop_last());
    }
}

/// Both counters are monotonically non-decreasing across the process
/// lifetime: extending the history of completed cycles never lowers a total.
pub proof fn lemma_totals_monotonic(outcomes: Seq<ProbeOutcome>, later: Seq<ProbeOutcome>)
    ensures
        success_total(outcomes) <= success_total(outcomes + later),
        failure_total(outcomes) <= failure_total(outcomes + later),
    decreases later.len(),
{
    if later.len() == 0 {
        assert(outcomes + later =~= outcomes);
    } else {
        lemma_totals_monotonic(outcomes, later.drop_last());
        assert((outcomes + later).drop_last() =~= outcomes + later.drop_last());
    }
}

} // verus!
