//! Per-candidate verification: the echo probe that confirms an open
//! proxy and classifies it, the rule probes that tag it, and the
//! latency probe, driven as a state machine.  The caller performs the
//! network sends and hands each raw response back; every decision in
//! between is made here.
use crate::detection::DetectionRule;
use crate::detection::RuleView;
use crate::http::body_of;
use crate::text::contains_seq;
use crate::http::contains_str;
use crate::http::echo_request;
use crate::http::echo_request_spec;
use crate::http::ping_request;
use crate::http::ping_request_spec;
use crate::http::response_body;
use vstd::prelude::*;

verus! {

/// Read-only configuration every worker shares.
pub struct ScanOptions {
    /// Host probed to measure forwarding latency.
    pub reference: String,
    /// Echo host that reports the headers it received.
    pub httpbin: String,
    /// Per-connection deadline, in seconds.
    pub timeout_secs: u64,
    /// Number of concurrent workers.
    pub num_workers: usize,
    /// The operator's own public address, when one was found.
    pub gateway: Option<String>,
}

/// How a probe connection failed.
#[derive(Debug, Clone, Copy, PartialEq, Eq, Structural)]
pub enum TransportError {
    ConnectFailure,
    Timeout,
}

/// Why a candidate is definitively not a usable proxy.
#[derive(Debug, Clone, Copy, PartialEq, Eq, Structural)]
pub enum VerifyError {
    /// The probe connection could not be opened.
    ProbeConnectFailure,
    /// The probe connection timed out.
    ProbeTimeout,
    /// A response head that cannot be split off.  The raw split
    /// tolerates every input, so the classifier never produces this;
    /// the kind stays in the taxonomy for the sink's sake.
    MalformedHttpResponse,
    /// The echoed body is not JSON.
    MalformedJsonBody,
    /// The echoed JSON carries no `headers` object.
    IncompleteEchoData,
}

/// What the echo probe established about a candidate.
#[derive(Debug, Clone, Copy, PartialEq, Eq, Structural)]
pub struct EchoAssessment {
    /// The proxy forwarded without adding any header.
    pub vanilla: bool,
    /// A header leaked the operator's own address; `None` when no
    /// gateway address was known to compare against.
    pub traceable: Option<bool>,
}

/// The record handed to the sink for a confirmed proxy.
#[derive(Debug, Clone, PartialEq, Eq)]
pub struct VerificationResult {
    pub host: u32,
    pub port: u16,
    pub lag: Option<u64>,
    pub vanilla: Option<bool>,
    pub traceable: Option<bool>,
    pub tags: Option<Vec<String>>,
}

/// What the echo endpoint's reply parses to: `None` when the body is
/// not JSON; `Some(None)` when it is JSON without a `headers` object;
/// otherwise one entry per header, carrying the text of each
/// string-valued header.  The result is a function of the body text
/// alone.
pub uninterp spec fn echo_parse_of(body: Seq<char>) -> Option<Option<Seq<Option<Seq<char>>>>>;

/// Relies on serde_json: `from_str` parses the body into a `Value`
/// exactly when it is valid JSON; `Value::get("headers")` finds that
/// member of the top object; `Value::as_object` gives the map exactly
/// when the member is an object; `Value::as_str` gives the text of
/// string values and `None` for others.  Header order follows the
/// map's own deterministic (sorted) order; the whole result depends
/// only on the body text.
#[verifier::external_body]
fn parse_echo_headers(body: &str) -> (r: Option<Option<Vec<Option<String>>>>)
    ensures
        r.deep_view() == echo_parse_of(body@),
{
    match serde_json::from_str::<serde_json::Value>(body) {
        Err(_) => None,
        Ok(v) => Some(
            match v.get("headers").and_then(|h| h.as_object()) {
                None => None,
                Some(m) => Some(
                    m.values().map(|x| x.as_str().map(|s| s.to_string())).collect(),
                ),
            },
        ),
    }
}

/// Whether some header value mentions the gateway address.
pub open spec fn traceable_of(entries: Seq<Option<Seq<char>>>, gateway: Option<Seq<char>>) -> Option<
    bool,
> {
    match gateway {
        None => None,
        Some(g) => Some(
            exists|j: int|
                0 <= j < entries.len() && (#[trigger] entries[j]) is Some && contains_seq(
                    entries[j]->Some_0,
                    g,
                ),
        ),
    }
}

/// Everything the echo response decides: the failure kind for a body
/// that is not JSON or lacks the headers object, else vanilla (the
/// echo saw exactly one header) and traceability.
pub open spec fn echo_verdict(resp: Seq<char>, gateway: Option<Seq<char>>) -> Result<
    EchoAssessment,
    VerifyError,
> {
    match echo_parse_of(body_of(resp)) {
        None => Err(VerifyError::MalformedJsonBody),
        Some(None) => Err(VerifyError::IncompleteEchoData),
        Some(Some(entries)) => Ok(
            EchoAssessment {
                vanilla: entries.len() == 1,
                traceable: traceable_of(entries, gateway),
            },
        ),
    }
}

/// Classifies parsed echo headers: vanilla means the echo saw
/// exactly one header (nothing was added on the way), traceable
/// means some string-valued header mentions the gateway address, and
/// stays unknown when no gateway address was determined.
pub fn assess_headers(entries: &Vec<Option<String>>, gateway: &Option<String>) -> (a:
    EchoAssessment)
    ensures
        a.vanilla == (entries.deep_view().len() == 1),
        a.traceable == traceable_of(entries.deep_view(), gateway.deep_view()),
{
    let vanilla = entries.len() == 1;
    let traceable = match gateway {
        None => None,
        Some(g) => Some(any_entry_contains(entries, g.as_str())),
    };
    EchoAssessment { vanilla, traceable }
}

/// Whether any string-valued entry contains `g`.
fn any_entry_contains(entries: &Vec<Option<String>>, g: &str) -> (r: bool)
    ensures
        r == exists|j: int|
            0 <= j < entries.deep_view().len() && (#[trigger] entries.deep_view()[j]) is Some
                && contains_seq(entries.deep_view()[j]->Some_0, g@),
{
    let mut i: usize = 0;
    while i < entries.len()
        invariant
            i <= entries@.len(),
            forall|j: int|
                0 <= j < i ==> !((#[trigger] entries.deep_view()[j]) is Some && contains_seq(
                    entries.deep_view()[j]->Some_0,
                    g@,
                )),
        decreases entries@.len() - i,
    {
        match &entries[i] {
            Some(s) => {
                if contains_str(s.as_str(), g) {
                    proof {
                        assert((entries.deep_view()[i as int]) is Some && contains_seq(
                            entries.deep_view()[i as int]->Some_0,
                            g@,
                        ));
                    }
                    return true;
                }
            },
            None => {
            },
        }
        i = i + 1;
    }
    false
}

/// Classifies an echo response: exactly `echo_verdict`.
pub fn evaluate_echo(resp: &str, gateway: &Option<String>) -> (r: Result<
    EchoAssessment,
    VerifyError,
>)
    ensures
        r == echo_verdict(resp@, gateway.deep_view()),
{
    let body = response_body(resp);
    match parse_echo_headers(body) {
        None => Err(VerifyError::MalformedJsonBody),
        Some(None) => Err(VerifyError::IncompleteEchoData),
        Some(Some(entries)) => Ok(assess_headers(&entries, gateway)),
    }
}

/// Where a candidate's verification stands.
#[derive(Debug, Clone, Copy, PartialEq, Eq, Structural)]
pub enum VerifyPhase {
    /// Waiting for the open-proxy echo probe's response.
    Echo,
    /// Waiting for the response to rule `next`.
    Rules { next: usize },
    /// Waiting for the latency probe's response.
    Latency,
    /// A result or failure has been produced.
    Complete,
}

/// What the caller must do next.
#[derive(Debug)]
pub enum VerifyAction {
    /// Send `request` to the candidate over a fresh connection and
    /// report the outcome; when `timed`, measure the round trip.
    Probe { request: String, timed: bool },
    /// The candidate is a confirmed proxy: record it.
    Finished { result: VerificationResult },
    /// The candidate is definitively unusable: disable it.
    Failed { error: VerifyError },
}

/// The views of a list of tags.
pub open spec fn tag_views(tags: Seq<String>) -> Seq<Seq<char>> {
    tags.map_values(|t: String| t@)
}

/// The views of a list of rules.
pub open spec fn rule_views(rules: Seq<DetectionRule>) -> Seq<RuleView> {
    rules.map_values(|r: DetectionRule| r@)
}

/// Verification of one candidate, step by step.
pub struct Verifier {
    pub host: u32,
    pub port: u16,
    pub phase: VerifyPhase,
    pub vanilla: Option<bool>,
    pub traceable: Option<bool>,
    pub tags: Vec<String>,
}

/// The action announces the probe `req`.
pub open spec fn probe_action(a: VerifyAction, req: Seq<char>, timed: bool) -> bool {
    a matches VerifyAction::Probe { request, timed: t } && request@ == req && t == timed
}

/// After the echo, the machine visits every rule in order and then
/// measures latency: `idx` names the first rule still unprobed.
pub open spec fn next_probe_ok(
    v: Verifier,
    a: VerifyAction,
    rules: Seq<RuleView>,
    reference: Seq<char>,
    idx: nat,
) -> bool {
    if idx < rules.len() {
        &&& v.phase matches VerifyPhase::Rules { next } && next == idx
        &&& probe_action(a, rules[idx as int].template, false)
    } else {
        &&& v.phase is Latency
        &&& probe_action(a, ping_request_spec(reference), true)
    }
}

/// One echo-phase step: a transport failure is terminal with the
/// matching failure kind; a response is classified by `echo_verdict`,
/// a bad body is terminal, and a good one fixes `vanilla` and
/// `traceable` and moves on to the rules.
pub open spec fn echo_step(
    pre: Verifier,
    post: Verifier,
    a: VerifyAction,
    outcome: Result<String, TransportError>,
    gateway: Option<Seq<char>>,
    rules: Seq<RuleView>,
    reference: Seq<char>,
) -> bool {
    match outcome {
        Err(TransportError::ConnectFailure) => post.phase is Complete && a
            matches VerifyAction::Failed { error: VerifyError::ProbeConnectFailure },
        Err(TransportError::Timeout) => post.phase is Complete && a
            matches VerifyAction::Failed { error: VerifyError::ProbeTimeout },
        Ok(resp) => match echo_verdict(resp@, gateway) {
            Err(e) => post.phase is Complete && (a matches VerifyAction::Failed { error }
                && error == e),
            Ok(assess) => {
                &&& post.vanilla == Some(assess.vanilla)
                &&& post.traceable == assess.traceable
                &&& tag_views(post.tags@) == tag_views(pre.tags@)
                &&& next_probe_ok(post, a, rules, reference, 0)
            },
        },
    }
}

/// One rule-phase step: a response containing the needle earns the
/// tag, anything else (a failure too) earns nothing, and either way
/// the machine moves to the next rule or to the latency probe.
pub open spec fn rules_step(
    pre: Verifier,
    post: Verifier,
    a: VerifyAction,
    outcome: Result<String, TransportError>,
    i: nat,
    rules: Seq<RuleView>,
    reference: Seq<char>,
) -> bool {
    let hit = outcome matches Ok(resp) && contains_seq(resp@, rules[i as int].needle);
    &&& tag_views(post.tags@) == if hit {
        tag_views(pre.tags@).push(rules[i as int].tag)
    } else {
        tag_views(pre.tags@)
    }
    &&& post.vanilla == pre.vanilla
    &&& post.traceable == pre.traceable
    &&& next_probe_ok(post, a, rules, reference, i + 1)
}

/// The latency step: any response fixes the lag, a failure leaves it
/// unknown; either way the candidate is reported, never discarded.
pub open spec fn latency_step(
    pre: Verifier,
    post: Verifier,
    a: VerifyAction,
    outcome: Result<String, TransportError>,
    elapsed_secs: u64,
) -> bool {
    &&& post.phase is Complete
    &&& a matches VerifyAction::Finished { result } && {
        &&& result.host == pre.host
        &&& result.port == pre.port
        &&& result.lag == if outcome is Ok {
            Some(elapsed_secs)
        } else {
            None::<u64>
        }
        &&& result.vanilla == pre.vanilla
        &&& result.traceable == pre.traceable
        &&& result.tags matches Some(ts) && tag_views(ts@) == tag_views(pre.tags@)
    }
}

impl Verifier {
    /// Steps left before the machine must complete: its strict
    /// decrease at every event bounds any driving loop.
    pub open spec fn steps_left(self, rules: Seq<RuleView>) -> nat {
        match self.phase {
            VerifyPhase::Echo => rules.len() + 3,
            VerifyPhase::Rules { next } => (rules.len() - next + 2) as nat,
            VerifyPhase::Latency => 1,
            VerifyPhase::Complete => 0,
        }
    }

    /// The rule index the machine waits on exists.
    pub open spec fn wf(self, rules: Seq<RuleView>) -> bool {
        match self.phase {
            VerifyPhase::Rules { next } => next < rules.len(),
            _ => true,
        }
    }

    /// Starts verifying one candidate: the first probe is always the
    /// open-proxy echo request, untimed.
    pub fn begin(host: u32, port: u16, opts: &ScanOptions) -> (r: (Verifier, VerifyAction))
        ensures
            r.0.phase is Echo,
            r.0.host == host,
            r.0.port == port,
            r.0.vanilla is None,
            r.0.traceable is None,
            r.0.tags@.len() == 0,
            probe_action(r.1, echo_request_spec(opts.httpbin@), false),
    {
        let v = Verifier {
            host,
            port,
            phase: VerifyPhase::Echo,
            vanilla: None,
            traceable: None,
            tags: Vec::new(),
        };
        let a = VerifyAction::Probe { request: echo_request(opts.httpbin.as_str()), timed: false };
        (v, a)
    }

    /// Moves to rule `idx`, or to the latency probe when the rules
    /// are exhausted, announcing the corresponding request.
    fn advance(&mut self, opts: &ScanOptions, rules: &Vec<DetectionRule>, idx: usize) -> (a:
        VerifyAction)
        requires
            idx <= rules@.len(),
        ensures
            next_probe_ok(*final(self), a, rule_views(rules@), opts.reference@, idx as nat),
            final(self).wf(rule_views(rules@)),
            final(self).host == old(self).host,
            final(self).port == old(self).port,
            final(self).vanilla == old(self).vanilla,
            final(self).traceable == old(self).traceable,
            final(self).tags == old(self).tags,
    {
        if idx < rules.len() {
            self.phase = VerifyPhase::Rules { next: idx };
            let req = rules[idx].template.clone();
            proof {
                assert(rule_views(rules@)[idx as int] == rules@[idx as int]@);
            }
            VerifyAction::Probe { request: req, timed: false }
        } else {
            self.phase = VerifyPhase::Latency;
            VerifyAction::Probe { request: ping_request(opts.reference.as_str()), timed: true }
        }
    }

    /// Feeds the machine the outcome of the announced probe and gets
    /// the next action.  `elapsed_secs` is the measured round trip of
    /// a timed probe; it is read only in the latency phase.
    pub fn on_event(
        &mut self,
        opts: &ScanOptions,
        rules: &Vec<DetectionRule>,
        outcome: Result<String, TransportError>,
        elapsed_secs: u64,
    ) -> (a: VerifyAction)
        requires
            old(self).wf(rule_views(rules@)),
            !(old(self).phase is Complete),
        ensures
            final(self).wf(rule_views(rules@)),
            final(self).steps_left(rule_views(rules@)) < old(self).steps_left(rule_views(rules@)),
            final(self).host == old(self).host,
            final(self).port == old(self).port,
            match old(self).phase {
                VerifyPhase::Echo => echo_step(
                    *old(self),
                    *final(self),
                    a,
                    outcome,
                    opts.gateway.deep_view(),
                    rule_views(rules@),
                    opts.reference@,
                ),
                VerifyPhase::Rules { next } => rules_step(
                    *old(self),
                    *final(self),
                    a,
                    outcome,
                    next as nat,
                    rule_views(rules@),
                    opts.reference@,
                ),
                VerifyPhase::Latency => latency_step(*old(self), *final(self), a, outcome, elapsed_secs),
                VerifyPhase::Complete => false,
            },
    {
        match self.phase {
            VerifyPhase::Echo => {
                match outcome {
                    Err(TransportError::ConnectFailure) => {
                        self.phase = VerifyPhase::Complete;
                        VerifyAction::Failed { error: VerifyError::ProbeConnectFailure }
                    },
                    Err(TransportError::Timeout) => {
                        self.phase = VerifyPhase::Complete;
                        VerifyAction::Failed { error: VerifyError::ProbeTimeout }
                    },
                    Ok(resp) => {
                        match evaluate_echo(resp.as_str(), &opts.gateway) {
                            Err(e) => {
                                self.phase = VerifyPhase::Complete;
                                VerifyAction::Failed { error: e }
                            },
                            Ok(assess) => {
                                self.vanilla = Some(assess.vanilla);
                                self.traceable = assess.traceable;
                                self.advance(opts, rules, 0)
                            },
                        }
                    },
                }
            },
            VerifyPhase::Rules { next } => {
                let hit = match &outcome {
                    Ok(resp) => contains_str(resp.as_str(), rules[next].needle.as_str()),
                    Err(_) => false,
                };
                proof {
                    assert(rule_views(rules@)[next as int] == rules@[next as int]@);
                    assert(rule_views(rules@).len() == rules@.len());
                    assert(rules@.len() == rules.len());
                }
                if hit {
                    let ghost old_tags = self.tags@;
                    self.tags.push(rules[next].tag.clone());
                    proof {
                        assert(tag_views(self.tags@) =~= tag_views(old_tags).push(
                            rules@[next as int]@.tag,
                        ));
                    }
                }
                self.advance(opts, rules, next + 1)
            },
            VerifyPhase::Latency => {
                let lag = if outcome.is_ok() {
                    Some(elapsed_secs)
                } else {
                    None
                };
                let mut tags_out: Vec<String> = Vec::new();
                core::mem::swap(&mut self.tags, &mut tags_out);
                self.phase = VerifyPhase::Complete;
                VerifyAction::Finished {
                    result: VerificationResult {
                        host: self.host,
                        port: self.port,
                        lag,
                        vanilla: self.vanilla,
                        traceable: self.traceable,
                        tags: Some(tags_out),
                    },
                }
            },
            VerifyPhase::Complete => {
                proof {
                    assert(false);
                }
                VerifyAction::Failed { error: VerifyError::ProbeConnectFailure }
            },
        }
    }
}

} // verus!
