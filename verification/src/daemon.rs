//! The daemon: its protocol, what a feed check reports and alerts, and when
//! it stops.
use vstd::prelude::*;
use crate::audit::Report;
use crate::feeds::{
    baseline_names, baseline_needs_save, is_valid_name, keys, lookup, malware_set, new_malware,
    reasons_text, FeedState,
};
use crate::gate::Verdict;
use crate::text::{join, strictly_sorted, same_members};

verus! {

/// A request to the daemon (one JSON line on its socket).
#[derive(Clone, Debug)]
pub enum Request {
    Ping,
    /// Refresh the feeds, record what changed and alert.
    CheckFeeds,
    /// The verdicts on packages, from the feed alone.
    CheckPackages { names: Vec<String> },
    /// The verdict on a package about to be built in `dir`.
    GateCheck { name: String, dir: Option<String> },
    /// Audit the host.
    ScanHost,
    Shutdown,
}

/// The daemon's answer to a request.
#[derive(Clone, Debug)]
pub enum Response {
    Pong { version: String },
    FeedsResult { new_malware: Vec<String>, total: usize, error: Option<String> },
    CheckResult { verdicts: Vec<Verdict> },
    GateResult { verdict: Verdict },
    ScanResult { report: Report },
    ShuttingDown,
    Error { message: String },
}

/// Inactivity before the daemon stops, in nanoseconds.
pub const GRACE_NS: i64 = 3_000_000_000;

/// The daemon's longest life, in nanoseconds.
pub const MAX_LIFETIME_NS: u128 = 300_000_000_000;

/// Whether a connection is closed once the request is answered: after a
/// shutdown request.
pub fn closes_connection(req: &Request) -> (r: bool)
    ensures
        r == (req is Shutdown),
{
    match req {
        Request::Shutdown => true,
        _ => false,
    }
}

/// Whether the daemon should stop: on a termination signal, after the grace
/// period with no connection open, or after its maximum lifetime.
pub open spec fn should_exit_spec(
    terminate: bool,
    active: usize,
    now_ns: i64,
    last_activity_ns: i64,
    elapsed_ns: u128,
) -> bool {
    terminate || (active == 0 && now_ns - last_activity_ns >= GRACE_NS) || elapsed_ns
        > MAX_LIFETIME_NS
}

/// Whether the daemon should stop (see `should_exit_spec`).
pub fn should_exit(
    terminate: bool,
    active: usize,
    now_ns: i64,
    last_activity_ns: i64,
    elapsed_ns: u128,
) -> (r: bool)
    requires
        !terminate && active == 0 ==> i64::MIN <= now_ns - last_activity_ns <= i64::MAX,
    ensures
        r == should_exit_spec(terminate, active, now_ns, last_activity_ns, elapsed_ns),
{
    if terminate {
        return true;
    }
    if active == 0 && now_ns - last_activity_ns >= GRACE_NS {
        return true;
    }
    elapsed_ns > MAX_LIFETIME_NS
}

/// How many times a daemon just started is pinged before giving up.
pub const START_PINGS: u32 = 60;

/// How many times the pid file is checked after asking the daemon to stop,
/// before it is killed.
pub const STOP_CHECKS: u32 = 40;

/// The next move of a bounded wait for a condition (the daemon answering,
/// or its pid file going away).
#[derive(Clone, Copy, Debug)]
pub enum Poll {
    /// The condition holds: stop waiting.
    Done,
    /// Wait a moment and look again.
    WaitAndRetry,
    /// Wait a moment, then stop looking: the last look is used up.
    WaitAndGiveUp,
}

/// After the `n`-th look (from 1) of at most `limit`, at which the
/// condition was `holds`: done when it holds, else wait and look again
/// while looks remain, else wait and give up.
pub fn poll_step(n: u32, limit: u32, holds: bool) -> (r: Poll)
    requires
        1 <= n <= limit,
    ensures
        r == (if holds {
            Poll::Done
        } else if n < limit {
            Poll::WaitAndRetry
        } else {
            Poll::WaitAndGiveUp
        }),
{
    if holds {
        Poll::Done
    } else if n < limit {
        Poll::WaitAndRetry
    } else {
        Poll::WaitAndGiveUp
    }
}

/// The daemon lives at most five minutes and stops after three seconds with
/// no connection open: it stops on a signal, once idle for three seconds or
/// more, or past five minutes; it keeps running while a connection is open
/// or it has been idle for less than three seconds, within five minutes.
pub proof fn law_daemon_lifetime(
    terminate: bool,
    active: usize,
    now_ns: i64,
    last_activity_ns: i64,
    elapsed_ns: u128,
)
    ensures
        terminate ==> should_exit_spec(terminate, active, now_ns, last_activity_ns, elapsed_ns),
        active == 0 && now_ns - last_activity_ns >= 3_000_000_000 ==> should_exit_spec(
            terminate,
            active,
            now_ns,
            last_activity_ns,
            elapsed_ns,
        ),
        elapsed_ns > 300_000_000_000 ==> should_exit_spec(
            terminate,
            active,
            now_ns,
            last_activity_ns,
            elapsed_ns,
        ),
        !terminate && (active > 0 || now_ns - last_activity_ns < 3_000_000_000) && elapsed_ns
            <= 300_000_000_000 ==> !should_exit_spec(
            terminate,
            active,
            now_ns,
            last_activity_ns,
            elapsed_ns,
        ),
{
}

/// What a feed check found: the flagged names, those new since the
/// baseline with their campaigns, and whether the baseline is saved again.
#[derive(Clone, Debug)]
pub struct FeedsCheck {
    /// All flagged names, sorted and without repetition (the new baseline).
    pub set: Vec<String>,
    /// The flagged names missing from the baseline, sorted.
    pub new_malware: Vec<String>,
    /// For each new name, its campaigns joined with `", "`.
    pub reasons: Vec<String>,
    /// Whether `set` is saved as the baseline.
    pub save: bool,
}

/// The campaigns of a name, joined with `", "` (empty when it is not listed).
pub open spec fn reasons_of(state: FeedState, name: Seq<char>) -> Seq<char> {
    match lookup(state.view_table(), name) {
        Some(c) => join(c, ", "@),
        None => Seq::empty(),
    }
}

/// The feed check after a refresh, against the stored baseline (whose
/// invalid names are ignored): the names flagged now and not before are
/// new; the baseline is saved when there are new names, and on the first
/// synchronisation.
pub fn plan_feeds_check(state: &FeedState, stored_baseline: &Vec<String>, had_baseline: bool) -> (r: FeedsCheck)
    ensures
        strictly_sorted(r.set.deep_view()),
        same_members(r.set.deep_view(), keys(state.view_table())),
        strictly_sorted(r.new_malware.deep_view()),
        forall|x: Seq<char>|
            #[trigger] r.new_malware.deep_view().contains(x) <==> (keys(state.view_table()).contains(x) && !(
            stored_baseline.deep_view().contains(x) && is_valid_name(x))),
        r.reasons@.len() == r.new_malware@.len(),
        forall|i: int|
            0 <= i < r.reasons@.len() ==> (#[trigger] r.reasons@[i])@ == reasons_of(
                *state,
                r.new_malware@[i]@,
            ),
        r.save == (r.new_malware@.len() > 0 || !had_baseline),
{
    let set = malware_set(state);
    let baseline = baseline_names(stored_baseline);
    let new = new_malware(&set, &baseline);
    let mut reasons: Vec<String> = Vec::new();
    for i in 0..new.len()
        invariant
            reasons@.len() == i,
            forall|j: int|
                0 <= j < i ==> (#[trigger] reasons@[j])@ == reasons_of(*state, new@[j]@),
    {
        let r = reasons_text(state, new[i].as_str());
        reasons.push(r);
    }
    assert forall|x: Seq<char>|
        #[trigger] new.deep_view().contains(x) <==> (keys(state.view_table()).contains(x) && !(
        stored_baseline.deep_view().contains(x) && is_valid_name(x))) by {
        assert(set.deep_view().contains(x) <==> keys(state.view_table()).contains(x));
        assert(baseline.deep_view().contains(x) <==> (stored_baseline.deep_view().contains(x)
            && is_valid_name(x)));
    }
    let save = baseline_needs_save(new.len(), had_baseline);
    FeedsCheck { set, new_malware: new, reasons, save }
}

/// Nothing is new the second time: once a check's names are saved as the
/// baseline, a check of the same feed brings no new names.
pub proof fn law_feeds_check_settles(
    t: crate::feeds::Table,
    set: Seq<Seq<char>>,
    next: Seq<Seq<char>>,
)
    requires
        same_members(set, keys(t)),
        forall|x: Seq<char>| #[trigger] set.contains(x) ==> is_valid_name(x),
        forall|x: Seq<char>|
            #[trigger] next.contains(x) <==> (keys(t).contains(x) && !(set.contains(x) && is_valid_name(x))),
    ensures
        next.len() == 0,
{
    if next.len() > 0 {
        let x = next[0];
        assert(next.contains(x));
        assert(keys(t).contains(x));
        assert(set.contains(x));
    }
}

} // verus!
