//! The metrics aggregator: counters and per-key tallies updated once per
//! completed or failed proxy attempt.
//!
//! The struct is a plain value; the process wraps it in its own mutual
//! exclusion so that concurrent requests serialize their updates. Every
//! update is specified against the mathematical [`MetricsModel`], and
//! [`lemma_metrics_totals`] states the aggregate law: any serialization of
//! `N` recorded requests leaves `total == N` and `success + fail == total`.

use vstd::prelude::*;
use vstd::pervasive::VecAdditionalExecFns;

use crate::bytes_util::{bytes_eq, copy_bytes};
use crate::ErrorKind;

verus! {

/// The mathematical shape of the aggregator.
#[verifier::ext_equal]
pub struct MetricsModel {
    pub total: int,
    pub success: int,
    pub fail: int,
    pub total_time: int,
    pub by_path: Map<Seq<u8>, int>,
    pub by_status: Map<u16, int>,
    pub sizes: Map<Seq<u8>, int>,
    pub slowest_ms: int,
    pub slowest_path: Seq<u8>,
    pub conn_errors: int,
    pub timeout_errors: int,
    pub dns_errors: int,
    pub by_env: Map<Seq<u8>, int>,
    pub start_ms: int,
}

/// The count a tally map holds for a key, zero when the key is absent.
pub open spec fn cnt<K>(m: Map<K, int>, k: K) -> int {
    if m.contains_key(k) {
        m[k]
    } else {
        0
    }
}

/// The tally map a byte-keyed association list denotes.
pub open spec fn assoc_view(s: Seq<(Vec<u8>, u64)>) -> Map<Seq<u8>, int>
    decreases s.len(),
{
    if s.len() == 0 {
        Map::empty()
    } else {
        assoc_view(s.drop_last()).insert(s.last().0@, s.last().1 as int)
    }
}

/// The tally map a status-keyed association list denotes.
pub open spec fn status_view(s: Seq<(u16, u64)>) -> Map<u16, int>
    decreases s.len(),
{
    if s.len() == 0 {
        Map::empty()
    } else {
        status_view(s.drop_last()).insert(s.last().0, s.last().1 as int)
    }
}

/// No two entries of a byte-keyed list share a key.
pub open spec fn distinct_keys(s: Seq<(Vec<u8>, u64)>) -> bool {
    forall|i: int, j: int| 0 <= i < j < s.len() ==> (#[trigger] s[i]).0@ != (#[trigger] s[j]).0@
}

/// No two entries of a status-keyed list share a key.
pub open spec fn distinct_status_keys(s: Seq<(u16, u64)>) -> bool {
    forall|i: int, j: int| 0 <= i < j < s.len() ==> (#[trigger] s[i]).0 != (#[trigger] s[j]).0
}

proof fn lemma_assoc_absent(s: Seq<(Vec<u8>, u64)>, k: Seq<u8>)
    requires
        forall|i: int| 0 <= i < s.len() ==> (#[trigger] s[i]).0@ != k,
    ensures
        !assoc_view(s).contains_key(k),
    decreases s.len(),
{
    if s.len() > 0 {
        assert(forall|i: int|
            0 <= i < s.drop_last().len() ==> (#[trigger] s.drop_last()[i]).0@ != k);
        lemma_assoc_absent(s.drop_last(), k);
    }
}

proof fn lemma_assoc_found(s: Seq<(Vec<u8>, u64)>, j: int)
    requires
        0 <= j < s.len(),
        distinct_keys(s),
    ensures
        assoc_view(s).contains_key(s[j].0@),
        assoc_view(s)[s[j].0@] == s[j].1 as int,
    decreases s.len(),
{
    if j == s.len() - 1 {
    } else {
        assert(forall|i1: int, j1: int|
            0 <= i1 < j1 < s.drop_last().len() ==> (#[trigger] s.drop_last()[i1]).0@ != (
            #[trigger] s.drop_last()[j1]).0@);
        lemma_assoc_found(s.drop_last(), j);
        assert(s.drop_last()[j] == s[j]);
        assert(s[j].0@ != s.last().0@);
    }
}

proof fn lemma_assoc_update(s: Seq<(Vec<u8>, u64)>, j: int, e: (Vec<u8>, u64))
    requires
        0 <= j < s.len(),
        distinct_keys(s),
        e.0@ == s[j].0@,
    ensures
        assoc_view(s.update(j, e)) =~= assoc_view(s).insert(e.0@, e.1 as int),
    decreases s.len(),
{
    let t = s.update(j, e);
    if j == s.len() - 1 {
        assert(t.drop_last() =~= s.drop_last());
        assert(t.last() == e);
    } else {
        assert(t.drop_last() =~= s.drop_last().update(j, e));
        assert(t.last() == s.last());
        assert(forall|i1: int, j1: int|
            0 <= i1 < j1 < s.drop_last().len() ==> (#[trigger] s.drop_last()[i1]).0@ != (
            #[trigger] s.drop_last()[j1]).0@);
        assert(s.drop_last()[j] == s[j]);
        lemma_assoc_update(s.drop_last(), j, e);
        assert(s.last().0@ != e.0@);
    }
}

proof fn lemma_status_absent(s: Seq<(u16, u64)>, k: u16)
    requires
        forall|i: int| 0 <= i < s.len() ==> (#[trigger] s[i]).0 != k,
    ensures
        !status_view(s).contains_key(k),
    decreases s.len(),
{
    if s.len() > 0 {
        assert(forall|i: int|
            0 <= i < s.drop_last().len() ==> (#[trigger] s.drop_last()[i]).0 != k);
        lemma_status_absent(s.drop_last(), k);
    }
}

proof fn lemma_status_found(s: Seq<(u16, u64)>, j: int)
    requires
        0 <= j < s.len(),
        distinct_status_keys(s),
    ensures
        status_view(s).contains_key(s[j].0),
        status_view(s)[s[j].0] == s[j].1 as int,
    decreases s.len(),
{
    if j == s.len() - 1 {
    } else {
        assert(forall|i1: int, j1: int|
            0 <= i1 < j1 < s.drop_last().len() ==> (#[trigger] s.drop_last()[i1]).0 != (
            #[trigger] s.drop_last()[j1]).0);
        lemma_status_found(s.drop_last(), j);
        assert(s.drop_last()[j] == s[j]);
        assert(s[j].0 != s.last().0);
    }
}

proof fn lemma_status_update(s: Seq<(u16, u64)>, j: int, e: (u16, u64))
    requires
        0 <= j < s.len(),
        distinct_status_keys(s),
        e.0 == s[j].0,
    ensures
        status_view(s.update(j, e)) =~= status_view(s).insert(e.0, e.1 as int),
    decreases s.len(),
{
    let t = s.update(j, e);
    if j == s.len() - 1 {
        assert(t.drop_last() =~= s.drop_last());
        assert(t.last() == e);
    } else {
        assert(t.drop_last() =~= s.drop_last().update(j, e));
        assert(t.last() == s.last());
        assert(forall|i1: int, j1: int|
            0 <= i1 < j1 < s.drop_last().len() ==> (#[trigger] s.drop_last()[i1]).0 != (
            #[trigger] s.drop_last()[j1]).0);
        assert(s.drop_last()[j] == s[j]);
        lemma_status_update(s.drop_last(), j, e);
        assert(s.last().0 != e.0);
    }
}

/// Adds one to the tally of `key`, introducing it at one when absent.
#[verifier::loop_isolation(false)]
fn bump_count(list: &mut Vec<(Vec<u8>, u64)>, key: &Vec<u8>, Ghost(bound): Ghost<u64>)
    requires
        distinct_keys(old(list)@),
        bound < u64::MAX,
        forall|i: int| 0 <= i < old(list)@.len() ==> (#[trigger] old(list)@[i]).1 <= bound,
    ensures
        distinct_keys(final(list)@),
        assoc_view(final(list)@) =~= assoc_view(old(list)@).insert(
            key@,
            cnt(assoc_view(old(list)@), key@) + 1,
        ),
        forall|i: int| 0 <= i < final(list)@.len() ==> (#[trigger] final(list)@[i]).1 <= bound + 1,
{
    let n = list.len();
    let mut j: usize = 0;
    while j < n
        invariant
            n == list@.len(),
            j <= n,
            *list == *old(list),
            forall|i: int| 0 <= i < j ==> (#[trigger] list@[i]).0@ != key@,
        decreases n - j,
    {
        if bytes_eq(&list[j].0, key) {
            let v = list[j].1;
            let k = copy_bytes(&list[j].0);
            proof {
                lemma_assoc_found(list@, j as int);
                lemma_assoc_update(list@, j as int, ((k, (v + 1) as u64)));
            }
            list.set(j, (k, v + 1));
            assert(forall|i: int|
                0 <= i < list@.len() && i != j ==> (#[trigger] list@[i]) == old(list)@[i]);
            return ;
        }
        j = j + 1;
    }
    proof {
        lemma_assoc_absent(list@, key@);
    }
    let k = copy_bytes(key);
    list.push((k, 1));
    proof {
        assert(list@.drop_last() =~= old(list)@);
        assert(forall|i: int| 0 <= i < old(list)@.len() ==> #[trigger] list@[i] == old(list)@[i]);
    }
}

/// Adds one to the tally of `status`, introducing it at one when absent.
#[verifier::loop_isolation(false)]
fn bump_status(list: &mut Vec<(u16, u64)>, status: u16, Ghost(bound): Ghost<u64>)
    requires
        distinct_status_keys(old(list)@),
        bound < u64::MAX,
        forall|i: int| 0 <= i < old(list)@.len() ==> (#[trigger] old(list)@[i]).1 <= bound,
    ensures
        distinct_status_keys(final(list)@),
        status_view(final(list)@) =~= status_view(old(list)@).insert(
            status,
            cnt(status_view(old(list)@), status) + 1,
        ),
        forall|i: int| 0 <= i < final(list)@.len() ==> (#[trigger] final(list)@[i]).1 <= bound + 1,
{
    let n = list.len();
    let mut j: usize = 0;
    while j < n
        invariant
            n == list@.len(),
            j <= n,
            *list == *old(list),
            forall|i: int| 0 <= i < j ==> (#[trigger] list@[i]).0 != status,
        decreases n - j,
    {
        if list[j].0 == status {
            let v = list[j].1;
            proof {
                lemma_status_found(list@, j as int);
                lemma_status_update(list@, j as int, ((status, (v + 1) as u64)));
            }
            list.set(j, (status, v + 1));
            assert(forall|i: int|
                0 <= i < list@.len() && i != j ==> (#[trigger] list@[i]) == old(list)@[i]);
            return ;
        }
        j = j + 1;
    }
    proof {
        lemma_status_absent(list@, status);
    }
    list.push((status, 1));
    proof {
        assert(list@.drop_last() =~= old(list)@);
        assert(forall|i: int| 0 <= i < old(list)@.len() ==> #[trigger] list@[i] == old(list)@[i]);
    }
}

/// Overwrites the value stored for `key`, introducing it when absent.
#[verifier::loop_isolation(false)]
fn set_assoc(list: &mut Vec<(Vec<u8>, u64)>, key: &Vec<u8>, value: u64)
    requires
        distinct_keys(old(list)@),
    ensures
        distinct_keys(final(list)@),
        assoc_view(final(list)@) =~= assoc_view(old(list)@).insert(key@, value as int),
{
    let n = list.len();
    let mut j: usize = 0;
    while j < n
        invariant
            n == list@.len(),
            j <= n,
            *list == *old(list),
            forall|i: int| 0 <= i < j ==> (#[trigger] list@[i]).0@ != key@,
        decreases n - j,
    {
        if bytes_eq(&list[j].0, key) {
            let k = copy_bytes(&list[j].0);
            proof {
                lemma_assoc_update(list@, j as int, ((k, value)));
            }
            list.set(j, (k, value));
            assert(forall|i: int|
                0 <= i < list@.len() && i != j ==> (#[trigger] list@[i]) == old(list)@[i]);
            return ;
        }
        j = j + 1;
    }
    proof {
        lemma_assoc_absent(list@, key@);
    }
    let k = copy_bytes(key);
    list.push((k, value));
    proof {
        assert(list@.drop_last() =~= old(list)@);
        assert(forall|i: int| 0 <= i < old(list)@.len() ==> #[trigger] list@[i] == old(list)@[i]);
    }
}

/// Metrics tracked for the proxy: totals, per-path, per-environment and
/// per-status tallies, last-seen response sizes, the slowest request, and
/// error-kind counters.
pub struct RequestMetrics {
    pub total_requests: u64,
    pub successful_requests: u64,
    pub failed_requests: u64,
    pub total_request_time_ms: u64,
    pub requests_by_path: Vec<(Vec<u8>, u64)>,
    pub requests_by_status: Vec<(u16, u64)>,
    pub response_sizes: Vec<(Vec<u8>, u64)>,
    pub slowest_request_time_ms: u64,
    pub slowest_request_path: Vec<u8>,
    pub connection_errors: u64,
    pub timeout_errors: u64,
    pub dns_errors: u64,
    pub env_requests: Vec<(Vec<u8>, u64)>,
    pub start_time_ms: u64,
}

impl View for RequestMetrics {
    type V = MetricsModel;

    open spec fn view(&self) -> MetricsModel {
        MetricsModel {
            total: self.total_requests as int,
            success: self.successful_requests as int,
            fail: self.failed_requests as int,
            total_time: self.total_request_time_ms as int,
            by_path: assoc_view(self.requests_by_path@),
            by_status: status_view(self.requests_by_status@),
            sizes: assoc_view(self.response_sizes@),
            slowest_ms: self.slowest_request_time_ms as int,
            slowest_path: self.slowest_request_path@,
            conn_errors: self.connection_errors as int,
            timeout_errors: self.timeout_errors as int,
            dns_errors: self.dns_errors as int,
            by_env: assoc_view(self.env_requests@),
            start_ms: self.start_time_ms as int,
        }
    }
}

/// A status in the success range: at least 200 and below 400.
pub open spec fn is_success_status(status: u16) -> bool {
    200 <= status < 400
}

/// One recorded request, in its effect on the model: per-key tallies bumped,
/// the size for the path overwritten, totals advanced, and the slowest pair
/// replaced only on a strictly longer duration.
pub open spec fn spec_record(
    m: MetricsModel,
    path: Seq<u8>,
    env: Seq<u8>,
    status: u16,
    duration_ms: int,
    response_size: int,
) -> MetricsModel {
    MetricsModel {
        total: m.total + 1,
        success: m.success + if is_success_status(status) {
            1int
        } else {
            0int
        },
        fail: m.fail + if is_success_status(status) {
            0int
        } else {
            1int
        },
        total_time: m.total_time + duration_ms,
        by_path: m.by_path.insert(path, cnt(m.by_path, path) + 1),
        by_status: m.by_status.insert(status, cnt(m.by_status, status) + 1),
        sizes: m.sizes.insert(path, response_size),
        slowest_ms: if duration_ms > m.slowest_ms {
            duration_ms
        } else {
            m.slowest_ms
        },
        slowest_path: if duration_ms > m.slowest_ms {
            path
        } else {
            m.slowest_path
        },
        by_env: m.by_env.insert(env, cnt(m.by_env, env) + 1),
        ..m
    }
}

/// One recorded error, in its effect on the model: exactly the counter of a
/// recognized kind advances; `Other` changes nothing.
pub open spec fn spec_record_error(m: MetricsModel, kind: ErrorKind) -> MetricsModel {
    match kind {
        ErrorKind::Connection => MetricsModel { conn_errors: m.conn_errors + 1, ..m },
        ErrorKind::Timeout => MetricsModel { timeout_errors: m.timeout_errors + 1, ..m },
        ErrorKind::Dns => MetricsModel { dns_errors: m.dns_errors + 1, ..m },
        ErrorKind::Other => m,
    }
}

impl RequestMetrics {
    /// Internal consistency: successes and failures partition the total, the
    /// association lists hold each key once, and no tally exceeds the total.
    pub open spec fn wf(self) -> bool {
        &&& self.successful_requests + self.failed_requests == self.total_requests
        &&& distinct_keys(self.requests_by_path@)
        &&& distinct_keys(self.response_sizes@)
        &&& distinct_keys(self.env_requests@)
        &&& distinct_status_keys(self.requests_by_status@)
        &&& forall|i: int|
            0 <= i < self.requests_by_path@.len() ==> (#[trigger] self.requests_by_path@[i]).1
                <= self.total_requests
        &&& forall|i: int|
            0 <= i < self.env_requests@.len() ==> (#[trigger] self.env_requests@[i]).1
                <= self.total_requests
        &&& forall|i: int|
            0 <= i < self.requests_by_status@.len() ==> (#[trigger] self.requests_by_status@[i]).1
                <= self.total_requests
    }

    /// A fresh aggregator, counting from a process start timestamp.
    pub fn new(start_time_ms: u64) -> (r: RequestMetrics)
        ensures
            r.wf(),
            r@ == (MetricsModel {
                total: 0,
                success: 0,
                fail: 0,
                total_time: 0,
                by_path: Map::empty(),
                by_status: Map::empty(),
                sizes: Map::empty(),
                slowest_ms: 0,
                slowest_path: Seq::empty(),
                conn_errors: 0,
                timeout_errors: 0,
                dns_errors: 0,
                by_env: Map::empty(),
                start_ms: start_time_ms as int,
            }),
    {
        let r = RequestMetrics {
            total_requests: 0,
            successful_requests: 0,
            failed_requests: 0,
            total_request_time_ms: 0,
            requests_by_path: Vec::new(),
            requests_by_status: Vec::new(),
            response_sizes: Vec::new(),
            slowest_request_time_ms: 0,
            slowest_request_path: Vec::new(),
            connection_errors: 0,
            timeout_errors: 0,
            dns_errors: 0,
            env_requests: Vec::new(),
            start_time_ms,
        };
        proof {
            assert(r@ =~= (MetricsModel {
                total: 0,
                success: 0,
                fail: 0,
                total_time: 0,
                by_path: Map::empty(),
                by_status: Map::empty(),
                sizes: Map::empty(),
                slowest_ms: 0,
                slowest_path: Seq::empty(),
                conn_errors: 0,
                timeout_errors: 0,
                dns_errors: 0,
                by_env: Map::empty(),
                start_ms: start_time_ms as int,
            }));
        }
        r
    }

    /// Whether the aggregator is all zeroes and empty tallies, counting from
    /// timestamp zero.
    pub open spec fn is_initial(self) -> bool {
        self@ == (MetricsModel {
            total: 0,
            success: 0,
            fail: 0,
            total_time: 0,
            by_path: Map::empty(),
            by_status: Map::empty(),
            sizes: Map::empty(),
            slowest_ms: 0,
            slowest_path: Seq::empty(),
            conn_errors: 0,
            timeout_errors: 0,
            dns_errors: 0,
            by_env: Map::empty(),
            start_ms: 0,
        })
    }

    /// Records one completed attempt: bumps the total and the per-path,
    /// per-environment and per-status tallies, counts it a success exactly
    /// when the status is in the success range, overwrites the last-seen
    /// response size for the path, adds the duration, and keeps the earliest
    /// slowest request on ties.
    pub fn record_request(
        &mut self,
        path: &Vec<u8>,
        env: &Vec<u8>,
        status: u16,
        duration_ms: u64,
        response_size: u64,
    )
        requires
            old(self).wf(),
            old(self).total_requests < u64::MAX,
            old(self).total_request_time_ms + duration_ms <= u64::MAX,
        ensures
            final(self).wf(),
            final(self)@ == spec_record(
                old(self)@,
                path@,
                env@,
                status,
                duration_ms as int,
                response_size as int,
            ),
    {
        let ghost bound = self.total_requests;
        self.total_requests = self.total_requests + 1;
        bump_count(&mut self.requests_by_path, path, Ghost(bound));
        bump_count(&mut self.env_requests, env, Ghost(bound));
        bump_status(&mut self.requests_by_status, status, Ghost(bound));
        set_assoc(&mut self.response_sizes, path, response_size);
        if status >= 200 && status < 400 {
            self.successful_requests = self.successful_requests + 1;
        } else {
            self.failed_requests = self.failed_requests + 1;
        }
        self.total_request_time_ms = self.total_request_time_ms + duration_ms;
        if duration_ms > self.slowest_request_time_ms {
            self.slowest_request_time_ms = duration_ms;
            self.slowest_request_path = copy_bytes(path);
        }
        proof {
            assert(self@ =~= spec_record(
                old(self)@,
                path@,
                env@,
                status,
                duration_ms as int,
                response_size as int,
            ));
        }
    }

    /// Counts one transport failure of a recognized kind; an `Other` failure
    /// changes nothing.
    pub fn record_error(&mut self, kind: &ErrorKind)
        requires
            old(self).connection_errors < u64::MAX,
            old(self).timeout_errors < u64::MAX,
            old(self).dns_errors < u64::MAX,
        ensures
            final(self)@ == spec_record_error(old(self)@, *kind),
            final(self).wf() == old(self).wf(),
    {
        match kind {
            ErrorKind::Connection => {
                self.connection_errors = self.connection_errors + 1;
            },
            ErrorKind::Timeout => {
                self.timeout_errors = self.timeout_errors + 1;
            },
            ErrorKind::Dns => {
                self.dns_errors = self.dns_errors + 1;
            },
            ErrorKind::Other => {},
        }
        proof {
            assert(self@ =~= spec_record_error(old(self)@, *kind));
        }
    }

    /// The average duration in whole milliseconds, undefined while nothing
    /// was recorded.
    pub fn average_request_time_ms(&self) -> (r: Option<u64>)
        ensures
            self.total_requests == 0 ==> r is None,
            self.total_requests > 0 ==> r == Some(
                (self.total_request_time_ms / self.total_requests) as u64,
            ),
    {
        if self.total_requests == 0 {
            None
        } else {
            Some(self.total_request_time_ms / self.total_requests)
        }
    }
}

impl Default for RequestMetrics {
    /// The zero aggregator; the process start timestamp is supplied
    /// separately through [`RequestMetrics::new`].
    fn default() -> (r: RequestMetrics)
        ensures
            r.wf(),
            r.is_initial(),
    {
        RequestMetrics::new(0)
    }
}

/// Uptime decomposed into whole days, hours, minutes and seconds.
pub fn decompose_uptime(uptime_secs: u64) -> (r: (u64, u64, u64, u64))
    ensures
        r.0 == uptime_secs / 86400,
        r.1 == (uptime_secs % 86400) / 3600,
        r.2 == (uptime_secs % 3600) / 60,
        r.3 == uptime_secs % 60,
{
    (uptime_secs / 86400, (uptime_secs % 86400) / 3600, (uptime_secs % 3600) / 60, uptime_secs % 60)
}

/// One request as the aggregator sees it.
pub struct ReqEvent {
    pub path: Seq<u8>,
    pub env: Seq<u8>,
    pub status: u16,
    pub duration_ms: int,
    pub response_size: int,
}

/// The model after a sequence of recorded requests, applied in order.
pub open spec fn apply_all(m: MetricsModel, s: Seq<ReqEvent>) -> MetricsModel
    decreases s.len(),
{
    if s.len() == 0 {
        m
    } else {
        spec_record(
            apply_all(m, s.drop_last()),
            s.last().path,
            s.last().env,
            s.last().status,
            s.last().duration_ms,
            s.last().response_size,
        )
    }
}

/// After `n` recorded requests, in whatever order their updates were
/// serialized, the total is exactly `n` and successes and failures partition
/// it: no update is lost.
pub proof fn lemma_metrics_totals(m: MetricsModel, s: Seq<ReqEvent>)
    requires
        m.success + m.fail == m.total,
    ensures
        apply_all(m, s).total == m.total + s.len(),
        apply_all(m, s).success + apply_all(m, s).fail == apply_all(m, s).total,
    decreases s.len(),
{
    if s.len() > 0 {
        lemma_metrics_totals(m, s.drop_last());
    }
}

} // verus!
