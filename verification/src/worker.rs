//! The worker: it gathers resolved addresses, leaves out what the router has
//! already, sends the rest in chunks, and remembers what the router confirmed.

use crate::mikrotik_api::{AddOutcome, ApiError, PipelineEntry};
use crate::plugin::ResolvedJob;
use crate::smartdns::DNS_T_A;
use vstd::prelude::*;
use vstd::string::*;

verus! {

/// The router's path for address lists of IPv4 addresses.
pub const IPV4_PATH: &'static str = "/ip/firewall/address-list";

/// The router's path for address lists of IPv6 addresses.
pub const IPV6_PATH: &'static str = "/ipv6/firewall/address-list";

/// How long jobs are gathered before they are sent, in milliseconds.
pub const FLUSH_INTERVAL_MS: u64 = 200;

/// The most entries that are sent at once.
pub const PIPELINE_SIZE: usize = 64;

/// The first delay before connecting again, in seconds.
pub const RECONNECT_MIN_DELAY_SECS: u64 = 1;

/// The longest delay before connecting again, in seconds.
pub const RECONNECT_MAX_DELAY_SECS: u64 = 30;

/// The least time to live of an entry, in seconds. One with less would expire
/// almost at once.
pub const MIN_TTL_SECS: u32 = 3;

/// The most entries that are remembered.
pub const CACHE_LIMIT: usize = 100_000;

/// What an entry is known by: its list and its address.
pub type Key = (Seq<char>, Seq<char>);

/// The index of the first `key`, or the length of `keys` where there is none.
pub open spec fn key_position(keys: Seq<Key>, key: Key) -> int
    decreases keys.len(),
{
    if keys.len() == 0 || keys[0] == key {
        0
    } else {
        1 + key_position(keys.skip(1), key)
    }
}

/// What `key_position` finds: no earlier `key` exists.
pub proof fn lemma_key_position(keys: Seq<Key>, key: Key)
    ensures
        0 <= key_position(keys, key) <= keys.len(),
        key_position(keys, key) < keys.len() ==> keys[key_position(keys, key)] == key,
        forall|i: int| 0 <= i < key_position(keys, key) ==> keys[i] != key,
    decreases keys.len(),
{
    if keys.len() > 0 && keys[0] != key {
        let rest = keys.skip(1);
        lemma_key_position(rest, key);
        assert forall|i: int| 0 <= i < key_position(keys, key) implies keys[i] != key by {
            if i > 0 {
                assert(rest[i - 1] != key);
            }
        }
    }
}

/// An index that holds `key`, or the end, with no `key` before it, is the first
/// position.
proof fn lemma_key_position_is(keys: Seq<Key>, key: Key, at: int)
    requires
        0 <= at <= keys.len(),
        at < keys.len() ==> keys[at] == key,
        forall|i: int| 0 <= i < at ==> keys[i] != key,
    ensures
        key_position(keys, key) == at,
{
    lemma_key_position(keys, key);
}

/// An address that a query resolved to.
#[verifier::ext_equal]
pub struct JobView {
    pub group: Seq<char>,
    pub ip: Seq<char>,
    pub ttl: u32,
    pub qtype: i32,
    pub domain: Seq<char>,
}

impl JobView {
    /// What the entry of the job is known by.
    pub open spec fn key(self) -> Key {
        (self.group, self.ip)
    }

    /// The router's path for the job's list.
    pub open spec fn path(self) -> Seq<char> {
        if self.qtype == DNS_T_A {
            IPV4_PATH@
        } else {
            IPV6_PATH@
        }
    }
}

impl View for ResolvedJob {
    type V = JobView;

    open spec fn view(&self) -> JobView {
        JobView {
            group: self.group@,
            ip: self.ip@,
            ttl: self.ttl,
            qtype: self.qtype,
            domain: self.domain@,
        }
    }
}

/// The jobs of a list.
pub open spec fn jobs_view(jobs: Seq<ResolvedJob>) -> Seq<JobView> {
    jobs.map_values(|job: ResolvedJob| job@)
}

/// The keys of jobs.
pub open spec fn job_keys(jobs: Seq<JobView>) -> Seq<Key> {
    jobs.map_values(|job: JobView| job.key())
}

/// A batch with one more job. A job for an entry that the batch holds already
/// replaces the time to live and the domain where its time to live is longer.
pub open spec fn merged(batch: Seq<JobView>, job: JobView) -> Seq<JobView> {
    let i = key_position(job_keys(batch), job.key());
    if i == batch.len() {
        batch.push(job)
    } else if job.ttl > batch[i].ttl {
        batch.update(i, JobView { ttl: job.ttl, domain: job.domain, ..batch[i] })
    } else {
        batch
    }
}

/// The batch that jobs make.
pub open spec fn batch_of(jobs: Seq<JobView>) -> Seq<JobView>
    decreases jobs.len(),
{
    if jobs.len() == 0 {
        Seq::empty()
    } else {
        merged(batch_of(jobs.drop_last()), jobs.last())
    }
}

/// Adds a job to a batch.
fn merge(batch: &mut Vec<ResolvedJob>, job: ResolvedJob)
    ensures
        jobs_view(final(batch)@) == merged(jobs_view(old(batch)@), job@),
{
    let ghost before = jobs_view(batch@);
    let ghost keys = job_keys(before);
    let ghost added = job@;
    let mut i: usize = 0;
    while i < batch.len()
        invariant
            i <= batch@.len(),
            before == jobs_view(batch@),
            keys == job_keys(before),
            added == job@,
            *batch == *old(batch),
            forall|j: int| 0 <= j < i ==> #[trigger] keys[j] != added.key(),
        decreases batch@.len() - i,
    {
        assert(keys[i as int] == before[i as int].key());
        assert(before[i as int] == batch@[i as int]@);
        if batch[i].group == job.group && batch[i].ip == job.ip {
            proof {
                lemma_key_position_is(keys, added.key(), i as int);
            }
            if job.ttl > batch[i].ttl {
                batch[i].ttl = job.ttl;
                batch[i].domain = job.domain;
                assert(jobs_view(batch@) =~= merged(before, added));
            }
            return;
        }
        i += 1;
    }
    proof {
        lemma_key_position_is(keys, added.key(), i as int);
    }
    batch.push(job);
    assert(jobs_view(batch@) =~= merged(before, added));
}

/// An entry that the router confirmed: its time to live, and when it was added,
/// in nanoseconds of the worker's clock.
pub struct CacheLine {
    group: String,
    ip: String,
    ttl: u32,
    added_at: u64,
}

/// An entry that the router confirmed.
#[verifier::ext_equal]
pub struct LineView {
    pub key: Key,
    pub ttl: u32,
    pub added_at: u64,
}

impl View for CacheLine {
    type V = LineView;

    closed spec fn view(&self) -> LineView {
        LineView { key: (self.group@, self.ip@), ttl: self.ttl, added_at: self.added_at }
    }
}

/// The lines of a cache.
pub open spec fn lines_view(lines: Seq<CacheLine>) -> Seq<LineView> {
    lines.map_values(|line: CacheLine| line@)
}

/// The keys of lines.
pub open spec fn line_keys(lines: Seq<LineView>) -> Seq<Key> {
    lines.map_values(|line: LineView| line.key)
}

/// The whole seconds from `added_at` to `now`, counted modulo 2 to the power 32.
pub open spec fn elapsed(added_at: u64, now: u64) -> int {
    if now > added_at {
        ((now - added_at) / 1_000_000_000) % 0x1_0000_0000
    } else {
        0
    }
}

impl LineView {
    /// The seconds that the router keeps the entry from `now` on.
    pub open spec fn remaining(self, now: u64) -> int {
        if self.ttl > elapsed(self.added_at, now) {
            self.ttl - elapsed(self.added_at, now)
        } else {
            0
        }
    }
}

/// What a cache holds for `key`.
pub open spec fn cached(lines: Seq<LineView>, key: Key) -> Option<LineView> {
    let i = key_position(line_keys(lines), key);
    if i == lines.len() {
        None
    } else {
        Some(lines[i])
    }
}

/// A cache in which `line` stands for its key.
pub open spec fn remembered(lines: Seq<LineView>, line: LineView) -> Seq<LineView> {
    let i = key_position(line_keys(lines), line.key);
    if i == lines.len() {
        lines.push(line)
    } else {
        lines.update(i, line)
    }
}

/// The entries of a cache that the router still keeps at `now`.
pub open spec fn unexpired(lines: Seq<LineView>, now: u64) -> Seq<LineView> {
    lines.filter(|line: LineView| line.remaining(now) > 0)
}

/// Whether an entry is due: its time to live is long enough, and longer than what
/// the router keeps of it.
pub open spec fn is_due(job: JobView, lines: Seq<LineView>, now: u64) -> bool {
    &&& job.ttl >= MIN_TTL_SECS
    &&& cached(lines, job.key()) matches Some(line) ==> line.remaining(now) < job.ttl
}

/// The seconds that the router keeps an entry with `ttl`, added at `added_at`,
/// from `now` on.
fn remaining(ttl: u32, added_at: u64, now: u64) -> (secs: u32)
    ensures
        forall|key: Key|
            secs == (#[trigger] LineView { key, ttl, added_at }.remaining(now)),
{
    let secs: u64 = now.saturating_sub(added_at) / 1_000_000_000;
    assert(secs as u32 == secs % 0x1_0000_0000) by (bit_vector);
    ttl.saturating_sub(secs as u32)
}

/// Filtering a row with one more item at its end.
proof fn lemma_filter_push<A>(s: Seq<A>, item: A, keep: spec_fn(A) -> bool)
    ensures
        s.push(item).filter(keep) == (if keep(item) {
            s.filter(keep).push(item)
        } else {
            s.filter(keep)
        }),
{
    reveal(Seq::filter);
    assert(s.push(item).drop_last() =~= s);
}

/// The index of the line of an entry, or the number of lines where there is none.
fn find_line(lines: &Vec<CacheLine>, group: &String, ip: &String) -> (at: usize)
    ensures
        at == key_position(line_keys(lines_view(lines@)), (group@, ip@)),
{
    let ghost keys = line_keys(lines_view(lines@));
    let mut i: usize = 0;
    while i < lines.len()
        invariant
            i <= lines@.len(),
            keys == line_keys(lines_view(lines@)),
            forall|j: int| 0 <= j < i ==> #[trigger] keys[j] != (group@, ip@),
        decreases lines@.len() - i,
    {
        assert(keys[i as int] == lines@[i as int]@.key);
        if lines[i].group == *group && lines[i].ip == *ip {
            proof {
                lemma_key_position_is(keys, (group@, ip@), i as int);
            }
            return i;
        }
        i += 1;
    }
    proof {
        lemma_key_position_is(keys, (group@, ip@), i as int);
    }
    i
}

/// Remembers an entry that the router confirmed.
fn remember(lines: &mut Vec<CacheLine>, group: String, ip: String, ttl: u32, added_at: u64)
    ensures
        lines_view(final(lines)@) == remembered(
            lines_view(old(lines)@),
            LineView { key: (group@, ip@), ttl, added_at },
        ),
{
    let ghost before = lines_view(lines@);
    let ghost line = LineView { key: (group@, ip@), ttl, added_at };
    let at = find_line(lines, &group, &ip);
    proof {
        lemma_key_position(line_keys(before), line.key);
    }
    if at < lines.len() {
        lines.set(at, CacheLine { group, ip, ttl, added_at });
    } else {
        lines.push(CacheLine { group, ip, ttl, added_at });
    }
    assert(lines_view(lines@) =~= remembered(before, line));
}

/// Leaves out the entries that the router does not keep any longer.
fn evict(lines: Vec<CacheLine>, now: u64) -> (kept: Vec<CacheLine>)
    ensures
        lines_view(kept@) == unexpired(lines_view(lines@), now),
{
    let ghost all = lines@;
    let ghost keep = |line: LineView| line.remaining(now) > 0;
    let mut kept: Vec<CacheLine> = Vec::new();
    proof {
        reveal(Seq::filter);
        assert(lines_view(kept@) =~= lines_view(all.take(0)).filter(keep));
    }
    for line in it: lines
        invariant
            it.seq() == all,
            keep == (|line: LineView| line.remaining(now) > 0),
            lines_view(kept@) == lines_view(all.take(it.index() as int)).filter(keep),
    {
        let ghost before = kept@;
        let ghost i = it.index() as int;
        proof {
            assert(line == all[i]);
            assert(lines_view(all.take(i + 1)) =~= lines_view(all.take(i)).push(line@));
            lemma_filter_push(lines_view(all.take(i)), line@, keep);
            assert(line@ == (LineView { key: line@.key, ttl: line.ttl, added_at: line.added_at }));
        }
        if remaining(line.ttl, line.added_at, now) > 0 {
            kept.push(line);
            assert(lines_view(kept@) =~= lines_view(before).push(line@));
        }
    }
    assert(all.take(all.len() as int) =~= all);
    kept
}

/// Leaves out the jobs whose entries are not due.
fn select_due(jobs: Vec<ResolvedJob>, lines: &Vec<CacheLine>, now: u64) -> (due: Vec<ResolvedJob>)
    ensures
        jobs_view(due@) == jobs_view(jobs@).filter(
            |job: JobView| is_due(job, lines_view(lines@), now),
        ),
{
    let ghost all = jobs@;
    let ghost known = lines_view(lines@);
    let ghost keep = |job: JobView| is_due(job, known, now);
    let mut due: Vec<ResolvedJob> = Vec::new();
    proof {
        reveal(Seq::filter);
        assert(jobs_view(due@) =~= jobs_view(all.take(0)).filter(keep));
    }
    for job in it: jobs
        invariant
            it.seq() == all,
            known == lines_view(lines@),
            keep == (|job: JobView| is_due(job, known, now)),
            jobs_view(due@) == jobs_view(all.take(it.index() as int)).filter(keep),
    {
        let ghost before = due@;
        let ghost i = it.index() as int;
        proof {
            assert(job == all[i]);
            assert(jobs_view(all.take(i + 1)) =~= jobs_view(all.take(i)).push(job@));
            lemma_filter_push(jobs_view(all.take(i)), job@, keep);
            lemma_key_position(line_keys(known), job@.key());
        }
        let at = find_line(lines, &job.group, &job.ip);
        let wanted = job.ttl >= MIN_TTL_SECS && (at == lines.len() || remaining(
            lines[at].ttl,
            lines[at].added_at,
            now,
        ) < job.ttl);
        proof {
            if at < lines@.len() {
                let line = lines@[at as int];
                assert(known[at as int] == line@);
                assert(line@ == (LineView {
                    key: line@.key,
                    ttl: line.ttl,
                    added_at: line.added_at,
                }));
            }
            assert(wanted == is_due(job@, known, now));
        }
        if wanted {
            due.push(job);
            assert(jobs_view(due@) =~= jobs_view(before).push(job@));
        }
    }
    assert(all.take(all.len() as int) =~= all);
    due
}

/// What the worker does next.
#[derive(Debug, Clone, Copy, PartialEq, Eq, Structural)]
pub enum Phase {
    /// It gathers jobs until the flush interval has passed.
    Collecting,
    /// It connects to the router.
    Connecting,
    /// It sends the next chunk of entries.
    Sending,
    /// It reads the clock, to remember what was confirmed.
    Settling,
    /// It waits this many seconds.
    Sleeping(u64),
    /// It ends.
    Stopped,
}

/// What came of the worker's last phase.
pub enum WorkerEvent {
    /// A job was taken from the queue.
    Job(ResolvedJob),
    /// The queue is closed.
    Closed,
    /// The flush interval has passed; the clock shows this time.
    Deadline(u64),
    /// The connection stands.
    Connected,
    /// The connection could not be made.
    ConnectFailed,
    /// The results of the chunk that was sent.
    Results(Vec<Result<AddOutcome, ApiError>>),
    /// The time to give to what was confirmed, and the time of the clock behind it.
    Clock(u64, u64),
    /// The wait is over.
    Slept,
}

/// The delay before the next try to connect, after one of `delay` seconds.
pub open spec fn longer_delay(delay: u64) -> u64 {
    if delay * 2 < RECONNECT_MAX_DELAY_SECS {
        (delay * 2) as u64
    } else {
        RECONNECT_MAX_DELAY_SECS
    }
}

/// The indices, counted from `base` on, of the first `count` results that are
/// not errors.
pub open spec fn confirmed_in(
    results: Seq<Result<AddOutcome, ApiError>>,
    count: nat,
    base: int,
) -> Seq<int>
    decreases count,
{
    if count == 0 {
        Seq::empty()
    } else {
        let before = confirmed_in(results, (count - 1) as nat, base);
        if results[count - 1] is Ok {
            before.push(base + count - 1)
        } else {
            before
        }
    }
}

/// A cache in which the entries at `indices` of what was sent are remembered.
pub open spec fn with_confirmed(
    lines: Seq<LineView>,
    sent: Seq<JobView>,
    indices: Seq<int>,
    added_at: u64,
) -> Seq<LineView>
    decreases indices.len(),
{
    if indices.len() == 0 {
        lines
    } else {
        let job = sent[indices.last()];
        remembered(
            with_confirmed(lines, sent, indices.drop_last(), added_at),
            LineView { key: job.key(), ttl: job.ttl, added_at },
        )
    }
}

/// The state of the worker.
#[verifier::ext_equal]
pub struct WorkerView {
    /// What it does next.
    pub phase: Phase,
    /// The jobs gathered since the last flush.
    pub batch: Seq<JobView>,
    /// The entries to send.
    pub outgoing: Seq<JobView>,
    /// How many of them were sent.
    pub next: int,
    /// The indices of those that the router confirmed.
    pub confirmed: Seq<int>,
    /// Whether one of them failed.
    pub failed: bool,
    /// What the router keeps, as far as the worker remembers.
    pub cache: Seq<LineView>,
    /// Whether the connection stands.
    pub connected: bool,
    /// The delay before the next try to connect.
    pub delay: u64,
    /// How many entries expired in the cache at the last flush.
    pub evicted: int,
}

impl WorkerView {
    /// A worker that has done nothing.
    pub open spec fn start() -> WorkerView {
        WorkerView {
            phase: Phase::Collecting,
            batch: Seq::empty(),
            outgoing: Seq::empty(),
            next: 0,
            confirmed: Seq::empty(),
            failed: false,
            cache: Seq::empty(),
            connected: false,
            delay: RECONNECT_MIN_DELAY_SECS,
            evicted: 0,
        }
    }

    /// The end of the next chunk.
    pub open spec fn chunk_end(self) -> int {
        if self.outgoing.len() - self.next > PIPELINE_SIZE {
            self.next + PIPELINE_SIZE
        } else {
            self.outgoing.len() as int
        }
    }

    /// The jobs of the batch whose entries are due at `now`.
    pub open spec fn due(self, now: u64) -> Seq<JobView> {
        let cache = self.cache;
        self.batch.filter(|job: JobView| is_due(job, cache, now))
    }

    /// The flush interval has passed: what is due is sent, over a new connection
    /// where none stands.
    pub open spec fn flushed(self, now: u64) -> WorkerView {
        let due = self.due(now);
        WorkerView {
            phase: if due.len() == 0 {
                Phase::Collecting
            } else if self.connected {
                Phase::Sending
            } else {
                Phase::Connecting
            },
            batch: Seq::empty(),
            outgoing: due,
            next: 0,
            confirmed: Seq::empty(),
            failed: false,
            ..self
        }
    }

    /// The connection stands. What is remembered may be stale, so it is forgotten.
    pub open spec fn reconnected(self) -> WorkerView {
        WorkerView {
            phase: Phase::Sending,
            cache: Seq::empty(),
            connected: true,
            delay: RECONNECT_MIN_DELAY_SECS,
            ..self
        }
    }

    /// The connection could not be made: the entries are dropped, and the next
    /// try waits longer.
    pub open spec fn backed_off(self) -> WorkerView {
        WorkerView {
            phase: Phase::Sleeping(self.delay),
            outgoing: Seq::empty(),
            delay: longer_delay(self.delay),
            ..self
        }
    }

    /// The results of the next chunk are there. An error ends the sending.
    pub open spec fn answered(self, results: Seq<Result<AddOutcome, ApiError>>) -> WorkerView {
        let end = self.chunk_end();
        let count = if results.len() < end - self.next {
            results.len()
        } else {
            (end - self.next) as nat
        };
        let failed = exists|i: int| 0 <= i < count && #[trigger] results[i] is Err;
        WorkerView {
            phase: if failed || end == self.outgoing.len() {
                Phase::Settling
            } else {
                Phase::Sending
            },
            next: end,
            confirmed: self.confirmed + confirmed_in(results, count, self.next),
            failed,
            ..self
        }
    }

    /// What the cache holds once the entries confirmed are remembered.
    pub open spec fn updated_cache(self, added_at: u64) -> Seq<LineView> {
        with_confirmed(self.cache, self.outgoing, self.confirmed, added_at)
    }

    /// The entries confirmed are remembered, those expired forgotten, and all of
    /// them where they are too many. After a failure the connection is given up,
    /// and the next try waits.
    pub open spec fn settled(self, added_at: u64, now: u64) -> WorkerView {
        let updated = self.updated_cache(added_at);
        let kept = unexpired(updated, now);
        WorkerView {
            phase: if self.failed {
                Phase::Sleeping(self.delay)
            } else {
                Phase::Collecting
            },
            outgoing: Seq::empty(),
            next: 0,
            confirmed: Seq::empty(),
            failed: false,
            cache: if kept.len() > CACHE_LIMIT {
                Seq::empty()
            } else {
                kept
            },
            connected: !self.failed,
            delay: if self.failed {
                longer_delay(self.delay)
            } else {
                RECONNECT_MIN_DELAY_SECS
            },
            evicted: updated.len() - kept.len(),
            ..self
        }
    }

    /// The state that follows on `event`. An event that the phase does not wait
    /// for changes nothing.
    pub open spec fn after(self, event: WorkerEvent) -> WorkerView {
        match (self.phase, event) {
            (Phase::Collecting, WorkerEvent::Job(job)) => WorkerView {
                batch: merged(self.batch, job@),
                ..self
            },
            (Phase::Collecting, WorkerEvent::Closed) => WorkerView {
                phase: Phase::Stopped,
                ..self
            },
            (Phase::Collecting, WorkerEvent::Deadline(now)) => self.flushed(now),
            (Phase::Connecting, WorkerEvent::Connected) => self.reconnected(),
            (Phase::Connecting, WorkerEvent::ConnectFailed) => self.backed_off(),
            (Phase::Sending, WorkerEvent::Results(results)) => self.answered(results@),
            (Phase::Settling, WorkerEvent::Clock(added_at, now)) => self.settled(added_at, now),
            (Phase::Sleeping(_), WorkerEvent::Slept) => WorkerView {
                phase: Phase::Collecting,
                ..self
            },
            _ => self,
        }
    }

    /// Whether the state can occur.
    pub open spec fn wf(self) -> bool {
        &&& job_keys(self.batch).no_duplicates()
        &&& job_keys(self.outgoing).no_duplicates()
        &&& line_keys(self.cache).no_duplicates()
        &&& self.cache.len() <= CACHE_LIMIT
        &&& RECONNECT_MIN_DELAY_SECS <= self.delay <= RECONNECT_MAX_DELAY_SECS
        &&& 0 <= self.next <= self.outgoing.len()
        &&& forall|i: int|
            0 <= i < self.confirmed.len() ==> 0 <= #[trigger] self.confirmed[i] < self.next
        &&& self.confirmed.no_duplicates()
        &&& forall|i: int|
            0 <= i < self.outgoing.len() ==> (#[trigger] self.outgoing[i]).ttl >= MIN_TTL_SECS
        &&& self.phase == Phase::Connecting ==> !self.connected && self.next == 0
            && self.outgoing.len() > 0
        &&& self.phase == Phase::Sending ==> self.connected && self.next < self.outgoing.len()
        &&& self.phase == Phase::Settling ==> self.connected
        &&& self.failed ==> self.phase == Phase::Settling
        &&& self.phase matches Phase::Sleeping(secs) ==> RECONNECT_MIN_DELAY_SECS <= secs
            <= RECONNECT_MAX_DELAY_SECS
    }
}

/// The worker, as a machine: the caller does what the phase says and hands back
/// what came of it.
pub struct Worker {
    phase: Phase,
    batch: Vec<ResolvedJob>,
    outgoing: Vec<ResolvedJob>,
    next: usize,
    confirmed: Vec<usize>,
    failed: bool,
    cache: Vec<CacheLine>,
    connected: bool,
    delay: u64,
    evicted: usize,
}

/// Indices as integers.
pub open spec fn indices_view(indices: Seq<usize>) -> Seq<int> {
    indices.map_values(|i: usize| i as int)
}

impl View for Worker {
    type V = WorkerView;

    closed spec fn view(&self) -> WorkerView {
        WorkerView {
            phase: self.phase,
            batch: jobs_view(self.batch@),
            outgoing: jobs_view(self.outgoing@),
            next: self.next as int,
            confirmed: indices_view(self.confirmed@),
            failed: self.failed,
            cache: lines_view(self.cache@),
            connected: self.connected,
            delay: self.delay,
            evicted: self.evicted as int,
        }
    }
}

/// Whether an entry that is to be sent is the one of a job: its path is that of
/// the job's record type, its list is the job's group, and its timeout is the
/// job's time to live.
pub open spec fn is_entry_of(entry: PipelineEntry, job: JobView) -> bool {
    &&& entry.ip_path@ == job.path()
    &&& entry.list@ == job.group
    &&& entry.address@ == job.ip
    &&& entry.domain@ == job.domain
    &&& entry.ttl == job.ttl
}

impl Worker {
    /// A worker that has done nothing.
    pub fn new() -> (worker: Self)
        ensures
            worker@ == WorkerView::start(),
            worker@.wf(),
    {
        let worker = Worker {
            phase: Phase::Collecting,
            batch: Vec::new(),
            outgoing: Vec::new(),
            next: 0,
            confirmed: Vec::new(),
            failed: false,
            cache: Vec::new(),
            connected: false,
            delay: RECONNECT_MIN_DELAY_SECS,
            evicted: 0,
        };
        assert(worker@ =~= WorkerView::start());
        worker
    }

    /// What the worker does next.
    pub fn phase(&self) -> (phase: Phase)
        ensures
            phase == self@.phase,
    {
        self.phase
    }

    /// How many entries expired in the cache at the last flush.
    pub fn evicted(&self) -> (count: usize)
        ensures
            count == self@.evicted,
    {
        self.evicted
    }

    /// The end of the next chunk.
    fn chunk_end(&self) -> (end: usize)
        requires
            self@.wf(),
        ensures
            end == self@.chunk_end(),
            self@.next <= end <= self@.outgoing.len(),
    {
        let len = self.outgoing.len();
        if len - self.next > PIPELINE_SIZE {
            self.next + PIPELINE_SIZE
        } else {
            len
        }
    }

    /// The entries of the next chunk.
    pub fn chunk(&self) -> (entries: Vec<PipelineEntry<'_>>)
        requires
            self@.wf(),
        ensures
            entries@.len() == self@.chunk_end() - self@.next,
            entries@.len() <= PIPELINE_SIZE,
            forall|i: int|
                0 <= i < entries@.len() ==> is_entry_of(
                    #[trigger] entries@[i],
                    self@.outgoing[self@.next + i],
                ) && entries@[i].ttl >= MIN_TTL_SECS,
    {
        let end = self.chunk_end();
        let mut entries: Vec<PipelineEntry<'_>> = Vec::new();
        let mut i: usize = self.next;
        while i < end
            invariant
                self@.wf(),
                self@.next <= i <= end <= self@.outgoing.len(),
                entries@.len() == i - self@.next,
                forall|j: int|
                    0 <= j < entries@.len() ==> is_entry_of(
                        #[trigger] entries@[j],
                        self@.outgoing[self@.next + j],
                    ) && entries@[j].ttl >= MIN_TTL_SECS,
            decreases end - i,
        {
            let job = &self.outgoing[i];
            let ip_path = if job.qtype == DNS_T_A {
                IPV4_PATH
            } else {
                IPV6_PATH
            };
            let entry = PipelineEntry {
                ip_path,
                list: job.group.as_str(),
                address: job.ip.as_str(),
                domain: job.domain.as_str(),
                ttl: job.ttl,
            };
            assert(is_entry_of(entry, self@.outgoing[i as int]));
            entries.push(entry);
            i += 1;
        }
        entries
    }

    /// The flush interval has passed.
    fn flush(&mut self, now: u64)
        requires
            old(self)@.phase == Phase::Collecting,
        ensures
            final(self)@ == old(self)@.flushed(now),
    {
        let ghost before = self@;
        let mut batch: Vec<ResolvedJob> = Vec::new();
        std::mem::swap(&mut batch, &mut self.batch);
        self.outgoing = select_due(batch, &self.cache, now);
        self.next = 0;
        self.confirmed = Vec::new();
        self.failed = false;
        if self.outgoing.len() == 0 {
            self.phase = Phase::Collecting;
        } else if self.connected {
            self.phase = Phase::Sending;
        } else {
            self.phase = Phase::Connecting;
        }
        assert(self@ =~= before.flushed(now));
    }

    /// The delay before the next try to connect grows.
    fn lengthen_delay(&mut self)
        requires
            old(self)@.delay <= RECONNECT_MAX_DELAY_SECS,
        ensures
            final(self)@ == (WorkerView { delay: longer_delay(old(self)@.delay), ..old(self)@ }),
    {
        if self.delay * 2 < RECONNECT_MAX_DELAY_SECS {
            self.delay = self.delay * 2;
        } else {
            self.delay = RECONNECT_MAX_DELAY_SECS;
        }
    }

    /// The results of the next chunk are there.
    fn take_results(&mut self, results: &Vec<Result<AddOutcome, ApiError>>)
        requires
            old(self)@.wf(),
            old(self)@.phase == Phase::Sending,
        ensures
            final(self)@ == old(self)@.answered(results@),
    {
        let ghost before = self@;
        let end = self.chunk_end();
        let base = self.next;
        let count: usize = if results.len() < end - base {
            results.len()
        } else {
            end - base
        };
        let mut failed: bool = false;
        let mut i: usize = 0;
        assert(indices_view(self.confirmed@) =~= before.confirmed + confirmed_in(
            results@,
            0,
            base as int,
        ));
        while i < count
            invariant
                i <= count <= results@.len(),
                base + count <= usize::MAX,
                base == before.next,
                indices_view(self.confirmed@) == before.confirmed + confirmed_in(
                    results@,
                    i as nat,
                    base as int,
                ),
                failed == exists|j: int| 0 <= j < i && #[trigger] results@[j] is Err,
                self@ == (WorkerView { confirmed: self@.confirmed, ..before }),
            decreases count - i,
        {
            let ghost kept = self.confirmed@;
            match &results[i] {
                Ok(_) => {
                    self.confirmed.push(base + i);
                    assert(indices_view(self.confirmed@) =~= indices_view(kept).push(base + i));
                },
                Err(_) => {
                    failed = true;
                },
            }
            i += 1;
            assert(indices_view(self.confirmed@) =~= before.confirmed + confirmed_in(
                results@,
                i as nat,
                base as int,
            ));
        }
        self.next = end;
        self.failed = failed;
        if failed || end == self.outgoing.len() {
            self.phase = Phase::Settling;
        }
        assert(self@ =~= before.answered(results@));
    }

    /// Remembers what was confirmed.
    fn remember_confirmed(&mut self, added_at: u64)
        requires
            old(self)@.wf(),
        ensures
            final(self)@ == (WorkerView { cache: old(self)@.updated_cache(added_at), ..old(self)@ }),
    {
        let ghost before = self@;
        let mut i: usize = 0;
        assert(before.confirmed.take(0) =~= Seq::<int>::empty());
        while i < self.confirmed.len()
            invariant
                i <= before.confirmed.len(),
                before.wf(),
                self@ == (WorkerView { cache: self@.cache, ..before }),
                self@.cache == with_confirmed(
                    before.cache,
                    before.outgoing,
                    before.confirmed.take(i as int),
                    added_at,
                ),
            decreases before.confirmed.len() - i,
        {
            let at = self.confirmed[i];
            assert(before.confirmed[i as int] == at);
            let ghost job = before.outgoing[at as int];
            assert(self.outgoing@[at as int]@ == job);
            let group = self.outgoing[at].group.clone();
            let ip = self.outgoing[at].ip.clone();
            let ttl = self.outgoing[at].ttl;
            remember(&mut self.cache, group, ip, ttl, added_at);
            i += 1;
            assert(before.confirmed.take(i as int).drop_last() =~= before.confirmed.take(i - 1));
        }
        assert(before.confirmed.take(i as int) =~= before.confirmed);
    }

    /// What was confirmed is remembered, and what expired forgotten.
    fn settle(&mut self, added_at: u64, now: u64)
        requires
            old(self)@.wf(),
            old(self)@.phase == Phase::Settling,
        ensures
            final(self)@ == old(self)@.settled(added_at, now),
    {
        let ghost before = self@;
        self.remember_confirmed(added_at);
        let ghost updated = self@.cache;
        let known = self.cache.len();
        let mut lines: Vec<CacheLine> = Vec::new();
        std::mem::swap(&mut lines, &mut self.cache);
        let kept = evict(lines, now);
        proof {
            updated.lemma_filter_len(|line: LineView| line.remaining(now) > 0);
        }
        self.evicted = known - kept.len();
        if kept.len() > CACHE_LIMIT {
            self.cache = Vec::new();
        } else {
            self.cache = kept;
        }
        self.outgoing = Vec::new();
        self.next = 0;
        self.confirmed = Vec::new();
        if self.failed {
            self.failed = false;
            self.connected = false;
            self.phase = Phase::Sleeping(self.delay);
            self.lengthen_delay();
        } else {
            self.delay = RECONNECT_MIN_DELAY_SECS;
            self.phase = Phase::Collecting;
        }
        assert(self@ =~= before.settled(added_at, now));
    }

    /// Takes what came of the last phase.
    pub fn step(&mut self, event: WorkerEvent)
        requires
            old(self)@.wf(),
        ensures
            final(self)@ == old(self)@.after(event),
            final(self)@.wf(),
    {
        let ghost before = self@;
        let ghost given = event;
        proof {
            law_every_state_is_well_formed(before, event);
        }
        match (self.phase, event) {
            (Phase::Collecting, WorkerEvent::Job(job)) => {
                merge(&mut self.batch, job);
            },
            (Phase::Collecting, WorkerEvent::Closed) => {
                self.phase = Phase::Stopped;
            },
            (Phase::Collecting, WorkerEvent::Deadline(now)) => {
                self.flush(now);
            },
            (Phase::Connecting, WorkerEvent::Connected) => {
                self.connected = true;
                self.delay = RECONNECT_MIN_DELAY_SECS;
                self.cache = Vec::new();
                self.phase = Phase::Sending;
            },
            (Phase::Connecting, WorkerEvent::ConnectFailed) => {
                self.phase = Phase::Sleeping(self.delay);
                self.outgoing = Vec::new();
                self.lengthen_delay();
            },
            (Phase::Sending, WorkerEvent::Results(results)) => {
                self.take_results(&results);
            },
            (Phase::Settling, WorkerEvent::Clock(added_at, now)) => {
                self.settle(added_at, now);
            },
            (Phase::Sleeping(_), WorkerEvent::Slept) => {
                self.phase = Phase::Collecting;
            },
            _ => {},
        }
        assert(self@ =~= before.after(given));
    }
}

/// Adding a job to a batch keeps one entry for each key.
pub proof fn lemma_merged_keys(batch: Seq<JobView>, job: JobView)
    requires
        job_keys(batch).no_duplicates(),
    ensures
        job_keys(merged(batch, job)).no_duplicates(),
{
    let keys = job_keys(batch);
    lemma_key_position(keys, job.key());
    let i = key_position(keys, job.key());
    if i == batch.len() {
        assert(job_keys(merged(batch, job)) =~= keys.push(job.key()));
    } else {
        assert(job_keys(merged(batch, job)) =~= keys);
    }
}

/// Remembering an entry keeps one line for each key.
proof fn lemma_remembered_keys(lines: Seq<LineView>, line: LineView)
    requires
        line_keys(lines).no_duplicates(),
    ensures
        line_keys(remembered(lines, line)).no_duplicates(),
{
    let keys = line_keys(lines);
    lemma_key_position(keys, line.key);
    let i = key_position(keys, line.key);
    if i == lines.len() {
        assert(line_keys(remembered(lines, line)) =~= keys.push(line.key));
    } else {
        assert(line_keys(remembered(lines, line)) =~= keys);
    }
}

/// Remembering entries keeps one line for each key.
pub proof fn lemma_with_confirmed_keys(
    lines: Seq<LineView>,
    sent: Seq<JobView>,
    indices: Seq<int>,
    added_at: u64,
)
    requires
        line_keys(lines).no_duplicates(),
    ensures
        line_keys(with_confirmed(lines, sent, indices, added_at)).no_duplicates(),
    decreases indices.len(),
{
    if indices.len() > 0 {
        lemma_with_confirmed_keys(lines, sent, indices.drop_last(), added_at);
        let job = sent[indices.last()];
        lemma_remembered_keys(
            with_confirmed(lines, sent, indices.drop_last(), added_at),
            LineView { key: job.key(), ttl: job.ttl, added_at },
        );
    }
}

/// Leaving items out of a row keeps distinct what was distinct.
pub proof fn lemma_filter_distinct<A, B>(s: Seq<A>, keep: spec_fn(A) -> bool, key: spec_fn(A) -> B)
    requires
        s.map_values(key).no_duplicates(),
    ensures
        s.filter(keep).map_values(key).no_duplicates(),
        forall|i: int|
            0 <= i < s.filter(keep).len() ==> keep(#[trigger] s.filter(keep)[i]) && s.contains(
                s.filter(keep)[i],
            ),
    decreases s.len(),
{
    reveal(Seq::filter);
    if s.len() > 0 {
        let front = s.drop_last();
        assert(front.map_values(key) =~= s.map_values(key).drop_last());
        lemma_filter_distinct(front, keep, key);
        let kept = front.filter(keep);
        assert forall|i: int| 0 <= i < kept.len() implies s.contains(#[trigger] kept[i]) by {
            let j = choose|j: int| 0 <= j < front.len() && front[j] == kept[i];
            assert(s[j] == kept[i]);
        }
        if keep(s.last()) {
            let whole = s.filter(keep);
            assert forall|i: int, j: int| 0 <= i < whole.len() && 0 <= j < whole.len() && i
                != j implies whole.map_values(key)[i] != whole.map_values(key)[j] by {
                let a = if i < j { i } else { j };
                let b = if i < j { j } else { i };
                if b < kept.len() {
                    assert(kept.map_values(key)[a] != kept.map_values(key)[b]);
                } else {
                    let m = choose|m: int| 0 <= m < front.len() && front[m] == kept[a];
                    assert(s.map_values(key)[m] != s.map_values(key)[s.len() - 1]);
                }
            }
        }
    }
}

/// The indices of confirmed results lie in the chunk, each once.
pub proof fn lemma_confirmed_in(results: Seq<Result<AddOutcome, ApiError>>, count: nat, base: int)
    ensures
        confirmed_in(results, count, base).no_duplicates(),
        forall|i: int|
            0 <= i < confirmed_in(results, count, base).len() ==> base <= #[trigger] confirmed_in(
                results,
                count,
                base,
            )[i] < base + count,
    decreases count,
{
    if count > 0 {
        lemma_confirmed_in(results, (count - 1) as nat, base);
    }
}

/// The first state can occur, and every state that follows on one that can occur
/// can occur: a batch, what is sent and what is remembered hold each entry once,
/// no more is remembered than the limit allows, no entry is sent with a time to
/// live that is too short, and the delay keeps within its bounds.
pub proof fn law_every_state_is_well_formed(state: WorkerView, event: WorkerEvent)
    requires
        state.wf(),
    ensures
        WorkerView::start().wf(),
        state.after(event).wf(),
{
    match (state.phase, event) {
        (Phase::Collecting, WorkerEvent::Job(job)) => {
            lemma_merged_keys(state.batch, job@);
        },
        (Phase::Collecting, WorkerEvent::Deadline(now)) => {
            let cache = state.cache;
            lemma_filter_distinct(
                state.batch,
                |job: JobView| is_due(job, cache, now),
                |job: JobView| job.key(),
            );
        },
        (Phase::Sending, WorkerEvent::Results(results)) => {
            let end = state.chunk_end();
            let count = if results@.len() < end - state.next {
                results@.len()
            } else {
                (end - state.next) as nat
            };
            lemma_confirmed_in(results@, count, state.next);
        },
        (Phase::Settling, WorkerEvent::Clock(added_at, now)) => {
            lemma_with_confirmed_keys(state.cache, state.outgoing, state.confirmed, added_at);
            lemma_filter_distinct(
                state.updated_cache(added_at),
                |line: LineView| line.remaining(now) > 0,
                |line: LineView| line.key,
            );
        },
        _ => {},
    }
}

} // verus!
