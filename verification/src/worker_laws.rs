//! What holds of the worker over more than one step.

use crate::mikrotik_api::{attribute_word, comment_of, AddOutcome, ApiError, PipelineEntry};
use crate::plugin::ResolvedJob;
use crate::text::{decimal, lemma_decimal_injective};
use crate::worker::{
    batch_of, cached, confirmed_in, is_due, is_entry_of, job_keys, jobs_view, key_position,
    lemma_confirmed_in, lemma_filter_distinct, lemma_key_position, lemma_merged_keys,
    lemma_with_confirmed_keys, line_keys, longer_delay, merged, remembered, unexpired,
    with_confirmed, JobView, Key, LineView, Phase, WorkerEvent, WorkerView, CACHE_LIMIT,
    FLUSH_INTERVAL_MS, IPV4_PATH, IPV6_PATH, MIN_TTL_SECS, PIPELINE_SIZE, RECONNECT_MAX_DELAY_SECS,
    RECONNECT_MIN_DELAY_SECS,
};
use vstd::arithmetic::power2::{lemma2_to64, lemma_pow2_unfold, pow2};
use vstd::prelude::*;

verus! {

/// Once stopped, the worker does nothing any more.
pub proof fn law_stopped_worker_stays_stopped(state: WorkerView, event: WorkerEvent)
    requires
        state.phase == Phase::Stopped,
    ensures
        state.after(event) == state,
{
}

/// What jobs do to an empty batch, one after the other.
pub proof fn law_jobs_are_gathered(state: WorkerView, jobs: Seq<ResolvedJob>, job: ResolvedJob)
    requires
        state.phase == Phase::Collecting,
        state.batch == batch_of(jobs_view(jobs)),
    ensures
        state.after(WorkerEvent::Job(job)) == (WorkerView {
            batch: batch_of(jobs_view(jobs.push(job))),
            ..state
        }),
        batch_of(Seq::empty()) == Seq::<JobView>::empty(),
{
    let all = jobs_view(jobs.push(job));
    assert(all.drop_last() =~= jobs_view(jobs));
    assert(all.last() == job@);
}

/// A batch holds one entry for each list and address that jobs named. The entry
/// has the longest time to live of those jobs, the domain of the first job with
/// that time to live, and the record type of the first job of all.
pub proof fn law_batch_keeps_longest_ttl(jobs: Seq<JobView>)
    ensures
        job_keys(batch_of(jobs)).no_duplicates(),
        forall|i: int| 0 <= i < jobs.len() ==> is_held(batch_of(jobs), #[trigger] jobs[i]),
        forall|b: int|
            0 <= b < batch_of(jobs).len() ==> is_asked_for(jobs, #[trigger] batch_of(jobs)[b]),
    decreases jobs.len(),
{
    if jobs.len() > 0 {
        let front = jobs.drop_last();
        let job = jobs.last();
        law_batch_keeps_longest_ttl(front);
        lemma_batch_with_one_more_job(front, batch_of(front), job);
        assert(front.push(job) =~= jobs);
    }
}

/// The step of `law_batch_keeps_longest_ttl`.
proof fn lemma_batch_with_one_more_job(jobs: Seq<JobView>, batch: Seq<JobView>, job: JobView)
    requires
        job_keys(batch).no_duplicates(),
        forall|i: int| 0 <= i < jobs.len() ==> is_held(batch, #[trigger] jobs[i]),
        forall|b: int| 0 <= b < batch.len() ==> is_asked_for(jobs, #[trigger] batch[b]),
    ensures
        job_keys(merged(batch, job)).no_duplicates(),
        forall|i: int|
            0 <= i < jobs.push(job).len() ==> is_held(
                merged(batch, job),
                #[trigger] jobs.push(job)[i],
            ),
        forall|b: int|
            0 <= b < merged(batch, job).len() ==> is_asked_for(
                jobs.push(job),
                #[trigger] merged(batch, job)[b],
            ),
{
    let all = jobs.push(job);
    let after = merged(batch, job);
    lemma_merged_keys(batch, job);
    assert forall|i: int| 0 <= i < all.len() implies is_held(after, #[trigger] all[i]) by {
        if i < jobs.len() {
            assert(is_held(batch, jobs[i]));
        }
        lemma_merged_holds(batch, job, all[i]);
    }
    assert forall|b: int| 0 <= b < after.len() implies is_asked_for(all, #[trigger] after[b]) by {
        let keys = job_keys(batch);
        let at = key_position(keys, job.key());
        lemma_key_position(keys, job.key());
        if b < batch.len() {
            assert(keys[b] == batch[b].key());
            assert(is_asked_for(jobs, batch[b]));
            if b == at && job.ttl > batch[b].ttl {
                lemma_longer_entry(jobs, job, batch[b]);
            } else {
                if b != at && at < batch.len() {
                    assert(keys[at] != keys[b]);
                }
                lemma_same_entry(jobs, job, batch[b]);
            }
        } else {
            assert(at == batch.len());
            assert forall|i: int| 0 <= i < jobs.len() implies (#[trigger] jobs[i]).key()
                != job.key() by {
                assert(is_held(batch, jobs[i]));
                reveal(is_held);
                let c = choose|c: int|
                    0 <= c < batch.len() && (#[trigger] batch[c]).key() == jobs[i].key()
                        && batch[c].ttl >= jobs[i].ttl;
                assert(keys[c] == batch[c].key());
            }
            lemma_new_entry(jobs, job);
        }
    }
}

/// A job for another entry, or one without a longer time to live, leaves an entry
/// as it is.
proof fn lemma_same_entry(jobs: Seq<JobView>, job: JobView, entry: JobView)
    requires
        is_asked_for(jobs, entry),
        job.key() != entry.key() || job.ttl <= entry.ttl,
    ensures
        is_asked_for(jobs.push(job), entry),
{
    reveal(is_asked_for);
    let (first, longest) = choose|first: int, longest: int|
        is_entry_for(jobs, entry, first, longest);
    assert(is_entry_for(jobs.push(job), entry, first, longest));
}

/// A job with a longer time to live lengthens an entry.
proof fn lemma_longer_entry(jobs: Seq<JobView>, job: JobView, entry: JobView)
    requires
        is_asked_for(jobs, entry),
        job.key() == entry.key(),
        job.ttl > entry.ttl,
    ensures
        is_asked_for(jobs.push(job), JobView { ttl: job.ttl, domain: job.domain, ..entry }),
{
    reveal(is_asked_for);
    let (first, longest) = choose|first: int, longest: int|
        is_entry_for(jobs, entry, first, longest);
    let longer = JobView { ttl: job.ttl, domain: job.domain, ..entry };
    assert(longer.key() == entry.key());
    assert(is_entry_for(jobs.push(job), longer, first, jobs.len() as int));
}

/// The first job for an entry makes it.
proof fn lemma_new_entry(jobs: Seq<JobView>, job: JobView)
    requires
        forall|i: int| 0 <= i < jobs.len() ==> (#[trigger] jobs[i]).key() != job.key(),
    ensures
        is_asked_for(jobs.push(job), job),
{
    reveal(is_asked_for);
    let n = jobs.len() as int;
    assert(is_entry_for(jobs.push(job), job, n, n));
}

/// A batch with one more job holds what it held, and that job.
proof fn lemma_merged_holds(batch: Seq<JobView>, job: JobView, other: JobView)
    requires
        job == other || is_held(batch, other),
    ensures
        is_held(merged(batch, job), other),
{
    reveal(is_held);
    let keys = job_keys(batch);
    let after = merged(batch, job);
    lemma_key_position(keys, job.key());
    let at = key_position(keys, job.key());
    assert(at < batch.len() ==> keys[at] == batch[at].key());
    if job == other {
        assert(after[at].key() == other.key());
    } else {
        let b = choose|b: int|
            0 <= b < batch.len() && (#[trigger] batch[b]).key() == other.key() && batch[b].ttl
                >= other.ttl;
        assert(after[b].key() == other.key() && after[b].ttl >= other.ttl);
    }
}

/// Whether a batch holds the entry of a job, with a time to live as long at least.
#[verifier::opaque]
pub open spec fn is_held(batch: Seq<JobView>, job: JobView) -> bool {
    exists|b: int|
        0 <= b < batch.len() && (#[trigger] batch[b]).key() == job.key() && batch[b].ttl
            >= job.ttl
}

/// Whether `entry` is what jobs ask for.
#[verifier::opaque]
pub open spec fn is_asked_for(jobs: Seq<JobView>, entry: JobView) -> bool {
    exists|first: int, longest: int| is_entry_for(jobs, entry, first, longest)
}

/// Whether `entry` is what jobs ask for: `first` is the first job with its key,
/// and `longest` the first one with the longest time to live.
pub open spec fn is_entry_for(
    jobs: Seq<JobView>,
    entry: JobView,
    first: int,
    longest: int,
) -> bool {
    &&& 0 <= first <= longest < jobs.len()
    &&& jobs[first].key() == entry.key()
    &&& jobs[longest].key() == entry.key()
    &&& entry.qtype == jobs[first].qtype
    &&& entry.ttl == jobs[longest].ttl
    &&& entry.domain == jobs[longest].domain
    &&& forall|i: int| 0 <= i < first ==> (#[trigger] jobs[i]).key() != entry.key()
    &&& forall|i: int|
        0 <= i < jobs.len() && (#[trigger] jobs[i]).key() == entry.key() ==> jobs[i].ttl
            <= entry.ttl && (i < longest ==> jobs[i].ttl < entry.ttl)
}

/// A flush sends the jobs that are due, each once and no other, and empties the
/// batch. Where nothing is due, jobs are gathered again; where no connection
/// stands, one is made first.
pub proof fn law_flush_sends_what_is_due(state: WorkerView, now: u64)
    requires
        state.wf(),
        state.phase == Phase::Collecting,
    ensures
        ({
            let next = state.after(WorkerEvent::Deadline(now));
            &&& next.batch == Seq::<JobView>::empty()
            &&& next.cache == state.cache
            &&& job_keys(next.outgoing).no_duplicates()
            &&& forall|job: JobView|
                #[trigger] next.outgoing.contains(job) <==> state.batch.contains(job) && is_due(
                    job,
                    state.cache,
                    now,
                )
            &&& next.phase == if next.outgoing.len() == 0 {
                Phase::Collecting
            } else if state.connected {
                Phase::Sending
            } else {
                Phase::Connecting
            }
        }),
{
    let next = state.after(WorkerEvent::Deadline(now));
    let cache = state.cache;
    let keep = |job: JobView| is_due(job, cache, now);
    let key = |job: JobView| job.key();
    lemma_filter_distinct(state.batch, keep, key);
    assert forall|job: JobView| #[trigger]
        next.outgoing.contains(job) <==> state.batch.contains(job) && is_due(
            job,
            state.cache,
            now,
        ) by {
        if next.outgoing.contains(job) {
            let i = choose|i: int| 0 <= i < next.outgoing.len() && next.outgoing[i] == job;
            assert(keep(next.outgoing[i]));
        }
        if state.batch.contains(job) && keep(job) {
            let i = choose|i: int| 0 <= i < state.batch.len() && state.batch[i] == job;
            state.batch.lemma_filter_contains(keep, i);
        }
    }
}

/// A line that is remembered is found under its key, and no other key is touched.
pub proof fn law_remembered_line_is_found(lines: Seq<LineView>, line: LineView, key: Key)
    ensures
        cached(remembered(lines, line), key) == if key == line.key {
            Some(line)
        } else {
            cached(lines, key)
        },
{
    let keys = line_keys(lines);
    let after = remembered(lines, line);
    let after_keys = line_keys(after);
    let at = key_position(keys, line.key);
    lemma_key_position(keys, line.key);
    lemma_key_position(keys, key);
    lemma_key_position(after_keys, key);
    let i = key_position(keys, key);
    let j = key_position(after_keys, key);
    if at == lines.len() {
        assert(after_keys =~= keys.push(line.key));
    } else {
        assert(after_keys =~= keys);
    }
    if key == line.key {
        assert(after_keys[at] == key);
        assert(j == at);
    } else {
        assert(i < keys.len() ==> after_keys[i] == key);
        assert(j < keys.len() ==> keys[j] == key);
    }
}

/// Once lines stand for distinct keys, each is found under its key.
proof fn lemma_cached_line(lines: Seq<LineView>, at: int)
    requires
        line_keys(lines).no_duplicates(),
        0 <= at < lines.len(),
    ensures
        cached(lines, lines[at].key) == Some(lines[at]),
{
    let keys = line_keys(lines);
    lemma_key_position(keys, lines[at].key);
    let i = key_position(keys, lines[at].key);
    assert(keys[at] == lines[at].key);
    if i != at {
        assert(keys[i] != keys[at]);
    }
}

/// What is found under a key is one of the lines, and has that key.
proof fn lemma_cached_is_a_line(lines: Seq<LineView>, key: Key)
    ensures
        cached(lines, key) matches Some(line) ==> line.key == key && lines.contains(line),
        cached(lines, key) is None ==> forall|i: int|
            0 <= i < lines.len() ==> (#[trigger] lines[i]).key != key,
{
    let keys = line_keys(lines);
    lemma_key_position(keys, key);
    let at = key_position(keys, key);
    if at < lines.len() {
        assert(keys[at] == lines[at].key);
    }
    assert forall|i: int| 0 <= i < lines.len() && cached(lines, key) is None implies (
    #[trigger] lines[i]).key != key by {
        assert(keys[i] == lines[i].key);
    }
}

/// Forgetting what expired leaves a key its line unless that line expired.
pub proof fn law_expired_lines_are_forgotten(lines: Seq<LineView>, now: u64, key: Key)
    requires
        line_keys(lines).no_duplicates(),
    ensures
        cached(unexpired(lines, now), key) == (match cached(lines, key) {
            Some(line) if line.remaining(now) > 0 => Some(line),
            _ => None,
        }),
{
    let keep = |line: LineView| line.remaining(now) > 0;
    let kept = unexpired(lines, now);
    lemma_filter_distinct(lines, keep, |line: LineView| line.key);
    lemma_cached_is_a_line(lines, key);
    lemma_cached_is_a_line(kept, key);
    match cached(kept, key) {
        Some(line) => {
            let i = choose|i: int| 0 <= i < kept.len() && kept[i] == line;
            assert(keep(kept[i]) && lines.contains(kept[i]));
            let j = choose|j: int| 0 <= j < lines.len() && lines[j] == kept[i];
            lemma_cached_line(lines, j);
        },
        None => {
            if let Some(line) = cached(lines, key) {
                if keep(line) {
                    let j = choose|j: int| 0 <= j < lines.len() && lines[j] == line;
                    lines.lemma_filter_contains(keep, j);
                    let i = choose|i: int| 0 <= i < kept.len() && kept[i] == line;
                    assert(kept[i].key != key);
                }
            }
        },
    }
}

/// What is remembered of a key once the entries at `indices` are: the new line of
/// the entry with that key, or what was remembered before.
proof fn lemma_confirmed_are_found(
    lines: Seq<LineView>,
    sent: Seq<JobView>,
    indices: Seq<int>,
    added_at: u64,
    key: Key,
)
    requires
        job_keys(sent).no_duplicates(),
        forall|i: int| 0 <= i < indices.len() ==> 0 <= #[trigger] indices[i] < sent.len(),
    ensures
        forall|i: int|
            0 <= i < indices.len() && sent[#[trigger] indices[i]].key() == key ==> cached(
                with_confirmed(lines, sent, indices, added_at),
                key,
            ) == Some(LineView { key, ttl: sent[indices[i]].ttl, added_at }),
        (forall|i: int| 0 <= i < indices.len() ==> sent[#[trigger] indices[i]].key() != key)
            ==> cached(with_confirmed(lines, sent, indices, added_at), key) == cached(lines, key),
    decreases indices.len(),
{
    if indices.len() > 0 {
        let front = indices.drop_last();
        let last = indices.last();
        let job = sent[last];
        let before = with_confirmed(lines, sent, front, added_at);
        let line = LineView { key: job.key(), ttl: job.ttl, added_at };
        assert forall|i: int| 0 <= i < front.len() implies 0 <= #[trigger] front[i]
            < sent.len() by {
            assert(front[i] == indices[i]);
        }
        lemma_confirmed_are_found(lines, sent, front, added_at, key);
        law_remembered_line_is_found(before, line, key);
        let keys = job_keys(sent);
        assert(indices[indices.len() - 1] == last);
        assert forall|i: int|
            0 <= i < indices.len() && sent[#[trigger] indices[i]].key() == key implies cached(
            with_confirmed(lines, sent, indices, added_at),
            key,
        ) == Some(LineView { key, ttl: sent[indices[i]].ttl, added_at }) by {
            assert(keys[indices[i]] == key);
            assert(keys[last] == job.key());
            if job.key() == key {
                assert(indices[i] == last);
            } else {
                assert(front[i] == indices[i]);
            }
        }
        if forall|i: int| 0 <= i < indices.len() ==> sent[#[trigger] indices[i]].key() != key {
            assert forall|i: int| 0 <= i < front.len() implies sent[#[trigger] front[i]].key()
                != key by {
                assert(front[i] == indices[i]);
            }
            assert(job.key() != key);
        }
    }
}

/// Once a batch is settled, an entry that the router confirmed is remembered, with
/// the time to live that was sent, unless it expired meanwhile or too many entries
/// are remembered. It is not sent again before the router keeps it for less time
/// than is asked for.
pub proof fn law_confirmed_entry_is_remembered(
    state: WorkerView,
    added_at: u64,
    now: u64,
    i: int,
    later: u64,
    job: JobView,
)
    requires
        state.wf(),
        state.phase == Phase::Settling,
        0 <= i < state.confirmed.len(),
        unexpired(state.updated_cache(added_at), now).len() <= CACHE_LIMIT,
        job.key() == state.outgoing[state.confirmed[i]].key(),
    ensures
        ({
            let sent = state.outgoing[state.confirmed[i]];
            let line = LineView { key: sent.key(), ttl: sent.ttl, added_at };
            let next = state.after(WorkerEvent::Clock(added_at, now));
            &&& line.remaining(now) > 0 ==> cached(next.cache, job.key()) == Some(line) && is_due(
                job,
                next.cache,
                later,
            ) == (job.ttl >= MIN_TTL_SECS && line.remaining(later) < job.ttl)
            &&& line.remaining(now) == 0 ==> cached(next.cache, job.key()) is None
        }),
{
    let sent = state.outgoing[state.confirmed[i]];
    lemma_confirmed_are_found(state.cache, state.outgoing, state.confirmed, added_at, sent.key());
    lemma_with_confirmed_keys(state.cache, state.outgoing, state.confirmed, added_at);
    law_expired_lines_are_forgotten(state.updated_cache(added_at), now, sent.key());
}

/// Settling a batch leaves what is remembered of an entry that was not confirmed
/// as it was, unless it expired: what failed is not taken for sent.
pub proof fn law_failed_entry_is_not_remembered(
    state: WorkerView,
    added_at: u64,
    now: u64,
    key: Key,
)
    requires
        state.wf(),
        state.phase == Phase::Settling,
        forall|i: int|
            0 <= i < state.confirmed.len() ==> state.outgoing[#[trigger] state.confirmed[i]].key()
                != key,
        unexpired(state.updated_cache(added_at), now).len() <= CACHE_LIMIT,
    ensures
        cached(state.after(WorkerEvent::Clock(added_at, now)).cache, key) == (match cached(
            state.cache,
            key,
        ) {
            Some(line) if line.remaining(now) > 0 => Some(line),
            _ => None,
        }),
{
    lemma_confirmed_are_found(state.cache, state.outgoing, state.confirmed, added_at, key);
    lemma_with_confirmed_keys(state.cache, state.outgoing, state.confirmed, added_at);
    law_expired_lines_are_forgotten(state.updated_cache(added_at), now, key);
}

/// Once a batch is settled, no more entries are remembered than the limit allows,
/// and none that has expired.
pub proof fn law_cache_is_bounded(state: WorkerView, added_at: u64, now: u64)
    requires
        state.wf(),
        state.phase == Phase::Settling,
    ensures
        ({
            let next = state.after(WorkerEvent::Clock(added_at, now));
            &&& next.cache.len() <= CACHE_LIMIT
            &&& forall|i: int|
                0 <= i < next.cache.len() ==> (#[trigger] next.cache[i]).remaining(now) > 0
        }),
{
    let keep = |line: LineView| line.remaining(now) > 0;
    let updated = state.updated_cache(added_at);
    let next = state.after(WorkerEvent::Clock(added_at, now));
    assert forall|i: int| 0 <= i < next.cache.len() implies (#[trigger] next.cache[i]).remaining(
        now,
    ) > 0 by {
        updated.lemma_filter_pred(keep, i);
    }
}

/// A new connection starts with nothing remembered, so an entry that the router
/// may have lost is sent again, and with the shortest delay. What was to be sent
/// is sent now.
pub proof fn law_reconnecting_forgets(state: WorkerView, job: JobView, now: u64)
    requires
        state.phase == Phase::Connecting,
    ensures
        ({
            let next = state.after(WorkerEvent::Connected);
            &&& next.phase == Phase::Sending
            &&& next.connected
            &&& next.outgoing == state.outgoing
            &&& next.delay == RECONNECT_MIN_DELAY_SECS
            &&& is_due(job, next.cache, now) == (job.ttl >= MIN_TTL_SECS)
        }),
{
    let none = Seq::<LineView>::empty();
    lemma_cached_is_a_line(none, job.key());
}

/// A failure gives up the connection, and waits before the next try; the delay
/// grows. A batch without a failure keeps the connection, and resets the delay.
pub proof fn law_failure_gives_up_the_connection(state: WorkerView, added_at: u64, now: u64)
    requires
        state.wf(),
        state.phase == Phase::Settling,
    ensures
        ({
            let next = state.after(WorkerEvent::Clock(added_at, now));
            &&& next.connected == !state.failed
            &&& state.failed ==> next.phase == Phase::Sleeping(state.delay) && next.delay
                == longer_delay(state.delay)
            &&& !state.failed ==> next.phase == Phase::Collecting && next.delay
                == RECONNECT_MIN_DELAY_SECS
        }),
{
}

/// The delay after `failures` failures in a row, counted from the shortest one.
pub open spec fn delay_after(failures: nat) -> u64
    decreases failures,
{
    if failures == 0 {
        RECONNECT_MIN_DELAY_SECS
    } else {
        longer_delay(delay_after((failures - 1) as nat))
    }
}

/// The delay doubles with each failure, up to the longest one.
pub proof fn law_delay_doubles(failures: nat)
    ensures
        delay_after(failures) == if pow2(failures) < RECONNECT_MAX_DELAY_SECS {
            pow2(failures)
        } else {
            RECONNECT_MAX_DELAY_SECS as nat
        },
    decreases failures,
{
    if failures == 0 {
        lemma2_to64();
    } else {
        law_delay_doubles((failures - 1) as nat);
        lemma_pow2_unfold(failures);
    }
}

/// A failed try to connect waits as long as the failures in a row ask for, drops
/// what was to be sent, and counts as one more of them.
pub proof fn law_failed_tries_wait_longer(state: WorkerView, failures: nat)
    requires
        state.phase == Phase::Connecting,
        state.delay == delay_after(failures),
    ensures
        ({
            let next = state.after(WorkerEvent::ConnectFailed);
            &&& next.phase == Phase::Sleeping(delay_after(failures))
            &&& next.delay == delay_after(failures + 1)
            &&& next.outgoing == Seq::<JobView>::empty()
            &&& next.after(WorkerEvent::Slept).phase == Phase::Collecting
            &&& next.after(WorkerEvent::Slept).delay == delay_after(failures + 1)
        }),
{
}

/// Whether the router confirmed everything that was sent of the batch so far.
pub open spec fn all_confirmed(state: WorkerView) -> bool {
    state.next >= 0 && state.confirmed == Seq::new(state.next as nat, |i: int| i)
}

/// A flush starts a batch of which nothing was sent, and a new connection leaves
/// it at that.
pub proof fn law_sending_starts_at_the_beginning(state: WorkerView, now: u64)
    requires
        state.wf(),
    ensures
        state.flushed(now).next == 0,
        all_confirmed(state.flushed(now)),
        all_confirmed(state) ==> all_confirmed(state.reconnected()),
{
    assert(state.flushed(now).confirmed =~= Seq::new(0, |i: int| i));
}

/// Every chunk that the router confirms adds to what is confirmed, in order. Once
/// all chunks are, every entry of the batch is confirmed, and nothing failed.
pub proof fn law_everything_is_sent(
    state: WorkerView,
    results: Seq<Result<AddOutcome, ApiError>>,
)
    requires
        state.wf(),
        state.phase == Phase::Sending,
        all_confirmed(state),
        results.len() == state.chunk_end() - state.next,
        forall|i: int| 0 <= i < results.len() ==> #[trigger] results[i] is Ok,
    ensures
        ({
            let next = state.answered(results);
            &&& all_confirmed(next)
            &&& !next.failed
            &&& next.outgoing == state.outgoing
            &&& next.next > state.next
            &&& next.phase == if next.next == state.outgoing.len() {
                Phase::Settling
            } else {
                Phase::Sending
            }
        }),
{
    let next = state.answered(results);
    lemma_all_confirmed_in(results, results.len(), state.next);
    assert(next.confirmed =~= Seq::new(next.next as nat, |i: int| i));
}

/// Results without an error are all confirmed.
proof fn lemma_all_confirmed_in(
    results: Seq<Result<AddOutcome, ApiError>>,
    count: nat,
    base: int,
)
    requires
        count <= results.len(),
        forall|i: int| 0 <= i < results.len() ==> #[trigger] results[i] is Ok,
    ensures
        confirmed_in(results, count, base) == Seq::new(count, |i: int| base + i),
    decreases count,
{
    if count > 0 {
        lemma_all_confirmed_in(results, (count - 1) as nat, base);
        assert(results[count - 1] is Ok);
    }
    assert(confirmed_in(results, count, base) =~= Seq::new(count, |i: int| base + i));
}

/// An error in a chunk ends the sending: what comes behind the chunk is not sent.
/// What the router confirmed of the chunk stays confirmed.
pub proof fn law_error_ends_the_sending(
    state: WorkerView,
    results: Seq<Result<AddOutcome, ApiError>>,
    bad: int,
    good: int,
)
    requires
        state.wf(),
        state.phase == Phase::Sending,
        results.len() == state.chunk_end() - state.next,
        0 <= bad < results.len(),
        results[bad] is Err,
        0 <= good < results.len(),
    ensures
        ({
            let next = state.answered(results);
            &&& next.phase == Phase::Settling
            &&& next.failed
            &&& next.confirmed.contains(state.next + good) == results[good] is Ok
        }),
{
    lemma_confirmed_in_contains(results, results.len(), state.next, good);
    let added = confirmed_in(results, results.len(), state.next);
    let next = state.answered(results);
    if results[good] is Ok {
        let i = choose|i: int| 0 <= i < added.len() && added[i] == state.next + good;
        assert(next.confirmed[state.confirmed.len() + i] == state.next + good);
    } else if next.confirmed.contains(state.next + good) {
        let i = choose|i: int|
            0 <= i < next.confirmed.len() && next.confirmed[i] == state.next + good;
        if i < state.confirmed.len() {
            assert(state.confirmed[i] < state.next);
        } else {
            assert(added[i - state.confirmed.len()] == state.next + good);
        }
    }
}

/// An index is confirmed where its result is not an error.
proof fn lemma_confirmed_in_contains(
    results: Seq<Result<AddOutcome, ApiError>>,
    count: nat,
    base: int,
    at: int,
)
    requires
        0 <= at < results.len(),
    ensures
        confirmed_in(results, count, base).contains(base + at) == (at < count
            && results[at] is Ok),
    decreases count,
{
    if count > 0 {
        lemma_confirmed_in_contains(results, (count - 1) as nat, base, at);
        let before = confirmed_in(results, (count - 1) as nat, base);
        let after = confirmed_in(results, count, base);
        if results[count - 1] is Ok {
            assert(after[before.len() as int] == base + count - 1);
            if before.contains(base + at) {
                let i = choose|i: int| 0 <= i < before.len() && before[i] == base + at;
                assert(after[i] == base + at);
            }
        }
    }
}

/// The command for a job adds its address to the list with the name of its group,
/// with its time to live as the timeout.
pub proof fn law_list_is_group_and_timeout_is_ttl(entry: PipelineEntry, job: JobView)
    requires
        is_entry_of(entry, job),
    ensures
        entry.words() == seq![
            job.path() + "/add"@,
            attribute_word("list"@, job.group),
            attribute_word("address"@, job.ip),
            attribute_word("timeout"@, decimal(job.ttl as nat)),
            attribute_word("comment"@, comment_of(job.domain)),
        ],
{
}

/// Nothing is sent that no job asked for, so no entry has a group that no job has.
pub proof fn law_only_what_jobs_ask_for_is_sent(
    state: WorkerView,
    jobs: Seq<JobView>,
    now: u64,
    i: int,
)
    requires
        state.wf(),
        state.phase == Phase::Collecting,
        state.batch == batch_of(jobs),
        0 <= i < state.after(WorkerEvent::Deadline(now)).outgoing.len(),
    ensures
        ({
            let entry = state.after(WorkerEvent::Deadline(now)).outgoing[i];
            &&& is_asked_for(jobs, entry)
            &&& exists|j: int| 0 <= j < jobs.len() && (#[trigger] jobs[j]).group == entry.group
        }),
{
    let next = state.after(WorkerEvent::Deadline(now));
    let entry = next.outgoing[i];
    law_flush_sends_what_is_due(state, now);
    law_batch_keeps_longest_ttl(jobs);
    assert(next.outgoing.contains(entry));
    let b = choose|b: int| 0 <= b < state.batch.len() && state.batch[b] == entry;
    assert(is_asked_for(jobs, batch_of(jobs)[b]));
    reveal(is_asked_for);
    let (first, longest) = choose|first: int, longest: int|
        is_entry_for(jobs, entry, first, longest);
    assert(jobs[first].group == entry.group);
}

/// No entry that is sent is permanent: its timeout is not zero.
pub proof fn law_no_entry_is_permanent(state: WorkerView, i: int)
    requires
        state.wf(),
        0 <= i < state.outgoing.len(),
    ensures
        state.outgoing[i].ttl >= MIN_TTL_SECS,
        decimal(state.outgoing[i].ttl as nat) != decimal(0),
{
    let ttl = state.outgoing[i].ttl as nat;
    if decimal(ttl) == decimal(0) {
        lemma_decimal_injective(ttl, 0);
    }
}

/// What a job asks for is sent where it is due: an entry with the job's list and
/// address, and a time to live as long at least.
pub proof fn law_every_due_job_is_sent(state: WorkerView, jobs: Seq<JobView>, now: u64, i: int)
    requires
        state.wf(),
        state.phase == Phase::Collecting,
        state.batch == batch_of(jobs),
        0 <= i < jobs.len(),
        is_due(jobs[i], state.cache, now),
    ensures
        is_held(state.after(WorkerEvent::Deadline(now)).outgoing, jobs[i]),
{
    let next = state.after(WorkerEvent::Deadline(now));
    law_batch_keeps_longest_ttl(jobs);
    assert(is_held(state.batch, jobs[i]));
    reveal(is_held);
    let b = choose|b: int|
        0 <= b < state.batch.len() && (#[trigger] state.batch[b]).key() == jobs[i].key()
            && state.batch[b].ttl >= jobs[i].ttl;
    let entry = state.batch[b];
    assert(is_due(entry, state.cache, now));
    law_flush_sends_what_is_due(state, now);
    assert(next.outgoing.contains(entry));
    let c = choose|c: int| 0 <= c < next.outgoing.len() && next.outgoing[c] == entry;
    assert(next.outgoing[c].key() == jobs[i].key());
}

/// The worker's limits, and the router's paths.
pub proof fn law_numbers_of_the_worker()
    ensures
        FLUSH_INTERVAL_MS == 200,
        PIPELINE_SIZE == 64,
        RECONNECT_MIN_DELAY_SECS == 1,
        RECONNECT_MAX_DELAY_SECS == 30,
        MIN_TTL_SECS == 3,
        CACHE_LIMIT == 100_000,
        IPV4_PATH@ == "/ip/firewall/address-list"@,
        IPV6_PATH@ == "/ipv6/firewall/address-list"@,
{
}

/// What the worker sees of a job: its fields, each in its place.
pub proof fn law_job_is_seen_as_it_is(job: ResolvedJob)
    ensures
        job@.group == job.group@,
        job@.ip == job.ip@,
        job@.domain == job.domain@,
        job@.ttl == job.ttl,
        job@.qtype == job.qtype,
{
}

/// Two jobs are for the same entry exactly where they name the same list and the
/// same address.
pub proof fn law_entry_is_known_by_list_and_address(a: JobView, b: JobView)
    ensures
        a.key() == b.key() <==> a.group == b.group && a.ip == b.ip,
        a.key() == (a.group, a.ip),
{
}

/// A job for an IPv4 address goes to the lists of IPv4 addresses, any other to those
/// of IPv6 addresses.
pub proof fn law_path_follows_the_record_type(job: JobView)
    ensures
        job.qtype == 1 ==> job.path() == "/ip/firewall/address-list"@,
        job.qtype != 1 ==> job.path() == "/ipv6/firewall/address-list"@,
{
}

/// The time that an entry has left is its time to live without the whole seconds
/// since it was added, and nothing once that many have passed.
pub proof fn law_time_left_counts_from_the_adding(line: LineView, now: u64, secs: int)
    requires
        line.added_at <= now,
        secs * 1_000_000_000 <= now - line.added_at < (secs + 1) * 1_000_000_000,
        secs < 0x1_0000_0000,
    ensures
        line.remaining(now) == if secs < line.ttl {
            line.ttl - secs
        } else {
            0
        },
{
    assert((now - line.added_at) / 1_000_000_000 == secs);
}

/// At the moment it is added, and by a clock that shows less, an entry has its whole
/// time to live left.
pub proof fn law_entry_starts_with_its_whole_time(line: LineView, now: u64)
    requires
        now <= line.added_at,
    ensures
        line.remaining(now) == line.ttl,
{
}

/// Only the time since the adding counts: where both times are later by the same
/// amount, the time left is the same. Neither does it depend on the entry's key.
pub proof fn law_time_left_depends_on_the_difference(
    line: LineView,
    later: LineView,
    now: u64,
    now_later: u64,
)
    requires
        later.ttl == line.ttl,
        later.added_at - line.added_at == now_later - now,
    ensures
        later.remaining(now_later) == line.remaining(now),
{
}

/// The seconds since the adding are counted in 32 bits.
pub proof fn law_seconds_are_counted_in_32_bits(line: LineView, now: u64, now_later: u64)
    requires
        line.added_at <= now,
        now_later == now + 0x1_0000_0000 * 1_000_000_000,
    ensures
        line.remaining(now_later) == line.remaining(now),
{
    let d = now - line.added_at;
    assert((d + 0x1_0000_0000 * 1_000_000_000) / 1_000_000_000 == d / 1_000_000_000 + 0x1_0000_0000);
}

/// Where lines stand for distinct entries, what is remembered of an entry is its
/// line, and nothing where it has none.
pub proof fn law_what_is_remembered_is_the_line(lines: Seq<LineView>, line: LineView, key: Key)
    requires
        line_keys(lines).no_duplicates(),
    ensures
        cached(lines, key) == Some(line) <==> lines.contains(line) && line.key == key,
        cached(lines, key) is None <==> forall|i: int|
            0 <= i < lines.len() ==> (#[trigger] lines[i]).key != key,
{
    lemma_cached_is_a_line(lines, key);
    if lines.contains(line) && line.key == key {
        let i = choose|i: int| 0 <= i < lines.len() && lines[i] == line;
        lemma_cached_line(lines, i);
    }
    if let Some(found) = cached(lines, key) {
        let i = choose|i: int| 0 <= i < lines.len() && lines[i] == found;
        assert(lines[i].key == key);
    }
}

/// An entry that the router may not have is sent exactly where its time to live is
/// three seconds at least.
pub proof fn law_new_entry_is_due(job: JobView, lines: Seq<LineView>, now: u64)
    requires
        forall|i: int| 0 <= i < lines.len() ==> (#[trigger] lines[i]).key != (job.group, job.ip),
    ensures
        is_due(job, lines, now) <==> job.ttl >= 3,
{
    lemma_cached_is_a_line(lines, job.key());
    if let Some(found) = cached(lines, job.key()) {
        let i = choose|i: int| 0 <= i < lines.len() && lines[i] == found;
        assert(lines[i].key == (job.group, job.ip));
    }
}

/// An entry that the router has is sent again exactly where more time is asked for
/// than it has left there, and no less than three seconds.
pub proof fn law_known_entry_is_due_for_longer(
    job: JobView,
    lines: Seq<LineView>,
    i: int,
    now: u64,
    secs: int,
)
    requires
        line_keys(lines).no_duplicates(),
        0 <= i < lines.len(),
        lines[i].key == (job.group, job.ip),
        lines[i].added_at <= now,
        secs * 1_000_000_000 <= now - lines[i].added_at < (secs + 1) * 1_000_000_000,
        secs < 0x1_0000_0000,
    ensures
        is_due(job, lines, now) <==> job.ttl >= 3 && lines[i].ttl - secs < job.ttl,
{
    lemma_cached_line(lines, i);
    law_time_left_counts_from_the_adding(lines[i], now, secs);
}

/// A chunk has 64 entries, or as many as are left where those are fewer.
pub proof fn law_chunks_have_64_entries_at_most(state: WorkerView)
    requires
        state.wf(),
    ensures
        state.next <= state.chunk_end() <= state.outgoing.len(),
        state.outgoing.len() - state.next >= 64 ==> state.chunk_end() == state.next + 64,
        state.outgoing.len() - state.next <= 64 ==> state.chunk_end() == state.outgoing.len(),
{
}

/// Each result of a chunk decides its own entry: an entry is confirmed exactly where
/// its result is there and no error. What was confirmed before stays confirmed.
/// The batch failed exactly where one of those results is an error.
pub proof fn law_each_result_decides_its_entry(
    state: WorkerView,
    results: Vec<Result<AddOutcome, ApiError>>,
    at: int,
)
    requires
        state.wf(),
        state.phase == Phase::Sending,
        0 <= at < state.outgoing.len(),
    ensures
        ({
            let next = state.after(WorkerEvent::Results(results));
            let i = at - state.next;
            &&& next.confirmed.contains(at) == if i < 0 {
                state.confirmed.contains(at)
            } else {
                i < results@.len() && i < 64 && results@[i] is Ok
            }
            &&& next.failed <==> exists|j: int|
                0 <= j < results@.len() && j < 64 && state.next + j < state.outgoing.len()
                    && #[trigger] results@[j] is Err
            &&& next.phase == Phase::Settling <==> next.failed || state.outgoing.len()
                - state.next <= 64
            &&& next.phase == Phase::Settling || next.phase == Phase::Sending
            &&& next.next == state.chunk_end()
        }),
{
    let next = state.after(WorkerEvent::Results(results));
    let end = state.chunk_end();
    let count = if results@.len() < end - state.next {
        results@.len()
    } else {
        (end - state.next) as nat
    };
    let added = confirmed_in(results@, count, state.next);
    let i = at - state.next;
    lemma_confirmed_in(results@, count, state.next);
    if 0 <= i < results@.len() {
        lemma_confirmed_in_contains(results@, count, state.next, i);
    }
    if next.confirmed.contains(at) {
        let k = choose|k: int| 0 <= k < next.confirmed.len() && next.confirmed[k] == at;
        if k < state.confirmed.len() {
            assert(state.confirmed[k] == at);
        } else {
            assert(added[k - state.confirmed.len()] == at);
        }
    }
    if state.confirmed.contains(at) {
        let k = choose|k: int| 0 <= k < state.confirmed.len() && state.confirmed[k] == at;
        assert(next.confirmed[k] == at);
    }
    if added.contains(at) {
        let k = choose|k: int| 0 <= k < added.len() && added[k] == at;
        assert(next.confirmed[state.confirmed.len() + k] == at);
    }
}

/// Once a batch is settled, what has not expired is remembered where it is no more
/// than 100,000 entries, and nothing at all where it is more.
pub proof fn law_up_to_100000_entries_are_remembered(state: WorkerView, added_at: u64, now: u64)
    requires
        state.phase == Phase::Settling,
    ensures
        ({
            let next = state.after(WorkerEvent::Clock(added_at, now));
            let kept = unexpired(state.updated_cache(added_at), now);
            &&& kept.len() <= 100_000 ==> next.cache == kept
            &&& kept.len() > 100_000 ==> next.cache == Seq::<LineView>::empty()
        }),
{
}

/// After failures in a row the next try waits one second doubled as often, but no
/// longer than thirty seconds.
pub proof fn law_waits_between_one_and_thirty_seconds(failures: nat)
    ensures
        delay_after(0) == 1,
        pow2(failures) <= 30 ==> delay_after(failures) == pow2(failures),
        pow2(failures) >= 30 ==> delay_after(failures) == 30,
{
    law_delay_doubles(failures);
}

/// The number of entries that expired is that of the lines that were forgotten.
pub proof fn law_expired_entries_are_counted(state: WorkerView, added_at: u64, now: u64)
    requires
        state.phase == Phase::Settling,
    ensures
        state.after(WorkerEvent::Clock(added_at, now)).evicted + unexpired(
            state.updated_cache(added_at),
            now,
        ).len() == state.updated_cache(added_at).len(),
{
}

/// What each event leaves as it was. Jobs that were gathered are sent or dropped
/// only by a flush; what is remembered changes only with a new connection and when a
/// batch is settled; the connection and the delay change only with a try to connect
/// and when a batch is settled.
pub proof fn law_events_leave_the_rest_alone(state: WorkerView, event: WorkerEvent)
    ensures
        ({
            let next = state.after(event);
            &&& !(event is Job) && !(event is Deadline) ==> next.batch == state.batch
            &&& !(event is Connected) && !(event is Clock) ==> next.cache == state.cache
            &&& !(event is Connected) && !(event is ConnectFailed) && !(event is Clock)
                ==> next.delay == state.delay
            &&& !(event is Connected) && !(event is Clock) ==> next.connected == state.connected
            &&& !(event is Deadline) && !(event is ConnectFailed) && !(event is Clock)
                ==> next.outgoing == state.outgoing
            &&& !(event is Clock) ==> next.evicted == state.evicted
        }),
{
}

/// An event that a phase does not wait for changes nothing.
pub proof fn law_worker_ignores_what_it_does_not_wait_for(state: WorkerView, event: WorkerEvent)
    requires
        state.phase == Phase::Collecting ==> !(event is Job || event is Closed || event is Deadline),
        state.phase == Phase::Connecting ==> !(event is Connected || event is ConnectFailed),
        state.phase == Phase::Sending ==> !(event is Results),
        state.phase == Phase::Settling ==> !(event is Clock),
        state.phase is Sleeping ==> !(event is Slept),
    ensures
        state.after(event) == state,
{
}

/// A closed queue stops the worker where it gathers jobs; a wait that is over makes
/// it gather jobs again. Nothing else changes.
pub proof fn law_closing_and_waking(state: WorkerView)
    ensures
        state.phase == Phase::Collecting ==> state.after(WorkerEvent::Closed) == (WorkerView {
            phase: Phase::Stopped,
            ..state
        }),
        state.phase is Sleeping ==> state.after(WorkerEvent::Slept) == (WorkerView {
            phase: Phase::Collecting,
            ..state
        }),
{
}

/// The worker starts with nothing gathered, nothing remembered, no connection, and
/// the shortest delay.
pub proof fn law_worker_starts_empty()
    ensures
        ({
            let start = WorkerView::start();
            &&& start.phase == Phase::Collecting
            &&& start.batch.len() == 0
            &&& start.outgoing.len() == 0
            &&& start.cache.len() == 0
            &&& !start.connected
            &&& start.delay == 1
            &&& start.evicted == 0
        }),
{
}

} // verus!
