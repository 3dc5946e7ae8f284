//! The recorder's upload queue: which recordings wait for upload, when each is
//! tried again, how the queue file is framed and named, and what is asked of
//! liveman. The network, the files and the timers stay with the caller, which
//! hands in what it read and carries out what these functions decide.

use vstd::prelude::*;
use crate::keyed::{KeyedTable, map_of, lemma_map_of_listing};
use crate::outside::{now_millis, status_is_success, header_name_accepted, header_value_accepted, valid_header_name, valid_header_value};
use crate::text::{push_signed_decimal, signed_decimal, owned, concat, trim, trim_end_char, is_blank, trim_end_matching};

verus! {

/// The settings of the uploader.
pub struct UploadConfig {
    /// Where recordings are written before they are uploaded.
    pub local_dir: String,
    /// The file that keeps the queue across restarts.
    pub queue_path: String,
    /// The base address of liveman; blank turns uploading off.
    pub liveman_url: String,
    /// The bearer token for liveman; empty sends no authorization.
    pub liveman_token: String,
    /// How many uploads may run at once.
    pub concurrency: usize,
    /// How long to wait between two passes over the queue.
    pub interval_ms: u64,
    /// How long a presigned address should stay valid.
    pub presign_ttl_seconds: u64,
}

/// A recording that waits for upload.
pub struct UploadEntry {
    /// The key of the entry in the queue: the object key, ':' and the time of enqueueing.
    pub id: String,
    /// The key of the object in storage.
    pub object_key: String,
    /// The file to upload.
    pub local_path: String,
    /// How many attempts have failed.
    pub retry_count: u32,
    /// The earliest time, in milliseconds, of the next attempt.
    pub next_retry_at: i64,
}

impl UploadEntry {
    /// A copy of the entry.
    pub fn duplicate(&self) -> (r: UploadEntry)
        ensures
            r == *self,
    {
        UploadEntry {
            id: self.id.clone(),
            object_key: self.object_key.clone(),
            local_path: self.local_path.clone(),
            retry_count: self.retry_count,
            next_retry_at: self.next_retry_at,
        }
    }
}

/// The queue that a list of entries describes, each under its id, a later entry
/// for an id taking the place of an earlier one.
pub open spec fn queue_of(s: Seq<UploadEntry>) -> Map<Seq<char>, UploadEntry>
    decreases s.len(),
{
    if s.len() == 0 {
        Map::empty()
    } else {
        queue_of(s.drop_last()).insert(s.last().id@, s.last())
    }
}

/// The entries of `s` whose next attempt is due at `now`, in order.
pub open spec fn due_at(s: Seq<UploadEntry>, now: i64) -> Seq<UploadEntry>
    decreases s.len(),
{
    if s.len() == 0 {
        seq![]
    } else {
        let r = due_at(s.drop_last(), now);
        if s.last().next_retry_at <= now {
            r.push(s.last())
        } else {
            r
        }
    }
}

/// No two entries of `s` share an id.
pub open spec fn distinct_ids(s: Seq<UploadEntry>) -> bool {
    forall|i: int, j: int| 0 <= i < j < s.len() ==> s[i].id@ != s[j].id@
}

/// `s` lists the entries of `q` once each: the ids are distinct, each entry is
/// the queue's entry under its id, every id of the queue is listed, and there
/// are as many entries as ids.
pub open spec fn lists_queue(s: Seq<UploadEntry>, q: Map<Seq<char>, UploadEntry>) -> bool {
    &&& distinct_ids(s)
    &&& q.dom().finite()
    &&& s.len() == q.dom().len()
    &&& forall|i: int|
        0 <= i < s.len() ==> q.dom().contains(#[trigger] s[i].id@) && q[s[i].id@] == s[i]
    &&& forall|k: Seq<char>|
        #[trigger] q.dom().contains(k) ==> exists|i: int| 0 <= i < s.len() && s[i].id@ == k
}

/// `s` lists the entries of `q` that are due at `now`, once each.
pub open spec fn lists_due(s: Seq<UploadEntry>, q: Map<Seq<char>, UploadEntry>, now: i64) -> bool {
    &&& distinct_ids(s)
    &&& forall|i: int|
        0 <= i < s.len() ==> q.dom().contains(#[trigger] s[i].id@) && q[s[i].id@] == s[i]
            && s[i].next_retry_at <= now
    &&& forall|k: Seq<char>|
        #[trigger] q.dom().contains(k) && q[k].next_retry_at <= now ==> exists|i: int|
            0 <= i < s.len() && s[i].id@ == k
}

/// The id of an entry enqueued at `now` for `object_key`: the key, ':' and the
/// time in decimal.
pub open spec fn entry_id_text(object_key: Seq<char>, now: i64) -> Seq<char> {
    object_key + seq![':'] + signed_decimal(now as int)
}

/// The entry that enqueueing `object_key` and `local_path` at `now` makes: never
/// tried, due at once.
pub open spec fn fresh_entry(e: UploadEntry, object_key: Seq<char>, local_path: Seq<char>, now: i64) -> bool {
    &&& e.id@ == entry_id_text(object_key, now)
    &&& e.object_key@ == object_key
    &&& e.local_path@ == local_path
    &&& e.retry_count == 0
    &&& e.next_retry_at == 0
}

/// The queue of recordings to upload, with the settings and the time of the last
/// failed liveman ping (0 for none).
pub struct UploadManager {
    cfg: UploadConfig,
    entries: KeyedTable<UploadEntry>,
    last_ping_fail: i64,
}

impl UploadManager {
    /// The settings.
    pub closed spec fn config(&self) -> UploadConfig {
        self.cfg
    }

    /// The queue, each entry under its id.
    pub closed spec fn queue(&self) -> Map<Seq<char>, UploadEntry> {
        self.entries@
    }

    /// The queue's entries in the order in which they came in.
    pub closed spec fn queued(&self) -> Seq<UploadEntry> {
        self.entries.items().map_values(|p: (Seq<char>, UploadEntry)| p.1)
    }

    /// The time of the last failed ping, 0 when the last ping succeeded or none failed.
    pub closed spec fn last_ping_failure(&self) -> i64 {
        self.last_ping_fail
    }

    #[verifier::type_invariant]
    spec fn entries_under_ids(self) -> bool {
        forall|i: int|
            0 <= i < self.entries.items().len() ==> (#[trigger] self.entries.items()[i]).1.id@
                == self.entries.items()[i].0
    }

    /// The queue holds each entry once, under its own id.
    pub closed spec fn wf(&self) -> bool {
        &&& self.entries.wf()
        &&& forall|i: int|
            0 <= i < self.entries.items().len() ==> (#[trigger] self.entries.items()[i]).1.id@
                == self.entries.items()[i].0
    }

    /// The entries in queue order are the queue's entries, each once.
    pub proof fn lemma_queued_lists_queue(&self)
        requires
            self.wf(),
        ensures
            lists_queue(self.queued(), self.queue()),
    {
        let items = self.entries.items();
        let q = self.queued();
        lemma_map_of_listing(items);
        assert forall|i: int, j: int| 0 <= i < j < q.len() implies q[i].id@ != q[j].id@ by {
            assert(items[i].1.id@ == items[i].0);
            assert(items[j].1.id@ == items[j].0);
        }
        assert forall|i: int| 0 <= i < q.len() implies self.queue().dom().contains(
            #[trigger] q[i].id@,
        ) && self.queue()[q[i].id@] == q[i] by {
            assert(items[i].1.id@ == items[i].0);
        }
        assert forall|k: Seq<char>| #[trigger] self.queue().dom().contains(k) implies exists|i: int|
            0 <= i < q.len() && q[i].id@ == k by {
            let i = choose|i: int| 0 <= i < items.len() && items[i].0 == k;
            assert(items[i].1.id@ == items[i].0);
            assert(q[i].id@ == k);
        }
    }

    proof fn lemma_queue_is_queue_of_queued(&self)
        requires
            self.wf(),
        ensures
            self.queue() == queue_of(self.queued()),
    {
        lemma_map_of_ids(self.entries.items());
    }

    /// A manager with the given settings and the queue that `entries` describes,
    /// a later entry for an id taking the place of an earlier one; no ping has
    /// failed yet.
    pub fn load(cfg: UploadConfig, entries: Vec<UploadEntry>) -> (m: UploadManager)
        ensures
            m.wf(),
            m.config() == cfg,
            m.queue() == queue_of(entries@),
            m.last_ping_failure() == 0,
    {
        let mut table: KeyedTable<UploadEntry> = KeyedTable::new();
        let ghost all = entries@;
        let mut i: usize = 0;
        let n = entries.len();
        proof {
            assert(all.take(0) =~= Seq::<UploadEntry>::empty());
        }
        while i < n
            invariant
                n == all.len(),
                i <= n,
                table.wf(),
                forall|j: int|
                    0 <= j < table.items().len() ==> (#[trigger] table.items()[j]).1.id@
                        == table.items()[j].0,
                table@ == queue_of(all.take(i as int)),
                entries@ == all,
            decreases n - i,
        {
            let e = entries[i].duplicate();
            let key = e.id.clone();
            let ghost before = table.items();
            table.insert(key, e);
            proof {
                assert(all.take(i + 1).drop_last() =~= all.take(i as int));
                assert forall|j: int| 0 <= j < table.items().len() implies (
                #[trigger] table.items()[j]).1.id@ == table.items()[j].0 by {
                    if j < before.len() {
                        assert(before[j].1.id@ == before[j].0);
                    }
                }
            }
            i = i + 1;
        }
        proof {
            assert(all.take(n as int) =~= all);
        }
        UploadManager { cfg, entries: table, last_ping_fail: 0 }
    }
}


impl UploadManager {
    /// The directory where recordings wait for upload.
    pub fn local_dir(&self) -> (d: String)
        ensures
            d@ == self.config().local_dir@,
    {
        self.cfg.local_dir.clone()
    }

    /// How many uploads may run at once: the configured number, at least one.
    pub fn concurrency_limit(&self) -> (n: usize)
        ensures
            n == (if self.config().concurrency < 1 {
                1
            } else {
                self.config().concurrency
            }),
    {
        if self.cfg.concurrency < 1 {
            1
        } else {
            self.cfg.concurrency
        }
    }

    /// The pause between two passes over the queue: the configured interval, at
    /// least 500 ms.
    pub fn poll_interval_ms(&self) -> (ms: u64)
        ensures
            ms == (if self.config().interval_ms < 500 {
                500
            } else {
                self.config().interval_ms
            }),
    {
        if self.cfg.interval_ms < 500 {
            500
        } else {
            self.cfg.interval_ms
        }
    }

    /// The entries of the queue, in order, as the queue file keeps them.
    pub fn queue_snapshot(&self) -> (v: Vec<UploadEntry>)
        ensures
            v@ == self.queued(),
            self.wf(),
            lists_queue(v@, self.queue()),
    {
        proof {
            use_type_invariant(self);
            use_type_invariant(&self.entries);
            self.lemma_queued_lists_queue();
        }
        let n = self.entries.len();
        let mut v: Vec<UploadEntry> = Vec::new();
        for i in 0..n
            invariant
                n == self.entries.items().len(),
                v@ == self.queued().take(i as int),
        {
            let e = self.entries.value_at(i).duplicate();
            v.push(e);
            assert(v@ =~= self.queued().take(i + 1));
        }
        assert(v@ =~= self.queued());
        v
    }

    /// The entries whose next attempt is due at `now`, in queue order.
    pub fn due_entries_at(&self, now: i64) -> (v: Vec<UploadEntry>)
        ensures
            v@ == due_at(self.queued(), now),
            self.wf(),
            lists_due(v@, self.queue(), now),
    {
        proof {
            use_type_invariant(self);
            use_type_invariant(&self.entries);
            self.lemma_queued_lists_queue();
            lemma_due_listing(self.queued(), self.queue(), now);
        }
        let n = self.entries.len();
        let mut v: Vec<UploadEntry> = Vec::new();
        for i in 0..n
            invariant
                n == self.entries.items().len(),
                self.queued().len() == n,
                v@ == due_at(self.queued().take(i as int), now),
        {
            let e = self.entries.value_at(i);
            assert(self.queued().take(i + 1).drop_last() =~= self.queued().take(i as int));
            if e.next_retry_at <= now {
                v.push(e.duplicate());
            }
        }
        assert(self.queued().take(n as int) =~= self.queued());
        v
    }

    /// The entries due now, by the clock: what `due_entries_at` gives for some
    /// reading of it.
    pub fn due_entries(&self) -> (v: Vec<UploadEntry>)
        ensures
            exists|now: i64|
                0 <= now < 9_000_000_000_000_000 && v@ == due_at(self.queued(), now) && lists_due(
                    v@,
                    self.queue(),
                    now,
                ),
    {
        let now = now_millis();
        self.due_entries_at(now)
    }

    /// Puts `entry` in the queue under its id, in the place of an entry with the
    /// same id.
    pub fn update_entry(&mut self, entry: UploadEntry)
        ensures
            old(self).wf(),
            final(self).wf(),
            final(self).queue() == old(self).queue().insert(entry.id@, entry),
            final(self).config() == old(self).config(),
            final(self).last_ping_failure() == old(self).last_ping_failure(),
    {
        proof {
            use_type_invariant(&*self);
            use_type_invariant(&self.entries);
        }
        let key = entry.id.clone();
        let ghost before = self.entries.items();
        let mut table: KeyedTable<UploadEntry> = KeyedTable::new();
        std::mem::swap(&mut table, &mut self.entries);
        table.insert(key, entry);
        proof {
            assert forall|j: int| 0 <= j < table.items().len() implies (
            #[trigger] table.items()[j]).1.id@ == table.items()[j].0 by {
                if j < before.len() {
                    assert(before[j].1.id@ == before[j].0);
                }
            }
        }
        self.entries = table;
    }

    /// Takes the entry with id `id` out of the queue, if there is one.
    pub fn remove_entry(&mut self, id: &str)
        ensures
            old(self).wf(),
            final(self).wf(),
            final(self).queue() == old(self).queue().remove(id@),
            final(self).config() == old(self).config(),
            final(self).last_ping_failure() == old(self).last_ping_failure(),
    {
        proof {
            use_type_invariant(&*self);
            use_type_invariant(&self.entries);
        }
        let ghost before = self.entries.items();
        let mut table: KeyedTable<UploadEntry> = KeyedTable::new();
        std::mem::swap(&mut table, &mut self.entries);
        let _ = table.remove(id);
        proof {
            assert forall|j: int| 0 <= j < table.items().len() implies (
            #[trigger] table.items()[j]).1.id@ == table.items()[j].0 by {
                if table.items() != before {
                    let i = choose|i: int|
                        0 <= i < before.len() && before[i].0 == id@ && table.items()
                            == before.remove(i);
                    if j < i {
                        assert(table.items()[j] == before[j]);
                    } else {
                        assert(table.items()[j] == before[j + 1]);
                    }
                }
            }
        }
        self.entries = table;
    }

    /// Puts a new entry for `object_key` and `local_path` in the queue, made at
    /// time `now`: its id is the key, ':' and `now`; it has not been tried and is
    /// due at once.
    pub fn enqueue_at(&mut self, object_key: String, local_path: String, now: i64)
        ensures
            final(self).wf(),
            exists|e: UploadEntry|
                fresh_entry(e, object_key@, local_path@, now) && final(self).queue()
                    == old(self).queue().insert(e.id@, e),
            final(self).config() == old(self).config(),
            final(self).last_ping_failure() == old(self).last_ping_failure(),
    {
        let ghost key = object_key@;
        let ghost path = local_path@;
        let mut id = concat(object_key.as_str(), ":");
        proof {
            reveal_strlit(":");
            assert(":"@ =~= seq![':']);
        }
        push_signed_decimal(&mut id, now);
        let entry = UploadEntry {
            id,
            object_key,
            local_path,
            retry_count: 0,
            next_retry_at: 0,
        };
        let ghost e = entry;
        proof {
            assert(e.id@ =~= entry_id_text(key, now));
            assert(fresh_entry(e, key, path, now));
        }
        self.update_entry(entry);
    }

    /// `enqueue_at` at the time the clock gives.
    pub fn enqueue(&mut self, object_key: String, local_path: String)
        ensures
            final(self).wf(),
            exists|now: i64, e: UploadEntry|
                0 <= now < 9_000_000_000_000_000 && fresh_entry(e, object_key@, local_path@, now) && final(self).queue()
                    == old(self).queue().insert(e.id@, e),
            final(self).config() == old(self).config(),
            final(self).last_ping_failure() == old(self).last_ping_failure(),
    {
        let now = now_millis();
        self.enqueue_at(object_key, local_path, now);
    }
}


/// Two to the power `n`.
pub open spec fn pow2(n: nat) -> nat
    decreases n,
{
    if n == 0 {
        1
    } else {
        2 * pow2((n - 1) as nat)
    }
}

proof fn lemma_pow2_monotone(a: nat, b: nat)
    requires
        a <= b,
    ensures
        pow2(a) <= pow2(b),
    decreases b,
{
    if a < b {
        lemma_pow2_monotone(a, (b - 1) as nat);
    }
}

/// The wait before the next attempt after `retry` failed attempts: 5 s doubled
/// once per failure (at most ten times), capped at 10 min and never under 5 s.
pub open spec fn backoff_delay(retry: u32) -> int {
    let doubled: int = 5000 * (pow2(if retry < 10 { retry as nat } else { 10 }) as int);
    let capped: int = if doubled < 600000 { doubled } else { 600000 };
    if capped < 5000 { 5000 } else { capped }
}

/// The wait, in milliseconds, before the next attempt after `retry` failures.
pub fn backoff_delay_ms(retry: u32) -> (d: i64)
    ensures
        d == backoff_delay(retry),
{
    let e: u32 = if retry < 10 { retry } else { 10 };
    let mut m: i64 = 1;
    let mut k: u32 = 0;
    while k < e
        invariant
            k <= e <= 10,
            m == pow2(k as nat),
        decreases e - k,
    {
        proof {
            lemma_pow2_monotone(k as nat, 9);
            reveal_with_fuel(pow2, 10);
        }
        m = m * 2;
        k = k + 1;
    }
    proof {
        lemma_pow2_monotone(k as nat, 10);
        reveal_with_fuel(pow2, 11);
    }
    let doubled: i64 = 5000 * m;
    let capped: i64 = if doubled < 600000 { doubled } else { 600000 };
    if capped < 5000 { 5000 } else { capped }
}

/// The wait after a failure is between 5 s and 10 min.
pub proof fn lemma_backoff_bounds(retry: u32)
    ensures
        5000 <= backoff_delay(retry) <= 600000,
{
}

/// More failures never shorten the wait.
pub proof fn lemma_backoff_monotone(a: u32, b: u32)
    requires
        a <= b,
    ensures
        backoff_delay(a) <= backoff_delay(b),
{
    let ea: nat = if a < 10 { a as nat } else { 10 };
    let eb: nat = if b < 10 { b as nat } else { 10 };
    lemma_pow2_monotone(ea, eb);
}

/// The time of the next attempt after `retry` failures, the last at `now`.
pub fn retry_at(retry: u32, now: i64) -> (t: i64)
    requires
        now + backoff_delay(retry) <= i64::MAX,
    ensures
        t == now + backoff_delay(retry),
{
    let d = backoff_delay_ms(retry);
    now + d
}

/// The time of the next attempt after `retry` failures, counted from the time
/// the clock gives: a backoff after some reading of the clock.
pub fn backoff_ts(retry: u32) -> (t: i64)
    ensures
        backoff_delay(retry) <= t < 9_000_000_000_000_000 + backoff_delay(retry),
{
    let now = now_millis();
    proof {
        lemma_backoff_bounds(retry);
    }
    retry_at(retry, now)
}

/// `e` after one more failed attempt, the failure seen at `now`: one more
/// retry, and the next attempt a backoff later.
pub open spec fn rescheduled(e: UploadEntry, now: i64) -> UploadEntry {
    UploadEntry {
        retry_count: (e.retry_count + 1) as u32,
        next_retry_at: (now + backoff_delay((e.retry_count + 1) as u32)) as i64,
        ..e
    }
}

/// One more failure counts once and waits the backoff of the new count, from
/// the moment of the failure; the entry is otherwise the same.
pub proof fn lemma_rescheduled_fields(e: UploadEntry, now: i64)
    requires
        e.retry_count < u32::MAX,
        now + 600000 <= i64::MAX,
    ensures
        rescheduled(e, now).id == e.id,
        rescheduled(e, now).object_key == e.object_key,
        rescheduled(e, now).local_path == e.local_path,
        rescheduled(e, now).retry_count == e.retry_count + 1,
        rescheduled(e, now).next_retry_at == now + backoff_delay((e.retry_count + 1) as u32),
        rescheduled(e, now).next_retry_at >= now + 5000,
{
    lemma_backoff_bounds((e.retry_count + 1) as u32);
}

/// The backoff starts at 5 s and each further failure doubles it, up to 10 min.
pub proof fn lemma_backoff_doubles(r: u32)
    ensures
        backoff_delay(0) == 5000,
        r < u32::MAX ==> backoff_delay((r + 1) as u32) == (if 2 * backoff_delay(r) < 600000 {
            2 * backoff_delay(r)
        } else {
            600000
        }),
{
    reveal_with_fuel(pow2, 11);
    if r < 10 {
        assert(pow2((r + 1) as nat) == 2 * pow2(r as nat));
        lemma_pow2_monotone(r as nat, 9);
    }
    if r >= 9 {
        lemma_pow2_monotone(7, if r < 10 { r as nat } else { 10 });
    }
}

/// `entry` after one more failed attempt, seen at `now`.
pub fn failed_attempt(entry: UploadEntry, now: i64) -> (r: UploadEntry)
    requires
        entry.retry_count < u32::MAX,
        now + 600000 <= i64::MAX,
    ensures
        r == rescheduled(entry, now),
        r.id == entry.id,
        r.object_key == entry.object_key,
        r.local_path == entry.local_path,
        r.retry_count == entry.retry_count + 1,
        r.next_retry_at == now + backoff_delay((entry.retry_count + 1) as u32),
{
    let retry_count = entry.retry_count + 1;
    proof {
        lemma_backoff_bounds(retry_count);
    }
    let next_retry_at = retry_at(retry_count, now);
    UploadEntry { retry_count, next_retry_at, ..entry }
}

/// What became of an upload attempt.
pub enum UploadOutcome {
    /// The object is stored; the entry has left the queue.
    Uploaded,
    /// Storage refused it; the entry, as rescheduled, is back in the queue.
    Retry(UploadEntry),
}

/// A request to liveman: where it goes and its authorization header, if any.
pub struct LivemanCall {
    pub url: String,
    pub authorization: Option<String>,
}

/// The authorization header for `token`: none for an empty token, a bearer
/// token otherwise.
pub open spec fn bearer(token: Seq<char>) -> Option<Seq<char>> {
    if token.len() == 0 {
        None
    } else {
        Some("Bearer "@ + token)
    }
}

/// `c` is the request to `route` of liveman as `cfg` reaches it: the base
/// address without trailing '/' followed by the route, with the bearer token.
pub open spec fn is_liveman_call(c: LivemanCall, cfg: UploadConfig, route: Seq<char>) -> bool {
    &&& c.url@ == trim_end_char(cfg.liveman_url@, '/') + route
    &&& c.authorization.deep_view() == bearer(cfg.liveman_token@)
}

/// A ping that failed less than 5 s before `now` holds liveman for unavailable.
pub open spec fn ping_throttled(last_fail: i64, now: i64) -> bool {
    last_fail != 0 && now - last_fail < 5000
}

/// What to do to learn whether liveman is available.
pub enum PingPlan {
    /// Hold it for unavailable without asking.
    Unavailable,
    /// Ping it with `call`; the attempt started at `started_at`.
    Send { call: LivemanCall, started_at: i64 },
}

/// The request body that asks liveman for a presigned address.
pub struct PresignRequest {
    pub method: String,
    pub path: String,
    pub ttl_seconds: u64,
}

/// Liveman's answer: the presigned address and the headers to send with it.
pub struct PresignResponse {
    pub url: String,
    pub headers: Vec<(String, String)>,
}

/// The headers of `s` that the `http` crate accepts as a name and a value, in order.
pub open spec fn accepted_headers(s: Seq<(Seq<char>, Seq<char>)>) -> Seq<(Seq<char>, Seq<char>)>
    decreases s.len(),
{
    if s.len() == 0 {
        seq![]
    } else {
        let r = accepted_headers(s.drop_last());
        if valid_header_name(s.last().0) && valid_header_value(s.last().1) {
            r.push(s.last())
        } else {
            r
        }
    }
}

/// The headers of a presigned upload that go out with it: those whose name and
/// value the `http` crate accepts; the others are left out.
pub fn request_headers(headers: &Vec<(String, String)>) -> (r: Vec<(String, String)>)
    ensures
        r.deep_view() == accepted_headers(headers.deep_view()),
{
    let n = headers.len();
    let mut r: Vec<(String, String)> = Vec::new();
    for i in 0..n
        invariant
            n == headers@.len(),
            r.deep_view() == accepted_headers(headers.deep_view().take(i as int)),
    {
        assert(headers.deep_view().take(i + 1).drop_last() =~= headers.deep_view().take(i as int));
        let name = &headers[i].0;
        let value = &headers[i].1;
        if header_name_accepted(name.as_str()) && header_value_accepted(value.as_str()) {
            r.push((name.clone(), value.clone()));
            assert(r.deep_view() =~= accepted_headers(headers.deep_view().take(i + 1)));
        }
    }
    assert(headers.deep_view().take(n as int) =~= headers.deep_view());
    r
}

/// Why liveman gave no presigned address.
pub enum PresignFailure {
    /// It answered with this status, which is no success.
    Refused(u16),
    /// It answered with success, but the body is no presign answer.
    Unreadable,
}

/// What liveman's answer to a presign request comes to, from its status code
/// and its body read as a presign answer (none where it is not one): the answer
/// when the status is a success and the body reads, a refusal with the status
/// when the status is no success, and an unreadable answer otherwise.
pub fn presign_answer(status: u16, body: Option<PresignResponse>) -> (r: Result<PresignResponse, PresignFailure>)
    ensures
        !(200 <= status < 300) ==> r == Err::<PresignResponse, PresignFailure>(PresignFailure::Refused(status)),
        200 <= status < 300 ==> match body {
            Some(b) => r == Ok::<PresignResponse, PresignFailure>(b),
            None => r == Err::<PresignResponse, PresignFailure>(PresignFailure::Unreadable),
        },
{
    if !status_is_success(status) {
        return Err(PresignFailure::Refused(status));
    }
    match body {
        Some(b) => Ok(b),
        None => Err(PresignFailure::Unreadable),
    }
}

/// With more failures the next attempt, counted from the same moment, never
/// comes earlier.
pub proof fn lemma_retry_time_monotone(a: u32, b: u32, now: int)
    requires
        a <= b,
    ensures
        now + backoff_delay(a) <= now + backoff_delay(b),
{
    lemma_backoff_monotone(a, b);
}

/// Whether an HTTP status code means success: 200 to 299, as `http` has it.
pub fn is_success_status(status: u16) -> (ok: bool)
    ensures
        ok == (200 <= status < 300),
{
    status_is_success(status)
}

impl UploadManager {
    fn liveman_call(&self, route: &str) -> (c: LivemanCall)
        ensures
            is_liveman_call(c, self.config(), route@),
    {
        let base = trim_end_matching(self.cfg.liveman_url.as_str(), '/');
        let url = concat(base.as_str(), route);
        let authorization = if self.cfg.liveman_token.as_str().is_empty() {
            None
        } else {
            Some(concat("Bearer ", self.cfg.liveman_token.as_str()))
        };
        LivemanCall { url, authorization }
    }

    /// How to check liveman at `now`: not at all when its address is blank or a
    /// ping failed less than 5 s ago; otherwise a ping of its storage route.
    pub fn ping_plan_at(&self, now: i64) -> (p: PingPlan)
        ensures
            (trim(self.config().liveman_url@).len() == 0 || ping_throttled(
                self.last_ping_failure(),
                now,
            )) ==> p is Unavailable,
            !(trim(self.config().liveman_url@).len() == 0 || ping_throttled(
                self.last_ping_failure(),
                now,
            )) ==> (p matches PingPlan::Send { call, started_at } && started_at == now
                && is_liveman_call(call, self.config(), "/api/storage/ping"@)),
    {
        if is_blank(self.cfg.liveman_url.as_str()) {
            return PingPlan::Unavailable;
        }
        let last = self.last_ping_fail;
        if last != 0 && (now as i128) - (last as i128) < 5000 {
            return PingPlan::Unavailable;
        }
        let call = self.liveman_call("/api/storage/ping");
        PingPlan::Send { call, started_at: now }
    }

    /// `ping_plan_at` for the time the clock gives; the clock is read only when
    /// liveman's address is not blank.
    pub fn ping_plan(&self) -> (p: PingPlan)
        ensures
            trim(self.config().liveman_url@).len() == 0 ==> p is Unavailable,
            trim(self.config().liveman_url@).len() != 0 ==> exists|now: i64|
                0 <= now < 9_000_000_000_000_000 && (if ping_throttled(self.last_ping_failure(), now) {
                    p is Unavailable
                } else {
                    (p matches PingPlan::Send { call, started_at } && started_at == now
                        && is_liveman_call(call, self.config(), "/api/storage/ping"@))
                }),
    {
        if is_blank(self.cfg.liveman_url.as_str()) {
            return PingPlan::Unavailable;
        }
        let now = now_millis();
        self.ping_plan_at(now)
    }

    /// Takes in the answer to a ping started at `started_at`: the status code,
    /// or none when no answer came. Liveman is available when the status means
    /// success; a failure is remembered with its time, a success clears it.
    pub fn record_ping(&mut self, started_at: i64, status: Option<u16>) -> (available: bool)
        ensures
            available == (status matches Some(code) && 200 <= code < 300),
            final(self).last_ping_failure() == (if available {
                0
            } else {
                started_at
            }),
            final(self).queue() == old(self).queue(),
            final(self).queued() == old(self).queued(),
            final(self).config() == old(self).config(),
            final(self).wf(),
    {
        proof {
            use_type_invariant(&*self);
            use_type_invariant(&self.entries);
        }
        let available = match status {
            Some(code) => status_is_success(code),
            None => false,
        };
        self.last_ping_fail = if available { 0 } else { started_at };
        available
    }

    /// The request that asks liveman for an address to upload `object_key` to:
    /// a PUT of that path, valid for the configured time but at least 30 s.
    pub fn presign_put(&self, object_key: &str) -> (r: (LivemanCall, PresignRequest))
        ensures
            is_liveman_call(r.0, self.config(), "/api/storage/presign"@),
            r.1.method@ == "PUT"@,
            r.1.path@ == object_key@,
            r.1.ttl_seconds == (if self.config().presign_ttl_seconds < 30 {
                30
            } else {
                self.config().presign_ttl_seconds
            }),
    {
        let call = self.liveman_call("/api/storage/presign");
        let ttl_seconds = if self.cfg.presign_ttl_seconds < 30 {
            30
        } else {
            self.cfg.presign_ttl_seconds
        };
        let request = PresignRequest { method: owned("PUT"), path: owned(object_key), ttl_seconds };
        (call, request)
    }

    /// Takes in how an upload of `entry` ended, by the status code of the upload.
    /// On success the entry leaves the queue. Otherwise it is rescheduled from
    /// the time the clock gives and put back under its id.
    pub fn finish_upload(&mut self, entry: UploadEntry, status: u16) -> (r: UploadOutcome)
        requires
            !(200 <= status < 300) ==> entry.retry_count < u32::MAX,
        ensures
            final(self).wf(),
            final(self).config() == old(self).config(),
            final(self).last_ping_failure() == old(self).last_ping_failure(),
            200 <= status < 300 ==> (r is Uploaded && final(self).queue() == old(self).queue().remove(
                entry.id@,
            )),
            !(200 <= status < 300) ==> exists|now: i64|
                0 <= now < 9_000_000_000_000_000 && r == UploadOutcome::Retry(rescheduled(entry, now))
                    && final(self).queue() == old(self).queue().insert(
                    entry.id@,
                    rescheduled(entry, now),
                ),
    {
        if status_is_success(status) {
            self.remove_entry(entry.id.as_str());
            UploadOutcome::Uploaded
        } else {
            let now = now_millis();
            let updated = failed_attempt(entry, now);
            let kept = updated.duplicate();
            self.update_entry(updated);
            UploadOutcome::Retry(kept)
        }
    }
}

/// Restarting keeps the queue: the entries in queue order, read back in that
/// order, describe the same queue.
pub proof fn lemma_reload_keeps_queue(m: UploadManager)
    requires
        m.wf(),
    ensures
        queue_of(m.queued()) == m.queue(),
{
    m.lemma_queue_is_queue_of_queued();
}


/// A failed ping at `t` (not the zero that means "none") keeps every check
/// made less than 5 s later from pinging again; a successful ping leaves no
/// such hold.
pub proof fn lemma_ping_hold(t: i64, now: i64)
    ensures
        t != 0 && now - t < 5000 ==> ping_throttled(t, now),
        !ping_throttled(0, now),
        now - t >= 5000 ==> !ping_throttled(t, now),
{
}

/// `p` without what follows its last component: trailing '/' characters and
/// trailing "." components, which `Path` does not count as components.
pub open spec fn path_end_trimmed(p: Seq<char>) -> Seq<char>
    decreases p.len(),
{
    if p.len() > 0 && p.last() == '/' {
        path_end_trimmed(p.drop_last())
    } else if p.len() >= 2 && p.last() == '.' && p[p.len() - 2] == '/' {
        path_end_trimmed(p.drop_last())
    } else {
        p
    }
}

/// The characters after the last '/' of `q`.
pub open spec fn last_component(q: Seq<char>) -> Seq<char>
    decreases q.len(),
{
    if q.len() == 0 || q.last() == '/' {
        Seq::empty()
    } else {
        last_component(q.drop_last()).push(q.last())
    }
}

/// The file name of a Unix path, as `Path::file_name` finds it: the last
/// component, unless it is missing, "." or "..".
pub open spec fn has_file_name(p: Seq<char>) -> bool {
    let name = last_component(path_end_trimmed(p));
    name.len() != 0 && name != seq!['.'] && name != seq!['.', '.']
}

/// Where the queue file is written before it takes the place of `p`: the path
/// up to the end of its file name with ".tmp" after it (what giving the file
/// name's extension, or "tmp" where it has none, a ".tmp" suffix amounts to);
/// `p` itself when it has no file name.
pub open spec fn tmp_path(p: Seq<char>) -> Seq<char> {
    if has_file_name(p) {
        path_end_trimmed(p) + seq!['.', 't', 'm', 'p']
    } else {
        p
    }
}

/// The queue file is never its own temporary file.
pub proof fn lemma_tmp_path_differs(p: Seq<char>)
    requires
        has_file_name(p),
    ensures
        tmp_path(p) != p,
{
    let q = path_end_trimmed(p);
    let t = q + seq!['.', 't', 'm', 'p'];
    lemma_path_end_trimmed_prefix(p);
    if t == p {
        assert(t.last() == 'p');
        assert(path_end_trimmed(t) == t);
        assert(q.len() == p.len());
    }
}

proof fn lemma_path_end_trimmed_prefix(p: Seq<char>)
    ensures
        path_end_trimmed(p).len() <= p.len(),
        path_end_trimmed(p) == p.subrange(0, path_end_trimmed(p).len() as int),
    decreases p.len(),
{
    if p.len() > 0 && p.last() == '/' {
        lemma_path_end_trimmed_prefix(p.drop_last());
    } else if p.len() >= 2 && p.last() == '.' && p[p.len() - 2] == '/' {
        lemma_path_end_trimmed_prefix(p.drop_last());
    }
    assert(path_end_trimmed(p) =~= p.subrange(0, path_end_trimmed(p).len() as int));
}

/// The path that the queue file is written to before it replaces `path`
/// (Unix paths): see `tmp_path`.
pub fn tmp_path_for(path: &str) -> (r: String)
    ensures
        r@ == tmp_path(path@),
{
    let v = crate::text::chars_of(path);
    let n = v.len();
    let mut hi: usize = n;
    assert(v@.subrange(0, n as int) =~= v@);
    while hi > 0 && (v[hi - 1] == '/' || (hi >= 2 && v[hi - 1] == '.' && v[hi - 2] == '/'))
        invariant
            hi <= n == v@.len(),
            path_end_trimmed(v@) == path_end_trimmed(v@.subrange(0, hi as int)),
        decreases hi,
    {
        assert(v@.subrange(0, hi as int).drop_last() =~= v@.subrange(0, hi - 1));
        hi = hi - 1;
    }
    let ghost q = v@.subrange(0, hi as int);
    assert(path_end_trimmed(q) == q);
    let mut lo: usize = hi;
    while lo > 0 && v[lo - 1] != '/'
        invariant
            lo <= hi,
            hi <= n == v@.len(),
            q == v@.subrange(0, hi as int),
            last_component(q) == last_component(v@.subrange(0, lo as int)) + v@.subrange(
                lo as int,
                hi as int,
            ),
        decreases lo,
    {
        let ghost f = v@.subrange(0, lo as int);
        assert(f.drop_last() =~= v@.subrange(0, lo - 1));
        assert(last_component(f) == last_component(f.drop_last()).push(f.last()));
        assert(last_component(f.drop_last()).push(f.last()) + v@.subrange(lo as int, hi as int)
            =~= last_component(f.drop_last()) + v@.subrange(lo - 1, hi as int));
        lo = lo - 1;
    }
    assert(last_component(v@.subrange(0, lo as int)) =~= Seq::<char>::empty());
    assert(last_component(q) =~= v@.subrange(lo as int, hi as int));
    let len = hi - lo;
    let no_name = len == 0 || (len == 1 && v[lo] == '.') || (len == 2 && v[lo] == '.' && v[lo
        + 1] == '.');
    proof {
        let name = v@.subrange(lo as int, hi as int);
        if len == 1 && v[lo as int] == '.' {
            assert(name =~= seq!['.']);
        }
        if len == 2 && v[lo as int] == '.' && v[lo + 1] == '.' {
            assert(name =~= seq!['.', '.']);
        }
        if name == seq!['.'] {
            assert(name[0] == '.');
        }
        if name == seq!['.', '.'] {
            assert(name[0] == '.' && name[1] == '.');
        }
    }
    if no_name {
        return crate::text::string_from_chars(v.as_slice());
    }
    let mut out = crate::text::chars_between(v.as_slice(), 0, hi);
    out.push('.');
    out.push('t');
    out.push('m');
    out.push('p');
    assert(out@ =~= q + seq!['.', 't', 'm', 'p']);
    crate::text::string_from_chars(out.as_slice())
}


/// A pass over the queue at `now` picks exactly the entries whose next attempt
/// is due, in queue order: each picked entry is in the queue and due, and each
/// due entry of the queue is picked.
pub proof fn lemma_due_selection(s: Seq<UploadEntry>, now: i64)
    ensures
        forall|i: int|
            0 <= i < due_at(s, now).len() ==> s.contains(#[trigger] due_at(s, now)[i])
                && due_at(s, now)[i].next_retry_at <= now,
        forall|i: int|
            0 <= i < s.len() && (#[trigger] s[i]).next_retry_at <= now ==> due_at(s, now).contains(
                s[i],
            ),
    decreases s.len(),
{
    if s.len() > 0 {
        let front = s.drop_last();
        lemma_due_selection(front, now);
        let r = due_at(front, now);
        assert forall|i: int|
            0 <= i < due_at(s, now).len() implies s.contains(#[trigger] due_at(s, now)[i])
            && due_at(s, now)[i].next_retry_at <= now by {
            if i < r.len() {
                assert(due_at(s, now)[i] == r[i]);
                let j = choose|j: int| 0 <= j < front.len() && front[j] == r[i];
                assert(s[j] == r[i]);
            } else {
                assert(s[s.len() - 1] == due_at(s, now)[i]);
            }
        }
        assert forall|i: int|
            0 <= i < s.len() && (#[trigger] s[i]).next_retry_at <= now implies due_at(
            s,
            now,
        ).contains(s[i]) by {
            if i < front.len() {
                assert(front[i] == s[i]);
                let j = choose|j: int| 0 <= j < r.len() && r[j] == s[i];
                assert(due_at(s, now)[j] == s[i]);
            } else {
                assert(due_at(s, now)[r.len() as int] == s[i]);
            }
        }
    }
}

/// Picking the due entries of a listing of the queue lists the due entries of
/// the queue, each once: one upload per due entry.
pub proof fn lemma_due_listing(s: Seq<UploadEntry>, q: Map<Seq<char>, UploadEntry>, now: i64)
    requires
        lists_queue(s, q),
    ensures
        lists_due(due_at(s, now), q, now),
{
    lemma_due_selection(s, now);
    lemma_due_distinct(s, now);
    let d = due_at(s, now);
    assert forall|i: int| 0 <= i < d.len() implies q.dom().contains(#[trigger] d[i].id@) && q[
        d[i].id@] == d[i] && d[i].next_retry_at <= now by {
        let j = choose|j: int| 0 <= j < s.len() && s[j] == d[i];
        assert(q.dom().contains(s[j].id@));
    }
    assert forall|k: Seq<char>| #[trigger] q.dom().contains(k) && q[k].next_retry_at <= now implies exists|i: int|
        0 <= i < d.len() && d[i].id@ == k by {
        let j = choose|j: int| 0 <= j < s.len() && s[j].id@ == k;
        assert(q[s[j].id@] == s[j]);
        assert(d.contains(s[j]));
        let i = choose|i: int| 0 <= i < d.len() && d[i] == s[j];
        assert(d[i].id@ == k);
    }
}

proof fn lemma_due_distinct(s: Seq<UploadEntry>, now: i64)
    requires
        distinct_ids(s),
    ensures
        distinct_ids(due_at(s, now)),
    decreases s.len(),
{
    if s.len() > 0 {
        let front = s.drop_last();
        assert(distinct_ids(front)) by {
            assert forall|i: int, j: int| 0 <= i < j < front.len() implies front[i].id@
                != front[j].id@ by {
                assert(front[i] == s[i] && front[j] == s[j]);
            }
        }
        lemma_due_distinct(front, now);
        lemma_due_selection(front, now);
        let r = due_at(front, now);
        if s.last().next_retry_at <= now {
            let d = r.push(s.last());
            assert forall|i: int, j: int| 0 <= i < j < d.len() implies d[i].id@ != d[j].id@ by {
                if j == r.len() {
                    let k = choose|k: int| 0 <= k < front.len() && front[k] == r[i];
                    assert(s[k] == r[i]);
                    assert(s[s.len() - 1] == s.last());
                } else {
                    assert(d[i] == r[i] && d[j] == r[j]);
                }
            }
        }
    }
}

/// A new entry is due at once: any pass at a time from the epoch on picks it.
pub proof fn lemma_fresh_entry_due(e: UploadEntry, object_key: Seq<char>, local_path: Seq<char>, t: i64, now: i64)
    requires
        fresh_entry(e, object_key, local_path, t),
        now >= 0,
    ensures
        e.next_retry_at <= now,
{
}

proof fn lemma_map_of_ids(s: Seq<(Seq<char>, UploadEntry)>)
    requires
        forall|i: int| 0 <= i < s.len() ==> (#[trigger] s[i]).1.id@ == s[i].0,
    ensures
        map_of(s) == queue_of(s.map_values(|p: (Seq<char>, UploadEntry)| p.1)),
    decreases s.len(),
{
    if s.len() > 0 {
        let front = s.drop_last();
        assert forall|i: int| 0 <= i < front.len() implies (#[trigger] front[i]).1.id@
            == front[i].0 by {
            assert(front[i] == s[i]);
        }
        lemma_map_of_ids(front);
        let vals = s.map_values(|p: (Seq<char>, UploadEntry)| p.1);
        assert(vals.drop_last() =~= front.map_values(|p: (Seq<char>, UploadEntry)| p.1));
        assert(s[s.len() - 1].1.id@ == s[s.len() - 1].0);
    }
}

} // verus!
