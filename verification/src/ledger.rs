//! The usage ledger: a durable, append-only record of every generation
//! attempt, plus a single-row cache of account status.
//!
//! Records are kept ordered by timestamp (non-decreasing); every query is
//! specified over that ordered sequence.  Identities are assigned on insert
//! and never reused.  Records are never updated in place: they are inserted,
//! aggregated over, or removed in bulk by retention cleanup.

use vstd::prelude::*;

verus! {

/// Seconds in one day; timestamps are unix seconds, days are counted from the
/// unix epoch.
pub const SECS_PER_DAY: i64 = 86400;

/// One generation attempt, as the ledger stores it.
///
/// `text` is the stored prefix of the request text (UTF-8 bytes, truncated
/// for storage economy); `character_count` is the character count of the
/// full, untruncated text.  `timestamp` is unix seconds.
#[derive(Debug)]
pub struct UsageRecord {
    /// Assigned by the ledger on insert; `None` before.
    pub id: Option<i64>,
    pub timestamp: i64,
    pub text: Vec<u8>,
    pub character_count: i32,
    pub voice_id: String,
    pub model_id: String,
    pub success: bool,
    pub error_message: Option<String>,
}

/// Mathematical image of a [`UsageRecord`].
#[verifier::ext_equal]
pub ghost struct RecordView {
    pub id: Option<i64>,
    pub timestamp: int,
    pub text: Seq<u8>,
    pub character_count: int,
    pub voice_id: Seq<char>,
    pub model_id: Seq<char>,
    pub success: bool,
    pub error_message: Option<Seq<char>>,
}

impl View for UsageRecord {
    type V = RecordView;

    open spec fn view(&self) -> RecordView {
        RecordView {
            id: self.id,
            timestamp: self.timestamp as int,
            text: self.text@,
            character_count: self.character_count as int,
            voice_id: self.voice_id@,
            model_id: self.model_id@,
            success: self.success,
            error_message: match self.error_message {
                Some(ref m) => Some(m@),
                None => None,
            },
        }
    }
}

/// Cached account/usage status; at most one instance exists at a time.
/// `reset_date` and `last_updated` are unix seconds.
#[derive(Debug)]
pub struct UserInfo {
    pub subscription_tier: String,
    pub character_limit: i32,
    pub character_used: i32,
    pub characters_remaining: i32,
    pub reset_date: i64,
    pub last_updated: i64,
}

/// Mathematical image of a [`UserInfo`].
#[verifier::ext_equal]
pub ghost struct InfoView {
    pub subscription_tier: Seq<char>,
    pub character_limit: int,
    pub character_used: int,
    pub characters_remaining: int,
    pub reset_date: int,
    pub last_updated: int,
}

impl View for UserInfo {
    type V = InfoView;

    open spec fn view(&self) -> InfoView {
        InfoView {
            subscription_tier: self.subscription_tier@,
            character_limit: self.character_limit as int,
            character_used: self.character_used as int,
            characters_remaining: self.characters_remaining as int,
            reset_date: self.reset_date as int,
            last_updated: self.last_updated as int,
        }
    }
}

/// One day of the per-day usage rollup.  `date` is the day number since the
/// unix epoch (timestamp divided by [`SECS_PER_DAY`]).
#[derive(Debug, Clone, Copy, PartialEq, Eq, Structural)]
pub struct DailyUsage {
    pub date: i64,
    pub character_count: i64,
    pub request_count: i64,
}

/// Mathematical image of a [`DailyUsage`].
pub ghost struct DailyView {
    pub date: int,
    pub character_count: int,
    pub request_count: int,
}

impl View for DailyUsage {
    type V = DailyView;

    open spec fn view(&self) -> DailyView {
        DailyView {
            date: self.date as int,
            character_count: self.character_count as int,
            request_count: self.request_count as int,
        }
    }
}

/// Aggregate usage over a trailing window, derived and never persisted.
#[derive(Debug)]
pub struct UsageStats {
    pub total_requests: i64,
    pub total_characters: i64,
    pub successful_requests: i64,
    pub failed_requests: i64,
    pub most_used_voice: String,
    pub daily_usage: Vec<DailyUsage>,
}

/// Copy a byte vector.
pub fn copy_bytes(v: &Vec<u8>) -> (c: Vec<u8>)
    ensures
        c@ == v@,
{
    let mut c: Vec<u8> = Vec::new();
    let mut i: usize = 0;
    while i < v.len()
        invariant
            i <= v.len(),
            c@ == v@.take(i as int),
        decreases v.len() - i,
    {
        proof {
            assert(v@.take(i + 1) =~= v@.take(i as int).push(v@[i as int]));
        }
        c.push(v[i]);
        i = i + 1;
    }
    proof {
        assert(v@.take(v@.len() as int) =~= v@);
    }
    c
}

/// Copy a record; the copy has the same mathematical image.
pub fn copy_record(r: &UsageRecord) -> (c: UsageRecord)
    ensures
        c@ == r@,
{
    let c = UsageRecord {
        id: r.id,
        timestamp: r.timestamp,
        text: copy_bytes(&r.text),
        character_count: r.character_count,
        voice_id: r.voice_id.clone(),
        model_id: r.model_id.clone(),
        success: r.success,
        error_message: match &r.error_message {
            Some(m) => Some(m.clone()),
            None => None,
        },
    };
    proof {
        assert(c@ =~= r@);
    }
    c
}

/// Copy an account-status snapshot; the copy has the same image.
pub fn copy_info(u: &UserInfo) -> (c: UserInfo)
    ensures
        c@ == u@,
{
    let c = UserInfo {
        subscription_tier: u.subscription_tier.clone(),
        character_limit: u.character_limit,
        character_used: u.character_used,
        characters_remaining: u.characters_remaining,
        reset_date: u.reset_date,
        last_updated: u.last_updated,
    };
    proof {
        assert(c@ =~= u@);
    }
    c
}

/// A record the ledger accepts: the attempt time is non-negative and the
/// character count is a non-negative 32-bit count.
pub open spec fn rec_input_valid(r: RecordView) -> bool {
    r.timestamp >= 0 && 0 <= r.character_count <= i32::MAX
}

/// Where a record with timestamp `ts` is inserted into the ordered sequence
/// `rs`: after every record whose timestamp is not later.
pub open spec fn insert_pos(rs: Seq<RecordView>, ts: int) -> int
    decreases rs.len(),
{
    if rs.len() == 0 {
        0
    } else if rs.last().timestamp <= ts {
        rs.len() as int
    } else {
        insert_pos(rs.drop_last(), ts)
    }
}

/// The usage ledger.  Owns the persisted records and the account-status
/// cache; the pipeline touches storage only through it.
pub struct Ledger {
    records: Vec<UsageRecord>,
    cached_info: Option<UserInfo>,
    next_id: i64,
}

impl Ledger {
    /// The stored records, oldest first (ties keep insertion order).
    pub closed spec fn recs(&self) -> Seq<RecordView> {
        self.records@.map_values(|r: UsageRecord| r@)
    }

    /// The cached account status, if any.
    pub closed spec fn cached(&self) -> Option<InfoView> {
        match self.cached_info {
            Some(ref u) => Some(u@),
            None => None,
        }
    }

    /// The identity the next inserted record receives.
    pub closed spec fn next_id_spec(&self) -> int {
        self.next_id as int
    }

    /// The ledger's invariant: records are ordered by timestamp and valid,
    /// every stored record has a unique identity below `next_id`, and there
    /// is always room for one more identity count.
    pub open spec fn wf(&self) -> bool {
        &&& forall|i: int, j: int|
            0 <= i <= j < self.recs().len() ==> #[trigger] self.recs()[i].timestamp
                <= #[trigger] self.recs()[j].timestamp
        &&& forall|i: int|
            0 <= i < self.recs().len() ==> rec_input_valid(#[trigger] self.recs()[i])
        &&& forall|i: int|
            0 <= i < self.recs().len() ==> (#[trigger] self.recs()[i].id matches Some(id) && 1
                <= id < self.next_id_spec())
        &&& forall|i: int, j: int|
            0 <= i < j < self.recs().len() ==> #[trigger] self.recs()[i].id
                != #[trigger] self.recs()[j].id
        &&& self.recs().len() < self.next_id_spec()
        &&& 1 <= self.next_id_spec() <= i64::MAX
    }

    /// An empty ledger with no cached account status.
    pub fn new() -> (l: Ledger)
        ensures
            l.wf(),
            l.recs() == Seq::<RecordView>::empty(),
            l.cached() is None,
            l.next_id_spec() == 1,
    {
        let l = Ledger { records: Vec::new(), cached_info: None, next_id: 1 };
        proof {
            assert(l.recs() =~= Seq::<RecordView>::empty());
        }
        l
    }

    /// Append one attempt to the ledger.  The record is stored at its
    /// timestamp's position in the order (after equal timestamps), with a
    /// fresh identity, which is returned.  Nothing else changes.
    pub fn record_usage(&mut self, rec: UsageRecord) -> (id: i64)
        requires
            old(self).wf(),
            rec_input_valid(rec@),
            old(self).next_id_spec() < i64::MAX,
        ensures
            final(self).wf(),
            id == old(self).next_id_spec(),
            final(self).next_id_spec() == old(self).next_id_spec() + 1,
            final(self).cached() == old(self).cached(),
            final(self).recs() == ({
                let k = insert_pos(old(self).recs(), rec@.timestamp);
                let stored = RecordView { id: Some(id), ..rec@ };
                old(self).recs().take(k) + seq![stored] + old(self).recs().skip(k)
            }),
    {
        let ghost rs0 = self.recs();
        let ghost ts = rec@.timestamp;
        let id = self.next_id;
        self.next_id = self.next_id + 1;
        let mut k = self.records.len();
        proof {
            assert(rs0.take(rs0.len() as int) =~= rs0);
        }
        while k > 0 && self.records[k - 1].timestamp > rec.timestamp
            invariant
                k <= self.records.len(),
                self.records@.len() == rs0.len(),
                self.recs() == rs0,
                insert_pos(rs0.take(k as int), ts) == insert_pos(rs0, ts),
                forall|j: int| k <= j < rs0.len() ==> #[trigger] rs0[j].timestamp > ts,
            decreases k,
        {
            proof {
                assert(rs0.take(k as int).last() == rs0[k - 1]);
                assert(rs0.take(k as int).drop_last() =~= rs0.take(k - 1));
            }
            k = k - 1;
        }
        proof {
            if k > 0 {
                assert(rs0.take(k as int).last() == rs0[k - 1]);
                assert(insert_pos(rs0.take(k as int), ts) == k);
            } else {
                assert(rs0.take(0) =~= Seq::<RecordView>::empty());
            }
            assert(insert_pos(rs0, ts) == k);
        }
        let mut stored = rec;
        stored.id = Some(id);
        let ghost stored_v = stored@;
        self.records.insert(k, stored);
        proof {
            let rs1 = self.recs();
            assert(rs1 =~= rs0.take(k as int) + seq![stored_v] + rs0.skip(k as int)) by {
                assert forall|i: int| 0 <= i < rs1.len() implies rs1[i] == (rs0.take(k as int)
                    + seq![stored_v] + rs0.skip(k as int))[i] by {
                    assert(rs1[i] == self.records@[i]@);
                    if i < k {
                        assert(self.records@[i] == old(self).records@[i]);
                    } else if i > k {
                        assert(self.records@[i] == old(self).records@[i - 1]);
                    }
                }
            }
            assert(stored_v == RecordView { id: Some(id as i64), ..rec@ });
            // the invariant survives: order, validity, identities
            assert forall|i: int, j: int| 0 <= i <= j < rs1.len() implies #[trigger] rs1[i].timestamp
                <= #[trigger] rs1[j].timestamp by {
                if i == j {
                } else {
                    if i < k && j == k {
                        assert(rs1[i] == rs0[i]);
                        if k <= rs0.len() && 0 <= k - 1 {
                            assert(rs0[i].timestamp <= rs0[k - 1].timestamp);
                        }
                    }
                }
            }
        }
        id
    }
}

/// Is a record inside the trailing window?  `None` means no window at all.
pub open spec fn in_window(r: RecordView, cutoff: Option<int>) -> bool {
    match cutoff {
        None => true,
        Some(c) => r.timestamp > c,
    }
}

/// The cutoff of a trailing window of `days` days ending at `now`.
pub open spec fn window_cutoff(now: int, days: int) -> int {
    now - days * 86400
}

/// What listing returns: up to `limit` records, newest first, all inside the
/// window.  Reading the ordered sequence from its end, collection stops at
/// the limit or at the first record outside the window (ordering makes every
/// earlier record outside it too).  Equal timestamps come newest-inserted
/// first.
pub open spec fn newest_first(rs: Seq<RecordView>, cutoff: Option<int>, limit: int) -> Seq<
    RecordView,
>
    decreases rs.len(),
{
    if rs.len() == 0 || limit <= 0 {
        Seq::empty()
    } else if in_window(rs.last(), cutoff) {
        seq![rs.last()] + newest_first(rs.drop_last(), cutoff, limit - 1)
    } else {
        Seq::empty()
    }
}

/// How many records fall before the retention cutoff: the length of the
/// removed prefix.
pub open spec fn purge_count(rs: Seq<RecordView>, cutoff: int) -> int
    decreases rs.len(),
{
    if rs.len() == 0 {
        0
    } else if rs.first().timestamp < cutoff {
        1 + purge_count(rs.drop_first(), cutoff)
    } else {
        0
    }
}

proof fn lemma_purge_count_is_prefix(rs: Seq<RecordView>, cutoff: int, k: int)
    requires
        0 <= k <= rs.len(),
        forall|i: int, j: int|
            0 <= i <= j < rs.len() ==> #[trigger] rs[i].timestamp <= #[trigger] rs[j].timestamp,
        forall|j: int| 0 <= j < k ==> #[trigger] rs[j].timestamp < cutoff,
        k == rs.len() || rs[k].timestamp >= cutoff,
    ensures
        purge_count(rs, cutoff) == k,
    decreases rs.len(),
{
    if rs.len() == 0 {
    } else if k == 0 {
        assert(rs.first() == rs[0]);
        if rs.len() > 0 && rs[0].timestamp < cutoff {
            assert(rs[0].timestamp <= rs[0].timestamp);
            assert(false);
        }
    } else {
        assert(rs.first() == rs[0]);
        assert(rs[0].timestamp < cutoff);
        let rest = rs.drop_first();
        assert forall|i: int, j: int| 0 <= i <= j < rest.len() implies #[trigger] rest[i].timestamp
            <= #[trigger] rest[j].timestamp by {
            assert(rest[i] == rs[i + 1]);
            assert(rest[j] == rs[j + 1]);
        }
        assert forall|j: int| 0 <= j < k - 1 implies #[trigger] rest[j].timestamp < cutoff by {
            assert(rest[j] == rs[j + 1]);
        }
        if k - 1 < rest.len() {
            assert(rest[k - 1] == rs[k]);
        }
        lemma_purge_count_is_prefix(rest, cutoff, k - 1);
    }
}

impl Ledger {
    /// List up to `limit` records, newest first, optionally restricted to a
    /// trailing window of `days` days ending at `now_secs`.
    pub fn get_usage_records(&self, limit: i32, days: Option<i32>, now_secs: i64) -> (out: Vec<
        UsageRecord,
    >)
        requires
            self.wf(),
            limit >= 0,
            now_secs >= 0,
            days matches Some(d) ==> d >= 0,
        ensures
            out@.map_values(|r: UsageRecord| r@) == newest_first(
                self.recs(),
                match days {
                    Some(d) => Some(window_cutoff(now_secs as int, d as int)),
                    None => None,
                },
                limit as int,
            ),
    {
        let cutoff: Option<i64> = match days {
            Some(d) => {
                proof {
                    assert((d as i64) * 86400 <= 0x7fffffffi64 * 86400);
                }
                Some(now_secs - (d as i64) * 86400)
            },
            None => None,
        };
        let ghost cut: Option<int> = match cutoff {
            Some(c) => Some(c as int),
            None => None,
        };
        let ghost rs = self.recs();
        let ghost target = newest_first(rs, cut, limit as int);
        let mut out: Vec<UsageRecord> = Vec::new();
        let mut i = self.records.len();
        proof {
            assert(rs.take(rs.len() as int) =~= rs);
            assert(out@.map_values(|r: UsageRecord| r@) =~= Seq::<RecordView>::empty());
        }
        loop
            invariant
                i <= self.records.len(),
                out@.len() <= limit,
                target == out@.map_values(|r: UsageRecord| r@) + newest_first(
                    rs.take(i as int),
                    cut,
                    limit - out@.len(),
                ),
            decreases i,
        {
            if i == 0 || out.len() >= limit as usize {
                proof {
                    if i == 0 {
                        assert(rs.take(0) =~= Seq::<RecordView>::empty());
                    }
                    assert(newest_first(rs.take(i as int), cut, limit - out@.len())
                        =~= Seq::<RecordView>::empty());
                    assert(target =~= out@.map_values(|r: UsageRecord| r@));
                }
                return out;
            }
            let r = &self.records[i - 1];
            let inside = match &cutoff {
                Some(c) => r.timestamp > *c,
                None => true,
            };
            proof {
                assert(rs.take(i as int).last() == rs[i - 1]);
                assert(rs[i - 1] == self.records@[i - 1]@);
                assert(inside == in_window(rs.take(i as int).last(), cut));
                assert(rs.take(i as int).drop_last() =~= rs.take(i - 1));
            }
            if !inside {
                proof {
                    assert(newest_first(rs.take(i as int), cut, limit - out@.len())
                        =~= Seq::<RecordView>::empty());
                    assert(target =~= out@.map_values(|r: UsageRecord| r@));
                    assert(newest_first(rs.take(0), cut, limit - out@.len())
                        =~= Seq::<RecordView>::empty());
                }
                i = 0;
            } else {
                let ghost out0 = out@;
                let c = copy_record(r);
                out.push(c);
                proof {
                    assert(out@.map_values(|r: UsageRecord| r@) =~= out0.map_values(
                        |r: UsageRecord| r@,
                    ).push(rs[i - 1]));
                    assert(out0.map_values(|r: UsageRecord| r@) + (seq![rs.take(i as int).last()]
                        + newest_first(rs.take(i - 1), cut, limit - out0.len() - 1))
                        =~= out@.map_values(|r: UsageRecord| r@) + newest_first(
                        rs.take(i - 1),
                        cut,
                        limit - out@.len(),
                    ));
                }
                i = i - 1;
            }
        }
    }

    /// Can the ledger still assign a fresh identity?  (It runs out only
    /// after `i64::MAX` inserts.)
    pub fn has_room(&self) -> (r: bool)
        ensures
            r == (self.next_id_spec() < i64::MAX),
    {
        self.next_id < i64::MAX
    }

    /// Cache the account-status snapshot, overwriting any previous one.
    pub fn cache_user_info(&mut self, info: UserInfo)
        requires
            old(self).wf(),
        ensures
            final(self).wf(),
            final(self).cached() == Some(info@),
            final(self).recs() == old(self).recs(),
            final(self).next_id_spec() == old(self).next_id_spec(),
    {
        self.cached_info = Some(info);
    }

    /// The cached account-status snapshot, if one was stored.
    pub fn get_cached_user_info(&self) -> (r: Option<UserInfo>)
        ensures
            r is Some <==> self.cached() is Some,
            r matches Some(u) ==> self.cached() == Some(u@),
    {
        match &self.cached_info {
            Some(u) => Some(copy_info(u)),
            None => None,
        }
    }

    /// Remove every record older than a trailing window of `days` days
    /// ending at `now_secs`; returns how many were removed.  Identities are
    /// never reused, so later inserts are unaffected.
    pub fn cleanup_old_records(&mut self, days: i32, now_secs: i64) -> (removed: u64)
        requires
            old(self).wf(),
            days >= 0,
            now_secs >= 0,
        ensures
            final(self).wf(),
            removed == purge_count(old(self).recs(), window_cutoff(now_secs as int, days as int)),
            final(self).recs() == old(self).recs().skip(removed as int),
            final(self).cached() == old(self).cached(),
            final(self).next_id_spec() == old(self).next_id_spec(),
    {
        proof {
            assert((days as i64) * 86400 <= 0x7fffffffi64 * 86400);
        }
        let cutoff: i64 = now_secs - (days as i64) * 86400;
        let ghost rs = self.recs();
        let mut k: usize = 0;
        while k < self.records.len() && self.records[k].timestamp < cutoff
            invariant
                k <= rs.len(),
                self.recs() == rs,
                self.records@.len() == rs.len(),
                forall|j: int| 0 <= j < k ==> #[trigger] rs[j].timestamp < cutoff,
            decreases rs.len() - k,
        {
            proof {
                assert(rs[k as int] == self.records@[k as int]@);
            }
            k = k + 1;
        }
        proof {
            if k < rs.len() {
                assert(rs[k as int] == self.records@[k as int]@);
            }
            lemma_purge_count_is_prefix(rs, cutoff as int, k as int);
        }
        let tail = self.records.split_off(k);
        self.records = tail;
        proof {
            assert(self.recs() =~= rs.skip(k as int));
            assert forall|i: int, j: int| 0 <= i <= j < self.recs().len() implies #[trigger] self.recs()[i].timestamp
                <= #[trigger] self.recs()[j].timestamp by {
                assert(self.recs()[i] == rs[i + k]);
                assert(self.recs()[j] == rs[j + k]);
            }
            assert forall|i: int, j: int| 0 <= i < j < self.recs().len() implies #[trigger] self.recs()[i].id
                != #[trigger] self.recs()[j].id by {
                assert(self.recs()[i] == rs[i + k]);
                assert(self.recs()[j] == rs[j + k]);
            }
        }
        k as u64
    }
}

/// `a + b`, clipped to `i64::MAX`; aggregate character sums saturate instead
/// of overflowing.
pub open spec fn add_clip(a: int, b: int) -> int {
    if a + b > i64::MAX {
        i64::MAX as int
    } else {
        a + b
    }
}

/// Number of records in the window.
pub open spec fn stat_total(rs: Seq<RecordView>, cutoff: int) -> int
    decreases rs.len(),
{
    if rs.len() == 0 {
        0
    } else {
        stat_total(rs.drop_last(), cutoff) + if rs.last().timestamp > cutoff {
            1int
        } else {
            0int
        }
    }
}

/// Sum of the windowed records' character counts, saturating at `i64::MAX`.
pub open spec fn stat_chars(rs: Seq<RecordView>, cutoff: int) -> int
    decreases rs.len(),
{
    if rs.len() == 0 {
        0
    } else {
        let rest = stat_chars(rs.drop_last(), cutoff);
        if rs.last().timestamp > cutoff {
            add_clip(rest, rs.last().character_count)
        } else {
            rest
        }
    }
}

/// Number of successful attempts in the window.
pub open spec fn stat_success(rs: Seq<RecordView>, cutoff: int) -> int
    decreases rs.len(),
{
    if rs.len() == 0 {
        0
    } else {
        stat_success(rs.drop_last(), cutoff) + if rs.last().timestamp > cutoff
            && rs.last().success {
            1int
        } else {
            0int
        }
    }
}

/// Number of failed attempts in the window.
pub open spec fn stat_failed(rs: Seq<RecordView>, cutoff: int) -> int
    decreases rs.len(),
{
    if rs.len() == 0 {
        0
    } else {
        stat_failed(rs.drop_last(), cutoff) + if rs.last().timestamp > cutoff
            && !rs.last().success {
            1int
        } else {
            0int
        }
    }
}

/// Every attempt in the window is either a success or a failure, so the two
/// counts always partition the total.
pub proof fn lemma_success_failure_partition(rs: Seq<RecordView>, cutoff: int)
    ensures
        stat_success(rs, cutoff) + stat_failed(rs, cutoff) == stat_total(rs, cutoff),
    decreases rs.len(),
{
    if rs.len() > 0 {
        lemma_success_failure_partition(rs.drop_last(), cutoff);
    }
}

proof fn lemma_stat_total_bounds(rs: Seq<RecordView>, cutoff: int)
    ensures
        0 <= stat_total(rs, cutoff) <= rs.len(),
    decreases rs.len(),
{
    if rs.len() > 0 {
        lemma_stat_total_bounds(rs.drop_last(), cutoff);
    }
}

/// The saturating character sum never leaves the 64-bit range.
pub proof fn lemma_stat_chars_in_range(rs: Seq<RecordView>, cutoff: int)
    requires
        forall|i: int| 0 <= i < rs.len() ==> rec_input_valid(#[trigger] rs[i]),
    ensures
        0 <= stat_chars(rs, cutoff) <= i64::MAX,
{
    lemma_stat_chars_bounds(rs, cutoff);
}

proof fn lemma_stat_chars_bounds(rs: Seq<RecordView>, cutoff: int)
    requires
        forall|i: int| 0 <= i < rs.len() ==> rec_input_valid(#[trigger] rs[i]),
    ensures
        0 <= stat_chars(rs, cutoff) <= i64::MAX,
    decreases rs.len(),
{
    if rs.len() > 0 {
        assert(forall|i: int|
            0 <= i < rs.drop_last().len() ==> rec_input_valid(#[trigger] rs.drop_last()[i]));
        lemma_stat_chars_bounds(rs.drop_last(), cutoff);
        assert(rec_input_valid(rs[rs.len() - 1]));
    }
}

/// Count one more use of voice `v` in the tally, keeping first-encounter
/// order: the first entry for `v` is incremented, or a new entry is appended.
pub open spec fn bump(t: Seq<(Seq<char>, int)>, v: Seq<char>) -> Seq<(Seq<char>, int)>
    decreases t.len(),
{
    if t.len() == 0 {
        seq![(v, 1int)]
    } else if t.first().0 == v {
        seq![(t.first().0, t.first().1 + 1)] + t.drop_first()
    } else {
        seq![t.first()] + bump(t.drop_first(), v)
    }
}

/// Per-voice use counts over the window, in order of first encounter
/// (oldest first).
pub open spec fn voice_tally(rs: Seq<RecordView>, cutoff: int) -> Seq<(Seq<char>, int)>
    decreases rs.len(),
{
    if rs.len() == 0 {
        Seq::empty()
    } else {
        let t = voice_tally(rs.drop_last(), cutoff);
        if rs.last().timestamp > cutoff {
            bump(t, rs.last().voice_id)
        } else {
            t
        }
    }
}

/// Scan the tally from entry `i` onward: a later entry replaces the current
/// best only with a strictly greater count, so ties go to the voice first
/// encountered.
pub open spec fn best_voice_from(t: Seq<(Seq<char>, int)>, i: int, best: (Seq<char>, int)) -> Seq<
    char,
>
    decreases t.len() - i,
{
    if i >= t.len() {
        best.0
    } else if t[i].1 > best.1 {
        best_voice_from(t, i + 1, t[i])
    } else {
        best_voice_from(t, i + 1, best)
    }
}

/// The most-used voice of the window: the voice with the greatest use count,
/// ties broken in favor of the voice first encountered (oldest first); the
/// caller-supplied default (the provider's primary voice) when the window
/// is empty.
pub open spec fn most_used_voice_spec(rs: Seq<RecordView>, cutoff: int, default: Seq<char>) -> Seq<
    char,
> {
    let t = voice_tally(rs, cutoff);
    if t.len() == 0 {
        default
    } else {
        best_voice_from(t, 1, t[0])
    }
}

proof fn lemma_bump_counts(t: Seq<(Seq<char>, int)>, v: Seq<char>, b: int)
    requires
        forall|k: int| 0 <= k < t.len() ==> 1 <= (#[trigger] t[k]).1 <= b,
        b >= 0,
    ensures
        forall|k: int| 0 <= k < bump(t, v).len() ==> 1 <= (#[trigger] bump(t, v)[k]).1 <= b + 1,
        bump(t, v).len() <= t.len() + 1,
    decreases t.len(),
{
    if t.len() == 0 {
    } else if t.first().0 == v {
        assert(t[0].1 <= b);
    } else {
        assert(forall|k: int|
            0 <= k < t.drop_first().len() ==> 1 <= (#[trigger] t.drop_first()[k]).1 <= b);
        lemma_bump_counts(t.drop_first(), v, b);
        assert forall|k: int| 0 <= k < bump(t, v).len() implies 1 <= (#[trigger] bump(t, v)[k]).1
            <= b + 1 by {
            if k > 0 {
                assert(bump(t, v)[k] == bump(t.drop_first(), v)[k - 1]);
            }
        }
    }
}

proof fn lemma_tally_counts(rs: Seq<RecordView>, cutoff: int)
    ensures
        forall|k: int|
            0 <= k < voice_tally(rs, cutoff).len() ==> 1 <= (#[trigger] voice_tally(
                rs,
                cutoff,
            )[k]).1 <= stat_total(rs, cutoff),
        voice_tally(rs, cutoff).len() <= stat_total(rs, cutoff),
    decreases rs.len(),
{
    if rs.len() > 0 {
        lemma_tally_counts(rs.drop_last(), cutoff);
        lemma_stat_total_bounds(rs.drop_last(), cutoff);
        if rs.last().timestamp > cutoff {
            lemma_bump_counts(
                voice_tally(rs.drop_last(), cutoff),
                rs.last().voice_id,
                stat_total(rs.drop_last(), cutoff),
            );
        }
    }
}

proof fn lemma_bump_found(t: Seq<(Seq<char>, int)>, v: Seq<char>, j: int)
    requires
        0 <= j < t.len(),
        t[j].0 == v,
        forall|k: int| 0 <= k < j ==> (#[trigger] t[k]).0 != v,
    ensures
        bump(t, v) == t.update(j, (t[j].0, t[j].1 + 1)),
    decreases j,
{
    if j == 0 {
        assert(t.first().0 == v);
        assert(bump(t, v) =~= t.update(0, (t[0].0, t[0].1 + 1)));
    } else {
        assert(t[0].0 != v);
        assert(t.first().0 != v);
        let rest = t.drop_first();
        assert(rest[j - 1] == t[j]);
        assert forall|k: int| 0 <= k < j - 1 implies (#[trigger] rest[k]).0 != v by {
            assert(rest[k] == t[k + 1]);
        }
        lemma_bump_found(rest, v, j - 1);
        assert(bump(t, v) =~= t.update(j, (t[j].0, t[j].1 + 1)));
    }
}

proof fn lemma_bump_absent(t: Seq<(Seq<char>, int)>, v: Seq<char>)
    requires
        forall|k: int| 0 <= k < t.len() ==> (#[trigger] t[k]).0 != v,
    ensures
        bump(t, v) == t.push((v, 1int)),
    decreases t.len(),
{
    if t.len() == 0 {
        assert(bump(t, v) =~= t.push((v, 1int)));
    } else {
        let rest = t.drop_first();
        assert forall|k: int| 0 <= k < rest.len() implies (#[trigger] rest[k]).0 != v by {
            assert(rest[k] == t[k + 1]);
        }
        lemma_bump_absent(rest, v);
        assert(bump(t, v) =~= t.push((v, 1int)));
    }
}

/// How often voice `v` was used inside the window.
pub open spec fn voice_count(rs: Seq<RecordView>, cutoff: int, v: Seq<char>) -> int
    decreases rs.len(),
{
    if rs.len() == 0 {
        0
    } else {
        voice_count(rs.drop_last(), cutoff, v) + if rs.last().timestamp > cutoff
            && rs.last().voice_id == v {
            1int
        } else {
            0int
        }
    }
}

proof fn lemma_voice_count_nonneg(rs: Seq<RecordView>, cutoff: int, v: Seq<char>)
    ensures
        voice_count(rs, cutoff, v) >= 0,
    decreases rs.len(),
{
    if rs.len() > 0 {
        lemma_voice_count_nonneg(rs.drop_last(), cutoff, v);
    }
}

/// The tally is an exact inventory of the window: one entry per voice used
/// there, carrying that voice's use count.
proof fn lemma_tally_is_voice_counts(rs: Seq<RecordView>, cutoff: int)
    ensures
        forall|k: int|
            0 <= k < voice_tally(rs, cutoff).len() ==> (#[trigger] voice_tally(rs, cutoff)[k]).1
                == voice_count(rs, cutoff, voice_tally(rs, cutoff)[k].0),
        forall|k1: int, k2: int|
            0 <= k1 < k2 < voice_tally(rs, cutoff).len() ==> (#[trigger] voice_tally(
                rs,
                cutoff,
            )[k1]).0 != (#[trigger] voice_tally(rs, cutoff)[k2]).0,
        forall|v: Seq<char>|
            #[trigger] voice_count(rs, cutoff, v) > 0 ==> exists|k: int|
                0 <= k < voice_tally(rs, cutoff).len() && (#[trigger] voice_tally(
                    rs,
                    cutoff,
                )[k]).0 == v,
    decreases rs.len(),
{
    if rs.len() > 0 {
        lemma_tally_is_voice_counts(rs.drop_last(), cutoff);
        let t0 = voice_tally(rs.drop_last(), cutoff);
        let t = voice_tally(rs, cutoff);
        let r = rs.last();
        if r.timestamp > cutoff {
            let v0 = r.voice_id;
            assert(t == bump(t0, v0));
            if exists|k: int| 0 <= k < t0.len() && (#[trigger] t0[k]).0 == v0 {
                let j = choose|j: int| 0 <= j < t0.len() && (#[trigger] t0[j]).0 == v0;
                assert forall|k: int| 0 <= k < j implies (#[trigger] t0[k]).0 != v0 by {
                    assert(t0[k].0 != t0[j].0);
                }
                lemma_bump_found(t0, v0, j);
                assert(t == t0.update(j, (t0[j].0, t0[j].1 + 1)));
                assert forall|k: int| 0 <= k < t.len() implies (#[trigger] t[k]).1
                    == voice_count(rs, cutoff, t[k].0) by {
                    if k == j {
                        assert(t[k].0 == t0[j].0);
                        assert(voice_count(rs, cutoff, v0) == voice_count(
                            rs.drop_last(),
                            cutoff,
                            v0,
                        ) + 1);
                    } else {
                        assert(t[k] == t0[k]);
                        assert(t[k].0 != v0) by {
                            if k < j {
                                assert(t0[k].0 != t0[j].0);
                            } else {
                                assert(t0[j].0 != t0[k].0);
                            }
                        }
                        assert(voice_count(rs, cutoff, t[k].0) == voice_count(
                            rs.drop_last(),
                            cutoff,
                            t[k].0,
                        ));
                    }
                }
                assert forall|v: Seq<char>| #[trigger] voice_count(rs, cutoff, v) > 0 implies
                    exists|k: int|
                        0 <= k < t.len() && (#[trigger] t[k]).0 == v by {
                    if v == v0 {
                        assert(t[j].0 == v);
                    } else {
                        assert(voice_count(rs.drop_last(), cutoff, v) > 0);
                        let k0 = choose|k: int|
                            0 <= k < t0.len() && (#[trigger] t0[k]).0 == v;
                        assert(t[k0].0 == v);
                    }
                }
            } else {
                assert forall|k: int| 0 <= k < t0.len() implies (#[trigger] t0[k]).0 != v0 by {}
                lemma_bump_absent(t0, v0);
                assert(t == t0.push((v0, 1int)));
                assert(voice_count(rs.drop_last(), cutoff, v0) == 0) by {
                    lemma_voice_count_nonneg(rs.drop_last(), cutoff, v0);
                    if voice_count(rs.drop_last(), cutoff, v0) > 0 {
                        let k = choose|k: int|
                            0 <= k < t0.len() && (#[trigger] t0[k]).0 == v0;
                        assert(false);
                    }
                }
                assert forall|k: int| 0 <= k < t.len() implies (#[trigger] t[k]).1
                    == voice_count(rs, cutoff, t[k].0) by {
                    if k < t0.len() {
                        assert(t[k] == t0[k]);
                        assert(t[k].0 != v0);
                        assert(voice_count(rs, cutoff, t[k].0) == voice_count(
                            rs.drop_last(),
                            cutoff,
                            t[k].0,
                        ));
                    } else {
                        assert(t[k] == (v0, 1int));
                    }
                }
                assert forall|v: Seq<char>| #[trigger] voice_count(rs, cutoff, v) > 0 implies
                    exists|k: int|
                        0 <= k < t.len() && (#[trigger] t[k]).0 == v by {
                    if v == v0 {
                        assert(t[t.len() - 1].0 == v);
                    } else {
                        assert(voice_count(rs.drop_last(), cutoff, v) > 0);
                        let k0 = choose|k: int|
                            0 <= k < t0.len() && (#[trigger] t0[k]).0 == v;
                        assert(t[k0].0 == v);
                    }
                }
            }
        } else {
            assert(t == t0);
            assert forall|v: Seq<char>| #[trigger] voice_count(rs, cutoff, v) > 0 implies
                exists|k: int|
                    0 <= k < t.len() && (#[trigger] t[k]).0 == v by {
                assert(voice_count(rs.drop_last(), cutoff, v) > 0);
                let k0 = choose|k: int| 0 <= k < t0.len() && (#[trigger] t0[k]).0 == v;
                assert(t[k0].0 == v);
            }
        }
    }
}

/// The scan keeps the entry with the strictly greatest count: if `t[j]`
/// strictly dominates every other entry, and the running best is `t[j]`
/// itself (already passed) or strictly below it (still ahead), the scan ends
/// on `t[j]`.
proof fn lemma_best_from_strict(
    t: Seq<(Seq<char>, int)>,
    i: int,
    best: (Seq<char>, int),
    j: int,
)
    requires
        0 <= i <= t.len(),
        0 <= j < t.len(),
        forall|k: int| 0 <= k < t.len() && k != j ==> (#[trigger] t[k]).1 < t[j].1,
        (j < i && best == t[j]) || (j >= i && best.1 < t[j].1),
    ensures
        best_voice_from(t, i, best) == t[j].0,
    decreases t.len() - i,
{
    if i < t.len() {
        if t[i].1 > best.1 {
            lemma_best_from_strict(t, i + 1, t[i], j);
        } else {
            lemma_best_from_strict(t, i + 1, best, j);
        }
    }
}

/// The tie-free aggregation law: a voice used strictly more often than every
/// other voice inside the window is the window's most-used voice, whatever
/// the default.
pub proof fn lemma_strict_top_voice_wins(
    rs: Seq<RecordView>,
    cutoff: int,
    default: Seq<char>,
    v: Seq<char>,
)
    requires
        voice_count(rs, cutoff, v) > 0,
        forall|w: Seq<char>| w != v ==> #[trigger] voice_count(rs, cutoff, w) < voice_count(
            rs,
            cutoff,
            v,
        ),
    ensures
        most_used_voice_spec(rs, cutoff, default) == v,
{
    lemma_tally_is_voice_counts(rs, cutoff);
    let t = voice_tally(rs, cutoff);
    let j = choose|j: int| 0 <= j < t.len() && (#[trigger] t[j]).0 == v;
    assert(t[j].1 == voice_count(rs, cutoff, v));
    assert forall|k: int| 0 <= k < t.len() && k != j implies (#[trigger] t[k]).1 < t[j].1 by {
        assert(t[k].1 == voice_count(rs, cutoff, t[k].0));
        assert(t[k].0 != v) by {
            if k < j {
                assert(t[k].0 != t[j].0);
            } else {
                assert(t[j].0 != t[k].0);
            }
        }
    }
    if j == 0 {
        lemma_best_from_strict(t, 1, t[0], 0);
    } else {
        assert(t[0].1 < t[j].1);
        lemma_best_from_strict(t, 1, t[0], j);
    }
}

/// The day a timestamp falls in, counted from the unix epoch.
pub open spec fn day_of(ts: int) -> int {
    ts / 86400
}

/// Per-day rollup of the windowed records, oldest day first.  Consecutive
/// records of one day merge into one entry (records are ordered, so a day is
/// one run); character sums saturate at `i64::MAX`.
pub open spec fn daily_rollup(rs: Seq<RecordView>, cutoff: int) -> Seq<DailyView>
    decreases rs.len(),
{
    if rs.len() == 0 {
        Seq::empty()
    } else {
        let g = daily_rollup(rs.drop_last(), cutoff);
        let r = rs.last();
        if r.timestamp > cutoff {
            if g.len() > 0 && g.last().date == day_of(r.timestamp) {
                g.update(
                    g.len() - 1,
                    DailyView {
                        date: g.last().date,
                        character_count: add_clip(g.last().character_count, r.character_count),
                        request_count: g.last().request_count + 1,
                    },
                )
            } else {
                g.push(
                    DailyView {
                        date: day_of(r.timestamp),
                        character_count: r.character_count,
                        request_count: 1,
                    },
                )
            }
        } else {
            g
        }
    }
}

proof fn lemma_rollup_bounds(rs: Seq<RecordView>, cutoff: int)
    requires
        forall|i: int| 0 <= i < rs.len() ==> rec_input_valid(#[trigger] rs[i]),
    ensures
        forall|k: int|
            0 <= k < daily_rollup(rs, cutoff).len() ==> {
                let g = #[trigger] daily_rollup(rs, cutoff)[k];
                1 <= g.request_count <= stat_total(rs, cutoff) && 0 <= g.character_count
                    <= i64::MAX
            },
    decreases rs.len(),
{
    if rs.len() > 0 {
        assert(forall|i: int|
            0 <= i < rs.drop_last().len() ==> rec_input_valid(#[trigger] rs.drop_last()[i]));
        lemma_rollup_bounds(rs.drop_last(), cutoff);
        lemma_stat_total_bounds(rs.drop_last(), cutoff);
        assert(rec_input_valid(rs[rs.len() - 1]));
        let g0 = daily_rollup(rs.drop_last(), cutoff);
        let t0 = stat_total(rs.drop_last(), cutoff);
        let g1 = daily_rollup(rs, cutoff);
        let r = rs.last();
        if r.timestamp > cutoff {
            assert forall|k: int| 0 <= k < g1.len() implies {
                let g = #[trigger] g1[k];
                1 <= g.request_count <= stat_total(rs, cutoff) && 0 <= g.character_count
                    <= i64::MAX
            } by {
                if g0.len() > 0 && g0.last().date == day_of(r.timestamp) {
                    if k < g0.len() - 1 {
                        assert(g1[k] == g0[k]);
                    } else {
                        assert(g0.last() == g0[g0.len() - 1]);
                        assert(1 <= g0[g0.len() - 1].request_count <= t0);
                        assert(0 <= g0[g0.len() - 1].character_count <= i64::MAX);
                    }
                } else {
                    if k < g0.len() {
                        assert(g1[k] == g0[k]);
                    } else {
                        assert(g1[k].request_count == 1);
                        assert(g1[k].character_count == r.character_count);
                    }
                }
            }
        } else {
            assert(g1 == g0);
        }
    }
}

impl Ledger {
    /// One pass over the records: total requests, character sum (saturating),
    /// success count, failure count, all over the window.
    fn compute_totals(&self, cutoff: i64) -> (t: (i64, i64, i64, i64))
        requires
            self.wf(),
        ensures
            t.0 == stat_total(self.recs(), cutoff as int),
            t.1 == stat_chars(self.recs(), cutoff as int),
            t.2 == stat_success(self.recs(), cutoff as int),
            t.3 == stat_failed(self.recs(), cutoff as int),
    {
        let ghost rs = self.recs();
        let ghost c = cutoff as int;
        let mut total: i64 = 0;
        let mut chars: i64 = 0;
        let mut succ: i64 = 0;
        let mut fail: i64 = 0;
        let mut i: usize = 0;
        proof {
            assert(rs.take(0) =~= Seq::<RecordView>::empty());
        }
        while i < self.records.len()
            invariant
                i <= rs.len(),
                self.recs() == rs,
                self.records@.len() == rs.len(),
                total == stat_total(rs.take(i as int), c),
                chars == stat_chars(rs.take(i as int), c),
                succ == stat_success(rs.take(i as int), c),
                fail == stat_failed(rs.take(i as int), c),
                0 <= total <= i,
                0 <= succ <= i,
                0 <= fail <= i,
                0 <= chars <= i64::MAX,
            decreases rs.len() - i,
        {
            let r = &self.records[i];
            proof {
                assert(rs[i as int] == self.records@[i as int]@);
                assert(rs.take(i + 1).drop_last() =~= rs.take(i as int));
                assert(rs.take(i + 1).last() == rs[i as int]);
                assert(rec_input_valid(rs[i as int]));
                assert(rs.len() < i64::MAX);
            }
            if r.timestamp > cutoff {
                total = total + 1;
                let cc = r.character_count as i64;
                if chars <= i64::MAX - cc {
                    chars = chars + cc;
                } else {
                    chars = i64::MAX;
                }
                if r.success {
                    succ = succ + 1;
                } else {
                    fail = fail + 1;
                }
            }
            i = i + 1;
        }
        proof {
            assert(rs.take(rs.len() as int) =~= rs);
        }
        (total, chars, succ, fail)
    }

    /// The most-used voice of the window, ties broken in favor of the voice
    /// first encountered; the provider's primary voice when the window holds
    /// nothing.
    fn compute_most_used(&self, cutoff: i64, default_voice: &str) -> (v: String)
        requires
            self.wf(),
        ensures
            v@ == most_used_voice_spec(self.recs(), cutoff as int, default_voice@),
    {
        let ghost rs = self.recs();
        let ghost c = cutoff as int;
        let mut counts: Vec<(String, i64)> = Vec::new();
        let mut i: usize = 0;
        proof {
            assert(rs.take(0) =~= Seq::<RecordView>::empty());
            assert(counts@.map_values(|p: (String, i64)| (p.0@, p.1 as int))
                =~= Seq::<(Seq<char>, int)>::empty());
        }
        while i < self.records.len()
            invariant
                i <= rs.len(),
                self.recs() == rs,
                self.records@.len() == rs.len(),
                counts@.map_values(|p: (String, i64)| (p.0@, p.1 as int)) == voice_tally(
                    rs.take(i as int),
                    c,
                ),
            decreases rs.len() - i,
        {
            let ghost tv = counts@.map_values(|p: (String, i64)| (p.0@, p.1 as int));
            let r = &self.records[i];
            proof {
                assert(rs[i as int] == self.records@[i as int]@);
                assert(rs.take(i + 1).drop_last() =~= rs.take(i as int));
                assert(rs.take(i + 1).last() == rs[i as int]);
                lemma_tally_counts(rs.take(i as int), c);
                lemma_stat_total_bounds(rs.take(i as int), c);
                assert(rs.len() < i64::MAX);
            }
            if r.timestamp > cutoff {
                let pos = find_voice(&counts, &r.voice_id);
                match pos {
                    Some(j) => {
                        proof {
                            assert(tv[j as int].0 == counts@[j as int].0@);
                            lemma_bump_found(tv, r.voice_id@, j as int);
                            assert(1 <= tv[j as int].1 <= stat_total(rs.take(i as int), c));
                        }
                        let name = counts[j].0.clone();
                        let n = counts[j].1;
                        counts.set(j, (name, n + 1));
                        proof {
                            assert(counts@.map_values(|p: (String, i64)| (p.0@, p.1 as int))
                                =~= bump(tv, r.voice_id@));
                        }
                    },
                    None => {
                        proof {
                            lemma_bump_absent(tv, r.voice_id@);
                        }
                        counts.push((r.voice_id.clone(), 1));
                        proof {
                            assert(counts@.map_values(|p: (String, i64)| (p.0@, p.1 as int))
                                =~= bump(tv, r.voice_id@));
                        }
                    },
                }
            }
            i = i + 1;
        }
        proof {
            assert(rs.take(rs.len() as int) =~= rs);
        }
        let ghost tv = counts@.map_values(|p: (String, i64)| (p.0@, p.1 as int));
        if counts.len() == 0 {
            String::from_str(default_voice)
        } else {
            let mut best_i: usize = 0;
            let mut bi: usize = 1;
            while bi < counts.len()
                invariant
                    best_i < bi <= counts@.len(),
                    counts@.map_values(|p: (String, i64)| (p.0@, p.1 as int)) == tv,
                    best_voice_from(tv, bi as int, tv[best_i as int]) == best_voice_from(
                        tv,
                        1,
                        tv[0],
                    ),
                decreases counts@.len() - bi,
            {
                if counts[bi].1 > counts[best_i].1 {
                    proof {
                        assert(tv[bi as int].1 == counts@[bi as int].1 as int);
                        assert(tv[best_i as int].1 == counts@[best_i as int].1 as int);
                    }
                    best_i = bi;
                }
                bi = bi + 1;
            }
            counts[best_i].0.clone()
        }
    }

    /// The per-day rollup of the window, newest day first.
    fn compute_daily(&self, cutoff: i64) -> (d: Vec<DailyUsage>)
        requires
            self.wf(),
        ensures
            d@.map_values(|g: DailyUsage| g@) == daily_rollup(
                self.recs(),
                cutoff as int,
            ).reverse(),
    {
        let ghost rs = self.recs();
        let ghost c = cutoff as int;
        let mut groups: Vec<DailyUsage> = Vec::new();
        let mut i: usize = 0;
        proof {
            assert(rs.take(0) =~= Seq::<RecordView>::empty());
            assert(groups@.map_values(|g: DailyUsage| g@) =~= Seq::<DailyView>::empty());
        }
        while i < self.records.len()
            invariant
                i <= rs.len(),
                self.recs() == rs,
                self.records@.len() == rs.len(),
                groups@.map_values(|g: DailyUsage| g@) == daily_rollup(rs.take(i as int), c),
            decreases rs.len() - i,
        {
            let ghost gv = groups@.map_values(|g: DailyUsage| g@);
            let r = &self.records[i];
            proof {
                assert(rs[i as int] == self.records@[i as int]@);
                assert(rs.take(i + 1).drop_last() =~= rs.take(i as int));
                assert(rs.take(i + 1).last() == rs[i as int]);
                assert(forall|k: int|
                    0 <= k < rs.take(i as int).len() ==> rec_input_valid(
                        #[trigger] rs.take(i as int)[k],
                    ));
                lemma_rollup_bounds(rs.take(i as int), c);
                lemma_stat_total_bounds(rs.take(i as int), c);
                assert(rec_input_valid(rs[i as int]));
                assert(rs.len() < i64::MAX);
            }
            if r.timestamp > cutoff {
                let day = r.timestamp / 86400;
                let cc = r.character_count as i64;
                let glen = groups.len();
                if glen > 0 && groups[glen - 1].date == day {
                    proof {
                        assert(gv[glen - 1] == groups@[glen - 1]@);
                        assert(gv.last() == gv[glen - 1]);
                        assert(1 <= gv[glen - 1].request_count <= stat_total(
                            rs.take(i as int),
                            c,
                        ));
                        assert(0 <= gv[glen - 1].character_count <= i64::MAX);
                    }
                    let old_g = groups[glen - 1];
                    let merged_cc = if old_g.character_count <= i64::MAX - cc {
                        old_g.character_count + cc
                    } else {
                        i64::MAX
                    };
                    let merged = DailyUsage {
                        date: day,
                        character_count: merged_cc,
                        request_count: old_g.request_count + 1,
                    };
                    counts_set_daily(&mut groups, glen - 1, merged);
                    proof {
                        assert(groups@.map_values(|g: DailyUsage| g@) =~= daily_rollup(
                            rs.take(i + 1),
                            c,
                        ));
                    }
                } else {
                    groups.push(DailyUsage { date: day, character_count: cc, request_count: 1 });
                    proof {
                        assert(groups@.map_values(|g: DailyUsage| g@) =~= daily_rollup(
                            rs.take(i + 1),
                            c,
                        ));
                    }
                }
            }
            i = i + 1;
        }
        proof {
            assert(rs.take(rs.len() as int) =~= rs);
        }
        let ghost gv = groups@.map_values(|g: DailyUsage| g@);
        let mut out: Vec<DailyUsage> = Vec::new();
        let total = groups.len();
        let mut k: usize = 0;
        proof {
            assert(out@.map_values(|g: DailyUsage| g@) =~= gv.reverse().take(0));
        }
        while k < total
            invariant
                k <= total,
                total == groups@.len(),
                groups@.map_values(|g: DailyUsage| g@) == gv,
                out@.map_values(|g: DailyUsage| g@) == gv.reverse().take(k as int),
            decreases total - k,
        {
            proof {
                assert(gv.reverse()[k as int] == gv[total - 1 - k]);
                assert(gv[total - 1 - k] == groups@[total - 1 - k]@);
                assert(gv.reverse().take(k + 1) =~= gv.reverse().take(k as int).push(
                    gv.reverse()[k as int],
                ));
            }
            out.push(groups[total - 1 - k]);
            proof {
                assert(out@.map_values(|g: DailyUsage| g@) =~= gv.reverse().take(k + 1));
            }
            k = k + 1;
        }
        proof {
            assert(gv.reverse().take(total as int) =~= gv.reverse());
        }
        out
    }

    /// Aggregate usage over a trailing window of `days` days ending at
    /// `now_secs`: totals, success/failure partition, most-used voice
    /// (`default_voice` when the window holds nothing), and a per-day
    /// breakdown ordered newest first.
    pub fn get_usage_stats(&self, days: i32, now_secs: i64, default_voice: &str) -> (stats: UsageStats)
        requires
            self.wf(),
            days >= 0,
            now_secs >= 0,
        ensures
            ({
                let c = window_cutoff(now_secs as int, days as int);
                &&& stats.total_requests == stat_total(self.recs(), c)
                &&& stats.total_characters == stat_chars(self.recs(), c)
                &&& stats.successful_requests == stat_success(self.recs(), c)
                &&& stats.failed_requests == stat_failed(self.recs(), c)
                &&& stats.successful_requests + stats.failed_requests == stats.total_requests
                &&& stats.most_used_voice@ == most_used_voice_spec(self.recs(), c, default_voice@)
                &&& stats.daily_usage@.map_values(|g: DailyUsage| g@) == daily_rollup(
                    self.recs(),
                    c,
                ).reverse()
            }),
    {
        proof {
            assert((days as i64) * 86400 <= 0x7fffffffi64 * 86400);
        }
        let cutoff: i64 = now_secs - (days as i64) * 86400;
        let (total, chars, succ, fail) = self.compute_totals(cutoff);
        let most_used = self.compute_most_used(cutoff, default_voice);
        let daily = self.compute_daily(cutoff);
        proof {
            lemma_success_failure_partition(self.recs(), cutoff as int);
        }
        UsageStats {
            total_requests: total,
            total_characters: chars,
            successful_requests: succ,
            failed_requests: fail,
            most_used_voice: most_used,
            daily_usage: daily,
        }
    }
}

/// Replace one entry of the rollup under construction.
fn counts_set_daily(groups: &mut Vec<DailyUsage>, i: usize, g: DailyUsage)
    requires
        i < old(groups).len(),
    ensures
        final(groups)@ == old(groups)@.update(i as int, g),
{
    groups.set(i, g);
}

/// Index of the first tally entry for voice `v`, if any.
fn find_voice(counts: &Vec<(String, i64)>, v: &String) -> (r: Option<usize>)
    ensures
        match r {
            Some(j) => j < counts@.len() && counts@[j as int].0@ == v@ && forall|k: int|
                0 <= k < j ==> (#[trigger] counts@[k]).0@ != v@,
            None => forall|k: int| 0 <= k < counts@.len() ==> (#[trigger] counts@[k]).0@ != v@,
        },
{
    let mut j: usize = 0;
    while j < counts.len()
        invariant
            j <= counts@.len(),
            forall|k: int| 0 <= k < j ==> (#[trigger] counts@[k]).0@ != v@,
        decreases counts@.len() - j,
    {
        if counts[j].0 == *v {
            return Some(j);
        }
        j = j + 1;
    }
    None
}

} // verus!
