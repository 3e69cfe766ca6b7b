//! The usage history: the most recent uses of scripts and templates, newest
//! first, kept to a bounded number of records.
use vstd::prelude::*;
use std::collections::VecDeque;
use crate::clock::{
    local_date_days_ago, local_date_of, local_days_ago_instant, now_local_rfc3339, parse_rfc3339_instant,
    rfc3339_instant,
};
use crate::sort::{
    key_lt, key_view, lemma_key_lt_facts, lemma_permuted_covers, lemma_permuted_within,
    lemma_text_lt_total, permuted, stable_order, stably_sorted, strictly_sorted, text_keys, text_lt,
    SortKey,
};
use crate::tags::{count_each, count_pair_view, count_views, lemma_tag_counts_contains, lemma_occurrences_contains, occurrences, tag_counts};
use crate::data::{Script, Template};
use crate::text::{chars_of, contains_string, push_str, views};
use crate::variable::{
    dedup, lemma_dedup_contains, lemma_dedup_no_duplicates, lemma_dedup_of_prefix, lemma_push_contains,
};

verus! {

broadcast use vstd::std_specs::vecdeque::group_vec_dequeue_axioms;

/// One use of a script or a template.
pub struct UsageRecord {
    pub id: String,
    /// `script` or `template`.
    pub item_type: String,
    /// When it was used, as an RFC 3339 string in local time.
    pub timestamp: String,
    /// How long the use took, in milliseconds, when it was measured.
    pub duration_ms: Option<u64>,
}

/// Two records hold the same values.
pub open spec fn same_record(a: UsageRecord, b: UsageRecord) -> bool {
    &&& a.id@ == b.id@
    &&& a.item_type@ == b.item_type@
    &&& a.timestamp@ == b.timestamp@
    &&& a.duration_ms == b.duration_ms
}

/// Two sequences of records hold the same values, in order.
pub open spec fn same_records(a: Seq<UsageRecord>, b: Seq<UsageRecord>) -> bool {
    &&& a.len() == b.len()
    &&& forall|i: int| 0 <= i < a.len() ==> same_record(#[trigger] a[i], b[i])
}

/// `s` cut down to its first `max` elements.
pub open spec fn bounded<A>(s: Seq<A>, max: nat) -> Seq<A> {
    if s.len() > max {
        s.take(max as int)
    } else {
        s
    }
}

/// The records after `r` is added at the front of `records` with limit `max`:
/// the oldest one is dropped when the limit is exceeded.
pub open spec fn after_push(records: Seq<UsageRecord>, r: UsageRecord, max: nat) -> Seq<UsageRecord> {
    if records.len() + 1 > max {
        (seq![r] + records).drop_last()
    } else {
        seq![r] + records
    }
}

/// The distinct ids of the records of kind `kind`, newest first.
pub open spec fn ids_of_kind(records: Seq<UsageRecord>, kind: Seq<char>) -> Seq<Seq<char>>
    decreases records.len(),
{
    if records.len() == 0 {
        seq![]
    } else if records.last().item_type@ == kind {
        ids_of_kind(records.drop_last(), kind).push(records.last().id@)
    } else {
        ids_of_kind(records.drop_last(), kind)
    }
}

/// The ids of kind `kind` among the first records are a prefix of those among all.
pub proof fn lemma_ids_of_kind_prefix(records: Seq<UsageRecord>, kind: Seq<char>, j: int)
    requires
        0 <= j <= records.len(),
    ensures
        ids_of_kind(records.take(j), kind).is_prefix_of(ids_of_kind(records, kind)),
    decreases records.len(),
{
    if j == records.len() {
        assert(records.take(j) =~= records);
    } else {
        let d = records.drop_last();
        lemma_ids_of_kind_prefix(d, kind, j);
        assert(d.take(j) =~= records.take(j));
    }
}

/// The most recent distinct ids of the first records begin those of all records.
pub proof fn lemma_dedup_prefix(records: Seq<UsageRecord>, kind: Seq<char>, j: int)
    requires
        0 <= j <= records.len(),
    ensures
        dedup(ids_of_kind(records.take(j), kind)).is_prefix_of(dedup(ids_of_kind(records, kind))),
{
    lemma_ids_of_kind_prefix(records, kind, j);
    lemma_dedup_of_prefix(ids_of_kind(records.take(j), kind), ids_of_kind(records, kind));
}

/// The most recently used distinct ids of kind `kind`: `count` of them (at
/// least one when there is any), newest first.
pub open spec fn recent_ids(records: Seq<UsageRecord>, kind: Seq<char>, count: nat) -> Seq<Seq<char>> {
    let d = dedup(ids_of_kind(records, kind));
    let n: nat = if count == 0 {
        1
    } else {
        count
    };
    if d.len() < n {
        d
    } else {
        d.take(n as int)
    }
}

/// A copy of a record.
pub fn copy_record(r: &UsageRecord) -> (c: UsageRecord)
    ensures
        same_record(c, *r),
{
    UsageRecord {
        id: r.id.clone(),
        item_type: r.item_type.clone(),
        timestamp: r.timestamp.clone(),
        duration_ms: r.duration_ms,
    }
}

/// The use history, newest first, with the number of records it keeps.
pub struct HistoryManager {
    records: VecDeque<UsageRecord>,
    max_records: usize,
}

impl HistoryManager {
    /// The records, newest first.
    pub closed spec fn records(&self) -> Seq<UsageRecord> {
        self.records@
    }

    /// The number of records kept.
    pub closed spec fn max_records(&self) -> nat {
        self.max_records as nat
    }

    /// An empty history that keeps up to 1000 records.
    pub fn new() -> (r: HistoryManager)
        ensures
            r.records().len() == 0,
            r.max_records() == 1000,
    {
        HistoryManager { records: VecDeque::with_capacity(1000), max_records: 1000 }
    }

    /// A history with the given records (newest first) and limit, as stored.
    pub fn from_parts(records: Vec<UsageRecord>, max_records: usize) -> (r: HistoryManager)
        ensures
            r.records() == records@,
            r.max_records() == max_records,
    {
        let mut q: VecDeque<UsageRecord> = VecDeque::new();
        let mut rs = records;
        let ghost all = rs@;
        while rs.len() > 0
            invariant
                q@ + rs@ == all,
            decreases rs@.len(),
        {
            let x = rs.remove(0);
            let ghost before = rs@;
            q.push_back(x);
            assert(q@ + rs@ =~= all);
        }
        assert(q@ =~= all);
        HistoryManager { records: q, max_records }
    }

    /// The number of records kept.
    pub fn max_records_limit(&self) -> (r: usize)
        ensures
            r == self.max_records(),
    {
        self.max_records
    }

    /// Adds a record at the front; drops the oldest one when that exceeds the limit.
    fn push_record(&mut self, record: UsageRecord)
        ensures
            final(self).records() == after_push(old(self).records(), record, old(self).max_records()),
            final(self).max_records() == old(self).max_records(),
    {
        self.records.push_front(record);
        if self.records.len() > self.max_records {
            let _ = self.records.pop_back();
        }
    }

    /// Records a use of `script`, stamped with the current local time.
    pub fn record_script_usage(&mut self, script: &Script, duration_ms: Option<u64>)
        ensures
            exists|r: UsageRecord|
                {
                    &&& r.id@ == script.id@
                    &&& r.item_type@ == "script"@
                    &&& r.duration_ms == duration_ms
                    &&& final(self).records() == after_push(old(self).records(), r, old(self).max_records())
                },
            final(self).max_records() == old(self).max_records(),
    {
        let record = UsageRecord {
            id: script.id.clone(),
            item_type: "script".to_owned(),
            timestamp: now_local_rfc3339(),
            duration_ms,
        };
        let ghost r = record;
        self.push_record(record);
        assert(r.item_type@ == "script"@);
    }

    /// Records a use of `template`, stamped with the current local time.
    pub fn record_template_usage(&mut self, template: &Template, duration_ms: Option<u64>)
        ensures
            exists|r: UsageRecord|
                {
                    &&& r.id@ == template.id@
                    &&& r.item_type@ == "template"@
                    &&& r.duration_ms == duration_ms
                    &&& final(self).records() == after_push(old(self).records(), r, old(self).max_records())
                },
            final(self).max_records() == old(self).max_records(),
    {
        let record = UsageRecord {
            id: template.id.clone(),
            item_type: "template".to_owned(),
            timestamp: now_local_rfc3339(),
            duration_ms,
        };
        let ghost r = record;
        self.push_record(record);
        assert(r.item_type@ == "template"@);
    }

    /// The most recently used distinct ids of kind `kind` (see `recent_ids`).
    fn recent_of_kind(&self, kind: &str, count: usize) -> (r: Vec<String>)
        ensures
            r@.map_values(|s: String| s@) == recent_ids(self.records(), kind@, count as nat),
    {
        let k = kind.to_owned();
        let ghost recs = self.records@;
        let ghost d = dedup(ids_of_kind(recs, kind@));
        let ghost n: nat = if count == 0 { 1 } else { count as nat };
        let mut ids: Vec<String> = Vec::new();
        let mut i: usize = 0;
        while i < self.records.len()
            invariant
                i <= recs.len(),
                recs == self.records@,
                k@ == kind@,
                d == dedup(ids_of_kind(recs, kind@)),
                n == (if count == 0 { 1 } else { count as nat }),
                ids@.map_values(|s: String| s@) == dedup(ids_of_kind(recs.take(i as int), kind@)),
                ids@.len() < n,
            decreases recs.len() - i,
        {
            let ghost before = ids@.map_values(|s: String| s@);
            let ghost s0 = ids_of_kind(recs.take(i as int), kind@);
            let ghost x = recs[i as int].id@;
            proof {
                assert(recs.take(i + 1).drop_last() =~= recs.take(i as int));
                assert(recs.take(i + 1).last() == recs[i as int]);
                assert(ids_of_kind(recs.take(i + 1), kind@) == (if recs[i as int].item_type@ == kind@ {
                    s0.push(x)
                } else {
                    s0
                }));
                assert(s0.push(x).drop_last() =~= s0);
                assert(s0.push(x).last() == x);
                lemma_dedup_contains(s0, x);
            }
            let same_kind = self.records[i].item_type == k;
            let seen = contains_string(&ids, &self.records[i].id);
            if same_kind && !seen {
                ids.push(self.records[i].id.clone());
                assert(ids@.map_values(|s: String| s@) =~= before.push(recs[i as int].id@));
                if ids.len() >= count {
                    proof {
                        lemma_dedup_prefix(recs, kind@, i + 1);
                    }
                    return ids;
                }
            }
            i = i + 1;
        }
        proof {
            assert(recs.take(i as int) =~= recs);
        }
        ids
    }
}

impl HistoryManager {
    /// The most recently used distinct script ids, newest first: `count` of
    /// them, or all there are when fewer (one when `count` is zero and there is any).
    pub fn get_recent_scripts(&self, count: usize) -> (r: Vec<String>)
        ensures
            r@.map_values(|s: String| s@) == recent_ids(self.records(), "script"@, count as nat),
    {
        self.recent_of_kind("script", count)
    }

    /// The most recently used distinct template ids, newest first (as `get_recent_scripts`).
    pub fn get_recent_templates(&self, count: usize) -> (r: Vec<String>)
        ensures
            r@.map_values(|s: String| s@) == recent_ids(self.records(), "template"@, count as nat),
    {
        self.recent_of_kind("template", count)
    }

    /// Removes every record.
    pub fn clear_history(&mut self)
        ensures
            final(self).records().len() == 0,
            final(self).max_records() == old(self).max_records(),
    {
        self.records.clear();
    }

    /// A copy of the records, newest first.
    pub fn export_history(&self) -> (r: Vec<UsageRecord>)
        ensures
            same_records(r@, self.records()),
    {
        let mut r: Vec<UsageRecord> = Vec::new();
        let mut i: usize = 0;
        while i < self.records.len()
            invariant
                i <= self.records@.len(),
                r@.len() == i,
                forall|j: int| 0 <= j < i ==> same_record(#[trigger] r@[j], self.records@[j]),
            decreases self.records@.len() - i,
        {
            r.push(copy_record(&self.records[i]));
            i = i + 1;
        }
        r
    }

    /// Puts `new_records` (newest first) before the existing records, then
    /// drops the oldest records beyond the limit.
    pub fn import_history(&mut self, new_records: Vec<UsageRecord>)
        ensures
            same_records(
                final(self).records(),
                bounded(new_records@ + old(self).records(), old(self).max_records()),
            ),
            final(self).max_records() == old(self).max_records(),
    {
        let ghost all = new_records@ + self.records@;
        let ghost old_records = self.records@;
        let n = new_records.len();
        let mut k: usize = n;
        while k > 0
            invariant
                k <= n,
                n == new_records@.len(),
                all == new_records@ + old_records,
                self.records@.len() == old_records.len() + (n - k),
                forall|j: int| 0 <= j < n - k ==> same_record(#[trigger] self.records@[j], all[k + j]),
                forall|j: int| n - k <= j < self.records@.len() ==> #[trigger] self.records@[j] == all[k + j],
                self.max_records == old(self).max_records,
            decreases k,
        {
            k = k - 1;
            let ghost prev = self.records@;
            self.records.push_front(copy_record(&new_records[k]));
            assert forall|j: int| 1 <= j < self.records@.len() implies #[trigger] self.records@[j] == prev[j - 1] by {}
        }
        while self.records.len() > self.max_records
            invariant
                self.records@.len() <= all.len(),
                forall|j: int| 0 <= j < self.records@.len() ==> same_record(#[trigger] self.records@[j], all[j]),
                self.max_records == old(self).max_records,
                self.records@.len() >= (if all.len() > self.max_records { self.max_records as int } else { all.len() as int }),
            decreases self.records@.len(),
        {
            let _ = self.records.pop_back();
        }
    }
}

impl Default for HistoryManager {
    fn default() -> (r: HistoryManager)
        ensures
            r.records().len() == 0,
            r.max_records() == 1000,
    {
        HistoryManager::new()
    }
}

// ---------------------------------------------------------------------------
// Statistics over time
// ---------------------------------------------------------------------------
/// Instant `a` is not before instant `b` (seconds, then nanoseconds).
pub open spec fn instant_at_least(a: (i64, u32), b: (i64, u32)) -> bool {
    a.0 > b.0 || (a.0 == b.0 && a.1 >= b.1)
}

/// The record's timestamp is readable and not before `cutoff`.
pub open spec fn used_since(r: UsageRecord, cutoff: (i64, u32)) -> bool {
    rfc3339_instant(r.timestamp@) is Some && instant_at_least(rfc3339_instant(r.timestamp@)->0, cutoff)
}

/// The statistics key of a record: its kind, `_` and its id.
pub open spec fn stat_key(r: UsageRecord) -> Seq<char> {
    r.item_type@ + seq!['_'] + r.id@
}

/// The statistics keys of the records used since `cutoff`, in order.
pub open spec fn stat_keys(records: Seq<UsageRecord>, cutoff: (i64, u32)) -> Seq<Seq<char>>
    decreases records.len(),
{
    if records.len() == 0 {
        seq![]
    } else if used_since(records.last(), cutoff) {
        stat_keys(records.drop_last(), cutoff).push(stat_key(records.last()))
    } else {
        stat_keys(records.drop_last(), cutoff)
    }
}

/// How many records are uses of script `id` since `cutoff`.
pub open spec fn script_uses_since(records: Seq<UsageRecord>, id: Seq<char>, cutoff: (i64, u32)) -> nat
    decreases records.len(),
{
    if records.len() == 0 {
        0
    } else {
        let r = records.last();
        script_uses_since(records.drop_last(), id, cutoff) + if r.item_type@ == "script"@ && r.id@ == id
            && used_since(r, cutoff) {
            1nat
        } else {
            0nat
        }
    }
}

/// The keys of count entries.
pub open spec fn entry_keys(s: Seq<(Seq<char>, nat)>) -> Seq<Seq<char>> {
    s.map_values(|e: (Seq<char>, nat)| e.0)
}

/// `r` is the daily trend for the days `labels` and the days `uses` of the
/// uses: every day that is a label or a use, once, in increasing order, with
/// its number of uses.
pub open spec fn is_trend(r: Seq<(Seq<char>, nat)>, labels: Seq<Seq<char>>, uses: Seq<Seq<char>>) -> bool {
    &&& strictly_sorted(entry_keys(r))
    &&& forall|k: Seq<char>, c: nat|
        #[trigger] r.contains((k, c)) <==> ((labels.contains(k) || uses.contains(k)) && c == occurrences(uses, k))
}

/// The entries in increasing order of their (distinct) keys.
fn sort_entries(entries: &Vec<(String, usize)>) -> (r: Vec<(String, usize)>)
    requires
        entry_keys(count_views(entries@)).no_duplicates(),
    ensures
        strictly_sorted(entry_keys(count_views(r@))),
        forall|x: (Seq<char>, nat)|
            #[trigger] count_views(r@).contains(x)
                <==> count_views(entries@).contains(x),
{
    let ghost ev = count_views(entries@);
    let ghost ks = text_keys(entry_keys(ev));
    let mut keys: Vec<SortKey> = Vec::new();
    let mut i: usize = 0;
    while i < entries.len()
        invariant
            i <= entries@.len(),
            ev == count_views(entries@),
            ks == text_keys(entry_keys(ev)),
            keys@.map_values(|k: SortKey| key_view(k)) == ks.take(i as int),
        decreases entries@.len() - i,
    {
        let ghost prev = keys@;
        let key = SortKey { major: 0, minor: 0, text: chars_of(entries[i].0.as_str()) };
        keys.push(key);
        assert(keys@.map_values(|k: SortKey| key_view(k)) =~= prev.map_values(|k: SortKey| key_view(k)).push(key_view(key)));
        assert(ks.take(i + 1) =~= ks.take(i as int).push(ks[i as int]));
        i = i + 1;
    }
    assert(ks.take(i as int) =~= ks);
    let order = stable_order(&keys);
    let ghost pv = order@.map_values(|i: usize| i as int);
    let mut r: Vec<(String, usize)> = Vec::new();
    let mut k: usize = 0;
    while k < order.len()
        invariant
            k <= order@.len(),
            order@.len() == entries@.len(),
            pv == order@.map_values(|i: usize| i as int),
            ev == count_views(entries@),
            ks == text_keys(entry_keys(ev)),
            stably_sorted(ks, pv),
            count_views(r@) == permuted(ev, pv.take(k as int)),
        decreases order@.len() - k,
    {
        let idx = order[k];
        assert(pv[k as int] == idx as int);
        let ghost prev = r@;
        let e = (entries[idx].0.clone(), entries[idx].1);
        r.push(e);
        assert(count_views(r@) =~= prev.map_values(
            |p: (String, usize)| count_pair_view(p),
        ).push(ev[idx as int]));
        assert(permuted(ev, pv.take(k + 1)) =~= permuted(ev, pv.take(k as int)).push(ev[pv[k as int]]));
        k = k + 1;
    }
    assert(pv.take(k as int) =~= pv);
    proof {
        lemma_key_lt_facts();
        lemma_permuted_within(ev, ks, pv);
        let rv = permuted(ev, pv);
        assert forall|a: int, b: int| 0 <= a < b < entry_keys(rv).len() implies text_lt(
            #[trigger] entry_keys(rv)[a],
            #[trigger] entry_keys(rv)[b],
        ) by {
            assert(!key_lt(ks[pv[b]], ks[pv[a]]));
            assert(ks[pv[a]] == (0int, 0int, ev[pv[a]].0));
            assert(ks[pv[b]] == (0int, 0int, ev[pv[b]].0));
            assert(pv[a] != pv[b]);
            assert(entry_keys(ev)[pv[a]] != entry_keys(ev)[pv[b]]);
            lemma_text_lt_total(ev[pv[a]].0, ev[pv[b]].0);
        }
        assert forall|x: (Seq<char>, nat)| ev.contains(x) implies rv.contains(x) by {
            lemma_permuted_covers(ev, ks, pv, x);
        }
    }
    r
}

/// The daily trend (see `is_trend`) for the day labels and the days of the uses.
pub fn trend_from(day_labels: &Vec<String>, use_days: &Vec<String>) -> (r: Vec<(String, usize)>)
    ensures
        is_trend(count_views(r@), views(day_labels@), views(use_days@)),
{
    let ghost ds = views(use_days@);
    let ghost ls = views(day_labels@);
    let mut entries = count_each(use_days);
    proof {
        assert(views(use_days@) =~= use_days@.map_values(|s: String| s@));
        assert(count_views(entries@) == tag_counts(ds));
        lemma_dedup_no_duplicates(ds);
        assert(entry_keys(tag_counts(ds)) =~= dedup(ds));
        assert forall|k: Seq<char>, c: nat|
            #[trigger] count_views(entries@).contains((k, c)) <==> ((ls.take(0).contains(k) || ds.contains(k))
                && c == occurrences(ds, k)) by {
            lemma_tag_counts_contains(ds, k, c);
        }
    }
    let mut i: usize = 0;
    while i < day_labels.len()
        invariant
            i <= day_labels@.len(),
            ds == views(use_days@),
            ls == views(day_labels@),
            entry_keys(count_views(entries@)).no_duplicates(),
            forall|k: Seq<char>, c: nat|
                #[trigger] count_views(entries@).contains((k, c))
                    <==> ((ls.take(i as int).contains(k) || ds.contains(k)) && c == occurrences(ds, k)),
        decreases day_labels@.len() - i,
    {
        let ghost ev = count_views(entries@);
        let ghost l = day_labels@[i as int]@;
        proof {
            assert(ls.take(i + 1) =~= ls.take(i as int).push(l));
            assert(ls[i as int] == l);
        }
        match find_entry(&entries, &day_labels[i]) {
            Some(idx) => {
                proof {
                    assert(ev[idx as int].0 == l);
                    assert(ev.contains(ev[idx as int]));
                    assert forall|k: Seq<char>, c: nat|
                        #[trigger] ev.contains((k, c)) <==> ((ls.take(i + 1).contains(k) || ds.contains(k)) && c == occurrences(ds, k)) by {
                        lemma_push_contains(ls.take(i as int), l, k);
                    }
                }
            },
            None => {
                let ghost prev = entries@;
                entries.push((day_labels[i].clone(), 0));
                proof {
                    let ev2 = count_views(entries@);
                    assert(ev2 =~= ev.push((l, 0nat)));
                    assert(entry_keys(ev2) =~= entry_keys(ev).push(l));
                    assert(!entry_keys(ev).contains(l));
                    if ds.contains(l) {
                        lemma_occurrences_contains(ds, l);
                        assert(ev.contains((l, occurrences(ds, l))));
                        let j = choose|j: int| 0 <= j < ev.len() && ev[j] == (l, occurrences(ds, l));
                        assert(entry_keys(ev)[j] == l);
                    }
                    lemma_occurrences_contains(ds, l);
                    assert forall|k: Seq<char>, c: nat|
                        #[trigger] ev2.contains((k, c)) <==> ((ls.take(i + 1).contains(k) || ds.contains(k)) && c == occurrences(ds, k)) by {
                        lemma_push_contains(ls.take(i as int), l, k);
                        lemma_push_contains(ev, (l, 0nat), (k, c));
                    }
                }
            },
        }
        i = i + 1;
    }
    proof {
        assert(ls.take(i as int) =~= ls);
    }
    sort_entries(&entries)
}

/// Index of the entry with key `key`, if there is one.
fn find_entry(entries: &Vec<(String, usize)>, key: &String) -> (r: Option<usize>)
    ensures
        match r {
            Some(i) => i < entries@.len() && entries@[i as int].0@ == key@,
            None => !entry_keys(count_views(entries@)).contains(key@),
        },
{
    let ghost ev = count_views(entries@);
    let mut k: usize = 0;
    while k < entries.len()
        invariant
            k <= entries@.len(),
            ev == count_views(entries@),
            forall|j: int| 0 <= j < k ==> (#[trigger] entries@[j]).0@ != key@,
        decreases entries@.len() - k,
    {
        if entries[k].0 == *key {
            return Some(k);
        }
        k = k + 1;
    }
    proof {
        if entry_keys(ev).contains(key@) {
            let j = choose|j: int| 0 <= j < entry_keys(ev).len() && entry_keys(ev)[j] == key@;
            assert(entries@[j].0@ == key@);
        }
    }
    None
}

impl HistoryManager {
    /// How often each script and template was used since `cutoff`, keyed by
    /// kind and id (`script_<id>` or `template_<id>`), in order of the newest use.
    pub fn usage_stats_since(&self, cutoff: (i64, u32)) -> (r: Vec<(String, usize)>)
        ensures
            count_views(r@) == tag_counts(stat_keys(self.records(), cutoff)),
    {
        let ghost recs = self.records@;
        let mut keys: Vec<String> = Vec::new();
        let mut i: usize = 0;
        while i < self.records.len()
            invariant
                i <= recs.len(),
                recs == self.records@,
                views(keys@) == stat_keys(recs.take(i as int), cutoff),
            decreases recs.len() - i,
        {
            let ghost prev = keys@;
            proof {
                assert(recs.take(i + 1).drop_last() =~= recs.take(i as int));
                assert(recs.take(i + 1).last() == recs[i as int]);
            }
            match parse_rfc3339_instant(self.records[i].timestamp.as_str()) {
                Some(t) => {
                    if t.0 > cutoff.0 || (t.0 == cutoff.0 && t.1 >= cutoff.1) {
                        let mut key = self.records[i].item_type.clone();
                        push_str(&mut key, "_");
                        push_str(&mut key, self.records[i].id.as_str());
                        keys.push(key);
                        proof {
                            reveal_strlit("_");
                            assert("_"@ =~= seq!['_']);
                            assert(key@ == stat_key(recs[i as int]));
                            assert(views(keys@) =~= views(prev).push(stat_key(recs[i as int])));
                        }
                    }
                },
                None => {},
            }
            i = i + 1;
        }
        proof {
            assert(recs.take(i as int) =~= recs);
            assert(views(keys@) =~= keys@.map_values(|s: String| s@));
        }
        count_each(&keys)
    }

    /// How often each script and template was used in the last `days` days
    /// (see `usage_stats_since`), counted from the local time `days` days ago;
    /// nothing when that time cannot be had.
    pub fn get_usage_stats(&self, days: u32) -> (r: Option<Vec<(String, usize)>>)
        ensures
            match r {
                Some(v) => exists|c: (i64, u32)|
                    count_views(v@) == tag_counts(
                        #[trigger] stat_keys(self.records(), c),
                    ),
                None => true,
            },
    {
        match local_days_ago_instant(days) {
            Some(c) => Some(self.usage_stats_since(c)),
            None => None,
        }
    }
}

/// The daily use counts of script `script_id` over the last `days` local
/// days: each of those days and each day with a use since the local time `days`
/// days ago, once, in increasing order, with its number of uses (see
/// `is_trend`); nothing when a local date cannot be had.
pub fn calculate_script_trend(history_manager: &HistoryManager, script_id: &str, days: u32) -> (r: Option<
    Vec<(String, usize)>,
>)
    ensures
        match r {
            Some(v) => exists|c: (i64, u32), labels: Seq<Seq<char>>, uses: Seq<Seq<char>>|
                {
                    &&& labels.len() == days
                    &&& uses.len() == #[trigger] script_uses_since(history_manager.records(), script_id@, c)
                    &&& #[trigger] is_trend(count_views(v@), labels, uses)
                },
            None => true,
        },
{
    let cutoff = match local_days_ago_instant(days) {
        Some(c) => c,
        None => {
            return None;
        },
    };
    let mut labels: Vec<String> = Vec::new();
    let mut d: u32 = 0;
    while d < days
        invariant
            d <= days,
            labels@.len() == d,
        decreases days - d,
    {
        match local_date_days_ago(d) {
            Some(l) => labels.push(l),
            None => {
                return None;
            },
        }
        d = d + 1;
    }
    let recs = &history_manager.records;
    let ghost rs = history_manager.records@;
    let kind = "script".to_owned();
    let id = script_id.to_owned();
    let mut uses: Vec<String> = Vec::new();
    let mut i: usize = 0;
    while i < recs.len()
        invariant
            i <= rs.len(),
            rs == recs@,
            rs == history_manager.records(),
            kind@ == "script"@,
            id@ == script_id@,
            uses@.len() == script_uses_since(rs.take(i as int), script_id@, cutoff),
        decreases rs.len() - i,
    {
        proof {
            assert(rs.take(i + 1).drop_last() =~= rs.take(i as int));
            assert(rs.take(i + 1).last() == rs[i as int]);
        }
        if recs[i].item_type == kind && recs[i].id == id {
            match parse_rfc3339_instant(recs[i].timestamp.as_str()) {
                Some(t) => {
                    if t.0 > cutoff.0 || (t.0 == cutoff.0 && t.1 >= cutoff.1) {
                        match local_date_of(recs[i].timestamp.as_str()) {
                            Some(day) => uses.push(day),
                            None => {},
                        }
                    }
                },
                None => {},
            }
        }
        i = i + 1;
    }
    proof {
        assert(rs.take(i as int) =~= rs);
    }
    let v = trend_from(&labels, &uses);
    proof {
        let wl = views(labels@);
        let wu = views(uses@);
        assert(wl.len() == days);
        assert(wu.len() == script_uses_since(history_manager.records(), script_id@, cutoff));
        assert(is_trend(count_views(v@), wl, wu));
        assert(exists|c: (i64, u32), labels: Seq<Seq<char>>, uses: Seq<Seq<char>>|
            {
                &&& labels.len() == days
                &&& uses.len() == #[trigger] script_uses_since(history_manager.records(), script_id@, c)
                &&& #[trigger] is_trend(count_views(v@), labels, uses)
            });
    }
    let r = Some(v);
    assert(r->0 == v);
    r
}

} // verus!
