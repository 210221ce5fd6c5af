//! Memory of which listings were already delivered to which user.
use vstd::prelude::*;

verus! {

/// One delivery: a listing, the user it went to, and when it was recorded.
#[derive(Clone, Copy, Debug, PartialEq, Eq, Structural)]
pub struct HistoryEntry {
    pub ad_id: i64,
    pub user_id: i64,
    pub added: i64,
}

/// Whether `s` records listing `ad_id` as delivered to `user_id`.
pub open spec fn has_pair(s: Seq<HistoryEntry>, ad_id: i64, user_id: i64) -> bool {
    exists|i: int| 0 <= i < s.len() && (#[trigger] s[i]).ad_id == ad_id && s[i].user_id == user_id
}

/// Whether an entry recorded at `added` is still within `retention` at `now`.
pub open spec fn is_fresh(e: HistoryEntry, now: i64, retention: i64) -> bool {
    now as int - e.added as int <= retention as int
}

/// The entries of `s` that are still fresh at `now`, in order.
pub open spec fn purged(s: Seq<HistoryEntry>, now: i64, retention: i64) -> Seq<HistoryEntry> {
    s.filter(|e: HistoryEntry| is_fresh(e, now, retention))
}

/// The delivered (listing, user) pairs, with the time each was recorded.
///
/// Entries are kept in the order in which they were added.
pub struct ItemHistory {
    entries: Vec<HistoryEntry>,
    retention: i64,
}

impl View for ItemHistory {
    type V = Seq<HistoryEntry>;

    closed spec fn view(&self) -> Seq<HistoryEntry> {
        self.entries@
    }
}

impl ItemHistory {
    /// How long, in seconds, an entry is kept by `purge_old`.
    pub closed spec fn retention_spec(&self) -> i64 {
        self.retention
    }

    /// An empty history whose entries expire `retention` seconds after they are added.
    pub fn new(retention: i64) -> (r: ItemHistory)
        ensures
            r@ == Seq::<HistoryEntry>::empty(),
            r.retention_spec() == retention,
    {
        ItemHistory { entries: Vec::new(), retention }
    }

    /// How long, in seconds, an entry is kept by `purge_old`.
    pub fn retention(&self) -> (r: i64)
        ensures
            r == self.retention_spec(),
    {
        self.retention
    }

    /// The number of entries.
    pub fn len(&self) -> (r: usize)
        ensures
            r == self@.len(),
    {
        self.entries.len()
    }

    /// Whether listing `ad_id` was already delivered to `user_id`.
    pub fn contains(&self, ad_id: i64, user_id: i64) -> (r: bool)
        ensures
            r == has_pair(self@, ad_id, user_id),
    {
        let mut i: usize = 0;
        while i < self.entries.len()
            invariant
                i <= self@.len(),
                self@ == self.entries@,
                forall|j: int|
                    0 <= j < i ==> !((#[trigger] self@[j]).ad_id == ad_id && self@[j].user_id
                        == user_id),
            decreases self@.len() - i,
        {
            let e = self.entries[i];
            if e.ad_id == ad_id && e.user_id == user_id {
                return true;
            }
            i = i + 1;
        }
        false
    }

    /// Records that listing `ad_id` was delivered to `user_id` at `now`.
    pub fn add_item(&mut self, ad_id: i64, user_id: i64, now: i64)
        ensures
            final(self)@ == old(self)@.push(HistoryEntry { ad_id, user_id, added: now }),
            final(self).retention_spec() == old(self).retention_spec(),
    {
        self.entries.push(HistoryEntry { ad_id, user_id, added: now });
    }

    /// Forgets the entries recorded more than the retention window before `now`.
    pub fn purge_old(&mut self, now: i64)
        ensures
            final(self)@ == purged(old(self)@, now, old(self).retention_spec()),
            final(self).retention_spec() == old(self).retention_spec(),
    {
        let retention = self.retention;
        let ghost old_entries = self.entries@;
        let mut kept: Vec<HistoryEntry> = Vec::new();
        let mut i: usize = 0;
        while i < self.entries.len()
            invariant
                i <= old_entries.len(),
                self.entries@ == old_entries,
                self.retention == retention,
                kept@ == purged(old_entries.subrange(0, i as int), now, retention),
            decreases old_entries.len() - i,
        {
            let e = self.entries[i];
            assert(old_entries.subrange(0, i + 1).drop_last() =~= old_entries.subrange(
                0,
                i as int,
            ));
            if (now as i128) - (e.added as i128) <= retention as i128 {
                kept.push(e);
            }
            proof {
                reveal(Seq::filter);
                assert(old_entries.subrange(0, i + 1).last() == e);
            }
            assert(kept@ == purged(old_entries.subrange(0, i + 1), now, retention));
            i = i + 1;
        }
        assert(old_entries.subrange(0, old_entries.len() as int) =~= old_entries);
        self.entries = kept;
        assert(self@ == purged(old_entries, now, retention));
    }

    /// Forgets the entries that are out of the retention window now.
    pub fn purge_expired(&mut self)
        ensures
            exists|now: i64|
                final(self)@ == #[trigger] purged(old(self)@, now, old(self).retention_spec()),
            final(self).retention_spec() == old(self).retention_spec(),
    {
        let now = current_timestamp();
        self.purge_old(now);
    }
}

/// Relies on `chrono::Local::now` and `DateTime::timestamp`: the current time
/// in seconds since the Unix epoch. Nothing is promised of its value.
#[verifier::external_body]
pub(crate) fn current_timestamp() -> (r: i64) {
    chrono::Local::now().timestamp()
}

} // verus!
