//! Per-application usage history: launch counters and recency timestamps.

use vstd::prelude::*;

verus! {

/// Statistics kept for one application identity.
#[derive(Clone, Copy, Debug, PartialEq, Eq, Structural)]
pub struct UsageEntry {
    /// Number of successful launches; saturates instead of wrapping.
    pub count: u64,
    /// Seconds since the Unix epoch of the latest launch.
    pub last_used: u64,
}

/// One identity with its statistics.
#[derive(Debug)]
pub struct UsageRecord {
    pub key: String,
    pub entry: UsageEntry,
}

/// The usage history: at most one record per identity.
pub struct UsageMap {
    records: Vec<UsageRecord>,
    contents: Ghost<Map<Seq<char>, UsageEntry>>,
}

/// The entry that a launch of `key` at time `now` leaves in `m`.
pub open spec fn bumped(m: Map<Seq<char>, UsageEntry>, key: Seq<char>, now: u64) -> UsageEntry {
    let c = if m.contains_key(key) {
        m[key].count
    } else {
        0
    };
    UsageEntry { count: if c == u64::MAX { c } else { (c + 1) as u64 }, last_used: now }
}

/// Relies on `std::time::SystemTime::now`: the current time, in whole
/// seconds since the Unix epoch (0 for a clock set before it).
#[verifier::external_body]
fn now_unix() -> (r: u64) {
    std::time::SystemTime::now().duration_since(std::time::UNIX_EPOCH).unwrap_or_default().as_secs()
}

impl View for UsageMap {
    type V = Map<Seq<char>, UsageEntry>;

    closed spec fn view(&self) -> Map<Seq<char>, UsageEntry> {
        self.contents@
    }
}

impl UsageMap {
    /// The records stand for exactly the map, one record per identity.
    pub closed spec fn wf(&self) -> bool {
        &&& forall|i: int, j: int|
            0 <= i < j < self.records@.len() ==> self.records@[i].key@ != self.records@[j].key@
        &&& forall|i: int|
            0 <= i < self.records@.len() ==> #[trigger] self@.contains_key(self.records@[i].key@)
                && self@[self.records@[i].key@] == self.records@[i].entry
        &&& forall|k: Seq<char>|
            #[trigger] self@.contains_key(k) ==> exists|i: int|
                0 <= i < self.records@.len() && #[trigger] self.records@[i].key@ == k
    }

    /// The records, one per identity, in the order they were created.
    pub closed spec fn record_seq(&self) -> Seq<UsageRecord> {
        self.records@
    }

    /// An empty history.
    pub fn new() -> (r: UsageMap)
        ensures
            r.wf(),
            r@ == Map::<Seq<char>, UsageEntry>::empty(),
    {
        UsageMap { records: Vec::new(), contents: Ghost(Map::empty()) }
    }

    /// The records of the history.
    pub fn records(&self) -> (r: &Vec<UsageRecord>)
        requires
            self.wf(),
        ensures
            r@ == self.record_seq(),
            forall|i: int, j: int| 0 <= i < j < r@.len() ==> r@[i].key@ != r@[j].key@,
            forall|i: int|
                0 <= i < r@.len() ==> #[trigger] self@.contains_key(r@[i].key@) && self@[r@[i].key@]
                    == r@[i].entry,
            forall|k: Seq<char>|
                #[trigger] self@.contains_key(k) ==> exists|i: int| 0 <= i < r@.len() && #[trigger] r@[i].key@ == k,
    {
        &self.records
    }

    /// Number of identities with a record.
    pub fn len(&self) -> (r: usize)
        requires
            self.wf(),
        ensures
            r == self.record_seq().len(),
    {
        self.records.len()
    }

    /// Position of the record of `key`, if there is one.
    fn position(&self, key: &String) -> (r: Option<usize>)
        requires
            self.wf(),
        ensures
            r.is_none() == !self@.contains_key(key@),
            r matches Some(i) ==> i < self.records@.len() && self.records@[i as int].key@ == key@,
    {
        let mut i: usize = 0;
        while i < self.records.len()
            invariant
                self.wf(),
                i <= self.records@.len(),
                forall|j: int| 0 <= j < i ==> self.records@[j].key@ != key@,
            decreases self.records.len() - i,
        {
            if self.records[i].key == *key {
                return Some(i);
            }
            i += 1;
        }
        None
    }

    /// The statistics of `key`, if it has a record.
    pub fn get(&self, key: &String) -> (r: Option<UsageEntry>)
        requires
            self.wf(),
        ensures
            r == (if self@.contains_key(key@) {
                Some(self@[key@])
            } else {
                None
            }),
    {
        match self.position(key) {
            Some(i) => Some(self.records[i].entry),
            None => None,
        }
    }

    /// Sets the statistics of `key`, creating its record if it has none.
    pub fn insert(&mut self, key: String, entry: UsageEntry)
        requires
            old(self).wf(),
        ensures
            final(self).wf(),
            final(self)@ == old(self)@.insert(key@, entry),
    {
        let ghost k = key@;
        match self.position(&key) {
            Some(i) => {
                self.records.set(i, UsageRecord { key, entry });
            },
            None => {
                self.records.push(UsageRecord { key, entry });
            },
        }
        self.contents = Ghost(self.contents@.insert(k, entry));
        proof {
            assert forall|k2: Seq<char>| #[trigger] self@.contains_key(k2) implies exists|i: int|
                0 <= i < self.records@.len() && #[trigger] self.records@[i].key@ == k2 by {
                if k2 != k {
                    let j = choose|j: int|
                        0 <= j < old(self).records@.len() && #[trigger] old(self).records@[j].key@
                            == k2;
                    assert(self.records@[j].key@ == k2);
                } else {
                    let p = self.records@.len() - 1;
                    if old(self)@.contains_key(k) {
                        let j = choose|j: int|
                            0 <= j < old(self).records@.len() && #[trigger] old(self).records@[j].key@
                                == k2;
                        assert(self.records@[j].key@ == k2);
                    } else {
                        assert(self.records@[p].key@ == k2);
                    }
                }
            }
        }
    }

    /// Records a launch of `key` at time `now`: the count goes up by one,
    /// saturating, and the timestamp becomes `now`.
    pub fn record_at(&mut self, key: &String, now: u64)
        requires
            old(self).wf(),
        ensures
            final(self).wf(),
            final(self)@ == old(self)@.insert(key@, bumped(old(self)@, key@, now)),
    {
        let count: u64 = match self.get(key) {
            Some(e) => e.count,
            None => 0,
        };
        let next: u64 = if count == u64::MAX {
            count
        } else {
            count + 1
        };
        self.insert(key.clone(), UsageEntry { count: next, last_used: now });
    }
}

/// Records a launch of `key` now: the count goes up by one, saturating, and
/// the timestamp becomes the current time, whatever the clock says.
pub fn record_usage(key: &String, usage: &mut UsageMap)
    requires
        old(usage).wf(),
    ensures
        final(usage).wf(),
        exists|now: u64| final(usage)@ == old(usage)@.insert(key@, #[trigger] bumped(old(usage)@, key@, now)),
        final(usage)@[key@].count == bumped(old(usage)@, key@, 0).count,
{
    let now = now_unix();
    usage.record_at(key, now);
    assert(final(usage)@ == old(usage)@.insert(key@, bumped(old(usage)@, key@, now)));
}

} // verus!
