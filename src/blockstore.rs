//! The read policy of the block store: whether a read is served by a ranged
//! fetch or by fetching the whole block, and the coalescing of concurrent
//! whole-block fetches of one block into a single downstream fetch.

use vstd::prelude::*;

verus! {

/// A block object in the backend: the chunk id and the block's index in it.
#[derive(Debug, Clone, Copy, PartialEq, Eq, Structural)]
pub struct BlockKey {
    pub chunk_id: u64,
    pub block_index: u32,
}

/// The store's tunable policy: the block size, and the range-read threshold as
/// the fraction `threshold_num / threshold_den` of it.
#[derive(Debug, Clone, Copy, PartialEq, Eq, Structural)]
pub struct BlockStoreConfig {
    pub block_size: u64,
    pub threshold_num: u64,
    pub threshold_den: u64,
}

/// How a read is served.
#[derive(Debug, Clone, Copy, PartialEq, Eq, Structural)]
pub enum ReadPlan {
    /// Fetch exactly `[offset, offset + len)` of the block.
    Range { offset: u64, len: u64 },
    /// Fetch the whole block once and cut the window out locally.
    WholeBlock,
}

impl BlockStoreConfig {
    pub open spec fn valid(&self) -> bool {
        self.threshold_den > 0
    }

    /// Whether a read of `len` bytes is at or below the threshold.
    pub open spec fn small_read(&self, len: int) -> bool {
        len * self.threshold_den <= self.block_size * self.threshold_num
    }

    pub fn new(block_size: u64, threshold_num: u64, threshold_den: u64) -> (r: BlockStoreConfig)
        ensures
            r == (BlockStoreConfig { block_size, threshold_num, threshold_den }),
    {
        BlockStoreConfig { block_size, threshold_num, threshold_den }
    }

    /// Chooses how to serve a read of `len` bytes at `offset`: reads at or below
    /// the threshold are ranged fetches, larger ones fetch the whole block.
    pub fn plan_read(&self, offset: u64, len: u64) -> (r: ReadPlan)
        requires
            self.valid(),
        ensures
            self.small_read(len as int) ==> r == (ReadPlan::Range { offset, len }),
            !self.small_read(len as int) ==> r == ReadPlan::WholeBlock,
    {
        proof {
            let a = len as int;
            let b = self.threshold_den as int;
            let c = self.block_size as int;
            let d = self.threshold_num as int;
            assert(a * b <= u128::MAX) by (nonlinear_arith)
                requires 0 <= a <= u64::MAX, 0 <= b <= u64::MAX;
            assert(c * d <= u128::MAX) by (nonlinear_arith)
                requires 0 <= c <= u64::MAX, 0 <= d <= u64::MAX;
        }
        let want = len as u128 * self.threshold_den as u128;
        let limit = self.block_size as u128 * self.threshold_num as u128;
        if want <= limit {
            ReadPlan::Range { offset, len }
        } else {
            ReadPlan::WholeBlock
        }
    }
}

/// Cuts `[offset, offset + len)` out of a fetched block; `None` when the block is
/// too short to hold it.
pub fn read_window(block: &[u8], offset: u64, len: u64) -> (r: Option<Vec<u8>>)
    ensures
        offset + len <= block@.len() ==> r is Some && r.unwrap()@ == block@.subrange(
            offset as int,
            offset + len,
        ),
        offset + len > block@.len() ==> r is None,
{
    let total: usize = block.len();
    if offset > total as u64 || len > total as u64 - offset {
        return None;
    }
    let start = offset as usize;
    let n = len as usize;
    let mut out: Vec<u8> = Vec::new();
    let mut i: usize = 0;
    while i < n
        invariant
            i <= n,
            n == len,
            start == offset,
            start + n <= block@.len(),
            total == block@.len(),
            out@ == block@.subrange(offset as int, offset + i),
        decreases n - i,
    {
        out.push(block[start + i]);
        i = i + 1;
        assert(out@ =~= block@.subrange(offset as int, offset + i));
    }
    Some(out)
}

/// The bytes of an object after `buf` is written at `offset` of `data`: the
/// object grows, zero-filled, to reach the end of the write where it is shorter.
pub open spec fn patched(data: Seq<u8>, offset: int, buf: Seq<u8>) -> Seq<u8> {
    let end = offset + buf.len();
    let len = if data.len() > end {
        data.len() as int
    } else {
        end
    };
    Seq::new(
        len as nat,
        |i: int|
            if offset <= i < end {
                buf[i - offset]
            } else if i < data.len() {
                data[i]
            } else {
                0u8
            },
    )
}

/// The new bytes of an object of which `[offset, offset + buf.len())` is
/// overwritten with `buf`.
pub fn patch_object(data: &[u8], offset: usize, buf: &[u8]) -> (r: Vec<u8>)
    requires
        offset + buf@.len() <= usize::MAX,
    ensures
        r@ == patched(data@, offset as int, buf@),
{
    let end = offset + buf.len();
    let len = if data.len() > end {
        data.len()
    } else {
        end
    };
    let mut out: Vec<u8> = Vec::new();
    let mut i: usize = 0;
    while i < len
        invariant
            i <= len,
            end == offset + buf@.len(),
            len == if data@.len() > end { data@.len() as int } else { end as int },
            out@ == patched(data@, offset as int, buf@).subrange(0, i as int),
        decreases len - i,
    {
        let b = if offset <= i && i < end {
            buf[i - offset]
        } else if i < data.len() {
            data[i]
        } else {
            0u8
        };
        out.push(b);
        i = i + 1;
        assert(out@ =~= patched(data@, offset as int, buf@).subrange(0, i as int));
    }
    assert(out@ =~= patched(data@, offset as int, buf@));
    out
}

/// A whole-block fetch in progress and the number of callers waiting on it.
#[derive(Debug, Clone, Copy, PartialEq, Eq, Structural)]
pub struct Flight {
    pub key: BlockKey,
    pub waiters: u64,
}

/// What a caller that asks for a block's whole-block fetch is to do.
#[derive(Debug, Clone, Copy, PartialEq, Eq, Structural)]
pub enum JoinRole {
    /// No fetch of the block was in progress: issue it.
    Leader,
    /// A fetch of the block is in progress: wait for its result.
    Follower,
}

/// What is left to do when a waiting caller gives up.
#[derive(Debug, Clone, Copy, PartialEq, Eq, Structural)]
pub enum LeaveOutcome {
    /// Others still wait: the fetch runs on.
    KeepFetching,
    /// Nobody waits any more: the fetch may be cancelled.
    CancelFetch,
    /// The caller was not waiting on that block.
    NotWaiting,
}

/// The in-flight whole-block fetches, at most one per block key. An entry lives
/// only while its fetch is unresolved: this coalesces requests, it caches nothing.
pub struct FetchGroup {
    flights: Vec<Flight>,
}

impl FetchGroup {
    pub closed spec fn entries(&self) -> Seq<Flight> {
        self.flights@
    }

    /// No key appears twice and every entry has a waiter.
    pub open spec fn wf(&self) -> bool {
        &&& forall|i: int, j: int|
            0 <= i < j < self.entries().len() ==> #[trigger] self.entries()[i].key != #[trigger] self.entries()[j].key
        &&& forall|i: int| 0 <= i < self.entries().len() ==> #[trigger] self.entries()[i].waiters >= 1
    }

    /// The number of callers waiting on the fetch of `key`; zero when none is in
    /// flight.
    pub open spec fn waiting(&self, key: BlockKey) -> nat {
        if exists|i: int| 0 <= i < self.entries().len() && #[trigger] self.entries()[i].key == key {
            let i = choose|i: int| 0 <= i < self.entries().len() && #[trigger] self.entries()[i].key == key;
            self.entries()[i].waiters as nat
        } else {
            0
        }
    }

    pub proof fn lemma_waiting_at(&self, j: int)
        requires
            self.wf(),
            0 <= j < self.entries().len(),
        ensures
            self.waiting(self.entries()[j].key) == self.entries()[j].waiters,
    {
        let key = self.entries()[j].key;
        assert(exists|i: int| 0 <= i < self.entries().len() && #[trigger] self.entries()[i].key == key);
        let c = choose|c: int| 0 <= c < self.entries().len() && #[trigger] self.entries()[c].key == key;
        if c < j {
            assert(self.entries()[c].key != self.entries()[j].key);
        } else if c > j {
            assert(self.entries()[j].key != self.entries()[c].key);
        }
    }

    /// `self` holds the entries of `old` in the same places, except those with
    /// `key`, and adds only entries with `key`; the other keys wait as before.
    proof fn lemma_same_elsewhere(&self, old: &FetchGroup, key: BlockKey)
        requires
            self.wf(),
            old.wf(),
            old.entries().len() <= self.entries().len(),
            forall|j: int|
                0 <= j < old.entries().len() && old.entries()[j].key != key ==> #[trigger] self.entries()[j]
                    == old.entries()[j],
            forall|j: int|
                0 <= j < old.entries().len() && old.entries()[j].key == key ==> #[trigger] self.entries()[j].key
                    == key,
            forall|j: int| old.entries().len() <= j < self.entries().len() ==> #[trigger] self.entries()[j].key == key,
        ensures
            forall|k: BlockKey| k != key ==> self.waiting(k) == old.waiting(k),
    {
        assert forall|k: BlockKey| k != key implies self.waiting(k) == old.waiting(k) by {
            if exists|j: int| 0 <= j < old.entries().len() && #[trigger] old.entries()[j].key == k {
                let j = choose|j: int| 0 <= j < old.entries().len() && #[trigger] old.entries()[j].key == k;
                old.lemma_waiting_at(j);
                assert(self.entries()[j] == old.entries()[j]);
                self.lemma_waiting_at(j);
            } else if exists|j: int| 0 <= j < self.entries().len() && #[trigger] self.entries()[j].key == k {
                let j = choose|j: int| 0 <= j < self.entries().len() && #[trigger] self.entries()[j].key == k;
                if j < old.entries().len() {
                    if old.entries()[j].key != key {
                        assert(old.entries()[j].key == k);
                    }
                }
            }
        }
    }

    pub fn new() -> (r: FetchGroup)
        ensures
            r.wf(),
            forall|k: BlockKey| r.waiting(k) == 0,
    {
        FetchGroup { flights: Vec::new() }
    }

    fn find(&self, key: BlockKey) -> (r: Option<usize>)
        requires
            self.wf(),
        ensures
            r is Some ==> r.unwrap() < self.entries().len() && self.entries()[r.unwrap() as int].key == key
                && self.waiting(key) == self.entries()[r.unwrap() as int].waiters,
            r is None ==> self.waiting(key) == 0 && forall|i: int|
                0 <= i < self.entries().len() ==> #[trigger] self.entries()[i].key != key,
    {
        let mut i: usize = 0;
        while i < self.flights.len()
            invariant
                self.wf(),
                i <= self.entries().len(),
                forall|j: int| 0 <= j < i ==> #[trigger] self.entries()[j].key != key,
            decreases self.entries().len() - i,
        {
            if self.flights[i].key == key {
                proof {
                    let ii = i as int;
                    assert(self.entries()[ii].key == key);
                    let c = choose|c: int| 0 <= c < self.entries().len() && #[trigger] self.entries()[c].key == key;
                    if c < ii {
                        assert(self.entries()[c].key != self.entries()[ii].key);
                    } else if c > ii {
                        assert(self.entries()[ii].key != self.entries()[c].key);
                    }
                }
                return Some(i);
            }
            i = i + 1;
        }
        None
    }

    /// The number of callers waiting on the fetch of `key`.
    pub fn waiters(&self, key: BlockKey) -> (r: u64)
        requires
            self.wf(),
        ensures
            r == self.waiting(key),
    {
        match self.find(key) {
            Some(i) => self.flights[i].waiters,
            None => 0,
        }
    }

    /// Registers a caller that needs the whole block `key`. The first caller leads
    /// and issues the fetch; later callers follow and wait for its result.
    pub fn join(&mut self, key: BlockKey) -> (r: JoinRole)
        requires
            old(self).wf(),
            old(self).waiting(key) < u64::MAX,
        ensures
            final(self).wf(),
            r == if old(self).waiting(key) == 0 {
                JoinRole::Leader
            } else {
                JoinRole::Follower
            },
            final(self).waiting(key) == old(self).waiting(key) + 1,
            forall|k: BlockKey| k != key ==> final(self).waiting(k) == old(self).waiting(k),
    {
        match self.find(key) {
            Some(i) => {
                let f = Flight { key, waiters: self.flights[i].waiters + 1 };
                self.set_waiters(i, f);
                JoinRole::Follower
            },
            None => {
                let ghost before = *self;
                self.flights.push(Flight { key, waiters: 1 });
                proof {
                    let n = before.entries().len() as int;
                    assert forall|a: int, b: int|
                        0 <= a < b < self.entries().len() implies #[trigger] self.entries()[a].key
                            != #[trigger] self.entries()[b].key by {
                        if b == n {
                            assert(before.entries()[a].key != key);
                        } else {
                            assert(before.entries()[a].key != before.entries()[b].key);
                        }
                    }
                    assert forall|j: int|
                        0 <= j < before.entries().len() && before.entries()[j].key != key implies #[trigger] self.entries()[j]
                            == before.entries()[j] by {}
                    self.lemma_waiting_at(n);
                    self.lemma_same_elsewhere(&before, key);
                }
                JoinRole::Leader
            },
        }
    }

    /// Replaces the entry at `i` by `f`, which has the same key and a waiter.
    fn set_waiters(&mut self, i: usize, f: Flight)
        requires
            old(self).wf(),
            i < old(self).entries().len(),
            f.key == old(self).entries()[i as int].key,
            f.waiters >= 1,
        ensures
            final(self).wf(),
            final(self).waiting(f.key) == f.waiters,
            forall|k: BlockKey| k != f.key ==> final(self).waiting(k) == old(self).waiting(k),
    {
        let ghost before = *self;
        self.flights[i] = f;
        proof {
            let ii = i as int;
            assert forall|a: int, b: int|
                0 <= a < b < self.entries().len() implies #[trigger] self.entries()[a].key
                    != #[trigger] self.entries()[b].key by {
                assert(self.entries()[a].key == before.entries()[a].key);
                assert(self.entries()[b].key == before.entries()[b].key);
            }
            assert forall|j: int|
                0 <= j < before.entries().len() && before.entries()[j].key != f.key implies #[trigger] self.entries()[j]
                    == before.entries()[j] by {
                assert(j != ii);
            }
            self.lemma_waiting_at(ii);
            self.lemma_same_elsewhere(&before, f.key);
        }
    }

    fn remove_at(&mut self, i: usize)
        requires
            old(self).wf(),
            i < old(self).entries().len(),
        ensures
            final(self).wf(),
            final(self).waiting(old(self).entries()[i as int].key) == 0,
            forall|k: BlockKey|
                k != old(self).entries()[i as int].key ==> final(self).waiting(k) == old(self).waiting(k),
    {
        let ghost before = self.flights@;
        let ghost key = before[i as int].key;
        self.flights.remove(i);
        proof {
            assert forall|j: int| 0 <= j < self.entries().len() implies #[trigger] self.entries()[j] == if j < i {
                before[j]
            } else {
                before[j + 1]
            } by {}
            assert forall|j: int| 0 <= j < self.entries().len() implies #[trigger] self.entries()[j].key != key by {
                if j < i {
                    assert(before[j].key != before[i as int].key);
                } else {
                    assert(before[i as int].key != before[j + 1].key);
                }
            }
            assert forall|k: BlockKey| k != key implies self.waiting(k) == old(self).waiting(k) by {
                if exists|j: int| 0 <= j < before.len() && #[trigger] before[j].key == k {
                    let j = choose|j: int| 0 <= j < before.len() && #[trigger] before[j].key == k;
                    if j < i {
                        assert(self.entries()[j].key == k);
                    } else {
                        assert(j != i);
                        assert(self.entries()[j - 1].key == k);
                    }
                }
                if exists|j: int| 0 <= j < self.entries().len() && #[trigger] self.entries()[j].key == k {
                    let j = choose|j: int| 0 <= j < self.entries().len() && #[trigger] self.entries()[j].key == k;
                    if j < i {
                        assert(before[j].key == k);
                    } else {
                        assert(before[j + 1].key == k);
                    }
                }
            }
        }
    }

    /// The fetch of `key` has resolved, with a result or an error: the entry is
    /// torn down and the number of callers that receive that outcome is returned.
    /// The next caller starts a fresh fetch.
    pub fn finish(&mut self, key: BlockKey) -> (r: u64)
        requires
            old(self).wf(),
        ensures
            final(self).wf(),
            r == old(self).waiting(key),
            final(self).waiting(key) == 0,
            forall|k: BlockKey| k != key ==> final(self).waiting(k) == old(self).waiting(k),
    {
        match self.find(key) {
            Some(i) => {
                let n = self.flights[i].waiters;
                self.remove_at(i);
                n
            },
            None => 0,
        }
    }

    /// A caller waiting on `key` gives up. The fetch keeps running while others
    /// wait; when the last one leaves, the entry goes and the fetch may be cancelled.
    pub fn leave(&mut self, key: BlockKey) -> (r: LeaveOutcome)
        requires
            old(self).wf(),
        ensures
            final(self).wf(),
            old(self).waiting(key) == 0 ==> r == LeaveOutcome::NotWaiting,
            old(self).waiting(key) == 1 ==> r == LeaveOutcome::CancelFetch,
            old(self).waiting(key) > 1 ==> r == LeaveOutcome::KeepFetching,
            old(self).waiting(key) > 0 ==> final(self).waiting(key) == old(self).waiting(key) - 1,
            old(self).waiting(key) == 0 ==> final(self).waiting(key) == 0,
            forall|k: BlockKey| k != key ==> final(self).waiting(k) == old(self).waiting(k),
    {
        match self.find(key) {
            Some(i) => {
                if self.flights[i].waiters <= 1 {
                    self.remove_at(i);
                    LeaveOutcome::CancelFetch
                } else {
                    let f = Flight { key, waiters: self.flights[i].waiters - 1 };
                    self.set_waiters(i, f);
                    LeaveOutcome::KeepFetching
                }
            },
            None => LeaveOutcome::NotWaiting,
        }
    }
}

} // verus!
