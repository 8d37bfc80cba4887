//! Bookkeeping for the concurrent batch fetch.
//!
//! Every tile of a target set moves through a small lifecycle: free,
//! busy inside exactly one outstanding batch, or done with its payload.
//! The loop that drives the fetch performs the waiting and the network
//! calls elsewhere; every decision about tile states is a transition of
//! this module, taken under the tile-set lock, and proved here.

use vstd::prelude::*;

use crate::entities::{IntelEntities, IntelResult};
use crate::tile_key::{spec_decode, TileKey};

verus! {

/// The lifecycle of one tile.
pub enum TileState {
    /// Not yet requested, or requeued after a failure.
    Free,
    /// Selected into exactly one outstanding batch request.
    Busy,
    /// Fetched; terminal, never revisited.
    Done(IntelEntities),
}

impl TileState {
    /// whether the tile can be selected into a batch
    pub fn is_free(&self) -> (r: bool)
        ensures
            r == (*self is Free),
    {
        matches!(self, TileState::Free)
    }
}

/// The bookkeeping of one tile of the target set.
pub struct TileRecord {
    /// The tile's address.
    pub key: TileKey,
    /// Where the tile stands in its lifecycle.
    pub state: TileState,
    /// How many more times the tile may be selected into a batch.
    pub attempts_left: u32,
    /// The last error observed for the tile, if any.
    pub last_error: Option<String>,
}

/// One outstanding batch request.
pub struct Batch {
    /// The request's handle, unique among outstanding batches.
    pub id: u64,
    /// The tiles the request carries.
    pub keys: Vec<TileKey>,
}

/// A tile with no payload when the fetch ended, and why.
#[derive(Debug)]
pub struct UnresolvedTile {
    /// The tile's address.
    pub key: TileKey,
    /// The last error observed for the tile, if any.
    pub last_error: Option<String>,
}

/// A terminal failure of the whole fetch.
#[derive(Debug)]
pub enum OrchestratorError {
    /// The caller supplied a non-positive rate, batch size or retry
    /// budget.
    RateLimitMisconfigured,
    /// Tiles were still unresolved once no further attempt was
    /// allowed, each with its last observed error.
    Unresolved(Vec<UnresolvedTile>),
}

/// The caller-supplied policy of one fetch run.
pub struct FetchConfig {
    /// Most tiles one batch request may carry.
    pub batch_size: usize,
    /// Requests admitted per period by the rate limiter.
    pub max_requests: u32,
    /// The rate limiter's period, in milliseconds.
    pub per_millis: u64,
    /// Selections allowed per tile before it is abandoned.
    pub retry_budget: u32,
}

impl FetchConfig {
    /// A usable policy is positive in every part.
    pub fn validate(&self) -> (r: Result<(), OrchestratorError>)
        ensures
            r is Ok <==> (self.batch_size >= 1 && self.max_requests >= 1 && self.per_millis >= 1
                && self.retry_budget >= 1),
            r is Err ==> r->Err_0 is RateLimitMisconfigured,
    {
        if self.batch_size >= 1 && self.max_requests >= 1 && self.per_millis >= 1
            && self.retry_budget >= 1 {
            Ok(())
        } else {
            Err(OrchestratorError::RateLimitMisconfigured)
        }
    }
}

/// Whether some record carries this key.
pub open spec fn has_key(tiles: Seq<TileRecord>, k: TileKey) -> bool {
    exists|i: int| 0 <= i < tiles.len() && tiles[i].key == k
}

/// Whether the record carrying this key is busy.
pub open spec fn key_is_busy(tiles: Seq<TileRecord>, k: TileKey) -> bool {
    exists|i: int| 0 <= i < tiles.len() && tiles[i].key == k && tiles[i].state is Busy
}

/// Whether the tile may still be selected into a batch.
pub open spec fn eligible(rec: TileRecord) -> bool {
    rec.state is Free && rec.attempts_left > 0
}

/// Whether the record carrying this key may still be selected.
pub open spec fn key_eligible_in(tiles: Seq<TileRecord>, k: TileKey) -> bool {
    exists|t: int| 0 <= t < tiles.len() && (#[trigger] tiles[t]).key == k && eligible(tiles[t])
}

/// Drives a tile set to completion against an external fetch: selects
/// batches of free tiles, and folds each batch's outcome back into the
/// set.
pub struct BatchOrchestrator {
    /// The target tiles, keys unique.
    pub tiles: Vec<TileRecord>,
    /// The outstanding batch requests, pairwise disjoint.
    pub inflight: Vec<Batch>,
    /// The handle the next batch will get.
    pub next_batch_id: u64,
}

impl BatchOrchestrator {
    /// The state invariant: tile keys are unique; outstanding batches
    /// have unique handles and pairwise disjoint, busy tiles; and
    /// every busy tile belongs to an outstanding batch.
    pub open spec fn wf(&self) -> bool {
        &&& forall|i: int, j: int|
            0 <= i < j < self.tiles@.len() ==> self.tiles@[i].key != self.tiles@[j].key
        &&& forall|a: int, b: int|
            0 <= a < b < self.inflight@.len() ==> self.inflight@[a].id != self.inflight@[b].id
        &&& forall|b: int|
            0 <= b < self.inflight@.len() ==> (#[trigger] self.inflight@[b]).id
                < self.next_batch_id
        &&& forall|b: int|
            0 <= b < self.inflight@.len() ==> (#[trigger] self.inflight@[b]).keys@.len() >= 1
        &&& forall|b: int, i: int, j: int|
            #![trigger self.inflight@[b].keys@[i], self.inflight@[b].keys@[j]]
            0 <= b < self.inflight@.len() && 0 <= i < j < self.inflight@[b].keys@.len()
                ==> self.inflight@[b].keys@[i] != self.inflight@[b].keys@[j]
        &&& forall|b: int, i: int|
            0 <= b < self.inflight@.len() && 0 <= i < self.inflight@[b].keys@.len()
                ==> key_is_busy(self.tiles@, #[trigger] self.inflight@[b].keys@[i])
        &&& forall|a: int, b: int, i: int, j: int|
            #![trigger self.inflight@[a].keys@[i], self.inflight@[b].keys@[j]]
            0 <= a < self.inflight@.len() && 0 <= b < self.inflight@.len() && a != b && 0 <= i
                < self.inflight@[a].keys@.len() && 0 <= j < self.inflight@[b].keys@.len()
                ==> self.inflight@[a].keys@[i] != self.inflight@[b].keys@[j]
        &&& forall|t: int|
            0 <= t < self.tiles@.len() && (#[trigger] self.tiles@[t]).state is Busy
                ==> exists|b: int, i: int|
                0 <= b < self.inflight@.len() && 0 <= i < self.inflight@[b].keys@.len()
                    && #[trigger] self.inflight@[b].keys@[i] == self.tiles@[t].key
    }

    /// A fresh tile set: one free record per distinct key, each with
    /// the full retry budget, and nothing outstanding.
    pub fn new(keys: &Vec<TileKey>, retry_budget: u32) -> (r: BatchOrchestrator)
        ensures
            r.wf(),
            r.inflight@.len() == 0,
            r.next_batch_id == 0,
            forall|k: TileKey| has_key(r.tiles@, k) <==> keys@.contains(k),
            forall|t: int|
                0 <= t < r.tiles@.len() ==> ((#[trigger] r.tiles@[t]).state is Free
                    && r.tiles@[t].attempts_left == retry_budget && r.tiles@[t].last_error
                    is None),
    {
        let mut tiles: Vec<TileRecord> = Vec::new();
        let n = keys.len();
        let mut i: usize = 0;
        while i < n
            invariant
                i <= n == keys@.len(),
                forall|a: int, b: int|
                    0 <= a < b < tiles@.len() ==> tiles@[a].key != tiles@[b].key,
                forall|k: TileKey| has_key(tiles@, k) <==> keys@.take(i as int).contains(k),
                forall|t: int|
                    0 <= t < tiles@.len() ==> ((#[trigger] tiles@[t]).state is Free
                        && tiles@[t].attempts_left == retry_budget && tiles@[t].last_error
                        is None),
            decreases n - i,
        {
            let k = keys[i];
            let ghost tiles0 = tiles@;
            if !contains_record(&tiles, k) {
                tiles.push(
                    TileRecord {
                        key: k,
                        state: TileState::Free,
                        attempts_left: retry_budget,
                        last_error: None,
                    },
                );
            }
            proof {
                assert forall|kk: TileKey| has_key(tiles@, kk) implies keys@.take(
                    i + 1,
                ).contains(kk) by {
                    let t = choose|t: int| 0 <= t < tiles@.len() && tiles@[t].key == kk;
                    if t < tiles0.len() {
                        assert(has_key(tiles0, kk));
                        let j = choose|j: int|
                            0 <= j < keys@.take(i as int).len() && keys@.take(i as int)[j] == kk;
                        assert(keys@.take(i + 1)[j] == kk);
                    } else {
                        assert(kk == keys@[i as int]);
                        assert(keys@.take(i + 1)[i as int] == kk);
                    }
                }
                assert forall|kk: TileKey| keys@.take(i + 1).contains(kk) implies has_key(
                    tiles@,
                    kk,
                ) by {
                    let j = choose|j: int|
                        0 <= j < keys@.take(i + 1).len() && #[trigger] keys@.take(i + 1)[j] == kk;
                    if j < i {
                        assert(keys@.take(i as int)[j] == kk);
                        assert(has_key(tiles0, kk));
                        let t = choose|t: int| 0 <= t < tiles0.len() && tiles0[t].key == kk;
                        assert(tiles@[t].key == kk);
                    } else {
                        assert(kk == keys@[i as int]);
                        if has_key(tiles0, kk) {
                            let t = choose|t: int| 0 <= t < tiles0.len() && tiles0[t].key == kk;
                            assert(tiles@[t].key == kk);
                        } else {
                            assert(tiles@[tiles@.len() - 1].key == kk);
                        }
                    }
                }
                assert forall|a: int, b: int| 0 <= a < b < tiles@.len() implies tiles@[a].key
                    != tiles@[b].key by {
                    if b == tiles@.len() - 1 && tiles@.len() > tiles0.len() {
                        assert(!has_key(tiles0, tiles@[b].key));
                        assert(tiles0[a].key != tiles@[b].key);
                    } else {
                        assert(tiles0[a].key != tiles0[b].key);
                    }
                }
            }
            i = i + 1;
        }
        proof {
            assert(keys@.take(n as int) =~= keys@);
        }
        BatchOrchestrator { tiles, inflight: Vec::new(), next_batch_id: 0 }
    }

    /// How many tiles stand free, busy, and done.
    pub fn counts(&self) -> (r: (usize, usize, usize))
        ensures
            r.0 == count_free(self.tiles@),
            r.1 == count_busy(self.tiles@),
            r.2 == count_done(self.tiles@),
            r.0 + r.1 + r.2 == self.tiles@.len(),
    {
        proof {
            lemma_counts_bounded(self.tiles@);
        }
        let n = self.tiles.len();
        let mut free: usize = 0;
        let mut busy: usize = 0;
        let mut done: usize = 0;
        let mut i: usize = 0;
        while i < n
            invariant
                i <= n == self.tiles@.len(),
                free == count_free(self.tiles@.take(i as int)),
                busy == count_busy(self.tiles@.take(i as int)),
                done == count_done(self.tiles@.take(i as int)),
                free + busy + done == i,
            decreases n - i,
        {
            proof {
                let t = self.tiles@.take(i + 1);
                assert(t.drop_last() =~= self.tiles@.take(i as int));
                assert(t.last() == self.tiles@[i as int]);
            }
            match self.tiles[i].state {
                TileState::Free => {
                    free = free + 1;
                },
                TileState::Busy => {
                    busy = busy + 1;
                },
                TileState::Done(_) => {
                    done = done + 1;
                },
            }
            i = i + 1;
        }
        proof {
            assert(self.tiles@.take(n as int) =~= self.tiles@);
        }
        (free, busy, done)
    }

    /// Whether the fetch loop has work left: a tile is busy, or a
    /// tile is free with attempts remaining.
    pub fn should_continue(&self) -> (r: bool)
        ensures
            r == ((exists|t: int|
                0 <= t < self.tiles@.len() && (#[trigger] self.tiles@[t]).state is Busy) || (
            exists|t: int| 0 <= t < self.tiles@.len() && eligible(#[trigger] self.tiles@[t]))),
    {
        let n = self.tiles.len();
        let mut i: usize = 0;
        while i < n
            invariant
                i <= n == self.tiles@.len(),
                forall|t: int|
                    0 <= t < i ==> !((#[trigger] self.tiles@[t]).state is Busy) && !eligible(
                        self.tiles@[t],
                    ),
            decreases n - i,
        {
            match self.tiles[i].state {
                TileState::Busy => {
                    return true;
                },
                TileState::Free => {
                    if self.tiles[i].attempts_left > 0 {
                        return true;
                    }
                },
                TileState::Done(_) => {},
            }
            i = i + 1;
        }
        false
    }
}

/// The tiles after the selected keys are marked busy, one attempt
/// spent on each.
pub open spec fn mark_selected(tiles: Seq<TileRecord>, sel: Seq<TileKey>) -> Seq<TileRecord> {
    Seq::new(
        tiles.len(),
        |i: int|
            if sel.contains(tiles[i].key) {
                TileRecord {
                    state: TileState::Busy,
                    attempts_left: (tiles[i].attempts_left - 1) as u32,
                    ..tiles[i]
                }
            } else {
                tiles[i]
            },
    )
}

impl BatchOrchestrator {
    /// Selects up to `max_batch` free tiles with attempts remaining,
    /// marks each busy with one attempt spent, and opens a new
    /// outstanding batch carrying them.  Yields nothing, and changes
    /// nothing, when no tile is eligible.
    #[verifier::rlimit(100)]
    pub fn select_batch(&mut self, max_batch: usize) -> (r: Option<(u64, Vec<TileKey>)>)
        requires
            old(self).wf(),
            max_batch >= 1,
            old(self).next_batch_id < u64::MAX,
        ensures
            final(self).wf(),
            match r {
                None => {
                    &&& final(self).tiles@ == old(self).tiles@
                    &&& final(self).inflight@ == old(self).inflight@
                    &&& final(self).next_batch_id == old(self).next_batch_id
                    &&& forall|t: int|
                        0 <= t < old(self).tiles@.len() ==> !eligible(
                            #[trigger] old(self).tiles@[t],
                        )
                },
                Some(p) => {
                    &&& p.0 == old(self).next_batch_id
                    &&& final(self).next_batch_id == old(self).next_batch_id + 1
                    &&& 1 <= p.1@.len() <= max_batch
                    &&& forall|i: int, j: int| 0 <= i < j < p.1@.len() ==> p.1@[i] != p.1@[j]
                    &&& forall|k: TileKey|
                        p.1@.contains(k) ==> key_eligible_in(old(self).tiles@, k)
                    &&& final(self).tiles@ == mark_selected(old(self).tiles@, p.1@)
                    &&& (p.1@.len() < max_batch ==> forall|t: int|
                        0 <= t < old(self).tiles@.len() && eligible(
                            #[trigger] old(self).tiles@[t],
                        ) ==> p.1@.contains(old(self).tiles@[t].key))
                    &&& final(self).inflight@.len() == old(self).inflight@.len() + 1
                    &&& forall|b: int|
                        0 <= b < old(self).inflight@.len() ==> final(self).inflight@[b] == old(
                            self,
                        ).inflight@[b]
                    &&& final(self).inflight@.last().id == p.0
                    &&& final(self).inflight@.last().keys@ == p.1@
                },
            },
    {
        let ghost t0 = old(self).tiles@;
        let mut sel: Vec<TileKey> = Vec::new();
        let mut batch_keys: Vec<TileKey> = Vec::new();
        let n = self.tiles.len();
        let mut t: usize = 0;
        while t < n && sel.len() < max_batch
            invariant
                old(self).wf(),
                t0 == old(self).tiles@,
                t <= n == t0.len(),
                self.inflight == old(self).inflight,
                self.next_batch_id == old(self).next_batch_id,
                sel@.len() <= max_batch,
                batch_keys@ == sel@,
                forall|i: int, j: int| 0 <= i < j < sel@.len() ==> sel@[i] != sel@[j],
                forall|j: int|
                    #![trigger sel@[j]]
                    0 <= j < sel@.len() ==> exists|tt: int|
                        0 <= tt < t0.len() && (#[trigger] t0[tt]).key == sel@[j] && eligible(
                            t0[tt],
                        ),
                self.tiles@ == mark_selected(t0, sel@),
                forall|tt: int|
                    0 <= tt < t && eligible(#[trigger] t0[tt]) ==> sel@.contains(t0[tt].key),
            decreases n - t,
        {
            proof {
                assert(self.tiles@[t as int] == mark_selected(t0, sel@)[t as int]);
            }
            let is_free = matches!(self.tiles[t].state, TileState::Free);
            if is_free && self.tiles[t].attempts_left > 0 {
                proof {
                    assert(!sel@.contains(t0[t as int].key));
                    assert(self.tiles@[t as int] == t0[t as int]);
                    assert(eligible(t0[t as int]));
                }
                let k = self.tiles[t].key;
                let a = self.tiles[t].attempts_left;
                self.tiles[t].state = TileState::Busy;
                self.tiles[t].attempts_left = a - 1;
                let ghost sel0 = sel@;
                sel.push(k);
                batch_keys.push(k);
                proof {
                    assert forall|i: int| 0 <= i < t0.len() implies self.tiles@[i]
                        == mark_selected(t0, sel@)[i] by {
                        if i == t {
                            assert(sel@[sel@.len() - 1] == t0[i].key);
                            assert(sel@.contains(t0[i].key));
                        } else {
                            if sel@.contains(t0[i].key) {
                                let j = choose|j: int|
                                    0 <= j < sel@.len() && #[trigger] sel@[j] == t0[i].key;
                                if j == sel@.len() - 1 {
                                    assert(t0[i].key == t0[t as int].key);
                                    assert(false);
                                } else {
                                    assert(sel0.contains(t0[i].key));
                                }
                            }
                            if sel0.contains(t0[i].key) {
                                let j = choose|j: int|
                                    0 <= j < sel0.len() && #[trigger] sel0[j] == t0[i].key;
                                assert(sel@[j] == t0[i].key);
                            }
                        }
                    }
                    assert(self.tiles@ =~= mark_selected(t0, sel@));
                    assert forall|tt: int|
                        0 <= tt < t && eligible(#[trigger] t0[tt]) implies sel@.contains(
                        t0[tt].key,
                    ) by {
                        assert(sel0.contains(t0[tt].key));
                        let j = choose|j: int|
                            0 <= j < sel0.len() && #[trigger] sel0[j] == t0[tt].key;
                        assert(sel@[j] == t0[tt].key);
                    }
                    assert(sel@[sel@.len() - 1] == t0[t as int].key);
                    assert forall|j: int| #![trigger sel@[j]] 0 <= j < sel@.len() implies exists|
                        tt: int,
                    |
                        0 <= tt < t0.len() && (#[trigger] t0[tt]).key == sel@[j] && eligible(
                            t0[tt],
                        ) by {
                        if j < sel@.len() - 1 {
                            assert(sel@[j] == sel0[j]);
                            let tt = choose|tt: int|
                                0 <= tt < t0.len() && (#[trigger] t0[tt]).key == sel0[j]
                                    && eligible(t0[tt]);
                            assert(0 <= tt < t0.len() && t0[tt].key == sel@[j] && eligible(
                                t0[tt],
                            ));
                        } else {
                            assert(t0[t as int].key == sel@[j] && eligible(t0[t as int]));
                        }
                    }
                }
            }
            t = t + 1;
        }
        if sel.len() == 0 {
            proof {
                assert forall|i: int| 0 <= i < t0.len() implies self.tiles@[i] == t0[i] by {
                    assert(self.tiles@[i] == mark_selected(t0, sel@)[i]);
                }
                assert(self.tiles@ =~= t0);
                if t < n {
                } else {
                    assert forall|tt: int| 0 <= tt < t0.len() implies !eligible(
                        #[trigger] t0[tt],
                    ) by {
                        if eligible(t0[tt]) {
                            assert(sel@.contains(t0[tt].key));
                        }
                    }
                }
            }
            return None;
        }
        let id = self.next_batch_id;
        self.next_batch_id = id + 1;
        let ghost infl0 = self.inflight@;
        self.inflight.push(Batch { id, keys: batch_keys });
        proof {
            let s = *self;
            let tiles1 = self.tiles@;
            assert(tiles1 == mark_selected(t0, sel@));
            assert(forall|i: int|
                0 <= i < t0.len() ==> (#[trigger] tiles1[i]).key == t0[i].key);
            assert(forall|i: int|
                0 <= i < t0.len() && !sel@.contains(t0[i].key) ==> tiles1[i] == t0[i]);
            assert(forall|i: int|
                0 <= i < t0.len() && sel@.contains(t0[i].key) ==> (#[trigger] tiles1[i]).state
                    is Busy);
            // a selected key cannot also be the key of a busy tile
            assert forall|k: TileKey| sel@.contains(k) && key_is_busy(t0, k) implies false by {
                let j = choose|j: int| 0 <= j < sel@.len() && #[trigger] sel@[j] == k;
                let tt = choose|tt: int|
                    0 <= tt < t0.len() && (#[trigger] t0[tt]).key == k && eligible(t0[tt]);
                let bb = choose|bb: int|
                    0 <= bb < t0.len() && (#[trigger] t0[bb]).key == k && t0[bb].state is Busy;
                assert(tt != bb);
            }
            // old batches keep their keys busy
            assert forall|b: int, i: int|
                0 <= b < s.inflight@.len() && 0 <= i < s.inflight@[b].keys@.len() implies key_is_busy(
                tiles1,
                #[trigger] s.inflight@[b].keys@[i],
            ) by {
                if b < infl0.len() {
                    let k = s.inflight@[b].keys@[i];
                    assert(key_is_busy(t0, k));
                    let bb = choose|bb: int|
                        0 <= bb < t0.len() && (#[trigger] t0[bb]).key == k && t0[bb].state
                            is Busy;
                    if sel@.contains(k) {
                        assert(false);
                    }
                    assert(tiles1[bb] == t0[bb]);
                } else {
                    let k = s.inflight@[b].keys@[i];
                    assert(k == sel@[i]);
                    let tt = choose|tt: int|
                        0 <= tt < t0.len() && (#[trigger] t0[tt]).key == k && eligible(t0[tt]);
                    assert(tiles1[tt].state is Busy);
                    assert(tiles1[tt].key == k);
                }
            }
            // the new batch is disjoint from every old batch
            assert forall|a: int, b: int, i: int, j: int|
                0 <= a < s.inflight@.len() && 0 <= b < s.inflight@.len() && a != b && 0 <= i
                    < s.inflight@[a].keys@.len() && 0 <= j < s.inflight@[b].keys@.len() implies #[trigger] s.inflight@[a].keys@[i]
                != #[trigger] s.inflight@[b].keys@[j] by {
                if a < infl0.len() && b < infl0.len() {
                } else if a < infl0.len() && b == infl0.len() {
                    let k = s.inflight@[b].keys@[j];
                    assert(k == sel@[j]);
                    if s.inflight@[a].keys@[i] == k {
                        assert(key_is_busy(t0, k));
                        assert(sel@.contains(k));
                        assert(false);
                    }
                } else if b < infl0.len() && a == infl0.len() {
                    let k = s.inflight@[a].keys@[i];
                    assert(k == sel@[i]);
                    if s.inflight@[b].keys@[j] == k {
                        assert(key_is_busy(t0, k));
                        assert(sel@.contains(k));
                        assert(false);
                    }
                }
            }
            // every busy tile still has a batch
            assert forall|tt: int|
                0 <= tt < tiles1.len() && (#[trigger] tiles1[tt]).state is Busy implies exists|
                b: int,
                i: int,
            |
                0 <= b < s.inflight@.len() && 0 <= i < s.inflight@[b].keys@.len()
                    && #[trigger] s.inflight@[b].keys@[i] == tiles1[tt].key by {
                if sel@.contains(t0[tt].key) {
                    let j = choose|j: int|
                        0 <= j < sel@.len() && #[trigger] sel@[j] == t0[tt].key;
                    assert(s.inflight@[infl0.len() as int].keys@[j] == tiles1[tt].key);
                } else {
                    assert(tiles1[tt] == t0[tt]);
                    assert(t0[tt].state is Busy);
                    let (b, i) = choose|b: int, i: int|
                        0 <= b < infl0.len() && 0 <= i < infl0[b].keys@.len()
                            && #[trigger] infl0[b].keys@[i] == t0[tt].key;
                    assert(s.inflight@[b].keys@[i] == tiles1[tt].key);
                }
            }
            assert forall|k: TileKey| sel@.contains(k) implies key_eligible_in(
                old(self).tiles@,
                k,
            ) by {
                let j = choose|j: int| 0 <= j < sel@.len() && #[trigger] sel@[j] == k;
                let tt = choose|tt: int|
                    0 <= tt < t0.len() && (#[trigger] t0[tt]).key == sel@[j] && eligible(t0[tt]);
                assert(0 <= tt < old(self).tiles@.len() && old(self).tiles@[tt].key == k
                    && eligible(old(self).tiles@[tt]));
            }
        }
        Some((id, sel))
    }
}

/// The record after one tile's outcome: a payload makes it done, an
/// application-level error frees it again with the error noted.
pub open spec fn apply_outcome(rec: TileRecord, res: IntelResult) -> TileRecord {
    match res {
        IntelResult::Entities(e) => TileRecord { state: TileState::Done(e), ..rec },
        IntelResult::Error(err) => TileRecord {
            state: TileState::Free,
            last_error: Some(err.error),
            ..rec
        },
    }
}

/// The tiles after one response item: the item's key is decoded, and
/// when it names a busy tile of the batch, that tile takes the item's
/// outcome; any other item changes nothing.
pub open spec fn apply_item(
    tiles: Seq<TileRecord>,
    bkeys: Seq<TileKey>,
    item: (String, IntelResult),
) -> Seq<TileRecord> {
    match spec_decode(item.0@) {
        Result::Err(_) => tiles,
        Result::Ok(k) => if bkeys.contains(k) {
            Seq::new(
                tiles.len(),
                |i: int|
                    if tiles[i].key == k && tiles[i].state is Busy {
                        apply_outcome(tiles[i], item.1)
                    } else {
                        tiles[i]
                    },
            )
        } else {
            tiles
        },
    }
}

/// The tiles after a whole response: its items folded in, last first.
pub open spec fn apply_items(
    tiles: Seq<TileRecord>,
    bkeys: Seq<TileKey>,
    items: Seq<(String, IntelResult)>,
) -> Seq<TileRecord>
    decreases items.len(),
{
    if items.len() == 0 {
        tiles
    } else {
        apply_items(apply_item(tiles, bkeys, items.last()), bkeys, items.drop_last())
    }
}

/// The tiles after the batch's leftovers are freed: a batch tile
/// still busy got no answer, which counts as an implicit error.
pub open spec fn requeue_busy(tiles: Seq<TileRecord>, bkeys: Seq<TileKey>) -> Seq<TileRecord> {
    Seq::new(
        tiles.len(),
        |i: int|
            if bkeys.contains(tiles[i].key) && tiles[i].state is Busy {
                TileRecord { state: TileState::Free, ..tiles[i] }
            } else {
                tiles[i]
            },
    )
}

/// The tiles after a transport-level failure of a whole batch: every
/// busy tile of the batch freed, the failure noted on each.
pub open spec fn requeue_busy_noting(
    tiles: Seq<TileRecord>,
    bkeys: Seq<TileKey>,
    note: String,
) -> Seq<TileRecord> {
    Seq::new(
        tiles.len(),
        |i: int|
            if bkeys.contains(tiles[i].key) && tiles[i].state is Busy {
                TileRecord { state: TileState::Free, last_error: Some(note), ..tiles[i] }
            } else {
                tiles[i]
            },
    )
}

/// Folding a response in keeps every key, every attempt count, wakes
/// no tile to busy, touches nothing outside the batch, and never
/// revisits a done tile.
pub proof fn lemma_apply_items_pointwise(
    tiles: Seq<TileRecord>,
    bkeys: Seq<TileKey>,
    items: Seq<(String, IntelResult)>,
)
    ensures
        apply_items(tiles, bkeys, items).len() == tiles.len(),
        forall|i: int|
            0 <= i < tiles.len() ==> {
                let r = #[trigger] apply_items(tiles, bkeys, items)[i];
                &&& r.key == tiles[i].key
                &&& r.attempts_left == tiles[i].attempts_left
                &&& (r.state is Busy ==> tiles[i].state is Busy)
                &&& (!bkeys.contains(tiles[i].key) ==> r == tiles[i])
                &&& (tiles[i].state is Done ==> r == tiles[i])
            },
    decreases items.len(),
{
    if items.len() > 0 {
        let mid = apply_item(tiles, bkeys, items.last());
        assert(mid.len() == tiles.len());
        assert(forall|i: int|
            0 <= i < tiles.len() ==> {
                let m = #[trigger] mid[i];
                &&& m.key == tiles[i].key
                &&& m.attempts_left == tiles[i].attempts_left
                &&& (m.state is Busy ==> tiles[i].state is Busy)
                &&& (!bkeys.contains(tiles[i].key) ==> m == tiles[i])
                &&& (tiles[i].state is Done ==> m == tiles[i])
            });
        lemma_apply_items_pointwise(mid, bkeys, items.drop_last());
    }
}

impl BatchOrchestrator {
    /// Folds one batch's response into the tile set and closes the
    /// batch.  Each item that names a busy tile of the batch resolves
    /// it: a payload makes it done for good, an error frees it for
    /// re-selection.  Batch tiles the response does not name are
    /// freed too.  An unknown batch handle changes nothing.
    #[verifier::rlimit(100)]
    pub fn resolve_batch(&mut self, batch_id: u64, items: Vec<(String, IntelResult)>) -> (r:
        bool)
        requires
            old(self).wf(),
        ensures
            final(self).wf(),
            final(self).next_batch_id == old(self).next_batch_id,
            ({
                if exists|b: int|
                    0 <= b < old(self).inflight@.len() && (#[trigger] old(
                        self,
                    ).inflight@[b]).id == batch_id {
                    let b = choose|b: int|
                        0 <= b < old(self).inflight@.len() && (#[trigger] old(
                            self,
                        ).inflight@[b]).id == batch_id;
                    let bkeys = old(self).inflight@[b].keys@;
                    &&& r == true
                    &&& final(self).inflight@ == old(self).inflight@.remove(b)
                    &&& final(self).tiles@ == requeue_busy(
                        apply_items(old(self).tiles@, bkeys, items@),
                        bkeys,
                    )
                } else {
                    &&& r == false
                    &&& final(self).tiles@ == old(self).tiles@
                    &&& final(self).inflight@ == old(self).inflight@
                }
            }),
    {
        let bi = match self.find_batch(batch_id) {
            Some(bi) => bi,
            None => {
                return false;
            },
        };
        proof {
            let b = choose|b: int|
                0 <= b < old(self).inflight@.len() && (#[trigger] old(self).inflight@[b]).id
                    == batch_id;
            assert(b == bi);
        }
        let batch = self.inflight.remove(bi);
        let ghost bkeys = batch.keys@;
        let ghost t_orig = self.tiles@;
        let ghost items0 = items@;
        let ghost infl1 = self.inflight@;
        let mut items = items;
        loop
            invariant_except_break
                bkeys == batch.keys@,
                self.inflight@ == infl1,
                self.next_batch_id == old(self).next_batch_id,
                self.tiles@.len() == t_orig.len(),
                forall|i: int|
                    0 <= i < t_orig.len() ==> (#[trigger] self.tiles@[i]).key == t_orig[i].key,
                apply_items(self.tiles@, bkeys, items@) == apply_items(t_orig, bkeys, items0),
                forall|a: int, b: int|
                    0 <= a < b < t_orig.len() ==> t_orig[a].key != t_orig[b].key,
            ensures
                self.tiles@ == apply_items(t_orig, bkeys, items0),
                self.tiles@.len() == t_orig.len(),
                self.inflight@ == infl1,
                self.next_batch_id == old(self).next_batch_id,
                forall|i: int|
                    0 <= i < t_orig.len() ==> (#[trigger] self.tiles@[i]).key == t_orig[i].key,
            decreases items@.len(),
        {
            let ghost items_pre = items@;
            let item = match items.pop() {
                Some(item) => item,
                None => {
                    proof {
                        assert(apply_items(self.tiles@, bkeys, items@) == self.tiles@);
                    }
                    break ;
                },
            };
            let ghost tpre = self.tiles@;
            let ghost gitem = item;
            let decoded = TileKey::decode(item.0.as_str());
            match decoded {
                Result::Err(_) => {
                    proof {
                        assert(apply_item(tpre, bkeys, gitem) == tpre);
                    }
                },
                Result::Ok(k) => {
                    if contains_tile_key(&batch.keys, k) {
                        match find_record(&self.tiles, k) {
                            None => {
                                proof {
                                    assert forall|i: int| 0 <= i < tpre.len() implies apply_item(
                                        tpre,
                                        bkeys,
                                        gitem,
                                    )[i] == tpre[i] by {
                                        assert(tpre[i].key != k);
                                    }
                                    assert(apply_item(tpre, bkeys, gitem) =~= tpre);
                                }
                            },
                            Some(ti) => {
                                let is_busy = matches!(self.tiles[ti].state, TileState::Busy);
                                if is_busy {
                                    match item.1 {
                                        IntelResult::Entities(e) => {
                                            self.tiles[ti].state = TileState::Done(e);
                                        },
                                        IntelResult::Error(err) => {
                                            self.tiles[ti].state = TileState::Free;
                                            self.tiles[ti].last_error = Some(err.error);
                                        },
                                    }
                                    proof {
                                        assert forall|i: int|
                                            0 <= i < tpre.len() implies self.tiles@[i]
                                            == apply_item(tpre, bkeys, gitem)[i] by {
                                            if i != ti {
                                                assert(tpre[i].key != k);
                                            }
                                        }
                                        assert(self.tiles@ =~= apply_item(tpre, bkeys, gitem));
                                    }
                                } else {
                                    proof {
                                        assert forall|i: int|
                                            0 <= i < tpre.len() implies apply_item(
                                            tpre,
                                            bkeys,
                                            gitem,
                                        )[i] == tpre[i] by {
                                            if tpre[i].key == k {
                                                assert(i == ti);
                                            }
                                        }
                                        assert(apply_item(tpre, bkeys, gitem) =~= tpre);
                                    }
                                }
                            },
                        }
                    } else {
                        proof {
                            assert(apply_item(tpre, bkeys, gitem) == tpre);
                        }
                    }
                },
            }
            proof {
                assert(items_pre.len() > 0);
                assert(gitem == items_pre.last());
                assert(items@ == items_pre.drop_last());
                assert(self.tiles@ == apply_item(tpre, bkeys, gitem));
                assert(apply_items(tpre, bkeys, items_pre) == apply_items(
                    apply_item(tpre, bkeys, items_pre.last()),
                    bkeys,
                    items_pre.drop_last(),
                ));
            }
        }
        let ghost t_mid = self.tiles@;
        self.requeue_batch(&batch.keys, None);
        proof {
            assert(self.tiles@ == requeue_busy(t_mid, bkeys));
            lemma_apply_items_pointwise(t_orig, bkeys, items0);
            let post = *self;
            assert forall|i: int|
                0 <= i < t_orig.len() && (#[trigger] post.tiles@[i]).state is Busy implies t_orig[i].state
                is Busy && !bkeys.contains(post.tiles@[i].key) by {
                assert(post.tiles@[i] == requeue_busy(t_mid, bkeys)[i]);
                assert(t_mid[i].state is Busy);
            }
            assert forall|i: int|
                0 <= i < t_orig.len() && !bkeys.contains((#[trigger] t_orig[i]).key)
                    && t_orig[i].state is Busy implies post.tiles@[i].state is Busy by {
                assert(t_mid[i] == t_orig[i]);
                assert(post.tiles@[i] == t_mid[i]);
            }
            lemma_wf_after_batch_close(*old(self), post, bi as int);
        }
        true
    }

    /// Closes a batch whose request failed as a whole, at the
    /// transport level: every tile of the batch returns to free,
    /// eligible for re-selection, with the failure noted as its last
    /// observed error.  An unknown batch handle changes nothing.
    pub fn resolve_transport_failure(&mut self, batch_id: u64, note: String) -> (r: bool)
        requires
            old(self).wf(),
        ensures
            final(self).wf(),
            final(self).next_batch_id == old(self).next_batch_id,
            ({
                if exists|b: int|
                    0 <= b < old(self).inflight@.len() && (#[trigger] old(
                        self,
                    ).inflight@[b]).id == batch_id {
                    let b = choose|b: int|
                        0 <= b < old(self).inflight@.len() && (#[trigger] old(
                            self,
                        ).inflight@[b]).id == batch_id;
                    &&& r == true
                    &&& final(self).inflight@ == old(self).inflight@.remove(b)
                    &&& final(self).tiles@ == requeue_busy_noting(
                        old(self).tiles@,
                        old(self).inflight@[b].keys@,
                        note,
                    )
                } else {
                    &&& r == false
                    &&& final(self).tiles@ == old(self).tiles@
                    &&& final(self).inflight@ == old(self).inflight@
                }
            }),
    {
        let bi = match self.find_batch(batch_id) {
            Some(bi) => bi,
            None => {
                return false;
            },
        };
        proof {
            let b = choose|b: int|
                0 <= b < old(self).inflight@.len() && (#[trigger] old(self).inflight@[b]).id
                    == batch_id;
            assert(b == bi);
        }
        let batch = self.inflight.remove(bi);
        let ghost bkeys = batch.keys@;
        let ghost t_orig = self.tiles@;
        self.requeue_batch(&batch.keys, Some(note));
        proof {
            let post = *self;
            assert forall|i: int|
                0 <= i < t_orig.len() && (#[trigger] post.tiles@[i]).state is Busy implies t_orig[i].state
                is Busy && !bkeys.contains(post.tiles@[i].key) by {
                assert(post.tiles@[i] == requeue_busy_noting(t_orig, bkeys, note)[i]);
            }
            assert forall|i: int|
                0 <= i < t_orig.len() && !bkeys.contains((#[trigger] t_orig[i]).key)
                    && t_orig[i].state is Busy implies post.tiles@[i].state is Busy by {
                assert(post.tiles@[i] == t_orig[i]);
            }
            lemma_wf_after_batch_close(*old(self), post, bi as int);
        }
        true
    }

    /// Requeues every batch tile that is still busy: its state returns
    /// to free, and the note, when one is given, becomes its last
    /// observed error.
    fn requeue_batch(&mut self, keys: &Vec<TileKey>, note: Option<String>)
        ensures
            final(self).tiles@ == (match note {
                Some(n) => requeue_busy_noting(old(self).tiles@, keys@, n),
                None => requeue_busy(old(self).tiles@, keys@),
            }),
            final(self).inflight == old(self).inflight,
            final(self).next_batch_id == old(self).next_batch_id,
    {
        let ghost t0 = self.tiles@;
        let n = self.tiles.len();
        let mut i: usize = 0;
        while i < n
            invariant
                i <= n == t0.len() == self.tiles@.len(),
                self.inflight == old(self).inflight,
                self.next_batch_id == old(self).next_batch_id,
                t0 == old(self).tiles@,
                forall|j: int|
                    0 <= j < i ==> #[trigger] self.tiles@[j] == (match note {
                        Some(n) => requeue_busy_noting(t0, keys@, n),
                        None => requeue_busy(t0, keys@),
                    })[j],
                forall|j: int| i <= j < n ==> #[trigger] self.tiles@[j] == t0[j],
            decreases n - i,
        {
            let is_busy = matches!(self.tiles[i].state, TileState::Busy);
            if is_busy && contains_tile_key(keys, self.tiles[i].key) {
                self.tiles[i].state = TileState::Free;
                match &note {
                    Some(n) => {
                        self.tiles[i].last_error = Some(n.clone());
                    },
                    None => {},
                }
            }
            i = i + 1;
        }
        proof {
            assert(self.tiles@ =~= (match note {
                Some(n) => requeue_busy_noting(t0, keys@, n),
                None => requeue_busy(t0, keys@),
            }));
        }
    }

    /// The position of the outstanding batch with this handle.
    fn find_batch(&self, batch_id: u64) -> (r: Option<usize>)
        ensures
            match r {
                Some(b) => b < self.inflight@.len() && self.inflight@[b as int].id == batch_id,
                None => !exists|b: int|
                    0 <= b < self.inflight@.len() && (#[trigger] self.inflight@[b]).id
                        == batch_id,
            },
    {
        let n = self.inflight.len();
        let mut i: usize = 0;
        while i < n
            invariant
                i <= n == self.inflight@.len(),
                forall|j: int| 0 <= j < i ==> (#[trigger] self.inflight@[j]).id != batch_id,
            decreases n - i,
        {
            if self.inflight[i].id == batch_id {
                return Some(i);
            }
            i = i + 1;
        }
        None
    }
}

/// Closing one batch keeps the state well formed, provided its tiles
/// end up not busy and every other tile's busy state is kept.
proof fn lemma_wf_after_batch_close(pre: BatchOrchestrator, post: BatchOrchestrator, b: int)
    requires
        pre.wf(),
        0 <= b < pre.inflight@.len(),
        post.inflight@ == pre.inflight@.remove(b),
        post.next_batch_id == pre.next_batch_id,
        post.tiles@.len() == pre.tiles@.len(),
        forall|i: int|
            0 <= i < pre.tiles@.len() ==> (#[trigger] post.tiles@[i]).key == pre.tiles@[i].key,
        forall|i: int|
            0 <= i < pre.tiles@.len() && (#[trigger] post.tiles@[i]).state is Busy
                ==> pre.tiles@[i].state is Busy,
        forall|i: int|
            0 <= i < pre.tiles@.len() && (#[trigger] post.tiles@[i]).state is Busy
                ==> !pre.inflight@[b].keys@.contains(post.tiles@[i].key),
        forall|i: int|
            0 <= i < pre.tiles@.len() && !pre.inflight@[b].keys@.contains(
                (#[trigger] pre.tiles@[i]).key,
            ) && pre.tiles@[i].state is Busy ==> post.tiles@[i].state is Busy,
    ensures
        post.wf(),
{
    pre.inflight@.remove_ensures(b);
    assert forall|a: int| 0 <= a < post.inflight@.len() implies #[trigger] post.inflight@[a] == (
    if a < b {
        pre.inflight@[a]
    } else {
        pre.inflight@[a + 1]
    }) by {}
    // every batch left keeps its keys busy
    assert forall|a: int, i: int|
        0 <= a < post.inflight@.len() && 0 <= i < post.inflight@[a].keys@.len() implies key_is_busy(
        post.tiles@,
        #[trigger] post.inflight@[a].keys@[i],
    ) by {
        let a0 = if a < b {
            a
        } else {
            a + 1
        };
        let k = post.inflight@[a].keys@[i];
        assert(pre.inflight@[a0].keys@[i] == k);
        assert(key_is_busy(pre.tiles@, k));
        let t = choose|t: int|
            0 <= t < pre.tiles@.len() && (#[trigger] pre.tiles@[t]).key == k && pre.tiles@[t].state
                is Busy;
        assert(!pre.inflight@[b].keys@.contains(k)) by {
            if pre.inflight@[b].keys@.contains(k) {
                let j = choose|j: int|
                    0 <= j < pre.inflight@[b].keys@.len() && #[trigger] pre.inflight@[b].keys@[j]
                        == k;
                assert(pre.inflight@[a0].keys@[i] != pre.inflight@[b].keys@[j]);
            }
        }
        assert(post.tiles@[t].state is Busy);
        assert(post.tiles@[t].key == k);
    }
    // every busy tile still has a batch
    assert forall|t: int|
        0 <= t < post.tiles@.len() && (#[trigger] post.tiles@[t]).state is Busy implies exists|
        a: int,
        i: int,
    |
        0 <= a < post.inflight@.len() && 0 <= i < post.inflight@[a].keys@.len()
            && #[trigger] post.inflight@[a].keys@[i] == post.tiles@[t].key by {
        assert(pre.tiles@[t].state is Busy);
        let (a0, i0) = choose|a0: int, i0: int|
            0 <= a0 < pre.inflight@.len() && 0 <= i0 < pre.inflight@[a0].keys@.len()
                && #[trigger] pre.inflight@[a0].keys@[i0] == pre.tiles@[t].key;
        assert(a0 != b) by {
            if a0 == b {
                assert(pre.inflight@[b].keys@.contains(post.tiles@[t].key));
            }
        }
        let a1 = if a0 < b {
            a0
        } else {
            a0 - 1
        };
        assert(post.inflight@[a1].keys@[i0] == post.tiles@[t].key);
    }
}

/// Whether every tile of the set is done.
pub open spec fn all_done(tiles: Seq<TileRecord>) -> bool {
    forall|i: int| 0 <= i < tiles.len() ==> (#[trigger] tiles[i]).state is Done
}

/// The payloads of the done tiles, in tile order.
pub open spec fn done_payloads(tiles: Seq<TileRecord>) -> Seq<IntelEntities>
    decreases tiles.len(),
{
    if tiles.len() == 0 {
        Seq::empty()
    } else {
        done_payloads(tiles.drop_last()) + (match tiles.last().state {
            TileState::Done(e) => seq![e],
            _ => Seq::empty(),
        })
    }
}

/// The tiles that are not done, each with its last observed error, in
/// tile order.
pub open spec fn unresolved_of(tiles: Seq<TileRecord>) -> Seq<UnresolvedTile>
    decreases tiles.len(),
{
    if tiles.len() == 0 {
        Seq::empty()
    } else {
        unresolved_of(tiles.drop_last()) + (if tiles.last().state is Done {
            Seq::empty()
        } else {
            seq![UnresolvedTile { key: tiles.last().key, last_error: tiles.last().last_error }]
        })
    }
}

/// A set with nothing unresolved is all done, and one payload stands
/// for each tile.
pub proof fn lemma_unresolved_empty_iff_all_done(tiles: Seq<TileRecord>)
    ensures
        (unresolved_of(tiles).len() == 0) <==> all_done(tiles),
        all_done(tiles) ==> done_payloads(tiles).len() == tiles.len(),
    decreases tiles.len(),
{
    if tiles.len() > 0 {
        assert(all_done(tiles.drop_last()) <== all_done(tiles)) by {
            if all_done(tiles) {
                assert forall|i: int| 0 <= i < tiles.len() - 1 implies (#[trigger] tiles.drop_last()[i]).state
                    is Done by {
                    assert(tiles.drop_last()[i] == tiles[i]);
                }
            }
        }
        lemma_unresolved_empty_iff_all_done(tiles.drop_last());
        if unresolved_of(tiles).len() == 0 {
            assert(tiles.last().state is Done);
            assert forall|i: int| 0 <= i < tiles.len() implies (#[trigger] tiles[i]).state
                is Done by {
                if i < tiles.len() - 1 {
                    assert(tiles.drop_last()[i].state is Done);
                }
            }
        }
    }
}

impl BatchOrchestrator {
    /// Hands the run's outcome over: when every tile is done, the
    /// payloads of all tiles, in tile order; otherwise the tiles that
    /// never resolved, each with its last observed error.
    pub fn finish(self) -> (r: Result<Vec<IntelEntities>, OrchestratorError>)
        ensures
            all_done(self.tiles@) ==> r is Ok && r->Ok_0@ == done_payloads(self.tiles@),
            !all_done(self.tiles@) ==> (r matches Err(OrchestratorError::Unresolved(v)) && v@
                == unresolved_of(self.tiles@)),
    {
        let ghost torig = self.tiles@;
        let mut tiles = self.tiles;
        let mut done: Vec<IntelEntities> = Vec::new();
        let mut unresolved: Vec<UnresolvedTile> = Vec::new();
        let ghost mut p: int = 0;
        while tiles.len() > 0
            invariant
                0 <= p <= torig.len(),
                p == torig.len() - tiles@.len(),
                tiles@ == torig.skip(p),
                done@ == done_payloads(torig.take(p)),
                unresolved@ == unresolved_of(torig.take(p)),
            decreases tiles@.len(),
        {
            let rec = tiles.remove(0);
            proof {
                assert(rec == torig[p]);
                assert(tiles@ =~= torig.skip(p + 1));
                let t = torig.take(p + 1);
                assert(t.drop_last() =~= torig.take(p));
                assert(t.last() == torig[p]);
            }
            match rec.state {
                TileState::Done(e) => {
                    done.push(e);
                },
                TileState::Free => {
                    unresolved.push(UnresolvedTile { key: rec.key, last_error: rec.last_error });
                },
                TileState::Busy => {
                    unresolved.push(UnresolvedTile { key: rec.key, last_error: rec.last_error });
                },
            }
            proof {
                p = p + 1;
            }
        }
        proof {
            assert(torig.take(torig.len() as int) =~= torig);
            lemma_unresolved_empty_iff_all_done(torig);
        }
        if unresolved.is_empty() {
            Ok(done)
        } else {
            Err(OrchestratorError::Unresolved(unresolved))
        }
    }
}

/// At any instant a tile is busy in at most one outstanding batch:
/// two different outstanding batches never share a tile.
pub proof fn lemma_busy_in_at_most_one_batch(
    o: BatchOrchestrator,
    a: int,
    b: int,
    i: int,
    j: int,
)
    requires
        o.wf(),
        0 <= a < o.inflight@.len(),
        0 <= b < o.inflight@.len(),
        a != b,
        0 <= i < o.inflight@[a].keys@.len(),
        0 <= j < o.inflight@[b].keys@.len(),
    ensures
        o.inflight@[a].keys@[i] != o.inflight@[b].keys@[j],
{
}

/// Every busy tile belongs to some outstanding batch; with the lemma
/// above, to exactly one.
pub proof fn lemma_busy_tile_in_some_batch(o: BatchOrchestrator, t: int)
    requires
        o.wf(),
        0 <= t < o.tiles@.len(),
        o.tiles@[t].state is Busy,
    ensures
        exists|b: int, i: int|
            0 <= b < o.inflight@.len() && 0 <= i < o.inflight@[b].keys@.len()
                && #[trigger] o.inflight@[b].keys@[i] == o.tiles@[t].key,
{
}

/// The sum of the attempts the tiles still have.
pub open spec fn total_attempts(tiles: Seq<TileRecord>) -> int
    decreases tiles.len(),
{
    if tiles.len() == 0 {
        0
    } else {
        total_attempts(tiles.drop_last()) + tiles.last().attempts_left
    }
}

/// The fetch loop's termination measure: attempts still allowed, plus
/// batches' worth of work outstanding.
pub open spec fn progress_measure(tiles: Seq<TileRecord>) -> int {
    total_attempts(tiles) + count_busy(tiles)
}

/// The measure never goes below zero: with every dispatched batch
/// decreasing it, only finitely many batches are ever dispatched.
pub proof fn lemma_measure_nonneg(tiles: Seq<TileRecord>)
    ensures
        progress_measure(tiles) >= 0,
        total_attempts(tiles) >= 0,
    decreases tiles.len(),
{
    if tiles.len() > 0 {
        lemma_measure_nonneg(tiles.drop_last());
    }
    lemma_counts_bounded(tiles);
}

/// Sets with the same attempt counts have the same attempts total.
proof fn lemma_total_attempts_pointwise(pre: Seq<TileRecord>, post: Seq<TileRecord>)
    requires
        pre.len() == post.len(),
        forall|i: int|
            0 <= i < pre.len() ==> (#[trigger] post[i]).attempts_left == pre[i].attempts_left,
    ensures
        total_attempts(post) == total_attempts(pre),
    decreases pre.len(),
{
    if pre.len() > 0 {
        assert(pre.drop_last().len() == post.drop_last().len());
        assert forall|i: int|
            0 <= i < pre.drop_last().len() implies (#[trigger] post.drop_last()[i]).attempts_left
            == pre.drop_last()[i].attempts_left by {
            assert(post.drop_last()[i] == post[i]);
        }
        lemma_total_attempts_pointwise(pre.drop_last(), post.drop_last());
    }
}

/// Fewer tiles are busy after than before, when no tile wakes to busy
/// and some busy tile settles.
proof fn lemma_count_busy_pointwise_lt(pre: Seq<TileRecord>, post: Seq<TileRecord>, t: int)
    requires
        pre.len() == post.len(),
        forall|i: int|
            0 <= i < pre.len() && (#[trigger] post[i]).state is Busy ==> pre[i].state is Busy,
        0 <= t < pre.len(),
        pre[t].state is Busy,
        !(post[t].state is Busy),
    ensures
        count_busy(post) < count_busy(pre),
    decreases pre.len(),
{
    lemma_count_busy_pointwise_le(pre.drop_last(), post.drop_last());
    if t == pre.len() - 1 {
    } else {
        lemma_count_busy_pointwise_lt(pre.drop_last(), post.drop_last(), t);
    }
}

/// No more tiles are busy after than before, when no tile wakes.
proof fn lemma_count_busy_pointwise_le(pre: Seq<TileRecord>, post: Seq<TileRecord>)
    requires
        pre.len() == post.len(),
        forall|i: int|
            0 <= i < pre.len() && (#[trigger] post[i]).state is Busy ==> pre[i].state is Busy,
    ensures
        count_busy(post) <= count_busy(pre),
    decreases pre.len(),
{
    if pre.len() > 0 {
        lemma_count_busy_pointwise_le(pre.drop_last(), post.drop_last());
    }
}

/// Selecting a batch keeps the termination measure: each selected
/// tile pays one attempt for its busy state.
pub proof fn lemma_select_preserves_measure(tiles: Seq<TileRecord>, sel: Seq<TileKey>)
    requires
        forall|i: int|
            0 <= i < tiles.len() && sel.contains((#[trigger] tiles[i]).key) ==> eligible(
                tiles[i],
            ),
    ensures
        progress_measure(mark_selected(tiles, sel)) == progress_measure(tiles),
    decreases tiles.len(),
{
    if tiles.len() > 0 {
        let m = mark_selected(tiles, sel);
        assert(m.drop_last() =~= mark_selected(tiles.drop_last(), sel));
        assert forall|i: int|
            0 <= i < tiles.drop_last().len() && sel.contains(
                (#[trigger] tiles.drop_last()[i]).key,
            ) implies eligible(tiles.drop_last()[i]) by {
            assert(tiles.drop_last()[i] == tiles[i]);
        }
        lemma_select_preserves_measure(tiles.drop_last(), sel);
        assert(m.last() == m[tiles.len() - 1]);
    }
}

/// Resolving a batch that holds a busy tile strictly decreases the
/// termination measure, however the response reads: so, with
/// selection preserving it, only finitely many batches can ever be
/// dispatched, and a run in which every tile eventually succeeds
/// ends with every tile done.
pub proof fn lemma_resolution_decreases_measure(
    tiles: Seq<TileRecord>,
    bkeys: Seq<TileKey>,
    items: Seq<(String, IntelResult)>,
    t: int,
)
    requires
        0 <= t < tiles.len(),
        tiles[t].state is Busy,
        bkeys.contains(tiles[t].key),
    ensures
        progress_measure(requeue_busy(apply_items(tiles, bkeys, items), bkeys))
            < progress_measure(tiles),
{
    let a = apply_items(tiles, bkeys, items);
    let r = requeue_busy(a, bkeys);
    lemma_apply_items_pointwise(tiles, bkeys, items);
    assert(r.len() == tiles.len());
    assert forall|i: int|
        0 <= i < tiles.len() implies (#[trigger] r[i]).attempts_left == tiles[i].attempts_left
        && ((r[i].state is Busy) ==> tiles[i].state is Busy) by {
        assert(r[i] == requeue_busy(a, bkeys)[i]);
        assert(a[i].attempts_left == tiles[i].attempts_left);
    }
    assert(!(r[t].state is Busy)) by {
        assert(a[t].key == tiles[t].key);
    }
    lemma_total_attempts_pointwise(tiles, r);
    lemma_count_busy_pointwise_lt(tiles, r, t);
}

/// Whether this key stands in the list, decided by scanning.
fn contains_tile_key(keys: &Vec<TileKey>, k: TileKey) -> (r: bool)
    ensures
        r == keys@.contains(k),
{
    let n = keys.len();
    let mut i: usize = 0;
    while i < n
        invariant
            i <= n == keys@.len(),
            forall|j: int| 0 <= j < i ==> keys@[j] != k,
        decreases n - i,
    {
        if keys[i] == k {
            assert(keys@[i as int] == k);
            return true;
        }
        i = i + 1;
    }
    false
}

/// The position of the record carrying this key, if one does.
fn find_record(tiles: &Vec<TileRecord>, k: TileKey) -> (r: Option<usize>)
    ensures
        match r {
            Some(i) => i < tiles@.len() && tiles@[i as int].key == k,
            None => !has_key(tiles@, k),
        },
{
    let n = tiles.len();
    let mut i: usize = 0;
    while i < n
        invariant
            i <= n == tiles@.len(),
            forall|j: int| 0 <= j < i ==> tiles@[j].key != k,
        decreases n - i,
    {
        if tiles[i].key == k {
            return Some(i);
        }
        i = i + 1;
    }
    None
}

/// Whether some record carries this key, decided by scanning.
fn contains_record(tiles: &Vec<TileRecord>, k: TileKey) -> (r: bool)
    ensures
        r == has_key(tiles@, k),
{
    let n = tiles.len();
    let mut i: usize = 0;
    while i < n
        invariant
            i <= n == tiles@.len(),
            forall|j: int| 0 <= j < i ==> tiles@[j].key != k,
        decreases n - i,
    {
        if tiles[i].key == k {
            return true;
        }
        i = i + 1;
    }
    false
}

/// How many records stand free.
pub open spec fn count_free(tiles: Seq<TileRecord>) -> int
    decreases tiles.len(),
{
    if tiles.len() == 0 {
        0
    } else {
        count_free(tiles.drop_last()) + if tiles.last().state is Free {
            1int
        } else {
            0int
        }
    }
}

/// How many records stand busy.
pub open spec fn count_busy(tiles: Seq<TileRecord>) -> int
    decreases tiles.len(),
{
    if tiles.len() == 0 {
        0
    } else {
        count_busy(tiles.drop_last()) + if tiles.last().state is Busy {
            1int
        } else {
            0int
        }
    }
}

/// How many records stand done.
pub open spec fn count_done(tiles: Seq<TileRecord>) -> int
    decreases tiles.len(),
{
    if tiles.len() == 0 {
        0
    } else {
        count_done(tiles.drop_last()) + if tiles.last().state is Done {
            1int
        } else {
            0int
        }
    }
}

/// The three counts split the set: each is nonnegative and they sum
/// to the number of tiles.
pub proof fn lemma_counts_bounded(tiles: Seq<TileRecord>)
    ensures
        count_free(tiles) >= 0,
        count_busy(tiles) >= 0,
        count_done(tiles) >= 0,
        count_free(tiles) + count_busy(tiles) + count_done(tiles) == tiles.len(),
    decreases tiles.len(),
{
    if tiles.len() > 0 {
        lemma_counts_bounded(tiles.drop_last());
    }
}

} // verus!
