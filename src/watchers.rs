use dashmap::DashMap;
use vstd::prelude::*;

use crate::vector::Vector2;

verus! {

/// A chunk position as a map key: x, then z.
pub type ChunkKey = (i32, i32);

/// A concurrent map of watcher counts.
pub type WatcherMap = DashMap<ChunkKey, u32>;

#[verifier::external_type_specification]
#[verifier::external_body]
#[verifier::reject_recursive_types(K)]
#[verifier::reject_recursive_types(V)]
#[verifier::reject_recursive_types(S)]
pub struct ExDashMap<K, V, S>(DashMap<K, V, S>);

/// What a map of watcher counts holds: chunk position to count.
pub uninterp spec fn watcher_entries(m: WatcherMap) -> Map<ChunkKey, u32>;

/// Relies on `DashMap::new`: a new map holds nothing.
#[verifier::external_body]
fn counts_new() -> (r: WatcherMap)
    ensures
        watcher_entries(r).is_empty(),
{
    DashMap::new()
}

/// Relies on `DashMap::get`: the value under `k`, if there is one.
#[verifier::external_body]
fn counts_get(m: &WatcherMap, k: ChunkKey) -> (r: Option<u32>)
    ensures
        r == (if watcher_entries(*m).contains_key(k) {
            Some(watcher_entries(*m)[k])
        } else {
            None::<u32>
        }),
{
    m.get(&k).map(|e| *e.value())
}

/// Relies on `DashMap::insert`: `k` maps to `v` afterwards, the rest is kept.
#[verifier::external_body]
fn counts_insert(m: &mut WatcherMap, k: ChunkKey, v: u32)
    ensures
        watcher_entries(*final(m)) == watcher_entries(*old(m)).insert(k, v),
{
    m.insert(k, v);
}

/// Relies on `DashMap::remove`: `k` has no entry afterwards, the rest is kept.
#[verifier::external_body]
fn counts_remove(m: &mut WatcherMap, k: ChunkKey)
    ensures
        watcher_entries(*final(m)) == watcher_entries(*old(m)).remove(k),
{
    m.remove(&k);
}

pub open spec fn key_of(p: Vector2<i32>) -> ChunkKey {
    (p.x, p.y)
}

/// One more watcher on `k`; a count at `u32::MAX` stays there.
pub open spec fn mark(m: Map<ChunkKey, u32>, k: ChunkKey) -> Map<ChunkKey, u32> {
    if m.contains_key(k) {
        if m[k] < u32::MAX {
            m.insert(k, (m[k] + 1) as u32)
        } else {
            m
        }
    } else {
        m.insert(k, 1)
    }
}

/// One watcher fewer on `k`, and whether no watcher is left: a count that
/// reaches zero leaves the map; a chunk that had no entry reports true.
pub open spec fn unmark(m: Map<ChunkKey, u32>, k: ChunkKey) -> (Map<ChunkKey, u32>, bool) {
    if m.contains_key(k) {
        if m[k] <= 1 {
            (m.remove(k), true)
        } else {
            (m.insert(k, (m[k] - 1) as u32), false)
        }
    } else {
        (m, true)
    }
}

/// `mark` on each position in turn.
pub open spec fn mark_all(m: Map<ChunkKey, u32>, ps: Seq<Vector2<i32>>) -> Map<ChunkKey, u32>
    decreases ps.len(),
{
    if ps.len() == 0 {
        m
    } else {
        mark(mark_all(m, ps.drop_last()), key_of(ps.last()))
    }
}

/// `unmark` on each position in turn, with the positions that were left
/// without watchers.
pub open spec fn unmark_all(m: Map<ChunkKey, u32>, ps: Seq<Vector2<i32>>) -> (
    Map<ChunkKey, u32>,
    Seq<Vector2<i32>>,
)
    decreases ps.len(),
{
    if ps.len() == 0 {
        (m, Seq::empty())
    } else {
        let (m1, dropped) = unmark_all(m, ps.drop_last());
        let (m2, gone) = unmark(m1, key_of(ps.last()));
        (m2, if gone {
            dropped.push(ps.last())
        } else {
            dropped
        })
    }
}

/// Counts of the players that watch each chunk; a chunk without watchers
/// has no entry.
pub struct ChunkWatchers {
    chunk_watchers: WatcherMap,
}

impl ChunkWatchers {
    pub closed spec fn view(&self) -> Map<ChunkKey, u32> {
        watcher_entries(self.chunk_watchers)
    }

    /// No entry holds a zero count.
    pub open spec fn wf(&self) -> bool {
        forall|k: ChunkKey| #[trigger] self.view().contains_key(k) ==> self.view()[k] > 0
    }

    pub fn new() -> (r: ChunkWatchers)
        ensures
            r.view() == Map::<ChunkKey, u32>::empty(),
            r.wf(),
    {
        ChunkWatchers { chunk_watchers: counts_new() }
    }

    /// Adds a watcher to `chunk`; the count saturates at `u32::MAX`.
    pub fn mark_chunk_as_newly_watched(&mut self, chunk: Vector2<i32>)
        requires
            old(self).wf(),
        ensures
            final(self).wf(),
            final(self).view() == mark(old(self).view(), key_of(chunk)),
    {
        let k = (chunk.x, chunk.y);
        let ghost before = self.view();
        match counts_get(&self.chunk_watchers, k) {
            Some(n) => {
                if n < u32::MAX {
                    counts_insert(&mut self.chunk_watchers, k, n + 1);
                }
            },
            None => {
                counts_insert(&mut self.chunk_watchers, k, 1);
            },
        }
        proof {
            assert forall|q: ChunkKey| #[trigger] self.view().contains_key(q) implies self.view()[q]
                > 0 by {
                if q != k {
                    assert(before.contains_key(q));
                }
            }
        }
    }

    /// Adds a watcher to each chunk in turn.
    pub fn mark_chunks_as_newly_watched(&mut self, chunks: &[Vector2<i32>])
        requires
            old(self).wf(),
        ensures
            final(self).wf(),
            final(self).view() == mark_all(old(self).view(), chunks@),
    {
        let mut i: usize = 0;
        while i < chunks.len()
            invariant
                i <= chunks@.len(),
                self.wf(),
                self.view() == mark_all(old(self).view(), chunks@.subrange(0, i as int)),
            decreases chunks@.len() - i,
        {
            self.mark_chunk_as_newly_watched(chunks[i]);
            proof {
                assert(chunks@.subrange(0, i + 1).drop_last() =~= chunks@.subrange(0, i as int));
            }
            i = i + 1;
        }
        assert(chunks@.subrange(0, chunks@.len() as int) =~= chunks@);
    }

    /// Takes a watcher from `chunk`; true when none is left (the entry is
    /// then gone) or the chunk had no entry.
    pub fn mark_chunk_as_not_watched(&mut self, chunk: Vector2<i32>) -> (r: bool)
        requires
            old(self).wf(),
        ensures
            final(self).wf(),
            (final(self).view(), r) == unmark(old(self).view(), key_of(chunk)),
    {
        let k = (chunk.x, chunk.y);
        match counts_get(&self.chunk_watchers, k) {
            Some(n) => {
                let left = if n > 0 {
                    n - 1
                } else {
                    0
                };
                if left == 0 {
                    counts_remove(&mut self.chunk_watchers, k);
                    true
                } else {
                    counts_insert(&mut self.chunk_watchers, k, left);
                    false
                }
            },
            None => true,
        }
    }

    /// Takes a watcher from each chunk in turn; gives the chunks left
    /// without watchers, in order.
    pub fn mark_chunks_as_not_watched(&mut self, chunks: &[Vector2<i32>]) -> (r: Vec<Vector2<i32>>)
        requires
            old(self).wf(),
        ensures
            final(self).wf(),
            (final(self).view(), r@) == unmark_all(old(self).view(), chunks@),
    {
        let mut dropped: Vec<Vector2<i32>> = Vec::new();
        let mut i: usize = 0;
        while i < chunks.len()
            invariant
                i <= chunks@.len(),
                self.wf(),
                (self.view(), dropped@) == unmark_all(old(self).view(), chunks@.subrange(0, i as int)),
            decreases chunks@.len() - i,
        {
            if self.mark_chunk_as_not_watched(chunks[i]) {
                dropped.push(chunks[i]);
            }
            proof {
                assert(chunks@.subrange(0, i + 1).drop_last() =~= chunks@.subrange(0, i as int));
            }
            i = i + 1;
        }
        assert(chunks@.subrange(0, chunks@.len() as int) =~= chunks@);
        dropped
    }

    /// Whether any player watches `chunk`.
    pub fn is_chunk_watched(&self, chunk: &Vector2<i32>) -> (r: bool)
        ensures
            r == self.view().contains_key(key_of(*chunk)),
    {
        counts_get(&self.chunk_watchers, (chunk.x, chunk.y)).is_some()
    }

    /// The number of players that watch `chunk`.
    pub fn watcher_count(&self, chunk: &Vector2<i32>) -> (r: u32)
        ensures
            r == (if self.view().contains_key(key_of(*chunk)) {
                self.view()[key_of(*chunk)]
            } else {
                0
            }),
    {
        match counts_get(&self.chunk_watchers, (chunk.x, chunk.y)) {
            Some(n) => n,
            None => 0,
        }
    }
}

/// `n` marks of one chunk.
pub open spec fn mark_n(m: Map<ChunkKey, u32>, k: ChunkKey, n: nat) -> Map<ChunkKey, u32>
    decreases n,
{
    if n == 0 {
        m
    } else {
        mark(mark_n(m, k, (n - 1) as nat), k)
    }
}

/// `n` unmarks of one chunk.
pub open spec fn unmark_n(m: Map<ChunkKey, u32>, k: ChunkKey, n: nat) -> Map<ChunkKey, u32>
    decreases n,
{
    if n == 0 {
        m
    } else {
        unmark(unmark_n(m, k, (n - 1) as nat), k).0
    }
}

pub open spec fn count_of(m: Map<ChunkKey, u32>, k: ChunkKey) -> nat {
    if m.contains_key(k) {
        m[k] as nat
    } else {
        0
    }
}

proof fn lemma_mark_n(m: Map<ChunkKey, u32>, k: ChunkKey, n: nat)
    requires
        n > 0,
        count_of(m, k) + n <= u32::MAX,
    ensures
        mark_n(m, k, n) == m.insert(k, (count_of(m, k) + n) as u32),
    decreases n,
{
    let c = count_of(m, k);
    if n == 1 {
        assert(mark_n(m, k, 1) == mark(mark_n(m, k, 0), k));
        assert(mark_n(m, k, 0) == m);
    } else {
        lemma_mark_n(m, k, (n - 1) as nat);
        let prev = m.insert(k, (c + n - 1) as u32);
        assert(mark_n(m, k, n) == mark(mark_n(m, k, (n - 1) as nat), k));
        assert(prev.contains_key(k) && prev[k] == c + n - 1);
        assert(mark(prev, k) == prev.insert(k, (c + n) as u32));
        assert(prev.insert(k, (c + n) as u32) =~= m.insert(k, (c + n) as u32));
    }
}

proof fn lemma_unmark_n(m: Map<ChunkKey, u32>, k: ChunkKey, c: nat, j: nat)
    requires
        c + j <= u32::MAX,
        j > 0,
    ensures
        unmark_n(m.insert(k, (c + j) as u32), k, j) == (if c == 0 {
            m.remove(k)
        } else {
            m.insert(k, c as u32)
        }),
    decreases j,
{
    let top = m.insert(k, (c + j) as u32);
    let mid = m.insert(k, (c + 1) as u32);
    assert(unmark_n(top, k, j) == unmark(unmark_n(top, k, (j - 1) as nat), k).0);
    if j == 1 {
        assert(unmark_n(top, k, 0) == top);
        assert(top == mid);
    } else {
        lemma_unmark_n(m, k, c + 1, (j - 1) as nat);
        assert(m.insert(k, (c + 1 + (j - 1)) as u32) == top);
    }
    assert(mid.contains_key(k) && mid[k] == c + 1);
    if c == 0 {
        assert(unmark(mid, k).0 == mid.remove(k));
        assert(mid.remove(k) =~= m.remove(k));
    } else {
        assert(unmark(mid, k).0 == mid.insert(k, c as u32));
        assert(mid.insert(k, c as u32) =~= m.insert(k, c as u32));
    }
}

/// Marking a chunk `n` times and then unmarking it `n` times leaves the
/// counts as they were, while no count saturates; for `n = 1` this is
/// `unmark(mark(m)) = m`.
pub proof fn lemma_mark_unmark_n(m: Map<ChunkKey, u32>, k: ChunkKey, n: nat)
    requires
        forall|q: ChunkKey| #[trigger] m.contains_key(q) ==> m[q] > 0,
        count_of(m, k) + n <= u32::MAX,
    ensures
        unmark_n(mark_n(m, k, n), k, n) == m,
{
    if n > 0 {
        lemma_mark_n(m, k, n);
        lemma_unmark_n(m, k, count_of(m, k), n);
        if m.contains_key(k) {
            assert(m.insert(k, m[k]) =~= m);
        } else {
            assert(m.remove(k) =~= m);
        }
    }
}

} // verus!
