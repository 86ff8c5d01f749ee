use std::sync::Arc;

use dashmap::DashMap;
use vstd::prelude::*;

use crate::watchers::{ChunkKey, ChunkWatchers, key_of};
use crate::vector::Vector2;
use crate::region::RegionError;
use crate::wire::ChunkData;

verus! {

/// A concurrent map of the chunks in memory.
pub type LoadedMap = DashMap<ChunkKey, Arc<ChunkData>>;

/// What a map of loaded chunks holds: chunk position to chunk.
pub uninterp spec fn loaded_entries(m: LoadedMap) -> Map<ChunkKey, Arc<ChunkData>>;

/// Relies on `DashMap::new`: a new map holds nothing.
#[verifier::external_body]
fn loaded_new() -> (r: LoadedMap)
    ensures
        loaded_entries(r).is_empty(),
{
    DashMap::new()
}

/// Relies on `DashMap::get`: the chunk under `k`, if there is one (a shared
/// handle to it).
#[verifier::external_body]
fn loaded_get(m: &LoadedMap, k: ChunkKey) -> (r: Option<Arc<ChunkData>>)
    ensures
        r == (if loaded_entries(*m).contains_key(k) {
            Some(loaded_entries(*m)[k])
        } else {
            None::<Arc<ChunkData>>
        }),
{
    m.get(&k).map(|e| Arc::clone(e.value()))
}

/// Relies on `DashMap::insert`: `k` maps to `v` afterwards, the rest is kept.
#[verifier::external_body]
fn loaded_insert(m: &mut LoadedMap, k: ChunkKey, v: Arc<ChunkData>)
    ensures
        loaded_entries(*final(m)) == loaded_entries(*old(m)).insert(k, v),
{
    m.insert(k, v);
}

/// Relies on `DashMap::remove`: the entry of `k`, which is gone afterwards.
#[verifier::external_body]
fn loaded_remove(m: &mut LoadedMap, k: ChunkKey) -> (r: Option<Arc<ChunkData>>)
    ensures
        loaded_entries(*final(m)) == loaded_entries(*old(m)).remove(k),
        r == (if loaded_entries(*old(m)).contains_key(k) {
            Some(loaded_entries(*old(m))[k])
        } else {
            None::<Arc<ChunkData>>
        }),
{
    m.remove(&k).map(|(_, v)| v)
}

/// Relies on `DashMap::len`: the number of entries.
#[verifier::external_body]
fn loaded_len(m: &LoadedMap) -> (r: usize)
    ensures
        r == loaded_entries(*m).len(),
{
    m.len()
}

/// Settles a freshly loaded chunk: the chunk already in the map wins, and
/// only a chunk that goes in counts as a first load.
pub open spec fn settle(m: Map<ChunkKey, Arc<ChunkData>>, k: ChunkKey, c: Arc<ChunkData>) -> (
    Map<ChunkKey, Arc<ChunkData>>,
    Arc<ChunkData>,
    bool,
) {
    if m.contains_key(k) {
        (m, m[k], false)
    } else {
        (m.insert(k, c), c, true)
    }
}

/// The first loads among deliveries for `k`, when every delivery settles a
/// chunk of `cs` in turn.
pub open spec fn first_loads(m: Map<ChunkKey, Arc<ChunkData>>, k: ChunkKey, cs: Seq<Arc<ChunkData>>) -> nat
    decreases cs.len(),
{
    if cs.len() == 0 {
        0
    } else {
        let (m1, _, first) = settle(m, k, cs[0]);
        (if first {
            1nat
        } else {
            0nat
        }) + first_loads(m1, k, cs.drop_first())
    }
}

/// However many chunks are loaded for one position and settled one after
/// another, at most one of them is a first load, and one is exactly when the
/// position was not loaded before.
pub proof fn lemma_first_load_once(
    m: Map<ChunkKey, Arc<ChunkData>>,
    k: ChunkKey,
    cs: Seq<Arc<ChunkData>>,
)
    ensures
        first_loads(m, k, cs) <= 1,
        first_loads(m, k, cs) == 1 <==> (!m.contains_key(k) && cs.len() > 0),
    decreases cs.len(),
{
    if cs.len() > 0 {
        let (m1, _, first) = settle(m, k, cs[0]);
        lemma_first_load_once(m1, k, cs.drop_first());
        assert(m1.contains_key(k));
    }
}

/// The chunks in memory, by position.
pub struct LoadedChunks {
    loaded_chunks: LoadedMap,
}

impl LoadedChunks {
    pub closed spec fn view(&self) -> Map<ChunkKey, Arc<ChunkData>> {
        loaded_entries(self.loaded_chunks)
    }

    pub fn new() -> (r: LoadedChunks)
        ensures
            r.view().is_empty(),
    {
        LoadedChunks { loaded_chunks: loaded_new() }
    }

    pub fn loaded_chunk_count(&self) -> (r: usize)
        ensures
            r == self.view().len(),
    {
        loaded_len(&self.loaded_chunks)
    }

    /// The chunk at `pos`, if it is in memory; a cached chunk is never a
    /// first load.
    pub fn get_cached(&self, pos: Vector2<i32>) -> (r: Option<Arc<ChunkData>>)
        ensures
            r == (if self.view().contains_key(key_of(pos)) {
                Some(self.view()[key_of(pos)])
            } else {
                None::<Arc<ChunkData>>
            }),
    {
        loaded_get(&self.loaded_chunks, (pos.x, pos.y))
    }

    /// Puts a chunk that was just read or generated, unless another one got
    /// there first; gives the chunk to deliver and whether this is its first
    /// load.
    pub fn settle_loaded(&mut self, pos: Vector2<i32>, chunk: Arc<ChunkData>) -> (r: (
        Arc<ChunkData>,
        bool,
    ))
        ensures
            (final(self).view(), r.0, r.1) == settle(old(self).view(), key_of(pos), chunk),
    {
        let k = (pos.x, pos.y);
        match loaded_get(&self.loaded_chunks, k) {
            Some(theirs) => (theirs, false),
            None => {
                let ours = Arc::clone(&chunk);
                loaded_insert(&mut self.loaded_chunks, k, chunk);
                (ours, true)
            },
        }
    }

    /// Takes the chunk at `pos` out of memory, for it to be written back.
    pub fn clean_chunk(&mut self, pos: &Vector2<i32>) -> (r: Option<Arc<ChunkData>>)
        ensures
            final(self).view() == old(self).view().remove(key_of(*pos)),
            r == (if old(self).view().contains_key(key_of(*pos)) {
                Some(old(self).view()[key_of(*pos)])
            } else {
                None::<Arc<ChunkData>>
            }),
    {
        loaded_remove(&mut self.loaded_chunks, (pos.x, pos.y))
    }

    /// Drops from memory each of `chunks` that no player watches.
    pub fn clean_memory(&mut self, watchers: &ChunkWatchers, chunks: &[Vector2<i32>])
        ensures
            forall|k: ChunkKey| #[trigger] final(self).view().contains_key(k) <==> old(self).view().contains_key(k) && !(exists|i: int|
                0 <= i < chunks@.len() && key_of(chunks@[i]) == k && !watchers.view().contains_key(
                    k,
                )),
            forall|k: ChunkKey| #[trigger] final(self).view().contains_key(k) ==> final(self).view()[k] == old(self).view()[k],
    {
        let mut i: usize = 0;
        while i < chunks.len()
            invariant
                i <= chunks@.len(),
                forall|k: ChunkKey| #[trigger] self.view().contains_key(k) <==> old(self).view().contains_key(k) && !(exists|j: int|
                    0 <= j < i && key_of(chunks@[j]) == k && !watchers.view().contains_key(k)),
                forall|k: ChunkKey| #[trigger] self.view().contains_key(k) ==> self.view()[k] == old(self).view()[k],
            decreases chunks@.len() - i,
        {
            let pos = chunks[i];
            let ghost before = self.view();
            let watched = watchers.is_chunk_watched(&pos);
            if !watched {
                let _ = loaded_remove(&mut self.loaded_chunks, (pos.x, pos.y));
            }
            proof {
                assert forall|k: ChunkKey| #[trigger] self.view().contains_key(k) <==> old(self).view().contains_key(k) && !(exists|j: int|
                    0 <= j < i + 1 && key_of(chunks@[j]) == k && !watchers.view().contains_key(k)) by {
                    let now = exists|j: int|
                        0 <= j < i + 1 && key_of(chunks@[j]) == k && !watchers.view().contains_key(k);
                    let earlier = exists|j: int|
                        0 <= j < i && key_of(chunks@[j]) == k && !watchers.view().contains_key(k);
                    let here = key_of(chunks@[i as int]) == k && !watchers.view().contains_key(k);
                    if now {
                        let j = choose|j: int|
                            0 <= j < i + 1 && key_of(chunks@[j]) == k
                                && !watchers.view().contains_key(k);
                        assert(earlier || here);
                    }
                    if earlier {
                        let j = choose|j: int|
                            0 <= j < i && key_of(chunks@[j]) == k && !watchers.view().contains_key(k);
                        assert(0 <= j < i + 1 && key_of(chunks@[j]) == k);
                    }
                    if here {
                        assert(0 <= i < i + 1 && key_of(chunks@[i as int]) == k);
                    }
                    assert(now == (earlier || here));
                    assert(before.contains_key(k) <==> old(self).view().contains_key(k) && !earlier);
                }
                assert forall|k: ChunkKey| #[trigger] self.view().contains_key(k) implies self.view()[k]
                    == old(self).view()[k] by {
                    assert(before.contains_key(k));
                }
            }
            i = i + 1;
        }
    }
}

/// A run of fetches: each requested position gets one delivery, the chunk
/// in memory (not a first load) or a chunk loaded for it, which goes into
/// memory (a first load). The map after the run, when `rs` is such a run.
pub open spec fn fetch_run(
    m: Map<ChunkKey, Arc<ChunkData>>,
    ps: Seq<Vector2<i32>>,
    rs: Seq<(Arc<ChunkData>, bool)>,
) -> Option<Map<ChunkKey, Arc<ChunkData>>>
    decreases ps.len(),
{
    if ps.len() != rs.len() {
        None
    } else if ps.len() == 0 {
        Some(m)
    } else {
        let k = key_of(ps[0]);
        let (c, first) = rs[0];
        if m.contains_key(k) {
            if c == m[k] && !first {
                fetch_run(m, ps.drop_first(), rs.drop_first())
            } else {
                None
            }
        } else if first {
            fetch_run(m.insert(k, c), ps.drop_first(), rs.drop_first())
        } else {
            None
        }
    }
}

/// How many deliveries for position `k` are first loads.
pub open spec fn first_loads_of(
    ps: Seq<Vector2<i32>>,
    rs: Seq<(Arc<ChunkData>, bool)>,
    k: ChunkKey,
) -> nat
    decreases ps.len(),
{
    if ps.len() == 0 || rs.len() == 0 {
        0
    } else {
        (if key_of(ps[0]) == k && rs[0].1 {
            1nat
        } else {
            0nat
        }) + first_loads_of(ps.drop_first(), rs.drop_first(), k)
    }
}

/// In a run of fetches every position gets exactly one delivery, and at
/// most one delivery per position is a first load: one exactly when the
/// position was requested and not in memory before.
pub proof fn lemma_fetch_first_load_once(
    m: Map<ChunkKey, Arc<ChunkData>>,
    ps: Seq<Vector2<i32>>,
    rs: Seq<(Arc<ChunkData>, bool)>,
    k: ChunkKey,
)
    requires
        fetch_run(m, ps, rs) is Some,
    ensures
        rs.len() == ps.len(),
        first_loads_of(ps, rs, k) <= 1,
        first_loads_of(ps, rs, k) == 1 <==> !m.contains_key(k) && exists|i: int|
            0 <= i < ps.len() && key_of(ps[i]) == k,
        fetch_run(m, ps, rs) matches Some(m2) ==> (m2.contains_key(k) <==> m.contains_key(k)
            || exists|i: int| 0 <= i < ps.len() && key_of(ps[i]) == k),
    decreases ps.len(),
{
    if ps.len() > 0 {
        let k0 = key_of(ps[0]);
        let m1 = if m.contains_key(k0) {
            m
        } else {
            m.insert(k0, rs[0].0)
        };
        lemma_fetch_first_load_once(m1, ps.drop_first(), rs.drop_first(), k);
        let later = exists|i: int| 0 <= i < ps.drop_first().len() && key_of(ps.drop_first()[i]) == k;
        let any = exists|i: int| 0 <= i < ps.len() && key_of(ps[i]) == k;
        if later {
            let i = choose|i: int| 0 <= i < ps.drop_first().len() && key_of(ps.drop_first()[i]) == k;
            assert(key_of(ps[i + 1]) == k);
        }
        if any {
            let i = choose|i: int| 0 <= i < ps.len() && key_of(ps[i]) == k;
            if i > 0 {
                assert(key_of(ps.drop_first()[i - 1]) == k);
            }
        }
        if k0 == k {
            assert(any);
        }
    }
}

impl LoadedChunks {
    /// Delivers a chunk for each requested position, in order: the chunk in
    /// memory, or the one that `load` reads or generates for it, which then
    /// goes into memory as a first load. A storage fault that `load` reports
    /// stops the run: it is returned, and the chunk it was loading stays out
    /// of memory (the chunks loaded before it stay in).
    pub fn fetch_chunks<F: Fn(Vector2<i32>) -> Result<Arc<ChunkData>, RegionError>>(
        &mut self,
        positions: &[Vector2<i32>],
        load: F,
    ) -> (r: Result<Vec<(Arc<ChunkData>, bool)>, RegionError>)
        requires
            forall|p: Vector2<i32>| load.requires((p,)),
        ensures
            r matches Ok(rs) ==> {
                &&& rs@.len() == positions@.len()
                &&& fetch_run(old(self).view(), positions@, rs@) == Some(final(self).view())
                &&& forall|i: int|
                    0 <= i < rs@.len() && (#[trigger] rs@[i]).1 ==> load.ensures(
                        (positions@[i],),
                        Ok::<Arc<ChunkData>, RegionError>(rs@[i].0),
                    )
            },
            r matches Err(e) ==> exists|n: int, rs: Seq<(Arc<ChunkData>, bool)>|
                0 <= n < positions@.len() && fetch_run(
                    old(self).view(),
                    positions@.subrange(0, n),
                    rs,
                ) == Some(final(self).view()) && !final(self).view().contains_key(
                    key_of(positions@[n]),
                ) && load.ensures((positions@[n],), Err::<Arc<ChunkData>, RegionError>(e)),
    {
        let mut out: Vec<(Arc<ChunkData>, bool)> = Vec::new();
        let ghost start = self.view();
        let mut n: usize = 0;
        while n < positions.len()
            invariant
                n <= positions@.len(),
                forall|p: Vector2<i32>| load.requires((p,)),
                out@.len() == n,
                fetch_run(start, positions@.subrange(0, n as int), out@) == Some(self.view()),
                start == old(self).view(),
                forall|i: int|
                    0 <= i < out@.len() && (#[trigger] out@[i]).1 ==> load.ensures(
                        (positions@[i],),
                        Ok::<Arc<ChunkData>, RegionError>(out@[i].0),
                    ),
            decreases positions@.len() - n,
        {
            let pos = positions[n];
            let ghost before = self.view();
            let ghost before_out = out@;
            let entry = match self.get_cached(pos) {
                Some(c) => (c, false),
                None => {
                    match load(pos) {
                        Ok(fresh) => self.settle_loaded(pos, fresh),
                        Err(e) => {
                            assert(!self.view().contains_key(key_of(positions@[n as int])));
                            return Err(e);
                        },
                    }
                },
            };
            out.push(entry);
            proof {
                lemma_fetch_run_push(start, positions@.subrange(0, n as int), before_out, before, pos, entry);
                assert(positions@.subrange(0, n + 1) =~= positions@.subrange(0, n as int).push(pos));
                assert forall|i: int|
                    0 <= i < out@.len() && (#[trigger] out@[i]).1 implies load.ensures(
                        (positions@[i],),
                        Ok::<Arc<ChunkData>, RegionError>(out@[i].0),
                    ) by {
                    if i < n {
                        assert(out@[i] == before_out[i]);
                    }
                }
            }
            n = n + 1;
        }
        assert(positions@.subrange(0, positions@.len() as int) =~= positions@);
        Ok(out)
    }
}

proof fn lemma_fetch_run_push(
    m: Map<ChunkKey, Arc<ChunkData>>,
    ps: Seq<Vector2<i32>>,
    rs: Seq<(Arc<ChunkData>, bool)>,
    mid: Map<ChunkKey, Arc<ChunkData>>,
    p: Vector2<i32>,
    r: (Arc<ChunkData>, bool),
)
    requires
        fetch_run(m, ps, rs) == Some(mid),
    ensures
        fetch_run(m, ps.push(p), rs.push(r)) == (if mid.contains_key(key_of(p)) {
            if r.0 == mid[key_of(p)] && !r.1 {
                Some(mid)
            } else {
                None
            }
        } else if r.1 {
            Some(mid.insert(key_of(p), r.0))
        } else {
            None
        }),
    decreases ps.len(),
{
    if ps.len() > 0 {
        let k = key_of(ps[0]);
        let m1 = if m.contains_key(k) {
            m
        } else {
            m.insert(k, rs[0].0)
        };
        assert(rs.len() == ps.len());
        assert(ps.push(p)[0] == ps[0]);
        assert(rs.push(r)[0] == rs[0]);
        assert(ps.push(p).drop_first() =~= ps.drop_first().push(p));
        assert(rs.push(r).drop_first() =~= rs.drop_first().push(r));
        assert(fetch_run(m1, ps.drop_first(), rs.drop_first()) == Some(mid));
        lemma_fetch_run_push(m1, ps.drop_first(), rs.drop_first(), mid, p, r);
        assert(fetch_run(m, ps.push(p), rs.push(r)) == fetch_run(
            m1,
            ps.push(p).drop_first(),
            rs.push(r).drop_first(),
        ));
    } else {
        assert(rs.len() == 0);
        assert(mid == m);
        assert(ps.push(p).drop_first() =~= ps);
        assert(rs.push(r).drop_first() =~= rs);
        assert(ps.push(p)[0] == p);
        assert(rs.push(r)[0] == r);
        assert(fetch_run(m, ps, rs) == Some(m));
        assert(fetch_run(m.insert(key_of(p), r.0), ps, rs) == Some(m.insert(key_of(p), r.0)));
    }
}

} // verus!
