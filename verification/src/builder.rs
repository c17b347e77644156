use vstd::prelude::*;
use crate::tilemap::pos::TilePos;
use crate::util::compare_iter::{reversed, rev};

verus! {

/// Tiles up to this depth are built on the graphics card; deeper ones need
/// the precision of the processor.
pub const GPU_MAX_DEPTH: u8 = 16;

/// The builder that a tile is sent to: the graphics card for shallow tiles,
/// the processor's workers for deep ones.
pub fn build_on_gpu(p: &TilePos) -> (b: bool)
    ensures
        b == (p.z < GPU_MAX_DEPTH),
{
    p.z < GPU_MAX_DEPTH
}

/// The number of processor workers: one fewer than the processors, and at
/// least one.
pub fn worker_count(cpus: usize) -> (n: usize)
    ensures
        n == if cpus >= 2 {
            cpus - 1
        } else {
            1
        },
{
    if cpus >= 2 {
        cpus - 1
    } else {
        1
    }
}

/// The number of processors, from `num_cpus::get`. Its documentation
/// promises at least one; which number comes back depends on the machine,
/// and nothing more is claimed of it.
#[verifier::external_body]
fn cpu_count() -> (n: usize)
    ensures
        n >= 1,
{
    num_cpus::get()
}

/// The number of processor workers for this machine.
pub fn machine_worker_count() -> (n: usize)
    ensures
        n >= 1,
{
    worker_count(cpu_count())
}

/// The map from each key of `s` to the value beside it; the keys of `s` are
/// meant to be distinct.
pub open spec fn assoc_map<V>(s: Seq<(TilePos, V)>) -> Map<TilePos, V>
    decreases s.len(),
{
    if s.len() == 0 {
        Map::empty()
    } else {
        assoc_map(s.drop_last()).insert(s.last().0, s.last().1)
    }
}

/// No key occurs twice in `s`.
pub open spec fn distinct_keys<V>(s: Seq<(TilePos, V)>) -> bool {
    forall|i: int, j: int| 0 <= i < j < s.len() ==> #[trigger] s[i].0 != #[trigger] s[j].0
}

/// The cache after a frame: tiles that were used keep their image with the
/// use count set back to zero, tiles still being built stay, and tiles that
/// were not used are dropped.
pub open spec fn kept_after_frame<I>(m: Map<TilePos, Option<(I, u32)>>) -> Map<TilePos, Option<(I, u32)>> {
    Map::new(
        |k: TilePos| m.contains_key(k) && (m[k] matches Some((_, c)) ==> c > 0),
        |k: TilePos| match m[k] {
            Some((img, _)) => Some((img, 0u32)),
            None => None,
        },
    )
}

/// `m` with the finished tiles `f` stored in turn, each as used once.
pub open spec fn with_finished<I>(m: Map<TilePos, Option<(I, u32)>>, f: Seq<(TilePos, I)>) -> Map<
    TilePos,
    Option<(I, u32)>,
>
    decreases f.len(),
{
    if f.len() == 0 {
        m
    } else {
        with_finished(m, f.drop_last()).insert(f.last().0, Some((f.last().1, 1u32)))
    }
}

proof fn lemma_assoc_map_index<V>(s: Seq<(TilePos, V)>, i: int)
    requires
        distinct_keys(s),
        0 <= i < s.len(),
    ensures
        assoc_map(s).contains_key(s[i].0),
        assoc_map(s)[s[i].0] == s[i].1,
    decreases s.len(),
{
    if i < s.len() - 1 {
        lemma_assoc_map_index(s.drop_last(), i);
        assert(s[i].0 != s.last().0);
    }
}

proof fn lemma_assoc_map_keys<V>(s: Seq<(TilePos, V)>, k: TilePos)
    ensures
        assoc_map(s).contains_key(k) == exists|i: int| 0 <= i < s.len() && #[trigger] s[i].0 == k,
    decreases s.len(),
{
    if s.len() > 0 {
        lemma_assoc_map_keys(s.drop_last(), k);
        if assoc_map(s.drop_last()).contains_key(k) {
            let i = choose|i: int| 0 <= i < s.drop_last().len() && #[trigger] s.drop_last()[i].0 == k;
            assert(s[i].0 == k);
        }
        if exists|i: int| 0 <= i < s.len() && #[trigger] s[i].0 == k {
            let i = choose|i: int| 0 <= i < s.len() && #[trigger] s[i].0 == k;
            if i < s.len() - 1 {
                assert(s.drop_last()[i].0 == k);
            }
        }
    }
}

proof fn lemma_assoc_map_update<V>(s: Seq<(TilePos, V)>, i: int, v: V)
    requires
        distinct_keys(s),
        0 <= i < s.len(),
    ensures
        distinct_keys(s.update(i, (s[i].0, v))),
        assoc_map(s.update(i, (s[i].0, v))) == assoc_map(s).insert(s[i].0, v),
    decreases s.len(),
{
    let t = s.update(i, (s[i].0, v));
    assert(distinct_keys(t));
    if i == s.len() - 1 {
        assert(t.drop_last() =~= s.drop_last());
        assert(assoc_map(t) =~= assoc_map(s).insert(s[i].0, v));
    } else {
        assert(t.drop_last() =~= s.drop_last().update(i, (s[i].0, v)));
        lemma_assoc_map_update(s.drop_last(), i, v);
        assert(s[i].0 != s.last().0);
        assert(assoc_map(t) =~= assoc_map(s).insert(s[i].0, v));
    }
}

/// A key that is not in `s` yet can be added at the end.
proof fn lemma_push_new_key<V>(s: Seq<(TilePos, V)>, k: TilePos, v: V)
    requires
        distinct_keys(s),
        !assoc_map(s).contains_key(k),
    ensures
        distinct_keys(s.push((k, v))),
        assoc_map(s.push((k, v))) == assoc_map(s).insert(k, v),
{
    lemma_assoc_map_keys(s, k);
    assert forall|i: int, j: int| 0 <= i < j < s.push((k, v)).len() implies #[trigger] s.push((k, v))[i].0
        != #[trigger] s.push((k, v))[j].0 by {
        if j == s.len() {
            assert(s[i].0 != k);
        }
    }
    assert(s.push((k, v)).drop_last() =~= s);
}

/// Built tiles, by position, with the number of times each was used this
/// frame; `None` for a tile that is being built.
pub struct TileCache<I> {
    cache: Vec<(TilePos, Option<(I, u32)>)>,
}

impl<I> View for TileCache<I> {
    type V = Map<TilePos, Option<(I, u32)>>;

    closed spec fn view(&self) -> Map<TilePos, Option<(I, u32)>> {
        assoc_map(self.cache@)
    }
}

impl<I> TileCache<I> {
    /// No position is stored twice.
    pub closed spec fn wf(&self) -> bool {
        distinct_keys(self.cache@)
    }

    pub fn new() -> (c: TileCache<I>)
        ensures
            c.wf(),
            c@ == Map::<TilePos, Option<(I, u32)>>::empty(),
    {
        TileCache { cache: Vec::new() }
    }

    /// The place of `p` in the list, if it is there.
    fn find(&self, p: &TilePos) -> (r: Option<usize>)
        requires
            self.wf(),
        ensures
            r is None ==> !self@.contains_key(*p),
            r matches Some(i) ==> i < self.cache@.len() && self.cache@[i as int].0 == *p,
    {
        let mut i: usize = 0;
        while i < self.cache.len()
            invariant
                i <= self.cache@.len(),
                forall|j: int| 0 <= j < i ==> self.cache@[j].0 != *p,
            decreases self.cache@.len() - i,
        {
            if self.cache[i].0 == *p {
                return Some(i);
            }
            i = i + 1;
        }
        proof {
            lemma_assoc_map_keys(self.cache@, *p);
        }
        None
    }

    /// The tile is neither built nor being built, so it should be sent to a
    /// builder.
    pub fn needs_request(&self, p: &TilePos) -> (b: bool)
        requires
            self.wf(),
        ensures
            b == !self@.contains_key(*p),
    {
        match self.find(p) {
            Some(i) => {
                proof {
                    lemma_assoc_map_index(self.cache@, i as int);
                }
                false
            },
            None => true,
        }
    }

    /// Put `(k, v)` in the cache, replacing the value of `k` if it is there.
    fn store(&mut self, k: TilePos, v: Option<(I, u32)>)
        requires
            old(self).wf(),
        ensures
            final(self).wf(),
            final(self)@ == old(self)@.insert(k, v),
    {
        match self.find(&k) {
            Some(i) => {
                proof {
                    lemma_assoc_map_update(self.cache@, i as int, v);
                }
                self.cache.set(i, (k, v));
            },
            None => {
                proof {
                    lemma_push_new_key(self.cache@, k, v);
                }
                self.cache.push((k, v));
            },
        }
    }

    /// Update the cache at the end of a frame: keep the tiles that were used
    /// (their count set back to zero) and those being built, drop the others,
    /// then store the tiles that were finished, each as used once.
    pub fn update(&mut self, finished: Vec<(TilePos, I)>)
        requires
            old(self).wf(),
        ensures
            final(self).wf(),
            final(self)@ == with_finished(kept_after_frame(old(self)@), finished@),
    {
        let ghost o = self.cache@;
        let ghost om = self@;
        let mut rest: Vec<(TilePos, Option<(I, u32)>)> = Vec::new();
        core::mem::swap(&mut rest, &mut self.cache);
        let mut rest = reversed(rest);
        proof {
            assert(o.take(0) =~= Seq::<(TilePos, Option<(I, u32)>)>::empty());
            assert(kept_after_frame(assoc_map(o.take(0))) =~= Map::<TilePos, Option<(I, u32)>>::empty());
        }
        while rest.len() > 0
            invariant
                distinct_keys(o),
                om == assoc_map(o),
                rev(rest@) == o.subrange(o.len() - rest@.len(), o.len() as int),
                rest@.len() <= o.len(),
                self.wf(),
                self@ == kept_after_frame(assoc_map(o.take(o.len() - rest@.len()))),
                forall|e: int|
                    0 <= e < self.cache@.len() ==> exists|j: int|
                        0 <= j < o.len() - rest@.len() && #[trigger] self.cache@[e].0 == o[j].0,
            decreases rest@.len(),
        {
            let ghost r0 = rest@;
            let ghost done = o.len() - rest@.len();
            let (k, v) = rest.pop().unwrap();
            proof {
                assert(rev(r0)[0] == r0.last());
                assert(rev(rest@) =~= rev(r0).subrange(1, rev(r0).len() as int));
                assert(o[done] == (k, v));
                assert(o.take(done + 1).drop_last() =~= o.take(done));
                assert forall|e: int| 0 <= e < self.cache@.len() implies #[trigger] self.cache@[e].0 != k by {
                    let j = choose|j: int| 0 <= j < done && #[trigger] self.cache@[e].0 == o[j].0;
                    assert(o[j].0 != o[done].0);
                }
                lemma_assoc_map_keys(o.take(done), k);
                assert(!assoc_map(o.take(done)).contains_key(k)) by {
                    if assoc_map(o.take(done)).contains_key(k) {
                        let j = choose|j: int| 0 <= j < o.take(done).len() && #[trigger] o.take(done)[j].0 == k;
                        assert(o[j].0 == o[done].0);
                    }
                }
            }
            let ghost cache_before = self.cache@;
            match v {
                Some((img, cnt)) => {
                    if cnt > 0 {
                        proof {
                            lemma_push_new_key(self.cache@, k, Some((img, 0u32)));
                            assert(kept_after_frame(assoc_map(o.take(done + 1))) =~= kept_after_frame(
                                assoc_map(o.take(done)),
                            ).insert(k, Some((img, 0u32))));
                        }
                        self.cache.push((k, Some((img, 0))));
                    } else {
                        proof {
                            assert(kept_after_frame(assoc_map(o.take(done + 1))) =~= kept_after_frame(
                                assoc_map(o.take(done)),
                            ));
                        }
                    }
                },
                None => {
                    proof {
                        lemma_push_new_key(self.cache@, k, None);
                        assert(kept_after_frame(assoc_map(o.take(done + 1))) =~= kept_after_frame(
                            assoc_map(o.take(done)),
                        ).insert(k, None));
                    }
                    self.cache.push((k, None));
                },
            }
            proof {
                assert forall|e: int| 0 <= e < self.cache@.len() implies exists|j: int|
                    0 <= j < done + 1 && #[trigger] self.cache@[e].0 == o[j].0 by {
                    if e < cache_before.len() {
                        let j = choose|j: int| 0 <= j < done && #[trigger] cache_before[e].0 == o[j].0;
                        assert(self.cache@[e].0 == o[j].0);
                    } else {
                        assert(self.cache@[e].0 == o[done].0);
                    }
                }
            }
        }
        proof {
            assert(o.take(o.len() as int) =~= o);
        }
        let ghost kept = self@;
        let mut finished = reversed(finished);
        let ghost f = rev(finished@);
        while finished.len() > 0
            invariant
                self.wf(),
                rev(finished@) == f.subrange(f.len() - finished@.len(), f.len() as int),
                finished@.len() <= f.len(),
                self@ == with_finished(kept, f.take(f.len() - finished@.len())),
            decreases finished@.len(),
        {
            let ghost r0 = finished@;
            let ghost done = f.len() - finished@.len();
            let (k, img) = finished.pop().unwrap();
            proof {
                assert(rev(r0)[0] == r0.last());
                assert(rev(finished@) =~= rev(r0).subrange(1, rev(r0).len() as int));
                assert(f.take(done + 1).drop_last() =~= f.take(done));
                assert(f.take(done + 1).last() == (k, img));
            }
            self.store(k, Some((img, 1)));
        }
        proof {
            assert(f.take(f.len() as int) =~= f);
        }
    }

    /// Either return a cached tile, counting the use, or note that the tile
    /// is being built. `sent` tells whether the tile was sent to a builder
    /// just now (which is only tried for a tile that `needs_request`): a
    /// tile that was sent is not asked for again.
    pub fn tile(&mut self, p: &TilePos, sent: bool) -> (r: Option<&I>)
        requires
            old(self).wf(),
            old(self)@.contains_key(*p) ==> (old(self)@[*p] matches Some((_, c)) ==> c < u32::MAX),
        ensures
            final(self).wf(),
            !old(self)@.contains_key(*p) ==> r is None && final(self)@ == if sent {
                old(self)@.insert(*p, None)
            } else {
                old(self)@
            },
            old(self)@.contains_key(*p) ==> match old(self)@[*p] {
                Some((img, c)) => {
                    &&& r matches Some(x) && *x == img
                    &&& final(self)@ == old(self)@.insert(*p, Some((img, (c + 1) as u32)))
                },
                None => r is None && final(self)@ == old(self)@,
            },
    {
        match self.find(p) {
            None => {
                if sent {
                    proof {
                        assert forall|i: int, j: int|
                            0 <= i < j < self.cache@.push((*p, None)).len() implies #[trigger] self.cache@.push(
                            (*p, None),
                        )[i].0 != #[trigger] self.cache@.push((*p, None))[j].0 by {
                            if j == self.cache@.len() {
                                lemma_assoc_map_keys(self.cache@, *p);
                                assert(self.cache@[i].0 != *p);
                            }
                        }
                        assert(self.cache@.push((*p, None)).drop_last() =~= self.cache@);
                    }
                    self.cache.push((*p, None));
                }
                None
            },
            Some(i) => {
                proof {
                    lemma_assoc_map_index(self.cache@, i as int);
                }
                let ghost s = self.cache@;
                let used = match &self.cache[i].1 {
                    Some(_) => true,
                    None => false,
                };
                if !used {
                    return None;
                }
                {
                    let entry = &mut self.cache[i];
                    match &mut entry.1 {
                        Some(pair) => {
                            pair.1 = pair.1 + 1;
                        },
                        None => {},
                    }
                }
                proof {
                    let (img, c) = s[i as int].1->Some_0;
                    assert(self.cache@ == s.update(i as int, (*p, Some((img, (c + 1) as u32)))));
                    lemma_assoc_map_update(s, i as int, Some((img, (c + 1) as u32)));
                }
                match &self.cache[i].1 {
                    Some((img, _)) => Some(img),
                    None => None,
                }
            },
        }
    }
}

} // verus!
