use vstd::prelude::*;
use crate::fractal::builder::{TileRequest, request_rank, lemma_request_rank};
use crate::util::compare_iter::{CompareIter, ComparedValue, reversed, rev};
use crate::fractal::builder::TileParams;
use crate::tilemap::pos::TilePos;
use crate::util::compare_iter::Order;

verus! {

/// The state of one tile: still to be built, being built, or built into a `T`.
#[derive(Debug)]
pub enum Task<T> {
    Todo,
    Doing,
    Done(T),
}

/// Entries whose keys strictly increase in the order of `request_rank`.
pub open spec fn sorted_entries<T>(s: Seq<(TileRequest, T)>) -> bool {
    forall|i: int, j: int| 0 <= i < j < s.len() ==> request_rank(#[trigger] s[i].0) < request_rank(
        #[trigger] s[j].0,
    )
}

/// Some entry of `s` has the key `k`.
pub open spec fn has_key<T>(s: Seq<(TileRequest, T)>, k: TileRequest) -> bool {
    exists|i: int| 0 <= i < s.len() && #[trigger] s[i].0 == k
}

/// The map from each key of `s` to the value stored beside it.
pub open spec fn entries_map<T>(s: Seq<(TileRequest, T)>) -> Map<TileRequest, T> {
    Map::new(
        |k: TileRequest| has_key(s, k),
        |k: TileRequest| s[choose|i: int| 0 <= i < s.len() && #[trigger] s[i].0 == k].1,
    )
}

/// In sorted entries each key occurs once, so the map holds the value beside it.
pub proof fn lemma_entries_map_index<T>(s: Seq<(TileRequest, T)>, i: int)
    requires
        sorted_entries(s),
        0 <= i < s.len(),
    ensures
        entries_map(s).contains_key(s[i].0),
        entries_map(s)[s[i].0] == s[i].1,
{
    let k = s[i].0;
    assert(has_key(s, k));
    let j = choose|j: int| 0 <= j < s.len() && #[trigger] s[j].0 == k;
    if j < i {
        assert(request_rank(s[j].0) < request_rank(s[i].0));
    } else if i < j {
        assert(request_rank(s[i].0) < request_rank(s[j].0));
    }
}

/// Remembers generated tiles, and adds new ones.
pub struct TileStorage<T> {
    /// the entries, ordered by key
    tiles: Vec<(TileRequest, Task<T>)>,
}

impl<T> View for TileStorage<T> {
    type V = Map<TileRequest, Task<T>>;

    closed spec fn view(&self) -> Map<TileRequest, Task<T>> {
        entries_map(self.tiles@)
    }
}

impl<T> TileStorage<T> {
    /// The entries in increasing order of their keys.
    pub closed spec fn entries(&self) -> Seq<(TileRequest, Task<T>)> {
        self.tiles@
    }

    /// The entries are ordered by key, and the map is made of them.
    pub closed spec fn wf(&self) -> bool {
        sorted_entries(self.tiles@)
    }

    /// A storage's entries are ordered by key, each key once, and its map is
    /// made of them.
    pub proof fn law_view_of_entries(&self)
        requires
            self.wf(),
        ensures
            sorted_entries(self.entries()),
            self@ == entries_map(self.entries()),
    {
    }

    pub fn new() -> (s: Self)
        ensures
            s.wf(),
            s@ == Map::<TileRequest, Task<T>>::empty(),
            s.entries().len() == 0,
    {
        let s = TileStorage { tiles: Vec::new() };
        assert(s@ =~= Map::<TileRequest, Task<T>>::empty());
        s
    }

    /// The stored entries, in increasing order of their keys.
    pub fn iter(&self) -> (r: &[(TileRequest, Task<T>)])
        ensures
            r@ == self.entries(),
    {
        self.tiles.as_slice()
    }

    /// The task of `k`, to be changed in place.
    pub fn get_mut(&mut self, k: &TileRequest) -> (r: Option<&mut Task<T>>)
        requires
            old(self).wf(),
        ensures
            final(self).wf(),
            r is Some == old(self)@.contains_key(*k),
            r is None ==> final(self)@ == old(self)@,
            r matches Some(t) ==> *t == old(self)@[*k],
            r matches Some(t) ==> final(self)@ == old(self)@.insert(*k, *final(t)),
    {
        let ghost s = self.tiles@;
        let n = self.tiles.len();
        let mut i: usize = 0;
        while i < n
            invariant
                i <= n,
                n == self.tiles@.len(),
                self.tiles@ == s,
                old(self).tiles@ == s,
                sorted_entries(s),
                forall|j: int| 0 <= j < i ==> s[j].0 != *k,
            decreases n - i,
        {
            if self.tiles[i].0.same(k) {
                proof {
                    lemma_entries_map_index(s, i as int);
                }
                let entry = &mut self.tiles[i];
                let r = &mut entry.1;
                proof {
                    lemma_entries_map_update(s, i as int, *k, *final(r));
                }
                return Some(r);
            }
            i = i + 1;
        }
        proof {
            assert(!has_key(s, *k));
        }
        None
    }

    /// The task of the `i`-th entry in key order, to be changed in place; the
    /// entries are walked by counting `i` up from zero, their keys through `iter`.
    pub fn iter_mut(&mut self, i: usize) -> (r: Option<&mut Task<T>>)
        requires
            old(self).wf(),
        ensures
            final(self).wf(),
            r is Some == (i < old(self).entries().len()),
            r is None ==> final(self).entries() == old(self).entries(),
            r matches Some(t) ==> *t == old(self).entries()[i as int].1,
            r matches Some(t) ==> final(self).entries() == old(self).entries().update(
                i as int,
                (old(self).entries()[i as int].0, *final(t)),
            ),
    {
        if i < self.tiles.len() {
            let ghost s = self.tiles@;
            let entry = &mut self.tiles[i];
            let r = &mut entry.1;
            proof {
                lemma_entries_map_update(s, i as int, s[i as int].0, *final(r));
            }
            Some(r)
        } else {
            None
        }
    }

    /// Mark the first entry in key order that is still to be built as being
    /// built, and give its key; `None` when no entry is left to build.
    pub fn start_next_todo(&mut self) -> (r: Option<TileRequest>)
        requires
            old(self).wf(),
        ensures
            final(self).wf(),
            r is None ==> final(self).entries() == old(self).entries() && forall|j: int|
                0 <= j < old(self).entries().len() ==> !(#[trigger] old(self).entries()[j].1 is Todo),
            r matches Some(k) ==> exists|i: int|
                #![trigger old(self).entries()[i]]
                {
                    &&& 0 <= i < old(self).entries().len()
                    &&& old(self).entries()[i].0 == k
                    &&& old(self).entries()[i].1 is Todo
                    &&& forall|j: int| 0 <= j < i ==> !(#[trigger] old(self).entries()[j].1 is Todo)
                    &&& final(self).entries() == old(self).entries().update(i, (k, Task::Doing))
                },
    {
        let n = self.tiles.len();
        let mut i: usize = 0;
        while i < n
            invariant
                i <= n,
                n == self.tiles@.len(),
                *self == *old(self),
                self.wf(),
                forall|j: int| 0 <= j < i ==> !(#[trigger] self.tiles@[j].1 is Todo),
            decreases n - i,
        {
            let is_todo = match &self.tiles[i].1 {
                Task::Todo => true,
                _ => false,
            };
            if is_todo {
                let k = self.tiles[i].0;
                let ghost s = self.tiles@;
                self.tiles.set(i, (k, Task::Doing));
                proof {
                    lemma_entries_map_update(s, i as int, k, Task::Doing);
                    assert(s[i as int].0 == k);
                }
                return Some(k);
            }
            i = i + 1;
        }
        None
    }

    /// Set the task of `k` to `v`, adding `k` if it is not there yet.
    fn insert(&mut self, k: TileRequest, v: Task<T>)
        requires
            old(self).wf(),
        ensures
            final(self).wf(),
            final(self)@ == old(self)@.insert(k, v),
    {
        let ghost s = self.tiles@;
        let n = self.tiles.len();
        // find the first entry whose key is not below k, starting from the end,
        // as keys mostly arrive in increasing order
        let mut i = n;
        while i > 0
            invariant
                i <= n,
                n == self.tiles@.len(),
                self.tiles@ == s,
                sorted_entries(s),
                forall|j: int| i <= j < n ==> request_rank(k) <= request_rank(#[trigger] s[j].0),
            ensures
                i <= n,
                forall|j: int| i <= j < n ==> request_rank(k) <= request_rank(#[trigger] s[j].0),
                forall|j: int| 0 <= j < i ==> request_rank(#[trigger] s[j].0) < request_rank(k),
            decreases i,
        {
            if self.tiles[i - 1].0.less_than(&k) {
                assert forall|j: int| 0 <= j < i implies request_rank(#[trigger] s[j].0)
                    < request_rank(k) by {
                    if j < i - 1 {
                        assert(request_rank(s[j].0) < request_rank(s[i - 1].0));
                    }
                }
                break;
            }
            i = i - 1;
        }
        if i < n && k.same(&self.tiles[i].0) {
            self.tiles.set(i, (k, v));
            proof {
                lemma_entries_map_update(s, i as int, k, v);
            }
        } else {
            proof {
                if i < n {
                    lemma_request_rank(k, s[i as int].0);
                }
            }
            self.tiles.insert(i, (k, v));
            proof {
                lemma_entries_map_insert(s, i as int, k, v);
            }
        }
    }
}

/// The requests for the tiles `positions`, all with `params`.
pub open spec fn requests_for(positions: Seq<TilePos>, params: TileParams) -> Seq<TileRequest> {
    positions.map_values(|p: TilePos| TileRequest { pos: p, params })
}

/// Keys that strictly increase in the order of `request_rank`.
pub open spec fn strictly_increasing(s: Seq<TileRequest>) -> bool {
    forall|i: int, j: int| 0 <= i < j < s.len() ==> request_rank(#[trigger] s[i]) < request_rank(
        #[trigger] s[j],
    )
}

/// The built tiles among `s` whose keys are not in `keep`, in order.
pub open spec fn removed_done<T>(s: Seq<(TileRequest, Task<T>)>, keep: Seq<TileRequest>) -> Seq<
    (TileRequest, T),
>
    decreases s.len(),
{
    if s.len() == 0 {
        Seq::empty()
    } else {
        let rest = removed_done(s.drop_last(), keep);
        let last = s.last();
        match last.1 {
            Task::Done(v) => if keep.contains(last.0) {
                rest
            } else {
                rest.push((last.0, v))
            },
            _ => rest,
        }
    }
}

/// The map that walking the stored entries `o` and the new keys `n` side by
/// side makes, starting from `acc`: at each step the first remaining entry
/// and key are compared by key; an entry that comes first is dropped, a key
/// that comes first is added as `Task::Todo`, and an entry whose key is the
/// key is kept with its task. When one side is used up the rest of the other
/// is walked alone.
pub open spec fn walk_map<T>(
    o: Seq<(TileRequest, Task<T>)>,
    n: Seq<TileRequest>,
    acc: Map<TileRequest, Task<T>>,
) -> Map<TileRequest, Task<T>>
    decreases o.len() + n.len(),
{
    if o.len() == 0 && n.len() == 0 {
        acc
    } else if o.len() == 0 {
        walk_map(o, n.drop_first(), acc.insert(n[0], Task::Todo))
    } else if n.len() == 0 || request_rank(o[0].0) < request_rank(n[0]) {
        walk_map(o.drop_first(), n, acc)
    } else if o[0].0 == n[0] {
        walk_map(o.drop_first(), n.drop_first(), acc.insert(o[0].0, o[0].1))
    } else {
        walk_map(o, n.drop_first(), acc.insert(n[0], Task::Todo))
    }
}

/// The built tiles that the same walk drops, in the order it drops them.
pub open spec fn walk_removed<T>(o: Seq<(TileRequest, Task<T>)>, n: Seq<TileRequest>) -> Seq<
    (TileRequest, T),
>
    decreases o.len() + n.len(),
{
    if o.len() == 0 && n.len() == 0 {
        Seq::empty()
    } else if o.len() == 0 {
        walk_removed(o, n.drop_first())
    } else if n.len() == 0 || request_rank(o[0].0) < request_rank(n[0]) {
        let rest = walk_removed(o.drop_first(), n);
        match o[0].1 {
            Task::Done(v) => seq![(o[0].0, v)] + rest,
            _ => rest,
        }
    } else if o[0].0 == n[0] {
        walk_removed(o.drop_first(), n.drop_first())
    } else {
        walk_removed(o, n.drop_first())
    }
}

impl<T> TileStorage<T> {
    /// Store exactly the tiles `positions` (with `params`), as `update_with`
    /// does, and hand back the textures of the built tiles that are no longer
    /// wanted, in the order they were dropped, for the caller to free.
    pub fn update_tiles(&mut self, params: TileParams, positions: &[TilePos]) -> (freed: Vec<T>)
        requires
            old(self).wf(),
        ensures
            final(self).wf(),
            freed@ == walk_removed(old(self).entries(), requests_for(positions@, params)).map_values(
                |e: (TileRequest, T)| e.1,
            ),
            final(self)@ == walk_map(old(self).entries(), requests_for(positions@, params), Map::empty()),
            forall|k: TileRequest| #[trigger] final(self)@.contains_key(k) == requests_for(
                positions@,
                params,
            ).contains(k),
            forall|k: TileRequest| #[trigger] final(self)@.contains_key(k) ==> (final(self)@[k] is Todo
                || (old(self)@.contains_key(k) && final(self)@[k] == old(self)@[k])),
            strictly_increasing(requests_for(positions@, params)) ==> forall|k: TileRequest|
                #[trigger] final(self)@.contains_key(k) ==> final(self)@[k] == if old(self)@.contains_key(
                k,
            ) {
                old(self)@[k]
            } else {
                Task::Todo
            },
    {
        let mut requests: Vec<TileRequest> = Vec::new();
        let n = positions.len();
        let mut i: usize = 0;
        while i < n
            invariant
                i <= n,
                n == positions@.len(),
                requests@ == requests_for(positions@, params).take(i as int),
            decreases n - i,
        {
            requests.push(TileRequest { pos: positions[i], params });
            i = i + 1;
            proof {
                assert(requests@ =~= requests_for(positions@, params).take(i as int));
            }
        }
        proof {
            assert(requests@ =~= requests_for(positions@, params));
        }
        let removed = self.update_with(requests);
        let ghost r0 = removed@;
        let mut removed = reversed(removed);
        let mut freed: Vec<T> = Vec::new();
        while removed.len() > 0
            invariant
                rev(removed@) == r0.subrange(freed@.len() as int, r0.len() as int),
                freed@ == r0.take(freed@.len() as int).map_values(|e: (TileRequest, T)| e.1),
                freed@.len() <= r0.len(),
            decreases removed@.len(),
        {
            let ghost d = removed@;
            let (_, t) = removed.pop().unwrap();
            proof {
                assert(rev(d)[0] == d.last());
                assert(rev(removed@) =~= rev(d).subrange(1, rev(d).len() as int));
                assert(r0[freed@.len() as int].1 == t);
            }
            freed.push(t);
            proof {
                assert(freed@ =~= r0.take(freed@.len() as int).map_values(|e: (TileRequest, T)| e.1));
            }
        }
        proof {
            assert(rev(removed@).len() == 0);
            assert(r0.take(r0.len() as int) =~= r0);
        }
        freed
    }

    /// Make the stored tiles those of `new_iter`: tiles that were stored already
    /// keep their task, new ones get `Task::Todo`, and the others are dropped.
    /// The built tiles that were dropped are handed back, so that their texture
    /// can be freed.
    ///
    /// The old entries and the new keys are walked side by side, as
    /// `walk_map` and `walk_removed` describe; `new_iter` is meant to be in
    /// increasing order, and then the result is exactly as said above. For a
    /// `new_iter` in another order the stored keys are still those of
    /// `new_iter`, and each one's task is either its old one or `Task::Todo`.
    pub fn update_with(&mut self, new_iter: Vec<TileRequest>) -> (removed: Vec<(TileRequest, T)>)
        requires
            old(self).wf(),
        ensures
            final(self).wf(),
            forall|k: TileRequest| #[trigger] final(self)@.contains_key(k) == new_iter@.contains(k),
            forall|k: TileRequest| #[trigger] final(self)@.contains_key(k) ==> (final(self)@[k] is Todo
                || (old(self)@.contains_key(k) && final(self)@[k] == old(self)@[k])),
            forall|i: int| 0 <= i < removed@.len() ==> old(self)@.contains_key(#[trigger] removed@[i].0)
                && old(self)@[removed@[i].0] == Task::Done(removed@[i].1),
            final(self)@ == walk_map(old(self).entries(), new_iter@, Map::empty()),
            removed@ == walk_removed(old(self).entries(), new_iter@),
            strictly_increasing(new_iter@) ==> removed@ == removed_done(
                old(self).entries(),
                new_iter@,
            ),
            strictly_increasing(new_iter@) ==> forall|k: TileRequest| #[trigger] final(self)@.contains_key(k)
                ==> final(self)@[k] == if old(self)@.contains_key(k) {
                old(self)@[k]
            } else {
                Task::Todo
            },
    {
        let ghost om = self@;
        let ghost o = self.tiles@;
        let ghost n = new_iter@;
        let ghost sorted_n = strictly_increasing(n);
        let mut previous = TileStorage::new();
        core::mem::swap(self, &mut previous);
        let f = |l: &(TileRequest, Task<T>), r: &TileRequest| -> (c: Order)
            ensures
                (c == Order::Less) == (request_rank(l.0) < request_rank(*r)),
                (c == Order::Equal) == (l.0 == *r),
                (c == Order::Greater) == (request_rank(l.0) > request_rank(*r)),
            { l.0.compare(r) };
        let ghost gf = f;
        let mut it = CompareIter::new(previous.tiles, new_iter, f);
        let mut removed: Vec<(TileRequest, T)> = Vec::new();
        proof {
            assert(removed@ + walk_removed(o, n) =~= walk_removed(o, n));
            assert(self@ =~= Map::<TileRequest, Task<T>>::empty());
        }
        loop
            invariant
                sorted_entries(o),
                om == entries_map(o),
                sorted_n == strictly_increasing(n),
                it.comparable(),
                it.comparator() == gf,
                forall|l: &(TileRequest, Task<T>), r: &TileRequest, c: Order|
                    #[trigger] call_ensures(gf, (l, r), c) ==> {
                        &&& (c == Order::Less) == (request_rank(l.0) < request_rank(*r))
                        &&& (c == Order::Equal) == (l.0 == *r)
                        &&& (c == Order::Greater) == (request_rank(l.0) > request_rank(*r))
                    },
                it.left_rest().len() <= o.len(),
                it.right_rest().len() <= n.len(),
                it.left_rest() == o.subrange(o.len() - it.left_rest().len(), o.len() as int),
                it.right_rest() == n.subrange(n.len() - it.right_rest().len(), n.len() as int),
                self.wf(),
                walk_map(o, n, Map::empty()) == walk_map(it.left_rest(), it.right_rest(), self@),
                walk_removed(o, n) == removed@ + walk_removed(it.left_rest(), it.right_rest()),
                forall|k: TileRequest| #[trigger] self@.contains_key(k) == n.take(
                    n.len() - it.right_rest().len(),
                ).contains(k),
                forall|k: TileRequest| #[trigger] self@.contains_key(k) ==> (self@[k] is Todo || (
                om.contains_key(k) && self@[k] == om[k])),
                forall|i: int| 0 <= i < removed@.len() ==> om.contains_key(
                    #[trigger] removed@[i].0,
                ) && om[removed@[i].0] == Task::Done(removed@[i].1),
                sorted_n ==> removed@ == removed_done(
                    o.take(o.len() - it.left_rest().len()),
                    n,
                ),
                sorted_n ==> forall|k: TileRequest| #[trigger] self@.contains_key(k) ==> self@[k]
                    == if om.contains_key(k) {
                    om[k]
                } else {
                    Task::Todo
                },
                sorted_n ==> forall|a: int, j: int|
                    0 <= a < n.len() - it.right_rest().len() && o.len() - it.left_rest().len() <= j
                        < o.len() ==> request_rank(#[trigger] n[a]) < request_rank(#[trigger] o[j].0),
                sorted_n ==> forall|j: int, m: int|
                    0 <= j < o.len() - it.left_rest().len() && n.len() - it.right_rest().len() <= m
                        < n.len() ==> request_rank(#[trigger] o[j].0) < request_rank(#[trigger] n[m]),
            ensures
                self.wf(),
                self@ == walk_map(o, n, Map::empty()),
                removed@ == walk_removed(o, n),
                forall|k: TileRequest| #[trigger] self@.contains_key(k) == n.contains(k),
                forall|k: TileRequest| #[trigger] self@.contains_key(k) ==> (self@[k] is Todo || (
                om.contains_key(k) && self@[k] == om[k])),
                forall|i: int| 0 <= i < removed@.len() ==> om.contains_key(
                    #[trigger] removed@[i].0,
                ) && om[removed@[i].0] == Task::Done(removed@[i].1),
                sorted_n ==> removed@ == removed_done(o, n),
                sorted_n ==> forall|k: TileRequest| #[trigger] self@.contains_key(k) ==> self@[k]
                    == if om.contains_key(k) {
                    om[k]
                } else {
                    Task::Todo
                },
            decreases it.left_rest().len() + it.right_rest().len(),
        {
            let ghost lr = it.left_rest();
            let ghost rr = it.right_rest();
            let ghost pl = o.len() - lr.len();
            let ghost pr = n.len() - rr.len();
            match it.next() {
                None => {
                    proof {
                        assert(o.take(o.len() as int) =~= o);
                        assert(n.take(n.len() as int) =~= n);
                        assert(removed@ + walk_removed(lr, rr) =~= removed@);
                    }
                    break;
                },
                Some(ComparedValue::Left((k, v))) => {
                    proof {
                        assert(lr[0] == o[pl]);
                        if rr.len() > 0 {
                            assert(call_ensures(gf, (&lr[0], &rr[0]), Order::Less));
                            assert(request_rank(lr[0].0) < request_rank(rr[0]));
                            assert(lr[0].0 == k);
                        }
                        assert(walk_map(lr, rr, self@) == walk_map(lr.drop_first(), rr, self@));
                        lemma_entries_map_index(o, pl);
                        if sorted_n {
                            assert forall|m: int| 0 <= m < n.len() implies n[m] != k by {
                                if m < pr {
                                    assert(request_rank(n[m]) < request_rank(o[pl].0));
                                } else {
                                    assert(rr[m - pr] == n[m]);
                                    assert(request_rank(k) < request_rank(rr[0]));
                                    if m > pr {
                                        assert(request_rank(n[pr]) < request_rank(n[m]));
                                    }
                                }
                            }
                            assert(!n.contains(k));
                            assert(o.take(pl + 1).drop_last() =~= o.take(pl));
                            assert forall|j: int, m: int|
                                0 <= j < pl + 1 && pr <= m < n.len() implies request_rank(
                                #[trigger] o[j].0,
                            ) < request_rank(#[trigger] n[m]) by {
                                if j == pl {
                                    assert(rr[m - pr] == n[m]);
                                    assert(request_rank(k) < request_rank(rr[0]));
                                    if m > pr {
                                        assert(request_rank(n[pr]) < request_rank(n[m]));
                                    }
                                }
                            }
                        }
                    }
                    let ghost removed_before = removed@;
                    proof {
                        assert(lr[0] == (k, v));
                    }
                    match v {
                        Task::Done(t) => {
                            removed.push((k, t));
                            proof {
                                assert(walk_removed(lr, rr) == seq![(k, t)] + walk_removed(lr.drop_first(), rr));
                                assert(removed@ + walk_removed(lr.drop_first(), rr) =~= removed_before
                                    + (seq![(k, t)] + walk_removed(lr.drop_first(), rr)));
                            }
                        },
                        _ => {
                            proof {
                                assert(walk_removed(lr, rr) == walk_removed(lr.drop_first(), rr));
                            }
                        },
                    }
                },
                Some(ComparedValue::Right(r)) => {
                    proof {
                        assert(rr[0] == n[pr]);
                        assert(n.take(pr + 1) =~= n.take(pr).push(r));
                        if lr.len() > 0 {
                            assert(call_ensures(gf, (&lr[0], &rr[0]), Order::Greater));
                            assert(request_rank(lr[0].0) > request_rank(rr[0]));
                            assert(lr[0].0 != rr[0]);
                        }
                        assert(walk_map(lr, rr, self@) == walk_map(lr, rr.drop_first(), self@.insert(r, Task::Todo)));
                        assert(walk_removed(lr, rr) == walk_removed(lr, rr.drop_first()));
                        if sorted_n {
                            assert forall|j: int| 0 <= j < o.len() implies o[j].0 != r by {
                                if j >= pl {
                                    assert(lr[j - pl] == o[j]);
                                    assert(request_rank(lr[0].0) > request_rank(r));
                                    if j > pl {
                                        assert(request_rank(o[pl].0) < request_rank(o[j].0));
                                    }
                                } else {
                                    assert(request_rank(o[j].0) < request_rank(n[pr]));
                                }
                            }
                            assert(!om.contains_key(r));
                        }
                    }
                    self.insert(r, Task::Todo);
                    proof {
                        assert forall|x: TileRequest| #[trigger] self@.contains_key(x) == n.take(pr + 1).contains(x) by {
                            lemma_take_one_more(n, pr, x);
                        }
                        if sorted_n {
                            assert forall|a: int, j: int|
                                0 <= a < pr + 1 && pl <= j < o.len() implies request_rank(
                                #[trigger] n[a],
                            ) < request_rank(#[trigger] o[j].0) by {
                                if a == pr {
                                    assert(lr[j - pl] == o[j]);
                                    assert(request_rank(lr[0].0) > request_rank(r));
                                    if j > pl {
                                        assert(request_rank(o[pl].0) < request_rank(o[j].0));
                                    }
                                }
                            }
                        }
                    }
                },
                Some(ComparedValue::Both((k, v), r)) => {
                    proof {
                        assert(lr[0] == o[pl]);
                        assert(rr[0] == n[pr]);
                        assert(k == r);
                        assert(lr[0] == (k, v));
                        lemma_request_rank(k, r);
                        assert(walk_map(lr, rr, self@) == walk_map(lr.drop_first(), rr.drop_first(), self@.insert(k, v)));
                        assert(walk_removed(lr, rr) == walk_removed(lr.drop_first(), rr.drop_first()));
                        lemma_entries_map_index(o, pl);
                        assert(n.take(pr + 1) =~= n.take(pr).push(r));
                        if sorted_n {
                            assert(o.take(pl + 1).drop_last() =~= o.take(pl));
                            assert forall|m: int| 0 <= m < n.len() implies n[m] != k || m == pr by {
                                if m < pr {
                                    assert(request_rank(n[m]) < request_rank(o[pl].0));
                                } else if m > pr {
                                    assert(request_rank(n[pr]) < request_rank(n[m]));
                                }
                            }
                            assert(n.contains(k));
                            assert forall|a: int, j: int|
                                0 <= a < pr + 1 && pl + 1 <= j < o.len() implies request_rank(
                                #[trigger] n[a],
                            ) < request_rank(#[trigger] o[j].0) by {
                                if a == pr {
                                    assert(request_rank(o[pl].0) < request_rank(o[j].0));
                                }
                            }
                            assert forall|j: int, m: int|
                                0 <= j < pl + 1 && pr + 1 <= m < n.len() implies request_rank(
                                #[trigger] o[j].0,
                            ) < request_rank(#[trigger] n[m]) by {
                                if j == pl {
                                    assert(request_rank(n[pr]) < request_rank(n[m]));
                                }
                            }
                        }
                    }
                    self.insert(k, v);
                    proof {
                        assert forall|x: TileRequest| #[trigger] self@.contains_key(x) == n.take(pr + 1).contains(x) by {
                            lemma_take_one_more(n, pr, x);
                        }
                    }
                },
            }
        }
        removed
    }
}


/// Taking one more key of `n` adds that key.
proof fn lemma_take_one_more(n: Seq<TileRequest>, p: int, k: TileRequest)
    requires
        0 <= p < n.len(),
    ensures
        n.take(p + 1).contains(k) == (n.take(p).contains(k) || k == n[p]),
{
    let a = n.take(p);
    let b = n.take(p + 1);
    if a.contains(k) {
        let w = choose|w: int| 0 <= w < a.len() && #[trigger] a[w] == k;
        assert(b[w] == k);
    }
    if k == n[p] {
        assert(b[p] == k);
    }
    if b.contains(k) {
        let w = choose|w: int| 0 <= w < b.len() && #[trigger] b[w] == k;
        if w < p {
            assert(a[w] == k);
        }
    }
}

/// Replacing the value of an existing key in sorted entries.
proof fn lemma_entries_map_update<T>(s: Seq<(TileRequest, T)>, i: int, k: TileRequest, v: T)
    requires
        sorted_entries(s),
        0 <= i < s.len(),
        s[i].0 == k,
    ensures
        sorted_entries(s.update(i, (k, v))),
        entries_map(s.update(i, (k, v))) == entries_map(s).insert(k, v),
{
    let t = s.update(i, (k, v));
    assert(sorted_entries(t));
    assert forall|x: TileRequest| entries_map(t).contains_key(x) == entries_map(s).insert(
        k,
        v,
    ).contains_key(x) by {
        if x == k {
            assert(t[i].0 == k);
            assert(has_key(t, k));
        }
        if has_key(s, x) {
            let j = choose|j: int| 0 <= j < s.len() && #[trigger] s[j].0 == x;
            assert(t[j].0 == x);
            assert(has_key(t, x));
        }
        if has_key(t, x) {
            let j = choose|j: int| 0 <= j < t.len() && #[trigger] t[j].0 == x;
            assert(s[j].0 == x);
            assert(has_key(s, x));
        }
    }
    assert forall|x: TileRequest| #[trigger] entries_map(t).contains_key(x) implies entries_map(
        t,
    )[x] == entries_map(s).insert(k, v)[x] by {
        let j = choose|j: int| 0 <= j < t.len() && #[trigger] t[j].0 == x;
        lemma_entries_map_index(t, j);
        if j != i {
            lemma_entries_map_index(s, j);
        }
    }
    assert(entries_map(t) =~= entries_map(s).insert(k, v));
}

/// Adding a new key at its place in sorted entries.
proof fn lemma_entries_map_insert<T>(s: Seq<(TileRequest, T)>, i: int, k: TileRequest, v: T)
    requires
        sorted_entries(s),
        0 <= i <= s.len(),
        forall|j: int| 0 <= j < i ==> request_rank(#[trigger] s[j].0) < request_rank(k),
        i < s.len() ==> request_rank(k) < request_rank(s[i].0),
    ensures
        sorted_entries(s.insert(i, (k, v))),
        entries_map(s.insert(i, (k, v))) == entries_map(s).insert(k, v),
{
    let t = s.insert(i, (k, v));
    assert(sorted_entries(t)) by {
        assert forall|a: int, b: int| 0 <= a < b < t.len() implies request_rank(#[trigger] t[a].0)
            < request_rank(#[trigger] t[b].0) by {
            if a < i && b > i {
                if b - 1 > i {
                    assert(request_rank(s[i].0) <= request_rank(s[b - 1].0));
                }
            } else if a == i && b - 1 > i {
                assert(request_rank(s[i].0) < request_rank(s[b - 1].0));
            }
        }
    }
    assert forall|x: TileRequest| entries_map(t).contains_key(x) == entries_map(s).insert(
        k,
        v,
    ).contains_key(x) by {
        if x == k {
            assert(t[i].0 == k);
            assert(has_key(t, k));
        }
        if has_key(s, x) {
            let j = choose|j: int| 0 <= j < s.len() && #[trigger] s[j].0 == x;
            if j < i {
                assert(t[j].0 == x);
            } else {
                assert(t[j + 1].0 == x);
            }
            assert(has_key(t, x));
        }
        if has_key(t, x) {
            let j = choose|j: int| 0 <= j < t.len() && #[trigger] t[j].0 == x;
            if j < i {
                assert(s[j].0 == x);
                assert(has_key(s, x));
            } else if j > i {
                assert(s[j - 1].0 == x);
                assert(has_key(s, x));
            }
        }
    }
    assert forall|x: TileRequest| #[trigger] entries_map(t).contains_key(x) implies entries_map(
        t,
    )[x] == entries_map(s).insert(k, v)[x] by {
        let j = choose|j: int| 0 <= j < t.len() && #[trigger] t[j].0 == x;
        lemma_entries_map_index(t, j);
        if j < i {
            lemma_entries_map_index(s, j);
        } else if j > i {
            lemma_entries_map_index(s, j - 1);
        }
    }
    assert(entries_map(t) =~= entries_map(s).insert(k, v));
}

/// Nothing built is dropped from entries whose keys are all kept.
proof fn lemma_removed_done_none<T>(s: Seq<(TileRequest, Task<T>)>, keep: Seq<TileRequest>)
    requires
        forall|i: int| 0 <= i < s.len() ==> keep.contains(#[trigger] s[i].0),
    ensures
        removed_done(s, keep) == Seq::<(TileRequest, T)>::empty(),
    decreases s.len(),
{
    if s.len() > 0 {
        assert forall|i: int| 0 <= i < s.drop_last().len() implies keep.contains(#[trigger] s.drop_last()[i].0) by {
            assert(s.drop_last()[i] == s[i]);
        }
        lemma_removed_done_none(s.drop_last(), keep);
        assert(keep.contains(s[s.len() - 1].0));
    }
}

/// Updating again with the same tiles changes nothing: after an update with
/// the keys `n`, the stored keys are those of `n`, so a second update with
/// `n` (strictly increasing) drops no built tile, and the map it leaves, as
/// `update_with` describes it, is the map from before.
pub proof fn law_update_again_keeps_all<T>(
    entries: Seq<(TileRequest, Task<T>)>,
    n: Seq<TileRequest>,
    after: Map<TileRequest, Task<T>>,
)
    requires
        sorted_entries(entries),
        forall|k: TileRequest| #[trigger] entries_map(entries).contains_key(k) == n.contains(k),
        forall|k: TileRequest| #[trigger] after.contains_key(k) == n.contains(k),
        forall|k: TileRequest| #[trigger] after.contains_key(k) ==> after[k] == if entries_map(
            entries,
        ).contains_key(k) {
            entries_map(entries)[k]
        } else {
            Task::Todo
        },
    ensures
        removed_done(entries, n) == Seq::<(TileRequest, T)>::empty(),
        after == entries_map(entries),
{
    assert forall|i: int| 0 <= i < entries.len() implies n.contains(#[trigger] entries[i].0) by {
        lemma_entries_map_index(entries, i);
    }
    lemma_removed_done_none(entries, n);
    assert(after =~= entries_map(entries));
}

/// A tile is handed out once: after `start_next_todo` marks the first tile
/// to build as being built, no tile up to it is still to build, so the next
/// call hands out a later one.
pub proof fn law_next_todo_moves_on<T>(entries: Seq<(TileRequest, Task<T>)>, i: int, k: TileRequest)
    requires
        0 <= i < entries.len(),
        forall|j: int| 0 <= j < i ==> !(#[trigger] entries[j].1 is Todo),
    ensures
        forall|j: int| 0 <= j <= i ==> !(#[trigger] entries.update(i, (k, Task::Doing))[j].1 is Todo),
{
    assert forall|j: int| 0 <= j <= i implies !(#[trigger] entries.update(i, (k, Task::Doing))[j].1 is Todo) by {
        if j < i {
            assert(entries.update(i, (k, Task::Doing))[j] == entries[j]);
        }
    }
}

} // verus!
