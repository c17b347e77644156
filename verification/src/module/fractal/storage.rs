use vstd::prelude::*;
use crate::fractal::builder::{TileParams, TileRequest, request_rank, lemma_request_rank};
use crate::fractal::tile::content::TileContent;
use crate::tilemap::map::{has_key, requests_for, sorted_entries, strictly_increasing};
use crate::tilemap::pos::TilePos;
use crate::util::compare_iter::{CompareIter, ComparedValue, Order, reversed, rev};

verus! {

/// The tiles to build, being built, and built but not yet stored.
pub struct TileQueue {
    pub todo: Vec<TileRequest>,
    pub doing: Vec<TileRequest>,
    pub done: Vec<(TileRequest, TileContent)>,
}

impl TileQueue {
    pub fn new() -> (q: TileQueue)
        ensures
            q.todo@ == Seq::<TileRequest>::empty(),
            q.doing@ == Seq::<TileRequest>::empty(),
            q.done@ == Seq::<(TileRequest, TileContent)>::empty(),
    {
        TileQueue { todo: Vec::new(), doing: Vec::new(), done: Vec::new() }
    }
}

/// The keys of the built tiles.
pub open spec fn done_keys(done: Seq<(TileRequest, TileContent)>) -> Seq<TileRequest> {
    done.map_values(|e: (TileRequest, TileContent)| e.0)
}

/// The entries of `o` whose key is among `n`, in order.
pub open spec fn kept_entries<T>(o: Seq<(TileRequest, T)>, n: Seq<TileRequest>) -> Seq<(TileRequest, T)>
    decreases o.len(),
{
    if o.len() == 0 {
        Seq::empty()
    } else {
        let rest = kept_entries(o.drop_last(), n);
        if n.contains(o.last().0) {
            rest.push(o.last())
        } else {
            rest
        }
    }
}

/// The requests of `n` that are neither stored in `o`, nor being built, nor
/// built already, in order.
pub open spec fn to_enqueue<T>(
    n: Seq<TileRequest>,
    o: Seq<(TileRequest, T)>,
    doing: Seq<TileRequest>,
    done: Seq<TileRequest>,
) -> Seq<TileRequest>
    decreases n.len(),
{
    if n.len() == 0 {
        Seq::empty()
    } else {
        let rest = to_enqueue(n.drop_last(), o, doing, done);
        let r = n.last();
        if !has_key(o, r) && !doing.contains(r) && !done.contains(r) {
            rest.push(r)
        } else {
            rest
        }
    }
}

/// The entries that walking the stored entries `o` and the wanted keys `n`
/// side by side keeps, in order: at each step the first remaining entry and
/// key are compared by key; an entry that comes first is dropped, a key that
/// comes first is to be built, and an entry whose key is the key is kept.
/// When one side is used up the rest of the other is walked alone.
pub open spec fn walk_kept<T>(o: Seq<(TileRequest, T)>, n: Seq<TileRequest>) -> Seq<(TileRequest, T)>
    decreases o.len() + n.len(),
{
    if o.len() == 0 && n.len() == 0 {
        Seq::empty()
    } else if o.len() == 0 {
        walk_kept(o, n.drop_first())
    } else if n.len() == 0 || request_rank(o[0].0) < request_rank(n[0]) {
        walk_kept(o.drop_first(), n)
    } else if o[0].0 == n[0] {
        seq![o[0]] + walk_kept(o.drop_first(), n.drop_first())
    } else {
        walk_kept(o, n.drop_first())
    }
}

/// The values of the entries that the same walk drops, in order.
pub open spec fn walk_dropped<T>(o: Seq<(TileRequest, T)>, n: Seq<TileRequest>) -> Seq<T>
    decreases o.len() + n.len(),
{
    if o.len() == 0 && n.len() == 0 {
        Seq::empty()
    } else if o.len() == 0 {
        walk_dropped(o, n.drop_first())
    } else if n.len() == 0 || request_rank(o[0].0) < request_rank(n[0]) {
        seq![o[0].1] + walk_dropped(o.drop_first(), n)
    } else if o[0].0 == n[0] {
        walk_dropped(o.drop_first(), n.drop_first())
    } else {
        walk_dropped(o, n.drop_first())
    }
}

/// The keys that the same walk puts on the queue, in order: those it finds
/// only among the wanted keys, unless being built or built already.
pub open spec fn walk_enqueued<T>(
    o: Seq<(TileRequest, T)>,
    n: Seq<TileRequest>,
    doing: Seq<TileRequest>,
    done: Seq<TileRequest>,
) -> Seq<TileRequest>
    decreases o.len() + n.len(),
{
    if o.len() == 0 && n.len() == 0 {
        Seq::empty()
    } else if o.len() != 0 && (n.len() == 0 || request_rank(o[0].0) < request_rank(n[0])) {
        walk_enqueued(o.drop_first(), n, doing, done)
    } else if o.len() != 0 && o[0].0 == n[0] {
        walk_enqueued(o.drop_first(), n.drop_first(), doing, done)
    } else {
        let rest = walk_enqueued(o, n.drop_first(), doing, done);
        if !doing.contains(n[0]) && !done.contains(n[0]) {
            seq![n[0]] + rest
        } else {
            rest
        }
    }
}

/// One step of the walk where the stored entry comes first: it is dropped.
proof fn lemma_walk_left<T>(o: Seq<(TileRequest, T)>, n: Seq<TileRequest>, doing: Seq<TileRequest>, done: Seq<TileRequest>)
    requires
        o.len() > 0,
        n.len() == 0 || request_rank(o[0].0) < request_rank(n[0]),
    ensures
        walk_kept(o, n) == walk_kept(o.drop_first(), n),
        walk_enqueued(o, n, doing, done) == walk_enqueued(o.drop_first(), n, doing, done),
        walk_dropped(o, n) == seq![o[0].1] + walk_dropped(o.drop_first(), n),
{
}

/// One step of the walk where the wanted key comes first: it is queued,
/// unless being built or built already.
proof fn lemma_walk_right<T>(o: Seq<(TileRequest, T)>, n: Seq<TileRequest>, doing: Seq<TileRequest>, done: Seq<TileRequest>)
    requires
        n.len() > 0,
        o.len() == 0 || request_rank(o[0].0) > request_rank(n[0]),
    ensures
        walk_kept(o, n) == walk_kept(o, n.drop_first()),
        walk_dropped(o, n) == walk_dropped(o, n.drop_first()),
        walk_enqueued(o, n, doing, done) == if !doing.contains(n[0]) && !done.contains(n[0]) {
            seq![n[0]] + walk_enqueued(o, n.drop_first(), doing, done)
        } else {
            walk_enqueued(o, n.drop_first(), doing, done)
        },
{
    if o.len() > 0 {
        lemma_request_rank(o[0].0, n[0]);
    }
}

/// One step of the walk where the stored entry has the wanted key: it is kept.
proof fn lemma_walk_both<T>(o: Seq<(TileRequest, T)>, n: Seq<TileRequest>, doing: Seq<TileRequest>, done: Seq<TileRequest>)
    requires
        o.len() > 0,
        n.len() > 0,
        o[0].0 == n[0],
    ensures
        walk_kept(o, n) == seq![o[0]] + walk_kept(o.drop_first(), n.drop_first()),
        walk_enqueued(o, n, doing, done) == walk_enqueued(o.drop_first(), n.drop_first(), doing, done),
        walk_dropped(o, n) == walk_dropped(o.drop_first(), n.drop_first()),
{
    lemma_request_rank(o[0].0, n[0]);
}

/// The keys of `s` never decrease.
pub open spec fn keys_nondecreasing<T>(s: Seq<(TileRequest, T)>) -> bool {
    forall|i: int, j: int|
        0 <= i < j < s.len() ==> request_rank(#[trigger] s[i].0) <= request_rank(#[trigger] s[j].0)
}

/// Where `k` goes in `s` so that it comes after every entry, from the end,
/// whose key is not above it.
pub open spec fn sorted_pos<T>(s: Seq<(TileRequest, T)>, k: TileRequest) -> int
    decreases s.len(),
{
    if s.len() == 0 {
        0
    } else if request_rank(s.last().0) <= request_rank(k) {
        s.len() as int
    } else {
        sorted_pos(s.drop_last(), k)
    }
}

/// `s` with `e` put in at its place, after the entries with an equal key.
pub open spec fn insert_sorted<T>(s: Seq<(TileRequest, T)>, e: (TileRequest, T)) -> Seq<(TileRequest, T)> {
    s.insert(sorted_pos(s, e.0), e)
}

/// `s` with the entries `es` put in one after the other: a stable insertion sort.
pub open spec fn insert_all<T>(s: Seq<(TileRequest, T)>, es: Seq<(TileRequest, T)>) -> Seq<
    (TileRequest, T),
>
    decreases es.len(),
{
    if es.len() == 0 {
        s
    } else {
        insert_sorted(insert_all(s, es.drop_last()), es.last())
    }
}

/// The keys `keys`, each with the value at the same place of `vals`.
pub open spec fn with_values<T>(keys: Seq<TileRequest>, vals: Seq<T>) -> Seq<(TileRequest, T)> {
    Seq::new(keys.len(), |i: int| (keys[i], vals[i]))
}

proof fn lemma_sorted_pos_bounds<T>(s: Seq<(TileRequest, T)>, k: TileRequest)
    ensures
        0 <= sorted_pos(s, k) <= s.len(),
        forall|j: int| sorted_pos(s, k) <= j < s.len() ==> request_rank(k) < request_rank(#[trigger] s[j].0),
        sorted_pos(s, k) > 0 ==> request_rank(s[sorted_pos(s, k) - 1].0) <= request_rank(k),
    decreases s.len(),
{
    if s.len() > 0 && request_rank(s.last().0) > request_rank(k) {
        lemma_sorted_pos_bounds(s.drop_last(), k);
        let p = sorted_pos(s, k);
        assert forall|j: int| p <= j < s.len() implies request_rank(k) < request_rank(#[trigger] s[j].0) by {
            if j < s.len() - 1 {
                assert(s.drop_last()[j] == s[j]);
            }
        }
        if p > 0 {
            assert(s.drop_last()[p - 1] == s[p - 1]);
        }
    }
}

/// When the entries from `i` on all have keys above `k`, the place of `k`
/// is found among the first `i` entries.
proof fn lemma_sorted_pos_take<T>(s: Seq<(TileRequest, T)>, k: TileRequest, i: int)
    requires
        0 <= i <= s.len(),
        forall|j: int| i <= j < s.len() ==> request_rank(k) < request_rank(#[trigger] s[j].0),
    ensures
        sorted_pos(s, k) == sorted_pos(s.take(i), k),
    decreases s.len(),
{
    if i == s.len() {
        assert(s.take(i) =~= s);
    } else {
        assert(s.drop_last().take(i) =~= s.take(i));
        lemma_sorted_pos_take(s.drop_last(), k, i);
    }
}

/// Putting an entry in at its place keeps the keys in order.
proof fn lemma_insert_sorted<T>(s: Seq<(TileRequest, T)>, e: (TileRequest, T))
    requires
        keys_nondecreasing(s),
    ensures
        keys_nondecreasing(insert_sorted(s, e)),
        insert_sorted(s, e).len() == s.len() + 1,
{
    lemma_sorted_pos_bounds(s, e.0);
    let p = sorted_pos(s, e.0);
    let t = insert_sorted(s, e);
    assert forall|i: int, j: int| 0 <= i < j < t.len() implies request_rank(#[trigger] t[i].0)
        <= request_rank(#[trigger] t[j].0) by {
        if i < p && j == p {
            assert(request_rank(s[i].0) <= request_rank(s[p - 1].0));
        } else if i == p && j > p {
            assert(t[j] == s[j - 1]);
        } else if i < p && j > p {
            assert(t[j] == s[j - 1]);
        } else if i > p {
            assert(t[i] == s[i - 1]);
            assert(t[j] == s[j - 1]);
        }
    }
}

/// An entry whose key is above all keys of `s` goes at the end.
proof fn lemma_insert_sorted_last<T>(s: Seq<(TileRequest, T)>, e: (TileRequest, T))
    requires
        forall|j: int| 0 <= j < s.len() ==> request_rank(#[trigger] s[j].0) < request_rank(e.0),
    ensures
        insert_sorted(s, e) == s.push(e),
{
    if s.len() > 0 {
        assert(request_rank(s[s.len() - 1].0) < request_rank(e.0));
    }
    assert(s.insert(s.len() as int, e) =~= s.push(e));
}

/// Put `e` in at its place in `v`, after the entries with an equal key.
fn insert_by_key<T>(v: &mut Vec<(TileRequest, T)>, e: (TileRequest, T))
    requires
        keys_nondecreasing(old(v)@),
    ensures
        final(v)@ == insert_sorted(old(v)@, e),
        final(v)@.len() == old(v)@.len() + 1,
        keys_nondecreasing(final(v)@),
{
    let ghost s = v@;
    let mut i = v.len();
    while i > 0
        invariant
            i <= v@.len(),
            v@ == s,
            forall|j: int| i <= j < s.len() ==> request_rank(e.0) < request_rank(#[trigger] s[j].0),
        ensures
            i <= v@.len(),
            v@ == s,
            forall|j: int| i <= j < s.len() ==> request_rank(e.0) < request_rank(#[trigger] s[j].0),
            i == 0 || request_rank(s[i - 1].0) <= request_rank(e.0),
        decreases i,
    {
        let o = v[i - 1].0.compare(&e.0);
        if o != Order::Greater {
            break;
        }
        i = i - 1;
    }
    proof {
        lemma_sorted_pos_take(s, e.0, i as int);
        assert(sorted_pos(s.take(i as int), e.0) == i) by {
            if i > 0 {
                assert(s.take(i as int).last() == s[i - 1]);
            }
        }
        lemma_insert_sorted(s, e);
    }
    v.insert(i, e);
}

/// `r` is one of the requests of `v`.
fn contains_request(v: &Vec<TileRequest>, r: &TileRequest) -> (b: bool)
    ensures
        b == v@.contains(*r),
{
    let mut i: usize = 0;
    while i < v.len()
        invariant
            i <= v@.len(),
            forall|j: int| 0 <= j < i ==> v@[j] != *r,
        decreases v@.len() - i,
    {
        if v[i].same(r) {
            assert(v@[i as int] == *r);
            return true;
        }
        i = i + 1;
    }
    false
}

/// `r` is the key of one of the built tiles `done`.
fn done_has(done: &Vec<(TileRequest, TileContent)>, r: &TileRequest) -> (b: bool)
    ensures
        b == done_keys(done@).contains(*r),
{
    let mut i: usize = 0;
    while i < done.len()
        invariant
            i <= done@.len(),
            forall|j: int| 0 <= j < i ==> done@[j].0 != *r,
        decreases done@.len() - i,
    {
        if done[i].0.same(r) {
            assert(done_keys(done@)[i as int] == *r);
            return true;
        }
        i = i + 1;
    }
    false
}

proof fn lemma_take_one_more(n: Seq<TileRequest>, p: int, k: TileRequest)
    requires
        0 <= p < n.len(),
    ensures
        n.take(p + 1).contains(k) == (n.take(p).contains(k) || k == n[p]),
{
    let a = n.take(p);
    let b = n.take(p + 1);
    if a.contains(k) {
        let w = choose|w: int| 0 <= w < a.len() && #[trigger] a[w] == k;
        assert(b[w] == k);
    }
    if k == n[p] {
        assert(b[p] == k);
    }
    if b.contains(k) {
        let w = choose|w: int| 0 <= w < b.len() && #[trigger] b[w] == k;
        if w < p {
            assert(a[w] == k);
        }
    }
}

/// Remembers generated tiles, and adds new ones.
pub struct TileStorage<T> {
    /// the stored tiles, ordered by key
    pub tiles: Vec<(TileRequest, T)>,
    /// room for the tiles of the next frame, always empty between updates
    pub next_frame_tiles: Vec<(TileRequest, T)>,
}

impl<T> TileStorage<T> {
    /// The stored tiles.
    pub closed spec fn stored(&self) -> Seq<(TileRequest, T)> {
        self.tiles@
    }

    /// Nothing is left in the room for the next frame.
    pub open spec fn wf(&self) -> bool {
        self.next_frame_tiles@.len() == 0
    }

    pub fn new() -> (s: TileStorage<T>)
        ensures
            s.wf(),
            s.stored() == Seq::<(TileRequest, T)>::empty(),
    {
        TileStorage { tiles: Vec::new(), next_frame_tiles: Vec::new() }
    }

    /// Update the stored tiles to those at `positions` with `params`. Old and
    /// new tiles are walked side by side, both meant to be in increasing
    /// order: a stored tile that is no longer wanted is dropped and its
    /// texture handed back, to be freed by the caller; a wanted tile that is
    /// stored is kept; and a wanted tile that is not stored is put on the
    /// queue to be built, unless it is being built or built already. The
    /// queue's list of tiles to build is made anew, in reverse, so that the
    /// first tile comes out of it first. Then the built tiles are stored, each
    /// with the texture at the same place of `built` (the caller makes one
    /// from the pixels of each built tile, in the order of the queue), and the
    /// stored tiles are sorted by key (stably).
    ///
    /// The walk is the one `walk_kept`, `walk_dropped` and `walk_enqueued` describe, and the
    /// stored tiles always come out sorted. When the stored tiles and the
    /// wanted ones are both strictly increasing, the tiles kept are those
    /// stored that are wanted, and the tiles queued those wanted that are not
    /// stored.
    #[verifier::spinoff_prover]
    #[verifier::rlimit(50)]
    pub fn update_tiles(
        &mut self,
        q: &mut TileQueue,
        params: TileParams,
        positions: &[TilePos],
        built: Vec<T>,
    ) -> (freed: Vec<T>)
        requires
            old(self).wf(),
            built@.len() == old(q).done@.len(),
        ensures
            freed@ == walk_dropped(old(self).stored(), requests_for(positions@, params)),
            final(self).wf(),
            keys_nondecreasing(final(self).stored()),
            final(q).doing@ == old(q).doing@,
            final(q).done@ == Seq::<(TileRequest, TileContent)>::empty(),
            final(self).stored().len() <= old(self).stored().len() + old(q).done@.len(),
            final(q).todo@ == rev(
                walk_enqueued(
                    old(self).stored(),
                    requests_for(positions@, params),
                    old(q).doing@,
                    done_keys(old(q).done@),
                ),
            ),
            final(self).stored() == insert_all(
                insert_all(Seq::empty(), walk_kept(old(self).stored(), requests_for(positions@, params))),
                with_values(done_keys(old(q).done@), built@),
            ),
            ({
                let o = old(self).stored();
                let n = requests_for(positions@, params);
                sorted_entries(o) && strictly_increasing(n) ==> {
                    &&& final(q).todo@ == rev(
                        to_enqueue(n, o, old(q).doing@, done_keys(old(q).done@)),
                    )
                    &&& final(self).stored() == insert_all(
                        kept_entries(o, n),
                        with_values(done_keys(old(q).done@), built@),
                    )
                }
            }),
    {
        let ghost o = self.tiles@;
        let ghost doing = q.doing@;
        let ghost dk = done_keys(q.done@);
        let ghost done0 = q.done@;

        // the wanted tiles, in the order of `positions`
        let mut new_tiles: Vec<TileRequest> = Vec::new();
        let np = positions.len();
        let mut i: usize = 0;
        while i < np
            invariant
                i <= np,
                np == positions@.len(),
                new_tiles@ == requests_for(positions@, params).take(i as int),
            decreases np - i,
        {
            new_tiles.push(TileRequest { pos: positions[i], params });
            i = i + 1;
            proof {
                assert(new_tiles@ =~= requests_for(positions@, params).take(i as int));
            }
        }
        proof {
            assert(new_tiles@ =~= requests_for(positions@, params));
        }
        let ghost n = new_tiles@;
        let ghost sorted = sorted_entries(o) && strictly_increasing(n);

        let mut old_tiles: Vec<(TileRequest, T)> = Vec::new();
        core::mem::swap(&mut old_tiles, &mut self.tiles);
        let mut next: Vec<(TileRequest, T)> = Vec::new();
        core::mem::swap(&mut next, &mut self.next_frame_tiles);

        let f = |l: &(TileRequest, T), r: &TileRequest| -> (c: Order)
            ensures
                (c == Order::Less) == (request_rank(l.0) < request_rank(*r)),
                (c == Order::Equal) == (l.0 == *r),
                (c == Order::Greater) == (request_rank(l.0) > request_rank(*r)),
            { l.0.compare(r) };
        let ghost gf = f;
        let mut it = CompareIter::new(old_tiles, new_tiles, f);
        q.todo.clear();
        let mut freed: Vec<T> = Vec::new();
        let ghost mut kept_so_far: Seq<(TileRequest, T)> = Seq::empty();
        proof {
            assert(freed@ + walk_dropped(o, n) =~= walk_dropped(o, n));
            assert(kept_so_far + walk_kept(o, n) =~= walk_kept(o, n));
            assert(q.todo@ + walk_enqueued(o, n, doing, dk) =~= walk_enqueued(o, n, doing, dk));
            assert(next@ =~= insert_all(Seq::<(TileRequest, T)>::empty(), kept_so_far));
        }
        loop
            invariant
                sorted == (sorted_entries(o) && strictly_increasing(n)),
                it.comparable(),
                it.comparator() == gf,
                forall|l: &(TileRequest, T), r: &TileRequest, c: Order|
                    #[trigger] call_ensures(gf, (l, r), c) ==> {
                        &&& (c == Order::Less) == (request_rank(l.0) < request_rank(*r))
                        &&& (c == Order::Equal) == (l.0 == *r)
                        &&& (c == Order::Greater) == (request_rank(l.0) > request_rank(*r))
                    },
                it.left_rest().len() <= o.len(),
                it.right_rest().len() <= n.len(),
                it.left_rest() == o.subrange(o.len() - it.left_rest().len(), o.len() as int),
                it.right_rest() == n.subrange(n.len() - it.right_rest().len(), n.len() as int),
                q.doing@ == doing,
                q.done@ == done0,
                dk == done_keys(done0),
                keys_nondecreasing(next@),
                next@.len() <= o.len() - it.left_rest().len(),
                self.next_frame_tiles@.len() == 0,
                walk_kept(o, n) == kept_so_far + walk_kept(it.left_rest(), it.right_rest()),
                walk_dropped(o, n) == freed@ + walk_dropped(it.left_rest(), it.right_rest()),
                next@ == insert_all(Seq::empty(), kept_so_far),
                walk_enqueued(o, n, doing, dk) == q.todo@ + walk_enqueued(
                    it.left_rest(),
                    it.right_rest(),
                    doing,
                    dk,
                ),
                sorted ==> next@ == kept_entries(o.take(o.len() - it.left_rest().len()), n),
                sorted ==> q.todo@ == to_enqueue(
                    n.take(n.len() - it.right_rest().len()),
                    o,
                    doing,
                    dk,
                ),
                sorted ==> forall|a: int, j: int|
                    0 <= a < n.len() - it.right_rest().len() && o.len() - it.left_rest().len() <= j
                        < o.len() ==> request_rank(#[trigger] n[a]) < request_rank(#[trigger] o[j].0),
                sorted ==> forall|j: int, m: int|
                    0 <= j < o.len() - it.left_rest().len() && n.len() - it.right_rest().len() <= m
                        < n.len() ==> request_rank(#[trigger] o[j].0) < request_rank(#[trigger] n[m]),
                sorted ==> forall|e: int|
                    0 <= e < next@.len() ==> exists|j: int|
                        0 <= j < o.len() - it.left_rest().len() && #[trigger] next@[e].0 == o[j].0,
            ensures
                q.doing@ == doing,
                q.done@ == done0,
                keys_nondecreasing(next@),
                next@.len() <= o.len(),
                self.next_frame_tiles@.len() == 0,
                next@ == insert_all(Seq::empty(), walk_kept(o, n)),
                freed@ == walk_dropped(o, n),
                q.todo@ == walk_enqueued(o, n, doing, dk),
                sorted ==> next@ == kept_entries(o, n),
                sorted ==> q.todo@ == to_enqueue(n, o, doing, dk),
            decreases it.left_rest().len() + it.right_rest().len(),
        {
            let ghost lr = it.left_rest();
            let ghost rr = it.right_rest();
            let ghost pl = o.len() - lr.len();
            let ghost pr = n.len() - rr.len();
            match it.next() {
                None => {
                    proof {
                        assert(o.take(o.len() as int) =~= o);
                        assert(n.take(n.len() as int) =~= n);
                        assert(kept_so_far + walk_kept(lr, rr) =~= kept_so_far);
                        assert(freed@ + walk_dropped(lr, rr) =~= freed@);
                        assert(q.todo@ + walk_enqueued(lr, rr, doing, dk) =~= q.todo@);
                    }
                    break;
                },
                Some(ComparedValue::Left((k, v))) => {
                    proof {
                        assert(lr[0] == o[pl]);
                        if rr.len() > 0 {
                            assert(call_ensures(gf, (&lr[0], &rr[0]), Order::Less));
                            assert(request_rank(lr[0].0) < request_rank(rr[0]));
                        }
                        lemma_walk_left(lr, rr, doing, dk);
                        if sorted {
                            assert forall|m: int| 0 <= m < n.len() implies n[m] != k by {
                                if m < pr {
                                    assert(request_rank(n[m]) < request_rank(o[pl].0));
                                } else {
                                    assert(rr[m - pr] == n[m]);
                                    assert(request_rank(k) < request_rank(rr[0]));
                                    if m > pr {
                                        assert(request_rank(n[pr]) < request_rank(n[m]));
                                    }
                                }
                            }
                            assert(!n.contains(k));
                            assert(o.take(pl + 1).drop_last() =~= o.take(pl));
                            assert forall|j: int, m: int|
                                0 <= j < pl + 1 && pr <= m < n.len() implies request_rank(
                                #[trigger] o[j].0,
                            ) < request_rank(#[trigger] n[m]) by {
                                if j == pl {
                                    assert(rr[m - pr] == n[m]);
                                    assert(request_rank(k) < request_rank(rr[0]));
                                    if m > pr {
                                        assert(request_rank(n[pr]) < request_rank(n[m]));
                                    }
                                }
                            }
                        }
                    }
                    let ghost freed_before = freed@;
                    freed.push(v);
                    proof {
                        assert(lr[0].1 == v);
                        assert(freed@ + walk_dropped(lr.drop_first(), rr) =~= freed_before + (seq![v]
                            + walk_dropped(lr.drop_first(), rr)));
                    }
                },
                Some(ComparedValue::Right(r)) => {
                    proof {
                        assert(rr[0] == n[pr]);
                        assert(n.take(pr + 1).drop_last() =~= n.take(pr));
                        if lr.len() > 0 {
                            assert(call_ensures(gf, (&lr[0], &rr[0]), Order::Greater));
                            assert(request_rank(lr[0].0) > request_rank(rr[0]));
                        }
                        lemma_walk_right(lr, rr, doing, dk);
                        if sorted {
                            assert forall|j: int| 0 <= j < o.len() implies o[j].0 != r by {
                                if j >= pl {
                                    assert(lr[j - pl] == o[j]);
                                    assert(request_rank(lr[0].0) > request_rank(r));
                                    if j > pl {
                                        assert(request_rank(o[pl].0) < request_rank(o[j].0));
                                    }
                                } else {
                                    assert(request_rank(o[j].0) < request_rank(n[pr]));
                                }
                            }
                            assert(!has_key(o, r));
                            assert forall|a: int, j: int|
                                0 <= a < pr + 1 && pl <= j < o.len() implies request_rank(
                                #[trigger] n[a],
                            ) < request_rank(#[trigger] o[j].0) by {
                                if a == pr {
                                    assert(lr[j - pl] == o[j]);
                                    assert(request_rank(lr[0].0) > request_rank(r));
                                    if j > pl {
                                        assert(request_rank(o[pl].0) < request_rank(o[j].0));
                                    }
                                }
                            }
                        }
                    }
                    let ghost todo_before = q.todo@;
                    if !contains_request(&q.doing, &r) && !done_has(&q.done, &r) {
                        q.todo.push(r);
                        proof {
                            assert(q.todo@ + walk_enqueued(lr, rr.drop_first(), doing, dk) =~= todo_before + (seq![r]
                                + walk_enqueued(lr, rr.drop_first(), doing, dk)));
                        }
                    }
                },
                Some(ComparedValue::Both((k, v), r)) => {
                    proof {
                        assert(lr[0] == o[pl]);
                        assert(rr[0] == n[pr]);
                        assert(k == r);
                        assert(lr[0] == (k, v));
                        lemma_walk_both(lr, rr, doing, dk);
                        assert(kept_so_far.push((k, v)) + walk_kept(lr.drop_first(), rr.drop_first()) =~= kept_so_far + (
                        seq![(k, v)] + walk_kept(lr.drop_first(), rr.drop_first())));
                        assert(kept_so_far.push((k, v)).drop_last() =~= kept_so_far);
                        assert(n.take(pr + 1).drop_last() =~= n.take(pr));
                        if sorted {
                            assert(o.take(pl + 1).drop_last() =~= o.take(pl));
                            assert(n[pr] == k);
                            assert(n.contains(k));
                            assert(has_key(o, k)) by {
                                assert(o[pl].0 == k);
                            }
                            assert forall|a: int, j: int|
                                0 <= a < pr + 1 && pl + 1 <= j < o.len() implies request_rank(
                                #[trigger] n[a],
                            ) < request_rank(#[trigger] o[j].0) by {
                                if a == pr {
                                    assert(request_rank(o[pl].0) < request_rank(o[j].0));
                                }
                            }
                            assert forall|j: int, m: int|
                                0 <= j < pl + 1 && pr + 1 <= m < n.len() implies request_rank(
                                #[trigger] o[j].0,
                            ) < request_rank(#[trigger] n[m]) by {
                                if j == pl {
                                    assert(request_rank(n[pr]) < request_rank(n[m]));
                                }
                            }
                            assert forall|e: int| 0 <= e < next@.len() implies request_rank(
                                #[trigger] next@[e].0,
                            ) < request_rank(k) by {
                                let j = choose|j: int|
                                    0 <= j < pl && #[trigger] next@[e].0 == o[j].0;
                                assert(request_rank(o[j].0) < request_rank(o[pl].0));
                            }
                            lemma_insert_sorted_last(next@, (k, v));
                        }
                    }
                    let ghost before = next@;
                    insert_by_key(&mut next, (k, v));
                    proof {
                        kept_so_far = kept_so_far.push((k, v));
                    }
                    proof {
                        if sorted {
                            assert forall|e: int| 0 <= e < next@.len() implies exists|j: int|
                                0 <= j < pl + 1 && #[trigger] next@[e].0 == o[j].0 by {
                                if e < before.len() {
                                    let j = choose|j: int|
                                        0 <= j < pl && #[trigger] before[e].0 == o[j].0;
                                    assert(next@[e].0 == o[j].0);
                                } else {
                                    assert(next@[e].0 == o[pl].0);
                                }
                            }
                        }
                    }
                },
            }
        }

        // make the list to build, first tile last
        let mut todo: Vec<TileRequest> = Vec::new();
        core::mem::swap(&mut todo, &mut q.todo);
        let ghost enqueued = todo@;
        q.todo = reversed(todo);
        proof {
            assert(rev(rev(q.todo@)) =~= q.todo@);
        }

        // store the built tiles
        let mut done: Vec<(TileRequest, TileContent)> = Vec::new();
        core::mem::swap(&mut done, &mut q.done);
        let mut done = reversed(done);
        let ghost built0 = built@;
        let mut built = reversed(built);
        proof {
            assert(built0.subrange(0, built0.len() as int) =~= built0);
            assert(done0.subrange(0, done0.len() as int) =~= done0);
            assert(built0.take(0) =~= Seq::<T>::empty());
        }
        let ghost kept = next@;
        let ghost mut vals: Seq<T> = Seq::empty();
        while done.len() > 0
            invariant
                rev(done@) == done0.subrange(vals.len() as int, done0.len() as int),
                rev(built@) == built0.subrange(vals.len() as int, built0.len() as int),
                built0.len() == done0.len(),
                vals == built0.take(vals.len() as int),
                vals.len() <= done0.len(),
                keys_nondecreasing(next@),
                next@ == insert_all(kept, with_values(done_keys(done0).take(vals.len() as int), vals)),
                next@.len() == kept.len() + vals.len(),
            decreases done@.len(),
        {
            let ghost d = done@;
            let ghost b = built@;
            let (k, _content) = done.pop().unwrap();
            proof {
                assert(rev(d)[0] == d.last());
                assert(rev(done@) =~= rev(d).subrange(1, rev(d).len() as int));
                assert(done_keys(done0)[vals.len() as int] == k);
                assert(rev(b).len() == b.len());
                assert(b.len() > 0);
            }
            let tile = built.pop().unwrap();
            let ghost prev_vals = vals;
            proof {
                assert(rev(b)[0] == b.last());
                assert(rev(built@) =~= rev(b).subrange(1, rev(b).len() as int));
                assert(tile == built0[vals.len() as int]);
                vals = vals.push(tile);
                assert(vals =~= built0.take(vals.len() as int));
                let ks = done_keys(done0).take(vals.len() as int);
                let w = with_values(ks, vals);
                assert(w.drop_last() =~= with_values(done_keys(done0).take(prev_vals.len() as int), prev_vals));
                assert(w.last() == (k, tile));
            }
            insert_by_key(&mut next, (k, tile));
        }
        proof {
            assert(done_keys(done0).take(vals.len() as int) =~= done_keys(done0));
            assert(vals.len() == done0.len());
            assert(vals =~= built0);
        }
        core::mem::swap(&mut next, &mut self.tiles);
        freed
    }
}

/// A tile that is built, being built, or stored already is not put on the
/// queue again: every request that `update_tiles` queues is none of these.
pub proof fn law_no_duplicate_requests<T>(
    n: Seq<TileRequest>,
    o: Seq<(TileRequest, T)>,
    doing: Seq<TileRequest>,
    done: Seq<TileRequest>,
)
    ensures
        forall|i: int|
            0 <= i < to_enqueue(n, o, doing, done).len() ==> {
                let r = #[trigger] to_enqueue(n, o, doing, done)[i];
                &&& n.contains(r)
                &&& !has_key(o, r)
                &&& !doing.contains(r)
                &&& !done.contains(r)
            },
    decreases n.len(),
{
    if n.len() > 0 {
        law_no_duplicate_requests(n.drop_last(), o, doing, done);
        let rest = to_enqueue(n.drop_last(), o, doing, done);
        assert forall|i: int| 0 <= i < to_enqueue(n, o, doing, done).len() implies {
            let r = #[trigger] to_enqueue(n, o, doing, done)[i];
            &&& n.contains(r)
            &&& !has_key(o, r)
            &&& !doing.contains(r)
            &&& !done.contains(r)
        } by {
            if i < rest.len() {
                let r = rest[i];
                let w = choose|w: int| 0 <= w < n.drop_last().len() && #[trigger] n.drop_last()[w] == r;
                assert(n[w] == r);
            } else {
                assert(n[n.len() - 1] == n.last());
            }
        }
    }
}

/// Once every wanted tile is built, an update queues nothing to build.
pub proof fn law_all_built_nothing_queued<T>(
    n: Seq<TileRequest>,
    o: Seq<(TileRequest, T)>,
    doing: Seq<TileRequest>,
    done: Seq<TileRequest>,
)
    requires
        forall|i: int| 0 <= i < n.len() ==> done.contains(#[trigger] n[i]),
    ensures
        to_enqueue(n, o, doing, done) == Seq::<TileRequest>::empty(),
{
    law_no_duplicate_requests(n, o, doing, done);
    let q = to_enqueue(n, o, doing, done);
    if q.len() > 0 {
        let r = q[0];
        assert(n.contains(r));
        let w = choose|w: int| 0 <= w < n.len() && #[trigger] n[w] == r;
        assert(done.contains(n[w]));
    }
}

} // verus!
