use vstd::prelude::*;
use crate::util::str_eq;

verus! {

/// One entry of the tree: a named value that opens a level, or the end of the
/// innermost open level.
pub enum Item<T> {
    Push(&'static str, T),
    Pop,
}

/// `+1` for the end of a level, `-1` for a value that opens one.
pub open spec fn weight<T>(it: Item<T>) -> int {
    match it {
        Item::Push(_, _) => -1,
        Item::Pop => 1,
    }
}

/// The sum of the weights of `s[lo..hi]`.
pub open spec fn range_weight<T>(s: Seq<Item<T>>, lo: int, hi: int) -> int
    decreases hi - lo,
{
    if lo >= hi {
        0
    } else {
        weight(s[lo]) + range_weight(s, lo + 1, hi)
    }
}

/// The entry that opens the level closed at `pop_ix`: the last `ix` before it
/// such that `s[ix..=pop_ix]` holds as many `Push` as `Pop`.
pub open spec fn matches_pop<T>(s: Seq<Item<T>>, pop_ix: int, ix: int) -> bool {
    &&& 0 <= ix <= pop_ix
    &&& range_weight(s, ix, pop_ix + 1) == 0
    &&& forall|j: int| ix < j <= pop_ix ==> #[trigger] range_weight(s, j, pop_ix + 1) > 0
}

/// Some level is open at the end of `s`: some suffix holds one `Push` more than `Pop`.
pub open spec fn has_open_level<T>(s: Seq<Item<T>>) -> bool {
    exists|ix: int| 0 <= ix < s.len() && #[trigger] range_weight(s, ix, s.len() as int) == -1
}

/// Entry `ix` of `s` opens a level named `name`.
pub open spec fn same_name_at<T>(s: Seq<Item<T>>, ix: int, name: &str) -> bool {
    0 <= ix < s.len() && match s[ix] {
        Item::Push(n, _) => n@ == name@,
        Item::Pop => false,
    }
}

/// The value of entry `ix` of `s`, when it opens a level.
pub open spec fn value_at<T>(s: Seq<Item<T>>, ix: int) -> T
    recommends
        s[ix] is Push,
{
    match s[ix] {
        Item::Push(_, t) => t,
        Item::Pop => arbitrary(),
    }
}

/// The name of entry `ix` of `s`, when it opens a level.
pub open spec fn name_at<T>(s: Seq<Item<T>>, ix: int) -> &'static str
    recommends
        s[ix] is Push,
{
    match s[ix] {
        Item::Push(n, _) => n,
        Item::Pop => arbitrary(),
    }
}

/// The entry that opens the level closed at `pop_ix`.
pub open spec fn matching_push<T>(s: Seq<Item<T>>, pop_ix: int) -> int {
    choose|ix: int| matches_pop(s, pop_ix, ix)
}

/// Only one entry matches the end of a level.
pub proof fn lemma_matches_pop_unique<T>(s: Seq<Item<T>>, pop_ix: int, a: int, b: int)
    requires
        matches_pop(s, pop_ix, a),
        matches_pop(s, pop_ix, b),
    ensures
        a == b,
{
    if a < b {
        assert(range_weight(s, b, pop_ix + 1) > 0);
    } else if b < a {
        assert(range_weight(s, a, pop_ix + 1) > 0);
    }
}

/// Adding an entry at the end adds its weight to every suffix.
pub proof fn lemma_range_weight_push<T>(s: Seq<Item<T>>, x: Item<T>, lo: int)
    requires
        0 <= lo <= s.len(),
    ensures
        range_weight(s.push(x), lo, s.len() as int + 1) == range_weight(s, lo, s.len() as int) + weight(x),
    decreases s.len() - lo,
{
    if lo < s.len() {
        lemma_range_weight_push(s, x, lo + 1);
        assert(s.push(x)[lo] == s[lo]);
    } else {
        assert(s.push(x)[lo] == x);
        assert(range_weight(s.push(x), lo + 1, s.len() as int + 1) == 0);
    }
}

/// A tree of named values, rebuilt each frame by `push` and `pop` calls, that
/// takes over the value of the same entry of the previous frame.
pub struct TreeStorage<T> {
    items: Vec<Item<T>>,
    prev_items: Vec<Item<T>>,
}

impl<T: Clone> TreeStorage<T> {
    /// The entries of this frame.
    pub closed spec fn current(&self) -> Seq<Item<T>> {
        self.items@
    }

    /// The entries of the previous frame.
    pub closed spec fn previous(&self) -> Seq<Item<T>> {
        self.prev_items@
    }

    pub fn new() -> (s: Self)
        ensures
            s.current().len() == 0,
            s.previous().len() == 0,
    {
        TreeStorage { items: Vec::new(), prev_items: Vec::new() }
    }

    /// Start a new frame: this frame's entries become the previous ones.
    pub fn restart(&mut self)
        ensures
            final(self).previous() == old(self).current(),
            final(self).current().len() == 0,
    {
        core::mem::swap(&mut self.items, &mut self.prev_items);
        self.items.clear();
    }

    /// The entries of the previous frame, for reading.
    pub fn previous_items(&self) -> (r: &[Item<T>])
        ensures
            r@ == self.previous(),
    {
        self.prev_items.as_slice()
    }

    /// Open a level named `name`. Its value is a clone of the value at the same
    /// place in the previous frame when that entry has the same name, and `def`
    /// otherwise. Returns the value, to be changed in place.
    pub fn push(&mut self, name: &'static str, def: T) -> (r: &mut T)
        ensures
            final(self).previous() == old(self).previous(),
            final(self).current() == old(self).current().push(Item::Push(name, *final(r))),
            same_name_at(old(self).previous(), old(self).current().len() as int, name) ==> cloned::<T>(
                value_at(old(self).previous(), old(self).current().len() as int),
                *r,
            ),
            !same_name_at(old(self).previous(), old(self).current().len() as int, name) ==> *r == def,
    {
        let ix = self.items.len();
        let mut value = def;
        if ix < self.prev_items.len() {
            match &self.prev_items[ix] {
                Item::Push(n, t) => {
                    if str_eq(n, name) {
                        value = t.clone();
                    }
                },
                Item::Pop => {},
            }
        }
        self.items.push(Item::Push(name, value));
        let last = self.items.len() - 1;
        match &mut self.items[last] {
            Item::Push(_, t) => t,
            Item::Pop => vstd::pervasive::unreached(),
        }
    }

    /// Close the innermost open level. Returns the value of the entry that
    /// opened it, to be changed in place.
    pub fn pop(&mut self) -> (r: &mut T)
        requires
            has_open_level(old(self).current()),
            old(self).current().len() < i32::MAX,
        ensures
            ({
                let s = old(self).current().push(Item::Pop);
                let ix = matching_push(s, old(self).current().len() as int);
                &&& matches_pop(s, old(self).current().len() as int, ix)
                &&& old(self).current()[ix] is Push
                &&& *r == value_at(old(self).current(), ix)
                &&& final(self).current() == s.update(ix, Item::Push(name_at(old(self).current(), ix), *final(r)))
            }),
            final(self).previous() == old(self).previous(),
    {
        let ghost o = self.items@;
        let pop_ix = self.items.len();
        self.items.push(Item::Pop);
        proof {
            let ix = choose|ix: int| 0 <= ix < o.len() && #[trigger] range_weight(o, ix, o.len() as int) == -1;
            lemma_range_weight_push(o, Item::<T>::Pop, ix);
        }
        let push_ix = Self::find_matching_push(self.items.as_slice(), pop_ix);
        proof {
            let s = o.push(Item::Pop);
            lemma_matches_pop_unique(s, pop_ix as int, push_ix as int, matching_push(s, pop_ix as int));
            assert(s[push_ix as int] == o[push_ix as int]);
        }
        match &mut self.items[push_ix] {
            Item::Push(_, t) => t,
            Item::Pop => vstd::pervasive::unreached(),
        }
    }

    /// The entry that opens the level that the `Pop` at `pop_ix` closes: walking
    /// back from `pop_ix`, the first place where the `Push` and `Pop` entries
    /// seen balance.
    fn find_matching_push(items: &[Item<T>], pop_ix: usize) -> (ix: usize)
        requires
            pop_ix < items@.len(),
            pop_ix < i32::MAX,
            items@[pop_ix as int] is Pop,
            exists|ix: int| 0 <= ix <= pop_ix && #[trigger] range_weight(items@, ix, pop_ix + 1) == 0,
        ensures
            matches_pop(items@, pop_ix as int, ix as int),
            items@[ix as int] is Push,
    {
        let mut depth: i32 = 0;
        let mut ix = pop_ix;
        loop
            invariant
                ix <= pop_ix,
                pop_ix < items@.len(),
                pop_ix < i32::MAX,
                items@[pop_ix as int] is Pop,
                0 <= depth <= pop_ix - ix,
                depth == range_weight(items@, ix + 1, pop_ix + 1),
                forall|j: int| ix < j <= pop_ix ==> #[trigger] range_weight(items@, j, pop_ix + 1) > 0,
                exists|k: int| 0 <= k <= ix && #[trigger] range_weight(items@, k, pop_ix + 1) == 0,
            decreases ix,
        {
            let ghost before = depth;
            match items[ix] {
                Item::Push(_, _) => depth -= 1,
                Item::Pop => depth += 1,
            }
            assert(depth == range_weight(items@, ix as int, pop_ix + 1));
            if depth == 0 {
                return ix;
            }
            proof {
                assert(depth > 0);
                if ix == 0 {
                    let k = choose|k: int| 0 <= k <= ix && #[trigger] range_weight(items@, k, pop_ix + 1) == 0;
                    assert(k == 0);
                }
            }
            ix = ix - 1;
        }
    }
}

/// The number of frames whose time a section remembers.
pub const TIMES_LEN: usize = 180;

/// The smallest of `init` and the values of `s`.
pub open spec fn min_from(s: Seq<u32>, init: u32) -> u32
    decreases s.len(),
{
    if s.len() == 0 {
        init
    } else {
        let m = min_from(s.drop_last(), init);
        if s.last() < m {
            s.last()
        } else {
            m
        }
    }
}

/// The largest of `init` and the values of `s`.
pub open spec fn max_from(s: Seq<u32>, init: u32) -> u32
    decreases s.len(),
{
    if s.len() == 0 {
        init
    } else {
        let m = max_from(s.drop_last(), init);
        if s.last() > m {
            s.last()
        } else {
            m
        }
    }
}

/// The sum of the values of `s`.
pub open spec fn sum_of(s: Seq<u32>) -> nat
    decreases s.len(),
{
    if s.len() == 0 {
        0
    } else {
        sum_of(s.drop_last()) + s.last() as nat
    }
}

proof fn lemma_sum_of_bound(s: Seq<u32>)
    ensures
        sum_of(s) <= s.len() * (u32::MAX as nat),
    decreases s.len(),
{
    if s.len() > 0 {
        lemma_sum_of_bound(s.drop_last());
    }
}

/// The times of the last frames of one timed section, in microseconds, kept
/// in a ring: each new time replaces the oldest.
pub struct FrameTimes {
    index: usize,
    table: Vec<u32>,
}

impl Clone for FrameTimes {
    fn clone(&self) -> (r: Self)
        ensures
            r.times() == self.times(),
            r.next_index() == self.next_index(),
            self.wf() ==> r.wf(),
    {
        FrameTimes { index: self.index, table: self.table.clone() }
    }
}

impl FrameTimes {
    /// The ring holds `TIMES_LEN` times, and the next place is one of them.
    pub closed spec fn wf(&self) -> bool {
        &&& self.table@.len() == TIMES_LEN
        &&& self.index < TIMES_LEN
    }

    /// The remembered times, in ring order.
    pub closed spec fn times(&self) -> Seq<u32> {
        self.table@
    }

    /// The place the next time goes.
    pub closed spec fn next_index(&self) -> nat {
        self.index as nat
    }

    pub fn new() -> (t: FrameTimes)
        ensures
            t.wf(),
            t.times() == Seq::new(TIMES_LEN as nat, |i: int| 0u32),
            t.next_index() == 0,
    {
        let mut table: Vec<u32> = Vec::new();
        let mut i: usize = 0;
        while i < TIMES_LEN
            invariant
                i <= TIMES_LEN,
                table@ == Seq::new(i as nat, |j: int| 0u32),
            decreases TIMES_LEN - i,
        {
            table.push(0);
            i = i + 1;
            proof {
                assert(table@ =~= Seq::new(i as nat, |j: int| 0u32));
            }
        }
        FrameTimes { index: 0, table }
    }

    /// Remember the time of one more frame, in place of the oldest.
    pub fn record(&mut self, micros: u32)
        requires
            old(self).wf(),
        ensures
            final(self).wf(),
            final(self).times() == old(self).times().update(old(self).next_index() as int, micros),
            final(self).next_index() == (old(self).next_index() + 1) % (TIMES_LEN as nat),
    {
        let i = self.index;
        self.table.set(i, micros);
        let next = if i + 1 >= TIMES_LEN {
            0
        } else {
            i + 1
        };
        self.index = next;
    }

    /// The smallest (at most a billion), the largest and the average of the
    /// remembered times.
    pub fn stats(&self) -> (r: (u32, u32, u64))
        requires
            self.wf(),
        ensures
            r.0 == min_from(self.times(), 1_000_000_000u32),
            r.1 == max_from(self.times(), 0u32),
            r.2 == sum_of(self.times()) / (TIMES_LEN as nat),
    {
        let mut t_min: u32 = 1_000_000_000;
        let mut t_max: u32 = 0;
        let mut t_sum: u64 = 0;
        let mut i: usize = 0;
        while i < self.table.len()
            invariant
                i <= self.table@.len() == TIMES_LEN,
                t_min == min_from(self.table@.take(i as int), 1_000_000_000u32),
                t_max == max_from(self.table@.take(i as int), 0u32),
                t_sum == sum_of(self.table@.take(i as int)),
            decreases self.table@.len() - i,
        {
            proof {
                assert(self.table@.take(i + 1).drop_last() =~= self.table@.take(i as int));
                lemma_sum_of_bound(self.table@.take(i + 1));
                assert((i + 1) * (u32::MAX as nat) <= 180 * (u32::MAX as nat)) by (nonlinear_arith)
                    requires
                        i + 1 <= 180,
                ;
            }
            let e = self.table[i];
            if e < t_min {
                t_min = e;
            }
            if e > t_max {
                t_max = e;
            }
            t_sum = t_sum + e as u64;
            i = i + 1;
        }
        proof {
            assert(self.table@.take(i as int) =~= self.table@);
        }
        (t_min, t_max, t_sum / (TIMES_LEN as u64))
    }
}

/// `pop` right after `push` closes the level that `push` opened: in the
/// entries with the new `Push` and then a `Pop` at the end, the `Pop`
/// matches that `Push`.
pub proof fn law_pop_closes_last_push<T>(s: Seq<Item<T>>, name: &'static str, v: T)
    ensures
        ({
            let t = s.push(Item::Push(name, v)).push(Item::Pop);
            &&& matches_pop(t, s.len() + 1int, s.len() as int)
            &&& matching_push(t, s.len() + 1int) == s.len()
        }),
{
    let t = s.push(Item::Push(name, v)).push(Item::Pop);
    let n = s.len() as int;
    let p = n + 1;
    assert(range_weight(t, p + 1, p + 1) == 0);
    assert(range_weight(t, p, p + 1) == 1);
    assert(range_weight(t, n, p + 1) == 0);
    assert(matches_pop(t, p, n));
    lemma_matches_pop_unique(t, p, n, matching_push(t, p));
}

} // verus!
