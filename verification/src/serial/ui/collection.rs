use vstd::prelude::*;
use crate::util::str_eq;

verus! {

broadcast use vstd::string::group_string_axioms;

/// A value of a collection, found again by its id.
pub struct Item<T> {
    pub id: String,
    pub active: bool,
    pub value: T,
}

/// Values kept by id, in the order in which they were first asked for.
///
/// `index` is where the last lookup found its item; the next lookup starts
/// there, as items tend to be asked for in the same order every frame.
pub struct Collection<T> {
    pub index: usize,
    pub content: Vec<Item<T>>,
}

/// The ids of the items, as text.
pub open spec fn item_ids<T>(s: Seq<Item<T>>) -> Seq<Seq<char>> {
    s.map_values(|it: Item<T>| it.id@)
}

/// The first position in `lo..hi` that holds `id`, if any.
pub open spec fn first_in(ids: Seq<Seq<char>>, id: Seq<char>, lo: int, hi: int) -> Option<int>
    decreases hi - lo,
{
    if lo >= hi {
        None
    } else if ids[lo] == id {
        Some(lo)
    } else {
        first_in(ids, id, lo + 1, hi)
    }
}

/// Where a lookup of `id` that starts at `start` finds it: the first match
/// from `start` on, or else the first match before `start`.
pub open spec fn lookup(ids: Seq<Seq<char>>, id: Seq<char>, start: int) -> Option<int> {
    match first_in(ids, id, start, ids.len() as int) {
        Some(k) => Some(k),
        None => first_in(ids, id, 0, start),
    }
}

/// The ids after `item` asked for `id` with the lookup starting at `start`:
/// unchanged if `id` was found, else `id` added at the end.
pub open spec fn ids_after_item(ids: Seq<Seq<char>>, id: Seq<char>, start: int) -> Seq<Seq<char>> {
    match lookup(ids, id, start) {
        Some(_) => ids,
        None => ids.push(id),
    }
}

/// The position of the item that `item` hands out.
pub open spec fn position_of_item(ids: Seq<Seq<char>>, id: Seq<char>, start: int) -> int {
    match lookup(ids, id, start) {
        Some(k) => k,
        None => ids.len() as int,
    }
}

/// The values of the active items, in order.
pub open spec fn active_values<T>(s: Seq<Item<T>>) -> Seq<T>
    decreases s.len(),
{
    if s.len() == 0 {
        Seq::empty()
    } else {
        let rest = active_values(s.drop_last());
        if s.last().active {
            rest.push(s.last().value)
        } else {
            rest
        }
    }
}

/// The position in `s` of the active item that is the `n`-th among the active ones.
pub open spec fn nth_active<T>(s: Seq<Item<T>>, n: int) -> int
    decreases s.len(),
{
    if s.len() == 0 {
        0
    } else if s.last().active && n == active_values(s.drop_last()).len() {
        s.len() - 1
    } else {
        nth_active(s.drop_last(), n)
    }
}

/// Skipping positions that do not hold `id` does not change the first match.
proof fn lemma_first_in_skip(ids: Seq<Seq<char>>, id: Seq<char>, lo: int, mid: int, hi: int)
    requires
        lo <= mid <= hi,
        forall|j: int| lo <= j < mid ==> ids[j] != id,
    ensures
        first_in(ids, id, lo, hi) == first_in(ids, id, mid, hi),
    decreases mid - lo,
{
    if lo < mid {
        lemma_first_in_skip(ids, id, lo + 1, mid, hi);
    }
}

/// A match found by `first_in` holds the id and lies in its range, and no
/// position of the range before it does.
proof fn lemma_first_in(ids: Seq<Seq<char>>, id: Seq<char>, lo: int, hi: int)
    ensures
        first_in(ids, id, lo, hi) matches Some(k) ==> lo <= k < hi && ids[k] == id && forall|j: int|
            lo <= j < k ==> ids[j] != id,
        first_in(ids, id, lo, hi) is None ==> forall|j: int| lo <= j < hi ==> ids[j] != id,
    decreases hi - lo,
{
    if lo < hi {
        lemma_first_in(ids, id, lo + 1, hi);
    }
}

impl<T> Collection<T> {
    pub fn new() -> (c: Collection<T>)
        ensures
            c.index == 0,
            c.content@ == Seq::<Item<T>>::empty(),
    {
        Collection { index: 0, content: Vec::new() }
    }

    /// The position of the item with the id `id`: the first one from `index`
    /// on, or else the first one before `index`.
    pub fn item_index(&mut self, id: &str) -> (r: Option<usize>)
        requires
            old(self).index <= old(self).content.len(),
        ensures
            *final(self) == *old(self),
            r == (match lookup(item_ids(old(self).content@), id@, old(self).index as int) {
                Some(k) => Some(k as usize),
                None => None::<usize>,
            }),
    {
        let ghost ids = item_ids(self.content@);
        let n = self.content.len();
        let mut k = self.index;
        while k < n
            invariant
                self.index <= k <= n,
                n == self.content.len(),
                ids == item_ids(self.content@),
                first_in(ids, id@, self.index as int, n as int) == first_in(ids, id@, k as int, n as int),
            decreases n - k,
        {
            if str_eq(self.content[k].id.as_str(), id) {
                return Some(k);
            }
            proof {
                lemma_first_in_skip(ids, id@, k as int, k + 1, n as int);
            }
            k = k + 1;
        }
        let mut k: usize = 0;
        while k < self.index
            invariant
                k <= self.index <= n,
                n == self.content.len(),
                ids == item_ids(self.content@),
                first_in(ids, id@, self.index as int, n as int) is None,
                first_in(ids, id@, 0, self.index as int) == first_in(ids, id@, k as int, self.index as int),
            decreases self.index - k,
        {
            if str_eq(self.content[k].id.as_str(), id) {
                return Some(k);
            }
            proof {
                lemma_first_in_skip(ids, id@, k as int, k + 1, self.index as int);
            }
            k = k + 1;
        }
        None
    }

    /// The value of the item `id`, made with `def` if there is none yet; the
    /// next lookup starts at that item.
    pub fn item<F: FnOnce() -> T>(&mut self, id: &str, def: F) -> (r: &mut T)
        requires
            old(self).index <= old(self).content.len() < usize::MAX,
            call_requires(def, ()),
        ensures
            final(self).index == position_of_item(item_ids(old(self).content@), id@, old(self).index as int),
            item_ids(final(self).content@) == ids_after_item(item_ids(old(self).content@), id@, old(self).index as int),
            ({
                let old_content = old(self).content@;
                match lookup(item_ids(old_content), id@, old(self).index as int) {
                    Some(k) => {
                        &&& final(self).index == k
                        &&& *r == old_content[k].value
                        &&& final(self).content@ == old_content.update(
                            k,
                            Item { value: *final(r), ..old_content[k] },
                        )
                    },
                    None => {
                        &&& final(self).index == old_content.len()
                        &&& call_ensures(def, (), *r)
                        &&& final(self).content@.len() == old_content.len() + 1
                        &&& final(self).content@.take(old_content.len() as int) == old_content
                        &&& final(self).content@.last().id@ == id@
                        &&& final(self).content@.last().active
                        &&& final(self).content@.last().value == *final(r)
                    },
                }
            }),
    {
        let idx = self.item_index(id);
        let idx = match idx {
            Some(i) => i,
            None => {
                let v = def();
                self.content.push(Item { id: id.to_string(), active: true, value: v });
                self.content.len() - 1
            },
        };
        proof {
            lemma_first_in(item_ids(old(self).content@), id@, old(self).index as int, old(self).content.len() as int);
            lemma_first_in(item_ids(old(self).content@), id@, 0, old(self).index as int);
        }
        self.index = idx;
        let ghost c = self.content@;
        let it = &mut self.content[idx];
        let r = &mut it.value;
        proof {
            let old_content = old(self).content@;
            let ids0 = item_ids(old_content);
            match lookup(ids0, id@, old(self).index as int) {
                Some(k) => {
                    assert(item_ids(old_content.update(k, Item { value: *final(r), ..old_content[k] })) =~= ids0);
                },
                None => {
                    assert(item_ids(c) =~= ids0.push(id@));
                    assert(item_ids(c.update(idx as int, Item { value: *final(r), ..c[idx as int] }))
                        =~= item_ids(c));
                },
            }
        }
        r
    }

    /// The values of the active items, in order.
    pub fn iter(&self) -> (r: Vec<&T>)
        ensures
            r@.map_values(|v: &T| *v) == active_values(self.content@),
    {
        let mut r: Vec<&T> = Vec::new();
        let n = self.content.len();
        let mut i: usize = 0;
        while i < n
            invariant
                i <= n,
                n == self.content.len(),
                r@.map_values(|v: &T| *v) == active_values(self.content@.take(i as int)),
            decreases n - i,
        {
            proof {
                assert(self.content@.take(i + 1).drop_last() =~= self.content@.take(i as int));
            }
            let ghost before = r@;
            if self.content[i].active {
                r.push(&self.content[i].value);
                proof {
                    assert(r@.map_values(|v: &T| *v) =~= before.map_values(|v: &T| *v).push(
                        self.content@[i as int].value,
                    ));
                }
            }
            i = i + 1;
        }
        proof {
            assert(self.content@.take(n as int) =~= self.content@);
        }
        r
    }

    /// The value of the `n`-th active item, to be changed in place; the active
    /// values are walked by counting `n` up from zero.
    pub fn iter_mut(&mut self, n: usize) -> (r: Option<&mut T>)
        ensures
            r is Some == (n < active_values(old(self).content@).len()),
            r is None ==> *final(self) == *old(self),
            r matches Some(v) ==> {
                let k = nth_active(old(self).content@, n as int);
                &&& 0 <= k < old(self).content@.len()
                &&& *v == active_values(old(self).content@)[n as int]
                &&& final(self).index == old(self).index
                &&& final(self).content@ == old(self).content@.update(
                    k,
                    Item { value: *final(v), ..old(self).content@[k] },
                )
            },
    {
        let len = self.content.len();
        let mut seen: usize = 0;
        let mut i: usize = 0;
        while i < len
            invariant
                i <= len,
                len == self.content.len(),
                *self == *old(self),
                seen == active_values(self.content@.take(i as int)).len(),
                seen <= i,
                seen <= n,
            decreases len - i,
        {
            proof {
                assert(self.content@.take(i + 1).drop_last() =~= self.content@.take(i as int));
            }
            if self.content[i].active {
                if seen == n {
                    proof {
                        lemma_nth_active_prefix(self.content@, i as int, n as int);
                    }
                    let it = &mut self.content[i];
                    return Some(&mut it.value);
                }
                seen = seen + 1;
            }
            i = i + 1;
        }
        proof {
            assert(self.content@.take(len as int) =~= self.content@);
        }
        None
    }
}

/// The `n`-th active value sits at position `i` when the item there is active
/// and exactly `n` active items come before it.
proof fn lemma_nth_active_prefix<T>(s: Seq<Item<T>>, i: int, n: int)
    requires
        0 <= i < s.len(),
        s[i].active,
        active_values(s.take(i)).len() == n,
    ensures
        nth_active(s, n) == i,
        n < active_values(s).len(),
        active_values(s)[n] == s[i].value,
    decreases s.len(),
{
    if i == s.len() - 1 {
        assert(s.drop_last() =~= s.take(i));
    } else {
        let t = s.drop_last();
        assert(t.take(i) =~= s.take(i));
        lemma_nth_active_prefix(t, i, n);
        lemma_active_values_len_mono(t, i);
        assert(t.take(i + 1).drop_last() =~= t.take(i));
        assert(active_values(t.take(i + 1)).len() == n + 1);
        lemma_active_values_len_mono(t, i + 1);
        if s.last().active {
            assert(n != active_values(t).len());
        }
    }
}

/// Active values of a prefix are a prefix of the active values.
proof fn lemma_active_values_len_mono<T>(s: Seq<Item<T>>, i: int)
    requires
        0 <= i <= s.len(),
    ensures
        active_values(s.take(i)).len() <= active_values(s).len(),
        active_values(s.take(i)) == active_values(s).take(active_values(s.take(i)).len() as int),
    decreases s.len(),
{
    if i == s.len() {
        assert(s.take(i) =~= s);
        assert(active_values(s).take(active_values(s).len() as int) =~= active_values(s));
    } else {
        let t = s.drop_last();
        assert(t.take(i) =~= s.take(i));
        lemma_active_values_len_mono(t, i);
        let a = active_values(t.take(i));
        if s.last().active {
            assert(active_values(s).take(a.len() as int) =~= active_values(t).take(a.len() as int));
        }
    }
}

/// A lookup right after `item(id)` finds the item that `item` handed out, at
/// the position where it starts: asking for an id adds it at most once.
pub proof fn law_item_found_again(ids: Seq<Seq<char>>, id: Seq<char>, start: int)
    requires
        0 <= start <= ids.len(),
    ensures
        lookup(ids_after_item(ids, id, start), id, position_of_item(ids, id, start)) == Some(
            position_of_item(ids, id, start),
        ),
{
    let ids2 = ids_after_item(ids, id, start);
    let p = position_of_item(ids, id, start);
    lemma_first_in(ids, id, start, ids.len() as int);
    lemma_first_in(ids, id, 0, start);
    assert(ids2[p] == id);
    assert(first_in(ids2, id, p, ids2.len() as int) == Some(p));
}

} // verus!
