use vstd::prelude::*;

verus! {

/// The result of comparing two items, with the variants of `core::cmp::Ordering`.
#[derive(PartialEq, Eq, Structural, Clone, Copy, Debug)]
pub enum Order {
    Less,
    Equal,
    Greater,
}

/// One step of walking two sequences side by side: an item only found on the
/// left, one only found on the right, or a pair that compared equal.
pub enum ComparedValue<L, R> {
    Left(L),
    Right(R),
    Both(L, R),
}

/// The items of `s` in reverse order.
pub open spec fn rev<A>(s: Seq<A>) -> Seq<A> {
    Seq::new(s.len(), |i: int| s[s.len() - 1 - i])
}

/// Walks two sequences at the same time, like the merge step of merge sort.
/// At each step the first remaining items of both sides are compared: the
/// smaller one is handed out alone, and two equal ones are handed out together.
/// When one side is exhausted the rest of the other side is handed out alone.
pub struct CompareIter<L, R, F> {
    /// the remaining left items, the next one last
    left: Vec<L>,
    /// the remaining right items, the next one last
    right: Vec<R>,
    fcmp: F,
}

impl<L, R, F> CompareIter<L, R, F> {
    /// The left items that have not been handed out yet, in order.
    pub closed spec fn left_rest(&self) -> Seq<L> {
        rev(self.left@)
    }

    /// The right items that have not been handed out yet, in order.
    pub closed spec fn right_rest(&self) -> Seq<R> {
        rev(self.right@)
    }

    /// The comparison function.
    pub closed spec fn comparator(&self) -> F {
        self.fcmp
    }

    /// The comparison function can be called on any two items.
    pub closed spec fn comparable(&self) -> bool where F: Fn(&L, &R) -> Order {
        forall|l: &L, r: &R| call_requires(self.fcmp, (l, r))
    }

    pub fn new(left: Vec<L>, right: Vec<R>, fcmp: F) -> (it: Self) where F: Fn(&L, &R) -> Order,
        requires
            forall|l: &L, r: &R| call_requires(fcmp, (l, r)),
        ensures
            it.comparable(),
            it.left_rest() == left@,
            it.right_rest() == right@,
            it.comparator() == fcmp,
    {
        let l = reversed(left);
        let r = reversed(right);
        CompareIter { left: l, right: r, fcmp }
    }

    /// Hand out the next step. `None` once both sides are exhausted.
    pub fn next(&mut self) -> (res: Option<ComparedValue<L, R>>) where F: Fn(&L, &R) -> Order,
        requires
            old(self).comparable(),
        ensures
            final(self).comparable(),
            final(self).comparator() == old(self).comparator(),
            match res {
                None => {
                    &&& old(self).left_rest().len() == 0
                    &&& old(self).right_rest().len() == 0
                    &&& final(self).left_rest() == old(self).left_rest()
                    &&& final(self).right_rest() == old(self).right_rest()
                },
                Some(ComparedValue::Left(l)) => {
                    &&& old(self).left_rest().len() > 0
                    &&& l == old(self).left_rest()[0]
                    &&& final(self).left_rest() == old(self).left_rest().drop_first()
                    &&& final(self).right_rest() == old(self).right_rest()
                    &&& old(self).right_rest().len() > 0 ==> call_ensures(
                        old(self).comparator(),
                        (&l, &old(self).right_rest()[0]),
                        Order::Less,
                    )
                },
                Some(ComparedValue::Right(r)) => {
                    &&& old(self).right_rest().len() > 0
                    &&& r == old(self).right_rest()[0]
                    &&& final(self).right_rest() == old(self).right_rest().drop_first()
                    &&& final(self).left_rest() == old(self).left_rest()
                    &&& old(self).left_rest().len() > 0 ==> call_ensures(
                        old(self).comparator(),
                        (&old(self).left_rest()[0], &r),
                        Order::Greater,
                    )
                },
                Some(ComparedValue::Both(l, r)) => {
                    &&& old(self).left_rest().len() > 0
                    &&& old(self).right_rest().len() > 0
                    &&& l == old(self).left_rest()[0]
                    &&& r == old(self).right_rest()[0]
                    &&& final(self).left_rest() == old(self).left_rest().drop_first()
                    &&& final(self).right_rest() == old(self).right_rest().drop_first()
                    &&& call_ensures(old(self).comparator(), (&l, &r), Order::Equal)
                },
            },
    {
        let nl = self.left.len();
        let nr = self.right.len();
        let ghost ol = self.left@;
        let ghost or = self.right@;
        if nl == 0 && nr == 0 {
            return None;
        }
        if nl == 0 {
            let r = self.right.pop().unwrap();
            proof {
                assert(rev(self.right@) =~= rev(or).drop_first());
            }
            return Some(ComparedValue::Right(r));
        }
        if nr == 0 {
            let l = self.left.pop().unwrap();
            proof {
                assert(rev(self.left@) =~= rev(ol).drop_first());
            }
            return Some(ComparedValue::Left(l));
        }
        let ord = (self.fcmp)(&self.left[nl - 1], &self.right[nr - 1]);
        match ord {
            Order::Less => {
                let l = self.left.pop().unwrap();
                proof {
                    assert(rev(self.left@) =~= rev(ol).drop_first());
                }
                Some(ComparedValue::Left(l))
            },
            Order::Equal => {
                let l = self.left.pop().unwrap();
                let r = self.right.pop().unwrap();
                proof {
                    assert(rev(self.left@) =~= rev(ol).drop_first());
                    assert(rev(self.right@) =~= rev(or).drop_first());
                }
                Some(ComparedValue::Both(l, r))
            },
            Order::Greater => {
                let r = self.right.pop().unwrap();
                proof {
                    assert(rev(self.right@) =~= rev(or).drop_first());
                }
                Some(ComparedValue::Right(r))
            },
        }
    }
}

/// The items of `v` in reverse order.
pub(crate) fn reversed<A>(v: Vec<A>) -> (r: Vec<A>)
    ensures
        rev(r@) == v@,
{
    let ghost s = v@;
    let mut v = v;
    let mut r: Vec<A> = Vec::new();
    while v.len() > 0
        invariant
            forall|i: int| 0 <= i < v@.len() ==> v@[i] == s[i],
            v@.len() <= s.len(),
            r@.len() == s.len() - v@.len(),
            forall|i: int| 0 <= i < r@.len() ==> r@[i] == s[s.len() - 1 - i],
        decreases v@.len(),
    {
        let x = v.pop().unwrap();
        r.push(x);
    }
    assert(rev(r@) =~= s);
    r
}

} // verus!
