//! Fallible lazy sequences, read once from the front.
use vstd::prelude::*;

verus! {

/// A sequence of outcomes, each an item or an error, pulled one at a time.
pub trait Source<T>: Sized {
    type Error;

    /// What is left to pull, in order.  An implementation written outside
    /// verified code cannot define it and keeps this default, which says the
    /// source is empty; such an implementation is held to nothing, and what
    /// Verus proves of sources holds only of implementations that define
    /// `rest`.
    open spec fn rest(&self) -> Seq<Result<T, Self::Error>> {
        Seq::empty()
    }

    fn next(&mut self) -> (r: Option<Result<T, Self::Error>>)
        ensures
            old(self).rest().len() == 0 ==> r is None && final(self).rest() == old(self).rest(),
            old(self).rest().len() > 0 ==> r == Some(old(self).rest()[0]) && final(self).rest()
                == old(self).rest().drop_first(),
    ;
}

/// Every item, as a successful outcome.
pub open spec fn all_ok<T, E>(s: Seq<T>) -> Seq<Result<T, E>> {
    s.map_values(|x: T| Ok::<T, E>(x))
}

/// The items of outcomes that are all successes.
pub open spec fn ok_values<T, E>(s: Seq<Result<T, E>>) -> Seq<T> {
    s.map_values(|r: Result<T, E>| r->Ok_0)
}

/// No outcome of `s` is an error.
pub open spec fn no_errors<T, E>(s: Seq<Result<T, E>>) -> bool {
    forall|i: int| 0 <= i < s.len() ==> #[trigger] s[i] is Ok
}

/// The reverse of a sequence.
pub open spec fn reversed<A>(s: Seq<A>) -> Seq<A> {
    Seq::new(s.len(), |i: int| s[s.len() - 1 - i])
}

/// A source over outcomes held in memory.
pub struct VecSource<T, E> {
    /// The outcomes still to come, last one first.
    pub rev: Vec<Result<T, E>>,
}

impl<T, E> VecSource<T, E> {
    pub fn new(items: Vec<Result<T, E>>) -> (r: Self)
        ensures
            r.rest() == items@,
    {
        let ghost all = items@;
        let mut items = items;
        let mut rev: Vec<Result<T, E>> = Vec::new();
        while items.len() > 0
            invariant
                items@ + reversed(rev@) == all,
            decreases items.len(),
        {
            let ghost before = items@;
            let ghost rev_before = rev@;
            let x = items.pop().unwrap();
            rev.push(x);
            assert(items@ + reversed(rev@) =~= before + reversed(rev_before)) by {
                assert(before == items@.push(x));
            }
        }
        assert(reversed(rev@) =~= all);
        VecSource { rev }
    }
}

impl<T, E> Source<T> for VecSource<T, E> {
    type Error = E;

    open spec fn rest(&self) -> Seq<Result<T, E>> {
        reversed(self.rev@)
    }

    fn next(&mut self) -> (r: Option<Result<T, E>>) {
        let r = self.rev.pop();
        proof {
            if old(self).rev@.len() > 0 {
                assert(reversed(self.rev@) =~= reversed(old(self).rev@).drop_first());
            }
        }
        r
    }
}

} // verus!
