//! Comparators: total preorders on item types.
use std::cmp::Ordering;
use vstd::prelude::*;

verus! {

/// A total preorder on `T`, decided at run time by `compare`.
pub trait Compare<T> {
    /// `a` may come before `b` in sorted output.
    spec fn le(&self, a: T, b: T) -> bool;

    /// The relation is total and transitive.
    proof fn lemma_total_preorder(&self)
        ensures
            forall|a: T, b: T| #[trigger] self.le(a, b) || self.le(b, a),
            forall|a: T, b: T, c: T|
                #[trigger] self.le(a, b) && #[trigger] self.le(b, c) ==> self.le(a, c),
    ;

    fn compare(&self, a: &T, b: &T) -> (r: Ordering)
        ensures
            r == ordering_of(self.le(*a, *b), self.le(*b, *a)),
    ;
}

/// The `Ordering` that a pair of `le` answers stands for.
pub open spec fn ordering_of(ab: bool, ba: bool) -> Ordering {
    if ab && ba {
        Ordering::Equal
    } else if ab {
        Ordering::Less
    } else {
        Ordering::Greater
    }
}

/// The order of the integers.
#[derive(Clone, Copy)]
pub struct Natural;

/// The opposite of another comparator.
#[derive(Clone, Copy)]
pub struct Reversed<C> {
    pub inner: C,
}

/// Compares pairs by their first component only.
#[derive(Clone, Copy)]
pub struct ByFirst<C> {
    pub inner: C,
}

impl Compare<i32> for Natural {
    open spec fn le(&self, a: i32, b: i32) -> bool {
        a <= b
    }

    proof fn lemma_total_preorder(&self) {
    }

    fn compare(&self, a: &i32, b: &i32) -> (r: Ordering) {
        if *a < *b {
            Ordering::Less
        } else if *a == *b {
            Ordering::Equal
        } else {
            Ordering::Greater
        }
    }
}

impl Compare<i64> for Natural {
    open spec fn le(&self, a: i64, b: i64) -> bool {
        a <= b
    }

    proof fn lemma_total_preorder(&self) {
    }

    fn compare(&self, a: &i64, b: &i64) -> (r: Ordering) {
        if *a < *b {
            Ordering::Less
        } else if *a == *b {
            Ordering::Equal
        } else {
            Ordering::Greater
        }
    }
}

impl Compare<u64> for Natural {
    open spec fn le(&self, a: u64, b: u64) -> bool {
        a <= b
    }

    proof fn lemma_total_preorder(&self) {
    }

    fn compare(&self, a: &u64, b: &u64) -> (r: Ordering) {
        if *a < *b {
            Ordering::Less
        } else if *a == *b {
            Ordering::Equal
        } else {
            Ordering::Greater
        }
    }
}

/// Byte strings in lexicographic order: the first differing byte decides,
/// and a prefix comes before the longer string.
pub open spec fn lex_le(a: Seq<u8>, b: Seq<u8>) -> bool
    decreases a.len(),
{
    if a.len() == 0 {
        true
    } else if b.len() == 0 {
        false
    } else if a[0] != b[0] {
        a[0] < b[0]
    } else {
        lex_le(a.drop_first(), b.drop_first())
    }
}

proof fn lemma_lex_total(a: Seq<u8>, b: Seq<u8>)
    ensures
        lex_le(a, b) || lex_le(b, a),
    decreases a.len(),
{
    if a.len() > 0 && b.len() > 0 && a[0] == b[0] {
        lemma_lex_total(a.drop_first(), b.drop_first());
    }
}

proof fn lemma_lex_trans(a: Seq<u8>, b: Seq<u8>, c: Seq<u8>)
    requires
        lex_le(a, b),
        lex_le(b, c),
    ensures
        lex_le(a, c),
    decreases a.len(),
{
    if a.len() > 0 && b.len() > 0 && c.len() > 0 && a[0] == b[0] && b[0] == c[0] {
        lemma_lex_trans(a.drop_first(), b.drop_first(), c.drop_first());
    }
}

proof fn lemma_lex_skip(a: Seq<u8>, b: Seq<u8>, i: int)
    requires
        0 <= i <= a.len(),
        i <= b.len(),
        a.take(i) == b.take(i),
    ensures
        lex_le(a, b) == lex_le(a.skip(i), b.skip(i)),
    decreases i,
{
    if i > 0 {
        assert(a[0] == a.take(i)[0]);
        assert(b[0] == b.take(i)[0]);
        assert(a.drop_first().take(i - 1) =~= b.drop_first().take(i - 1)) by {
            assert forall|k: int| 0 <= k < i - 1 implies a.drop_first()[k] == b.drop_first()[k] by {
                assert(a.take(i)[k + 1] == b.take(i)[k + 1]);
                assert(a.take(i)[k + 1] == a[k + 1]);
                assert(b.take(i)[k + 1] == b[k + 1]);
            }
        }
        lemma_lex_skip(a.drop_first(), b.drop_first(), i - 1);
        assert(a.drop_first().skip(i - 1) =~= a.skip(i));
        assert(b.drop_first().skip(i - 1) =~= b.skip(i));
    } else {
        assert(a.skip(0) =~= a);
        assert(b.skip(0) =~= b);
    }
}

impl Compare<Vec<u8>> for Natural {
    open spec fn le(&self, a: Vec<u8>, b: Vec<u8>) -> bool {
        lex_le(a@, b@)
    }

    proof fn lemma_total_preorder(&self) {
        assert forall|a: Vec<u8>, b: Vec<u8>| #[trigger] self.le(a, b) || self.le(b, a) by {
            lemma_lex_total(a@, b@);
        }
        assert forall|a: Vec<u8>, b: Vec<u8>, c: Vec<u8>|
            #[trigger] self.le(a, b) && #[trigger] self.le(b, c) implies self.le(a, c) by {
            lemma_lex_trans(a@, b@, c@);
        }
    }

    fn compare(&self, a: &Vec<u8>, b: &Vec<u8>) -> (r: Ordering) {
        let n = if a.len() < b.len() {
            a.len()
        } else {
            b.len()
        };
        let mut i: usize = 0;
        while i < n
            invariant
                n <= a@.len(),
                n <= b@.len(),
                i <= n,
                a@.take(i as int) == b@.take(i as int),
            decreases n - i,
        {
            if a[i] != b[i] {
                proof {
                    lemma_lex_skip(a@, b@, i as int);
                    lemma_lex_skip(b@, a@, i as int);
                    assert(a@.skip(i as int)[0] == a@[i as int]);
                    assert(b@.skip(i as int)[0] == b@[i as int]);
                }
                if a[i] < b[i] {
                    return Ordering::Less;
                } else {
                    return Ordering::Greater;
                }
            }
            assert(a@.take(i + 1) =~= b@.take(i + 1)) by {
                assert(a@.take(i + 1) =~= a@.take(i as int).push(a@[i as int]));
                assert(b@.take(i + 1) =~= b@.take(i as int).push(b@[i as int]));
            }
            i += 1;
        }
        proof {
            lemma_lex_skip(a@, b@, n as int);
            lemma_lex_skip(b@, a@, n as int);
        }
        if a.len() < b.len() {
            Ordering::Less
        } else if a.len() == b.len() {
            Ordering::Equal
        } else {
            Ordering::Greater
        }
    }
}

impl<T, C: Compare<T>> Compare<T> for Reversed<C> {
    open spec fn le(&self, a: T, b: T) -> bool {
        self.inner.le(b, a)
    }

    proof fn lemma_total_preorder(&self) {
        self.inner.lemma_total_preorder();
    }

    fn compare(&self, a: &T, b: &T) -> (r: Ordering) {
        self.inner.compare(b, a)
    }
}

impl<A, B, C: Compare<A>> Compare<(A, B)> for ByFirst<C> {
    open spec fn le(&self, a: (A, B), b: (A, B)) -> bool {
        self.inner.le(a.0, b.0)
    }

    proof fn lemma_total_preorder(&self) {
        self.inner.lemma_total_preorder();
        assert forall|a: (A, B), b: (A, B), c: (A, B)|
            #[trigger] self.le(a, b) && #[trigger] self.le(b, c) implies self.le(a, c) by {
            assert(self.inner.le(a.0, b.0) && self.inner.le(b.0, c.0));
        }
    }

    fn compare(&self, a: &(A, B), b: &(A, B)) -> (r: Ordering) {
        self.inner.compare(&a.0, &b.0)
    }
}

} // verus!

verus! {

/// `s` is in order under `c`.
pub open spec fn sorted_by<T, C: Compare<T>>(c: C, s: Seq<T>) -> bool {
    forall|i: int, j: int| 0 <= i < j < s.len() ==> c.le(#[trigger] s[i], #[trigger] s[j])
}

/// `a` and `b` are equal under `c`.
pub open spec fn equiv<T, C: Compare<T>>(c: C, a: T, b: T) -> bool {
    c.le(a, b) && c.le(b, a)
}

/// `r` is `s` sorted stably under `c`: the same items, in order, and the
/// items equal to any one value in the order they had in `s`.
pub open spec fn is_stable_sort<T, C: Compare<T>>(c: C, r: Seq<T>, s: Seq<T>) -> bool {
    &&& sorted_by(c, r)
    &&& r.to_multiset() == s.to_multiset()
    &&& forall|x: T| #[trigger] equal_items(c, r, x) == equal_items(c, s, x)
}

/// The items of `s` equal to `x` under `c`, in order.
pub open spec fn equal_items<T, C: Compare<T>>(c: C, s: Seq<T>, x: T) -> Seq<T> {
    s.filter(equiv_to(c, x))
}

/// Being equal to `x` under `c`.
pub open spec fn equiv_to<T, C: Compare<T>>(c: C, x: T) -> spec_fn(T) -> bool {
    |y: T| equiv(c, x, y)
}

/// Filtering a sequence that starts with `a`.
pub proof fn lemma_equal_items_cons<T, C: Compare<T>>(c: C, a: T, s: Seq<T>, x: T)
    ensures
        equal_items(c, seq![a] + s, x) == if equiv(c, x, a) {
            seq![a] + equal_items(c, s, x)
        } else {
            equal_items(c, s, x)
        },
{
    Seq::filter_distributes_over_add(seq![a], s, equiv_to(c, x));
    reveal_with_fuel(Seq::filter, 2);
    assert(seq![a].drop_last() =~= Seq::<T>::empty());
    assert(Seq::<T>::empty().filter(equiv_to(c, x)) =~= Seq::<T>::empty());
    if equiv(c, x, a) {
        assert(seq![a].filter(equiv_to(c, x)) =~= seq![a]);
    } else {
        assert(seq![a].filter(equiv_to(c, x)) =~= Seq::<T>::empty());
        assert(Seq::<T>::empty() + equal_items(c, s, x) =~= equal_items(c, s, x));
    }
}

} // verus!
