//! K-way merge of sorted runs.
use crate::order::{
    equal_items, equiv, equiv_to, is_stable_sort, lemma_equal_items_cons, sorted_by, Compare,
};
use crate::source::{no_errors, ok_values, Source};
use std::cmp::Ordering;
use vstd::multiset::Multiset;
use vstd::prelude::*;

verus! {

/// The item a run starts with, if it starts with one.
pub open spec fn head_of<T, E>(run: Seq<Result<T, E>>) -> Option<T> {
    if run.len() > 0 && run[0] is Ok {
        Some(run[0]->Ok_0)
    } else {
        None
    }
}

/// A run with its first outcome pulled.
pub open spec fn tail_of<T, E>(run: Seq<Result<T, E>>) -> Seq<Result<T, E>> {
    if run.len() > 0 {
        run.drop_first()
    } else {
        run
    }
}

/// The run's next outcome is an error.
pub open spec fn starts_with_err<T, E>(run: Seq<Result<T, E>>) -> bool {
    run.len() > 0 && run[0] is Err
}

/// The first run from `s` on that starts with an error; `runs.len()` if
/// there is none.
pub open spec fn first_err<T, E>(runs: Seq<Seq<Result<T, E>>>, s: int) -> int
    decreases runs.len() - s,
{
    if s >= runs.len() {
        runs.len() as int
    } else if starts_with_err(runs[s]) {
        s
    } else {
        first_err(runs, s + 1)
    }
}

/// Heads after the first outcome of runs `s..p` was pulled.
pub open spec fn init_heads<T, E>(
    heads: Seq<Option<T>>,
    runs: Seq<Seq<Result<T, E>>>,
    s: int,
    p: int,
) -> Seq<Option<T>> {
    Seq::new(heads.len(), |i: int| if s <= i < p { head_of(runs[i]) } else { heads[i] })
}

/// Runs after the first outcome of runs `s..p` was pulled.
pub open spec fn init_runs<T, E>(runs: Seq<Seq<Result<T, E>>>, s: int, p: int) -> Seq<
    Seq<Result<T, E>>,
> {
    Seq::new(runs.len(), |i: int| if s <= i < p { tail_of(runs[i]) } else { runs[i] })
}

/// `heads[j]` is the least head, and the first of the least ones.
pub open spec fn is_first_min<T, C: Compare<T>>(c: C, heads: Seq<Option<T>>, j: int) -> bool {
    &&& 0 <= j < heads.len()
    &&& heads[j] is Some
    &&& forall|i: int|
        #![trigger heads[i]]
        0 <= i < heads.len() && heads[i] is Some ==> {
            &&& i < j ==> !c.le(heads[i]->Some_0, heads[j]->Some_0)
            &&& j < i ==> c.le(heads[j]->Some_0, heads[i]->Some_0)
        }
}

/// One merge step on started runs: the least head leaves, and its run
/// refills the slot; an error from that run is emitted in place of the head
/// and closes the run.
pub open spec fn pop_step<T, E, C: Compare<T>>(
    c: C,
    heads: Seq<Option<T>>,
    runs: Seq<Seq<Result<T, E>>>,
) -> (Option<Result<T, E>>, Seq<Option<T>>, Seq<Seq<Result<T, E>>>) {
    if exists|j: int| is_first_min(c, heads, j) {
        let j = choose|j: int| is_first_min(c, heads, j);
        let run = runs[j];
        if starts_with_err(run) {
            (Some(Err(run[0]->Err_0)), heads.update(j, None), runs.update(j, run.drop_first()))
        } else {
            (Some(Ok(heads[j]->Some_0)), heads.update(j, head_of(run)), runs.update(j, tail_of(run)))
        }
    } else {
        (None, heads, runs)
    }
}

/// One call of the merger: runs from `s` on are started in index order, and
/// the first of them that starts with an error stops that and is emitted;
/// otherwise a merge step follows.  Gives the outcome, the heads, the runs
/// and the new count of started runs.
pub open spec fn merge_step<T, E, C: Compare<T>>(
    c: C,
    heads: Seq<Option<T>>,
    runs: Seq<Seq<Result<T, E>>>,
    s: int,
) -> (Option<Result<T, E>>, Seq<Option<T>>, Seq<Seq<Result<T, E>>>, int) {
    let p = first_err(runs, s);
    if p < runs.len() {
        (
            Some(Err(runs[p][0]->Err_0)),
            init_heads(heads, runs, s, p),
            init_runs(runs, s, p + 1),
            p + 1,
        )
    } else {
        let k = runs.len() as int;
        let popped = pop_step(c, init_heads(heads, runs, s, k), init_runs(runs, s, k));
        (popped.0, popped.1, popped.2, k)
    }
}

proof fn lemma_first_err_skip<T, E>(runs: Seq<Seq<Result<T, E>>>, s: int, t: int)
    requires
        s <= t <= runs.len(),
        forall|i: int| s <= i < t ==> !starts_with_err(#[trigger] runs[i]),
    ensures
        first_err(runs, s) == first_err(runs, t),
    decreases t - s,
{
    if s < t {
        lemma_first_err_skip(runs, s + 1, t);
    }
}

proof fn lemma_first_min_unique<T, C: Compare<T>>(c: C, heads: Seq<Option<T>>, a: int, b: int)
    requires
        is_first_min(c, heads, a),
        is_first_min(c, heads, b),
    ensures
        a == b,
{
    if a < b {
        assert(heads[a] is Some);
    } else if b < a {
        assert(heads[b] is Some);
    }
}

/// The items a run still has to give: its buffered head, then the rest.
pub open spec fn pending<T, E>(head: Option<T>, run: Seq<Result<T, E>>) -> Seq<T> {
    match head {
        Some(x) => seq![x] + ok_values(run),
        None => ok_values(run),
    }
}

/// What each run still has to give.
pub open spec fn parts<T, E>(heads: Seq<Option<T>>, runs: Seq<Seq<Result<T, E>>>) -> Seq<Seq<T>> {
    Seq::new(runs.len(), |i: int| pending(heads[i], runs[i]))
}

/// All items of all parts, as a multiset.
pub open spec fn sum_ms<T>(ps: Seq<Seq<T>>) -> Multiset<T>
    decreases ps.len(),
{
    if ps.len() == 0 {
        Multiset::empty()
    } else {
        sum_ms(ps.drop_last()).add(ps.last().to_multiset())
    }
}

/// A merge state over runs that hold no error and are each in order:
/// every started run without a head is drained, and no run that is yet to
/// start has a head.
pub open spec fn merge_ready<T, E, C: Compare<T>>(
    c: C,
    heads: Seq<Option<T>>,
    runs: Seq<Seq<Result<T, E>>>,
    s: int,
) -> bool {
    &&& heads.len() == runs.len()
    &&& 0 <= s <= runs.len()
    &&& forall|i: int| 0 <= i < runs.len() ==> no_errors(#[trigger] runs[i])
    &&& forall|i: int| 0 <= i < runs.len() ==> sorted_by(c, #[trigger] pending(heads[i], runs[i]))
    &&& forall|i: int|
        #![trigger runs[i]]
        0 <= i < s && heads[i] is None ==> runs[i].len() == 0
    &&& forall|i: int| s <= i < runs.len() ==> #[trigger] heads[i] is None
}

proof fn lemma_sum_ms_update<T>(ps: Seq<Seq<T>>, j: int, v: Seq<T>)
    requires
        0 <= j < ps.len(),
    ensures
        sum_ms(ps.update(j, v)).add(ps[j].to_multiset()) =~= sum_ms(ps).add(v.to_multiset()),
    decreases ps.len(),
{
    let qs = ps.update(j, v);
    assert(sum_ms(qs) == sum_ms(qs.drop_last()).add(qs.last().to_multiset()));
    assert(sum_ms(ps) == sum_ms(ps.drop_last()).add(ps.last().to_multiset()));
    if j == ps.len() - 1 {
        assert(qs.drop_last() =~= ps.drop_last());
        assert(qs.last() == v);
    } else {
        assert(qs.drop_last() =~= ps.drop_last().update(j, v));
        assert(qs.last() == ps.last());
        lemma_sum_ms_update(ps.drop_last(), j, v);
    }
    assert forall|x: T|
        #[trigger] sum_ms(qs).add(ps[j].to_multiset()).count(x) == sum_ms(ps).add(
            v.to_multiset(),
        ).count(x) by {
        if j < ps.len() - 1 {
            assert(sum_ms(qs.drop_last()).add(ps[j].to_multiset()).count(x) == sum_ms(
                ps.drop_last(),
            ).add(v.to_multiset()).count(x));
        }
    }
}

proof fn lemma_sum_ms_empty<T>(ps: Seq<Seq<T>>)
    requires
        forall|i: int| 0 <= i < ps.len() ==> (#[trigger] ps[i]).len() == 0,
    ensures
        sum_ms(ps) =~= Multiset::<T>::empty(),
    decreases ps.len(),
{
    if ps.len() > 0 {
        lemma_sum_ms_empty(ps.drop_last());
        assert(ps.last() =~= Seq::<T>::empty());
        assert(ps.last().to_multiset() =~= Multiset::<T>::empty()) by {
            broadcast use vstd::seq_lib::group_to_multiset_ensures;
        }
    }
}

proof fn lemma_sum_ms_member<T>(ps: Seq<Seq<T>>, y: T)
    requires
        sum_ms(ps).contains(y),
    ensures
        exists|i: int, p: int| 0 <= i < ps.len() && 0 <= p < ps[i].len() && #[trigger] ps[i][p] == y,
    decreases ps.len(),
{
    broadcast use vstd::seq_lib::group_to_multiset_ensures;

    if ps.len() > 0 {
        let l = ps.drop_last();
        if sum_ms(l).contains(y) {
            lemma_sum_ms_member(l, y);
            let (i, p) = choose|i: int, p: int|
                0 <= i < l.len() && 0 <= p < l[i].len() && #[trigger] l[i][p] == y;
            assert(ps[i][p] == y);
        } else {
            assert(ps.last().to_multiset().contains(y));
            let p = ps.last().index_of(y);
            assert(ps[ps.len() - 1][p] == y);
        }
    }
}

proof fn lemma_first_min_exists<T, C: Compare<T>>(c: C, heads: Seq<Option<T>>)
    requires
        exists|i: int| 0 <= i < heads.len() && #[trigger] heads[i] is Some,
    ensures
        exists|j: int| is_first_min(c, heads, j),
    decreases heads.len(),
{
    c.lemma_total_preorder();
    let n = heads.len() - 1;
    let pre = heads.drop_last();
    if exists|i: int| 0 <= i < pre.len() && #[trigger] pre[i] is Some {
        lemma_first_min_exists(c, pre);
        let j0 = choose|j: int| is_first_min(c, pre, j);
        assert(heads[j0] == pre[j0]);
        let h0 = heads[j0]->Some_0;
        if heads[n] is Some && !c.le(h0, heads[n]->Some_0) {
            let hn = heads[n]->Some_0;
            assert forall|i: int|
                #![trigger heads[i]]
                0 <= i < heads.len() && heads[i] is Some implies {
                &&& i < n ==> !c.le(heads[i]->Some_0, hn)
                &&& n < i ==> c.le(hn, heads[i]->Some_0)
            } by {
                if i < n {
                    assert(pre[i] == heads[i]);
                    let hi = heads[i]->Some_0;
                    if c.le(hi, hn) {
                        if i < j0 {
                            assert(!c.le(hi, h0));
                            assert(c.le(h0, hi));
                        } else if j0 < i {
                            assert(c.le(h0, hi));
                        }
                        assert(c.le(h0, hn));
                    }
                }
            }
            assert(is_first_min(c, heads, n));
        } else {
            assert forall|i: int|
                #![trigger heads[i]]
                0 <= i < heads.len() && heads[i] is Some implies {
                &&& i < j0 ==> !c.le(heads[i]->Some_0, h0)
                &&& j0 < i ==> c.le(h0, heads[i]->Some_0)
            } by {
                if i < n {
                    assert(pre[i] == heads[i]);
                }
            }
            assert(is_first_min(c, heads, j0));
        }
    } else {
        assert(heads[n] is Some) by {
            let i = choose|i: int| 0 <= i < heads.len() && #[trigger] heads[i] is Some;
            if i < n {
                assert(pre[i] == heads[i]);
            }
        }
        assert forall|i: int|
            #![trigger heads[i]]
            0 <= i < heads.len() && heads[i] is Some implies {
            &&& i < n ==> !c.le(heads[i]->Some_0, heads[n]->Some_0)
            &&& n < i ==> c.le(heads[n]->Some_0, heads[i]->Some_0)
        } by {
            if i < n {
                assert(pre[i] == heads[i]);
            }
        }
        assert(is_first_min(c, heads, n));
    }
}

/// The items of each part that are equal to `x`, part by part.
pub open spec fn classes<T, C: Compare<T>>(c: C, ps: Seq<Seq<T>>, x: T) -> Seq<Seq<T>> {
    Seq::new(ps.len(), |i: int| equal_items(c, ps[i], x))
}

/// The items equal to `x` that the parts hold, in part order.
pub open spec fn class_items<T, C: Compare<T>>(c: C, ps: Seq<Seq<T>>, x: T) -> Seq<T> {
    classes(c, ps, x).flatten()
}

proof fn lemma_flatten_prepend<T>(es: Seq<Seq<T>>, j: int, a: T)
    requires
        0 <= j < es.len(),
        forall|i: int| 0 <= i < j ==> (#[trigger] es[i]).len() == 0,
    ensures
        es.update(j, seq![a] + es[j]).flatten() == seq![a] + es.flatten(),
    decreases j,
{
    let us = es.update(j, seq![a] + es[j]);
    if j == 0 {
        assert(us.drop_first() =~= es.drop_first());
        assert(us.flatten() == us[0] + us.drop_first().flatten());
        assert(es.flatten() == es[0] + es.drop_first().flatten());
        assert(us.flatten() =~= seq![a] + es.flatten());
    } else {
        let t = es.drop_first();
        assert forall|i: int| 0 <= i < j - 1 implies (#[trigger] t[i]).len() == 0 by {
            assert(t[i] == es[i + 1]);
        }
        lemma_flatten_prepend(t, j - 1, a);
        assert(us.drop_first() =~= t.update(j - 1, seq![a] + t[j - 1]));
        assert(es[0] =~= Seq::<T>::empty());
        assert(us[0] =~= Seq::<T>::empty());
        assert(us.flatten() == us[0] + us.drop_first().flatten());
        assert(es.flatten() == es[0] + es.drop_first().flatten());
        assert(us.flatten() =~= seq![a] + es.flatten());
    }
}

proof fn lemma_flatten_all_empty<T>(es: Seq<Seq<T>>)
    requires
        forall|i: int| 0 <= i < es.len() ==> (#[trigger] es[i]).len() == 0,
    ensures
        es.flatten() =~= Seq::<T>::empty(),
    decreases es.len(),
{
    if es.len() > 0 {
        let t = es.drop_first();
        assert forall|i: int| 0 <= i < t.len() implies (#[trigger] t[i]).len() == 0 by {
            assert(t[i] == es[i + 1]);
        }
        lemma_flatten_all_empty(t);
        assert(es[0] =~= Seq::<T>::empty());
    }
}

proof fn lemma_pending_pull<T, E>(run: Seq<Result<T, E>>)
    requires
        no_errors(run),
    ensures
        pending(head_of(run), tail_of(run)) == ok_values(run),
        head_of(run) is None ==> run.len() == 0,
        no_errors(tail_of(run)),
        run.len() > 0 ==> ok_values(run) == seq![run[0]->Ok_0] + ok_values(tail_of(run)),
{
    if run.len() > 0 {
        assert(run[0] is Ok);
        assert(ok_values(run) =~= seq![run[0]->Ok_0] + ok_values(run.drop_first()));
        assert forall|i: int| 0 <= i < tail_of(run).len() implies #[trigger] tail_of(run)[i] is Ok by {
            assert(run[i + 1] is Ok);
        }
    } else {
        assert(ok_values(run) =~= Seq::<T>::empty());
    }
}

proof fn lemma_pop_class<T, E, C: Compare<T>>(
    c: C,
    heads: Seq<Option<T>>,
    runs: Seq<Seq<Result<T, E>>>,
    j: int,
    y: T,
)
    requires
        merge_ready(c, heads, runs, runs.len() as int),
        is_first_min(c, heads, j),
    ensures
        class_items(c, parts(heads, runs), y) == equal_items(c, seq![heads[j]->Some_0], y)
            + class_items(
            c,
            parts(heads.update(j, head_of(runs[j])), runs.update(j, tail_of(runs[j]))),
            y,
        ),
{
    c.lemma_total_preorder();
    let x = heads[j]->Some_0;
    let run = runs[j];
    assert(no_errors(run));
    lemma_pending_pull(run);
    let ps = parts(heads, runs);
    let ps2 = parts(heads.update(j, head_of(run)), runs.update(j, tail_of(run)));
    assert(ps2 =~= ps.update(j, ok_values(run)));
    assert(ps[j] == seq![x] + ok_values(run));
    let es = classes(c, ps, y);
    let es2 = classes(c, ps2, y);
    lemma_equal_items_cons(c, x, ok_values(run), y);
    lemma_equal_items_cons(c, x, Seq::<T>::empty(), y);
    assert(seq![x] + Seq::<T>::empty() =~= seq![x]);
    assert(Seq::<T>::empty().filter(equiv_to(c, y)) =~= Seq::<T>::empty()) by {
        reveal_with_fuel(Seq::filter, 1);
    }
    if equiv(c, y, x) {
        assert forall|i: int| 0 <= i < j implies (#[trigger] es2[i]).len() == 0 by {
            assert(ps2[i] == ps[i]);
            assert(sorted_by(c, pending(heads[i], runs[i])));
            if heads[i] is None {
                assert(runs[i].len() == 0);
                assert(ok_values(runs[i]).len() == 0);
                assert(ps[i].len() == 0);
            } else {
                let hi = heads[i]->Some_0;
                assert(ps[i][0] == hi);
                assert(!c.le(hi, x));
                assert forall|k: int| 0 <= k < ps[i].len() implies !equiv_to(c, y)(
                    #[trigger] ps[i][k],
                ) by {
                    if k > 0 {
                        assert(c.le(hi, ps[i][k]));
                    }
                    if equiv(c, y, ps[i][k]) {
                        assert(c.le(ps[i][k], y));
                        assert(c.le(hi, y));
                        assert(c.le(hi, x));
                    }
                }
                assert(ps[i].all(|z: T| !equiv_to(c, y)(z)));
                ps[i].lemma_all_neg_filter_empty(equiv_to(c, y));
            }
        }
        assert(es =~= es2.update(j, seq![x] + es2[j]));
        lemma_flatten_prepend(es2, j, x);
    } else {
        assert(es =~= es2);
    }
}

proof fn lemma_pop_sorted<T, E, C: Compare<T>>(
    c: C,
    heads: Seq<Option<T>>,
    runs: Seq<Seq<Result<T, E>>>,
)
    requires
        merge_ready(c, heads, runs, runs.len() as int),
    ensures
        ({
            let (r, h2, rs2) = pop_step(c, heads, runs);
            &&& merge_ready(c, h2, rs2, runs.len() as int)
            &&& (r is None <==> sum_ms(parts(heads, runs)) == Multiset::<T>::empty())
            &&& r is None ==> forall|i: int|
                0 <= i < runs.len() ==> (#[trigger] parts(heads, runs)[i]).len() == 0
            &&& r is Some ==> forall|x: T|
                #[trigger] class_items(c, parts(heads, runs), x) == equal_items(
                    c,
                    seq![r->Some_0->Ok_0],
                    x,
                ) + class_items(c, parts(h2, rs2), x)
            &&& r is Some ==> {
                &&& r->Some_0 is Ok
                &&& sum_ms(parts(heads, runs)) == sum_ms(parts(h2, rs2)).insert(r->Some_0->Ok_0)
                &&& forall|i: int, p: int|
                    0 <= i < rs2.len() && 0 <= p < parts(h2, rs2)[i].len() ==> c.le(
                        r->Some_0->Ok_0,
                        #[trigger] parts(h2, rs2)[i][p],
                    )
            }
        }),
{
    c.lemma_total_preorder();
    let k = runs.len() as int;
    let ps = parts(heads, runs);
    if exists|i: int| 0 <= i < heads.len() && #[trigger] heads[i] is Some {
        lemma_first_min_exists(c, heads);
        let j = choose|j: int| is_first_min(c, heads, j);
        let run = runs[j];
        let x = heads[j]->Some_0;
        assert(no_errors(run));
        lemma_pending_pull(run);
        assert(!starts_with_err(run));
        let h2 = heads.update(j, head_of(run));
        let rs2 = runs.update(j, tail_of(run));
        let ps2 = parts(h2, rs2);
        assert(ps2 =~= ps.update(j, ok_values(run)));
        assert(ps[j] == seq![x] + ok_values(run));
        lemma_sum_ms_update(ps, j, ok_values(run));
        assert((seq![x] + ok_values(run)).to_multiset() =~= ok_values(run).to_multiset().insert(x))
            by {
            broadcast use vstd::seq_lib::group_to_multiset_ensures;

            vstd::seq_lib::lemma_multiset_commutative(seq![x], ok_values(run));
            assert(seq![x].to_multiset() =~= Multiset::<T>::empty().insert(x)) by {
                assert(seq![x] =~= Seq::<T>::empty().push(x));
            }
        }
        assert forall|y: T| #[trigger] sum_ms(ps).count(y) == sum_ms(ps2).insert(x).count(y) by {
            assert(sum_ms(ps2).add(ps[j].to_multiset()).count(y) == sum_ms(ps).add(
                ok_values(run).to_multiset(),
            ).count(y));
        }
        assert(sum_ms(ps) =~= sum_ms(ps2).insert(x));
        assert(sum_ms(ps).count(x) > 0);
        assert(sum_ms(ps) != Multiset::<T>::empty());
        assert forall|i: int, p: int|
            0 <= i < rs2.len() && 0 <= p < ps2[i].len() implies c.le(x, #[trigger] ps2[i][p]) by {
            if i == j {
                assert(ps2[j] == ok_values(run));
                assert(ps2[i][p] == ps[j][p + 1]);
                assert(ps[j][0] == x);
                assert(sorted_by(c, pending(heads[j], runs[j])));
            } else {
                assert(ps2[i] == ps[i]);
                assert(sorted_by(c, pending(heads[i], runs[i])));
                if heads[i] is None {
                    assert(runs[i].len() == 0);
                    assert(ok_values(runs[i]).len() == 0);
                } else {
                    let hi = heads[i]->Some_0;
                    assert(ps[i][0] == hi);
                    if i < j {
                        assert(!c.le(hi, x));
                    }
                    assert(c.le(x, hi));
                    if p > 0 {
                        assert(c.le(hi, ps[i][p]));
                    }
                }
            }
        }
        assert forall|i: int| 0 <= i < rs2.len() implies no_errors(#[trigger] rs2[i]) by {
            if i != j {
                assert(rs2[i] == runs[i]);
            }
        }
        assert forall|i: int| 0 <= i < rs2.len() implies sorted_by(
            c,
            #[trigger] pending(h2[i], rs2[i]),
        ) by {
            if i == j {
                let q = pending(heads[j], runs[j]);
                assert(sorted_by(c, q));
                assert forall|a: int, b: int|
                    0 <= a < b < ok_values(run).len() implies c.le(
                    #[trigger] ok_values(run)[a],
                    #[trigger] ok_values(run)[b],
                ) by {
                    assert(ok_values(run)[a] == q[a + 1]);
                    assert(ok_values(run)[b] == q[b + 1]);
                }
            } else {
                assert(pending(h2[i], rs2[i]) == pending(heads[i], runs[i]));
            }
        }
        assert forall|i: int|
            #![trigger rs2[i]]
            0 <= i < k && h2[i] is None implies rs2[i].len() == 0 by {
            if i != j {
                assert(rs2[i] == runs[i]);
            }
        }
        assert forall|y: T| #[trigger] class_items(c, ps, y) == equal_items(c, seq![x], y)
            + class_items(c, ps2, y) by {
            lemma_pop_class(c, heads, runs, j, y);
        }
    } else {
        assert forall|i: int| 0 <= i < ps.len() implies (#[trigger] ps[i]).len() == 0 by {
            assert(heads[i] is None);
            assert(runs[i].len() == 0);
            assert(ok_values(runs[i]).len() == 0);
        }
        lemma_sum_ms_empty(ps);
        assert forall|j: int| !is_first_min(c, heads, j) by {
            if 0 <= j < heads.len() {
                assert(heads[j] is None);
            }
        }
    }
}

/// One call of the merger on runs that hold no error and are each in
/// order: it gives `None` exactly when no item is left; otherwise it gives
/// an item no greater than any item left after it and takes exactly that
/// item out of what is left, and the state stays of the same kind.
pub proof fn lemma_merge_step_sorted<T, E, C: Compare<T>>(
    c: C,
    heads: Seq<Option<T>>,
    runs: Seq<Seq<Result<T, E>>>,
    s: int,
)
    requires
        merge_ready(c, heads, runs, s),
    ensures
        ({
            let (r, h2, rs2, s2) = merge_step(c, heads, runs, s);
            &&& merge_ready(c, h2, rs2, s2)
            &&& (r is None <==> sum_ms(parts(heads, runs)) == Multiset::<T>::empty())
            &&& r is None ==> forall|i: int|
                0 <= i < runs.len() ==> (#[trigger] parts(heads, runs)[i]).len() == 0
            &&& r is Some ==> forall|x: T|
                #[trigger] class_items(c, parts(heads, runs), x) == equal_items(
                    c,
                    seq![r->Some_0->Ok_0],
                    x,
                ) + class_items(c, parts(h2, rs2), x)
            &&& r is Some ==> {
                &&& r->Some_0 is Ok
                &&& sum_ms(parts(heads, runs)) == sum_ms(parts(h2, rs2)).insert(r->Some_0->Ok_0)
                &&& forall|i: int, p: int|
                    0 <= i < rs2.len() && 0 <= p < parts(h2, rs2)[i].len() ==> c.le(
                        r->Some_0->Ok_0,
                        #[trigger] parts(h2, rs2)[i][p],
                    )
            }
        }),
{
    let k = runs.len() as int;
    assert forall|i: int| s <= i < k implies !starts_with_err(#[trigger] runs[i]) by {
        assert(no_errors(runs[i]));
        if runs[i].len() > 0 {
            assert(runs[i][0] is Ok);
        }
    }
    lemma_first_err_skip(runs, s, k);
    let h1 = init_heads(heads, runs, s, k);
    let r1 = init_runs(runs, s, k);
    assert forall|i: int| 0 <= i < k implies #[trigger] pending(h1[i], r1[i]) == pending(
        heads[i],
        runs[i],
    ) && no_errors(r1[i]) && (h1[i] is None ==> r1[i].len() == 0 || i < s) by {
        assert(no_errors(runs[i]));
        lemma_pending_pull(runs[i]);
        if s <= i {
            assert(heads[i] is None);
        }
    }
    assert(parts(h1, r1) =~= parts(heads, runs));
    assert forall|i: int| 0 <= i < k implies no_errors(#[trigger] r1[i]) by {
        assert(pending(h1[i], r1[i]) == pending(heads[i], runs[i]));
    }
    assert forall|i: int| 0 <= i < k implies sorted_by(c, #[trigger] pending(h1[i], r1[i])) by {
        assert(pending(h1[i], r1[i]) == pending(heads[i], runs[i]));
    }
    assert forall|i: int|
        #![trigger r1[i]]
        0 <= i < k && h1[i] is None implies r1[i].len() == 0 by {
        assert(pending(h1[i], r1[i]) == pending(heads[i], runs[i]));
        if i < s {
            assert(runs[i].len() == 0);
        }
    }
    assert(merge_ready(c, h1, r1, k));
    lemma_pop_sorted(c, h1, r1);
}

/// The items that calls of the merger give one after another, until one
/// gives `None` or an error, or `fuel` calls were made.
pub open spec fn drain_items<T, E, C: Compare<T>>(
    c: C,
    heads: Seq<Option<T>>,
    runs: Seq<Seq<Result<T, E>>>,
    s: int,
    fuel: nat,
) -> Seq<T>
    decreases fuel,
{
    if fuel == 0 {
        Seq::empty()
    } else {
        let st = merge_step(c, heads, runs, s);
        if st.0 is Some && st.0->Some_0 is Ok {
            seq![st.0->Some_0->Ok_0] + drain_items(c, st.1, st.2, st.3, (fuel - 1) as nat)
        } else {
            Seq::empty()
        }
    }
}

/// Merging runs that hold no error and are each in order gives every item
/// they hold, as often as they hold it, in order: a sorted permutation of
/// their concatenation.  `fuel` is any number of calls at least as large as
/// the number of items.
pub proof fn lemma_merge_sorted<T, E, C: Compare<T>>(
    c: C,
    heads: Seq<Option<T>>,
    runs: Seq<Seq<Result<T, E>>>,
    s: int,
    fuel: nat,
)
    requires
        merge_ready(c, heads, runs, s),
        fuel >= sum_ms(parts(heads, runs)).len(),
    ensures
        sorted_by(c, drain_items(c, heads, runs, s, fuel)),
        drain_items(c, heads, runs, s, fuel).to_multiset() == sum_ms(parts(heads, runs)),
    decreases fuel,
{
    broadcast use vstd::seq_lib::group_to_multiset_ensures;

    let out = drain_items(c, heads, runs, s, fuel);
    let total = sum_ms(parts(heads, runs));
    lemma_merge_step_sorted(c, heads, runs, s);
    let st = merge_step(c, heads, runs, s);
    if st.0 is None {
        if fuel > 0 {
            assert(out =~= Seq::<T>::empty());
        }
        assert(out.to_multiset() =~= Multiset::<T>::empty());
    } else {
        let x = st.0->Some_0->Ok_0;
        let rest_total = sum_ms(parts(st.1, st.2));
        assert(total.len() == rest_total.len() + 1);
        assert(fuel > 0);
        lemma_merge_step_sorted(c, st.1, st.2, st.3);
        lemma_merge_sorted(c, st.1, st.2, st.3, (fuel - 1) as nat);
        let tail = drain_items(c, st.1, st.2, st.3, (fuel - 1) as nat);
        assert(out == seq![x] + tail);
        assert forall|q: int| 0 <= q < tail.len() implies c.le(x, #[trigger] tail[q]) by {
            assert(tail.to_multiset().contains(tail[q]));
            lemma_sum_ms_member(parts(st.1, st.2), tail[q]);
        }
        assert forall|a: int, b: int| 0 <= a < b < out.len() implies c.le(
            #[trigger] out[a],
            #[trigger] out[b],
        ) by {
            if a == 0 {
                assert(out[b] == tail[b - 1]);
            } else {
                assert(out[a] == tail[a - 1]);
                assert(out[b] == tail[b - 1]);
            }
        }
        assert(out.to_multiset() =~= tail.to_multiset().insert(x)) by {
            vstd::seq_lib::lemma_multiset_commutative(seq![x], tail);
            assert(seq![x] =~= Seq::<T>::empty().push(x));
        }
    }
}

/// Merging runs that hold no error and are each in order keeps equal
/// items in run order: the items the merger gives that are equal to any
/// `x` are those the runs hold, run after run, each run's in its own order.
pub proof fn lemma_merge_stable<T, E, C: Compare<T>>(
    c: C,
    heads: Seq<Option<T>>,
    runs: Seq<Seq<Result<T, E>>>,
    s: int,
    fuel: nat,
    x: T,
)
    requires
        merge_ready(c, heads, runs, s),
        fuel >= sum_ms(parts(heads, runs)).len(),
    ensures
        equal_items(c, drain_items(c, heads, runs, s, fuel), x) == class_items(
            c,
            parts(heads, runs),
            x,
        ),
    decreases fuel,
{
    let out = drain_items(c, heads, runs, s, fuel);
    lemma_merge_step_sorted(c, heads, runs, s);
    let st = merge_step(c, heads, runs, s);
    if st.0 is None {
        if fuel > 0 {
            assert(out =~= Seq::<T>::empty());
        }
        let es = classes(c, parts(heads, runs), x);
        assert forall|i: int| 0 <= i < es.len() implies (#[trigger] es[i]).len() == 0 by {
            assert(parts(heads, runs)[i].len() == 0);
            assert(parts(heads, runs)[i] =~= Seq::<T>::empty());
            reveal_with_fuel(Seq::filter, 1);
        }
        lemma_flatten_all_empty(es);
        reveal_with_fuel(Seq::filter, 1);
        assert(equal_items(c, out, x) =~= Seq::<T>::empty());
    } else {
        let y = st.0->Some_0->Ok_0;
        assert(sum_ms(parts(heads, runs)).len() == sum_ms(parts(st.1, st.2)).len() + 1);
        lemma_merge_stable(c, st.1, st.2, st.3, (fuel - 1) as nat, x);
        let tail = drain_items(c, st.1, st.2, st.3, (fuel - 1) as nat);
        assert(out == seq![y] + tail);
        Seq::filter_distributes_over_add(seq![y], tail, equiv_to(c, x));
    }
}

pub(crate) proof fn lemma_sum_ms_flatten<T>(ps: Seq<Seq<T>>)
    ensures
        sum_ms(ps) == ps.flatten().to_multiset(),
    decreases ps.len(),
{
    broadcast use vstd::seq_lib::group_to_multiset_ensures;

    if ps.len() == 0 {
        assert(ps.flatten() =~= Seq::<T>::empty());
        assert(ps.flatten().to_multiset() =~= Multiset::<T>::empty());
    } else {
        let l = ps.drop_last();
        lemma_sum_ms_flatten(l);
        assert(ps == l.push(ps.last()));
        l.lemma_flatten_push(ps.last());
        vstd::seq_lib::lemma_multiset_commutative(l.flatten(), ps.last());
    }
}

pub(crate) proof fn lemma_class_flatten<T, F: Compare<T>>(c: F, ps: Seq<Seq<T>>, x: T)
    ensures
        classes(c, ps, x).flatten() == equal_items(c, ps.flatten(), x),
    decreases ps.len(),
{
    if ps.len() == 0 {
        assert(classes(c, ps, x).flatten() =~= Seq::<T>::empty());
        reveal_with_fuel(Seq::filter, 1);
        assert(equal_items(c, ps.flatten(), x) =~= Seq::<T>::empty());
    } else {
        let t = ps.drop_first();
        lemma_class_flatten(c, t, x);
        assert(classes(c, ps, x).drop_first() =~= classes(c, t, x));
        Seq::filter_distributes_over_add(ps[0], t.flatten(), equiv_to(c, x));
    }
}

/// The items each run holds.
pub open spec fn run_items<T, E>(runs: Seq<Seq<Result<T, E>>>) -> Seq<Seq<T>> {
    Seq::new(runs.len(), |i: int| ok_values(runs[i]))
}

/// A merger that has not started, over runs that hold no error and are each
/// in order, gives the runs' concatenation stably sorted: every item as
/// often as the runs hold it, in order, and equal items run after run, each
/// run's in its own order.  `fuel` is any number of calls at least as large
/// as the number of items.
pub proof fn lemma_merger_sorted<T, C: Compare<T>, S: Source<T>>(
    m: BinaryHeapMerger<T, C, S>,
    fuel: nat,
)
    requires
        m.wf(),
        m.started == 0,
        forall|i: int|
            0 <= i < m.runs().len() ==> no_errors(#[trigger] m.runs()[i]) && sorted_by(
                m.compare,
                ok_values(m.runs()[i]),
            ),
        fuel >= run_items(m.runs()).flatten().len(),
    ensures
        is_stable_sort(
            m.compare,
            drain_items(m.compare, m.heads@, m.runs(), 0, fuel),
            run_items(m.runs()).flatten(),
        ),
{
    broadcast use vstd::seq_lib::group_to_multiset_ensures;

    let c = m.compare;
    let heads = m.heads@;
    let runs = m.runs();
    assert forall|i: int| 0 <= i < runs.len() implies sorted_by(
        c,
        #[trigger] pending(heads[i], runs[i]),
    ) by {
        assert(heads[i] is None);
        assert(no_errors(runs[i]));
    }
    assert forall|i: int| 0 <= i < runs.len() implies no_errors(#[trigger] runs[i]) by {}
    assert(merge_ready(c, heads, runs, 0));
    let ps = parts(heads, runs);
    assert forall|i: int| 0 <= i < ps.len() implies #[trigger] ps[i] == run_items(runs)[i] by {
        assert(heads[i] is None);
    }
    assert(ps =~= run_items(runs));
    lemma_sum_ms_flatten(ps);
    lemma_merge_sorted(c, heads, runs, 0, fuel);
    let out = drain_items(c, heads, runs, 0, fuel);
    assert forall|x: T| #[trigger] equal_items(c, out, x) == equal_items(c, ps.flatten(), x) by {
        lemma_merge_stable(c, heads, runs, 0, fuel, x);
        lemma_class_flatten(c, ps, x);
    }
}

proof fn lemma_first_err_from<T, E>(runs: Seq<Seq<Result<T, E>>>, s: int)
    requires
        0 <= s <= runs.len(),
    ensures
        s <= first_err(runs, s) <= runs.len(),
    decreases runs.len() - s,
{
    if s < runs.len() && !starts_with_err(runs[s]) {
        lemma_first_err_from(runs, s + 1);
    }
}

/// A run whose slot is empty after it was started is closed: its run was
/// drained, or its error was given out.  No later call pulls from it, so
/// nothing it still holds is ever given out, and its error comes out once.
pub proof fn lemma_closed_run_stays_closed<T, E, C: Compare<T>>(
    c: C,
    heads: Seq<Option<T>>,
    runs: Seq<Seq<Result<T, E>>>,
    s: int,
    j: int,
)
    requires
        heads.len() == runs.len(),
        0 <= j < s <= runs.len(),
        heads[j] is None,
    ensures
        ({
            let (r, h2, rs2, s2) = merge_step(c, heads, runs, s);
            &&& j < s2
            &&& h2[j] is None
            &&& rs2[j] == runs[j]
        }),
{
    lemma_first_err_from(runs, s);
    let p = first_err(runs, s);
    let k = runs.len() as int;
    if p >= k {
        let h1 = init_heads(heads, runs, s, k);
        let r1 = init_runs(runs, s, k);
        assert(h1[j] is None);
        if exists|x: int| is_first_min(c, h1, x) {
            let x = choose|x: int| is_first_min(c, h1, x);
            assert(x != j);
        }
    }
}

/// Merges runs that are each sorted under a comparator into one sorted
/// sequence.  Each run has one slot for its current head; the least head
/// leaves first, and of equal heads the one of the lowest run.
pub struct BinaryHeapMerger<T, C, S> {
    pub heads: Vec<Option<T>>,
    pub chunks: Vec<S>,
    /// How many runs have had their first outcome pulled.
    pub started: usize,
    pub compare: C,
}

impl<T, C: Compare<T>, S: Source<T>> BinaryHeapMerger<T, C, S> {
    /// What is left of each run.
    pub open spec fn runs(&self) -> Seq<Seq<Result<T, S::Error>>> {
        Seq::new(self.chunks@.len(), |i: int| self.chunks@[i].rest())
    }

    pub open spec fn wf(&self) -> bool {
        &&& self.heads@.len() == self.chunks@.len()
        &&& self.started <= self.chunks@.len()
        &&& forall|i: int|
            self.started <= i < self.heads@.len() ==> #[trigger] self.heads@[i] is None
    }

    /// A merger over `chunks`; nothing is pulled from them before the first
    /// call of `next`.
    pub fn new(chunks: Vec<S>, compare: C) -> (r: Self)
        ensures
            r.wf(),
            r.started == 0,
            r.runs() == Seq::new(chunks@.len(), |i: int| chunks@[i].rest()),
            r.heads@ == Seq::new(chunks@.len(), |i: int| None::<T>),
            r.compare == compare,
    {
        let mut heads: Vec<Option<T>> = Vec::with_capacity(chunks.len());
        let mut i: usize = 0;
        while i < chunks.len()
            invariant
                i <= chunks@.len(),
                heads@ == Seq::new(i as nat, |j: int| None::<T>),
            decreases chunks@.len() - i,
        {
            heads.push(None);
            i += 1;
            assert(heads@ =~= Seq::new(i as nat, |j: int| None::<T>));
        }
        let r = BinaryHeapMerger { heads, chunks, started: 0, compare };
        assert(r.runs() =~= Seq::new(r.chunks@.len(), |i: int| r.chunks@[i].rest()));
        r
    }

    /// The index of the first least head, if any slot holds one.
    fn first_min(&self) -> (r: Option<usize>)
        requires
            self.wf(),
        ensures
            r is Some ==> is_first_min(self.compare, self.heads@, r->Some_0 as int),
            r is None ==> !exists|j: int| is_first_min(self.compare, self.heads@, j),
    {
        proof {
            self.compare.lemma_total_preorder();
        }
        let k = self.heads.len();
        let mut best: Option<usize> = None;
        let mut i: usize = 0;
        while i < k
            invariant
                k == self.heads@.len(),
                i <= k,
                best is Some ==> is_first_min(
                    self.compare,
                    self.heads@.take(i as int),
                    best->Some_0 as int,
                ),
                best is None ==> forall|j: int| 0 <= j < i ==> #[trigger] self.heads@[j] is None,
            decreases k - i,
        {
            let ghost h = self.heads@;
            proof {
                self.compare.lemma_total_preorder();
            }
            assert(h.take(i + 1).take(i as int) =~= h.take(i as int));
            if let Some(x) = &self.heads[i] {
                match best {
                    None => {
                        best = Some(i);
                        assert forall|j: int|
                            0 <= j < h.take(i + 1).len() && #[trigger] h.take(i + 1)[j] is Some implies {
                            &&& j < i ==> !self.compare.le(
                                h.take(i + 1)[j]->Some_0,
                                h.take(i + 1)[i as int]->Some_0,
                            )
                            &&& i < j ==> self.compare.le(
                                h.take(i + 1)[i as int]->Some_0,
                                h.take(i + 1)[j]->Some_0,
                            )
                        } by {
                            if j < i {
                                assert(h[j] is None);
                            }
                        }
                    },
                    Some(b) => {
                        let y = self.heads[b].as_ref().unwrap();
                        let o = self.compare.compare(x, y);
                        let ghost hb = h[b as int]->Some_0;
                        let ghost hi = h[i as int]->Some_0;
                        match o {
                            Ordering::Less => {
                                best = Some(i);
                                assert(!self.compare.le(hb, hi));
                                assert forall|j: int|
                                    0 <= j < h.take(i + 1).len() && #[trigger] h.take(
                                        i + 1,
                                    )[j] is Some implies {
                                    &&& j < i ==> !self.compare.le(
                                        h.take(i + 1)[j]->Some_0,
                                        h.take(i + 1)[i as int]->Some_0,
                                    )
                                    &&& i < j ==> self.compare.le(
                                        h.take(i + 1)[i as int]->Some_0,
                                        h.take(i + 1)[j]->Some_0,
                                    )
                                } by {
                                    if j < i {
                                        let hj = h[j]->Some_0;
                                        assert(h.take(i as int)[j] is Some);
                                        assert(h.take(i as int)[j]->Some_0 == hj);
                                        assert(h.take(i as int)[b as int]->Some_0 == hb);
                                        if j < b {
                                            assert(!self.compare.le(hj, hb));
                                            assert(self.compare.le(hb, hj));
                                            if self.compare.le(hj, hi) {
                                                assert(self.compare.le(hb, hi));
                                            }
                                        } else if b < j {
                                            assert(self.compare.le(hb, hj));
                                            if self.compare.le(hj, hi) {
                                                assert(self.compare.le(hb, hi));
                                            }
                                        }
                                    }
                                }
                            },
                            _ => {
                                assert(self.compare.le(hb, hi));
                                assert forall|j: int|
                                    0 <= j < h.take(i + 1).len() && #[trigger] h.take(
                                        i + 1,
                                    )[j] is Some implies {
                                    &&& j < b ==> !self.compare.le(
                                        h.take(i + 1)[j]->Some_0,
                                        h.take(i + 1)[b as int]->Some_0,
                                    )
                                    &&& b < j ==> self.compare.le(
                                        h.take(i + 1)[b as int]->Some_0,
                                        h.take(i + 1)[j]->Some_0,
                                    )
                                } by {
                                    if j < i {
                                        assert(h.take(i as int)[j] is Some);
                                    }
                                }
                            },
                        }
                    },
                }
            } else {
                proof {
                if best is Some {
                    let b = best->Some_0 as int;
                    assert forall|j: int|
                        0 <= j < h.take(i + 1).len() && #[trigger] h.take(i + 1)[j] is Some implies {
                        &&& j < b ==> !self.compare.le(
                            h.take(i + 1)[j]->Some_0,
                            h.take(i + 1)[b]->Some_0,
                        )
                        &&& b < j ==> self.compare.le(
                            h.take(i + 1)[b]->Some_0,
                            h.take(i + 1)[j]->Some_0,
                        )
                    } by {
                        assert(h.take(i as int)[j] is Some);
                    }
                }
                }
            }
            i += 1;
        }
        assert(self.heads@.take(k as int) =~= self.heads@);
        proof {
            if best is None {
                assert forall|j: int| !is_first_min(self.compare, self.heads@, j) by {
                    if 0 <= j < k {
                        assert(self.heads@[j] is None);
                    }
                }
            }
        }
        best
    }

    /// The next outcome in merged order; `None` once every run is drained.
    pub fn next(&mut self) -> (r: Option<Result<T, S::Error>>)
        requires
            old(self).wf(),
        ensures
            final(self).wf(),
            final(self).compare == old(self).compare,
            (r, final(self).heads@, final(self).runs(), final(self).started as int) == merge_step(
                old(self).compare,
                old(self).heads@,
                old(self).runs(),
                old(self).started as int,
            ),
    {
        let ghost h0 = self.heads@;
        let ghost r0 = self.runs();
        let ghost s0 = self.started as int;
        let k = self.chunks.len();
        assert(self.heads@ =~= init_heads(h0, r0, s0, s0));
        assert(self.runs() =~= init_runs(r0, s0, s0));
        while self.started < k
            invariant
                self.wf(),
                k == self.chunks@.len(),
                h0 == old(self).heads@,
                r0 == old(self).runs(),
                s0 == old(self).started,
                r0.len() == k,
                h0.len() == k,
                self.compare == old(self).compare,
                0 <= s0 <= self.started,
                forall|i: int| s0 <= i < self.started ==> !starts_with_err(#[trigger] r0[i]),
                self.heads@ == init_heads(h0, r0, s0, self.started as int),
                self.runs() == init_runs(r0, s0, self.started as int),
            decreases k - self.started,
        {
            let i = self.started;
            let ghost before = self.runs();
            assert(before[i as int] == r0[i as int]);
            let pulled = self.chunks[i].next();
            self.started = i + 1;
            assert(self.runs() =~= before.update(i as int, tail_of(before[i as int])));
            assert(self.runs() =~= init_runs(r0, s0, i + 1));
            match pulled {
                Some(Ok(x)) => {
                    self.heads[i] = Some(x);
                    assert(self.heads@ =~= init_heads(h0, r0, s0, i + 1));
                },
                Some(Err(e)) => {
                    proof {
                        lemma_first_err_skip(r0, s0, i as int);
                        assert(starts_with_err(r0[i as int]));
                        assert(first_err(r0, i as int) == i);
                    }
                    return Some(Err(e));
                },
                None => {
                    assert(self.heads@ =~= init_heads(h0, r0, s0, i + 1));
                },
            }
        }
        proof {
            lemma_first_err_skip(r0, s0, k as int);
        }
        let best = self.first_min();
        match best {
            None => None,
            Some(j) => {
                let ghost hh = self.heads@;
                let ghost rr = self.runs();
                proof {
                    let jj = choose|jj: int| is_first_min(self.compare, hh, jj);
                    lemma_first_min_unique(self.compare, hh, jj, j as int);
                }
                let x = self.heads[j].take();
                let pulled = self.chunks[j].next();
                assert(self.runs() =~= rr.update(j as int, tail_of(rr[j as int])));
                match pulled {
                    Some(Ok(y)) => {
                        self.heads[j] = Some(y);
                        assert(self.heads@ =~= hh.update(j as int, head_of(rr[j as int])));
                        Some(Ok(x.unwrap()))
                    },
                    Some(Err(e)) => Some(Err(e)),
                    None => {
                        assert(self.heads@ =~= hh.update(j as int, head_of(rr[j as int])));
                        Some(Ok(x.unwrap()))
                    },
                }
            },
        }
    }
}

} // verus!
