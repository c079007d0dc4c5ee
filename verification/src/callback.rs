//! What a sequence of calls of a callback does to the data it is handed.

use vstd::prelude::*;

verus! {

/// `states` are the values that the data takes while `step` is run over `xs` in order.
pub open spec fn chain<X, U>(step: spec_fn(X, U, U) -> bool, xs: Seq<X>, states: Seq<U>) -> bool {
    &&& states.len() == xs.len() + 1
    &&& forall|i: int| 0 <= i < xs.len() ==> #[trigger] step(xs[i], states[i], states[i + 1])
}

/// Running `step` over `xs` in order takes the data from `first` to `last`.
pub open spec fn folds<X, U>(
    step: spec_fn(X, U, U) -> bool,
    xs: Seq<X>,
    first: U,
    last: U,
) -> bool {
    exists|states: Seq<U>| #[trigger]
        chain(step, xs, states) && states[0] == first && states[xs.len() as int] == last
}

/// A test run over `xs` in order fails on the first `n` and holds on the next one, or fails on
/// all of them.
pub open spec fn finds<X>(test: spec_fn(X, bool) -> bool, xs: Seq<X>, n: int) -> bool {
    &&& 0 <= n <= xs.len()
    &&& forall|i: int| 0 <= i < n ==> test(#[trigger] xs[i], false)
    &&& n < xs.len() ==> test(xs[n], true)
}

pub proof fn lemma_folds_empty<X, U>(step: spec_fn(X, U, U) -> bool, first: U)
    ensures
        folds(step, Seq::<X>::empty(), first, first),
{
    let states = seq![first];
    assert(chain(step, Seq::<X>::empty(), states));
}

/// One more call at the end.
pub proof fn lemma_folds_push<X, U>(
    step: spec_fn(X, U, U) -> bool,
    xs: Seq<X>,
    x: X,
    first: U,
    middle: U,
    last: U,
)
    requires
        folds(step, xs, first, middle),
        step(x, middle, last),
    ensures
        folds(step, xs.push(x), first, last),
{
    let states = choose|states: Seq<U>| #[trigger]
        chain(step, xs, states) && states[0] == first && states[xs.len() as int] == middle;
    let more = states.push(last);
    assert forall|i: int| 0 <= i < xs.push(x).len() implies #[trigger] step(
        xs.push(x)[i],
        more[i],
        more[i + 1],
    ) by {
        if i < xs.len() {
            assert(step(xs[i], states[i], states[i + 1]));
        }
    }
    assert(chain(step, xs.push(x), more));
}

/// Running `step` over `xs` in order takes the data from `first` to `last`; a call may end the
/// walk, and `stopped` says whether one did.
pub open spec fn walks<X, U>(
    step: spec_fn(X, U, U, bool) -> bool,
    xs: Seq<X>,
    first: U,
    last: U,
    stopped: bool,
) -> bool
    decreases xs.len(),
{
    if xs.len() == 0 {
        first == last && !stopped
    } else {
        exists|middle: U, stop: bool| #[trigger]
            step(xs[0], first, middle, stop) && if stop {
                stopped && last == middle
            } else {
                walks(step, xs.skip(1), middle, last, stopped)
            }
    }
}

pub proof fn lemma_walks_one<X, U>(
    step: spec_fn(X, U, U, bool) -> bool,
    x: X,
    first: U,
    last: U,
    stopped: bool,
)
    requires
        step(x, first, last, stopped),
    ensures
        walks(step, seq![x], first, last, stopped),
{
    reveal_with_fuel(walks, 2);
    assert(seq![x].skip(1) =~= Seq::<X>::empty());
    assert(seq![x][0] == x);
}

/// A walk that was ended goes no further.
pub proof fn lemma_walks_stopped<X, U>(
    step: spec_fn(X, U, U, bool) -> bool,
    xs: Seq<X>,
    ys: Seq<X>,
    first: U,
    last: U,
)
    requires
        walks(step, xs, first, last, true),
    ensures
        walks(step, xs + ys, first, last, true),
    decreases xs.len(),
{
    if xs.len() > 0 {
        let (middle, stop) = choose|middle: U, stop: bool| #[trigger]
            step(xs[0], first, middle, stop) && if stop {
                last == middle
            } else {
                walks(step, xs.skip(1), middle, last, true)
            };
        assert((xs + ys)[0] == xs[0]);
        if !stop {
            lemma_walks_stopped(step, xs.skip(1), ys, middle, last);
            assert((xs + ys).skip(1) =~= xs.skip(1) + ys);
        }
    }
}

/// A walk that was not ended goes on.
pub proof fn lemma_walks_on<X, U>(
    step: spec_fn(X, U, U, bool) -> bool,
    xs: Seq<X>,
    ys: Seq<X>,
    first: U,
    middle: U,
    last: U,
    stopped: bool,
)
    requires
        walks(step, xs, first, middle, false),
        walks(step, ys, middle, last, stopped),
    ensures
        walks(step, xs + ys, first, last, stopped),
    decreases xs.len(),
{
    if xs.len() > 0 {
        let (next, stop) = choose|next: U, stop: bool| #[trigger]
            step(xs[0], first, next, stop) && if stop {
                false
            } else {
                walks(step, xs.skip(1), next, middle, false)
            };
        assert((xs + ys)[0] == xs[0]);
        lemma_walks_on(step, xs.skip(1), ys, next, middle, last, stopped);
        assert((xs + ys).skip(1) =~= xs.skip(1) + ys);
    } else {
        assert(xs + ys =~= ys);
    }
}

/// A step that takes note of what it is called with: run over `xs`, it takes note of all of them,
/// in order.
pub proof fn law_folds_reach_all<X, U>(
    step: spec_fn(X, U, U) -> bool,
    xs: Seq<X>,
    first: U,
    last: U,
    record: spec_fn(U) -> Seq<X>,
)
    requires
        folds(step, xs, first, last),
        forall|x: X, before: U, after: U| #[trigger]
            step(x, before, after) ==> record(after) == record(before).push(x),
    ensures
        record(last) == record(first) + xs,
{
    let states = choose|states: Seq<U>| #[trigger]
        chain(step, xs, states) && states[0] == first && states[xs.len() as int] == last;
    lemma_chain_record(step, xs, states, record, xs.len() as int);
    assert(xs.take(xs.len() as int) =~= xs);
}

proof fn lemma_chain_record<X, U>(
    step: spec_fn(X, U, U) -> bool,
    xs: Seq<X>,
    states: Seq<U>,
    record: spec_fn(U) -> Seq<X>,
    n: int,
)
    requires
        chain(step, xs, states),
        0 <= n <= xs.len(),
        forall|x: X, before: U, after: U| #[trigger]
            step(x, before, after) ==> record(after) == record(before).push(x),
    ensures
        record(states[n]) == record(states[0]) + xs.take(n),
    decreases n,
{
    if n > 0 {
        lemma_chain_record(step, xs, states, record, n - 1);
        assert(step(xs[n - 1], states[n - 1], states[n - 1 + 1]));
        assert(record(states[0]) + xs.take(n) =~= (record(states[0]) + xs.take(n - 1)).push(
            xs[n - 1],
        ));
    } else {
        assert(record(states[0]) + xs.take(0) =~= record(states[0]));
    }
}

/// A step that takes note of what it is called with, and ends the walk where `ends` holds: it takes
/// note of all up to the first where it does, that one included, in order.
pub proof fn law_walks_reach_all<X, U>(
    step: spec_fn(X, U, U, bool) -> bool,
    xs: Seq<X>,
    first: U,
    last: U,
    stopped: bool,
    record: spec_fn(U) -> Seq<X>,
    ends: spec_fn(X) -> bool,
) -> (n: int)
    requires
        walks(step, xs, first, last, stopped),
        forall|x: X, before: U, after: U, stop: bool| #[trigger]
            step(x, before, after, stop) ==> record(after) == record(before).push(x) && stop
                == ends(x),
    ensures
        0 <= n <= xs.len(),
        record(last) == record(first) + xs.take(n),
        stopped ==> n > 0 && ends(xs[n - 1]),
        !stopped ==> n == xs.len(),
        forall|i: int| 0 <= i < n && !(stopped && i == n - 1) ==> !ends(#[trigger] xs[i]),
    decreases xs.len(),
{
    if xs.len() == 0 {
        assert(record(first) + xs.take(0) =~= record(first));
        0
    } else {
        let (middle, stop) = choose|middle: U, stop: bool| #[trigger]
            step(xs[0], first, middle, stop) && if stop {
                stopped && last == middle
            } else {
                walks(step, xs.skip(1), middle, last, stopped)
            };
        if stop {
            assert(record(first) + xs.take(1) =~= record(first).push(xs[0]));
            1
        } else {
            let rest = xs.skip(1);
            let k = law_walks_reach_all(step, rest, middle, last, stopped, record, ends);
            assert(record(first) + xs.take(k + 1) =~= record(first).push(xs[0]) + rest.take(k));
            assert forall|i: int| 0 <= i < k + 1 && !(stopped && i == k) implies !ends(
                #[trigger] xs[i],
            ) by {
                if i > 0 {
                    assert(rest[i - 1] == xs[i]);
                }
            }
            k + 1
        }
    }
}

} // verus!
