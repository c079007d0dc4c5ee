//! Merge sort.

use vstd::prelude::*;

verus! {

/// A comparison function can be called on all pairs.
pub open spec fn callable<T, F: Fn(T, T) -> i32>(func: F) -> bool {
    forall|a: T, b: T| #[trigger] func.requires((a, b))
}

/// The answers of a comparison function are those of `ord`: it says of `a` and `b` that `a` may
/// stand before `b` where `ord(a, b)` is not positive, and only there.
pub open spec fn answers_by<T, F: Fn(T, T) -> i32>(func: F, ord: spec_fn(T, T) -> int) -> bool {
    forall|a: T, b: T, x: i32| #[trigger] func.ensures((a, b), x) ==> (x <= 0) == (ord(a, b) <= 0)
}

/// A comparison sorts: it is a total preorder.
pub open spec fn preorder<T>(ord: spec_fn(T, T) -> int) -> bool {
    &&& forall|a: T, b: T| (#[trigger] ord(a, b) <= 0) || ord(b, a) <= 0
    &&& forall|a: T, b: T| (#[trigger] ord(a, b) < 0) == (ord(b, a) > 0)
    &&& forall|a: T, b: T, c: T| #[trigger]
        ord(a, b) <= 0 && #[trigger] ord(b, c) <= 0 ==> ord(a, c) <= 0
}

/// Two sequences, merged: the smaller first element comes first, that of `a` where neither is
/// smaller.
pub open spec fn merged<T>(ord: spec_fn(T, T) -> int, a: Seq<T>, b: Seq<T>) -> Seq<T>
    decreases a.len() + b.len(),
{
    if a.len() == 0 {
        b
    } else if b.len() == 0 {
        a
    } else if ord(a[0], b[0]) <= 0 {
        seq![a[0]] + merged(ord, a.skip(1), b)
    } else {
        seq![b[0]] + merged(ord, a, b.skip(1))
    }
}

/// A sequence, sorted: its two halves, sorted and merged.
pub open spec fn merge_sorted<T>(ord: spec_fn(T, T) -> int, s: Seq<T>) -> Seq<T>
    decreases s.len(),
{
    if s.len() <= 1 {
        s
    } else {
        let half = s.len() as int / 2;
        merged(ord, merge_sorted(ord, s.take(half)), merge_sorted(ord, s.skip(half)))
    }
}

/// No element comes after a larger one.
pub open spec fn is_sorted<T>(ord: spec_fn(T, T) -> int, s: Seq<T>) -> bool {
    forall|i: int, j: int| 0 <= i < j < s.len() ==> ord(#[trigger] s[i], #[trigger] s[j]) <= 0
}

/// The elements that are neither smaller nor larger than `x`, in order.
pub open spec fn class_of<T>(ord: spec_fn(T, T) -> int, x: T, s: Seq<T>) -> Seq<T>
    decreases s.len(),
{
    if s.len() == 0 {
        Seq::empty()
    } else if ord(x, s[0]) == 0 {
        seq![s[0]] + class_of(ord, x, s.skip(1))
    } else {
        class_of(ord, x, s.skip(1))
    }
}

pub proof fn lemma_merged_len<T>(ord: spec_fn(T, T) -> int, a: Seq<T>, b: Seq<T>)
    ensures
        merged(ord, a, b).len() == a.len() + b.len(),
        forall|i: int|
            0 <= i < merged(ord, a, b).len() ==> a.contains(#[trigger] merged(ord, a, b)[i])
                || b.contains(merged(ord, a, b)[i]),
    decreases a.len() + b.len(),
{
    if a.len() > 0 && b.len() > 0 {
        let m = merged(ord, a, b);
        if ord(a[0], b[0]) <= 0 {
            lemma_merged_len(ord, a.skip(1), b);
            let rest = merged(ord, a.skip(1), b);
            assert forall|i: int| 0 <= i < m.len() implies a.contains(#[trigger] m[i])
                || b.contains(m[i]) by {
                if i > 0 {
                    assert(m[i] == rest[i - 1]);
                    if a.skip(1).contains(rest[i - 1]) {
                        let k = choose|k: int|
                            0 <= k < a.skip(1).len() && a.skip(1)[k] == rest[i - 1];
                        assert(a[k + 1] == m[i]);
                    }
                } else {
                    assert(a[0] == m[0]);
                }
            }
        } else {
            lemma_merged_len(ord, a, b.skip(1));
            let rest = merged(ord, a, b.skip(1));
            assert forall|i: int| 0 <= i < m.len() implies a.contains(#[trigger] m[i])
                || b.contains(m[i]) by {
                if i > 0 {
                    assert(m[i] == rest[i - 1]);
                    if b.skip(1).contains(rest[i - 1]) {
                        let k = choose|k: int|
                            0 <= k < b.skip(1).len() && b.skip(1)[k] == rest[i - 1];
                        assert(b[k + 1] == m[i]);
                    }
                } else {
                    assert(b[0] == m[0]);
                }
            }
        }
    }
}

proof fn lemma_skip_sorted<T>(ord: spec_fn(T, T) -> int, s: Seq<T>)
    requires
        is_sorted(ord, s),
        s.len() > 0,
    ensures
        is_sorted(ord, s.skip(1)),
{
    assert forall|i: int, j: int| 0 <= i < j < s.skip(1).len() implies ord(
        #[trigger] s.skip(1)[i],
        #[trigger] s.skip(1)[j],
    ) <= 0 by {
        assert(ord(s[i + 1], s[j + 1]) <= 0);
    }
}

proof fn lemma_merged_sorted<T>(ord: spec_fn(T, T) -> int, a: Seq<T>, b: Seq<T>)
    requires
        preorder(ord),
        is_sorted(ord, a),
        is_sorted(ord, b),
    ensures
        is_sorted(ord, merged(ord, a, b)),
    decreases a.len() + b.len(),
{
    if a.len() > 0 && b.len() > 0 {
        let m = merged(ord, a, b);
        let (first, rest_a, rest_b) = if ord(a[0], b[0]) <= 0 {
            (a[0], a.skip(1), b)
        } else {
            (b[0], a, b.skip(1))
        };
        if ord(a[0], b[0]) <= 0 {
            lemma_skip_sorted(ord, a);
        } else {
            lemma_skip_sorted(ord, b);
        }
        lemma_merged_sorted(ord, rest_a, rest_b);
        lemma_merged_len(ord, rest_a, rest_b);
        let rest = merged(ord, rest_a, rest_b);
        assert forall|k: int| 0 <= k < rest.len() implies ord(first, #[trigger] rest[k]) <= 0 by {
            if rest_a.contains(rest[k]) {
                let i = choose|i: int| 0 <= i < rest_a.len() && rest_a[i] == rest[k];
                if ord(a[0], b[0]) <= 0 {
                    assert(rest_a[i] == a[i + 1]);
                    assert(ord(a[0], a[i + 1]) <= 0);
                } else {
                    assert(rest_a[i] == a[i]);
                    assert(ord(b[0], a[0]) <= 0);
                    if i > 0 {
                        assert(ord(a[0], a[i]) <= 0);
                    }
                }
            } else {
                let i = choose|i: int| 0 <= i < rest_b.len() && rest_b[i] == rest[k];
                if ord(a[0], b[0]) <= 0 {
                    assert(rest_b[i] == b[i]);
                    if i > 0 {
                        assert(ord(b[0], b[i]) <= 0);
                    }
                } else {
                    assert(rest_b[i] == b[i + 1]);
                    assert(ord(b[0], b[i + 1]) <= 0);
                }
            }
        }
        assert forall|i: int, j: int| 0 <= i < j < m.len() implies ord(
            #[trigger] m[i],
            #[trigger] m[j],
        ) <= 0 by {
            assert(m[j] == rest[j - 1]);
            if i > 0 {
                assert(m[i] == rest[i - 1]);
            }
        }
    }
}

/// A sorted sequence is sorted.
pub proof fn law_sort_is_sorted<T>(ord: spec_fn(T, T) -> int, s: Seq<T>)
    requires
        preorder(ord),
    ensures
        is_sorted(ord, merge_sorted(ord, s)),
    decreases s.len(),
{
    if s.len() > 1 {
        let half = s.len() as int / 2;
        law_sort_is_sorted(ord, s.take(half));
        law_sort_is_sorted(ord, s.skip(half));
        lemma_merged_sorted(
            ord,
            merge_sorted(ord, s.take(half)),
            merge_sorted(ord, s.skip(half)),
        );
    }
}

proof fn lemma_multiset_front<T>(x: T, s: Seq<T>)
    ensures
        (seq![x] + s).to_multiset() == s.to_multiset().insert(x),
{
    broadcast use vstd::multiset::group_multiset_axioms;

    vstd::seq_lib::lemma_multiset_commutative(seq![x], s);
    assert(seq![x] =~= Seq::<T>::empty().push(x));
    s.to_multiset_ensures();
    Seq::<T>::empty().to_multiset_ensures();
    assert((seq![x] + s).to_multiset() =~= s.to_multiset().insert(x));
}

proof fn lemma_merged_multiset<T>(ord: spec_fn(T, T) -> int, a: Seq<T>, b: Seq<T>)
    ensures
        merged(ord, a, b).to_multiset() == a.to_multiset().add(b.to_multiset()),
    decreases a.len() + b.len(),
{
    broadcast use vstd::multiset::group_multiset_axioms;

    a.to_multiset_ensures();
    b.to_multiset_ensures();
    if a.len() == 0 {
        assert(a.to_multiset() =~= vstd::multiset::Multiset::empty());
        assert(merged(ord, a, b).to_multiset() =~= a.to_multiset().add(b.to_multiset()));
    } else if b.len() == 0 {
        assert(b.to_multiset() =~= vstd::multiset::Multiset::empty());
        assert(merged(ord, a, b).to_multiset() =~= a.to_multiset().add(b.to_multiset()));
    } else if ord(a[0], b[0]) <= 0 {
        lemma_merged_multiset(ord, a.skip(1), b);
        lemma_multiset_front(a[0], merged(ord, a.skip(1), b));
        lemma_multiset_front(a[0], a.skip(1));
        assert(seq![a[0]] + a.skip(1) =~= a);
        assert(merged(ord, a, b).to_multiset() =~= a.to_multiset().add(b.to_multiset()));
    } else {
        lemma_merged_multiset(ord, a, b.skip(1));
        lemma_multiset_front(b[0], merged(ord, a, b.skip(1)));
        lemma_multiset_front(b[0], b.skip(1));
        assert(seq![b[0]] + b.skip(1) =~= b);
        assert(merged(ord, a, b).to_multiset() =~= a.to_multiset().add(b.to_multiset()));
    }
}

/// Sorting keeps the elements, each as often as it was there.
pub proof fn law_sort_keeps_elements<T>(ord: spec_fn(T, T) -> int, s: Seq<T>)
    ensures
        merge_sorted(ord, s).to_multiset() == s.to_multiset(),
    decreases s.len(),
{
    if s.len() > 1 {
        let half = s.len() as int / 2;
        law_sort_keeps_elements(ord, s.take(half));
        law_sort_keeps_elements(ord, s.skip(half));
        lemma_merged_multiset(
            ord,
            merge_sorted(ord, s.take(half)),
            merge_sorted(ord, s.skip(half)),
        );
        vstd::seq_lib::lemma_multiset_commutative(s.take(half), s.skip(half));
        assert(s.take(half) + s.skip(half) =~= s);
    }
}

proof fn lemma_class_concat<T>(ord: spec_fn(T, T) -> int, x: T, a: Seq<T>, b: Seq<T>)
    ensures
        class_of(ord, x, a + b) == class_of(ord, x, a) + class_of(ord, x, b),
    decreases a.len(),
{
    if a.len() == 0 {
        assert(a + b =~= b);
        assert(class_of(ord, x, a) + class_of(ord, x, b) =~= class_of(ord, x, b));
    } else {
        lemma_class_concat(ord, x, a.skip(1), b);
        assert((a + b).skip(1) =~= a.skip(1) + b);
        assert((a + b)[0] == a[0]);
        assert(seq![a[0]] + (class_of(ord, x, a.skip(1)) + class_of(ord, x, b)) =~= (seq![a[0]]
            + class_of(ord, x, a.skip(1))) + class_of(ord, x, b));
    }
}

/// Nothing larger than a representative belongs to its class.
proof fn lemma_class_empty<T>(ord: spec_fn(T, T) -> int, x: T, s: Seq<T>)
    requires
        forall|i: int| 0 <= i < s.len() ==> ord(x, #[trigger] s[i]) != 0,
    ensures
        class_of(ord, x, s) == Seq::<T>::empty(),
    decreases s.len(),
{
    if s.len() > 0 {
        assert forall|i: int| 0 <= i < s.skip(1).len() implies ord(x, #[trigger] s.skip(1)[i])
            != 0 by {
            assert(ord(x, s[i + 1]) != 0);
        }
        assert(ord(x, s[0]) != 0);
        lemma_class_empty(ord, x, s.skip(1));
    }
}

proof fn lemma_merged_class<T>(ord: spec_fn(T, T) -> int, x: T, a: Seq<T>, b: Seq<T>)
    requires
        preorder(ord),
        is_sorted(ord, a),
        is_sorted(ord, b),
    ensures
        class_of(ord, x, merged(ord, a, b)) == class_of(ord, x, a) + class_of(ord, x, b),
    decreases a.len() + b.len(),
{
    let ca = class_of(ord, x, a);
    let cb = class_of(ord, x, b);
    if a.len() == 0 {
        assert(ca + cb =~= cb);
    } else if b.len() == 0 {
        assert(ca + cb =~= ca);
    } else if ord(a[0], b[0]) <= 0 {
        lemma_skip_sorted(ord, a);
        lemma_merged_class(ord, x, a.skip(1), b);
        let rest = merged(ord, a.skip(1), b);
        assert((seq![a[0]] + rest).skip(1) =~= rest);
        assert((seq![a[0]] + rest)[0] == a[0]);
        assert(seq![a[0]] + (class_of(ord, x, a.skip(1)) + cb) =~= (seq![a[0]] + class_of(
            ord,
            x,
            a.skip(1),
        )) + cb);
    } else {
        lemma_skip_sorted(ord, b);
        lemma_merged_class(ord, x, a, b.skip(1));
        let rest = merged(ord, a, b.skip(1));
        assert((seq![b[0]] + rest).skip(1) =~= rest);
        assert((seq![b[0]] + rest)[0] == b[0]);
        if ord(x, b[0]) == 0 {
            assert forall|i: int| 0 <= i < a.len() implies ord(x, #[trigger] a[i]) != 0 by {
                if ord(x, a[i]) == 0 {
                    assert(ord(b[0], x) <= 0);
                    assert(ord(a[i], x) <= 0);
                    if i > 0 {
                        assert(ord(a[0], a[i]) <= 0);
                    }
                    assert(ord(a[0], x) <= 0);
                    assert(ord(x, b[0]) <= 0);
                    assert(ord(a[0], b[0]) <= 0);
                }
            }
            lemma_class_empty(ord, x, a);
            assert(seq![b[0]] + (ca + class_of(ord, x, b.skip(1))) =~= ca + (seq![b[0]] + class_of(
                ord,
                x,
                b.skip(1),
            )));
        }
    }
}

/// Sorting is stable: elements of which neither is smaller keep their order.
pub proof fn law_sort_is_stable<T>(ord: spec_fn(T, T) -> int, s: Seq<T>, x: T)
    requires
        preorder(ord),
    ensures
        class_of(ord, x, merge_sorted(ord, s)) == class_of(ord, x, s),
    decreases s.len(),
{
    if s.len() > 1 {
        let half = s.len() as int / 2;
        let a = s.take(half);
        let b = s.skip(half);
        law_sort_is_sorted(ord, a);
        law_sort_is_sorted(ord, b);
        law_sort_is_stable(ord, a, x);
        law_sort_is_stable(ord, b, x);
        lemma_merged_class(ord, x, merge_sorted(ord, a), merge_sorted(ord, b));
        lemma_class_concat(ord, x, a, b);
        assert(a + b =~= s);
    }
}

/// The values that elements stand for.
pub open spec fn mapped<T, V>(s: Seq<T>, value: spec_fn(T) -> V) -> Seq<V> {
    Seq::new(s.len(), |i: int| value(s[i]))
}

proof fn lemma_merged_mapped<T, V>(
    ord: spec_fn(T, T) -> int,
    under: spec_fn(V, V) -> int,
    value: spec_fn(T) -> V,
    a: Seq<T>,
    b: Seq<T>,
)
    requires
        forall|x: T, y: T| #[trigger] ord(x, y) == under(value(x), value(y)),
    ensures
        mapped(merged(ord, a, b), value) == merged(under, mapped(a, value), mapped(b, value)),
    decreases a.len() + b.len(),
{
    let ma = mapped(a, value);
    let mb = mapped(b, value);
    if a.len() > 0 && b.len() > 0 {
        assert(ord(a[0], b[0]) == under(value(a[0]), value(b[0])));
        if ord(a[0], b[0]) <= 0 {
            lemma_merged_mapped(ord, under, value, a.skip(1), b);
            assert(mapped(a.skip(1), value) =~= ma.skip(1));
        } else {
            lemma_merged_mapped(ord, under, value, a, b.skip(1));
            assert(mapped(b.skip(1), value) =~= mb.skip(1));
        }
    }
    assert(mapped(merged(ord, a, b), value) =~= merged(under, ma, mb));
}

/// Sorting elements by a value sorts the values.
pub proof fn lemma_sorted_mapped<T, V>(
    ord: spec_fn(T, T) -> int,
    under: spec_fn(V, V) -> int,
    value: spec_fn(T) -> V,
    s: Seq<T>,
)
    requires
        forall|x: T, y: T| #[trigger] ord(x, y) == under(value(x), value(y)),
    ensures
        mapped(merge_sorted(ord, s), value) == merge_sorted(under, mapped(s, value)),
    decreases s.len(),
{
    if s.len() > 1 {
        let half = s.len() as int / 2;
        lemma_sorted_mapped(ord, under, value, s.take(half));
        lemma_sorted_mapped(ord, under, value, s.skip(half));
        lemma_merged_mapped(
            ord,
            under,
            value,
            merge_sorted(ord, s.take(half)),
            merge_sorted(ord, s.skip(half)),
        );
        assert(mapped(s.take(half), value) =~= mapped(s, value).take(half));
        assert(mapped(s.skip(half), value) =~= mapped(s, value).skip(half));
    } else {
        assert(mapped(merge_sorted(ord, s), value) =~= merge_sorted(under, mapped(s, value)));
    }
}

/// Merge two vectors.
fn merge<T: Copy, F: Fn(T, T) -> i32>(a: &Vec<T>, b: &Vec<T>, func: &F) -> (result: Vec<T>)
    requires
        callable(*func),
    ensures
        forall|ord: spec_fn(T, T) -> int| #[trigger]
            answers_by(*func, ord) ==> result@ == merged(ord, a@, b@),
        result@.to_multiset() == a@.to_multiset().add(b@.to_multiset()),
{
    let mut result: Vec<T> = Vec::new();
    let mut i: usize = 0;
    let mut j: usize = 0;
    proof {
        assert(a@.skip(0) =~= a@);
        assert(b@.skip(0) =~= b@);
        assert forall|ord: spec_fn(T, T) -> int| #[trigger] answers_by(*func, ord) implies result@
            + merged(ord, a@.skip(0), b@.skip(0)) == merged(ord, a@, b@) by {
            assert(Seq::<T>::empty() + merged(ord, a@, b@) =~= merged(ord, a@, b@));
        }
        lemma_taken_none(a@, b@);
    }
    while i < a.len() && j < b.len()
        invariant
            callable(*func),
            i <= a@.len(),
            j <= b@.len(),
            forall|ord: spec_fn(T, T) -> int| #[trigger]
                answers_by(*func, ord) ==> result@ + merged(
                    ord,
                    a@.skip(i as int),
                    b@.skip(j as int),
                ) == merged(ord, a@, b@),
            result@.to_multiset() == taken(a@, b@, i as int, j as int),
        decreases a@.len() - i + b@.len() - j,
    {
        let ghost before = result@;
        let order: i32 = func(a[i], b[j]);
        if order <= 0 {
            result.push(a[i]);
            proof {
                assert(a@.skip(i as int).skip(1) =~= a@.skip(i + 1));
                assert forall|ord: spec_fn(T, T) -> int| #[trigger]
                    answers_by(*func, ord) implies result@ + merged(
                    ord,
                    a@.skip(i + 1),
                    b@.skip(j as int),
                ) == merged(ord, a@, b@) by {
                    let rest = merged(ord, a@.skip(i + 1), b@.skip(j as int));
                    assert(ord(a@[i as int], b@[j as int]) <= 0);
                    assert(result@ + rest =~= before + (seq![a@[i as int]] + rest));
                }
                lemma_taken_left(a@, b@, i as int, j as int, before);
            }
            i = i + 1;
        } else {
            result.push(b[j]);
            proof {
                assert(b@.skip(j as int).skip(1) =~= b@.skip(j + 1));
                assert forall|ord: spec_fn(T, T) -> int| #[trigger]
                    answers_by(*func, ord) implies result@ + merged(
                    ord,
                    a@.skip(i as int),
                    b@.skip(j + 1),
                ) == merged(ord, a@, b@) by {
                    let rest = merged(ord, a@.skip(i as int), b@.skip(j + 1));
                    assert(ord(a@[i as int], b@[j as int]) > 0);
                    assert(result@ + rest =~= before + (seq![b@[j as int]] + rest));
                }
                lemma_taken_right(a@, b@, i as int, j as int, before);
            }
            j = j + 1;
        }
    }
    let ghost part = result@;
    let ghost more_a = a@.skip(i as int);
    let ghost more_b = b@.skip(j as int);
    while i < a.len()
        invariant
            i <= a@.len(),
            j <= b@.len(),
            result@ + a@.skip(i as int) == part + more_a,
            result@.to_multiset() == taken(a@, b@, i as int, j as int),
        decreases a@.len() - i,
    {
        let ghost before = result@;
        result.push(a[i]);
        proof {
            assert(result@ + a@.skip(i + 1) =~= before + a@.skip(i as int));
            lemma_taken_left(a@, b@, i as int, j as int, before);
        }
        i = i + 1;
    }
    assert(result@ + a@.skip(i as int) =~= result@);
    while j < b.len()
        invariant
            i == a@.len(),
            j <= b@.len(),
            result@ + b@.skip(j as int) == part + more_a + more_b,
            result@.to_multiset() == taken(a@, b@, i as int, j as int),
        decreases b@.len() - j,
    {
        let ghost before = result@;
        result.push(b[j]);
        proof {
            assert(result@ + b@.skip(j + 1) =~= before + b@.skip(j as int));
            lemma_taken_right(a@, b@, i as int, j as int, before);
        }
        j = j + 1;
    }
    proof {
        assert(result@ + b@.skip(j as int) =~= result@);
        assert forall|ord: spec_fn(T, T) -> int| #[trigger] answers_by(*func, ord) implies result@
            == merged(ord, a@, b@) by {
            assert(part + more_a + more_b =~= part + merged(ord, more_a, more_b));
        }
        assert(a@.take(a@.len() as int) =~= a@);
        assert(b@.take(b@.len() as int) =~= b@);
    }
    result
}

/// The elements before `i` and `j` of two sequences.
spec fn taken<T>(a: Seq<T>, b: Seq<T>, i: int, j: int) -> vstd::multiset::Multiset<T> {
    a.take(i).to_multiset().add(b.take(j).to_multiset())
}

proof fn lemma_taken_none<T>(a: Seq<T>, b: Seq<T>)
    ensures
        Seq::<T>::empty().to_multiset() == taken(a, b, 0, 0),
{
    broadcast use vstd::multiset::group_multiset_axioms;

    assert(a.take(0) =~= Seq::<T>::empty());
    assert(b.take(0) =~= Seq::<T>::empty());
    Seq::<T>::empty().to_multiset_ensures();
    assert(Seq::<T>::empty().to_multiset() =~= taken(a, b, 0, 0));
}

proof fn lemma_taken_left<T>(a: Seq<T>, b: Seq<T>, i: int, j: int, before: Seq<T>)
    requires
        0 <= i < a.len(),
        before.to_multiset() == taken(a, b, i, j),
    ensures
        before.push(a[i]).to_multiset() == taken(a, b, i + 1, j),
{
    broadcast use vstd::multiset::group_multiset_axioms;

    assert(a.take(i + 1) =~= a.take(i).push(a[i]));
    a.take(i).to_multiset_ensures();
    before.to_multiset_ensures();
    assert(before.push(a[i]).to_multiset() =~= taken(a, b, i + 1, j));
}

proof fn lemma_taken_right<T>(a: Seq<T>, b: Seq<T>, i: int, j: int, before: Seq<T>)
    requires
        0 <= j < b.len(),
        before.to_multiset() == taken(a, b, i, j),
    ensures
        before.push(b[j]).to_multiset() == taken(a, b, i, j + 1),
{
    broadcast use vstd::multiset::group_multiset_axioms;

    assert(b.take(j + 1) =~= b.take(j).push(b[j]));
    b.take(j).to_multiset_ensures();
    before.to_multiset_ensures();
    assert(before.push(b[j]).to_multiset() =~= taken(a, b, i, j + 1));
}

/// Sort the elements of a vector from `from` up to `to`.
fn sort_range<T: Copy, F: Fn(T, T) -> i32>(items: &Vec<T>, from: usize, to: usize, func: &F) -> (
    result: Vec<T>)
    requires
        from <= to <= items@.len(),
        callable(*func),
    ensures
        forall|ord: spec_fn(T, T) -> int| #[trigger]
            answers_by(*func, ord) ==> result@ == merge_sorted(
                ord,
                items@.subrange(from as int, to as int),
            ),
        result@.to_multiset() == items@.subrange(from as int, to as int).to_multiset(),
    decreases to - from,
{
    let ghost s = items@.subrange(from as int, to as int);
    if to - from <= 1 {
        let mut result: Vec<T> = Vec::new();
        if to - from == 1 {
            result.push(items[from]);
        }
        assert(result@ =~= s);
        return result;
    }
    let half: usize = (to - from) / 2;
    proof {
        assert(items@.subrange(from as int, from + half) =~= s.take(half as int));
        assert(items@.subrange(from + half, to as int) =~= s.skip(half as int));
        assert(s.take(half as int) + s.skip(half as int) =~= s);
        vstd::seq_lib::lemma_multiset_commutative(s.take(half as int), s.skip(half as int));
    }
    let a = sort_range(items, from, from + half, func);
    let b = sort_range(items, from + half, to, func);
    merge(&a, &b, func)
}

/// Sort a vector: the elements stay, and where the answers of the function are those of an order
/// they are sorted by it, and those that it does not tell apart keep their order.
pub fn merge_sort<T: Copy, F: Fn(T, T) -> i32>(items: &Vec<T>, func: &F) -> (result: Vec<T>)
    requires
        callable(*func),
    ensures
        forall|ord: spec_fn(T, T) -> int| #[trigger]
            answers_by(*func, ord) ==> result@ == merge_sorted(ord, items@),
        result@.to_multiset() == items@.to_multiset(),
{
    assert(items@.subrange(0, items@.len() as int) =~= items@);
    sort_range(items, 0, items.len(), func)
}

/// What sorting by a comparison function gives: where the function computes a total preorder, no
/// element comes after one that it calls larger, the elements are those that were there, and those
/// that it does not tell apart from `x` are in the order that they were in.
pub proof fn law_sorted_by_function<T, F: Fn(T, T) -> i32>(
    func: F,
    ord: spec_fn(T, T) -> int,
    s: Seq<T>,
    x: T,
)
    requires
        forall|a: T, b: T, answer: i32| #[trigger]
            func.ensures((a, b), answer) ==> answer == ord(a, b),
        forall|a: T, b: T| (#[trigger] ord(a, b) <= 0) || ord(b, a) <= 0,
        forall|a: T, b: T| (#[trigger] ord(a, b) < 0) == (ord(b, a) > 0),
        forall|a: T, b: T, c: T| #[trigger]
            ord(a, b) <= 0 && #[trigger] ord(b, c) <= 0 ==> ord(a, c) <= 0,
    ensures
        answers_by(func, ord),
        forall|i: int, j: int, answer: i32|
            0 <= i < j < merge_sorted(ord, s).len() && #[trigger] func.ensures(
                (merge_sorted(ord, s)[i], merge_sorted(ord, s)[j]),
                answer,
            ) ==> answer <= 0,
        merge_sorted(ord, s).to_multiset() == s.to_multiset(),
        merge_sorted(ord, s).filter(|y: T| ord(x, y) == 0) == s.filter(|y: T| ord(x, y) == 0),
{
    law_sort_is_sorted(ord, s);
    law_sort_keeps_elements(ord, s);
    law_sort_is_stable(ord, s, x);
    lemma_class_is_filter(ord, x, s);
    lemma_class_is_filter(ord, x, merge_sorted(ord, s));
    let r = merge_sorted(ord, s);
    assert forall|i: int, j: int, answer: i32|
        0 <= i < j < r.len() && #[trigger] func.ensures((r[i], r[j]), answer) implies answer
        <= 0 by {
        assert(ord(r[i], r[j]) <= 0);
    }
}

proof fn lemma_class_is_filter<T>(ord: spec_fn(T, T) -> int, x: T, s: Seq<T>)
    ensures
        class_of(ord, x, s) == s.filter(|y: T| ord(x, y) == 0),
    decreases s.len(),
{
    let keep = |y: T| ord(x, y) == 0;
    if s.len() == 0 {
        reveal(Seq::filter);
        assert(s.filter(keep) =~= Seq::<T>::empty());
    } else {
        let rest = s.skip(1);
        lemma_class_is_filter(ord, x, rest);
        assert(s =~= seq![s[0]] + rest);
        Seq::filter_distributes_over_add(seq![s[0]], rest, keep);
        assert(seq![s[0]].filter(keep) == (if keep(s[0]) {
            seq![s[0]]
        } else {
            Seq::<T>::empty()
        })) by {
            reveal(Seq::filter);
            assert(seq![s[0]].drop_last() =~= Seq::<T>::empty());
            assert(seq![s[0]].drop_last().filter(keep) =~= Seq::<T>::empty());
            assert(Seq::<T>::empty().push(s[0]) =~= seq![s[0]]);
        }
        if !keep(s[0]) {
            assert(Seq::<T>::empty() + rest.filter(keep) =~= rest.filter(keep));
        }
    }
}

} // verus!
