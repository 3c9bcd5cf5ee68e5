//! Ordering of sequences by an integer key: stable sorting, merging of two
//! sorted runs, and removal of the elements of a set, each as a spec function,
//! with the facts about them that the result store relies on.

use vstd::prelude::*;

verus! {

/// `s` is in ascending order of `key`.
pub open spec fn sorted_by<T>(key: spec_fn(T) -> int, s: Seq<T>) -> bool {
    forall|i: int, j: int| 0 <= i < j < s.len() ==> key(s[i]) <= key(s[j])
}

/// `s` with `x` put behind the last element whose key is not above that of `x`.
pub open spec fn insert_sorted<T>(key: spec_fn(T) -> int, s: Seq<T>, x: T) -> Seq<T>
    decreases s.len(),
{
    if s.len() == 0 {
        seq![x]
    } else if key(s.last()) <= key(x) {
        s.push(x)
    } else {
        insert_sorted(key, s.drop_last(), x).push(s.last())
    }
}

/// `s` in ascending order of `key`; elements of equal key keep the order they
/// have in `s`.
pub open spec fn stable_sort<T>(key: spec_fn(T) -> int, s: Seq<T>) -> Seq<T>
    decreases s.len(),
{
    if s.len() == 0 {
        Seq::<T>::empty()
    } else {
        insert_sorted(key, stable_sort(key, s.drop_last()), s.last())
    }
}

/// Two-pointer merge of `a` and `b`. An element of `a` goes first only where
/// its key is strictly below that of the next element of `b`: on equal keys
/// the element of `b` goes first.
pub open spec fn merge<T>(key: spec_fn(T) -> int, a: Seq<T>, b: Seq<T>) -> Seq<T>
    decreases a.len() + b.len(),
{
    if a.len() == 0 {
        b
    } else if b.len() == 0 {
        a
    } else if key(a[0]) < key(b[0]) {
        seq![a[0]] + merge(key, a.skip(1), b)
    } else {
        seq![b[0]] + merge(key, a, b.skip(1))
    }
}

/// `s` without the elements that are in `gone`, in the same order.
pub open spec fn without<T>(s: Seq<T>, gone: Set<T>) -> Seq<T>
    decreases s.len(),
{
    if s.len() == 0 {
        Seq::<T>::empty()
    } else if gone.contains(s[0]) {
        without(s.skip(1), gone)
    } else {
        seq![s[0]] + without(s.skip(1), gone)
    }
}

/// The elements of `s` that are not in `gone` are in ascending order of `key`.
pub open spec fn sorted_outside<T>(key: spec_fn(T) -> int, s: Seq<T>, gone: Set<T>) -> bool {
    forall|i: int, j: int|
        0 <= i < j < s.len() && !gone.contains(s[i]) && !gone.contains(s[j]) ==> key(s[i]) <= key(
            s[j],
        )
}

/// Inserting adds one element and nothing else, and keeps a sorted
/// sequence sorted and a duplicate-free one duplicate-free.
pub proof fn lemma_insert_sorted<T>(key: spec_fn(T) -> int, s: Seq<T>, x: T)
    ensures
        insert_sorted(key, s, x).len() == s.len() + 1,
        forall|y: T| #[trigger] insert_sorted(key, s, x).contains(y) <==> s.contains(y) || y == x,
        sorted_by(key, s) ==> sorted_by(key, insert_sorted(key, s, x)),
        s.no_duplicates() && !s.contains(x) ==> insert_sorted(key, s, x).no_duplicates(),
    decreases s.len(),
{
    let r = insert_sorted(key, s, x);
    if s.len() == 0 {
        assert(r[0] == x);
        assert forall|y: T| #[trigger] r.contains(y) <==> s.contains(y) || y == x by {
            if y == x {
                assert(r[0] == y);
            }
        }
    } else if key(s.last()) <= key(x) {
        assert forall|y: T| #[trigger] r.contains(y) <==> s.contains(y) || y == x by {
            if s.contains(y) {
                let i = choose|i: int| 0 <= i < s.len() && s[i] == y;
                assert(r[i] == y);
            }
            if y == x {
                assert(r[s.len() as int] == y);
            }
        }
    } else {
        let head = s.drop_last();
        let inner = insert_sorted(key, head, x);
        lemma_insert_sorted(key, head, x);
        assert forall|y: T| #[trigger] r.contains(y) <==> s.contains(y) || y == x by {
            if r.contains(y) {
                let i = choose|i: int| 0 <= i < r.len() && r[i] == y;
                if i < inner.len() {
                    assert(inner[i] == y);
                    assert(inner.contains(y));
                    if head.contains(y) {
                        let k = choose|k: int| 0 <= k < head.len() && head[k] == y;
                        assert(s[k] == y);
                    }
                } else {
                    assert(s[s.len() - 1] == y);
                }
            }
            if s.contains(y) {
                let k = choose|k: int| 0 <= k < s.len() && s[k] == y;
                if k < head.len() {
                    assert(head[k] == y);
                    assert(head.contains(y));
                    assert(inner.contains(y));
                    let i = choose|i: int| 0 <= i < inner.len() && inner[i] == y;
                    assert(r[i] == y);
                } else {
                    assert(r[inner.len() as int] == y);
                }
            }
            if y == x {
                assert(inner.contains(x));
                let i = choose|i: int| 0 <= i < inner.len() && inner[i] == x;
                assert(r[i] == y);
            }
        }
        if sorted_by(key, s) {
            assert(sorted_by(key, head)) by {
                assert forall|i: int, j: int| 0 <= i < j < head.len() implies key(head[i]) <= key(
                    head[j],
                ) by {
                    assert(head[i] == s[i] && head[j] == s[j]);
                }
            }
            assert forall|i: int, j: int| 0 <= i < j < r.len() implies key(r[i]) <= key(r[j]) by {
                if j < inner.len() {
                    assert(r[i] == inner[i] && r[j] == inner[j]);
                } else {
                    assert(r[j] == s.last());
                    assert(r[i] == inner[i]);
                    assert(inner.contains(inner[i]));
                    if inner[i] != x {
                        assert(head.contains(inner[i]));
                        let k = choose|k: int| 0 <= k < head.len() && head[k] == inner[i];
                        assert(s[k] == inner[i]);
                        assert(key(s[k]) <= key(s[s.len() - 1]));
                    }
                }
            }
        }
        if s.no_duplicates() && !s.contains(x) {
            assert(head.no_duplicates()) by {
                assert forall|i: int, j: int|
                    0 <= i < head.len() && 0 <= j < head.len() && i != j implies head[i]
                    != head[j] by {
                    assert(head[i] == s[i] && head[j] == s[j]);
                }
            }
            assert(!head.contains(x)) by {
                if head.contains(x) {
                    let k = choose|k: int| 0 <= k < head.len() && head[k] == x;
                    assert(s[k] == x);
                }
            }
            assert forall|i: int, j: int|
                0 <= i < r.len() && 0 <= j < r.len() && i != j implies r[i] != r[j] by {
                if i < inner.len() && j < inner.len() {
                    assert(r[i] == inner[i] && r[j] == inner[j]);
                } else {
                    let m = if i < inner.len() {
                        i
                    } else {
                        j
                    };
                    assert(inner.contains(inner[m]));
                    assert(s.last() != x) by {
                        assert(s[s.len() - 1] == s.last());
                    }
                    if inner[m] == s.last() {
                        assert(head.contains(inner[m]));
                        let k = choose|k: int| 0 <= k < head.len() && head[k] == inner[m];
                        assert(s[k] == s[s.len() - 1]);
                    }
                }
            }
        }
    }
}

/// Sorting keeps the elements, and leaves them in ascending order.
pub proof fn lemma_stable_sort<T>(key: spec_fn(T) -> int, s: Seq<T>)
    ensures
        stable_sort(key, s).len() == s.len(),
        forall|y: T| #[trigger] stable_sort(key, s).contains(y) <==> s.contains(y),
        sorted_by(key, stable_sort(key, s)),
        s.no_duplicates() ==> stable_sort(key, s).no_duplicates(),
    decreases s.len(),
{
    let r = stable_sort(key, s);
    if s.len() == 0 {
    } else {
        let head = s.drop_last();
        let inner = stable_sort(key, head);
        lemma_stable_sort(key, head);
        lemma_insert_sorted(key, inner, s.last());
        assert forall|y: T| #[trigger] r.contains(y) <==> s.contains(y) by {
            if s.contains(y) {
                let k = choose|k: int| 0 <= k < s.len() && s[k] == y;
                if k < head.len() {
                    assert(head[k] == y);
                    assert(head.contains(y));
                }
            }
            if head.contains(y) {
                let k = choose|k: int| 0 <= k < head.len() && head[k] == y;
                assert(s[k] == y);
            }
            if y == s.last() {
                assert(s[s.len() - 1] == y);
            }
        }
        if s.no_duplicates() {
            assert(head.no_duplicates()) by {
                assert forall|i: int, j: int|
                    0 <= i < head.len() && 0 <= j < head.len() && i != j implies head[i]
                    != head[j] by {
                    assert(head[i] == s[i] && head[j] == s[j]);
                }
            }
            assert(!inner.contains(s.last())) by {
                if head.contains(s.last()) {
                    let k = choose|k: int| 0 <= k < head.len() && head[k] == s.last();
                    assert(s[k] == s[s.len() - 1]);
                }
            }
        }
    }
}

/// Sorting leaves a sorted sequence as it is.
pub proof fn lemma_stable_sort_of_sorted<T>(key: spec_fn(T) -> int, s: Seq<T>)
    requires
        sorted_by(key, s),
    ensures
        stable_sort(key, s) == s,
    decreases s.len(),
{
    if s.len() > 0 {
        let head = s.drop_last();
        assert(sorted_by(key, head)) by {
            assert forall|i: int, j: int| 0 <= i < j < head.len() implies key(head[i]) <= key(
                head[j],
            ) by {
                assert(head[i] == s[i] && head[j] == s[j]);
            }
        }
        lemma_stable_sort_of_sorted(key, head);
        if head.len() > 0 {
            assert(head.last() == s[s.len() - 2]);
            assert(key(s[s.len() - 2]) <= key(s[s.len() - 1]));
        }
        assert(head.push(s.last()) =~= s);
    }
}

/// A merge holds the elements of both runs; the merge of two sorted runs
/// is sorted, and that of two duplicate-free runs without a common element
/// is duplicate-free.
pub proof fn lemma_merge<T>(key: spec_fn(T) -> int, a: Seq<T>, b: Seq<T>)
    ensures
        merge(key, a, b).len() == a.len() + b.len(),
        forall|y: T| #[trigger] merge(key, a, b).contains(y) <==> a.contains(y) || b.contains(y),
        sorted_by(key, a) && sorted_by(key, b) ==> sorted_by(key, merge(key, a, b)),
        a.no_duplicates() && b.no_duplicates() && (forall|y: T| !(a.contains(y) && b.contains(y)))
            ==> merge(key, a, b).no_duplicates(),
    decreases a.len() + b.len(),
{
    let r = merge(key, a, b);
    if a.len() == 0 {
        assert forall|y: T| !a.contains(y) by {}
    } else if b.len() == 0 {
        assert forall|y: T| !b.contains(y) by {}
    } else {
        let from_a = key(a[0]) < key(b[0]);
        let x = if from_a {
            a[0]
        } else {
            b[0]
        };
        let a2 = if from_a {
            a.skip(1)
        } else {
            a
        };
        let b2 = if from_a {
            b
        } else {
            b.skip(1)
        };
        let rest = merge(key, a2, b2);
        lemma_merge(key, a2, b2);
        assert(r == seq![x] + rest);
        assert(r[0] == x);
        assert(forall|i: int| 1 <= i < r.len() ==> r[i] == rest[i - 1]);
        lemma_skip_contains(a);
        lemma_skip_contains(b);
        assert forall|y: T| #[trigger] r.contains(y) <==> a.contains(y) || b.contains(y) by {
            if r.contains(y) {
                let i = choose|i: int| 0 <= i < r.len() && r[i] == y;
                if i > 0 {
                    assert(rest[i - 1] == y);
                    assert(rest.contains(y));
                }
            }
            if y == x {
                assert(r[0] == y);
            }
            if rest.contains(y) {
                let i = choose|i: int| 0 <= i < rest.len() && rest[i] == y;
                assert(r[i + 1] == y);
            }
        }
        if sorted_by(key, a) && sorted_by(key, b) {
            lemma_skip_sorted(key, a);
            lemma_skip_sorted(key, b);
            assert forall|i: int, j: int| 0 <= i < j < r.len() implies key(r[i]) <= key(r[j]) by {
                if i > 0 {
                    assert(r[i] == rest[i - 1] && r[j] == rest[j - 1]);
                } else {
                    assert(rest[j - 1] == r[j]);
                    assert(rest.contains(r[j]));
                    if a2.contains(r[j]) {
                        let k = choose|k: int| 0 <= k < a2.len() && a2[k] == r[j];
                        if from_a {
                            assert(a[k + 1] == r[j]);
                        } else {
                            assert(key(a[0]) <= key(a[k]));
                        }
                    } else {
                        let k = choose|k: int| 0 <= k < b2.len() && b2[k] == r[j];
                        if from_a {
                            assert(key(b[0]) <= key(b[k]));
                        } else {
                            assert(b[k + 1] == r[j]);
                        }
                    }
                }
            }
        }
        if a.no_duplicates() && b.no_duplicates() && (forall|y: T|
            !(a.contains(y) && b.contains(y))) {
            lemma_skip_no_duplicates(a);
            lemma_skip_no_duplicates(b);
            assert(!rest.contains(x)) by {
                if from_a {
                    assert(a.contains(x)) by {
                        assert(a[0] == x);
                    }
                } else {
                    assert(b.contains(x)) by {
                        assert(b[0] == x);
                    }
                }
            }
            assert forall|i: int, j: int|
                0 <= i < r.len() && 0 <= j < r.len() && i != j implies r[i] != r[j] by {
                if i > 0 && j > 0 {
                    assert(r[i] == rest[i - 1] && r[j] == rest[j - 1]);
                } else if i > 0 {
                    assert(rest[i - 1] == r[i]);
                    assert(rest.contains(r[i]));
                } else {
                    assert(rest[j - 1] == r[j]);
                    assert(rest.contains(r[j]));
                }
            }
        }
    }
}

/// What `s.skip(1)` holds: the elements of `s` but for the first occurrence
/// of `s[0]`.
pub proof fn lemma_skip_contains<T>(s: Seq<T>)
    requires
        s.len() > 0,
    ensures
        forall|y: T| #[trigger] s.skip(1).contains(y) ==> s.contains(y),
        forall|y: T| #[trigger] s.contains(y) ==> y == s[0] || s.skip(1).contains(y),
{
    let t = s.skip(1);
    assert forall|y: T| #[trigger] t.contains(y) implies s.contains(y) by {
        let k = choose|k: int| 0 <= k < t.len() && t[k] == y;
        assert(s[k + 1] == y);
    }
    assert forall|y: T| #[trigger] s.contains(y) implies y == s[0] || t.contains(y) by {
        let k = choose|k: int| 0 <= k < s.len() && s[k] == y;
        if k > 0 {
            assert(t[k - 1] == y);
        }
    }
}

/// A sorted sequence without its first element is sorted.
pub proof fn lemma_skip_sorted<T>(key: spec_fn(T) -> int, s: Seq<T>)
    requires
        s.len() > 0,
        sorted_by(key, s),
    ensures
        sorted_by(key, s.skip(1)),
{
    let t = s.skip(1);
    assert forall|i: int, j: int| 0 <= i < j < t.len() implies key(t[i]) <= key(t[j]) by {
        assert(t[i] == s[i + 1] && t[j] == s[j + 1]);
    }
}

/// A duplicate-free sequence without its first element is duplicate-free
/// and does not hold that element.
pub proof fn lemma_skip_no_duplicates<T>(s: Seq<T>)
    requires
        s.len() > 0,
        s.no_duplicates(),
    ensures
        s.skip(1).no_duplicates(),
        !s.skip(1).contains(s[0]),
{
    let t = s.skip(1);
    assert forall|i: int, j: int| 0 <= i < t.len() && 0 <= j < t.len() && i != j implies t[i]
        != t[j] by {
        assert(t[i] == s[i + 1] && t[j] == s[j + 1]);
    }
    if t.contains(s[0]) {
        let k = choose|k: int| 0 <= k < t.len() && t[k] == s[0];
        assert(s[k + 1] == s[0]);
    }
}

/// What is left holds the elements that were not to go, once each if they
/// were there once, and in ascending order if they were so among
/// themselves.
pub proof fn lemma_without<T>(key: spec_fn(T) -> int, s: Seq<T>, gone: Set<T>)
    ensures
        without(s, gone).len() <= s.len(),
        forall|y: T| #[trigger] without(s, gone).contains(y) <==> s.contains(y) && !gone.contains(y),
        s.no_duplicates() ==> without(s, gone).no_duplicates(),
        sorted_outside(key, s, gone) ==> sorted_by(key, without(s, gone)),
    decreases s.len(),
{
    let r = without(s, gone);
    if s.len() == 0 {
        assert forall|y: T| !s.contains(y) by {}
    } else {
        let t = s.skip(1);
        let rest = without(t, gone);
        lemma_without(key, t, gone);
        lemma_skip_contains(s);
        if gone.contains(s[0]) {
            assert forall|y: T| #[trigger] r.contains(y) <==> s.contains(y) && !gone.contains(
                y,
            ) by {}
        } else {
            assert(r == seq![s[0]] + rest);
            assert(r[0] == s[0]);
            assert(forall|i: int| 1 <= i < r.len() ==> r[i] == rest[i - 1]);
            assert forall|y: T| #[trigger] r.contains(y) <==> s.contains(y) && !gone.contains(
                y,
            ) by {
                if r.contains(y) {
                    let i = choose|i: int| 0 <= i < r.len() && r[i] == y;
                    if i > 0 {
                        assert(rest[i - 1] == y);
                        assert(rest.contains(y));
                    } else {
                        assert(s[0] == y);
                    }
                }
                if s.contains(y) && !gone.contains(y) {
                    if y == s[0] {
                        assert(r[0] == y);
                    } else {
                        assert(rest.contains(y));
                        let i = choose|i: int| 0 <= i < rest.len() && rest[i] == y;
                        assert(r[i + 1] == y);
                    }
                }
            }
        }
        if s.no_duplicates() {
            lemma_skip_no_duplicates(s);
            if !gone.contains(s[0]) {
                assert forall|i: int, j: int|
                    0 <= i < r.len() && 0 <= j < r.len() && i != j implies r[i] != r[j] by {
                    if i > 0 && j > 0 {
                        assert(r[i] == rest[i - 1] && r[j] == rest[j - 1]);
                    } else if i > 0 {
                        assert(rest[i - 1] == r[i]);
                        assert(rest.contains(r[i]));
                    } else {
                        assert(rest[j - 1] == r[j]);
                        assert(rest.contains(r[j]));
                    }
                }
            }
        }
        if sorted_outside(key, s, gone) {
            assert(sorted_outside(key, t, gone)) by {
                assert forall|i: int, j: int|
                    0 <= i < j < t.len() && !gone.contains(t[i]) && !gone.contains(
                        t[j],
                    ) implies key(t[i]) <= key(t[j]) by {
                    assert(t[i] == s[i + 1] && t[j] == s[j + 1]);
                }
            }
            if !gone.contains(s[0]) {
                assert forall|i: int, j: int| 0 <= i < j < r.len() implies key(r[i]) <= key(
                    r[j],
                ) by {
                    if i > 0 {
                        assert(r[i] == rest[i - 1] && r[j] == rest[j - 1]);
                    } else {
                        assert(rest[j - 1] == r[j]);
                        assert(rest.contains(r[j]));
                        assert(t.contains(r[j]));
                        let k = choose|k: int| 0 <= k < t.len() && t[k] == r[j];
                        assert(s[k + 1] == r[j]);
                    }
                }
            }
        }
    }
}

/// Nothing leaves where nothing is to go.
pub proof fn lemma_without_nothing<T>(s: Seq<T>, gone: Set<T>)
    requires
        forall|i: int| 0 <= i < s.len() ==> !gone.contains(s[i]),
    ensures
        without(s, gone) == s,
    decreases s.len(),
{
    if s.len() > 0 {
        let t = s.skip(1);
        assert forall|i: int| 0 <= i < t.len() implies !gone.contains(t[i]) by {
            assert(t[i] == s[i + 1]);
        }
        lemma_without_nothing(t, gone);
        assert(seq![s[0]] + t =~= s);
    }
}

/// Taking out of a merge all that came from the second run leaves the first.
pub proof fn lemma_without_merge<T>(key: spec_fn(T) -> int, a: Seq<T>, b: Seq<T>, gone: Set<T>)
    requires
        forall|i: int| 0 <= i < a.len() ==> !gone.contains(a[i]),
        forall|i: int| 0 <= i < b.len() ==> gone.contains(b[i]),
    ensures
        without(merge(key, a, b), gone) == a,
    decreases a.len() + b.len(),
{
    if a.len() == 0 {
        lemma_without_all(b, gone);
    } else if b.len() == 0 {
        lemma_without_nothing(a, gone);
    } else if key(a[0]) < key(b[0]) {
        let t = a.skip(1);
        assert forall|i: int| 0 <= i < t.len() implies !gone.contains(t[i]) by {
            assert(t[i] == a[i + 1]);
        }
        lemma_without_merge(key, t, b, gone);
        let r = seq![a[0]] + merge(key, t, b);
        assert(r[0] == a[0]);
        assert(r.skip(1) =~= merge(key, t, b));
        assert(seq![a[0]] + t =~= a);
    } else {
        let t = b.skip(1);
        assert forall|i: int| 0 <= i < t.len() implies gone.contains(t[i]) by {
            assert(t[i] == b[i + 1]);
        }
        lemma_without_merge(key, a, t, gone);
        let r = seq![b[0]] + merge(key, a, t);
        assert(r[0] == b[0]);
        assert(r.skip(1) =~= merge(key, a, t));
    }
}

/// Nothing is left where all is to go.
pub proof fn lemma_without_all<T>(s: Seq<T>, gone: Set<T>)
    requires
        forall|i: int| 0 <= i < s.len() ==> gone.contains(s[i]),
    ensures
        without(s, gone) == Seq::<T>::empty(),
    decreases s.len(),
{
    if s.len() > 0 {
        let t = s.skip(1);
        assert forall|i: int| 0 <= i < t.len() implies gone.contains(t[i]) by {
            assert(t[i] == s[i + 1]);
        }
        lemma_without_all(t, gone);
    }
}

/// Two-pointer merge of `a` and `b` that keeps `a` in front: an element of
/// `b` goes first only where its key is strictly below that of the next
/// element of `a`.
pub open spec fn merge_stable<T>(key: spec_fn(T) -> int, a: Seq<T>, b: Seq<T>) -> Seq<T>
    decreases a.len() + b.len(),
{
    if a.len() == 0 {
        b
    } else if b.len() == 0 {
        a
    } else if key(b[0]) < key(a[0]) {
        seq![b[0]] + merge_stable(key, a, b.skip(1))
    } else {
        seq![a[0]] + merge_stable(key, a.skip(1), b)
    }
}

/// Where an element goes into a sorted sequence, told from the front: before
/// the first element if its key is strictly below, and else into the rest.
pub proof fn lemma_insert_sorted_front<T>(key: spec_fn(T) -> int, s: Seq<T>, x: T)
    requires
        s.len() > 0,
        sorted_by(key, s),
    ensures
        insert_sorted(key, s, x) == (if key(x) < key(s[0]) {
            seq![x] + s
        } else {
            seq![s[0]] + insert_sorted(key, s.skip(1), x)
        }),
    decreases s.len(),
{
    let h = s[0];
    let t = s.skip(1);
    let front = s.drop_last();
    assert(s.last() == s[s.len() - 1]);
    if s.len() == 1 {
        assert(t =~= Seq::<T>::empty());
        assert(front =~= Seq::<T>::empty());
        assert(insert_sorted(key, t, x) == seq![x]);
        if key(h) <= key(x) {
            assert(s.push(x) =~= seq![h] + seq![x]);
        } else {
            assert(insert_sorted(key, front, x) == seq![x]);
            assert(seq![x].push(h) =~= seq![x] + s);
        }
    } else {
        assert(t.last() == s.last());
        assert(key(s[0]) <= key(s[s.len() - 1]));
        if key(s.last()) <= key(x) {
            assert(insert_sorted(key, t, x) == t.push(x));
            assert(s.push(x) =~= seq![h] + t.push(x));
        } else {
            assert(sorted_by(key, front)) by {
                assert forall|i: int, j: int| 0 <= i < j < front.len() implies key(front[i])
                    <= key(front[j]) by {
                    assert(front[i] == s[i] && front[j] == s[j]);
                }
            }
            lemma_insert_sorted_front(key, front, x);
            assert(front[0] == h);
            assert(front.skip(1) =~= t.drop_last());
            assert(insert_sorted(key, t, x) == insert_sorted(key, t.drop_last(), x).push(
                t.last(),
            ));
            if key(x) < key(h) {
                assert((seq![x] + front).push(s.last()) =~= seq![x] + s);
            } else {
                assert((seq![h] + insert_sorted(key, t.drop_last(), x)).push(s.last()) =~= seq![h]
                    + insert_sorted(key, t.drop_last(), x).push(t.last()));
            }
        }
    }
}

/// Inserting into a merge is merging with the second run after the insert.
pub proof fn lemma_insert_into_merge<T>(key: spec_fn(T) -> int, a: Seq<T>, b: Seq<T>, x: T)
    requires
        sorted_by(key, a),
        sorted_by(key, b),
    ensures
        insert_sorted(key, merge_stable(key, a, b), x) == merge_stable(
            key,
            a,
            insert_sorted(key, b, x),
        ),
    decreases a.len() + b.len(),
{
    let m = merge_stable(key, a, b);
    let bx = insert_sorted(key, b, x);
    lemma_insert_sorted(key, b, x);
    if a.len() == 0 {
    } else {
        lemma_merge_stable(key, a, b);
        lemma_skip_sorted(key, a);
        let a0 = a[0];
        if b.len() == 0 {
            assert(bx[0] == x);
            assert(bx.skip(1) =~= Seq::<T>::empty());
            lemma_insert_sorted_front(key, a, x);
            if key(x) < key(a0) {
                assert(merge_stable(key, a, bx.skip(1)) == a);
            } else {
                lemma_insert_into_merge(key, a.skip(1), b, x);
                assert(merge_stable(key, a.skip(1), b) == a.skip(1));
            }
        } else {
            lemma_skip_sorted(key, b);
            let b0 = b[0];
            lemma_insert_sorted_front(key, b, x);
            lemma_insert_sorted_front(key, m, x);
            if key(b0) < key(a0) {
                let rest = merge_stable(key, a, b.skip(1));
                assert(m == seq![b0] + rest);
                assert(m[0] == b0);
                assert(m.skip(1) =~= rest);
                if key(x) < key(b0) {
                    assert(bx[0] == x);
                    assert(bx.skip(1) =~= b);
                } else {
                    assert(bx[0] == b0);
                    assert(bx.skip(1) =~= insert_sorted(key, b.skip(1), x));
                    lemma_insert_into_merge(key, a, b.skip(1), x);
                }
            } else {
                let rest = merge_stable(key, a.skip(1), b);
                assert(m == seq![a0] + rest);
                assert(m[0] == a0);
                assert(m.skip(1) =~= rest);
                if key(x) < key(a0) {
                    assert(bx[0] == x);
                    assert(bx.skip(1) =~= b);
                } else {
                    lemma_insert_into_merge(key, a.skip(1), b, x);
                    if key(x) < key(b0) {
                        assert(bx[0] == x);
                    } else {
                        assert(bx[0] == b0);
                    }
                }
            }
        }
    }
}

/// The merge of two sorted runs is sorted.
pub proof fn lemma_merge_stable<T>(key: spec_fn(T) -> int, a: Seq<T>, b: Seq<T>)
    requires
        sorted_by(key, a),
        sorted_by(key, b),
    ensures
        sorted_by(key, merge_stable(key, a, b)),
        merge_stable(key, a, b).len() == a.len() + b.len(),
        forall|y: T| #[trigger]
            merge_stable(key, a, b).contains(y) ==> a.contains(y) || b.contains(y),
    decreases a.len() + b.len(),
{
    let r = merge_stable(key, a, b);
    if a.len() == 0 || b.len() == 0 {
    } else {
        let from_b = key(b[0]) < key(a[0]);
        let x = if from_b {
            b[0]
        } else {
            a[0]
        };
        let a2 = if from_b {
            a
        } else {
            a.skip(1)
        };
        let b2 = if from_b {
            b.skip(1)
        } else {
            b
        };
        let rest = merge_stable(key, a2, b2);
        lemma_skip_sorted(key, a);
        lemma_skip_sorted(key, b);
        lemma_skip_contains(a);
        lemma_skip_contains(b);
        lemma_merge_stable(key, a2, b2);
        assert(r == seq![x] + rest);
        assert(r[0] == x);
        assert(forall|i: int| 1 <= i < r.len() ==> r[i] == rest[i - 1]);
        assert forall|y: T| #[trigger] r.contains(y) implies a.contains(y) || b.contains(y) by {
            let i = choose|i: int| 0 <= i < r.len() && r[i] == y;
            if i > 0 {
                assert(rest[i - 1] == y);
                assert(rest.contains(y));
            } else if from_b {
                assert(b[0] == y);
            } else {
                assert(a[0] == y);
            }
        }
        assert forall|i: int, j: int| 0 <= i < j < r.len() implies key(r[i]) <= key(r[j]) by {
            if i > 0 {
                assert(r[i] == rest[i - 1] && r[j] == rest[j - 1]);
            } else {
                assert(rest[j - 1] == r[j]);
                assert(rest.contains(r[j]));
                if a2.contains(r[j]) {
                    let k = choose|k: int| 0 <= k < a2.len() && a2[k] == r[j];
                    if from_b {
                        assert(key(a[0]) <= key(a[k]));
                    } else {
                        assert(a[k + 1] == r[j]);
                    }
                } else {
                    let k = choose|k: int| 0 <= k < b2.len() && b2[k] == r[j];
                    if from_b {
                        assert(b[k + 1] == r[j]);
                    } else {
                        assert(key(b[0]) <= key(b[k]));
                    }
                }
            }
        }
    }
}

/// Sorting two sequences and merging them, the first in front, is sorting
/// the one followed by the other.
pub proof fn lemma_sort_concat<T>(key: spec_fn(T) -> int, a: Seq<T>, b: Seq<T>)
    ensures
        stable_sort(key, a + b) == merge_stable(key, stable_sort(key, a), stable_sort(key, b)),
    decreases b.len(),
{
    let sa = stable_sort(key, a);
    lemma_stable_sort(key, a);
    if b.len() == 0 {
        assert(a + b =~= a);
    } else {
        let head = b.drop_last();
        let x = b.last();
        lemma_sort_concat(key, a, head);
        lemma_stable_sort(key, head);
        assert((a + b).drop_last() =~= a + head);
        assert((a + b).last() == x);
        lemma_insert_into_merge(key, sa, stable_sort(key, head), x);
    }
}

} // verus!
