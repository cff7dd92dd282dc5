//! Orders, and what it means to put things in order.

use vstd::prelude::*;

verus! {

/// Whether `less` orders all values one after the other.
pub open spec fn total<T>(less: spec_fn(T, T) -> bool) -> bool {
    &&& forall|x: T| !#[trigger] less(x, x)
    &&& forall|x: T, y: T| #![trigger less(x, y)] x != y ==> less(x, y) || less(y, x)
    &&& forall|x: T, y: T, z: T|
        #![trigger less(x, y), less(y, z)]
        less(x, y) && less(y, z) ==> less(x, z)
}

/// Dictionary order: the first difference decides, and a list comes before its extensions.
pub open spec fn lex<T>(a: Seq<T>, b: Seq<T>, less: spec_fn(T, T) -> bool) -> bool
    decreases a.len(),
{
    if b.len() == 0 {
        false
    } else if a.len() == 0 {
        true
    } else if a[0] != b[0] {
        less(a[0], b[0])
    } else {
        lex(a.skip(1), b.skip(1), less)
    }
}

/// Nothing comes before itself in dictionary order.
pub proof fn lemma_lex_self<T>(a: Seq<T>, less: spec_fn(T, T) -> bool)
    ensures
        !lex(a, a, less),
    decreases a.len(),
{
    if a.len() > 0 {
        lemma_lex_self(a.skip(1), less);
    }
}

/// Of two different lists one comes first in dictionary order.
pub proof fn lemma_lex_either<T>(a: Seq<T>, b: Seq<T>, less: spec_fn(T, T) -> bool)
    requires
        total(less),
        a != b,
    ensures
        lex(a, b, less) || lex(b, a, less),
    decreases a.len(),
{
    if a.len() > 0 && b.len() > 0 {
        if a[0] == b[0] {
            if a.skip(1) == b.skip(1) {
                assert(a.skip(1).len() == b.skip(1).len());
                assert forall|i: int| 0 <= i < a.len() implies a[i] == b[i] by {
                    if i > 0 {
                        assert(a.skip(1)[i - 1] == b.skip(1)[i - 1]);
                    }
                }
                assert(a =~= b);
            }
            lemma_lex_either(a.skip(1), b.skip(1), less);
        } else {
            assert(less(a[0], b[0]) || less(b[0], a[0]));
        }
    } else if a.len() == 0 && b.len() == 0 {
        assert(a =~= b);
    }
}

/// Dictionary order is transitive.
pub proof fn lemma_lex_chain<T>(a: Seq<T>, b: Seq<T>, c: Seq<T>, less: spec_fn(T, T) -> bool)
    requires
        total(less),
        lex(a, b, less),
        lex(b, c, less),
    ensures
        lex(a, c, less),
    decreases a.len(),
{
    if a.len() > 0 {
        if a[0] == b[0] && b[0] == c[0] {
            lemma_lex_chain(a.skip(1), b.skip(1), c.skip(1), less);
        } else if a[0] != b[0] && b[0] != c[0] {
            assert(less(a[0], b[0]) && less(b[0], c[0]));
            assert(less(a[0], c[0]));
            assert(!less(a[0], a[0]));
        }
    }
}

/// Dictionary order goes by the first difference: one list comes before another exactly when
/// they agree up to some place where the first one ends, or has the lesser entry.
pub proof fn law_first_difference<T>(a: Seq<T>, b: Seq<T>, less: spec_fn(T, T) -> bool)
    requires
        forall|x: T| !#[trigger] less(x, x),
    ensures
        lex(a, b, less) <==> exists|k: int|
            0 <= k <= a.len() && k < b.len() && #[trigger] a.take(k) == b.take(k) && (k == a.len()
                || less(a[k], b[k])),
    decreases a.len(),
{
    if b.len() > 0 {
        if a.len() == 0 || a[0] != b[0] {
            assert(a.take(0) =~= b.take(0));
            if exists|k: int|
                0 <= k <= a.len() && k < b.len() && #[trigger] a.take(k) == b.take(k) && (k == a.len()
                    || less(a[k], b[k])) {
                let k = choose|k: int|
                    0 <= k <= a.len() && k < b.len() && #[trigger] a.take(k) == b.take(k) && (k
                        == a.len() || less(a[k], b[k]));
                if k > 0 {
                    assert(a.take(k)[0] == b.take(k)[0]);
                }
            }
        } else {
            let x = a.skip(1);
            let y = b.skip(1);
            law_first_difference(x, y, less);
            if lex(x, y, less) {
                let k = choose|k: int|
                    0 <= k <= x.len() && k < y.len() && #[trigger] x.take(k) == y.take(k) && (k
                        == x.len() || less(x[k], y[k]));
                assert forall|i: int| 0 <= i < k + 1 implies a[i] == b[i] by {
                    if i > 0 {
                        assert(x.take(k)[i - 1] == y.take(k)[i - 1]);
                    }
                }
                assert(a.take(k + 1) =~= b.take(k + 1));
                assert(k < x.len() ==> a[k + 1] == x[k] && b[k + 1] == y[k]);
            }
            if exists|k: int|
                0 <= k <= a.len() && k < b.len() && #[trigger] a.take(k) == b.take(k) && (k == a.len()
                    || less(a[k], b[k])) {
                let k = choose|k: int|
                    0 <= k <= a.len() && k < b.len() && #[trigger] a.take(k) == b.take(k) && (k
                        == a.len() || less(a[k], b[k]));
                assert(k > 0);
                assert forall|i: int| 0 <= i < k - 1 implies x[i] == y[i] by {
                    assert(a.take(k)[i + 1] == b.take(k)[i + 1]);
                }
                assert(x.take(k - 1) =~= y.take(k - 1));
                assert(k < a.len() ==> a[k] == x[k - 1] && b[k] == y[k - 1]);
            }
        }
    }
}

// ---------------------------------------------------------------------------
// Sorting
// ---------------------------------------------------------------------------

/// Where `x` goes in a list: in front of the first entry that comes after it.
pub open spec fn place<T>(list: Seq<T>, x: T, less: spec_fn(T, T) -> bool) -> int
    decreases list.len(),
{
    if list.len() == 0 || less(x, list[0]) {
        0
    } else {
        1 + place(list.skip(1), x, less)
    }
}

/// A list with `x` put in its place.
pub open spec fn placed<T>(list: Seq<T>, x: T, less: spec_fn(T, T) -> bool) -> Seq<T> {
    list.insert(place(list, x, less), x)
}

/// A list in ascending order, equals staying in the order in which they came.
pub open spec fn sorted<T>(list: Seq<T>, less: spec_fn(T, T) -> bool) -> Seq<T>
    decreases list.len(),
{
    if list.len() == 0 {
        Seq::empty()
    } else {
        placed(sorted(list.drop_last(), less), list.last(), less)
    }
}

/// Whether no entry comes before an earlier one.
pub open spec fn ascending<T>(list: Seq<T>, less: spec_fn(T, T) -> bool) -> bool {
    forall|i: int, j: int|
        #![trigger list[i], list[j]]
        0 <= i < j < list.len() ==> !less(list[j], list[i])
}

/// Whether `less` puts values in ranks: transitive, and so is "neither comes first".
pub open spec fn ranking<T>(less: spec_fn(T, T) -> bool) -> bool {
    &&& forall|x: T| !#[trigger] less(x, x)
    &&& forall|x: T, y: T| #![trigger less(x, y)] less(x, y) ==> !less(y, x)
    &&& forall|x: T, y: T, z: T|
        #![trigger less(x, y), less(y, z)]
        #![trigger less(x, y), less(x, z)]
        #![trigger less(y, z), less(x, z)]
        less(x, z) ==> less(x, y) || less(y, z)
}

/// The place of `x` lies within the list, everything before it stays at or below `x`, and
/// what stands there comes after it.
pub proof fn lemma_place<T>(list: Seq<T>, x: T, less: spec_fn(T, T) -> bool)
    ensures
        0 <= place(list, x, less) <= list.len(),
        forall|i: int| 0 <= i < place(list, x, less) ==> !less(x, #[trigger] list[i]),
        place(list, x, less) < list.len() ==> less(x, list[place(list, x, less)]),
    decreases list.len(),
{
    if list.len() > 0 && !less(x, list[0]) {
        let rest = list.skip(1);
        lemma_place(rest, x, less);
        let k = place(rest, x, less);
        assert forall|i: int| 0 <= i < 1 + k implies !less(x, #[trigger] list[i]) by {
            if i > 0 {
                assert(list[i] == rest[i - 1]);
            }
        }
    }
}

/// A position in front of which nothing comes after `x`, and at which something does, is its place.
pub proof fn lemma_place_is<T>(list: Seq<T>, x: T, less: spec_fn(T, T) -> bool, k: int)
    requires
        0 <= k <= list.len(),
        forall|i: int| 0 <= i < k ==> !less(x, #[trigger] list[i]),
        k < list.len() ==> less(x, list[k]),
    ensures
        place(list, x, less) == k,
{
    lemma_place(list, x, less);
    let p = place(list, x, less);
    if p < k {
        assert(!less(x, list[p]));
    }
    if k < p {
        assert(!less(x, list[k]));
    }
}

proof fn lemma_placed_ascending<T>(list: Seq<T>, x: T, less: spec_fn(T, T) -> bool)
    requires
        ranking(less),
        ascending(list, less),
    ensures
        ascending(placed(list, x, less), less),
{
    lemma_place(list, x, less);
    let k = place(list, x, less);
    let out = placed(list, x, less);
    assert forall|i: int, j: int|
        #![trigger out[i], out[j]]
        0 <= i < j < out.len() implies !less(out[j], out[i]) by {
        let oi = if i < k {
            list[i]
        } else if i == k {
            x
        } else {
            list[i - 1]
        };
        let oj = if j < k {
            list[j]
        } else if j == k {
            x
        } else {
            list[j - 1]
        };
        assert(out[i] == oi && out[j] == oj);
        if i == k {
            assert(less(x, list[k]));
            if j - 1 > k {
                assert(!less(list[j - 1], list[k]));
            }
            assert(less(x, list[j - 1]) || less(list[j - 1], list[k]));
        }
    }
}

/// Sorting puts a list in ascending order.
pub proof fn lemma_sorted_ascending<T>(list: Seq<T>, less: spec_fn(T, T) -> bool)
    requires
        ranking(less),
    ensures
        ascending(sorted(list, less), less),
    decreases list.len(),
{
    if list.len() > 0 {
        lemma_sorted_ascending(list.drop_last(), less);
        lemma_placed_ascending(sorted(list.drop_last(), less), list.last(), less);
    }
}

/// Sorting neither adds nor loses anything.
pub proof fn lemma_sorted_same<T>(list: Seq<T>, less: spec_fn(T, T) -> bool)
    ensures
        sorted(list, less).to_multiset() == list.to_multiset(),
    decreases list.len(),
{
    if list.len() > 0 {
        let front = list.drop_last();
        lemma_sorted_same(front, less);
        let s = sorted(front, less);
        let k = place(s, list.last(), less);
        lemma_place(s, list.last(), less);
        broadcast use vstd::seq_lib::group_to_multiset_ensures;

        assert(front.push(list.last()) =~= list);
        assert(s.insert(k, list.last()).to_multiset() =~= s.to_multiset().insert(list.last()));
        assert(front.push(list.last()).to_multiset() =~= front.to_multiset().insert(list.last()));
    } else {
        assert(list =~= Seq::empty());
    }
}

} // verus!
