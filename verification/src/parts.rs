//! What paths promise: how a path falls into its components, and what follows from that.

use vstd::prelude::*;
#[allow(unused_imports)]
use vstd::utf8::{decode_utf8, valid_utf8};

#[allow(unused_imports)]
use crate::order::{law_first_difference, lemma_sorted_ascending, lemma_sorted_same, lex, sorted};
#[allow(unused_imports)]
use crate::paths::{
    above, below, byte_order, component_order, components, joined_to, last_dot,
    lemma_components_cut, lemma_path_order, lemma_piece_end, lemma_spans, lemma_spans_apart,
    lemma_spans_cut, lowered, name_of, path_order, path_views, piece_end, ranges, read_as_is,
    relative, spans, spans_from, suffix_of, utf8_lossy, within,
};

verus! {

// ---------------------------------------------------------------------------
// Components
// ---------------------------------------------------------------------------

/// Whether this place of a path lies in one of these ranges.
pub open spec fn in_some(list: Seq<(int, int)>, i: int) -> bool {
    exists|k: int| 0 <= k < list.len() && (#[trigger] list[k]).0 <= i < list[k].1
}

/// Whether a single dot stands alone between separators at this place, not at the very start.
pub open spec fn lone_dot(path: Seq<u8>, i: int) -> bool {
    i > 0 && path[i] == 0x2e && path[i - 1] == 0x2f && (i + 1 == path.len() || path[i + 1] == 0x2f)
}

/// Whether this range is a whole piece between separators, and not a dot that stands alone.
pub open spec fn whole_piece(path: Seq<u8>, r: (int, int)) -> bool {
    &&& 0 <= r.0 < r.1 <= path.len()
    &&& forall|i: int| r.0 <= i < r.1 ==> #[trigger] path[i] != 0x2f
    &&& r.0 == 0 || path[r.0 - 1] == 0x2f
    &&& r.1 == path.len() || path[r.1] == 0x2f
    &&& !(r.1 == r.0 + 1 && lone_dot(path, r.0))
}

proof fn lemma_pieces(path: Seq<u8>, i: int)
    requires
        0 <= i <= path.len(),
        i > 0 ==> path[i - 1] == 0x2f,
    ensures
        forall|k: int|
            0 <= k < spans_from(path, i).len() ==> whole_piece(path, #[trigger] spans_from(path, i)[k]),
        forall|j: int|
            i <= j < path.len() && #[trigger] path[j] != 0x2f ==> in_some(spans_from(path, i), j)
                || lone_dot(path, j),
    decreases path.len() - i,
{
    if i < path.len() {
        lemma_piece_end(path, i);
        let e = piece_end(path, i);
        let out = spans_from(path, i);
        let tail: Seq<(int, int)> = if e < path.len() {
            spans_from(path, e + 1)
        } else {
            Seq::empty()
        };
        if e < path.len() {
            lemma_pieces(path, e + 1);
        }
        let n = out.len() - tail.len();
        let dropped = e == i || (i > 0 && e == i + 1 && path[i] == 0x2e);
        assert(dropped ==> n == 0 && out =~= tail);
        assert(!dropped ==> n == 1 && out[0] == (i, e));
        assert forall|k: int| 0 <= k < out.len() implies whole_piece(path, #[trigger] out[k]) by {
            if k >= n {
                assert(out[k] == tail[k - n]);
            } else if e == i + 1 && lone_dot(path, i) {
                assert(i > 0);
            }
        }
        assert forall|j: int| i <= j < path.len() && #[trigger] path[j] != 0x2f implies in_some(out, j)
            || lone_dot(path, j) by {
            if j < e {
                if dropped {
                    assert(j == i);
                    assert(lone_dot(path, j));
                } else {
                    assert(out[0].0 <= j < out[0].1);
                }
            } else if j > e {
                if in_some(tail, j) {
                    let k = choose|k: int| 0 <= k < tail.len() && (#[trigger] tail[k]).0 <= j < tail[k].1;
                    assert(out[k + n] == tail[k]);
                }
            }
        }
    }
}

/// The components of a path are, in order, all its pieces between separators, but for single
/// dots that stand alone behind one; in front of them stands the root, where the path starts
/// with a separator.
pub proof fn law_components_are_all_pieces(path: Seq<u8>)
    ensures
        components(path).len() == spans(path).len(),
        forall|k: int|
            0 <= k < spans(path).len() ==> #[trigger] components(path)[k] == path.subrange(
                spans(path)[k].0,
                spans(path)[k].1,
            ),
        forall|k: int, l: int|
            #![trigger spans(path)[k], spans(path)[l]]
            0 <= k < l < spans(path).len() ==> spans(path)[k].1 <= spans(path)[l].0,
        path.len() > 0 && path[0] == 0x2f ==> spans(path).len() > 0 && spans(path)[0] == (0int, 1int),
        forall|k: int|
            0 <= k < spans(path).len() && !(k == 0 && path[0] == 0x2f) ==> whole_piece(
                path,
                #[trigger] spans(path)[k],
            ),
        forall|i: int|
            0 <= i < path.len() && #[trigger] path[i] != 0x2f ==> in_some(spans(path), i) || lone_dot(
                path,
                i,
            ),
{
    assert forall|k: int, l: int|
        #![trigger spans(path)[k], spans(path)[l]]
        0 <= k < l < spans(path).len() implies spans(path)[k].1 <= spans(path)[l].0 by {
        lemma_spans_apart(path, k, l);
    }
    if path.len() > 0 && path[0] == 0x2f {
        lemma_pieces(path, 1);
        let tail = spans_from(path, 1);
        assert forall|k: int| 0 <= k < spans(path).len() && !(k == 0 && path[0] == 0x2f) implies whole_piece(
            path,
            #[trigger] spans(path)[k],
        ) by {
            assert(spans(path)[k] == tail[k - 1]);
        }
        assert forall|i: int| 0 <= i < path.len() && #[trigger] path[i] != 0x2f implies in_some(
            spans(path),
            i,
        ) || lone_dot(path, i) by {
            if in_some(tail, i) {
                let k = choose|k: int| 0 <= k < tail.len() && (#[trigger] tail[k]).0 <= i < tail[k].1;
                assert(spans(path)[k + 1] == tail[k]);
            }
        }
    } else {
        lemma_pieces(path, 0);
    }
}

/// A path lies at or below another exactly when its components are those of the other,
/// followed by something or nothing.
pub proof fn law_within_is_a_prefix(path: Seq<u8>, base: Seq<u8>)
    ensures
        within(path, base) <==> exists|rest: Seq<Seq<u8>>|
            components(path) == #[trigger] (components(base) + rest),
{
    let n = components(base).len() as int;
    if within(path, base) {
        assert(components(path) =~= components(base) + components(path).skip(n));
    }
    if exists|rest: Seq<Seq<u8>>| components(path) == #[trigger] (components(base) + rest) {
        let rest = choose|rest: Seq<Seq<u8>>| components(path) == #[trigger] (components(base) + rest);
        assert(components(path).take(n) =~= components(base));
    }
}

proof fn lemma_spans_resume(path: Seq<u8>, i: int, k: int)
    requires
        0 <= i,
        0 <= k < spans_from(path, i).len(),
    ensures
        spans_from(path, spans_from(path, i)[k].0) == spans_from(path, i).skip(k),
        i <= spans_from(path, i)[k].0,
    decreases path.len() - i,
{
    let out = spans_from(path, i);
    lemma_piece_end(path, i);
    let e = piece_end(path, i);
    let tail: Seq<(int, int)> = if e < path.len() {
        spans_from(path, e + 1)
    } else {
        Seq::empty()
    };
    let n = out.len() - tail.len();
    if k < n {
        assert(out[k] == (i, e));
        assert(out.skip(0) =~= out);
    } else {
        assert(out[k] == tail[k - n]);
        lemma_spans_resume(path, e + 1, k - n);
        assert(tail.skip(k - n) =~= out.skip(k));
    }
}

proof fn lemma_piece_end_shift(path: Seq<u8>, a: int, i: int)
    requires
        0 <= a <= i <= path.len(),
    ensures
        piece_end(path.skip(a), i - a) == piece_end(path, i) - a,
    decreases path.len() - i,
{
    if i < path.len() {
        assert(path.skip(a)[i - a] == path[i]);
        if path[i] != 0x2f {
            lemma_piece_end_shift(path, a, i + 1);
        }
    }
}

/// The same ranges, counted from a later place.
pub open spec fn counted_from(list: Seq<(int, int)>, a: int) -> Seq<(int, int)> {
    Seq::new(list.len(), |k: int| (list[k].0 - a, list[k].1 - a))
}

proof fn lemma_spans_shift(path: Seq<u8>, a: int, i: int)
    requires
        0 <= a <= i,
        a <= path.len(),
        i == a ==> spans_from(path, i).len() > 0 && spans_from(path, i)[0].0 == a,
    ensures
        spans_from(path.skip(a), i - a) == counted_from(spans_from(path, i), a),
    decreases path.len() - i,
{
    let short = path.skip(a);
    if i < path.len() {
        lemma_piece_end(path, i);
        lemma_piece_end_shift(path, a, i);
        let e = piece_end(path, i);
        assert(short[i - a] == path[i]);
        let dropped = e == i || (i > 0 && e == i + 1 && path[i] == 0x2e);
        let tail: Seq<(int, int)> = if e < path.len() {
            spans_from(path, e + 1)
        } else {
            Seq::empty()
        };
        if e < path.len() {
            crate::paths::lemma_spans_from(path, e + 1);
            lemma_spans_shift(path, a, e + 1);
        }
        if i == a {
            if dropped {
                assert(spans_from(path, i) =~= tail);
                assert(tail[0].0 >= e + 1);
            }
            assert(!dropped);
        }
        let out = spans_from(path, i);
        let moved = spans_from(short, i - a);
        if dropped {
            assert(out =~= tail);
            assert(moved =~= counted_from(tail, a));
        } else {
            assert(out =~= seq![(i, e)] + tail);
            assert(moved =~= seq![(i - a, e - a)] + counted_from(tail, a));
            assert(moved =~= counted_from(out, a));
        }
    } else {
        assert(spans_from(short, i - a) =~= counted_from(spans_from(path, i), a));
    }
}

proof fn lemma_rest_of_cut(cut: Seq<u8>, n: int)
    requires
        0 <= n < spans(cut).len(),
        spans(cut)[n].0 > 0,
        spans(cut).last().1 == cut.len(),
    ensures
        spans(cut.skip(spans(cut)[n].0)) == counted_from(spans(cut).skip(n), spans(cut)[n].0),
{
    let a = spans(cut)[n].0;
    lemma_spans(cut);
    let start: int = if cut[0] == 0x2f {
        1
    } else {
        0
    };
    let k = n - start;
    assert(spans(cut)[n] == spans_from(cut, start)[k]);
    lemma_spans_resume(cut, start, k);
    assert(spans_from(cut, start).skip(k) =~= spans(cut).skip(n));
    assert(spans_from(cut, a)[0] == spans(cut)[n]);
    lemma_spans_shift(cut, a, a);
    law_components_are_all_pieces(cut);
    assert(whole_piece(cut, spans(cut)[n]));
    assert(cut[a] != 0x2f);
    assert(cut.skip(a)[0] == cut[a]);
}

/// What is left of a path below another has exactly the components that the path has beyond the
/// other's.
pub proof fn law_below_is_the_rest(path: Seq<u8>, base: Seq<u8>)
    requires
        within(path, base),
    ensures
        components(below(path, base)) == components(path).skip(components(base).len() as int),
{
    let n = components(base).len() as int;
    let all = spans(path);
    let rest = below(path, base);
    if n < all.len() {
        lemma_spans(path);
        let a = all[n].0;
        let b = all.last().1;
        assert(all[all.len() - 1] == all.last());
        let cut = path.take(b);
        lemma_same_spans(path);
        lemma_spans(cut);
        if n < all.len() - 1 {
            lemma_spans_apart(path, n, all.len() - 1);
        }
        assert(rest =~= cut.skip(a));
        if a > 0 {
            lemma_rest_of_cut(cut, n);
        } else {
            if n > 0 {
                lemma_spans_apart(path, 0, n);
            }
            assert(rest =~= cut);
            assert(spans(rest) =~= counted_from(all.skip(n), a));
        }
        assert forall|j: int| 0 <= j < all.len() - n implies #[trigger] components(rest)[j] == components(
            path,
        ).skip(n)[j] by {
            let r = all[n + j];
            assert(all.skip(n)[j] == r);
            assert(spans(rest)[j] == (r.0 - a, r.1 - a));
            if j > 0 {
                lemma_spans_apart(path, n, n + j);
            }
            if n + j < all.len() - 1 {
                lemma_spans_apart(path, n + j, all.len() - 1);
            }
            assert(rest.subrange(r.0 - a, r.1 - a) =~= path.subrange(r.0, r.1));
        }
        assert(components(rest) =~= components(path).skip(n));
    } else {
        assert(components(rest) =~= Seq::empty());
        assert(components(path).skip(n) =~= Seq::empty());
    }
}

proof fn lemma_same_spans(path: Seq<u8>)
    requires
        spans(path).len() > 0,
    ensures
        spans(path.take(spans(path).last().1)) == spans(path),
{
    let all = spans(path);
    let k = all.len() - 1;
    lemma_spans(path);
    assert(all[k] == all.last());
    let short = path.take(all.last().1);
    assert(short[0] == path[0]);
    if path[0] == 0x2f {
        if k > 0 {
            assert(all[k] == spans_from(path, 1)[k - 1]);
            lemma_spans_cut(path, 1, k - 1);
            assert(spans_from(path, 1).take(k) =~= spans_from(path, 1));
        }
        assert(spans(short) =~= all);
    } else {
        lemma_spans_cut(path, 0, k);
        assert(spans_from(path, 0).take(k + 1) =~= spans_from(path, 0));
    }
}

/// The name of a path is its last component, unless that is the root, a single dot or two dots.
pub proof fn law_name_is_the_last_component(path: Seq<u8>)
    ensures
        name_of(path) is Some <==> components(path).len() > 0 && !(components(path).last() == seq![0x2fu8]
            || components(path).last() == seq![0x2eu8] || components(path).last() == seq![0x2eu8, 0x2eu8]),
        name_of(path) is Some ==> name_of(path)->0 == components(path).last(),
{
}

proof fn lemma_last_dot(name: Seq<u8>)
    ensures
        -1 <= last_dot(name) < name.len(),
        last_dot(name) >= 0 ==> name[last_dot(name)] == 0x2e,
        forall|i: int| last_dot(name) < i < name.len() ==> #[trigger] name[i] != 0x2e,
    decreases name.len(),
{
    if name.len() > 0 && name.last() != 0x2e {
        lemma_last_dot(name.drop_last());
        assert forall|i: int| last_dot(name) < i < name.len() implies #[trigger] name[i] != 0x2e by {
            if i < name.len() - 1 {
                assert(name.drop_last()[i] == name[i]);
            }
        }
    }
}

/// An extension is what follows the last dot of a name, and the name goes on in front of the
/// dot: `e` is the extension exactly when the name is a stem that is not empty, a dot, and `e`,
/// with no dot in it.
pub proof fn law_extension_follows_the_last_dot(path: Seq<u8>, e: Seq<u8>)
    ensures
        suffix_of(path) == Some(e) <==> name_of(path) is Some && !e.contains(0x2e) && exists|
            stem: Seq<u8>,
        | stem.len() > 0 && name_of(path)->0 == #[trigger] (stem.push(0x2e) + e),
        name_of(path) is None ==> suffix_of(path) is None,
{
    if name_of(path) is Some {
        let name = name_of(path)->0;
        let d = last_dot(name);
        lemma_last_dot(name);
        if suffix_of(path) == Some(e) {
            let stem = name.take(d);
            assert(name =~= stem.push(0x2e) + e);
            assert forall|i: int| 0 <= i < e.len() implies e[i] != 0x2e by {
                assert(e[i] == name[d + 1 + i]);
            }
        }
        if !e.contains(0x2e) && exists|stem: Seq<u8>|
            stem.len() > 0 && name == #[trigger] (stem.push(0x2e) + e) {
            let stem = choose|stem: Seq<u8>| stem.len() > 0 && name == #[trigger] (stem.push(0x2e) + e);
            assert(name[stem.len() as int] == 0x2e);
            if d > stem.len() {
                assert(e[d - stem.len() - 1] == 0x2e);
            }
            assert(d == stem.len());
            assert(name.skip(d + 1) =~= e);
        }
    }
}

/// What is above a path has all its components but the last; only the empty path and the root
/// have nothing above them.
pub proof fn law_above_is_one_component_less(path: Seq<u8>)
    ensures
        above(path) is None <==> components(path).len() == 0 || components(path).last() == seq![0x2fu8],
        above(path) is Some ==> components(above(path)->0) == components(path).drop_last(),
        above(path) is Some ==> above(path)->0.len() <= path.len() && above(path)->0 == path.take(
            above(path)->0.len() as int,
        ),
{
    if above(path) is Some {
        let n = spans(path).len() as int;
        lemma_spans(path);
        assert(components(path).len() == n);
        if n == 1 {
            assert(components(Seq::<u8>::empty()) =~= components(path).drop_last());
            assert(path.take(0) =~= Seq::empty());
        } else {
            lemma_components_cut(path, n - 2);
            assert(0 <= spans(path)[n - 2].0 < spans(path)[n - 2].1 <= path.len());
            assert(components(path).take(n - 1) =~= components(path).drop_last());
        }
    }
}

/// A path taken below another is the other, a separator where one is missing, and the path; an
/// absolute path stands for itself.
pub proof fn law_join_keeps_both(base: Seq<u8>, rest: Seq<u8>)
    ensures
        rest.len() > 0 && rest[0] == 0x2f ==> joined_to(base, rest) == rest,
        !(rest.len() > 0 && rest[0] == 0x2f) ==> ({
            let path = joined_to(base, rest);
            let n = if base.len() == 0 || base[base.len() - 1] == 0x2f {
                base.len() as int
            } else {
                base.len() as int + 1
            };
            &&& path.len() == n + rest.len()
            &&& path.take(base.len() as int) == base
            &&& path.skip(n) == rest
            &&& n > base.len() ==> path[base.len() as int] == 0x2f
        }),
{
    let path = joined_to(base, rest);
    if !(rest.len() > 0 && rest[0] == 0x2f) {
        assert(path.take(base.len() as int) =~= base);
        assert(path.skip(path.len() - rest.len()) =~= rest);
    }
}

/// Without the separators at its start, a path is the same from the first byte on that is not a
/// separator.
pub proof fn law_relative_drops_only_separators(path: Seq<u8>) -> (n: int)
    ensures
        0 <= n <= path.len(),
        relative(path) == path.skip(n),
        forall|i: int| 0 <= i < n ==> #[trigger] path[i] == 0x2f,
        n < path.len() ==> path[n] != 0x2f,
    decreases path.len(),
{
    if path.len() > 0 && path[0] == 0x2f {
        let m = law_relative_drops_only_separators(path.skip(1));
        assert(path.skip(1).skip(m) =~= path.skip(m + 1));
        assert forall|i: int| 0 <= i < m + 1 implies #[trigger] path[i] == 0x2f by {
            if i > 0 {
                assert(path.skip(1)[i - 1] == path[i]);
            }
        }
        m + 1
    } else {
        assert(path.skip(0) =~= path);
        0
    }
}

// ---------------------------------------------------------------------------
// Order
// ---------------------------------------------------------------------------

/// Paths come in the order of their first different component; a folder comes before what is
/// in it.
pub proof fn law_paths_go_by_the_first_different_component(x: Seq<u8>, y: Seq<u8>)
    ensures
        path_order()(x, y) <==> exists|k: int|
            0 <= k <= components(x).len() && k < components(y).len() && #[trigger] components(x).take(k)
                == components(y).take(k) && (k == components(x).len() || component_order()(
                components(x)[k],
                components(y)[k],
            )),
{
    assert forall|c: Seq<u8>| !#[trigger] component_order()(c, c) by {
        crate::order::lemma_lex_self(c, byte_order());
    }
    law_first_difference(components(x), components(y), component_order());
}

/// The root comes before a single dot, that before two dots, and those before all names; names
/// come in the order of their first different byte, the shorter one first.
pub proof fn law_components_go_by_bytes(x: Seq<u8>, y: Seq<u8>)
    ensures
        ({
            let root = seq![0x2fu8];
            let here = seq![0x2eu8];
            let up = seq![0x2eu8, 0x2eu8];
            let x_special = x == root || x == here || x == up;
            let y_special = y == root || y == here || y == up;
            &&& x_special && y_special ==> (component_order()(x, y) <==> (x == root && y != root) || (x
                == here && y == up))
            &&& x_special && !y_special ==> component_order()(x, y)
            &&& !x_special && y_special ==> !component_order()(x, y)
            &&& !x_special && !y_special ==> (component_order()(x, y) <==> exists|k: int|
                0 <= k <= x.len() && k < y.len() && #[trigger] x.take(k) == y.take(k) && (k == x.len()
                    || x[k] < y[k]))
        }),
{
    let root = seq![0x2fu8];
    let here = seq![0x2eu8];
    let up = seq![0x2eu8, 0x2eu8];
    assert(root[0] != here[0]);
    assert(root.len() != up.len() && here.len() != up.len());
    law_first_difference(x, y, byte_order());
    if lex(x, y, byte_order()) {
        let k = choose|k: int|
            0 <= k <= x.len() && k < y.len() && #[trigger] x.take(k) == y.take(k) && (k == x.len()
                || byte_order()(x[k], y[k]));
        assert(x.take(k) == y.take(k));
    }
    if exists|k: int|
        0 <= k <= x.len() && k < y.len() && #[trigger] x.take(k) == y.take(k) && (k == x.len() || x[k]
            < y[k]) {
        let k = choose|k: int|
            0 <= k <= x.len() && k < y.len() && #[trigger] x.take(k) == y.take(k) && (k == x.len() || x[k]
                < y[k]);
        assert(k < x.len() ==> byte_order()(x[k], y[k]));
    }
}

/// Sorting paths neither adds nor loses any, and no path comes before an earlier one.
pub proof fn law_sorting_keeps_every_path(list: Seq<Seq<u8>>)
    ensures
        sorted(list, path_order()).to_multiset() == list.to_multiset(),
        sorted(list, path_order()).len() == list.len(),
        forall|i: int, j: int|
            #![trigger sorted(list, path_order())[i], sorted(list, path_order())[j]]
            0 <= i < j < list.len() ==> !path_order()(
                sorted(list, path_order())[j],
                sorted(list, path_order())[i],
            ),
{
    lemma_path_order();
    lemma_sorted_same(list, path_order());
    lemma_sorted_ascending(list, path_order());
    broadcast use vstd::seq_lib::group_to_multiset_ensures;

    assert(sorted(list, path_order()).len() == sorted(list, path_order()).to_multiset().len());
    assert(list.len() == list.to_multiset().len());
}

/// Paths and ranges, by value, hold what they are made of.
pub proof fn law_path_values(list: Seq<Vec<u8>>, found: Seq<(usize, usize)>)
    ensures
        path_views(list).len() == list.len(),
        forall|i: int| 0 <= i < list.len() ==> #[trigger] path_views(list)[i] == list[i]@,
        ranges(found).len() == found.len(),
        forall|i: int|
            0 <= i < found.len() ==> (#[trigger] ranges(found)[i]).0 == found[i].0 && ranges(found)[i].1
                == found[i].1,
{
}

/// Bytes read as they are exactly when, being valid UTF-8, they read as what they encode; in
/// ASCII, lower case changes capital letters alone, each to the small one.
pub proof fn law_reading(bytes: Seq<u8>, text: Seq<char>, i: int)
    requires
        0 <= i < text.len(),
    ensures
        read_as_is(bytes) <==> !valid_utf8(bytes) || utf8_lossy(bytes) == decode_utf8(bytes),
        lowered(text).len() == text.len(),
        'A' <= text[i] && text[i] <= 'Z' ==> lowered(text)[i] as u32 == text[i] as u32 + 32,
        !('A' <= text[i] && text[i] <= 'Z') ==> lowered(text)[i] == text[i],
{
}

} // verus!
