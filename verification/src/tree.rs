//! A whole folder tree: what a walk from one folder to the end of the tree promises.
//!
//! [`Walk`] takes one folder at a time. Here the tree is given as a whole, as what each folder
//! holds, and the walk as the number of folders listed so far.

use vstd::prelude::*;

#[allow(unused_imports)]
use crate::files::{files_in, folders_in, Entry, Walk};
#[allow(unused_imports)]
use crate::order::{lemma_place, lemma_sorted_same, place, placed, sorted};
#[allow(unused_imports)]
use crate::paths::{
    components, directly_in, joined_to, lemma_joined_above, lemma_joined_components,
    lemma_joined_lies_below, lemma_within_chain, path_order, plain_name, within,
};

verus! {

/// A whole walk, by value: the folders listed, those still waiting, and the files kept.
pub struct WalkView {
    pub listed: Seq<Seq<u8>>,
    pub waiting: Seq<Seq<u8>>,
    pub kept: Seq<Seq<u8>>,
}

/// Where a walk from `root` stands after so many folders, `listing` being what each folder
/// holds: [`Walk::start`], then [`Walk::next_folder`] and [`Walk::visit`] by turns.
pub open spec fn walked(root: Seq<u8>, listing: spec_fn(Seq<u8>) -> Seq<Entry>, steps: nat) -> WalkView
    decreases steps,
{
    if steps == 0 {
        WalkView { listed: Seq::empty(), waiting: seq![root], kept: Seq::empty() }
    } else {
        let s = walked(root, listing, (steps - 1) as nat);
        if s.waiting.len() == 0 {
            s
        } else {
            let dir = s.waiting.last();
            WalkView {
                listed: s.listed.push(dir),
                waiting: s.waiting.drop_last() + folders_in(listing(dir)),
                kept: s.kept + files_in(listing(dir)),
            }
        }
    }
}

/// Whether these are entries of this folder: each path is the folder's, followed by a name.
pub open spec fn listed_under(dir: Seq<u8>, entries: Seq<Entry>) -> bool {
    forall|i: int|
        0 <= i < entries.len() ==> (#[trigger] entries[i]).path@ == joined_to(dir, entries[i].name@) && (
        entries[i].name@.len() > 0 ==> entries[i].name@[0] != 0x2f)
}

/// Whether all of these paths lie at or below `root`.
pub open spec fn all_within(paths: Seq<Seq<u8>>, root: Seq<u8>) -> bool {
    forall|i: int| 0 <= i < paths.len() ==> within(#[trigger] paths[i], root)
}

proof fn lemma_taken_in_stays_inside(root: Seq<u8>, dir: Seq<u8>, entries: Seq<Entry>)
    requires
        within(dir, root),
        listed_under(dir, entries),
    ensures
        all_within(folders_in(entries), root),
        all_within(files_in(entries), root),
    decreases entries.len(),
{
    if entries.len() > 0 {
        let e = entries.last();
        assert(e == entries[entries.len() - 1]);
        assert forall|i: int| 0 <= i < entries.drop_last().len() implies (
        #[trigger] entries.drop_last()[i]).path@ == joined_to(dir, entries.drop_last()[i].name@) && (
        entries.drop_last()[i].name@.len() > 0 ==> entries.drop_last()[i].name@[0] != 0x2f) by {
            assert(entries.drop_last()[i] == entries[i]);
        }
        lemma_taken_in_stays_inside(root, dir, entries.drop_last());
        lemma_joined_lies_below(dir, e.name@);
        lemma_within_chain(e.path@, dir, root);
    }
}

/// The corpus boundary during a walk: whatever is listed and whatever is kept lies at or
/// below the folder that the walk started from.
pub proof fn law_walk_stays_inside(
    root: Seq<u8>,
    listing: spec_fn(Seq<u8>) -> Seq<Entry>,
    steps: nat,
)
    requires
        forall|dir: Seq<u8>| listed_under(dir, #[trigger] listing(dir)),
    ensures
        all_within(walked(root, listing, steps).listed, root),
        all_within(walked(root, listing, steps).waiting, root),
        all_within(walked(root, listing, steps).kept, root),
    decreases steps,
{
    if steps == 0 {
        assert(components(root).take(components(root).len() as int) =~= components(root));
    } else {
        law_walk_stays_inside(root, listing, (steps - 1) as nat);
        let s = walked(root, listing, (steps - 1) as nat);
        if s.waiting.len() > 0 {
            let dir = s.waiting.last();
            lemma_taken_in_stays_inside(root, dir, listing(dir));
        }
    }
}

/// A walk misses nothing and makes nothing up: of every folder it has listed, each folder to
/// go into has been listed or still waits, each file to read is kept, and nothing else is.
pub proof fn law_walk_is_complete(
    root: Seq<u8>,
    listing: spec_fn(Seq<u8>) -> Seq<Entry>,
    steps: nat,
)
    ensures
        ({
            let s = walked(root, listing, steps);
            &&& s.listed.contains(root) || s.waiting.contains(root)
            &&& forall|dir: Seq<u8>, path: Seq<u8>|
                #![trigger s.listed.contains(dir), folders_in(listing(dir)).contains(path)]
                s.listed.contains(dir) && folders_in(listing(dir)).contains(path) ==> s.listed.contains(path)
                    || s.waiting.contains(path)
            &&& forall|dir: Seq<u8>, path: Seq<u8>|
                #![trigger s.listed.contains(dir), files_in(listing(dir)).contains(path)]
                s.listed.contains(dir) && files_in(listing(dir)).contains(path) ==> s.kept.contains(path)
            &&& forall|path: Seq<u8>| #[trigger]
                s.kept.contains(path) ==> exists|dir: Seq<u8>|
                    s.listed.contains(dir) && #[trigger] files_in(listing(dir)).contains(path)
        }),
    decreases steps,
{
    let s = walked(root, listing, steps);
    if steps == 0 {
        assert(s.waiting[0] == root);
    } else {
        law_walk_is_complete(root, listing, (steps - 1) as nat);
        let t = walked(root, listing, (steps - 1) as nat);
        if t.waiting.len() > 0 {
            let dir = t.waiting.last();
            assert(s.listed.last() == dir);
            assert forall|path: Seq<u8>| t.listed.contains(path) implies s.listed.contains(path) by {
                let k = t.listed.index_of(path);
                assert(s.listed[k] == path);
            }
            assert forall|path: Seq<u8>| t.waiting.contains(path) implies s.listed.contains(path)
                || s.waiting.contains(path) by {
                let k = t.waiting.index_of(path);
                if k < t.waiting.len() - 1 {
                    assert(s.waiting[k] == path);
                }
            }
            assert forall|path: Seq<u8>| folders_in(listing(dir)).contains(path) implies s.waiting.contains(
                path,
            ) by {
                let k = folders_in(listing(dir)).index_of(path);
                assert(s.waiting[t.waiting.len() - 1 + k] == path);
            }
            assert forall|path: Seq<u8>| files_in(listing(dir)).contains(path) implies s.kept.contains(
                path,
            ) by {
                let k = files_in(listing(dir)).index_of(path);
                assert(s.kept[t.kept.len() + k] == path);
            }
            assert forall|path: Seq<u8>| t.kept.contains(path) implies s.kept.contains(path) by {
                let k = t.kept.index_of(path);
                assert(s.kept[k] == path);
            }
            assert forall|d: Seq<u8>| s.listed.contains(d) implies t.listed.contains(d) || d == dir by {
                let k = s.listed.index_of(d);
                if k < t.listed.len() {
                    assert(t.listed[k] == d);
                }
            }
            assert forall|path: Seq<u8>| #[trigger] s.kept.contains(path) implies exists|d: Seq<u8>|
                s.listed.contains(d) && #[trigger] files_in(listing(d)).contains(path) by {
                let k = s.kept.index_of(path);
                if k < t.kept.len() {
                    assert(t.kept[k] == path);
                    assert(t.kept.contains(path));
                    let d = choose|d: Seq<u8>|
                        t.listed.contains(d) && #[trigger] files_in(listing(d)).contains(path);
                    assert(s.listed.contains(d));
                } else {
                    assert(files_in(listing(dir))[k - t.kept.len()] == path);
                    assert(files_in(listing(dir)).contains(path));
                }
            }
        }
    }
}

// ---------------------------------------------------------------------------
// Nothing twice, and nothing from below
// ---------------------------------------------------------------------------

/// Whether this is a proper listing of a folder: each path is the folder's, followed by the
/// name of an entry, and no path is listed twice.
pub open spec fn well_listed(dir: Seq<u8>, entries: Seq<Entry>) -> bool {
    &&& forall|i: int|
        0 <= i < entries.len() ==> (#[trigger] entries[i]).path@ == joined_to(dir, entries[i].name@)
            && plain_name(entries[i].name@)
    &&& forall|i: int, j: int|
        #![trigger entries[i], entries[j]]
        0 <= i < j < entries.len() ==> entries[i].path@ != entries[j].path@
}

/// How many of these paths lie directly in a folder.
pub open spec fn count_directly_in(paths: Seq<Seq<u8>>, dir: Seq<u8>) -> nat
    decreases paths.len(),
{
    if paths.len() == 0 {
        0
    } else {
        count_directly_in(paths.drop_last(), dir) + if directly_in(paths.last(), dir) {
            1nat
        } else {
            0nat
        }
    }
}

/// Whether a path has one component more than a folder, and lies in no other.
spec fn child(path: Seq<u8>, dir: Seq<u8>) -> bool {
    &&& components(path).len() == components(dir).len() + 1
    &&& components(path).drop_last() == components(dir)
    &&& forall|other: Seq<u8>| #[trigger] directly_in(path, other) <==> components(other) == components(
        dir,
    )
}

/// Whether all of these paths have one component more than the folder.
spec fn children(paths: Seq<Seq<u8>>, dir: Seq<u8>) -> bool {
    forall|i: int| 0 <= i < paths.len() ==> child(#[trigger] paths[i], dir)
}

/// Whether a path is listed among these entries.
spec fn among(entries: Seq<Entry>, path: Seq<u8>) -> bool {
    exists|i: int| 0 <= i < entries.len() && (#[trigger] entries[i]).path@ == path
}

/// Whether no two of these paths are the same, however they are spelled.
spec fn distinct(paths: Seq<Seq<u8>>) -> bool {
    forall|i: int, j: int|
        #![trigger paths[i], paths[j]]
        0 <= i < j < paths.len() ==> components(paths[i]) != components(paths[j])
}

/// Whether no path of one list is one of the other, however they are spelled.
spec fn apart(a: Seq<Seq<u8>>, b: Seq<Seq<u8>>) -> bool {
    forall|i: int, j: int|
        #![trigger a[i], b[j]]
        0 <= i < a.len() && 0 <= j < b.len() ==> components(a[i]) != components(b[j])
}

/// Whether a path lies in one of these folders.
spec fn has_parent(path: Seq<u8>, folders: Seq<Seq<u8>>) -> bool {
    exists|j: int| 0 <= j < folders.len() && child(path, #[trigger] folders[j])
}

/// Whether each of these paths is the root or lies in one of the folders.
spec fn rooted(paths: Seq<Seq<u8>>, folders: Seq<Seq<u8>>, root: Seq<u8>) -> bool {
    forall|i: int|
        0 <= i < paths.len() ==> components(#[trigger] paths[i]) == components(root) || has_parent(
            paths[i],
            folders,
        )
}

/// Whether each of these paths has as many components as the root, or more.
spec fn below_root(paths: Seq<Seq<u8>>, root: Seq<u8>) -> bool {
    forall|i: int|
        0 <= i < paths.len() ==> components(#[trigger] paths[i]).len() >= components(root).len()
}

proof fn lemma_child(dir: Seq<u8>, name: Seq<u8>)
    requires
        plain_name(name),
    ensures
        child(joined_to(dir, name), dir),
        components(joined_to(dir, name)).last() == name,
{
    let path = joined_to(dir, name);
    lemma_joined_components(dir, name);
    assert(components(path).drop_last() =~= components(dir));
    assert forall|other: Seq<u8>| #[trigger] directly_in(path, other) <==> components(other)
        == components(dir) by {
        lemma_joined_above(dir, name, other);
    }
}

proof fn lemma_taken_in(dir: Seq<u8>, entries: Seq<Entry>)
    requires
        well_listed(dir, entries),
    ensures
        children(folders_in(entries), dir),
        children(files_in(entries), dir),
        distinct(folders_in(entries)),
        distinct(files_in(entries)),
        forall|k: int|
            0 <= k < folders_in(entries).len() ==> among(entries, #[trigger] folders_in(entries)[k]),
        forall|k: int|
            0 <= k < files_in(entries).len() ==> among(entries, #[trigger] files_in(entries)[k]),
    decreases entries.len(),
{
    if entries.len() > 0 {
        let front = entries.drop_last();
        let e = entries.last();
        let at = entries.len() - 1;
        assert(e == entries[at]);
        assert forall|i: int| 0 <= i < front.len() implies #[trigger] front[i] == entries[i] by {}
        lemma_taken_in(dir, front);
        lemma_child(dir, e.name@);
        assert(among(entries, e.path@));
        assert forall|path: Seq<u8>| among(front, path) implies among(entries, path) && components(path)
            != components(e.path@) by {
            let i = choose|i: int| 0 <= i < front.len() && (#[trigger] front[i]).path@ == path;
            assert(entries[i].path@ == path);
            lemma_child(dir, entries[i].name@);
            assert(entries[i].path@ != entries[at].path@);
        }
    }
}

proof fn lemma_new_ones_apart(
    old_ones: Seq<Seq<u8>>,
    new_ones: Seq<Seq<u8>>,
    dir: Seq<u8>,
    folders: Seq<Seq<u8>>,
    root: Seq<u8>,
)
    requires
        rooted(old_ones, folders, root),
        children(new_ones, dir),
        apart(folders, seq![dir]),
        components(dir).len() >= components(root).len(),
    ensures
        apart(old_ones, new_ones),
{
    assert forall|i: int, j: int|
        #![trigger old_ones[i], new_ones[j]]
        0 <= i < old_ones.len() && 0 <= j < new_ones.len() implies components(old_ones[i])
        != components(new_ones[j]) by {
        assert(child(new_ones[j], dir));
        if components(old_ones[i]) != components(root) {
            assert(has_parent(old_ones[i], folders));
            let k = choose|k: int| 0 <= k < folders.len() && child(old_ones[i], #[trigger] folders[k]);
            assert(seq![dir][0] == dir);
            assert(components(folders[k]) != components(seq![dir][0]));
        }
    }
}

proof fn lemma_more_folders(paths: Seq<Seq<u8>>, folders: Seq<Seq<u8>>, dir: Seq<u8>, root: Seq<u8>)
    requires
        rooted(paths, folders, root),
    ensures
        rooted(paths, folders.push(dir), root),
{
    assert forall|i: int| 0 <= i < paths.len() implies components(#[trigger] paths[i]) == components(root)
        || has_parent(paths[i], folders.push(dir)) by {
        if has_parent(paths[i], folders) {
            let k = choose|k: int| 0 <= k < folders.len() && child(paths[i], #[trigger] folders[k]);
            assert(folders.push(dir)[k] == folders[k]);
        }
    }
}

proof fn lemma_children_rooted(paths: Seq<Seq<u8>>, folders: Seq<Seq<u8>>, dir: Seq<u8>, root: Seq<u8>)
    requires
        children(paths, dir),
    ensures
        rooted(paths, folders.push(dir), root),
{
    assert(folders.push(dir)[folders.len() as int] == dir);
    assert forall|i: int| 0 <= i < paths.len() implies has_parent(
        #[trigger] paths[i],
        folders.push(dir),
    ) by {
        assert(child(paths[i], folders.push(dir)[folders.len() as int]));
    }
}

/// What holds of every walk through a proper tree.
spec fn orderly(s: WalkView, root: Seq<u8>) -> bool {
    &&& distinct(s.listed)
    &&& distinct(s.waiting)
    &&& distinct(s.kept)
    &&& apart(s.listed, s.waiting)
    &&& rooted(s.listed, s.listed, root)
    &&& rooted(s.waiting, s.listed, root)
    &&& rooted(s.kept, s.listed, root)
    &&& below_root(s.waiting, root)
}

proof fn lemma_step_is_orderly(s: WalkView, t: WalkView, root: Seq<u8>, entries: Seq<Entry>)
    requires
        orderly(s, root),
        s.waiting.len() > 0,
        well_listed(s.waiting.last(), entries),
        t.listed == s.listed.push(s.waiting.last()),
        t.waiting == s.waiting.drop_last() + folders_in(entries),
        t.kept == s.kept + files_in(entries),
    ensures
        orderly(t, root),
{
    let dir = s.waiting.last();
    let left = s.waiting.drop_last();
    let folders = folders_in(entries);
    let files = files_in(entries);
    let last = s.waiting.len() - 1;
    assert(s.waiting[last] == dir);
    lemma_taken_in(dir, entries);
    assert forall|i: int, j: int|
        #![trigger s.listed[i], seq![dir][j]]
        0 <= i < s.listed.len() && 0 <= j < seq![dir].len() implies components(s.listed[i]) != components(
        seq![dir][j],
    ) by {
        assert(components(s.listed[i]) != components(s.waiting[last]));
    }
    assert(rooted(left, s.listed, root)) by {
        assert forall|i: int| 0 <= i < left.len() implies components(#[trigger] left[i]) == components(
            root,
        ) || has_parent(left[i], s.listed) by {
            assert(left[i] == s.waiting[i]);
        }
    }
    lemma_new_ones_apart(left, folders, dir, s.listed, root);
    lemma_new_ones_apart(s.listed, folders, dir, s.listed, root);
    lemma_new_ones_apart(s.kept, files, dir, s.listed, root);
    lemma_more_folders(s.listed, s.listed, dir, root);
    lemma_more_folders(left, s.listed, dir, root);
    lemma_more_folders(s.kept, s.listed, dir, root);
    lemma_children_rooted(folders, s.listed, dir, root);
    lemma_children_rooted(files, s.listed, dir, root);
    assert(distinct(t.listed)) by {
        assert forall|i: int, j: int|
            #![trigger t.listed[i], t.listed[j]]
            0 <= i < j < t.listed.len() implies components(t.listed[i]) != components(t.listed[j]) by {
            if j == s.listed.len() {
                assert(components(s.listed[i]) != components(s.waiting[last]));
            }
        }
    }
    assert(distinct(t.waiting)) by {
        lemma_distinct_sum(left, folders);
    }
    assert(distinct(t.kept)) by {
        lemma_distinct_sum(s.kept, files);
    }
    assert(apart(t.listed, t.waiting)) by {
        assert forall|i: int, j: int|
            #![trigger t.listed[i], t.waiting[j]]
            0 <= i < t.listed.len() && 0 <= j < t.waiting.len() implies components(t.listed[i])
            != components(t.waiting[j]) by {
            if j < left.len() {
                assert(t.waiting[j] == s.waiting[j]);
                if i == s.listed.len() {
                    assert(components(s.waiting[j]) != components(s.waiting[last]));
                }
            } else {
                let f = folders[j - left.len()];
                assert(t.waiting[j] == f);
                assert(child(f, dir));
                if i < s.listed.len() {
                    assert(components(s.listed[i]) != components(folders[j - left.len()]));
                }
            }
        }
    }
    assert(rooted(t.listed, t.listed, root)) by {
        assert forall|i: int| 0 <= i < t.listed.len() implies components(#[trigger] t.listed[i])
            == components(root) || has_parent(t.listed[i], t.listed) by {
            if i == s.listed.len() {
                assert(has_parent(s.waiting[last], s.listed) ==> has_parent(dir, t.listed)) by {
                    if has_parent(dir, s.listed) {
                        let k = choose|k: int|
                            0 <= k < s.listed.len() && child(dir, #[trigger] s.listed[k]);
                        assert(t.listed[k] == s.listed[k]);
                    }
                }
            } else {
                assert(t.listed[i] == s.listed[i]);
            }
        }
    }
    assert forall|i: int| 0 <= i < t.waiting.len() implies components(#[trigger] t.waiting[i]).len()
        >= components(root).len() && (components(t.waiting[i]) == components(root) || has_parent(
        t.waiting[i],
        t.listed,
    )) by {
        if i < left.len() {
            assert(t.waiting[i] == s.waiting[i]);
            assert(left[i] == s.waiting[i]);
        } else {
            assert(t.waiting[i] == folders[i - left.len()]);
        }
    }
    assert forall|i: int| 0 <= i < t.kept.len() implies components(#[trigger] t.kept[i]) == components(
        root,
    ) || has_parent(t.kept[i], t.listed) by {
        if i < s.kept.len() {
            assert(t.kept[i] == s.kept[i]);
        } else {
            assert(t.kept[i] == files[i - s.kept.len()]);
        }
    }
}

proof fn lemma_distinct_sum(a: Seq<Seq<u8>>, b: Seq<Seq<u8>>)
    requires
        distinct(a),
        distinct(b),
        apart(a, b),
    ensures
        distinct(a + b),
{
    let sum = a + b;
    assert forall|i: int, j: int|
        #![trigger sum[i], sum[j]]
        0 <= i < j < sum.len() implies components(sum[i]) != components(sum[j]) by {
        if j < a.len() {
            assert(sum[i] == a[i] && sum[j] == a[j]);
        } else if i >= a.len() {
            assert(sum[i] == b[i - a.len()] && sum[j] == b[j - a.len()]);
        } else {
            assert(sum[i] == a[i] && sum[j] == b[j - a.len()]);
        }
    }
}

proof fn lemma_walk_is_orderly(root: Seq<u8>, listing: spec_fn(Seq<u8>) -> Seq<Entry>, steps: nat)
    requires
        forall|dir: Seq<u8>| well_listed(dir, #[trigger] listing(dir)),
    ensures
        orderly(walked(root, listing, steps), root),
    decreases steps,
{
    if steps > 0 {
        lemma_walk_is_orderly(root, listing, (steps - 1) as nat);
        let s = walked(root, listing, (steps - 1) as nat);
        if s.waiting.len() > 0 {
            lemma_step_is_orderly(s, walked(root, listing, steps), root, listing(s.waiting.last()));
        }
    }
}

/// No folder is listed twice and no file is kept twice, in whatever order.
pub proof fn law_walk_keeps_nothing_twice(
    root: Seq<u8>,
    listing: spec_fn(Seq<u8>) -> Seq<Entry>,
    steps: nat,
)
    requires
        forall|dir: Seq<u8>| well_listed(dir, #[trigger] listing(dir)),
    ensures
        walked(root, listing, steps).listed.no_duplicates(),
        walked(root, listing, steps).kept.no_duplicates(),
        sorted(walked(root, listing, steps).kept, path_order()).no_duplicates(),
{
    lemma_walk_is_orderly(root, listing, steps);
    let s = walked(root, listing, steps);
    assert forall|i: int, j: int| 0 <= i < s.kept.len() && 0 <= j < s.kept.len() && i != j implies s.kept[i]
        != s.kept[j] by {
        if i < j {
            assert(components(s.kept[i]) != components(s.kept[j]));
        } else {
            assert(components(s.kept[j]) != components(s.kept[i]));
        }
    }
    assert forall|i: int, j: int|
        0 <= i < s.listed.len() && 0 <= j < s.listed.len() && i != j implies s.listed[i] != s.listed[j] by {
        if i < j {
            assert(components(s.listed[i]) != components(s.listed[j]));
        } else {
            assert(components(s.listed[j]) != components(s.listed[i]));
        }
    }
    let done = sorted(s.kept, path_order());
    lemma_sorted_same(s.kept, path_order());
    s.kept.lemma_multiset_has_no_duplicates();
    done.lemma_multiset_has_no_duplicates_conv();
}

proof fn lemma_count_sum(a: Seq<Seq<u8>>, b: Seq<Seq<u8>>, dir: Seq<u8>)
    ensures
        count_directly_in(a + b, dir) == count_directly_in(a, dir) + count_directly_in(b, dir),
    decreases b.len(),
{
    if b.len() == 0 {
        assert(a + b =~= a);
    } else {
        assert((a + b).drop_last() =~= a + b.drop_last());
        assert((a + b).last() == b.last());
        lemma_count_sum(a, b.drop_last(), dir);
    }
}

proof fn lemma_count_of_children(paths: Seq<Seq<u8>>, dir: Seq<u8>, other: Seq<u8>)
    requires
        children(paths, dir),
    ensures
        count_directly_in(paths, other) == if components(other) == components(dir) {
            paths.len()
        } else {
            0
        },
    decreases paths.len(),
{
    if paths.len() > 0 {
        let front = paths.drop_last();
        assert forall|i: int| 0 <= i < front.len() implies child(#[trigger] front[i], dir) by {
            assert(front[i] == paths[i]);
        }
        lemma_count_of_children(front, dir, other);
        assert(child(paths[paths.len() - 1], dir));
        assert(directly_in(paths.last(), other) <==> components(other) == components(dir));
    }
}

proof fn lemma_count_sorted(list: Seq<Seq<u8>>, dir: Seq<u8>)
    ensures
        count_directly_in(sorted(list, path_order()), dir) == count_directly_in(list, dir),
    decreases list.len(),
{
    if list.len() > 0 {
        let less = path_order();
        let x = list.last();
        let before = sorted(list.drop_last(), less);
        lemma_count_sorted(list.drop_last(), dir);
        lemma_place(before, x, less);
        let p = place(before, x, less);
        assert(placed(before, x, less) =~= before.take(p) + (seq![x] + before.skip(p)));
        assert(before =~= before.take(p) + before.skip(p));
        lemma_count_sum(before.take(p), seq![x] + before.skip(p), dir);
        lemma_count_sum(seq![x], before.skip(p), dir);
        lemma_count_sum(before.take(p), before.skip(p), dir);
        assert(seq![x].drop_last() =~= Seq::empty());
        assert(count_directly_in(seq![x].drop_last(), dir) == 0);
        assert(seq![x].last() == x);
    }
}

proof fn lemma_walk_counts(root: Seq<u8>, listing: spec_fn(Seq<u8>) -> Seq<Entry>, steps: nat)
    requires
        forall|dir: Seq<u8>| well_listed(dir, #[trigger] listing(dir)),
        steps > 0,
    ensures
        walked(root, listing, steps).listed.len() > 0,
        walked(root, listing, steps).listed[0] == root,
        count_directly_in(walked(root, listing, steps).kept, root) == files_in(listing(root)).len(),
    decreases steps,
{
    let s = walked(root, listing, (steps - 1) as nat);
    if steps == 1 {
        reveal_with_fuel(walked, 2);
        assert(s.waiting.last() == root);
        lemma_taken_in(root, listing(root));
        lemma_count_of_children(files_in(listing(root)), root, root);
        assert(walked(root, listing, steps).kept =~= files_in(listing(root)));
        assert(walked(root, listing, steps).listed =~= seq![root]);
    } else {
        lemma_walk_counts(root, listing, (steps - 1) as nat);
        lemma_walk_is_orderly(root, listing, (steps - 1) as nat);
        if s.waiting.len() > 0 {
            let dir = s.waiting.last();
            lemma_taken_in(dir, listing(dir));
            assert(components(s.listed[0]) != components(s.waiting[s.waiting.len() - 1]));
            lemma_count_of_children(files_in(listing(dir)), dir, root);
            lemma_count_sum(s.kept, files_in(listing(dir)), root);
        }
    }
}

/// The number of files to index in a folder, as the picker shows it, is the number of files
/// directly in that folder among all that a finished walk from there has found; nothing from
/// its folders counts.
pub proof fn law_count_is_what_the_walk_finds_here(
    dir: Seq<u8>,
    listing: spec_fn(Seq<u8>) -> Seq<Entry>,
    steps: nat,
)
    requires
        forall|d: Seq<u8>| well_listed(d, #[trigger] listing(d)),
        walked(dir, listing, steps).waiting.len() == 0,
    ensures
        files_in(listing(dir)).len() == count_directly_in(
            sorted(walked(dir, listing, steps).kept, path_order()),
            dir,
        ),
{
    assert(steps > 0);
    lemma_walk_counts(dir, listing, steps);
    lemma_count_sorted(walked(dir, listing, steps).kept, dir);
}

} // verus!
