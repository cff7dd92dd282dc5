//! The browser front end: what the page is told.
//!
//! HTTP, JSON and the file system are the caller's part. What goes into each answer is put
//! together here.

use vstd::prelude::*;
#[allow(unused_imports)]
use vstd::string::*;

use crate::knowledge::Knowledge;
#[allow(unused_imports)]
use crate::knowledge::sources_of;
use crate::paths::{file_name, lossy, parent};
#[allow(unused_imports)]
use crate::parts::{law_above_is_one_component_less, law_components_are_all_pieces};
#[allow(unused_imports)]
use crate::paths::{
    above, components, lemma_spans, lemma_spans_apart, name_of, read_as_is, spans, utf8_lossy,
};
use crate::startup::expand_path;
#[allow(unused_imports)]
use crate::startup::{expanded, optional};
#[allow(unused_imports)]
use crate::text::{decimal, views};
use crate::text::{listed, owned, push_decimal};

verus! {

/// The address to serve on: loopback only. There is no authentication, so it has no business
/// being reachable from the rest of the network.
pub fn address(port: u16) -> (r: String)
    ensures
        r@ == "127.0.0.1:"@ + decimal(port as nat),
{
    let mut r = owned("127.0.0.1:");
    push_decimal(&mut r, port as u128);
    r
}

// ---------------------------------------------------------------------------
// Status and model
// ---------------------------------------------------------------------------

/// What is going on.
pub struct Status {
    pub model: String,
    pub models: Vec<String>,
    pub chunks: usize,
    pub files: usize,
    pub root: String,
}

fn copied_list(list: &Vec<String>) -> (r: Vec<String>)
    ensures
        views(r@) == views(list@),
{
    let mut r: Vec<String> = Vec::new();
    let mut i: usize = 0;
    assert(views(r@) =~= views(list@).take(0));
    while i < list.len()
        invariant
            i <= list@.len(),
            views(r@) == views(list@).take(i as int),
        decreases list@.len() - i,
    {
        let ghost before = views(r@);
        r.push(owned(list[i].as_str()));
        assert(views(r@) =~= before.push(views(list@)[i as int]));
        assert(views(list@).take(i + 1) =~= views(list@).take(i as int).push(views(list@)[i as int]));
        i += 1;
    }
    assert(views(list@).take(list@.len() as int) =~= views(list@));
    r
}

/// What is going on: the model, those available, and how much is indexed from where.
pub fn status(model: &str, available: &Vec<String>, knowledge: &Knowledge) -> (r: Status)
    ensures
        r.model@ == model@,
        views(r.models@) == views(available@),
        r.chunks == knowledge.chunks@.len(),
        r.files == sources_of(knowledge.chunks@).to_set().len(),
        r.root@ == knowledge.root@,
{
    Status {
        model: owned(model),
        models: copied_list(available),
        chunks: knowledge.chunks.len(),
        files: knowledge.file_count(),
        root: owned(knowledge.root.as_str()),
    }
}

/// Switches to another model, if there is one of that name.
pub fn set_model(model: &mut String, available: &Vec<String>, wanted: String) -> (r: bool)
    ensures
        r == views(available@).contains(wanted@),
        final(model)@ == if r {
            wanted@
        } else {
            old(model)@
        },
{
    if listed(available, wanted.as_str()) {
        *model = wanted;
        true
    } else {
        false
    }
}

/// What the page is told when a question could not be looked up.
pub fn lookup_failure(reason: &str) -> (r: String)
    ensures
        r@ == "could not search your files: "@ + reason@,
{
    owned("could not search your files: ").concat(reason)
}

/// What the page is told when a path to index is no folder.
pub fn not_a_folder(path: &str) -> (r: String)
    ensures
        r@ == "not a folder: "@ + path@,
{
    owned("not a folder: ").concat(path)
}

/// What the page is told when a folder holds nothing to index.
pub fn nothing_readable() -> (r: String)
    ensures
        r@ == "nothing readable found there"@,
{
    owned("nothing readable found there")
}

// ---------------------------------------------------------------------------
// The folder picker
// ---------------------------------------------------------------------------

/// One folder in the picker.
#[derive(Debug)]
pub struct BrowseEntry {
    pub name: String,
    pub path: String,
    /// Indexable files directly inside, so you can see what's worth picking.
    pub files: usize,
}

/// One folder in the picker, by value.
pub struct EntryView {
    pub name: Seq<char>,
    pub path: Seq<char>,
    pub files: nat,
}

impl View for BrowseEntry {
    type V = EntryView;

    open spec fn view(&self) -> EntryView {
        EntryView { name: self.name@, path: self.path@, files: self.files as nat }
    }
}

/// What the picker shows.
#[derive(Debug)]
pub struct BrowseResponse {
    pub path: String,
    /// `None` at the filesystem root, which is how the page hides "go up".
    pub parent: Option<String>,
    /// Each ancestor, for clickable breadcrumbs.
    pub crumbs: Vec<BrowseEntry>,
    pub dirs: Vec<BrowseEntry>,
    pub files_here: usize,
    pub error: Option<String>,
}

/// Folders in the picker, by value.
pub open spec fn entry_views(list: Seq<BrowseEntry>) -> Seq<EntryView> {
    list.map_values(|e: BrowseEntry| e@)
}

/// The name of a path, or what stands in for it where it has none.
pub open spec fn name_or(path: Seq<u8>, other: Seq<char>) -> Seq<char> {
    match name_of(path) {
        Some(name) => utf8_lossy(name),
        None => other,
    }
}

/// A folder in the list.
pub open spec fn entry(path: Seq<u8>, files: nat) -> EntryView {
    EntryView { name: name_or(path, Seq::empty()), path: utf8_lossy(path), files }
}

/// An ancestor in the breadcrumbs.
pub open spec fn crumb(path: Seq<u8>) -> EntryView {
    EntryView { name: name_or(path, "/"@), path: utf8_lossy(path), files: 0 }
}

/// The ancestors of a path, the topmost first.
pub open spec fn crumbs(path: Seq<u8>) -> Seq<EntryView>
    decreases path.len(),
{
    match above(path) {
        Some(p) => if p.len() < path.len() {
            crumbs(p).push(crumb(p))
        } else {
            Seq::empty()
        },
        None => Seq::empty(),
    }
}

/// Whether a path and its name read as they are where they are valid UTF-8.
pub open spec fn path_as_is(path: Seq<u8>) -> bool {
    read_as_is(path) && (name_of(path) is Some ==> read_as_is(name_of(path)->0))
}

/// Whether the ancestors of a path read as they are where they are valid UTF-8.
pub open spec fn crumbs_as_is(path: Seq<u8>) -> bool
    decreases path.len(),
{
    match above(path) {
        Some(p) => path_as_is(p) && (p.len() < path.len() ==> crumbs_as_is(p)),
        None => true,
    }
}

/// Whether all of these folders read as they are where they are valid UTF-8.
pub open spec fn folders_as_is(folders: Seq<(Vec<u8>, usize)>) -> bool {
    forall|i: int| 0 <= i < folders.len() ==> path_as_is((#[trigger] folders[i]).0@)
}

/// Folders with the number of indexable files in each, by value.
pub open spec fn counted(folders: Seq<(Vec<u8>, usize)>) -> Seq<EntryView> {
    folders.map_values(|f: (Vec<u8>, usize)| entry(f.0@, f.1 as nat))
}

/// Where the picker starts: the path asked for, or the user's home.
pub open spec fn browse_path(query: Option<Seq<char>>, home: Option<Seq<char>>) -> Seq<u8> {
    match query {
        Some(path) => expanded(path, home),
        None => expanded("~"@, home),
    }
}

/// Where the picker starts.
pub fn browse_target(query: Option<&str>, home: Option<&str>) -> (r: Vec<u8>)
    ensures
        r@ == browse_path(optional(query), optional(home)),
{
    match query {
        Some(path) => expand_path(path, home),
        None => expand_path("~", home),
    }
}

fn name_text(path: &[u8], other: &str) -> (r: String)
    ensures
        r@ == name_or(path@, other@),
        name_of(path@) is Some ==> read_as_is(name_of(path@)->0),
{
    match file_name(path) {
        Some(name) => lossy(name.as_slice()),
        None => owned(other),
    }
}

/// A folder in the list, with the number of indexable files directly inside.
pub fn entry_for(path: &[u8], files: usize) -> (r: BrowseEntry)
    ensures
        r@ == entry(path@, files as nat),
        path_as_is(path@),
{
    let r = BrowseEntry { name: name_text(path, ""), path: lossy(path), files };
    proof {
        reveal_strlit("");
        assert(""@ =~= Seq::empty());
    }
    r
}

proof fn lemma_above_is_shorter(path: Seq<u8>)
    ensures
        above(path) is Some ==> above(path)->0.len() < path.len(),
{
    lemma_spans(path);
    let n = spans(path).len() as int;
    if above(path) is Some {
        assert(spans(path)[n - 1].0 < spans(path)[n - 1].1);
        if n > 1 {
            lemma_spans_apart(path, n - 2, n - 1);
        }
    }
}

/// The ancestors of a path, for clickable breadcrumbs.
pub fn crumbs_of(path: &[u8]) -> (r: Vec<BrowseEntry>)
    ensures
        entry_views(r@) == crumbs(path@),
        crumbs_as_is(path@),
    decreases path@.len(),
{
    proof {
        lemma_above_is_shorter(path@);
    }
    match parent(path) {
        Some(p) => {
            let mut r = crumbs_of(p.as_slice());
            let ghost before = entry_views(r@);
            let e = BrowseEntry {
                name: name_text(p.as_slice(), "/"),
                path: lossy(p.as_slice()),
                files: 0,
            };
            r.push(e);
            assert(entry_views(r@) =~= before.push(e@));
            r
        },
        None => {
            let r: Vec<BrowseEntry> = Vec::new();
            assert(entry_views(r@) =~= Seq::empty());
            r
        },
    }
}

fn entries_of(folders: &Vec<(Vec<u8>, usize)>) -> (r: Vec<BrowseEntry>)
    ensures
        entry_views(r@) == counted(folders@),
        folders_as_is(folders@),
{
    let ghost all = counted(folders@);
    let mut r: Vec<BrowseEntry> = Vec::new();
    let mut i: usize = 0;
    assert(entry_views(r@) =~= all.take(0));
    while i < folders.len()
        invariant
            i <= folders@.len(),
            all == counted(folders@),
            entry_views(r@) == all.take(i as int),
            forall|j: int| 0 <= j < i ==> path_as_is((#[trigger] folders@[j]).0@),
        decreases folders@.len() - i,
    {
        let ghost before = entry_views(r@);
        r.push(entry_for(folders[i].0.as_slice(), folders[i].1));
        assert(entry_views(r@) =~= before.push(all[i as int]));
        assert(all.take(i + 1) =~= all.take(i as int).push(all[i as int]));
        i += 1;
    }
    assert(all.take(folders@.len() as int) =~= all);
    r
}

/// What the picker shows of a folder: the way up, the folders below with the number of
/// indexable files in each, and how many there are right here.
pub fn browse_folder(path: &[u8], folders: &Vec<(Vec<u8>, usize)>, files_here: usize) -> (r:
    BrowseResponse)
    ensures
        r.path@ == utf8_lossy(path@),
        r.parent is Some <==> above(path@) is Some,
        r.parent is Some ==> r.parent->0@ == utf8_lossy(above(path@)->0),
        entry_views(r.crumbs@) == crumbs(path@),
        entry_views(r.dirs@) == counted(folders@),
        r.files_here == files_here,
        r.error is None,
        read_as_is(path@) && crumbs_as_is(path@) && folders_as_is(folders@),
{
    let up = match parent(path) {
        Some(p) => Some(lossy(p.as_slice())),
        None => None,
    };
    BrowseResponse {
        path: lossy(path),
        parent: up,
        crumbs: crumbs_of(path),
        dirs: entries_of(folders),
        files_here,
        error: None,
    }
}

/// What the picker shows where the path is no folder: the user's home, and what was wrong.
pub fn browse_elsewhere(
    path: &[u8],
    home: &[u8],
    folders: &Vec<(Vec<u8>, usize)>,
    files_here: usize,
) -> (r: BrowseResponse)
    ensures
        r.path@ == utf8_lossy(home@),
        r.parent is None,
        r.crumbs@.len() == 0,
        entry_views(r.dirs@) == counted(folders@),
        r.files_here == files_here,
        r.error is Some && r.error->0@ == utf8_lossy(path@) + " isn't a folder"@,
        read_as_is(path@) && read_as_is(home@) && folders_as_is(folders@),
{
    BrowseResponse {
        path: lossy(home),
        parent: None,
        crumbs: Vec::new(),
        dirs: entries_of(folders),
        files_here,
        error: Some(lossy(path).concat(" isn't a folder")),
    }
}

/// The breadcrumbs end with the folder that "go up" leads to, and are empty exactly where
/// there is no way up.
pub proof fn law_crumbs_lead_up(path: Seq<u8>)
    ensures
        above(path) is None <==> crumbs(path).len() == 0,
        above(path) is Some ==> crumbs(path).last() == crumb(above(path)->0),
        above(path) is Some ==> crumbs(path).drop_last() == crumbs(above(path)->0),
{
    lemma_above_is_shorter(path);
    if above(path) is Some {
        assert(crumbs(path).drop_last() =~= crumbs(above(path)->0));
    }
}

/// Whether this entry is the ancestor of a path that has its first `k` components.
pub open spec fn stands_for(e: EntryView, path: Seq<u8>, k: int) -> bool {
    exists|n: int|
        0 <= n <= path.len() && e.path == utf8_lossy(#[trigger] path.take(n)) && components(path.take(n))
            == components(path).take(k) && e.name == (if name_of(path.take(n)) is Some {
            utf8_lossy(name_of(path.take(n))->0)
        } else {
            seq!['/']
        }) && e.files == 0
}

proof fn lemma_stands_for_longer(e: EntryView, path: Seq<u8>, n: int, k: int)
    requires
        0 <= n <= path.len(),
        stands_for(e, path.take(n), k),
        components(path.take(n)).take(k) == components(path).take(k),
    ensures
        stands_for(e, path, k),
{
    let p = path.take(n);
    let m = choose|m: int|
        0 <= m <= p.len() && e.path == utf8_lossy(#[trigger] p.take(m)) && components(p.take(m))
            == components(p).take(k) && e.name == (if name_of(p.take(m)) is Some {
            utf8_lossy(name_of(p.take(m))->0)
        } else {
            seq!['/']
        }) && e.files == 0;
    assert(p.take(m) =~= path.take(m));
}

/// The breadcrumbs are all the ancestors of a path, the topmost first: each has one component
/// more than the one before, and reads as the beginning of the path that it is.
pub proof fn law_crumbs_are_all_ancestors(path: Seq<u8>)
    ensures
        ({
            let first: int = if path.len() > 0 && path[0] == 0x2f {
                1
            } else {
                0
            };
            let n = components(path).len() as int;
            &&& crumbs(path).len() == n - first
            &&& forall|k: int|
                0 <= k < n - first ==> stands_for(#[trigger] crumbs(path)[k], path, first + k)
        }),
    decreases path.len(),
{
    let first: int = if path.len() > 0 && path[0] == 0x2f {
        1
    } else {
        0
    };
    let n = components(path).len() as int;
    law_components_are_all_pieces(path);
    law_above_is_one_component_less(path);
    lemma_above_is_shorter(path);
    law_crumbs_lead_up(path);
    if n > 0 {
        assert(components(path).last() == components(path)[n - 1]);
        assert(components(path)[n - 1] == path.subrange(spans(path)[n - 1].0, spans(path)[n - 1].1));
    }
    if above(path) is None {
        if n > 0 {
            if !(n == 1 && first == 1) {
                assert(crate::parts::whole_piece(path, spans(path)[n - 1]));
                let r = spans(path)[n - 1];
                assert(path.subrange(r.0, r.1)[0] == path[r.0]);
                assert(path[r.0] != 0x2f);
                assert(seq![0x2fu8][0] == 0x2f);
            }
        } else {
            assert(first == 0);
        }
        assert(n - first == 0);
    } else {
        let p = above(path)->0;
        let m = p.len() as int;
        law_crumbs_are_all_ancestors(p);
        if first == 1 && n == 1 {
            assert(components(path)[0] =~= seq![0x2fu8]);
        }
        if first == 1 && m == 0 {
            law_components_are_all_pieces(p);
            assert(components(p).len() == 0) by {
                assert(spans(p) =~= Seq::empty());
            }
        }
        assert(m > 0 ==> p[0] == path[0]);
        assert(crumbs(path).len() == n - first) by {
            if m == 0 {
                assert(spans(p) =~= Seq::empty());
                assert(n == 1);
            }
        }
        assert forall|k: int| 0 <= k < n - first implies stands_for(
            #[trigger] crumbs(path)[k],
            path,
            first + k,
        ) by {
            if k < n - first - 1 {
                assert(crumbs(path).drop_last()[k] == crumbs(path)[k]);
                assert(m > 0) by {
                    if m == 0 {
                        assert(spans(p) =~= Seq::empty());
                    }
                }
                assert(stands_for(crumbs(p)[k], p, first + k));
                assert(components(path).drop_last().take(first + k) =~= components(path).take(first + k));
                lemma_stands_for_longer(crumbs(path)[k], path, m, first + k);
            } else {
                assert(crumbs(path)[k] == crumbs(path).last());
                assert(components(path).take(n - 1) =~= components(path).drop_last());
                reveal_strlit("/");
                assert("/"@ =~= seq!['/']);
                assert(path.take(m) == p);
            }
        }
    }
}

/// The picker lists every folder that it is given, in that order, with its name, its path and
/// its number of files; a folder without a name is listed without one.
pub proof fn law_picker_lists_every_folder(folders: Seq<(Vec<u8>, usize)>, list: Seq<BrowseEntry>)
    ensures
        counted(folders).len() == folders.len(),
        forall|i: int|
            0 <= i < folders.len() ==> {
                let e = #[trigger] counted(folders)[i];
                &&& e.path == utf8_lossy(folders[i].0@)
                &&& e.files == folders[i].1
                &&& name_of(folders[i].0@) is Some ==> e.name == utf8_lossy(name_of(folders[i].0@)->0)
                &&& name_of(folders[i].0@) is None ==> e.name.len() == 0
            },
        entry_views(list).len() == list.len(),
        forall|i: int|
            0 <= i < list.len() ==> {
                let e = #[trigger] entry_views(list)[i];
                e.name == list[i].name@ && e.path == list[i].path@ && e.files == list[i].files
            },
{
}

/// The picker starts where it is asked to, and else at the home.
pub proof fn law_picker_starts_where_asked(asked: Seq<char>, home: Option<Seq<char>>)
    ensures
        browse_path(Some(asked), home) == expanded(asked, home),
        home is Some ==> browse_path(None, home) == vstd::utf8::encode_utf8(home->0),
{
    reveal_strlit("~");
    let s = "~"@;
    assert(s =~= seq!['~']);
    let (a, b) = crate::text::law_trim_takes_only_whitespace(s);
    assert(!crate::text::is_space('~'));
    assert(a == 0 && b == 1);
    assert(s.subrange(0, 1) =~= s);
    if home is Some {
        crate::startup::law_only_a_leading_tilde_is_replaced(s, home->0, Seq::empty());
    }
}

} // verus!
