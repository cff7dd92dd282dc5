//! Which files and folders are worth reading.
//!
//! Looking at the disk is the caller's part: it lists a folder and hands the entries over.
//! What to descend into, what to keep and what to leave alone is decided here, once, for
//! the indexer and for the folder picker alike.

use vstd::prelude::*;
#[allow(unused_imports)]
use vstd::string::*;
#[allow(unused_imports)]
use vstd::utf8::{decode_utf8, is_ascii_chars, valid_utf8};

use crate::chunking::CHUNK_TARGET_CHARS;
#[allow(unused_imports)]
use crate::order::{ascending, lemma_sorted_ascending, lemma_sorted_same, sorted};
#[allow(unused_imports)]
use crate::paths::{
    below, lemma_path_order, lowered, path_order, path_views, read_as_is, suffix_of,
    unicode_lowercase, utf8_lossy, within,
};
use crate::paths::{copied, extension, lossy, lowercase, sort_paths, strict, strip_prefix};
#[allow(unused_imports)]
use crate::text::begins_with;
use crate::text::{same, starts};

verus! {

/// Files bigger than this are skipped (usually data dumps, not prose): two mebibytes.
pub const MAX_FILE_BYTES: u64 = 2 * 1024 * 1024;

// ---------------------------------------------------------------------------
// Names and extensions
// ---------------------------------------------------------------------------

/// File types worth reading, by their extension in lower case.
pub open spec fn text_extension(e: Seq<char>) -> bool {
    ||| e == "md"@
    ||| e == "txt"@
    ||| e == "rst"@
    ||| e == "org"@
    ||| e == "rs"@
    ||| e == "py"@
    ||| e == "js"@
    ||| e == "ts"@
    ||| e == "jsx"@
    ||| e == "tsx"@
    ||| e == "go"@
    ||| e == "java"@
    ||| e == "c"@
    ||| e == "h"@
    ||| e == "cpp"@
    ||| e == "hpp"@
    ||| e == "sh"@
    ||| e == "bash"@
    ||| e == "sql"@
    ||| e == "toml"@
    ||| e == "yaml"@
    ||| e == "yml"@
    ||| e == "json"@
    ||| e == "html"@
    ||| e == "css"@
    ||| e == "csv"@
    ||| e == "ini"@
    ||| e == "cfg"@
}

/// Whether this is, in lower case, the extension of a file type worth reading.
pub fn is_text_extension(e: &str) -> (r: bool)
    ensures
        r == text_extension(e@),
{
    same(e, "md") || same(e, "txt") || same(e, "rst") || same(e, "org") || same(e, "rs") || same(
        e,
        "py",
    ) || same(e, "js") || same(e, "ts") || same(e, "jsx") || same(e, "tsx") || same(e, "go")
        || same(e, "java") || same(e, "c") || same(e, "h") || same(e, "cpp") || same(e, "hpp")
        || same(e, "sh") || same(e, "bash") || same(e, "sql") || same(e, "toml") || same(e, "yaml")
        || same(e, "yml") || same(e, "json") || same(e, "html") || same(e, "css") || same(e, "csv")
        || same(e, "ini") || same(e, "cfg")
}

/// Whether a path names a file of a type worth reading: its extension is valid UTF-8 and,
/// in lower case, a known one.
pub open spec fn text_file(path: Seq<u8>) -> bool {
    match suffix_of(path) {
        Some(e) => valid_utf8(e) && text_extension(unicode_lowercase(decode_utf8(e))),
        None => false,
    }
}

/// Whether an extension in ASCII is lowered letter by letter.
pub open spec fn lowered_as_is(e: Seq<u8>) -> bool {
    valid_utf8(e) && is_ascii_chars(decode_utf8(e)) ==> unicode_lowercase(decode_utf8(e)) == lowered(
        decode_utf8(e),
    )
}

/// Whether the extension of a path, if it has one in ASCII, is lowered letter by letter.
pub open spec fn suffix_as_is(path: Seq<u8>) -> bool {
    suffix_of(path) is Some ==> lowered_as_is(suffix_of(path)->0)
}

/// Whether a path names a file of a type worth reading. With an extension in ASCII, that is
/// so where the extension, each letter lowered, is a known one.
pub fn is_text_file(path: &[u8]) -> (r: bool)
    ensures
        r == text_file(path@),
        suffix_of(path@) matches Some(e) ==> (valid_utf8(e) && is_ascii_chars(decode_utf8(e)) ==> r
            == text_extension(lowered(decode_utf8(e)))),
        suffix_as_is(path@),
{
    match extension(path) {
        Some(e) => match strict(e.as_slice()) {
            Some(text) => is_text_extension(lowercase(text.as_str()).as_str()),
            None => false,
        },
        None => false,
    }
}

/// Names that are never worth indexing: hidden ones, and those of build directories.
pub open spec fn skipped(name: Seq<char>) -> bool {
    ||| begins_with(name, "."@)
    ||| name == "target"@
    ||| name == "node_modules"@
    ||| name == "__pycache__"@
    ||| name == "venv"@
    ||| name == ".venv"@
    ||| name == "dist"@
    ||| name == "build"@
    ||| name == ".git"@
}

/// Whether an entry of this name is left alone.
pub fn is_skipped(name: &str) -> (r: bool)
    ensures
        r == skipped(name@),
{
    starts(name, ".") || same(name, "target") || same(name, "node_modules") || same(
        name,
        "__pycache__",
    ) || same(name, "venv") || same(name, ".venv") || same(name, "dist") || same(name, "build")
        || same(name, ".git")
}

/// How a path reads from `root`; a path elsewhere reads as it is.
pub open spec fn path_label(root: Seq<u8>, path: Seq<u8>) -> Seq<char> {
    if within(path, root) {
        utf8_lossy(below(path, root))
    } else {
        utf8_lossy(path)
    }
}

/// Show paths relative to the indexed root, so citations stay readable. What is shown reads as
/// it is where it is valid UTF-8.
pub fn display_path(root: &[u8], path: &[u8]) -> (r: String)
    ensures
        r@ == path_label(root@, path@),
        within(path@, root@) && valid_utf8(below(path@, root@)) ==> r@ == decode_utf8(
            below(path@, root@),
        ),
        !within(path@, root@) && valid_utf8(path@) ==> r@ == decode_utf8(path@),
{
    match strip_prefix(path, root) {
        Some(rest) => lossy(rest.as_slice()),
        None => lossy(path),
    }
}

// ---------------------------------------------------------------------------
// Entries of a folder
// ---------------------------------------------------------------------------

/// What an entry is, links not followed.
pub enum EntryKind {
    Folder,
    /// A regular file of this many bytes.
    File(u64),
    /// A link, a device, or something that cannot be looked at.
    Other,
}

/// One entry of a folder.
pub struct Entry {
    pub path: Vec<u8>,
    pub name: Vec<u8>,
    pub kind: EntryKind,
}

/// Whether the indexer goes into this entry.
pub open spec fn descends(e: Entry) -> bool {
    !skipped(utf8_lossy(e.name@)) && e.kind is Folder
}

/// Whether the indexer reads this entry.
pub open spec fn indexes(e: Entry) -> bool {
    !skipped(utf8_lossy(e.name@)) && (e.kind matches EntryKind::File(size) && size
        <= MAX_FILE_BYTES) && text_file(e.path@)
}

/// The paths of those entries that the indexer goes into.
pub open spec fn folders_in(entries: Seq<Entry>) -> Seq<Seq<u8>>
    decreases entries.len(),
{
    if entries.len() == 0 {
        Seq::empty()
    } else if descends(entries.last()) {
        folders_in(entries.drop_last()).push(entries.last().path@)
    } else {
        folders_in(entries.drop_last())
    }
}

/// The paths of those entries that the indexer reads.
pub open spec fn files_in(entries: Seq<Entry>) -> Seq<Seq<u8>>
    decreases entries.len(),
{
    if entries.len() == 0 {
        Seq::empty()
    } else if indexes(entries.last()) {
        files_in(entries.drop_last()).push(entries.last().path@)
    } else {
        files_in(entries.drop_last())
    }
}

/// Whether an entry's name and extension, where they are plain, are taken as they are.
pub open spec fn entry_as_is(e: Entry) -> bool {
    read_as_is(e.name@) && suffix_as_is(e.path@)
}

/// Whether the names and extensions of all these entries are taken as they are.
pub open spec fn entries_as_is(entries: Seq<Entry>) -> bool {
    forall|i: int| 0 <= i < entries.len() ==> entry_as_is(#[trigger] entries[i])
}

fn does_descend(e: &Entry) -> (r: bool)
    ensures
        r == descends(*e),
{
    let folder = match e.kind {
        EntryKind::Folder => true,
        _ => false,
    };
    !is_skipped(lossy(e.name.as_slice()).as_str()) && folder
}

fn does_index(e: &Entry) -> (r: bool)
    ensures
        r == indexes(*e),
        entry_as_is(*e),
{
    let small = match e.kind {
        EntryKind::File(size) => size <= MAX_FILE_BYTES,
        _ => false,
    };
    let text = is_text_file(e.path.as_slice());
    !is_skipped(lossy(e.name.as_slice()).as_str()) && small && text
}

/// Adds the folders and the files among the entries to two lists.
fn sort_out(entries: &Vec<Entry>, folders: &mut Vec<Vec<u8>>, files: &mut Vec<Vec<u8>>)
    ensures
        path_views(final(folders)@) == path_views(old(folders)@) + folders_in(entries@),
        path_views(final(files)@) == path_views(old(files)@) + files_in(entries@),
        entries_as_is(entries@),
{
    let mut i: usize = 0;
    assert(entries@.take(0) =~= Seq::empty());
    assert(path_views(folders@) =~= path_views(folders@) + folders_in(entries@.take(0)));
    assert(path_views(files@) =~= path_views(files@) + files_in(entries@.take(0)));
    while i < entries.len()
        invariant
            i <= entries@.len(),
            path_views(folders@) == path_views(old(folders)@) + folders_in(entries@.take(i as int)),
            path_views(files@) == path_views(old(files)@) + files_in(entries@.take(i as int)),
            forall|j: int| 0 <= j < i ==> entry_as_is(#[trigger] entries@[j]),
        decreases entries@.len() - i,
    {
        let e = &entries[i];
        let ghost had_folders = path_views(folders@);
        let ghost had_files = path_views(files@);
        proof {
            assert(entries@.take(i + 1).drop_last() =~= entries@.take(i as int));
            assert(entries@.take(i + 1).last() == *e);
        }
        if does_descend(e) {
            folders.push(copied(e.path.as_slice()));
            assert(path_views(folders@) =~= had_folders.push(e.path@));
        }
        if does_index(e) {
            files.push(copied(e.path.as_slice()));
            assert(path_views(files@) =~= had_files.push(e.path@));
        }
        i += 1;
    }
    assert(entries@.take(entries@.len() as int) =~= entries@);
}

// ---------------------------------------------------------------------------
// The walk
// ---------------------------------------------------------------------------

/// A walk through a folder tree: folders still to be listed, files found so far.
pub struct Walk {
    stack: Vec<Vec<u8>>,
    found: Vec<Vec<u8>>,
}

impl Walk {
    /// The folders still to be listed, the next one last.
    pub closed spec fn waiting(self) -> Seq<Seq<u8>> {
        path_views(self.stack@)
    }

    /// The files found so far.
    pub closed spec fn kept(self) -> Seq<Seq<u8>> {
        path_views(self.found@)
    }

    /// A walk that starts at `root`.
    pub fn start(root: &[u8]) -> (w: Walk)
        ensures
            w.waiting() == seq![root@],
            w.kept() == Seq::<Seq<u8>>::empty(),
    {
        let mut stack: Vec<Vec<u8>> = Vec::new();
        stack.push(copied(root));
        let w = Walk { stack, found: Vec::new() };
        assert(w.waiting() =~= seq![root@]);
        assert(w.kept() =~= Seq::empty());
        w
    }

    /// The folder to list next, or nothing when the walk is over.
    pub fn next_folder(&mut self) -> (r: Option<Vec<u8>>)
        ensures
            final(self).kept() == old(self).kept(),
            r is None <==> old(self).waiting().len() == 0,
            r is None ==> final(self).waiting() == old(self).waiting(),
            r is Some ==> r->0@ == old(self).waiting().last() && final(self).waiting() == old(
                self,
            ).waiting().drop_last(),
    {
        let ghost had = self.waiting();
        let r = self.stack.pop();
        proof {
            if r is Some {
                assert(self.waiting() =~= had.drop_last());
            }
        }
        r
    }

    /// Takes in what a folder holds: its folders wait to be listed, its readable files are
    /// kept, and the rest is left alone.
    pub fn visit(&mut self, entries: &Vec<Entry>)
        ensures
            final(self).waiting() == old(self).waiting() + folders_in(entries@),
            final(self).kept() == old(self).kept() + files_in(entries@),
            entries_as_is(entries@),
    {
        sort_out(entries, &mut self.stack, &mut self.found);
    }

    /// The files found, in path order.
    pub fn finish(self) -> (r: Vec<Vec<u8>>)
        ensures
            path_views(r@) == sorted(self.kept(), path_order()),
    {
        sort_paths(self.found)
    }
}

// ---------------------------------------------------------------------------
// The folder picker and the survey
// ---------------------------------------------------------------------------

/// Subfolders the indexer would actually descend into, in path order.
pub fn listable_dirs(entries: &Vec<Entry>) -> (r: Vec<Vec<u8>>)
    ensures
        path_views(r@) == sorted(folders_in(entries@), path_order()),
        entries_as_is(entries@),
{
    let mut folders: Vec<Vec<u8>> = Vec::new();
    let mut files: Vec<Vec<u8>> = Vec::new();
    sort_out(entries, &mut folders, &mut files);
    assert(path_views(folders@) =~= folders_in(entries@));
    sort_paths(folders)
}

/// How many files directly inside a folder would be indexed.
pub fn count_indexable(entries: &Vec<Entry>) -> (r: usize)
    ensures
        r == files_in(entries@).len(),
        entries_as_is(entries@),
{
    let mut folders: Vec<Vec<u8>> = Vec::new();
    let mut files: Vec<Vec<u8>> = Vec::new();
    sort_out(entries, &mut folders, &mut files);
    assert(path_views(files@) =~= files_in(entries@));
    files.len()
}

/// The picker offers exactly the folders that a walk goes on into, in path order.
pub proof fn law_picker_offers_what_the_walk_enters(entries: Seq<Entry>)
    ensures
        sorted(folders_in(entries), path_order()).to_multiset() == folders_in(entries).to_multiset(),
        ascending(sorted(folders_in(entries), path_order()), path_order()),
{
    lemma_path_order();
    lemma_sorted_same(folders_in(entries), path_order());
    lemma_sorted_ascending(folders_in(entries), path_order());
}

/// Neither a folder nor a file with a skipped name is ever taken in.
pub proof fn law_skipped_names_are_left_alone(entries: Seq<Entry>, e: Entry)
    requires
        skipped(utf8_lossy(e.name@)),
    ensures
        folders_in(entries.push(e)) == folders_in(entries),
        files_in(entries.push(e)) == files_in(entries),
{
    assert(entries.push(e).drop_last() =~= entries);
}

/// The sizes that are known, added up.
pub open spec fn known_bytes(sizes: Seq<Option<u64>>) -> nat
    decreases sizes.len(),
{
    if sizes.len() == 0 {
        0
    } else {
        known_bytes(sizes.drop_last()) + match sizes.last() {
            Some(size) => size as nat,
            None => 0,
        }
    }
}

proof fn lemma_known_bytes(sizes: Seq<Option<u64>>, i: int)
    requires
        0 <= i <= sizes.len(),
    ensures
        known_bytes(sizes.take(i)) <= known_bytes(sizes),
    decreases sizes.len(),
{
    if i < sizes.len() {
        assert(sizes.drop_last().take(i) =~= sizes.take(i));
        lemma_known_bytes(sizes.drop_last(), i);
    } else {
        assert(sizes.take(i) =~= sizes);
    }
}

/// Price an indexing request without embedding anything: how many files there are, and how
/// many chunks of the target size their bytes would fill. `sizes` has one entry per file,
/// empty where the size could not be read.
pub fn survey(sizes: &Vec<Option<u64>>) -> (r: (usize, usize))
    requires
        known_bytes(sizes@) <= usize::MAX,
    ensures
        r.0 == sizes@.len(),
        r.1 == (known_bytes(sizes@) + CHUNK_TARGET_CHARS - 1) / CHUNK_TARGET_CHARS as int,
{
    let mut total: usize = 0;
    let mut i: usize = 0;
    assert(sizes@.take(0) =~= Seq::empty());
    while i < sizes.len()
        invariant
            i <= sizes@.len(),
            known_bytes(sizes@) <= usize::MAX,
            total == known_bytes(sizes@.take(i as int)),
        decreases sizes@.len() - i,
    {
        proof {
            assert(sizes@.take(i + 1).drop_last() =~= sizes@.take(i as int));
            lemma_known_bytes(sizes@, i + 1);
        }
        if let Some(size) = sizes[i] {
            total = total + size as usize;
        }
        i += 1;
    }
    assert(sizes@.take(sizes@.len() as int) =~= sizes@);
    let mut chunks: usize = total / CHUNK_TARGET_CHARS;
    if total % CHUNK_TARGET_CHARS != 0 {
        chunks += 1;
    }
    (sizes.len(), chunks)
}

// ---------------------------------------------------------------------------
// What the choice of files promises
// ---------------------------------------------------------------------------

/// Every entry is judged by itself: what is taken in of two listings is what is taken in of the
/// one and of the other. A folder is entered unless its name is hidden or that of a build
/// directory; a file is read if, besides, it is no bigger than two mebibytes and of a known
/// type. Nothing else is taken in.
pub proof fn law_entries_are_judged_one_by_one(a: Seq<Entry>, b: Seq<Entry>, e: Entry)
    ensures
        folders_in(Seq::empty()).len() == 0 && files_in(Seq::empty()).len() == 0,
        folders_in(a + b) == folders_in(a) + folders_in(b),
        files_in(a + b) == files_in(a) + files_in(b),
        folders_in(seq![e]) == if !skipped(utf8_lossy(e.name@)) && e.kind is Folder {
            seq![e.path@]
        } else {
            Seq::empty()
        },
        files_in(seq![e]) == if !skipped(utf8_lossy(e.name@)) && (e.kind matches EntryKind::File(size)
            && size <= 2_097_152) && text_file(e.path@) {
            seq![e.path@]
        } else {
            Seq::empty()
        },
    decreases b.len(),
{
    assert(seq![e].drop_last() =~= Seq::empty());
    assert(folders_in(seq![e].drop_last()) =~= Seq::empty());
    assert(files_in(seq![e].drop_last()) =~= Seq::empty());
    assert(seq![e].last() == e);
    assert(Seq::<Seq<u8>>::empty().push(e.path@) =~= seq![e.path@]);
    if b.len() == 0 {
        assert(a + b =~= a);
        assert(folders_in(a) + folders_in(b) =~= folders_in(a));
        assert(files_in(a) + files_in(b) =~= files_in(a));
    } else {
        law_entries_are_judged_one_by_one(a, b.drop_last(), e);
        assert((a + b).drop_last() =~= a + b.drop_last());
        assert((a + b).last() == b.last());
        let (x, y) = (folders_in(a), folders_in(b.drop_last()));
        assert((x + y).push(b.last().path@) =~= x + y.push(b.last().path@));
        let (x, y) = (files_in(a), files_in(b.drop_last()));
        assert((x + y).push(b.last().path@) =~= x + y.push(b.last().path@));
    }
}

/// A name is skipped exactly when it starts with a dot or is that of a build directory.
pub proof fn law_skipped_names(name: Seq<char>)
    ensures
        skipped(name) <==> (name.len() > 0 && name[0] == '.') || set![
            "target"@,
            "node_modules"@,
            "__pycache__"@,
            "venv"@,
            ".venv"@,
            "dist"@,
            "build"@,
            ".git"@,
        ].contains(name),
{
    reveal_strlit(".");
    if name.len() > 0 && name[0] == '.' {
        assert(name.take(1) =~= "."@);
    }
    if begins_with(name, "."@) {
        assert(name.take(1)[0] == name[0]);
    }
}

/// A file is of a known type exactly when its name has an extension which, in lower case, is
/// one of these.
pub proof fn law_text_files(path: Seq<u8>)
    ensures
        text_file(path) <==> suffix_of(path) is Some && valid_utf8(suffix_of(path)->0) && set![
            "md"@,
            "txt"@,
            "rst"@,
            "org"@,
            "rs"@,
            "py"@,
            "js"@,
            "ts"@,
            "jsx"@,
            "tsx"@,
            "go"@,
            "java"@,
            "c"@,
            "h"@,
            "cpp"@,
            "hpp"@,
            "sh"@,
            "bash"@,
            "sql"@,
            "toml"@,
            "yaml"@,
            "yml"@,
            "json"@,
            "html"@,
            "css"@,
            "csv"@,
            "ini"@,
            "cfg"@,
        ].contains(unicode_lowercase(decode_utf8(suffix_of(path)->0))),
{
}

/// A path inside the indexed folder reads from there; any other path reads as it is.
pub proof fn law_labels(root: Seq<u8>, path: Seq<u8>)
    ensures
        within(path, root) ==> path_label(root, path) == utf8_lossy(below(path, root)),
        !within(path, root) ==> path_label(root, path) == utf8_lossy(path),
{
}

/// Sizes add up, file by file; what is not known counts for nothing.
pub proof fn law_sizes_add_up(a: Seq<Option<u64>>, b: Seq<Option<u64>>, size: u64)
    ensures
        known_bytes(Seq::empty()) == 0,
        known_bytes(seq![Some(size)]) == size,
        known_bytes(seq![None::<u64>]) == 0,
        known_bytes(a + b) == known_bytes(a) + known_bytes(b),
    decreases b.len(),
{
    assert(seq![Some(size)].drop_last() =~= Seq::empty());
    assert(seq![None::<u64>].drop_last() =~= Seq::empty());
    assert(known_bytes(Seq::empty()) == 0);
    if b.len() == 0 {
        assert(a + b =~= a);
    } else {
        law_sizes_add_up(a, b.drop_last(), size);
        assert((a + b).drop_last() =~= a + b.drop_last());
        assert((a + b).last() == b.last());
    }
}

} // verus!
