//! Indexing a folder, one decision at a time.
//!
//! The file system and Ollama are the caller's part: it carries out an [`IndexAction`] and
//! comes back with an [`IndexEvent`]. No folder is walked before the store has admitted it,
//! and no text is embedded before the budget has.

use vstd::pervasive::unreached;
use vstd::prelude::*;
#[allow(unused_imports)]
use vstd::string::*;

use crate::chunking::split_into_chunks;
#[allow(unused_imports)]
use crate::chunking::{chunks, CHUNK_TARGET_CHARS};
use crate::error::ChatError;
use crate::files::{display_path, survey};
#[allow(unused_imports)]
use crate::files::{known_bytes, path_label};
#[allow(unused_imports)]
use crate::governance::{admission, over_budget, RefusalView};
use crate::governance::{Budget, FolderLookup, IndexReceipt, Refusal, Store};
use crate::knowledge::{Chunk, Knowledge};
#[allow(unused_imports)]
use crate::knowledge::sources_of;
use crate::ollama::check_embeddings;
#[allow(unused_imports)]
use crate::ollama::embedding_mismatch;
use crate::paths::{copied, lossy};
#[allow(unused_imports)]
use crate::paths::{read_as_is, utf8_lossy, within};
use crate::single::Single;
use crate::text::owned;
#[allow(unused_imports)]
use crate::text::views;

verus! {

/// How many chunks to embed per request to Ollama.
pub const EMBED_BATCH: usize = 24;

// ---------------------------------------------------------------------------
// The plan
// ---------------------------------------------------------------------------

/// Files that have been read, by value: the path and the text of each.
pub open spec fn file_views(files: Seq<(Vec<u8>, String)>) -> Seq<(Seq<u8>, Seq<char>)> {
    files.map_values(|f: (Vec<u8>, String)| (f.0@, f.1@))
}

/// Labelled texts, by value.
pub open spec fn pair_views(list: Seq<(String, String)>) -> Seq<(Seq<char>, Seq<char>)> {
    list.map_values(|p: (String, String)| (p.0@, p.1@))
}

/// The chunks of one file, each under the file's label.
pub open spec fn file_plan(root: Seq<u8>, file: (Seq<u8>, Seq<char>)) -> Seq<(Seq<char>, Seq<char>)> {
    Seq::new(chunks(file.1).len(), |i: int| (path_label(root, file.0), chunks(file.1)[i]))
}

/// What there is to embed: the chunks of all files, file after file.
pub open spec fn plan(root: Seq<u8>, files: Seq<(Seq<u8>, Seq<char>)>) -> Seq<(Seq<char>, Seq<char>)>
    decreases files.len(),
{
    if files.len() == 0 {
        Seq::empty()
    } else {
        plan(root, files.drop_last()) + file_plan(root, files.last())
    }
}

/// Cuts every file into labelled chunks, so that the total is known up front.
pub fn plan_chunks(root: &[u8], files: &Vec<(Vec<u8>, String)>) -> (out: Vec<(String, String)>)
    ensures
        pair_views(out@) == plan(root@, file_views(files@)),
{
    let ghost all = file_views(files@);
    let mut out: Vec<(String, String)> = Vec::new();
    let mut i: usize = 0;
    assert(all.take(0) =~= Seq::empty());
    assert(pair_views(out@) =~= plan(root@, all.take(0)));
    while i < files.len()
        invariant
            i <= files@.len(),
            all == file_views(files@),
            pair_views(out@) == plan(root@, all.take(i as int)),
        decreases files@.len() - i,
    {
        let label = display_path(root, files[i].0.as_slice());
        let pieces = split_into_chunks(files[i].1.as_str());
        let ghost before = pair_views(out@);
        let ghost file = all[i as int];
        let ghost mine = file_plan(root@, file);
        assert(file == (files@[i as int].0@, files@[i as int].1@));
        assert(views(pieces@).len() == pieces@.len());
        let mut j: usize = 0;
        assert(mine.take(0) =~= Seq::empty());
        assert(pair_views(out@) =~= before + mine.take(0));
        while j < pieces.len()
            invariant
                j <= pieces@.len(),
                views(pieces@) == chunks(file.1),
                label@ == path_label(root@, file.0),
                mine == file_plan(root@, file),
                mine.len() == pieces@.len(),
                pair_views(out@) == before + mine.take(j as int),
            decreases pieces@.len() - j,
        {
            let ghost had = pair_views(out@);
            out.push((owned(label.as_str()), owned(pieces[j].as_str())));
            proof {
                assert(views(pieces@)[j as int] == pieces@[j as int]@);
                assert(pair_views(out@) =~= had.push(mine[j as int]));
                assert(before + mine.take(j + 1) =~= (before + mine.take(j as int)).push(mine[j as int]));
            }
            j += 1;
        }
        proof {
            assert(mine.take(mine.len() as int) =~= mine);
            assert(all.take(i + 1).drop_last() =~= all.take(i as int));
            assert(all.take(i + 1).last() == file);
        }
        i += 1;
    }
    assert(all.take(files@.len() as int) =~= all);
    out
}

// ---------------------------------------------------------------------------
// The build
// ---------------------------------------------------------------------------

/// An index under construction: what there is to embed, and what has been embedded.
pub struct Build {
    folder: Vec<u8>,
    pending: Vec<(String, String)>,
    built: Vec<Chunk>,
}

/// Whether a chunk is this labelled text.
pub open spec fn is_planned(c: Chunk, p: (Seq<char>, Seq<char>)) -> bool {
    c.source@ == p.0 && c.text@ == p.1
}

/// The labelled texts of the next request, `done` of them being embedded already.
pub open spec fn batch(list: Seq<(Seq<char>, Seq<char>)>, done: int) -> Seq<(Seq<char>, Seq<char>)> {
    if done + EMBED_BATCH < list.len() {
        list.subrange(done, done + EMBED_BATCH)
    } else {
        list.subrange(done, list.len() as int)
    }
}

/// The texts without their labels.
pub open spec fn texts(list: Seq<(Seq<char>, Seq<char>)>) -> Seq<Seq<char>> {
    list.map_values(|p: (Seq<char>, Seq<char>)| p.1)
}

impl Build {
    /// The folder that is being indexed.
    pub closed spec fn root(self) -> Seq<u8> {
        self.folder@
    }

    /// All that there is to embed.
    pub closed spec fn planned(self) -> Seq<(Seq<char>, Seq<char>)> {
        pair_views(self.pending@)
    }

    /// What has been embedded so far.
    pub closed spec fn chunks(self) -> Seq<Chunk> {
        self.built@
    }

    /// What is embedded are the first of the planned texts, in order.
    pub open spec fn sound(self) -> bool {
        &&& self.chunks().len() <= self.planned().len()
        &&& forall|i: int|
            0 <= i < self.chunks().len() ==> is_planned(#[trigger] self.chunks()[i], self.planned()[i])
    }

    /// An index of these files of a folder, with nothing embedded yet.
    pub fn start(folder: Vec<u8>, files: &Vec<(Vec<u8>, String)>) -> (b: Build)
        ensures
            b.sound(),
            b.root() == folder@,
            b.planned() == plan(folder@, file_views(files@)),
            b.chunks() == Seq::<Chunk>::empty(),
    {
        let pending = plan_chunks(folder.as_slice(), files);
        Build { folder, pending, built: Vec::new() }
    }

    /// How many texts there are.
    pub fn total(&self) -> (r: usize)
        ensures
            r == self.planned().len(),
    {
        self.pending.len()
    }

    /// How many texts are embedded.
    pub fn done(&self) -> (r: usize)
        ensures
            r == self.chunks().len(),
    {
        self.built.len()
    }

    /// The texts to embed next.
    pub fn next_batch(&self) -> (r: Vec<String>)
        requires
            self.sound(),
        ensures
            views(r@) == texts(batch(self.planned(), self.chunks().len() as int)),
    {
        let mut r: Vec<String> = Vec::new();
        let start = self.built.len();
        let ghost want = texts(batch(self.planned(), start as int));
        let mut i: usize = start;
        assert(views(r@) =~= want.take(0));
        while i < self.pending.len() && i - start < EMBED_BATCH
            invariant
                start == self.built@.len(),
                start <= i <= self.pending@.len(),
                i - start <= EMBED_BATCH,
                want == texts(batch(self.planned(), start as int)),
                views(r@) == want.take(i - start),
            decreases self.pending@.len() - i,
        {
            let ghost had = views(r@);
            r.push(owned(self.pending[i].1.as_str()));
            proof {
                assert(self.planned()[i as int] == (self.pending@[i as int].0@, self.pending@[i as int].1@));
                assert(want[i - start] == self.pending@[i as int].1@);
                assert(views(r@) =~= had.push(want[i - start]));
                assert(want.take(i - start + 1) =~= want.take(i - start).push(want[i - start]));
            }
            i += 1;
        }
        assert(want.take(i - start) =~= want);
        r
    }

    /// Takes in the embeddings of the batch that was handed out. Another number of them than
    /// was asked for is an error, and changes nothing.
    pub fn accept(&mut self, vectors: Vec<Vec<Single>>) -> (r: Result<(), ChatError>)
        requires
            old(self).sound(),
        ensures
            final(self).sound(),
            final(self).root() == old(self).root(),
            final(self).planned() == old(self).planned(),
            ({
                let want = batch(old(self).planned(), old(self).chunks().len() as int).len();
                let n = old(self).chunks().len() as int;
                if vectors@.len() == want {
                    &&& r is Ok
                    &&& final(self).chunks().len() == n + want
                    &&& final(self).chunks().take(n) == old(self).chunks()
                    &&& forall|k: int|
                        0 <= k < want ==> (#[trigger] final(self).chunks()[n + k]).embedding == vectors@[k]
                } else {
                    &&& r matches Err(ChatError::Ollama(message)) && message@
                        == embedding_mismatch(want, vectors@.len())
                    &&& final(self).chunks() == old(self).chunks()
                }
            }),
    {
        let n = self.built.len();
        let ghost planned = self.planned();
        let ghost had = self.chunks();
        let left = self.pending.len() - n;
        let want: usize = if EMBED_BATCH < left {
            EMBED_BATCH
        } else {
            left
        };
        assert(want == batch(planned, n as int).len());
        let got = vectors.len();
        match check_embeddings(want, got) {
            Ok(()) => {},
            Err(e) => return Err(e),
        }
        let ghost all = vectors@;
        let mut vectors = vectors;
        let mut k: usize = 0;
        while k < want
            invariant
                k <= want,
                want == all.len(),
                n + want <= self.pending.len(),
                vectors@ == all.skip(k as int),
                self.folder@ == old(self).folder@,
                self.planned() == planned,
                self.built@.len() == n + k,
                n == had.len(),
                self.built@.take(n as int) == had,
                forall|j: int| 0 <= j < k ==> (#[trigger] self.built@[n + j]).embedding == all[j],
                forall|j: int| 0 <= j < n + k ==> is_planned(#[trigger] self.built@[j], planned[j]),
            decreases want - k,
        {
            let embedding = vectors.remove(0);
            let source = owned(self.pending[n + k].0.as_str());
            let text = owned(self.pending[n + k].1.as_str());
            proof {
                assert(planned[n + k] == (self.pending@[n + k].0@, self.pending@[n + k].1@));
                assert(all.skip(k as int).remove(0) =~= all.skip(k + 1));
            }
            let ghost before = self.built@;
            self.built.push(Chunk { source, text, embedding });
            proof {
                assert(self.built@.take(n as int) =~= before.take(n as int));
                assert forall|j: int| 0 <= j < k + 1 implies (#[trigger] self.built@[n + j]).embedding
                    == all[j] by {
                    if j < k {
                        assert(self.built@[n + j] == before[n + j]);
                    }
                }
                assert forall|j: int| 0 <= j < n + k + 1 implies is_planned(
                    #[trigger] self.built@[j],
                    planned[j],
                ) by {
                    if j < n + k {
                        assert(self.built@[j] == before[j]);
                    }
                }
            }
            k += 1;
        }
        Ok(())
    }

    /// The finished index.
    pub fn finish(self) -> (k: Knowledge)
        ensures
            k.root@ == utf8_lossy(self.root()),
            k.chunks@ == self.chunks(),
            read_as_is(self.root()),
    {
        Knowledge { root: lossy(self.folder.as_slice()), chunks: self.built }
    }
}

// ---------------------------------------------------------------------------
// The run
// ---------------------------------------------------------------------------

/// How far a request to index a folder has come.
pub enum IndexRun {
    /// A path has been asked for.
    Requested { path: Vec<u8> },
    /// The store has admitted this folder; its size is being taken.
    Surveying { folder: Vec<u8> },
    /// The budget has admitted this folder; its files are being read.
    Reading { folder: Vec<u8> },
    /// The texts of an admitted folder are being embedded.
    Embedding { build: Build },
    /// Nothing is left to do.
    Over,
}

/// What the caller reports.
pub enum IndexEvent {
    /// Whether the path is a folder, and what it resolves to.
    Looked { is_folder: bool, found: FolderLookup },
    /// The size of each file of the folder, empty where it could not be read.
    Surveyed { sizes: Vec<Option<u64>> },
    /// The path and the text of each file that could be read as text, in path order.
    Read { files: Vec<(Vec<u8>, String)> },
    /// One unit-length vector per text, in order.
    Embedded { vectors: Vec<Vec<Single>> },
    /// Embedding failed, for this reason.
    Failed { reason: String },
}

/// What the caller is to do next.
pub enum IndexAction {
    /// Walk this folder and look up the size of each file.
    Survey { folder: Vec<u8> },
    /// Walk this folder and read each file.
    Read { folder: Vec<u8> },
    /// Embed these texts.
    Embed { texts: Vec<String> },
    /// Say that this path is no folder.
    NotAFolder { path: String },
    /// Say that the request is refused.
    Refused { refusal: Refusal },
    /// Say that there is nothing readable.
    NothingReadable,
    /// Say that indexing failed.
    Failed { reason: String },
    /// Save this index and use it from now on.
    Learned { folder: Vec<u8>, knowledge: Knowledge },
}

/// What the caller is to report, and to do.
pub struct IndexStep {
    pub run: IndexRun,
    /// How many texts are embedded, and how many there are, whenever that has changed.
    pub progress: Option<(usize, usize)>,
    pub action: IndexAction,
}

impl IndexRun {
    /// Whether this event answers the last action.
    pub open spec fn expects(self, event: IndexEvent) -> bool {
        match (self, event) {
            (IndexRun::Requested { .. }, IndexEvent::Looked { .. }) => true,
            (IndexRun::Surveying { .. }, IndexEvent::Surveyed { sizes }) => known_bytes(sizes@)
                <= usize::MAX,
            (IndexRun::Reading { .. }, IndexEvent::Read { .. }) => true,
            (IndexRun::Embedding { build }, IndexEvent::Embedded { .. }) => build.sound(),
            (IndexRun::Embedding { .. }, IndexEvent::Failed { .. }) => true,
            _ => false,
        }
    }

    /// Whether everything that has been taken up lies inside the store.
    pub open spec fn cleared(self, root: Seq<u8>) -> bool {
        match self {
            IndexRun::Requested { .. } => true,
            IndexRun::Surveying { folder } => within(folder@, root),
            IndexRun::Reading { folder } => within(folder@, root),
            IndexRun::Embedding { build } => within(build.root(), root) && build.sound()
                && build.chunks().len() < build.planned().len(),
            IndexRun::Over => true,
        }
    }
}

impl IndexAction {
    /// Whether this action stays inside the store.
    pub open spec fn stays_inside(self, root: Seq<u8>) -> bool {
        match self {
            IndexAction::Survey { folder } => within(folder@, root),
            IndexAction::Read { folder } => within(folder@, root),
            IndexAction::Learned { folder, .. } => within(folder@, root),
            _ => true,
        }
    }
}

/// The estimate that goes before the budget: this many files, and this many chunks.
pub open spec fn estimate(sizes: Seq<Option<u64>>) -> (nat, nat) {
    (
        sizes.len(),
        ((known_bytes(sizes) + CHUNK_TARGET_CHARS - 1) / CHUNK_TARGET_CHARS as int) as nat,
    )
}

/// Whether `after` is what `build` has built so far, followed by the next planned texts,
/// each with its own vector.
pub open spec fn extends(build: Build, after: Seq<Chunk>, vectors: Seq<Vec<Single>>) -> bool {
    let n = build.chunks().len() as int;
    &&& after.len() == n + vectors.len()
    &&& after.len() <= build.planned().len()
    &&& forall|i: int| 0 <= i < n ==> after[i] == #[trigger] build.chunks()[i]
    &&& forall|i: int| 0 <= i < after.len() ==> is_planned(#[trigger] after[i], build.planned()[i])
    &&& forall|i: int| n <= i < after.len() ==> (#[trigger] after[i]).embedding == vectors[i - n]
}

/// After a path has been looked at: it has to be a folder, and the store has to admit it.
pub open spec fn after_look(
    root: Seq<u8>,
    path: Seq<u8>,
    is_folder: bool,
    found: FolderLookup,
    r: IndexStep,
) -> bool {
    &&& r.progress is None
    &&& !is_folder ==> r.run is Over && (r.action matches IndexAction::NotAFolder { path: shown }
        && shown@ == utf8_lossy(path)) && read_as_is(path)
    &&& is_folder ==> match admission(root, path, found) {
        Ok(folder) => (r.run matches IndexRun::Surveying { folder: f } && f@ == folder) && (
        r.action matches IndexAction::Survey { folder: f } && f@ == folder),
        Err(refusal) => r.run is Over && (r.action matches IndexAction::Refused { refusal: x } && x@
            == refusal),
    }
}

/// After a folder has been surveyed: it has to stay within the budget.
pub open spec fn after_survey(folder: Seq<u8>, sizes: Seq<Option<u64>>, r: IndexStep) -> bool {
    &&& r.progress is None
    &&& match over_budget(estimate(sizes).0, estimate(sizes).1) {
        None => (r.run matches IndexRun::Reading { folder: f } && f@ == folder) && (
        r.action matches IndexAction::Read { folder: f } && f@ == folder),
        Some(refusal) => r.run is Over && (r.action matches IndexAction::Refused { refusal: x } && x@
            == refusal),
    }
}

/// After the files have been read: there has to be something to embed.
pub open spec fn after_read(folder: Seq<u8>, files: Seq<(Seq<u8>, Seq<char>)>, r: IndexStep) -> bool {
    let all = plan(folder, files);
    &&& r.progress is None
    &&& if all.len() == 0 {
        r.run is Over && r.action is NothingReadable
    } else {
        &&& r.run matches IndexRun::Embedding { build } && build.sound() && build.root() == folder
            && build.planned() == all && build.chunks().len() == 0
        &&& r.action matches IndexAction::Embed { texts: t } && views(t@) == texts(batch(all, 0))
    }
}

/// After a batch has been embedded: the next one follows, or the index is complete.
pub open spec fn after_batch(build: Build, vectors: Seq<Vec<Single>>, r: IndexStep) -> bool {
    let all = build.planned();
    let n = build.chunks().len() as int;
    let want = batch(all, n).len() as int;
    if vectors.len() != want {
        &&& r.run is Over
        &&& r.progress is None
        &&& r.action matches IndexAction::Failed { reason } && reason@ == "ollama error: "@
            + embedding_mismatch(want as nat, vectors.len())
    } else if n + want == all.len() {
        &&& r.run is Over
        &&& r.progress matches Some(p) && p.0 == n + want && p.1 == all.len()
        &&& r.action matches IndexAction::Learned { folder, knowledge } && folder@ == build.root()
            && knowledge.root@ == utf8_lossy(build.root()) && read_as_is(build.root()) && extends(build, knowledge.chunks@, vectors)
    } else {
        &&& r.run matches IndexRun::Embedding { build: b } && b.sound() && b.root() == build.root()
            && b.planned() == all && extends(build, b.chunks(), vectors)
        &&& r.progress matches Some(p) && p.0 == n + want && p.1 == all.len()
        &&& r.action matches IndexAction::Embed { texts: t } && views(t@) == texts(batch(all, n + want))
    }
}

/// What becomes of a run, case by case.
pub open spec fn outcome(run: IndexRun, root: Seq<u8>, event: IndexEvent, r: IndexStep) -> bool {
    match (run, event) {
        (IndexRun::Requested { path }, IndexEvent::Looked { is_folder, found }) => after_look(
            root,
            path@,
            is_folder,
            found,
            r,
        ),
        (IndexRun::Surveying { folder }, IndexEvent::Surveyed { sizes }) => after_survey(
            folder@,
            sizes@,
            r,
        ),
        (IndexRun::Reading { folder }, IndexEvent::Read { files }) => after_read(
            folder@,
            file_views(files@),
            r,
        ),
        (IndexRun::Embedding { build }, IndexEvent::Embedded { vectors }) => after_batch(
            build,
            vectors@,
            r,
        ),
        (IndexRun::Embedding { .. }, IndexEvent::Failed { reason }) => r.run is Over && r.progress is None
            && (r.action matches IndexAction::Failed { reason: x } && x@ == reason@),
        _ => false,
    }
}

/// The step that ends a run.
fn ended(action: IndexAction) -> (r: IndexStep)
    ensures
        r.run is Over,
        r.progress is None,
        r.action == action,
{
    IndexStep { run: IndexRun::Over, progress: None, action }
}

/// A path has been looked at: it has to be a folder, and the store has to admit it.
fn looked(store: &Store, path: Vec<u8>, is_folder: bool, found: FolderLookup) -> (r: IndexStep)
    ensures
        after_look(store.root_path(), path@, is_folder, found, r),
{
    if !is_folder {
        return ended(IndexAction::NotAFolder { path: lossy(path.as_slice()) });
    }
    match store.admit_folder(path.as_slice(), found) {
        Ok(folder) => {
            let again = copied(folder.as_slice());
            IndexStep {
                run: IndexRun::Surveying { folder },
                progress: None,
                action: IndexAction::Survey { folder: again },
            }
        },
        Err(refusal) => ended(IndexAction::Refused { refusal }),
    }
}

/// A folder has been surveyed: it has to stay within the budget.
fn surveyed(folder: Vec<u8>, sizes: &Vec<Option<u64>>) -> (r: IndexStep)
    requires
        known_bytes(sizes@) <= usize::MAX,
    ensures
        after_survey(folder@, sizes@, r),
{
    let (files, estimated) = survey(sizes);
    match Budget::admit_walk(files, estimated) {
        Ok(()) => {
            let again = copied(folder.as_slice());
            IndexStep {
                run: IndexRun::Reading { folder },
                progress: None,
                action: IndexAction::Read { folder: again },
            }
        },
        Err(refusal) => ended(IndexAction::Refused { refusal }),
    }
}

/// Files have been read: there has to be something to embed.
fn read(folder: Vec<u8>, files: &Vec<(Vec<u8>, String)>) -> (r: IndexStep)
    ensures
        after_read(folder@, file_views(files@), r),
{
    let build = Build::start(folder, files);
    if build.total() == 0 {
        return ended(IndexAction::NothingReadable);
    }
    let next = build.next_batch();
    IndexStep {
        run: IndexRun::Embedding { build },
        progress: None,
        action: IndexAction::Embed { texts: next },
    }
}

/// A batch has been embedded: the next one follows, or the index is complete.
fn embedded(build: Build, vectors: Vec<Vec<Single>>) -> (r: IndexStep)
    requires
        build.sound(),
    ensures
        after_batch(build, vectors@, r),
{
    let mut build = build;
    let ghost was = build;
    let ghost got = vectors@;
    match build.accept(vectors) {
        Ok(()) => {},
        Err(e) => {
            return ended(IndexAction::Failed { reason: e.describe() });
        },
    }
    let done = build.done();
    let total = build.total();
    proof {
        let n = was.chunks().len() as int;
        assert forall|i: int| 0 <= i < n implies build.chunks()[i] == #[trigger] was.chunks()[i] by {
            assert(build.chunks().take(n)[i] == build.chunks()[i]);
        }
        assert forall|i: int| n <= i < build.chunks().len() implies (
        #[trigger] build.chunks()[i]).embedding == got[i - n] by {
            assert(build.chunks()[n + (i - n)].embedding == got[i - n]);
        }
        assert(extends(was, build.chunks(), got));
    }
    if done == total {
        let folder = copied(build.folder.as_slice());
        let knowledge = build.finish();
        IndexStep {
            run: IndexRun::Over,
            progress: Some((done, total)),
            action: IndexAction::Learned { folder, knowledge },
        }
    } else {
        let next = build.next_batch();
        IndexStep {
            run: IndexRun::Embedding { build },
            progress: Some((done, total)),
            action: IndexAction::Embed { texts: next },
        }
    }
}

impl IndexRun {
    /// A request to index a path. The first thing to do is to look at it.
    pub fn request(path: Vec<u8>) -> (r: IndexRun)
        ensures
            r matches IndexRun::Requested { path: p } && p@ == path@,
    {
        IndexRun::Requested { path }
    }

    /// Takes in what the caller reports, and says what to do next.
    pub fn step(self, store: &Store, event: IndexEvent) -> (r: IndexStep)
        requires
            self.expects(event),
        ensures
            self.cleared(store.root_path()) ==> r.run.cleared(store.root_path()),
            self.cleared(store.root_path()) ==> r.action.stays_inside(store.root_path()),
            outcome(self, store.root_path(), event, r),
    {
        match self {
            IndexRun::Requested { path } => match event {
                IndexEvent::Looked { is_folder, found } => looked(store, path, is_folder, found),
                _ => unreached(),
            },
            IndexRun::Surveying { folder } => match event {
                IndexEvent::Surveyed { sizes } => surveyed(folder, &sizes),
                _ => unreached(),
            },
            IndexRun::Reading { folder } => match event {
                IndexEvent::Read { files } => read(folder, &files),
                _ => unreached(),
            },
            IndexRun::Embedding { build } => match event {
                IndexEvent::Embedded { vectors } => embedded(build, vectors),
                IndexEvent::Failed { reason } => ended(IndexAction::Failed { reason }),
                _ => unreached(),
            },
            IndexRun::Over => unreached(),
        }
    }
}

/// What an admitted index consumed, once it is built.
pub fn receipt(folder: Vec<u8>, knowledge: &Knowledge, seconds: Single) -> (r: IndexReceipt)
    ensures
        r.root@ == folder@,
        r.files == sources_of(knowledge.chunks@).to_set().len(),
        r.chunks == knowledge.chunks@.len(),
        r.seconds == seconds,
{
    IndexReceipt {
        root: folder,
        files: knowledge.file_count(),
        chunks: knowledge.chunks.len(),
        seconds,
    }
}

/// Deny by default: a folder is walked only where the store has admitted it, its files are
/// read only where the budget has, nothing outside the store is ever touched, and whatever
/// is refused goes no further.
pub proof fn law_admission_comes_first(run: IndexRun, root: Seq<u8>, event: IndexEvent, r: IndexStep)
    requires
        run.cleared(root),
        outcome(run, root, event, r),
    ensures
        r.run.cleared(root),
        r.action.stays_inside(root),
        r.action is Survey ==> run is Requested && event is Looked && admission(
            root,
            run->path@,
            event->found,
        ) == Ok::<Seq<u8>, RefusalView>(r.action->Survey_folder@),
        r.action is Read ==> run is Surveying && event is Surveyed && over_budget(
            estimate(event->sizes@).0,
            estimate(event->sizes@).1,
        ) is None,
        r.action is Embed ==> run is Reading || run is Embedding,
        r.action is Learned ==> run is Embedding,
        r.action is Refused || r.action is NotAFolder || r.action is NothingReadable
            || r.action is Failed || r.action is Learned ==> r.run is Over,
{
    if run is Embedding && event is Embedded {
        let build = run->build;
        let n = build.chunks().len() as int;
        assert(batch(build.planned(), n).len() > 0);
    }
}

/// A finished index is the whole plan and nothing else: one chunk per planned text, in
/// order, under the label of its file.
pub proof fn law_index_is_the_plan(run: IndexRun, root: Seq<u8>, event: IndexEvent, r: IndexStep)
    requires
        run is Embedding,
        outcome(run, root, event, r),
        r.action is Learned,
    ensures
        r.action->knowledge.chunks@.len() == run->build.planned().len(),
        forall|i: int|
            0 <= i < run->build.planned().len() ==> is_planned(
                #[trigger] r.action->knowledge.chunks@[i],
                run->build.planned()[i],
            ),
{
}

/// From the first batch to the last the plan stays the plan of the files that were read, and
/// every batch that is taken in brings the count closer to the total.
pub proof fn law_progress_is_honest(run: IndexRun, root: Seq<u8>, event: IndexEvent, r: IndexStep)
    requires
        run.cleared(root),
        run is Reading || run is Embedding,
        outcome(run, root, event, r),
    ensures
        run is Reading && r.run is Embedding ==> r.run->build.planned() == plan(
            run->Reading_folder@,
            file_views(event->files@),
        ),
        run is Embedding && r.run is Embedding ==> r.run->build.planned() == run->build.planned(),
        r.progress matches Some(p) ==> run is Embedding && run->build.chunks().len() < p.0 <= p.1
            && p.1 == run->build.planned().len(),
{
    if run is Embedding && event is Embedded {
        let build = run->build;
        let n = build.chunks().len() as int;
        assert(batch(build.planned(), n).len() > 0);
    }
}

// ---------------------------------------------------------------------------
// What a plan and its batches hold
// ---------------------------------------------------------------------------

/// Files and plans, by value, hold what they are made of.
pub proof fn law_plan_values(
    files: Seq<(Vec<u8>, String)>,
    list: Seq<(String, String)>,
    planned: Seq<(Seq<char>, Seq<char>)>,
)
    ensures
        file_views(files).len() == files.len(),
        forall|i: int|
            0 <= i < files.len() ==> (#[trigger] file_views(files)[i]).0 == files[i].0@ && file_views(
                files,
            )[i].1 == files[i].1@,
        pair_views(list).len() == list.len(),
        forall|i: int|
            0 <= i < list.len() ==> (#[trigger] pair_views(list)[i]).0 == list[i].0@ && pair_views(list)[i].1
                == list[i].1@,
        texts(planned).len() == planned.len(),
        forall|i: int| 0 <= i < planned.len() ==> #[trigger] texts(planned)[i] == planned[i].1,
{
}

/// Every file counts, and counts by itself: the plan of two lists of files is the plan of the
/// one followed by the plan of the other, and the plan of one file is each of its chunks, in
/// order and under its label.
pub proof fn law_plan_is_file_by_file(
    root: Seq<u8>,
    a: Seq<(Seq<u8>, Seq<char>)>,
    b: Seq<(Seq<u8>, Seq<char>)>,
    file: (Seq<u8>, Seq<char>),
)
    ensures
        plan(root, Seq::empty()).len() == 0,
        plan(root, seq![file]).len() == chunks(file.1).len(),
        forall|k: int|
            0 <= k < chunks(file.1).len() ==> (#[trigger] plan(root, seq![file])[k]).0 == path_label(
                root,
                file.0,
            ) && plan(root, seq![file])[k].1 == chunks(file.1)[k],
        plan(root, a + b) == plan(root, a) + plan(root, b),
    decreases b.len(),
{
    let single = seq![file];
    assert(single.drop_last() =~= Seq::empty());
    assert(plan(root, single.drop_last()) =~= Seq::empty());
    assert(plan(root, single) =~= file_plan(root, file));
    if b.len() == 0 {
        assert(a + b =~= a);
        assert(plan(root, a) + plan(root, b) =~= plan(root, a));
    } else {
        law_plan_is_file_by_file(root, a, b.drop_last(), file);
        assert((a + b).drop_last() =~= a + b.drop_last());
        assert((a + b).last() == b.last());
        assert(plan(root, a) + plan(root, b.drop_last()) + file_plan(root, b.last()) =~= plan(root, a) + (
        plan(root, b.drop_last()) + file_plan(root, b.last())));
    }
}

/// How many chunks these files have, all together.
pub open spec fn chunk_total(files: Seq<(Seq<u8>, Seq<char>)>) -> nat
    decreases files.len(),
{
    if files.len() == 0 {
        0
    } else {
        chunk_total(files.drop_last()) + chunks(files.last().1).len()
    }
}

/// Every chunk of every file that was read is in the plan under the label of its file: chunk `k`
/// of file `f` stands behind all chunks of the files before, and the plan is as long as all
/// files together have chunks.
pub proof fn law_every_chunk_is_planned(
    root: Seq<u8>,
    files: Seq<(Seq<u8>, Seq<char>)>,
    f: int,
    k: int,
)
    requires
        0 <= f < files.len(),
        0 <= k < chunks(files[f].1).len(),
    ensures
        plan(root, files).len() == chunk_total(files),
        chunk_total(files.take(f)) + k < plan(root, files).len(),
        plan(root, files)[chunk_total(files.take(f)) + k].0 == path_label(root, files[f].0),
        plan(root, files)[chunk_total(files.take(f)) + k].1 == chunks(files[f].1)[k],
{
    let a = files.take(f);
    let c = files.skip(f + 1);
    let single = seq![files[f]];
    assert(files =~= a + single + c);
    law_plan_is_file_by_file(root, a + single, c, files[f]);
    law_plan_is_file_by_file(root, a, single, files[f]);
    lemma_plan_len(root, files);
    lemma_plan_len(root, a);
    let at = plan(root, a).len() + k;
    assert(plan(root, files)[at] == (plan(root, a) + plan(root, single))[at]);
    assert((plan(root, a) + plan(root, single))[at] == plan(root, single)[k]);
}

proof fn lemma_plan_len(root: Seq<u8>, files: Seq<(Seq<u8>, Seq<char>)>)
    ensures
        plan(root, files).len() == chunk_total(files),
    decreases files.len(),
{
    if files.len() > 0 {
        lemma_plan_len(root, files.drop_last());
    }
}

/// Each request takes up where the last one has stopped: it holds the next texts in order,
/// twenty-four of them or as many as are left, and never none while any is left.
pub proof fn law_batches_take_up_where_the_last_stopped(
    list: Seq<(Seq<char>, Seq<char>)>,
    done: int,
    k: int,
)
    requires
        0 <= done <= list.len(),
    ensures
        batch(list, done).len() == if list.len() - done > 24 {
            24
        } else {
            list.len() - done
        },
        0 <= k < batch(list, done).len() ==> batch(list, done)[k] == list[done + k],
{
}

/// A request for embeddings holds the texts that come next in the plan, each of them whole.
pub proof fn law_request_holds_the_next_texts(
    run: IndexRun,
    root: Seq<u8>,
    event: IndexEvent,
    r: IndexStep,
    k: int,
)
    requires
        outcome(run, root, event, r),
        r.action is Embed,
        0 <= k < r.action->texts@.len(),
    ensures
        r.run is Embedding,
        r.run->build.chunks().len() + k < r.run->build.planned().len(),
        r.action->texts@[k]@ == r.run->build.planned()[r.run->build.chunks().len() + k].1,
{
    let t = r.action->texts@;
    let b = r.run->build;
    let n = b.chunks().len() as int;
    assert(views(t)[k] == t[k]@);
    assert(views(t).len() == t.len());
    assert(views(t) == texts(batch(b.planned(), n)));
}

/// Embeddings stay with their texts: once a batch of the right size has been taken in, what was
/// built before is unchanged, and text `n + k` of the plan has vector `k` of the batch.
pub proof fn law_embeddings_stay_with_their_texts(
    run: IndexRun,
    root: Seq<u8>,
    event: IndexEvent,
    r: IndexStep,
    built: Seq<Chunk>,
    i: int,
)
    requires
        run is Embedding,
        event is Embedded,
        outcome(run, root, event, r),
        r.run is Embedding && built == r.run->build.chunks() || r.action is Learned && built
            == r.action->knowledge.chunks@,
        0 <= i < built.len(),
    ensures
        ({
            let before = run->build.chunks();
            let n = before.len() as int;
            &&& built.len() == n + event->vectors@.len()
            &&& i < n ==> built[i] == before[i]
            &&& i >= n ==> built[i].embedding == event->vectors@[i - n]
            &&& built[i].source@ == run->build.planned()[i].0
            &&& built[i].text@ == run->build.planned()[i].1
        }),
{
    let b = run->build;
    assert(extends(b, built, event->vectors@));
    if i < b.chunks().len() {
        assert(built[i] == b.chunks()[i]);
    }
    assert(is_planned(built[i], b.planned()[i]));
}

/// A wrong number of vectors is never taken in, and a right one always is.
pub proof fn law_batch_is_taken_whole(
    run: IndexRun,
    root: Seq<u8>,
    event: IndexEvent,
    r: IndexStep,
)
    requires
        run is Embedding,
        event is Embedded,
        outcome(run, root, event, r),
    ensures
        ({
            let left = run->build.planned().len() - run->build.chunks().len();
            let want = if left > 24 {
                24
            } else {
                left
            };
            &&& event->vectors@.len() != want ==> r.action is Failed && r.run is Over
            &&& event->vectors@.len() == want && want == left ==> r.action is Learned && r.run is Over
            &&& event->vectors@.len() == want && want != left && left >= 0 ==> r.action is Embed
                && r.run is Embedding
        }),
{
}

/// The estimate that goes before the budget: the number of files, and the least number of
/// chunks of the target size that holds all their bytes.
pub proof fn law_estimate_holds_all_bytes(sizes: Seq<Option<u64>>)
    ensures
        estimate(sizes).0 == sizes.len(),
        known_bytes(sizes) <= estimate(sizes).1 * 1200,
        estimate(sizes).1 > 0 ==> (estimate(sizes).1 - 1) * 1200 < known_bytes(sizes),
{
}

/// What ends a run without an index says why: the path asked for, the refusal of the store or
/// of the budget, that there is nothing to embed, or the reason of the failure.
pub proof fn law_runs_say_why_they_end(
    run: IndexRun,
    root: Seq<u8>,
    event: IndexEvent,
    r: IndexStep,
)
    requires
        outcome(run, root, event, r),
    ensures
        run is Requested && event is Looked && !event->is_folder ==> r.run is Over && (
        r.action matches IndexAction::NotAFolder { path } && path@ == utf8_lossy(run->path@)),
        run is Requested && event is Looked && event->is_folder && admission(
            root,
            run->path@,
            event->found,
        ) is Err ==> r.run is Over && (r.action matches IndexAction::Refused { refusal } && refusal@
            == admission(root, run->path@, event->found)->Err_0),
        run is Requested && event is Looked && event->is_folder && admission(
            root,
            run->path@,
            event->found,
        ) is Ok ==> r.action is Survey,
        run is Surveying && event is Surveyed && over_budget(
            estimate(event->sizes@).0,
            estimate(event->sizes@).1,
        ) is Some ==> r.run is Over && (r.action matches IndexAction::Refused { refusal } && refusal@
            == over_budget(estimate(event->sizes@).0, estimate(event->sizes@).1)->0),
        run is Surveying && event is Surveyed && over_budget(
            estimate(event->sizes@).0,
            estimate(event->sizes@).1,
        ) is None ==> r.action is Read && r.action->Read_folder@ == run->Surveying_folder@,
        run is Reading && event is Read ==> (r.action is NothingReadable <==> plan(
            run->Reading_folder@,
            file_views(event->files@),
        ).len() == 0),
        run is Reading && event is Read && !(r.action is NothingReadable) ==> r.action is Embed
            && r.run is Embedding && r.run->build.chunks().len() == 0 && r.run->build.planned() == plan(
            run->Reading_folder@,
            file_views(event->files@),
        ) && r.run->build.root() == run->Reading_folder@,
        run is Embedding && event is Failed ==> r.run is Over && (r.action matches IndexAction::Failed {
            reason,
        } && reason@ == event->Failed_reason@),
        run is Embedding && r.action is Learned ==> r.action->Learned_folder@ == run->build.root()
            && r.action->knowledge.root@ == utf8_lossy(run->build.root()),
{
}

/// What goes on goes on with the same folder: the one that was admitted is surveyed, the one
/// that was surveyed is read, and its index is built to the end.
pub proof fn law_runs_keep_their_folder(run: IndexRun, root: Seq<u8>, event: IndexEvent, r: IndexStep)
    requires
        outcome(run, root, event, r),
    ensures
        r.action is Survey ==> r.run is Surveying && r.run->Surveying_folder@ == r.action->Survey_folder@
            && (event->found matches FolderLookup::Folder(folder) && r.action->Survey_folder@ == folder@),
        r.action is Read ==> r.run is Reading && r.run->Reading_folder@ == r.action->Read_folder@,
        run is Reading && r.run is Embedding ==> r.run->build.root() == run->Reading_folder@,
        run is Embedding && r.run is Embedding ==> r.run->build.root() == run->build.root(),
        r.run is Over <==> !(r.action is Survey || r.action is Read || r.action is Embed),
{
}

/// Every batch is as big as it can be: twenty-four texts, or all that are left, and at least
/// one.
pub proof fn law_requests_are_full(run: IndexRun, root: Seq<u8>, event: IndexEvent, r: IndexStep)
    requires
        run.cleared(root),
        outcome(run, root, event, r),
        r.action is Embed,
    ensures
        r.run is Embedding,
        ({
            let left = r.run->build.planned().len() - r.run->build.chunks().len();
            &&& left > 0
            &&& r.action->texts@.len() == if left > 24 {
                24
            } else {
                left
            }
        }),
{
    let t = r.action->texts@;
    let b = r.run->build;
    assert(views(t).len() == t.len());
    assert(views(t) == texts(batch(b.planned(), b.chunks().len() as int)));
}

/// Progress is told exactly when a batch has been taken in, as the number of texts embedded by
/// then and the number of all. A batch of the wrong size is told as what it is.
pub proof fn law_progress_is_told(run: IndexRun, root: Seq<u8>, event: IndexEvent, r: IndexStep)
    requires
        outcome(run, root, event, r),
    ensures
        r.progress is Some <==> run is Embedding && event is Embedded && !(r.action is Failed),
        r.progress matches Some(p) ==> p.0 == run->build.chunks().len() + event->vectors@.len() && p.1
            == run->build.planned().len(),
        run is Embedding && event is Embedded && r.action is Failed ==> r.action->Failed_reason@
            == "ollama error: "@ + embedding_mismatch(
            batch(run->build.planned(), run->build.chunks().len() as int).len(),
            event->vectors@.len(),
        ),
{
}

} // verus!
