//! The governance layer: what may be indexed, and what may be answered.
//!
//! This is the single place where a request is *admitted* or *refused*. Two properties are
//! load-bearing:
//!
//! 1. **A refusal is not a failure.** A [`Refusal`] carries a machine-readable code and a
//!    remedy the caller can act on; it is no kind of error.
//! 2. **Deny by default.** Absent configuration means refuse. A missing knowledge store is
//!    reported with the exact command that fixes it, never created.

use vstd::prelude::*;
#[allow(unused_imports)]
use vstd::string::*;

#[allow(unused_imports)]
use crate::paths::{components, joined_to, lemma_within_chain, read_as_is, utf8_lossy, within};
use crate::paths::{join, lossy, starts_with};
use crate::single::Single;
#[allow(unused_imports)]
use crate::text::decimal;
use crate::text::{decimal_text, owned, push_decimal};

verus! {

/// The folder that holds everything this chatbot is allowed to read.
pub const STORE_DIR: &'static str = "knowledgestore";

/// Refuse to index a tree with more files than this.
pub const MAX_FILES: usize = 500;

/// Refuse to index a tree that would produce more chunks than this.
pub const MAX_CHUNKS: usize = 4_000;

/// Below this similarity, retrieval found nothing worth calling evidence: 0.35, as a bit pattern.
pub const EVIDENCE_FLOOR_BITS: u32 = 0x3eb3_3333;

/// The evidence floor.
pub open spec fn floor() -> Single {
    Single { bits: EVIDENCE_FLOOR_BITS }
}

/// The evidence floor: the one similarity cutoff, for retrieval and for admission alike.
pub fn evidence_floor() -> (r: Single)
    ensures
        r == floor(),
{
    Single::from_bits(EVIDENCE_FLOOR_BITS)
}

// ---------------------------------------------------------------------------
// Refusals
// ---------------------------------------------------------------------------

/// Why something was refused.
#[derive(Debug, Clone, Copy, PartialEq, Eq, Structural)]
pub enum RefusalCode {
    /// The knowledge store folder does not exist.
    NoStoreConfigured,
    /// The requested path resolves outside the knowledge store.
    OutsideStore,
    /// The requested path is not a folder.
    NotAFolder,
    /// Indexing that folder would exceed the file or chunk budget.
    OverBudget,
    /// Retrieval returned nothing above the evidence floor.
    NoEvidenceRetrieved,
}

impl RefusalCode {
    /// The stable string form.
    pub open spec fn text(self) -> Seq<char> {
        match self {
            RefusalCode::NoStoreConfigured => "no_store_configured"@,
            RefusalCode::OutsideStore => "outside_store"@,
            RefusalCode::NotAFolder => "not_a_folder"@,
            RefusalCode::OverBudget => "over_budget"@,
            RefusalCode::NoEvidenceRetrieved => "no_evidence_retrieved"@,
        }
    }

    /// The stable string form, for JSON and for tests. It is written out here, so renaming a
    /// variant cannot change it.
    pub fn as_str(self) -> (r: &'static str)
        ensures
            r@ == self.text(),
    {
        match self {
            RefusalCode::NoStoreConfigured => "no_store_configured",
            RefusalCode::OutsideStore => "outside_store",
            RefusalCode::NotAFolder => "not_a_folder",
            RefusalCode::OverBudget => "over_budget",
            RefusalCode::NoEvidenceRetrieved => "no_evidence_retrieved",
        }
    }
}

/// The string forms tell the codes apart.
pub proof fn law_codes_are_distinct(a: RefusalCode, b: RefusalCode)
    requires
        a != b,
    ensures
        a.text() != b.text(),
{
    reveal_strlit("no_store_configured");
    reveal_strlit("outside_store");
    reveal_strlit("not_a_folder");
    reveal_strlit("over_budget");
    reveal_strlit("no_evidence_retrieved");
    assert(a.text().len() != b.text().len());
}

/// A governance decision to decline. Carries what happened and what would fix it.
#[derive(Debug, Clone)]
pub struct Refusal {
    pub code: RefusalCode,
    pub detail: String,
    pub remedy: String,
}

/// What a refusal says.
pub struct RefusalView {
    pub code: RefusalCode,
    pub detail: Seq<char>,
    pub remedy: Seq<char>,
}

impl View for Refusal {
    type V = RefusalView;

    open spec fn view(&self) -> RefusalView {
        RefusalView { code: self.code, detail: self.detail@, remedy: self.remedy@ }
    }
}

impl Refusal {
    /// A refusal with this code, detail and remedy.
    pub fn new(code: RefusalCode, detail: String, remedy: String) -> (r: Self)
        ensures
            r@ == (RefusalView { code, detail: detail@, remedy: remedy@ }),
    {
        Refusal { code, detail, remedy }
    }

    /// The detail, with the code in brackets.
    pub fn describe(&self) -> (r: String)
        ensures
            r@ == self@.detail + " ("@ + self@.code.text() + ")"@,
    {
        let mut r = owned(self.detail.as_str());
        r.append(" (");
        r.append(self.code.as_str());
        r.append(")");
        r
    }
}

// ---------------------------------------------------------------------------
// The knowledge store
// ---------------------------------------------------------------------------

/// The admitted corpus boundary: a resolved folder that all reads stay inside.
#[derive(Debug, Clone)]
pub struct Store {
    root: Vec<u8>,
}

/// What the file system says of the folder where the store should be.
pub enum StoreLookup {
    /// It is not there, or is no folder.
    Absent,
    /// It is a folder, but its path cannot be resolved, for this reason.
    Unresolved(String),
    /// It is a folder, and this is its path with every link and dot resolved.
    Resolved(Vec<u8>),
}

/// What the file system says of a requested folder.
pub enum FolderLookup {
    /// Its path cannot be resolved.
    Missing,
    /// Its path resolves to this, which is no folder.
    NotAFolder(Vec<u8>),
    /// Its path resolves to this folder.
    Folder(Vec<u8>),
}

/// Where the store is, seen from `base`.
pub open spec fn store_path(base: Seq<u8>) -> Seq<u8> {
    joined_to(base, STORE_DIR.spec_bytes())
}

/// The refusal where there is no store, `place` being where it should be.
pub open spec fn no_store(place: Seq<char>) -> RefusalView {
    RefusalView {
        code: RefusalCode::NoStoreConfigured,
        detail: "no knowledge store at "@ + place,
        remedy: "create it with: mkdir -p "@ + place,
    }
}

/// The refusal where the store's own path cannot be resolved.
pub open spec fn unreadable_store(place: Seq<char>, reason: Seq<char>) -> RefusalView {
    RefusalView {
        code: RefusalCode::NoStoreConfigured,
        detail: "could not resolve "@ + place + ": "@ + reason,
        remedy: "check the folder is readable"@,
    }
}

/// The refusal of a path that leads nowhere.
pub open spec fn no_such_folder(requested: Seq<char>, root: Seq<char>) -> RefusalView {
    RefusalView {
        code: RefusalCode::NotAFolder,
        detail: "no such folder: "@ + requested,
        remedy: "choose a folder inside "@ + root,
    }
}

/// The refusal of a path that leads to something else than a folder.
pub open spec fn not_a_folder(resolved: Seq<char>, root: Seq<char>) -> RefusalView {
    RefusalView {
        code: RefusalCode::NotAFolder,
        detail: "not a folder: "@ + resolved,
        remedy: "choose a folder inside "@ + root,
    }
}

/// The refusal of a folder outside the store.
pub open spec fn outside_store(resolved: Seq<char>, root: Seq<char>) -> RefusalView {
    RefusalView {
        code: RefusalCode::OutsideStore,
        detail: resolved + " is outside the knowledge store"@,
        remedy: "put the files inside "@ + root + " first"@,
    }
}

/// The refusal where there is no store.
pub fn refuse_absent_store(place: &str) -> (r: Refusal)
    ensures
        r@ == no_store(place@),
{
    Refusal::new(
        RefusalCode::NoStoreConfigured,
        owned("no knowledge store at ").concat(place),
        owned("create it with: mkdir -p ").concat(place),
    )
}

/// The refusal where the store's own path cannot be resolved.
pub fn refuse_unreadable_store(place: &str, reason: &str) -> (r: Refusal)
    ensures
        r@ == unreadable_store(place@, reason@),
{
    Refusal::new(
        RefusalCode::NoStoreConfigured,
        owned("could not resolve ").concat(place).concat(": ").concat(reason),
        owned("check the folder is readable"),
    )
}

/// The refusal of a path that leads nowhere.
pub fn refuse_missing(requested: &str, root: &str) -> (r: Refusal)
    ensures
        r@ == no_such_folder(requested@, root@),
{
    Refusal::new(
        RefusalCode::NotAFolder,
        owned("no such folder: ").concat(requested),
        owned("choose a folder inside ").concat(root),
    )
}

/// The refusal of a path that leads to something else than a folder.
pub fn refuse_non_folder(resolved: &str, root: &str) -> (r: Refusal)
    ensures
        r@ == not_a_folder(resolved@, root@),
{
    Refusal::new(
        RefusalCode::NotAFolder,
        owned("not a folder: ").concat(resolved),
        owned("choose a folder inside ").concat(root),
    )
}

/// The refusal of a folder outside the store.
pub fn refuse_outside(resolved: &str, root: &str) -> (r: Refusal)
    ensures
        r@ == outside_store(resolved@, root@),
{
    Refusal::new(
        RefusalCode::OutsideStore,
        owned(resolved).concat(" is outside the knowledge store"),
        owned("put the files inside ").concat(root).concat(" first"),
    )
}

/// What becomes of a request for a folder, `root` being the store.
pub open spec fn admission(
    root: Seq<u8>,
    requested: Seq<u8>,
    found: FolderLookup,
) -> Result<Seq<u8>, RefusalView> {
    match found {
        FolderLookup::Missing => Err(no_such_folder(utf8_lossy(requested), utf8_lossy(root))),
        FolderLookup::NotAFolder(resolved) => Err(
            not_a_folder(utf8_lossy(resolved@), utf8_lossy(root)),
        ),
        FolderLookup::Folder(resolved) => if within(resolved@, root) {
            Ok(resolved@)
        } else {
            Err(outside_store(utf8_lossy(resolved@), utf8_lossy(root)))
        },
    }
}

impl Store {
    /// The store root itself.
    pub closed spec fn root_path(self) -> Seq<u8> {
        self.root@
    }

    /// Where to look for the store, seen from `base`.
    pub fn location(base: &[u8]) -> (r: Vec<u8>)
        ensures
            r@ == store_path(base@),
    {
        join(base, STORE_DIR.as_bytes())
    }

    /// Locate the knowledge store, or refuse. `found` is what the file system says of
    /// [`Store::location`].
    pub fn discover(base: &[u8], found: StoreLookup) -> (r: Result<Store, Refusal>)
        ensures
            match found {
                StoreLookup::Absent => r is Err && r->Err_0@ == no_store(
                    utf8_lossy(store_path(base@)),
                ),
                StoreLookup::Unresolved(reason) => r is Err && r->Err_0@ == unreadable_store(
                    utf8_lossy(store_path(base@)),
                    reason@,
                ),
                StoreLookup::Resolved(root) => r is Ok && r->Ok_0.root_path() == root@,
            },
            read_as_is(store_path(base@)),
    {
        let place = lossy(Store::location(base).as_slice());
        match found {
            StoreLookup::Absent => Err(refuse_absent_store(place.as_str())),
            StoreLookup::Unresolved(reason) => Err(
                refuse_unreadable_store(place.as_str(), reason.as_str()),
            ),
            StoreLookup::Resolved(root) => Ok(Store { root }),
        }
    }

    /// The store root itself.
    pub fn root(&self) -> (r: &[u8])
        ensures
            r@ == self.root_path(),
    {
        self.root.as_slice()
    }

    /// Admit a requested folder, or refuse it. `found` is what the file system says of it.
    ///
    /// The path is resolved first and compared afterwards, component by component: a path
    /// that is textually under the root but leads elsewhere is refused.
    pub fn admit_folder(&self, requested: &[u8], found: FolderLookup) -> (r: Result<Vec<u8>, Refusal>)
        ensures
            match admission(self.root_path(), requested@, found) {
                Ok(folder) => r is Ok && r->Ok_0@ == folder,
                Err(refusal) => r is Err && r->Err_0@ == refusal,
            },
            read_as_is(self.root_path()),
            match found {
                FolderLookup::Missing => read_as_is(requested@),
                FolderLookup::NotAFolder(resolved) => read_as_is(resolved@),
                FolderLookup::Folder(resolved) => within(resolved@, self.root_path()) || read_as_is(
                    resolved@,
                ),
            },
    {
        let root = lossy(self.root.as_slice());
        match found {
            FolderLookup::Missing => Err(refuse_missing(lossy(requested).as_str(), root.as_str())),
            FolderLookup::NotAFolder(resolved) => Err(
                refuse_non_folder(lossy(resolved.as_slice()).as_str(), root.as_str()),
            ),
            FolderLookup::Folder(resolved) => {
                if starts_with(resolved.as_slice(), self.root.as_slice()) {
                    Ok(resolved)
                } else {
                    Err(refuse_outside(lossy(resolved.as_slice()).as_str(), root.as_str()))
                }
            },
        }
    }
}

/// The corpus boundary: whatever is admitted lies at or below the store root.
pub proof fn law_admitted_folders_lie_inside(root: Seq<u8>, requested: Seq<u8>, found: FolderLookup)
    requires
        admission(root, requested, found) is Ok,
    ensures
        within(admission(root, requested, found)->Ok_0, root),
{
}

/// A folder outside the store is refused as such, however it was asked for.
pub proof fn law_outside_is_refused(root: Seq<u8>, requested: Seq<u8>, resolved: Vec<u8>)
    requires
        !within(resolved@, root),
    ensures
        admission(root, requested, FolderLookup::Folder(resolved)) is Err,
        admission(root, requested, FolderLookup::Folder(resolved))->Err_0.code
            == RefusalCode::OutsideStore,
{
}

/// The store root admits itself.
pub proof fn law_root_admits_itself(root: Vec<u8>)
    ensures
        admission(root@, root@, FolderLookup::Folder(root)) == Ok::<Seq<u8>, RefusalView>(root@),
{
    assert(components(root@).take(components(root@).len() as int) =~= components(root@));
}

/// What lies inside an admitted folder is admitted too.
pub proof fn law_subfolders_are_admitted(
    root: Seq<u8>,
    requested: Seq<u8>,
    folder: Vec<u8>,
    below: Vec<u8>,
)
    requires
        admission(root, requested, FolderLookup::Folder(folder)) is Ok,
        within(below@, folder@),
    ensures
        admission(root, below@, FolderLookup::Folder(below)) == Ok::<Seq<u8>, RefusalView>(below@),
{
    lemma_within_chain(below@, folder@, root);
}

// ---------------------------------------------------------------------------
// The indexing budget
// ---------------------------------------------------------------------------

/// The admission decision for an indexing request, made from a cheap walk before any
/// embedding happens.
pub struct Budget;

/// The remedy for a folder that is too big.
pub open spec fn narrower() -> Seq<char> {
    "index a narrower subfolder of the knowledge store"@
}

/// What the budget says of a walk result: a refusal, or nothing.
pub open spec fn over_budget(files: nat, chunks: nat) -> Option<RefusalView> {
    if files > MAX_FILES {
        Some(
            RefusalView {
                code: RefusalCode::OverBudget,
                detail: decimal(files) + " files exceeds the "@ + decimal(MAX_FILES as nat)
                    + "-file budget"@,
                remedy: narrower(),
            },
        )
    } else if chunks > MAX_CHUNKS {
        Some(
            RefusalView {
                code: RefusalCode::OverBudget,
                detail: "~"@ + decimal(chunks) + " chunks exceeds the "@ + decimal(
                    MAX_CHUNKS as nat,
                ) + "-chunk budget"@,
                remedy: narrower(),
            },
        )
    } else {
        None
    }
}

impl Budget {
    /// Admit or refuse a walk result against the budget.
    pub fn admit_walk(files: usize, estimated_chunks: usize) -> (r: Result<(), Refusal>)
        ensures
            match over_budget(files as nat, estimated_chunks as nat) {
                None => r is Ok,
                Some(refusal) => r is Err && r->Err_0@ == refusal,
            },
    {
        if files > MAX_FILES {
            let mut detail = decimal_text(files);
            detail.append(" files exceeds the ");
            push_decimal(&mut detail, MAX_FILES as u128);
            detail.append("-file budget");
            return Err(
                Refusal::new(
                    RefusalCode::OverBudget,
                    detail,
                    owned("index a narrower subfolder of the knowledge store"),
                ),
            );
        }
        if estimated_chunks > MAX_CHUNKS {
            let mut detail = owned("~");
            push_decimal(&mut detail, estimated_chunks as u128);
            detail.append(" chunks exceeds the ");
            push_decimal(&mut detail, MAX_CHUNKS as u128);
            detail.append("-chunk budget");
            return Err(
                Refusal::new(
                    RefusalCode::OverBudget,
                    detail,
                    owned("index a narrower subfolder of the knowledge store"),
                ),
            );
        }
        Ok(())
    }
}

/// The budget admits exactly what stays within both limits.
pub proof fn law_budget_is_both_limits(files: nat, chunks: nat)
    ensures
        over_budget(files, chunks) is None <==> files <= MAX_FILES && chunks <= MAX_CHUNKS,
        over_budget(files, chunks) is Some ==> over_budget(files, chunks)->0.code
            == RefusalCode::OverBudget,
{
}

// ---------------------------------------------------------------------------
// Evidence
// ---------------------------------------------------------------------------

/// What stands between retrieval and the model.
pub struct EvidenceGate;

/// The refusal where retrieval found nothing worth calling evidence.
pub open spec fn no_evidence(best: Single) -> RefusalView {
    RefusalView {
        code: RefusalCode::NoEvidenceRetrieved,
        detail: "nothing in the indexed files is related to that (best match "@ + best.shown(2)
            + ", floor "@ + floor().shown(2) + ")"@,
        remedy: "index the folder that covers this topic, or ask about something in it"@,
    }
}

/// Whether there is evidence: something is cited, and the best match is not below the floor.
pub open spec fn has_evidence(cited: nat, best: Single) -> bool {
    cited > 0 && !best.below(floor())
}

impl EvidenceGate {
    /// Admit retrieved evidence, or refuse to answer from it. `best` is the highest
    /// similarity seen *before* the floor was applied, so the refusal reports what actually
    /// happened.
    pub fn admit_evidence(sources: &[(String, Single)], best: Single) -> (r: Result<(), Refusal>)
        ensures
            r is Ok <==> has_evidence(sources@.len(), best),
            r is Err ==> r->Err_0@ == no_evidence(best),
    {
        if sources.len() == 0 || best.less(evidence_floor()) {
            let mut detail = owned("nothing in the indexed files is related to that (best match ");
            detail.append(best.fixed(2).as_str());
            detail.append(", floor ");
            detail.append(evidence_floor().fixed(2).as_str());
            detail.append(")");
            return Err(
                Refusal::new(
                    RefusalCode::NoEvidenceRetrieved,
                    detail,
                    owned("index the folder that covers this topic, or ask about something in it"),
                ),
            );
        }
        Ok(())
    }
}

/// Every refusal says what would satisfy it.
pub proof fn law_refusals_carry_a_remedy(
    place: Seq<char>,
    reason: Seq<char>,
    root: Seq<u8>,
    requested: Seq<u8>,
    found: FolderLookup,
    files: nat,
    chunks: nat,
    best: Single,
)
    ensures
        no_store(place).remedy.len() > 0,
        unreadable_store(place, reason).remedy.len() > 0,
        admission(root, requested, found) is Err ==> admission(
            root,
            requested,
            found,
        )->Err_0.remedy.len() > 0,
        over_budget(files, chunks) is Some ==> over_budget(files, chunks)->0.remedy.len() > 0,
        no_evidence(best).remedy.len() > 0,
{
    reveal_strlit("create it with: mkdir -p ");
    reveal_strlit("check the folder is readable");
    reveal_strlit("choose a folder inside ");
    reveal_strlit("put the files inside ");
    reveal_strlit("index a narrower subfolder of the knowledge store");
    reveal_strlit("index the folder that covers this topic, or ask about something in it");
}

// ---------------------------------------------------------------------------
// Receipts
// ---------------------------------------------------------------------------

/// What an admitted index actually consumed: the receipt for the transition.
#[derive(Debug, Clone)]
pub struct IndexReceipt {
    pub root: Vec<u8>,
    pub files: usize,
    pub chunks: usize,
    pub seconds: Single,
}

/// How a receipt reads.
pub open spec fn receipt_text(
    root: Seq<char>,
    files: nat,
    chunks: nat,
    seconds: Single,
) -> Seq<char> {
    decimal(files) + " files / "@ + decimal(chunks) + " chunks from "@ + root + " in "@
        + seconds.shown(1) + "s"@
}

impl IndexReceipt {
    /// The receipt on one line.
    pub fn describe(&self) -> (r: String)
        ensures
            r@ == receipt_text(
                utf8_lossy(self.root@),
                self.files as nat,
                self.chunks as nat,
                self.seconds,
            ),
            read_as_is(self.root@),
    {
        let mut r = decimal_text(self.files);
        r.append(" files / ");
        push_decimal(&mut r, self.chunks as u128);
        r.append(" chunks from ");
        r.append(lossy(self.root.as_slice()).as_str());
        r.append(" in ");
        r.append(self.seconds.fixed(1).as_str());
        r.append("s");
        r
    }
}

// ---------------------------------------------------------------------------
// What decisions promise
// ---------------------------------------------------------------------------

/// A folder is admitted as what it resolves to, and exactly when its components are those of
/// the root followed by something or nothing. How it was asked for plays no part, unless it
/// leads nowhere.
pub proof fn law_admission_is_by_components(
    root: Seq<u8>,
    requested: Seq<u8>,
    other: Seq<u8>,
    folder: Vec<u8>,
)
    ensures
        admission(root, requested, FolderLookup::Folder(folder)) is Ok <==> exists|rest: Seq<Seq<u8>>|
            components(folder@) == #[trigger] (components(root) + rest),
        admission(root, requested, FolderLookup::Folder(folder)) matches Ok(admitted) ==> admitted
            == folder@,
        admission(root, requested, FolderLookup::Folder(folder)) == admission(
            root,
            other,
            FolderLookup::Folder(folder),
        ),
        admission(root, requested, FolderLookup::NotAFolder(folder)) is Err,
        admission(root, requested, FolderLookup::Missing) is Err,
{
    crate::parts::law_within_is_a_prefix(folder@, root);
}

/// What the refusals of a folder say.
pub proof fn law_refused_folders_are_told(root: Seq<u8>, requested: Seq<u8>, found: Vec<u8>)
    ensures
        admission(root, requested, FolderLookup::Missing) matches Err(r) ==> {
            &&& r.code == RefusalCode::NotAFolder
            &&& r.detail == "no such folder: "@ + utf8_lossy(requested)
            &&& r.remedy == "choose a folder inside "@ + utf8_lossy(root)
        },
        admission(root, requested, FolderLookup::NotAFolder(found)) matches Err(r) ==> {
            &&& r.code == RefusalCode::NotAFolder
            &&& r.detail == "not a folder: "@ + utf8_lossy(found@)
            &&& r.remedy == "choose a folder inside "@ + utf8_lossy(root)
        },
        admission(root, requested, FolderLookup::Folder(found)) matches Err(r) ==> {
            &&& r.code == RefusalCode::OutsideStore
            &&& r.detail == utf8_lossy(found@) + " is outside the knowledge store"@
            &&& r.remedy == "put the files inside "@ + utf8_lossy(root) + " first"@
        },
{
}

/// What the refusals of a store say; each names the place.
pub proof fn law_refused_stores_are_told(place: Seq<char>, reason: Seq<char>)
    ensures
        no_store(place).code == RefusalCode::NoStoreConfigured,
        no_store(place).detail == "no knowledge store at "@ + place,
        no_store(place).remedy == "create it with: mkdir -p "@ + place,
        unreadable_store(place, reason).code == RefusalCode::NoStoreConfigured,
        unreadable_store(place, reason).detail == "could not resolve "@ + place + ": "@ + reason,
        unreadable_store(place, reason).remedy == "check the folder is readable"@,
{
}

/// The store is the folder of this name, in whatever folder the program was started.
pub proof fn law_store_is_below_the_base(base: Seq<u8>)
    ensures
        store_path(base) == joined_to(base, "knowledgestore".spec_bytes()),
{
}

/// Up to five hundred files and four thousand chunks are admitted. Too many files are told
/// before too many chunks, and either is told with its number.
pub proof fn law_budget_is_told_in_numbers(files: nat, chunks: nat)
    ensures
        over_budget(files, chunks) is None <==> files <= 500 && chunks <= 4_000,
        over_budget(files, chunks) matches Some(r) ==> {
            &&& r.code == RefusalCode::OverBudget
            &&& r.detail == if files > 500 {
                decimal(files) + " files exceeds the "@ + decimal(500) + "-file budget"@
            } else {
                "~"@ + decimal(chunks) + " chunks exceeds the "@ + decimal(4_000) + "-chunk budget"@
            }
            &&& r.remedy == "index a narrower subfolder of the knowledge store"@
        },
{
}

/// There is evidence exactly when something is cited and the best match is not a number below
/// the floor. A refusal tells the best match.
pub proof fn law_evidence_is_cited_and_near(cited: nat, best: Single)
    ensures
        has_evidence(cited, best) <==> cited > 0 && (best.nan() || best.rank() >= 0x3eb3_3333),
        no_evidence(best).code == RefusalCode::NoEvidenceRetrieved,
        no_evidence(best).detail == "nothing in the indexed files is related to that (best match "@
            + best.shown(2) + ", floor "@ + (Single { bits: 0x3eb3_3333 }).shown(2) + ")"@,
        no_evidence(best).remedy
            == "index the folder that covers this topic, or ask about something in it"@,
{
}

/// A receipt tells how much was read from where, and how long it took.
pub proof fn law_receipt_tells_what_was_used(root: Seq<char>, files: nat, chunks: nat, seconds: Single)
    ensures
        receipt_text(root, files, chunks, seconds) == decimal(files) + " files / "@ + decimal(chunks)
            + " chunks from "@ + root + " in "@ + seconds.shown(1) + "s"@,
{
}

/// A refusal, by value, is what it is made of; its code reads as its name in lower case.
pub proof fn law_refusal_values(refusal: Refusal)
    ensures
        refusal@.code == refusal.code && refusal@.detail == refusal.detail@ && refusal@.remedy
            == refusal.remedy@,
        refusal.code is NoStoreConfigured ==> refusal.code.text() == "no_store_configured"@,
        refusal.code is OutsideStore ==> refusal.code.text() == "outside_store"@,
        refusal.code is NotAFolder ==> refusal.code.text() == "not_a_folder"@,
        refusal.code is OverBudget ==> refusal.code.text() == "over_budget"@,
        refusal.code is NoEvidenceRetrieved ==> refusal.code.text() == "no_evidence_retrieved"@,
{
}

} // verus!
