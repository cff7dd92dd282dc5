use chatbot::governance::{
    evidence_floor, Budget, EvidenceGate, FolderLookup, IndexReceipt, Refusal, RefusalCode, Store,
    StoreLookup, MAX_CHUNKS, MAX_FILES, STORE_DIR,
};
use chatbot::single::Single;

fn single(x: f32) -> Single {
    Single::from_bits(x.to_bits())
}

fn store() -> Store {
    let root = b"/srv/base/knowledgestore".to_vec();
    Store::discover(b"/srv/base", StoreLookup::Resolved(root)).unwrap()
}

#[test]
fn missing_store_is_refused_not_created() {
    let refusal = Store::discover(b"/tmp/base", StoreLookup::Absent).unwrap_err();
    assert_eq!(refusal.code, RefusalCode::NoStoreConfigured);
    assert!(refusal.remedy.contains("mkdir"));
    assert_eq!(refusal.detail, "no knowledge store at /tmp/base/knowledgestore");
    assert_eq!(refusal.remedy, "create it with: mkdir -p /tmp/base/knowledgestore");
}

#[test]
fn a_store_that_cannot_be_resolved_is_refused() {
    let found = StoreLookup::Unresolved("permission denied".to_string());
    let refusal = Store::discover(b"base/", found).unwrap_err();
    assert_eq!(refusal.code, RefusalCode::NoStoreConfigured);
    assert_eq!(refusal.detail, "could not resolve base/knowledgestore: permission denied");
    assert_eq!(refusal.remedy, "check the folder is readable");
}

#[test]
fn the_store_is_looked_for_below_the_base() {
    assert_eq!(STORE_DIR, "knowledgestore");
    assert_eq!(Store::location(b"/x"), b"/x/knowledgestore".to_vec());
    assert_eq!(Store::location(b"."), b"./knowledgestore".to_vec());
}

#[test]
fn the_store_root_admits_itself() {
    let store = store();
    let root = store.root().to_vec();
    assert!(store.admit_folder(&root, FolderLookup::Folder(root.clone())).is_ok());
}

#[test]
fn subfolders_of_the_store_are_admitted() {
    let store = store();
    let sub = b"/srv/base/knowledgestore/halcyon".to_vec();
    assert_eq!(
        store.admit_folder(&sub, FolderLookup::Folder(sub.clone())).unwrap(),
        sub
    );
}

#[test]
fn traversal_out_of_the_store_is_refused() {
    let store = store();
    // Textually under the root, resolves well outside it.
    let escape = b"/srv/base/knowledgestore/../..".to_vec();
    let refusal = store
        .admit_folder(&escape, FolderLookup::Folder(b"/srv".to_vec()))
        .unwrap_err();
    assert_eq!(refusal.code, RefusalCode::OutsideStore);
    assert_eq!(refusal.detail, "/srv is outside the knowledge store");
    assert_eq!(refusal.remedy, "put the files inside /srv/base/knowledgestore first");
}

#[test]
fn absolute_paths_outside_the_store_are_refused() {
    let store = store();
    let refusal = store
        .admit_folder(b"/etc", FolderLookup::Folder(b"/etc".to_vec()))
        .unwrap_err();
    assert_eq!(refusal.code, RefusalCode::OutsideStore);
}

#[test]
fn a_symlink_pointing_outside_the_store_is_refused() {
    let store = store();
    let link = b"/srv/base/knowledgestore/escape".to_vec();
    let refusal = store
        .admit_folder(&link, FolderLookup::Folder(b"/etc".to_vec()))
        .unwrap_err();
    assert_eq!(refusal.code, RefusalCode::OutsideStore);
}

#[test]
fn a_folder_that_only_shares_a_name_prefix_is_outside() {
    let store = store();
    let near = b"/srv/base/knowledgestore2".to_vec();
    let refusal = store
        .admit_folder(&near, FolderLookup::Folder(near.clone()))
        .unwrap_err();
    assert_eq!(refusal.code, RefusalCode::OutsideStore);
}

#[test]
fn what_is_no_folder_is_refused() {
    let store = store();
    let refusal = store.admit_folder(b"nowhere", FolderLookup::Missing).unwrap_err();
    assert_eq!(refusal.code, RefusalCode::NotAFolder);
    assert_eq!(refusal.detail, "no such folder: nowhere");
    assert_eq!(refusal.remedy, "choose a folder inside /srv/base/knowledgestore");

    let file = b"/srv/base/knowledgestore/a.md".to_vec();
    let refusal = store
        .admit_folder(b"a.md", FolderLookup::NotAFolder(file))
        .unwrap_err();
    assert_eq!(refusal.code, RefusalCode::NotAFolder);
    assert_eq!(refusal.detail, "not a folder: /srv/base/knowledgestore/a.md");
    assert_eq!(refusal.remedy, "choose a folder inside /srv/base/knowledgestore");
}

#[test]
fn paths_that_are_no_text_are_shown_all_the_same() {
    let store = store();
    let refusal = store.admit_folder(b"no\xffwhere", FolderLookup::Missing).unwrap_err();
    assert_eq!(refusal.detail, "no such folder: no\u{fffd}where");
}

#[test]
fn budget_admits_within_limits_and_refuses_beyond() {
    assert!(Budget::admit_walk(10, 100).is_ok());

    let too_many_files = Budget::admit_walk(MAX_FILES + 1, 10).unwrap_err();
    assert_eq!(too_many_files.code, RefusalCode::OverBudget);

    let too_many_chunks = Budget::admit_walk(10, MAX_CHUNKS + 1).unwrap_err();
    assert_eq!(too_many_chunks.code, RefusalCode::OverBudget);
}

#[test]
fn the_budget_limits_themselves_are_admitted() {
    assert_eq!(MAX_FILES, 500);
    assert_eq!(MAX_CHUNKS, 4000);
    assert!(Budget::admit_walk(0, 0).is_ok());
    assert!(Budget::admit_walk(MAX_FILES, MAX_CHUNKS).is_ok());
    let files = Budget::admit_walk(501, 9999).unwrap_err();
    assert_eq!(files.detail, "501 files exceeds the 500-file budget");
    let chunks = Budget::admit_walk(500, 4001).unwrap_err();
    assert_eq!(chunks.detail, "~4001 chunks exceeds the 4000-chunk budget");
    assert_eq!(chunks.remedy, "index a narrower subfolder of the knowledge store");
}

#[test]
fn evidence_gate_refuses_empty_retrieval() {
    let refusal = EvidenceGate::admit_evidence(&[], single(0.0)).unwrap_err();
    assert_eq!(refusal.code, RefusalCode::NoEvidenceRetrieved);
}

#[test]
fn evidence_gate_refuses_below_the_floor() {
    let refusal = EvidenceGate::admit_evidence(&[], single(0.10)).unwrap_err();
    assert_eq!(refusal.code, RefusalCode::NoEvidenceRetrieved);
}

#[test]
fn a_refusal_reports_the_score_it_actually_saw() {
    let refusal = EvidenceGate::admit_evidence(&[], single(0.18)).unwrap_err();
    assert!(
        refusal.detail.contains("0.18"),
        "refusal should report the pre-filter score, got: {}",
        refusal.detail
    );
    assert_eq!(
        refusal.detail,
        "nothing in the indexed files is related to that (best match 0.18, floor 0.35)"
    );
    assert_eq!(
        refusal.remedy,
        "index the folder that covers this topic, or ask about something in it"
    );
}

#[test]
fn the_documented_correct_refusal_is_still_admitted() {
    let readme_case = [
        ("DEPLOYMENT_TRUTH.md".to_string(), single(0.56)),
        ("CONSTITUTIONAL_PROTOCOL.md".to_string(), single(0.50)),
    ];
    assert!(EvidenceGate::admit_evidence(&readme_case, single(0.56)).is_ok());
}

#[test]
fn the_floor_itself_is_evidence() {
    assert_eq!(evidence_floor(), single(0.35));
    let cited = [("a.md".to_string(), single(0.35))];
    assert!(EvidenceGate::admit_evidence(&cited, single(0.35)).is_ok());
    let just_below = Single::from_bits(0.35f32.to_bits() - 1);
    assert!(EvidenceGate::admit_evidence(&cited, just_below).is_err());
    assert!(EvidenceGate::admit_evidence(&[], single(0.9)).is_err());
    // A score that is no number is not below anything.
    assert!(EvidenceGate::admit_evidence(&cited, single(f32::NAN)).is_ok());
}

#[test]
fn reason_codes_are_stable_strings() {
    assert_eq!(RefusalCode::OutsideStore.as_str(), "outside_store");
    assert_eq!(RefusalCode::OverBudget.as_str(), "over_budget");
    assert_eq!(
        RefusalCode::NoEvidenceRetrieved.as_str(),
        "no_evidence_retrieved"
    );
}

#[test]
fn the_other_reason_codes() {
    assert_eq!(RefusalCode::NoStoreConfigured.as_str(), "no_store_configured");
    assert_eq!(RefusalCode::NotAFolder.as_str(), "not_a_folder");
}

#[test]
fn a_refusal_reads_as_detail_and_code() {
    let refusal = Refusal::new(
        RefusalCode::OverBudget,
        "too much".to_string(),
        "less".to_string(),
    );
    assert_eq!(refusal.describe(), "too much (over_budget)");
}

#[test]
fn a_receipt_reads_on_one_line() {
    let receipt = IndexReceipt {
        root: b"/srv/notes".to_vec(),
        files: 5,
        chunks: 77,
        seconds: single(15.04),
    };
    assert_eq!(receipt.describe(), "5 files / 77 chunks from /srv/notes in 15.0s");
}
