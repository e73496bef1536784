//! Sync planning and the reconciliation pass.

use flashbang::store::CardStore;
use flashbang::sync::{plan_sync, sync_pass, wants_entry, SyncPlan, TreeItem};

fn v(s: &str) -> Vec<u8> {
    s.as_bytes().to_vec()
}

#[test]
fn matching_fingerprints_skip_the_refresh() {
    let plan = plan_sync(&v("abc123"), &v("abc123"));
    assert!(matches!(plan, SyncPlan::UseLocalMirror));
}

#[test]
fn differing_fingerprints_force_a_refresh() {
    let plan = plan_sync(&v("abc123"), &v("def456"));
    assert!(matches!(plan, SyncPlan::FullRefresh));
    let empty = plan_sync(&v(""), &v("abc123"));
    assert!(matches!(empty, SyncPlan::FullRefresh));
}

#[test]
fn only_card_file_blobs_take_part_in_a_sync() {
    let yes = TreeItem { path: v("dir/cards.typ"), sha: v("s1"), kind: v("blob") };
    let tree = TreeItem { path: v("dir/cards.typ"), sha: v("s2"), kind: v("tree") };
    let other = TreeItem { path: v("readme.md"), sha: v("s3"), kind: v("blob") };
    assert!(wants_entry(&yes));
    assert!(!wants_entry(&tree));
    assert!(!wants_entry(&other));
}

#[test]
fn pass_keeps_exactly_the_observed_cards() {
    let mut store = CardStore::new();
    let initial: Vec<(String, Vec<u8>)> = vec![
        ("seed.typ".to_string(), v(
            "#card(\"a\", \"A\", (\"X\"))\nq #answer 1\n#card(\"b\", \"B\", (\"X\"))\nq #answer 2\n#card(\"c\", \"C\", (\"Y\"))\nq #answer 3",
        )),
    ];
    let errors = sync_pass(&mut store, &initial, &v("sha-one"));
    assert!(errors.is_empty());
    assert_eq!(store.cards().len(), 3);

    let update: Vec<(String, Vec<u8>)> = vec![
        ("seed.typ".to_string(), v(
            "#card(\"a\", \"A\", (\"X\"))\nq #answer 1\n#card(\"c\", \"C\", (\"Y\"))\nq #answer 3",
        )),
    ];
    let errors = sync_pass(&mut store, &update, &v("sha-two"));
    assert!(errors.is_empty());
    assert!(store.find_card(&v("a")).is_some());
    assert!(store.find_card(&v("b")).is_none());
    assert!(store.find_card(&v("c")).is_some());
    assert_eq!(store.cards().len(), 2);
    assert_eq!(store.sha, v("sha-two"));
}

#[test]
fn pass_is_idempotent_on_identical_input() {
    let mut store = CardStore::new();
    let files: Vec<(String, Vec<u8>)> = vec![
        ("one.typ".to_string(), v("#card(\"a\", \"A\", (\"X\"))\nq #answer 1")),
        ("two.typ".to_string(), v("#card(\"b\", \"B\", (\"Y\"))\nq #answer 2")),
    ];
    sync_pass(&mut store, &files, &v("s"));
    let first: Vec<Vec<u8>> = store.cards().iter().map(|c| c.id.clone()).collect();
    sync_pass(&mut store, &files, &v("s"));
    let second: Vec<Vec<u8>> = store.cards().iter().map(|c| c.id.clone()).collect();
    assert_eq!(first.len(), 2);
    assert_eq!(first.len(), second.len());
    for id in &first {
        assert!(second.contains(id));
    }
}

#[test]
fn unaffected_cards_keep_their_memberships_across_a_pass() {
    let mut store = CardStore::new();
    let files: Vec<(String, Vec<u8>)> = vec![
        ("f.typ".to_string(), v(
            "#card(\"a\", \"A\", (\"Keep.Here\"))\nq #answer 1\n#card(\"b\", \"B\", (\"Drop.There\"))\nq #answer 2",
        )),
    ];
    sync_pass(&mut store, &files, &v("s1"));
    let update: Vec<(String, Vec<u8>)> = vec![
        ("f.typ".to_string(), v("#card(\"a\", \"A\", (\"Keep.Here\"))\nq #answer 1")),
    ];
    sync_pass(&mut store, &update, &v("s2"));
    let a = store.find_card(&v("a")).expect("a survives");
    let keep = store.tag(&v("Keep.Here"));
    let drop_leaf = store.tag(&v("Drop.There"));
    assert!(store.direct_cards_of(keep).contains(&a));
    assert!(store.indirect_cards_of(keep).contains(&a));
    assert!(store.direct_cards_of(drop_leaf).is_empty());
}

#[test]
fn per_file_errors_are_soft_and_name_the_file() {
    let mut store = CardStore::new();
    let files: Vec<(String, Vec<u8>)> = vec![
        ("good.typ".to_string(), v("#card(\"a\", \"A\", (\"X\"))\nq #answer 1")),
        ("bad.typ".to_string(), v("#card(broken")),
        ("also-good.typ".to_string(), v("#card(\"b\", \"B\", (\"Y\"))\nq #answer 2")),
    ];
    let errors = sync_pass(&mut store, &files, &v("s"));
    assert_eq!(errors.len(), 1);
    assert_eq!(errors[0].path, "bad.typ");
    assert!(store.find_card(&v("a")).is_some());
    assert!(store.find_card(&v("b")).is_some());
    let msg = errors[0].message();
    assert!(msg.contains("bad.typ"));
}
