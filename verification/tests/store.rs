//! Tag graph and reconciliation behaviour.

use flashbang::store::CardStore;

fn v(s: &str) -> Vec<u8> {
    s.as_bytes().to_vec()
}

#[test]
fn tags_with_equal_names_under_different_paths_stay_distinct() {
    let mut store = CardStore::new();
    let t1 = store.tag(&v("Maths.Algebra.Field"));
    let t2 = store.tag(&v("Maths.Calculus.Field"));
    assert_ne!(t1, t2);
    assert_eq!(store.tag_name(t1), &v("Field"));
    assert_eq!(store.tag_name(t2), &v("Field"));
    assert_eq!(store.tag_path(t1), &v("Maths.Algebra.Field"));
    assert_eq!(store.tag_path(t2), &v("Maths.Calculus.Field"));
}

#[test]
fn tag_is_memoized_per_full_path() {
    let mut store = CardStore::new();
    let t1 = store.tag(&v("Maths.Algebra"));
    let t2 = store.tag(&v("Maths.Algebra"));
    assert_eq!(t1, t2);
}

#[test]
fn tag_creates_and_links_every_prefix() {
    let mut store = CardStore::new();
    let leaf = store.tag(&v("Maths.Algebra.Field"));
    let maths = store.tag(&v("Maths"));
    let algebra = store.tag(&v("Maths.Algebra"));
    assert!(store.roots().contains(&maths));
    assert!(store.children_of(maths).contains(&algebra));
    assert!(store.children_of(algebra).contains(&leaf));
    assert!(!store.roots().contains(&algebra));
}

#[test]
fn registered_card_fills_direct_and_indirect_sets() {
    let mut store = CardStore::new();
    store
        .load(&v("#card(\"c1\", \"C1\", (\"Maths.Algebra.Field\"))\nq #answer a"))
        .expect("load must succeed");
    let card = store.find_card(&v("c1")).expect("card must exist");
    let maths = store.tag(&v("Maths"));
    let algebra = store.tag(&v("Maths.Algebra"));
    let field = store.tag(&v("Maths.Algebra.Field"));
    assert!(store.direct_cards_of(field).contains(&card));
    assert!(!store.direct_cards_of(algebra).contains(&card));
    assert!(!store.direct_cards_of(maths).contains(&card));
    assert!(store.indirect_cards_of(field).contains(&card));
    assert!(store.indirect_cards_of(algebra).contains(&card));
    assert!(store.indirect_cards_of(maths).contains(&card));
}

#[test]
fn card_with_two_locations_is_direct_at_both_leaves() {
    let mut store = CardStore::new();
    store
        .load(&v("#card(\"c1\", \"C1\", (\"A.B\", \"C\"))\nq #answer a"))
        .expect("load must succeed");
    let card = store.find_card(&v("c1")).expect("card must exist");
    let ab = store.tag(&v("A.B"));
    let c = store.tag(&v("C"));
    assert!(store.direct_cards_of(ab).contains(&card));
    assert!(store.direct_cards_of(c).contains(&card));
}

#[test]
fn reloading_the_same_id_overwrites_the_card() {
    let mut store = CardStore::new();
    store
        .load(&v("#card(\"c1\", \"Old\", (\"A\"))\nold q #answer old a"))
        .expect("load");
    store
        .load(&v("#card(\"c1\", \"New\", (\"B\"))\nnew q #answer new a"))
        .expect("load");
    let slot = store.find_card(&v("c1")).expect("present");
    let card = store.card(slot).expect("live");
    assert_eq!(card.name, v("New"));
    assert_eq!(card.locations, vec![v("B")]);
    assert_eq!(store.cards().len(), 1);
}

#[test]
fn last_record_wins_within_one_file() {
    let mut store = CardStore::new();
    store
        .load(&v(
            "#card(\"c1\", \"First\", (\"A\"))\nq1 #answer a1\n#card(\"c1\", \"Second\", (\"B\"))\nq2 #answer a2",
        ))
        .expect("load");
    let slot = store.find_card(&v("c1")).expect("present");
    assert_eq!(store.card(slot).expect("live").name, v("Second"));
    assert_eq!(store.cards().len(), 1);
}

#[test]
fn collect_garbage_removes_only_unobserved_cards() {
    let mut store = CardStore::new();
    store.load(&v("#card(\"a\", \"A\", (\"X\"))\nq #answer a")).expect("load");
    store.load(&v("#card(\"b\", \"B\", (\"X\"))\nq #answer a")).expect("load");
    store.load(&v("#card(\"c\", \"C\", (\"Y\"))\nq #answer a")).expect("load");
    store.mark_cards_for_garbage_collection();
    store.load(&v("#card(\"a\", \"A\", (\"X\"))\nq #answer a")).expect("load");
    store.load(&v("#card(\"c\", \"C\", (\"Y\"))\nq #answer a")).expect("load");
    store.collect_garbage();
    assert!(store.find_card(&v("a")).is_some());
    assert!(store.find_card(&v("b")).is_none());
    assert!(store.find_card(&v("c")).is_some());
    assert_eq!(store.cards().len(), 2);
}

#[test]
fn tags_survive_even_when_their_cards_are_collected() {
    let mut store = CardStore::new();
    store.load(&v("#card(\"a\", \"A\", (\"Old.Place\"))\nq #answer a")).expect("load");
    store.mark_cards_for_garbage_collection();
    store.collect_garbage();
    let t = store.tag(&v("Old.Place"));
    assert_eq!(store.tag_path(t), &v("Old.Place"));
    assert!(store.direct_cards_of(t).is_empty());
}

#[test]
fn parse_failure_leaves_the_store_untouched() {
    let mut store = CardStore::new();
    store.load(&v("#card(\"a\", \"A\", (\"X\"))\nq #answer a")).expect("load");
    let before = store.cards().len();
    assert!(store.load(&v("#card(broken")).is_err());
    assert_eq!(store.cards().len(), before);
    assert!(store.find_card(&v("a")).is_some());
}

#[test]
fn headers_from_one_file_share_identity_but_files_differ() {
    let mut store = CardStore::new();
    let file = "//![FLASHBANG HEADER]\nshared\n#card(\"a\", \"A\", (\"X\"))\nq #answer a\n#card(\"b\", \"B\", (\"X\"))\nq #answer a";
    store.load(&v(file)).expect("load");
    store
        .load(&v("//![FLASHBANG HEADER]\nshared\n#card(\"c\", \"C\", (\"X\"))\nq #answer a"))
        .expect("load");
    let a = store.card(store.find_card(&v("a")).unwrap()).unwrap();
    let b = store.card(store.find_card(&v("b")).unwrap()).unwrap();
    let c = store.card(store.find_card(&v("c")).unwrap()).unwrap();
    let ha = a.header.as_ref().expect("a has header");
    let hb = b.header.as_ref().expect("b has header");
    let hc = c.header.as_ref().expect("c has header");
    assert!(ha.same_as(hb));
    assert!(!ha.same_as(hc));
    assert_eq!(ha.content.inner, hc.content.inner);
}
