//! Main-document synthesis: prelude, card blocks and header grouping.

use flashbang::cards::{CardInfo, Header, SourceConfig};
use flashbang::source::build_source;

fn v(s: &str) -> Vec<u8> {
    s.as_bytes().to_vec()
}

fn card(id: &str, name: &str, locations: Vec<&str>, header: Option<Header>) -> CardInfo {
    CardInfo {
        id: v(id),
        name: v(name),
        locations: locations.into_iter().map(v).collect(),
        header,
        question: v("q\n"),
        answer: v("a\n"),
    }
}

fn count_occurrences(haystack: &[u8], needle: &[u8]) -> usize {
    if needle.is_empty() || haystack.len() < needle.len() {
        return 0;
    }
    (0..=haystack.len() - needle.len()).filter(|&i| &haystack[i..i + needle.len()] == needle).count()
}

#[test]
fn empty_selection_yields_just_the_frame() {
    let out = build_source(&Vec::new(), SourceConfig { page_width: 100, text_size: 12 });
    let expected = "#import \"cards_internal.typ\": *\n#show: setup\n#set page(width: 100pt)\n#set text(size: 12pt)\n#[\n]\n";
    assert_eq!(out, v(expected));
}

#[test]
fn one_card_emits_marker_question_separator_answer() {
    let cards = vec![card("id1", "Name", vec!["Maths.Algebra", "CS"], None)];
    let out = build_source(&cards, SourceConfig { page_width: 200, text_size: 10 });
    let text = String::from_utf8(out).expect("ascii");
    assert!(text.contains("#card(\"id1\", \"Name\", (\"Maths.Algebra\",\"CS\",))\n"));
    assert!(text.contains("q\n#answer\na\n"));
}

#[test]
fn header_grouping_breaks_scopes_exactly_at_identity_changes() {
    let h1 = Header::new(v("HEADER-ONE"), 1);
    let h2 = Header::new(v("HEADER-TWO"), 2);
    let cards = vec![
        card("c1", "C1", vec!["X"], Some(h1.clone())),
        card("c2", "C2", vec!["X"], Some(h1.clone())),
        card("c3", "C3", vec!["X"], Some(h2.clone())),
    ];
    let out = build_source(&cards, SourceConfig { page_width: 100, text_size: 10 });
    // Two scope boundaries: before c1 (no header yet) and before c3.
    assert_eq!(count_occurrences(&out, b"]\n#[\n"), 2);
    assert_eq!(count_occurrences(&out, b"HEADER-ONE"), 1);
    assert_eq!(count_occurrences(&out, b"HEADER-TWO"), 1);
    let text = String::from_utf8(out).expect("ascii");
    let p1 = text.find("HEADER-ONE").unwrap();
    let pc1 = text.find("#card(\"c1\"").unwrap();
    let pc2 = text.find("#card(\"c2\"").unwrap();
    let p2 = text.find("HEADER-TWO").unwrap();
    let pc3 = text.find("#card(\"c3\"").unwrap();
    assert!(p1 < pc1 && pc1 < pc2 && pc2 < p2 && p2 < pc3);
}

#[test]
fn equal_header_text_with_different_identity_still_breaks_the_scope() {
    let h1 = Header::new(v("SAME"), 1);
    let h2 = Header::new(v("SAME"), 2);
    let cards = vec![
        card("c1", "C1", vec!["X"], Some(h1)),
        card("c2", "C2", vec!["X"], Some(h2)),
    ];
    let out = build_source(&cards, SourceConfig { page_width: 100, text_size: 10 });
    assert_eq!(count_occurrences(&out, b"]\n#[\n"), 2);
}

#[test]
fn headerless_cards_share_the_opening_scope() {
    let cards = vec![card("c1", "C1", vec!["X"], None), card("c2", "C2", vec!["X"], None)];
    let out = build_source(&cards, SourceConfig { page_width: 100, text_size: 10 });
    assert_eq!(count_occurrences(&out, b"]\n#[\n"), 0);
}

#[test]
fn store_selection_feeds_the_synthesized_document() {
    let mut store = flashbang::store::CardStore::new();
    store
        .load(&v("#card(\"c1\", \"C1\", (\"Maths.Algebra\"))\nquestion body #answer answer body"))
        .expect("load");
    let slot = store.find_card(&v("c1")).expect("present");
    let out = store.build_source(&vec![slot], SourceConfig { page_width: 100, text_size: 10 });
    let text = String::from_utf8(out).expect("ascii");
    assert!(text.contains("#card(\"c1\", \"C1\", (\"Maths.Algebra\",))"));
    assert!(text.contains("question body "));
    assert!(text.contains("#answer\n answer body"));
}
