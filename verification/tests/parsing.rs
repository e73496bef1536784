//! Parser behaviour: the ignore marker, header handling and card blocks.

use flashbang::parse::parse_file;

fn v(s: &str) -> Vec<u8> {
    s.as_bytes().to_vec()
}

#[test]
fn ignore_marker_yields_no_records_and_no_error() {
    let content = v("//![FLASHBANG IGNORE]\n#card(\"a\", \"A\", (\"X\"))\nbody #answer ans");
    let parsed = parse_file(&content).expect("ignored file must parse");
    assert_eq!(parsed.cards.len(), 0);
    assert!(parsed.header.is_none());
}

#[test]
fn file_without_card_marker_yields_no_records() {
    let parsed = parse_file(&v("just some text, no cards at all")).expect("must parse");
    assert_eq!(parsed.cards.len(), 0);
    assert!(parsed.header.is_none());
}

#[test]
fn leading_text_without_header_marker_attaches_no_header() {
    let content = v("some leading text\n#card(\"a\", \"A\", (\"X\"))\nq #answer a");
    let parsed = parse_file(&content).expect("must parse");
    assert_eq!(parsed.cards.len(), 1);
    assert!(parsed.header.is_none());
}

#[test]
fn header_marker_attaches_leading_text_as_header() {
    let content = v("//![FLASHBANG HEADER]\n#let x = 1\n#card(\"a\", \"A\", (\"X\"))\nq #answer a");
    let parsed = parse_file(&content).expect("must parse");
    assert_eq!(parsed.cards.len(), 1);
    let header = parsed.header.expect("header expected");
    assert_eq!(header, v("//![FLASHBANG HEADER]\n#let x = 1\n"));
}

#[test]
fn card_fields_are_parsed_verbatim() {
    let content = v(
        "#card(\"id-1\", \"My Card\", (\"Maths.Algebra\", \"CS\"))\nWhat is $1+1$?\n#answer\nTwo.\n",
    );
    let parsed = parse_file(&content).expect("must parse");
    assert_eq!(parsed.cards.len(), 1);
    let c = &parsed.cards[0];
    assert_eq!(c.id, v("id-1"));
    assert_eq!(c.name, v("My Card"));
    assert_eq!(c.paths, vec![v("Maths.Algebra"), v("CS")]);
    assert_eq!(c.question, v("What is $1+1$?\n"));
    assert_eq!(c.answer, v("\nTwo.\n"));
}

#[test]
fn missing_answer_separator_gives_empty_answer() {
    let content = v("#card(\"a\", \"A\", (\"X\"))\nonly a question, no separator");
    let parsed = parse_file(&content).expect("must parse");
    assert_eq!(parsed.cards.len(), 1);
    assert_eq!(parsed.cards[0].question, v("only a question, no separator"));
    assert_eq!(parsed.cards[0].answer, v(""));
}

#[test]
fn two_cards_split_at_the_next_marker() {
    let content = v(
        "#card(\"a\", \"A\", (\"X\"))\nq1 #answer a1\n#card(\"b\", \"B\", (\"Y\"))\nq2 #answer a2",
    );
    let parsed = parse_file(&content).expect("must parse");
    assert_eq!(parsed.cards.len(), 2);
    assert_eq!(parsed.cards[0].id, v("a"));
    assert_eq!(parsed.cards[0].answer, v(" a1\n"));
    assert_eq!(parsed.cards[1].id, v("b"));
    assert_eq!(parsed.cards[1].answer, v(" a2"));
}

#[test]
fn malformed_card_marker_fails_the_whole_file() {
    let content = v("#card(\"a\" \"A\", (\"X\"))\nq #answer a");
    assert!(parse_file(&content).is_err());
}

#[test]
fn unterminated_quote_fails_the_whole_file() {
    let content = v("#card(\"a, \"A\", (\"X))\nq");
    assert!(parse_file(&content).is_err());
}

#[test]
fn empty_path_list_is_accepted() {
    let content = v("#card(\"a\", \"A\", ())\nq #answer a");
    let parsed = parse_file(&content).expect("must parse");
    assert_eq!(parsed.cards[0].paths.len(), 0);
}

#[test]
fn trailing_comma_in_path_list_is_accepted() {
    let content = v("#card(\"a\", \"A\", (\"X\", \"Y\",))\nq #answer a");
    let parsed = parse_file(&content).expect("must parse");
    assert_eq!(parsed.cards[0].paths, vec![v("X"), v("Y")]);
}

#[test]
fn whitespace_inside_the_marker_is_tolerated() {
    let content = v("#card( \"a\" ,\n \"A\" , ( \"X\" ) )\nq #answer a");
    let parsed = parse_file(&content).expect("must parse");
    assert_eq!(parsed.cards[0].id, v("a"));
    assert_eq!(parsed.cards[0].paths, vec![v("X")]);
}
