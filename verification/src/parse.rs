//! Parser for the card markup mini-language.
//!
//! A file is an optional ignore-marker line, an optional header section, and
//! a run of card blocks.  Each card block is
//! `#card("<id>", "<name>", ("<path>", ...))`, a question body, an optional
//! `#answer` separator and an answer body running to the next card marker or
//! the end of input.  The header block is everything before the first card
//! marker; it is attached to the file's cards only when the explicit
//! header-section marker occurs in it.

use vstd::prelude::*;

use crate::bytes::{
    check_starts_with, contains_seq, find_at, find_pattern, match_at, starts_with, subrange_vec,
};

verus! {

/// One parsed card record: identity, display name, dotted location paths and
/// the two body blobs, all verbatim slices of the input.
pub struct CardRec {
    pub id: Vec<u8>,
    pub name: Vec<u8>,
    pub paths: Vec<Vec<u8>>,
    pub question: Vec<u8>,
    pub answer: Vec<u8>,
}

/// Mathematical image of a `CardRec`.
pub struct CardRecV {
    pub id: Seq<u8>,
    pub name: Seq<u8>,
    pub paths: Seq<Seq<u8>>,
    pub question: Seq<u8>,
    pub answer: Seq<u8>,
}

impl View for CardRec {
    type V = CardRecV;

    open spec fn view(&self) -> CardRecV {
        CardRecV {
            id: self.id@,
            name: self.name@,
            paths: self.paths.deep_view(),
            question: self.question@,
            answer: self.answer@,
        }
    }
}

/// Result of parsing one file: the optional header block and the records.
pub struct ParsedFile {
    pub header: Option<Vec<u8>>,
    pub cards: Vec<CardRec>,
}

/// Mathematical image of a `ParsedFile`.
pub struct ParsedFileV {
    pub header: Option<Seq<u8>>,
    pub cards: Seq<CardRecV>,
}

impl View for ParsedFile {
    type V = ParsedFileV;

    open spec fn view(&self) -> ParsedFileV {
        ParsedFileV {
            header: match self.header {
                Some(ref h) => Some(h@),
                None => None,
            },
            cards: Seq::new(self.cards@.len(), |i: int| self.cards@[i]@),
        }
    }
}

/// The card marker `#card`.
pub open spec fn card_marker() -> Seq<u8> {
    seq![35u8, 99u8, 97u8, 114u8, 100u8]
}

/// The answer separator `#answer`.
pub open spec fn answer_marker() -> Seq<u8> {
    seq![35u8, 97u8, 110u8, 115u8, 119u8, 101u8, 114u8]
}

/// The ignore marker `//![FLASHBANG IGNORE]`.
pub open spec fn ignore_marker() -> Seq<u8> {
    seq![
        47u8, 47u8, 33u8, 91u8, 70u8, 76u8, 65u8, 83u8, 72u8, 66u8, 65u8, 78u8, 71u8, 32u8, 73u8,
        71u8, 78u8, 79u8, 82u8, 69u8, 93u8,
    ]
}

/// The header-section marker `//![FLASHBANG HEADER]`.
pub open spec fn header_marker() -> Seq<u8> {
    seq![
        47u8, 47u8, 33u8, 91u8, 70u8, 76u8, 65u8, 83u8, 72u8, 66u8, 65u8, 78u8, 71u8, 32u8, 72u8,
        69u8, 65u8, 68u8, 69u8, 82u8, 93u8,
    ]
}

pub fn card_marker_vec() -> (r: Vec<u8>)
    ensures
        r@ == card_marker(),
{
    let mut v: Vec<u8> = Vec::new();
    v.push(35);
    v.push(99);
    v.push(97);
    v.push(114);
    v.push(100);
    proof {
        assert(v@ =~= card_marker());
    }
    v
}

pub fn answer_marker_vec() -> (r: Vec<u8>)
    ensures
        r@ == answer_marker(),
{
    let mut v: Vec<u8> = Vec::new();
    v.push(35);
    v.push(97);
    v.push(110);
    v.push(115);
    v.push(119);
    v.push(101);
    v.push(114);
    proof {
        assert(v@ =~= answer_marker());
    }
    v
}

fn flashbang_prefix_vec() -> (r: Vec<u8>)
    ensures
        r@ == seq![
            47u8, 47u8, 33u8, 91u8, 70u8, 76u8, 65u8, 83u8, 72u8, 66u8, 65u8, 78u8, 71u8, 32u8,
        ],
{
    let mut v: Vec<u8> = Vec::new();
    v.push(47);
    v.push(47);
    v.push(33);
    v.push(91);
    v.push(70);
    v.push(76);
    v.push(65);
    v.push(83);
    v.push(72);
    v.push(66);
    v.push(65);
    v.push(78);
    v.push(71);
    v.push(32);
    proof {
        assert(v@ =~= seq![
            47u8, 47u8, 33u8, 91u8, 70u8, 76u8, 65u8, 83u8, 72u8, 66u8, 65u8, 78u8, 71u8, 32u8,
        ]);
    }
    v
}

pub fn ignore_marker_vec() -> (r: Vec<u8>)
    ensures
        r@ == ignore_marker(),
{
    let mut v = flashbang_prefix_vec();
    v.push(73);
    v.push(71);
    v.push(78);
    v.push(79);
    v.push(82);
    v.push(69);
    v.push(93);
    proof {
        assert(v@ =~= ignore_marker());
    }
    v
}

pub fn header_marker_vec() -> (r: Vec<u8>)
    ensures
        r@ == header_marker(),
{
    let mut v = flashbang_prefix_vec();
    v.push(72);
    v.push(69);
    v.push(65);
    v.push(68);
    v.push(69);
    v.push(82);
    v.push(93);
    proof {
        assert(v@ =~= header_marker());
    }
    v
}

/// ASCII whitespace accepted between the tokens of a card marker.
pub open spec fn is_ws(b: u8) -> bool {
    b == 32 || b == 9 || b == 10 || b == 13
}

/// First index at or after `i` holding a non-whitespace byte, or the end.
pub open spec fn skip_ws_spec(s: Seq<u8>, i: int) -> int
    decreases s.len() - i + 1,
{
    if 0 <= i < s.len() && is_ws(s[i]) {
        skip_ws_spec(s, i + 1)
    } else {
        i
    }
}

pub proof fn lemma_skip_ws_bounds(s: Seq<u8>, i: int)
    requires
        0 <= i <= s.len(),
    ensures
        i <= skip_ws_spec(s, i) <= s.len(),
    decreases s.len() - i + 1,
{
    if 0 <= i < s.len() && is_ws(s[i]) {
        lemma_skip_ws_bounds(s, i + 1);
    }
}

/// True when position `i` exists and holds byte `b`.
pub open spec fn at_byte(s: Seq<u8>, i: int, b: u8) -> bool {
    0 <= i < s.len() && s[i] == b
}

/// A quoted string at `i`: `"` then content without `"` then `"`.
/// Gives the content and the position after the closing quote.
pub open spec fn scan_string_spec(s: Seq<u8>, i: int) -> Option<(Seq<u8>, int)> {
    if at_byte(s, i, 34) {
        match find_at(s, seq![34u8], i + 1) {
            Some(j) => Some((s.subrange(i + 1, j), j + 1)),
            None => None,
        }
    } else {
        None
    }
}

pub proof fn lemma_scan_string_bounds(s: Seq<u8>, i: int)
    requires
        scan_string_spec(s, i) is Some,
    ensures
        i + 2 <= scan_string_spec(s, i)->Some_0.1 <= s.len(),
{
    let j = find_at(s, seq![34u8], i + 1)->Some_0;
    crate::bytes::lemma_find_at_bounds(s, seq![34u8], i + 1);
}

/// The parenthesised path list of a card marker, after its opening `(`:
/// zero or more quoted strings separated by commas, an optional trailing
/// comma, and the closing `)`.  Gives the paths and the position after `)`.
pub open spec fn parse_paths_spec(s: Seq<u8>, i: int, acc: Seq<Seq<u8>>) -> Option<
    (Seq<Seq<u8>>, int),
>
    decreases s.len() - i + 1,
    when 0 <= i <= s.len()
    via parse_paths_spec_decreases
{
    let k = skip_ws_spec(s, i);
    if at_byte(s, k, 41) {
        Some((acc, k + 1))
    } else {
        match scan_string_spec(s, k) {
            None => None,
            Some((p, j)) => {
                let m = skip_ws_spec(s, j);
                if at_byte(s, m, 44) {
                    parse_paths_spec(s, m + 1, acc.push(p))
                } else if at_byte(s, m, 41) {
                    Some((acc.push(p), m + 1))
                } else {
                    None
                }
            },
        }
    }
}

#[via_fn]
proof fn parse_paths_spec_decreases(s: Seq<u8>, i: int, acc: Seq<Seq<u8>>) {
    let k = skip_ws_spec(s, i);
    lemma_skip_ws_bounds(s, i);
    if !at_byte(s, k, 41) && scan_string_spec(s, k) is Some {
        let (p, j) = scan_string_spec(s, k)->Some_0;
        lemma_scan_string_bounds(s, k);
        lemma_skip_ws_bounds(s, j);
    }
}

pub proof fn lemma_parse_paths_bounds(s: Seq<u8>, i: int, acc: Seq<Seq<u8>>)
    requires
        0 <= i <= s.len(),
        parse_paths_spec(s, i, acc) is Some,
    ensures
        i < parse_paths_spec(s, i, acc)->Some_0.1 <= s.len(),
    decreases s.len() - i + 1,
{
    let k = skip_ws_spec(s, i);
    lemma_skip_ws_bounds(s, i);
    if at_byte(s, k, 41) {
    } else {
        let (p, j) = scan_string_spec(s, k)->Some_0;
        lemma_scan_string_bounds(s, k);
        let m = skip_ws_spec(s, j);
        lemma_skip_ws_bounds(s, j);
        if at_byte(s, m, 44) {
            lemma_parse_paths_bounds(s, m + 1, acc.push(p));
        }
    }
}

/// Mathematical image of one card block parsed at `pos`, which must hold a
/// card marker.  Gives the record and the position of the next card marker
/// (or the end of input), where the following block starts.
pub open spec fn parse_card_spec(s: Seq<u8>, pos: int) -> Option<(CardRecV, int)> {
    let i1 = skip_ws_spec(s, pos + 5);
    if !at_byte(s, i1, 40) {
        None
    } else {
        let i2 = skip_ws_spec(s, i1 + 1);
        match scan_string_spec(s, i2) {
            None => None,
            Some((id, i3)) => {
                let i4 = skip_ws_spec(s, i3);
                if !at_byte(s, i4, 44) {
                    None
                } else {
                    let i5 = skip_ws_spec(s, i4 + 1);
                    match scan_string_spec(s, i5) {
                        None => None,
                        Some((name, i6)) => {
                            let i7 = skip_ws_spec(s, i6);
                            if !at_byte(s, i7, 44) {
                                None
                            } else {
                                let i8 = skip_ws_spec(s, i7 + 1);
                                if !at_byte(s, i8, 40) {
                                    None
                                } else {
                                    match parse_paths_spec(s, i8 + 1, Seq::empty()) {
                                        None => None,
                                        Some((paths, i9)) => {
                                            let i10 = skip_ws_spec(s, i9);
                                            if !at_byte(s, i10, 41) {
                                                None
                                            } else {
                                                let body = skip_ws_spec(s, i10 + 1);
                                                Some(card_body_spec(s, body, id, name, paths))
                                            }
                                        },
                                    }
                                }
                            }
                        },
                    }
                }
            },
        }
    }
}

/// The question and answer of a card whose body starts at `body`: the body
/// runs to the next card marker or the end of input, and an answer separator
/// inside it splits question from answer; without one the whole body is the
/// question and the answer is empty.
pub open spec fn card_body_spec(
    s: Seq<u8>,
    body: int,
    id: Seq<u8>,
    name: Seq<u8>,
    paths: Seq<Seq<u8>>,
) -> (CardRecV, int) {
    let body_end = match find_at(s, card_marker(), body) {
        Some(e) => e,
        None => s.len() as int,
    };
    let (q, a): (Seq<u8>, Seq<u8>) = match find_at(s, answer_marker(), body) {
        Some(ap) => if ap < body_end {
            (s.subrange(body, ap), s.subrange(ap + 7, body_end))
        } else {
            (s.subrange(body, body_end), Seq::empty())
        },
        None => (s.subrange(body, body_end), Seq::empty()),
    };
    (CardRecV { id, name, paths, question: q, answer: a }, body_end)
}

/// The run of card blocks from `pos`, each starting at a card marker;
/// `pos` itself is the position of a card marker or the end of input.
pub open spec fn parse_cards_spec(s: Seq<u8>, pos: int) -> Option<Seq<CardRecV>>
    decreases s.len() - pos + 1,
    when 0 <= pos <= s.len()
    via parse_cards_spec_decreases
{
    if pos >= s.len() {
        Some(Seq::empty())
    } else {
        match parse_card_spec(s, pos) {
            None => None,
            Some((c, next)) => match parse_cards_spec(s, next) {
                None => None,
                Some(rest) => Some(seq![c] + rest),
            },
        }
    }
}

#[via_fn]
proof fn parse_cards_spec_decreases(s: Seq<u8>, pos: int) {
    if pos < s.len() && parse_card_spec(s, pos) is Some {
        lemma_parse_card_bounds(s, pos);
    }
}

pub proof fn lemma_parse_card_bounds(s: Seq<u8>, pos: int)
    requires
        0 <= pos <= s.len(),
        parse_card_spec(s, pos) is Some,
    ensures
        pos < parse_card_spec(s, pos)->Some_0.1 <= s.len(),
{
    let i1 = skip_ws_spec(s, pos + 5);
    if pos + 5 <= s.len() {
        lemma_skip_ws_bounds(s, pos + 5);
    } else {
        assert(skip_ws_spec(s, pos + 5) == pos + 5) by {
            assert(!(0 <= pos + 5 < s.len()));
        }
    }
    assert(at_byte(s, i1, 40));
    assert(i1 < s.len());
    assert(pos + 5 <= s.len());
    lemma_skip_ws_bounds(s, pos + 5);
    let i2 = skip_ws_spec(s, i1 + 1);
    lemma_skip_ws_bounds(s, i1 + 1);
    let (id, i3) = scan_string_spec(s, i2)->Some_0;
    lemma_scan_string_bounds(s, i2);
    let i4 = skip_ws_spec(s, i3);
    lemma_skip_ws_bounds(s, i3);
    let i5 = skip_ws_spec(s, i4 + 1);
    lemma_skip_ws_bounds(s, i4 + 1);
    let (name, i6) = scan_string_spec(s, i5)->Some_0;
    lemma_scan_string_bounds(s, i5);
    let i7 = skip_ws_spec(s, i6);
    lemma_skip_ws_bounds(s, i6);
    let i8 = skip_ws_spec(s, i7 + 1);
    lemma_skip_ws_bounds(s, i7 + 1);
    let (paths, i9) = parse_paths_spec(s, i8 + 1, Seq::empty())->Some_0;
    lemma_parse_paths_bounds(s, i8 + 1, Seq::empty());
    let i10 = skip_ws_spec(s, i9);
    lemma_skip_ws_bounds(s, i9);
    let body = skip_ws_spec(s, i10 + 1);
    lemma_skip_ws_bounds(s, i10 + 1);
    match find_at(s, card_marker(), body) {
        Some(e) => {
            crate::bytes::lemma_find_at_bounds(s, card_marker(), body);
        },
        None => {},
    }
}

fn quote_vec() -> (r: Vec<u8>)
    ensures
        r@ == seq![34u8],
{
    let mut v: Vec<u8> = Vec::new();
    v.push(34);
    proof {
        assert(v@ =~= seq![34u8]);
    }
    v
}

fn is_ws_byte(b: u8) -> (r: bool)
    ensures
        r == is_ws(b),
{
    b == 32 || b == 9 || b == 10 || b == 13
}

/// First index at or after `i` holding a non-whitespace byte.
fn skip_ws(v: &Vec<u8>, i: usize) -> (r: usize)
    requires
        i <= v@.len(),
    ensures
        r == skip_ws_spec(v@, i as int),
        i <= r <= v@.len(),
{
    let n = v.len();
    let mut j = i;
    while j < n && is_ws_byte(v[j])
        invariant
            i <= j <= n,
            n == v@.len(),
            skip_ws_spec(v@, i as int) == skip_ws_spec(v@, j as int),
        decreases n - j,
    {
        assert(skip_ws_spec(v@, j as int) == skip_ws_spec(v@, j + 1));
        j += 1;
    }
    assert(skip_ws_spec(v@, j as int) == j);
    j
}

fn at_byte_exec(v: &Vec<u8>, i: usize, b: u8) -> (r: bool)
    ensures
        r == at_byte(v@, i as int, b),
{
    i < v.len() && v[i] == b
}

/// A quoted string at `i`; gives the content and the position after the
/// closing quote.
fn scan_string(v: &Vec<u8>, i: usize) -> (r: Option<(Vec<u8>, usize)>)
    requires
        i <= v@.len(),
        v@.len() < usize::MAX - 8,
    ensures
        (match r {
            Some(p) => scan_string_spec(v@, i as int) == Some((p.0@, p.1 as int)),
            None => scan_string_spec(v@, i as int) is None,
        }),
{
    if !at_byte_exec(v, i, 34) {
        return None;
    }
    let quote = quote_vec();
    match find_pattern(v, &quote, i + 1) {
        Some(j) => {
            proof {
                crate::bytes::lemma_find_at_bounds(v@, seq![34u8], i + 1);
            }
            let content = subrange_vec(v, i + 1, j);
            Some((content, j + 1))
        },
        None => None,
    }
}

/// The path list of a card marker, after its opening parenthesis.
fn parse_paths(v: &Vec<u8>, i: usize) -> (r: Option<(Vec<Vec<u8>>, usize)>)
    requires
        i <= v@.len(),
        v@.len() < usize::MAX - 8,
    ensures
        (match r {
            Some(p) => {
                &&& parse_paths_spec(v@, i as int, Seq::empty()) == Some(
                    (p.0.deep_view(), p.1 as int),
                )
                &&& i < p.1 <= v@.len()
            },
            None => parse_paths_spec(v@, i as int, Seq::empty()) is None,
        }),
{
    let mut acc: Vec<Vec<u8>> = Vec::new();
    let mut pos = i;
    let ghost start = i as int;
    proof {
        assert(acc.deep_view() =~~= Seq::<Seq<u8>>::empty());
    }
    loop
        invariant
            i <= pos <= v@.len(),
            v@.len() < usize::MAX - 8,
            parse_paths_spec(v@, start, Seq::empty()) == parse_paths_spec(
                v@,
                pos as int,
                acc.deep_view(),
            ),
            start == i as int,
        decreases v@.len() - pos,
    {
        let k = skip_ws(v, pos);
        if at_byte_exec(v, k, 41) {
            proof {
                assert(parse_paths_spec(v@, pos as int, acc.deep_view()) == Some(
                    (acc.deep_view(), k + 1),
                ));
            }
            return Some((acc, k + 1));
        }
        match scan_string(v, k) {
            None => {
                proof {
                    assert(parse_paths_spec(v@, pos as int, acc.deep_view()) is None);
                }
                return None;
            },
            Some((p, j)) => {
                proof {
                    lemma_scan_string_bounds(v@, k as int);
                }
                let m = skip_ws(v, j);
                let ghost accv = acc.deep_view();
                let ghost pv = p@;
                if at_byte_exec(v, m, 44) {
                    acc.push(p);
                    proof {
                        assert(acc.deep_view() =~~= accv.push(pv));
                        assert(parse_paths_spec(v@, pos as int, accv) == parse_paths_spec(
                            v@,
                            m + 1,
                            accv.push(pv),
                        ));
                    }
                    pos = m + 1;
                } else if at_byte_exec(v, m, 41) {
                    acc.push(p);
                    proof {
                        assert(acc.deep_view() =~~= accv.push(pv));
                        assert(parse_paths_spec(v@, pos as int, accv) == Some(
                            (accv.push(pv), m + 1),
                        ));
                    }
                    return Some((acc, m + 1));
                } else {
                    proof {
                        assert(parse_paths_spec(v@, pos as int, accv) is None);
                    }
                    return None;
                }
            },
        }
    }
}

/// One card block at `pos`, which must hold a card marker; gives the record
/// and the start of the following block.
fn parse_card(v: &Vec<u8>, pos: usize) -> (r: Option<(CardRec, usize)>)
    requires
        pos + 5 <= v@.len(),
        v@.len() < usize::MAX - 8,
    ensures
        (match r {
            Some(p) => {
                &&& parse_card_spec(v@, pos as int) == Some((p.0@, p.1 as int))
                &&& pos < p.1 <= v@.len()
            },
            None => parse_card_spec(v@, pos as int) is None,
        }),
{
    let i1 = skip_ws(v, pos + 5);
    if !at_byte_exec(v, i1, 40) {
        return None;
    }
    let i2 = skip_ws(v, i1 + 1);
    let Some((id, i3)) = scan_string(v, i2) else {
        return None;
    };
    proof {
        lemma_scan_string_bounds(v@, i2 as int);
    }
    let i4 = skip_ws(v, i3);
    if !at_byte_exec(v, i4, 44) {
        return None;
    }
    let i5 = skip_ws(v, i4 + 1);
    let Some((name, i6)) = scan_string(v, i5) else {
        return None;
    };
    proof {
        lemma_scan_string_bounds(v@, i5 as int);
    }
    let i7 = skip_ws(v, i6);
    if !at_byte_exec(v, i7, 44) {
        return None;
    }
    let i8 = skip_ws(v, i7 + 1);
    if !at_byte_exec(v, i8, 40) {
        return None;
    }
    let Some((paths, i9)) = parse_paths(v, i8 + 1) else {
        return None;
    };
    let i10 = skip_ws(v, i9);
    if !at_byte_exec(v, i10, 41) {
        return None;
    }
    let body = skip_ws(v, i10 + 1);
    let (question, answer, body_end) = split_body(v, body);
    let rec = CardRec { id, name, paths, question, answer };
    proof {
        assert(rec@.paths =~~= parse_card_spec(v@, pos as int)->Some_0.0.paths);
        assert(rec@ =~~= parse_card_spec(v@, pos as int)->Some_0.0);
    }
    Some((rec, body_end))
}

/// Where the next card marker after `body` stands, or the end of input.
fn body_end_of(v: &Vec<u8>, body: usize) -> (e: usize)
    requires
        body <= v@.len(),
        v@.len() < usize::MAX - 8,
    ensures
        e as int == (match find_at(v@, card_marker(), body as int) {
            Some(x) => x,
            None => v@.len() as int,
        }),
        body <= e <= v@.len(),
        e < v@.len() ==> match_at(v@, card_marker(), e as int),
{
    let card_pat = card_marker_vec();
    match find_pattern(v, &card_pat, body) {
        Some(e) => {
            proof {
                crate::bytes::lemma_find_at_bounds(v@, card_marker(), body as int);
            }
            e
        },
        None => v.len(),
    }
}

/// Split a card body into question and answer as `card_body_spec` does.
fn split_body(v: &Vec<u8>, body: usize) -> (r: (Vec<u8>, Vec<u8>, usize))
    requires
        body <= v@.len(),
        v@.len() < usize::MAX - 8,
    ensures
        ({
            let body_end = (match find_at(v@, card_marker(), body as int) {
                Some(x) => x,
                None => v@.len() as int,
            });
            &&& r.2 == body_end
            &&& body <= r.2 <= v@.len()
            &&& (match find_at(v@, answer_marker(), body as int) {
                Some(ap) => if ap < body_end {
                    r.0@ == v@.subrange(body as int, ap) && r.1@ == v@.subrange(ap + 7, body_end)
                } else {
                    r.0@ == v@.subrange(body as int, body_end) && r.1@ == Seq::<u8>::empty()
                },
                None => r.0@ == v@.subrange(body as int, body_end) && r.1@ == Seq::<u8>::empty(),
            })
        }),
{
    let body_end = body_end_of(v, body);
    let answer_pat = answer_marker_vec();
    match find_pattern(v, &answer_pat, body) {
        Some(ap) => {
            proof {
                crate::bytes::lemma_find_at_bounds(v@, answer_marker(), body as int);
            }
            if ap < body_end {
                proof {
                    assert(match_at(v@, answer_marker(), ap as int));
                    if ap + 7 > body_end {
                        // Then the next card marker starts inside the answer
                        // marker, but the answer marker holds `#` only at its
                        // first byte, so the two markers cannot overlap.
                        assert(body_end < v@.len());
                        assert(match_at(v@, card_marker(), body_end as int));
                        let d = body_end - ap;
                        assert(v@.subrange(body_end as int, body_end + 5)[0] == card_marker()[0]);
                        assert(v@[body_end as int] == 35);
                        assert(v@.subrange(ap as int, ap + 7)[d] == answer_marker()[d]);
                        assert(v@[ap + d] == answer_marker()[d]);
                        assert(answer_marker()[d] != 35);
                        assert(false);
                    }
                }
                (subrange_vec(v, body, ap), subrange_vec(v, ap + 7, body_end), body_end)
            } else {
                (subrange_vec(v, body, body_end), Vec::new(), body_end)
            }
        },
        None => (subrange_vec(v, body, body_end), Vec::new(), body_end),
    }
}

/// Every card block from `pos`, the position of the first card marker.
fn parse_cards(v: &Vec<u8>, pos: usize) -> (r: Option<Vec<CardRec>>)
    requires
        pos + 5 <= v@.len(),
        match_at(v@, card_marker(), pos as int),
        v@.len() < usize::MAX - 8,
    ensures
        (match r {
            Some(cs) => parse_cards_spec(v@, pos as int) == Some(
                Seq::new(cs@.len(), |i: int| cs@[i]@),
            ),
            None => parse_cards_spec(v@, pos as int) is None,
        }),
{
    let mut out: Vec<CardRec> = Vec::new();
    let mut cur = pos;
    let ghost start = pos as int;
    proof {
        let sp = parse_cards_spec(v@, start);
        match sp {
            Some(rest) => {
                assert(Seq::new(out@.len(), |i: int| out@[i]@) + rest =~= rest);
            },
            None => {},
        }
    }
    loop
        invariant
            start == pos as int,
            pos <= cur <= v@.len(),
            v@.len() < usize::MAX - 8,
            (match parse_cards_spec(v@, cur as int) {
                Some(rest) => parse_cards_spec(v@, start) == Some(
                    Seq::new(out@.len(), |i: int| out@[i]@) + rest,
                ),
                None => parse_cards_spec(v@, start) is None,
            }),
        decreases v@.len() - cur,
    {
        if cur >= v.len() {
            proof {
                assert(parse_cards_spec(v@, cur as int) == Some(Seq::<CardRecV>::empty()));
                assert(Seq::new(out@.len(), |i: int| out@[i]@) + Seq::<CardRecV>::empty()
                    =~= Seq::new(out@.len(), |i: int| out@[i]@));
            }
            return Some(out);
        }
        if cur + 5 > v.len() {
            // Too short to hold a card marker: the parse of this position
            // fails inside the marker chain.
            proof {
                lemma_short_tail_fails(v@, cur as int);
            }
            return None;
        }
        let step = parse_card(v, cur);
        match step {
            None => {
                proof {
                    assert(parse_cards_spec(v@, cur as int) is None);
                }
                return None;
            },
            Some((c, next)) => {
                let ghost outv = Seq::new(out@.len(), |i: int| out@[i]@);
                out.push(c);
                proof {
                    assert(Seq::new(out@.len(), |i: int| out@[i]@) =~= outv.push(c@));
                    assert(outv + (seq![c@] + parse_cards_spec(v@, next as int)->Some_0) =~= (
                    outv.push(c@) + parse_cards_spec(v@, next as int)->Some_0));
                }
                cur = next;
            },
        }
    }
}

/// Parse a whole card-markup file.
///
/// A file beginning with the ignore marker, or one without a card marker,
/// parses to no records and no header.  Otherwise the text before the first
/// card marker becomes the header block exactly when it holds the
/// header-section marker, and every card block is parsed; a malformed card
/// marker fails the whole file.
pub fn parse_file(v: &Vec<u8>) -> (r: Result<ParsedFile, crate::errors::CoreError>)
    requires
        v@.len() < usize::MAX - 8,
    ensures
        (match r {
            Ok(f) => parse_file_spec(v@) == Some(f@),
            Err(e) => parse_file_spec(v@) is None && e matches crate::errors::CoreError::Parsing {
                ..
            },
        }),
{
    let ignore = ignore_marker_vec();
    if check_starts_with(v, &ignore) {
        let f = ParsedFile { header: None, cards: Vec::new() };
        proof {
            assert(f@.cards =~= parse_file_spec(v@)->Some_0.cards);
        }
        return Ok(f);
    }
    let card_pat = card_marker_vec();
    match find_pattern(v, &card_pat, 0) {
        None => {
            let f = ParsedFile { header: None, cards: Vec::new() };
            proof {
                assert(f@.cards =~= parse_file_spec(v@)->Some_0.cards);
            }
            Ok(f)
        },
        Some(p) => {
            proof {
                crate::bytes::lemma_find_at_bounds(v@, card_marker(), 0);
            }
            let pre = subrange_vec(v, 0, p);
            let header_pat = header_marker_vec();
            let has_header = match find_pattern(&pre, &header_pat, 0) {
                Some(_) => true,
                None => false,
            };
            let header: Option<Vec<u8>> = if pre.len() > 0 && has_header {
                Some(pre)
            } else {
                None
            };
            match parse_cards(v, p) {
                None => Err(crate::errors::CoreError::parsing(
                    "malformed card marker in card file",
                )),
                Some(cards) => {
                    let f = ParsedFile { header, cards };
                    proof {
                        assert(f@.cards =~= parse_file_spec(v@)->Some_0.cards);
                        assert(f@ =~~= parse_file_spec(v@)->Some_0);
                    }
                    Ok(f)
                },
            }
        },
    }
}

/// The path strings of a parsed path list are no longer than the input.
pub proof fn lemma_parse_paths_lens(s: Seq<u8>, i: int, acc: Seq<Seq<u8>>)
    requires
        0 <= i <= s.len(),
        parse_paths_spec(s, i, acc) is Some,
        forall|x: int| 0 <= x < acc.len() ==> (#[trigger] acc[x]).len() <= s.len(),
    ensures
        forall|x: int|
            0 <= x < parse_paths_spec(s, i, acc)->Some_0.0.len() ==> (
            #[trigger] parse_paths_spec(s, i, acc)->Some_0.0[x]).len() <= s.len(),
    decreases s.len() - i + 1,
{
    let k = skip_ws_spec(s, i);
    lemma_skip_ws_bounds(s, i);
    if at_byte(s, k, 41) {
    } else {
        let (p, j) = scan_string_spec(s, k)->Some_0;
        lemma_scan_string_bounds(s, k);
        let m = skip_ws_spec(s, j);
        lemma_skip_ws_bounds(s, j);
        assert(p.len() <= s.len());
        assert(forall|x: int|
            0 <= x < acc.push(p).len() ==> (#[trigger] acc.push(p)[x]).len() <= s.len());
        if at_byte(s, m, 44) {
            lemma_parse_paths_lens(s, m + 1, acc.push(p));
        }
    }
}

/// Every location path of a parsed card is no longer than the input.
pub proof fn lemma_parse_card_paths(s: Seq<u8>, pos: int)
    requires
        0 <= pos <= s.len(),
        parse_card_spec(s, pos) is Some,
    ensures
        forall|k: int|
            0 <= k < parse_card_spec(s, pos)->Some_0.0.paths.len() ==> (
            #[trigger] parse_card_spec(s, pos)->Some_0.0.paths[k]).len() <= s.len(),
{
    let i1 = skip_ws_spec(s, pos + 5);
    if pos + 5 <= s.len() {
        lemma_skip_ws_bounds(s, pos + 5);
    } else {
        assert(skip_ws_spec(s, pos + 5) == pos + 5) by {
            assert(!(0 <= pos + 5 < s.len()));
        }
        assert(at_byte(s, i1, 40));
        assert(false);
    }
    let i2 = skip_ws_spec(s, i1 + 1);
    lemma_skip_ws_bounds(s, i1 + 1);
    let (id, i3) = scan_string_spec(s, i2)->Some_0;
    lemma_scan_string_bounds(s, i2);
    let i4 = skip_ws_spec(s, i3);
    lemma_skip_ws_bounds(s, i3);
    let i5 = skip_ws_spec(s, i4 + 1);
    lemma_skip_ws_bounds(s, i4 + 1);
    let (name, i6) = scan_string_spec(s, i5)->Some_0;
    lemma_scan_string_bounds(s, i5);
    let i7 = skip_ws_spec(s, i6);
    lemma_skip_ws_bounds(s, i6);
    let i8 = skip_ws_spec(s, i7 + 1);
    lemma_skip_ws_bounds(s, i7 + 1);
    lemma_parse_paths_lens(s, i8 + 1, Seq::empty());
}

/// A parsed card run yields at most one record per input byte, and every
/// location path fits in the input.
pub proof fn lemma_parse_cards_bounds(s: Seq<u8>, pos: int)
    requires
        0 <= pos <= s.len(),
        parse_cards_spec(s, pos) is Some,
    ensures
        parse_cards_spec(s, pos)->Some_0.len() <= s.len() - pos,
        forall|x: int, k: int|
            0 <= x < parse_cards_spec(s, pos)->Some_0.len() && 0 <= k < parse_cards_spec(
                s,
                pos,
            )->Some_0[x].paths.len() ==> (#[trigger] parse_cards_spec(s, pos)->Some_0[x].paths[k]).len()
                <= s.len(),
    decreases s.len() - pos + 1,
{
    if pos >= s.len() {
    } else {
        let (c, next) = parse_card_spec(s, pos)->Some_0;
        lemma_parse_card_bounds(s, pos);
        lemma_parse_card_paths(s, pos);
        lemma_parse_cards_bounds(s, next);
        let rest = parse_cards_spec(s, next)->Some_0;
        let whole = parse_cards_spec(s, pos)->Some_0;
        assert(whole == seq![c] + rest);
        assert forall|x: int, k: int|
            0 <= x < whole.len() && 0 <= k < whole[x].paths.len() implies (
        #[trigger] whole[x].paths[k]).len() <= s.len() by {
            if x == 0 {
                assert(whole[x] == c);
            } else {
                assert(whole[x] == rest[x - 1]);
            }
        }
    }
}

/// Lenient handling of non-card files: a file that begins with the ignore
/// marker parses to no records and no header, without an error, whatever
/// else it holds.
pub proof fn lemma_ignore_marker_parses_empty(s: Seq<u8>)
    requires
        starts_with(s, ignore_marker()),
    ensures
        parse_file_spec(s) == Some(ParsedFileV { header: None, cards: Seq::<CardRecV>::empty() }),
{
}

/// A header is attached only when the explicit header-section marker was
/// seen: whatever text precedes the first card marker, the parsed header
/// is absent unless it holds the marker, and when present it holds it.
pub proof fn lemma_header_needs_marker(s: Seq<u8>)
    requires
        parse_file_spec(s) is Some,
    ensures
        parse_file_spec(s)->Some_0.header matches Some(h) ==> contains_seq(h, header_marker())
            && h.len() > 0,
{
}

/// A position less than five bytes from the end cannot start a card block.
proof fn lemma_short_tail_fails(s: Seq<u8>, pos: int)
    requires
        0 <= pos < s.len(),
        pos + 5 > s.len(),
    ensures
        parse_cards_spec(s, pos) is None,
{
    if parse_card_spec(s, pos) is Some {
        let i1 = skip_ws_spec(s, pos + 5);
        assert(skip_ws_spec(s, pos + 5) == pos + 5) by {
            assert(!(0 <= pos + 5 < s.len()));
        }
        assert(at_byte(s, i1, 40));
        assert(false);
    }
}

/// Mathematical image of parsing a whole file.  `None` is a parse failure.
pub open spec fn parse_file_spec(s: Seq<u8>) -> Option<ParsedFileV> {
    if starts_with(s, ignore_marker()) {
        Some(ParsedFileV { header: None, cards: Seq::empty() })
    } else {
        match find_at(s, card_marker(), 0) {
            None => Some(ParsedFileV { header: None, cards: Seq::empty() }),
            Some(p) => {
                let pre = s.subrange(0, p);
                let header: Option<Seq<u8>> = if pre.len() > 0 && contains_seq(
                    pre,
                    header_marker(),
                ) {
                    Some(pre)
                } else {
                    None
                };
                match parse_cards_spec(s, p) {
                    None => None,
                    Some(cs) => Some(ParsedFileV { header, cards: cs }),
                }
            },
        }
    }
}

} // verus!
