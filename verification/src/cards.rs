//! Card data: headers with identity, parsed card records, ratings and the
//! configuration of the synthesized main document.

use vstd::prelude::*;

verus! {

/// The owned content of a shared header block.
pub struct HeaderInner {
    pub inner: Vec<u8>,
}

/// A header block shared by the cards of one parsed file.  Two headers are
/// the same only by identity: every parse mints a fresh token, so headers
/// from different files or parses differ even when their text is equal.
pub struct Header {
    pub token: u64,
    pub content: HeaderInner,
}

/// Mathematical image of a `Header`.
pub struct HeaderV {
    pub token: u64,
    pub inner: Seq<u8>,
}

impl View for Header {
    type V = HeaderV;

    open spec fn view(&self) -> HeaderV {
        HeaderV { token: self.token, inner: self.content.inner@ }
    }
}

impl Clone for Header {
    fn clone(&self) -> (r: Self)
        ensures
            r@ == self@,
    {
        Header { token: self.token, content: HeaderInner { inner: self.content.inner.clone() } }
    }
}

/// Identity of two optional headers: both absent, or both carrying the same
/// token.
pub open spec fn header_same(a: Option<HeaderV>, b: Option<HeaderV>) -> bool {
    match (a, b) {
        (Option::None, Option::None) => true,
        (Option::Some(x), Option::Some(y)) => x.token == y.token,
        _ => false,
    }
}

impl Header {
    /// A header with the given identity token and content.
    pub fn new(content: Vec<u8>, token: u64) -> (r: Self)
        ensures
            r@.token == token,
            r@.inner == content@,
    {
        Header { token, content: HeaderInner { inner: content } }
    }

    /// Identity comparison: same token, whatever the content.
    pub fn same_as(&self, other: &Header) -> (r: bool)
        ensures
            r <==> self@.token == other@.token,
    {
        self.token == other.token
    }
}

/// Identity comparison of optional headers.
pub fn header_option_same(a: &Option<Header>, b: &Option<Header>) -> (r: bool)
    ensures
        r <==> header_same(view_header(a), view_header(b)),
{
    match (a, b) {
        (Option::None, Option::None) => true,
        (Option::Some(x), Option::Some(y)) => x.same_as(y),
        _ => false,
    }
}

/// View of an optional header.
pub open spec fn view_header(h: &Option<Header>) -> Option<HeaderV> {
    match h {
        Option::Some(x) => Option::Some(x@),
        Option::None => Option::None,
    }
}

/// One card as handed to consumers: identity, display name, dotted location
/// paths, the shared header of its file, and the two body blobs.
pub struct CardInfo {
    pub id: Vec<u8>,
    pub name: Vec<u8>,
    pub locations: Vec<Vec<u8>>,
    pub header: Option<Header>,
    pub question: Vec<u8>,
    pub answer: Vec<u8>,
}

/// Mathematical image of a `CardInfo`.
pub struct CardInfoV {
    pub id: Seq<u8>,
    pub name: Seq<u8>,
    pub locations: Seq<Seq<u8>>,
    pub header: Option<HeaderV>,
    pub question: Seq<u8>,
    pub answer: Seq<u8>,
}

impl View for CardInfo {
    type V = CardInfoV;

    open spec fn view(&self) -> CardInfoV {
        CardInfoV {
            id: self.id@,
            name: self.name@,
            locations: self.locations.deep_view(),
            header: view_header(&self.header),
            question: self.question@,
            answer: self.answer@,
        }
    }
}

impl Clone for CardInfo {
    fn clone(&self) -> (r: Self)
        ensures
            r@ == self@,
    {
        let r = CardInfo {
            id: self.id.clone(),
            name: self.name.clone(),
            locations: self.locations.clone(),
            header: match &self.header {
                Option::Some(h) => Option::Some(h.clone()),
                Option::None => Option::None,
            },
            question: self.question.clone(),
            answer: self.answer.clone(),
        };
        proof {
            assert(r.locations.deep_view() =~~= self.locations.deep_view());
        }
        r
    }
}

/// A producer of card data; foreign card sources implement it outside the
/// library, and `CardInfo` implements it directly.
pub trait CardSource {
    fn header(&self) -> Option<Header>;

    fn id(&self) -> Vec<u8>;

    fn name(&self) -> Vec<u8>;

    fn question(&self) -> Vec<u8>;

    fn answer(&self) -> Vec<u8>;

    fn locations(&self) -> Vec<Vec<u8>>;
}

impl CardSource for CardInfo {
    fn header(&self) -> Option<Header> {
        match &self.header {
            Option::Some(h) => Option::Some(h.clone()),
            Option::None => Option::None,
        }
    }

    fn id(&self) -> Vec<u8> {
        self.id.clone()
    }

    fn name(&self) -> Vec<u8> {
        self.name.clone()
    }

    fn question(&self) -> Vec<u8> {
        self.question.clone()
    }

    fn answer(&self) -> Vec<u8> {
        self.answer.clone()
    }

    fn locations(&self) -> Vec<Vec<u8>> {
        self.locations.clone()
    }
}

/// Configuration of the synthesized main document.
#[derive(Clone, Copy)]
pub struct SourceConfig {
    /// Page width in pt.
    pub page_width: u32,
    /// Text size in pt.
    pub text_size: u32,
}

/// Transient per-context card parsing state.
pub struct CardState {}

impl CardState {
    pub fn new() -> Self {
        Self {  }
    }
}

/// Ratings a finished card can receive during a study session.
#[derive(Clone, Copy, Debug, PartialEq, Eq, Structural)]
pub enum Rating {
    Again,
    Hard,
    Good,
    Easy,
}

impl Rating {
    /// Display name of the rating.
    pub fn str(&self) -> (r: &'static str)
        ensures
            *self == Rating::Again ==> r@ == "Again"@,
            *self == Rating::Hard ==> r@ == "Hard"@,
            *self == Rating::Good ==> r@ == "Good"@,
            *self == Rating::Easy ==> r@ == "Easy"@,
    {
        match self {
            Rating::Again => "Again",
            Rating::Hard => "Hard",
            Rating::Good => "Good",
            Rating::Easy => "Easy",
        }
    }

    /// Numeric score of the rating, from 0 (worst) to 3 (best).
    pub fn score(&self) -> (r: u32)
        ensures
            r == self.score_spec(),
    {
        match self {
            Rating::Again => 0,
            Rating::Hard => 1,
            Rating::Good => 2,
            Rating::Easy => 3,
        }
    }

    pub open spec fn score_spec(self) -> u32 {
        match self {
            Rating::Again => 0u32,
            Rating::Hard => 1u32,
            Rating::Good => 2u32,
            Rating::Easy => 3u32,
        }
    }
}

} // verus!
