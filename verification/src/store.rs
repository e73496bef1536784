//! The tag graph and card store.
//!
//! Tags live in a dot-separated hierarchical namespace and are kept in an
//! owned arena indexed by small handles; a tag records its children, the
//! cards located exactly at it and the cards located at it or below.  Cards
//! live in a second arena keyed by their stable string id.  A reconciliation
//! pass (mark, load files, collect) updates the store from freshly parsed
//! content while preserving unrelated card identities.

use vstd::prelude::*;

use crate::bytes::subrange_vec;
use crate::cards::{CardInfo, Header};
use crate::errors::CoreError;
use crate::parse::{parse_file, parse_file_spec, ParsedFile};

verus! {

/// Position of the last `.` in `p` at or before `i`.
pub open spec fn rlast_dot(p: Seq<u8>, i: int) -> Option<int>
    decreases i + 1,
{
    if i < 0 || i >= p.len() {
        None
    } else if p[i] == 46 {
        Some(i)
    } else {
        rlast_dot(p, i - 1)
    }
}

/// Position of the last `.` in `p`.
pub open spec fn last_dot(p: Seq<u8>) -> Option<int> {
    rlast_dot(p, p.len() - 1)
}

/// The name of the tag with full path `p`: the part after the last `.`,
/// or all of `p` for a top-level tag.
pub open spec fn tag_name_of(p: Seq<u8>) -> Seq<u8> {
    match last_dot(p) {
        Some(i) => p.subrange(i + 1, p.len() as int),
        None => p,
    }
}

/// The full path of the parent of the tag with full path `p`, if any.
pub open spec fn parent_path(p: Seq<u8>) -> Option<Seq<u8>> {
    match last_dot(p) {
        Some(i) => Some(p.subrange(0, i)),
        None => None,
    }
}

/// Scanning over a dot-free range does not move the last-dot position.
proof fn lemma_rlast_scan(q: Seq<u8>, s: int, i: int)
    requires
        0 <= s,
        s - 1 <= i < q.len(),
        forall|m: int| s <= m <= i ==> q[m] != 46,
    ensures
        rlast_dot(q, i) == rlast_dot(q, s - 1),
    decreases i - s + 1,
{
    if i >= s {
        lemma_rlast_scan(q, s, i - 1);
    }
}

/// In a path whose bytes from `s` to `e` hold no dot, and where `s` is the
/// start of a segment, the prefix of length `e` has its last dot right
/// before `s` (or none when `s` starts the path).
pub proof fn lemma_segment_structure(p: Seq<u8>, s: int, e: int)
    requires
        0 <= s <= e <= p.len(),
        forall|m: int| s <= m < e ==> p[m] != 46,
        s == 0 || p[s - 1] == 46,
    ensures
        s == 0 ==> last_dot(p.subrange(0, e)) is None,
        s > 0 ==> last_dot(p.subrange(0, e)) == Some(s - 1),
        tag_name_of(p.subrange(0, e)) == p.subrange(s, e),
        s == 0 ==> parent_path(p.subrange(0, e)) is None,
        s > 0 ==> parent_path(p.subrange(0, e)) == Some(p.subrange(0, s - 1)),
{
    let q = p.subrange(0, e);
    assert(forall|m: int| s <= m < e ==> q[m] == p[m]);
    if e > 0 {
        lemma_rlast_scan(q, s, e - 1);
    }
    if s == 0 {
        if e > 0 {
            assert(rlast_dot(q, -1) is None);
        }
        assert(last_dot(q) is None);
        assert(tag_name_of(q) == q);
        assert(q =~= p.subrange(s, e));
    } else {
        assert(q[s - 1] == 46);
        assert(rlast_dot(q, s - 1) == Some(s - 1));
        assert(last_dot(q) == Some(s - 1));
        assert(q.subrange(s, e as int) =~= p.subrange(s, e));
        assert(q.subrange(0, s - 1) =~= p.subrange(0, s - 1));
    }
}

proof fn lemma_rlast_dot_bounds(p: Seq<u8>, i: int)
    requires
        rlast_dot(p, i) is Some,
    ensures
        0 <= rlast_dot(p, i)->Some_0 <= i,
        rlast_dot(p, i)->Some_0 < p.len(),
        p[rlast_dot(p, i)->Some_0] == 46,
    decreases i + 1,
{
    if i < 0 || i >= p.len() {
    } else if p[i] == 46 {
    } else {
        lemma_rlast_dot_bounds(p, i - 1);
    }
}

/// A parent path is strictly shorter than the path itself.
pub proof fn lemma_parent_path_shorter(q: Seq<u8>)
    requires
        parent_path(q) is Some,
    ensures
        parent_path(q)->Some_0.len() < q.len(),
{
    lemma_rlast_dot_bounds(q, q.len() - 1);
}

/// Membership test for handle vectors.
pub fn contains_idx(v: &Vec<usize>, x: usize) -> (r: bool)
    ensures
        r <==> v@.contains(x),
{
    let n = v.len();
    let mut i: usize = 0;
    while i < n
        invariant
            n == v@.len(),
            i <= n,
            forall|m: int| 0 <= m < i ==> v@[m] != x,
        decreases n - i,
    {
        if v[i] == x {
            return true;
        }
        i += 1;
    }
    assert(!v@.contains(x));
    false
}

/// Add `x` to the handle set `v` unless already present.
pub fn push_unique(v: &mut Vec<usize>, x: usize)
    requires
        old(v)@.no_duplicates(),
    ensures
        final(v)@.no_duplicates(),
        forall|y: usize| #[trigger] final(v)@.contains(y) <==> old(v)@.contains(y) || y == x,
{
    if !contains_idx(v, x) {
        let ghost pre = v@;
        v.push(x);
        proof {
            assert forall|y: usize| #[trigger] v@.contains(y) <==> pre.contains(y) || y == x by {
                if v@.contains(y) {
                    let w = choose|w: int| 0 <= w < v@.len() && v@[w] == y;
                    if w < pre.len() {
                        assert(pre[w] == y);
                        assert(pre.contains(y));
                    }
                }
                if pre.contains(y) {
                    let w = choose|w: int| 0 <= w < pre.len() && pre[w] == y;
                    assert(v@[w] == y);
                }
                assert(v@[v@.len() - 1] == x);
            }
            assert(v@.no_duplicates()) by {
                assert(forall|i: int, j: int|
                    0 <= i < j < v@.len() ==> v@[i] != v@[j]) by {
                    assert forall|i: int, j: int| 0 <= i < j < v@.len() implies v@[i] != v@[j] by {
                        if j < pre.len() {
                        } else {
                            assert(v@[j] == x);
                            assert(v@[i] == pre[i]);
                            assert(pre.contains(pre[i]));
                        }
                    }
                }
            }
        }
    }
}

/// Remove every occurrence of `x` from the handle set `v`.
pub fn remove_val(v: &mut Vec<usize>, x: usize)
    requires
        old(v)@.no_duplicates(),
    ensures
        final(v)@.no_duplicates(),
        !final(v)@.contains(x),
        forall|y: usize|
            y != x ==> (#[trigger] final(v)@.contains(y) <==> old(v)@.contains(y)),
{
    let n = v.len();
    let mut out: Vec<usize> = Vec::new();
    let mut i: usize = 0;
    while i < n
        invariant
            n == v@.len(),
            v@ == old(v)@,
            v@.no_duplicates(),
            i <= n,
            out@.no_duplicates(),
            !out@.contains(x),
            forall|y: usize| #[trigger]
                out@.contains(y) ==> y != x && exists|m: int| 0 <= m < i && v@[m] == y,
            forall|m: int| 0 <= m < i && v@[m] != x ==> out@.contains(v@[m]),
        decreases n - i,
    {
        let b = v[i];
        if b != x {
            let ghost pre = out@;
            proof {
                if pre.contains(b) {
                    let m = choose|m: int| 0 <= m < i && v@[m] == b;
                    assert(v@[m] == v@[i as int]);
                    assert(false);
                }
            }
            out.push(b);
            proof {
                assert forall|y: usize| #[trigger] out@.contains(y) implies y != x && exists|m: int|
                    0 <= m < i + 1 && v@[m] == y by {
                    let w = choose|w: int| 0 <= w < out@.len() && out@[w] == y;
                    if w < pre.len() {
                        assert(pre[w] == y);
                        assert(pre.contains(y));
                    } else {
                        assert(y == b);
                        assert(v@[i as int] == y);
                    }
                }
                assert forall|m: int| 0 <= m < i + 1 && v@[m] != x implies out@.contains(
                    v@[m],
                ) by {
                    if m < i {
                        assert(pre.contains(v@[m]));
                        let w = choose|w: int| 0 <= w < pre.len() && pre[w] == v@[m];
                        assert(out@[w] == v@[m]);
                    } else {
                        assert(out@[out@.len() - 1] == b);
                    }
                }
                assert(out@.no_duplicates()) by {
                    assert forall|p: int, q: int|
                        0 <= p < q < out@.len() implies out@[p] != out@[q] by {
                        if q < pre.len() {
                        } else {
                            assert(out@[q] == b);
                            assert(pre.contains(pre[p]));
                        }
                    }
                }
            }
        }
        i += 1;
    }
    proof {
        assert forall|y: usize| y != x implies (out@.contains(y) <==> v@.contains(y)) by {
            if out@.contains(y) {
                let m = choose|m: int| 0 <= m < i && v@[m] == y;
                assert(v@.contains(y));
            }
            if v@.contains(y) {
                let m = choose|m: int| 0 <= m < v@.len() && v@[m] == y;
                assert(out@.contains(v@[m]));
            }
        }
    }
    *v = out;
}

/// Some entry of the id list equals `id`.
pub open spec fn pending_holds(s: Seq<Vec<u8>>, id: Seq<u8>) -> bool {
    exists|m: int| 0 <= m < s.len() && (#[trigger] s[m])@ == id
}

/// A node of the tag graph.
pub struct TagNode {
    /// Unique dot-separated path of the tag.
    pub full_path: Vec<u8>,
    /// The part of the path after the last dot.
    pub name: Vec<u8>,
    /// Handles of the immediate child tags.
    pub children: Vec<usize>,
    /// Handles of the cards located exactly at this tag.
    pub direct_cards: Vec<usize>,
    /// Handles of the cards located at this tag or any descendant.
    pub indirect_cards: Vec<usize>,
}

/// One location of a card: the chain of tag handles from root to leaf.
pub struct CardPath {
    pub tags: Vec<usize>,
}

/// A stored card.
pub struct Card {
    pub id: Vec<u8>,
    pub name: Vec<u8>,
    /// The dotted location paths, as written in the card marker.
    pub locations: Vec<Vec<u8>>,
    /// The tag chains resolved from `locations`, one per location.
    pub paths: Vec<CardPath>,
    pub header: Option<Header>,
    pub question: Vec<u8>,
    pub answer: Vec<u8>,
}

/// The tag graph and card index.
pub struct CardStore {
    /// Fingerprint of the remote content last successfully synced.
    pub sha: Vec<u8>,
    /// Tag arena; tags are never removed.
    pub tags: Vec<TagNode>,
    /// Card arena; a collected card leaves an empty slot so that the
    /// handles of the other cards stay valid.
    pub cards: Vec<Option<Card>>,
    /// Handles of the tags without a parent.
    pub roots: Vec<usize>,
    /// Ids marked for removal during the current reconciliation pass.
    pub pending_removal: Vec<Vec<u8>>,
    /// Identity token handed to the next parsed header.
    pub next_header_token: u64,
}

impl CardStore {
    /// Card slot `j` holds a card.
    pub open spec fn live(self, j: int) -> bool {
        0 <= j < self.cards@.len() && self.cards@[j] is Some
    }

    /// The card in slot `j`.
    pub open spec fn card_at(self, j: int) -> Card {
        self.cards@[j]->Some_0
    }

    /// Some live card carries the id.
    pub open spec fn has_id(self, id: Seq<u8>) -> bool {
        exists|j: int| self.live(j) && self.card_at(j).id@ == id
    }

    /// Some tag carries the full path.
    pub open spec fn has_tag_path(self, p: Seq<u8>) -> bool {
        exists|t: int| 0 <= t < self.tags@.len() && self.tags@[t].full_path@ == p
    }

    /// Card `j` has a location whose leaf is tag `t`.
    pub open spec fn card_has_leaf(self, j: int, t: int) -> bool {
        exists|k: int|
            0 <= k < self.card_at(j).paths@.len() && self.card_at(j).paths@[k].tags@.len() > 0
                && self.card_at(j).paths@[k].tags@.last() as int == t
    }

    /// Card `j` has a location whose chain passes through tag `t`.
    pub open spec fn card_touches(self, j: int, t: int) -> bool {
        exists|k: int, m: int|
            0 <= k < self.card_at(j).paths@.len() && 0 <= m < self.card_at(
                j,
            ).paths@[k].tags@.len() && self.card_at(j).paths@[k].tags@[m] as int == t
    }

    /// A root-to-leaf chain of tag handles resolving the dotted path `loc`.
    pub open spec fn chain_ok(self, chain: Seq<usize>, loc: Seq<u8>) -> bool {
        &&& chain.len() > 0
        &&& forall|m: int| 0 <= m < chain.len() ==> (#[trigger] chain[m] as int)
            < self.tags@.len()
        &&& self.tags@[chain.last() as int].full_path@ == loc
        &&& parent_path(self.tags@[chain[0] as int].full_path@) is None
        &&& forall|m: int|
            0 <= m < chain.len() - 1 ==> parent_path(
                self.tags@[#[trigger] chain[m + 1] as int].full_path@,
            ) == Some(self.tags@[chain[m] as int].full_path@)
    }

    /// The stored chains of card `j` resolve its dotted locations.
    pub open spec fn card_ok(self, j: int) -> bool {
        let c = self.card_at(j);
        &&& c.paths@.len() == c.locations@.len()
        &&& forall|k: int|
            0 <= k < c.paths@.len() ==> self.chain_ok(
                (#[trigger] c.paths@[k]).tags@,
                c.locations@[k]@,
            )
    }

    /// Local shape of tag `t`: its name matches its path, and its handle
    /// sets are duplicate-free with in-range tag handles.
    pub open spec fn tag_ok(self, t: int) -> bool {
        let tg = self.tags@[t];
        &&& tg.name@ == tag_name_of(tg.full_path@)
        &&& tg.children@.no_duplicates()
        &&& forall|c: usize| #[trigger] tg.children@.contains(c) ==> (c as int)
            < self.tags@.len()
        &&& tg.direct_cards@.no_duplicates()
        &&& tg.indirect_cards@.no_duplicates()
    }

    /// Tag paths are unique: distinct handles name distinct paths.
    pub open spec fn paths_unique(self) -> bool {
        forall|i: int, j: int|
            0 <= i < j < self.tags@.len() ==> self.tags@[i].full_path@ != self.tags@[j].full_path@
    }

    /// A tag is a child of `p` exactly when its path extends `p`'s by one
    /// segment.
    pub open spec fn children_ok(self) -> bool {
        forall|p: int, c: usize|
            0 <= p < self.tags@.len() ==> ((#[trigger] self.tags@[p].children@.contains(c)) <==> (
            c as int) < self.tags@.len() && parent_path(self.tags@[c as int].full_path@) == Some(
                self.tags@[p].full_path@,
            ))
    }

    /// A tag is a root exactly when its path has no parent.
    pub open spec fn roots_ok(self) -> bool {
        &&& self.roots@.no_duplicates()
        &&& forall|t: usize|
            (#[trigger] self.roots@.contains(t)) <==> (t as int) < self.tags@.len() && parent_path(
                self.tags@[t as int].full_path@,
            ) is None
    }

    /// Every parent path named by a tag exists in the arena.
    pub open spec fn parents_present(self) -> bool {
        forall|t: int|
            0 <= t < self.tags@.len() && parent_path(
                (#[trigger] self.tags@[t]).full_path@,
            ) is Some ==> self.has_tag_path(parent_path(self.tags@[t].full_path@)->Some_0)
    }

    /// Live cards carry pairwise distinct ids.
    pub open spec fn ids_unique(self) -> bool {
        forall|i: int, j: int|
            0 <= i < j < self.cards@.len() && self.live(i) && self.live(j) ==> self.card_at(
                i,
            ).id@ != self.card_at(j).id@
    }

    /// A card stands in a tag's direct set exactly when the tag is the leaf
    /// of one of its locations.
    pub open spec fn direct_ok(self) -> bool {
        forall|t: int, j: usize|
            0 <= t < self.tags@.len() ==> ((#[trigger] self.tags@[t].direct_cards@.contains(j))
                <==> self.live(j as int) && self.card_has_leaf(j as int, t))
    }

    /// A card stands in a tag's indirect set exactly when one of its
    /// location chains passes through the tag.
    pub open spec fn indirect_ok(self) -> bool {
        forall|t: int, j: usize|
            0 <= t < self.tags@.len() ==> ((#[trigger] self.tags@[t].indirect_cards@.contains(j))
                <==> self.live(j as int) && self.card_touches(j as int, t))
    }

    /// Well-formedness of everything but the tag-to-card membership sets.
    pub open spec fn wf_core(self) -> bool {
        &&& forall|t: int| 0 <= t < self.tags@.len() ==> self.tag_ok(t)
        &&& self.paths_unique()
        &&& self.children_ok()
        &&& self.roots_ok()
        &&& self.parents_present()
        &&& self.ids_unique()
        &&& forall|j: int| self.live(j) ==> self.card_ok(j)
    }

    /// Well-formedness of the whole store.
    pub open spec fn wf(self) -> bool {
        &&& self.wf_core()
        &&& self.direct_ok()
        &&& self.indirect_ok()
    }

    /// Card handle `j` stands in no tag's card sets.
    pub open spec fn sets_clear_of(self, j: usize) -> bool {
        forall|t: int|
            0 <= t < self.tags@.len() ==> !(#[trigger] self.tags@[t]).direct_cards@.contains(j)
                && !self.tags@[t].indirect_cards@.contains(j)
    }

    /// The membership sets are right for every card but `j`.
    pub open spec fn memb_ok_except(self, j: usize) -> bool {
        &&& forall|t: int, y: usize|
            0 <= t < self.tags@.len() && y != j ==> ((#[trigger] self.tags@[
            t].direct_cards@.contains(y)) <==> self.live(y as int) && self.card_has_leaf(
                y as int,
                t,
            ))
        &&& forall|t: int, y: usize|
            0 <= t < self.tags@.len() && y != j ==> ((#[trigger] self.tags@[
            t].indirect_cards@.contains(y)) <==> self.live(y as int) && self.card_touches(
                y as int,
                t,
            ))
    }

    /// An empty store.
    pub fn new() -> (r: CardStore)
        ensures
            r.wf(),
            r.tags@.len() == 0,
            r.cards@.len() == 0,
            r.roots@.len() == 0,
            r.pending_removal@.len() == 0,
            r.sha@.len() == 0,
            r.next_header_token == 0,
    {
        let r = CardStore {
            sha: Vec::new(),
            tags: Vec::new(),
            cards: Vec::new(),
            roots: Vec::new(),
            pending_removal: Vec::new(),
            next_header_token: 0,
        };
        proof {
            assert(forall|t: usize| !r.roots@.contains(t));
        }
        r
    }

    /// Handle of the tag with the given full path, if present.
    pub fn find_tag(&self, path: &Vec<u8>) -> (r: Option<usize>)
        ensures
            (match r {
                Some(t) => (t as int) < self.tags@.len() && self.tags@[t as int].full_path@
                    == path@,
                None => !self.has_tag_path(path@),
            }),
    {
        let n = self.tags.len();
        let mut i: usize = 0;
        while i < n
            invariant
                n == self.tags@.len(),
                i <= n,
                forall|t: int| 0 <= t < i ==> self.tags@[t].full_path@ != path@,
            decreases n - i,
        {
            if crate::bytes::bytes_eq(&self.tags[i].full_path, path) {
                return Some(i);
            }
            i += 1;
        }
        None
    }

    /// Nothing below the tag arena changed, and the arena itself only grew:
    /// existing tags keep their path, name and card sets, and can only gain
    /// children.
    pub open spec fn tags_extended(self, new: CardStore) -> bool {
        &&& new.tags@.len() >= self.tags@.len()
        &&& forall|t: int|
            0 <= t < self.tags@.len() ==> {
                &&& (#[trigger] new.tags@[t]).full_path@ == self.tags@[t].full_path@
                &&& new.tags@[t].name@ == self.tags@[t].name@
                &&& new.tags@[t].direct_cards@ == self.tags@[t].direct_cards@
                &&& new.tags@[t].indirect_cards@ == self.tags@[t].indirect_cards@
                &&& forall|c: usize|
                    self.tags@[t].children@.contains(c) ==> new.tags@[t].children@.contains(c)
            }
        &&& forall|t: int|
            self.tags@.len() <= t < new.tags@.len() ==> (#[trigger] new.tags@[t]).direct_cards@
                =~= Seq::<usize>::empty() && new.tags@[t].indirect_cards@ =~= Seq::<
                usize,
            >::empty()
        &&& new.cards@ == self.cards@
        &&& new.sha@ == self.sha@
        &&& new.pending_removal@ == self.pending_removal@
        &&& new.next_header_token == self.next_header_token
    }

    /// Resolve or create the tag for the path prefix `path[..e]`, whose last
    /// segment starts at `s`; `prev` is the handle of the prefix one segment
    /// shorter, if there is one.
    fn ensure_tag(&mut self, path: &Vec<u8>, s: usize, e: usize, prev: Option<usize>) -> (t: usize)
        requires
            old(self).wf(),
            s <= e <= path@.len(),
            forall|m: int| s <= m < e ==> path@[m] != 46,
            s == 0 || path@[s - 1] == 46,
            (match prev {
                Some(p) => s > 0 && (p as int) < old(self).tags@.len() && old(self).tags@[p
                    as int].full_path@ == path@.subrange(0, s - 1),
                None => s == 0,
            }),
        ensures
            final(self).wf(),
            old(self).tags_extended(*final(self)),
            (t as int) < final(self).tags@.len(),
            final(self).tags@[t as int].full_path@ == path@.subrange(0, e as int),
            old(self).has_tag_path(path@.subrange(0, e as int)) ==> *final(self) == *old(self),
    {
        proof {
            lemma_segment_structure(path@, s as int, e as int);
        }
        let prefix = subrange_vec(path, 0, e);
        match self.find_tag(&prefix) {
            Some(t) => {
                proof {
                    assert(old(self).has_tag_path(path@.subrange(0, e as int)));
                }
                t
            },
            None => {
                let idx = self.tags.len();
                let name = subrange_vec(path, s, e);
                let node = TagNode {
                    full_path: prefix,
                    name,
                    children: Vec::new(),
                    direct_cards: Vec::new(),
                    indirect_cards: Vec::new(),
                };
                let ghost pre = *self;
                self.tags.push(node);
                let ghost mid = *self;
                match prev {
                    Some(p) => {
                        proof {
                            assert(old(self).tag_ok(p as int));
                        }
                        let parent = &mut self.tags[p];
                        push_unique(&mut parent.children, idx);
                    },
                    None => {
                        push_unique(&mut self.roots, idx);
                    },
                }
                proof {
                    let fin = *self;
                    let q = path@.subrange(0, e as int);
                    // Arena growth facts
                    assert(fin.tags@.len() == pre.tags@.len() + 1);
                    assert(fin.tags@[idx as int].full_path@ == q);
                    assert(fin.tags@[idx as int].name@ == tag_name_of(q));
                    assert(forall|u: int|
                        0 <= u < pre.tags@.len() && u != (match prev {
                            Some(p) => p as int,
                            None => -1,
                        }) ==> fin.tags@[u] == pre.tags@[u]);

                    assert(fin.wf() && pre.tags_extended(fin)) by {
                        Self::lemma_create_tag_wf(pre, fin, q, idx as int, prev);
                    }
                    assert(!old(self).has_tag_path(q));
                }
                idx
            },
        }
    }

    /// Creating a fresh tag, linked under its parent (or among the roots),
    /// preserves well-formedness.
    proof fn lemma_create_tag_wf(
        pre: CardStore,
        fin: CardStore,
        q: Seq<u8>,
        idx: int,
        prev: Option<usize>,
    )
        requires
            pre.wf(),
            !pre.has_tag_path(q),
            idx == pre.tags@.len(),
            fin.tags@.len() == idx + 1,
            forall|u: int|
                0 <= u < idx ==> {
                    &&& (#[trigger] fin.tags@[u]).full_path@ == pre.tags@[u].full_path@
                    &&& fin.tags@[u].name@ == pre.tags@[u].name@
                    &&& fin.tags@[u].direct_cards@ == pre.tags@[u].direct_cards@
                    &&& fin.tags@[u].indirect_cards@ == pre.tags@[u].indirect_cards@
                },
            (match prev {
                Some(p) => {
                    &&& 0 <= (p as int) < idx
                    &&& parent_path(q) == Some(pre.tags@[p as int].full_path@)
                    &&& forall|u: int|
                        0 <= u < idx && u != p as int ==> (#[trigger] fin.tags@[u]).children@
                            == pre.tags@[u].children@
                    &&& forall|c: usize|
                        (#[trigger] fin.tags@[p as int].children@.contains(c)) <==> pre.tags@[p
                            as int].children@.contains(c) || (c as int) == idx
                    &&& fin.tags@[p as int].children@.no_duplicates()
                    &&& fin.roots@ == pre.roots@
                },
                None => {
                    &&& parent_path(q) is None
                    &&& forall|u: int|
                        0 <= u < idx ==> (#[trigger] fin.tags@[u]).children@ == pre.tags@[
                        u].children@
                    &&& forall|c: usize|
                        (#[trigger] fin.roots@.contains(c)) <==> pre.roots@.contains(c) || (c
                            as int) == idx
                    &&& fin.roots@.no_duplicates()
                },
            }),
            fin.tags@[idx].full_path@ == q,
            fin.tags@[idx].name@ == tag_name_of(q),
            fin.tags@[idx].children@ =~= Seq::<usize>::empty(),
            fin.tags@[idx].direct_cards@ =~= Seq::<usize>::empty(),
            fin.tags@[idx].indirect_cards@ =~= Seq::<usize>::empty(),
            fin.cards@ == pre.cards@,
            fin.sha@ == pre.sha@,
            fin.pending_removal@ == pre.pending_removal@,
            fin.next_header_token == pre.next_header_token,
        ensures
            fin.wf(),
            pre.tags_extended(fin),
    {
        let ghost pidx: int = match prev {
            Some(p) => p as int,
            None => -1,
        };
        assert forall|t: int| 0 <= t < fin.tags@.len() implies fin.tag_ok(t) by {
            if t < idx {
                assert(pre.tag_ok(t));
                if t == pidx {
                    assert forall|c: usize| #[trigger]
                        fin.tags@[t].children@.contains(c) implies (c as int)
                        < fin.tags@.len() by {
                        if (c as int) != idx {
                            assert(pre.tags@[t].children@.contains(c));
                        }
                    }
                } else {
                    assert(fin.tags@[t].children@ == pre.tags@[t].children@);
                }
            }
        }
        assert(fin.paths_unique()) by {
            assert forall|i: int, j: int| 0 <= i < j < fin.tags@.len() implies fin.tags@[
                i].full_path@ != fin.tags@[j].full_path@ by {
                if j < idx {
                    assert(pre.tags@[i].full_path@ != pre.tags@[j].full_path@);
                } else {
                    if fin.tags@[i].full_path@ == q {
                        assert(pre.tags@[i].full_path@ == q);
                        assert(pre.has_tag_path(q));
                    }
                }
            }
        }
        assert(fin.children_ok()) by {
            assert forall|p2: int, c: usize| 0 <= p2 < fin.tags@.len() implies ((
            #[trigger] fin.tags@[p2].children@.contains(c)) <==> (c as int) < fin.tags@.len()
                && parent_path(fin.tags@[c as int].full_path@) == Some(
                fin.tags@[p2].full_path@,
            )) by {
                if p2 == idx {
                    // The fresh tag has no children, and no tag's parent path
                    // can be `q`: such a tag would already have made `q` exist.
                    if (c as int) < fin.tags@.len() && parent_path(fin.tags@[c as int].full_path@)
                        == Some(q) {
                        if (c as int) < idx {
                            assert(pre.parents_present());
                            assert(pre.has_tag_path(
                                parent_path(pre.tags@[c as int].full_path@)->Some_0,
                            ));
                            assert(pre.has_tag_path(q));
                        } else {
                            assert(parent_path(q) == Some(q));
                            lemma_parent_path_shorter(q);
                        }
                    }
                } else if p2 == pidx {
                    if (c as int) == idx {
                        assert(fin.tags@[p2].children@.contains(c));
                    } else if fin.tags@[p2].children@.contains(c) {
                        assert(pre.tags@[p2].children@.contains(c));
                        assert((c as int) < idx);
                    } else {
                        if (c as int) < idx && parent_path(fin.tags@[c as int].full_path@) == Some(
                            fin.tags@[p2].full_path@,
                        ) {
                            assert(pre.tags@[p2].children@.contains(c));
                        }
                    }
                } else {
                    if fin.tags@[p2].children@.contains(c) {
                        assert(pre.tags@[p2].children@.contains(c));
                        assert((c as int) < idx);
                    } else {
                        if (c as int) < idx && parent_path(fin.tags@[c as int].full_path@) == Some(
                            fin.tags@[p2].full_path@,
                        ) {
                            assert(pre.tags@[p2].children@.contains(c));
                        } else if (c as int) == idx && parent_path(q) == Some(
                            fin.tags@[p2].full_path@,
                        ) {
                            // Only the designated parent can match: paths are
                            // unique.
                            match prev {
                                Some(p) => {
                                    assert(pre.tags@[p as int].full_path@ == pre.tags@[
                                    p2].full_path@);
                                    assert(false);
                                },
                                None => {
                                    assert(false);
                                },
                            }
                        }
                    }
                }
            }
        }
        assert(fin.roots_ok()) by {
            assert forall|c: usize| (#[trigger] fin.roots@.contains(c)) <==> (c as int)
                < fin.tags@.len() && parent_path(fin.tags@[c as int].full_path@) is None by {
                match prev {
                    Some(p) => {
                        if fin.roots@.contains(c) {
                            assert(pre.roots@.contains(c));
                            assert((c as int) < idx);
                        }
                        if (c as int) < fin.tags@.len() && parent_path(
                            fin.tags@[c as int].full_path@,
                        ) is None {
                            if (c as int) < idx {
                                assert(pre.roots@.contains(c));
                            } else {
                                assert(parent_path(q) is Some);
                            }
                        }
                    },
                    None => {
                        if fin.roots@.contains(c) && (c as int) != idx {
                            assert(pre.roots@.contains(c));
                            assert((c as int) < idx);
                        }
                        if (c as int) < idx && parent_path(fin.tags@[c as int].full_path@)
                            is None {
                            assert(pre.roots@.contains(c));
                        }
                    },
                }
            }
        }
        assert(fin.parents_present()) by {
            assert forall|t: int|
                0 <= t < fin.tags@.len() && parent_path(
                    (#[trigger] fin.tags@[t]).full_path@,
                ) is Some implies fin.has_tag_path(parent_path(fin.tags@[t].full_path@)->Some_0) by {
                if t < idx {
                    assert(pre.has_tag_path(parent_path(pre.tags@[t].full_path@)->Some_0));
                    let w = choose|w: int|
                        0 <= w < pre.tags@.len() && pre.tags@[w].full_path@ == parent_path(
                            pre.tags@[t].full_path@,
                        )->Some_0;
                    assert(fin.tags@[w].full_path@ == parent_path(fin.tags@[t].full_path@)->Some_0);
                } else {
                    match prev {
                        Some(p) => {
                            assert(fin.tags@[p as int].full_path@ == parent_path(q)->Some_0);
                        },
                        None => {},
                    }
                }
            }
        }
        assert(forall|j: int| fin.live(j) == pre.live(j));
        assert(forall|j: int| fin.live(j) ==> fin.card_at(j) == pre.card_at(j));
        assert(fin.ids_unique());
        assert forall|j: int| fin.live(j) implies fin.card_ok(j) by {
            assert(pre.card_ok(j));
            let c = fin.card_at(j);
            assert forall|k: int| 0 <= k < c.paths@.len() implies fin.chain_ok(
                (#[trigger] c.paths@[k]).tags@,
                c.locations@[k]@,
            ) by {
                let chain = c.paths@[k].tags@;
                assert(pre.chain_ok(chain, c.locations@[k]@));
                assert(forall|m: int|
                    0 <= m < chain.len() ==> (#[trigger] chain[m] as int) < pre.tags@.len());
                assert(fin.tags@[chain.last() as int].full_path@ == pre.tags@[chain.last()
                    as int].full_path@);
                assert(forall|m: int|
                    0 <= m < chain.len() - 1 ==> parent_path(
                        fin.tags@[#[trigger] chain[m + 1] as int].full_path@,
                    ) == Some(fin.tags@[chain[m] as int].full_path@));
            }
        }
        assert(fin.direct_ok()) by {
            assert forall|t: int, j: usize| 0 <= t < fin.tags@.len() implies ((
            #[trigger] fin.tags@[t].direct_cards@.contains(j)) <==> fin.live(j as int)
                && fin.card_has_leaf(j as int, t)) by {
                if t < idx {
                    assert(pre.tags@[t].direct_cards@.contains(j) <==> pre.live(j as int)
                        && pre.card_has_leaf(j as int, t));
                    assert(fin.card_has_leaf(j as int, t) == pre.card_has_leaf(j as int, t));
                } else {
                    if fin.live(j as int) && fin.card_has_leaf(j as int, t) {
                        assert(pre.card_ok(j as int));
                        let k = choose|k: int|
                            0 <= k < fin.card_at(j as int).paths@.len() && fin.card_at(
                                j as int,
                            ).paths@[k].tags@.len() > 0 && fin.card_at(j as int).paths@[k].tags@.last()
                                as int == t;
                        assert(pre.chain_ok(
                            pre.card_at(j as int).paths@[k].tags@,
                            pre.card_at(j as int).locations@[k]@,
                        ));
                        assert(false);
                    }
                }
            }
        }
        assert(fin.indirect_ok()) by {
            assert forall|t: int, j: usize| 0 <= t < fin.tags@.len() implies ((
            #[trigger] fin.tags@[t].indirect_cards@.contains(j)) <==> fin.live(j as int)
                && fin.card_touches(j as int, t)) by {
                if t < idx {
                    assert(pre.tags@[t].indirect_cards@.contains(j) <==> pre.live(j as int)
                        && pre.card_touches(j as int, t));
                    assert(fin.card_touches(j as int, t) == pre.card_touches(j as int, t));
                } else {
                    if fin.live(j as int) && fin.card_touches(j as int, t) {
                        assert(pre.card_ok(j as int));
                        let (k, m): (int, int) = choose|k: int, m: int|
                            0 <= k < fin.card_at(j as int).paths@.len() && 0 <= m < fin.card_at(
                                j as int,
                            ).paths@[k].tags@.len() && fin.card_at(j as int).paths@[k].tags@[m]
                                as int == t;
                        assert(pre.chain_ok(
                            pre.card_at(j as int).paths@[k].tags@,
                            pre.card_at(j as int).locations@[k]@,
                        ));
                        assert(false);
                    }
                }
            }
        }
        assert(pre.tags_extended(fin)) by {
            assert forall|t: int| 0 <= t < pre.tags@.len() implies {
                &&& (#[trigger] fin.tags@[t]).full_path@ == pre.tags@[t].full_path@
                &&& fin.tags@[t].name@ == pre.tags@[t].name@
                &&& fin.tags@[t].direct_cards@ == pre.tags@[t].direct_cards@
                &&& fin.tags@[t].indirect_cards@ == pre.tags@[t].indirect_cards@
                &&& forall|c: usize|
                    pre.tags@[t].children@.contains(c) ==> fin.tags@[t].children@.contains(c)
            } by {
                if t == pidx {
                    assert(forall|c: usize|
                        pre.tags@[t].children@.contains(c) ==> fin.tags@[t].children@.contains(c));
                } else {
                    assert(fin.tags@[t].children@ == pre.tags@[t].children@);
                }
            }
        }
    }

    /// Extension of the tag arena composes.
    pub proof fn lemma_tags_extended_trans(a: CardStore, b: CardStore, c: CardStore)
        requires
            a.tags_extended(b),
            b.tags_extended(c),
        ensures
            a.tags_extended(c),
    {
        assert forall|t: int| 0 <= t < a.tags@.len() implies {
            &&& (#[trigger] c.tags@[t]).full_path@ == a.tags@[t].full_path@
            &&& c.tags@[t].name@ == a.tags@[t].name@
            &&& c.tags@[t].direct_cards@ == a.tags@[t].direct_cards@
            &&& c.tags@[t].indirect_cards@ == a.tags@[t].indirect_cards@
            &&& forall|x: usize|
                a.tags@[t].children@.contains(x) ==> c.tags@[t].children@.contains(x)
        } by {
            assert(b.tags@[t].full_path@ == a.tags@[t].full_path@);
        }
    }

    /// Resolve the whole chain of tags for a dotted path, creating every
    /// prefix that is missing, each linked under the one before it.  The
    /// result lists the tag of each prefix, root first; its last element is
    /// the tag of the full path.
    pub fn register_path(&mut self, path: &Vec<u8>) -> (chain: Vec<usize>)
        requires
            old(self).wf(),
            path@.len() < usize::MAX - 1,
        ensures
            final(self).wf(),
            old(self).tags_extended(*final(self)),
            final(self).chain_ok(chain@, path@),
    {
        let n = path.len();
        let mut chain: Vec<usize> = Vec::new();
        let mut seg_start: usize = 0;
        let mut i: usize = 0;
        while i <= n
            invariant
                self.wf(),
                old(self).tags_extended(*self),
                n == path@.len(),
                n < usize::MAX - 1,
                seg_start <= i <= n + 1,
                i == n + 1 ==> seg_start == n + 1,
                forall|m: int| seg_start <= m < i && m < n ==> path@[m] != 46,
                seg_start == 0 || (seg_start <= n && path@[seg_start - 1] == 46) || seg_start == n
                    + 1,
                (chain@.len() == 0 <==> seg_start == 0),
                chain@.len() > 0 ==> seg_start >= 1 && (chain@.last() as int) < self.tags@.len()
                    && self.tags@[chain@.last() as int].full_path@ == path@.subrange(
                    0,
                    seg_start - 1,
                ),
                forall|m: int| 0 <= m < chain@.len() ==> (#[trigger] chain@[m] as int)
                    < self.tags@.len(),
                forall|m: int|
                    0 <= m < chain@.len() - 1 ==> parent_path(
                        self.tags@[#[trigger] chain@[m + 1] as int].full_path@,
                    ) == Some(self.tags@[chain@[m] as int].full_path@),
                chain@.len() > 0 ==> parent_path(self.tags@[chain@[0] as int].full_path@) is None,
            decreases n + 1 - i,
        {
            let is_boundary = if i == n {
                true
            } else {
                path[i] == 46
            };
            if is_boundary {
                let prevt: Option<usize> = if chain.len() > 0 {
                    Some(chain[chain.len() - 1])
                } else {
                    None
                };
                let ghost mid = *self;
                let t = self.ensure_tag(path, seg_start, i, prevt);
                proof {
                    Self::lemma_tags_extended_trans(*old(self), mid, *self);
                    lemma_segment_structure(path@, seg_start as int, i as int);
                }
                let ghost oldchain = chain@;
                chain.push(t);
                proof {
                    assert(chain@.drop_last() =~= oldchain);
                    assert(chain@.last() == t);
                    assert forall|m: int|
                        0 <= m < chain@.len() - 1 implies parent_path(
                        self.tags@[#[trigger] chain@[m + 1] as int].full_path@,
                    ) == Some(self.tags@[chain@[m] as int].full_path@) by {
                        if m + 1 < chain@.len() - 1 {
                            assert(chain@[m + 1] == oldchain[m + 1]);
                            assert(chain@[m] == oldchain[m]);
                            assert(mid.tags@[oldchain[m + 1] as int].full_path@ == self.tags@[
                            oldchain[m + 1] as int].full_path@);
                            assert(mid.tags@[oldchain[m] as int].full_path@ == self.tags@[oldchain[m]
                                as int].full_path@);
                        } else {
                            // The new last element extends the previous prefix.
                            assert(chain@[m] == oldchain[m]);
                            assert(oldchain.len() > 0);
                            assert(chain@[m + 1] == t);
                        }
                    }
                }
                seg_start = i + 1;
            }
            i += 1;
        }
        proof {
            assert(seg_start == n + 1);
            assert(path@.subrange(0, n as int) =~= path@);
        }
        chain
    }

    /// All structure except the card sets is unchanged, pointwise.
    pub open spec fn same_but_card_sets(self, new: CardStore) -> bool {
        &&& new.tags@.len() == self.tags@.len()
        &&& forall|t: int|
            0 <= t < self.tags@.len() ==> {
                &&& (#[trigger] new.tags@[t]).full_path@ == self.tags@[t].full_path@
                &&& new.tags@[t].name@ == self.tags@[t].name@
                &&& new.tags@[t].children@ == self.tags@[t].children@
            }
        &&& new.cards@ == self.cards@
        &&& new.roots@ == self.roots@
        &&& new.sha@ == self.sha@
        &&& new.pending_removal@ == self.pending_removal@
        &&& new.next_header_token == self.next_header_token
    }

    /// Membership of every card but `j` is unchanged, pointwise.
    pub open spec fn same_memb_except(self, new: CardStore, j: usize) -> bool {
        &&& forall|t: int, y: usize|
            0 <= t < self.tags@.len() && y != j ==> ((#[trigger] new.tags@[
            t].direct_cards@.contains(y)) <==> self.tags@[t].direct_cards@.contains(y))
        &&& forall|t: int, y: usize|
            0 <= t < self.tags@.len() && y != j ==> ((#[trigger] new.tags@[
            t].indirect_cards@.contains(y)) <==> self.tags@[t].indirect_cards@.contains(y))
    }

    /// Remove card handle `j` from every tag's card sets.
    fn unregister_card(&mut self, j: usize)
        requires
            forall|t: int| 0 <= t < old(self).tags@.len() ==> old(self).tag_ok(t),
        ensures
            old(self).same_but_card_sets(*final(self)),
            old(self).same_memb_except(*final(self), j),
            final(self).sets_clear_of(j),
            forall|t: int|
                0 <= t < final(self).tags@.len() ==> (#[trigger] final(self).tags@[
                t].direct_cards@.no_duplicates() && final(self).tags@[
                t].indirect_cards@.no_duplicates()),
    {
        let n = self.tags.len();
        proof {
            assert forall|u: int| 0 <= u < self.tags@.len() implies (#[trigger] self.tags@[
            u]).direct_cards@.no_duplicates() && self.tags@[u].indirect_cards@.no_duplicates() by {
                assert(old(self).tag_ok(u));
            }
        }
        let mut t: usize = 0;
        while t < n
            invariant
                n == self.tags@.len(),
                t <= n,
                old(self).same_but_card_sets(*self),
                old(self).same_memb_except(*self, j),
                forall|u: int| 0 <= u < old(self).tags@.len() ==> old(self).tag_ok(u),
                forall|u: int|
                    0 <= u < t ==> !(#[trigger] self.tags@[u]).direct_cards@.contains(j) && !self.tags@[
                    u].indirect_cards@.contains(j),
                forall|u: int|
                    0 <= u < self.tags@.len() ==> (#[trigger] self.tags@[
                    u].direct_cards@.no_duplicates() && self.tags@[
                    u].indirect_cards@.no_duplicates()),
                forall|u: int|
                    t <= u < self.tags@.len() ==> (#[trigger] self.tags@[u]).direct_cards@ == old(
                        self,
                    ).tags@[u].direct_cards@ && self.tags@[u].indirect_cards@ == old(self).tags@[
                    u].indirect_cards@,
            decreases n - t,
        {
            proof {
                assert(old(self).tag_ok(t as int));
            }
            let node = &mut self.tags[t];
            remove_val(&mut node.direct_cards, j);
            remove_val(&mut node.indirect_cards, j);
            t += 1;
        }
    }

    /// A chain element strictly before lexicographic position `(k, m)`
    /// equals `t`.
    pub open spec fn touches_upto(c: Card, t: int, k: int, m: int) -> bool {
        exists|k2: int, m2: int|
            0 <= k2 < c.paths@.len() && 0 <= m2 < c.paths@[k2].tags@.len() && (k2 < k || (k2 == k
                && m2 < m)) && (#[trigger] c.paths@[k2].tags@[m2]) as int == t
    }

    /// A location with index below `k` has leaf `t`.
    pub open spec fn leaf_upto(c: Card, t: int, k: int) -> bool {
        exists|k2: int|
            0 <= k2 < k && k2 < c.paths@.len() && (#[trigger] c.paths@[k2]).tags@.len() > 0
                && c.paths@[k2].tags@.last() as int == t
    }

    proof fn lemma_touch_step(c: Card, t: int, k: int, m: int)
        requires
            0 <= k < c.paths@.len(),
            0 <= m < c.paths@[k].tags@.len(),
        ensures
            Self::touches_upto(c, t, k, m + 1) <==> (Self::touches_upto(c, t, k, m)
                || c.paths@[k].tags@[m] as int == t),
    {
        if Self::touches_upto(c, t, k, m + 1) {
            let (k2, m2) = choose|k2: int, m2: int|
                0 <= k2 < c.paths@.len() && 0 <= m2 < c.paths@[k2].tags@.len() && (k2 < k || (k2
                    == k && m2 < m + 1)) && (#[trigger] c.paths@[k2].tags@[m2]) as int == t;
            if !(k2 == k && m2 == m) {
                assert(Self::touches_upto(c, t, k, m));
            }
        }
        if Self::touches_upto(c, t, k, m) {
            let (k2, m2) = choose|k2: int, m2: int|
                0 <= k2 < c.paths@.len() && 0 <= m2 < c.paths@[k2].tags@.len() && (k2 < k || (k2
                    == k && m2 < m)) && (#[trigger] c.paths@[k2].tags@[m2]) as int == t;
            assert(Self::touches_upto(c, t, k, m + 1));
        }
        if c.paths@[k].tags@[m] as int == t {
            assert(0 <= k < c.paths@.len() && 0 <= m < c.paths@[k].tags@.len() && (k < k || (k == k
                && m < m + 1)) && c.paths@[k].tags@[m] as int == t);
            assert(Self::touches_upto(c, t, k, m + 1));
        }
    }

    proof fn lemma_touch_next_loc(c: Card, t: int, k: int)
        requires
            0 <= k < c.paths@.len(),
        ensures
            Self::touches_upto(c, t, k + 1, 0) <==> Self::touches_upto(
                c,
                t,
                k,
                c.paths@[k].tags@.len() as int,
            ),
    {
        let e = c.paths@[k].tags@.len() as int;
        if Self::touches_upto(c, t, k + 1, 0) {
            let (k2, m2) = choose|k2: int, m2: int|
                0 <= k2 < c.paths@.len() && 0 <= m2 < c.paths@[k2].tags@.len() && (k2 < k + 1 || (
                k2 == k + 1 && m2 < 0)) && (#[trigger] c.paths@[k2].tags@[m2]) as int == t;
            assert(Self::touches_upto(c, t, k, e));
        }
        if Self::touches_upto(c, t, k, e) {
            let (k2, m2) = choose|k2: int, m2: int|
                0 <= k2 < c.paths@.len() && 0 <= m2 < c.paths@[k2].tags@.len() && (k2 < k || (k2
                    == k && m2 < e)) && (#[trigger] c.paths@[k2].tags@[m2]) as int == t;
            assert(Self::touches_upto(c, t, k + 1, 0));
        }
    }

    proof fn lemma_touch_end(self, j: int, t: int)
        requires
            self.live(j),
        ensures
            Self::touches_upto(self.card_at(j), t, self.card_at(j).paths@.len() as int, 0)
                <==> self.card_touches(j, t),
    {
        let c = self.card_at(j);
        if Self::touches_upto(c, t, c.paths@.len() as int, 0) {
            let (k2, m2) = choose|k2: int, m2: int|
                0 <= k2 < c.paths@.len() && 0 <= m2 < c.paths@[k2].tags@.len() && (k2
                    < c.paths@.len() as int || (k2 == c.paths@.len() as int && m2 < 0)) && (
                #[trigger] c.paths@[k2].tags@[m2]) as int == t;
            assert(self.card_touches(j, t));
        }
        if self.card_touches(j, t) {
            let (k2, m2) = choose|k2: int, m2: int|
                0 <= k2 < c.paths@.len() && 0 <= m2 < c.paths@[k2].tags@.len() && (#[trigger] c.paths@[k2].tags@[m2])
                    as int == t;
            assert(Self::touches_upto(c, t, c.paths@.len() as int, 0));
        }
    }

    proof fn lemma_leaf_step(c: Card, t: int, k: int)
        requires
            0 <= k < c.paths@.len(),
            c.paths@[k].tags@.len() > 0,
        ensures
            Self::leaf_upto(c, t, k + 1) <==> (Self::leaf_upto(c, t, k) || c.paths@[k].tags@.last()
                as int == t),
    {
        if Self::leaf_upto(c, t, k + 1) {
            let k2 = choose|k2: int|
                0 <= k2 < k + 1 && k2 < c.paths@.len() && (#[trigger] c.paths@[k2]).tags@.len() > 0
                    && c.paths@[k2].tags@.last() as int == t;
            if k2 != k {
                assert(Self::leaf_upto(c, t, k));
            }
        }
        if Self::leaf_upto(c, t, k) {
            assert(Self::leaf_upto(c, t, k + 1));
        }
        if c.paths@[k].tags@.last() as int == t {
            assert(0 <= k < k + 1 && k < c.paths@.len() && c.paths@[k].tags@.len() > 0
                && c.paths@[k].tags@.last() as int == t);
            assert(Self::leaf_upto(c, t, k + 1));
        }
    }

    proof fn lemma_leaf_end(self, j: int, t: int)
        requires
            self.live(j),
        ensures
            Self::leaf_upto(self.card_at(j), t, self.card_at(j).paths@.len() as int)
                <==> self.card_has_leaf(j, t),
    {
        let c = self.card_at(j);
        if Self::leaf_upto(c, t, c.paths@.len() as int) {
            let k2 = choose|k2: int|
                0 <= k2 < c.paths@.len() as int && k2 < c.paths@.len() && (
                #[trigger] c.paths@[k2]).tags@.len() > 0 && c.paths@[k2].tags@.last() as int == t;
            assert(self.card_has_leaf(j, t));
        }
        if self.card_has_leaf(j, t) {
            let k2 = choose|k2: int|
                0 <= k2 < c.paths@.len() && (#[trigger] c.paths@[k2]).tags@.len() > 0 && c.paths@[
                k2].tags@.last() as int == t;
            assert(Self::leaf_upto(c, t, c.paths@.len() as int));
        }
    }

    /// A chain stays valid when the tag arena is only extended.
    proof fn lemma_chain_ok_extended(pre: CardStore, fin: CardStore, chain: Seq<usize>, loc: Seq<u8>)
        requires
            pre.tags_extended(fin),
            pre.chain_ok(chain, loc),
        ensures
            fin.chain_ok(chain, loc),
    {
        assert(forall|m: int|
            0 <= m < chain.len() ==> fin.tags@[(#[trigger] chain[m]) as int].full_path@
                == pre.tags@[chain[m] as int].full_path@);
    }

    /// Changing only the tags' card sets leaves the core structure
    /// well-formed.
    proof fn lemma_wf_core_sets_any(pre: CardStore, fin: CardStore)
        requires
            pre.wf_core(),
            fin.tags@.len() == pre.tags@.len(),
            forall|u: int|
                0 <= u < pre.tags@.len() ==> {
                    &&& (#[trigger] fin.tags@[u]).full_path@ == pre.tags@[u].full_path@
                    &&& fin.tags@[u].name@ == pre.tags@[u].name@
                    &&& fin.tags@[u].children@ == pre.tags@[u].children@
                    &&& fin.tags@[u].direct_cards@.no_duplicates()
                    &&& fin.tags@[u].indirect_cards@.no_duplicates()
                },
            fin.cards@ == pre.cards@,
            fin.roots@ == pre.roots@,
        ensures
            fin.wf_core(),
    {
        assert forall|t: int| 0 <= t < fin.tags@.len() implies fin.tag_ok(t) by {
            assert(pre.tag_ok(t));
        }
        assert(fin.paths_unique()) by {
            assert forall|i: int, j: int| 0 <= i < j < fin.tags@.len() implies fin.tags@[
            i].full_path@ != fin.tags@[j].full_path@ by {
                assert(pre.tags@[i].full_path@ != pre.tags@[j].full_path@);
            }
        }
        assert(fin.children_ok()) by {
            assert forall|p: int, c: usize| 0 <= p < fin.tags@.len() implies ((
            #[trigger] fin.tags@[p].children@.contains(c)) <==> (c as int) < fin.tags@.len()
                && parent_path(fin.tags@[c as int].full_path@) == Some(
                fin.tags@[p].full_path@,
            )) by {
                assert(pre.tags@[p].children@.contains(c) <==> (c as int) < pre.tags@.len()
                    && parent_path(pre.tags@[c as int].full_path@) == Some(
                    pre.tags@[p].full_path@,
                ));
                assert(fin.tags@[p].children@ == pre.tags@[p].children@);
                if (c as int) < fin.tags@.len() {
                    assert(fin.tags@[c as int].full_path@ == pre.tags@[c as int].full_path@);
                }
            }
        }
        assert(fin.roots_ok()) by {
            assert forall|t: usize| (#[trigger] fin.roots@.contains(t)) <==> (t as int)
                < fin.tags@.len() && parent_path(fin.tags@[t as int].full_path@) is None by {
                if (t as int) < fin.tags@.len() {
                    assert(fin.tags@[t as int].full_path@ == pre.tags@[t as int].full_path@);
                }
            }
        }
        assert(fin.parents_present()) by {
            assert forall|t: int|
                0 <= t < fin.tags@.len() && parent_path(
                    (#[trigger] fin.tags@[t]).full_path@,
                ) is Some implies fin.has_tag_path(
                parent_path(fin.tags@[t].full_path@)->Some_0,
            ) by {
                assert(pre.has_tag_path(parent_path(pre.tags@[t].full_path@)->Some_0));
                let w = choose|w: int|
                    0 <= w < pre.tags@.len() && pre.tags@[w].full_path@ == parent_path(
                        pre.tags@[t].full_path@,
                    )->Some_0;
                assert(fin.tags@[w].full_path@ == pre.tags@[w].full_path@);
            }
        }
        assert(fin.ids_unique()) by {
            assert forall|i: int, j: int|
                0 <= i < j < fin.cards@.len() && fin.live(i) && fin.live(j) implies fin.card_at(
                i,
            ).id@ != fin.card_at(j).id@ by {
                assert(pre.live(i) && pre.live(j));
            }
        }
        assert forall|j: int| fin.live(j) implies fin.card_ok(j) by {
            assert(pre.card_ok(j));
            let c = fin.card_at(j);
            assert forall|k: int| 0 <= k < c.paths@.len() implies fin.chain_ok(
                (#[trigger] c.paths@[k]).tags@,
                c.locations@[k]@,
            ) by {
                let chain = c.paths@[k].tags@;
                assert(pre.chain_ok(chain, c.locations@[k]@));
                assert(fin.tags@[chain.last() as int].full_path@ == pre.tags@[chain.last()
                    as int].full_path@);
                assert(fin.tags@[chain[0] as int].full_path@ == pre.tags@[chain[0]
                    as int].full_path@);
                assert(forall|m: int|
                    0 <= m < chain.len() ==> fin.tags@[(#[trigger] chain[m]) as int].full_path@
                        == pre.tags@[chain[m] as int].full_path@);
            }
        }
    }

    /// Enter card `j` into the direct set of each of its leaf tags and the
    /// indirect set of every tag its chains pass through.
    fn register_card_locations(&mut self, j: usize)
        requires
            old(self).wf_core(),
            old(self).memb_ok_except(j),
            old(self).sets_clear_of(j),
            old(self).live(j as int),
        ensures
            final(self).wf(),
            old(self).same_but_card_sets(*final(self)),
            old(self).same_memb_except(*final(self), j),
    {
        let ghost c = self.card_at(j as int);
        proof {
            assert(self.card_ok(j as int));
        }
        let num = match &self.cards[j] {
            Some(card) => card.paths.len(),
            None => 0,
        };
        // Indirect memberships, chain element by chain element.
        let mut k: usize = 0;
        while k < num
            invariant
                self.wf_core(),
                self.memb_ok_except(j),
                old(self).same_but_card_sets(*self),
                old(self).same_memb_except(*self, j),
                self.live(j as int),
                c == self.card_at(j as int),
                num == c.paths@.len(),
                k <= num,
                forall|t: int|
                    0 <= t < self.tags@.len() ==> ((#[trigger] self.tags@[
                    t].indirect_cards@.contains(j)) <==> Self::touches_upto(c, t, k as int, 0)),
                forall|t: int|
                    0 <= t < self.tags@.len() ==> (#[trigger] self.tags@[t]).direct_cards@ == old(
                        self,
                    ).tags@[t].direct_cards@,
            decreases num - k,
        {
            let len_k = match &self.cards[j] {
                Some(card) => card.paths[k].tags.len(),
                None => 0,
            };
            let mut m: usize = 0;
            while m < len_k
                invariant
                    self.wf_core(),
                    self.memb_ok_except(j),
                    old(self).same_but_card_sets(*self),
                    old(self).same_memb_except(*self, j),
                    self.live(j as int),
                    c == self.card_at(j as int),
                    num == c.paths@.len(),
                    k < num,
                    len_k == c.paths@[k as int].tags@.len(),
                    m <= len_k,
                    forall|t: int|
                        0 <= t < self.tags@.len() ==> ((#[trigger] self.tags@[
                        t].indirect_cards@.contains(j)) <==> Self::touches_upto(
                            c,
                            t,
                            k as int,
                            m as int,
                        )),
                    forall|t: int|
                        0 <= t < self.tags@.len() ==> (#[trigger] self.tags@[t]).direct_cards@
                            == old(self).tags@[t].direct_cards@,
                decreases len_k - m,
            {
                let tt = match &self.cards[j] {
                    Some(card) => card.paths[k].tags[m],
                    None => 0,
                };
                proof {
                    assert(self.card_ok(j as int));
                    assert(self.chain_ok(c.paths@[k as int].tags@, c.locations@[k as int]@));
                    assert((c.paths@[k as int].tags@[m as int] as int) < self.tags@.len());
                    assert(self.tag_ok(tt as int));
                }
                let ghost pre = *self;
                let node = &mut self.tags[tt];
                push_unique(&mut node.indirect_cards, j);
                proof {
                    assert forall|t: int| 0 <= t < self.tags@.len() implies ((
                    #[trigger] self.tags@[t].indirect_cards@.contains(j))
                        <==> Self::touches_upto(c, t, k as int, m + 1)) by {
                        Self::lemma_touch_step(c, t, k as int, m as int);
                        if t != tt as int {
                            assert(self.tags@[t].indirect_cards@ == pre.tags@[t].indirect_cards@);
                        }
                    }
                    assert forall|u: int| 0 <= u < pre.tags@.len() implies {
                        &&& (#[trigger] self.tags@[u]).full_path@ == pre.tags@[u].full_path@
                        &&& self.tags@[u].name@ == pre.tags@[u].name@
                        &&& self.tags@[u].children@ == pre.tags@[u].children@
                        &&& self.tags@[u].direct_cards@.no_duplicates()
                        &&& self.tags@[u].indirect_cards@.no_duplicates()
                    } by {
                        assert(pre.tag_ok(u));
                        if u != tt as int {
                            assert(self.tags@[u] == pre.tags@[u]);
                        }
                    }
                    Self::lemma_wf_core_sets_any(pre, *self);
                }
                m += 1;
            }
            proof {
                Self::lemma_touch_next_loc(c, 0, k as int);
                assert forall|t: int| 0 <= t < self.tags@.len() implies ((#[trigger] self.tags@[
                t].indirect_cards@.contains(j)) <==> Self::touches_upto(c, t, k + 1, 0)) by {
                    Self::lemma_touch_next_loc(c, t, k as int);
                }
            }
            k += 1;
        }
        proof {
            self.lemma_touch_end(j as int, 0);
            assert forall|t: int| 0 <= t < self.tags@.len() implies ((#[trigger] self.tags@[
            t].indirect_cards@.contains(j)) <==> self.card_touches(j as int, t)) by {
                self.lemma_touch_end(j as int, t);
            }
        }
        // Direct memberships, one per location leaf.
        let mut k: usize = 0;
        while k < num
            invariant
                self.wf_core(),
                self.memb_ok_except(j),
                old(self).same_but_card_sets(*self),
                old(self).same_memb_except(*self, j),
                self.live(j as int),
                c == self.card_at(j as int),
                num == c.paths@.len(),
                k <= num,
                forall|t: int|
                    0 <= t < self.tags@.len() ==> ((#[trigger] self.tags@[
                    t].indirect_cards@.contains(j)) <==> self.card_touches(j as int, t)),
                forall|t: int|
                    0 <= t < self.tags@.len() ==> ((#[trigger] self.tags@[
                    t].direct_cards@.contains(j)) <==> Self::leaf_upto(c, t, k as int)),
            decreases num - k,
        {
            proof {
                assert(self.card_ok(j as int));
                assert(self.chain_ok(c.paths@[k as int].tags@, c.locations@[k as int]@));
            }
            let tt = match &self.cards[j] {
                Some(card) => {
                    let chain = &card.paths[k].tags;
                    chain[chain.len() - 1]
                },
                None => 0,
            };
            proof {
                assert((c.paths@[k as int].tags@.last() as int) < self.tags@.len());
                assert(self.tag_ok(tt as int));
            }
            let ghost pre = *self;
            let node = &mut self.tags[tt];
            push_unique(&mut node.direct_cards, j);
            proof {
                assert forall|t: int| 0 <= t < self.tags@.len() implies ((#[trigger] self.tags@[
                t].direct_cards@.contains(j)) <==> Self::leaf_upto(c, t, k + 1)) by {
                    Self::lemma_leaf_step(c, t, k as int);
                    if t != tt as int {
                        assert(self.tags@[t].direct_cards@ == pre.tags@[t].direct_cards@);
                    }
                }
                assert forall|u: int| 0 <= u < pre.tags@.len() implies {
                    &&& (#[trigger] self.tags@[u]).full_path@ == pre.tags@[u].full_path@
                    &&& self.tags@[u].name@ == pre.tags@[u].name@
                    &&& self.tags@[u].children@ == pre.tags@[u].children@
                    &&& self.tags@[u].direct_cards@.no_duplicates()
                    &&& self.tags@[u].indirect_cards@.no_duplicates()
                } by {
                    assert(pre.tag_ok(u));
                    if u != tt as int {
                        assert(self.tags@[u] == pre.tags@[u]);
                    }
                }
                Self::lemma_wf_core_sets_any(pre, *self);
            }
            k += 1;
        }
        proof {
            assert forall|t: int| 0 <= t < self.tags@.len() implies ((#[trigger] self.tags@[
            t].direct_cards@.contains(j)) <==> self.card_has_leaf(j as int, t)) by {
                self.lemma_leaf_end(j as int, t);
            }
            assert(self.direct_ok()) by {
                assert forall|t: int, y: usize| 0 <= t < self.tags@.len() implies ((
                #[trigger] self.tags@[t].direct_cards@.contains(y)) <==> self.live(y as int)
                    && self.card_has_leaf(y as int, t)) by {
                    if y != j {
                    } else {
                    }
                }
            }
            assert(self.indirect_ok()) by {
                assert forall|t: int, y: usize| 0 <= t < self.tags@.len() implies ((
                #[trigger] self.tags@[t].indirect_cards@.contains(y)) <==> self.live(y as int)
                    && self.card_touches(y as int, t)) by {
                    if y != j {
                    } else {
                    }
                }
            }
        }
    }

    /// A stored card carries the same data as a `CardInfo`.
    pub open spec fn card_matches(c: Card, info: crate::cards::CardInfoV) -> bool {
        &&& c.id@ == info.id
        &&& c.name@ == info.name
        &&& c.locations.deep_view() == info.locations
        &&& crate::cards::view_header(&c.header) == info.header
        &&& c.question@ == info.question
        &&& c.answer@ == info.answer
    }

    /// Writing a card into a slot whose memberships are cleared keeps the
    /// structure sound for every other card.
    proof fn lemma_write_slot(pre: CardStore, fin: CardStore, j: int, newc: Card)
        requires
            pre.wf_core(),
            pre.memb_ok_except(j as usize),
            pre.sets_clear_of(j as usize),
            0 <= j,
            j < pre.cards@.len() ==> fin.cards@ == pre.cards@.update(j, Some(newc)),
            j == pre.cards@.len() ==> fin.cards@ == pre.cards@.push(Some(newc)),
            j <= pre.cards@.len(),
            fin.tags@ == pre.tags@,
            fin.roots@ == pre.roots@,
            forall|i: int| pre.live(i) && i != j ==> pre.card_at(i).id@ != newc.id@,
            newc.paths@.len() == newc.locations@.len(),
            forall|k: int|
                0 <= k < newc.paths@.len() ==> pre.chain_ok(
                    (#[trigger] newc.paths@[k]).tags@,
                    newc.locations@[k]@,
                ),
        ensures
            fin.wf_core(),
            fin.memb_ok_except(j as usize),
            fin.sets_clear_of(j as usize),
            fin.live(j),
            fin.card_at(j) == newc,
    {
        assert(fin.live(j));
        assert(forall|i: int| 0 <= i < fin.cards@.len() && i != j ==> fin.cards@[i] == if i
            < pre.cards@.len() {
            pre.cards@[i]
        } else {
            fin.cards@[i]
        });
        assert forall|t: int| 0 <= t < fin.tags@.len() implies fin.tag_ok(t) by {
            assert(pre.tag_ok(t));
        }
        assert(fin.ids_unique()) by {
            assert forall|a: int, b: int|
                0 <= a < b < fin.cards@.len() && fin.live(a) && fin.live(b) implies fin.card_at(
                a,
            ).id@ != fin.card_at(b).id@ by {
                if a != j && b != j {
                    assert(pre.live(a) && pre.live(b));
                } else if a == j {
                    assert(pre.live(b));
                } else {
                    assert(pre.live(a));
                }
            }
        }
        assert forall|i: int| fin.live(i) implies fin.card_ok(i) by {
            if i == j {
                assert forall|k: int| 0 <= k < newc.paths@.len() implies fin.chain_ok(
                    (#[trigger] newc.paths@[k]).tags@,
                    newc.locations@[k]@,
                ) by {
                    assert(pre.chain_ok(newc.paths@[k].tags@, newc.locations@[k]@));
                }
            } else {
                assert(pre.live(i));
                assert(pre.card_ok(i));
            }
        }
        assert(fin.memb_ok_except(j as usize)) by {
            assert forall|t: int, y: usize|
                0 <= t < fin.tags@.len() && y != j as usize implies ((#[trigger] fin.tags@[
                t].direct_cards@.contains(y)) <==> fin.live(y as int) && fin.card_has_leaf(
                    y as int,
                    t,
                )) by {
                assert(pre.tags@[t].direct_cards@.contains(y) <==> pre.live(y as int)
                    && pre.card_has_leaf(y as int, t));
                if fin.live(y as int) || pre.live(y as int) {
                    assert((y as int) != j);
                }
            }
            assert forall|t: int, y: usize|
                0 <= t < fin.tags@.len() && y != j as usize implies ((#[trigger] fin.tags@[
                t].indirect_cards@.contains(y)) <==> fin.live(y as int) && fin.card_touches(
                    y as int,
                    t,
                )) by {
                assert(pre.tags@[t].indirect_cards@.contains(y) <==> pre.live(y as int)
                    && pre.card_touches(y as int, t));
                if fin.live(y as int) || pre.live(y as int) {
                    assert((y as int) != j);
                }
            }
        }
    }

    /// Insert a card record, overwriting any card with the same id, and
    /// enter it into the tag graph under each of its locations.
    pub fn upsert_card(&mut self, info: CardInfo)
        requires
            old(self).wf(),
            old(self).cards@.len() < usize::MAX - 1,
            forall|k: int|
                0 <= k < info.locations@.len() ==> (#[trigger] info.locations@[k])@.len()
                    < usize::MAX - 1,
        ensures
            final(self).wf(),
            final(self).has_id(info.id@),
            forall|j: int|
                final(self).live(j) && final(self).card_at(j).id@ == info.id@
                    ==> Self::card_matches(final(self).card_at(j), info@),
            forall|j: int| old(self).live(j) ==> final(self).live(j),
            forall|j: int|
                old(self).live(j) ==> final(self).card_at(j).id@ == old(self).card_at(j).id@,
            forall|j: int|
                old(self).live(j) && old(self).card_at(j).id@ != info.id@ ==> final(self).card_at(
                    j,
                ) == old(self).card_at(j),
            forall|j: int|
                final(self).live(j) ==> old(self).live(j) || final(self).card_at(j).id@
                    == info.id@,
            final(self).sha@ == old(self).sha@,
            final(self).pending_removal@ == old(self).pending_removal@,
            final(self).next_header_token == old(self).next_header_token,
            final(self).tags@.len() >= old(self).tags@.len(),
            forall|t: int|
                0 <= t < old(self).tags@.len() ==> (#[trigger] final(self).tags@[t]).full_path@
                    == old(self).tags@[t].full_path@,
            final(self).cards@.len() <= old(self).cards@.len() + 1,
    {
        let ghost infov = info@;
        let CardInfo { id, name, locations, header, question, answer } = info;

        // Resolve the tag chain of every location, creating missing tags.
        let mut chains: Vec<CardPath> = Vec::new();
        let num = locations.len();
        let mut k: usize = 0;
        while k < num
            invariant
                self.wf(),
                old(self).tags_extended(*self),
                num == locations@.len(),
                forall|k2: int|
                    0 <= k2 < num ==> (#[trigger] locations@[k2])@.len() < usize::MAX - 1,
                k <= num,
                chains@.len() == k,
                forall|k2: int|
                    0 <= k2 < k ==> self.chain_ok(
                        (#[trigger] chains@[k2]).tags@,
                        locations@[k2]@,
                    ),
            decreases num - k,
        {
            let ghost mid = *self;
            let chain = self.register_path(&locations[k]);
            chains.push(CardPath { tags: chain });
            proof {
                Self::lemma_tags_extended_trans(*old(self), mid, *self);
                assert forall|k2: int| 0 <= k2 < k + 1 implies self.chain_ok(
                    (#[trigger] chains@[k2]).tags@,
                    locations@[k2]@,
                ) by {
                    if k2 < k {
                        Self::lemma_chain_ok_extended(
                            mid,
                            *self,
                            chains@[k2].tags@,
                            locations@[k2]@,
                        );
                    }
                }
            }
            k += 1;
        }

        let card = Card { id, name, locations, paths: chains, header, question, answer };
        proof {
            assert(Self::card_matches(card, infov)) by {
                assert(card.locations.deep_view() =~~= infov.locations);
            }
        }
        let ghost staged = *self;
        let slot = self.find_card(&card.id);
        match slot {
            Some(j) => {
                self.unregister_card(j);
                let ghost cleared = *self;
                let ghost newc = card;
                let place = &mut self.cards[j];
                *place = Some(card);
                proof {
                    assert(cleared.wf_core()) by {
                        assert forall|u: int| 0 <= u < staged.tags@.len() implies {
                            &&& (#[trigger] cleared.tags@[u]).full_path@ == staged.tags@[
                            u].full_path@
                            &&& cleared.tags@[u].name@ == staged.tags@[u].name@
                            &&& cleared.tags@[u].children@ == staged.tags@[u].children@
                            &&& cleared.tags@[u].direct_cards@.no_duplicates()
                            &&& cleared.tags@[u].indirect_cards@.no_duplicates()
                        } by {
                            assert(cleared.tags@[u].full_path@ == staged.tags@[u].full_path@);
                            assert(cleared.tags@[u].name@ == staged.tags@[u].name@);
                            assert(cleared.tags@[u].children@ == staged.tags@[u].children@);
                            assert(cleared.tags@[u].direct_cards@.no_duplicates());
                            assert(cleared.tags@[u].indirect_cards@.no_duplicates());
                        }
                        Self::lemma_wf_core_sets_any(staged, cleared);
                    }
                    assert forall|i: int|
                        cleared.live(i) && i != j as int implies cleared.card_at(i).id@
                        != newc.id@ by {
                        assert(staged.live(i));
                        assert(staged.live(j as int));
                        if i < j as int {
                            assert(staged.card_at(i).id@ != staged.card_at(j as int).id@);
                        } else {
                            assert(staged.card_at(j as int).id@ != staged.card_at(i).id@);
                        }
                    }
                    assert(cleared.memb_ok_except(j)) by {
                        assert forall|t: int, y: usize|
                            0 <= t < cleared.tags@.len() && y != j implies ((
                        #[trigger] cleared.tags@[t].direct_cards@.contains(y)) <==> cleared.live(
                            y as int,
                        ) && cleared.card_has_leaf(y as int, t)) by {
                            assert(staged.tags@[t].direct_cards@.contains(y) <==> staged.live(
                                y as int,
                            ) && staged.card_has_leaf(y as int, t));
                        }
                        assert forall|t: int, y: usize|
                            0 <= t < cleared.tags@.len() && y != j implies ((
                        #[trigger] cleared.tags@[t].indirect_cards@.contains(y)) <==> cleared.live(
                            y as int,
                        ) && cleared.card_touches(y as int, t)) by {
                            assert(staged.tags@[t].indirect_cards@.contains(y) <==> staged.live(
                                y as int,
                            ) && staged.card_touches(y as int, t));
                        }
                    }
                    Self::lemma_write_slot(cleared, *self, j as int, newc);
                }
                let ghost written = *self;
                self.register_card_locations(j);
                proof {
                    Self::lemma_upsert_post(
                        *old(self),
                        staged,
                        written,
                        *self,
                        j as int,
                        newc,
                        infov,
                    );
                }
            },
            None => {
                let j = self.cards.len();
                let ghost cleared = *self;
                let ghost newc = card;
                self.cards.push(Some(card));
                proof {
                    assert(cleared.sets_clear_of(j)) by {
                        assert forall|t: int| 0 <= t < cleared.tags@.len() implies !(
                        #[trigger] cleared.tags@[t]).direct_cards@.contains(j) && !cleared.tags@[
                        t].indirect_cards@.contains(j) by {
                            if cleared.tags@[t].direct_cards@.contains(j) {
                                assert(cleared.live(j as int));
                            }
                            if cleared.tags@[t].indirect_cards@.contains(j) {
                                assert(cleared.live(j as int));
                            }
                        }
                    }
                    assert(cleared.memb_ok_except(j));
                    Self::lemma_write_slot(cleared, *self, j as int, newc);
                }
                let ghost written = *self;
                self.register_card_locations(j);
                proof {
                    Self::lemma_upsert_post(
                        *old(self),
                        staged,
                        written,
                        *self,
                        j as int,
                        newc,
                        infov,
                    );
                }
            },
        }
    }

    /// The state after writing and registering a card meets the upsert
    /// contract, seen from the starting state.
    proof fn lemma_upsert_post(
        orig: CardStore,
        staged: CardStore,
        written: CardStore,
        fin: CardStore,
        j: int,
        newc: Card,
        infov: crate::cards::CardInfoV,
    )
        requires
            orig.tags_extended(staged),
            staged.cards@ == orig.cards@,
            staged.sha@ == orig.sha@,
            staged.pending_removal@ == orig.pending_removal@,
            staged.next_header_token == orig.next_header_token,
            staged.tags@.len() >= orig.tags@.len(),
            0 <= j <= staged.cards@.len(),
            j < staged.cards@.len() ==> written.cards@ == staged.cards@.update(j, Some(newc)),
            j == staged.cards@.len() ==> written.cards@ == staged.cards@.push(Some(newc)),
            written.tags@.len() == staged.tags@.len(),
            forall|t: int|
                0 <= t < staged.tags@.len() ==> (#[trigger] written.tags@[t]).full_path@
                    == staged.tags@[t].full_path@,
            written.sha@ == staged.sha@,
            written.pending_removal@ == staged.pending_removal@,
            written.next_header_token == staged.next_header_token,
            j < staged.cards@.len() ==> staged.live(j) && staged.card_at(j).id@ == newc.id@,
            written.same_but_card_sets(fin),
            fin.wf(),
            Self::card_matches(newc, infov),
            newc.id@ == infov.id,
        ensures
            fin.wf(),
            fin.has_id(infov.id),
            forall|i: int|
                fin.live(i) && fin.card_at(i).id@ == infov.id ==> Self::card_matches(
                    fin.card_at(i),
                    infov,
                ),
            forall|i: int| orig.live(i) ==> fin.live(i),
            forall|i: int|
                orig.live(i) ==> fin.card_at(i).id@ == orig.card_at(i).id@,
            forall|i: int|
                orig.live(i) && orig.card_at(i).id@ != infov.id ==> fin.card_at(i) == orig.card_at(
                    i,
                ),
            forall|i: int| fin.live(i) ==> orig.live(i) || fin.card_at(i).id@ == infov.id,
            fin.sha@ == orig.sha@,
            fin.pending_removal@ == orig.pending_removal@,
            fin.next_header_token == orig.next_header_token,
            fin.tags@.len() >= orig.tags@.len(),
            forall|t: int|
                0 <= t < orig.tags@.len() ==> (#[trigger] fin.tags@[t]).full_path@ == orig.tags@[
                t].full_path@,
            fin.cards@.len() <= orig.cards@.len() + 1,
    {
        assert(fin.cards@ == written.cards@);
        assert forall|i: int| orig.live(i) implies fin.card_at(i).id@ == orig.card_at(
            i,
        ).id@ by {
            if i == j {
                assert(fin.card_at(i) == newc);
            }
        }
        assert(fin.live(j) && fin.card_at(j) == newc);
        assert(fin.has_id(infov.id));
        assert forall|i: int| fin.live(i) && fin.card_at(i).id@ == infov.id implies
            Self::card_matches(fin.card_at(i), infov) by {
            if i != j {
                assert(fin.live(j));
                assert(fin.card_at(j).id@ == infov.id);
                assert(fin.ids_unique());
                if i < j {
                    assert(fin.card_at(i).id@ != fin.card_at(j).id@);
                } else {
                    assert(fin.card_at(j).id@ != fin.card_at(i).id@);
                }
            }
        }
        assert forall|t: int|
            0 <= t < orig.tags@.len() implies (#[trigger] fin.tags@[t]).full_path@ == orig.tags@[
        t].full_path@ by {
            assert(staged.tags@[t].full_path@ == orig.tags@[t].full_path@);
            assert(written.tags@[t].full_path@ == staged.tags@[t].full_path@);
            assert(fin.tags@[t].full_path@ == written.tags@[t].full_path@);
        }
    }

    /// Well-formedness does not depend on the pending-removal list or the
    /// stored fingerprint.
    pub proof fn lemma_wf_frame(a: CardStore, b: CardStore)
        requires
            a.wf(),
            b.tags@ == a.tags@,
            b.cards@ == a.cards@,
            b.roots@ == a.roots@,
        ensures
            b.wf(),
    {
        assert forall|u: int| 0 <= u < a.tags@.len() implies {
            &&& (#[trigger] b.tags@[u]).full_path@ == a.tags@[u].full_path@
            &&& b.tags@[u].name@ == a.tags@[u].name@
            &&& b.tags@[u].children@ == a.tags@[u].children@
            &&& b.tags@[u].direct_cards@.no_duplicates()
            &&& b.tags@[u].indirect_cards@.no_duplicates()
        } by {
            assert(a.tag_ok(u));
            assert(b.tags@[u] == a.tags@[u]);
        }
        Self::lemma_wf_core_sets_any(a, b);
        assert(b.direct_ok()) by {
            assert forall|t: int, y: usize| 0 <= t < b.tags@.len() implies ((#[trigger] b.tags@[
            t].direct_cards@.contains(y)) <==> b.live(y as int) && b.card_has_leaf(
                y as int,
                t,
            )) by {
                assert(a.tags@[t].direct_cards@.contains(y) <==> a.live(y as int)
                    && a.card_has_leaf(y as int, t));
                assert(b.tags@[t] == a.tags@[t]);
            }
        }
        assert(b.indirect_ok()) by {
            assert forall|t: int, y: usize| 0 <= t < b.tags@.len() implies ((#[trigger] b.tags@[
            t].indirect_cards@.contains(y)) <==> b.live(y as int) && b.card_touches(
                y as int,
                t,
            )) by {
                assert(a.tags@[t].indirect_cards@.contains(y) <==> a.live(y as int)
                    && a.card_touches(y as int, t));
                assert(b.tags@[t] == a.tags@[t]);
            }
        }
    }

    /// Some pending-removal entry equals the id.
    pub open spec fn pending_has(self, id: Seq<u8>) -> bool {
        pending_holds(self.pending_removal@, id)
    }

    /// Begin a reconciliation pass: remember every currently known card id
    /// as a removal candidate.
    pub fn mark_cards_for_garbage_collection(&mut self)
        requires
            old(self).wf(),
        ensures
            final(self).wf(),
            final(self).tags@ == old(self).tags@,
            final(self).cards@ == old(self).cards@,
            final(self).roots@ == old(self).roots@,
            final(self).sha@ == old(self).sha@,
            final(self).next_header_token == old(self).next_header_token,
            forall|id: Seq<u8>| #[trigger]
                final(self).pending_has(id) <==> old(self).has_id(id),
    {
        let mut pending: Vec<Vec<u8>> = Vec::new();
        let n = self.cards.len();
        let mut i: usize = 0;
        while i < n
            invariant
                n == self.cards@.len(),
                i <= n,
                forall|id: Seq<u8>| #[trigger]
                    pending_holds(pending@, id) <==> exists|j: int|
                        0 <= j < i && self.live(j) && (#[trigger] self.card_at(j)).id@ == id,
            decreases n - i,
        {
            let ghost pre = pending@;
            match &self.cards[i] {
                Some(c) => {
                    pending.push(c.id.clone());
                    proof {
                        assert forall|id: Seq<u8>| #[trigger]
                            pending_holds(pending@, id) <==> exists|j: int|
                                0 <= j < i + 1 && self.live(j) && (#[trigger] self.card_at(
                                    j,
                                )).id@ == id by {
                            if pending_holds(pending@, id) {
                                let m = choose|m: int|
                                    0 <= m < pending@.len() && (#[trigger] pending@[m])@ == id;
                                if m < pre.len() {
                                    assert(pre[m]@ == id);
                                    assert(pending_holds(pre, id));
                                } else {
                                    assert(self.live(i as int) && self.card_at(i as int).id@
                                        == id);
                                }
                            }
                            if exists|j: int|
                                0 <= j < i + 1 && self.live(j) && (#[trigger] self.card_at(
                                    j,
                                )).id@ == id {
                                let j = choose|j: int|
                                    0 <= j < i + 1 && self.live(j) && (#[trigger] self.card_at(
                                        j,
                                    )).id@ == id;
                                if j < i {
                                    assert(pending_holds(pre, id));
                                    let m = choose|m: int|
                                        0 <= m < pre.len() && (#[trigger] pre[m])@ == id;
                                    assert(pending@[m]@ == id);
                                } else {
                                    assert(pending@[pending@.len() - 1]@ == id);
                                }
                            }
                        }
                    }
                },
                None => {
                    proof {
                        assert forall|id: Seq<u8>| #[trigger]
                            pending_holds(pending@, id) <==> exists|j: int|
                                0 <= j < i + 1 && self.live(j) && (#[trigger] self.card_at(
                                    j,
                                )).id@ == id by {
                            if exists|j: int|
                                0 <= j < i + 1 && self.live(j) && (#[trigger] self.card_at(
                                    j,
                                )).id@ == id {
                                let j = choose|j: int|
                                    0 <= j < i + 1 && self.live(j) && (#[trigger] self.card_at(
                                        j,
                                    )).id@ == id;
                                assert(j < i);
                            }
                        }
                    }
                },
            }
            i += 1;
        }
        proof {
            assert forall|id: Seq<u8>| #[trigger]
                pending_holds(pending@, id) <==> self.has_id(id) by {
                if pending_holds(pending@, id) {
                    let j = choose|j: int|
                        0 <= j < i && self.live(j) && (#[trigger] self.card_at(j)).id@ == id;
                    assert(self.live(j) && self.card_at(j).id@ == id);
                }
                if self.has_id(id) {
                    let j = choose|j: int|
                        self.live(j) && (#[trigger] self.card_at(j)).id@ == id;
                    assert(0 <= j < i && self.live(j) && self.card_at(j).id@ == id);
                    assert(pending_holds(pending@, id));
                }
            }
        }
        let ghost marks = pending@;
        self.pending_removal = pending;
        proof {
            Self::lemma_wf_frame(*old(self), *self);
            assert forall|id: Seq<u8>| #[trigger]
                self.pending_has(id) <==> old(self).has_id(id) by {
                assert(self.pending_removal@ == marks);
                assert(pending_holds(marks, id) <==> old(self).has_id(id));
            }
        }
    }

    /// Drop the id from the removal candidates.
    fn remove_pending(&mut self, id: &Vec<u8>)
        ensures
            final(self).tags@ == old(self).tags@,
            final(self).cards@ == old(self).cards@,
            final(self).roots@ == old(self).roots@,
            final(self).sha@ == old(self).sha@,
            final(self).next_header_token == old(self).next_header_token,
            !final(self).pending_has(id@),
            forall|id2: Seq<u8>|
                id2 != id@ ==> ((#[trigger] final(self).pending_has(id2)) <==> old(
                    self,
                ).pending_has(id2)),
    {
        let n = self.pending_removal.len();
        let mut out: Vec<Vec<u8>> = Vec::new();
        let mut i: usize = 0;
        while i < n
            invariant
                n == self.pending_removal@.len(),
                i <= n,
                forall|id2: Seq<u8>| #[trigger]
                    pending_holds(out@, id2) ==> id2 != id@ && exists|m: int|
                        0 <= m < i && (#[trigger] self.pending_removal@[m])@ == id2,
                forall|m: int|
                    0 <= m < i && (#[trigger] self.pending_removal@[m])@ != id@ ==> pending_holds(
                        out@,
                        self.pending_removal@[m]@,
                    ),
            decreases n - i,
        {
            let keep = !crate::bytes::bytes_eq(&self.pending_removal[i], id);
            let ghost pre = out@;
            if keep {
                let entry = self.pending_removal[i].clone();
                out.push(entry);
                proof {
                    assert forall|id2: Seq<u8>| #[trigger]
                        pending_holds(out@, id2) implies id2 != id@ && exists|m: int|
                        0 <= m < i + 1 && (#[trigger] self.pending_removal@[m])@ == id2 by {
                        let w = choose|w: int|
                            0 <= w < out@.len() && (#[trigger] out@[w])@ == id2;
                        if w < pre.len() {
                            assert(pre[w]@ == id2);
                            assert(pending_holds(pre, id2));
                        } else {
                            assert(self.pending_removal@[i as int]@ == id2);
                        }
                    }
                    assert forall|m: int|
                        0 <= m < i + 1 && (#[trigger] self.pending_removal@[m])@
                            != id@ implies pending_holds(out@, self.pending_removal@[m]@) by {
                        if m < i {
                            assert(pending_holds(pre, self.pending_removal@[m]@));
                            let w = choose|w: int|
                                0 <= w < pre.len() && (#[trigger] pre[w])@ == self.pending_removal@[
                                m]@;
                            assert(out@[w]@ == self.pending_removal@[m]@);
                        } else {
                            assert(out@[out@.len() - 1]@ == self.pending_removal@[m]@);
                        }
                    }
                }
            } else {
                proof {
                    assert forall|m: int|
                        0 <= m < i + 1 && (#[trigger] self.pending_removal@[m])@
                            != id@ implies pending_holds(out@, self.pending_removal@[m]@) by {
                        assert(m < i);
                    }
                }
            }
            i += 1;
        }
        proof {
            assert forall|id2: Seq<u8>|
                id2 != id@ implies ((#[trigger] pending_holds(out@, id2)) <==> pending_holds(
                self.pending_removal@,
                id2,
            )) by {
                if pending_holds(out@, id2) {
                    let m = choose|m: int|
                        0 <= m < i && (#[trigger] self.pending_removal@[m])@ == id2;
                    assert(pending_holds(self.pending_removal@, id2));
                }
                if pending_holds(self.pending_removal@, id2) {
                    let m = choose|m: int|
                        0 <= m < self.pending_removal@.len() && (
                        #[trigger] self.pending_removal@[m])@ == id2;
                    assert(pending_holds(out@, self.pending_removal@[m]@));
                }
            }
            assert(!pending_holds(out@, id@)) by {
                if pending_holds(out@, id@) {
                    let w = choose|w: int| 0 <= w < out@.len() && (#[trigger] out@[w])@ == id@;
                }
            }
        }
        self.pending_removal = out;
    }

    /// Clearing a live card's slot, once its memberships are gone, leaves
    /// the store well-formed.
    proof fn lemma_clear_slot(pre: CardStore, fin: CardStore, j: usize)
        requires
            pre.wf_core(),
            pre.memb_ok_except(j),
            pre.sets_clear_of(j),
            0 <= (j as int) < pre.cards@.len(),
            fin.cards@ == pre.cards@.update(j as int, None),
            fin.tags@ == pre.tags@,
            fin.roots@ == pre.roots@,
        ensures
            fin.wf(),
    {
        assert forall|t: int| 0 <= t < fin.tags@.len() implies fin.tag_ok(t) by {
            assert(pre.tag_ok(t));
        }
        assert(fin.ids_unique()) by {
            assert forall|a: int, b: int|
                0 <= a < b < fin.cards@.len() && fin.live(a) && fin.live(b) implies fin.card_at(
                a,
            ).id@ != fin.card_at(b).id@ by {
                assert(pre.live(a) && pre.live(b));
            }
        }
        assert forall|i: int| fin.live(i) implies fin.card_ok(i) by {
            assert(pre.live(i));
            assert(pre.card_ok(i));
        }
        assert(fin.direct_ok()) by {
            assert forall|t: int, y: usize| 0 <= t < fin.tags@.len() implies ((
            #[trigger] fin.tags@[t].direct_cards@.contains(y)) <==> fin.live(y as int)
                && fin.card_has_leaf(y as int, t)) by {
                if y == j {
                    assert(!fin.tags@[t].direct_cards@.contains(y));
                    assert(!fin.live(y as int));
                } else {
                    assert(pre.tags@[t].direct_cards@.contains(y) <==> pre.live(y as int)
                        && pre.card_has_leaf(y as int, t));
                }
            }
        }
        assert(fin.indirect_ok()) by {
            assert forall|t: int, y: usize| 0 <= t < fin.tags@.len() implies ((
            #[trigger] fin.tags@[t].indirect_cards@.contains(y)) <==> fin.live(y as int)
                && fin.card_touches(y as int, t)) by {
                if y == j {
                    assert(!fin.tags@[t].indirect_cards@.contains(y));
                    assert(!fin.live(y as int));
                } else {
                    assert(pre.tags@[t].indirect_cards@.contains(y) <==> pre.live(y as int)
                        && pre.card_touches(y as int, t));
                }
            }
        }
    }

    /// Finish a reconciliation pass: delete every card whose id is still a
    /// removal candidate, and clear the candidates.  Tags are never removed.
    pub fn collect_garbage(&mut self)
        requires
            old(self).wf(),
        ensures
            final(self).wf(),
            final(self).pending_removal@.len() == 0,
            final(self).tags@.len() == old(self).tags@.len(),
            forall|t: int|
                0 <= t < old(self).tags@.len() ==> (#[trigger] final(self).tags@[t]).full_path@
                    == old(self).tags@[t].full_path@ && final(self).tags@[t].name@ == old(
                    self,
                ).tags@[t].name@ && final(self).tags@[t].children@ == old(self).tags@[t].children@,
            final(self).roots@ == old(self).roots@,
            final(self).sha@ == old(self).sha@,
            final(self).next_header_token == old(self).next_header_token,
            final(self).cards@.len() == old(self).cards@.len(),
            forall|j: int| #[trigger]
                final(self).live(j) <==> old(self).live(j) && !old(self).pending_has(
                    old(self).card_at(j).id@,
                ),
            forall|j: int|
                final(self).live(j) ==> final(self).card_at(j) == old(self).card_at(j),
    {
        let n = self.pending_removal.len();
        let mut p: usize = 0;
        while p < n
            invariant
                self.wf(),
                n == self.pending_removal@.len(),
                self.pending_removal@ == old(self).pending_removal@,
                p <= n,
                self.tags@.len() == old(self).tags@.len(),
                forall|t: int|
                    0 <= t < old(self).tags@.len() ==> (#[trigger] self.tags@[t]).full_path@
                        == old(self).tags@[t].full_path@ && self.tags@[t].name@ == old(
                        self,
                    ).tags@[t].name@ && self.tags@[t].children@ == old(self).tags@[t].children@,
                self.roots@ == old(self).roots@,
                self.sha@ == old(self).sha@,
                self.next_header_token == old(self).next_header_token,
                self.cards@.len() == old(self).cards@.len(),
                forall|j: int| #[trigger]
                    self.live(j) <==> old(self).live(j) && !(exists|m: int|
                        0 <= m < p && (#[trigger] old(self).pending_removal@[m])@ == old(
                            self,
                        ).card_at(j).id@),
                forall|j: int| self.live(j) ==> self.card_at(j) == old(self).card_at(j),
            decreases n - p,
        {
            let id = self.pending_removal[p].clone();
            let found = self.find_card(&id);
            match found {
                Some(j) => {
                    let ghost staged = *self;
                    self.unregister_card(j);
                    let ghost cleared = *self;
                    proof {
                        assert(cleared.wf_core()) by {
                            assert forall|u: int| 0 <= u < staged.tags@.len() implies {
                                &&& (#[trigger] cleared.tags@[u]).full_path@ == staged.tags@[
                                u].full_path@
                                &&& cleared.tags@[u].name@ == staged.tags@[u].name@
                                &&& cleared.tags@[u].children@ == staged.tags@[u].children@
                                &&& cleared.tags@[u].direct_cards@.no_duplicates()
                                &&& cleared.tags@[u].indirect_cards@.no_duplicates()
                            } by {
                                assert(cleared.tags@[u].full_path@ == staged.tags@[u].full_path@);
                                assert(cleared.tags@[u].name@ == staged.tags@[u].name@);
                                assert(cleared.tags@[u].children@ == staged.tags@[u].children@);
                                assert(cleared.tags@[u].direct_cards@.no_duplicates());
                                assert(cleared.tags@[u].indirect_cards@.no_duplicates());
                            }
                            Self::lemma_wf_core_sets_any(staged, cleared);
                        }
                        assert(cleared.memb_ok_except(j)) by {
                            assert forall|t: int, y: usize|
                                0 <= t < cleared.tags@.len() && y != j implies ((
                            #[trigger] cleared.tags@[t].direct_cards@.contains(y))
                                <==> cleared.live(y as int) && cleared.card_has_leaf(
                                y as int,
                                t,
                            )) by {
                                assert(staged.tags@[t].direct_cards@.contains(y) <==> staged.live(
                                    y as int,
                                ) && staged.card_has_leaf(y as int, t));
                            }
                            assert forall|t: int, y: usize|
                                0 <= t < cleared.tags@.len() && y != j implies ((
                            #[trigger] cleared.tags@[t].indirect_cards@.contains(y))
                                <==> cleared.live(y as int) && cleared.card_touches(
                                y as int,
                                t,
                            )) by {
                                assert(staged.tags@[t].indirect_cards@.contains(y) <==> staged.live(
                                    y as int,
                                ) && staged.card_touches(y as int, t));
                            }
                        }
                    }
                    let place = &mut self.cards[j];
                    *place = None;
                    proof {
                        Self::lemma_clear_slot(cleared, *self, j);
                        assert forall|j2: int| #[trigger]
                            self.live(j2) <==> old(self).live(j2) && !(exists|m: int|
                                0 <= m < p + 1 && (#[trigger] old(self).pending_removal@[m])@
                                    == old(self).card_at(j2).id@) by {
                            if j2 == j as int {
                                assert(!self.live(j2));
                                assert(staged.live(j2));
                                assert(staged.card_at(j2) == old(self).card_at(j2));
                                assert(old(self).card_at(j2).id@ == id@);
                                assert(old(self).pending_removal@[p as int]@ == old(
                                    self,
                                ).card_at(j2).id@);
                            } else {
                                assert(self.cards@ == staged.cards@.update(j as int, None));
                                assert(self.live(j2) == staged.live(j2));
                                if !staged.live(j2) && old(self).live(j2) {
                                    assert(exists|m: int|
                                        0 <= m < p && (#[trigger] old(
                                            self,
                                        ).pending_removal@[m])@ == old(self).card_at(j2).id@);
                                }
                                if self.live(j2) {
                                    assert(staged.live(j2));
                                    assert(old(self).live(j2));
                                    assert(staged.card_at(j2) == old(self).card_at(j2));
                                    if exists|m: int|
                                        0 <= m < p + 1 && (#[trigger] old(
                                            self,
                                        ).pending_removal@[m])@ == old(self).card_at(j2).id@ {
                                        let m = choose|m: int|
                                            0 <= m < p + 1 && (#[trigger] old(
                                                self,
                                            ).pending_removal@[m])@ == old(self).card_at(j2).id@;
                                        if m < p {
                                            assert(!staged.live(j2));
                                            assert(false);
                                        } else {
                                            // Two live cards with the same id
                                            // would break uniqueness.
                                            assert(old(self).card_at(j2).id@ == id@);
                                            assert(staged.card_at(j2).id@ == id@);
                                            assert(staged.card_at(j as int).id@ == id@);
                                            assert(staged.live(j as int));
                                            if j2 < j as int {
                                                assert(staged.card_at(j2).id@ != staged.card_at(
                                                    j as int,
                                                ).id@);
                                            } else {
                                                assert(staged.card_at(j as int).id@
                                                    != staged.card_at(j2).id@);
                                            }
                                            assert(false);
                                        }
                                    }
                                }
                            }
                        }
                    }
                },
                None => {
                    proof {
                        assert forall|j2: int| #[trigger]
                            self.live(j2) <==> old(self).live(j2) && !(exists|m: int|
                                0 <= m < p + 1 && (#[trigger] old(self).pending_removal@[m])@
                                    == old(self).card_at(j2).id@) by {
                            if self.live(j2) {
                                if exists|m: int|
                                    0 <= m < p + 1 && (#[trigger] old(self).pending_removal@[m])@
                                        == old(self).card_at(j2).id@ {
                                    let m = choose|m: int|
                                        0 <= m < p + 1 && (#[trigger] old(
                                            self,
                                        ).pending_removal@[m])@ == old(self).card_at(j2).id@;
                                    if m < p {
                                        assert(false);
                                    } else {
                                        assert(self.card_at(j2).id@ == id@);
                                        assert(self.has_id(id@));
                                        assert(false);
                                    }
                                }
                            }
                        }
                    }
                },
            }
            p += 1;
        }
        proof {
            assert forall|j: int| #[trigger]
                self.live(j) <==> old(self).live(j) && !old(self).pending_has(
                    old(self).card_at(j).id@,
                ) by {
                let idj = old(self).card_at(j).id@;
                if old(self).pending_has(idj) {
                    let m = choose|m: int|
                        0 <= m < old(self).pending_removal@.len() && (#[trigger] old(
                            self,
                        ).pending_removal@[m])@ == idj;
                    assert(0 <= m < n && old(self).pending_removal@[m]@ == idj);
                }
                if exists|m: int|
                    0 <= m < n && (#[trigger] old(self).pending_removal@[m])@ == idj {
                    let m = choose|m: int|
                        0 <= m < n && (#[trigger] old(self).pending_removal@[m])@ == idj;
                    assert(pending_holds(old(self).pending_removal@, idj));
                }
            }
        }
        let ghost done = *self;
        self.pending_removal = Vec::new();
        proof {
            Self::lemma_wf_frame(done, *self);
            assert(forall|j: int| #[trigger] self.live(j) == done.live(j));
            assert(forall|j: int| self.live(j) ==> self.card_at(j) == done.card_at(j));
        }
    }

    /// Some record of the parsed file carries the id.
    pub open spec fn file_has_id(cards: Seq<crate::parse::CardRecV>, id: Seq<u8>) -> bool {
        exists|i: int| 0 <= i < cards.len() && (#[trigger] cards[i]).id == id
    }

    /// The last record of the file with the given id; records later in the
    /// file win.
    pub open spec fn last_rec(cards: Seq<crate::parse::CardRecV>, id: Seq<u8>) -> crate::parse::CardRecV
        decreases cards.len(),
    {
        if cards.len() == 0 {
            vstd::pervasive::arbitrary()
        } else if cards.last().id == id {
            cards.last()
        } else {
            Self::last_rec(cards.drop_last(), id)
        }
    }

    /// The card data a file record yields: its own fields, under the file's
    /// shared header with the given identity token.
    pub open spec fn file_info(
        f: crate::parse::ParsedFileV,
        rec: crate::parse::CardRecV,
        token: u64,
    ) -> crate::cards::CardInfoV {
        crate::cards::CardInfoV {
            id: rec.id,
            name: rec.name,
            locations: rec.paths,
            header: match f.header {
                Some(h) => Some(crate::cards::HeaderV { token, inner: h }),
                None => None,
            },
            question: rec.question,
            answer: rec.answer,
        }
    }

    proof fn lemma_last_rec_step(cards: Seq<crate::parse::CardRecV>, i: int, id: Seq<u8>)
        requires
            0 <= i < cards.len(),
        ensures
            Self::last_rec(cards.take(i + 1), id) == (if cards[i].id == id {
                cards[i]
            } else {
                Self::last_rec(cards.take(i), id)
            }),
    {
        assert(cards.take(i + 1).drop_last() =~= cards.take(i));
        assert(cards.take(i + 1).last() == cards[i]);
    }

    proof fn lemma_file_has_id_step(cards: Seq<crate::parse::CardRecV>, i: int, id: Seq<u8>)
        requires
            0 <= i < cards.len(),
        ensures
            Self::file_has_id(cards.take(i + 1), id) <==> (Self::file_has_id(cards.take(i), id)
                || cards[i].id == id),
    {
        if Self::file_has_id(cards.take(i + 1), id) {
            let x = choose|x: int|
                0 <= x < cards.take(i + 1).len() && (#[trigger] cards.take(i + 1)[x]).id == id;
            if x < i {
                assert(cards.take(i)[x].id == id);
                assert(Self::file_has_id(cards.take(i), id));
            } else {
                assert(cards[i].id == id);
            }
        }
        if Self::file_has_id(cards.take(i), id) {
            let x = choose|x: int|
                0 <= x < cards.take(i).len() && (#[trigger] cards.take(i)[x]).id == id;
            assert(cards.take(i + 1)[x].id == id);
            assert(Self::file_has_id(cards.take(i + 1), id));
        }
        if cards[i].id == id {
            assert(cards.take(i + 1)[i].id == id);
            assert(Self::file_has_id(cards.take(i + 1), id));
        }
    }

    /// What a successful load did to the store, relative to the parsed file.
    pub open spec fn load_post(
        pre: CardStore,
        post: CardStore,
        f: crate::parse::ParsedFileV,
    ) -> bool {
        &&& post.wf()
        &&& forall|j: int| pre.live(j) ==> post.live(j)
        &&& forall|j: int|
            pre.live(j) ==> (#[trigger] post.card_at(j)).id@ == pre.card_at(j).id@
        &&& forall|j: int| #[trigger]
            post.live(j) ==> pre.live(j) || Self::file_has_id(f.cards, post.card_at(j).id@)
        &&& forall|i: int|
            0 <= i < f.cards.len() ==> post.has_id((#[trigger] f.cards[i]).id)
        &&& forall|j: int|
            #[trigger] post.live(j) && Self::file_has_id(f.cards, post.card_at(j).id@)
                ==> Self::card_matches(
                post.card_at(j),
                Self::file_info(f, Self::last_rec(f.cards, post.card_at(j).id@), pre.next_header_token),
            )
        &&& forall|j: int|
            pre.live(j) && !Self::file_has_id(f.cards, (#[trigger] pre.card_at(j)).id@)
                ==> post.live(j) && post.card_at(j) == pre.card_at(j)
        &&& forall|id2: Seq<u8>| #[trigger]
            post.pending_has(id2) <==> pre.pending_has(id2) && !Self::file_has_id(f.cards, id2)
        &&& post.sha@ == pre.sha@
        &&& post.next_header_token == pre.next_header_token + 1
        &&& post.tags@.len() >= pre.tags@.len()
        &&& forall|t: int|
            0 <= t < pre.tags@.len() ==> (#[trigger] post.tags@[t]).full_path@ == pre.tags@[
            t].full_path@
    }

    /// Load one card-markup file into the store as part of a reconciliation
    /// pass: every record found overwrites or creates the card with its id
    /// (later records win), the observed ids stop being removal candidates,
    /// and all other cards are untouched.  A parse failure leaves the store
    /// exactly as it was.
    pub fn load(&mut self, content: &Vec<u8>) -> (r: Result<(), CoreError>)
        requires
            old(self).wf(),
            content@.len() < usize::MAX - 8,
            old(self).cards@.len() + content@.len() < usize::MAX - 1,
            old(self).next_header_token < u64::MAX,
        ensures
            (match r {
                Ok(_) => crate::parse::parse_file_spec(content@) is Some && Self::load_post(
                    *old(self),
                    *final(self),
                    crate::parse::parse_file_spec(content@)->Some_0,
                ),
                Err(e) => {
                    &&& crate::parse::parse_file_spec(content@) is None
                    &&& *final(self) == *old(self)
                    &&& e matches CoreError::Parsing { .. }
                },
            }),
            final(self).cards@.len() <= old(self).cards@.len() + content@.len(),
    {
        let parsed = parse_file(content);
        match parsed {
            Err(e) => Err(e),
            Ok(file) => {
                let ghost fv = file@;
                let ParsedFile { header: fheader, cards } = file;
                let token = self.next_header_token;
                self.next_header_token = token + 1;
                proof {
                    Self::lemma_wf_frame(*old(self), *self);
                }
                let header: Option<Header> = match fheader {
                    Some(h) => Some(Header::new(h, token)),
                    None => None,
                };
                proof {
                    // Bounds on the number of records and their path lengths.
                    if crate::bytes::starts_with(content@, crate::parse::ignore_marker()) {
                        assert(fv.cards.len() == 0);
                    } else {
                        match crate::bytes::find_at(content@, crate::parse::card_marker(), 0) {
                            Some(pstart) => {
                                crate::bytes::lemma_find_at_bounds(
                                    content@,
                                    crate::parse::card_marker(),
                                    0,
                                );
                                crate::parse::lemma_parse_cards_bounds(content@, pstart);
                            },
                            None => {
                                assert(fv.cards.len() == 0);
                            },
                        }
                    }
                    assert(fv.cards.len() <= content@.len());
                    assert(forall|x: int, k: int|
                        0 <= x < fv.cards.len() && 0 <= k < (#[trigger] fv.cards[x]).paths.len()
                            ==> (#[trigger] fv.cards[x].paths[k]).len() <= content@.len());
                }
                let n = cards.len();
                let mut i: usize = 0;
                while i < n
                    invariant
                        self.wf(),
                        n == cards@.len(),
                        fv.cards == Seq::new(cards@.len(), |x: int| cards@[x]@),
                        fv.cards.len() <= content@.len(),
                        forall|x: int, k: int|
                            0 <= x < fv.cards.len() && 0 <= k < (
                            #[trigger] fv.cards[x]).paths.len() ==> (
                            #[trigger] fv.cards[x].paths[k]).len() <= content@.len(),
                        content@.len() < usize::MAX - 8,
                        old(self).cards@.len() + content@.len() < usize::MAX - 1,
                        i <= n,
                        token == old(self).next_header_token,
                        self.next_header_token == token + 1,
                        self.sha@ == old(self).sha@,
                        self.cards@.len() <= old(self).cards@.len() + i,
                        self.tags@.len() >= old(self).tags@.len(),
                        forall|t: int|
                            0 <= t < old(self).tags@.len() ==> (#[trigger] self.tags@[
                            t]).full_path@ == old(self).tags@[t].full_path@,
                        crate::cards::view_header(&header) == (match fv.header {
                            Some(hh) => Some(crate::cards::HeaderV { token, inner: hh }),
                            None => None,
                        }),
                        forall|j: int| old(self).live(j) ==> self.live(j),
                        forall|j: int|
                            old(self).live(j) ==> (#[trigger] self.card_at(j)).id@ == old(
                                self,
                            ).card_at(j).id@,
                        forall|j: int| #[trigger]
                            self.live(j) ==> old(self).live(j) || Self::file_has_id(
                                fv.cards.take(i as int),
                                self.card_at(j).id@,
                            ),
                        forall|x: int|
                            0 <= x < i ==> self.has_id((#[trigger] fv.cards[x]).id),
                        forall|j: int|
                            #[trigger] self.live(j) && Self::file_has_id(
                                fv.cards.take(i as int),
                                self.card_at(j).id@,
                            ) ==> Self::card_matches(
                                self.card_at(j),
                                Self::file_info(
                                    fv,
                                    Self::last_rec(fv.cards.take(i as int), self.card_at(j).id@),
                                    token,
                                ),
                            ),
                        forall|j: int|
                            old(self).live(j) && !Self::file_has_id(
                                fv.cards.take(i as int),
                                (#[trigger] old(self).card_at(j)).id@,
                            ) ==> self.live(j) && self.card_at(j) == old(self).card_at(j),
                        forall|id2: Seq<u8>| #[trigger]
                            self.pending_has(id2) <==> old(self).pending_has(id2)
                                && !Self::file_has_id(fv.cards.take(i as int), id2),
                    decreases n - i,
                {
                    let rec = &cards[i];
                    let ghost recv = fv.cards[i as int];
                    proof {
                        assert(recv == cards@[i as int]@);
                    }
                    let info = CardInfo {
                        id: rec.id.clone(),
                        name: rec.name.clone(),
                        locations: rec.paths.clone(),
                        header: match &header {
                            Some(h) => Some(h.clone()),
                            None => None,
                        },
                        question: rec.question.clone(),
                        answer: rec.answer.clone(),
                    };
                    proof {
                        assert(info.locations.deep_view() =~~= recv.paths);
                        assert(info@ == Self::file_info(fv, recv, token));
                        assert forall|k: int| 0 <= k < info.locations@.len() implies (
                        #[trigger] info.locations@[k])@.len() < usize::MAX - 1 by {
                            assert(info.locations.deep_view()[k] == info.locations@[k]@);
                            assert(recv.paths[k].len() <= content@.len());
                        }
                    }
                    let ghost before = *self;
                    self.remove_pending(&rec.id);
                    proof {
                        Self::lemma_wf_frame(before, *self);
                    }
                    let ghost mid = *self;
                    self.upsert_card(info);
                    proof {
                        let iN = i as int;
                        Self::lemma_last_rec_step(fv.cards, iN, recv.id);
                        assert forall|j: int| #[trigger]
                            self.live(j) implies old(self).live(j) || Self::file_has_id(
                            fv.cards.take(iN + 1),
                            self.card_at(j).id@,
                        ) by {
                            Self::lemma_file_has_id_step(fv.cards, iN, self.card_at(j).id@);
                            if mid.live(j) {
                                if !old(self).live(j) {
                                    assert(before.live(j));
                                    assert(mid.card_at(j) == before.card_at(j));
                                    assert(Self::file_has_id(
                                        fv.cards.take(iN),
                                        before.card_at(j).id@,
                                    ));
                                    assert(self.card_at(j).id@ == mid.card_at(j).id@);
                                }
                            } else {
                                assert(self.card_at(j).id@ == recv.id);
                            }
                        }
                        assert forall|x: int| 0 <= x < iN + 1 implies self.has_id(
                            (#[trigger] fv.cards[x]).id,
                        ) by {
                            if x < iN {
                                assert(before.has_id(fv.cards[x].id));
                                let w = choose|w: int|
                                    before.live(w) && (#[trigger] before.card_at(w)).id@
                                        == fv.cards[x].id;
                                assert(mid.live(w) && mid.card_at(w) == before.card_at(w));
                                assert(self.live(w));
                                assert(self.card_at(w).id@ == mid.card_at(w).id@);
                            } else {
                                assert(self.has_id(info@.id));
                            }
                        }
                        assert forall|j: int|
                            #[trigger] self.live(j) && Self::file_has_id(
                                fv.cards.take(iN + 1),
                                self.card_at(j).id@,
                            ) implies Self::card_matches(
                            self.card_at(j),
                            Self::file_info(
                                fv,
                                Self::last_rec(fv.cards.take(iN + 1), self.card_at(j).id@),
                                token,
                            ),
                        ) by {
                            let idj = self.card_at(j).id@;
                            Self::lemma_last_rec_step(fv.cards, iN, idj);
                            Self::lemma_file_has_id_step(fv.cards, iN, idj);
                            if idj == recv.id {
                                assert(Self::card_matches(self.card_at(j), info@));
                            } else {
                                if mid.live(j) {
                                    assert(mid.card_at(j).id@ == self.card_at(j).id@);
                                    assert(self.card_at(j) == mid.card_at(j));
                                    assert(Self::file_has_id(fv.cards.take(iN), idj));
                                    assert(before.live(j) && before.card_at(j) == mid.card_at(j));
                                    assert(Self::card_matches(
                                        before.card_at(j),
                                        Self::file_info(
                                            fv,
                                            Self::last_rec(fv.cards.take(iN), idj),
                                            token,
                                        ),
                                    ));
                                } else {
                                    assert(self.card_at(j).id@ == recv.id);
                                    assert(false);
                                }
                            }
                        }
                        assert forall|j: int|
                            old(self).live(j) && !Self::file_has_id(
                                fv.cards.take(iN + 1),
                                (#[trigger] old(self).card_at(j)).id@,
                            ) implies self.live(j) && self.card_at(j) == old(self).card_at(j) by {
                            let idj = old(self).card_at(j).id@;
                            Self::lemma_file_has_id_step(fv.cards, iN, idj);
                            assert(mid.live(j) && mid.card_at(j) == old(self).card_at(j));
                            assert(idj != recv.id);
                            assert(self.card_at(j) == mid.card_at(j));
                        }
                        assert forall|id2: Seq<u8>| #[trigger]
                            self.pending_has(id2) <==> old(self).pending_has(id2)
                                && !Self::file_has_id(fv.cards.take(iN + 1), id2) by {
                            Self::lemma_file_has_id_step(fv.cards, iN, id2);
                            assert(self.pending_has(id2) == mid.pending_has(id2));
                            if id2 == recv.id {
                                assert(!mid.pending_has(id2));
                            } else {
                                assert(mid.pending_has(id2) == before.pending_has(id2));
                            }
                        }
                    }
                    i += 1;
                }
                proof {
                    assert(fv.cards.take(n as int) =~= fv.cards);
                }
                Ok(())
            },
        }
    }

    /// Resolve or create the tag for a full dotted path: the existing tag
    /// if the path was seen before, otherwise a fresh one linked under its
    /// parent chain.
    pub fn tag(&mut self, full_path: &Vec<u8>) -> (t: usize)
        requires
            old(self).wf(),
            full_path@.len() < usize::MAX - 1,
        ensures
            final(self).wf(),
            old(self).tags_extended(*final(self)),
            (t as int) < final(self).tags@.len(),
            final(self).tags@[t as int].full_path@ == full_path@,
    {
        let chain = self.register_path(full_path);
        chain[chain.len() - 1]
    }

    /// Handles of the root tags.
    pub fn roots(&self) -> (r: Vec<usize>)
        ensures
            r@ == self.roots@,
    {
        self.roots.clone()
    }

    /// Full path of a tag.
    pub fn tag_path(&self, t: usize) -> (r: &Vec<u8>)
        requires
            (t as int) < self.tags@.len(),
        ensures
            r@ == self.tags@[t as int].full_path@,
    {
        &self.tags[t].full_path
    }

    /// Name of a tag: the last segment of its path.
    pub fn tag_name(&self, t: usize) -> (r: &Vec<u8>)
        requires
            (t as int) < self.tags@.len(),
        ensures
            r@ == self.tags@[t as int].name@,
    {
        &self.tags[t].name
    }

    /// Child tags of a tag.
    pub fn children_of(&self, t: usize) -> (r: &Vec<usize>)
        requires
            (t as int) < self.tags@.len(),
        ensures
            r@ == self.tags@[t as int].children@,
    {
        &self.tags[t].children
    }

    /// Cards located exactly at a tag.
    pub fn direct_cards_of(&self, t: usize) -> (r: &Vec<usize>)
        requires
            (t as int) < self.tags@.len(),
        ensures
            r@ == self.tags@[t as int].direct_cards@,
    {
        &self.tags[t].direct_cards
    }

    /// Cards located at a tag or any of its descendants.
    pub fn indirect_cards_of(&self, t: usize) -> (r: &Vec<usize>)
        requires
            (t as int) < self.tags@.len(),
        ensures
            r@ == self.tags@[t as int].indirect_cards@,
    {
        &self.tags[t].indirect_cards
    }

    /// The card in a slot, if the slot is live.
    pub fn card(&self, j: usize) -> (r: Option<&Card>)
        requires
            (j as int) < self.cards@.len(),
        ensures
            (match r {
                Some(c) => self.live(j as int) && *c == self.card_at(j as int),
                None => !self.live(j as int),
            }),
    {
        match &self.cards[j] {
            Some(c) => Some(c),
            None => None,
        }
    }

    /// Some live card carries exactly this data.
    pub open spec fn lists_live_card(self, info: crate::cards::CardInfoV) -> bool {
        exists|j: int| self.live(j) && Self::card_matches(self.card_at(j), info)
    }

    /// Some listed entry carries the data of the card in slot `j`.
    pub open spec fn listed_in(self, j: int, r: Seq<CardInfo>) -> bool {
        exists|x: int| 0 <= x < r.len() && Self::card_matches(self.card_at(j), (#[trigger] r[x])@)
    }

    /// The data of every live card, in slot order.
    pub fn cards(&self) -> (r: Vec<CardInfo>)
        ensures
            forall|x: int| 0 <= x < r@.len() ==> self.lists_live_card((#[trigger] r@[x])@),
            forall|j: int| #[trigger] self.live(j) ==> self.listed_in(j, r@),
    {
        let n = self.cards.len();
        let mut out: Vec<CardInfo> = Vec::new();
        let mut i: usize = 0;
        while i < n
            invariant
                n == self.cards@.len(),
                i <= n,
                forall|x: int| 0 <= x < out@.len() ==> self.lists_live_card((#[trigger] out@[x])@),
                forall|j: int| 0 <= j < i && #[trigger] self.live(j) ==> self.listed_in(j, out@),
            decreases n - i,
        {
            let ghost pre = out@;
            match &self.cards[i] {
                Some(c) => {
                    let info = CardInfo {
                        id: c.id.clone(),
                        name: c.name.clone(),
                        locations: c.locations.clone(),
                        header: match &c.header {
                            Some(h) => Some(h.clone()),
                            None => None,
                        },
                        question: c.question.clone(),
                        answer: c.answer.clone(),
                    };
                    proof {
                        assert(info.locations.deep_view() =~~= c.locations.deep_view());
                        assert(Self::card_matches(self.card_at(i as int), info@));
                    }
                    out.push(info);
                    proof {
                        assert forall|j: int|
                            0 <= j < i + 1 && #[trigger] self.live(j) implies self.listed_in(
                            j,
                            out@,
                        ) by {
                            if j < i {
                                assert(self.listed_in(j, pre));
                                let x = choose|x: int|
                                    0 <= x < pre.len() && Self::card_matches(
                                        self.card_at(j),
                                        (#[trigger] pre[x])@,
                                    );
                                assert(out@[x] == pre[x]);
                                assert(Self::card_matches(self.card_at(j), out@[x]@));
                            } else {
                                assert(Self::card_matches(
                                    self.card_at(j),
                                    out@[out@.len() - 1]@,
                                ));
                            }
                        }
                        assert forall|x: int| 0 <= x < out@.len() implies self.lists_live_card(
                            (#[trigger] out@[x])@,
                        ) by {
                            if x < pre.len() {
                                assert(out@[x] == pre[x]);
                                assert(self.lists_live_card(pre[x]@));
                            } else {
                                assert(self.live(i as int) && Self::card_matches(
                                    self.card_at(i as int),
                                    out@[x]@,
                                ));
                            }
                        }
                    }
                },
                None => {
                    proof {
                        assert forall|j: int|
                            0 <= j < i + 1 && #[trigger] self.live(j) implies self.listed_in(
                            j,
                            out@,
                        ) by {
                            assert(j < i);
                        }
                    }
                },
            }
            i += 1;
        }
        out
    }

    /// Distinct tags carry distinct full paths, and conversely: a tag
    /// handle and its path determine each other, whatever the trailing
    /// name segment.
    pub proof fn lemma_tag_uniqueness(s: CardStore, t1: int, t2: int)
        requires
            s.wf(),
            0 <= t1 < s.tags@.len(),
            0 <= t2 < s.tags@.len(),
        ensures
            t1 == t2 <==> s.tags@[t1].full_path@ == s.tags@[t2].full_path@,
    {
        if t1 != t2 {
            if t1 < t2 {
                assert(s.tags@[t1].full_path@ != s.tags@[t2].full_path@);
            } else {
                assert(s.tags@[t2].full_path@ != s.tags@[t1].full_path@);
            }
        }
    }

    /// Ancestor closure: a registered card stands in the indirect set of
    /// every tag on each of its location chains, in the direct set of each
    /// chain's leaf, and in no other direct set.
    pub proof fn lemma_ancestor_closure(s: CardStore, j: usize, k: int, m: int)
        requires
            s.wf(),
            s.live(j as int),
            0 <= k < s.card_at(j as int).paths@.len(),
            0 <= m < s.card_at(j as int).paths@[k].tags@.len(),
        ensures
            s.tags@[s.card_at(j as int).paths@[k].tags@[m] as int].indirect_cards@.contains(j),
            s.tags@[s.card_at(j as int).paths@[k].tags@.last() as int].direct_cards@.contains(j),
    {
        let c = s.card_at(j as int);
        let chain = c.paths@[k].tags@;
        assert(s.card_ok(j as int));
        assert(s.chain_ok(c.paths@[k].tags@, c.locations@[k]@));
        assert((chain[m] as int) < s.tags@.len());
        assert(s.card_touches(j as int, chain[m] as int));
        assert(s.tags@[chain[m] as int].indirect_cards@.contains(j));
        assert((chain.last() as int) < s.tags@.len());
        assert(s.card_has_leaf(j as int, chain.last() as int));
        assert(s.tags@[chain.last() as int].direct_cards@.contains(j));
    }

    /// A card stands in a tag's direct set only when that tag is the leaf
    /// of one of the card's locations.
    pub proof fn lemma_direct_only_at_leaf(s: CardStore, j: usize, t: int)
        requires
            s.wf(),
            0 <= t < s.tags@.len(),
            s.tags@[t].direct_cards@.contains(j),
        ensures
            s.live(j as int),
            s.card_has_leaf(j as int, t),
    {
        assert(s.tags@[t].direct_cards@.contains(j) <==> s.live(j as int) && s.card_has_leaf(
            j as int,
            t,
        ));
    }

    /// The data of a stored card, as handed to consumers.
    pub open spec fn card_info_of(c: Card) -> crate::cards::CardInfoV {
        crate::cards::CardInfoV {
            id: c.id@,
            name: c.name@,
            locations: c.locations.deep_view(),
            header: crate::cards::view_header(&c.header),
            question: c.question@,
            answer: c.answer@,
        }
    }

    /// Synthesize the main document for the selected card handles, in
    /// order, under the given render configuration.
    pub fn build_source(&self, selection: &Vec<usize>, config: crate::cards::SourceConfig) -> (r:
        Vec<u8>)
        requires
            forall|k: int|
                0 <= k < selection@.len() ==> self.live(#[trigger] selection@[k] as int),
        ensures
            r@ == crate::source::source_spec(
                Seq::new(
                    selection@.len(),
                    |k: int| Self::card_info_of(self.card_at(selection@[k] as int)),
                ),
                config,
            ),
    {
        let n = selection.len();
        let mut infos: Vec<CardInfo> = Vec::new();
        let mut k: usize = 0;
        while k < n
            invariant
                n == selection@.len(),
                k <= n,
                forall|m: int|
                    0 <= m < selection@.len() ==> self.live(#[trigger] selection@[m] as int),
                infos@.len() == k,
                forall|m: int|
                    0 <= m < k ==> (#[trigger] infos@[m])@ == Self::card_info_of(
                        self.card_at(selection@[m] as int),
                    ),
            decreases n - k,
        {
            let j = selection[k];
            let card = match &self.cards[j] {
                Some(c) => c,
                None => {
                    proof {
                        assert(self.live(selection@[k as int] as int));
                        assert(false);
                    }
                    unreached()
                },
            };
            let info = CardInfo {
                id: card.id.clone(),
                name: card.name.clone(),
                locations: card.locations.clone(),
                header: match &card.header {
                    Some(h) => Some(h.clone()),
                    None => None,
                },
                question: card.question.clone(),
                answer: card.answer.clone(),
            };
            proof {
                assert(info.locations.deep_view() =~~= card.locations.deep_view());
                assert(info@ == Self::card_info_of(self.card_at(selection@[k as int] as int)));
            }
            infos.push(info);
            k += 1;
        }
        let r = crate::source::build_source(&infos, config);
        proof {
            assert(Seq::new(infos@.len(), |i: int| infos@[i]@) =~= Seq::new(
                selection@.len(),
                |k: int| Self::card_info_of(self.card_at(selection@[k] as int)),
            ));
        }
        r
    }

    /// Slot of the live card with the given id, if present.
    pub fn find_card(&self, id: &Vec<u8>) -> (r: Option<usize>)
        ensures
            (match r {
                Some(j) => self.live(j as int) && self.card_at(j as int).id@ == id@,
                None => !self.has_id(id@),
            }),
    {
        let n = self.cards.len();
        let mut i: usize = 0;
        while i < n
            invariant
                n == self.cards@.len(),
                i <= n,
                forall|j: int| 0 <= j < i ==> !(self.live(j) && self.card_at(j).id@ == id@),
            decreases n - i,
        {
            match &self.cards[i] {
                Some(c) => {
                    if crate::bytes::bytes_eq(&c.id, id) {
                        return Some(i);
                    }
                },
                None => {},
            }
            i += 1;
        }
        None
    }
}

} // verus!
