//! Synthesis of the main document from the selected cards.
//!
//! The document opens an enclosing scope and walks the cards in order.
//! Whenever a card's header differs by identity from the previous card's,
//! the current scope is closed and a new one opened, with the new header
//! emitted first when there is one; adjacent cards sharing a header stay in
//! one scope with no delimiter between them.  Every card contributes its
//! invocation line, its question, an answer separator and its answer.

use vstd::prelude::*;
use vstd::string::StringSliceAdditionalSpecFns;

use crate::bytes::{dec_of, push_all, push_str_bytes, push_u32_dec};
use crate::cards::{header_option_same, header_same, CardInfo, CardInfoV, HeaderV, SourceConfig};

verus! {

/// The fixed head of the document: the internal import, the setup hook and
/// the render configuration, then the first scope opening.
pub open spec fn source_prelude(config: SourceConfig) -> Seq<u8> {
    "#import \"cards_internal.typ\": *\n#show: setup\n#set page(width: ".spec_bytes() + dec_of(
        config.page_width as nat,
    ) + "pt)\n#set text(size: ".spec_bytes() + dec_of(config.text_size as nat)
        + "pt)\n#[\n".spec_bytes()
}

/// The quoted, comma-terminated rendering of each location path in order.
pub open spec fn paths_list(locs: Seq<Seq<u8>>) -> Seq<u8>
    decreases locs.len(),
{
    if locs.len() == 0 {
        Seq::empty()
    } else {
        "\"".spec_bytes() + locs[0] + "\",".spec_bytes() + paths_list(locs.drop_first())
    }
}

/// One card's contribution: its invocation line, question, answer
/// separator and answer, all verbatim.
pub open spec fn card_block(c: CardInfoV) -> Seq<u8> {
    "#card(\"".spec_bytes() + c.id + "\", \"".spec_bytes() + c.name + "\", (".spec_bytes()
        + paths_list(c.locations) + "))\n".spec_bytes() + c.question + "#answer\n".spec_bytes()
        + c.answer
}

/// Closing the current scope and opening the next, emitting the incoming
/// header first when there is one.
pub open spec fn scope_break(h: Option<HeaderV>) -> Seq<u8> {
    "]\n#[\n".spec_bytes() + (match h {
        Some(hv) => hv.inner + "\n".spec_bytes(),
        None => Seq::<u8>::empty(),
    })
}

/// The card run: a scope break exactly where the header identity changes,
/// then the card's block.
pub open spec fn emit_cards(cards: Seq<CardInfoV>, last: Option<HeaderV>) -> Seq<u8>
    decreases cards.len(),
{
    if cards.len() == 0 {
        Seq::empty()
    } else {
        let c = cards[0];
        (if header_same(last, c.header) {
            Seq::<u8>::empty()
        } else {
            scope_break(c.header)
        }) + card_block(c) + emit_cards(cards.drop_first(), c.header)
    }
}

/// The whole synthesized main document.
pub open spec fn source_spec(cards: Seq<CardInfoV>, config: SourceConfig) -> Seq<u8> {
    source_prelude(config) + emit_cards(cards, None) + "]\n".spec_bytes()
}

/// Append the quoted location list of a card.
fn push_paths(out: &mut Vec<u8>, locs: &Vec<Vec<u8>>)
    ensures
        final(out)@ == old(out)@ + paths_list(locs.deep_view()),
{
    let n = locs.len();
    proof {
        assert(locs.deep_view().skip(0) =~= locs.deep_view());
    }
    let mut i: usize = 0;
    while i < n
        invariant
            n == locs@.len(),
            i <= n,
            old(out)@ + paths_list(locs.deep_view()) == out@ + paths_list(
                locs.deep_view().skip(i as int),
            ),
        decreases n - i,
    {
        let ghost pre = out@;
        push_str_bytes(out, "\"");
        push_all(out, &locs[i]);
        push_str_bytes(out, "\",");
        proof {
            let rest = locs.deep_view().skip(i as int);
            assert(rest.len() > 0);
            assert(rest[0] == locs.deep_view()[i as int]);
            assert(locs.deep_view()[i as int] == locs@[i as int]@);
            assert(rest.drop_first() =~= locs.deep_view().skip(i + 1));
            assert(paths_list(rest) == "\"".spec_bytes() + rest[0] + "\",".spec_bytes()
                + paths_list(rest.drop_first()));
            assert(out@ == pre + "\"".spec_bytes() + locs@[i as int]@ + "\",".spec_bytes());
            assert(pre + paths_list(rest) == out@ + paths_list(
                locs.deep_view().skip(i + 1),
            )) by {
                assert(pre + ("\"".spec_bytes() + rest[0] + "\",".spec_bytes() + paths_list(
                    rest.drop_first(),
                )) =~= (pre + "\"".spec_bytes() + locs@[i as int]@ + "\",".spec_bytes())
                    + paths_list(locs.deep_view().skip(i + 1)));
            }
        }
        i += 1;
    }
    proof {
        assert(locs.deep_view().skip(n as int) =~= Seq::<Seq<u8>>::empty());
        assert(paths_list(locs.deep_view().skip(n as int)) =~= Seq::<u8>::empty());
        assert(old(out)@ + paths_list(locs.deep_view()) =~= out@);
    }
}

/// Append one card's block.
fn push_card_block(out: &mut Vec<u8>, c: &CardInfo)
    ensures
        final(out)@ == old(out)@ + card_block(c@),
{
    push_str_bytes(out, "#card(\"");
    push_all(out, &c.id);
    push_str_bytes(out, "\", \"");
    push_all(out, &c.name);
    push_str_bytes(out, "\", (");
    push_paths(out, &c.locations);
    push_str_bytes(out, "))\n");
    push_all(out, &c.question);
    push_str_bytes(out, "#answer\n");
    push_all(out, &c.answer);
    proof {
        assert(final(out)@ =~= old(out)@ + card_block(c@));
    }
}

/// Build the synthesized main document for the selected cards under the
/// given render configuration.
pub fn build_source(cards: &Vec<CardInfo>, config: SourceConfig) -> (r: Vec<u8>)
    ensures
        r@ == source_spec(Seq::new(cards@.len(), |i: int| cards@[i]@), config),
{
    let ghost sel = Seq::new(cards@.len(), |i: int| cards@[i]@);
    let mut out: Vec<u8> = Vec::new();
    push_str_bytes(&mut out, "#import \"cards_internal.typ\": *\n#show: setup\n#set page(width: ");
    push_u32_dec(&mut out, config.page_width);
    push_str_bytes(&mut out, "pt)\n#set text(size: ");
    push_u32_dec(&mut out, config.text_size);
    push_str_bytes(&mut out, "pt)\n#[\n");
    proof {
        assert(out@ =~= source_prelude(config));
    }
    let mut last: Option<crate::cards::Header> = None;
    proof {
        assert(sel.skip(0) =~= sel);
    }
    let n = cards.len();
    let mut i: usize = 0;
    while i < n
        invariant
            n == cards@.len(),
            i <= n,
            sel == Seq::new(cards@.len(), |i: int| cards@[i]@),
            source_prelude(config) + emit_cards(sel, None) == out@ + emit_cards(
                sel.skip(i as int),
                crate::cards::view_header(&last),
            ),
        decreases n - i,
    {
        let ghost pre = out@;
        let ghost lastv = crate::cards::view_header(&last);
        let c = &cards[i];
        proof {
            assert(sel.skip(i as int)[0] == sel[i as int]);
            assert(sel[i as int] == c@);
        }
        if !header_option_same(&last, &c.header) {
            push_str_bytes(&mut out, "]\n#[\n");
            match &c.header {
                Some(h) => {
                    push_all(&mut out, &h.content.inner);
                    push_str_bytes(&mut out, "\n");
                },
                None => {},
            }
            proof {
                assert(out@ =~= pre + scope_break(c@.header));
            }
        }
        let ghost mid = out@;
        push_card_block(&mut out, c);
        last = match &c.header {
            Some(h) => Some(h.clone()),
            None => None,
        };
        proof {
            let rest = sel.skip(i as int);
            assert(rest.drop_first() =~= sel.skip(i + 1));
            assert(emit_cards(rest, lastv) == (if header_same(lastv, c@.header) {
                Seq::<u8>::empty()
            } else {
                scope_break(c@.header)
            }) + card_block(c@) + emit_cards(sel.skip(i + 1), c@.header));
            assert(crate::cards::view_header(&last) == c@.header);
            assert(pre + emit_cards(rest, lastv) =~= out@ + emit_cards(
                sel.skip(i + 1),
                c@.header,
            ));
        }
        i += 1;
    }
    proof {
        assert(sel.skip(n as int) =~= Seq::<CardInfoV>::empty());
        assert(emit_cards(sel.skip(n as int), crate::cards::view_header(&last)) =~= Seq::<
            u8,
        >::empty());
    }
    push_str_bytes(&mut out, "]\n");
    proof {
        assert(out@ =~= source_spec(sel, config));
    }
    out
}

} // verus!
