//! Chains of headers with their interlinks, and proofs over them.
//!
//! Where a chain or a request cannot be worked on, the functions here give a
//! note that says why, or name the text that cannot be sliced. The levels of
//! headers rest on the machine: the functions that work them out say what holds
//! for some levels that the headers may have, and `link_chain` takes them as an
//! argument.

use crate::hexes::{
    block_id_hex, bytes_to_hex, find_fault, first_fault, hex_pairs, hex_text, hex_to_bytes,
    law_hex_faults, sound_bytes, PairFault,
};
use crate::interlinks::{
    follow_interlinks, ids_view, interlinks_proof, law_interlinks, links_proof, next_interlinks,
    packable, packed, prove_interlinks, TOP_LEVEL,
};
use crate::json::{
    array, fields_view, items_view, lemma_lookup_at, no_fields, object, opt_str, put, Json,
    JsonView,
};
use crate::pow::{
    find_level_fault, header_of, level_fault, level_view, max_level_of, may_reach, parse_header,
    ChainHeader, HeaderView,
};
use crate::text::{decimal, decimal_text, join2, join3, same_text};
use sigma_ser::ScorexSerializable;
use vstd::prelude::*;

verus! {

// ------------------------------------------------------------------ headers

/// A header of a chain with its wire form.
pub ghost struct LinkView {
    pub wire: Seq<u8>,
    pub header: HeaderView,
}

/// Why a chain or a request cannot be worked on.
#[derive(Debug, PartialEq, Eq)]
pub enum ChainFault {
    /// The work breaks off, with a note.
    Note(String),
    /// The work breaks off where a text is sliced two bytes wide from a byte
    /// on: the text ends before, or a character reaches beyond.
    Slice { text: String, at: usize },
}

/// Why a chain or a request cannot be worked on.
pub ghost enum ChainFaultView {
    Note(Seq<char>),
    Slice { text: Seq<char>, at: nat },
}

impl View for ChainFault {
    type V = ChainFaultView;

    open spec fn view(&self) -> ChainFaultView {
        match self {
            ChainFault::Note(note) => ChainFaultView::Note(note@),
            ChainFault::Slice { text, at } => ChainFaultView::Slice {
                text: text@,
                at: *at as nat,
            },
        }
    }
}

/// A result whose note says why the work breaks off.
pub open spec fn noted<T>(r: Result<T, Seq<char>>) -> Result<T, ChainFaultView> {
    match r {
        Ok(v) => Ok(v),
        Err(note) => Err(ChainFaultView::Note(note)),
    }
}

/// The header that an element of a chain gives in hexadecimal, or what keeps
/// it from being read.
pub open spec fn chain_header(item: JsonView) -> Result<LinkView, ChainFaultView> {
    match opt_str(item.get("headerHex"@)) {
        None => Err(ChainFaultView::Note("missing headerHex"@)),
        Some(text) => match first_fault(text) {
            Some(PairFault::Digit) => Err(
                ChainFaultView::Note("bad hex: ParseIntError { kind: InvalidDigit }"@),
            ),
            Some(PairFault::Cut) => Err(ChainFaultView::Slice { text, at: sound_bytes(text) }),
            None => {
                let wire = hex_pairs(text)->0;
                match header_of(wire) {
                    Err(e) => Err(ChainFaultView::Note("header parse failed: "@ + e)),
                    Ok(header) => Ok(LinkView { wire, header }),
                }
            },
        },
    }
}

/// The headers of a chain; the first that cannot be read decides the fault.
pub open spec fn chain_headers(items: Seq<JsonView>) -> Result<Seq<LinkView>, ChainFaultView>
    decreases items.len(),
{
    if items.len() == 0 {
        Ok(Seq::empty())
    } else {
        match chain_headers(items.drop_last()) {
            Err(e) => Err(e),
            Ok(before) => match chain_header(items.last()) {
                Err(e) => Err(e),
                Ok(link) => Ok(before.push(link)),
            },
        }
    }
}

/// The headers of a list with their wire forms.
pub open spec fn headers_view(headers: Seq<ChainHeader>) -> Seq<LinkView> {
    Seq::new(headers.len(), |i: int| LinkView { wire: headers[i].wire@, header: headers[i]@ })
}

/// A header that was read, or the note of the error.
pub fn note_parse(read: Result<ChainHeader, String>) -> (r: Result<ChainHeader, String>)
    ensures
        match read {
            Ok(h) => r == Ok::<ChainHeader, String>(h),
            Err(e) => r matches Err(note) && note@ == "header parse failed: "@ + e@,
        },
{
    match read {
        Ok(h) => Ok(h),
        Err(e) => Err(join2("header parse failed: ", e.as_str())),
    }
}

/// Says why the work breaks off.
fn note(text: &str) -> (r: ChainFault)
    ensures
        r@ == ChainFaultView::Note(text@),
{
    ChainFault::Note(text.to_owned())
}

/// Reads one header of a chain.
fn read_header(item: &Json) -> (r: Result<ChainHeader, ChainFault>)
    ensures
        (match r {
            Ok(h) => Ok(LinkView { wire: h.wire@, header: h@ }),
            Err(e) => Err(e@),
        }) == chain_header(item@),
        r matches Ok(h) ==> h.wf(),
{
    let text: &str = match item.get("headerHex") {
        Some(v) => match v.as_str() {
            Some(text) => text,
            None => return Err(note("missing headerHex")),
        },
        None => return Err(note("missing headerHex")),
    };
    match find_fault(text) {
        Some((PairFault::Digit, _)) => return Err(
            note("bad hex: ParseIntError { kind: InvalidDigit }"),
        ),
        Some((PairFault::Cut, at)) => return Err(ChainFault::Slice { text: text.to_owned(), at }),
        None => {},
    }
    proof {
        law_hex_faults(text@);
    }
    let wire: Vec<u8> = hex_to_bytes(text);
    match note_parse(parse_header(wire.as_slice())) {
        Ok(h) => Ok(h),
        Err(e) => Err(ChainFault::Note(e)),
    }
}

/// A note stays the outcome whatever headers follow.
proof fn lemma_headers_note(items: Seq<JsonView>, n: int)
    requires
        0 <= n <= items.len(),
        chain_headers(items.take(n)) is Err,
    ensures
        chain_headers(items) == chain_headers(items.take(n)),
    decreases items.len(),
{
    if n < items.len() {
        assert(items.drop_last().take(n) =~= items.take(n));
        lemma_headers_note(items.drop_last(), n);
    } else {
        assert(items.take(n) =~= items);
    }
}

/// Reads the headers of a chain.
pub fn read_headers(items: &Vec<Json>) -> (r: Result<Vec<ChainHeader>, ChainFault>)
    ensures
        (match r {
            Ok(headers) => Ok(headers_view(headers@)),
            Err(e) => Err(e@),
        }) == chain_headers(items_view(items@)),
        r matches Ok(headers) ==> forall|i: int|
            0 <= i < headers@.len() ==> (#[trigger] headers@[i]).wf(),
{
    let ghost view = items_view(items@);
    let mut out: Vec<ChainHeader> = Vec::new();
    let mut i: usize = 0;
    assert(view.take(0) =~= Seq::empty());
    assert(headers_view(out@) =~= Seq::empty());
    while i < items.len()
        invariant
            i <= items@.len(),
            view == items_view(items@),
            chain_headers(view.take(i as int)) == Ok::<Seq<LinkView>, ChainFaultView>(
                headers_view(out@),
            ),
            forall|j: int| 0 <= j < out@.len() ==> (#[trigger] out@[j]).wf(),
        decreases items@.len() - i,
    {
        assert(view.take(i + 1).drop_last() =~= view.take(i as int));
        assert(view.take(i + 1).last() == view[i as int]);
        match read_header(&items[i]) {
            Ok(h) => {
                let ghost before = out@;
                out.push(h);
                assert(headers_view(out@) =~= headers_view(before).push(
                    LinkView { wire: h.wire@, header: h@ },
                ));
            },
            Err(e) => {
                proof {
                    lemma_headers_note(view, i + 1);
                }
                return Err(e);
            },
        }
        i = i + 1;
    }
    assert(view.take(i as int) =~= view);
    Ok(out)
}

// -------------------------------------------------------------------- chain

/// A header with its interlinks and the proof that belongs to them.
pub ghost struct PopowView {
    pub wire: Seq<u8>,
    pub header: HeaderView,
    pub interlinks: Seq<Seq<u8>>,
    pub proof: Seq<u8>,
}

/// A header with its interlinks and the proof that belongs to them.
pub struct PopowHeader {
    pub header: ChainHeader,
    pub interlinks: Vec<[u8; 32]>,
    pub proof: Vec<u8>,
}

impl View for PopowHeader {
    type V = PopowView;

    open spec fn view(&self) -> PopowView {
        PopowView {
            wire: self.header.wire@,
            header: self.header@,
            interlinks: ids_view(self.interlinks@),
            proof: self.proof@,
        }
    }
}

impl PopowView {
    /// There are interlinks, and the proof is the one that belongs to them.
    pub open spec fn linked_well(self) -> bool {
        &&& 0 < self.interlinks.len() <= TOP_LEVEL + 1
        &&& packable(self.interlinks)
        &&& interlinks_proof(packed(self.interlinks)) == Some(self.proof)
    }

    /// The header was read from its wire form, there are interlinks, and the
    /// proof is the one that belongs to them.
    pub open spec fn wf(self) -> bool {
        &&& header_of(self.wire) == Ok::<HeaderView, Seq<char>>(self.header)
        &&& self.linked_well()
    }
}

/// The headers of a list with their interlinks and proofs.
pub open spec fn popow_view(chain: Seq<PopowHeader>) -> Seq<PopowView> {
    Seq::new(chain.len(), |i: int| chain[i]@)
}

/// Whether every header of a list is well formed.
pub open spec fn popow_wf(chain: Seq<PopowView>) -> bool {
    forall|i: int| 0 <= i < chain.len() ==> (#[trigger] chain[i]).wf()
}

/// Whether the level of each header but the last can be worked out.
pub open spec fn no_faults(chain: Seq<PopowView>) -> bool {
    forall|i: int| 0 <= i < chain.len() - 1 ==> level_fault((#[trigger] chain[i]).header) is None
}

/// A header that gets interlinks: the proof is added.
pub open spec fn linked(link: LinkView, ids: Seq<Seq<u8>>, missing: Seq<char>) -> Result<
    PopowView,
    Seq<char>,
> {
    match links_proof(ids, missing) {
        Err(e) => Err(e),
        Ok(proof) => Ok(
            PopowView { wire: link.wire, header: link.header, interlinks: ids, proof },
        ),
    }
}

/// Levels, or why there are none.
pub open spec fn levels_view(levels: Seq<Result<i32, String>>) -> Seq<Result<i32, Seq<char>>> {
    Seq::new(levels.len(), |i: int| level_view(levels[i]))
}

/// Whether a header may have a level: one that it may come out with, or none,
/// with the note of why none can be worked out.
pub open spec fn level_fits(link: LinkView, level: Result<i32, Seq<char>>) -> bool {
    match level_fault(link.header) {
        Some(note) => level == Err::<i32, Seq<char>>(note),
        None => level matches Ok(level) && may_reach(link.wire, level),
    }
}

/// Whether headers may have these levels, each its own.
pub open spec fn levels_fit(
    links: Seq<LinkView>,
    levels: Seq<Result<i32, Seq<char>>>,
) -> bool {
    &&& links.len() <= levels.len()
    &&& forall|i: int| 0 <= i < links.len() ==> #[trigger] level_fits(links[i], levels[i])
}

/// A header with the interlinks that it gets behind others: the first holds
/// its own id, each other what follows from the header before and its level.
pub open spec fn next_linked(
    before: Seq<PopowView>,
    link: LinkView,
    levels: Seq<Result<i32, Seq<char>>>,
) -> Result<PopowView, Seq<char>> {
    if before.len() == 0 {
        linked(link, seq![link.header.id], "genesis proof"@)
    } else {
        match next_interlinks(
            before.last().header,
            levels[before.len() - 1],
            before.last().interlinks,
        ) {
            Err(e) => Err(e),
            Ok(ids) => linked(link, ids, "proof"@),
        }
    }
}

/// Headers with their interlinks, one after the other.
pub open spec fn all_linked(
    links: Seq<LinkView>,
    levels: Seq<Result<i32, Seq<char>>>,
) -> Result<Seq<PopowView>, Seq<char>>
    decreases links.len(),
{
    if links.len() == 0 {
        Ok(Seq::empty())
    } else {
        match all_linked(links.drop_last(), levels) {
            Err(e) => Err(e),
            Ok(before) => match next_linked(before, links.last(), levels) {
                Err(e) => Err(e),
                Ok(next) => Ok(before.push(next)),
            },
        }
    }
}

/// The headers of a chain with their interlinks, where they have the given
/// levels: there is at least one header.
pub open spec fn linked_chain(
    links: Seq<LinkView>,
    levels: Seq<Result<i32, Seq<char>>>,
) -> Result<Seq<PopowView>, Seq<char>> {
    if links.len() == 0 {
        Err("index out of bounds: the len is 0 but the index is 0"@)
    } else {
        all_linked(links, levels)
    }
}

/// The headers that a chain gives, with their interlinks, where they have the
/// given levels, or the note of what keeps them from being worked out.
pub open spec fn popow_chain(
    items: Seq<JsonView>,
    levels: Seq<Result<i32, Seq<char>>>,
) -> Result<Seq<PopowView>, ChainFaultView> {
    match chain_headers(items) {
        Err(e) => Err(e),
        Ok(links) => noted(linked_chain(links, levels)),
    }
}

/// Whether the headers that a chain gives may have these levels.
pub open spec fn chain_levels(
    items: Seq<JsonView>,
    levels: Seq<Result<i32, Seq<char>>>,
) -> bool {
    chain_headers(items) matches Ok(links) ==> levels_fit(links, levels)
}

/// Whether an outcome is one that working out a chain can have: the one that
/// levels give which its headers may have.
pub open spec fn chain_meets(
    items: Seq<JsonView>,
    outcome: Result<Seq<PopowView>, ChainFaultView>,
) -> bool {
    exists|levels: Seq<Result<i32, Seq<char>>>|
        outcome == #[trigger] popow_chain(items, levels) && chain_levels(items, levels)
}

/// What a list of headers or a note says.
pub open spec fn chain_result(r: Result<Vec<PopowHeader>, String>) -> Result<
    Seq<PopowView>,
    Seq<char>,
> {
    match r {
        Ok(chain) => Ok(popow_view(chain@)),
        Err(e) => Err(e@),
    }
}

/// What a list of headers or a fault says.
pub open spec fn parsed_view(r: Result<Vec<PopowHeader>, ChainFault>) -> Result<
    Seq<PopowView>,
    ChainFaultView,
> {
    match r {
        Ok(chain) => Ok(popow_view(chain@)),
        Err(e) => Err(e@),
    }
}

/// A note stays the outcome whatever headers follow.
proof fn lemma_linked_note(
    links: Seq<LinkView>,
    levels: Seq<Result<i32, Seq<char>>>,
    n: int,
)
    requires
        0 <= n <= links.len(),
        all_linked(links.take(n), levels) is Err,
    ensures
        all_linked(links, levels) == all_linked(links.take(n), levels),
    decreases links.len(),
{
    if n < links.len() {
        assert(links.drop_last().take(n) =~= links.take(n));
        lemma_linked_note(links.drop_last(), levels, n);
    } else {
        assert(links.take(n) =~= links);
    }
}

/// Adds the proof to a header and its interlinks.
fn attach(header: ChainHeader, ids: Vec<[u8; 32]>, missing: &str) -> (r: Result<
    PopowHeader,
    String,
>)
    requires
        0 < ids@.len() <= TOP_LEVEL + 1,
    ensures
        (match r {
            Ok(p) => Ok(p@),
            Err(e) => Err(e@),
        }) == linked(LinkView { wire: header.wire@, header: header@ }, ids_view(ids@), missing@),
        r matches Ok(p) ==> p@.linked_well() && (header.wf() ==> p@.wf()),
{
    match prove_interlinks(&ids, missing) {
        Ok(proof) => Ok(PopowHeader { header, interlinks: ids, proof }),
        Err(e) => Err(e),
    }
}

/// Gives a header the interlinks that it gets behind others.
fn link_next(
    before: &Vec<PopowHeader>,
    h: ChainHeader,
    levels: &Vec<Result<i32, String>>,
) -> (r: Result<PopowHeader, String>)
    requires
        before@.len() <= levels@.len(),
        forall|i: int| 0 <= i < before@.len() ==> (#[trigger] before@[i])@.linked_well(),
    ensures
        (match r {
            Ok(p) => Ok(p@),
            Err(e) => Err(e@),
        }) == next_linked(
            popow_view(before@),
            LinkView { wire: h.wire@, header: h@ },
            levels_view(levels@),
        ),
        r matches Ok(p) ==> p@.linked_well() && (h.wf() ==> p@.wf()),
{
    if before.len() == 0 {
        let id: [u8; 32] = h.id;
        let ids: Vec<[u8; 32]> = vec![id];
        assert(ids_view(ids@) =~= seq![h@.id]);
        attach(h, ids, "genesis proof")
    } else {
        let n: usize = before.len() - 1;
        let last: &PopowHeader = &before[n];
        assert(popow_view(before@).last() == last@);
        assert(before@[n as int]@.linked_well());
        proof {
            law_interlinks(
                last.header@,
                levels_view(levels@)[n as int],
                last@.interlinks,
            );
        }
        match follow_interlinks(&last.header, &levels[n], &last.interlinks) {
            Ok(ids) => {
                assert(ids_view(ids@).len() == ids@.len());
                attach(h, ids, "proof")
            },
            Err(e) => Err(e),
        }
    }
}

/// Works out the interlinks of a chain of headers that have the given levels.
pub fn link_chain(
    headers: Vec<ChainHeader>,
    levels: &Vec<Result<i32, String>>,
) -> (r: Result<Vec<PopowHeader>, String>)
    requires
        levels@.len() == headers@.len(),
    ensures
        chain_result(r) == linked_chain(headers_view(headers@), levels_view(levels@)),
        (forall|i: int| 0 <= i < headers@.len() ==> (#[trigger] headers@[i]).wf()) ==> (
        r matches Ok(chain) ==> popow_wf(popow_view(chain@))),
{
    let ghost links = headers_view(headers@);
    let ghost lv = levels_view(levels@);
    let ghost all_wf = forall|i: int| 0 <= i < headers@.len() ==> (#[trigger] headers@[i]).wf();
    let mut out: Vec<PopowHeader> = Vec::new();
    assert(links.take(0) =~= Seq::empty());
    assert(popow_view(out@) =~= Seq::empty());
    for h in it: headers
        invariant
            it.seq() == headers@,
            links == headers_view(headers@),
            lv == levels_view(levels@),
            levels@.len() == headers@.len(),
            all_wf ==> forall|i: int| 0 <= i < headers@.len() ==> (#[trigger] headers@[i]).wf(),
            out@.len() == it.index(),
            all_linked(links.take(it.index() as int), lv) == Ok::<
                Seq<PopowView>,
                Seq<char>,
            >(popow_view(out@)),
            forall|i: int| 0 <= i < out@.len() ==> (#[trigger] out@[i])@.linked_well(),
            all_wf ==> forall|i: int| 0 <= i < out@.len() ==> (#[trigger] out@[i])@.wf(),
    {
        let ghost i = it.index() as int;
        assert(h == headers@[i]);
        assert(links.take(i + 1).last() == LinkView { wire: h.wire@, header: h@ });
        assert(links.take(i + 1).drop_last() =~= links.take(i));
        let ghost before = out@;
        match link_next(&out, h, levels) {
            Ok(p) => {
                out.push(p);
                assert(popow_view(out@) =~= popow_view(before).push(p@));
            },
            Err(e) => {
                proof {
                    lemma_linked_note(links, lv, i + 1);
                }
                return Err(e);
            },
        }
    }
    assert(links.take(links.len() as int) =~= links);
    if out.len() == 0 {
        return Err("index out of bounds: the len is 0 but the index is 0".to_owned());
    }
    assert(all_wf ==> popow_wf(popow_view(out@))) by {
        if all_wf {
            assert forall|i: int| 0 <= i < popow_view(out@).len() implies (#[trigger] popow_view(
                out@,
            )[i]).wf() by {
                assert(out@[i]@.wf());
            }
        }
    }
    Ok(out)
}

/// The levels of headers; where none can be worked out, why.
fn levels_of(headers: &Vec<ChainHeader>) -> (r: Vec<Result<i32, String>>)
    requires
        forall|i: int| 0 <= i < headers@.len() ==> (#[trigger] headers@[i]).wf(),
    ensures
        r@.len() == headers@.len(),
        levels_fit(headers_view(headers@), levels_view(r@)),
{
    let ghost links = headers_view(headers@);
    let mut out: Vec<Result<i32, String>> = Vec::new();
    let mut i: usize = 0;
    while i < headers.len()
        invariant
            i <= headers@.len(),
            forall|j: int| 0 <= j < headers@.len() ==> (#[trigger] headers@[j]).wf(),
            links == headers_view(headers@),
            out@.len() == i,
            forall|j: int| 0 <= j < i ==> #[trigger] level_fits(links[j], level_view(out@[j])),
        decreases headers@.len() - i,
    {
        assert(headers@[i as int].wf());
        let level: Result<i32, String> = match find_level_fault(&headers[i]) {
            Some(note) => Err(note),
            None => max_level_of(&headers[i]),
        };
        let ghost before = out@;
        out.push(level);
        proof {
            assert(level_fits(links[i as int], level_view(level)));
            assert forall|j: int| 0 <= j < i + 1 implies #[trigger] level_fits(
                links[j],
                level_view(out@[j]),
            ) by {
                if j < i {
                    assert(level_fits(links[j], level_view(before[j])));
                }
            }
        }
        i = i + 1;
    }
    proof {
        assert forall|j: int| 0 <= j < links.len() implies #[trigger] level_fits(
            links[j],
            levels_view(out@)[j],
        ) by {
            assert(level_fits(links[j], level_view(out@[j])));
        }
    }
    out
}

/// Reads a chain, works out the levels of its headers, and its interlinks from
/// those.
fn read_chain(chain_json: &Vec<Json>) -> (r: (
    Result<Vec<PopowHeader>, ChainFault>,
    Vec<Result<i32, String>>,
))
    ensures
        parsed_view(r.0) == popow_chain(
            items_view(chain_json@),
            levels_view(r.1@),
        ),
        chain_levels(items_view(chain_json@), levels_view(r.1@)),
        r.0 matches Ok(chain) ==> {
            &&& popow_wf(popow_view(chain@))
            &&& no_faults(popow_view(chain@))
            &&& chain@.len() <= r.1@.len()
        },
{
    match read_headers(chain_json) {
        Ok(headers) => {
            let levels: Vec<Result<i32, String>> = levels_of(&headers);
            proof {
                lemma_linked_faultless(headers_view(headers@), levels_view(levels@));
            }
            match link_chain(headers, &levels) {
                Ok(chain) => (Ok(chain), levels),
                Err(e) => (Err(ChainFault::Note(e)), levels),
            }
        },
        Err(e) => (Err(e), Vec::new()),
    }
}

/// As many headers come out as went in, and the level of each but the last can
/// be worked out.
proof fn lemma_linked_faultless(
    links: Seq<LinkView>,
    levels: Seq<Result<i32, Seq<char>>>,
)
    ensures
        all_linked(links, levels) matches Ok(chain) ==> chain.len() == links.len()
            && no_faults(chain),
    decreases links.len(),
{
    if links.len() > 0 {
        lemma_linked_faultless(links.drop_last(), levels);
        if let Ok(chain) = all_linked(links, levels) {
            let before = all_linked(links.drop_last(), levels)->Ok_0;
            assert forall|i: int| 0 <= i < chain.len() - 1 implies level_fault(
                (#[trigger] chain[i]).header,
            ) is None by {
                assert(chain[i] == before[i]);
                if i == before.len() - 1 {
                    assert(before.last() == before[i]);
                }
            }
        }
    }
}

/// Reads a chain and works out its interlinks from the levels of its headers.
pub fn parse_chain(chain_json: &Vec<Json>) -> (r: Result<Vec<PopowHeader>, ChainFault>)
    ensures
        chain_meets(items_view(chain_json@), parsed_view(r)),
        r matches Ok(chain) ==> popow_wf(popow_view(chain@)),
{
    let (chain, levels): (Result<Vec<PopowHeader>, ChainFault>, Vec<Result<i32, String>>) = read_chain(
        chain_json,
    );
    assert(parsed_view(chain) == popow_chain(
        items_view(chain_json@),
        levels_view(levels@),
    ));
    chain
}

// --------------------------------------------------------------- interlinks

/// Ids as texts.
pub open spec fn id_texts(ids: Seq<Seq<u8>>) -> Seq<JsonView> {
    Seq::new(ids.len(), |i: int| JsonView::Text(hex_text(ids[i])))
}

/// The interlinks of a chain as texts, header by header.
pub open spec fn links_texts(chain: Seq<PopowView>) -> Seq<JsonView> {
    Seq::new(chain.len(), |i: int| JsonView::Array(id_texts(chain[i].interlinks)))
}

/// The answer that lists the interlinks of a chain.
pub open spec fn interlinks_answer(chain: Seq<PopowView>) -> JsonView {
    JsonView::Object(
        seq![("interlinks"@, JsonView::Array(links_texts(chain))), ("error"@, JsonView::Null)],
    )
}

/// Writes ids as texts.
fn ids_json(ids: &Vec<[u8; 32]>) -> (r: Json)
    ensures
        r@ == JsonView::Array(id_texts(ids_view(ids@))),
{
    let ghost view = id_texts(ids_view(ids@));
    let mut out: Vec<Json> = Vec::new();
    let mut i: usize = 0;
    while i < ids.len()
        invariant
            i <= ids@.len(),
            view == id_texts(ids_view(ids@)),
            items_view(out@) =~= view.take(i as int),
        decreases ids@.len() - i,
    {
        let text: Json = Json::Text(block_id_hex(&ids[i]));
        let ghost before = out@;
        out.push(text);
        assert(items_view(out@) =~= items_view(before).push(text@));
        i = i + 1;
    }
    assert(view.take(i as int) =~= view);
    array(out)
}

/// Lists the interlinks of a chain.
pub fn interlinks_result(chain: &Vec<PopowHeader>) -> (r: Json)
    ensures
        r@ == interlinks_answer(popow_view(chain@)),
{
    let ghost view = links_texts(popow_view(chain@));
    let mut out: Vec<Json> = Vec::new();
    let mut i: usize = 0;
    while i < chain.len()
        invariant
            i <= chain@.len(),
            view == links_texts(popow_view(chain@)),
            items_view(out@) =~= view.take(i as int),
        decreases chain@.len() - i,
    {
        let ids: Json = ids_json(&chain[i].interlinks);
        let ghost before = out@;
        out.push(ids);
        assert(items_view(out@) =~= items_view(before).push(ids@));
        i = i + 1;
    }
    assert(view.take(i as int) =~= view);
    let mut members: Vec<(String, Json)> = no_fields();
    put(&mut members, "interlinks", array(out));
    put(&mut members, "error", Json::Null);
    assert(fields_view(members@) =~= interlinks_answer(popow_view(chain@))->Object_0);
    object(members)
}

/// What an answer or a note says.
pub open spec fn answer_view(r: Result<Json, String>) -> Result<JsonView, Seq<char>> {
    match r {
        Ok(answer) => Ok(answer@),
        Err(e) => Err(e@),
    }
}

/// What an answer or a fault says.
pub open spec fn outcome_view(r: Result<Json, ChainFault>) -> Result<JsonView, ChainFaultView> {
    match r {
        Ok(answer) => Ok(answer@),
        Err(e) => Err(e@),
    }
}

/// The outcome of a request for the interlinks of a chain whose headers have
/// the given levels.
pub open spec fn interlinks_outcome(
    items: Seq<JsonView>,
    levels: Seq<Result<i32, Seq<char>>>,
) -> Result<JsonView, ChainFaultView> {
    match popow_chain(items, levels) {
        Ok(chain) => Ok(interlinks_answer(chain)),
        Err(e) => Err(e),
    }
}

/// Whether an outcome is one that the interlinks of a chain can have: the one
/// that levels give which its headers may have.
pub open spec fn interlinks_meets(
    items: Seq<JsonView>,
    outcome: Result<JsonView, ChainFaultView>,
) -> bool {
    exists|levels: Seq<Result<i32, Seq<char>>>|
        outcome == #[trigger] interlinks_outcome(items, levels) && chain_levels(
            items,
            levels,
        )
}

/// Lists the interlinks of the headers that a chain gives.
pub fn run_interlinks(chain_json: &Vec<Json>) -> (r: Result<Json, ChainFault>)
    ensures
        interlinks_meets(items_view(chain_json@), outcome_view(r)),
{
    let (chain, levels): (Result<Vec<PopowHeader>, ChainFault>, Vec<Result<i32, String>>) = read_chain(
        chain_json,
    );
    let r: Result<Json, ChainFault> = match chain {
        Ok(chain) => Ok(interlinks_result(&chain)),
        Err(e) => Err(e),
    };
    assert(outcome_view(r) == interlinks_outcome(
        items_view(chain_json@),
        levels_view(levels@),
    ));
    r
}

// -------------------------------------------------------------------- proof

/// Why no proof came out, as the error is written with `{:?}`.
pub ghost enum ProveFaultView {
    /// No proof of the chain can be made.
    Refused(Seq<char>),
    /// The proof cannot be serialized.
    Unwritable(Seq<char>),
}

/// Why no proof came out, as the error is written with `{:?}`.
#[derive(Debug)]
pub enum ProveFault {
    /// No proof of the chain can be made.
    Refused(String),
    /// The proof cannot be serialized.
    Unwritable(String),
}

impl View for ProveFault {
    type V = ProveFaultView;

    open spec fn view(&self) -> ProveFaultView {
        match self {
            ProveFault::Refused(e) => ProveFaultView::Refused(e@),
            ProveFault::Unwritable(e) => ProveFaultView::Unwritable(e@),
        }
    }
}

/// What a proof or its absence says.
pub open spec fn proof_view(r: Result<Vec<u8>, ProveFault>) -> Result<Seq<u8>, ProveFaultView> {
    match r {
        Ok(bytes) => Ok(bytes@),
        Err(e) => Err(e@),
    }
}

/// Whether a header reaches a level, where its own is the given one. The first
/// block reaches every level.
pub open spec fn reaches(header: HeaderView, own: Result<i32, Seq<char>>, level: int) -> bool {
    header.height == 1 || (header.height > 1 && (own matches Ok(own) && own >= level))
}

/// How many headers from the height 1 on reach a level.
pub open spec fn reaching(
    chain: Seq<PopowView>,
    levels: Seq<Result<i32, Seq<char>>>,
    level: int,
) -> nat
    decreases chain.len(),
{
    if chain.len() == 0 {
        0
    } else {
        let n = chain.len() - 1;
        let one: nat = if reaches(chain[n].header, levels[n], level) {
            1
        } else {
            0
        };
        reaching(chain.drop_last(), levels, level) + one
    }
}

/// The headers of a chain before its last `k`.
pub open spec fn proof_prefix(chain: Seq<PopowView>, k: int) -> Seq<PopowView> {
    chain.take(chain.len() - k)
}

/// Why there is no proof of a chain with these parameters, as far as its
/// length and its first header decide it.
pub open spec fn refusal(chain: Seq<PopowView>, k: u32, m: u32) -> Option<Seq<char>> {
    if k == 0 {
        Some("ZeroKParameter"@)
    } else if chain.len() < k + m {
        Some("ChainTooShort"@)
    } else if chain[0].header.height != 1 {
        Some("NonAnchoredChain"@)
    } else if chain.len() <= k {
        Some("ChainTooShort"@)
    } else {
        None
    }
}

/// Why a proof of a chain with these parameters breaks off, where the headers
/// have the given levels. The sum of the parameters is taken as checked for
/// overflow.
pub open spec fn prove_note(
    chain: Seq<PopowView>,
    levels: Seq<Result<i32, Seq<char>>>,
    k: u32,
    m: u32,
) -> Option<Seq<char>> {
    if k == 0 {
        None
    } else if k + m > u32::MAX {
        Some("attempt to add with overflow"@)
    } else if refusal(chain, k, m) is None && m == 0 {
        let prefix = proof_prefix(chain, k as int);
        let n = decimal(reaching(prefix, levels, prefix.last().interlinks.len() - 1));
        Some("index out of bounds: the len is "@ + n + " but the index is "@ + n)
    } else {
        None
    }
}

/// The serialized proof with the parameters `m` and `k` that holds these
/// headers.
pub uninterp spec fn proof_wire(
    m: u32,
    k: u32,
    prefix: Seq<PopowView>,
    suffix: Seq<PopowView>,
) -> Seq<u8>;

/// The level of the pass that a proof begins with: the highest that the
/// interlinks of the last header have a place for.
pub open spec fn top_pass(chain: Seq<PopowView>) -> int {
    chain.last().interlinks.len() - 1
}

/// The headers from a height on that reach a level, in the order of the chain,
/// where they have the given levels.
pub open spec fn high_headers(
    chain: Seq<PopowView>,
    levels: Seq<i32>,
    level: int,
    height: int,
) -> Seq<PopowView>
    decreases chain.len(),
{
    if chain.len() == 0 {
        Seq::empty()
    } else {
        let n = chain.len() - 1;
        let before = high_headers(chain.drop_last(), levels, level, height);
        if reaches(chain[n].header, Ok(levels[n]), level) && chain[n].header.height >= height {
            before.push(chain[n])
        } else {
            before
        }
    }
}

/// The height that a pass begins at. The first pass begins at the height of the
/// first header; each other at that of the `m`-th header from the end of those
/// that the pass before found, where it found more than `m`, and else where
/// that one began. `passes` gives the levels that the headers have in each.
pub open spec fn pass_start(
    chain: Seq<PopowView>,
    m: u32,
    passes: Seq<Seq<i32>>,
    level: int,
) -> int
    decreases top_pass(chain) - level,
{
    if level >= top_pass(chain) {
        chain[0].header.height as int
    } else {
        let start = pass_start(chain, m, passes, level + 1);
        let found = high_headers(chain, passes[level + 1], level + 1, start);
        if m < found.len() {
            found[found.len() - m].header.height as int
        } else {
            start
        }
    }
}

/// The first pass, from a level down, that finds a header; -1 where none does.
pub open spec fn found_in(
    chain: Seq<PopowView>,
    m: u32,
    passes: Seq<Seq<i32>>,
    level: int,
    i: int,
) -> int
    decreases level + 1,
{
    if level < 0 {
        -1
    } else if reaches(chain[i].header, Ok(passes[level][i]), level) && chain[i].header.height
        >= pass_start(chain, m, passes, level) {
        level
    } else {
        found_in(chain, m, passes, level - 1, i)
    }
}

/// Whether one header stands before another in a proof: by its height, then by
/// the pass that finds it first, then by its place in the chain.
pub open spec fn stands_before(
    chain: Seq<PopowView>,
    m: u32,
    passes: Seq<Seq<i32>>,
    a: int,
    b: int,
) -> bool {
    let pass_a = found_in(chain, m, passes, top_pass(chain), a);
    let pass_b = found_in(chain, m, passes, top_pass(chain), b);
    ||| chain[a].header.height < chain[b].header.height
    ||| chain[a].header.height == chain[b].header.height && (pass_a > pass_b || (pass_a == pass_b && a
        < b))
}

/// Whether the headers of a chain may have these levels, pass by pass.
pub open spec fn passes_fit(chain: Seq<PopowView>, passes: Seq<Seq<i32>>) -> bool {
    forall|level: int, i: int|
        0 <= level <= top_pass(chain) && 0 <= i < chain.len() ==> may_reach(
            chain[i].wire,
            #[trigger] passes[level][i],
        )
}

/// Whether one of some places of a chain holds a header that some pass finds.
pub open spec fn holds_found(
    chain: Seq<PopowView>,
    m: u32,
    passes: Seq<Seq<i32>>,
    places: Seq<int>,
    j: int,
) -> bool {
    0 <= places[j] < chain.len() && found_in(chain, m, passes, top_pass(chain), places[j]) >= 0
}

/// Whether a proof picks the headers at these places out of a chain, where they
/// have the given levels, pass by pass: the first header, and in their order
/// those that some pass finds. Of headers that are the same it holds one.
#[verifier::opaque]
pub open spec fn picked(
    chain: Seq<PopowView>,
    m: u32,
    passes: Seq<Seq<i32>>,
    places: Seq<int>,
) -> bool {
    &&& places.len() > 0 && places[0] == 0
    &&& forall|j: int|
        0 <= j < places.len() ==> #[trigger] holds_found(chain, m, passes, places, j)
    &&& forall|a: int, b: int|
        0 <= a < b < places.len() ==> #[trigger] stands_before(
            chain,
            m,
            passes,
            places[a],
            places[b],
        )
    &&& forall|i: int|
        0 <= i < chain.len() && #[trigger] found_in(chain, m, passes, top_pass(chain), i) >= 0
            ==> exists|j: int|
            0 <= j < places.len() && chain[#[trigger] places[j]].header == chain[i].header
                && chain[places[j]].interlinks == chain[i].interlinks
}

/// The headers at some places of a chain.
pub open spec fn at_places(chain: Seq<PopowView>, places: Seq<int>) -> Seq<PopowView> {
    Seq::new(places.len(), |j: int| chain[places[j]])
}

/// Whether bytes are a proof of a chain with these parameters: it holds the
/// last `k` headers, and those that it picks out of the ones before, for levels
/// that they may have.
pub open spec fn proves(chain: Seq<PopowView>, k: u32, m: u32, bytes: Seq<u8>) -> bool {
    exists|passes: Seq<Seq<i32>>, places: Seq<int>|
        bytes == proof_wire(
            m,
            k,
            at_places(proof_prefix(chain, k as int), places),
            chain.skip(chain.len() - k),
        ) && passes_fit(proof_prefix(chain, k as int), passes) && #[trigger] picked(
            proof_prefix(chain, k as int),
            m,
            passes,
            places,
        )
}

/// Calls `ergo_nipopow::NipopowAlgos::prove`, and serializes the proof.
///
/// Claimed: no proof is made, with the error that says so, where `k` is zero,
/// where the chain is shorter than `k + m` or not longer than `k`, and where it
/// does not begin with the first block. Otherwise a proof comes out: its bytes
/// depend on `m`, `k`, the last `k` headers, and those picked out of the ones
/// before. These are the headers that the passes over the levels find, from the
/// top level down, each pass with levels that the headers may have. Which of
/// them the headers have is not stated: that varies as for `max_level_of`, also
/// from pass to pass.
#[verifier::external_body]
fn prove(chain: &Vec<PopowHeader>, k: u32, m: u32) -> (r: Result<Vec<u8>, ProveFault>)
    requires
        popow_wf(popow_view(chain@)),
        no_faults(popow_view(chain@)),
        k == 0 || k + m <= u32::MAX,
        m > 0 || refusal(popow_view(chain@), k, m) is Some,
    ensures
        match refusal(popow_view(chain@), k, m) {
            Some(reason) => r matches Err(e) && e@ == ProveFaultView::Refused(reason),
            None => r matches Ok(bytes) && exists|passes: Seq<Seq<i32>>, places: Seq<int>|
                bytes@ == proof_wire(
                    m,
                    k,
                    at_places(proof_prefix(popow_view(chain@), k as int), places),
                    popow_view(chain@).skip(chain@.len() - k),
                ) && passes_fit(proof_prefix(popow_view(chain@), k as int), passes)
                    && #[trigger] picked(
                    proof_prefix(popow_view(chain@), k as int),
                    m,
                    passes,
                    places,
                ),
        },
{
    let mut popow: Vec<ergo_nipopow::PoPowHeader> = Vec::new();
    for p in chain.iter() {
        popow.push(ergo_nipopow::PoPowHeader {
            header: ScorexSerializable::scorex_parse_bytes(&p.header.wire).unwrap(),
            interlinks: p.interlinks.iter().map(|id| ergo_chain_types::BlockId((*id).into())).collect(),
            interlinks_proof: ScorexSerializable::scorex_parse_bytes(&p.proof).unwrap(),
        });
    }
    match ergo_nipopow::NipopowAlgos::default().prove(&popow, k, m) {
        Ok(proof) => proof.scorex_serialize_bytes().map_err(|e| ProveFault::Unwritable(format!("{:?}", e))),
        Err(e) => Err(ProveFault::Refused(format!("{:?}", e))),
    }
}

/// How many of the first `n` headers of a chain reach a level, from the
/// height 1 on.
fn count_reaching(
    chain: &Vec<PopowHeader>,
    levels: &Vec<Result<i32, String>>,
    n: usize,
    level: u64,
) -> (r: u64)
    requires
        n <= chain@.len() <= levels@.len(),
    ensures
        r == reaching(popow_view(chain@).take(n as int), levels_view(levels@), level as int),
{
    let ghost prefix = popow_view(chain@).take(n as int);
    let ghost lv = levels_view(levels@);
    let mut count: u64 = 0;
    let mut i: usize = 0;
    assert(prefix.take(0) =~= Seq::empty());
    while i < n
        invariant
            i <= n <= chain@.len() <= levels@.len(),
            prefix == popow_view(chain@).take(n as int),
            lv == levels_view(levels@),
            count <= i,
            count == reaching(prefix.take(i as int), lv, level as int),
        decreases n - i,
    {
        assert(prefix[i as int] == chain@[i as int]@);
        assert(prefix.take(i + 1).drop_last() =~= prefix.take(i as int));
        assert(lv[i as int] == level_view(levels@[i as int]));
        let high: bool = match &levels[i] {
            Ok(own) => *own >= 0 && *own as u64 >= level,
            Err(_) => false,
        };
        let height: u32 = chain[i].header.height;
        if height == 1 || (height > 1 && high) {
            count = count + 1;
        }
        i = i + 1;
    }
    assert(prefix.take(n as int) =~= prefix);
    count
}

/// Why a proof of a chain with these parameters breaks off, where the headers
/// have the given levels.
pub fn find_prove_note(
    chain: &Vec<PopowHeader>,
    levels: &Vec<Result<i32, String>>,
    k: u32,
    m: u32,
) -> (r: Option<String>)
    requires
        chain@.len() <= levels@.len(),
        forall|i: int| 0 <= i < chain@.len() ==> (#[trigger] chain@[i])@.interlinks.len() > 0,
    ensures
        (match r {
            Some(note) => Some(note@),
            None => None,
        }) == prove_note(popow_view(chain@), levels_view(levels@), k, m),
{
    if k == 0 {
        return None;
    }
    let sum: u64 = k as u64 + m as u64;
    if sum > u32::MAX as u64 {
        return Some("attempt to add with overflow".to_owned());
    }
    let len: u64 = chain.len() as u64;
    if m != 0 || len <= k as u64 || chain[0].header.height != 1 {
        return None;
    }
    let n: usize = chain.len() - k as usize;
    let ghost prefix = popow_view(chain@).take(n as int);
    assert(prefix.last() == chain@[n - 1]@);
    assert(chain@[n - 1]@.interlinks.len() > 0);
    let level: u64 = chain[n - 1].interlinks.len() as u64 - 1;
    let digits: String = decimal_text(count_reaching(chain, levels, n, level) as u128);
    let head: String = join3(
        "index out of bounds: the len is ",
        digits.as_str(),
        " but the index is ",
    );
    Some(join2(head.as_str(), digits.as_str()))
}

// ------------------------------------------------------------------ request

/// The outcome of an attempted proof.
pub open spec fn proof_answer(r: Result<Seq<u8>, ProveFaultView>) -> Result<JsonView, Seq<char>> {
    match r {
        Ok(bytes) => Ok(
            JsonView::Object(
                seq![("proofHex"@, JsonView::Text(hex_text(bytes))), ("error"@, JsonView::Null)],
            ),
        ),
        Err(ProveFaultView::Refused(e)) => Err("prove failed: "@ + e),
        Err(ProveFaultView::Unwritable(e)) => Err("serialize: "@ + e),
    }
}

/// Writes the outcome of an attempted proof.
pub fn proof_result(outcome: Result<Vec<u8>, ProveFault>) -> (r: Result<Json, String>)
    ensures
        answer_view(r) == proof_answer(proof_view(outcome)),
{
    match outcome {
        Ok(bytes) => {
            let mut members: Vec<(String, Json)> = no_fields();
            put(&mut members, "proofHex", Json::Text(bytes_to_hex(bytes.as_slice())));
            put(&mut members, "error", Json::Null);
            assert(fields_view(members@) =~= proof_answer(Ok(bytes@))->Ok_0->Object_0);
            Ok(object(members))
        },
        Err(ProveFault::Refused(e)) => Err(join2("prove failed: ", e.as_str())),
        Err(ProveFault::Unwritable(e)) => Err(join2("serialize: ", e.as_str())),
    }
}

/// A text in lower case.
pub uninterp spec fn lowercase(s: Seq<char>) -> Seq<char>;

/// The lower case of a letter from `A` to `Z`; other characters stay.
pub open spec fn ascii_lower(c: char) -> char {
    if 'A' <= c && c <= 'Z' {
        (c as u32 - 'A' as u32 + 'a' as u32) as char
    } else {
        c
    }
}

/// Calls `str::to_lowercase`.
///
/// Claimed: the text that comes out depends on the text alone; where that
/// holds ASCII characters only, the letters from `A` to `Z` become those from
/// `a` to `z` and the others stay.
#[verifier::external_body]
fn to_lowercase(s: &str) -> (r: String)
    ensures
        r@ == lowercase(s@),
        vstd::utf8::is_ascii_chars(s@) ==> r@ == s@.map_values(|c: char| ascii_lower(c)),
{
    s.to_lowercase()
}

/// The place of the first header whose id reads as the given text; the length
/// where there is none.
pub open spec fn place_of(chain: Seq<PopowView>, text: Seq<char>) -> nat
    decreases chain.len(),
{
    if chain.len() == 0 || hex_text(chain[0].header.id) == text {
        0
    } else {
        1 + place_of(chain.skip(1), text)
    }
}

/// The part of a chain that a request is about: up to `k` headers behind the
/// one with the given id in lower case, or the note of what is missing.
pub open spec fn requested(chain: Seq<PopowView>, k: u32, id: Seq<char>) -> Result<
    Seq<PopowView>,
    Seq<char>,
> {
    let place = place_of(chain, id);
    let end = place + k + 1;
    if place >= chain.len() {
        Err("headerId not found"@)
    } else if end > chain.len() {
        Err(
            "range end index "@ + decimal(end as nat) + " out of range for slice of length "@
                + decimal(chain.len()),
        )
    } else {
        Ok(chain.take(end))
    }
}

/// Where the header with the given id in lower case stands.
fn find_place(chain: &Vec<PopowHeader>, text: &str) -> (r: usize)
    ensures
        r == place_of(popow_view(chain@), text@),
        r <= chain@.len(),
{
    let ghost view = popow_view(chain@);
    let mut i: usize = 0;
    assert(view.skip(0) =~= view);
    while i < chain.len()
        invariant
            i <= chain@.len(),
            view == popow_view(chain@),
            place_of(view, text@) == i + place_of(view.skip(i as int), text@),
        decreases chain@.len() - i,
    {
        assert(view.skip(i as int)[0] == chain@[i as int]@);
        assert(view.skip(i as int).skip(1) =~= view.skip(i + 1));
        if same_text(block_id_hex(&chain[i].header.id).as_str(), text) {
            return i;
        }
        i = i + 1;
    }
    i
}

/// Cuts a chain down to the part that a request is about.
pub fn cut_chain(chain: Vec<PopowHeader>, k: u32, id: &str) -> (r: Result<
    Vec<PopowHeader>,
    String,
>)
    ensures
        chain_result(r) == requested(popow_view(chain@), k, id@),
{
    let ghost view = popow_view(chain@);
    let place: usize = find_place(&chain, id);
    if place >= chain.len() {
        return Err("headerId not found".to_owned());
    }
    let end: u128 = place as u128 + k as u128 + 1;
    let len: u128 = chain.len() as u128;
    if end > len {
        let head: String = join3(
            "range end index ",
            decimal_text(end).as_str(),
            " out of range for slice of length ",
        );
        return Err(join2(head.as_str(), decimal_text(len).as_str()));
    }
    let mut cut: Vec<PopowHeader> = chain;
    cut.truncate(end as usize);
    assert(popow_view(cut@) =~= view.take(end as int));
    Ok(cut)
}

/// The part of the chain that a request is about: all of it where no header
/// is named.
pub open spec fn requested_chain(
    items: Seq<JsonView>,
    k: u32,
    id: Option<Seq<char>>,
    levels: Seq<Result<i32, Seq<char>>>,
) -> Result<Seq<PopowView>, ChainFaultView> {
    match popow_chain(items, levels) {
        Err(e) => Err(e),
        Ok(chain) => match id {
            None => Ok(chain),
            Some(id) => noted(requested(chain, k, id)),
        },
    }
}

/// The answer to a request for the proof of all of a chain, or the note of what
/// it breaks off on; the headers have the given levels, and `outcome` is what an
/// attempted proof gives.
pub open spec fn part_answer(
    chain: Seq<PopowView>,
    m: u32,
    k: u32,
    levels: Seq<Result<i32, Seq<char>>>,
    outcome: Result<Seq<u8>, ProveFaultView>,
) -> Result<JsonView, Seq<char>> {
    match prove_note(chain, levels, k, m) {
        Some(note) => Err(note),
        None => match refusal(chain, k, m) {
            Some(reason) => proof_answer(Err(ProveFaultView::Refused(reason))),
            None => proof_answer(outcome),
        },
    }
}

/// Whether an attempted proof of a chain may have an outcome: where the request
/// is neither refused nor breaks off, a proof of the chain.
pub open spec fn part_fits(
    chain: Seq<PopowView>,
    m: u32,
    k: u32,
    levels: Seq<Result<i32, Seq<char>>>,
    outcome: Result<Seq<u8>, ProveFaultView>,
) -> bool {
    prove_note(chain, levels, k, m) is None && refusal(chain, k, m) is None ==> (
    outcome matches Ok(bytes) && proves(chain, k, m, bytes))
}

/// The answer to a request for the proof of a chain, or what it breaks off on;
/// `id` names a header, in lower case, the headers have the given levels, and
/// `outcome` is what an attempted proof gives.
pub open spec fn prove_answer(
    items: Seq<JsonView>,
    m: u32,
    k: u32,
    id: Option<Seq<char>>,
    levels: Seq<Result<i32, Seq<char>>>,
    outcome: Result<Seq<u8>, ProveFaultView>,
) -> Result<JsonView, ChainFaultView> {
    match requested_chain(items, k, id, levels) {
        Err(e) => Err(e),
        Ok(chain) => noted(part_answer(chain, m, k, levels, outcome)),
    }
}

/// Whether headers may have these levels, and an attempted proof of the part of
/// the chain that the request is about this outcome.
pub open spec fn prove_fits(
    items: Seq<JsonView>,
    m: u32,
    k: u32,
    id: Option<Seq<char>>,
    levels: Seq<Result<i32, Seq<char>>>,
    outcome: Result<Seq<u8>, ProveFaultView>,
) -> bool {
    &&& chain_levels(items, levels)
    &&& requested_chain(items, k, id, levels) matches Ok(chain) ==> part_fits(
        chain,
        m,
        k,
        levels,
        outcome,
    )
}

/// Whether an answer is one that a request for the proof of a chain can have:
/// the one that levels give which its headers may have, and an outcome that
/// the proof may have.
pub open spec fn prove_meets(
    items: Seq<JsonView>,
    m: u32,
    k: u32,
    id: Option<Seq<char>>,
    answer: Result<JsonView, ChainFaultView>,
) -> bool {
    exists|
        levels: Seq<Result<i32, Seq<char>>>,
        outcome: Result<Seq<u8>, ProveFaultView>,
    |
        answer == #[trigger] prove_answer(items, m, k, id, levels, outcome) && prove_fits(
            items,
            m,
            k,
            id,
            levels,
            outcome,
        )
}

/// The text that names a header, in lower case.
pub open spec fn lowered(header_id: Option<&str>) -> Option<Seq<char>> {
    match header_id {
        Some(id) => Some(lowercase(id@)),
        None => None,
    }
}

/// Makes the proof of all of a chain whose headers have the given levels.
fn prove_part(
    chain: &Vec<PopowHeader>,
    levels: &Vec<Result<i32, String>>,
    m: u32,
    k: u32,
) -> (r: Result<Json, String>)
    requires
        popow_wf(popow_view(chain@)),
        no_faults(popow_view(chain@)),
        chain@.len() <= levels@.len(),
    ensures
        exists|outcome: Result<Seq<u8>, ProveFaultView>|
            answer_view(r) == #[trigger] part_answer(
                popow_view(chain@),
                m,
                k,
                levels_view(levels@),
                outcome,
            ) && part_fits(popow_view(chain@), m, k, levels_view(levels@), outcome),
{
    let ghost view = popow_view(chain@);
    let ghost lv = levels_view(levels@);
    assert forall|i: int| 0 <= i < chain@.len() implies (#[trigger] chain@[i])@.interlinks.len()
        > 0 by {
        assert(view[i].wf());
    }
    match find_prove_note(chain, levels, k, m) {
        Some(note) => {
            let ghost unmade: Result<Seq<u8>, ProveFaultView> = Ok(Seq::empty());
            assert(Err::<JsonView, Seq<char>>(note@) == part_answer(view, m, k, lv, unmade));
            return Err(note);
        },
        None => {},
    }
    let outcome: Result<Vec<u8>, ProveFault> = prove(chain, k, m);
    let ghost made = proof_view(outcome);
    let r: Result<Json, String> = proof_result(outcome);
    assert(answer_view(r) == part_answer(view, m, k, lv, made));
    r
}

/// Makes the proof of the chain, or of the part of it up to `k` headers
/// behind the one with the given id.
///
/// The id may be written in either case: where it is ASCII, its letters are
/// taken in lower case. A chain that is too short, or that does not begin
/// with the first block, is refused, and so is a `k` of zero.
pub fn run_prove(chain_json: &Vec<Json>, m: u32, k: u32, header_id: Option<&str>) -> (r: Result<
    Json,
    ChainFault,
>)
    ensures
        prove_meets(items_view(chain_json@), m, k, lowered(header_id), outcome_view(r)),
        header_id matches Some(id) ==> (vstd::utf8::is_ascii_chars(id@) ==> prove_meets(
            items_view(chain_json@),
            m,
            k,
            Some(id@.map_values(|c: char| ascii_lower(c))),
            outcome_view(r),
        )),
{
    let ghost items = items_view(chain_json@);
    let ghost id_view = lowered(header_id);
    let ghost unmade: Result<Seq<u8>, ProveFaultView> = Ok(Seq::empty());
    let id: Option<String> = match header_id {
        Some(id) => Some(to_lowercase(id)),
        None => None,
    };
    let (all, levels): (Result<Vec<PopowHeader>, ChainFault>, Vec<Result<i32, String>>) = read_chain(
        chain_json,
    );
    let ghost lv = levels_view(levels@);
    let all: Vec<PopowHeader> = match all {
        Ok(all) => all,
        Err(e) => {
            assert(Err::<JsonView, ChainFaultView>(e@) == prove_answer(
                items,
                m,
                k,
                id_view,
                lv,
                unmade,
            ));
            return Err(e);
        },
    };
    let ghost view = popow_view(all@);
    let chain: Vec<PopowHeader> = match &id {
        None => all,
        Some(id) => match cut_chain(all, k, id.as_str()) {
            Ok(chain) => chain,
            Err(e) => {
                assert(Err::<JsonView, ChainFaultView>(ChainFaultView::Note(e@)) == prove_answer(
                    items,
                    m,
                    k,
                    id_view,
                    lv,
                    unmade,
                ));
                return Err(ChainFault::Note(e));
            },
        },
    };
    let ghost part = popow_view(chain@);
    assert(requested_chain(items, k, id_view, lv) == Ok::<Seq<PopowView>, ChainFaultView>(
        part,
    ));
    assert forall|i: int| 0 <= i < part.len() implies (#[trigger] part[i]).wf() by {
        assert(part[i] == view[i]);
    }
    assert(no_faults(part)) by {
        assert forall|i: int| 0 <= i < part.len() - 1 implies level_fault(
            (#[trigger] part[i]).header,
        ) is None by {
            assert(part[i] == view[i]);
        }
    }
    let made: Result<Json, String> = prove_part(&chain, &levels, m, k);
    let ghost outcome = choose|outcome: Result<Seq<u8>, ProveFaultView>|
        answer_view(made) == #[trigger] part_answer(part, m, k, lv, outcome) && part_fits(
            part,
            m,
            k,
            lv,
            outcome,
        );
    let r: Result<Json, ChainFault> = match made {
        Ok(answer) => Ok(answer),
        Err(e) => Err(ChainFault::Note(e)),
    };
    assert(outcome_view(r) == prove_answer(items, m, k, id_view, lv, outcome));
    r
}

// --------------------------------------------------------------------- laws

/// The headers of a beginning of a chain are the beginning of its headers.
proof fn lemma_headers_prefix(items: Seq<JsonView>, n: int)
    requires
        0 <= n <= items.len(),
        chain_headers(items) is Ok,
    ensures
        chain_headers(items)->Ok_0.len() == items.len(),
        chain_headers(items.take(n)) == Ok::<Seq<LinkView>, ChainFaultView>(
            chain_headers(items)->Ok_0.take(n),
        ),
    decreases items.len(),
{
    if items.len() > 0 {
        let past = items.drop_last();
        if n < items.len() {
            lemma_headers_prefix(past, n);
            assert(past.take(n) =~= items.take(n));
        } else {
            lemma_headers_prefix(past, n - 1);
            assert(items.take(n) =~= items);
        }
        assert(chain_headers(items)->Ok_0.drop_last() =~= chain_headers(past)->Ok_0);
        assert(chain_headers(items)->Ok_0.take(n) =~= if n < items.len() {
            chain_headers(past)->Ok_0.take(n)
        } else {
            chain_headers(items)->Ok_0
        });
    } else {
        assert(items.take(n) =~= items);
        assert(chain_headers(items)->Ok_0.take(0) =~= chain_headers(items)->Ok_0);
    }
}

/// The linked headers of a beginning are the beginning of the linked headers.
proof fn lemma_linked_prefix(
    links: Seq<LinkView>,
    levels: Seq<Result<i32, Seq<char>>>,
    n: int,
)
    requires
        0 <= n <= links.len(),
        all_linked(links, levels) is Ok,
    ensures
        all_linked(links, levels)->Ok_0.len() == links.len(),
        all_linked(links.take(n), levels) == Ok::<Seq<PopowView>, Seq<char>>(
            all_linked(links, levels)->Ok_0.take(n),
        ),
    decreases links.len(),
{
    if links.len() > 0 {
        let past = links.drop_last();
        if n < links.len() {
            lemma_linked_prefix(past, levels, n);
            assert(past.take(n) =~= links.take(n));
        } else {
            lemma_linked_prefix(past, levels, n - 1);
            assert(links.take(n) =~= links);
        }
        assert(all_linked(links, levels)->Ok_0.drop_last() =~= all_linked(past, levels)->Ok_0);
        assert(all_linked(links, levels)->Ok_0.take(n) =~= if n < links.len() {
            all_linked(past, levels)->Ok_0.take(n)
        } else {
            all_linked(links, levels)->Ok_0
        });
    } else {
        assert(links.take(n) =~= links);
        assert(all_linked(links, levels)->Ok_0.take(0) =~= all_linked(links, levels)->Ok_0);
    }
}

/// The interlinks of a header depend on the headers up to it alone: where a
/// chain can be worked out, each beginning of it that is not empty gives the
/// beginning of the result.
pub proof fn law_chain_beginnings(
    items: Seq<JsonView>,
    levels: Seq<Result<i32, Seq<char>>>,
    n: int,
)
    requires
        popow_chain(items, levels) is Ok,
        0 < n <= items.len(),
    ensures
        popow_chain(items, levels)->Ok_0.len() == items.len(),
        popow_chain(items.take(n), levels) == Ok::<Seq<PopowView>, ChainFaultView>(
            popow_chain(items, levels)->Ok_0.take(n),
        ),
{
    lemma_headers_prefix(items, n);
    lemma_linked_prefix(chain_headers(items)->Ok_0, levels, n);
}

/// The interlinks of linked headers begin with the id of the first header.
proof fn lemma_linked_first(
    links: Seq<LinkView>,
    levels: Seq<Result<i32, Seq<char>>>,
    i: int,
)
    requires
        0 <= i < links.len(),
        all_linked(links, levels) is Ok,
        forall|j: int| 0 < j < i ==> (#[trigger] links[j]).header.height != 1,
    ensures
        all_linked(links, levels)->Ok_0.len() == links.len(),
        all_linked(links, levels)->Ok_0[i].header == links[i].header,
        0 < all_linked(links, levels)->Ok_0[i].interlinks.len() <= TOP_LEVEL + 1,
        all_linked(links, levels)->Ok_0[i].interlinks[0] == links[0].header.id,
    decreases links.len(),
{
    let past = links.drop_last();
    let chain = all_linked(links, levels)->Ok_0;
    lemma_linked_prefix(links, levels, 0);
    lemma_linked_prefix(past, levels, 0);
    if i < past.len() {
        assert forall|j: int| 0 < j < i implies (#[trigger] past[j]).header.height != 1 by {
            assert(past[j] == links[j]);
        }
        lemma_linked_first(past, levels, i);
    } else if past.len() > 0 {
        assert forall|j: int| 0 < j < i - 1 implies (#[trigger] past[j]).header.height != 1 by {
            assert(past[j] == links[j]);
        }
        lemma_linked_first(past, levels, i - 1);
        let before = all_linked(past, levels)->Ok_0;
        assert(before.last() == before[i - 1]);
        law_interlinks(before.last().header, levels[i - 1], before.last().interlinks);
        assert(past[i - 1] == links[i - 1]);
    }
}

/// Where a chain can be worked out, every header keeps the id of the first
/// one in the first place of its interlinks, as long as no later header
/// before it claims to be the first block; and there is one place at most for
/// each level besides.
pub proof fn law_first_block_stays_linked(
    items: Seq<JsonView>,
    levels: Seq<Result<i32, Seq<char>>>,
    i: int,
)
    requires
        popow_chain(items, levels) is Ok,
        0 <= i < items.len(),
        forall|j: int|
            0 < j < i ==> (#[trigger] popow_chain(items, levels)->Ok_0[j]).header.height != 1,
    ensures
        popow_chain(items, levels)->Ok_0.len() == items.len(),
        0 < popow_chain(items, levels)->Ok_0[i].interlinks.len() <= TOP_LEVEL + 1,
        popow_chain(items, levels)->Ok_0[i].interlinks[0] == popow_chain(items, levels)->Ok_0[0].header.id,
{
    let links = chain_headers(items)->Ok_0;
    lemma_headers_prefix(items, 0);
    lemma_linked_prefix(links, levels, 0);
    lemma_linked_headers(links, levels);
    assert forall|j: int| 0 < j < i implies (#[trigger] links[j]).header.height != 1 by {
        assert(popow_chain(items, levels)->Ok_0[j].header == links[j].header);
    }
    lemma_linked_first(links, levels, i);
    lemma_linked_first(links, levels, 0);
}

/// Where the work breaks off on the slicing of a text, some element of the chain
/// gives that text, and a pair of it is cut short behind the sound ones.
pub proof fn law_slice_of_chain(items: Seq<JsonView>, text: Seq<char>, at: nat)
    requires
        chain_headers(items) == Err::<Seq<LinkView>, ChainFaultView>(
            ChainFaultView::Slice { text, at },
        ),
    ensures
        exists|i: int|
            0 <= i < items.len() && opt_str((#[trigger] items[i]).get("headerHex"@)) == Some(text),
        first_fault(text) == Some(PairFault::Cut),
        at == sound_bytes(text),
    decreases items.len(),
{
    let past = items.drop_last();
    if chain_headers(past) is Err {
        law_slice_of_chain(past, text, at);
        let i = choose|i: int|
            0 <= i < past.len() && opt_str((#[trigger] past[i]).get("headerHex"@)) == Some(text);
        assert(items[i] == past[i]);
    } else {
        assert(items[items.len() - 1] == items.last());
    }
}

/// Whether there is one level at most that a header may come out with.
pub open spec fn steady_level(wire: Seq<u8>) -> bool {
    forall|a: i32, b: i32| #[trigger] may_reach(wire, a) && #[trigger] may_reach(wire, b) ==> a == b
}

/// Whether the levels of the headers that a chain gives do not vary.
pub open spec fn steady(items: Seq<JsonView>) -> bool {
    forall|i: int|
        0 <= i < items.len() ==> (chain_header(#[trigger] items[i]) matches Ok(link)
            ==> steady_level(link.wire))
}

/// Each header that a chain gives is the one of its element.
proof fn lemma_header_at(items: Seq<JsonView>, i: int)
    requires
        chain_headers(items) is Ok,
        0 <= i < items.len(),
    ensures
        chain_headers(items)->Ok_0.len() == items.len(),
        chain_header(items[i]) == Ok::<LinkView, ChainFaultView>(
            chain_headers(items)->Ok_0[i],
        ),
    decreases items.len(),
{
    lemma_headers_prefix(items, 0);
    if i < items.len() - 1 {
        lemma_header_at(items.drop_last(), i);
    }
}

/// Levels that do not vary are the same for two callers.
proof fn lemma_levels_agree(
    items: Seq<JsonView>,
    a: Seq<Result<i32, Seq<char>>>,
    b: Seq<Result<i32, Seq<char>>>,
    i: int,
)
    requires
        steady(items),
        chain_headers(items) is Ok,
        level_fits(chain_headers(items)->Ok_0[i], a[i]),
        level_fits(chain_headers(items)->Ok_0[i], b[i]),
        0 <= i < items.len(),
    ensures
        a[i] == b[i],
{
    lemma_header_at(items, i);
    let link = chain_headers(items)->Ok_0[i];
    assert(chain_header(items[i]) == Ok::<LinkView, ChainFaultView>(link));
    if level_fault(link.header) is None {
        assert(may_reach(link.wire, a[i]->Ok_0) && may_reach(link.wire, b[i]->Ok_0));
    }
}

/// Headers are linked alike where the levels before the last one agree.
proof fn lemma_linked_agree(
    links: Seq<LinkView>,
    a: Seq<Result<i32, Seq<char>>>,
    b: Seq<Result<i32, Seq<char>>>,
)
    requires
        all_linked(links, a) is Ok,
        all_linked(links, b) is Ok,
        forall|i: int| 0 <= i < links.len() - 1 ==> #[trigger] a[i] == b[i],
    ensures
        all_linked(links, a) == all_linked(links, b),
    decreases links.len(),
{
    if links.len() > 0 {
        let past = links.drop_last();
        lemma_linked_agree(past, a, b);
        lemma_linked_headers(past, a);
        if past.len() > 0 {
            assert(a[past.len() - 1] == b[past.len() - 1]);
        }
    }
}

/// Where levels do not vary, working out a chain and a beginning of it that is
/// not empty gives the same headers and interlinks, whenever both come out; so
/// does working out a chain twice.
pub proof fn law_beginnings_agree(
    items: Seq<JsonView>,
    n: int,
    whole: Seq<PopowView>,
    part: Seq<PopowView>,
)
    requires
        steady(items),
        0 < n <= items.len(),
        chain_meets(items, Ok(whole)),
        chain_meets(items.take(n), Ok(part)),
    ensures
        part == whole.take(n),
{
    let a = choose|levels: Seq<Result<i32, Seq<char>>>|
        Ok::<Seq<PopowView>, ChainFaultView>(whole) == #[trigger] popow_chain(items, levels)
            && chain_levels(items, levels);
    let b = choose|levels: Seq<Result<i32, Seq<char>>>|
        Ok::<Seq<PopowView>, ChainFaultView>(part) == #[trigger] popow_chain(
            items.take(n),
            levels,
        ) && chain_levels(items.take(n), levels);
    law_chain_beginnings(items, a, n);
    lemma_headers_prefix(items, n);
    let links = chain_headers(items)->Ok_0;
    assert forall|i: int| 0 <= i < n - 1 implies #[trigger] a[i] == b[i] by {
        assert(level_fits(links[i], a[i]));
        assert(level_fits(links.take(n)[i], b[i]));
        assert(links.take(n)[i] == links[i]);
        lemma_levels_agree(items, a, b, i);
    }
    lemma_linked_agree(links.take(n), a, b);
}

/// Where a chain can be worked out, each beginning of it that is not empty can
/// be, to the beginning of the result.
pub proof fn law_beginnings_work_out(items: Seq<JsonView>, n: int, whole: Seq<PopowView>)
    requires
        0 < n <= items.len(),
        chain_meets(items, Ok(whole)),
    ensures
        chain_meets(items.take(n), Ok(whole.take(n))),
{
    let levels = choose|levels: Seq<Result<i32, Seq<char>>>|
        Ok::<Seq<PopowView>, ChainFaultView>(whole) == #[trigger] popow_chain(items, levels)
            && chain_levels(items, levels);
    law_chain_beginnings(items, levels, n);
    lemma_levels_beginning(items, levels, n);
}

/// Levels that the headers of a chain may have, those of a beginning may have.
proof fn lemma_levels_beginning(
    items: Seq<JsonView>,
    levels: Seq<Result<i32, Seq<char>>>,
    n: int,
)
    requires
        0 <= n <= items.len(),
        chain_headers(items) is Ok,
        chain_levels(items, levels),
    ensures
        chain_levels(items.take(n), levels),
{
    lemma_headers_prefix(items, n);
    let links = chain_headers(items)->Ok_0;
    assert forall|i: int| 0 <= i < n implies #[trigger] level_fits(
        links.take(n)[i],
        levels[i],
    ) by {
        assert(level_fits(links[i], levels[i]));
    }
}

/// Chains whose elements give the same texts give the same headers.
proof fn lemma_headers_agree(a: Seq<JsonView>, b: Seq<JsonView>)
    requires
        a.len() == b.len(),
        forall|i: int|
            0 <= i < a.len() ==> opt_str((#[trigger] a[i]).get("headerHex"@)) == opt_str(
                b[i].get("headerHex"@),
            ),
    ensures
        chain_headers(a) == chain_headers(b),
    decreases a.len(),
{
    if a.len() > 0 {
        let past = a.drop_last();
        assert forall|i: int| 0 <= i < past.len() implies opt_str(
            (#[trigger] past[i]).get("headerHex"@),
        ) == opt_str(b.drop_last()[i].get("headerHex"@)) by {
            assert(past[i] == a[i]);
        }
        lemma_headers_agree(past, b.drop_last());
        assert(a.last() == a[a.len() - 1]);
    }
}

/// The interlinks of headers that are the same but for the last, where the
/// levels before the last agree.
proof fn lemma_last_unread(
    x: Seq<LinkView>,
    y: Seq<LinkView>,
    a: Seq<Result<i32, Seq<char>>>,
    b: Seq<Result<i32, Seq<char>>>,
)
    requires
        x.len() == y.len() >= 2,
        x.drop_last() == y.drop_last(),
        forall|i: int| 0 <= i < x.len() - 1 ==> #[trigger] a[i] == b[i],
        all_linked(x, a) is Ok,
        all_linked(y, b) is Ok,
    ensures
        links_texts(all_linked(x, a)->Ok_0) == links_texts(
            all_linked(y, b)->Ok_0,
        ),
{
    let past = x.drop_last();
    lemma_linked_agree(past, a, b);
    lemma_linked_headers(past, a);
    assert(a[past.len() - 1] == b[past.len() - 1]);
    assert(links_texts(all_linked(x, a)->Ok_0) =~= links_texts(
        all_linked(y, b)->Ok_0,
    ));
}

/// Whether two chains of two headers at least give the same texts but for the
/// last.
pub open spec fn same_but_last(a: Seq<JsonView>, b: Seq<JsonView>) -> bool {
    &&& a.len() == b.len() >= 2
    &&& forall|i: int|
        0 <= i < a.len() - 1 ==> opt_str((#[trigger] a[i]).get("headerHex"@)) == opt_str(
            b[i].get("headerHex"@),
        )
}

/// The headers of two such chains are the same but for the last.
proof fn lemma_same_but_last(a: Seq<JsonView>, b: Seq<JsonView>)
    requires
        same_but_last(a, b),
        chain_headers(a) is Ok,
        chain_headers(b) is Ok,
    ensures
        chain_headers(a)->Ok_0.len() == a.len(),
        chain_headers(b)->Ok_0.len() == b.len(),
        chain_headers(a)->Ok_0.drop_last() == chain_headers(b)->Ok_0.drop_last(),
{
    let n = a.len() - 1;
    lemma_headers_prefix(a, n);
    lemma_headers_prefix(b, n);
    assert forall|i: int| 0 <= i < n implies opt_str((#[trigger] a.take(n)[i]).get("headerHex"@))
        == opt_str(b.take(n)[i].get("headerHex"@)) by {
        assert(a.take(n)[i] == a[i]);
    }
    lemma_headers_agree(a.take(n), b.take(n));
    let x = chain_headers(a)->Ok_0;
    let y = chain_headers(b)->Ok_0;
    assert(x.drop_last() =~= x.take(n));
    assert(y.drop_last() =~= y.take(n));
}

/// The last header has no part in the interlinks of a chain: for given levels,
/// two chains that differ in the last header alone have the same, whenever both
/// come out.
pub proof fn law_last_header_unread(
    a: Seq<JsonView>,
    b: Seq<JsonView>,
    levels: Seq<Result<i32, Seq<char>>>,
)
    requires
        same_but_last(a, b),
        interlinks_outcome(a, levels) is Ok,
        interlinks_outcome(b, levels) is Ok,
    ensures
        interlinks_outcome(a, levels) == interlinks_outcome(b, levels),
{
    lemma_same_but_last(a, b);
    let x = chain_headers(a)->Ok_0;
    let y = chain_headers(b)->Ok_0;
    lemma_last_unread(x, y, levels, levels);
}

/// The last header has no part in the interlinks of a chain: where levels do
/// not vary, two chains that differ in the last header alone have the same,
/// whenever both come out.
pub proof fn law_interlinks_agree(
    a: Seq<JsonView>,
    b: Seq<JsonView>,
    answer_a: JsonView,
    answer_b: JsonView,
)
    requires
        same_but_last(a, b),
        steady(a),
        interlinks_meets(a, Ok(answer_a)),
        interlinks_meets(b, Ok(answer_b)),
    ensures
        answer_a == answer_b,
{
    let la = choose|levels: Seq<Result<i32, Seq<char>>>|
        Ok::<JsonView, ChainFaultView>(answer_a) == #[trigger] interlinks_outcome(a, levels)
            && chain_levels(a, levels);
    let lb = choose|levels: Seq<Result<i32, Seq<char>>>|
        Ok::<JsonView, ChainFaultView>(answer_b) == #[trigger] interlinks_outcome(b, levels)
            && chain_levels(b, levels);
    lemma_same_but_last(a, b);
    let x = chain_headers(a)->Ok_0;
    let y = chain_headers(b)->Ok_0;
    assert forall|i: int| 0 <= i < x.len() - 1 implies #[trigger] la[i] == lb[i] by {
        assert(x.drop_last()[i] == x[i] && y.drop_last()[i] == y[i]);
        assert(level_fits(x[i], la[i]));
        assert(level_fits(y[i], lb[i]));
        lemma_levels_agree(a, la, lb, i);
    }
    lemma_last_unread(x, y, la, lb);
}

/// To name a header is to cut the chain `k` headers behind the first that has
/// the id: for given levels and a given outcome of the proof, the answer is
/// that to a request for the whole of the beginning.
pub proof fn law_naming_cuts(
    items: Seq<JsonView>,
    m: u32,
    k: u32,
    id: Seq<char>,
    levels: Seq<Result<i32, Seq<char>>>,
    outcome: Result<Seq<u8>, ProveFaultView>,
)
    requires
        popow_chain(items, levels) is Ok,
        place_of(popow_chain(items, levels)->Ok_0, id) + k + 1 <= items.len(),
    ensures
        ({
            let n = place_of(popow_chain(items, levels)->Ok_0, id) + k + 1;
            prove_answer(items, m, k, Some(id), levels, outcome) == prove_answer(
                items.take(n),
                m,
                k,
                None,
                levels,
                outcome,
            )
        }),
{
    let n = place_of(popow_chain(items, levels)->Ok_0, id) + k + 1;
    law_chain_beginnings(items, levels, n);
}

/// Whether the element at a place is the first that gives a header with the
/// id.
pub open spec fn named_at(items: Seq<JsonView>, id: Seq<char>, place: int) -> bool {
    &&& 0 <= place < items.len()
    &&& chain_header(items[place]) matches Ok(link) && hex_text(link.header.id) == id
    &&& forall|j: int|
        0 <= j < place ==> (chain_header(#[trigger] items[j]) matches Ok(link)
            ==> hex_text(link.header.id) != id)
}

/// A header that is the first with an id stands at its place.
proof fn lemma_place(chain: Seq<PopowView>, id: Seq<char>, place: int)
    requires
        0 <= place < chain.len(),
        hex_text(chain[place].header.id) == id,
        forall|j: int| 0 <= j < place ==> hex_text((#[trigger] chain[j]).header.id) != id,
    ensures
        place_of(chain, id) == place,
    decreases place,
{
    if place > 0 {
        assert(hex_text(chain[0].header.id) != id);
        let rest = chain.skip(1);
        assert forall|j: int| 0 <= j < place - 1 implies hex_text((#[trigger] rest[j]).header.id)
            != id by {
            assert(rest[j] == chain[j + 1]);
        }
        lemma_place(rest, id, place - 1);
    }
}

/// A proof that a named header can have is one that the chain cut `k` headers
/// behind it can have: what follows has no part in it.
pub proof fn law_named_proof(
    items: Seq<JsonView>,
    m: u32,
    k: u32,
    id: Seq<char>,
    place: int,
    answer: JsonView,
)
    requires
        named_at(items, id, place),
        prove_meets(items, m, k, Some(id), Ok(answer)),
    ensures
        place + k + 1 <= items.len(),
        prove_meets(items.take(place + k + 1), m, k, None, Ok(answer)),
{
    let (levels, outcome) = choose|
        levels: Seq<Result<i32, Seq<char>>>,
        outcome: Result<Seq<u8>, ProveFaultView>,
    |
        Ok::<JsonView, ChainFaultView>(answer) == #[trigger] prove_answer(
            items,
            m,
            k,
            Some(id),
            levels,
            outcome,
        ) && prove_fits(items, m, k, Some(id), levels, outcome);
    let chain = popow_chain(items, levels)->Ok_0;
    let links = chain_headers(items)->Ok_0;
    lemma_linked_headers(links, levels);
    lemma_headers_prefix(items, 0);
    lemma_header_at(items, place);
    assert(chain[place].header == links[place].header);
    assert forall|j: int| 0 <= j < place implies hex_text((#[trigger] chain[j]).header.id) != id by {
        lemma_header_at(items, j);
        assert(chain[j].header == links[j].header);
        assert(chain_header(items[j]) == Ok::<LinkView, ChainFaultView>(links[j]));
    }
    lemma_place(chain, id, place);
    let n = place + k + 1;
    law_naming_cuts(items, m, k, id, levels, outcome);
    law_chain_beginnings(items, levels, n);
    lemma_levels_beginning(items, levels, n);
    assert(prove_fits(items.take(n), m, k, None, levels, outcome));
}

/// The same levels let the same headers reach a level.
proof fn lemma_high_agree(
    chain: Seq<PopowView>,
    a: Seq<i32>,
    b: Seq<i32>,
    level: int,
    height: int,
)
    requires
        forall|i: int| 0 <= i < chain.len() ==> #[trigger] a[i] == b[i],
    ensures
        high_headers(chain, a, level, height) == high_headers(chain, b, level, height),
    decreases chain.len(),
{
    if chain.len() > 0 {
        lemma_high_agree(chain.drop_last(), a, b, level, height);
        assert(a[chain.len() - 1] == b[chain.len() - 1]);
    }
}

/// Whether the levels of headers are the same in each pass.
spec fn same_passes(chain: Seq<PopowView>, a: Seq<Seq<i32>>, b: Seq<Seq<i32>>) -> bool {
    forall|level: int, i: int|
        0 <= level <= top_pass(chain) && 0 <= i < chain.len() ==> #[trigger] a[level][i]
            == b[level][i]
}

/// Passes with the same levels begin at the same heights.
proof fn lemma_start_agree(
    chain: Seq<PopowView>,
    m: u32,
    a: Seq<Seq<i32>>,
    b: Seq<Seq<i32>>,
    level: int,
)
    requires
        same_passes(chain, a, b),
        0 <= level,
    ensures
        pass_start(chain, m, a, level) == pass_start(chain, m, b, level),
    decreases top_pass(chain) - level,
{
    if level < top_pass(chain) {
        lemma_start_agree(chain, m, a, b, level + 1);
        let start = pass_start(chain, m, a, level + 1);
        assert forall|i: int| 0 <= i < chain.len() implies #[trigger] a[level + 1][i] == b[level
            + 1][i] by {}
        lemma_high_agree(chain, a[level + 1], b[level + 1], level + 1, start);
    }
}

/// Passes with the same levels find the same headers.
proof fn lemma_found_agree(
    chain: Seq<PopowView>,
    m: u32,
    a: Seq<Seq<i32>>,
    b: Seq<Seq<i32>>,
    level: int,
    i: int,
)
    requires
        same_passes(chain, a, b),
        level <= top_pass(chain),
        0 <= i < chain.len(),
    ensures
        found_in(chain, m, a, level, i) == found_in(chain, m, b, level, i),
    decreases level + 1,
{
    if level >= 0 {
        lemma_start_agree(chain, m, a, b, level);
        assert(a[level][i] == b[level][i]);
        lemma_found_agree(chain, m, a, b, level - 1, i);
    }
}

/// Places in the order of a proof that are the same are in the same order.
proof fn lemma_same_order(
    chain: Seq<PopowView>,
    m: u32,
    passes: Seq<Seq<i32>>,
    a: Seq<int>,
    b: Seq<int>,
)
    requires
        forall|i: int, j: int|
            0 <= i < j < a.len() ==> #[trigger] stands_before(chain, m, passes, a[i], a[j]),
        forall|i: int, j: int|
            0 <= i < j < b.len() ==> #[trigger] stands_before(chain, m, passes, b[i], b[j]),
        forall|x: int| a.contains(x) <==> b.contains(x),
    ensures
        a == b,
    decreases a.len(),
{
    if a.len() == 0 {
        if b.len() > 0 {
            assert(b.contains(b[0]));
        }
        assert(a =~= b);
    } else {
        assert(a.contains(a[0]));
        let j = choose|j: int| 0 <= j < b.len() && b[j] == a[0];
        assert(b.contains(b[0]));
        let i = choose|i: int| 0 <= i < a.len() && a[i] == b[0];
        if j > 0 {
            assert(stands_before(chain, m, passes, b[0], b[j]));
            if i > 0 {
                assert(stands_before(chain, m, passes, a[0], a[i]));
            }
        }
        assert(a[0] == b[0]);
        let rest_a = a.skip(1);
        let rest_b = b.skip(1);
        assert forall|i: int, j: int| 0 <= i < j < rest_a.len() implies #[trigger] stands_before(
            chain,
            m,
            passes,
            rest_a[i],
            rest_a[j],
        ) by {
            assert(stands_before(chain, m, passes, a[i + 1], a[j + 1]));
        }
        assert forall|i: int, j: int| 0 <= i < j < rest_b.len() implies #[trigger] stands_before(
            chain,
            m,
            passes,
            rest_b[i],
            rest_b[j],
        ) by {
            assert(stands_before(chain, m, passes, b[i + 1], b[j + 1]));
        }
        assert forall|x: int| rest_a.contains(x) <==> rest_b.contains(x) by {
            if rest_a.contains(x) {
                let p = choose|p: int| 0 <= p < rest_a.len() && rest_a[p] == x;
                assert(a[p + 1] == x);
                assert(stands_before(chain, m, passes, a[0], a[p + 1]));
                assert(a.contains(x));
                let q = choose|q: int| 0 <= q < b.len() && b[q] == x;
                assert(rest_b[q - 1] == x);
            }
            if rest_b.contains(x) {
                let p = choose|p: int| 0 <= p < rest_b.len() && rest_b[p] == x;
                assert(b[p + 1] == x);
                assert(stands_before(chain, m, passes, b[0], b[p + 1]));
                assert(b.contains(x));
                let q = choose|q: int| 0 <= q < a.len() && a[q] == x;
                assert(rest_a[q - 1] == x);
            }
        }
        lemma_same_order(chain, m, passes, rest_a, rest_b);
        assert(a =~= seq![a[0]] + rest_a);
        assert(b =~= seq![b[0]] + rest_b);
    }
}

/// A place that is picked once is picked again, where no two headers have the
/// same id.
proof fn lemma_picked_again(
    chain: Seq<PopowView>,
    m: u32,
    passes: Seq<Seq<i32>>,
    a: Seq<int>,
    b: Seq<int>,
    x: int,
)
    requires
        forall|i: int, j: int|
            0 <= i < j < chain.len() ==> (#[trigger] chain[i]).header.id != (
            #[trigger] chain[j]).header.id,
        picked(chain, m, passes, a),
        picked(chain, m, passes, b),
        a.contains(x),
    ensures
        b.contains(x),
{
    reveal(picked);
    let p = choose|p: int| 0 <= p < a.len() && a[p] == x;
    assert(holds_found(chain, m, passes, a, p));
    let q = choose|q: int|
        0 <= q < b.len() && chain[#[trigger] b[q]].header == chain[x].header
            && chain[b[q]].interlinks == chain[x].interlinks;
    assert(holds_found(chain, m, passes, b, q));
    assert(b[q] == x) by {
        if b[q] < x {
            assert(chain[b[q]].header.id != chain[x].header.id);
        } else if x < b[q] {
            assert(chain[x].header.id != chain[b[q]].header.id);
        }
    }
}

/// Passes with the same levels pick the same places.
proof fn lemma_picked_same(
    chain: Seq<PopowView>,
    m: u32,
    a: Seq<Seq<i32>>,
    b: Seq<Seq<i32>>,
    places: Seq<int>,
)
    requires
        same_passes(chain, a, b),
        picked(chain, m, b, places),
    ensures
        picked(chain, m, a, places),
{
    reveal(picked);
    let top = top_pass(chain);
    assert forall|j: int| 0 <= j < places.len() implies #[trigger] holds_found(
        chain,
        m,
        a,
        places,
        j,
    ) by {
        assert(holds_found(chain, m, b, places, j));
        lemma_found_agree(chain, m, a, b, top, places[j]);
    }
    assert forall|i: int, j: int| 0 <= i < j < places.len() implies #[trigger] stands_before(
        chain,
        m,
        a,
        places[i],
        places[j],
    ) by {
        assert(stands_before(chain, m, b, places[i], places[j]));
        assert(holds_found(chain, m, b, places, i) && holds_found(chain, m, b, places, j));
        lemma_found_agree(chain, m, a, b, top, places[i]);
        lemma_found_agree(chain, m, a, b, top, places[j]);
    }
    assert forall|i: int| 0 <= i < chain.len() && #[trigger] found_in(chain, m, a, top, i)
        >= 0 implies exists|j: int|
        0 <= j < places.len() && chain[#[trigger] places[j]].header == chain[i].header
            && chain[places[j]].interlinks == chain[i].interlinks by {
        lemma_found_agree(chain, m, a, b, top, i);
        assert(found_in(chain, m, b, top, i) >= 0);
    }
}

/// Two proofs of a chain with the same parameters are the same, where the
/// levels of its headers do not vary and no two have the same id.
proof fn lemma_proofs_agree(chain: Seq<PopowView>, k: u32, m: u32, a: Seq<u8>, b: Seq<u8>)
    requires
        proves(chain, k, m, a),
        proves(chain, k, m, b),
        k <= chain.len(),
        forall|i: int| 0 <= i < chain.len() ==> steady_level((#[trigger] chain[i]).wire),
        forall|i: int, j: int|
            0 <= i < j < chain.len() ==> (#[trigger] chain[i]).header.id != (
            #[trigger] chain[j]).header.id,
    ensures
        a == b,
{
    let part = proof_prefix(chain, k as int);
    let tail = chain.skip(chain.len() - k);
    let (pa, xa) = choose|passes: Seq<Seq<i32>>, places: Seq<int>|
        a == proof_wire(m, k, at_places(part, places), tail) && passes_fit(part, passes)
            && #[trigger] picked(part, m, passes, places);
    let (pb, xb) = choose|passes: Seq<Seq<i32>>, places: Seq<int>|
        b == proof_wire(m, k, at_places(part, places), tail) && passes_fit(part, passes)
            && #[trigger] picked(part, m, passes, places);
    assert(same_passes(part, pa, pb)) by {
        assert forall|level: int, i: int|
            0 <= level <= top_pass(part) && 0 <= i < part.len() implies #[trigger] pa[level][i]
            == pb[level][i] by {
            assert(steady_level(chain[i].wire));
            assert(may_reach(part[i].wire, pa[level][i]));
            assert(may_reach(part[i].wire, pb[level][i]));
        }
    }
    lemma_picked_same(part, m, pa, pb, xb);
    assert forall|i: int, j: int| 0 <= i < j < part.len() implies (#[trigger] part[i]).header.id != (
    #[trigger] part[j]).header.id by {
        assert(chain[i].header.id != chain[j].header.id);
    }
    assert forall|x: int| xa.contains(x) <==> xb.contains(x) by {
        if xa.contains(x) {
            lemma_picked_again(part, m, pa, xa, xb, x);
        }
        if xb.contains(x) {
            lemma_picked_again(part, m, pa, xb, xa, x);
        }
    }
    reveal(picked);
    lemma_same_order(part, m, pa, xa, xb);
}

/// Whether no two headers that a chain gives have the same id.
pub open spec fn ids_apart(items: Seq<JsonView>) -> bool {
    forall|i: int, j: int|
        0 <= i < j < items.len() ==> (chain_header(#[trigger] items[i]) matches Ok(a) ==> (
        chain_header(#[trigger] items[j]) matches Ok(b) ==> a.header.id != b.header.id))
}

/// Two requests for the same proof have the same answer, whenever both come
/// out, where the levels of the headers do not vary and no two headers have the
/// same id.
pub proof fn law_proofs_agree(
    items: Seq<JsonView>,
    m: u32,
    k: u32,
    id: Option<Seq<char>>,
    a: JsonView,
    b: JsonView,
)
    requires
        steady(items),
        ids_apart(items),
        prove_meets(items, m, k, id, Ok(a)),
        prove_meets(items, m, k, id, Ok(b)),
    ensures
        a == b,
{
    let (la, oa) = choose|
        levels: Seq<Result<i32, Seq<char>>>,
        outcome: Result<Seq<u8>, ProveFaultView>,
    |
        Ok::<JsonView, ChainFaultView>(a) == #[trigger] prove_answer(items, m, k, id, levels, outcome)
            && prove_fits(items, m, k, id, levels, outcome);
    let (lb, ob) = choose|
        levels: Seq<Result<i32, Seq<char>>>,
        outcome: Result<Seq<u8>, ProveFaultView>,
    |
        Ok::<JsonView, ChainFaultView>(b) == #[trigger] prove_answer(items, m, k, id, levels, outcome)
            && prove_fits(items, m, k, id, levels, outcome);
    let links = chain_headers(items)->Ok_0;
    lemma_headers_prefix(items, 0);
    assert forall|i: int| 0 <= i < links.len() - 1 implies #[trigger] la[i] == lb[i] by {
        assert(level_fits(links[i], la[i]));
        assert(level_fits(links[i], lb[i]));
        lemma_levels_agree(items, la, lb, i);
    }
    lemma_linked_agree(links, la, lb);
    lemma_linked_headers(links, la);
    let all = popow_chain(items, la)->Ok_0;
    let chain = requested_chain(items, k, id, la)->Ok_0;
    assert forall|i: int| 0 <= i < chain.len() implies steady_level((#[trigger] chain[i]).wire) by {
        assert(chain[i] == all[i]);
        lemma_header_at(items, i);
    }
    assert forall|i: int, j: int| 0 <= i < j < chain.len() implies (#[trigger] chain[i]).header.id
        != (#[trigger] chain[j]).header.id by {
        assert(chain[i] == all[i] && chain[j] == all[j]);
        lemma_header_at(items, i);
        lemma_header_at(items, j);
    }
    lemma_proofs_agree(chain, k, m, oa->Ok_0, ob->Ok_0);
}

/// To name a header is to cut the chain `k` headers behind it: the two requests
/// have the same answer, whenever both come out, where the levels of the
/// headers do not vary and no two headers have the same id.
pub proof fn law_naming_agrees(
    items: Seq<JsonView>,
    m: u32,
    k: u32,
    id: Seq<char>,
    place: int,
    a: JsonView,
    b: JsonView,
)
    requires
        steady(items),
        ids_apart(items),
        named_at(items, id, place),
        prove_meets(items, m, k, Some(id), Ok(a)),
        prove_meets(items.take(place + k + 1), m, k, None, Ok(b)),
    ensures
        a == b,
{
    law_named_proof(items, m, k, id, place, a);
    let part = items.take(place + k + 1);
    assert(steady(part)) by {
        assert forall|i: int| 0 <= i < part.len() implies (chain_header(
            #[trigger] part[i],
        ) matches Ok(link) ==> steady_level(link.wire)) by {
            assert(part[i] == items[i]);
        }
    }
    assert(ids_apart(part)) by {
        assert forall|i: int, j: int| 0 <= i < j < part.len() implies (chain_header(
            #[trigger] part[i],
        ) matches Ok(x) ==> (chain_header(#[trigger] part[j]) matches Ok(y) ==> x.header.id
            != y.header.id)) by {
            assert(part[i] == items[i] && part[j] == items[j]);
        }
    }
    law_proofs_agree(part, m, k, None, a, b);
}

/// No proof comes out where `k` is zero, where the chain is shorter than
/// `k + m` or not longer than `k`, or where it does not begin with the first
/// block, whatever the levels of its headers are.
pub proof fn law_no_proof(
    items: Seq<JsonView>,
    m: u32,
    k: u32,
    id: Option<Seq<char>>,
    answer: Result<JsonView, ChainFaultView>,
)
    requires
        prove_meets(items, m, k, id, answer),
        k == 0 || items.len() < k + m || items.len() <= k || (chain_header(items[0]) matches Ok(first) && first.header.height != 1),
    ensures
        answer is Err,
{
    let (levels, outcome) = choose|
        levels: Seq<Result<i32, Seq<char>>>,
        outcome: Result<Seq<u8>, ProveFaultView>,
    |
        answer == #[trigger] prove_answer(items, m, k, id, levels, outcome) && prove_fits(
            items,
            m,
            k,
            id,
            levels,
            outcome,
        );
    if let Ok(chain) = popow_chain(items, levels) {
        let links = chain_headers(items)->Ok_0;
        lemma_headers_prefix(items, 1);
        lemma_linked_headers(links, levels);
        reveal_with_fuel(chain_headers, 2);
        assert(items.take(1).drop_last() =~= Seq::empty());
        assert(links.take(1)[0] == links[0]);
        assert(chain[0].header == links[0].header);
    }
}

/// Linking keeps the headers.
proof fn lemma_linked_headers(
    links: Seq<LinkView>,
    levels: Seq<Result<i32, Seq<char>>>,
)
    requires
        all_linked(links, levels) is Ok,
    ensures
        all_linked(links, levels)->Ok_0.len() == links.len(),
        forall|j: int|
            0 <= j < links.len() ==> (#[trigger] all_linked(links, levels)->Ok_0[j]).header
                == links[j].header && all_linked(links, levels)->Ok_0[j].wire == links[j].wire,
    decreases links.len(),
{
    if links.len() > 0 {
        lemma_linked_headers(links.drop_last(), levels);
    }
}

/// Whether an element of a chain gives a header: its hexadecimal text stands
/// for the wire form, pair by pair, and that reads as the header.
pub open spec fn gives_header(item: JsonView, wire: Seq<u8>, header: HeaderView) -> bool {
    item.get("headerHex"@) matches Some(JsonView::Text(text)) && hex_pairs(text) == Some(wire)
        && header_of(wire) == Ok::<HeaderView, Seq<char>>(header)
}

/// The headers of a chain are those that its elements give, each in its place;
/// they can be read just where every element gives one.
pub proof fn law_chain_headers(items: Seq<JsonView>, links: Seq<LinkView>)
    ensures
        chain_headers(items) == Ok::<Seq<LinkView>, ChainFaultView>(links) <==> {
            &&& links.len() == items.len()
            &&& forall|i: int|
                0 <= i < items.len() ==> gives_header(
                    items[i],
                    (#[trigger] links[i]).wire,
                    links[i].header,
                )
        },
    decreases items.len(),
{
    if items.len() > 0 {
        let past = items.drop_last();
        let n = items.len() - 1;
        if let Some(JsonView::Text(text)) = items[n].get("headerHex"@) {
            law_hex_faults(text);
        }
        if chain_headers(items) == Ok::<Seq<LinkView>, ChainFaultView>(links) {
            let before = chain_headers(past)->Ok_0;
            law_chain_headers(past, before);
            assert forall|i: int| 0 <= i < items.len() implies gives_header(
                items[i],
                (#[trigger] links[i]).wire,
                links[i].header,
            ) by {
                if i < n {
                    assert(links[i] == before[i] && past[i] == items[i]);
                }
            }
        }
        if links.len() == items.len() && forall|i: int|
            0 <= i < items.len() ==> gives_header(
                items[i],
                (#[trigger] links[i]).wire,
                links[i].header,
            ) {
            let before = links.drop_last();
            assert forall|i: int| 0 <= i < past.len() implies gives_header(
                past[i],
                (#[trigger] before[i]).wire,
                before[i].header,
            ) by {
                assert(before[i] == links[i]);
            }
            law_chain_headers(past, before);
            assert(gives_header(items[n], links[n].wire, links[n].header));
            assert(before.push(links[n]) =~= links);
        }
    } else if links.len() == 0 {
        assert(links =~= Seq::empty());
    }
}

/// The first element of a chain that gives no header decides the fault: it has
/// no text, its text is not hexadecimal, is cut short, or is no header.
pub proof fn law_header_refused(
    items: Seq<JsonView>,
    levels: Seq<Result<i32, Seq<char>>>,
    links: Seq<LinkView>,
)
    requires
        links.len() < items.len(),
        forall|i: int|
            0 <= i < links.len() ==> gives_header(
                items[i],
                (#[trigger] links[i]).wire,
                links[i].header,
            ),
        forall|wire: Seq<u8>, header: HeaderView|
            !#[trigger] gives_header(items[links.len() as int], wire, header),
    ensures
        ({
            let item = items[links.len() as int];
            let fault = popow_chain(items, levels)->Err_0;
            &&& popow_chain(items, levels) is Err
            &&& match item.get("headerHex"@) {
                Some(JsonView::Text(text)) => match hex_pairs(text) {
                    Some(wire) => header_of(wire) is Err && fault == ChainFaultView::Note(
                        "header parse failed: "@ + header_of(wire)->Err_0,
                    ),
                    None => if first_fault(text) == Some(PairFault::Cut) {
                        fault == ChainFaultView::Slice { text, at: sound_bytes(text) }
                    } else {
                        fault == ChainFaultView::Note(
                            "bad hex: ParseIntError { kind: InvalidDigit }"@,
                        )
                    },
                },
                _ => fault == ChainFaultView::Note("missing headerHex"@),
            }
        }),
{
    let n = links.len() as int;
    let before = items.take(n);
    let now = items.take(n + 1);
    law_chain_headers(before, links);
    assert(now.drop_last() =~= before);
    assert(now.last() == items[n]);
    if let Some(JsonView::Text(text)) = items[n].get("headerHex"@) {
        law_hex_faults(text);
        if let Some(wire) = hex_pairs(text) {
            if let Ok(header) = header_of(wire) {
                assert(gives_header(items[n], wire, header));
            }
        }
    }
    lemma_headers_note(items, n + 1);
}

/// Whether a header of a chain has its interlinks and their proof: the first
/// has its own id, each other what follows from the header before.
pub open spec fn holds_links(
    chain: Seq<PopowView>,
    levels: Seq<Result<i32, Seq<char>>>,
    i: int,
) -> bool {
    &&& packable(chain[i].interlinks)
    &&& interlinks_proof(packed(chain[i].interlinks)) == Some(chain[i].proof)
    &&& i == 0 ==> chain[i].interlinks.len() == 1 && chain[i].interlinks[0] == chain[i].header.id
    &&& i > 0 ==> next_interlinks(
        chain[i - 1].header,
        levels[i - 1],
        chain[i - 1].interlinks,
    ) == Ok::<Seq<Seq<u8>>, Seq<char>>(chain[i].interlinks)
}

/// Whether headers with interlinks are those that a chain gives, where they
/// have the given levels.
pub open spec fn worked_out(
    items: Seq<JsonView>,
    levels: Seq<Result<i32, Seq<char>>>,
    chain: Seq<PopowView>,
) -> bool {
    &&& chain.len() == items.len()
    &&& chain.len() > 0
    &&& forall|i: int|
        0 <= i < chain.len() ==> gives_header(
            items[i],
            (#[trigger] chain[i]).wire,
            chain[i].header,
        )
    &&& forall|i: int| 0 <= i < chain.len() ==> #[trigger] holds_links(chain, levels, i)
}

/// Linking headers gives each its interlinks, and succeeds where each has them.
proof fn lemma_links_held(
    links: Seq<LinkView>,
    levels: Seq<Result<i32, Seq<char>>>,
    chain: Seq<PopowView>,
)
    ensures
        all_linked(links, levels) == Ok::<Seq<PopowView>, Seq<char>>(chain) <==> {
            &&& chain.len() == links.len()
            &&& forall|i: int|
                0 <= i < chain.len() ==> (#[trigger] chain[i]).wire == links[i].wire
                    && chain[i].header == links[i].header
            &&& forall|i: int| 0 <= i < chain.len() ==> #[trigger] holds_links(chain, levels, i)
        },
    decreases links.len(),
{
    if links.len() > 0 {
        let past = links.drop_last();
        let n = links.len() - 1;
        if all_linked(links, levels) == Ok::<Seq<PopowView>, Seq<char>>(chain) {
            let before = all_linked(past, levels)->Ok_0;
            lemma_links_held(past, levels, before);
            assert(chain =~= before.push(chain.last()));
            assert forall|i: int| 0 <= i < chain.len() implies (#[trigger] chain[i]).wire
                == links[i].wire && chain[i].header == links[i].header by {
                if i < n {
                    assert(chain[i] == before[i]);
                }
            }
            assert forall|i: int| 0 <= i < chain.len() implies #[trigger] holds_links(
                chain,
                levels,
                i,
            ) by {
                if i < n {
                    assert(holds_links(before, levels, i));
                } else if n > 0 {
                    assert(before.last() == chain[n - 1]);
                }
            }
        }
        if chain.len() == links.len() && (forall|i: int|
            0 <= i < chain.len() ==> (#[trigger] chain[i]).wire == links[i].wire && chain[i].header
                == links[i].header) && (forall|i: int|
            0 <= i < chain.len() ==> #[trigger] holds_links(chain, levels, i)) {
            let before = chain.drop_last();
            assert forall|i: int| 0 <= i < before.len() implies (#[trigger] before[i]).wire
                == past[i].wire && before[i].header == past[i].header by {
                assert(before[i] == chain[i]);
            }
            assert forall|i: int| 0 <= i < before.len() implies #[trigger] holds_links(
                before,
                levels,
                i,
            ) by {
                assert(holds_links(chain, levels, i));
            }
            lemma_links_held(past, levels, before);
            assert(holds_links(chain, levels, n));
            if n > 0 {
                assert(before.last() == chain[n - 1]);
            } else {
                assert(chain[0].interlinks =~= seq![chain[0].header.id]);
            }
            assert(chain =~= before.push(chain[n]));
        }
    } else if chain.len() == 0 {
        assert(chain =~= Seq::empty());
    }
}

/// A chain is worked out just where every element gives a header and every
/// header gets its interlinks with their proof, and the result is those headers
/// in their order. A chain without headers cannot be worked out.
pub proof fn law_worked_out(
    items: Seq<JsonView>,
    levels: Seq<Result<i32, Seq<char>>>,
    chain: Seq<PopowView>,
)
    ensures
        popow_chain(items, levels) == Ok::<Seq<PopowView>, ChainFaultView>(chain) <==> worked_out(
            items,
            levels,
            chain,
        ),
        items.len() == 0 ==> popow_chain(items, levels) == Err::<Seq<PopowView>, ChainFaultView>(
            ChainFaultView::Note("index out of bounds: the len is 0 but the index is 0"@),
        ),
{
    if popow_chain(items, levels) == Ok::<Seq<PopowView>, ChainFaultView>(chain) {
        let links = chain_headers(items)->Ok_0;
        law_chain_headers(items, links);
        lemma_links_held(links, levels, chain);
        assert forall|i: int| 0 <= i < chain.len() implies gives_header(
            items[i],
            (#[trigger] chain[i]).wire,
            chain[i].header,
        ) by {
            assert(gives_header(items[i], links[i].wire, links[i].header));
        }
    }
    if worked_out(items, levels, chain) {
        let links = Seq::new(
            chain.len(),
            |i: int| LinkView { wire: chain[i].wire, header: chain[i].header },
        );
        assert forall|i: int| 0 <= i < items.len() implies gives_header(
            items[i],
            (#[trigger] links[i]).wire,
            links[i].header,
        ) by {
            assert(gives_header(items[i], chain[i].wire, chain[i].header));
        }
        law_chain_headers(items, links);
        lemma_links_held(links, levels, chain);
    }
}

/// One more header behind a chain that is worked out changes nothing before it.
/// It comes in with its interlinks, or keeps the chain from being worked out:
/// because these do not follow, cannot be packed, or have no proof.
pub proof fn law_one_more_header(
    items: Seq<JsonView>,
    levels: Seq<Result<i32, Seq<char>>>,
    chain: Seq<PopowView>,
    item: JsonView,
    wire: Seq<u8>,
    header: HeaderView,
)
    requires
        items.len() == 0 && chain.len() == 0 || worked_out(items, levels, chain),
        gives_header(item, wire, header),
    ensures
        ({
            let all = popow_chain(items.push(item), levels);
            let links = if chain.len() == 0 {
                Ok(seq![header.id])
            } else {
                next_interlinks(
                    chain.last().header,
                    levels[chain.len() - 1],
                    chain.last().interlinks,
                )
            };
            match links {
                Err(note) => all == Err::<Seq<PopowView>, ChainFaultView>(
                    ChainFaultView::Note(note),
                ),
                Ok(ids) => if !packable(ids) {
                    all == Err::<Seq<PopowView>, ChainFaultView>(
                        ChainFaultView::Note("attempt to add with overflow"@),
                    )
                } else {
                    match interlinks_proof(packed(ids)) {
                        Some(bytes) => all == Ok::<Seq<PopowView>, ChainFaultView>(
                            chain.push(PopowView { wire, header, interlinks: ids, proof: bytes }),
                        ),
                        None => all == Err::<Seq<PopowView>, ChainFaultView>(
                            ChainFaultView::Note(
                                if chain.len() == 0 {
                                    "genesis proof"@
                                } else {
                                    "proof"@
                                },
                            ),
                        ),
                    }
                },
            }
        }),
{
    let more = items.push(item);
    let link = LinkView { wire, header };
    let before = Seq::new(
        chain.len(),
        |i: int| LinkView { wire: chain[i].wire, header: chain[i].header },
    );
    let links = before.push(link);
    assert forall|i: int| 0 <= i < more.len() implies gives_header(
        more[i],
        (#[trigger] links[i]).wire,
        links[i].header,
    ) by {
        if i < items.len() {
            assert(gives_header(items[i], chain[i].wire, chain[i].header));
        }
    }
    law_chain_headers(more, links);
    lemma_links_held(before, levels, chain);
    assert(links.drop_last() =~= before);
}

/// What keeps a beginning of a chain from being worked out, once all its
/// headers can be read, keeps the whole from it.
pub proof fn law_link_refused(
    items: Seq<JsonView>,
    levels: Seq<Result<i32, Seq<char>>>,
    n: int,
)
    requires
        0 < n <= items.len(),
        chain_headers(items) is Ok,
        popow_chain(items.take(n), levels) is Err,
    ensures
        popow_chain(items, levels) is Err,
        popow_chain(items, levels)->Err_0 == popow_chain(items.take(n), levels)->Err_0,
{
    lemma_headers_prefix(items, n);
    lemma_linked_note(chain_headers(items)->Ok_0, levels, n);
}

/// Whether headers may have the given levels: one of which no level can be
/// worked out has the note of why, each other one that it may come out with.
pub open spec fn levels_possible(
    chain: Seq<PopowView>,
    levels: Seq<Result<i32, Seq<char>>>,
) -> bool {
    &&& levels.len() >= chain.len()
    &&& forall|i: int|
        0 <= i < chain.len() ==> match level_fault((#[trigger] chain[i]).header) {
            Some(note) => levels[i] == Err::<i32, Seq<char>>(note),
            None => levels[i] is Ok && may_reach(chain[i].wire, levels[i]->Ok_0),
        }
}

/// The levels that the headers of a chain are given are ones that they may
/// have, each its own.
pub proof fn law_levels(
    items: Seq<JsonView>,
    levels: Seq<Result<i32, Seq<char>>>,
    chain: Seq<PopowView>,
)
    requires
        worked_out(items, levels, chain),
    ensures
        chain_levels(items, levels) <==> levels_possible(chain, levels),
{
    law_worked_out(items, levels, chain);
    let links = chain_headers(items)->Ok_0;
    lemma_linked_headers(links, levels);
    if chain_levels(items, levels) {
        assert forall|i: int| 0 <= i < chain.len() implies match level_fault(
            (#[trigger] chain[i]).header,
        ) {
            Some(note) => levels[i] == Err::<i32, Seq<char>>(note),
            None => levels[i] is Ok && may_reach(chain[i].wire, levels[i]->Ok_0),
        } by {
            assert(level_fits(links[i], levels[i]));
        }
    }
    if levels_possible(chain, levels) {
        assert forall|i: int| 0 <= i < links.len() implies #[trigger] level_fits(
            links[i],
            levels[i],
        ) by {
            assert(chain[i].header == links[i].header && chain[i].wire == links[i].wire);
        }
    }
}

/// Working out a chain comes to headers with their interlinks just as they
/// follow from levels that the headers may have.
pub proof fn law_chain_outcome(
    items: Seq<JsonView>,
    outcome: Result<Seq<PopowView>, ChainFaultView>,
)
    requires
        chain_meets(items, outcome),
    ensures
        outcome matches Ok(chain) ==> exists|levels: Seq<Result<i32, Seq<char>>>| #[trigger]
            worked_out(items, levels, chain) && levels_possible(chain, levels),
        outcome matches Err(fault) ==> exists|levels: Seq<Result<i32, Seq<char>>>|
            chain_levels(items, levels) && #[trigger] popow_chain(items, levels) == Err::<
                Seq<PopowView>,
                ChainFaultView,
            >(fault),
{
    let levels = choose|levels: Seq<Result<i32, Seq<char>>>|
        outcome == #[trigger] popow_chain(items, levels) && chain_levels(items, levels);
    if let Ok(chain) = outcome {
        law_worked_out(items, levels, chain);
        law_levels(items, levels, chain);
        assert(worked_out(items, levels, chain));
    }
}

/// Whether an answer lists the interlinks of a chain: one row for each header,
/// each row the ids in hexadecimal, all in their order.
pub open spec fn lists_interlinks(answer: JsonView, chain: Seq<PopowView>) -> bool {
    &&& answer.get("error"@) == Some(JsonView::Null)
    &&& answer.get("interlinks"@) matches Some(JsonView::Array(rows)) && {
        &&& rows.len() == chain.len()
        &&& forall|i: int|
            0 <= i < rows.len() ==> {
                &&& (#[trigger] rows[i]) is Array
                &&& rows[i]->Array_0.len() == chain[i].interlinks.len()
                &&& forall|j: int|
                    0 <= j < chain[i].interlinks.len() ==> #[trigger] rows[i]->Array_0[j]
                        == JsonView::Text(hex_text(chain[i].interlinks[j]))
            }
    }
}

/// The answer to a request for interlinks lists those of the chain.
pub proof fn law_interlinks_listed(chain: Seq<PopowView>)
    ensures
        lists_interlinks(interlinks_answer(chain), chain),
{
    reveal_strlit("error");
    reveal_strlit("interlinks");
    assert("error"@.len() == 5 && "interlinks"@.len() == 10);
    let fields = interlinks_answer(chain)->Object_0;
    lemma_lookup_at(fields, "interlinks"@, 0);
    lemma_lookup_at(fields, "error"@, 1);
}

/// A request for interlinks is answered with those of the chain, where it can
/// be worked out, and with what keeps it from that otherwise.
pub proof fn law_interlinks_outcome(
    items: Seq<JsonView>,
    outcome: Result<JsonView, ChainFaultView>,
)
    requires
        interlinks_meets(items, outcome),
    ensures
        outcome matches Ok(answer) ==> exists|
            levels: Seq<Result<i32, Seq<char>>>,
            chain: Seq<PopowView>,
        | #[trigger]
            worked_out(items, levels, chain) && levels_possible(chain, levels) && lists_interlinks(
                answer,
                chain,
            ),
        outcome matches Err(fault) ==> exists|levels: Seq<Result<i32, Seq<char>>>|
            chain_levels(items, levels) && #[trigger] popow_chain(items, levels) == Err::<
                Seq<PopowView>,
                ChainFaultView,
            >(fault),
{
    let levels = choose|levels: Seq<Result<i32, Seq<char>>>|
        outcome == #[trigger] interlinks_outcome(items, levels) && chain_levels(items, levels);
    match popow_chain(items, levels) {
        Ok(chain) => {
            law_worked_out(items, levels, chain);
            law_levels(items, levels, chain);
            law_interlinks_listed(chain);
            assert(worked_out(items, levels, chain));
        },
        Err(fault) => {
            assert(popow_chain(items, levels) == Err::<Seq<PopowView>, ChainFaultView>(fault));
        },
    }
}

/// Whether the header at a place is the first of a chain whose id reads as a
/// text.
pub open spec fn first_named(chain: Seq<PopowView>, id: Seq<char>, place: int) -> bool {
    &&& 0 <= place < chain.len()
    &&& hex_text(chain[place].header.id) == id
    &&& forall|j: int| 0 <= j < place ==> hex_text((#[trigger] chain[j]).header.id) != id
}

/// A request that names a header is about the chain up to `k` headers behind
/// the first of that id. There is no such part where no header has the id, or
/// where fewer than `k` follow.
pub proof fn law_requested_part(chain: Seq<PopowView>, k: u32, id: Seq<char>)
    ensures
        forall|place: int| #[trigger]
            first_named(chain, id, place) ==> requested(chain, k, id) == (if place + k + 1
                <= chain.len() {
                Ok(chain.take(place + k + 1))
            } else {
                Err(
                    "range end index "@ + decimal((place + k + 1) as nat)
                        + " out of range for slice of length "@ + decimal(chain.len()),
                )
            }),
        (forall|i: int| 0 <= i < chain.len() ==> hex_text((#[trigger] chain[i]).header.id) != id)
            ==> requested(chain, k, id) == Err::<Seq<PopowView>, Seq<char>>("headerId not found"@),
        (exists|i: int| 0 <= i < chain.len() && hex_text((#[trigger] chain[i]).header.id) == id)
            ==> exists|place: int| #[trigger] first_named(chain, id, place),
{
    assert forall|place: int| #[trigger] first_named(chain, id, place) implies place_of(chain, id)
        == place by {
        lemma_place(chain, id, place);
    }
    lemma_place_found(chain, id);
    let place = place_of(chain, id) as int;
    if place < chain.len() {
        assert(first_named(chain, id, place));
    }
}

/// The place of an id is that of the first header with it, or behind the chain.
proof fn lemma_place_found(chain: Seq<PopowView>, id: Seq<char>)
    ensures
        place_of(chain, id) <= chain.len(),
        forall|j: int|
            0 <= j < place_of(chain, id) ==> hex_text((#[trigger] chain[j]).header.id) != id,
        place_of(chain, id) < chain.len() ==> hex_text(
            chain[place_of(chain, id) as int].header.id,
        ) == id,
    decreases chain.len(),
{
    if chain.len() > 0 && hex_text(chain[0].header.id) != id {
        let rest = chain.skip(1);
        lemma_place_found(rest, id);
        assert forall|j: int| 0 <= j < place_of(chain, id) implies hex_text(
            (#[trigger] chain[j]).header.id,
        ) != id by {
            if j > 0 {
                assert(rest[j - 1] == chain[j]);
            }
        }
    }
}

/// Whether bytes are a proof of a chain for the parameters `m` and `k` that
/// holds some headers, the first among them, and ends in the last `k`.
pub open spec fn proof_of(
    bytes: Seq<u8>,
    part: Seq<PopowView>,
    m: u32,
    k: u32,
    picks: Seq<PopowView>,
) -> bool {
    &&& bytes == proof_wire(m, k, picks, part.skip(part.len() - k))
    &&& picks.len() > 0 && picks[0] == part[0]
    &&& forall|j: int|
        0 <= j < picks.len() ==> part.take(part.len() - k).contains(#[trigger] picks[j])
    &&& proves(part, k, m, bytes)
}

/// Whether an answer hands out a proof of a chain, in hexadecimal.
pub open spec fn hands_proof(answer: JsonView, part: Seq<PopowView>, m: u32, k: u32) -> bool {
    &&& answer.get("error"@) == Some(JsonView::Null)
    &&& exists|bytes: Seq<u8>, picks: Seq<PopowView>| #[trigger]
        proof_of(bytes, part, m, k, picks) && answer.get("proofHex"@) == Some(
            JsonView::Text(hex_text(bytes)),
        )
}

/// Whether an outcome is that of a request for the proof of a part of a chain.
pub open spec fn part_outcome(
    part: Seq<PopowView>,
    levels: Seq<Result<i32, Seq<char>>>,
    m: u32,
    k: u32,
    answer: Result<JsonView, ChainFaultView>,
) -> bool {
    let tail = part.len() - k;
    if k == 0 {
        answer == Err::<JsonView, ChainFaultView>(
            ChainFaultView::Note("prove failed: ZeroKParameter"@),
        )
    } else if k + m > 0xffff_ffff {
        answer == Err::<JsonView, ChainFaultView>(
            ChainFaultView::Note("attempt to add with overflow"@),
        )
    } else if part.len() < k + m {
        answer == Err::<JsonView, ChainFaultView>(
            ChainFaultView::Note("prove failed: ChainTooShort"@),
        )
    } else if part[0].header.height != 1 {
        answer == Err::<JsonView, ChainFaultView>(
            ChainFaultView::Note("prove failed: NonAnchoredChain"@),
        )
    } else if part.len() == k {
        answer == Err::<JsonView, ChainFaultView>(
            ChainFaultView::Note("prove failed: ChainTooShort"@),
        )
    } else if m == 0 {
        let n = decimal(reaching(part.take(tail), levels, part[tail - 1].interlinks.len() - 1));
        answer == Err::<JsonView, ChainFaultView>(
            ChainFaultView::Note(
                "index out of bounds: the len is "@ + n + " but the index is "@ + n,
            ),
        )
    } else {
        answer matches Ok(answer) && hands_proof(answer, part, m, k)
    }
}

/// Whether an outcome is that of a request for the proof of a chain, all of it
/// or up to `k` headers behind the one named.
pub open spec fn prove_outcome(
    chain: Seq<PopowView>,
    levels: Seq<Result<i32, Seq<char>>>,
    m: u32,
    k: u32,
    id: Option<Seq<char>>,
    answer: Result<JsonView, ChainFaultView>,
) -> bool {
    match id {
        None => part_outcome(chain, levels, m, k, answer),
        Some(id) => {
            &&& (forall|i: int|
                0 <= i < chain.len() ==> hex_text((#[trigger] chain[i]).header.id) != id)
                ==> answer == Err::<JsonView, ChainFaultView>(
                ChainFaultView::Note("headerId not found"@),
            )
            &&& forall|place: int| #[trigger]
                first_named(chain, id, place) ==> if place + k + 1 <= chain.len() {
                    part_outcome(chain.take(place + k + 1), levels, m, k, answer)
                } else {
                    answer == Err::<JsonView, ChainFaultView>(
                        ChainFaultView::Note(
                            "range end index "@ + decimal((place + k + 1) as nat)
                                + " out of range for slice of length "@ + decimal(chain.len()),
                        ),
                    )
                }
        },
    }
}

/// A proof that comes out is handed out in hexadecimal; it holds the first
/// header and ends in the last `k`.
proof fn lemma_hands_proof(part: Seq<PopowView>, m: u32, k: u32, bytes: Seq<u8>)
    requires
        proves(part, k, m, bytes),
        k < part.len(),
    ensures
        proof_answer(Ok(bytes)) is Ok,
        hands_proof(proof_answer(Ok(bytes))->Ok_0, part, m, k),
{
    reveal_strlit("error");
    reveal_strlit("proofHex");
    assert("error"@.len() == 5 && "proofHex"@.len() == 8);
    let answer = proof_answer(Ok(bytes))->Ok_0;
    lemma_lookup_at(answer->Object_0, "proofHex"@, 0);
    lemma_lookup_at(answer->Object_0, "error"@, 1);
    let prefix = proof_prefix(part, k as int);
    let (passes, places) = choose|passes: Seq<Seq<i32>>, places: Seq<int>|
        bytes == proof_wire(m, k, at_places(prefix, places), part.skip(part.len() - k))
            && passes_fit(prefix, passes) && #[trigger] picked(prefix, m, passes, places);
    reveal(picked);
    let picks = at_places(prefix, places);
    assert(picks[0] == part[0]);
    assert forall|j: int| 0 <= j < picks.len() implies part.take(part.len() - k).contains(
        #[trigger] picks[j],
    ) by {
        assert(holds_found(prefix, m, passes, places, j));
        assert(prefix[places[j]] == picks[j]);
    }
    assert(proof_of(bytes, part, m, k, picks));
}

/// A request for a proof comes to the outcome that the part of the chain it is
/// about, `m` and `k` call for, where the chain is worked out from levels that
/// its headers may have.
pub proof fn law_prove_outcome(
    items: Seq<JsonView>,
    m: u32,
    k: u32,
    id: Option<Seq<char>>,
    answer: Result<JsonView, ChainFaultView>,
)
    requires
        prove_meets(items, m, k, id, answer),
    ensures
        exists|levels: Seq<Result<i32, Seq<char>>>|
            chain_levels(items, levels) && match #[trigger] popow_chain(items, levels) {
                Ok(chain) => worked_out(items, levels, chain) && levels_possible(chain, levels)
                    && prove_outcome(chain, levels, m, k, id, answer),
                Err(fault) => answer == Err::<JsonView, ChainFaultView>(fault),
            },
{
    let (levels, outcome) = choose|
        levels: Seq<Result<i32, Seq<char>>>,
        outcome: Result<Seq<u8>, ProveFaultView>,
    |
        answer == #[trigger] prove_answer(items, m, k, id, levels, outcome) && prove_fits(
            items,
            m,
            k,
            id,
            levels,
            outcome,
        );
    if let Ok(chain) = popow_chain(items, levels) {
        law_worked_out(items, levels, chain);
        law_levels(items, levels, chain);
        match id {
            None => {
                lemma_part_outcome(chain, levels, m, k, outcome);
            },
            Some(id) => {
                law_requested_part(chain, k, id);
                assert forall|place: int| #[trigger] first_named(chain, id, place) && place + k + 1
                    <= chain.len() implies part_outcome(
                    chain.take(place + k + 1),
                    levels,
                    m,
                    k,
                    answer,
                ) by {
                    lemma_part_outcome(chain.take(place + k + 1), levels, m, k, outcome);
                }
            },
        }
    }
    assert(chain_levels(items, levels) && match popow_chain(items, levels) {
        Ok(chain) => worked_out(items, levels, chain) && levels_possible(chain, levels)
            && prove_outcome(chain, levels, m, k, id, answer),
        Err(fault) => answer == Err::<JsonView, ChainFaultView>(fault),
    });
}

/// What a request for the proof of a part comes to.
proof fn lemma_part_outcome(
    part: Seq<PopowView>,
    levels: Seq<Result<i32, Seq<char>>>,
    m: u32,
    k: u32,
    outcome: Result<Seq<u8>, ProveFaultView>,
)
    requires
        part.len() > 0,
        part_fits(part, m, k, levels, outcome),
    ensures
        part_outcome(
            part,
            levels,
            m,
            k,
            noted(part_answer(part, m, k, levels, outcome)),
        ),
{
    reveal_strlit("prove failed: ");
    reveal_strlit("ZeroKParameter");
    reveal_strlit("ChainTooShort");
    reveal_strlit("NonAnchoredChain");
    reveal_strlit("prove failed: ZeroKParameter");
    reveal_strlit("prove failed: ChainTooShort");
    reveal_strlit("prove failed: NonAnchoredChain");
    assert("prove failed: "@ + "ZeroKParameter"@ =~= "prove failed: ZeroKParameter"@);
    assert("prove failed: "@ + "ChainTooShort"@ =~= "prove failed: ChainTooShort"@);
    assert("prove failed: "@ + "NonAnchoredChain"@ =~= "prove failed: NonAnchoredChain"@);
    if prove_note(part, levels, k, m) is None && refusal(part, k, m) is None {
        lemma_hands_proof(part, m, k, outcome->Ok_0);
    }
}

/// One more header counts among those that reach a level where it is the first
/// block, or stands higher and has a level of at least that.
pub proof fn law_reaching(
    chain: Seq<PopowView>,
    levels: Seq<Result<i32, Seq<char>>>,
    level: int,
    next: PopowView,
)
    requires
        levels.len() > chain.len(),
    ensures
        reaching(Seq::empty(), levels, level) == 0,
        reaching(chain.push(next), levels, level) == reaching(chain, levels, level) + (
        if next.header.height == 1 || (next.header.height > 1 && levels[chain.len() as int] is Ok
            && levels[chain.len() as int]->Ok_0 >= level) {
            1int
        } else {
            0int
        }),
{
    assert(chain.push(next).drop_last() =~= chain);
}

} // verus!
