//! The JSON form of block headers: normalizing and reading it.

use crate::json::{
    array, fields_view, find, is_number_like, items_view, json_text, lemma_lookup_at, lookup,
    no_fields, number_like, object, put, Json, JsonView,
};
use crate::text::{integer_of, read_integer, same_text};
use vstd::prelude::*;

verus! {

/// The members of a proof-of-work solution without those that give the
/// distance as null.
pub open spec fn without_null_distance(members: Seq<(Seq<char>, JsonView)>) -> Seq<
    (Seq<char>, JsonView),
>
    decreases members.len(),
{
    if members.len() == 0 {
        Seq::empty()
    } else {
        let before = without_null_distance(members.drop_last());
        if members.last() == ("d"@, JsonView::Null) {
            before
        } else {
            before.push(members.last())
        }
    }
}

/// A member of a header: the proof-of-work solution loses a distance of null,
/// the others stay as they are.
pub open spec fn normalized_member(member: (Seq<char>, JsonView)) -> (Seq<char>, JsonView) {
    if member.0 == "powSolutions"@ {
        match member.1 {
            JsonView::Object(solution) => (
                member.0,
                JsonView::Object(without_null_distance(solution)),
            ),
            _ => member,
        }
    } else {
        member
    }
}

/// A header whose proof-of-work solution does not give its distance as null:
/// such a distance is left out instead.
pub open spec fn normalized(header: JsonView) -> JsonView {
    match header {
        JsonView::Object(members) => JsonView::Object(
            members.map_values(|m: (Seq<char>, JsonView)| normalized_member(m)),
        ),
        _ => header,
    }
}

/// A list of headers, each without a distance of null.
pub open spec fn normalized_all(headers: JsonView) -> JsonView {
    match headers {
        JsonView::Array(items) => JsonView::Array(items.map_values(|h: JsonView| normalized(h))),
        _ => headers,
    }
}

/// The proof-of-work solution without a distance of null.
fn strip_distance(solution: &Vec<(String, Json)>) -> (r: Vec<(String, Json)>)
    ensures
        fields_view(r@) == without_null_distance(fields_view(solution@)),
{
    let ghost view = fields_view(solution@);
    let mut out: Vec<(String, Json)> = no_fields();
    let mut i: usize = 0;
    assert(view.take(0) =~= Seq::empty());
    while i < solution.len()
        invariant
            i <= solution@.len(),
            view == fields_view(solution@),
            fields_view(out@) == without_null_distance(view.take(i as int)),
        decreases solution@.len() - i,
    {
        assert(view.take(i + 1).drop_last() =~= view.take(i as int));
        assert(view.take(i + 1).last() == view[i as int]);
        let is_null: bool = match solution[i].1 {
            Json::Null => true,
            _ => false,
        };
        if !(is_null && same_text(solution[i].0.as_str(), "d")) {
            put(&mut out, solution[i].0.as_str(), solution[i].1.duplicate());
        }
        i = i + 1;
    }
    assert(view.take(i as int) =~= view);
    out
}

/// The header without a distance of null.
fn normalized_copy(header: &Json) -> (r: Json)
    ensures
        r@ == normalized(header@),
{
    broadcast use crate::json::lemma_parts_view;

    match header {
        Json::Object(members) => {
            let ghost view = fields_view(members@);
            let ghost f = |m: (Seq<char>, JsonView)| normalized_member(m);
            let mut out: Vec<(String, Json)> = no_fields();
            let mut i: usize = 0;
            while i < members.len()
                invariant
                    i <= members@.len(),
                    view == fields_view(members@),
                    f == (|m: (Seq<char>, JsonView)| normalized_member(m)),
                    fields_view(out@) =~= view.map_values(f).take(i as int),
                decreases members@.len() - i,
            {
                broadcast use crate::json::lemma_parts_view;

                let name: &str = members[i].0.as_str();
                let value: &Json = &members[i].1;
                assert(view[i as int] == (name@, value@));
                if same_text(name, "powSolutions") {
                    match value {
                        Json::Object(solution) => {
                            put(&mut out, name, object(strip_distance(solution)));
                        },
                        _ => {
                            put(&mut out, name, value.duplicate());
                        },
                    }
                } else {
                    put(&mut out, name, value.duplicate());
                }
                i = i + 1;
            }
            assert(view.map_values(f).take(i as int) =~= view.map_values(f));
            object(out)
        },
        _ => header.duplicate(),
    }
}

/// Leaves a distance of null out of a header's proof-of-work solution.
///
/// Headers of later versions have no distance; some writers give it as null,
/// and readers take only a number or nothing.
pub fn normalize_header_json(header: &mut Json)
    ensures
        final(header)@ == normalized(old(header)@),
{
    let copy: Json = normalized_copy(header);
    *header = copy;
}

/// Leaves a distance of null out of each header of a list.
pub fn normalize_headers(headers: &Json) -> (r: Json)
    ensures
        r@ == normalized_all(headers@),
{
    broadcast use crate::json::lemma_parts_view;

    match headers {
        Json::Array(items) => {
            let ghost view = items_view(items@);
            let ghost f = |h: JsonView| normalized(h);
            let mut out: Vec<Json> = Vec::new();
            let mut i: usize = 0;
            while i < items.len()
                invariant
                    i <= items@.len(),
                    view == items_view(items@),
                    f == (|h: JsonView| normalized(h)),
                    items_view(out@) =~= view.map_values(f).take(i as int),
                decreases items@.len() - i,
            {
                let header: Json = normalized_copy(&items[i]);
                let ghost before = out@;
                out.push(header);
                assert(items_view(out@) =~= items_view(before).push(header@));
                i = i + 1;
            }
            assert(view.map_values(f).take(i as int) =~= view.map_values(f));
            array(out)
        },
        _ => headers.duplicate(),
    }
}

// ----------------------------------------------------------------- decoding

/// What is read of a header in its JSON form.
#[derive(Debug, Clone, Copy, PartialEq, Eq)]
pub struct HeaderFields {
    pub id: [u8; 32],
    pub version: u8,
    pub height: u32,
    pub transaction_root: [u8; 32],
}

/// Why a header in its JSON form was not read.
#[derive(Debug, PartialEq, Eq)]
pub enum ReadFault {
    /// It is no header; the text of the error.
    Undecodable(String),
    /// Reading it broke off, with a note.
    Broken(String),
}

/// Why a header in its JSON form was not read.
pub ghost enum ReadFaultView {
    Undecodable(Seq<char>),
    Broken(Seq<char>),
}

impl View for ReadFault {
    type V = ReadFaultView;

    open spec fn view(&self) -> ReadFaultView {
        match self {
            ReadFault::Undecodable(e) => ReadFaultView::Undecodable(e@),
            ReadFault::Broken(note) => ReadFaultView::Broken(note@),
        }
    }
}

/// Whether a numeral stands for an integer that takes more than 64 bits and at
/// most 128: among votes such a one is no number.
pub open spec fn long_integer(s: Seq<char>) -> bool {
    integer_of(s) matches Some(v) && (u64::MAX < v <= u128::MAX || i128::MIN <= v < i64::MIN)
}

/// Whether a document is read as a number where votes are listed; an object is
/// one where its first member has the name under which `serde_json` passes
/// numbers on.
pub open spec fn reads_as_number(doc: JsonView) -> bool {
    match doc {
        JsonView::Unsigned(_) => true,
        JsonView::Negative(_) => true,
        JsonView::Decimal(s) => number_like(s) && !long_integer(s),
        JsonView::Object(fields) => fields.len() > 0 && fields[0].0
            == "$serde_json::private::Number"@,
        _ => false,
    }
}

/// Whether a document is a natural number below 2^64. A zero may have a sign.
pub open spec fn plain_vote(doc: JsonView) -> bool {
    match doc {
        JsonView::Unsigned(_) => true,
        JsonView::Negative(n) => n >= 0,
        JsonView::Decimal(s) => integer_of(s) matches Some(v) && 0 <= v <= u64::MAX,
        _ => false,
    }
}

/// Whether votes break reading off: they are a list of numbers, one of which
/// is negative or no integer.
pub open spec fn breaks_off(votes: JsonView) -> bool {
    match votes {
        JsonView::Array(items) => {
            &&& forall|i: int| 0 <= i < items.len() ==> reads_as_number(#[trigger] items[i])
            &&& exists|i: int| 0 <= i < items.len() && !plain_vote(#[trigger] items[i])
        },
        _ => false,
    }
}

/// The place of the votes in a header that is written as a list.
pub const VOTES_PLACE: usize = 11;

/// Whether reading a header does not break off on its votes.
pub open spec fn header_readable(header: JsonView) -> bool {
    match header {
        JsonView::Object(fields) => forall|i: int|
            0 <= i < fields.len() && (#[trigger] fields[i]).0 == "votes"@ ==> !breaks_off(
                fields[i].1,
            ),
        JsonView::Array(items) => items.len() > VOTES_PLACE ==> !breaks_off(
            items[VOTES_PLACE as int],
        ),
        _ => true,
    }
}

/// Whether reading a list of headers does not break off on their votes.
pub open spec fn headers_readable(headers: JsonView) -> bool {
    match headers {
        JsonView::Array(items) => forall|i: int|
            0 <= i < items.len() ==> header_readable(#[trigger] items[i]),
        _ => true,
    }
}

/// The place of the first member that reading a header breaks off on; the
/// number of members where there is none.
pub open spec fn first_break(fields: Seq<(Seq<char>, JsonView)>) -> nat
    decreases fields.len(),
{
    if fields.len() == 0 || (fields[0].0 == "votes"@ && breaks_off(fields[0].1)) {
        0
    } else {
        1 + first_break(fields.skip(1))
    }
}

/// The place of the first header that reading a list breaks off on; the number
/// of headers where there is none.
pub open spec fn first_unreadable(headers: Seq<JsonView>) -> nat
    decreases headers.len(),
{
    if headers.len() == 0 || !header_readable(headers[0]) {
        0
    } else {
        1 + first_unreadable(headers.skip(1))
    }
}

/// Thirty-two bytes of zero.
pub open spec fn zeros32() -> JsonView {
    JsonView::Text("0000000000000000000000000000000000000000000000000000000000000000"@)
}

/// Thirty-three bytes of zero.
pub open spec fn zeros33() -> JsonView {
    JsonView::Text("000000000000000000000000000000000000000000000000000000000000000000"@)
}

/// The members of a solution that can be read.
pub open spec fn blank_solution() -> Seq<(Seq<char>, JsonView)> {
    seq![("pk"@, zeros33()), ("n"@, JsonView::Text("0000000000000000"@))]
}

/// The members of a header that can be read.
pub open spec fn blank_header() -> Seq<(Seq<char>, JsonView)> {
    seq![
        ("version"@, JsonView::Unsigned(2)),
        ("id"@, zeros32()),
        ("parentId"@, zeros32()),
        ("adProofsRoot"@, zeros32()),
        ("stateRoot"@, zeros33()),
        ("transactionsRoot"@, zeros32()),
        ("timestamp"@, JsonView::Unsigned(0)),
        ("nBits"@, JsonView::Unsigned(0)),
        ("height"@, JsonView::Unsigned(1)),
        ("extensionHash"@, zeros32()),
        ("powSolutions"@, JsonView::Object(blank_solution())),
        ("votes"@, JsonView::Text("000000"@)),
    ]
}

/// Members, and behind them those of others whose names they lack.
pub open spec fn filled_up(
    fields: Seq<(Seq<char>, JsonView)>,
    others: Seq<(Seq<char>, JsonView)>,
) -> Seq<(Seq<char>, JsonView)>
    decreases others.len(),
{
    if others.len() == 0 {
        fields
    } else {
        let before = filled_up(fields, others.drop_last());
        if lookup(before, others.last().0) is None {
            before.push(others.last())
        } else {
            before
        }
    }
}

/// What is read of a header before the votes that reading breaks off on,
/// filled up to a whole header: it can be read just where reading gets as far
/// as those votes, and fails in the same way where it does not.
pub open spec fn before_votes(header: JsonView) -> JsonView {
    match header {
        JsonView::Object(fields) => JsonView::Object(
            filled_up(fields.take(first_break(fields) as int), blank_header()),
        ),
        JsonView::Array(items) => JsonView::Array(
            items.take(VOTES_PLACE as int).push(JsonView::Text("000000"@)),
        ),
        _ => header,
    }
}

/// What is read of a list of headers before the votes that reading breaks off
/// on, with the header that holds them filled up.
pub open spec fn before_break(headers: Seq<JsonView>) -> Seq<JsonView> {
    let n = first_unreadable(headers) as int;
    headers.take(n).push(before_votes(headers[n]))
}

/// What a JSON text reads as where a header is expected: its fields, or the
/// text of the error.
pub uninterp spec fn header_in(text: Seq<char>) -> Result<HeaderFields, Seq<char>>;

/// Calls `serde_json::from_value` for an `ergo_chain_types::Header`, on the
/// value that the JSON text stands for.
///
/// Claimed: the fields, or the text of the error, depend on the JSON text
/// alone.
#[verifier::external_body]
fn decode_header_text(text: &str) -> (r: Result<HeaderFields, String>)
    requires
        exists|doc: JsonView| text@ == #[trigger] json_text(doc) && header_readable(doc),
    ensures
        (match r {
            Ok(fields) => Ok(fields),
            Err(e) => Err(e@),
        }) == header_in(text@),
{
    let value: serde_json::Value = match serde_json::from_str(text) {
        Ok(value) => value,
        Err(e) => return Err(e.to_string()),
    };
    match serde_json::from_value::<ergo_chain_types::Header>(value) {
        Ok(h) => Ok(HeaderFields {
            id: h.id.0.0, version: h.version, height: h.height, transaction_root: h.transaction_root.0,
        }),
        Err(e) => Err(e.to_string()),
    }
}

/// What a JSON text reads as where a list of headers is expected: the fields
/// of each, or the text of the error.
pub uninterp spec fn headers_in(text: Seq<char>) -> Result<Seq<HeaderFields>, Seq<char>>;

/// Calls `serde_json::from_value` for a list of `ergo_chain_types::Header`, on
/// the value that the JSON text stands for.
///
/// Claimed: the fields of the headers, or the text of the error, depend on the
/// JSON text alone.
#[verifier::external_body]
fn decode_headers_text(text: &str) -> (r: Result<Vec<HeaderFields>, String>)
    requires
        exists|doc: JsonView| text@ == #[trigger] json_text(doc) && headers_readable(doc),
    ensures
        (match r {
            Ok(list) => Ok(list@),
            Err(e) => Err(e@),
        }) == headers_in(text@),
{
    let value: serde_json::Value = match serde_json::from_str(text) {
        Ok(value) => value,
        Err(e) => return Err(e.to_string()),
    };
    match serde_json::from_value::<Vec<ergo_chain_types::Header>>(value) {
        Ok(headers) => Ok(headers.iter().map(|h| HeaderFields {
            id: h.id.0.0, version: h.version, height: h.height, transaction_root: h.transaction_root.0,
        }).collect()),
        Err(e) => Err(e.to_string()),
    }
}

/// The note where reading broke off.
pub open spec fn break_note() -> Seq<char> {
    "called `Option::unwrap()` on a `None` value"@
}

/// What a header in its JSON form reads as. Reading breaks off on votes only
/// where all that is read before them can be read.
pub open spec fn header_read(header: JsonView) -> Result<HeaderFields, ReadFaultView> {
    if header_readable(header) {
        match header_in(json_text(header)) {
            Ok(fields) => Ok(fields),
            Err(e) => Err(ReadFaultView::Undecodable(e)),
        }
    } else {
        match header_in(json_text(before_votes(header))) {
            Ok(_) => Err(ReadFaultView::Broken(break_note())),
            Err(e) => Err(ReadFaultView::Undecodable(e)),
        }
    }
}

/// What a list of headers in its JSON form reads as. Reading breaks off on the
/// votes of a header only where all that is read before them can be read.
pub open spec fn headers_read(headers: JsonView) -> Result<Seq<HeaderFields>, ReadFaultView> {
    if headers_readable(headers) {
        match headers_in(json_text(headers)) {
            Ok(list) => Ok(list),
            Err(e) => Err(ReadFaultView::Undecodable(e)),
        }
    } else {
        match headers_in(json_text(JsonView::Array(before_break(headers->Array_0)))) {
            Ok(_) => Err(ReadFaultView::Broken(break_note())),
            Err(e) => Err(ReadFaultView::Undecodable(e)),
        }
    }
}

/// What reading a header gives.
pub open spec fn fields_result(r: Result<HeaderFields, ReadFault>) -> Result<
    HeaderFields,
    ReadFaultView,
> {
    match r {
        Ok(fields) => Ok(fields),
        Err(e) => Err(e@),
    }
}

/// What reading a list of headers gives.
pub open spec fn list_result(r: Result<Vec<HeaderFields>, ReadFault>) -> Result<
    Seq<HeaderFields>,
    ReadFaultView,
> {
    match r {
        Ok(list) => Ok(list@),
        Err(e) => Err(e@),
    }
}

/// How a numeral is read among votes: whether as a number, and whether as a
/// natural number below 2^64.
fn vote_numeral(s: &str) -> (r: (bool, bool))
    ensures
        r.0 == reads_as_number(JsonView::Decimal(s@)),
        r.1 == plain_vote(JsonView::Decimal(s@)),
{
    let (long, plain): (bool, bool) = match read_integer(s) {
        Some((negative, Some(size))) => if negative {
            (
                0x8000_0000_0000_0000 < size && size <= 0x8000_0000_0000_0000_0000_0000_0000_0000,
                size == 0,
            )
        } else {
            (size > 0xffff_ffff_ffff_ffff, size <= 0xffff_ffff_ffff_ffff)
        },
        _ => (false, false),
    };
    (is_number_like(s) && !long, plain)
}

/// How a document is read among votes: whether as a number, and whether as a
/// natural number below 2^64.
fn vote_kind(doc: &Json) -> (r: (bool, bool))
    ensures
        r.0 == reads_as_number(doc@),
        r.1 == plain_vote(doc@),
{
    broadcast use crate::json::lemma_parts_view;

    match doc {
        Json::Unsigned(_) => (true, true),
        Json::Negative(n) => (true, *n >= 0),
        Json::Decimal(s) => vote_numeral(s.as_str()),
        Json::Object(fields) => (
            fields.len() > 0 && same_text(fields[0].0.as_str(), "$serde_json::private::Number"),
            false,
        ),
        _ => (false, false),
    }
}

/// Whether votes break reading off.
fn votes_break_off(votes: &Json) -> (r: bool)
    ensures
        r == breaks_off(votes@),
{
    broadcast use crate::json::lemma_parts_view;

    match votes {
        Json::Array(items) => {
            let ghost view = items_view(items@);
            let mut odd: bool = false;
            let mut i: usize = 0;
            while i < items.len()
                invariant
                    i <= items@.len(),
                    view == items_view(items@),
                    votes@ == JsonView::Array(view),
                    forall|j: int| 0 <= j < i ==> reads_as_number(#[trigger] view[j]),
                    odd == exists|j: int| 0 <= j < i && !plain_vote(#[trigger] view[j]),
                decreases items@.len() - i,
            {
                let (number, plain): (bool, bool) = vote_kind(&items[i]);
                assert(view[i as int] == items@[i as int]@);
                if !number {
                    assert(!reads_as_number(view[i as int]));
                    return false;
                }
                let ghost was_odd = odd;
                if !plain {
                    odd = true;
                }
                proof {
                    if was_odd {
                        let j = choose|j: int| 0 <= j < i && !plain_vote(#[trigger] view[j]);
                        assert(!plain_vote(view[j]));
                    }
                }
                i = i + 1;
            }
            odd
        },
        _ => false,
    }
}

/// Whether reading a header does not break off on its votes.
fn is_readable(header: &Json) -> (r: bool)
    ensures
        r == header_readable(header@),
{
    broadcast use crate::json::lemma_parts_view;

    match header {
        Json::Object(fields) => {
            let ghost view = fields_view(fields@);
            let mut i: usize = 0;
            while i < fields.len()
                invariant
                    i <= fields@.len(),
                    view == fields_view(fields@),
                    header@ == JsonView::Object(view),
                    forall|j: int|
                        0 <= j < i && (#[trigger] view[j]).0 == "votes"@ ==> !breaks_off(view[j].1),
                decreases fields@.len() - i,
            {
                if same_text(fields[i].0.as_str(), "votes") && votes_break_off(&fields[i].1) {
                    assert(i < view.len());
                    assert(view[i as int].0 == "votes"@ && breaks_off(view[i as int].1));
                    proof {
                        if header_readable(header@) {
                            assert(header@->Object_0[i as int].0 == "votes"@);
                        }
                    }
                    return false;
                }
                i = i + 1;
            }
            true
        },
        Json::Array(items) => if items.len() > VOTES_PLACE {
            assert(items_view(items@)[VOTES_PLACE as int] == items@[VOTES_PLACE as int]@);
            !votes_break_off(&items[VOTES_PLACE])
        } else {
            true
        },
        _ => true,
    }
}

/// Whether reading a list of headers does not break off on their votes.
fn all_readable(headers: &Json) -> (r: bool)
    ensures
        r == headers_readable(headers@),
{
    broadcast use crate::json::lemma_parts_view;

    match headers {
        Json::Array(items) => {
            let ghost view = items_view(items@);
            let mut i: usize = 0;
            while i < items.len()
                invariant
                    i <= items@.len(),
                    view == items_view(items@),
                    headers@ == JsonView::Array(view),
                    forall|j: int| 0 <= j < i ==> header_readable(#[trigger] view[j]),
                decreases items@.len() - i,
            {
                if !is_readable(&items[i]) {
                    assert(i < view.len());
                    assert(!header_readable(view[i as int]));
                    proof {
                        if headers_readable(headers@) {
                            assert(header_readable(headers@->Array_0[i as int]));
                        }
                    }
                    return false;
                }
                i = i + 1;
            }
            true
        },
        _ => true,
    }
}

/// Up to the first break no member breaks reading off, and it does.
proof fn lemma_first_break(fields: Seq<(Seq<char>, JsonView)>, n: int)
    requires
        0 <= n < fields.len(),
        fields[n].0 == "votes"@ && breaks_off(fields[n].1),
        forall|j: int|
            0 <= j < n && (#[trigger] fields[j]).0 == "votes"@ ==> !breaks_off(fields[j].1),
    ensures
        first_break(fields) == n,
    decreases n,
{
    if n > 0 {
        assert(!(fields[0].0 == "votes"@ && breaks_off(fields[0].1)));
        let rest = fields.skip(1);
        assert forall|j: int| 0 <= j < n - 1 && (#[trigger] rest[j]).0
            == "votes"@ implies !breaks_off(rest[j].1) by {
            assert(rest[j] == fields[j + 1]);
        }
        lemma_first_break(rest, n - 1);
    }
}

/// Where a header is not readable, some member breaks reading off first.
proof fn lemma_break_place(fields: Seq<(Seq<char>, JsonView)>)
    requires
        !header_readable(JsonView::Object(fields)),
    ensures
        first_break(fields) < fields.len(),
        forall|j: int|
            0 <= j < first_break(fields) && (#[trigger] fields[j]).0 == "votes"@ ==> !breaks_off(
                fields[j].1,
            ),
    decreases fields.len(),
{
    let i = choose|i: int|
        0 <= i < fields.len() && (#[trigger] fields[i]).0 == "votes"@ && breaks_off(fields[i].1);
    assert(0 <= i < fields.len());
    if !(fields[0].0 == "votes"@ && breaks_off(fields[0].1)) {
        let rest = fields.skip(1);
        assert(rest[i - 1] == fields[i]);
        assert(!header_readable(JsonView::Object(rest))) by {
            assert(rest[i - 1].0 == "votes"@ && breaks_off(rest[i - 1].1));
            if header_readable(JsonView::Object(rest)) {
                assert(JsonView::Object(rest)->Object_0[i - 1].0 == "votes"@);
            }
        }
        lemma_break_place(rest);
        assert forall|j: int| 0 <= j < first_break(fields) && (#[trigger] fields[j]).0
            == "votes"@ implies !breaks_off(fields[j].1) by {
            if j > 0 {
                assert(rest[j - 1] == fields[j]);
            }
        }
    }
}

/// Members that do not break reading off stay so with others that do not.
proof fn lemma_filled_up(
    fields: Seq<(Seq<char>, JsonView)>,
    others: Seq<(Seq<char>, JsonView)>,
)
    requires
        forall|j: int|
            0 <= j < fields.len() && (#[trigger] fields[j]).0 == "votes"@ ==> !breaks_off(
                fields[j].1,
            ),
        forall|j: int| 0 <= j < others.len() ==> !breaks_off((#[trigger] others[j]).1),
    ensures
        forall|j: int|
            0 <= j < filled_up(fields, others).len() && (#[trigger] filled_up(fields, others)[j]).0
                == "votes"@ ==> !breaks_off(filled_up(fields, others)[j].1),
    decreases others.len(),
{
    if others.len() > 0 {
        lemma_filled_up(fields, others.drop_last());
        let before = filled_up(fields, others.drop_last());
        let now = filled_up(fields, others);
        assert forall|j: int| 0 <= j < now.len() && (#[trigger] now[j]).0
            == "votes"@ implies !breaks_off(now[j].1) by {
            if j < before.len() {
                assert(now[j] == before[j]);
            } else {
                assert(now[j] == others[others.len() - 1]);
            }
        }
    }
}

/// What is read of a header before the votes that reading breaks off on does
/// not break it off.
proof fn lemma_before_votes(header: JsonView)
    requires
        !header_readable(header),
    ensures
        header_readable(before_votes(header)),
{
    match header {
        JsonView::Object(fields) => {
            lemma_break_place(fields);
            let kept = fields.take(first_break(fields) as int);
            assert forall|j: int| 0 <= j < kept.len() && (#[trigger] kept[j]).0
                == "votes"@ implies !breaks_off(kept[j].1) by {
                assert(kept[j] == fields[j]);
            }
            lemma_filled_up(kept, blank_header());
        },
        _ => {},
    }
}

/// The first header of a list that is not readable.
proof fn lemma_first_unreadable(headers: Seq<JsonView>)
    requires
        !headers_readable(JsonView::Array(headers)),
    ensures
        first_unreadable(headers) < headers.len(),
        !header_readable(headers[first_unreadable(headers) as int]),
        forall|j: int|
            0 <= j < first_unreadable(headers) ==> header_readable(#[trigger] headers[j]),
    decreases headers.len(),
{
    let i = choose|i: int| 0 <= i < headers.len() && !header_readable(#[trigger] headers[i]);
    assert(0 <= i < headers.len());
    if header_readable(headers[0]) {
        let rest = headers.skip(1);
        assert(rest[i - 1] == headers[i]);
        assert(!headers_readable(JsonView::Array(rest))) by {
            if headers_readable(JsonView::Array(rest)) {
                assert(header_readable(JsonView::Array(rest)->Array_0[i - 1]));
            }
        }
        lemma_first_unreadable(rest);
        assert(rest[first_unreadable(rest) as int] == headers[first_unreadable(headers) as int]);
        assert forall|j: int| 0 <= j < first_unreadable(headers) implies header_readable(
            #[trigger] headers[j],
        ) by {
            if j > 0 {
                assert(rest[j - 1] == headers[j]);
            }
        }
    }
}

/// What is read of a list of headers before the votes that reading breaks off
/// on does not break it off.
proof fn lemma_before_break(headers: Seq<JsonView>)
    requires
        !headers_readable(JsonView::Array(headers)),
    ensures
        headers_readable(JsonView::Array(before_break(headers))),
{
    lemma_first_unreadable(headers);
    lemma_before_votes(headers[first_unreadable(headers) as int]);
}

/// Thirty-two bytes of zero.
fn zero_id() -> (r: Json)
    ensures
        r@ == zeros32(),
{
    Json::text("0000000000000000000000000000000000000000000000000000000000000000")
}

/// Thirty-three bytes of zero.
fn zero_point() -> (r: Json)
    ensures
        r@ == zeros33(),
{
    Json::text("000000000000000000000000000000000000000000000000000000000000000000")
}

/// The members of a header that can be read.
fn blank() -> (r: Vec<(String, Json)>)
    ensures
        fields_view(r@) == blank_header(),
{
    let mut solution: Vec<(String, Json)> = no_fields();
    put(&mut solution, "pk", zero_point());
    put(&mut solution, "n", Json::text("0000000000000000"));
    assert(fields_view(solution@) =~= blank_solution());
    let mut r: Vec<(String, Json)> = no_fields();
    put(&mut r, "version", Json::Unsigned(2));
    put(&mut r, "id", zero_id());
    put(&mut r, "parentId", zero_id());
    put(&mut r, "adProofsRoot", zero_id());
    put(&mut r, "stateRoot", zero_point());
    put(&mut r, "transactionsRoot", zero_id());
    put(&mut r, "timestamp", Json::Unsigned(0));
    put(&mut r, "nBits", Json::Unsigned(0));
    put(&mut r, "height", Json::Unsigned(1));
    put(&mut r, "extensionHash", zero_id());
    put(&mut r, "powSolutions", object(solution));
    put(&mut r, "votes", Json::text("000000"));
    assert(fields_view(r@) =~= blank_header());
    r
}

/// The members of a header before the first that reading breaks off on.
fn members_before(fields: &Vec<(String, Json)>) -> (r: Vec<(String, Json)>)
    requires
        !header_readable(JsonView::Object(fields_view(fields@))),
    ensures
        fields_view(r@) == fields_view(fields@).take(first_break(fields_view(fields@)) as int),
{
    let ghost view = fields_view(fields@);
    let mut out: Vec<(String, Json)> = no_fields();
    let mut i: usize = 0;
    proof {
        lemma_break_place(view);
    }
    while i < fields.len()
        invariant
            i <= fields@.len(),
            view == fields_view(fields@),
            i <= first_break(view) < view.len(),
            fields_view(out@) =~= view.take(i as int),
            forall|j: int|
                0 <= j < i && (#[trigger] view[j]).0 == "votes"@ ==> !breaks_off(view[j].1),
        decreases fields@.len() - i,
    {
        assert(view[i as int] == (fields@[i as int].0@, fields@[i as int].1@));
        if same_text(fields[i].0.as_str(), "votes") && votes_break_off(&fields[i].1) {
            proof {
                lemma_first_break(view, i as int);
            }
            return out;
        }
        proof {
            if i == first_break(view) {
                lemma_break_at(view);
            }
        }
        put(&mut out, fields[i].0.as_str(), fields[i].1.duplicate());
        i = i + 1;
    }
    out
}

/// The first break is one.
proof fn lemma_break_at(fields: Seq<(Seq<char>, JsonView)>)
    requires
        first_break(fields) < fields.len(),
    ensures
        fields[first_break(fields) as int].0 == "votes"@,
        breaks_off(fields[first_break(fields) as int].1),
    decreases fields.len(),
{
    if !(fields[0].0 == "votes"@ && breaks_off(fields[0].1)) {
        lemma_break_at(fields.skip(1));
    }
}

/// What is read of a header before the votes that reading breaks off on,
/// filled up to a whole header.
fn cut_at_votes(header: &Json) -> (r: Json)
    requires
        !header_readable(header@),
    ensures
        r@ == before_votes(header@),
{
    broadcast use crate::json::lemma_parts_view;

    match header {
        Json::Object(fields) => {
            let mut out: Vec<(String, Json)> = members_before(fields);
            let others: Vec<(String, Json)> = blank();
            let ghost kept = fields_view(out@);
            let ghost fill = fields_view(others@);
            let mut j: usize = 0;
            assert(fill.take(0) =~= Seq::empty());
            while j < others.len()
                invariant
                    j <= others@.len(),
                    fill == fields_view(others@),
                    fields_view(out@) == filled_up(kept, fill.take(j as int)),
                decreases others@.len() - j,
            {
                assert(fill.take(j + 1).drop_last() =~= fill.take(j as int));
                assert(fill.take(j + 1).last() == fill[j as int]);
                if find(&out, others[j].0.as_str()).is_none() {
                    put(&mut out, others[j].0.as_str(), others[j].1.duplicate());
                }
                j = j + 1;
            }
            assert(fill.take(j as int) =~= fill);
            object(out)
        },
        Json::Array(items) => {
            let ghost view = items_view(items@);
            let mut out: Vec<Json> = Vec::new();
            let mut i: usize = 0;
            while i < VOTES_PLACE
                invariant
                    i <= VOTES_PLACE < items@.len(),
                    view == items_view(items@),
                    items_view(out@) =~= view.take(i as int),
                decreases VOTES_PLACE - i,
            {
                let item: Json = items[i].duplicate();
                let ghost before = out@;
                out.push(item);
                assert(items_view(out@) =~= items_view(before).push(item@));
                i = i + 1;
            }
            let votes: Json = Json::text("000000");
            let ghost before = out@;
            out.push(votes);
            assert(items_view(out@) =~= items_view(before).push(votes@));
            array(out)
        },
        _ => header.duplicate(),
    }
}

/// What is read of a list of headers before the votes that reading breaks off
/// on, with the header that holds them filled up.
fn cut_at_break(headers: &Vec<Json>) -> (r: Json)
    requires
        !headers_readable(JsonView::Array(items_view(headers@))),
    ensures
        r@ == JsonView::Array(before_break(items_view(headers@))),
{
    let ghost view = items_view(headers@);
    let mut out: Vec<Json> = Vec::new();
    let mut i: usize = 0;
    proof {
        lemma_first_unreadable(view);
    }
    while i < headers.len() && is_readable(&headers[i])
        invariant
            i <= first_unreadable(view) < view.len(),
            view == items_view(headers@),
            !header_readable(view[first_unreadable(view) as int]),
            items_view(out@) =~= view.take(i as int),
        decreases headers@.len() - i,
    {
        assert(view[i as int] == headers@[i as int]@);
        let header: Json = headers[i].duplicate();
        let ghost before = out@;
        out.push(header);
        assert(items_view(out@) =~= items_view(before).push(header@));
        i = i + 1;
    }
    assert(view[i as int] == headers@[i as int]@);
    let last: Json = cut_at_votes(&headers[i]);
    let ghost before = out@;
    out.push(last);
    assert(items_view(out@) =~= items_view(before).push(last@));
    array(out)
}

/// Says that reading broke off.
fn broken() -> (r: ReadFault)
    ensures
        r@ == ReadFaultView::Broken(break_note()),
{
    ReadFault::Broken("called `Option::unwrap()` on a `None` value".to_owned())
}

/// Reads a header in its JSON form.
pub fn decode_header(header: &Json) -> (r: Result<HeaderFields, ReadFault>)
    ensures
        fields_result(r) == header_read(header@),
{
    if is_readable(header) {
        return match decode_header_text(header.to_text().as_str()) {
            Ok(fields) => Ok(fields),
            Err(e) => Err(ReadFault::Undecodable(e)),
        };
    }
    proof {
        lemma_before_votes(header@);
    }
    match decode_header_text(cut_at_votes(header).to_text().as_str()) {
        Ok(_) => Err(broken()),
        Err(e) => Err(ReadFault::Undecodable(e)),
    }
}

/// Reads a list of headers in its JSON form.
pub fn decode_headers(headers: &Json) -> (r: Result<Vec<HeaderFields>, ReadFault>)
    ensures
        list_result(r) == headers_read(headers@),
{
    broadcast use crate::json::lemma_parts_view;

    if all_readable(headers) {
        return match decode_headers_text(headers.to_text().as_str()) {
            Ok(list) => Ok(list),
            Err(e) => Err(ReadFault::Undecodable(e)),
        };
    }
    match headers {
        Json::Array(items) => {
            proof {
                lemma_before_break(items_view(items@));
            }
            match decode_headers_text(cut_at_break(items).to_text().as_str()) {
                Ok(_) => Err(broken()),
                Err(e) => Err(ReadFault::Undecodable(e)),
            }
        },
        _ => Err(broken()),
    }
}

// --------------------------------------------------------------------- laws

/// A distance of null is gone, and so it stays.
proof fn lemma_stripped(members: Seq<(Seq<char>, JsonView)>)
    ensures
        forall|i: int|
            0 <= i < without_null_distance(members).len() ==> (#[trigger] without_null_distance(
                members,
            )[i]) != ("d"@, JsonView::Null),
        without_null_distance(without_null_distance(members)) == without_null_distance(members),
    decreases members.len(),
{
    if members.len() > 0 {
        let before = without_null_distance(members.drop_last());
        lemma_stripped(members.drop_last());
        if members.last() != ("d"@, JsonView::Null) {
            assert(before.push(members.last()).drop_last() =~= before);
        }
    }
}

/// Looking behind an appended member.
proof fn lemma_lookup_push(
    members: Seq<(Seq<char>, JsonView)>,
    member: (Seq<char>, JsonView),
    key: Seq<char>,
)
    ensures
        lookup(members.push(member), key) == (match lookup(members, key) {
            Some(v) => Some(v),
            None => if member.0 == key {
                Some(member.1)
            } else {
                None
            },
        }),
    decreases members.len(),
{
    reveal_with_fuel(lookup, 2);
    if members.len() > 0 {
        assert(members.push(member).skip(1) =~= members.skip(1).push(member));
        lemma_lookup_push(members.skip(1), member, key);
    }
}

/// What a search finds stands among the members.
proof fn lemma_lookup_found(members: Seq<(Seq<char>, JsonView)>, key: Seq<char>)
    ensures
        lookup(members, key) matches Some(v) ==> exists|i: int|
            0 <= i < members.len() && members[i] == (key, v),
    decreases members.len(),
{
    if members.len() > 0 {
        if members[0].0 == key {
            assert(members[0] == (key, members[0].1));
        } else {
            lemma_lookup_found(members.skip(1), key);
            if let Some(v) = lookup(members, key) {
                let i = choose|i: int|
                    0 <= i < members.skip(1).len() && members.skip(1)[i] == (key, v);
                assert(members[i + 1] == (key, v));
            }
        }
    }
}

/// The other members of a solution are found as before.
proof fn lemma_stripped_lookup(members: Seq<(Seq<char>, JsonView)>, key: Seq<char>)
    requires
        key != "d"@,
    ensures
        lookup(without_null_distance(members), key) == lookup(members, key),
    decreases members.len(),
{
    if members.len() > 0 {
        let past = members.drop_last();
        lemma_stripped_lookup(past, key);
        assert(past.push(members.last()) =~= members);
        lemma_lookup_push(past, members.last(), key);
        lemma_lookup_push(without_null_distance(past), members.last(), key);
    }
}

/// A header's members are found as before, each normalized.
proof fn lemma_normalized_lookup(members: Seq<(Seq<char>, JsonView)>, key: Seq<char>)
    ensures
        lookup(members.map_values(|m: (Seq<char>, JsonView)| normalized_member(m)), key) == (
        match lookup(members, key) {
            Some(v) => Some(normalized_member((key, v)).1),
            None => None,
        }),
    decreases members.len(),
{
    let f = |m: (Seq<char>, JsonView)| normalized_member(m);
    if members.len() > 0 {
        lemma_normalized_lookup(members.skip(1), key);
        assert(members.map_values(f).skip(1) =~= members.skip(1).map_values(f));
        assert(normalized_member(members[0]).0 == members[0].0);
    }
}

/// Normalizing a header takes nothing but a distance of null out of its
/// solution: no null distance is left, every other member of the header and
/// of its solution reads as before, and normalizing again changes nothing.
pub proof fn law_normalizing(header: JsonView, key: Seq<char>)
    ensures
        normalized(header).get2("powSolutions"@, "d"@) != Some(JsonView::Null),
        key != "powSolutions"@ ==> normalized(header).get(key) == header.get(key),
        key != "d"@ ==> normalized(header).get2("powSolutions"@, key) == header.get2(
            "powSolutions"@,
            key,
        ),
        normalized(normalized(header)) == normalized(header),
{
    match header {
        JsonView::Object(members) => {
            let f = |m: (Seq<char>, JsonView)| normalized_member(m);
            lemma_normalized_lookup(members, key);
            lemma_normalized_lookup(members, "powSolutions"@);
            if let Some(JsonView::Object(solution)) = lookup(members, "powSolutions"@) {
                lemma_stripped(solution);
                lemma_lookup_found(without_null_distance(solution), "d"@);
                if key != "d"@ {
                    lemma_stripped_lookup(solution, key);
                }
            }
            assert forall|i: int| 0 <= i < members.len() implies #[trigger] members.map_values(
                f,
            ).map_values(f)[i] == members.map_values(f)[i] by {
                if let JsonView::Object(solution) = members[i].1 {
                    lemma_stripped(solution);
                }
            }
            assert(members.map_values(f).map_values(f) =~= members.map_values(f));
        },
        _ => {},
    }
}

/// A distance that is not null stays where it is found first, or comes to be
/// found once null is gone before it.
proof fn lemma_distance_stays(members: Seq<(Seq<char>, JsonView)>)
    ensures
        lookup(members, "d"@) != Some(JsonView::Null) ==> lookup(
            without_null_distance(members),
            "d"@,
        ) == lookup(members, "d"@),
    decreases members.len(),
{
    if members.len() > 0 {
        let past = members.drop_last();
        lemma_distance_stays(past);
        assert(past.push(members.last()) =~= members);
        lemma_lookup_push(past, members.last(), "d"@);
        lemma_lookup_push(without_null_distance(past), members.last(), "d"@);
        if lookup(past, "d"@) == Some(JsonView::Null) {
            assert(lookup(members, "d"@) == Some(JsonView::Null));
        }
    }
}

/// Normalizing keeps what is no object as it is, and every member of a header
/// in its place, with its name; only the members of a solution that is an
/// object are looked at, and of these one goes just where it is a distance of
/// null. A distance that is given stays.
pub proof fn law_normalized_members(
    header: JsonView,
    solution: Seq<(Seq<char>, JsonView)>,
    member: (Seq<char>, JsonView),
)
    ensures
        !(header is Object) ==> normalized(header) == header,
        header matches JsonView::Object(members) ==> {
            &&& normalized(header) is Object
            &&& normalized(header)->Object_0.len() == members.len()
            &&& forall|i: int|
                0 <= i < members.len() ==> {
                    let now = #[trigger] normalized(header)->Object_0[i];
                    &&& now.0 == members[i].0
                    &&& members[i].0 != "powSolutions"@ || !(members[i].1 is Object) ==> now.1
                        == members[i].1
                    &&& members[i].0 == "powSolutions"@ && members[i].1 is Object ==> now.1
                        == JsonView::Object(without_null_distance(members[i].1->Object_0))
                }
        },
        header.get2("powSolutions"@, "d"@) != Some(JsonView::Null) ==> normalized(header).get2(
            "powSolutions"@,
            "d"@,
        ) == header.get2("powSolutions"@, "d"@),
        without_null_distance(Seq::empty()) == Seq::<(Seq<char>, JsonView)>::empty(),
        without_null_distance(solution.push(member)) == if member.0 == "d"@ && member.1 is Null {
            without_null_distance(solution)
        } else {
            without_null_distance(solution).push(member)
        },
{
    assert(solution.push(member).drop_last() =~= solution);
    if let JsonView::Object(members) = header {
        lemma_normalized_lookup(members, "powSolutions"@);
        if let Some(JsonView::Object(found)) = lookup(members, "powSolutions"@) {
            lemma_distance_stays(found);
        }
    }
}

/// A list of headers is normalized header by header; what is no list stays.
pub proof fn law_normalized_list(headers: JsonView)
    ensures
        !(headers is Array) ==> normalized_all(headers) == headers,
        headers matches JsonView::Array(items) ==> {
            &&& normalized_all(headers) is Array
            &&& normalized_all(headers)->Array_0.len() == items.len()
            &&& forall|i: int|
                0 <= i < items.len() ==> #[trigger] normalized_all(headers)->Array_0[i]
                    == normalized(items[i])
        },
{
}

/// Votes break reading off only where they are a list; of a list of integers
/// just where one of them is negative. One item that is a text, a truth value,
/// null or a list keeps any votes from doing so.
pub proof fn law_votes(items: Seq<JsonView>, other: JsonView)
    ensures
        !(other is Array) ==> !breaks_off(other),
        (forall|i: int| 0 <= i < items.len() ==> (#[trigger] items[i]) is Unsigned) ==> !breaks_off(
            JsonView::Array(items),
        ),
        (forall|i: int|
            0 <= i < items.len() ==> (#[trigger] items[i]) is Unsigned || items[i] is Negative) ==> (
        breaks_off(JsonView::Array(items)) <==> exists|i: int|
            0 <= i < items.len() && (#[trigger] items[i]) is Negative && items[i]->Negative_0 < 0),
        (exists|i: int|
            0 <= i < items.len() && ((#[trigger] items[i]) is Text || items[i] is Bool
                || items[i] is Null || items[i] is Array)) ==> !breaks_off(JsonView::Array(items)),
{
    let votes = JsonView::Array(items);
    let integers = forall|i: int|
        0 <= i < items.len() ==> (#[trigger] items[i]) is Unsigned || items[i] is Negative;
    if breaks_off(votes) {
        let i = choose|i: int| 0 <= i < items.len() && !plain_vote(#[trigger] items[i]);
        assert(0 <= i < items.len() && !plain_vote(items[i]));
        assert(!(items[i] is Unsigned));
        assert(integers ==> items[i] is Negative && items[i]->Negative_0 < 0);
        assert forall|j: int| 0 <= j < items.len() implies !((#[trigger] items[j]) is Text
            || items[j] is Bool || items[j] is Null || items[j] is Array) by {
            assert(reads_as_number(items[j]));
        }
    }
    if integers {
        assert forall|i: int| 0 <= i < items.len() implies reads_as_number(#[trigger] items[i]) by {
            assert(items[i] is Unsigned || items[i] is Negative);
        }
        if exists|i: int|
            0 <= i < items.len() && (#[trigger] items[i]) is Negative && items[i]->Negative_0 < 0 {
            let i = choose|i: int|
                0 <= i < items.len() && (#[trigger] items[i]) is Negative && items[i]->Negative_0
                    < 0;
            assert(votes->Array_0 == items);
            assert(!plain_vote(votes->Array_0[i]));
            assert(forall|j: int|
                0 <= j < votes->Array_0.len() ==> reads_as_number(#[trigger] votes->Array_0[j]));
            assert(breaks_off(votes));
        }
    }
}

/// A header whose votes do not break reading off reads as the reader of headers
/// takes its JSON text. One that reading breaks off on has such votes: under
/// that name in an object, or as the twelfth item of a list; it is never read,
/// and where reading it broke off the note says so.
pub proof fn law_header_reading(header: JsonView)
    ensures
        ({
            let breaking = match header {
                JsonView::Object(fields) => exists|i: int|
                    0 <= i < fields.len() && (#[trigger] fields[i]).0 == "votes"@ && breaks_off(
                        fields[i].1,
                    ),
                JsonView::Array(items) => items.len() > 11 && breaks_off(items[11]),
                _ => false,
            };
            &&& header_readable(header) <==> !breaking
            &&& !breaking ==> match header_in(json_text(header)) {
                Ok(fields) => header_read(header) == Ok::<HeaderFields, ReadFaultView>(fields),
                Err(e) => header_read(header) == Err::<HeaderFields, ReadFaultView>(
                    ReadFaultView::Undecodable(e),
                ),
            }
            &&& breaking ==> match header_read(header) {
                Ok(_) => false,
                Err(ReadFaultView::Broken(note)) => note
                    == "called `Option::unwrap()` on a `None` value"@,
                Err(ReadFaultView::Undecodable(_)) => true,
            }
        }),
{
    match header {
        JsonView::Object(fields) => {
            if !header_readable(header) {
                lemma_break_place(fields);
                lemma_break_at(fields);
                let i = first_break(fields) as int;
                assert(fields[i].0 == "votes"@ && breaks_off(fields[i].1));
            }
        },
        _ => {},
    }
}

/// A list of headers reads as the reader of lists takes its JSON text where no
/// header breaks reading off; otherwise it is never read.
pub proof fn law_list_reading(headers: JsonView)
    ensures
        ({
            let breaking = headers matches JsonView::Array(items) && exists|i: int|
                0 <= i < items.len() && !header_readable(#[trigger] items[i]);
            &&& !breaking ==> match headers_in(json_text(headers)) {
                Ok(list) => headers_read(headers) == Ok::<Seq<HeaderFields>, ReadFaultView>(list),
                Err(e) => headers_read(headers) == Err::<Seq<HeaderFields>, ReadFaultView>(
                    ReadFaultView::Undecodable(e),
                ),
            }
            &&& breaking ==> match headers_read(headers) {
                Ok(_) => false,
                Err(ReadFaultView::Broken(note)) => note
                    == "called `Option::unwrap()` on a `None` value"@,
                Err(ReadFaultView::Undecodable(_)) => true,
            }
        }),
{
    if let JsonView::Array(items) = headers {
        if !headers_readable(headers) {
            lemma_first_unreadable(items);
            assert(!header_readable(items[first_unreadable(items) as int]));
        }
    }
}

/// Whether every header has a member of that name.
pub open spec fn header_member(key: Seq<char>) -> bool {
    ||| key == "version"@ || key == "id"@ || key == "parentId"@ || key == "adProofsRoot"@
    ||| key == "stateRoot"@ || key == "transactionsRoot"@ || key == "timestamp"@ || key == "nBits"@
    ||| key == "height"@ || key == "extensionHash"@ || key == "powSolutions"@ || key == "votes"@
}

/// Where votes break the reading of an object off, what decides is the members
/// before the first such votes, unchanged and in their places, and behind them
/// only members of other names, so that none is missing.
pub proof fn law_before_votes(fields: Seq<(Seq<char>, JsonView)>, n: int)
    requires
        0 <= n < fields.len(),
        fields[n].0 == "votes"@,
        breaks_off(fields[n].1),
        forall|j: int|
            0 <= j < n && (#[trigger] fields[j]).0 == "votes"@ ==> !breaks_off(fields[j].1),
    ensures
        before_votes(JsonView::Object(fields)) is Object,
        ({
            let kept = before_votes(JsonView::Object(fields))->Object_0;
            &&& kept.len() >= n
            &&& kept.take(n) == fields.take(n)
            &&& forall|j: int|
                n <= j < kept.len() ==> !breaks_off((#[trigger] kept[j]).1) && lookup(
                    fields.take(n),
                    kept[j].0,
                ) is None && blank_header().contains(kept[j])
        }),
        match header_in(json_text(before_votes(JsonView::Object(fields)))) {
            Ok(_) => header_read(JsonView::Object(fields)) matches Err(fault) && fault is Broken,
            Err(e) => header_read(JsonView::Object(fields)) == Err::<HeaderFields, ReadFaultView>(
                ReadFaultView::Undecodable(e),
            ),
        },
        forall|key: Seq<char>| #[trigger]
            header_member(key) ==> lookup(
                before_votes(JsonView::Object(fields))->Object_0,
                key,
            ) is Some,
{
    lemma_first_break(fields, n);
    let start = fields.take(n);
    let fill = blank_header();
    lemma_filled_behind(start, fill);
    assert forall|key: Seq<char>| #[trigger] header_member(key) implies lookup(
        filled_up(start, fill),
        key,
    ) is Some by {
        let k: int = if key == "version"@ {
            0
        } else if key == "id"@ {
            1
        } else if key == "parentId"@ {
            2
        } else if key == "adProofsRoot"@ {
            3
        } else if key == "stateRoot"@ {
            4
        } else if key == "transactionsRoot"@ {
            5
        } else if key == "timestamp"@ {
            6
        } else if key == "nBits"@ {
            7
        } else if key == "height"@ {
            8
        } else if key == "extensionHash"@ {
            9
        } else if key == "powSolutions"@ {
            10
        } else {
            11
        };
        assert(fill[k].0 == key);
        lemma_filled_with(start, fill, k);
    }
    assert(!header_readable(JsonView::Object(fields))) by {
        if header_readable(JsonView::Object(fields)) {
            assert(JsonView::Object(fields)->Object_0[n].0 == "votes"@);
        }
    }
}

/// Filling members up leaves them in their places and adds only members of
/// names that they lack.
proof fn lemma_filled_behind(
    fields: Seq<(Seq<char>, JsonView)>,
    others: Seq<(Seq<char>, JsonView)>,
)
    requires
        forall|j: int| 0 <= j < others.len() ==> !breaks_off((#[trigger] others[j]).1),
    ensures
        filled_up(fields, others).len() >= fields.len(),
        filled_up(fields, others).take(fields.len() as int) == fields,
        forall|j: int|
            fields.len() <= j < filled_up(fields, others).len() ==> !breaks_off(
                (#[trigger] filled_up(fields, others)[j]).1,
            ) && lookup(fields, filled_up(fields, others)[j].0) is None && others.contains(
                filled_up(fields, others)[j],
            ),
    decreases others.len(),
{
    if others.len() == 0 {
        assert(fields.take(fields.len() as int) =~= fields);
    } else {
        let past = others.drop_last();
        lemma_filled_behind(fields, past);
        let before = filled_up(fields, past);
        let now = filled_up(fields, others);
        assert(now.take(fields.len() as int) =~= before.take(fields.len() as int));
        assert(others[others.len() - 1] == others.last());
        if lookup(before, others.last().0) is None {
            lemma_lookup_taken(before, fields.len() as int, others.last().0);
        }
        assert forall|j: int| fields.len() <= j < now.len() implies !breaks_off(
            (#[trigger] now[j]).1,
        ) && lookup(fields, now[j].0) is None && others.contains(now[j]) by {
            if j < before.len() {
                assert(now[j] == before[j]);
                assert(past.contains(before[j]));
                let i = choose|i: int| 0 <= i < past.len() && past[i] == before[j];
                assert(others[i] == before[j]);
            } else {
                assert(now[j] == others[others.len() - 1]);
            }
        }
    }
}

/// What members are filled up with is found among them by its name.
proof fn lemma_filled_with(
    fields: Seq<(Seq<char>, JsonView)>,
    others: Seq<(Seq<char>, JsonView)>,
    k: int,
)
    requires
        0 <= k < others.len(),
    ensures
        lookup(filled_up(fields, others), others[k].0) is Some,
    decreases others.len(),
{
    let past = others.drop_last();
    let before = filled_up(fields, past);
    if k < past.len() {
        lemma_filled_with(fields, past, k);
    }
    lemma_lookup_push(before, others.last(), others[k].0);
}

/// A name that no member has is not found among the first of them either.
proof fn lemma_lookup_taken(members: Seq<(Seq<char>, JsonView)>, n: int, key: Seq<char>)
    requires
        0 <= n <= members.len(),
        lookup(members, key) is None,
    ensures
        lookup(members.take(n), key) is None,
    decreases members.len() - n,
{
    if n < members.len() {
        lemma_lookup_taken(members, n + 1, key);
        let more = members.take(n + 1);
        assert(members.take(n).push(members[n]) =~= more);
        lemma_lookup_push(members.take(n), members[n], key);
    } else {
        assert(members.take(n) =~= members);
    }
}

/// A numeral among votes is read as a number where it is written like one,
/// unless it is an integer of more than 64 bits and at most 128; it is a vote
/// where it is a natural number below 2^64. An object is read as a number where
/// its first member has the name under which numbers are passed on, and is never
/// a vote.
pub proof fn law_vote_numerals(s: Seq<char>, fields: Seq<(Seq<char>, JsonView)>)
    ensures
        reads_as_number(JsonView::Decimal(s)) <==> number_like(s) && !(integer_of(s) matches Some(v)
            && (0x1_0000_0000_0000_0000 <= v < 0x1_0000_0000_0000_0000_0000_0000_0000_0000
            || -0x8000_0000_0000_0000_0000_0000_0000_0000 <= v < -0x8000_0000_0000_0000)),
        plain_vote(JsonView::Decimal(s)) <==> (integer_of(s) matches Some(v) && 0 <= v
            < 0x1_0000_0000_0000_0000),
        reads_as_number(JsonView::Object(fields)) <==> fields.len() > 0 && fields[0].0
            == "$serde_json::private::Number"@,
        !plain_vote(JsonView::Object(fields)),
{
}

/// Where the votes at the twelfth place of a list break reading off, what
/// decides is the eleven items before them and votes that can be read.
pub proof fn law_before_listed_votes(items: Seq<JsonView>)
    requires
        items.len() > 11,
        breaks_off(items[11]),
    ensures
        ({
            let kept = before_votes(JsonView::Array(items));
            let read = header_read(JsonView::Array(items));
            &&& kept is Array
            &&& kept->Array_0.len() == 12
            &&& kept->Array_0.take(11) == items.take(11)
            &&& kept->Array_0[11] == JsonView::Text("000000"@)
            &&& match header_in(json_text(kept)) {
                Ok(_) => read matches Err(fault) && fault is Broken,
                Err(e) => read == Err::<HeaderFields, ReadFaultView>(
                    ReadFaultView::Undecodable(e),
                ),
            }
        }),
{
    assert(before_votes(JsonView::Array(items))->Array_0.take(11) =~= items.take(11));
}

/// Where the votes of a header break the reading of a list off, what decides is
/// the headers before it and what is read of it before its votes.
pub proof fn law_before_break(items: Seq<JsonView>, n: int)
    requires
        0 <= n < items.len(),
        !header_readable(items[n]),
        forall|i: int| 0 <= i < n ==> header_readable(#[trigger] items[i]),
    ensures
        match headers_in(
            json_text(JsonView::Array(items.take(n).push(before_votes(items[n])))),
        ) {
            Ok(_) => headers_read(JsonView::Array(items)) matches Err(fault) && fault is Broken,
            Err(e) => headers_read(JsonView::Array(items)) == Err::<
                Seq<HeaderFields>,
                ReadFaultView,
            >(ReadFaultView::Undecodable(e)),
        },
{
    assert(!headers_readable(JsonView::Array(items))) by {
        if headers_readable(JsonView::Array(items)) {
            assert(header_readable(JsonView::Array(items)->Array_0[n]));
        }
    }
    lemma_first_unreadable(items);
    let first = first_unreadable(items) as int;
    if first < n {
        assert(header_readable(items[first]));
    }
}

/// Whether a document is a text of so many zeros.
pub open spec fn zeros(doc: JsonView, n: nat) -> bool {
    doc matches JsonView::Text(s) && s.len() == n && forall|i: int|
        0 <= i < n ==> #[trigger] s[i] as int == 0x30
}

/// What a header is filled up with can be read: version 2, height 1, no
/// timestamp and no difficulty, ids and roots of 32 bytes and a state root of 33,
/// a solution of a point and a nonce, and votes of three bytes, all of zeros.
pub proof fn law_blank_header()
    ensures
        ({
            let blank = JsonView::Object(blank_header());
            &&& blank_header().len() == 12
            &&& blank.get("version"@) == Some(JsonView::Unsigned(2))
            &&& blank.get("height"@) == Some(JsonView::Unsigned(1))
            &&& blank.get("timestamp"@) == Some(JsonView::Unsigned(0))
            &&& blank.get("nBits"@) == Some(JsonView::Unsigned(0))
            &&& blank.get("id"@) is Some && zeros(blank.get("id"@)->0, 64)
            &&& blank.get("parentId"@) is Some && zeros(blank.get("parentId"@)->0, 64)
            &&& blank.get("adProofsRoot"@) is Some && zeros(blank.get("adProofsRoot"@)->0, 64)
            &&& blank.get("stateRoot"@) is Some && zeros(blank.get("stateRoot"@)->0, 66)
            &&& blank.get("transactionsRoot"@) is Some && zeros(
                blank.get("transactionsRoot"@)->0,
                64,
            )
            &&& blank.get("extensionHash"@) is Some && zeros(blank.get("extensionHash"@)->0, 64)
            &&& blank.get("votes"@) is Some && zeros(blank.get("votes"@)->0, 6)
            &&& blank.get2("powSolutions"@, "pk"@) is Some && zeros(
                blank.get2("powSolutions"@, "pk"@)->0,
                66,
            )
            &&& blank.get2("powSolutions"@, "n"@) is Some && zeros(
                blank.get2("powSolutions"@, "n"@)->0,
                16,
            )
        }),
{
    reveal_strlit("0000000000000000000000000000000000000000000000000000000000000000");
    reveal_strlit("000000000000000000000000000000000000000000000000000000000000000000");
    reveal_strlit("0000000000000000");
    reveal_strlit("000000");
    reveal_strlit("pk");
    reveal_strlit("n");
    lemma_blank_names();
    let fields = blank_header();
    lemma_lookup_at(fields, "version"@, 0);
    lemma_lookup_at(fields, "id"@, 1);
    lemma_lookup_at(fields, "parentId"@, 2);
    lemma_lookup_at(fields, "adProofsRoot"@, 3);
    lemma_lookup_at(fields, "stateRoot"@, 4);
    lemma_lookup_at(fields, "transactionsRoot"@, 5);
    lemma_lookup_at(fields, "timestamp"@, 6);
    lemma_lookup_at(fields, "nBits"@, 7);
    lemma_lookup_at(fields, "height"@, 8);
    lemma_lookup_at(fields, "extensionHash"@, 9);
    lemma_lookup_at(fields, "powSolutions"@, 10);
    lemma_lookup_at(fields, "votes"@, 11);
    assert("pk"@.len() == 2 && "n"@.len() == 1);
    lemma_lookup_at(blank_solution(), "pk"@, 0);
    lemma_lookup_at(blank_solution(), "n"@, 1);
}

/// The names of a header's members are all different.
proof fn lemma_blank_names()
    ensures
        forall|i: int, j: int|
            0 <= i < j < 12 ==> (#[trigger] blank_header()[i]).0 != (#[trigger] blank_header()[j]).0,
{
    reveal_strlit("version");
    reveal_strlit("id");
    reveal_strlit("parentId");
    reveal_strlit("adProofsRoot");
    reveal_strlit("stateRoot");
    reveal_strlit("transactionsRoot");
    reveal_strlit("timestamp");
    reveal_strlit("nBits");
    reveal_strlit("height");
    reveal_strlit("extensionHash");
    reveal_strlit("powSolutions");
    reveal_strlit("votes");
    assert("version"@.len() == 7 && "id"@.len() == 2 && "parentId"@.len() == 8
        && "adProofsRoot"@.len() == 12 && "stateRoot"@.len() == 9 && "transactionsRoot"@.len() == 16
        && "timestamp"@.len() == 9 && "nBits"@.len() == 5 && "height"@.len() == 6
        && "extensionHash"@.len() == 13 && "powSolutions"@.len() == 12 && "votes"@.len() == 5);
    assert("adProofsRoot"@[0] == 'a' && "powSolutions"@[0] == 'p');
    assert("stateRoot"@[0] == 's' && "timestamp"@[0] == 't');
    assert("nBits"@[0] == 'n' && "votes"@[0] == 'v');
}

} // verus!
