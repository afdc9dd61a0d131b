//! The answer to an entry on which the work broke off.

use crate::json::{fields_view, no_fields, object, put, Json, JsonView};
use vstd::prelude::*;

verus! {

/// The answer to an entry on which the work broke off, with a note.
pub open spec fn panicked_view(note: Seq<char>) -> JsonView {
    JsonView::Object(
        seq![("error"@, JsonView::Text("panicked"@)), ("note"@, JsonView::Text(note))],
    )
}

/// The answer to an entry on which the work broke off.
pub fn panicked(note: &str) -> (r: Json)
    ensures
        r@ == panicked_view(note@),
{
    let mut members: Vec<(String, Json)> = no_fields();
    put(&mut members, "error", Json::text("panicked"));
    put(&mut members, "note", Json::text(note));
    assert(fields_view(members@) =~= panicked_view(note@)->Object_0);
    object(members)
}

/// Whether an answer says that the work broke off, with a note.
pub open spec fn says_panicked(answer: JsonView) -> bool {
    &&& answer.get("error"@) == Some(JsonView::Text("panicked"@))
    &&& answer.get("note"@) matches Some(JsonView::Text(_))
}

/// The answer with a note says that the work broke off.
pub proof fn lemma_panicked(note: Seq<char>)
    ensures
        says_panicked(panicked_view(note)),
        panicked_view(note).get("note"@) == Some(JsonView::Text(note)),
{
    reveal_strlit("error");
    reveal_strlit("note");
    assert("error"@.len() == 5 && "note"@.len() == 4);
    crate::json::lemma_lookup_at(panicked_view(note)->Object_0, "error"@, 0);
    crate::json::lemma_lookup_at(panicked_view(note)->Object_0, "note"@, 1);
}

} // verus!
