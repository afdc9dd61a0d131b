//! Vector files: which tier a file belongs to, its entries, and the answers
//! that are written for it.

use crate::block::{block_step, no_replies, run_entry, BlockReplies, BlockStep, BlockStepView};
use crate::chain_tier::{
    chain_plan, low32, retarget_answer, run_chain_entry, truncate32, vote_answer, ChainStep,
    ChainStepView, RetargetReply, VoteReply,
};
use crate::json::{
    fields_view, items_view, lemma_lookup_at, lookup, no_fields, object, opt_array, opt_str,
    opt_u64, put, Json, JsonView,
};
use crate::nipopow::{
    ascii_lower, chain_levels, interlinks_answer, interlinks_meets, interlinks_outcome,
    law_interlinks_listed, law_prove_outcome, law_worked_out, levels_possible, lists_interlinks,
    lowercase, outcome_view, popow_chain, proof_answer, prove_meets, prove_outcome, run_interlinks,
    run_prove, worked_out, ChainFault, ChainFaultView, PopowView, ProveFaultView,
};
use crate::notes::{lemma_panicked, panicked, panicked_view, says_panicked};
use crate::text::{
    chars_of, comes_before, decimal, decimal_text, join2, lemma_text_order, lemma_text_order_chain,
    same_text, text_before,
};
use vstd::prelude::*;

verus! {

// -------------------------------------------------------------------- files

/// The tiers of vectors.
#[derive(Debug, Clone, Copy, PartialEq, Eq, Structural)]
pub enum Tier {
    Block,
    Chain,
    Nipopow,
}

/// The tier that a schema belongs to.
pub open spec fn tier_of_schema(schema: Seq<char>) -> Tier {
    if "santa-chain/"@.is_prefix_of(schema) {
        Tier::Chain
    } else if "santa-nipopow/"@.is_prefix_of(schema) {
        Tier::Nipopow
    } else {
        Tier::Block
    }
}

/// The tier that a vector file belongs to, by its schema; a file without one
/// is of the block tier.
pub open spec fn tier_of(vector: JsonView) -> Tier {
    match opt_str(vector.get("schema"@)) {
        Some(schema) => tier_of_schema(schema),
        None => tier_of_schema("santa-block/v1"@),
    }
}

/// Whether a text begins with another.
fn starts_with(text: &str, prefix: &str) -> (r: bool)
    ensures
        r == prefix@.is_prefix_of(text@),
{
    let t: Vec<char> = chars_of(text);
    let p: Vec<char> = chars_of(prefix);
    if p.len() > t.len() {
        return false;
    }
    let mut i: usize = 0;
    while i < p.len()
        invariant
            i <= p@.len() <= t@.len(),
            t@ == text@,
            p@ == prefix@,
            forall|j: int| 0 <= j < i ==> p@[j] == t@[j],
        decreases p@.len() - i,
    {
        if p[i] != t[i] {
            assert(prefix@[i as int] != text@.subrange(0, prefix@.len() as int)[i as int]);
            return false;
        }
        i = i + 1;
    }
    assert(prefix@ =~= text@.subrange(0, prefix@.len() as int));
    true
}

/// The tier that a vector file belongs to.
pub fn vector_tier(vector: &Json) -> (r: Tier)
    ensures
        r == tier_of(vector@),
{
    let schema: &str = match vector.get("schema") {
        Some(v) => match v.as_str() {
            Some(schema) => schema,
            None => "santa-block/v1",
        },
        None => "santa-block/v1",
    };
    if starts_with(schema, "santa-chain/") {
        Tier::Chain
    } else if starts_with(schema, "santa-nipopow/") {
        Tier::Nipopow
    } else {
        Tier::Block
    }
}

/// The entries of a vector file, where it has a list of them.
pub fn vector_entries(vector: &Json) -> (r: Option<&Vec<Json>>)
    ensures
        (match r {
            Some(entries) => Some(items_view(entries@)),
            None => None,
        }) == opt_array(vector@.get("entries"@)),
{
    match vector.get("entries") {
        Some(v) => v.as_array(),
        None => None,
    }
}

/// The name of an entry; one without a name is called after its place.
pub open spec fn name_of(i: nat, entry: JsonView) -> Seq<char> {
    match opt_str(entry.get("name"@)) {
        Some(name) => name,
        None => "entry-"@ + decimal(i),
    }
}

/// The name of an entry.
pub fn entry_name(i: usize, entry: &Json) -> (r: String)
    ensures
        r@ == name_of(i as nat, entry@),
{
    match entry.get("name") {
        Some(v) => match v.as_str() {
            Some(name) => name.to_owned(),
            None => join2("entry-", decimal_text(i as u128).as_str()),
        },
        None => join2("entry-", decimal_text(i as u128).as_str()),
    }
}

// ------------------------------------------------------------------ entries

/// What comes of an entry of the proof tier.
#[derive(Debug, PartialEq, Eq)]
pub enum NipopowStep {
    /// The answer.
    Done(Json),
    /// The work breaks off where the text is sliced two bytes wide from a byte
    /// on; the note is what the slicing reports.
    Slice { text: String, at: usize },
}

/// What comes of an entry of the proof tier.
pub ghost enum NipopowStepView {
    Done(JsonView),
    Slice { text: Seq<char>, at: nat },
}

impl View for NipopowStep {
    type V = NipopowStepView;

    open spec fn view(&self) -> NipopowStepView {
        match self {
            NipopowStep::Done(answer) => NipopowStepView::Done(answer@),
            NipopowStep::Slice { text, at } => NipopowStepView::Slice {
                text: text@,
                at: *at as nat,
            },
        }
    }
}

/// An answer, the one that carries the note, or the text that is sliced.
pub open spec fn settled(r: Result<JsonView, ChainFaultView>) -> NipopowStepView {
    match r {
        Ok(answer) => NipopowStepView::Done(answer),
        Err(ChainFaultView::Note(note)) => NipopowStepView::Done(panicked_view(note)),
        Err(ChainFaultView::Slice { text, at }) => NipopowStepView::Slice { text, at },
    }
}

/// An answer, the one that carries the note, or the text that is sliced.
fn settle(r: Result<Json, ChainFault>) -> (out: NipopowStep)
    ensures
        out@ == settled(outcome_view(r)),
{
    match r {
        Ok(answer) => NipopowStep::Done(answer),
        Err(ChainFault::Note(note)) => NipopowStep::Done(panicked(note.as_str())),
        Err(ChainFault::Slice { text, at }) => NipopowStep::Slice { text, at },
    }
}

/// The answer to an entry of a kind that the tier does not have.
pub open spec fn unknown_kind_view() -> JsonView {
    JsonView::Object(seq![("error"@, JsonView::Text("not-implemented"@))])
}

/// The answer to an entry of the proof tier whose file gives no chain.
pub open spec fn no_chain_view() -> JsonView {
    JsonView::Object(
        seq![
            ("error"@, JsonView::Text("errored"@)),
            ("reason"@, JsonView::Text("nipopow vector missing chain"@)),
        ],
    )
}

/// The header that a request for a proof names, in lower case.
pub open spec fn requested_id(entry: JsonView) -> Option<Seq<char>> {
    match opt_str(entry.get2("payload"@, "headerId"@)) {
        Some(id) => Some(lowercase(id)),
        None => None,
    }
}

/// The header that a request for a proof names, where it does so in ASCII: its
/// letters are taken in lower case.
pub open spec fn requested_ascii(entry: JsonView) -> Option<Seq<char>> {
    match opt_str(entry.get2("payload"@, "headerId"@)) {
        Some(id) => if vstd::utf8::is_ascii_chars(id) {
            Some(id.map_values(|c: char| ascii_lower(c)))
        } else {
            None
        },
        None => None,
    }
}

/// Whether a request for the interlinks of a chain can come to a step.
pub open spec fn interlinks_entry_meets(items: Seq<JsonView>, step: NipopowStepView) -> bool {
    exists|outcome: Result<JsonView, ChainFaultView>| #[trigger]
        interlinks_meets(items, outcome) && step == settled(outcome)
}

/// Whether a request for a proof can come to a step.
pub open spec fn prove_entry_meets(
    items: Seq<JsonView>,
    entry: JsonView,
    step: NipopowStepView,
) -> bool {
    match opt_u64(entry.get2("payload"@, "m"@)) {
        None => step == NipopowStepView::Done(panicked_view("missing m"@)),
        Some(m) => match opt_u64(entry.get2("payload"@, "k"@)) {
            None => step == NipopowStepView::Done(panicked_view("missing k"@)),
            Some(k) => exists|outcome: Result<JsonView, ChainFaultView>| #[trigger]
                prove_meets(items, low32(m), low32(k), requested_id(entry), outcome) && (
                requested_ascii(entry) is Some ==> prove_meets(
                    items,
                    low32(m),
                    low32(k),
                    requested_ascii(entry),
                    outcome,
                )) && step == settled(outcome),
        },
    }
}

/// Whether an entry of the proof tier can come to a step, over the chain that
/// the file gives.
pub open spec fn nipopow_meets(
    chain: Option<Seq<JsonView>>,
    entry: JsonView,
    step: NipopowStepView,
) -> bool {
    match chain {
        None => step == NipopowStepView::Done(no_chain_view()),
        Some(items) => match opt_str(entry.get("kind"@)) {
            Some(kind) => if kind == "nipopow_interlinks"@ {
                interlinks_entry_meets(items, step)
            } else if kind == "nipopow_prove"@ {
                prove_entry_meets(items, entry, step)
            } else {
                step == NipopowStepView::Done(unknown_kind_view())
            },
            None => step == NipopowStepView::Done(unknown_kind_view()),
        },
    }
}

/// The answer to an entry of the proof tier whose file gives no chain.
fn no_chain() -> (r: Json)
    ensures
        r@ == no_chain_view(),
{
    let mut members: Vec<(String, Json)> = no_fields();
    put(&mut members, "error", Json::text("errored"));
    put(&mut members, "reason", Json::text("nipopow vector missing chain"));
    assert(fields_view(members@) =~= no_chain_view()->Object_0);
    object(members)
}

/// The answer to an entry of a kind that the tier does not have.
fn unknown_kind() -> (r: Json)
    ensures
        r@ == unknown_kind_view(),
{
    let mut members: Vec<(String, Json)> = no_fields();
    put(&mut members, "error", Json::text("not-implemented"));
    assert(fields_view(members@) =~= unknown_kind_view()->Object_0);
    object(members)
}

/// Answers a request for a proof.
fn answer_prove(items: &Vec<Json>, entry: &Json) -> (r: NipopowStep)
    ensures
        prove_entry_meets(items_view(items@), entry@, r@),
{
    let m: u64 = match entry.get2("payload", "m") {
        Some(v) => match v.as_u64() {
            Some(m) => m,
            None => return NipopowStep::Done(panicked("missing m")),
        },
        None => return NipopowStep::Done(panicked("missing m")),
    };
    let k: u64 = match entry.get2("payload", "k") {
        Some(v) => match v.as_u64() {
            Some(k) => k,
            None => return NipopowStep::Done(panicked("missing k")),
        },
        None => return NipopowStep::Done(panicked("missing k")),
    };
    let id: Option<&str> = match entry.get2("payload", "headerId") {
        Some(v) => v.as_str(),
        None => None,
    };
    let outcome: Result<Json, ChainFault> = run_prove(items, truncate32(m), truncate32(k), id);
    assert(prove_meets(
        items_view(items@),
        low32(m),
        low32(k),
        requested_id(entry@),
        outcome_view(outcome),
    ) && (requested_ascii(entry@) is Some ==> prove_meets(
        items_view(items@),
        low32(m),
        low32(k),
        requested_ascii(entry@),
        outcome_view(outcome),
    )));
    settle(outcome)
}

/// Answers an entry of the proof tier, over the chain that the file gives.
pub fn run_nipopow_entry(chain: Option<&Vec<Json>>, entry: &Json) -> (r: NipopowStep)
    ensures
        nipopow_meets(
            match chain {
                Some(items) => Some(items_view(items@)),
                None => None,
            },
            entry@,
            r@,
        ),
{
    let items: &Vec<Json> = match chain {
        Some(items) => items,
        None => return NipopowStep::Done(no_chain()),
    };
    let kind: &str = match entry.get("kind") {
        Some(v) => match v.as_str() {
            Some(kind) => kind,
            None => return NipopowStep::Done(unknown_kind()),
        },
        None => return NipopowStep::Done(unknown_kind()),
    };
    if same_text(kind, "nipopow_interlinks") {
        let outcome: Result<Json, ChainFault> = run_interlinks(items);
        assert(interlinks_meets(items_view(items@), outcome_view(outcome)));
        settle(outcome)
    } else if same_text(kind, "nipopow_prove") {
        answer_prove(items, entry)
    } else {
        NipopowStep::Done(unknown_kind())
    }
}

/// How the work on an entry begins, by the tier of its file.
#[derive(Debug, PartialEq, Eq)]
pub enum EntryStart {
    /// An entry of the proof tier.
    Nipopow(NipopowStep),
    /// An entry of the chain tier.
    Chain(ChainStep),
    /// An entry of the block tier.
    Block(BlockStep),
}

/// How the work on an entry begins.
pub ghost enum EntryStartView {
    Nipopow(NipopowStepView),
    Chain(ChainStepView),
    Block(BlockStepView),
}

impl View for EntryStart {
    type V = EntryStartView;

    open spec fn view(&self) -> EntryStartView {
        match self {
            EntryStart::Nipopow(step) => EntryStartView::Nipopow(step@),
            EntryStart::Chain(step) => EntryStartView::Chain(step@),
            EntryStart::Block(step) => EntryStartView::Block(step@),
        }
    }
}

/// Whether the work on an entry of a vector file can begin in a way.
pub open spec fn start_meets(vector: JsonView, entry: JsonView, start: EntryStartView) -> bool {
    match tier_of(vector) {
        Tier::Chain => start == EntryStartView::Chain(chain_plan(entry)),
        Tier::Nipopow => start matches EntryStartView::Nipopow(step) && nipopow_meets(
            opt_array(vector.get("chain"@)),
            entry,
            step,
        ),
        Tier::Block => start == EntryStartView::Block(block_step(entry, no_replies())),
    }
}

/// Begins the work on an entry of a vector file.
pub fn start_entry(vector: &Json, entry: &Json) -> (r: EntryStart)
    ensures
        start_meets(vector@, entry@, r@),
{
    match vector_tier(vector) {
        Tier::Chain => EntryStart::Chain(run_chain_entry(entry)),
        Tier::Nipopow => {
            let chain: Option<&Vec<Json>> = match vector.get("chain") {
                Some(v) => v.as_array(),
                None => None,
            };
            EntryStart::Nipopow(run_nipopow_entry(chain, entry))
        },
        Tier::Block => EntryStart::Block(run_entry(entry, &BlockReplies::none())),
    }
}

// ------------------------------------------------------------------ answers

/// Whether the names of members stand in order, each but once.
pub open spec fn in_order(fields: Seq<(Seq<char>, JsonView)>) -> bool {
    forall|i: int, j: int|
        0 <= i < j < fields.len() ==> text_before(
            (#[trigger] fields[i]).0,
            (#[trigger] fields[j]).0,
        )
}

/// The answers for a vector file, in the order of the names.
pub struct Actuals {
    entries: Vec<(String, Json)>,
}

impl Actuals {
    /// The names and answers, in the order of the names.
    pub closed spec fn fields(&self) -> Seq<(Seq<char>, JsonView)> {
        fields_view(self.entries@)
    }

    /// The names stand in order, each but once.
    pub open spec fn wf(&self) -> bool {
        in_order(self.fields())
    }

    /// The answers as one document, in the order of the names.
    pub open spec fn document(&self) -> JsonView {
        JsonView::Object(self.fields())
    }

    /// No answers.
    pub fn new() -> (r: Actuals)
        ensures
            r.wf(),
            r@ == Map::<Seq<char>, JsonView>::empty(),
            r.fields().len() == 0,
    {
        let r: Actuals = Actuals { entries: no_fields() };
        assert(r@ =~= Map::<Seq<char>, JsonView>::empty());
        r
    }

    /// How many names have an answer.
    pub fn len(&self) -> (r: usize)
        ensures
            r == self.fields().len(),
    {
        self.entries.len()
    }

    /// Takes down the answer for a name; one that was there is replaced.
    pub fn record(&mut self, name: &str, answer: Json)
        requires
            old(self).wf(),
        ensures
            final(self).wf(),
            final(self)@ == old(self)@.insert(name@, answer@),
    {
        let ghost before = fields_view(self.entries@);
        let mut place: usize = 0;
        while place < self.entries.len() && comes_before(self.entries[place].0.as_str(), name)
            invariant
                place <= self.entries@.len(),
                *self == *old(self),
                before == fields_view(self.entries@),
                forall|j: int| 0 <= j < place ==> text_before((#[trigger] before[j]).0, name@),
            decreases self.entries@.len() - place,
        {
            place = place + 1;
        }
        let replace: bool = place < self.entries.len() && same_text(
            self.entries[place].0.as_str(),
            name,
        );
        if replace {
            self.entries.remove(place);
        }
        let ghost rest = fields_view(self.entries@);
        assert(rest =~= if replace {
            before.take(place as int) + before.skip(place + 1)
        } else {
            before
        });
        self.entries.insert(place, (name.to_owned(), answer));
        proof {
            let now = fields_view(self.entries@);
            assert(now =~= placed(before, place as int, replace, (name@, answer@)));
            lemma_text_order(
                name@,
                if place < before.len() {
                    before[place as int].0
                } else {
                    name@
                },
            );
            lemma_recorded(before, place as int, replace, name@, answer@);
            assert(self.fields() == now);
            assert(self@ =~= old(self)@.insert(name@, answer@));
        }
    }

    /// The answers as one document, in the order of the names.
    pub fn to_json(self) -> (r: Json)
        ensures
            r@ == self.document(),
            forall|name: Seq<char>| #[trigger]
                r@.get(name) == if self@.dom().contains(name) {
                    Some(self@[name])
                } else {
                    None
                },
    {
        object(self.entries)
    }
}

impl View for Actuals {
    type V = Map<Seq<char>, JsonView>;

    /// The answer of each name.
    closed spec fn view(&self) -> Map<Seq<char>, JsonView> {
        Map::new(
            |name: Seq<char>| lookup(self.fields(), name) is Some,
            |name: Seq<char>| lookup(self.fields(), name)->0,
        )
    }
}

/// What a search among members finds: the member at some place whose name it
/// is, or nothing where no member has the name.
proof fn lemma_search(fields: Seq<(Seq<char>, JsonView)>, name: Seq<char>)
    ensures
        match lookup(fields, name) {
            Some(v) => exists|i: int| 0 <= i < fields.len() && fields[i] == (name, v),
            None => forall|i: int| 0 <= i < fields.len() ==> (#[trigger] fields[i]).0 != name,
        },
    decreases fields.len(),
{
    if fields.len() > 0 {
        if fields[0].0 == name {
            assert(fields[0] == (name, fields[0].1));
        } else {
            lemma_search(fields.skip(1), name);
            match lookup(fields, name) {
                Some(v) => {
                    let i = choose|i: int|
                        0 <= i < fields.skip(1).len() && fields.skip(1)[i] == (name, v);
                    assert(fields[i + 1] == (name, v));
                },
                None => {
                    assert forall|i: int| 0 <= i < fields.len() implies (#[trigger] fields[i]).0
                        != name by {
                        if i > 0 {
                            assert(fields.skip(1)[i - 1] == fields[i]);
                        }
                    }
                },
            }
        }
    }
}

/// Where names stand in order, each is found at its own place.
proof fn lemma_found(fields: Seq<(Seq<char>, JsonView)>, i: int)
    requires
        in_order(fields),
        0 <= i < fields.len(),
    ensures
        lookup(fields, fields[i].0) == Some(fields[i].1),
{
    assert forall|j: int| 0 <= j < i implies (#[trigger] fields[j]).0 != fields[i].0 by {
        lemma_text_order(fields[j].0, fields[i].0);
    }
    lemma_lookup_at(fields, fields[i].0, i);
}

/// Members with one more at a place; where it replaces another, that is gone.
spec fn placed(
    before: Seq<(Seq<char>, JsonView)>,
    place: int,
    replace: bool,
    member: (Seq<char>, JsonView),
) -> Seq<(Seq<char>, JsonView)> {
    if replace {
        before.update(place, member)
    } else {
        before.insert(place, member)
    }
}

/// A member put at its place in the order changes what its own name finds and
/// nothing else.
proof fn lemma_recorded(
    before: Seq<(Seq<char>, JsonView)>,
    place: int,
    replace: bool,
    name: Seq<char>,
    answer: JsonView,
)
    requires
        in_order(before),
        0 <= place <= before.len(),
        forall|j: int| 0 <= j < place ==> text_before((#[trigger] before[j]).0, name),
        replace ==> place < before.len() && before[place].0 == name,
        !replace && place < before.len() ==> text_before(name, before[place].0),
    ensures
        in_order(placed(before, place, replace, (name, answer))),
        forall|key: Seq<char>| #[trigger]
            lookup(placed(before, place, replace, (name, answer)), key) == if key == name {
                Some(answer)
            } else {
                lookup(before, key)
            },
{
    let skipped: int = if replace {
        place + 1
    } else {
        place
    };
    let now = placed(before, place, replace, (name, answer));
    assert forall|j: int| skipped <= j < before.len() implies text_before(
        name,
        (#[trigger] before[j]).0,
    ) by {
        if replace {
            assert(text_before(before[place].0, before[j].0));
        } else if j > place {
            lemma_text_order_chain(name, before[place].0, before[j].0);
        }
    }
    assert forall|i: int, j: int| 0 <= i < j < now.len() implies text_before(
        (#[trigger] now[i]).0,
        (#[trigger] now[j]).0,
    ) by {
        let from_i = if i < place {
            i
        } else {
            i - place - 1 + skipped
        };
        let from_j = if j < place {
            j
        } else {
            j - place - 1 + skipped
        };
        if i != place {
            assert(now[i] == before[from_i]);
        }
        if j != place {
            assert(now[j] == before[from_j]);
        }
        if i != place && j != place {
            assert(text_before(before[from_i].0, before[from_j].0));
        }
    }
    assert forall|key: Seq<char>| #[trigger] lookup(now, key) == if key == name {
        Some(answer)
    } else {
        lookup(before, key)
    } by {
        if key == name {
            assert(now[place] == (name, answer));
            lemma_found(now, place);
        } else {
            lemma_search(now, key);
            lemma_search(before, key);
            match lookup(before, key) {
                Some(v) => {
                    let j = choose|j: int| 0 <= j < before.len() && before[j] == (key, v);
                    let at = if j < place {
                        j
                    } else {
                        j - skipped + place + 1
                    };
                    assert(now[at] == before[j]);
                    lemma_found(now, at);
                },
                None => {
                    if let Some(v) = lookup(now, key) {
                        let i = choose|i: int| 0 <= i < now.len() && now[i] == (key, v);
                        let at = if i < place {
                            i
                        } else {
                            i - place - 1 + skipped
                        };
                        assert(before[at] == now[i]);
                        assert(before[at].0 != key);
                    }
                },
            }
        }
    }
}

/// The names of entries.
pub open spec fn names_of(entries: Seq<JsonView>) -> Seq<Seq<char>> {
    Seq::new(entries.len(), |i: int| name_of(i as nat, entries[i]))
}

/// The answers of names, taken down one after the other.
pub open spec fn taken_down(names: Seq<Seq<char>>, answers: Seq<JsonView>) -> Map<
    Seq<char>,
    JsonView,
>
    decreases names.len(),
{
    if names.len() == 0 {
        Map::empty()
    } else {
        taken_down(names.drop_last(), answers).insert(names.last(), answers[names.len() - 1])
    }
}

/// The entries of a vector file; none where it has no list of them.
pub open spec fn entries_of(vector: JsonView) -> Seq<JsonView> {
    match opt_array(vector.get("entries"@)) {
        Some(entries) => entries,
        None => Seq::empty(),
    }
}

/// Whether an answer is one that an entry of a vector file can have: the one
/// that the library gives, whatever the node replies, or the note of a panic
/// where the node or the slicing of a text is at work.
pub open spec fn entry_meets(vector: JsonView, entry: JsonView, answer: JsonView) -> bool {
    let broke_off = exists|note: Seq<char>| answer == #[trigger] panicked_view(note);
    match tier_of(vector) {
        Tier::Nipopow => {
            let chain = opt_array(vector.get("chain"@));
            ||| nipopow_meets(chain, entry, NipopowStepView::Done(answer))
            ||| broke_off && exists|text: Seq<char>, at: nat| #[trigger]
                nipopow_meets(chain, entry, NipopowStepView::Slice { text, at })
        },
        Tier::Chain => match chain_plan(entry) {
            ChainStepView::Done(given) => answer == given,
            ChainStepView::Retarget(_) => broke_off || exists|reply: RetargetReply|
                answer == #[trigger] retarget_answer(reply),
            ChainStepView::Vote(_) => broke_off || exists|reply: VoteReply|
                answer == #[trigger] vote_answer(reply),
        },
        Tier::Block => {
            ||| exists|replies: BlockReplies|
                BlockStepView::Done(answer) == #[trigger] block_step(entry, replies)
            ||| broke_off && !(block_step(entry, no_replies()) is Done)
        },
    }
}

/// Whether answers are ones that the entries of a vector file can have.
pub open spec fn answers_meet(vector: JsonView, answers: Seq<JsonView>) -> bool {
    &&& answers.len() == entries_of(vector).len()
    &&& forall|i: int|
        0 <= i < answers.len() ==> #[trigger] entry_meets(vector, entries_of(vector)[i], answers[i])
}

/// Whether a map from names to answers can come out for a vector file.
pub open spec fn file_meets(vector: JsonView, actuals: Map<Seq<char>, JsonView>) -> bool {
    exists|answers: Seq<JsonView>|
        actuals == #[trigger] taken_down(names_of(entries_of(vector)), answers) && answers_meet(
            vector,
            answers,
        )
}

/// The answers that are taken down for a vector file, by the names of its
/// entries.
pub open spec fn file_answers(vector: JsonView, answers: Seq<JsonView>) -> Map<
    Seq<char>,
    JsonView,
> {
    taken_down(names_of(entries_of(vector)), answers)
}

/// Takes down the answers to the entries of a vector file.
pub fn run_vector_file(vector: &Json, answers: Vec<Json>) -> (r: Actuals)
    requires
        answers@.len() == entries_of(vector@).len(),
    ensures
        r.wf(),
        r@ == file_answers(vector@, items_view(answers@)),
        answers_meet(vector@, items_view(answers@)) ==> file_meets(vector@, r@),
{
    let mut results: Actuals = Actuals::new();
    let entries: &Vec<Json> = match vector_entries(vector) {
        Some(entries) => entries,
        None => return results,
    };
    let ghost names = names_of(items_view(entries@));
    let ghost view = items_view(answers@);
    let count: usize = entries.len();
    let mut i: usize = 0;
    assert(names.take(0) =~= Seq::empty());
    for answer in it: answers
        invariant
            i == it.index(),
            i <= count,
            it.seq() == answers@,
            answers@.len() == count,
            entries@.len() == count,
            names == names_of(items_view(entries@)),
            view == items_view(answers@),
            results.wf(),
            results@ == taken_down(names.take(i as int), view),
    {
        assert(answer@ == view[i as int]);
        assert(names.take(i + 1).drop_last() =~= names.take(i as int));
        assert(names.take(i + 1).last() == name_of(i as nat, entries@[i as int]@));
        results.record(entry_name(i, &entries[i]).as_str(), answer);
        i = i + 1;
    }
    assert(names.take(i as int) =~= names);
    results
}

/// Every entry of a vector file has an answer under its name, and nothing
/// else has; where a name occurs more than once, the answer to the last entry
/// of that name stands.
pub proof fn law_every_entry_answered(entries: Seq<JsonView>, answers: Seq<JsonView>, i: int)
    requires
        0 <= i < entries.len(),
        answers.len() == entries.len(),
        forall|j: int| i < j < entries.len() ==> name_of(j as nat, #[trigger] entries[j]) != name_of(
            i as nat,
            entries[i],
        ),
    ensures
        taken_down(names_of(entries), answers).dom().contains(name_of(i as nat, entries[i])),
        taken_down(names_of(entries), answers)[name_of(i as nat, entries[i])] == answers[i],
        forall|name: Seq<char>| #[trigger]
            taken_down(names_of(entries), answers).dom().contains(name) <==> names_of(entries).contains(
                name,
            ),
{
    let names = names_of(entries);
    assert(names[i] == name_of(i as nat, entries[i]));
    assert forall|j: int| i < j < names.len() implies (#[trigger] names[j]) != names[i] by {
        assert(names[j] == name_of(j as nat, entries[j]));
    }
    lemma_taken_down(names, answers, i);
}

/// The last answer of a name stands, and the names are all there.
proof fn lemma_taken_down(names: Seq<Seq<char>>, answers: Seq<JsonView>, i: int)
    requires
        0 <= i < names.len(),
        forall|j: int| i < j < names.len() ==> (#[trigger] names[j]) != names[i],
    ensures
        taken_down(names, answers).dom().contains(names[i]),
        taken_down(names, answers)[names[i]] == answers[i],
        forall|name: Seq<char>| #[trigger]
            taken_down(names, answers).dom().contains(name) <==> names.contains(name),
    decreases names.len(),
{
    lemma_names_taken_down(names, answers);
    if i < names.len() - 1 {
        let past = names.drop_last();
        assert(names[names.len() - 1] != names[i]);
        assert forall|j: int| i < j < past.len() implies (#[trigger] past[j]) != past[i] by {
            assert(past[j] == names[j]);
        }
        lemma_taken_down(past, answers, i);
    }
}

/// The names that have an answer are those that were taken down.
proof fn lemma_names_taken_down(names: Seq<Seq<char>>, answers: Seq<JsonView>)
    ensures
        forall|name: Seq<char>| #[trigger]
            taken_down(names, answers).dom().contains(name) <==> names.contains(name),
    decreases names.len(),
{
    if names.len() > 0 {
        let past = names.drop_last();
        lemma_names_taken_down(past, answers);
        assert forall|name: Seq<char>| #[trigger]
            taken_down(names, answers).dom().contains(name) == names.contains(name) by {
            assert(taken_down(names, answers).dom().contains(name) <==> taken_down(
                past,
                answers,
            ).dom().contains(name) || name == names.last());
            if past.contains(name) {
                let j = choose|j: int| 0 <= j < past.len() && past[j] == name;
                assert(names[j] == name);
            }
            if names.contains(name) && name != names.last() {
                let j = choose|j: int| 0 <= j < names.len() && names[j] == name;
                assert(past[j] == name);
            }
            assert(names[names.len() - 1] == names.last());
        }
    }
}

/// What an entry expects has no part in its name or in how the work on it can
/// begin, whatever the tier.
pub proof fn law_expectation_unread(
    vector: JsonView,
    i: nat,
    a: JsonView,
    b: JsonView,
    start: EntryStartView,
)
    requires
        forall|key: Seq<char>| key != "expected"@ ==> #[trigger] a.get(key) == b.get(key),
    ensures
        name_of(i, a) == name_of(i, b),
        start_meets(vector, a, start) == start_meets(vector, b, start),
{
    reveal_strlit("expected");
    reveal_strlit("name");
    reveal_strlit("kind");
    reveal_strlit("payload");
    assert("name"@.len() == 4 && "kind"@.len() == 4 && "payload"@.len() == 7 && "expected"@.len()
        == 8);
    assert(a.get("name"@) == b.get("name"@));
    assert(a.get("kind"@) == b.get("kind"@));
    assert(a.get("payload"@) == b.get("payload"@));
    crate::chain_tier::law_expectation_unread(a, b);
    crate::block::law_expectation_unread(a, b, no_replies());
}

/// How the work on an entry can begin depends on the tier of its file, on the
/// chain that the file gives, and on the entry: no other entry has a part in it.
pub proof fn law_start_by_entry(
    a: JsonView,
    b: JsonView,
    entry: JsonView,
    start: EntryStartView,
)
    requires
        tier_of(a) == tier_of(b),
        opt_array(a.get("chain"@)) == opt_array(b.get("chain"@)),
    ensures
        start_meets(a, entry, start) == start_meets(b, entry, start),
{
}

/// Whether two files differ in nothing but what their entries expect.
pub open spec fn same_but_expected(a: JsonView, b: JsonView) -> bool {
    &&& tier_of(a) == tier_of(b)
    &&& opt_array(a.get("chain"@)) == opt_array(b.get("chain"@))
    &&& entries_of(a).len() == entries_of(b).len()
    &&& forall|i: int, key: Seq<char>|
        0 <= i < entries_of(a).len() && key != "expected"@ ==> #[trigger] entries_of(a)[i].get(key)
            == entries_of(b)[i].get(key)
}

/// An answer that an entry can have, an entry can have that differs in nothing
/// but what it expects.
proof fn lemma_entry_expectation(
    a: JsonView,
    b: JsonView,
    x: JsonView,
    y: JsonView,
    answer: JsonView,
)
    requires
        tier_of(a) == tier_of(b),
        opt_array(a.get("chain"@)) == opt_array(b.get("chain"@)),
        forall|key: Seq<char>| key != "expected"@ ==> #[trigger] x.get(key) == y.get(key),
        entry_meets(a, x, answer),
    ensures
        entry_meets(b, y, answer),
{
    crate::chain_tier::law_expectation_unread(x, y);
    crate::block::law_expectation_unread(x, y, no_replies());
    match tier_of(a) {
        Tier::Nipopow => {
            let chain = opt_array(a.get("chain"@));
            let done = NipopowStepView::Done(answer);
            law_expectation_unread(a, 0, x, y, EntryStartView::Nipopow(done));
            if !nipopow_meets(chain, x, done) {
                let (text, at) = choose|text: Seq<char>, at: nat| #[trigger]
                    nipopow_meets(chain, x, NipopowStepView::Slice { text, at });
                let step = NipopowStepView::Slice { text, at };
                law_expectation_unread(a, 0, x, y, EntryStartView::Nipopow(step));
                assert(nipopow_meets(chain, y, NipopowStepView::Slice { text, at }));
            }
        },
        Tier::Chain => {},
        Tier::Block => {
            if exists|replies: BlockReplies|
                BlockStepView::Done(answer) == #[trigger] block_step(x, replies) {
                let replies = choose|replies: BlockReplies|
                    BlockStepView::Done(answer) == #[trigger] block_step(x, replies);
                crate::block::law_expectation_unread(x, y, replies);
                assert(BlockStepView::Done(answer) == block_step(y, replies));
            }
        },
    }
}

/// What comes out for a file can come out for one that differs in nothing but
/// what its entries expect.
proof fn lemma_file_expectations(a: JsonView, b: JsonView, actuals: Map<Seq<char>, JsonView>)
    requires
        same_but_expected(a, b),
        file_meets(a, actuals),
    ensures
        file_meets(b, actuals),
{
    let ea = entries_of(a);
    let eb = entries_of(b);
    let answers = choose|answers: Seq<JsonView>|
        actuals == #[trigger] taken_down(names_of(ea), answers) && answers_meet(a, answers);
    let start = EntryStartView::Nipopow(NipopowStepView::Done(JsonView::Null));
    assert forall|i: int| 0 <= i < ea.len() implies names_of(ea)[i] == names_of(eb)[i] by {
        law_expectation_unread(a, i as nat, ea[i], eb[i], start);
    }
    assert(names_of(ea) =~= names_of(eb));
    assert forall|i: int| 0 <= i < answers.len() implies #[trigger] entry_meets(
        b,
        eb[i],
        answers[i],
    ) by {
        assert(entry_meets(a, ea[i], answers[i]));
        lemma_entry_expectation(a, b, ea[i], eb[i], answers[i]);
    }
    assert(answers_meet(b, answers));
}

/// What entries expect has no part in what comes out for a file: for two files
/// that differ in nothing else the same can come out.
pub proof fn law_file_expectations_unread(
    a: JsonView,
    b: JsonView,
    actuals: Map<Seq<char>, JsonView>,
)
    requires
        same_but_expected(a, b),
    ensures
        file_meets(a, actuals) <==> file_meets(b, actuals),
{
    if file_meets(a, actuals) {
        lemma_file_expectations(a, b, actuals);
    }
    if file_meets(b, actuals) {
        assert(same_but_expected(b, a)) by {
            assert forall|i: int, key: Seq<char>|
                0 <= i < entries_of(b).len() && key != "expected"@ implies #[trigger] entries_of(
                b,
            )[i].get(key) == entries_of(a)[i].get(key) by {
                assert(entries_of(a)[i].get(key) == entries_of(b)[i].get(key));
            }
        }
        lemma_file_expectations(b, a, actuals);
    }
}

/// Whether every entry has a name of its own.
pub open spec fn named_apart(entries: Seq<JsonView>) -> bool {
    &&& forall|i: int|
        0 <= i < entries.len() ==> opt_str((#[trigger] entries[i]).get("name"@)) is Some
    &&& forall|i: int, j: int|
        0 <= i < j < entries.len() ==> opt_str((#[trigger] entries[i]).get("name"@)) != opt_str(
            (#[trigger] entries[j]).get("name"@),
        )
}

/// The answer that is taken down for an entry does not depend on the others:
/// where every entry has a name of its own, any of them, in any order, keep
/// their answers. The `j`-th of them was at the place `from[j]` before.
pub proof fn law_entries_apart(
    entries: Seq<JsonView>,
    answers: Seq<JsonView>,
    from: Seq<int>,
    j: int,
)
    requires
        named_apart(entries),
        answers.len() == entries.len(),
        from.no_duplicates(),
        forall|i: int| 0 <= i < from.len() ==> 0 <= #[trigger] from[i] < entries.len(),
        0 <= j < from.len(),
    ensures
        ({
            let name = name_of(j as nat, entries[from[j]]);
            let some = from.map_values(|i: int| entries[i]);
            let theirs = from.map_values(|i: int| answers[i]);
            &&& taken_down(names_of(some), theirs).dom().contains(name)
            &&& taken_down(names_of(entries), answers).dom().contains(name)
            &&& taken_down(names_of(some), theirs)[name] == taken_down(
                names_of(entries),
                answers,
            )[name]
        }),
{
    let some = from.map_values(|i: int| entries[i]);
    let theirs = from.map_values(|i: int| answers[i]);
    let p = from[j];
    assert forall|i: int| p < i < entries.len() implies name_of(i as nat, #[trigger] entries[i])
        != name_of(p as nat, entries[p]) by {
        assert(opt_str(entries[p].get("name"@)) != opt_str(entries[i].get("name"@)));
    }
    law_every_entry_answered(entries, answers, p);
    assert forall|i: int| j < i < some.len() implies name_of(i as nat, #[trigger] some[i])
        != name_of(j as nat, some[j]) by {
        assert(from[i] != from[j]);
        let q = from[i];
        if p < q {
            assert(opt_str(entries[p].get("name"@)) != opt_str(entries[q].get("name"@)));
        } else {
            assert(opt_str(entries[q].get("name"@)) != opt_str(entries[p].get("name"@)));
        }
    }
    law_every_entry_answered(some, theirs, j);
}

/// An answer that an entry can have, it can have in any file of the tier with
/// the same chain.
proof fn lemma_entry_alone(a: JsonView, b: JsonView, entry: JsonView, answer: JsonView)
    requires
        tier_of(a) == tier_of(b),
        opt_array(a.get("chain"@)) == opt_array(b.get("chain"@)),
        entry_meets(a, entry, answer),
    ensures
        entry_meets(b, entry, answer),
{
}

/// The entries of a file do not depend on each other: where every entry has a
/// name of its own, and a second file holds any of them, in any order, what
/// comes out for the first can come out for the second, on its names. The
/// `j`-th entry of the second is at the place `from[j]` in the first.
pub proof fn law_files_apart(
    a: JsonView,
    b: JsonView,
    from: Seq<int>,
    actuals: Map<Seq<char>, JsonView>,
)
    requires
        tier_of(a) == tier_of(b),
        opt_array(a.get("chain"@)) == opt_array(b.get("chain"@)),
        named_apart(entries_of(a)),
        from.no_duplicates(),
        forall|i: int| 0 <= i < from.len() ==> 0 <= #[trigger] from[i] < entries_of(a).len(),
        entries_of(b) == from.map_values(|i: int| entries_of(a)[i]),
        file_meets(a, actuals),
    ensures
        file_meets(b, actuals.restrict(names_of(entries_of(b)).to_set())),
{
    let ea = entries_of(a);
    let eb = entries_of(b);
    let answers = choose|answers: Seq<JsonView>|
        actuals == #[trigger] taken_down(names_of(ea), answers) && answers_meet(a, answers);
    let theirs = from.map_values(|i: int| answers[i]);
    assert(eb =~= from.map_values(|i: int| ea[i]));
    assert forall|j: int| 0 <= j < theirs.len() implies #[trigger] entry_meets(
        b,
        eb[j],
        theirs[j],
    ) by {
        assert(entry_meets(a, ea[from[j]], answers[from[j]]));
        lemma_entry_alone(a, b, eb[j], theirs[j]);
    }
    assert(answers_meet(b, theirs));
    let part = actuals.restrict(names_of(eb).to_set());
    let taken = taken_down(names_of(eb), theirs);
    lemma_names_taken_down(names_of(eb), theirs);
    assert forall|name: Seq<char>| #[trigger] taken.dom().contains(name) implies part.dom().contains(
        name,
    ) && part[name] == taken[name] by {
        let j = choose|j: int| 0 <= j < names_of(eb).len() && names_of(eb)[j] == name;
        law_entries_apart(ea, answers, from, j);
    }
    assert(taken =~= part);
}

/// Every answer that an entry can have says how it went: `error` is null, or
/// says that the entry could not be set up, that the work broke off, with a
/// note, or that its kind is not supported.
pub proof fn law_every_answer(vector: JsonView, entry: JsonView, answer: JsonView)
    requires
        entry_meets(vector, entry, answer),
    ensures
        ({
            ||| answer.get("error"@) == Some(JsonView::Null)
            ||| answer.get("error"@) == Some(JsonView::Text("errored"@))
            ||| says_panicked(answer)
            ||| answer.get("error"@) == Some(JsonView::Text("not-implemented"@))
        }),
{
    if exists|note: Seq<char>| answer == #[trigger] panicked_view(note) {
        let note = choose|note: Seq<char>| answer == #[trigger] panicked_view(note);
        lemma_panicked(note);
    } else {
        match tier_of(vector) {
            Tier::Nipopow => law_nipopow_answers(
                opt_array(vector.get("chain"@)),
                entry,
                NipopowStepView::Done(answer),
            ),
            Tier::Chain => {
                let retarget = choose|reply: RetargetReply|
                    answer == #[trigger] retarget_answer(reply);
                let vote = choose|reply: VoteReply| answer == #[trigger] vote_answer(reply);
                crate::chain_tier::law_answers(entry, retarget, vote);
            },
            Tier::Block => {
                let replies = choose|replies: BlockReplies|
                    BlockStepView::Done(answer) == #[trigger] block_step(entry, replies);
                crate::block::law_setup_and_verdict(entry, replies);
            },
        }
    }
}

/// Every entry of the proof tier is answered, whatever it holds: with a
/// result and no error, with the note of what the work broke off on, or as of
/// a kind that the tier does not have; or the work breaks off on the slicing of
/// a text that the chain gives. Where the file gives no chain, the answer says
/// so with a reason.
pub proof fn law_nipopow_answers(
    chain: Option<Seq<JsonView>>,
    entry: JsonView,
    step: NipopowStepView,
)
    requires
        nipopow_meets(chain, entry, step),
    ensures
        chain is None ==> (step matches NipopowStepView::Done(answer) && {
            &&& answer.get("error"@) == Some(JsonView::Text("errored"@))
            &&& answer.get("reason"@) == Some(JsonView::Text("nipopow vector missing chain"@))
        }),
        chain is Some ==> (step matches NipopowStepView::Done(answer) ==> {
            ||| answer.get("error"@) == Some(JsonView::Null)
            ||| says_panicked(answer)
            ||| answer.get("error"@) == Some(JsonView::Text("not-implemented"@))
        }),
{
    reveal_strlit("error");
    reveal_strlit("reason");
    reveal_strlit("interlinks");
    reveal_strlit("proofHex");
    assert("error"@.len() == 5 && "reason"@.len() == 6 && "interlinks"@.len() == 10
        && "proofHex"@.len() == 8);
    assert forall|note: Seq<char>| says_panicked(#[trigger] panicked_view(note)) by {
        lemma_panicked(note);
    }
    lemma_lookup_at(unknown_kind_view()->Object_0, "error"@, 0);
    lemma_lookup_at(no_chain_view()->Object_0, "error"@, 0);
    lemma_lookup_at(no_chain_view()->Object_0, "reason"@, 1);
    assert forall|c: Seq<PopowView>|
        (#[trigger] interlinks_answer(c)).get("error"@) == Some(JsonView::Null) by {
        lemma_lookup_at(interlinks_answer(c)->Object_0, "error"@, 1);
    }
    assert forall|r: Result<Seq<u8>, ProveFaultView>|
        (#[trigger] proof_answer(r)) matches Ok(answer) ==> answer.get("error"@) == Some(
            JsonView::Null,
        ) by {
        if let Ok(answer) = proof_answer(r) {
            lemma_lookup_at(answer->Object_0, "error"@, 1);
        }
    }
}

/// A file is of the chain tier where its schema begins with `santa-chain/`, of
/// the proof tier where it begins with `santa-nipopow/`, and of the block tier
/// where it begins otherwise or there is none.
pub proof fn law_tiers(vector: JsonView)
    ensures
        match vector.get("schema"@) {
            Some(JsonView::Text(schema)) => {
                let chain = schema.len() >= 12 && schema.take(12) == "santa-chain/"@;
                let nipopow = schema.len() >= 14 && schema.take(14) == "santa-nipopow/"@;
                &&& tier_of(vector) == Tier::Chain <==> chain
                &&& tier_of(vector) == Tier::Nipopow <==> nipopow
                &&& tier_of(vector) == Tier::Block <==> !chain && !nipopow
            },
            _ => tier_of(vector) == Tier::Block,
        },
{
    reveal_strlit("santa-chain/");
    reveal_strlit("santa-nipopow/");
    reveal_strlit("santa-block/v1");
    let chain = "santa-chain/"@;
    let nipopow = "santa-nipopow/"@;
    let block = "santa-block/v1"@;
    assert(chain.len() == 12 && nipopow.len() == 14 && block.len() == 14);
    assert(chain[6] == 'c' && nipopow[6] == 'n' && block[6] == 'b');
    match vector.get("schema"@) {
        Some(JsonView::Text(schema)) => {
            if schema.len() >= 14 && schema.take(12) == chain {
                assert(schema.take(12)[6] == schema[6] && schema.take(14)[6] == schema[6]);
            }
        },
        _ => {
            assert(block.subrange(0, 12)[6] == 'b' && block.subrange(0, 14)[6] == 'b');
        },
    }
}

/// An entry goes by its name where it has one, and by its place, counted from
/// 0, where it has none.
pub proof fn law_names(i: nat, entry: JsonView)
    ensures
        match entry.get("name"@) {
            Some(JsonView::Text(name)) => name_of(i, entry) == name,
            _ => name_of(i, entry) == "entry-"@ + decimal(i),
        },
{
}

/// The entries of a file are the items of its list of entries, in their order;
/// the answers are taken down under the names of all of them.
pub proof fn law_entries_listed(vector: JsonView)
    ensures
        match vector.get("entries"@) {
            Some(JsonView::Array(entries)) => entries_of(vector) == entries,
            _ => entries_of(vector).len() == 0,
        },
        names_of(entries_of(vector)).len() == entries_of(vector).len(),
        forall|i: int|
            0 <= i < entries_of(vector).len() ==> #[trigger] names_of(entries_of(vector))[i]
                == name_of(i as nat, entries_of(vector)[i]),
{
}

/// The work on an entry begins as the tier of its file says: with what a chain
/// entry asks for, with the first step of a block to which nothing was replied,
/// or with what comes of a request over the chain that the file lists.
pub proof fn law_start(vector: JsonView, entry: JsonView, start: EntryStartView)
    requires
        start_meets(vector, entry, start),
    ensures
        tier_of(vector) == Tier::Chain <==> start is Chain,
        tier_of(vector) == Tier::Block <==> start is Block,
        tier_of(vector) == Tier::Nipopow <==> start is Nipopow,
        start matches EntryStartView::Chain(step) ==> step == chain_plan(entry),
        start matches EntryStartView::Block(step) ==> forall|replies: BlockReplies|
            replies.transactions is None && replies.transactions_section is None
                && replies.proofs_section is None && replies.extension_section is None
                && replies.pow is None && replies.root is None && replies.extension is None
                && replies.applied is None ==> step == #[trigger] block_step(entry, replies),
        start matches EntryStartView::Nipopow(step) ==> nipopow_meets(
            match vector.get("chain"@) {
                Some(JsonView::Array(items)) => Some(items),
                _ => None,
            },
            entry,
            step,
        ),
{
}

/// Whether a step is what an outcome comes to: the answer, an answer with the
/// note of what the work broke off on, or the slicing that it breaks off on.
pub open spec fn comes_to(
    outcome: Result<JsonView, ChainFaultView>,
    step: NipopowStepView,
) -> bool {
    match outcome {
        Ok(answer) => step == NipopowStepView::Done(answer),
        Err(ChainFaultView::Note(note)) => step is Done && says_panicked(step->Done_0)
            && step->Done_0.get("note"@) == Some(JsonView::Text(note)),
        Err(ChainFaultView::Slice { text, at }) => step == NipopowStepView::Slice { text, at },
    }
}

/// What an outcome settles as is what it comes to.
proof fn lemma_settled(outcome: Result<JsonView, ChainFaultView>)
    ensures
        comes_to(outcome, settled(outcome)),
{
    if let Err(ChainFaultView::Note(note)) = outcome {
        lemma_panicked(note);
    }
}

/// Over a chain, just the entries of a kind other than the two are answered as
/// not implemented, and so are those without a kind.
pub proof fn law_nipopow_kinds(items: Seq<JsonView>, entry: JsonView, step: NipopowStepView)
    requires
        nipopow_meets(Some(items), entry, step),
    ensures
        ({
            let unknown = entry.get("kind"@) != Some(JsonView::Text("nipopow_interlinks"@))
                && entry.get("kind"@) != Some(JsonView::Text("nipopow_prove"@));
            unknown <==> step is Done && step->Done_0.get("error"@) == Some(
                JsonView::Text("not-implemented"@),
            )
        }),
{
    reveal_strlit("error");
    reveal_strlit("interlinks");
    reveal_strlit("proofHex");
    reveal_strlit("panicked");
    reveal_strlit("not-implemented");
    assert("error"@.len() == 5 && "interlinks"@.len() == 10 && "proofHex"@.len() == 8
        && "panicked"@.len() == 8 && "not-implemented"@.len() == 15);
    lemma_lookup_at(unknown_kind_view()->Object_0, "error"@, 0);
    assert forall|note: Seq<char>| says_panicked(#[trigger] panicked_view(note)) by {
        lemma_panicked(note);
    }
    assert forall|c: Seq<PopowView>|
        (#[trigger] interlinks_answer(c)).get("error"@) == Some(JsonView::Null) by {
        lemma_lookup_at(interlinks_answer(c)->Object_0, "error"@, 1);
    }
    assert forall|r: Result<Seq<u8>, ProveFaultView>|
        (#[trigger] proof_answer(r)) matches Ok(answer) ==> answer.get("error"@) == Some(
            JsonView::Null,
        ) by {
        if let Ok(answer) = proof_answer(r) {
            lemma_lookup_at(answer->Object_0, "error"@, 1);
        }
    }
}

/// A request for interlinks over a chain that works out is answered without an
/// error and with one row for each header, the ids of its interlinks in
/// hexadecimal; where the chain does not work out, the step says on what it
/// breaks off.
pub proof fn law_interlinks_entry(items: Seq<JsonView>, entry: JsonView, step: NipopowStepView)
    requires
        nipopow_meets(Some(items), entry, step),
        entry.get("kind"@) == Some(JsonView::Text("nipopow_interlinks"@)),
    ensures
        exists|levels: Seq<Result<i32, Seq<char>>>|
            chain_levels(items, levels) && match #[trigger] popow_chain(items, levels) {
                Ok(chain) => {
                    &&& worked_out(items, levels, chain)
                    &&& step is Done
                    &&& lists_interlinks(step->Done_0, chain)
                },
                Err(fault) => comes_to(Err(fault), step),
            },
{
    let outcome = choose|outcome: Result<JsonView, ChainFaultView>| #[trigger]
        interlinks_meets(items, outcome) && step == settled(outcome);
    lemma_settled(outcome);
    let levels = choose|levels: Seq<Result<i32, Seq<char>>>|
        outcome == #[trigger] interlinks_outcome(items, levels) && chain_levels(items, levels);
    if let Ok(chain) = popow_chain(items, levels) {
        law_worked_out(items, levels, chain);
        law_interlinks_listed(chain);
    }
    assert(chain_levels(items, levels) && match popow_chain(items, levels) {
        Ok(chain) => {
            &&& worked_out(items, levels, chain)
            &&& step is Done
            &&& lists_interlinks(step->Done_0, chain)
        },
        Err(fault) => comes_to(Err(fault), step),
    });
}

/// Whether a request for a proof of a chain with the given parameters, which
/// names a header or none, can come to a step.
pub open spec fn request_comes_to(
    items: Seq<JsonView>,
    m: u32,
    k: u32,
    id: Option<Seq<char>>,
    step: NipopowStepView,
) -> bool {
    exists|levels: Seq<Result<i32, Seq<char>>>, answer: Result<JsonView, ChainFaultView>|
        #![trigger popow_chain(items, levels), comes_to(answer, step)]
        chain_levels(items, levels) && comes_to(answer, step) && match popow_chain(items, levels) {
            Ok(chain) => worked_out(items, levels, chain) && levels_possible(chain, levels)
                && prove_outcome(chain, levels, m, k, id, answer),
            Err(fault) => answer == Err::<JsonView, ChainFaultView>(fault),
        }
}

/// Whether a text is another with its letters from `A` to `Z` in lower case.
pub open spec fn lower_of(lower: Seq<char>, text: Seq<char>) -> bool {
    &&& lower.len() == text.len()
    &&& forall|i: int|
        0 <= i < text.len() ==> #[trigger] lower[i] as int == if 0x41 <= text[i] as int <= 0x5a {
            text[i] as int + 0x20
        } else {
            text[i] as int
        }
}

/// A request for a proof is carried out with the low halves of the numbers that
/// its payload gives as `m` and as `k`, and about the header that it gives as
/// `headerId`, in lower case, or about the whole chain where it gives none.
/// Where `m` or `k` is missing the note says which, `m` first.
pub proof fn law_prove_entry(items: Seq<JsonView>, entry: JsonView, step: NipopowStepView)
    requires
        nipopow_meets(Some(items), entry, step),
        entry.get("kind"@) == Some(JsonView::Text("nipopow_prove"@)),
    ensures
        match (entry.get2("payload"@, "m"@), entry.get2("payload"@, "k"@)) {
            (Some(JsonView::Unsigned(m)), Some(JsonView::Unsigned(k))) => {
                let low_m = (m as int % 0x1_0000_0000) as u32;
                let low_k = (k as int % 0x1_0000_0000) as u32;
                match entry.get2("payload"@, "headerId"@) {
                    Some(JsonView::Text(text)) => {
                        &&& request_comes_to(items, low_m, low_k, Some(lowercase(text)), step)
                        &&& vstd::utf8::is_ascii_chars(text) ==> forall|lower: Seq<char>| #[trigger]
                            lower_of(lower, text) ==> request_comes_to(
                                items,
                                low_m,
                                low_k,
                                Some(lower),
                                step,
                            )
                    },
                    _ => request_comes_to(items, low_m, low_k, None, step),
                }
            },
            (Some(JsonView::Unsigned(_)), _) => comes_to(
                Err(ChainFaultView::Note("missing k"@)),
                step,
            ),
            _ => comes_to(Err(ChainFaultView::Note("missing m"@)), step),
        },
{
    reveal_strlit("nipopow_interlinks");
    reveal_strlit("nipopow_prove");
    assert("nipopow_interlinks"@.len() == 18 && "nipopow_prove"@.len() == 13);
    lemma_panicked("missing m"@);
    lemma_panicked("missing k"@);
    if let (Some(JsonView::Unsigned(m)), Some(JsonView::Unsigned(k))) = (
        entry.get2("payload"@, "m"@),
        entry.get2("payload"@, "k"@),
    ) {
        let outcome = choose|outcome: Result<JsonView, ChainFaultView>| #[trigger]
            prove_meets(items, low32(m), low32(k), requested_id(entry), outcome) && (
            requested_ascii(entry) is Some ==> prove_meets(
                items,
                low32(m),
                low32(k),
                requested_ascii(entry),
                outcome,
            )) && step == settled(outcome);
        lemma_settled(outcome);
        lemma_request(items, low32(m), low32(k), requested_id(entry), outcome, step);
        if let Some(JsonView::Text(text)) = entry.get2("payload"@, "headerId"@) {
            if vstd::utf8::is_ascii_chars(text) {
                lemma_request(items, low32(m), low32(k), requested_ascii(entry), outcome, step);
                assert forall|lower: Seq<char>| #[trigger]
                    lower_of(lower, text) implies request_comes_to(
                    items,
                    low32(m),
                    low32(k),
                    Some(lower),
                    step,
                ) by {
                    let mapped = requested_ascii(entry)->0;
                    assert forall|i: int| 0 <= i < text.len() implies lower[i] == mapped[i] by {
                        assert(lower[i] as int == if 0x41 <= text[i] as int <= 0x5a {
                            text[i] as int + 0x20
                        } else {
                            text[i] as int
                        });
                    }
                    assert(lower =~= mapped);
                }
            }
            assert(request_comes_to(items, low32(m), low32(k), Some(lowercase(text)), step));
        } else {
            assert(request_comes_to(items, low32(m), low32(k), None, step));
        }
    }
}

/// A request comes to what its outcome calls for.
proof fn lemma_request(
    items: Seq<JsonView>,
    m: u32,
    k: u32,
    id: Option<Seq<char>>,
    outcome: Result<JsonView, ChainFaultView>,
    step: NipopowStepView,
)
    requires
        prove_meets(items, m, k, id, outcome),
        comes_to(outcome, step),
    ensures
        request_comes_to(items, m, k, id, step),
{
    law_prove_outcome(items, m, k, id, outcome);
    let levels = choose|levels: Seq<Result<i32, Seq<char>>>|
        chain_levels(items, levels) && match #[trigger] popow_chain(items, levels) {
            Ok(chain) => worked_out(items, levels, chain) && levels_possible(chain, levels)
                && prove_outcome(chain, levels, m, k, id, outcome),
            Err(fault) => outcome == Err::<JsonView, ChainFaultView>(fault),
        };
    assert(comes_to(outcome, step));
    assert(popow_chain(items, levels) == popow_chain(items, levels));
}

/// The document of answers has a member for each name that has one, and no
/// other; the members come in the order of their names, each once.
pub proof fn law_document(actuals: Actuals, name: Seq<char>)
    requires
        actuals.wf(),
    ensures
        actuals.document() is Object,
        forall|i: int, j: int|
            0 <= i < j < actuals.document()->Object_0.len() ==> text_before(
                (#[trigger] actuals.document()->Object_0[i]).0,
                (#[trigger] actuals.document()->Object_0[j]).0,
            ),
        actuals.document().get(name) is Some <==> actuals@.dom().contains(name),
        actuals@.dom().contains(name) ==> actuals.document().get(name) == Some(actuals@[name]),
{
}

/// The answer to each entry of a file stands under the entry's name, unless a
/// later entry has the same name; and nothing else has an answer.
pub proof fn law_file_answers(
    vector: JsonView,
    entries: Seq<JsonView>,
    answers: Seq<JsonView>,
    i: int,
    name: Seq<char>,
)
    requires
        vector.get("entries"@) == Some(JsonView::Array(entries)),
        answers.len() == entries.len(),
        0 <= i < entries.len(),
        match entries[i].get("name"@) {
            Some(JsonView::Text(own)) => name == own,
            _ => name == "entry-"@ + decimal(i as nat),
        },
        forall|j: int|
            i < j < entries.len() ==> match (#[trigger] entries[j]).get("name"@) {
                Some(JsonView::Text(other)) => name != other,
                _ => name != "entry-"@ + decimal(j as nat),
            },
    ensures
        file_answers(vector, answers).dom().contains(name),
        file_answers(vector, answers)[name] == answers[i],
        forall|key: Seq<char>| #[trigger]
            file_answers(vector, answers).dom().contains(key) ==> exists|j: int|
                0 <= j < entries.len() && key == name_of(j as nat, #[trigger] entries[j]),
{
    assert forall|j: int| i < j < entries.len() implies name_of(j as nat, #[trigger] entries[j])
        != name_of(i as nat, entries[i]) by {}
    law_every_entry_answered(entries, answers, i);
    assert forall|key: Seq<char>| #[trigger]
        file_answers(vector, answers).dom().contains(key) implies exists|j: int|
        0 <= j < entries.len() && key == name_of(j as nat, #[trigger] entries[j]) by {
        assert(names_of(entries).contains(key));
        let j = choose|j: int| 0 <= j < names_of(entries).len() && names_of(entries)[j] == key;
        assert(key == name_of(j as nat, entries[j]));
    }
}

} // verus!
