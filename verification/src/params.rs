//! The adjustable parameters of the chain and their table.

use crate::json::{
    fields_view, lemma_lookup_at, lemma_lookup_none, no_fields, object, opt_object, opt_view, put,
    Json, JsonView,
};
use crate::text::{
    decimal, decimal_text, i32_of, join2, join3, law_decimal_reads_back, law_text_order,
    lemma_text_order, parse_i32, signed_decimal, signed_decimal_text, text_before,
};
use vstd::prelude::*;

verus! {

/// A parameter that miners adjust by voting.
#[derive(Debug, Clone, Copy, PartialEq, Eq, Structural)]
pub enum Parameter {
    StorageFeeFactor,
    MinValuePerByte,
    MaxBlockSize,
    MaxBlockCost,
    TokenAccessCost,
    InputCost,
    DataInputCost,
    OutputCost,
    SubblocksPerBlock,
    SoftForkVotesCollected,
    SoftForkStartingHeight,
    BlockVersion,
}

/// The id under which a parameter stands in a table.
pub open spec fn id_of(p: Parameter) -> i32 {
    match p {
        Parameter::StorageFeeFactor => 1,
        Parameter::MinValuePerByte => 2,
        Parameter::MaxBlockSize => 3,
        Parameter::MaxBlockCost => 4,
        Parameter::TokenAccessCost => 5,
        Parameter::InputCost => 6,
        Parameter::DataInputCost => 7,
        Parameter::OutputCost => 8,
        Parameter::SubblocksPerBlock => 9,
        Parameter::SoftForkVotesCollected => 121,
        Parameter::SoftForkStartingHeight => 122,
        Parameter::BlockVersion => 123,
    }
}

/// The parameter that stands under an id, where one does.
pub open spec fn parameter_of(id: i32) -> Option<Parameter> {
    match id {
        1 => Some(Parameter::StorageFeeFactor),
        2 => Some(Parameter::MinValuePerByte),
        3 => Some(Parameter::MaxBlockSize),
        4 => Some(Parameter::MaxBlockCost),
        5 => Some(Parameter::TokenAccessCost),
        6 => Some(Parameter::InputCost),
        7 => Some(Parameter::DataInputCost),
        8 => Some(Parameter::OutputCost),
        9 => Some(Parameter::SubblocksPerBlock),
        121 => Some(Parameter::SoftForkVotesCollected),
        122 => Some(Parameter::SoftForkStartingHeight),
        123 => Some(Parameter::BlockVersion),
        _ => None,
    }
}

/// The id under which a parameter stands in a table.
pub fn parameter_to_id(p: &Parameter) -> (r: i32)
    ensures
        r == id_of(*p),
{
    match p {
        Parameter::StorageFeeFactor => 1,
        Parameter::MinValuePerByte => 2,
        Parameter::MaxBlockSize => 3,
        Parameter::MaxBlockCost => 4,
        Parameter::TokenAccessCost => 5,
        Parameter::InputCost => 6,
        Parameter::DataInputCost => 7,
        Parameter::OutputCost => 8,
        Parameter::SubblocksPerBlock => 9,
        Parameter::SoftForkVotesCollected => 121,
        Parameter::SoftForkStartingHeight => 122,
        Parameter::BlockVersion => 123,
    }
}

/// The parameter that stands under an id, where one does.
pub fn parameter_from_id(id: i32) -> (r: Option<Parameter>)
    ensures
        r == parameter_of(id),
{
    match id {
        1 => Some(Parameter::StorageFeeFactor),
        2 => Some(Parameter::MinValuePerByte),
        3 => Some(Parameter::MaxBlockSize),
        4 => Some(Parameter::MaxBlockCost),
        5 => Some(Parameter::TokenAccessCost),
        6 => Some(Parameter::InputCost),
        7 => Some(Parameter::DataInputCost),
        8 => Some(Parameter::OutputCost),
        9 => Some(Parameter::SubblocksPerBlock),
        121 => Some(Parameter::SoftForkVotesCollected),
        122 => Some(Parameter::SoftForkStartingHeight),
        123 => Some(Parameter::BlockVersion),
        _ => None,
    }
}

/// A parameter and its id determine each other.
pub proof fn law_parameter_ids(p: Parameter, id: i32)
    ensures
        parameter_of(id_of(p)) == Some(p),
        parameter_of(id) == Some(p) <==> id_of(p) == id,
{
}

/// A table of parameters: each has a value or none.
#[derive(Debug, Clone, Copy, PartialEq, Eq)]
pub struct ParameterTable {
    slots: [Option<i32>; 12],
}

/// The place of a parameter in the table.
pub open spec fn rank(p: Parameter) -> int {
    match p {
        Parameter::StorageFeeFactor => 0,
        Parameter::MinValuePerByte => 1,
        Parameter::MaxBlockSize => 2,
        Parameter::MaxBlockCost => 3,
        Parameter::TokenAccessCost => 4,
        Parameter::InputCost => 5,
        Parameter::DataInputCost => 6,
        Parameter::OutputCost => 7,
        Parameter::SubblocksPerBlock => 8,
        Parameter::SoftForkVotesCollected => 9,
        Parameter::SoftForkStartingHeight => 10,
        Parameter::BlockVersion => 11,
    }
}

/// The place of a parameter in the table.
fn slot_of(p: &Parameter) -> (r: usize)
    ensures
        r == rank(*p),
        r < 12,
{
    match p {
        Parameter::StorageFeeFactor => 0,
        Parameter::MinValuePerByte => 1,
        Parameter::MaxBlockSize => 2,
        Parameter::MaxBlockCost => 3,
        Parameter::TokenAccessCost => 4,
        Parameter::InputCost => 5,
        Parameter::DataInputCost => 6,
        Parameter::OutputCost => 7,
        Parameter::SubblocksPerBlock => 8,
        Parameter::SoftForkVotesCollected => 9,
        Parameter::SoftForkStartingHeight => 10,
        Parameter::BlockVersion => 11,
    }
}

impl View for ParameterTable {
    type V = Map<Parameter, i32>;

    closed spec fn view(&self) -> Map<Parameter, i32> {
        Map::new(
            |p: Parameter| self.slots@[rank(p)] is Some,
            |p: Parameter| self.slots@[rank(p)]->0,
        )
    }
}

impl ParameterTable {
    /// The table without any value.
    pub fn empty() -> (r: ParameterTable)
        ensures
            r@ == Map::<Parameter, i32>::empty(),
    {
        let r = ParameterTable {
            slots: [None, None, None, None, None, None, None, None, None, None, None, None],
        };
        assert(r@ =~= Map::<Parameter, i32>::empty());
        r
    }

    /// Gives a parameter a value.
    pub fn insert(&mut self, p: Parameter, value: i32)
        ensures
            final(self)@ == old(self)@.insert(p, value),
    {
        let slot: usize = slot_of(&p);
        self.slots[slot] = Some(value);
        assert(self@ =~= old(self)@.insert(p, value));
    }

    /// The value of a parameter, where it has one.
    pub fn get(&self, p: &Parameter) -> (r: Option<i32>)
        ensures
            r == (if self@.dom().contains(*p) {
                Some(self@[*p])
            } else {
                None
            }),
    {
        self.slots[slot_of(p)]
    }
}

/// The value that a parameter has where none was handed; none for the
/// parameters that are absent until a table gives them.
pub open spec fn default_value(id: i32) -> Option<i32> {
    match id {
        1 => Some(1_250_000),
        2 => Some(360),
        3 => Some(524_288),
        5 => Some(100),
        6 => Some(2_000),
        7 => Some(100),
        8 => Some(100),
        123 => Some(1),
        _ => None,
    }
}

/// The table of the values that hold where none was handed.
pub open spec fn default_table() -> Map<Parameter, i32> {
    Map::new(
        |p: Parameter| default_value(id_of(p)) is Some,
        |p: Parameter| default_value(id_of(p))->0,
    )
}

/// Calls `ergo_lib::chain::parameters::Parameters::default`.
///
/// Claimed: the ids and values that come out, in any order, are those of
/// `default_value`.
#[verifier::external_body]
fn default_entries() -> (r: Vec<(i32, i32)>)
    ensures
        forall|id: i32, value: i32| #[trigger]
            r@.contains((id, value)) <==> default_value(id) == Some(value),
{
    let table = ergo_lib::chain::parameters::Parameters::default().parameters_table;
    table.into_iter().map(|(p, value)| (p as i32, value)).collect()
}

impl ParameterTable {
    /// The table of the values that hold where none was handed.
    pub fn defaults() -> (r: ParameterTable)
        ensures
            r@ == default_table(),
    {
        let entries: Vec<(i32, i32)> = default_entries();
        let mut table: ParameterTable = ParameterTable::empty();
        let mut i: usize = 0;
        while i < entries.len()
            invariant
                i <= entries@.len(),
                forall|id: i32, value: i32| #[trigger]
                    entries@.contains((id, value)) <==> default_value(id) == Some(value),
                forall|p: Parameter| #[trigger]
                    table@.dom().contains(p) ==> default_value(id_of(p)) == Some(table@[p]),
                forall|p: Parameter, j: int|
                    0 <= j < i && (#[trigger] entries@[j]).0 == #[trigger] id_of(p)
                        ==> table@.dom().contains(p),
            decreases entries@.len() - i,
        {
            let (id, value): (i32, i32) = entries[i];
            assert(entries@.contains((id, value)));
            match parameter_from_id(id) {
                Some(p) => {
                    proof {
                        law_parameter_ids(p, id);
                    }
                    table.insert(p, value);
                    assert forall|q: Parameter, j: int|
                        0 <= j < i + 1 && (#[trigger] entries@[j]).0 == #[trigger] id_of(
                            q,
                        ) implies table@.dom().contains(q) by {
                        if j == i {
                            law_parameter_ids(q, id);
                        }
                    }
                },
                None => {
                    assert forall|q: Parameter, j: int|
                        0 <= j < i + 1 && (#[trigger] entries@[j]).0 == #[trigger] id_of(
                            q,
                        ) implies table@.dom().contains(q) by {
                        if j == i {
                            law_parameter_ids(q, id);
                        }
                    }
                },
            }
            i = i + 1;
        }
        assert forall|p: Parameter| #[trigger]
            default_table().dom().contains(p) implies table@.dom().contains(p) by {
            let id = id_of(p);
            let value = default_value(id)->0;
            assert(entries@.contains((id, value)));
            let j = choose|j: int| 0 <= j < entries@.len() && entries@[j] == (id, value);
            assert(entries@[j].0 == id_of(p));
        }
        assert(table@ =~= default_table());
        table
    }
}

/// What becomes of a table where one more member of its JSON form is read.
///
/// The name of the member is the id in decimal, its value the parameter's. An
/// id under which no parameter stands is refused where `strict`, and passed
/// over otherwise.
pub open spec fn read_member(
    table: Map<Parameter, i32>,
    member: (Seq<char>, JsonView),
    strict: bool,
) -> Result<Map<Parameter, i32>, Seq<char>> {
    match i32_of(member.0) {
        None => Err("parameter id '"@ + member.0 + "'"@),
        Some(id) => match member.1.as_i32() {
            None => Err("parameter "@ + member.0 + ": value not an i32"@),
            Some(value) => match parameter_of(id) {
                Some(p) => Ok(table.insert(p, value)),
                None => if strict {
                    Err("unmodeled parameter id "@ + signed_decimal(id as int))
                } else {
                    Ok(table)
                },
            },
        },
    }
}

/// The table that reading these members, in their order, makes of another:
/// the first member that cannot be read decides the error.
pub open spec fn read_members(
    start: Map<Parameter, i32>,
    members: Seq<(Seq<char>, JsonView)>,
    strict: bool,
) -> Result<Map<Parameter, i32>, Seq<char>>
    decreases members.len(),
{
    if members.len() == 0 {
        Ok(start)
    } else {
        match read_members(start, members.drop_last(), strict) {
            Err(e) => Err(e),
            Ok(table) => read_member(table, members.last(), strict),
        }
    }
}

/// What a reading of a table holds.
pub open spec fn table_view(r: Result<ParameterTable, String>) -> Result<
    Map<Parameter, i32>,
    Seq<char>,
> {
    match r {
        Ok(table) => Ok(table@),
        Err(e) => Err(e@),
    }
}

/// An error stays the outcome whatever members follow.
proof fn lemma_read_members_error(
    start: Map<Parameter, i32>,
    members: Seq<(Seq<char>, JsonView)>,
    strict: bool,
    n: int,
)
    requires
        0 <= n <= members.len(),
        read_members(start, members.take(n), strict) is Err,
    ensures
        read_members(start, members, strict) == read_members(start, members.take(n), strict),
    decreases members.len(),
{
    if n < members.len() {
        assert(members.drop_last().take(n) =~= members.take(n));
        lemma_read_members_error(start, members.drop_last(), strict, n);
    } else {
        assert(members.take(n) =~= members);
    }
}

/// Reads one more member of the JSON form of a table.
fn read_one(table: &mut ParameterTable, name: &str, value: &Json, strict: bool) -> (r: Result<
    (),
    String,
>)
    ensures
        (match r {
            Ok(()) => Ok(final(table)@),
            Err(e) => Err(e@),
        }) == read_member(old(table)@, (name@, value@), strict),
{
    let id: i32 = match parse_i32(name) {
        Some(id) => id,
        None => return Err(join3("parameter id '", name, "'")),
    };
    let number: i32 = match value.as_i32() {
        Some(v) => v,
        None => return Err(join3("parameter ", name, ": value not an i32")),
    };
    match parameter_from_id(id) {
        Some(p) => {
            table.insert(p, number);
            Ok(())
        },
        None => if strict {
            Err(join2("unmodeled parameter id ", signed_decimal_text(id).as_str()))
        } else {
            Ok(())
        },
    }
}

/// Reads the members of the JSON form of a table into a table.
fn read_all(start: ParameterTable, members: &Vec<(String, Json)>, strict: bool) -> (r: Result<
    ParameterTable,
    String,
>)
    ensures
        table_view(r) == read_members(start@, fields_view(members@), strict),
{
    let ghost view = fields_view(members@);
    let mut table: ParameterTable = start;
    let mut i: usize = 0;
    assert(view.take(0) =~= Seq::empty());
    while i < members.len()
        invariant
            i <= members@.len(),
            view == fields_view(members@),
            read_members(start@, view.take(i as int), strict) == Ok::<
                Map<Parameter, i32>,
                Seq<char>,
            >(table@),
        decreases members@.len() - i,
    {
        assert(view.take(i + 1).drop_last() =~= view.take(i as int));
        assert(view.take(i + 1).last() == view[i as int]);
        match read_one(&mut table, members[i].0.as_str(), &members[i].1, strict) {
            Ok(()) => {},
            Err(e) => {
                proof {
                    lemma_read_members_error(start@, view, strict, i + 1);
                }
                return Err(e);
            },
        }
        i = i + 1;
    }
    assert(view.take(i as int) =~= view);
    Ok(table)
}

/// What reading the table in force before a vote gives.
pub open spec fn voting_table(table: Option<JsonView>) -> Result<Map<Parameter, i32>, Seq<char>> {
    match opt_object(table) {
        None => Err("current_parameters.table missing"@),
        Some(members) => read_members(Map::empty(), members, true),
    }
}

/// Reads the table in force before a vote: the members and nothing else, and
/// no id that stands for no parameter.
pub fn decode_table(table: Option<&Json>) -> (r: Result<ParameterTable, String>)
    ensures
        table_view(r) == voting_table(opt_view(table)),
{
    match table {
        Some(doc) => match doc.as_object() {
            Some(members) => read_all(ParameterTable::empty(), members, true),
            None => Err("current_parameters.table missing".to_owned()),
        },
        None => Err("current_parameters.table missing".to_owned()),
    }
}

/// What reading the table in force at a block gives.
pub open spec fn block_table(entry: JsonView) -> Result<Map<Parameter, i32>, Seq<char>> {
    match opt_object(entry.get2("parameters"@, "table"@)) {
        None => Err("parameters.table missing"@),
        Some(members) => read_members(default_table(), members, false),
    }
}

/// Reads the table in force at a block: the members over the values that hold
/// where none was handed. Ids that stand for no parameter are passed over.
pub fn decode_parameters(entry: &Json) -> (r: Result<ParameterTable, String>)
    ensures
        table_view(r) == block_table(entry@),
{
    match entry.get2("parameters", "table") {
        Some(doc) => match doc.as_object() {
            Some(members) => read_all(ParameterTable::defaults(), members, false),
            None => Err("parameters.table missing".to_owned()),
        },
        None => Err("parameters.table missing".to_owned()),
    }
}

/// Whether a member of the JSON form of a table is passed over.
pub open spec fn passed_over(member: (Seq<char>, JsonView)) -> bool {
    &&& i32_of(member.0) matches Some(id) && parameter_of(id) is None
    &&& member.1.as_i32() is Some
}

/// The ids that are passed over where the members of a table are read, in
/// their order, up to the first that cannot be read.
pub open spec fn skipped_ids(members: Seq<(Seq<char>, JsonView)>) -> Seq<i32>
    decreases members.len(),
{
    if members.len() == 0 {
        Seq::empty()
    } else {
        let before = skipped_ids(members.drop_last());
        if read_members(Map::empty(), members.drop_last(), false) is Ok && passed_over(
            members.last(),
        ) {
            before.push(i32_of(members.last().0)->0)
        } else {
            before
        }
    }
}

/// The ids that are passed over where the table in force at a block is read.
pub open spec fn block_skipped(entry: JsonView) -> Seq<i32> {
    match opt_object(entry.get2("parameters"@, "table"@)) {
        None => Seq::empty(),
        Some(members) => skipped_ids(members),
    }
}

/// No id is passed over behind a member that cannot be read.
proof fn lemma_skipped_end(members: Seq<(Seq<char>, JsonView)>, n: int)
    requires
        0 <= n <= members.len(),
        read_members(Map::empty(), members.take(n), false) is Err,
    ensures
        skipped_ids(members) == skipped_ids(members.take(n)),
    decreases members.len(),
{
    if n < members.len() {
        assert(members.drop_last().take(n) =~= members.take(n));
        lemma_skipped_end(members.drop_last(), n);
        lemma_read_members_error(Map::empty(), members.drop_last(), false, n);
    } else {
        assert(members.take(n) =~= members);
    }
}

/// The ids that are passed over where the table in force at a block is read.
pub fn skipped_parameters(entry: &Json) -> (r: Vec<i32>)
    ensures
        r@ == block_skipped(entry@),
{
    let mut out: Vec<i32> = Vec::new();
    let members: &Vec<(String, Json)> = match entry.get2("parameters", "table") {
        Some(doc) => match doc.as_object() {
            Some(members) => members,
            None => return out,
        },
        None => return out,
    };
    let ghost view = fields_view(members@);
    let mut table: ParameterTable = ParameterTable::empty();
    let mut i: usize = 0;
    assert(view.take(0) =~= Seq::empty());
    while i < members.len()
        invariant
            i <= members@.len(),
            view == fields_view(members@),
            opt_object(entry@.get2("parameters"@, "table"@)) == Some(view),
            read_members(Map::empty(), view.take(i as int), false) == Ok::<
                Map<Parameter, i32>,
                Seq<char>,
            >(table@),
            out@ == skipped_ids(view.take(i as int)),
        decreases members@.len() - i,
    {
        assert(view.take(i + 1).drop_last() =~= view.take(i as int));
        assert(view.take(i + 1).last() == view[i as int]);
        match read_one(&mut table, members[i].0.as_str(), &members[i].1, false) {
            Ok(()) => {},
            Err(_) => {
                proof {
                    lemma_skipped_end(view, i + 1);
                }
                return out;
            },
        }
        match parse_i32(members[i].0.as_str()) {
            Some(id) => if parameter_from_id(id).is_none() {
                out.push(id);
            },
            None => {},
        }
        i = i + 1;
    }
    assert(view.take(i as int) =~= view);
    out
}

/// A handed table stands over the values that it is read into: what it gives
/// is taken from it, the rest stays.
pub proof fn law_handed_values_win(
    start: Map<Parameter, i32>,
    members: Seq<(Seq<char>, JsonView)>,
    strict: bool,
)
    ensures
        read_members(start, members, strict) == (match read_members(
            Map::empty(),
            members,
            strict,
        ) {
            Ok(handed) => Ok(start.union_prefer_right(handed)),
            Err(e) => Err(e),
        }),
    decreases members.len(),
{
    if members.len() == 0 {
        assert(start.union_prefer_right(Map::empty()) =~= start);
    } else {
        law_handed_values_win(start, members.drop_last(), strict);
        match read_members(Map::empty(), members.drop_last(), strict) {
            Ok(handed) => {
                let member = members.last();
                if let Ok(after) = read_member(handed, member, strict) {
                    assert(read_member(start.union_prefer_right(handed), member, strict)->Ok_0
                        =~= start.union_prefer_right(after));
                }
            },
            Err(_) => {},
        }
    }
}

/// The parameters in the order of their ids as texts.
pub open spec fn text_order() -> Seq<Parameter> {
    seq![
        Parameter::StorageFeeFactor,
        Parameter::SoftForkVotesCollected,
        Parameter::SoftForkStartingHeight,
        Parameter::BlockVersion,
        Parameter::MinValuePerByte,
        Parameter::MaxBlockSize,
        Parameter::MaxBlockCost,
        Parameter::TokenAccessCost,
        Parameter::InputCost,
        Parameter::DataInputCost,
        Parameter::OutputCost,
        Parameter::SubblocksPerBlock,
    ]
}

/// The parameters in the order of their ids as texts.
pub fn all_parameters() -> (r: Vec<Parameter>)
    ensures
        r@ == text_order(),
{
    vec![
        Parameter::StorageFeeFactor,
        Parameter::SoftForkVotesCollected,
        Parameter::SoftForkStartingHeight,
        Parameter::BlockVersion,
        Parameter::MinValuePerByte,
        Parameter::MaxBlockSize,
        Parameter::MaxBlockCost,
        Parameter::TokenAccessCost,
        Parameter::InputCost,
        Parameter::DataInputCost,
        Parameter::OutputCost,
        Parameter::SubblocksPerBlock,
    ]
}

/// A number as a document.
pub open spec fn number_view(n: i32) -> JsonView {
    if n < 0 {
        JsonView::Negative(n as i64)
    } else {
        JsonView::Unsigned(n as u64)
    }
}

/// A number as a document.
pub fn number(n: i32) -> (r: Json)
    ensures
        r@ == number_view(n),
{
    if n < 0 {
        Json::Negative(n as i64)
    } else {
        Json::Unsigned(n as u64)
    }
}

/// The members of the JSON form of a table, for those parameters out of a
/// list that have a value: the id in decimal and the value.
pub open spec fn table_members(table: Map<Parameter, i32>, order: Seq<Parameter>) -> Seq<
    (Seq<char>, JsonView),
>
    decreases order.len(),
{
    if order.len() == 0 {
        Seq::empty()
    } else {
        let before = table_members(table, order.drop_last());
        let p = order.last();
        if table.dom().contains(p) {
            before.push((decimal(id_of(p) as nat), number_view(table[p])))
        } else {
            before
        }
    }
}

/// The JSON form of a table: its values under their ids, in the order of the
/// ids as texts.
pub open spec fn table_object(table: Map<Parameter, i32>) -> JsonView {
    JsonView::Object(table_members(table, text_order()))
}

/// Writes a table in its JSON form.
pub fn table_json(table: &ParameterTable) -> (r: Json)
    ensures
        r@ == table_object(table@),
{
    let order: Vec<Parameter> = all_parameters();
    let mut members: Vec<(String, Json)> = no_fields();
    let mut i: usize = 0;
    assert(order@.take(0) =~= Seq::empty());
    while i < order.len()
        invariant
            i <= order@.len(),
            fields_view(members@) == table_members(table@, order@.take(i as int)),
        decreases order@.len() - i,
    {
        let p: Parameter = order[i];
        assert(order@.take(i + 1).drop_last() =~= order@.take(i as int));
        assert(order@.take(i + 1).last() == p);
        match table.get(&p) {
            Some(value) => {
                let id: i32 = parameter_to_id(&p);
                put(&mut members, decimal_text(id as u128).as_str(), number(value));
            },
            None => {},
        }
        i = i + 1;
    }
    assert(order@.take(i as int) =~= order@);
    object(members)
}

/// Reading the JSON form of part of a table gives that part.
proof fn lemma_table_members_read(table: Map<Parameter, i32>, order: Seq<Parameter>, strict: bool)
    ensures
        read_members(Map::empty(), table_members(table, order), strict) == Ok::<
            Map<Parameter, i32>,
            Seq<char>,
        >(table.restrict(order.to_set())),
    decreases order.len(),
{
    if order.len() == 0 {
        assert(table.restrict(order.to_set()) =~= Map::<Parameter, i32>::empty());
    } else {
        let past = order.drop_last();
        let p = order.last();
        lemma_table_members_read(table, past, strict);
        assert forall|q: Parameter| order.to_set().contains(q) <==> (past.to_set().contains(q) || q
            == p) by {
            if order.to_set().contains(q) && q != p {
                let j = choose|j: int| 0 <= j < order.len() && order[j] == q;
                assert(past[j] == q);
            }
            if past.to_set().contains(q) {
                let j = choose|j: int| 0 <= j < past.len() && past[j] == q;
                assert(order[j] == q);
            }
            assert(order[order.len() - 1] == p);
        }
        if table.dom().contains(p) {
            law_decimal_reads_back(id_of(p) as nat);
            law_parameter_ids(p, id_of(p));
            let members = table_members(table, order);
            assert(members.drop_last() =~= table_members(table, past));
            assert(table.restrict(order.to_set()) =~= table.restrict(past.to_set()).insert(
                p,
                table[p],
            ));
        } else {
            assert(table.restrict(order.to_set()) =~= table.restrict(past.to_set()));
        }
    }
}

/// A table that is written in its JSON form and read again is the same table,
/// whether or not unknown ids are refused.
pub proof fn law_table_reads_back(table: Map<Parameter, i32>, strict: bool)
    ensures
        read_members(Map::empty(), table_object(table)->Object_0, strict) == Ok::<
            Map<Parameter, i32>,
            Seq<char>,
        >(table),
        voting_table(Some(table_object(table))) == Ok::<Map<Parameter, i32>, Seq<char>>(table),
{
    lemma_table_members_read(table, text_order(), strict);
    lemma_table_members_read(table, text_order(), true);
    let order = text_order();
    assert forall|p: Parameter| order.to_set().contains(p) by {
        let j: int = match p {
            Parameter::StorageFeeFactor => 0,
            Parameter::SoftForkVotesCollected => 1,
            Parameter::SoftForkStartingHeight => 2,
            Parameter::BlockVersion => 3,
            Parameter::MinValuePerByte => 4,
            Parameter::MaxBlockSize => 5,
            Parameter::MaxBlockCost => 6,
            Parameter::TokenAccessCost => 7,
            Parameter::InputCost => 8,
            Parameter::DataInputCost => 9,
            Parameter::OutputCost => 10,
            Parameter::SubblocksPerBlock => 11,
        };
        assert(order[j] == p);
    }
    assert(table.restrict(order.to_set()) =~= table);
}

/// The parameters have the ids 1 to 9 and 121 to 123, in this order, and no
/// other id stands for one.
pub proof fn law_parameter_numbers(id: i32)
    ensures
        id_of(Parameter::StorageFeeFactor) == 1,
        id_of(Parameter::MinValuePerByte) == 2,
        id_of(Parameter::MaxBlockSize) == 3,
        id_of(Parameter::MaxBlockCost) == 4,
        id_of(Parameter::TokenAccessCost) == 5,
        id_of(Parameter::InputCost) == 6,
        id_of(Parameter::DataInputCost) == 7,
        id_of(Parameter::OutputCost) == 8,
        id_of(Parameter::SubblocksPerBlock) == 9,
        id_of(Parameter::SoftForkVotesCollected) == 121,
        id_of(Parameter::SoftForkStartingHeight) == 122,
        id_of(Parameter::BlockVersion) == 123,
        parameter_of(id) is Some <==> 1 <= id <= 9 || 121 <= id <= 123,
{
}

/// Whether a member of the JSON form of a table can be read: its name is a
/// 32-bit numeral, its value a 32-bit number, and where `strict` a parameter
/// stands under the id.
pub open spec fn member_readable(member: (Seq<char>, JsonView), strict: bool) -> bool {
    &&& i32_of(member.0) is Some
    &&& member.1.as_i32() is Some
    &&& strict ==> parameter_of(i32_of(member.0)->0) is Some
}

/// Whether a member of the JSON form of a table gives a parameter.
pub open spec fn gives(member: (Seq<char>, JsonView), p: Parameter) -> bool {
    i32_of(member.0) == Some(id_of(p))
}

/// Whether a parameter has in a table the value that the last of the members
/// for it gives, or, where there is none, the value that it has in another.
pub open spec fn value_from(
    table: Map<Parameter, i32>,
    start: Map<Parameter, i32>,
    members: Seq<(Seq<char>, JsonView)>,
    p: Parameter,
) -> bool {
    &&& forall|j: int|
        0 <= j < members.len() && gives(#[trigger] members[j], p) && (forall|k: int|
            j < k < members.len() ==> !gives(#[trigger] members[k], p)) ==> table.dom().contains(p)
            && members[j].1.as_i32() == Some(table[p])
    &&& (forall|j: int| 0 <= j < members.len() ==> !gives(#[trigger] members[j], p)) ==> {
        &&& table.dom().contains(p) <==> start.dom().contains(p)
        &&& start.dom().contains(p) ==> table[p] == start[p]
    }
}

/// Members of a table can be read just where each of them can. Then a parameter
/// has the value of the last member that gives it, and what no member gives
/// stays as it was.
pub proof fn law_members_read(
    start: Map<Parameter, i32>,
    members: Seq<(Seq<char>, JsonView)>,
    strict: bool,
    p: Parameter,
)
    ensures
        read_members(start, members, strict) is Ok <==> forall|j: int|
            0 <= j < members.len() ==> member_readable(#[trigger] members[j], strict),
        read_members(start, members, strict) matches Ok(table) ==> value_from(
            table,
            start,
            members,
            p,
        ),
    decreases members.len(),
{
    if members.len() > 0 {
        let past = members.drop_last();
        let n = members.len() - 1;
        law_members_read(start, past, strict, p);
        assert(members[n] == members.last());
        assert forall|j: int| 0 <= j < n implies #[trigger] past[j] == members[j] by {}
        if read_members(start, members, strict) is Ok {
            assert forall|j: int| 0 <= j < members.len() implies member_readable(
                #[trigger] members[j],
                strict,
            ) by {
                if j < n {
                    assert(member_readable(past[j], strict));
                }
            }
            let table = read_members(start, members, strict)->Ok_0;
            let before = read_members(start, past, strict)->Ok_0;
            let id = i32_of(members[n].0)->0;
            law_parameter_ids(p, id);
            if gives(members[n], p) {
                assert(table == before.insert(p, members[n].1.as_i32()->0));
            } else {
                assert(table.dom().contains(p) <==> before.dom().contains(p));
                assert(before.dom().contains(p) ==> table[p] == before[p]);
                assert forall|j: int|
                    0 <= j < members.len() && gives(#[trigger] members[j], p) && (forall|k: int|
                        j < k < members.len() ==> !gives(
                            #[trigger] members[k],
                            p,
                        )) implies table.dom().contains(p) && members[j].1.as_i32() == Some(
                    table[p],
                ) by {
                    assert(gives(past[j], p));
                    assert forall|k: int| j < k < past.len() implies !gives(
                        #[trigger] past[k],
                        p,
                    ) by {
                        assert(!gives(members[k], p));
                    }
                }
                if forall|j: int| 0 <= j < members.len() ==> !gives(#[trigger] members[j], p) {
                    assert forall|j: int| 0 <= j < past.len() implies !gives(
                        #[trigger] past[j],
                        p,
                    ) by {
                        assert(!gives(members[j], p));
                    }
                }
            }
        }
        if forall|j: int| 0 <= j < members.len() ==> member_readable(#[trigger] members[j], strict) {
            assert forall|j: int| 0 <= j < past.len() implies member_readable(
                #[trigger] past[j],
                strict,
            ) by {
                assert(member_readable(members[j], strict));
            }
            assert(member_readable(members[n], strict));
        }
    }
}

/// The first member that cannot be read decides the error: its name where that
/// is no numeral, its value where that is no number, or its unknown id.
pub proof fn law_members_refused(
    start: Map<Parameter, i32>,
    members: Seq<(Seq<char>, JsonView)>,
    strict: bool,
    j: int,
)
    requires
        0 <= j < members.len(),
        !member_readable(members[j], strict),
        forall|i: int| 0 <= i < j ==> member_readable(#[trigger] members[i], strict),
    ensures
        read_members(start, members, strict) == Err::<Map<Parameter, i32>, Seq<char>>(
            if i32_of(members[j].0) is None {
                "parameter id '"@ + members[j].0 + "'"@
            } else if members[j].1.as_i32() is None {
                "parameter "@ + members[j].0 + ": value not an i32"@
            } else {
                "unmodeled parameter id "@ + signed_decimal(i32_of(members[j].0)->0 as int)
            },
        ),
{
    let before = members.take(j);
    let now = members.take(j + 1);
    assert forall|i: int| 0 <= i < before.len() implies member_readable(
        #[trigger] before[i],
        strict,
    ) by {
        assert(member_readable(members[i], strict));
    }
    law_members_read(start, before, strict, Parameter::BlockVersion);
    assert(now.drop_last() =~= before);
    assert(now.last() == members[j]);
    lemma_read_members_error(start, members, strict, j + 1);
}

/// The table before a vote holds what its members give and nothing else, and
/// can be read just where each member gives a parameter a number.
pub proof fn law_voting_table(table: Option<JsonView>, p: Parameter)
    ensures
        voting_table(table) is Ok <==> (table matches Some(JsonView::Object(members)) && forall|
            j: int,
        |
            0 <= j < members.len() ==> member_readable(#[trigger] members[j], true)),
        voting_table(table) matches Ok(read) ==> {
            let members = table->0->Object_0;
            &&& value_from(read, Map::empty(), members, p)
            &&& read.dom().contains(p) <==> exists|j: int|
                0 <= j < members.len() && gives(#[trigger] members[j], p)
        },
{
    if let Some(JsonView::Object(members)) = table {
        law_members_read(Map::empty(), members, true, p);
        if let Ok(read) = voting_table(table) {
            lemma_dom(members, read, p);
        }
    }
}

/// A parameter that some member gives has a last one that does.
proof fn lemma_dom(
    members: Seq<(Seq<char>, JsonView)>,
    read: Map<Parameter, i32>,
    p: Parameter,
)
    requires
        value_from(read, Map::empty(), members, p),
    ensures
        read.dom().contains(p) <==> exists|j: int|
            0 <= j < members.len() && gives(#[trigger] members[j], p),
{
    if exists|j: int| 0 <= j < members.len() && gives(#[trigger] members[j], p) {
        let j = choose|j: int| 0 <= j < members.len() && gives(#[trigger] members[j], p);
        lemma_last(members, p, j);
        let last = choose|k: int|
            0 <= k < members.len() && gives(#[trigger] members[k], p) && (forall|l: int|
                k < l < members.len() ==> !gives(#[trigger] members[l], p));
        assert(gives(members[last], p));
    }
}

/// Behind a member that gives a parameter stands a last one that does.
proof fn lemma_last(members: Seq<(Seq<char>, JsonView)>, p: Parameter, j: int)
    requires
        0 <= j < members.len(),
        gives(members[j], p),
    ensures
        exists|k: int|
            0 <= k < members.len() && gives(#[trigger] members[k], p) && (forall|l: int|
                k < l < members.len() ==> !gives(#[trigger] members[l], p)),
    decreases members.len() - j,
{
    if exists|l: int| j < l < members.len() && gives(#[trigger] members[l], p) {
        let l = choose|l: int| j < l < members.len() && gives(#[trigger] members[l], p);
        lemma_last(members, p, l);
    } else {
        assert(gives(members[j], p));
    }
}

/// The table at a block holds what its members give over the values that hold
/// where none was handed, and can be read just where each member has a numeral
/// for a name and a number for a value; an unknown id is no error.
pub proof fn law_block_table(entry: JsonView, p: Parameter)
    ensures
        block_table(entry) is Ok <==> (entry.get("parameters"@) matches Some(part) && (part.get(
            "table"@,
        ) matches Some(JsonView::Object(members)) && forall|j: int|
            0 <= j < members.len() ==> member_readable(#[trigger] members[j], false))),
        block_table(entry) matches Ok(read) ==> value_from(
            read,
            default_table(),
            entry.get("parameters"@)->0.get("table"@)->0->Object_0,
            p,
        ),
{
    if let Some(JsonView::Object(members)) = entry.get2("parameters"@, "table"@) {
        law_members_read(default_table(), members, false, p);
    }
}

/// The values that hold where none was handed. The cost limit of a block, the
/// number of subblocks and the two numbers of a soft fork have none.
pub proof fn law_defaults()
    ensures
        default_table().dom() == set![
            Parameter::StorageFeeFactor,
            Parameter::MinValuePerByte,
            Parameter::MaxBlockSize,
            Parameter::TokenAccessCost,
            Parameter::InputCost,
            Parameter::DataInputCost,
            Parameter::OutputCost,
            Parameter::BlockVersion,
        ],
        default_table()[Parameter::StorageFeeFactor] == 1_250_000,
        default_table()[Parameter::MinValuePerByte] == 360,
        default_table()[Parameter::MaxBlockSize] == 524_288,
        default_table()[Parameter::TokenAccessCost] == 100,
        default_table()[Parameter::InputCost] == 2_000,
        default_table()[Parameter::DataInputCost] == 100,
        default_table()[Parameter::OutputCost] == 100,
        default_table()[Parameter::BlockVersion] == 1,
{
    assert(default_table().dom() =~= set![
        Parameter::StorageFeeFactor,
        Parameter::MinValuePerByte,
        Parameter::MaxBlockSize,
        Parameter::TokenAccessCost,
        Parameter::InputCost,
        Parameter::DataInputCost,
        Parameter::OutputCost,
        Parameter::BlockVersion,
    ]);
}

/// Of the members up to one that cannot be read, just those under whose ids no
/// parameter stands are passed over; their ids are kept in the order of the
/// members.
pub proof fn law_passed_over(members: Seq<(Seq<char>, JsonView)>, n: int)
    requires
        0 <= n < members.len(),
    ensures
        skipped_ids(members.take(0)).len() == 0,
        ({
            let readable = forall|j: int| 0 <= j <= n ==> member_readable(#[trigger] members[j], false);
            let id = i32_of(members[n].0)->0;
            &&& readable && !(1 <= id <= 9 || 121 <= id <= 123) ==> skipped_ids(
                members.take(n + 1),
            ) == skipped_ids(members.take(n)).push(id)
            &&& !readable || 1 <= id <= 9 || 121 <= id <= 123 ==> skipped_ids(members.take(n + 1))
                == skipped_ids(members.take(n))
        }),
{
    let before = members.take(n);
    let now = members.take(n + 1);
    assert(now.drop_last() =~= before);
    assert(now.last() == members[n]);
    law_members_read(Map::empty(), before, false, Parameter::BlockVersion);
    if read_members(Map::empty(), before, false) is Ok {
        assert forall|j: int| 0 <= j < n implies member_readable(#[trigger] members[j], false) by {
            assert(member_readable(before[j], false));
        }
        if member_readable(members[n], false) {
            assert forall|j: int| 0 <= j <= n implies member_readable(
                #[trigger] members[j],
                false,
            ) by {}
        }
    } else {
        let j = choose|j: int|
            0 <= j < before.len() && !member_readable(#[trigger] before[j], false);
        assert(!member_readable(members[j], false));
    }
}

/// The ids that are passed over at a block are those of its table.
pub proof fn law_block_passed_over(entry: JsonView)
    ensures
        match entry.get("parameters"@) {
            Some(part) => match part.get("table"@) {
                Some(JsonView::Object(members)) => block_skipped(entry) == skipped_ids(members),
                _ => block_skipped(entry).len() == 0,
            },
            None => block_skipped(entry).len() == 0,
        },
{
}

/// Whether a member is that of the parameter at a place of a list.
spec fn member_at(
    table: Map<Parameter, i32>,
    order: Seq<Parameter>,
    member: (Seq<char>, JsonView),
    k: int,
) -> bool {
    &&& 0 <= k < order.len()
    &&& table.dom().contains(order[k])
    &&& member == (decimal(id_of(order[k]) as nat), number_view(table[order[k]]))
}

/// Each member of a table that is written, for part of the parameters, is that
/// of one of them.
proof fn lemma_table_member(table: Map<Parameter, i32>, order: Seq<Parameter>, i: int) -> (k: int)
    requires
        0 <= i < table_members(table, order).len(),
    ensures
        member_at(table, order, table_members(table, order)[i], k),
    decreases order.len(),
{
    let past = order.drop_last();
    let before = table_members(table, past);
    if i < before.len() {
        lemma_table_member(table, past, i)
    } else {
        order.len() - 1
    }
}

/// The members come in the order of their parameters.
proof fn lemma_table_order(
    table: Map<Parameter, i32>,
    order: Seq<Parameter>,
    i: int,
    j: int,
) -> (r: (int, int))
    requires
        0 <= i < j < table_members(table, order).len(),
    ensures
        member_at(table, order, table_members(table, order)[i], r.0),
        member_at(table, order, table_members(table, order)[j], r.1),
        r.0 < r.1,
    decreases order.len(),
{
    let past = order.drop_last();
    let before = table_members(table, past);
    if j < before.len() {
        lemma_table_order(table, past, i, j)
    } else {
        let k = lemma_table_member(table, past, i);
        (k, order.len() - 1)
    }
}

/// Each parameter that has a value has a member.
proof fn lemma_table_place(table: Map<Parameter, i32>, order: Seq<Parameter>, k: int) -> (i: int)
    requires
        0 <= k < order.len(),
        table.dom().contains(order[k]),
    ensures
        0 <= i < table_members(table, order).len(),
        member_at(table, order, table_members(table, order)[i], k),
    decreases order.len(),
{
    let past = order.drop_last();
    let before = table_members(table, past);
    if k < past.len() {
        lemma_table_place(table, past, k)
    } else {
        before.len() as int
    }
}

/// The numerals of the ids come in the order of the parameters as texts.
proof fn lemma_numerals_in_order(k: int, l: int)
    requires
        0 <= k < l < 12,
    ensures
        text_before(
            decimal(id_of(text_order()[k]) as nat),
            decimal(id_of(text_order()[l]) as nat),
        ),
{
    reveal_with_fuel(decimal, 4);
    reveal_with_fuel(text_before, 4);
    assert(decimal(121) =~= seq!['1', '2', '1']);
    assert(decimal(122) =~= seq!['1', '2', '2']);
    assert(decimal(123) =~= seq!['1', '2', '3']);
    let a = decimal(id_of(text_order()[k]) as nat);
    let b = decimal(id_of(text_order()[l]) as nat);
    if a[0] as int != b[0] as int {
        assert(a.take(0) =~= b.take(0));
        law_text_order(a, b, 0);
    } else if a.len() == 1 {
        assert(a.take(1) =~= b.take(1));
        law_text_order(a, b, 1);
    } else {
        assert(a.take(2) =~= b.take(2));
        law_text_order(a, b, 2);
    }
}

/// The parameters are listed all, each once, in the order in which the numerals
/// of their ids come as texts.
pub proof fn law_parameters_in_order(p: Parameter)
    ensures
        text_order().contains(p),
        forall|k: int, l: int|
            0 <= k < l < text_order().len() ==> text_before(
                decimal(id_of(#[trigger] text_order()[k]) as nat),
                decimal(id_of(#[trigger] text_order()[l]) as nat),
            ),
{
    let order = text_order();
    assert forall|k: int, l: int| 0 <= k < l < order.len() implies text_before(
        decimal(id_of(#[trigger] order[k]) as nat),
        decimal(id_of(#[trigger] order[l]) as nat),
    ) by {
        lemma_numerals_in_order(k, l);
    }
    let k: int = match p {
        Parameter::StorageFeeFactor => 0,
        Parameter::SoftForkVotesCollected => 1,
        Parameter::SoftForkStartingHeight => 2,
        Parameter::BlockVersion => 3,
        Parameter::MinValuePerByte => 4,
        Parameter::MaxBlockSize => 5,
        Parameter::MaxBlockCost => 6,
        Parameter::TokenAccessCost => 7,
        Parameter::InputCost => 8,
        Parameter::DataInputCost => 9,
        Parameter::OutputCost => 10,
        Parameter::SubblocksPerBlock => 11,
    };
    assert(order[k] == p);
}

/// A written table has each parameter's value, and nothing else, under the
/// numeral of its id; the names come in the order of their texts, each once.
pub proof fn law_table_written(table: Map<Parameter, i32>, p: Parameter)
    ensures
        table_object(table) is Object,
        ({
            let members = table_object(table)->Object_0;
            let value = table_object(table).get(decimal(id_of(p) as nat));
            &&& table.dom().contains(p) ==> value == Some(
                if table[p] >= 0 {
                    JsonView::Unsigned(table[p] as u64)
                } else {
                    JsonView::Negative(table[p] as i64)
                },
            )
            &&& !table.dom().contains(p) ==> value is None
            &&& forall|i: int|
                #![trigger members[i]]
                0 <= i < members.len() ==> exists|q: Parameter| #[trigger]
                    table.dom().contains(q) && members[i].0 == decimal(id_of(q) as nat)
            &&& forall|i: int, j: int|
                0 <= i < j < members.len() ==> text_before(
                    (#[trigger] members[i]).0,
                    (#[trigger] members[j]).0,
                )
        }),
{
    let order = text_order();
    let members = table_members(table, order);
    let key = decimal(id_of(p) as nat);
    assert forall|i: int, j: int| 0 <= i < j < members.len() implies text_before(
        (#[trigger] members[i]).0,
        (#[trigger] members[j]).0,
    ) by {
        let (k, l) = lemma_table_order(table, order, i, j);
        lemma_numerals_in_order(k, l);
    }
    assert forall|i: int| #![trigger members[i]] 0 <= i < members.len() implies exists|q: Parameter| #[trigger]
        table.dom().contains(q) && members[i].0 == decimal(id_of(q) as nat) by {
        let k = lemma_table_member(table, order, i);
        assert(table.dom().contains(order[k]));
    }
    assert forall|q: Parameter| decimal(#[trigger] id_of(q) as nat) == key implies q == p by {
        law_decimal_reads_back(id_of(q) as nat);
        law_decimal_reads_back(id_of(p) as nat);
        law_parameter_ids(p, id_of(p));
        law_parameter_ids(q, id_of(q));
    }
    if table.dom().contains(p) {
        let k: int = match p {
            Parameter::StorageFeeFactor => 0,
            Parameter::SoftForkVotesCollected => 1,
            Parameter::SoftForkStartingHeight => 2,
            Parameter::BlockVersion => 3,
            Parameter::MinValuePerByte => 4,
            Parameter::MaxBlockSize => 5,
            Parameter::MaxBlockCost => 6,
            Parameter::TokenAccessCost => 7,
            Parameter::InputCost => 8,
            Parameter::DataInputCost => 9,
            Parameter::OutputCost => 10,
            Parameter::SubblocksPerBlock => 11,
        };
        assert(order[k] == p);
        let i = lemma_table_place(table, order, k);
        assert forall|j: int| 0 <= j < i implies (#[trigger] members[j]).0 != key by {
            assert(text_before(members[j].0, members[i].0));
            lemma_text_order(members[j].0, members[i].0);
        }
        lemma_lookup_at(members, key, i);
    } else {
        assert forall|j: int| 0 <= j < members.len() implies (#[trigger] members[j]).0 != key by {
            let q = choose|q: Parameter| #[trigger]
                table.dom().contains(q) && members[j].0 == decimal(id_of(q) as nat);
        }
        lemma_lookup_none(members, key);
    }
}

} // verus!
