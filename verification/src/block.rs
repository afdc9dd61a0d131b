//! Entries of the block tier: whether a block is valid on top of a state.
//!
//! An entry is decoded first; what fails there is an error of the setup. Then
//! the block is judged; what fails there is a verdict. Both need work that is
//! done elsewhere: reading transactions, serializing sections, checking the
//! proof of work, applying the block to the state. `run_entry` says, from the
//! entry and the replies that are there so far, which of these comes next, or
//! what the answer is.

use crate::headers::{
    decode_header, decode_headers, fields_result, header_read, headers_read, list_result,
    normalize_header_json, normalize_headers, normalized, normalized_all, HeaderFields, ReadFault,
    ReadFaultView,
};
use crate::hexes::{
    copy_bytes, describe_hex_error, hex_decode, hex_decoded, hex_encode, hex_error_text, hex_text,
    law_hex_reads_back, spells, HexError,
};
use crate::interlinks::{extension_view, same_id};
use crate::json::{
    fields_view, items_view, lemma_lookup_at, lemma_lookup_none, no_fields, object, opt_array,
    opt_str, put, Json, JsonView,
};
use crate::notes::{lemma_panicked, panicked, panicked_view, says_panicked};
use crate::params::{
    block_skipped, block_table, decode_parameters, skipped_ids, skipped_parameters, Parameter,
    ParameterTable,
};
use crate::text::{decimal, decimal_text, join2, join3};
use vstd::prelude::*;
use vstd::utf8::encode_utf8;

verus! {

// ------------------------------------------------------------------ answers

/// The answer to an entry that could not be set up.
pub open spec fn errored_view(reason: Seq<char>) -> JsonView {
    JsonView::Object(
        seq![
            ("valid"@, JsonView::Null),
            ("post_digest"@, JsonView::Null),
            ("cost"@, JsonView::Null),
            ("error"@, JsonView::Text("errored"@)),
            ("reason"@, JsonView::Text(reason)),
        ],
    )
}

/// The verdict that a block is not valid.
pub open spec fn reject_view(reason: Seq<char>) -> JsonView {
    JsonView::Object(
        seq![
            ("valid"@, JsonView::Bool(false)),
            ("post_digest"@, JsonView::Null),
            ("cost"@, JsonView::Null),
            ("error"@, JsonView::Null),
            ("reason"@, JsonView::Text(reason)),
        ],
    )
}

/// The verdict that a block is valid, with the digest of the state behind it.
/// No cost is reported.
pub open spec fn valid_view(post_digest: Seq<u8>) -> JsonView {
    JsonView::Object(
        seq![
            ("valid"@, JsonView::Bool(true)),
            ("post_digest"@, JsonView::Text(hex_text(post_digest))),
            ("cost"@, JsonView::Null),
            ("error"@, JsonView::Null),
        ],
    )
}

/// The answer to an entry that could not be set up.
pub fn errored(reason: &str) -> (r: Json)
    ensures
        r@ == errored_view(reason@),
{
    let mut members: Vec<(String, Json)> = no_fields();
    put(&mut members, "valid", Json::Null);
    put(&mut members, "post_digest", Json::Null);
    put(&mut members, "cost", Json::Null);
    put(&mut members, "error", Json::text("errored"));
    put(&mut members, "reason", Json::text(reason));
    assert(fields_view(members@) =~= errored_view(reason@)->Object_0);
    object(members)
}

/// The verdict that a block is not valid.
pub fn reject(reason: &str) -> (r: Json)
    ensures
        r@ == reject_view(reason@),
{
    let mut members: Vec<(String, Json)> = no_fields();
    put(&mut members, "valid", Json::Bool(false));
    put(&mut members, "post_digest", Json::Null);
    put(&mut members, "cost", Json::Null);
    put(&mut members, "error", Json::Null);
    put(&mut members, "reason", Json::text(reason));
    assert(fields_view(members@) =~= reject_view(reason@)->Object_0);
    object(members)
}

/// The verdict that a block is valid.
fn accept(post_digest: &[u8; 33]) -> (r: Json)
    ensures
        r@ == valid_view(post_digest@),
{
    let mut members: Vec<(String, Json)> = no_fields();
    put(&mut members, "valid", Json::Bool(true));
    put(&mut members, "post_digest", Json::Text(hex_encode(post_digest.as_slice())));
    put(&mut members, "cost", Json::Null);
    put(&mut members, "error", Json::Null);
    assert(fields_view(members@) =~= valid_view(post_digest@)->Object_0);
    object(members)
}

// -------------------------------------------------------------------- parts

/// The digest of the state below the block: 33 bytes.
pub open spec fn parent_digest(entry: JsonView) -> Result<Seq<u8>, Seq<char>> {
    match opt_str(entry.get("parent_digest"@)) {
        None => Err("parent_digest missing"@),
        Some(s) => match hex_decoded(encode_utf8(s)) {
            Err(e) => Err("parent_digest hex: "@ + hex_error_text(e)),
            Ok(bytes) => if bytes.len() == 33 {
                Ok(bytes)
            } else {
                Err("parent_digest is not 33 bytes"@)
            },
        },
    }
}

/// Reads the digest of the state below the block.
fn read_parent_digest(entry: &Json) -> (r: Result<[u8; 33], String>)
    ensures
        (match r {
            Ok(digest) => Ok(digest@),
            Err(e) => Err(e@),
        }) == parent_digest(entry@),
{
    let text: &str = match entry.get("parent_digest") {
        Some(v) => match v.as_str() {
            Some(text) => text,
            None => return Err("parent_digest missing".to_owned()),
        },
        None => return Err("parent_digest missing".to_owned()),
    };
    let bytes: Vec<u8> = match hex_decode(text) {
        Ok(bytes) => bytes,
        Err(e) => return Err(join2("parent_digest hex: ", describe_hex_error(&e).as_str())),
    };
    if bytes.len() != 33 {
        return Err("parent_digest is not 33 bytes".to_owned());
    }
    let mut digest: [u8; 33] = [0; 33];
    let mut i: usize = 0;
    while i < 33
        invariant
            i <= 33,
            bytes@.len() == 33,
            forall|j: int| 0 <= j < i ==> digest@[j] == bytes@[j],
        decreases 33 - i,
    {
        digest[i] = bytes[i];
        i = i + 1;
    }
    assert(digest@ =~= bytes@);
    Ok(digest)
}

/// The proof of the state change that a block brings; none where it is
/// absent, empty or no text.
pub open spec fn proof_bytes(block: JsonView) -> Result<Option<Seq<u8>>, Seq<char>> {
    match opt_str(block.get2("adProofs"@, "proofBytes"@)) {
        Some(s) => if s.len() == 0 {
            Ok(None)
        } else {
            match hex_decoded(encode_utf8(s)) {
                Ok(bytes) => Ok(Some(bytes)),
                Err(e) => Err("proofBytes hex: "@ + hex_error_text(e)),
            }
        },
        None => Ok(None),
    }
}

/// What optional bytes hold.
pub open spec fn opt_bytes(r: Option<Vec<u8>>) -> Option<Seq<u8>> {
    match r {
        Some(bytes) => Some(bytes@),
        None => None,
    }
}

/// Reads the proof of the state change that a block brings.
fn read_proof_bytes(block: &Json) -> (r: Result<Option<Vec<u8>>, String>)
    ensures
        (match r {
            Ok(proof) => Ok(opt_bytes(proof)),
            Err(e) => Err(e@),
        }) == proof_bytes(block@),
{
    match block.get2("adProofs", "proofBytes") {
        Some(v) => match v.as_str() {
            Some(text) => {
                if text.unicode_len() == 0 {
                    return Ok(None);
                }
                match hex_decode(text) {
                    Ok(bytes) => Ok(Some(bytes)),
                    Err(e) => Err(join2("proofBytes hex: ", describe_hex_error(&e).as_str())),
                }
            },
            None => Ok(None),
        },
        None => Ok(None),
    }
}

/// One field of a block extension: a key of two bytes and a value.
pub open spec fn extension_field(i: nat, kv: JsonView) -> Result<(Seq<u8>, Seq<u8>), Seq<char>> {
    let at = "extension field "@ + decimal(i);
    match opt_str(kv.item(0)) {
        None => Err(at + ": key"@),
        Some(key_hex) => match opt_str(kv.item(1)) {
            None => Err(at + ": value"@),
            Some(val_hex) => match hex_decoded(encode_utf8(key_hex)) {
                Err(e) => Err(at + " key hex: "@ + hex_error_text(e)),
                Ok(key) => if key.len() != 2 {
                    Err(at + ": key is not 2 bytes"@)
                } else {
                    match hex_decoded(encode_utf8(val_hex)) {
                        Err(e) => Err(at + " value hex: "@ + hex_error_text(e)),
                        Ok(val) => Ok((key, val)),
                    }
                },
            },
        },
    }
}

/// The fields of an extension: the first that cannot be read decides the
/// error.
pub open spec fn fields_of(items: Seq<JsonView>) -> Result<Seq<(Seq<u8>, Seq<u8>)>, Seq<char>>
    decreases items.len(),
{
    if items.len() == 0 {
        Ok(Seq::empty())
    } else {
        match fields_of(items.drop_last()) {
            Err(e) => Err(e),
            Ok(before) => match extension_field((items.len() - 1) as nat, items.last()) {
                Err(e) => Err(e),
                Ok(field) => Ok(before.push(field)),
            },
        }
    }
}

/// The fields of a block's extension.
pub open spec fn extension_fields(block: JsonView) -> Result<
    Seq<(Seq<u8>, Seq<u8>)>,
    Seq<char>,
> {
    match opt_array(block.get2("extension"@, "fields"@)) {
        None => Err("block.extension.fields missing"@),
        Some(items) => fields_of(items),
    }
}

/// The text at an index, where there is one.
fn text_at(doc: &Json, i: usize) -> (r: Option<&str>)
    ensures
        (match r {
            Some(s) => Some(s@),
            None => None,
        }) == opt_str(doc@.item(i as int)),
{
    match doc.item(i) {
        Some(v) => v.as_str(),
        None => None,
    }
}

/// Reads one field of a block extension.
fn read_field(i: usize, kv: &Json) -> (r: Result<([u8; 2], Vec<u8>), String>)
    ensures
        (match r {
            Ok(field) => Ok((field.0@, field.1@)),
            Err(e) => Err(e@),
        }) == extension_field(i as nat, kv@),
{
    let at: String = join2("extension field ", decimal_text(i as u128).as_str());
    let key_hex: &str = match text_at(kv, 0) {
        Some(text) => text,
        None => return Err(join2(at.as_str(), ": key")),
    };
    let val_hex: &str = match text_at(kv, 1) {
        Some(text) => text,
        None => return Err(join2(at.as_str(), ": value")),
    };
    let key: Vec<u8> = match hex_decode(key_hex) {
        Ok(key) => key,
        Err(e) => return Err(
            join3(at.as_str(), " key hex: ", describe_hex_error(&e).as_str()),
        ),
    };
    if key.len() != 2 {
        return Err(join2(at.as_str(), ": key is not 2 bytes"));
    }
    match hex_decode(val_hex) {
        Ok(val) => {
            let short: [u8; 2] = [key[0], key[1]];
            assert(short@ =~= key@);
            Ok((short, val))
        },
        Err(e) => Err(join3(at.as_str(), " value hex: ", describe_hex_error(&e).as_str())),
    }
}

/// An error stays the outcome whatever fields follow.
proof fn lemma_fields_error(items: Seq<JsonView>, n: int)
    requires
        0 <= n <= items.len(),
        fields_of(items.take(n)) is Err,
    ensures
        fields_of(items) == fields_of(items.take(n)),
    decreases items.len(),
{
    if n < items.len() {
        assert(items.drop_last().take(n) =~= items.take(n));
        lemma_fields_error(items.drop_last(), n);
    } else {
        assert(items.take(n) =~= items);
    }
}

/// Reads the fields of a block's extension.
fn read_extension(block: &Json) -> (r: Result<Vec<([u8; 2], Vec<u8>)>, String>)
    ensures
        (match r {
            Ok(fields) => Ok(extension_view(fields@)),
            Err(e) => Err(e@),
        }) == extension_fields(block@),
{
    let items: &Vec<Json> = match block.get2("extension", "fields") {
        Some(v) => match v.as_array() {
            Some(items) => items,
            None => return Err("block.extension.fields missing".to_owned()),
        },
        None => return Err("block.extension.fields missing".to_owned()),
    };
    let ghost view = items_view(items@);
    let mut out: Vec<([u8; 2], Vec<u8>)> = Vec::new();
    let mut i: usize = 0;
    assert(view.take(0) =~= Seq::empty());
    assert(extension_view(out@) =~= Seq::empty());
    while i < items.len()
        invariant
            i <= items@.len(),
            view == items_view(items@),
            opt_array(block@.get2("extension"@, "fields"@)) == Some(view),
            fields_of(view.take(i as int)) == Ok::<Seq<(Seq<u8>, Seq<u8>)>, Seq<char>>(
                extension_view(out@),
            ),
        decreases items@.len() - i,
    {
        assert(view.take(i + 1).drop_last() =~= view.take(i as int));
        assert(view.take(i + 1).last() == view[i as int]);
        match read_field(i, &items[i]) {
            Ok(field) => {
                let ghost before = out@;
                out.push(field);
                assert(extension_view(out@) =~= extension_view(before).push((field.0@, field.1@)));
            },
            Err(e) => {
                proof {
                    lemma_fields_error(view, i + 1);
                }
                return Err(e);
            },
        }
        i = i + 1;
    }
    assert(view.take(i as int) =~= view);
    Ok(out)
}

// -------------------------------------------------------------------- steps

/// The replies of the work that is done elsewhere, as far as they are there.
/// An error is the text in which it is reported.
pub struct BlockReplies {
    /// The transactions were read.
    pub transactions: Option<Result<(), String>>,
    /// The serialized section of the transactions.
    pub transactions_section: Option<Result<Vec<u8>, String>>,
    /// The serialized section of the proof.
    pub proofs_section: Option<Vec<u8>>,
    /// The serialized section of the extension.
    pub extension_section: Option<Result<Vec<u8>, String>>,
    /// The proof of work of the header was checked.
    pub pow: Option<Result<(), String>>,
    /// The root hash of the transactions was computed.
    pub root: Option<Result<[u8; 32], String>>,
    /// The extension section was parsed: the rules that it disables, as bytes.
    pub extension: Option<Result<Vec<u8>, String>>,
    /// The block was applied to the state: the digest behind it.
    pub applied: Option<Result<[u8; 33], String>>,
}

impl BlockReplies {
    /// No reply yet.
    pub fn none() -> (r: BlockReplies)
        ensures
            r == no_replies(),
    {
        BlockReplies {
            transactions: None,
            transactions_section: None,
            proofs_section: None,
            extension_section: None,
            pow: None,
            root: None,
            extension: None,
            applied: None,
        }
    }
}

/// No reply yet.
pub open spec fn no_replies() -> BlockReplies {
    BlockReplies {
        transactions: None,
        transactions_section: None,
        proofs_section: None,
        extension_section: None,
        pow: None,
        root: None,
        extension: None,
        applied: None,
    }
}

/// What comes next for an entry.
#[derive(Debug, PartialEq, Eq)]
pub enum BlockStep {
    /// The answer.
    Done(Json),
    /// Read the transactions from their JSON form.
    DecodeTransactions(Json),
    /// Serialize the section of the transactions.
    SerializeTransactions { header_id: [u8; 32], block_version: u32 },
    /// Serialize the section of the proof.
    SerializeProofs { header_id: [u8; 32], proof_bytes: Vec<u8> },
    /// Serialize the section of the extension.
    SerializeExtension { header_id: [u8; 32], fields: Vec<([u8; 2], Vec<u8>)> },
    /// Check the proof of work of the header, which is in its JSON form.
    VerifyPow(Json),
    /// Compute the root hash of the transactions.
    TransactionsRoot { version: u8 },
    /// Parse an extension section, and take the rules that it disables.
    ParseExtension(Vec<u8>),
    /// Apply the block of the given header and sections, behind the window of
    /// preceding headers, to the state that has the given digest and height;
    /// the headers are in their JSON form. At a boundary there are parameters
    /// and an update that are expected.
    Apply {
        header: Json,
        window: Json,
        transactions_section: Vec<u8>,
        proofs_section: Option<Vec<u8>>,
        extension_section: Vec<u8>,
        parent_digest: [u8; 33],
        anchor_height: u32,
        checkpoint: u32,
        parameters: ParameterTable,
        expected_boundary: Option<ParameterTable>,
        expected_update: Option<Vec<u8>>,
    },
}

/// What comes next for an entry.
pub ghost enum BlockStepView {
    Done(JsonView),
    DecodeTransactions(JsonView),
    SerializeTransactions { header_id: Seq<u8>, block_version: u32 },
    SerializeProofs { header_id: Seq<u8>, proof_bytes: Seq<u8> },
    SerializeExtension { header_id: Seq<u8>, fields: Seq<(Seq<u8>, Seq<u8>)> },
    VerifyPow(JsonView),
    TransactionsRoot { version: u8 },
    ParseExtension(Seq<u8>),
    Apply {
        header: JsonView,
        window: JsonView,
        transactions_section: Seq<u8>,
        proofs_section: Option<Seq<u8>>,
        extension_section: Seq<u8>,
        parent_digest: Seq<u8>,
        anchor_height: int,
        checkpoint: int,
        parameters: Map<Parameter, i32>,
        expected_boundary: Option<Map<Parameter, i32>>,
        expected_update: Option<Seq<u8>>,
    },
}

impl View for BlockStep {
    type V = BlockStepView;

    open spec fn view(&self) -> BlockStepView {
        match self {
            BlockStep::Done(answer) => BlockStepView::Done(answer@),
            BlockStep::DecodeTransactions(txs) => BlockStepView::DecodeTransactions(txs@),
            BlockStep::SerializeTransactions {
                header_id,
                block_version,
            } => BlockStepView::SerializeTransactions {
                header_id: header_id@,
                block_version: *block_version,
            },
            BlockStep::SerializeProofs {
                header_id,
                proof_bytes,
            } => BlockStepView::SerializeProofs {
                header_id: header_id@,
                proof_bytes: proof_bytes@,
            },
            BlockStep::SerializeExtension {
                header_id,
                fields,
            } => BlockStepView::SerializeExtension {
                header_id: header_id@,
                fields: extension_view(fields@),
            },
            BlockStep::VerifyPow(header) => BlockStepView::VerifyPow(header@),
            BlockStep::TransactionsRoot { version } => BlockStepView::TransactionsRoot {
                version: *version,
            },
            BlockStep::ParseExtension(section) => BlockStepView::ParseExtension(section@),
            BlockStep::Apply {
                header,
                window,
                transactions_section,
                proofs_section,
                extension_section,
                parent_digest,
                anchor_height,
                checkpoint,
                parameters,
                expected_boundary,
                expected_update,
            } => BlockStepView::Apply {
                header: header@,
                window: window@,
                transactions_section: transactions_section@,
                proofs_section: opt_bytes(*proofs_section),
                extension_section: extension_section@,
                parent_digest: parent_digest@,
                anchor_height: *anchor_height as int,
                checkpoint: *checkpoint as int,
                parameters: parameters@,
                expected_boundary: match expected_boundary {
                    Some(table) => Some(table@),
                    None => None,
                },
                expected_update: opt_bytes(*expected_update),
            },
        }
    }
}

/// What is decoded of an entry before its sections.
pub struct EntrySetup {
    pub parent_digest: [u8; 33],
    pub header: HeaderFields,
    /// The header in its JSON form.
    pub header_json: Json,
    /// The preceding headers in their JSON form.
    pub window_json: Json,
    pub parameters: ParameterTable,
}

/// What is decoded of an entry before its sections.
pub ghost struct EntrySetupView {
    pub parent_digest: Seq<u8>,
    pub header: HeaderFields,
    pub header_json: JsonView,
    pub window_json: JsonView,
    pub parameters: Map<Parameter, i32>,
}

impl View for EntrySetup {
    type V = EntrySetupView;

    open spec fn view(&self) -> EntrySetupView {
        EntrySetupView {
            parent_digest: self.parent_digest@,
            header: self.header,
            header_json: self.header_json@,
            window_json: self.window_json@,
            parameters: self.parameters@,
        }
    }
}

/// What decoding an entry gives.
#[derive(Debug, PartialEq, Eq)]
pub struct EntryInput {
    pub parent_digest: [u8; 33],
    pub header: HeaderFields,
    /// The header in its JSON form.
    pub header_json: Json,
    /// The preceding headers in their JSON form.
    pub window_json: Json,
    pub parameters: ParameterTable,
    pub transactions_section: Vec<u8>,
    pub proofs_section: Option<Vec<u8>>,
    pub extension_section: Vec<u8>,
}

/// What decoding an entry gives.
pub ghost struct EntryInputView {
    pub parent_digest: Seq<u8>,
    pub header: HeaderFields,
    pub header_json: JsonView,
    pub window_json: JsonView,
    pub parameters: Map<Parameter, i32>,
    pub transactions_section: Seq<u8>,
    pub proofs_section: Option<Seq<u8>>,
    pub extension_section: Seq<u8>,
}

impl View for EntryInput {
    type V = EntryInputView;

    open spec fn view(&self) -> EntryInputView {
        EntryInputView {
            parent_digest: self.parent_digest@,
            header: self.header,
            header_json: self.header_json@,
            window_json: self.window_json@,
            parameters: self.parameters@,
            transactions_section: self.transactions_section@,
            proofs_section: opt_bytes(self.proofs_section),
            extension_section: self.extension_section@,
        }
    }
}

/// What is decoded of an entry with its header.
pub struct BlockParts {
    pub parent_digest: [u8; 33],
    pub header: HeaderFields,
    pub header_json: Json,
}

/// What is decoded of an entry with its header.
pub ghost struct BlockView {
    pub parent_digest: Seq<u8>,
    pub header: HeaderFields,
    pub header_json: JsonView,
}

impl View for BlockParts {
    type V = BlockView;

    open spec fn view(&self) -> BlockView {
        BlockView {
            parent_digest: self.parent_digest@,
            header: self.header,
            header_json: self.header_json@,
        }
    }
}

/// Where decoding an entry stands.
#[derive(Debug, PartialEq, Eq)]
pub enum DecodePhase {
    /// Something is to be done first.
    Ask(BlockStep),
    /// The entry cannot be set up, for the reason given.
    Errored(String),
    /// The work broke off, with a note.
    Broken(String),
    /// The entry is decoded.
    Ready(EntryInput),
}

/// Where decoding an entry stands.
pub ghost enum DecodePhaseView {
    Ask(BlockStepView),
    Errored(Seq<char>),
    Broken(Seq<char>),
    Ready(EntryInputView),
}

impl View for DecodePhase {
    type V = DecodePhaseView;

    open spec fn view(&self) -> DecodePhaseView {
        match self {
            DecodePhase::Ask(step) => DecodePhaseView::Ask(step@),
            DecodePhase::Errored(reason) => DecodePhaseView::Errored(reason@),
            DecodePhase::Broken(note) => DecodePhaseView::Broken(note@),
            DecodePhase::Ready(input) => DecodePhaseView::Ready(input@),
        }
    }
}

/// Decoding from the extension on, behind the sections of the transactions and
/// of the proof, where there is one.
pub open spec fn extension_phase(
    block: JsonView,
    replies: BlockReplies,
    setup: EntrySetupView,
    transactions_section: Seq<u8>,
    proofs_section: Option<Seq<u8>>,
) -> DecodePhaseView {
    match extension_fields(block) {
        Err(e) => DecodePhaseView::Errored(e),
        Ok(fields) => match replies.extension_section {
            None => DecodePhaseView::Ask(
                BlockStepView::SerializeExtension { header_id: setup.header.id@, fields },
            ),
            Some(Err(e)) => DecodePhaseView::Errored("extension serialize: "@ + e@),
            Some(Ok(section)) => DecodePhaseView::Ready(
                EntryInputView {
                    parent_digest: setup.parent_digest,
                    header: setup.header,
                    header_json: setup.header_json,
                    window_json: setup.window_json,
                    parameters: setup.parameters,
                    transactions_section,
                    proofs_section,
                    extension_section: section@,
                },
            ),
        },
    }
}

/// Decoding from the proof on, behind the section of the transactions. A block
/// without a proof has no section of it.
pub open spec fn proofs_phase(
    block: JsonView,
    replies: BlockReplies,
    setup: EntrySetupView,
    transactions_section: Seq<u8>,
) -> DecodePhaseView {
    match proof_bytes(block) {
        Err(e) => DecodePhaseView::Errored(e),
        Ok(None) => extension_phase(block, replies, setup, transactions_section, None),
        Ok(Some(proof_bytes)) => match replies.proofs_section {
            None => DecodePhaseView::Ask(
                BlockStepView::SerializeProofs { header_id: setup.header.id@, proof_bytes },
            ),
            Some(section) => extension_phase(
                block,
                replies,
                setup,
                transactions_section,
                Some(section@),
            ),
        },
    }
}

/// Decoding from the transactions on.
pub open spec fn transactions_phase(
    entry: JsonView,
    replies: BlockReplies,
    setup: EntrySetupView,
) -> DecodePhaseView {
    match entry.get("block"@) {
        None => DecodePhaseView::Errored("block missing"@),
        Some(block) => match block.get2("blockTransactions"@, "transactions"@) {
            None => DecodePhaseView::Errored("block.blockTransactions.transactions missing"@),
            Some(txs) => match replies.transactions {
                None => DecodePhaseView::Ask(BlockStepView::DecodeTransactions(txs)),
                Some(Err(e)) => DecodePhaseView::Errored("transactions decode: "@ + e@),
                Some(Ok(_)) => match replies.transactions_section {
                    None => DecodePhaseView::Ask(
                        BlockStepView::SerializeTransactions {
                            header_id: setup.header.id@,
                            block_version: setup.header.version as u32,
                        },
                    ),
                    Some(Err(e)) => DecodePhaseView::Errored(
                        "blockTransactions serialize: "@ + e@,
                    ),
                    Some(Ok(section)) => proofs_phase(block, replies, setup, section@),
                },
            },
        },
    }
}

/// Decoding from the preceding headers on, by what they read as.
pub open spec fn window_phase(
    entry: JsonView,
    replies: BlockReplies,
    block: BlockView,
    window_json: JsonView,
    window: Result<Seq<HeaderFields>, ReadFaultView>,
) -> DecodePhaseView {
    match window {
        Err(ReadFaultView::Broken(note)) => DecodePhaseView::Broken(note),
        Err(ReadFaultView::Undecodable(e)) => DecodePhaseView::Errored("headers decode: "@ + e),
        Ok(headers) => if headers.len() == 0 {
            DecodePhaseView::Errored("headers window is empty"@)
        } else {
            match block_table(entry) {
                Err(e) => DecodePhaseView::Errored(e),
                Ok(parameters) => transactions_phase(
                    entry,
                    replies,
                    EntrySetupView {
                        parent_digest: block.parent_digest,
                        header: block.header,
                        header_json: block.header_json,
                        window_json,
                        parameters,
                    },
                ),
            }
        },
    }
}

/// Decoding from the header on, by what it reads as.
pub open spec fn header_phase(
    entry: JsonView,
    replies: BlockReplies,
    parent_digest: Seq<u8>,
    header_json: JsonView,
    header: Result<HeaderFields, ReadFaultView>,
) -> DecodePhaseView {
    match header {
        Err(ReadFaultView::Broken(note)) => DecodePhaseView::Broken(note),
        Err(ReadFaultView::Undecodable(e)) => DecodePhaseView::Errored(
            "block.header decode: "@ + e,
        ),
        Ok(header) => if header.height == 0 {
            DecodePhaseView::Errored("header.height is 0 \u{2014} no parent state to anchor"@)
        } else {
            match entry.get("headers"@) {
                None => DecodePhaseView::Errored("headers missing"@),
                Some(headers) => window_phase(
                    entry,
                    replies,
                    BlockView { parent_digest, header, header_json },
                    normalized_all(headers),
                    headers_read(normalized_all(headers)),
                ),
            }
        },
    }
}

/// Where decoding an entry stands with the replies that are there.
pub open spec fn decode_phase(entry: JsonView, replies: BlockReplies) -> DecodePhaseView {
    match parent_digest(entry) {
        Err(e) => DecodePhaseView::Errored(e),
        Ok(parent_digest) => match entry.get2("block"@, "header"@) {
            None => DecodePhaseView::Errored("block.header missing"@),
            Some(header) => header_phase(
                entry,
                replies,
                parent_digest,
                normalized(header),
                header_read(normalized(header)),
            ),
        },
    }
}

/// Decodes from the extension on, behind the sections of the transactions and
/// of the proof, where there is one.
fn decode_extension(
    block: &Json,
    replies: &BlockReplies,
    setup: EntrySetup,
    transactions_section: &Vec<u8>,
    proofs_section: Option<Vec<u8>>,
) -> (r: DecodePhase)
    ensures
        r@ == extension_phase(
            block@,
            *replies,
            setup@,
            transactions_section@,
            opt_bytes(proofs_section),
        ),
{
    let fields: Vec<([u8; 2], Vec<u8>)> = match read_extension(block) {
        Ok(fields) => fields,
        Err(e) => return DecodePhase::Errored(e),
    };
    match &replies.extension_section {
        None => DecodePhase::Ask(
            BlockStep::SerializeExtension { header_id: setup.header.id, fields },
        ),
        Some(Err(e)) => DecodePhase::Errored(join2("extension serialize: ", e.as_str())),
        Some(Ok(section)) => DecodePhase::Ready(
            EntryInput {
                parent_digest: setup.parent_digest,
                header: setup.header,
                header_json: setup.header_json,
                window_json: setup.window_json,
                parameters: setup.parameters,
                transactions_section: copy_bytes(transactions_section),
                proofs_section,
                extension_section: copy_bytes(section),
            },
        ),
    }
}

/// Decodes from the proof on, behind the section of the transactions.
fn decode_proofs(
    block: &Json,
    replies: &BlockReplies,
    setup: EntrySetup,
    transactions_section: &Vec<u8>,
) -> (r: DecodePhase)
    ensures
        r@ == proofs_phase(block@, *replies, setup@, transactions_section@),
{
    match read_proof_bytes(block) {
        Err(e) => DecodePhase::Errored(e),
        Ok(None) => decode_extension(block, replies, setup, transactions_section, None),
        Ok(Some(proof_bytes)) => match &replies.proofs_section {
            None => DecodePhase::Ask(
                BlockStep::SerializeProofs { header_id: setup.header.id, proof_bytes },
            ),
            Some(section) => decode_extension(
                block,
                replies,
                setup,
                transactions_section,
                Some(copy_bytes(section)),
            ),
        },
    }
}

/// Decodes from the transactions on.
fn decode_transactions(entry: &Json, replies: &BlockReplies, setup: EntrySetup) -> (r: DecodePhase)
    ensures
        r@ == transactions_phase(entry@, *replies, setup@),
{
    let block: &Json = match entry.get("block") {
        Some(block) => block,
        None => return DecodePhase::Errored("block missing".to_owned()),
    };
    let txs: &Json = match block.get2("blockTransactions", "transactions") {
        Some(txs) => txs,
        None => return DecodePhase::Errored(
            "block.blockTransactions.transactions missing".to_owned(),
        ),
    };
    match &replies.transactions {
        None => return DecodePhase::Ask(BlockStep::DecodeTransactions(txs.duplicate())),
        Some(Err(e)) => return DecodePhase::Errored(join2("transactions decode: ", e.as_str())),
        Some(Ok(_)) => {},
    }
    match &replies.transactions_section {
        None => DecodePhase::Ask(
            BlockStep::SerializeTransactions {
                header_id: setup.header.id,
                block_version: setup.header.version as u32,
            },
        ),
        Some(Err(e)) => DecodePhase::Errored(join2("blockTransactions serialize: ", e.as_str())),
        Some(Ok(section)) => decode_proofs(block, replies, setup, section),
    }
}

/// Decodes from the preceding headers on, by what they read as.
pub fn decode_window(
    entry: &Json,
    replies: &BlockReplies,
    block: BlockParts,
    window_json: Json,
    window: &Result<Vec<HeaderFields>, ReadFault>,
) -> (r: DecodePhase)
    ensures
        r@ == window_phase(entry@, *replies, block@, window_json@, list_result(*window)),
{
    match window {
        Err(ReadFault::Broken(note)) => return DecodePhase::Broken(note.clone()),
        Err(ReadFault::Undecodable(e)) => return DecodePhase::Errored(
            join2("headers decode: ", e.as_str()),
        ),
        Ok(headers) => if headers.len() == 0 {
            return DecodePhase::Errored("headers window is empty".to_owned());
        },
    }
    match decode_parameters(entry) {
        Ok(parameters) => decode_transactions(
            entry,
            replies,
            EntrySetup {
                parent_digest: block.parent_digest,
                header: block.header,
                header_json: block.header_json,
                window_json,
                parameters,
            },
        ),
        Err(e) => DecodePhase::Errored(e),
    }
}

/// Decodes from the header on, by what it reads as.
pub fn decode_from_header(
    entry: &Json,
    replies: &BlockReplies,
    parent_digest: [u8; 33],
    header_json: Json,
    header: &Result<HeaderFields, ReadFault>,
) -> (r: DecodePhase)
    ensures
        r@ == header_phase(
            entry@,
            *replies,
            parent_digest@,
            header_json@,
            fields_result(*header),
        ),
{
    let header: HeaderFields = match header {
        Ok(fields) => *fields,
        Err(ReadFault::Broken(note)) => return DecodePhase::Broken(note.clone()),
        Err(ReadFault::Undecodable(e)) => return DecodePhase::Errored(
            join2("block.header decode: ", e.as_str()),
        ),
    };
    if header.height == 0 {
        return DecodePhase::Errored(
            "header.height is 0 \u{2014} no parent state to anchor".to_owned(),
        );
    }
    let window_json: Json = match entry.get("headers") {
        Some(headers) => normalize_headers(headers),
        None => return DecodePhase::Errored("headers missing".to_owned()),
    };
    let window: Result<Vec<HeaderFields>, ReadFault> = decode_headers(&window_json);
    decode_window(
        entry,
        replies,
        BlockParts { parent_digest, header, header_json },
        window_json,
        &window,
    )
}

/// Decodes an entry with the replies that are there. Failures are errors of
/// the setup, not verdicts.
pub fn decode_entry(entry: &Json, replies: &BlockReplies) -> (r: DecodePhase)
    ensures
        r@ == decode_phase(entry@, *replies),
{
    let parent_digest: [u8; 33] = match read_parent_digest(entry) {
        Ok(digest) => digest,
        Err(e) => return DecodePhase::Errored(e),
    };
    let mut header_json: Json = match entry.get2("block", "header") {
        Some(header) => header.duplicate(),
        None => return DecodePhase::Errored("block.header missing".to_owned()),
    };
    normalize_header_json(&mut header_json);
    let header: Result<HeaderFields, ReadFault> = decode_header(&header_json);
    decode_from_header(entry, replies, parent_digest, header_json, &header)
}

/// Whether decoding an entry gets as far as the table of parameters.
pub open spec fn reaches_table(entry: JsonView) -> bool {
    &&& parent_digest(entry) is Ok
    &&& entry.get2("block"@, "header"@) matches Some(header) && (header_read(
        normalized(header),
    ) matches Ok(fields) && fields.height != 0)
    &&& entry.get("headers"@) matches Some(headers) && (headers_read(
        normalized_all(headers),
    ) matches Ok(list) && list.len() > 0)
}

/// Whether decoding an entry gets as far as the table of parameters.
fn is_table_reached(entry: &Json) -> (r: bool)
    ensures
        r == reaches_table(entry@),
{
    if read_parent_digest(entry).is_err() {
        return false;
    }
    let mut header: Json = match entry.get2("block", "header") {
        Some(header) => header.duplicate(),
        None => return false,
    };
    normalize_header_json(&mut header);
    match decode_header(&header) {
        Ok(fields) => if fields.height == 0 {
            return false;
        },
        Err(_) => return false,
    }
    match entry.get("headers") {
        Some(headers) => match decode_headers(&normalize_headers(headers)) {
            Ok(list) => list.len() > 0,
            Err(_) => false,
        },
        None => false,
    }
}

/// The ids of parameters that are passed over where an entry is decoded, in
/// their order; none where decoding fails before the table.
pub open spec fn ids_passed_over(entry: JsonView) -> Seq<i32> {
    if reaches_table(entry) {
        block_skipped(entry)
    } else {
        Seq::empty()
    }
}

/// The ids of parameters that are passed over where an entry is decoded, in
/// their order; none where decoding fails before the table.
pub fn passed_over_ids(entry: &Json) -> (r: Vec<i32>)
    ensures
        r@ == ids_passed_over(entry@),
{
    if is_table_reached(entry) {
        skipped_parameters(entry)
    } else {
        Vec::new()
    }
}

// ------------------------------------------------------------------ verdict

/// The number of blocks between two epoch boundaries.
pub const VOTING_LENGTH: u32 = 128;

/// The verdict from the application of the block on. At a boundary the rules
/// that the block's own extension disables are expected, and the handed
/// parameters; elsewhere nothing is.
pub open spec fn apply_step(
    input: EntryInputView,
    replies: BlockReplies,
    expected_update: Option<Seq<u8>>,
) -> BlockStepView {
    match replies.applied {
        None => BlockStepView::Apply {
            header: input.header_json,
            window: input.window_json,
            transactions_section: input.transactions_section,
            proofs_section: input.proofs_section,
            extension_section: input.extension_section,
            parent_digest: input.parent_digest,
            anchor_height: input.header.height - 1,
            checkpoint: 0,
            parameters: input.parameters,
            expected_boundary: if expected_update is Some {
                Some(input.parameters)
            } else {
                None
            },
            expected_update,
        },
        Some(Err(e)) => BlockStepView::Done(reject_view(e@)),
        Some(Ok(digest)) => BlockStepView::Done(valid_view(digest@)),
    }
}

/// What comes next for a decoded entry: the proof of work, then the root hash
/// of the transactions, at an epoch boundary the extension, and the
/// application to the state.
pub open spec fn verdict_step(input: EntryInputView, replies: BlockReplies) -> BlockStepView {
    match replies.pow {
        None => BlockStepView::VerifyPow(input.header_json),
        Some(Err(e)) => BlockStepView::Done(reject_view("hdrPoW: "@ + e@)),
        Some(Ok(_)) => match replies.root {
            None => BlockStepView::TransactionsRoot { version: input.header.version },
            Some(Err(e)) => BlockStepView::Done(
                reject_view("bsCorrespondsToHeader: transactionsRoot: "@ + e@),
            ),
            Some(Ok(root)) => if root@ != input.header.transaction_root@ {
                BlockStepView::Done(
                    reject_view(
                        "bsCorrespondsToHeader: transactionsRoot "@ + hex_text(root@)
                            + " != header "@ + hex_text(input.header.transaction_root@),
                    ),
                )
            } else if input.header.height % VOTING_LENGTH == 0 {
                match replies.extension {
                    None => BlockStepView::ParseExtension(input.extension_section),
                    Some(Err(e)) => BlockStepView::Done(reject_view("extension parse: "@ + e@)),
                    Some(Ok(rules)) => apply_step(input, replies, Some(rules@)),
                }
            } else {
                apply_step(input, replies, None)
            },
        },
    }
}

/// What comes next for an entry with the replies that are there.
pub open spec fn block_step(entry: JsonView, replies: BlockReplies) -> BlockStepView {
    match decode_phase(entry, replies) {
        DecodePhaseView::Ask(step) => step,
        DecodePhaseView::Errored(reason) => BlockStepView::Done(errored_view(reason)),
        DecodePhaseView::Broken(note) => BlockStepView::Done(panicked_view(note)),
        DecodePhaseView::Ready(input) => verdict_step(input, replies),
    }
}

/// Judges from the application of the block on.
fn judge_applied(
    input: EntryInput,
    replies: &BlockReplies,
    expected_update: Option<Vec<u8>>,
) -> (r: BlockStep)
    requires
        input.header.height > 0,
    ensures
        r@ == apply_step(input@, *replies, opt_bytes(expected_update)),
{
    match &replies.applied {
        None => BlockStep::Apply {
            header: input.header_json,
            window: input.window_json,
            transactions_section: input.transactions_section,
            proofs_section: input.proofs_section,
            extension_section: input.extension_section,
            parent_digest: input.parent_digest,
            anchor_height: input.header.height - 1,
            checkpoint: 0,
            parameters: input.parameters,
            expected_boundary: if expected_update.is_some() {
                Some(input.parameters)
            } else {
                None
            },
            expected_update,
        },
        Some(Err(e)) => BlockStep::Done(reject(e.as_str())),
        Some(Ok(digest)) => BlockStep::Done(accept(digest)),
    }
}

/// Judges a decoded entry.
fn judge(input: EntryInput, replies: &BlockReplies) -> (r: BlockStep)
    requires
        input.header.height > 0,
    ensures
        r@ == verdict_step(input@, *replies),
{
    match &replies.pow {
        None => return BlockStep::VerifyPow(input.header_json),
        Some(Err(e)) => return BlockStep::Done(reject(join2("hdrPoW: ", e.as_str()).as_str())),
        Some(Ok(_)) => {},
    }
    match &replies.root {
        None => return BlockStep::TransactionsRoot { version: input.header.version },
        Some(Err(e)) => return BlockStep::Done(
            reject(join2("bsCorrespondsToHeader: transactionsRoot: ", e.as_str()).as_str()),
        ),
        Some(Ok(root)) => if !same_id(root, &input.header.transaction_root) {
            let head: String = join3(
                "bsCorrespondsToHeader: transactionsRoot ",
                hex_encode(root.as_slice()).as_str(),
                " != header ",
            );
            let tail: String = hex_encode(input.header.transaction_root.as_slice());
            return BlockStep::Done(reject(join2(head.as_str(), tail.as_str()).as_str()));
        },
    }
    if input.header.height % VOTING_LENGTH == 0 {
        match &replies.extension {
            None => BlockStep::ParseExtension(input.extension_section),
            Some(Err(e)) => BlockStep::Done(
                reject(join2("extension parse: ", e.as_str()).as_str()),
            ),
            Some(Ok(rules)) => judge_applied(input, replies, Some(copy_bytes(rules))),
        }
    } else {
        judge_applied(input, replies, None)
    }
}

/// Says what comes next for an entry with the replies that are there: the
/// answer, or the work whose reply is needed.
pub fn run_entry(entry: &Json, replies: &BlockReplies) -> (r: BlockStep)
    ensures
        r@ == block_step(entry@, *replies),
{
    match decode_entry(entry, replies) {
        DecodePhase::Ask(step) => step,
        DecodePhase::Errored(reason) => BlockStep::Done(errored(reason.as_str())),
        DecodePhase::Broken(note) => BlockStep::Done(panicked(note.as_str())),
        DecodePhase::Ready(input) => judge(input, replies),
    }
}

// --------------------------------------------------------------------- laws

/// What an entry expects has no part in what becomes of it: two entries that
/// agree on every other member go through the same steps to the same answer.
pub proof fn law_expectation_unread(a: JsonView, b: JsonView, replies: BlockReplies)
    requires
        forall|key: Seq<char>| key != "expected"@ ==> #[trigger] a.get(key) == b.get(key),
    ensures
        block_step(a, replies) == block_step(b, replies),
{
    reveal_strlit("expected");
    reveal_strlit("parent_digest");
    reveal_strlit("block");
    reveal_strlit("headers");
    reveal_strlit("parameters");
    assert("parent_digest"@.len() == 13 && "block"@.len() == 5 && "headers"@.len() == 7
        && "parameters"@.len() == 10 && "expected"@.len() == 8);
    assert(a.get("parent_digest"@) == b.get("parent_digest"@));
    assert(a.get("block"@) == b.get("block"@));
    assert(a.get("headers"@) == b.get("headers"@));
    assert(a.get("parameters"@) == b.get("parameters"@));
}

/// Whether a reply that was there is still there.
pub open spec fn kept<T>(before: Option<T>, after: Option<T>) -> bool {
    before is Some ==> after == before
}

/// Whether all replies that were there are still there.
pub open spec fn extends(before: BlockReplies, after: BlockReplies) -> bool {
    &&& kept(before.transactions, after.transactions)
    &&& kept(before.transactions_section, after.transactions_section)
    &&& kept(before.proofs_section, after.proofs_section)
    &&& kept(before.extension_section, after.extension_section)
    &&& kept(before.pow, after.pow)
    &&& kept(before.root, after.root)
    &&& kept(before.extension, after.extension)
    &&& kept(before.applied, after.applied)
}

/// An answer stands whatever replies come after it.
pub proof fn law_answer_stands(entry: JsonView, before: BlockReplies, after: BlockReplies)
    requires
        block_step(entry, before) is Done,
        extends(before, after),
    ensures
        block_step(entry, after) == block_step(entry, before),
{
}

/// A step is asked for only as long as its reply is missing, so an entry is
/// answered once every reply is there, after eight of them at the latest.
pub proof fn law_steps_end(entry: JsonView, replies: BlockReplies)
    ensures
        match block_step(entry, replies) {
            BlockStepView::Done(_) => true,
            BlockStepView::DecodeTransactions(_) => replies.transactions is None,
            BlockStepView::SerializeTransactions { .. } => replies.transactions_section is None,
            BlockStepView::SerializeProofs { .. } => replies.proofs_section is None,
            BlockStepView::SerializeExtension { .. } => replies.extension_section is None,
            BlockStepView::VerifyPow(_) => replies.pow is None,
            BlockStepView::TransactionsRoot { .. } => replies.root is None,
            BlockStepView::ParseExtension(_) => replies.extension is None,
            BlockStepView::Apply { .. } => replies.applied is None,
        },
{
}

/// The names that answers use are all different.
proof fn lemma_names_differ()
    ensures
        "error"@ != "valid"@,
        "error"@ != "post_digest"@,
        "error"@ != "cost"@,
        "valid"@ != "post_digest"@,
        "valid"@ != "cost"@,
        "valid"@ != "note"@,
        "post_digest"@ != "cost"@,
{
    reveal_strlit("error");
    reveal_strlit("valid");
    reveal_strlit("post_digest");
    reveal_strlit("cost");
    reveal_strlit("note");
    assert("error"@[0] == 'e' && "valid"@[0] == 'v');
    assert("error"@.len() == 5 && "post_digest"@.len() == 11 && "cost"@.len() == 4 && "valid"@.len()
        == 5 && "note"@.len() == 4);
}

/// An entry that cannot be set up is answered with an error and without a
/// verdict, or with a note where the work broke off; an entry that can is
/// answered with a verdict and without an error. No cost is reported.
pub proof fn law_setup_and_verdict(entry: JsonView, replies: BlockReplies)
    ensures
        block_step(entry, replies) matches BlockStepView::Done(answer) ==> match decode_phase(
            entry,
            replies,
        ) {
            DecodePhaseView::Errored(_) => {
                &&& answer.get("valid"@) == Some(JsonView::Null)
                &&& answer.get("error"@) == Some(JsonView::Text("errored"@))
                &&& answer.get("cost"@) == Some(JsonView::Null)
            },
            DecodePhaseView::Broken(_) => says_panicked(answer),
            _ => {
                &&& answer.get("valid"@) matches Some(JsonView::Bool(_))
                &&& answer.get("error"@) == Some(JsonView::Null)
                &&& answer.get("cost"@) == Some(JsonView::Null)
            },
        },
{
    lemma_names_differ();
    if let DecodePhaseView::Broken(note) = decode_phase(entry, replies) {
        lemma_panicked(note);
    } else if let BlockStepView::Done(answer) = block_step(entry, replies) {
        lemma_lookup_at(answer->Object_0, "valid"@, 0);
        lemma_lookup_at(answer->Object_0, "cost"@, 2);
        lemma_lookup_at(answer->Object_0, "error"@, 3);
    }
}

/// A block is found valid just where the entry could be set up, the proof of
/// work holds, the root hash of the transactions is the one in the header, at
/// an epoch boundary the extension can be parsed, and the block could be
/// applied; the digest in the answer is the one that the application gave.
pub proof fn law_valid(entry: JsonView, replies: BlockReplies)
    ensures
        (block_step(entry, replies) matches BlockStepView::Done(answer) && answer.get("valid"@)
            == Some(JsonView::Bool(true))) <==> (decode_phase(
            entry,
            replies,
        ) matches DecodePhaseView::Ready(input) && {
            &&& replies.pow matches Some(Ok(_))
            &&& replies.root matches Some(Ok(root)) && root@ == input.header.transaction_root@
            &&& input.header.height % VOTING_LENGTH == 0 ==> (replies.extension matches Some(Ok(_)))
            &&& replies.applied matches Some(Ok(_))
        }),
        block_step(entry, replies) matches BlockStepView::Done(answer) ==> (answer.get("valid"@)
            == Some(JsonView::Bool(true)) ==> answer.get("post_digest"@) == Some(
            JsonView::Text(hex_text(replies.applied->0->Ok_0@)),
        )),
{
    lemma_names_differ();
    if let DecodePhaseView::Broken(note) = decode_phase(entry, replies) {
        lemma_lookup_none(panicked_view(note)->Object_0, "valid"@);
    } else if let BlockStepView::Done(answer) = block_step(entry, replies) {
        lemma_lookup_at(answer->Object_0, "valid"@, 0);
        lemma_lookup_at(answer->Object_0, "post_digest"@, 1);
    }
}

/// A block is applied to the state that the entry names, one block below its
/// own height, with nothing taken as checked before; its header and the
/// preceding ones are those of the entry, without a distance of null, and its
/// sections are those that were serialized; a block without a proof has no
/// section of it. At an epoch boundary, and nowhere
/// else, the table that the entry hands is expected, and the rules that the
/// block's own extension disables.
pub proof fn law_fresh_state(entry: JsonView, replies: BlockReplies)
    ensures
        block_step(entry, replies) matches BlockStepView::Apply {
            header,
            window,
            transactions_section,
            proofs_section,
            extension_section,
            parent_digest: digest,
            anchor_height,
            checkpoint,
            parameters,
            expected_boundary,
            expected_update,
        } ==> {
            let read = header_read(header);
            &&& parent_digest(entry) == Ok::<Seq<u8>, Seq<char>>(digest)
            &&& block_table(entry) == Ok::<Map<Parameter, i32>, Seq<char>>(parameters)
            &&& header == normalized(entry.get2("block"@, "header"@)->0)
            &&& read is Ok
            &&& anchor_height == read->Ok_0.height - 1
            &&& window == normalized_all(entry.get("headers"@)->0)
            &&& replies.transactions_section->0->Ok_0@ == transactions_section
            &&& match proof_bytes(entry.get("block"@)->0) {
                Ok(Some(_)) => replies.proofs_section matches Some(section) && proofs_section
                    == Some(section@),
                Ok(None) => proofs_section is None,
                Err(_) => false,
            }
            &&& replies.extension_section->0->Ok_0@ == extension_section
            &&& anchor_height >= 0
            &&& checkpoint == 0
            &&& read->Ok_0.height % VOTING_LENGTH == 0 ==> {
                &&& expected_boundary == Some(parameters)
                &&& replies.extension matches Some(Ok(rules)) && expected_update == Some(rules@)
            }
            &&& read->Ok_0.height % VOTING_LENGTH != 0 ==> {
                &&& expected_boundary is None
                &&& expected_update is None
            }
        },
        block_step(entry, replies) matches BlockStepView::ParseExtension(section)
            ==> replies.extension_section matches Some(Ok(serialized)) && section == serialized@,
{
}

/// Whether an entry names the digest of the state below the block: 33 bytes.
pub open spec fn digest_given(entry: JsonView, digest: Seq<u8>) -> bool {
    &&& digest.len() == 33
    &&& entry.get("parent_digest"@) matches Some(doc) && spells(doc, digest)
}

/// Whether the block of an entry has a header that reads as the given one, of a
/// height above 0.
pub open spec fn header_given(entry: JsonView, header: HeaderFields) -> bool {
    &&& header.height > 0
    &&& entry.get("block"@) matches Some(block) && (block.get("header"@) matches Some(doc)
        && header_read(normalized(doc)) == Ok::<HeaderFields, ReadFaultView>(header))
}

/// Whether an entry has preceding headers that can be read, at least one.
pub open spec fn window_given(entry: JsonView) -> bool {
    entry.get("headers"@) matches Some(headers) && (headers_read(
        normalized_all(headers),
    ) matches Ok(list) && list.len() > 0)
}

/// Whether an entry holds what must be read before its transactions: the digest
/// of the state, the header, the preceding headers and the table.
pub open spec fn entry_readable(entry: JsonView) -> bool {
    &&& exists|digest: Seq<u8>| #[trigger] digest_given(entry, digest)
    &&& exists|header: HeaderFields| #[trigger] header_given(entry, header)
    &&& window_given(entry)
    &&& block_table(entry) is Ok
}

/// The transactions in the block of an entry.
pub open spec fn transactions_given(entry: JsonView) -> Option<JsonView> {
    match entry.get("block"@) {
        Some(block) => match block.get("blockTransactions"@) {
            Some(part) => part.get("transactions"@),
            None => None,
        },
        None => None,
    }
}

/// Whether a document is a key of two bytes and a value, both in hexadecimal.
pub open spec fn field_given(kv: JsonView, key: Seq<u8>, value: Seq<u8>) -> bool {
    &&& key.len() == 2
    &&& kv matches JsonView::Array(parts) && {
        &&& parts.len() >= 2
        &&& spells(parts[0], key)
        &&& spells(parts[1], value)
    }
}

/// Whether the fields of a block's extension are the given ones, each in its
/// place.
pub open spec fn extension_given(block: JsonView, fields: Seq<(Seq<u8>, Seq<u8>)>) -> bool {
    block.get("extension"@) matches Some(part) && (part.get("fields"@) matches Some(
        JsonView::Array(items),
    ) && {
        &&& items.len() == fields.len()
        &&& forall|i: int|
            0 <= i < items.len() ==> field_given(items[i], (#[trigger] fields[i]).0, fields[i].1)
    })
}

/// Reading the fields of a list gives each in its place, and succeeds just
/// where each can be read.
proof fn lemma_fields_given(items: Seq<JsonView>)
    ensures
        fields_of(items) matches Ok(fields) ==> fields.len() == items.len() && forall|i: int|
            0 <= i < items.len() ==> field_given(items[i], (#[trigger] fields[i]).0, fields[i].1),
        forall|fields: Seq<(Seq<u8>, Seq<u8>)>|
            fields.len() == items.len() && (forall|i: int|
                0 <= i < items.len() ==> field_given(
                    items[i],
                    (#[trigger] fields[i]).0,
                    fields[i].1,
                )) ==> fields_of(items) == Ok::<Seq<(Seq<u8>, Seq<u8>)>, Seq<char>>(fields),
    decreases items.len(),
{
    if items.len() > 0 {
        let past = items.drop_last();
        let n = items.len() - 1;
        lemma_fields_given(past);
        if let Ok(fields) = fields_of(items) {
            let before = fields_of(past)->Ok_0;
            assert forall|i: int| 0 <= i < items.len() implies field_given(
                items[i],
                (#[trigger] fields[i]).0,
                fields[i].1,
            ) by {
                if i < n {
                    assert(fields[i] == before[i]);
                    assert(past[i] == items[i]);
                }
            }
        }
        assert forall|fields: Seq<(Seq<u8>, Seq<u8>)>|
            fields.len() == items.len() && (forall|i: int|
                0 <= i < items.len() ==> field_given(
                    items[i],
                    (#[trigger] fields[i]).0,
                    fields[i].1,
                )) implies fields_of(items) == Ok::<Seq<(Seq<u8>, Seq<u8>)>, Seq<char>>(
            fields,
        ) by {
            let short = fields.drop_last();
            assert forall|i: int| 0 <= i < past.len() implies field_given(
                past[i],
                (#[trigger] short[i]).0,
                short[i].1,
            ) by {
                assert(short[i] == fields[i]);
            }
            assert(field_given(items[n], fields[n].0, fields[n].1));
            assert(fields =~= short.push(fields[n]));
        }
    } else {
        assert forall|fields: Seq<(Seq<u8>, Seq<u8>)>| #![auto] fields.len() == 0 implies fields
            =~= Seq::<(Seq<u8>, Seq<u8>)>::empty() by {}
    }
}

/// The fields of a block's extension are read in their order, and all of them;
/// they can be read just where each is a key of two bytes and a value.
pub proof fn law_extension_fields(block: JsonView)
    ensures
        forall|fields: Seq<(Seq<u8>, Seq<u8>)>| #[trigger]
            extension_given(block, fields) <==> extension_fields(block) == Ok::<
                Seq<(Seq<u8>, Seq<u8>)>,
                Seq<char>,
            >(fields),
{
    if let Some(JsonView::Array(items)) = block.get2("extension"@, "fields"@) {
        lemma_fields_given(items);
    }
}

/// Whether the block of an entry brings a proof: a text that is not empty.
pub open spec fn proof_given(entry: JsonView) -> bool {
    entry.get("block"@) matches Some(block) && (block.get("adProofs"@) matches Some(part)
        && (part.get("proofBytes"@) matches Some(JsonView::Text(text)) && text.len() > 0))
}

/// Whether an entry and the replies give the section of the transactions.
pub open spec fn transactions_done(entry: JsonView, replies: BlockReplies) -> bool {
    &&& entry_readable(entry)
    &&& transactions_given(entry) is Some
    &&& replies.transactions matches Some(Ok(_))
    &&& replies.transactions_section matches Some(Ok(_))
}

/// Whether an entry and the replies give the section of the proof, where the
/// block brings one.
pub open spec fn proofs_done(entry: JsonView, replies: BlockReplies) -> bool {
    &&& transactions_done(entry, replies)
    &&& proof_given(entry) ==> {
        &&& exists|bytes: Seq<u8>|
            spells(
                entry.get("block"@)->0.get("adProofs"@)->0.get("proofBytes"@)->0,
                bytes,
            )
        &&& replies.proofs_section is Some
    }
}

/// Whether an entry is decoded: everything in it could be read and every
/// section was serialized.
pub open spec fn entry_decoded(entry: JsonView, replies: BlockReplies) -> bool {
    &&& proofs_done(entry, replies)
    &&& exists|fields: Seq<(Seq<u8>, Seq<u8>)>| #[trigger]
        extension_given(entry.get("block"@)->0, fields)
    &&& replies.extension_section matches Some(Ok(_))
}

/// What decoding gives is what the entry says, with the sections out of the
/// replies.
proof fn lemma_decoded(entry: JsonView, replies: BlockReplies)
    ensures
        entry_readable(entry) <==> reaches_table(entry) && block_table(entry) is Ok,
        decode_phase(entry, replies) is Ready <==> entry_decoded(entry, replies),
        decode_phase(entry, replies) matches DecodePhaseView::Ready(input) ==> {
            &&& digest_given(entry, input.parent_digest)
            &&& header_given(entry, input.header)
            &&& input.header_json == normalized(entry.get("block"@)->0.get("header"@)->0)
            &&& input.window_json == normalized_all(entry.get("headers"@)->0)
            &&& block_table(entry) == Ok::<Map<Parameter, i32>, Seq<char>>(input.parameters)
            &&& input.transactions_section == replies.transactions_section->0->Ok_0@
            &&& input.extension_section == replies.extension_section->0->Ok_0@
            &&& proof_given(entry) ==> input.proofs_section == Some(replies.proofs_section->0@)
            &&& !proof_given(entry) ==> input.proofs_section is None
        },
{
    let block = entry.get("block"@)->0;
    law_extension_fields(block);
    if let Ok(digest) = parent_digest(entry) {
        assert(digest_given(entry, digest));
    }
    if let Some(doc) = entry.get2("block"@, "header"@) {
        if let Ok(header) = header_read(normalized(doc)) {
            if header.height > 0 {
                assert(header_given(entry, header));
            }
        }
    }
    if let Ok(fields) = extension_fields(block) {
        assert(extension_given(block, fields));
    }
    if let Some(JsonView::Text(text)) = block.get2("adProofs"@, "proofBytes"@) {
        if let Ok(bytes) = hex_decoded(encode_utf8(text)) {
            assert(spells(block.get("adProofs"@)->0.get("proofBytes"@)->0, bytes));
        }
        if text.len() > 0 && exists|bytes: Seq<u8>|
            spells(block.get("adProofs"@)->0.get("proofBytes"@)->0, bytes) {
            let bytes = choose|bytes: Seq<u8>|
                spells(block.get("adProofs"@)->0.get("proofBytes"@)->0, bytes);
            assert(hex_decoded(encode_utf8(text)) == Ok::<Seq<u8>, HexError>(bytes));
        }
    }
}

/// The transactions of the block are read first, once the digest, the headers
/// and the table could be read; then they are serialized under the id and the
/// version of the header; then the proof, byte for byte as the block spells it;
/// then the fields of the extension, all of them in their order.
pub proof fn law_sections(entry: JsonView, replies: BlockReplies)
    ensures
        match block_step(entry, replies) {
            BlockStepView::DecodeTransactions(txs) => transactions_given(entry) == Some(txs),
            BlockStepView::SerializeTransactions {
                header_id,
                block_version,
            } => exists|header: HeaderFields| #[trigger]
                header_given(entry, header) && header_id == header.id@ && block_version
                    == header.version,
            BlockStepView::SerializeProofs { header_id, proof_bytes } => {
                &&& spells(
                    entry.get("block"@)->0.get("adProofs"@)->0.get("proofBytes"@)->0,
                    proof_bytes,
                )
                &&& exists|header: HeaderFields| #[trigger]
                    header_given(entry, header) && header_id == header.id@
            },
            BlockStepView::SerializeExtension { header_id, fields } => {
                &&& extension_given(entry.get("block"@)->0, fields)
                &&& exists|header: HeaderFields| #[trigger]
                    header_given(entry, header) && header_id == header.id@
            },
            _ => true,
        },
        block_step(entry, replies) is DecodeTransactions <==> entry_readable(entry)
            && transactions_given(entry) is Some && replies.transactions is None,
        block_step(entry, replies) is SerializeTransactions <==> entry_readable(entry)
            && transactions_given(entry) is Some && (replies.transactions matches Some(Ok(_)))
            && replies.transactions_section is None,
        block_step(entry, replies) is SerializeProofs <==> transactions_done(entry, replies)
            && proof_given(entry) && replies.proofs_section is None && exists|bytes: Seq<u8>|
            spells(entry.get("block"@)->0.get("adProofs"@)->0.get("proofBytes"@)->0, bytes),
        block_step(entry, replies) is SerializeExtension <==> proofs_done(entry, replies) && (
        exists|fields: Seq<(Seq<u8>, Seq<u8>)>| #[trigger]
            extension_given(entry.get("block"@)->0, fields)) && replies.extension_section is None,
{
    lemma_decoded(entry, replies);
    let block = entry.get("block"@)->0;
    law_extension_fields(block);
    if let Some(doc) = entry.get2("block"@, "header"@) {
        if let Ok(header) = header_read(normalized(doc)) {
            if header.height > 0 {
                assert(header_given(entry, header));
            }
        }
    }
    if let Ok(fields) = extension_fields(block) {
        assert(extension_given(block, fields));
    }
    if let Some(JsonView::Text(text)) = block.get2("adProofs"@, "proofBytes"@) {
        if let Ok(bytes) = hex_decoded(encode_utf8(text)) {
            assert(spells(block.get("adProofs"@)->0.get("proofBytes"@)->0, bytes));
        }
    }
}

/// A decoded entry is judged in this order: the proof of work of its header,
/// the root hash of its transactions by the version of the header, at a height
/// that is a multiple of 128 the serialized extension, and the application.
pub proof fn law_judged(entry: JsonView, replies: BlockReplies, header: HeaderFields)
    requires
        entry_decoded(entry, replies),
        header_given(entry, header),
    ensures
        ({
            let step = block_step(entry, replies);
            let pow_holds = replies.pow matches Some(Ok(_));
            let root_holds = replies.root matches Some(Ok(root)) && root@
                == header.transaction_root@;
            let boundary = header.height % 128 == 0;
            let parsed = replies.extension matches Some(Ok(_));
            &&& step is VerifyPow <==> replies.pow is None
            &&& step is VerifyPow ==> step->VerifyPow_0 == normalized(
                entry.get("block"@)->0.get("header"@)->0,
            )
            &&& step is TransactionsRoot <==> pow_holds && replies.root is None
            &&& step is TransactionsRoot ==> step->version == header.version
            &&& step is ParseExtension <==> pow_holds && root_holds && boundary
                && replies.extension is None
            &&& step is ParseExtension ==> step->ParseExtension_0
                == replies.extension_section->0->Ok_0@
            &&& step is Apply <==> pow_holds && root_holds && (boundary ==> parsed)
                && replies.applied is None
            &&& !(step is DecodeTransactions || step is SerializeTransactions
                || step is SerializeProofs || step is SerializeExtension)
        }),
{
    lemma_decoded(entry, replies);
}

/// A decoded block is applied to the state of the digest that the entry spells,
/// byte for byte, at the height below its own, with the header, the preceding
/// headers and the table of the entry and the sections out of the replies. At a
/// height that is a multiple of 128, and nowhere else, the table of the entry
/// is expected, and the rules that its extension disables.
pub proof fn law_applied(entry: JsonView, replies: BlockReplies)
    ensures
        block_step(entry, replies) matches BlockStepView::Apply {
            header: header_json,
            window,
            transactions_section,
            proofs_section,
            extension_section,
            parent_digest: digest,
            anchor_height,
            checkpoint,
            parameters,
            expected_boundary,
            expected_update,
        } ==> {
            &&& digest_given(entry, digest)
            &&& header_json == normalized(entry.get("block"@)->0.get("header"@)->0)
            &&& window == normalized_all(entry.get("headers"@)->0)
            &&& block_table(entry) == Ok::<Map<Parameter, i32>, Seq<char>>(parameters)
            &&& transactions_section == replies.transactions_section->0->Ok_0@
            &&& extension_section == replies.extension_section->0->Ok_0@
            &&& proof_given(entry) ==> proofs_section == Some(replies.proofs_section->0@)
            &&& !proof_given(entry) ==> proofs_section is None
            &&& checkpoint == 0
            &&& anchor_height >= 0
            &&& forall|header: HeaderFields| #[trigger]
                header_given(entry, header) ==> {
                    &&& anchor_height + 1 == header.height
                    &&& header.height % 128 == 0 ==> {
                        &&& expected_boundary == Some(parameters)
                        &&& expected_update == Some(replies.extension->0->Ok_0@)
                    }
                    &&& header.height % 128 != 0 ==> {
                        &&& expected_boundary is None
                        &&& expected_update is None
                    }
                }
        },
{
    lemma_decoded(entry, replies);
    law_fresh_state(entry, replies);
    if let BlockStepView::Apply { parent_digest: digest, .. } = block_step(entry, replies) {
        assert(digest_given(entry, digest));
    }
}

/// A block is found valid just where its entry is decoded, the proof of work
/// holds, the root hash of the transactions is the one in the header, at a
/// height that is a multiple of 128 the extension can be parsed, and the block
/// could be applied. The answer spells the digest behind the block.
pub proof fn law_accepted(entry: JsonView, replies: BlockReplies)
    ensures
        (block_step(entry, replies) matches BlockStepView::Done(answer) && answer.get("valid"@)
            == Some(JsonView::Bool(true))) <==> {
            &&& entry_decoded(entry, replies)
            &&& replies.pow matches Some(Ok(_))
            &&& replies.root matches Some(Ok(root)) && forall|header: HeaderFields| #[trigger]
                header_given(entry, header) ==> {
                    &&& root@ == header.transaction_root@
                    &&& header.height % 128 == 0 ==> (replies.extension matches Some(Ok(_)))
                }
            &&& replies.applied matches Some(Ok(_))
        },
        block_step(entry, replies) matches BlockStepView::Done(answer) ==> (answer.get("valid"@)
            == Some(JsonView::Bool(true)) ==> {
            &&& answer.get("post_digest"@) matches Some(doc) && spells(
                doc,
                replies.applied->0->Ok_0@,
            )
            &&& answer.get("error"@) == Some(JsonView::Null)
            &&& answer.get("cost"@) == Some(JsonView::Null)
        }),
{
    lemma_decoded(entry, replies);
    law_valid(entry, replies);
    law_setup_and_verdict(entry, replies);
    if let DecodePhaseView::Ready(input) = decode_phase(entry, replies) {
        assert(header_given(entry, input.header));
    }
    if let Some(Ok(digest)) = replies.applied {
        law_hex_reads_back(digest@);
    }
}

/// A decoded block that is not found valid is rejected for the first of these:
/// its proof of work, its transactions, its extension at a boundary, or its
/// application; the reason says which, and quotes the report.
pub proof fn law_rejected(entry: JsonView, replies: BlockReplies, header: HeaderFields)
    requires
        entry_decoded(entry, replies),
        header_given(entry, header),
    ensures
        ({
            let step = block_step(entry, replies);
            let reason = step->Done_0.get("reason"@);
            let pow_holds = replies.pow matches Some(Ok(_));
            let root = replies.root->0->Ok_0@;
            let root_holds = replies.root matches Some(Ok(root)) && root@
                == header.transaction_root@;
            let boundary = header.height % 128 == 0;
            &&& replies.pow matches Some(Err(e)) ==> step is Done && reason == Some(
                JsonView::Text("hdrPoW: "@ + e@),
            )
            &&& pow_holds ==> (replies.root matches Some(Err(e)) ==> step is Done && reason
                == Some(JsonView::Text("bsCorrespondsToHeader: transactionsRoot: "@ + e@)))
            &&& pow_holds && (replies.root matches Some(Ok(_))) && !root_holds ==> step is Done
                && reason == Some(
                JsonView::Text(
                    "bsCorrespondsToHeader: transactionsRoot "@ + hex_text(root)
                        + " != header "@ + hex_text(header.transaction_root@),
                ),
            )
            &&& pow_holds && root_holds && boundary ==> (replies.extension matches Some(Err(e))
                ==> step is Done && reason == Some(JsonView::Text("extension parse: "@ + e@)))
            &&& pow_holds && root_holds && (boundary ==> replies.extension matches Some(Ok(_)))
                ==> (replies.applied matches Some(Err(e)) ==> step is Done && reason == Some(
                JsonView::Text(e@),
            ))
            &&& step is Done && reason is Some ==> {
                &&& step->Done_0.get("valid"@) == Some(JsonView::Bool(false))
                &&& step->Done_0.get("error"@) == Some(JsonView::Null)
                &&& step->Done_0.get("post_digest"@) == Some(JsonView::Null)
            }
        }),
{
    lemma_decoded(entry, replies);
    lemma_names_differ();
    reveal_strlit("reason");
    reveal_strlit("error");
    reveal_strlit("valid");
    reveal_strlit("post_digest");
    reveal_strlit("cost");
    assert("reason"@.len() == 6 && "error"@.len() == 5 && "valid"@.len() == 5 && "cost"@.len() == 4
        && "post_digest"@.len() == 11);
    if let BlockStepView::Done(answer) = block_step(entry, replies) {
        let fields = answer->Object_0;
        lemma_lookup_at(fields, "valid"@, 0);
        lemma_lookup_at(fields, "post_digest"@, 1);
        lemma_lookup_at(fields, "error"@, 3);
        if fields.len() == 5 {
            lemma_lookup_at(fields, "reason"@, 4);
        } else {
            lemma_lookup_none(fields, "reason"@);
        }
    }
}

/// An entry is in error just where something in it cannot be read, though
/// reading did not break off, or a part could not be read or serialized.
pub proof fn law_errored(entry: JsonView, replies: BlockReplies)
    ensures
        ({
            let error = block_step(entry, replies)->Done_0.get("error"@);
            let errored = block_step(entry, replies) is Done && error == Some(
                JsonView::Text("errored"@),
            );
            let broken = block_step(entry, replies) is Done && error == Some(
                JsonView::Text("panicked"@),
            );
            &&& errored || broken <==> {
                ||| !entry_readable(entry)
                ||| transactions_given(entry) is None
                ||| replies.transactions matches Some(Err(_))
                ||| (replies.transactions matches Some(Ok(_))) && (
                    replies.transactions_section matches Some(Err(_)))
                ||| transactions_done(entry, replies) && proof_given(entry) && !exists|
                    bytes: Seq<u8>,
                |
                    spells(
                        entry.get("block"@)->0.get("adProofs"@)->0.get("proofBytes"@)->0,
                        bytes,
                    )
                ||| proofs_done(entry, replies) && !exists|fields: Seq<(Seq<u8>, Seq<u8>)>|
                    #[trigger]
                    extension_given(entry.get("block"@)->0, fields)
                ||| proofs_done(entry, replies) && (replies.extension_section matches Some(Err(_)))
            }
            &&& broken <==> (exists|digest: Seq<u8>| #[trigger] digest_given(entry, digest))
                && entry.get2("block"@, "header"@) is Some && match header_read(
                normalized(entry.get2("block"@, "header"@)->0),
            ) {
                Err(fault) => fault is Broken,
                Ok(header) => header.height > 0 && entry.get("headers"@) is Some && (headers_read(
                    normalized_all(entry.get("headers"@)->0),
                ) matches Err(fault) && fault is Broken),
            }
        }),
{
    lemma_decoded(entry, replies);
    law_setup_and_verdict(entry, replies);
    reveal_strlit("errored");
    reveal_strlit("panicked");
    assert("errored"@.len() == 7 && "panicked"@.len() == 8);
    let block = entry.get("block"@)->0;
    law_extension_fields(block);
    if let Ok(digest) = parent_digest(entry) {
        assert(digest_given(entry, digest));
    }
    if let Ok(fields) = extension_fields(block) {
        assert(extension_given(block, fields));
    }
    if let Some(JsonView::Text(text)) = block.get2("adProofs"@, "proofBytes"@) {
        if let Ok(bytes) = hex_decoded(encode_utf8(text)) {
            assert(spells(block.get("adProofs"@)->0.get("proofBytes"@)->0, bytes));
        }
    }
}

/// Ids are passed over only where decoding gets as far as the table: the digest
/// of the state, the header and the preceding headers could be read. They are
/// then all those that the table has for no parameter.
pub proof fn law_table_reached(entry: JsonView)
    ensures
        !reaches_table(entry) ==> ids_passed_over(entry).len() == 0,
        reaches_table(entry) ==> match entry.get("parameters"@) {
            Some(part) => match part.get("table"@) {
                Some(JsonView::Object(members)) => ids_passed_over(entry) == skipped_ids(members),
                _ => ids_passed_over(entry).len() == 0,
            },
            None => ids_passed_over(entry).len() == 0,
        },
        reaches_table(entry) <==> (exists|digest: Seq<u8>| #[trigger] digest_given(entry, digest))
            && (exists|header: HeaderFields| #[trigger] header_given(entry, header))
            && window_given(entry),
{
    if let Ok(digest) = parent_digest(entry) {
        assert(digest_given(entry, digest));
    }
    if let Some(doc) = entry.get2("block"@, "header"@) {
        if let Ok(header) = header_read(normalized(doc)) {
            if header.height > 0 {
                assert(header_given(entry, header));
            }
        }
    }
}

/// Whether an answer says that an entry is in error for a reason, and gives no
/// verdict.
pub open spec fn errs(answer: JsonView, reason: Seq<char>) -> bool {
    &&& answer.get("error"@) == Some(JsonView::Text("errored"@))
    &&& answer.get("reason"@) == Some(JsonView::Text(reason))
    &&& answer.get("valid"@) == Some(JsonView::Null)
    &&& answer.get("post_digest"@) == Some(JsonView::Null)
    &&& answer.get("cost"@) == Some(JsonView::Null)
}

/// The answer to an entry in error gives the reason and no verdict.
proof fn lemma_errs(reason: Seq<char>)
    ensures
        errs(errored_view(reason), reason),
{
    lemma_names_differ();
    reveal_strlit("reason");
    reveal_strlit("error");
    reveal_strlit("valid");
    reveal_strlit("post_digest");
    reveal_strlit("cost");
    assert("reason"@.len() == 6 && "error"@.len() == 5 && "valid"@.len() == 5 && "cost"@.len() == 4
        && "post_digest"@.len() == 11);
    let fields = errored_view(reason)->Object_0;
    lemma_lookup_at(fields, "valid"@, 0);
    lemma_lookup_at(fields, "post_digest"@, 1);
    lemma_lookup_at(fields, "cost"@, 2);
    lemma_lookup_at(fields, "error"@, 3);
    lemma_lookup_at(fields, "reason"@, 4);
}

/// What is wrong with the digest of the state: it is no text, no hexadecimal,
/// or not of 33 bytes.
pub proof fn law_digest_reasons(entry: JsonView, replies: BlockReplies)
    ensures
        ({
            let step = block_step(entry, replies);
            let digest = entry.get("parent_digest"@);
            &&& !(digest matches Some(JsonView::Text(_))) ==> step is Done && errs(
                step->Done_0,
                "parent_digest missing"@,
            )
            &&& digest matches Some(JsonView::Text(text)) ==> match hex_decoded(encode_utf8(text)) {
                Err(e) => step is Done && errs(
                    step->Done_0,
                    "parent_digest hex: "@ + hex_error_text(e),
                ),
                Ok(bytes) => bytes.len() != 33 ==> step is Done && errs(
                    step->Done_0,
                    "parent_digest is not 33 bytes"@,
                ),
            }
        }),
{
    assert forall|reason: Seq<char>| errs(#[trigger] errored_view(reason), reason) by {
        lemma_errs(reason);
    }
}

/// What is wrong with an entry whose digest can be read, up to its table: the
/// first of the header, its height, the preceding headers and the table decides.
pub proof fn law_setup_reasons(entry: JsonView, replies: BlockReplies, digest: Seq<u8>)
    requires
        digest_given(entry, digest),
    ensures
        ({
            let step = block_step(entry, replies);
            let answer = step->Done_0;
            let doc = entry.get("block"@)->0.get("header"@);
            let header = header_read(normalized(doc->0));
            let headers = entry.get("headers"@);
            let window = headers_read(normalized_all(headers->0));
            let table = block_table(entry);
            if entry.get("block"@) is None || doc is None {
                step is Done && errs(answer, "block.header missing"@)
            } else if header is Err {
                header->Err_0 is Undecodable ==> step is Done && errs(
                    answer,
                    "block.header decode: "@ + header->Err_0->Undecodable_0,
                )
            } else if header->Ok_0.height == 0 {
                step is Done && errs(
                    answer,
                    "header.height is 0 \u{2014} no parent state to anchor"@,
                )
            } else if headers is None {
                step is Done && errs(answer, "headers missing"@)
            } else if window is Err {
                window->Err_0 is Undecodable ==> step is Done && errs(
                    answer,
                    "headers decode: "@ + window->Err_0->Undecodable_0,
                )
            } else if window->Ok_0.len() == 0 {
                step is Done && errs(answer, "headers window is empty"@)
            } else if table is Err {
                step is Done && errs(answer, table->Err_0)
            } else {
                entry_readable(entry)
            }
        }),
{
    assert forall|reason: Seq<char>| errs(#[trigger] errored_view(reason), reason) by {
        lemma_errs(reason);
    }
    if let Some(doc) = entry.get2("block"@, "header"@) {
        if let Ok(header) = header_read(normalized(doc)) {
            if header.height > 0 {
                assert(header_given(entry, header));
            }
        }
    }
}

/// What is wrong with the parts of a block that can be read up to its table:
/// its transactions, their serializing, its proof, its extension, or the
/// serializing of that.
pub proof fn law_part_reasons(entry: JsonView, replies: BlockReplies)
    requires
        entry_readable(entry),
    ensures
        ({
            let step = block_step(entry, replies);
            let answer = step->Done_0;
            let block = entry.get("block"@)->0;
            let proof_doc = block.get("adProofs"@)->0.get("proofBytes"@)->0;
            let fields = block.get2("extension"@, "fields"@);
            &&& transactions_given(entry) is None ==> step is Done && errs(
                answer,
                "block.blockTransactions.transactions missing"@,
            )
            &&& transactions_given(entry) is Some ==> (replies.transactions matches Some(Err(e))
                ==> step is Done && errs(answer, "transactions decode: "@ + e@))
            &&& transactions_given(entry) is Some && (replies.transactions matches Some(Ok(_)))
                ==> (replies.transactions_section matches Some(Err(e)) ==> step is Done && errs(
                answer,
                "blockTransactions serialize: "@ + e@,
            ))
            &&& transactions_done(entry, replies) && proof_given(entry) ==> (hex_decoded(
                encode_utf8(proof_doc->Text_0),
            ) matches Err(e) ==> step is Done && errs(
                answer,
                "proofBytes hex: "@ + hex_error_text(e),
            ))
            &&& proofs_done(entry, replies) && !(fields matches Some(JsonView::Array(_)))
                ==> step is Done && errs(answer, "block.extension.fields missing"@)
            &&& proofs_done(entry, replies) && (exists|given: Seq<(Seq<u8>, Seq<u8>)>| #[trigger]
                extension_given(block, given)) ==> (replies.extension_section matches Some(Err(e))
                ==> step is Done && errs(answer, "extension serialize: "@ + e@))
        }),
{
    assert forall|reason: Seq<char>| errs(#[trigger] errored_view(reason), reason) by {
        lemma_errs(reason);
    }
    lemma_decoded(entry, replies);
    let block = entry.get("block"@)->0;
    law_extension_fields(block);
    if let Some(JsonView::Text(text)) = block.get2("adProofs"@, "proofBytes"@) {
        if let Ok(bytes) = hex_decoded(encode_utf8(text)) {
            assert(spells(block.get("adProofs"@)->0.get("proofBytes"@)->0, bytes));
        }
    }
}

/// The first field of an extension that cannot be read decides the error: its
/// key or its value is missing, its key is no hexadecimal or not of two bytes,
/// or its value is no hexadecimal.
pub proof fn law_field_reasons(
    block: JsonView,
    items: Seq<JsonView>,
    fields: Seq<(Seq<u8>, Seq<u8>)>,
)
    requires
        block.get2("extension"@, "fields"@) == Some(JsonView::Array(items)),
        fields.len() < items.len(),
        forall|i: int|
            0 <= i < fields.len() ==> field_given(items[i], (#[trigger] fields[i]).0, fields[i].1),
        forall|key: Seq<u8>, value: Seq<u8>|
            !#[trigger] field_given(items[fields.len() as int], key, value),
    ensures
        ({
            let n = fields.len();
            let at = "extension field "@ + decimal(n);
            let parts = items[n as int]->Array_0;
            let has_key = items[n as int] is Array && parts.len() > 0 && parts[0] is Text;
            let has_value = items[n as int] is Array && parts.len() > 1 && parts[1] is Text;
            let reason = extension_fields(block)->Err_0;
            &&& extension_fields(block) is Err
            &&& !has_key ==> reason == at + ": key"@
            &&& has_key && !has_value ==> reason == at + ": value"@
            &&& has_key && has_value ==> match hex_decoded(encode_utf8(parts[0]->Text_0)) {
                Err(e) => reason == at + " key hex: "@ + hex_error_text(e),
                Ok(key) => if key.len() != 2 {
                    reason == at + ": key is not 2 bytes"@
                } else {
                    match hex_decoded(encode_utf8(parts[1]->Text_0)) {
                        Err(e) => reason == at + " value hex: "@ + hex_error_text(e),
                        Ok(_) => false,
                    }
                },
            }
        }),
{
    let n = fields.len() as int;
    let before = items.take(n);
    let now = items.take(n + 1);
    lemma_fields_given(before);
    assert forall|i: int| 0 <= i < before.len() implies field_given(
        before[i],
        (#[trigger] fields[i]).0,
        fields[i].1,
    ) by {
        assert(before[i] == items[i]);
    }
    assert(fields_of(before) == Ok::<Seq<(Seq<u8>, Seq<u8>)>, Seq<char>>(fields));
    assert(now.drop_last() =~= before);
    assert(now.last() == items[n]);
    if let JsonView::Array(parts) = items[n] {
        if parts.len() >= 2 && parts[0] is Text && parts[1] is Text {
            if let Ok(key) = hex_decoded(encode_utf8(parts[0]->Text_0)) {
                if let Ok(value) = hex_decoded(encode_utf8(parts[1]->Text_0)) {
                    if key.len() == 2 {
                        assert(field_given(items[n], key, value));
                    }
                }
            }
        }
    }
    lemma_fields_error(items, n + 1);
}

} // verus!
