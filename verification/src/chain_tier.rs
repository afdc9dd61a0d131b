//! Entries of the chain tier: difficulty retargeting and parameter voting.
//!
//! An entry brings its own settings. `run_chain_entry` reads it and either
//! answers it at once or says which consensus computation it asks for, with
//! all arguments; `retarget_result` and `vote_result` turn the outcome of that
//! computation into the answer.

use crate::headers::{
    decode_headers, headers_read, list_result, normalize_headers, normalized, normalized_all,
    HeaderFields, ReadFault, ReadFaultView,
};
use crate::hexes::{
    hex_decode, hex_decoded, hex_encode, hex_text, law_hex_reads_back, HexError,
};
use crate::json::{
    fields_view, items_view, lemma_lookup_at, lemma_lookup_none, no_fields, object, opt_array,
    opt_str, opt_u64, put, Json, JsonView,
};
use crate::notes::{lemma_panicked, panicked, panicked_view, says_panicked};
use crate::params::{
    decode_table, table_json, table_object, voting_table, Parameter, ParameterTable,
};
use crate::text::{decimal, decimal_text, join2, join3, same_text};
use vstd::prelude::*;
use vstd::utf8::encode_utf8;

verus! {

/// The answer to an entry that could not be set up or computed.
pub open spec fn errored_view(reason: Seq<char>) -> JsonView {
    JsonView::Object(
        seq![
            ("nbits"@, JsonView::Null),
            ("parameters"@, JsonView::Null),
            ("activated_update"@, JsonView::Null),
            ("error"@, JsonView::Text("errored"@)),
            ("reason"@, JsonView::Text(reason)),
        ],
    )
}

/// The answer to an entry of a kind that is not supported.
pub open spec fn not_implemented_view() -> JsonView {
    JsonView::Object(
        seq![
            ("nbits"@, JsonView::Null),
            ("parameters"@, JsonView::Null),
            ("activated_update"@, JsonView::Null),
            ("error"@, JsonView::Text("not-implemented"@)),
        ],
    )
}

/// The answer to an entry that could not be set up or computed.
pub fn errored(reason: &str) -> (r: Json)
    ensures
        r@ == errored_view(reason@),
{
    let mut members: Vec<(String, Json)> = no_fields();
    put(&mut members, "nbits", Json::Null);
    put(&mut members, "parameters", Json::Null);
    put(&mut members, "activated_update", Json::Null);
    put(&mut members, "error", Json::text("errored"));
    put(&mut members, "reason", Json::text(reason));
    assert(fields_view(members@) =~= errored_view(reason@)->Object_0);
    object(members)
}

/// The answer to an entry of a kind that is not supported.
pub fn not_implemented() -> (r: Json)
    ensures
        r@ == not_implemented_view(),
{
    let mut members: Vec<(String, Json)> = no_fields();
    put(&mut members, "nbits", Json::Null);
    put(&mut members, "parameters", Json::Null);
    put(&mut members, "activated_update", Json::Null);
    put(&mut members, "error", Json::text("not-implemented"));
    assert(fields_view(members@) =~= not_implemented_view()->Object_0);
    object(members)
}

/// The low half of a number.
pub open spec fn low32(n: u64) -> u32 {
    (n % 0x1_0000_0000) as u32
}

/// The low half of a number.
pub fn truncate32(n: u64) -> (r: u32)
    ensures
        r == low32(n),
{
    (n % 0x1_0000_0000) as u32
}

/// The low half of the number at a member, where it is one.
pub open spec fn u32_at(doc: JsonView, key: Seq<char>) -> Option<u32> {
    match opt_u64(doc.get(key)) {
        Some(n) => Some(low32(n)),
        None => None,
    }
}

/// The number at a member, where it is one.
fn read_u64(doc: &Json, key: &str) -> (r: Option<u64>)
    ensures
        r == opt_u64(doc@.get(key@)),
{
    match doc.get(key) {
        Some(v) => v.as_u64(),
        None => None,
    }
}

/// The low half of the number at a member, where it is one.
fn read_u32(doc: &Json, key: &str) -> (r: Option<u32>)
    ensures
        r == u32_at(doc@, key@),
{
    match read_u64(doc, key) {
        Some(n) => Some(truncate32(n)),
        None => None,
    }
}

// ------------------------------------------------------------- retargeting

/// Which rule computes the required difficulty.
#[derive(Debug, Clone, Copy, PartialEq, Eq, Structural)]
pub enum RetargetRule {
    /// The linear extrapolation of the first epochs.
    Classic,
    /// The damped rule that later epochs use.
    Eip37,
}

/// A difficulty computation with its arguments.
#[derive(Debug, PartialEq, Eq)]
pub struct RetargetCall {
    pub rule: RetargetRule,
    pub epoch_length: u32,
    pub block_interval_ms: u64,
    pub initial_nbits: u32,
    /// The anchor headers in ascending order, in their JSON form.
    pub anchors: Json,
}

/// What a difficulty computation is called with.
pub ghost struct RetargetView {
    pub rule: RetargetRule,
    pub epoch_length: u32,
    pub block_interval_ms: u64,
    pub initial_nbits: u32,
    pub anchors: JsonView,
}

impl View for RetargetCall {
    type V = RetargetView;

    open spec fn view(&self) -> RetargetView {
        RetargetView {
            rule: self.rule,
            epoch_length: self.epoch_length,
            block_interval_ms: self.block_interval_ms,
            initial_nbits: self.initial_nbits,
            anchors: self.anchors@,
        }
    }
}

/// The length of an epoch under the damped rule, where that rule governs: the
/// settings give both its start and its epoch length, and the target height
/// is not below the start.
pub open spec fn eip37_epoch(settings: JsonView, target_height: u32) -> Option<u32> {
    match (
        opt_u64(settings.get("eip37_activation_height"@)),
        opt_u64(settings.get("eip37_epoch_length"@)),
    ) {
        (Some(start), Some(length)) => if target_height as u64 >= start {
            Some(low32(length))
        } else {
            None
        },
        _ => None,
    }
}

/// The computation that a retargeting entry describes, or why it cannot be
/// set up.
pub open spec fn retarget_call(entry: JsonView) -> Result<RetargetView, Seq<char>> {
    match entry.get("settings"@) {
        Some(JsonView::Object(members)) => {
            let s = JsonView::Object(members);
            match (
                u32_at(s, "epoch_length"@),
                opt_u64(s.get("block_interval_ms"@)),
                u32_at(s, "initial_nbits"@),
            ) {
                (Some(epoch_length), Some(block_interval_ms), Some(initial_nbits)) => {
                    match opt_u64(entry.get2("payload"@, "target_height"@)) {
                        None => Err("payload.target_height missing"@),
                        Some(target) => match entry.get2("payload"@, "anchor_headers"@) {
                            None => Err("payload.anchor_headers missing"@),
                            Some(anchors) => {
                                let eip37 = eip37_epoch(s, low32(target));
                                Ok(
                                    RetargetView {
                                        rule: if eip37 is Some {
                                            RetargetRule::Eip37
                                        } else {
                                            RetargetRule::Classic
                                        },
                                        epoch_length: match eip37 {
                                            Some(length) => length,
                                            None => epoch_length,
                                        },
                                        block_interval_ms,
                                        initial_nbits,
                                        anchors: normalized_all(anchors),
                                    },
                                )
                            },
                        },
                    }
                },
                _ => Err("retargeting settings incomplete"@),
            }
        },
        _ => Err("settings missing"@),
    }
}

/// A computation whose anchor headers read as given: it can be made where
/// they can be read, and else the entry has its answer.
pub open spec fn anchored(
    call: RetargetView,
    anchors: Result<Seq<HeaderFields>, ReadFaultView>,
) -> Result<RetargetView, JsonView> {
    match anchors {
        Err(ReadFaultView::Undecodable(e)) => Err(errored_view("anchor_headers decode: "@ + e)),
        Err(ReadFaultView::Broken(note)) => Err(panicked_view(note)),
        Ok(_) => Ok(call),
    }
}

/// What a retargeting entry asks for, or its answer where it cannot be set
/// up.
pub open spec fn retarget_plan(entry: JsonView) -> Result<RetargetView, JsonView> {
    match retarget_call(entry) {
        Err(e) => Err(errored_view(e)),
        Ok(call) => anchored(call, headers_read(call.anchors)),
    }
}

/// What a computation or an answer says.
pub open spec fn retarget_plan_view(r: Result<RetargetCall, Json>) -> Result<
    RetargetView,
    JsonView,
> {
    match r {
        Ok(call) => Ok(call@),
        Err(answer) => Err(answer@),
    }
}

/// Reads the computation that a retargeting entry describes.
fn read_retargeting(entry: &Json) -> (r: Result<RetargetCall, String>)
    ensures
        (match r {
            Ok(call) => Ok(call@),
            Err(e) => Err(e@),
        }) == retarget_call(entry@),
{
    broadcast use crate::json::lemma_parts_view;

    let s: &Json = match entry.get("settings") {
        Some(s) => match s {
            Json::Object(_) => s,
            _ => return Err("settings missing".to_owned()),
        },
        None => return Err("settings missing".to_owned()),
    };
    let (epoch_length, block_interval_ms, initial_nbits): (u32, u64, u32) = match (
        read_u32(s, "epoch_length"),
        read_u64(s, "block_interval_ms"),
        read_u32(s, "initial_nbits"),
    ) {
        (Some(e), Some(b), Some(i)) => (e, b, i),
        _ => return Err("retargeting settings incomplete".to_owned()),
    };
    let target_height: u32 = match entry.get2("payload", "target_height") {
        Some(v) => match v.as_u64() {
            Some(t) => truncate32(t),
            None => return Err("payload.target_height missing".to_owned()),
        },
        None => return Err("payload.target_height missing".to_owned()),
    };
    let anchors: Json = match entry.get2("payload", "anchor_headers") {
        Some(h) => normalize_headers(h),
        None => return Err("payload.anchor_headers missing".to_owned()),
    };
    let eip37: Option<u32> = match (
        read_u64(s, "eip37_activation_height"),
        read_u64(s, "eip37_epoch_length"),
    ) {
        (Some(start), Some(length)) => if target_height as u64 >= start {
            Some(truncate32(length))
        } else {
            None
        },
        _ => None,
    };
    Ok(
        match eip37 {
            Some(length) => RetargetCall {
                rule: RetargetRule::Eip37,
                epoch_length: length,
                block_interval_ms,
                initial_nbits,
                anchors,
            },
            None => RetargetCall {
                rule: RetargetRule::Classic,
                epoch_length,
                block_interval_ms,
                initial_nbits,
                anchors,
            },
        },
    )
}

/// Lets a computation be made where its anchor headers can be read.
pub fn check_anchors(
    call: RetargetCall,
    anchors: &Result<Vec<HeaderFields>, ReadFault>,
) -> (r: Result<RetargetCall, Json>)
    ensures
        retarget_plan_view(r) == anchored(call@, list_result(*anchors)),
{
    match anchors {
        Ok(_) => Ok(call),
        Err(ReadFault::Undecodable(e)) => Err(
            errored(join2("anchor_headers decode: ", e.as_str()).as_str()),
        ),
        Err(ReadFault::Broken(note)) => Err(panicked(note.as_str())),
    }
}

/// Reads a retargeting entry.
fn plan_retargeting(entry: &Json) -> (r: Result<RetargetCall, Json>)
    ensures
        retarget_plan_view(r) == retarget_plan(entry@),
{
    match read_retargeting(entry) {
        Ok(call) => {
            let anchors: Result<Vec<HeaderFields>, ReadFault> = decode_headers(&call.anchors);
            check_anchors(call, &anchors)
        },
        Err(e) => Err(errored(e.as_str())),
    }
}

/// What came of a difficulty computation.
pub enum RetargetReply {
    /// The computation failed.
    Failed(String),
    /// The required difficulty, in its compact form.
    Nbits(u32),
}

/// The answer to a retargeting entry.
pub open spec fn retarget_answer(reply: RetargetReply) -> JsonView {
    match reply {
        RetargetReply::Failed(e) => errored_view("difficulty: "@ + e@),
        RetargetReply::Nbits(nbits) => JsonView::Object(
            seq![("nbits"@, JsonView::Unsigned(nbits as u64)), ("error"@, JsonView::Null)],
        ),
    }
}

/// The answer to a retargeting entry.
pub fn retarget_result(reply: &RetargetReply) -> (r: Json)
    ensures
        r@ == retarget_answer(*reply),
{
    match reply {
        RetargetReply::Failed(e) => errored(join2("difficulty: ", e.as_str()).as_str()),
        RetargetReply::Nbits(nbits) => {
            let mut members: Vec<(String, Json)> = no_fields();
            put(&mut members, "nbits", Json::Unsigned(*nbits as u64));
            put(&mut members, "error", Json::Null);
            assert(fields_view(members@) =~= retarget_answer(*reply)->Object_0);
            object(members)
        },
    }
}

// ------------------------------------------------------------------ voting

/// The settings of a voting entry.
#[derive(Debug, Clone, Copy, PartialEq, Eq, Structural)]
pub struct VotingConfig {
    pub voting_length: u32,
    pub soft_fork_epochs: u32,
    pub activation_epochs: u32,
    pub version2_activation_height: u32,
}

/// A computation of the parameters behind an epoch boundary, with its
/// arguments.
#[derive(Debug, PartialEq, Eq)]
pub struct VoteCall {
    pub config: VotingConfig,
    pub boundary_height: u32,
    /// The heights of the epoch with the votes cast at each.
    pub window: Vec<(u32, [u8; 3])>,
    /// The table in force before the boundary.
    pub current: ParameterTable,
    /// Whether the boundary block votes for the fork.
    pub boundary_fork_vote: bool,
    pub proposed_update: Vec<u8>,
}

/// What a computation of the parameters behind an epoch boundary is called
/// with.
pub ghost struct VoteView {
    pub config: VotingConfig,
    pub boundary_height: u32,
    pub window: Seq<(u32, Seq<u8>)>,
    pub current: Map<Parameter, i32>,
    pub boundary_fork_vote: bool,
    pub proposed_update: Seq<u8>,
}

/// The heights and the votes that a window holds.
pub open spec fn window_view(window: Seq<(u32, [u8; 3])>) -> Seq<(u32, Seq<u8>)> {
    Seq::new(window.len(), |i: int| (window[i].0, window[i].1@))
}

impl View for VoteCall {
    type V = VoteView;

    open spec fn view(&self) -> VoteView {
        VoteView {
            config: self.config,
            boundary_height: self.boundary_height,
            window: window_view(self.window@),
            current: self.current@,
            boundary_fork_vote: self.boundary_fork_vote,
            proposed_update: self.proposed_update@,
        }
    }
}

/// The bytes that the hexadecimal text at a member stands for.
pub open spec fn bytes_at(doc: JsonView, key: Seq<char>) -> Option<Seq<u8>> {
    match opt_str(doc.get(key)) {
        Some(s) => match hex_decoded(encode_utf8(s)) {
            Ok(bytes) => Some(bytes),
            Err(_) => None,
        },
        None => None,
    }
}

/// The three votes at a member.
pub open spec fn votes_at(doc: JsonView, key: Seq<char>) -> Option<Seq<u8>> {
    match bytes_at(doc, key) {
        Some(bytes) => if bytes.len() == 3 {
            Some(bytes)
        } else {
            None
        },
        None => None,
    }
}

/// The vote that asks for a fork.
pub const SOFT_FORK_VOTE: u8 = 120;

/// The bytes that the hexadecimal text at a member stands for.
fn read_bytes(doc: &Json, key: &str) -> (r: Option<Vec<u8>>)
    ensures
        (match r {
            Some(bytes) => Some(bytes@),
            None => None,
        }) == bytes_at(doc@, key@),
{
    match doc.get(key) {
        Some(v) => match v.as_str() {
            Some(s) => match hex_decode(s) {
                Ok(bytes) => Some(bytes),
                Err(_) => None,
            },
            None => None,
        },
        None => None,
    }
}

/// The three votes at a member.
fn read_votes(doc: &Json, key: &str) -> (r: Option<[u8; 3]>)
    ensures
        (match r {
            Some(votes) => Some(votes@),
            None => None,
        }) == votes_at(doc@, key@),
{
    match read_bytes(doc, key) {
        Some(bytes) => if bytes.len() == 3 {
            let votes: [u8; 3] = [bytes[0], bytes[1], bytes[2]];
            assert(votes@ =~= bytes@);
            Some(votes)
        } else {
            None
        },
        None => None,
    }
}

/// One vote of a stream, or why it cannot be read.
pub open spec fn stream_vote(i: nat, vote: JsonView) -> Result<(u32, Seq<u8>), Seq<char>> {
    match u32_at(vote, "height"@) {
        None => Err("vote_stream["@ + decimal(i) + "].height missing"@),
        Some(height) => match votes_at(vote, "votes"@) {
            None => Err("vote_stream["@ + decimal(i) + "].votes malformed"@),
            Some(votes) => Ok((height, votes)),
        },
    }
}

/// The votes of a stream: the first that cannot be read decides the error.
pub open spec fn stream_votes(stream: Seq<JsonView>) -> Result<Seq<(u32, Seq<u8>)>, Seq<char>>
    decreases stream.len(),
{
    if stream.len() == 0 {
        Ok(Seq::empty())
    } else {
        match stream_votes(stream.drop_last()) {
            Err(e) => Err(e),
            Ok(before) => match stream_vote((stream.len() - 1) as nat, stream.last()) {
                Err(e) => Err(e),
                Ok(vote) => Ok(before.push(vote)),
            },
        }
    }
}

/// An error stays the outcome whatever votes follow.
proof fn lemma_stream_error(stream: Seq<JsonView>, n: int)
    requires
        0 <= n <= stream.len(),
        stream_votes(stream.take(n)) is Err,
    ensures
        stream_votes(stream) == stream_votes(stream.take(n)),
    decreases stream.len(),
{
    if n < stream.len() {
        assert(stream.drop_last().take(n) =~= stream.take(n));
        lemma_stream_error(stream.drop_last(), n);
    } else {
        assert(stream.take(n) =~= stream);
    }
}

/// Reads one vote of a stream.
fn read_vote(i: usize, vote: &Json) -> (r: Result<(u32, [u8; 3]), String>)
    ensures
        (match r {
            Ok(v) => Ok((v.0, v.1@)),
            Err(e) => Err(e@),
        }) == stream_vote(i as nat, vote@),
{
    let height: u32 = match read_u32(vote, "height") {
        Some(h) => h,
        None => return Err(
            join3("vote_stream[", decimal_text(i as u128).as_str(), "].height missing"),
        ),
    };
    match read_votes(vote, "votes") {
        Some(votes) => Ok((height, votes)),
        None => Err(join3("vote_stream[", decimal_text(i as u128).as_str(), "].votes malformed")),
    }
}

/// Reads the votes of a stream.
fn read_stream(stream: &Vec<Json>) -> (r: Result<Vec<(u32, [u8; 3])>, String>)
    ensures
        (match r {
            Ok(window) => Ok(window_view(window@)),
            Err(e) => Err(e@),
        }) == stream_votes(items_view(stream@)),
{
    let ghost view = items_view(stream@);
    let mut out: Vec<(u32, [u8; 3])> = Vec::new();
    let mut i: usize = 0;
    assert(view.take(0) =~= Seq::empty());
    assert(window_view(out@) =~= Seq::empty());
    while i < stream.len()
        invariant
            i <= stream@.len(),
            view == items_view(stream@),
            stream_votes(view.take(i as int)) == Ok::<Seq<(u32, Seq<u8>)>, Seq<char>>(
                window_view(out@),
            ),
        decreases stream@.len() - i,
    {
        assert(view.take(i + 1).drop_last() =~= view.take(i as int));
        assert(view.take(i + 1).last() == view[i as int]);
        match read_vote(i, &stream[i]) {
            Ok(vote) => {
                let ghost before = out@;
                out.push(vote);
                assert(window_view(out@) =~= window_view(before).push((vote.0, vote.1@)));
            },
            Err(e) => {
                proof {
                    lemma_stream_error(view, i + 1);
                }
                return Err(e);
            },
        }
        i = i + 1;
    }
    assert(view.take(i as int) =~= view);
    Ok(out)
}

/// The settings of a voting entry, where all are there.
pub open spec fn voting_config(settings: JsonView) -> Option<VotingConfig> {
    match (
        u32_at(settings, "voting_length"@),
        u32_at(settings, "soft_fork_epochs"@),
        u32_at(settings, "activation_epochs"@),
        u32_at(settings, "version2_activation_height"@),
    ) {
        (
            Some(voting_length),
            Some(soft_fork_epochs),
            Some(activation_epochs),
            Some(version2_activation_height),
        ) => Some(
            VotingConfig {
                voting_length,
                soft_fork_epochs,
                activation_epochs,
                version2_activation_height,
            },
        ),
        _ => None,
    }
}

/// What a voting entry with these settings and this payload asks for, or why
/// it cannot be set up.
pub open spec fn payload_plan(config: VotingConfig, p: JsonView) -> Result<VoteView, Seq<char>> {
    match u32_at(p, "boundary_height"@) {
        None => Err("payload.boundary_height missing"@),
        Some(boundary_height) => match opt_array(p.get("vote_stream"@)) {
            None => Err("payload.vote_stream missing"@),
            Some(stream) => match stream_votes(stream) {
                Err(e) => Err(e),
                Ok(window) => match voting_table(p.get2("current_parameters"@, "table"@)) {
                    Err(e) => Err(e),
                    Ok(current) => match votes_at(p, "boundary_votes"@) {
                        None => Err("payload.boundary_votes malformed"@),
                        Some(votes) => match bytes_at(p, "proposed_update"@) {
                            None => Err("payload.proposed_update malformed"@),
                            Some(proposed_update) => Ok(
                                VoteView {
                                    config,
                                    boundary_height,
                                    window,
                                    current,
                                    boundary_fork_vote: votes.contains(SOFT_FORK_VOTE),
                                    proposed_update,
                                },
                            ),
                        },
                    },
                },
            },
        },
    }
}

/// What a voting entry asks for, or why it cannot be set up.
pub open spec fn vote_plan(entry: JsonView) -> Result<VoteView, Seq<char>> {
    match entry.get("settings"@) {
        Some(JsonView::Object(members)) => match voting_config(JsonView::Object(members)) {
            None => Err("voting settings incomplete"@),
            Some(config) => match entry.get("payload"@) {
                None => Err("payload missing"@),
                Some(payload) => payload_plan(config, payload),
            },
        },
        _ => Err("settings missing"@),
    }
}

/// What reading a voting entry gives.
pub open spec fn vote_plan_view(r: Result<VoteCall, String>) -> Result<VoteView, Seq<char>> {
    match r {
        Ok(call) => Ok(call@),
        Err(e) => Err(e@),
    }
}

/// Reads the payload of a voting entry.
fn plan_payload(config: VotingConfig, p: &Json) -> (r: Result<VoteCall, String>)
    ensures
        vote_plan_view(r) == payload_plan(config, p@),
{
    let boundary_height: u32 = match read_u32(p, "boundary_height") {
        Some(h) => h,
        None => return Err("payload.boundary_height missing".to_owned()),
    };
    let stream: &Vec<Json> = match p.get("vote_stream") {
        Some(v) => match v.as_array() {
            Some(items) => items,
            None => return Err("payload.vote_stream missing".to_owned()),
        },
        None => return Err("payload.vote_stream missing".to_owned()),
    };
    let window: Vec<(u32, [u8; 3])> = match read_stream(stream) {
        Ok(window) => window,
        Err(e) => return Err(e),
    };
    let current: ParameterTable = match decode_table(p.get2("current_parameters", "table")) {
        Ok(table) => table,
        Err(e) => return Err(e),
    };
    let votes: [u8; 3] = match read_votes(p, "boundary_votes") {
        Some(votes) => votes,
        None => return Err("payload.boundary_votes malformed".to_owned()),
    };
    let proposed_update: Vec<u8> = match read_bytes(p, "proposed_update") {
        Some(bytes) => bytes,
        None => return Err("payload.proposed_update malformed".to_owned()),
    };
    let boundary_fork_vote: bool = votes[0] == SOFT_FORK_VOTE || votes[1] == SOFT_FORK_VOTE
        || votes[2] == SOFT_FORK_VOTE;
    proof {
        assert(votes@.len() == 3);
        if boundary_fork_vote {
            assert(votes@[0] == SOFT_FORK_VOTE || votes@[1] == SOFT_FORK_VOTE || votes@[2]
                == SOFT_FORK_VOTE);
        }
    }
    Ok(
        VoteCall { config, boundary_height, window, current, boundary_fork_vote, proposed_update },
    )
}

/// Reads a voting entry.
fn plan_voting(entry: &Json) -> (r: Result<VoteCall, String>)
    ensures
        vote_plan_view(r) == vote_plan(entry@),
{
    broadcast use crate::json::lemma_parts_view;

    let s: &Json = match entry.get("settings") {
        Some(s) => match s {
            Json::Object(_) => s,
            _ => return Err("settings missing".to_owned()),
        },
        None => return Err("settings missing".to_owned()),
    };
    let config: VotingConfig = match (
        read_u32(s, "voting_length"),
        read_u32(s, "soft_fork_epochs"),
        read_u32(s, "activation_epochs"),
        read_u32(s, "version2_activation_height"),
    ) {
        (
            Some(voting_length),
            Some(soft_fork_epochs),
            Some(activation_epochs),
            Some(version2_activation_height),
        ) => VotingConfig {
            voting_length,
            soft_fork_epochs,
            activation_epochs,
            version2_activation_height,
        },
        _ => return Err("voting settings incomplete".to_owned()),
    };
    match entry.get("payload") {
        Some(p) => plan_payload(config, p),
        None => Err("payload missing".to_owned()),
    }
}

/// What came of a computation of the parameters behind an epoch boundary.
pub enum VoteReply {
    /// The computation failed.
    Failed(String),
    /// The next table and the update that was activated.
    Next { table: ParameterTable, activated: Vec<u8> },
}

/// The answer to a voting entry.
pub open spec fn vote_answer(reply: VoteReply) -> JsonView {
    match reply {
        VoteReply::Failed(e) => errored_view("boundary parameters: "@ + e@),
        VoteReply::Next { table, activated } => JsonView::Object(
            seq![
                ("parameters"@, JsonView::Object(seq![("table"@, table_object(table@))])),
                ("activated_update"@, JsonView::Text(hex_text(activated@))),
                ("error"@, JsonView::Null),
            ],
        ),
    }
}

/// The answer to a voting entry.
pub fn vote_result(reply: &VoteReply) -> (r: Json)
    ensures
        r@ == vote_answer(*reply),
{
    match reply {
        VoteReply::Failed(e) => errored(join2("boundary parameters: ", e.as_str()).as_str()),
        VoteReply::Next { table, activated } => {
            let mut inner: Vec<(String, Json)> = no_fields();
            put(&mut inner, "table", table_json(table));
            assert(fields_view(inner@) =~= seq![("table"@, table_object(table@))]);
            let mut members: Vec<(String, Json)> = no_fields();
            put(&mut members, "parameters", object(inner));
            put(&mut members, "activated_update", Json::Text(hex_encode(activated.as_slice())));
            put(&mut members, "error", Json::Null);
            assert(fields_view(members@) =~= vote_answer(*reply)->Object_0);
            object(members)
        },
    }
}

// ---------------------------------------------------------------- dispatch

/// What becomes of a chain-tier entry.
#[derive(Debug, PartialEq, Eq)]
pub enum ChainStep {
    /// The answer.
    Done(Json),
    /// A difficulty is to be computed; `retarget_result` gives the answer.
    Retarget(RetargetCall),
    /// The next parameters are to be computed; `vote_result` gives the answer.
    Vote(VoteCall),
}

/// What becomes of a chain-tier entry.
pub ghost enum ChainStepView {
    Done(JsonView),
    Retarget(RetargetView),
    Vote(VoteView),
}

impl View for ChainStep {
    type V = ChainStepView;

    open spec fn view(&self) -> ChainStepView {
        match self {
            ChainStep::Done(answer) => ChainStepView::Done(answer@),
            ChainStep::Retarget(call) => ChainStepView::Retarget(call@),
            ChainStep::Vote(call) => ChainStepView::Vote(call@),
        }
    }
}

/// What becomes of a chain-tier entry, by its kind.
pub open spec fn chain_plan(entry: JsonView) -> ChainStepView {
    match opt_str(entry.get("kind"@)) {
        None => ChainStepView::Done(errored_view("entry has no kind"@)),
        Some(kind) => if kind == "retargeting"@ {
            match retarget_plan(entry) {
                Ok(call) => ChainStepView::Retarget(call),
                Err(answer) => ChainStepView::Done(answer),
            }
        } else if kind == "voting"@ {
            match vote_plan(entry) {
                Ok(call) => ChainStepView::Vote(call),
                Err(e) => ChainStepView::Done(errored_view(e)),
            }
        } else {
            ChainStepView::Done(not_implemented_view())
        },
    }
}

/// Reads a chain-tier entry: its answer, or the computation it asks for.
pub fn run_chain_entry(entry: &Json) -> (r: ChainStep)
    ensures
        r@ == chain_plan(entry@),
{
    let kind: &str = match entry.get("kind") {
        Some(v) => match v.as_str() {
            Some(kind) => kind,
            None => return ChainStep::Done(errored("entry has no kind")),
        },
        None => return ChainStep::Done(errored("entry has no kind")),
    };
    if same_text(kind, "retargeting") {
        match plan_retargeting(entry) {
            Ok(call) => ChainStep::Retarget(call),
            Err(answer) => ChainStep::Done(answer),
        }
    } else if same_text(kind, "voting") {
        match plan_voting(entry) {
            Ok(call) => ChainStep::Vote(call),
            Err(e) => ChainStep::Done(errored(e.as_str())),
        }
    } else {
        ChainStep::Done(not_implemented())
    }
}

// --------------------------------------------------------------------- laws

/// What an entry expects has no part in what becomes of it: two entries that
/// agree on every other member get the same answer or ask for the same
/// computation.
pub proof fn law_expectation_unread(a: JsonView, b: JsonView)
    requires
        forall|key: Seq<char>| key != "expected"@ ==> #[trigger] a.get(key) == b.get(key),
    ensures
        chain_plan(a) == chain_plan(b),
{
    reveal_strlit("expected");
    reveal_strlit("kind");
    reveal_strlit("settings");
    reveal_strlit("payload");
    assert("kind"@.len() == 4 && "payload"@.len() == 7 && "expected"@.len() == 8);
    assert("settings"@[0] == 's' && "expected"@[0] == 'e');
    assert(a.get("kind"@) == b.get("kind"@));
    assert(a.get("settings"@) == b.get("settings"@));
    assert(a.get("payload"@) == b.get("payload"@));
}

/// Whether an answer says that the entry could not be set up or computed, and
/// why.
pub open spec fn says_errored(answer: JsonView) -> bool {
    &&& answer.get("error"@) == Some(JsonView::Text("errored"@))
    &&& answer.get("reason"@) matches Some(JsonView::Text(_))
}

/// Whether an answer carries a result: there is no error and no reason.
pub open spec fn says_done(answer: JsonView) -> bool {
    &&& answer.get("error"@) == Some(JsonView::Null)
    &&& answer.get("reason"@) is None
}

/// The names that answers use are all different.
proof fn lemma_names_differ()
    ensures
        "error"@ != "nbits"@,
        "error"@ != "parameters"@,
        "error"@ != "activated_update"@,
        "reason"@ != "nbits"@,
        "reason"@ != "parameters"@,
        "reason"@ != "activated_update"@,
        "reason"@ != "error"@,
{
    reveal_strlit("error");
    reveal_strlit("nbits");
    reveal_strlit("parameters");
    reveal_strlit("activated_update");
    reveal_strlit("reason");
    assert("error"@[0] == 'e' && "nbits"@[0] == 'n');
    assert("error"@.len() == 5 && "parameters"@.len() == 10 && "activated_update"@.len() == 16
        && "reason"@.len() == 6 && "nbits"@.len() == 5);
}

/// An entry that is answered without a computation was in error, or the work
/// on it broke off, or it is of a kind that is not supported; the outcome of a
/// computation is an error with its reason where it failed, and a result
/// without one where it did not.
pub proof fn law_answers(entry: JsonView, retarget: RetargetReply, vote: VoteReply)
    ensures
        chain_plan(entry) matches ChainStepView::Done(answer) ==> says_errored(answer)
            || says_panicked(answer) || answer.get("error"@) == Some(
            JsonView::Text("not-implemented"@),
        ),
        retarget is Nbits ==> says_done(retarget_answer(retarget)),
        !(retarget is Nbits) ==> says_errored(retarget_answer(retarget)),
        vote is Next ==> says_done(vote_answer(vote)),
        !(vote is Next) ==> says_errored(vote_answer(vote)),
{
    lemma_names_differ();
    assert forall|reason: Seq<char>| says_errored(#[trigger] errored_view(reason)) by {
        let fields = errored_view(reason)->Object_0;
        lemma_lookup_at(fields, "error"@, 3);
        lemma_lookup_at(fields, "reason"@, 4);
    }
    assert forall|note: Seq<char>| says_panicked(#[trigger] panicked_view(note)) by {
        lemma_panicked(note);
    }
    lemma_lookup_at(not_implemented_view()->Object_0, "error"@, 3);
    if retarget is Nbits {
        lemma_lookup_at(retarget_answer(retarget)->Object_0, "error"@, 1);
        lemma_lookup_none(retarget_answer(retarget)->Object_0, "reason"@);
    }
    if vote is Next {
        lemma_lookup_at(vote_answer(vote)->Object_0, "error"@, 2);
        lemma_lookup_none(vote_answer(vote)->Object_0, "reason"@);
    }
}

/// The damped rule governs a retargeting entry just where its settings give
/// both its start and its epoch length and the target height has reached the
/// start; then that length takes the place of the other.
pub proof fn law_rule_from_settings(entry: JsonView)
    requires
        retarget_plan(entry) is Ok,
    ensures
        ({
            let settings = entry.get("settings"@)->0;
            let target = low32(opt_u64(entry.get2("payload"@, "target_height"@))->0);
            let start = opt_u64(settings.get("eip37_activation_height"@));
            let length = opt_u64(settings.get("eip37_epoch_length"@));
            let call = retarget_plan(entry)->Ok_0;
            &&& call.rule == RetargetRule::Eip37 <==> start is Some && length is Some && target
                >= start->0
            &&& call.epoch_length == if call.rule == RetargetRule::Eip37 {
                low32(length->0)
            } else {
                u32_at(settings, "epoch_length"@)->0
            }
        }),
{
}

/// Cutting a number to its low half leaves what it has beyond multiples of
/// 2^32, and leaves a number below that as it is.
pub proof fn law_low_half(n: u64)
    ensures
        low32(n) as int == n as int % 0x1_0000_0000,
        n <= u32::MAX ==> low32(n) == n,
{
}

/// Whether an entry holds what a retargeting needs: it is of that kind, its
/// settings give the three numbers, its payload the target height, and anchor
/// headers.
pub open spec fn retargeting_given(entry: JsonView) -> bool {
    &&& entry.get("kind"@) == Some(JsonView::Text("retargeting"@))
    &&& entry.get("settings"@) matches Some(settings) && {
        &&& settings is Object
        &&& settings.get("epoch_length"@) matches Some(JsonView::Unsigned(_))
        &&& settings.get("block_interval_ms"@) matches Some(JsonView::Unsigned(_))
        &&& settings.get("initial_nbits"@) matches Some(JsonView::Unsigned(_))
    }
    &&& entry.get("payload"@) matches Some(payload) && {
        &&& payload.get("target_height"@) matches Some(JsonView::Unsigned(_))
        &&& payload.get("anchor_headers"@) is Some
    }
}

/// A difficulty is asked for just where an entry holds what that needs and its
/// anchor headers can be read.
///
/// Under either rule the block interval is the number that the settings give,
/// and the initial difficulty the low half of theirs. The damped rule governs
/// where the settings give its start and its epoch length and the target height
/// has reached the start; it brings its own epoch length. The anchors are those
/// of the payload, each normalized.
pub proof fn law_retargeting(entry: JsonView)
    ensures
        chain_plan(entry) is Retarget <==> retargeting_given(entry) && headers_read(
            normalized_all(entry.get("payload"@)->0.get("anchor_headers"@)->0),
        ) is Ok,
        chain_plan(entry) matches ChainStepView::Retarget(call) ==> {
            let settings = entry.get("settings"@)->0;
            let payload = entry.get("payload"@)->0;
            let target = payload.get("target_height"@)->0->Unsigned_0 as int % 0x1_0000_0000;
            let start = settings.get("eip37_activation_height"@);
            let length = settings.get("eip37_epoch_length"@);
            let damped = start matches Some(JsonView::Unsigned(start)) && length matches Some(
                JsonView::Unsigned(_),
            ) && target >= start;
            &&& settings.get("block_interval_ms"@) == Some(
                JsonView::Unsigned(call.block_interval_ms),
            )
            &&& call.initial_nbits as int == settings.get("initial_nbits"@)->0->Unsigned_0 as int
                % 0x1_0000_0000
            &&& call.rule == RetargetRule::Eip37 <==> damped
            &&& call.rule == RetargetRule::Classic <==> !damped
            &&& damped ==> call.epoch_length as int == length->0->Unsigned_0 as int
                % 0x1_0000_0000
            &&& !damped ==> call.epoch_length as int == settings.get(
                "epoch_length"@,
            )->0->Unsigned_0 as int % 0x1_0000_0000
            &&& match payload.get("anchor_headers"@)->0 {
                JsonView::Array(anchors) => {
                    &&& call.anchors is Array
                    &&& call.anchors->Array_0.len() == anchors.len()
                    &&& forall|i: int|
                        0 <= i < anchors.len() ==> #[trigger] call.anchors->Array_0[i]
                            == normalized(anchors[i])
                },
                other => call.anchors == other,
            }
        },
{
    reveal_strlit("retargeting");
    reveal_strlit("voting");
    assert("retargeting"@.len() == 11 && "voting"@.len() == 6);
}

/// An entry with all that a retargeting needs, whose anchor headers cannot be
/// read, is in error, or reading broke off; one that lacks something is in
/// error.
pub proof fn law_retargeting_refused(entry: JsonView)
    requires
        entry.get("kind"@) == Some(JsonView::Text("retargeting"@)),
        !(chain_plan(entry) is Retarget),
    ensures
        chain_plan(entry) matches ChainStepView::Done(answer) && {
            &&& !retargeting_given(entry) ==> says_errored(answer)
            &&& retargeting_given(entry) ==> match headers_read(
                normalized_all(entry.get("payload"@)->0.get("anchor_headers"@)->0),
            ) {
                Err(ReadFaultView::Undecodable(e)) => says_errored(answer) && answer.get("reason"@)
                    == Some(JsonView::Text("anchor_headers decode: "@ + e)),
                Err(ReadFaultView::Broken(note)) => says_panicked(answer) && answer.get("note"@)
                    == Some(JsonView::Text(note)),
                Ok(_) => false,
            }
        },
{
    reveal_strlit("retargeting");
    reveal_strlit("voting");
    assert("retargeting"@.len() == 11 && "voting"@.len() == 6);
    lemma_names_differ();
    assert forall|reason: Seq<char>| says_errored(#[trigger] errored_view(reason))
        && errored_view(reason).get("reason"@) == Some(JsonView::Text(reason)) by {
        let fields = errored_view(reason)->Object_0;
        lemma_lookup_at(fields, "error"@, 3);
        lemma_lookup_at(fields, "reason"@, 4);
    }
    assert forall|note: Seq<char>| says_panicked(#[trigger] panicked_view(note)) && panicked_view(
        note,
    ).get("note"@) == Some(JsonView::Text(note)) by {
        lemma_panicked(note);
    }
}

/// The answer to a retargeting carries the difficulty that was computed, or
/// says why none was.
pub proof fn law_retargeting_answer(reply: RetargetReply)
    ensures
        match reply {
            RetargetReply::Nbits(nbits) => {
                &&& retarget_answer(reply).get("nbits"@) == Some(JsonView::Unsigned(nbits as u64))
                &&& retarget_answer(reply).get("error"@) == Some(JsonView::Null)
            },
            RetargetReply::Failed(e) => {
                &&& retarget_answer(reply).get("nbits"@) == Some(JsonView::Null)
                &&& retarget_answer(reply).get("error"@) == Some(JsonView::Text("errored"@))
                &&& retarget_answer(reply).get("reason"@) == Some(
                    JsonView::Text("difficulty: "@ + e@),
                )
            },
        },
{
    lemma_names_differ();
    let fields = retarget_answer(reply)->Object_0;
    lemma_lookup_at(fields, "nbits"@, 0);
    match reply {
        RetargetReply::Nbits(_) => {
            lemma_lookup_at(fields, "error"@, 1);
        },
        RetargetReply::Failed(_) => {
            lemma_lookup_at(fields, "error"@, 3);
            lemma_lookup_at(fields, "reason"@, 4);
        },
    }
}

/// Whether a document gives three bytes in hexadecimal at a member.
pub open spec fn gives_votes(doc: JsonView, key: Seq<char>, votes: Seq<u8>) -> bool {
    &&& votes.len() == 3
    &&& doc.get(key) matches Some(JsonView::Text(text)) && hex_decoded(encode_utf8(text)) == Ok::<
        Seq<u8>,
        HexError,
    >(votes)
}

/// Whether an element of a vote stream has a height and three bytes of votes.
pub open spec fn gives_vote(item: JsonView) -> bool {
    &&& item.get("height"@) matches Some(JsonView::Unsigned(_))
    &&& exists|votes: Seq<u8>| #[trigger] gives_votes(item, "votes"@, votes)
}

/// Where a vote stream can be read, each element gives one vote, in its place:
/// the low half of its height and its three bytes. It can be read where every
/// element has a height and three bytes.
pub proof fn law_stream(stream: Seq<JsonView>)
    ensures
        stream_votes(stream) is Ok <==> forall|i: int|
            0 <= i < stream.len() ==> gives_vote(#[trigger] stream[i]),
        stream_votes(stream) matches Ok(window) ==> {
            &&& window.len() == stream.len()
            &&& forall|i: int|
                0 <= i < stream.len() ==> {
                    &&& (#[trigger] window[i]).0 as int == stream[i].get(
                        "height"@,
                    )->0->Unsigned_0 as int % 0x1_0000_0000
                    &&& gives_votes(stream[i], "votes"@, window[i].1)
                }
        },
    decreases stream.len(),
{
    if stream.len() > 0 {
        let past = stream.drop_last();
        let n = stream.len() - 1;
        law_stream(past);
        if stream_votes(stream) is Ok {
            let window = stream_votes(stream)->Ok_0;
            let before = stream_votes(past)->Ok_0;
            assert forall|i: int| 0 <= i < stream.len() implies {
                &&& (#[trigger] window[i]).0 as int == stream[i].get("height"@)->0->Unsigned_0 as int
                    % 0x1_0000_0000
                &&& gives_votes(stream[i], "votes"@, window[i].1)
            } by {
                if i < n {
                    assert(window[i] == before[i]);
                    assert(stream[i] == past[i]);
                }
            }
            assert forall|i: int| 0 <= i < stream.len() implies gives_vote(
                #[trigger] stream[i],
            ) by {
                assert(gives_votes(stream[i], "votes"@, window[i].1));
                if i < n {
                    assert(gives_vote(past[i]));
                }
            }
        }
        if forall|i: int| 0 <= i < stream.len() ==> gives_vote(#[trigger] stream[i]) {
            assert forall|i: int| 0 <= i < past.len() implies gives_vote(#[trigger] past[i]) by {
                assert(stream[i] == past[i]);
            }
            assert(stream[n] == stream.last());
            let votes = choose|votes: Seq<u8>| #[trigger] gives_votes(stream[n], "votes"@, votes);
            assert(gives_votes(stream[n], "votes"@, votes));
        }
    }
}

/// Whether an entry holds what a vote needs, but for the table in force: it is
/// of that kind, its settings give the four numbers, and its payload gives the
/// boundary, a vote stream that can be read, the votes of the boundary block and
/// the proposed update.
pub open spec fn voting_given(entry: JsonView) -> bool {
    &&& entry.get("kind"@) == Some(JsonView::Text("voting"@))
    &&& entry.get("settings"@) matches Some(settings) && {
        &&& settings is Object
        &&& settings.get("voting_length"@) matches Some(JsonView::Unsigned(_))
        &&& settings.get("soft_fork_epochs"@) matches Some(JsonView::Unsigned(_))
        &&& settings.get("activation_epochs"@) matches Some(JsonView::Unsigned(_))
        &&& settings.get("version2_activation_height"@) matches Some(JsonView::Unsigned(_))
    }
    &&& entry.get("payload"@) matches Some(payload) && {
        &&& payload.get("boundary_height"@) matches Some(JsonView::Unsigned(_))
        &&& payload.get("vote_stream"@) matches Some(JsonView::Array(stream)) && stream_votes(
            stream,
        ) is Ok
        &&& exists|votes: Seq<u8>| #[trigger] gives_votes(payload, "boundary_votes"@, votes)
        &&& payload.get("proposed_update"@) matches Some(JsonView::Text(text)) && hex_decoded(
            encode_utf8(text),
        ) is Ok
    }
}

/// The next parameters are asked for just where an entry holds what that needs
/// and the table in force can be read.
///
/// Each setting and the boundary are the low halves of the numbers of their own
/// names. Every element of the vote stream gives one vote, in its place. The
/// boundary block votes for the fork where one of its three votes is 120. The
/// table and the update are those of the payload.
pub proof fn law_voting(entry: JsonView)
    ensures
        chain_plan(entry) is Vote <==> voting_given(entry) && voting_table(
            entry.get("payload"@)->0.get2("current_parameters"@, "table"@),
        ) is Ok,
        chain_plan(entry) matches ChainStepView::Vote(call) ==> {
            let settings = entry.get("settings"@)->0;
            let payload = entry.get("payload"@)->0;
            let stream = payload.get("vote_stream"@)->0->Array_0;
            &&& call.config.voting_length as int == settings.get(
                "voting_length"@,
            )->0->Unsigned_0 as int % 0x1_0000_0000
            &&& call.config.soft_fork_epochs as int == settings.get(
                "soft_fork_epochs"@,
            )->0->Unsigned_0 as int % 0x1_0000_0000
            &&& call.config.activation_epochs as int == settings.get(
                "activation_epochs"@,
            )->0->Unsigned_0 as int % 0x1_0000_0000
            &&& call.config.version2_activation_height as int == settings.get(
                "version2_activation_height"@,
            )->0->Unsigned_0 as int % 0x1_0000_0000
            &&& call.boundary_height as int == payload.get(
                "boundary_height"@,
            )->0->Unsigned_0 as int % 0x1_0000_0000
            &&& call.window.len() == stream.len()
            &&& forall|i: int|
                0 <= i < stream.len() ==> {
                    &&& (#[trigger] call.window[i]).0 as int == stream[i].get(
                        "height"@,
                    )->0->Unsigned_0 as int % 0x1_0000_0000
                    &&& gives_votes(stream[i], "votes"@, call.window[i].1)
                }
            &&& voting_table(payload.get2("current_parameters"@, "table"@)) == Ok::<
                Map<Parameter, i32>,
                Seq<char>,
            >(call.current)
            &&& forall|votes: Seq<u8>| #[trigger]
                gives_votes(payload, "boundary_votes"@, votes) ==> (call.boundary_fork_vote <==> (
                votes[0] == 120 || votes[1] == 120 || votes[2] == 120))
            &&& hex_decoded(encode_utf8(payload.get("proposed_update"@)->0->Text_0)) == Ok::<
                Seq<u8>,
                HexError,
            >(call.proposed_update)
        },
{
    reveal_strlit("retargeting");
    reveal_strlit("voting");
    assert("retargeting"@.len() == 11 && "voting"@.len() == 6);
    let payload = entry.get("payload"@)->0;
    if let Some(JsonView::Array(stream)) = payload.get("vote_stream"@) {
        law_stream(stream);
    }
    if let Some(votes) = votes_at(payload, "boundary_votes"@) {
        assert(gives_votes(payload, "boundary_votes"@, votes));
        if votes.contains(120u8) {
            let i = choose|i: int| 0 <= i < votes.len() && votes[i] == 120;
            assert(i == 0 || i == 1 || i == 2);
        }
        if votes[0] == 120 || votes[1] == 120 || votes[2] == 120 {
            assert(votes.contains(120u8));
        }
    }
}

/// A voting that is not computed is in error, and the entry says why.
pub proof fn law_voting_refused(entry: JsonView)
    requires
        entry.get("kind"@) == Some(JsonView::Text("voting"@)),
        !(chain_plan(entry) is Vote),
    ensures
        chain_plan(entry) matches ChainStepView::Done(answer) && says_errored(answer),
{
    reveal_strlit("retargeting");
    reveal_strlit("voting");
    assert("retargeting"@.len() == 11 && "voting"@.len() == 6);
    lemma_names_differ();
    assert forall|reason: Seq<char>| says_errored(#[trigger] errored_view(reason)) by {
        let fields = errored_view(reason)->Object_0;
        lemma_lookup_at(fields, "error"@, 3);
        lemma_lookup_at(fields, "reason"@, 4);
    }
}

/// An entry is answered as one of a kind that is not supported just where it has
/// a kind and that is neither of the two; an entry without a kind is in error.
pub proof fn law_kinds(entry: JsonView)
    ensures
        (chain_plan(entry) matches ChainStepView::Done(answer) && answer.get("error"@) == Some(
            JsonView::Text("not-implemented"@),
        )) <==> (entry.get("kind"@) matches Some(JsonView::Text(kind)) && kind != "retargeting"@
            && kind != "voting"@),
        !(entry.get("kind"@) matches Some(JsonView::Text(_))) ==> (chain_plan(
            entry,
        ) matches ChainStepView::Done(answer) && says_errored(answer)),
{
    reveal_strlit("errored");
    reveal_strlit("panicked");
    reveal_strlit("not-implemented");
    assert("errored"@.len() == 7 && "panicked"@.len() == 8 && "not-implemented"@.len() == 15);
    lemma_names_differ();
    assert forall|reason: Seq<char>| says_errored(#[trigger] errored_view(reason)) by {
        let fields = errored_view(reason)->Object_0;
        lemma_lookup_at(fields, "error"@, 3);
        lemma_lookup_at(fields, "reason"@, 4);
    }
    assert forall|note: Seq<char>| says_panicked(#[trigger] panicked_view(note)) by {
        lemma_panicked(note);
    }
    lemma_lookup_at(not_implemented_view()->Object_0, "error"@, 3);
}

/// The answer to a voting carries the next table and the activated update in
/// hexadecimal, or says why there is none.
pub proof fn law_voting_answer(reply: VoteReply)
    ensures
        match reply {
            VoteReply::Next { table, activated } => {
                &&& vote_answer(reply).get2("parameters"@, "table"@) == Some(table_object(table@))
                &&& vote_answer(reply).get("activated_update"@) matches Some(JsonView::Text(text))
                    && hex_decoded(encode_utf8(text)) == Ok::<Seq<u8>, HexError>(activated@)
                &&& vote_answer(reply).get("error"@) == Some(JsonView::Null)
            },
            VoteReply::Failed(e) => {
                &&& vote_answer(reply).get("parameters"@) == Some(JsonView::Null)
                &&& vote_answer(reply).get("activated_update"@) == Some(JsonView::Null)
                &&& vote_answer(reply).get("error"@) == Some(JsonView::Text("errored"@))
                &&& vote_answer(reply).get("reason"@) == Some(
                    JsonView::Text("boundary parameters: "@ + e@),
                )
            },
        },
{
    lemma_names_differ();
    reveal_strlit("parameters");
    reveal_strlit("activated_update");
    reveal_strlit("nbits");
    assert("parameters"@.len() == 10 && "activated_update"@.len() == 16 && "nbits"@.len() == 5);
    let fields = vote_answer(reply)->Object_0;
    match reply {
        VoteReply::Next { table, activated } => {
            lemma_lookup_at(fields, "parameters"@, 0);
            lemma_lookup_at(fields, "activated_update"@, 1);
            lemma_lookup_at(fields, "error"@, 2);
            lemma_lookup_at(fields[0].1->Object_0, "table"@, 0);
            law_hex_reads_back(activated@);
        },
        VoteReply::Failed(_) => {
            lemma_lookup_at(fields, "parameters"@, 1);
            lemma_lookup_at(fields, "activated_update"@, 2);
            lemma_lookup_at(fields, "error"@, 3);
            lemma_lookup_at(fields, "reason"@, 4);
        },
    }
}

/// Whether an answer says that an entry is in error for a reason, and gives no
/// result.
pub open spec fn errs(answer: JsonView, reason: Seq<char>) -> bool {
    &&& answer.get("error"@) == Some(JsonView::Text("errored"@))
    &&& answer.get("reason"@) == Some(JsonView::Text(reason))
    &&& answer.get("nbits"@) == Some(JsonView::Null)
    &&& answer.get("parameters"@) == Some(JsonView::Null)
    &&& answer.get("activated_update"@) == Some(JsonView::Null)
}

/// The answer to an entry in error gives the reason and no result.
proof fn lemma_errs(reason: Seq<char>)
    ensures
        errs(errored_view(reason), reason),
{
    lemma_names_differ();
    reveal_strlit("nbits");
    reveal_strlit("parameters");
    reveal_strlit("activated_update");
    assert("nbits"@.len() == 5 && "parameters"@.len() == 10 && "activated_update"@.len() == 16);
    let fields = errored_view(reason)->Object_0;
    lemma_lookup_at(fields, "nbits"@, 0);
    lemma_lookup_at(fields, "parameters"@, 1);
    lemma_lookup_at(fields, "activated_update"@, 2);
    lemma_lookup_at(fields, "error"@, 3);
    lemma_lookup_at(fields, "reason"@, 4);
}

/// An entry without a kind, and a retargeting that lacks something, are in error
/// for the first of these: the kind, the settings, one of the three numbers in
/// them, the target height, the anchor headers, or what keeps these from being
/// read. A kind that is not supported gives no result either.
pub proof fn law_retargeting_reasons(entry: JsonView)
    ensures
        ({
            let answer = chain_plan(entry)->Done_0;
            let kind = entry.get("kind"@);
            let settings = entry.get("settings"@)->0;
            let payload = entry.get("payload"@);
            let anchors = payload->0.get("anchor_headers"@);
            &&& !(kind matches Some(JsonView::Text(_))) ==> errs(answer, "entry has no kind"@)
            &&& kind == Some(JsonView::Text("retargeting"@)) ==> {
                if !(entry.get("settings"@) is Some && settings is Object) {
                    errs(answer, "settings missing"@)
                } else if !((settings.get("epoch_length"@) matches Some(JsonView::Unsigned(_))) && (
                settings.get("block_interval_ms"@) matches Some(JsonView::Unsigned(_))) && (
                settings.get("initial_nbits"@) matches Some(JsonView::Unsigned(_)))) {
                    errs(answer, "retargeting settings incomplete"@)
                } else if !(payload is Some && (payload->0.get("target_height"@) matches Some(
                    JsonView::Unsigned(_),
                ))) {
                    errs(answer, "payload.target_height missing"@)
                } else if anchors is None {
                    errs(answer, "payload.anchor_headers missing"@)
                } else {
                    headers_read(normalized_all(anchors->0)) matches Err(
                        ReadFaultView::Undecodable(e),
                    ) ==> errs(answer, "anchor_headers decode: "@ + e)
                }
            }
            &&& answer.get("error"@) == Some(JsonView::Text("not-implemented"@))
                && chain_plan(entry) is Done ==> answer.get("nbits"@) == Some(JsonView::Null)
                && answer.get("parameters"@) == Some(JsonView::Null) && answer.get(
                "activated_update"@,
            ) == Some(JsonView::Null)
        }),
{
    reveal_strlit("retargeting");
    reveal_strlit("voting");
    reveal_strlit("nbits");
    reveal_strlit("parameters");
    reveal_strlit("activated_update");
    assert("retargeting"@.len() == 11 && "voting"@.len() == 6);
    assert("nbits"@.len() == 5 && "parameters"@.len() == 10 && "activated_update"@.len() == 16);
    assert forall|reason: Seq<char>| errs(#[trigger] errored_view(reason), reason) by {
        lemma_errs(reason);
    }
    let fields = not_implemented_view()->Object_0;
    lemma_lookup_at(fields, "nbits"@, 0);
    lemma_lookup_at(fields, "parameters"@, 1);
    lemma_lookup_at(fields, "activated_update"@, 2);
    if let Some(JsonView::Text(kind)) = entry.get("kind"@) {
        if kind == "retargeting"@ {
            if let Err(ReadFaultView::Broken(note)) = headers_read(
                normalized_all(entry.get2("payload"@, "anchor_headers"@)->0),
            ) {
                lemma_panicked(note);
            }
            law_kinds(entry);
        }
        if kind == "voting"@ {
            law_kinds(entry);
        }
    } else {
        law_kinds(entry);
    }
}

/// The first element of a vote stream that lacks a height or its votes decides
/// the error, the height first.
pub proof fn law_stream_refused(stream: Seq<JsonView>, j: int)
    requires
        0 <= j < stream.len(),
        !gives_vote(stream[j]),
        forall|i: int| 0 <= i < j ==> gives_vote(#[trigger] stream[i]),
    ensures
        stream_votes(stream) == Err::<Seq<(u32, Seq<u8>)>, Seq<char>>(
            if stream[j].get("height"@) matches Some(JsonView::Unsigned(_)) {
                "vote_stream["@ + decimal(j as nat) + "].votes malformed"@
            } else {
                "vote_stream["@ + decimal(j as nat) + "].height missing"@
            },
        ),
{
    let before = stream.take(j);
    let now = stream.take(j + 1);
    assert forall|i: int| 0 <= i < before.len() implies gives_vote(#[trigger] before[i]) by {
        assert(gives_vote(stream[i]));
    }
    law_stream(before);
    assert(now.drop_last() =~= before);
    assert(now.last() == stream[j]);
    if let Some(votes) = votes_at(stream[j], "votes"@) {
        assert(gives_votes(stream[j], "votes"@, votes));
    }
    lemma_stream_error(stream, j + 1);
}

/// A voting that lacks something is in error for the first of these: the
/// settings, one of the four numbers in them, the payload, its boundary, its
/// vote stream, an element of it, the table in force, the votes of the boundary
/// block, or the proposed update.
pub proof fn law_voting_reasons(entry: JsonView)
    requires
        entry.get("kind"@) == Some(JsonView::Text("voting"@)),
    ensures
        ({
            let answer = chain_plan(entry)->Done_0;
            let settings = entry.get("settings"@)->0;
            let payload = entry.get("payload"@)->0;
            let stream = payload.get("vote_stream"@);
            let table = voting_table(payload.get2("current_parameters"@, "table"@));
            if !(entry.get("settings"@) is Some && settings is Object) {
                errs(answer, "settings missing"@)
            } else if !((settings.get("voting_length"@) matches Some(JsonView::Unsigned(_))) && (
            settings.get("soft_fork_epochs"@) matches Some(JsonView::Unsigned(_))) && (settings.get(
                "activation_epochs"@,
            ) matches Some(JsonView::Unsigned(_))) && (settings.get(
                "version2_activation_height"@,
            ) matches Some(JsonView::Unsigned(_)))) {
                errs(answer, "voting settings incomplete"@)
            } else if entry.get("payload"@) is None {
                errs(answer, "payload missing"@)
            } else if !(payload.get("boundary_height"@) matches Some(JsonView::Unsigned(_))) {
                errs(answer, "payload.boundary_height missing"@)
            } else if !(stream matches Some(JsonView::Array(_))) {
                errs(answer, "payload.vote_stream missing"@)
            } else if stream_votes(stream->0->Array_0) is Err {
                errs(answer, stream_votes(stream->0->Array_0)->Err_0)
            } else if table is Err {
                errs(answer, table->Err_0)
            } else if forall|votes: Seq<u8>| !#[trigger]
                gives_votes(payload, "boundary_votes"@, votes) {
                errs(answer, "payload.boundary_votes malformed"@)
            } else if !(payload.get("proposed_update"@) matches Some(JsonView::Text(text))
                && hex_decoded(encode_utf8(text)) is Ok) {
                errs(answer, "payload.proposed_update malformed"@)
            } else {
                chain_plan(entry) is Vote
            }
        }),
{
    reveal_strlit("retargeting");
    reveal_strlit("voting");
    assert("retargeting"@.len() == 11 && "voting"@.len() == 6);
    assert forall|reason: Seq<char>| errs(#[trigger] errored_view(reason), reason) by {
        lemma_errs(reason);
    }
    let payload = entry.get("payload"@)->0;
    if let Some(votes) = votes_at(payload, "boundary_votes"@) {
        assert(gives_votes(payload, "boundary_votes"@, votes));
    }
}

} // verus!
