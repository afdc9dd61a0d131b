use donner::chain_tier::{
    check_anchors, retarget_result, run_chain_entry, truncate32, vote_result, ChainStep, RetargetCall,
    RetargetReply, RetargetRule, VoteCall, VoteReply, VotingConfig,
};
use donner::headers::ReadFault;
use donner::json::Json;
use donner::params::{Parameter, ParameterTable};

fn obj(fields: Vec<(&str, Json)>) -> Json {
    Json::Object(fields.into_iter().map(|(k, v)| (k.to_string(), v)).collect())
}

fn num(n: u64) -> Json {
    Json::Unsigned(n)
}

fn without(doc: &Json, name: &str) -> Json {
    match doc.duplicate() {
        Json::Object(fields) => {
            Json::Object(fields.into_iter().filter(|f| f.0 != name).collect())
        }
        other => other,
    }
}

fn with(doc: &Json, name: &str, value: Json) -> Json {
    match without(doc, name) {
        Json::Object(mut fields) => {
            fields.push((name.to_string(), value));
            Json::Object(fields)
        }
        other => other,
    }
}

fn errored(reason: &str) -> Json {
    obj(vec![
        ("nbits", Json::Null),
        ("parameters", Json::Null),
        ("activated_update", Json::Null),
        ("error", Json::text("errored")),
        ("reason", Json::text(reason)),
    ])
}

fn answer(entry: &Json) -> Json {
    match run_chain_entry(entry) {
        ChainStep::Done(answer) => answer,
        other => panic!("not answered: {:?}", other),
    }
}

// -------------------------------------------------------------- retargeting

fn retarget_settings() -> Json {
    obj(vec![
        ("epoch_length", num(1024)),
        ("block_interval_ms", num(120_000)),
        ("initial_nbits", num(16_842_752)),
    ])
}

fn retarget_payload(height: u64) -> Json {
    obj(vec![("target_height", num(height)), ("anchor_headers", Json::Array(vec![]))])
}

fn retarget_entry(settings: Json, payload: Json) -> Json {
    obj(vec![("kind", Json::text("retargeting")), ("settings", settings), ("payload", payload)])
}

fn planned(entry: &Json) -> RetargetCall {
    match run_chain_entry(entry) {
        ChainStep::Retarget(call) => call,
        other => panic!("no retargeting: {:?}", other),
    }
}

#[test]
fn the_classic_rule_governs_without_the_other_settings() {
    let call = planned(&retarget_entry(retarget_settings(), retarget_payload(5000)));
    assert_eq!(
        call,
        RetargetCall {
            rule: RetargetRule::Classic,
            epoch_length: 1024,
            block_interval_ms: 120_000,
            initial_nbits: 16_842_752,
            anchors: Json::Array(vec![]),
        }
    );
}

#[test]
fn the_damped_rule_governs_from_its_start_on() {
    let settings = with(
        &with(&retarget_settings(), "eip37_activation_height", num(844_673)),
        "eip37_epoch_length",
        num(128),
    );
    let at = planned(&retarget_entry(settings.duplicate(), retarget_payload(844_673)));
    assert_eq!((at.rule, at.epoch_length), (RetargetRule::Eip37, 128));
    let below = planned(&retarget_entry(settings.duplicate(), retarget_payload(844_672)));
    assert_eq!((below.rule, below.epoch_length), (RetargetRule::Classic, 1024));
    let half = without(&settings, "eip37_epoch_length");
    let alone = planned(&retarget_entry(half, retarget_payload(900_000)));
    assert_eq!((alone.rule, alone.epoch_length), (RetargetRule::Classic, 1024));
}

/// A header in its JSON form; the solution holds what is given besides.
fn header(distance: Option<Json>) -> Json {
    let mut solution = vec![
        ("pk", Json::text("03bedaee069ff4829500b3c07c4d5fe6b3ea3d3bf76c5c28c1d4dcdb1bed0ade0c")),
        ("n", Json::text("0000000000003105")),
    ];
    if let Some(d) = distance {
        solution.push(("d", d));
    }
    obj(vec![
        ("version", num(2)),
        ("id", Json::Text("56".repeat(32))),
        ("parentId", Json::Text("ac".repeat(32))),
        ("adProofsRoot", Json::Text("5d".repeat(32))),
        ("stateRoot", Json::Text("5c".repeat(33))),
        ("transactionsRoot", Json::Text("f1".repeat(32))),
        ("timestamp", num(4_928_911_477_310_178_288)),
        ("nBits", num(37_748_736)),
        ("height", num(614_400)),
        ("extensionHash", Json::Text("14".repeat(32))),
        ("powSolutions", obj(solution)),
        ("votes", Json::text("000000")),
    ])
}

#[test]
fn anchor_headers_lose_a_null_distance() {
    let anchors = Json::Array(vec![header(Some(Json::Null)), header(None)]);
    let payload = with(&retarget_payload(7), "anchor_headers", anchors);
    let call = planned(&retarget_entry(retarget_settings(), payload));
    assert_eq!(call.anchors, Json::Array(vec![header(None), header(None)]));
}

#[test]
fn anchor_headers_must_be_headers() {
    for anchors in [Json::Null, Json::Array(vec![Json::Unsigned(1)]), Json::Array(vec![obj(vec![])])] {
        let payload = with(&retarget_payload(7), "anchor_headers", anchors.duplicate());
        let value: serde_json::Value = serde_json::from_str(&anchors.to_text()).unwrap();
        let e = serde_json::from_value::<Vec<ergo_chain_types::Header>>(value).unwrap_err();
        assert_eq!(
            answer(&retarget_entry(retarget_settings(), payload)),
            errored(&format!("anchor_headers decode: {}", e))
        );
    }
}

#[test]
fn anchors_that_fail_before_their_votes_are_an_error() {
    let votes = || Json::Array(vec![Json::Negative(-1), Json::Unsigned(0), Json::Unsigned(0)]);
    let bad = obj(vec![("version", Json::text("x")), ("votes", votes())]);
    let anchors = Json::Array(vec![bad]);
    let value: serde_json::Value = serde_json::from_str(&anchors.to_text()).unwrap();
    let e = serde_json::from_value::<Vec<ergo_chain_types::Header>>(value).unwrap_err();
    let payload = with(&retarget_payload(7), "anchor_headers", anchors);
    assert_eq!(
        answer(&retarget_entry(retarget_settings(), payload)),
        errored(&format!("anchor_headers decode: {}", e))
    );
    let broken = Json::Array(vec![with(&header(None), "votes", votes())]);
    let payload = with(&retarget_payload(7), "anchor_headers", broken);
    assert_eq!(
        answer(&retarget_entry(retarget_settings(), payload)),
        obj(vec![
            ("error", Json::text("panicked")),
            ("note", Json::text("called `Option::unwrap()` on a `None` value")),
        ])
    );
}

#[test]
fn a_computation_is_made_where_its_anchors_can_be_read() {
    let call = || planned(&retarget_entry(retarget_settings(), retarget_payload(9)));
    assert_eq!(check_anchors(call(), &Ok(vec![])), Ok(call()));
    assert_eq!(
        check_anchors(call(), &Err(ReadFault::Undecodable("no".to_string()))),
        Err(errored("anchor_headers decode: no"))
    );
    assert_eq!(
        check_anchors(call(), &Err(ReadFault::Broken("off".to_string()))),
        Err(obj(vec![("error", Json::text("panicked")), ("note", Json::text("off"))]))
    );
}

#[test]
fn numbers_keep_their_low_half() {
    assert_eq!(truncate32(0x1_0000_0005), 5);
    let settings = with(&retarget_settings(), "epoch_length", num(0x2_0000_0100));
    let call = planned(&retarget_entry(settings, retarget_payload(1)));
    assert_eq!(call.epoch_length, 0x100);
}

#[test]
fn a_retargeting_entry_that_cannot_be_set_up_says_why() {
    let whole = retarget_entry(retarget_settings(), retarget_payload(1));
    assert_eq!(answer(&without(&whole, "settings")), errored("settings missing"));
    assert_eq!(answer(&with(&whole, "settings", Json::Null)), errored("settings missing"));
    for name in ["epoch_length", "block_interval_ms", "initial_nbits"] {
        let entry = with(&whole, "settings", without(&retarget_settings(), name));
        assert_eq!(answer(&entry), errored("retargeting settings incomplete"));
    }
    let negative = with(&retarget_settings(), "epoch_length", Json::Negative(-1));
    assert_eq!(
        answer(&with(&whole, "settings", negative)),
        errored("retargeting settings incomplete")
    );
    assert_eq!(answer(&without(&whole, "payload")), errored("payload.target_height missing"));
    let no_anchors = without(&retarget_payload(1), "anchor_headers");
    assert_eq!(
        answer(&with(&whole, "payload", no_anchors)),
        errored("payload.anchor_headers missing")
    );
}

#[test]
fn the_outcome_of_retargeting_is_written() {
    assert_eq!(
        retarget_result(&RetargetReply::Nbits(117_440_512)),
        obj(vec![("nbits", num(117_440_512)), ("error", Json::Null)])
    );
    assert_eq!(
        retarget_result(&RetargetReply::Failed("no anchors".to_string())),
        errored("difficulty: no anchors")
    );
}

// ------------------------------------------------------------------- voting

fn voting_settings() -> Json {
    obj(vec![
        ("voting_length", num(128)),
        ("soft_fork_epochs", num(32)),
        ("activation_epochs", num(16)),
        ("version2_activation_height", num(417_792)),
    ])
}

fn vote(height: u64, votes: &str) -> Json {
    obj(vec![("height", num(height)), ("votes", Json::text(votes))])
}

fn voting_payload() -> Json {
    obj(vec![
        ("boundary_height", num(256)),
        ("vote_stream", Json::Array(vec![vote(129, "030000"), vote(130, "7800ff")])),
        ("current_parameters", obj(vec![("table", obj(vec![("4", num(1_000_000))]))])),
        ("boundary_votes", Json::text("000078")),
        ("proposed_update", Json::text("0A0b")),
    ])
}

fn voting_entry(payload: Json) -> Json {
    obj(vec![("kind", Json::text("voting")), ("settings", voting_settings()), ("payload", payload)])
}

fn voted(entry: &Json) -> VoteCall {
    match run_chain_entry(entry) {
        ChainStep::Vote(call) => call,
        other => panic!("no vote: {:?}", other),
    }
}

#[test]
fn a_voting_entry_asks_for_the_boundary_parameters() {
    let mut current = ParameterTable::empty();
    current.insert(Parameter::MaxBlockCost, 1_000_000);
    assert_eq!(
        voted(&voting_entry(voting_payload())),
        VoteCall {
            config: VotingConfig {
                voting_length: 128,
                soft_fork_epochs: 32,
                activation_epochs: 16,
                version2_activation_height: 417_792,
            },
            boundary_height: 256,
            window: vec![(129, [3, 0, 0]), (130, [0x78, 0, 0xff])],
            current,
            boundary_fork_vote: true,
            proposed_update: vec![0x0a, 0x0b],
        }
    );
}

#[test]
fn only_a_vote_for_the_fork_counts_as_one() {
    let payload = with(&voting_payload(), "boundary_votes", Json::text("010203"));
    assert!(!voted(&voting_entry(payload)).boundary_fork_vote);
    let first = with(&voting_payload(), "boundary_votes", Json::text("780000"));
    assert!(voted(&voting_entry(first)).boundary_fork_vote);
    let middle = with(&voting_payload(), "boundary_votes", Json::text("007800"));
    assert!(voted(&voting_entry(middle)).boundary_fork_vote);
}

#[test]
fn a_voting_entry_that_cannot_be_set_up_says_why() {
    let whole = voting_entry(voting_payload());
    assert_eq!(answer(&without(&whole, "settings")), errored("settings missing"));
    let settings = without(&voting_settings(), "activation_epochs");
    assert_eq!(
        answer(&with(&whole, "settings", settings)),
        errored("voting settings incomplete")
    );
    assert_eq!(answer(&without(&whole, "payload")), errored("payload missing"));
    let reason = |payload: Json| answer(&voting_entry(payload));
    let p = voting_payload();
    assert_eq!(
        reason(without(&p, "boundary_height")),
        errored("payload.boundary_height missing")
    );
    assert_eq!(reason(without(&p, "vote_stream")), errored("payload.vote_stream missing"));
    let no_height = Json::Array(vec![vote(1, "000000"), obj(vec![("votes", Json::text("000000"))])]);
    assert_eq!(
        reason(with(&p, "vote_stream", no_height)),
        errored("vote_stream[1].height missing")
    );
    for votes in ["0000", "00000000", "00000g", "00000"] {
        let stream = Json::Array(vec![vote(1, votes)]);
        assert_eq!(
            reason(with(&p, "vote_stream", stream)),
            errored("vote_stream[0].votes malformed")
        );
    }
    assert_eq!(
        reason(without(&p, "current_parameters")),
        errored("current_parameters.table missing")
    );
    let unknown = obj(vec![("table", obj(vec![("99", num(1))]))]);
    assert_eq!(
        reason(with(&p, "current_parameters", unknown)),
        errored("unmodeled parameter id 99")
    );
    assert_eq!(
        reason(with(&p, "boundary_votes", Json::text("00"))),
        errored("payload.boundary_votes malformed")
    );
    assert_eq!(
        reason(with(&p, "proposed_update", Json::text("0"))),
        errored("payload.proposed_update malformed")
    );
    assert_eq!(
        reason(without(&p, "proposed_update")),
        errored("payload.proposed_update malformed")
    );
}

#[test]
fn the_outcome_of_voting_is_written() {
    let mut table = ParameterTable::empty();
    table.insert(Parameter::BlockVersion, 4);
    table.insert(Parameter::MaxBlockCost, 8_000_000);
    let reply = VoteReply::Next { table, activated: vec![0x01, 0xff] };
    assert_eq!(
        vote_result(&reply),
        obj(vec![
            (
                "parameters",
                obj(vec![("table", obj(vec![("123", num(4)), ("4", num(8_000_000))]))])
            ),
            ("activated_update", Json::text("01ff")),
            ("error", Json::Null),
        ])
    );
    assert_eq!(
        vote_result(&VoteReply::Failed("bad epoch".to_string())),
        errored("boundary parameters: bad epoch")
    );
}

// ----------------------------------------------------------------- dispatch

#[test]
fn kinds_that_are_not_there_are_answered_as_such() {
    assert_eq!(answer(&obj(vec![])), errored("entry has no kind"));
    assert_eq!(answer(&obj(vec![("kind", num(1))])), errored("entry has no kind"));
    assert_eq!(
        answer(&obj(vec![("kind", Json::text("mining"))])),
        obj(vec![
            ("nbits", Json::Null),
            ("parameters", Json::Null),
            ("activated_update", Json::Null),
            ("error", Json::text("not-implemented")),
        ])
    );
}

#[test]
fn what_a_chain_entry_expects_is_not_read() {
    let entry = voting_entry(voting_payload());
    let graded = with(&entry, "expected", obj(vec![("error", Json::text("anything"))]));
    assert_eq!(run_chain_entry(&entry), run_chain_entry(&graded));
}
