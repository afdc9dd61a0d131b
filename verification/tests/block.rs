use donner::block::{
    decode_from_header, decode_window, passed_over_ids, run_entry, BlockParts, BlockReplies,
    BlockStep, DecodePhase,
};
use donner::headers::{HeaderFields, ReadFault};
use donner::json::Json;
use donner::params::{Parameter, ParameterTable};

fn obj(fields: Vec<(&str, Json)>) -> Json {
    Json::Object(fields.into_iter().map(|(k, v)| (k.to_string(), v)).collect())
}

fn without(doc: &Json, name: &str) -> Json {
    match doc.duplicate() {
        Json::Object(fields) => {
            Json::Object(fields.into_iter().filter(|f| f.0 != name).collect())
        }
        other => other,
    }
}

fn with(doc: &Json, name: &str, value: Json) -> Json {
    match without(doc, name) {
        Json::Object(mut fields) => {
            fields.push((name.to_string(), value));
            Json::Object(fields)
        }
        other => other,
    }
}

fn errored(reason: &str) -> BlockStep {
    BlockStep::Done(obj(vec![
        ("valid", Json::Null),
        ("post_digest", Json::Null),
        ("cost", Json::Null),
        ("error", Json::text("errored")),
        ("reason", Json::text(reason)),
    ]))
}

fn rejected(reason: &str) -> BlockStep {
    BlockStep::Done(obj(vec![
        ("valid", Json::Bool(false)),
        ("post_digest", Json::Null),
        ("cost", Json::Null),
        ("error", Json::Null),
        ("reason", Json::text(reason)),
    ]))
}

fn field(key: &str, value: &str) -> Json {
    Json::Array(vec![Json::text(key), Json::text(value)])
}

/// A header in its JSON form; the solution holds what is given besides.
fn header(height: u64, distance: Option<Json>) -> Json {
    let mut solution = vec![
        ("pk", Json::text("03bedaee069ff4829500b3c07c4d5fe6b3ea3d3bf76c5c28c1d4dcdb1bed0ade0c")),
        ("n", Json::text("0000000000003105")),
    ];
    if let Some(d) = distance {
        solution.push(("d", d));
    }
    obj(vec![
        ("version", Json::Unsigned(3)),
        ("id", Json::Text("05".repeat(32))),
        ("parentId", Json::Text("ac".repeat(32))),
        ("adProofsRoot", Json::Text("5d".repeat(32))),
        ("stateRoot", Json::Text("5c".repeat(33))),
        ("transactionsRoot", Json::Text("06".repeat(32))),
        ("timestamp", Json::Unsigned(4_928_911_477_310_178_288)),
        ("nBits", Json::Unsigned(37_748_736)),
        ("height", Json::Unsigned(height)),
        ("extensionHash", Json::Text("14".repeat(32))),
        ("powSolutions", obj(solution)),
        ("votes", Json::text("000000")),
    ])
}

fn block_at(height: u64) -> Json {
    obj(vec![
        ("header", header(height, Some(Json::Null))),
        ("blockTransactions", obj(vec![("transactions", Json::Array(vec![Json::Unsigned(1)]))])),
        ("adProofs", obj(vec![("proofBytes", Json::text("0102"))])),
        ("extension", obj(vec![("fields", Json::Array(vec![field("0100", "ff"), field("0200", "")]))])),
    ])
}

fn block() -> Json {
    block_at(5)
}

fn entry() -> Json {
    entry_at(5)
}

fn entry_at(height: u64) -> Json {
    obj(vec![
        ("parent_digest", Json::Text("0a".repeat(33))),
        ("block", block_at(height)),
        ("headers", Json::Array(vec![header(4, Some(Json::Null)), header(3, None)])),
        ("parameters", obj(vec![("table", obj(vec![("6", Json::Unsigned(77))]))])),
    ])
}

fn fields(height: u32) -> HeaderFields {
    HeaderFields { id: [5; 32], version: 3, height, transaction_root: [6; 32] }
}

fn refusal<T>() -> Option<Result<T, String>> {
    Some(Err("boom".to_string()))
}

/// All replies.
fn replies() -> BlockReplies {
    BlockReplies {
        transactions: Some(Ok(())),
        transactions_section: Some(Ok(vec![0x11, 0x12])),
        proofs_section: Some(vec![0x21]),
        extension_section: Some(Ok(vec![0x31, 0x32])),
        pow: Some(Ok(())),
        root: Some(Ok([6; 32])),
        extension: Some(Ok(vec![0x41])),
        applied: Some(Ok([0xb1; 33])),
    }
}

fn in_force() -> ParameterTable {
    let mut table = ParameterTable::defaults();
    table.insert(Parameter::InputCost, 77);
    table
}

fn valid() -> BlockStep {
    BlockStep::Done(obj(vec![
        ("valid", Json::Bool(true)),
        ("post_digest", Json::Text("b1".repeat(33))),
        ("cost", Json::Null),
        ("error", Json::Null),
    ]))
}

#[test]
fn a_block_is_asked_about_step_by_step() {
    let e = entry_at(256);
    let all = replies();
    let mut r = BlockReplies::none();
    assert_eq!(
        run_entry(&e, &r),
        BlockStep::DecodeTransactions(Json::Array(vec![Json::Unsigned(1)]))
    );
    r.transactions = all.transactions;
    assert_eq!(
        run_entry(&e, &r),
        BlockStep::SerializeTransactions { header_id: [5; 32], block_version: 3 }
    );
    r.transactions_section = all.transactions_section;
    assert_eq!(
        run_entry(&e, &r),
        BlockStep::SerializeProofs { header_id: [5; 32], proof_bytes: vec![1, 2] }
    );
    r.proofs_section = all.proofs_section;
    assert_eq!(
        run_entry(&e, &r),
        BlockStep::SerializeExtension {
            header_id: [5; 32],
            fields: vec![([1, 0], vec![0xff]), ([2, 0], vec![])],
        }
    );
    r.extension_section = all.extension_section;
    assert_eq!(run_entry(&e, &r), BlockStep::VerifyPow(header(256, None)));
    r.pow = all.pow;
    assert_eq!(run_entry(&e, &r), BlockStep::TransactionsRoot { version: 3 });
    r.root = all.root;
    assert_eq!(run_entry(&e, &r), BlockStep::ParseExtension(vec![0x31, 0x32]));
    r.extension = all.extension;
    assert_eq!(
        run_entry(&e, &r),
        BlockStep::Apply {
            header: header(256, None),
            window: Json::Array(vec![header(4, None), header(3, None)]),
            transactions_section: vec![0x11, 0x12],
            proofs_section: Some(vec![0x21]),
            extension_section: vec![0x31, 0x32],
            parent_digest: [0x0a; 33],
            anchor_height: 255,
            checkpoint: 0,
            parameters: in_force(),
            expected_boundary: Some(in_force()),
            expected_update: Some(vec![0x41]),
        }
    );
    r.applied = all.applied;
    assert_eq!(run_entry(&e, &r), valid());
}

#[test]
fn the_extension_is_parsed_at_boundaries_only() {
    for height in [1, 127, 129, 255] {
        for extension in [None, Some(Ok(vec![0x41]))] {
            let mut r = replies();
            r.extension = extension;
            r.applied = None;
            match run_entry(&entry_at(height), &r) {
                BlockStep::Apply { anchor_height, expected_boundary, expected_update, .. } => {
                    assert_eq!(anchor_height as u64, height - 1);
                    assert_eq!((expected_boundary, expected_update), (None, None));
                }
                other => panic!("{:?}", other),
            }
        }
    }
    let mut r = replies();
    r.extension = None;
    assert_eq!(run_entry(&entry_at(128), &r), BlockStep::ParseExtension(vec![0x31, 0x32]));
}

#[test]
fn headers_must_be_headers() {
    let value = |doc: &Json| serde_json::from_str::<serde_json::Value>(&doc.to_text()).unwrap();
    for doc in [Json::Null, obj(vec![]), with(&header(1, None), "height", Json::Negative(-1))] {
        let e = serde_json::from_value::<ergo_chain_types::Header>(value(&doc)).unwrap_err();
        let entry = with(&entry(), "block", with(&block(), "header", doc));
        assert_eq!(
            run_entry(&entry, &replies()),
            errored(&format!("block.header decode: {}", e))
        );
    }
    for doc in [Json::Null, obj(vec![]), Json::Array(vec![header(1, Some(Json::Bool(true)))])] {
        let e = serde_json::from_value::<Vec<ergo_chain_types::Header>>(value(&doc)).unwrap_err();
        assert_eq!(
            run_entry(&with(&entry(), "headers", doc), &replies()),
            errored(&format!("headers decode: {}", e))
        );
    }
}

#[test]
fn an_entry_on_which_reading_breaks_off_keeps_the_note() {
    let odd = with(&header(5, None), "votes", Json::Array(vec![Json::Negative(-1)]));
    let answer = BlockStep::Done(obj(vec![
        ("error", Json::text("panicked")),
        ("note", Json::text("called `Option::unwrap()` on a `None` value")),
    ]));
    let entry_with = |doc: Json| with(&entry(), "block", with(&block(), "header", doc));
    assert_eq!(run_entry(&entry_with(odd.duplicate()), &replies()), answer);
    let window = with(&entry(), "headers", Json::Array(vec![odd]));
    assert_eq!(run_entry(&window, &replies()), answer);
}

#[test]
fn decoding_goes_on_from_what_the_headers_read_as() {
    let no = || ReadFault::Undecodable("no".to_string());
    let off = || ReadFault::Broken("off".to_string());
    let broken = DecodePhase::Broken("off".to_string());
    let at = |header: Result<HeaderFields, ReadFault>| {
        decode_from_header(&entry(), &replies(), [0; 33], Json::Null, &header)
    };
    let reason = |text: &str| DecodePhase::Errored(text.to_string());
    assert_eq!(at(Err(no())), reason("block.header decode: no"));
    assert_eq!(at(Err(off())), broken);
    let ground = "header.height is 0 \u{2014} no parent state to anchor";
    assert_eq!(at(Ok(fields(0))), reason(ground));
    match at(Ok(fields(9))) {
        DecodePhase::Ready(input) => {
            assert_eq!(input.header, fields(9));
            assert_eq!(input.parent_digest, [0; 33]);
            assert_eq!(input.parameters, in_force());
            assert_eq!(input.transactions_section, vec![0x11, 0x12]);
            assert_eq!(input.proofs_section, Some(vec![0x21]));
            assert_eq!(input.extension_section, vec![0x31, 0x32]);
        }
        other => panic!("{:?}", other),
    }
    let behind = |window: Result<Vec<HeaderFields>, ReadFault>| {
        let parts = BlockParts { parent_digest: [0; 33], header: fields(9), header_json: Json::Null };
        decode_window(&entry(), &replies(), parts, Json::Null, &window)
    };
    assert_eq!(behind(Err(no())), reason("headers decode: no"));
    assert_eq!(behind(Err(off())), broken);
    assert_eq!(behind(Ok(vec![])), reason("headers window is empty"));
    assert!(matches!(behind(Ok(vec![fields(8)])), DecodePhase::Ready(_)));
}

#[test]
fn failures_of_the_work_are_reported_in_the_setup() {
    let e = entry();
    let mut r = replies();
    r.transactions = refusal();
    assert_eq!(run_entry(&e, &r), errored("transactions decode: boom"));
    let mut r = replies();
    r.transactions_section = refusal();
    assert_eq!(run_entry(&e, &r), errored("blockTransactions serialize: boom"));
    let mut r = replies();
    r.extension_section = refusal();
    assert_eq!(run_entry(&e, &r), errored("extension serialize: boom"));
}

#[test]
fn failures_of_the_judgement_are_verdicts() {
    let e = entry_at(128);
    let mut r = replies();
    r.pow = refusal();
    assert_eq!(run_entry(&e, &r), rejected("hdrPoW: boom"));
    let mut r = replies();
    r.root = refusal();
    assert_eq!(run_entry(&e, &r), rejected("bsCorrespondsToHeader: transactionsRoot: boom"));
    let mut r = replies();
    r.root = Some(Ok([7; 32]));
    let reason = format!(
        "bsCorrespondsToHeader: transactionsRoot {} != header {}",
        "07".repeat(32),
        "06".repeat(32)
    );
    assert_eq!(run_entry(&e, &r), rejected(&reason));
    let mut r = replies();
    r.extension = refusal();
    assert_eq!(run_entry(&e, &r), rejected("extension parse: boom"));
    assert_eq!(run_entry(&entry_at(127), &r), valid());
    let mut r = replies();
    r.applied = refusal();
    assert_eq!(run_entry(&e, &r), rejected("boom"));
}

#[test]
fn the_parent_digest_is_33_bytes_in_hex() {
    let digest = |text: &str| run_entry(&with(&entry(), "parent_digest", Json::text(text)), &replies());
    assert_eq!(run_entry(&without(&entry(), "parent_digest"), &replies()), errored("parent_digest missing"));
    assert_eq!(digest("zz"), errored("parent_digest hex: Invalid character 'z' at position 0"));
    assert_eq!(digest("0"), errored("parent_digest hex: Odd number of digits"));
    assert_eq!(digest("00"), errored("parent_digest is not 33 bytes"));
    assert_eq!(digest(&"0A".repeat(33)), valid());
}

#[test]
fn what_is_missing_is_named() {
    let at = |e: Json| run_entry(&e, &replies());
    let part = |b: Json| run_entry(&with(&entry(), "block", b), &replies());
    assert_eq!(at(without(&entry(), "block")), errored("block.header missing"));
    assert_eq!(part(without(&block(), "header")), errored("block.header missing"));
    assert_eq!(at(without(&entry(), "headers")), errored("headers missing"));
    assert_eq!(at(without(&entry(), "parameters")), errored("parameters.table missing"));
    assert_eq!(
        part(without(&block(), "blockTransactions")),
        errored("block.blockTransactions.transactions missing")
    );
    assert_eq!(part(without(&block(), "extension")), errored("block.extension.fields missing"));
    assert_eq!(
        at(entry_at(0)),
        errored("header.height is 0 \u{2014} no parent state to anchor")
    );
    assert_eq!(
        at(with(&entry(), "headers", Json::Array(vec![]))),
        errored("headers window is empty")
    );
}

#[test]
fn a_block_may_come_without_a_proof() {
    let section = |b: Json| {
        let mut r = replies();
        r.applied = None;
        match run_entry(&with(&entry(), "block", b), &r) {
            BlockStep::Apply { proofs_section, .. } => proofs_section,
            other => panic!("{:?}", other),
        }
    };
    assert_eq!(section(block()), Some(vec![0x21]));
    assert_eq!(section(without(&block(), "adProofs")), None);
    let proof = |value: Json| with(&block(), "adProofs", obj(vec![("proofBytes", value)]));
    for value in [Json::Null, Json::text(""), Json::Unsigned(3)] {
        assert_eq!(section(proof(value.duplicate())), None);
        let mut r = BlockReplies::none();
        r.transactions = Some(Ok(()));
        r.transactions_section = Some(Ok(vec![]));
        assert!(matches!(
            run_entry(&with(&entry(), "block", proof(value)), &r),
            BlockStep::SerializeExtension { .. }
        ));
    }
    let bad = with(&block(), "adProofs", obj(vec![("proofBytes", Json::text("0"))]));
    assert_eq!(
        run_entry(&with(&entry(), "block", bad), &replies()),
        errored("proofBytes hex: Odd number of digits")
    );
}

#[test]
fn an_extension_field_that_cannot_be_read_says_why() {
    let reason = |kv: Json| {
        let list = Json::Array(vec![field("0001", "aa"), kv]);
        let b = with(&block(), "extension", obj(vec![("fields", list)]));
        run_entry(&with(&entry(), "block", b), &replies())
    };
    assert_eq!(reason(Json::Null), errored("extension field 1: key"));
    assert_eq!(
        reason(Json::Array(vec![Json::Unsigned(1), Json::text("")])),
        errored("extension field 1: key")
    );
    assert_eq!(reason(Json::Array(vec![Json::text("0001")])), errored("extension field 1: value"));
    assert_eq!(
        reason(field("0x01", "")),
        errored("extension field 1 key hex: Invalid character 'x' at position 1")
    );
    assert_eq!(reason(field("00", "")), errored("extension field 1: key is not 2 bytes"));
    assert_eq!(
        reason(field("0001", "abc")),
        errored("extension field 1 value hex: Odd number of digits")
    );
}

#[test]
fn an_answer_stands_when_more_replies_come() {
    let mut early = BlockReplies::none();
    early.transactions = Some(Err("boom".to_string()));
    let mut late = replies();
    late.transactions = Some(Err("boom".to_string()));
    assert_eq!(run_entry(&entry(), &early), run_entry(&entry(), &late));
}

#[test]
fn what_a_block_entry_expects_is_not_read() {
    let graded = with(&entry(), "expected", obj(vec![("valid", Json::Bool(false))]));
    assert_eq!(run_entry(&graded, &replies()), valid());
}

#[test]
fn votes_behind_a_field_that_fails_are_not_read() {
    let odd = Json::Array(vec![Json::Negative(-1)]);
    let bad = obj(vec![("version", Json::text("x")), ("votes", odd)]);
    let value: serde_json::Value = serde_json::from_str(&bad.to_text()).unwrap();
    let e = serde_json::from_value::<ergo_chain_types::Header>(value).unwrap_err();
    let in_block = with(&entry(), "block", with(&block(), "header", bad.duplicate()));
    let reason = format!("block.header decode: {}", e);
    assert_eq!(run_entry(&in_block, &replies()), errored(&reason));
    let in_window = with(&entry(), "headers", Json::Array(vec![bad]));
    assert_eq!(run_entry(&in_window, &replies()), errored(&format!("headers decode: {}", e)));
}

#[test]
fn ids_of_no_parameter_are_passed_over_in_order() {
    let table = |members: Vec<(&str, Json)>| {
        with(&entry(), "parameters", obj(vec![("table", obj(members))]))
    };
    let one = || Json::Unsigned(1);
    let many = table(vec![("200", one()), ("6", one()), ("-3", one()), ("10", one())]);
    assert_eq!(passed_over_ids(&many), vec![200, -3, 10]);
    assert_eq!(passed_over_ids(&entry()), Vec::<i32>::new());
    let failing = table(vec![("200", one()), ("201", Json::Null), ("202", one())]);
    assert_eq!(passed_over_ids(&failing), vec![200]);
    assert_eq!(passed_over_ids(&table(vec![("x", one()), ("10", one())])), Vec::<i32>::new());
    let early = without(&many, "parent_digest");
    assert_eq!(passed_over_ids(&early), Vec::<i32>::new());
    let unread = with(&many, "headers", Json::Array(vec![]));
    assert_eq!(passed_over_ids(&unread), Vec::<i32>::new());
    assert_eq!(passed_over_ids(&without(&entry(), "parameters")), Vec::<i32>::new());
}
