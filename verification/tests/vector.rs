use donner::block::BlockStep;
use donner::chain_tier::ChainStep;
use donner::json::Json;
use donner::notes::panicked;
use donner::vector::{
    entry_name, run_nipopow_entry, run_vector_file, start_entry, vector_entries,
    vector_tier, Actuals, EntryStart, NipopowStep, Tier,
};

fn obj(fields: Vec<(&str, Json)>) -> Json {
    Json::Object(fields.into_iter().map(|(k, v)| (k.to_string(), v)).collect())
}

fn vector(schema: &str) -> Json {
    obj(vec![("schema", Json::text(schema)), ("entries", Json::Array(vec![]))])
}

fn no_chain() -> Json {
    obj(vec![
        ("error", Json::text("errored")),
        ("reason", Json::text("nipopow vector missing chain")),
    ])
}

fn broke_off(note: &str) -> Json {
    obj(vec![("error", Json::text("panicked")), ("note", Json::text(note))])
}

#[test]
fn the_schema_tells_the_tier() {
    assert_eq!(vector_tier(&vector("santa-chain/v1")), Tier::Chain);
    assert_eq!(vector_tier(&vector("santa-nipopow/v2")), Tier::Nipopow);
    assert_eq!(vector_tier(&vector("santa-block/v1")), Tier::Block);
    assert_eq!(vector_tier(&vector("santa-chain")), Tier::Block);
    assert_eq!(vector_tier(&vector(" santa-chain/")), Tier::Block);
    assert_eq!(vector_tier(&obj(vec![("schema", Json::Unsigned(1))])), Tier::Block);
    assert_eq!(vector_tier(&Json::Null), Tier::Block);
}

#[test]
fn entries_are_a_list_or_nothing() {
    assert_eq!(vector_entries(&vector("x")), Some(&vec![]));
    assert_eq!(vector_entries(&obj(vec![("entries", Json::Null)])), None);
    assert_eq!(vector_entries(&Json::Null), None);
}

#[test]
fn an_entry_without_a_name_is_called_after_its_place() {
    assert_eq!(entry_name(3, &obj(vec![("name", Json::text("a b"))])), "a b");
    assert_eq!(entry_name(3, &obj(vec![("name", Json::Unsigned(1))])), "entry-3");
    assert_eq!(entry_name(12, &Json::Null), "entry-12");
}

#[test]
fn work_begins_by_the_tier() {
    let entry = obj(vec![]);
    match start_entry(&vector("santa-chain/v1"), &entry) {
        EntryStart::Chain(ChainStep::Done(answer)) => {
            assert_eq!(answer.get("reason"), Some(&Json::text("entry has no kind")));
        }
        other => panic!("{:?}", other),
    }
    match start_entry(&Json::Null, &entry) {
        EntryStart::Block(BlockStep::Done(answer)) => {
            assert_eq!(answer.get("reason"), Some(&Json::text("parent_digest missing")));
        }
        other => panic!("{:?}", other),
    }
    assert_eq!(
        start_entry(&vector("santa-nipopow/v1"), &entry),
        EntryStart::Nipopow(NipopowStep::Done(no_chain()))
    );
}

#[test]
fn entries_of_the_proof_tier_are_always_answered() {
    let chain = vec![];
    let done = |step: NipopowStep| match step {
        NipopowStep::Done(answer) => answer,
        other => panic!("{:?}", other),
    };
    let run = |entry: Json| done(run_nipopow_entry(Some(&chain), &entry));
    let unknown = obj(vec![("error", Json::text("not-implemented"))]);
    assert_eq!(run(obj(vec![])), unknown);
    assert_eq!(run(obj(vec![("kind", Json::text("nipopow_verify"))])), unknown);
    let empty = "index out of bounds: the len is 0 but the index is 0";
    assert_eq!(run(obj(vec![("kind", Json::text("nipopow_interlinks"))])), broke_off(empty));
    let prove = |payload: Json| {
        run(obj(vec![("kind", Json::text("nipopow_prove")), ("payload", payload)]))
    };
    assert_eq!(prove(Json::Null), broke_off("missing m"));
    assert_eq!(prove(obj(vec![("m", Json::Unsigned(6))])), broke_off("missing k"));
    assert_eq!(
        prove(obj(vec![("m", Json::Unsigned(6)), ("k", Json::Negative(-6))])),
        broke_off("missing k")
    );
    assert_eq!(
        prove(obj(vec![("m", Json::Unsigned(6)), ("k", Json::Unsigned(6))])),
        broke_off(empty)
    );
    assert_eq!(
        done(run_nipopow_entry(None, &obj(vec![("kind", Json::text("nipopow_interlinks"))]))),
        no_chain()
    );
}

#[test]
fn a_text_that_cannot_be_sliced_is_handed_out() {
    let chain = vec![obj(vec![("headerHex", Json::text("0a0"))])];
    for kind in ["nipopow_interlinks", "nipopow_prove"] {
        let payload = obj(vec![("m", Json::Unsigned(1)), ("k", Json::Unsigned(1))]);
        let entry = obj(vec![("kind", Json::text(kind)), ("payload", payload)]);
        assert_eq!(
            run_nipopow_entry(Some(&chain), &entry),
            NipopowStep::Slice { text: "0a0".to_string(), at: 2 }
        );
    }
}

#[test]
fn a_file_without_a_chain_is_an_error_of_every_entry() {
    for chain in [Json::Null, obj(vec![]), Json::text("00")] {
        let file = obj(vec![("schema", Json::text("santa-nipopow/v1")), ("chain", chain)]);
        for kind in ["nipopow_prove", "nipopow_interlinks", "other"] {
            let entry = obj(vec![("kind", Json::text(kind))]);
            assert_eq!(start_entry(&file, &entry), EntryStart::Nipopow(NipopowStep::Done(no_chain())));
        }
    }
}

#[test]
fn a_note_is_kept_in_the_answer() {
    assert_eq!(panicked("index out of bounds"), broke_off("index out of bounds"));
}

#[test]
fn answers_stand_in_the_order_of_names_and_the_last_stands() {
    let named = |name: &str| obj(vec![("name", Json::text(name))]);
    let file = obj(vec![(
        "entries",
        Json::Array(vec![named("b"), named("a"), obj(vec![]), named("b"), named("a10"), named("B")]),
    )]);
    let answers: Vec<Json> = (0u64..6).map(Json::Unsigned).collect();
    let actuals = run_vector_file(&file, answers);
    assert_eq!(actuals.len(), 5);
    assert_eq!(
        actuals.to_json(),
        obj(vec![
            ("B", Json::Unsigned(5)),
            ("a", Json::Unsigned(1)),
            ("a10", Json::Unsigned(4)),
            ("b", Json::Unsigned(3)),
            ("entry-2", Json::Unsigned(2)),
        ])
    );
}

#[test]
fn an_answer_does_not_depend_on_the_other_entries() {
    let named = |name: &str| obj(vec![("name", Json::text(name))]);
    let file = |names: &[&str]| {
        obj(vec![("entries", Json::Array(names.iter().map(|name| named(name)).collect()))])
    };
    let all = run_vector_file(&file(&["a", "b", "c"]), (1u64..4).map(Json::Unsigned).collect());
    let some = run_vector_file(&file(&["c", "a"]), vec![Json::Unsigned(3), Json::Unsigned(1)]);
    let (all, some) = (all.to_json(), some.to_json());
    assert_eq!(some.get("a"), all.get("a"));
    assert_eq!(some.get("c"), all.get("c"));
    assert_eq!(some.get("b"), None);
}

#[test]
fn what_entries_expect_has_no_part_in_the_file() {
    let graded = obj(vec![("name", Json::text("a")), ("expected", Json::Unsigned(1))]);
    let plain = obj(vec![("name", Json::text("a"))]);
    let run = |entry: Json| {
        let file = obj(vec![("entries", Json::Array(vec![entry, obj(vec![])]))]);
        run_vector_file(&file, vec![Json::Null, Json::Bool(true)]).to_json()
    };
    assert_eq!(run(graded), run(plain));
}

#[test]
fn a_file_without_entries_has_no_answers() {
    assert_eq!(run_vector_file(&Json::Null, vec![]).to_json(), obj(vec![]));
}

#[test]
fn an_answer_is_replaced_by_a_later_one() {
    let mut actuals = Actuals::new();
    actuals.record("x", Json::Unsigned(1));
    actuals.record("w", Json::Unsigned(2));
    actuals.record("x", Json::Unsigned(3));
    assert_eq!(actuals.len(), 2);
    assert_eq!(
        actuals.to_json(),
        obj(vec![("w", Json::Unsigned(2)), ("x", Json::Unsigned(3))])
    );
}

#[test]
fn what_an_entry_expects_has_no_part_in_its_start() {
    let plain = obj(vec![("name", Json::text("n")), ("kind", Json::text("voting"))]);
    let graded = obj(vec![
        ("name", Json::text("n")),
        ("kind", Json::text("voting")),
        ("expected", Json::Unsigned(1)),
    ]);
    for schema in ["santa-chain/v1", "santa-block/v1", "santa-nipopow/v1"] {
        assert_eq!(start_entry(&vector(schema), &plain), start_entry(&vector(schema), &graded));
    }
    assert_eq!(entry_name(0, &plain), entry_name(0, &graded));
}
