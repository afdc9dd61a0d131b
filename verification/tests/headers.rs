use donner::headers::{
    decode_header, decode_headers, normalize_header_json, normalize_headers, HeaderFields,
    ReadFault,
};
use donner::json::Json;

fn obj(fields: Vec<(&str, Json)>) -> Json {
    Json::Object(fields.into_iter().map(|(k, v)| (k.to_string(), v)).collect())
}

fn header(distance: Option<Json>) -> Json {
    let mut solution = vec![("pk", Json::text("02ab"))];
    if let Some(d) = distance {
        solution.push(("d", d));
    }
    solution.push(("n", Json::text("00")));
    obj(vec![("d", Json::Null), ("powSolutions", obj(solution)), ("height", Json::Unsigned(3))])
}

#[test]
fn a_null_distance_is_left_out() {
    let mut doc = header(Some(Json::Null));
    normalize_header_json(&mut doc);
    assert_eq!(doc, header(None));
    normalize_header_json(&mut doc);
    assert_eq!(doc, header(None));
}

#[test]
fn a_given_distance_stays() {
    let mut doc = header(Some(Json::Unsigned(0)));
    normalize_header_json(&mut doc);
    assert_eq!(doc, header(Some(Json::Unsigned(0))));
}

#[test]
fn documents_of_another_shape_stay() {
    for shape in [Json::Null, Json::Unsigned(4), obj(vec![("powSolutions", Json::Null)])] {
        let mut doc = shape.duplicate();
        normalize_header_json(&mut doc);
        assert_eq!(doc, shape);
        assert_eq!(normalize_headers(&shape), shape);
    }
}

#[test]
fn each_header_of_a_list_is_normalized() {
    let list = Json::Array(vec![header(Some(Json::Null)), header(None), Json::Bool(true)]);
    let expected = Json::Array(vec![header(None), header(None), Json::Bool(true)]);
    assert_eq!(normalize_headers(&list), expected);
}

fn whole(height: u64, distance: Option<Json>) -> Json {
    let mut solution = vec![
        ("pk", Json::text("03bedaee069ff4829500b3c07c4d5fe6b3ea3d3bf76c5c28c1d4dcdb1bed0ade0c")),
        ("n", Json::text("0000000000003105")),
    ];
    if let Some(d) = distance {
        solution.push(("d", d));
    }
    obj(vec![
        ("version", Json::Unsigned(2)),
        ("id", Json::Text("56".repeat(32))),
        ("parentId", Json::Text("ac".repeat(32))),
        ("adProofsRoot", Json::Text("5d".repeat(32))),
        ("stateRoot", Json::Text("5c".repeat(33))),
        ("transactionsRoot", Json::Text("f1".repeat(32))),
        ("timestamp", Json::Unsigned(4_928_911_477_310_178_288)),
        ("nBits", Json::Unsigned(37_748_736)),
        ("height", Json::Unsigned(height)),
        ("extensionHash", Json::Text("14".repeat(32))),
        ("powSolutions", obj(solution)),
        ("votes", Json::text("000000")),
    ])
}

fn read(height: u32) -> HeaderFields {
    HeaderFields { id: [0x56; 32], version: 2, height, transaction_root: [0xf1; 32] }
}

#[test]
fn a_normalized_header_can_be_decoded() {
    let mut doc = whole(614_400, Some(Json::Null));
    assert!(decode_header(&doc).is_err());
    normalize_header_json(&mut doc);
    assert_eq!(decode_header(&doc), Ok(read(614_400)));
}

#[test]
fn a_list_of_headers_is_decoded_in_order() {
    let list = Json::Array(vec![whole(7, None), whole(8, Some(Json::Unsigned(5)))]);
    assert_eq!(decode_headers(&list), Ok(vec![read(7), read(8)]));
    assert_eq!(decode_headers(&Json::Array(vec![])), Ok(vec![]));
    assert!(decode_headers(&whole(7, None)).is_err());
    assert!(decode_header(&list).is_err());
}

#[test]
fn what_is_no_header_says_why() {
    let value = serde_json::Value::Object(serde_json::Map::new());
    let e = serde_json::from_value::<ergo_chain_types::Header>(value).unwrap_err();
    assert_eq!(decode_header(&obj(vec![])), Err(ReadFault::Undecodable(e.to_string())));
}

#[test]
fn reading_breaks_off_on_votes_that_are_odd_numbers() {
    let voted = |votes: Json| match whole(7, None) {
        Json::Object(mut fields) => {
            fields.pop();
            fields.push(("votes".to_string(), votes));
            Json::Object(fields)
        }
        other => other,
    };
    let list = |items: Vec<Json>| voted(Json::Array(items));
    let broken = "called `Option::unwrap()` on a `None` value".to_string();
    let odd = || list(vec![Json::Unsigned(0), Json::Negative(-1), Json::Unsigned(0)]);
    assert_eq!(decode_header(&odd()), Err(ReadFault::Broken(broken.clone())));
    let fraction = list(vec![Json::Decimal("1.5".to_string())]);
    assert_eq!(decode_header(&fraction), Err(ReadFault::Broken(broken.clone())));
    let row = Json::Array(vec![whole(7, None), odd()]);
    assert_eq!(decode_headers(&row), Err(ReadFault::Broken(broken)));
    let three = list(vec![Json::Unsigned(1), Json::Unsigned(2), Json::Unsigned(3)]);
    assert_eq!(decode_header(&three), Ok(read(7)));
    for other in [
        list(vec![Json::Null, Json::Negative(-1)]),
        list(vec![obj(vec![])]),
        list(vec![]),
        voted(Json::Negative(-1)),
    ] {
        assert!(matches!(decode_header(&other), Err(ReadFault::Undecodable(_))));
    }
}

#[test]
fn a_header_may_be_written_as_a_list() {
    let list = |height: u64| {
        let order = [
            "version", "id", "parentId", "adProofsRoot", "stateRoot", "transactionsRoot",
            "timestamp", "nBits", "height", "extensionHash", "powSolutions", "votes",
        ];
        let doc = whole(height, None);
        order.iter().map(|name| doc.get(name).unwrap().duplicate()).collect::<Vec<Json>>()
    };
    assert_eq!(decode_header(&Json::Array(list(9))), Ok(read(9)));
    let with_votes = |from: Vec<Json>| {
        let mut items: Vec<Json> = from.into_iter().take(11).collect();
        items.push(Json::Array(vec![Json::Negative(-1)]));
        Json::Array(items)
    };
    assert!(matches!(decode_header(&with_votes(list(9))), Err(ReadFault::Broken(_))));
    let mut longer = list(9);
    longer[11] = Json::Array(vec![Json::Negative(-1)]);
    longer.push(Json::Null);
    assert!(matches!(decode_header(&Json::Array(longer)), Err(ReadFault::Broken(_))));
    let nulls: Vec<Json> = (0..11).map(|_| Json::Null).collect();
    let odd = with_votes(nulls);
    assert_eq!(decode_header(&odd), Err(ReadFault::Undecodable(outside_error(&odd))));
}

/// The error that the outside crate gives before it reads any votes.
fn outside_error(doc: &Json) -> String {
    let value: serde_json::Value = serde_json::from_str(&doc.to_text()).unwrap();
    serde_json::from_value::<ergo_chain_types::Header>(value).unwrap_err().to_string()
}

fn breaking() -> Json {
    Json::Array(vec![Json::Negative(-1), Json::Unsigned(0), Json::Unsigned(0)])
}

#[test]
fn a_field_before_the_votes_fails_first() {
    let broken = || ReadFault::Broken("called `Option::unwrap()` on a `None` value".to_string());
    let bad = obj(vec![("version", Json::text("x")), ("votes", breaking())]);
    assert_eq!(decode_header(&bad), Err(ReadFault::Undecodable(outside_error(&bad))));
    let solution = obj(vec![("pk", Json::text("00")), ("n", Json::text("00"))]);
    let solved = obj(vec![("powSolutions", solution), ("votes", breaking())]);
    assert_eq!(decode_header(&solved), Err(ReadFault::Undecodable(outside_error(&solved))));
    let twice = obj(vec![
        ("height", Json::Negative(-5)),
        ("version", Json::text("x")),
        ("votes", breaking()),
    ]);
    assert_eq!(decode_header(&twice), Err(ReadFault::Undecodable(outside_error(&twice))));
    for doc in [
        obj(vec![("votes", breaking()), ("version", Json::text("x"))]),
        obj(vec![("votes", breaking())]),
        obj(vec![("other", Json::Null), ("height", Json::Unsigned(7)), ("votes", breaking())]),
    ] {
        assert_eq!(decode_header(&doc), Err(broken()));
    }
    let list = Json::Array(vec![whole(7, None), bad]);
    assert!(matches!(decode_headers(&list), Err(ReadFault::Undecodable(_))));
    let voted = obj(vec![("votes", breaking())]);
    let after = Json::Array(vec![obj(vec![]), voted.duplicate()]);
    assert!(matches!(decode_headers(&after), Err(ReadFault::Undecodable(_))));
    let before = Json::Array(vec![whole(7, None), voted, obj(vec![])]);
    assert_eq!(decode_headers(&before), Err(broken()));
}

#[test]
fn only_negative_numbers_and_fractions_break_reading_off() {
    let voted = |vote: Json| match whole(7, None) {
        Json::Object(mut fields) => {
            fields.pop();
            let votes = vec![vote, Json::Unsigned(2), Json::Unsigned(3)];
            fields.push(("votes".to_string(), Json::Array(votes)));
            Json::Object(fields)
        }
        other => other,
    };
    let decimal = |text: &str| Json::Decimal(text.to_string());
    assert_eq!(decode_header(&voted(Json::Negative(0))), Ok(read(7)));
    assert_eq!(decode_header(&voted(decimal("-0"))), Ok(read(7)));
    assert_eq!(decode_header(&voted(Json::Unsigned(u64::MAX))), Ok(read(7)));
    for long in [
        "18446744073709551616",
        "340282366920938463463374607431768211455",
        "-9223372036854775809",
        "-170141183460469231731687303715884105728",
    ] {
        let doc = voted(decimal(long));
        assert_eq!(decode_header(&doc), Err(ReadFault::Undecodable(outside_error(&doc))));
    }
    for odd in [
        "-1",
        "-9223372036854775808",
        "340282366920938463463374607431768211456",
        "-170141183460469231731687303715884105729",
        "1.0",
        "1e400",
        "-0.0",
    ] {
        assert!(matches!(decode_header(&voted(decimal(odd))), Err(ReadFault::Broken(_))));
    }
}
