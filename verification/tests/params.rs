use donner::json::Json;
use donner::params::{
    all_parameters, decode_parameters, decode_table, parameter_from_id, parameter_to_id, table_json,
    Parameter, ParameterTable,
};

fn obj(fields: Vec<(&str, Json)>) -> Json {
    Json::Object(fields.into_iter().map(|(k, v)| (k.to_string(), v)).collect())
}

fn entry(table: Json) -> Json {
    obj(vec![("parameters", obj(vec![("table", table)]))])
}

#[test]
fn parameters_and_ids_determine_each_other() {
    for p in all_parameters() {
        assert_eq!(parameter_from_id(parameter_to_id(&p)), Some(p));
    }
    assert_eq!(parameter_from_id(4), Some(Parameter::MaxBlockCost));
    assert_eq!(parameter_from_id(121), Some(Parameter::SoftForkVotesCollected));
    for id in [0, 10, 120, 124, -1] {
        assert_eq!(parameter_from_id(id), None);
    }
}

#[test]
fn defaults_are_those_of_the_chain_library() {
    let ours = ParameterTable::defaults();
    let theirs = ergo_lib::chain::parameters::Parameters::default().parameters_table;
    let mut found = 0;
    for (p, value) in theirs {
        let id = p as i32;
        assert_eq!(ours.get(&parameter_from_id(id).unwrap()), Some(value));
        found += 1;
    }
    let given = all_parameters().iter().filter(|p| ours.get(p).is_some()).count();
    assert_eq!(given, found);
    assert_eq!(ours.get(&Parameter::MinValuePerByte), Some(360));
    assert_eq!(ours.get(&Parameter::StorageFeeFactor), Some(1_250_000));
    assert_eq!(ours.get(&Parameter::SoftForkStartingHeight), None);
}

#[test]
fn handed_values_take_the_place_of_defaults() {
    let table = obj(vec![("2", Json::Unsigned(999)), ("121", Json::Negative(-3))]);
    let read = decode_parameters(&entry(table)).unwrap();
    assert_eq!(read.get(&Parameter::MinValuePerByte), Some(999));
    assert_eq!(read.get(&Parameter::SoftForkVotesCollected), Some(-3));
    assert_eq!(read.get(&Parameter::InputCost), ParameterTable::defaults().get(&Parameter::InputCost));
}

#[test]
fn ids_without_a_parameter_are_passed_over_in_a_block() {
    let table = obj(vec![("10", Json::Unsigned(1)), ("6", Json::Unsigned(5))]);
    let read = decode_parameters(&entry(table)).unwrap();
    assert_eq!(read.get(&Parameter::InputCost), Some(5));
}

#[test]
fn a_block_needs_a_table() {
    let missing = Err("parameters.table missing".to_string());
    assert_eq!(decode_parameters(&obj(vec![])), missing);
    assert_eq!(decode_parameters(&entry(Json::Array(vec![]))), missing);
}

#[test]
fn a_table_that_cannot_be_read_says_why() {
    let bad_id = obj(vec![("two", Json::Unsigned(1))]);
    assert_eq!(decode_parameters(&entry(bad_id)), Err("parameter id 'two'".to_string()));
    let bad_value = obj(vec![("+2", Json::Unsigned(2_147_483_648))]);
    assert_eq!(
        decode_parameters(&entry(bad_value)),
        Err("parameter +2: value not an i32".to_string())
    );
    let fraction = obj(vec![("2", Json::Decimal("1.5".to_string()))]);
    assert_eq!(
        decode_table(Some(&fraction)),
        Err("parameter 2: value not an i32".to_string())
    );
    let unmodeled = obj(vec![("-10", Json::Unsigned(1))]);
    assert_eq!(
        decode_table(Some(&unmodeled)),
        Err("unmodeled parameter id -10".to_string())
    );
    let missing = Err("current_parameters.table missing".to_string());
    assert_eq!(decode_table(None), missing);
    assert_eq!(decode_table(Some(&Json::Null)), missing);
}

#[test]
fn a_voting_table_starts_empty() {
    let table = obj(vec![("4", Json::Unsigned(7))]);
    let read = decode_table(Some(&table)).unwrap();
    assert_eq!(read.get(&Parameter::MaxBlockCost), Some(7));
    assert_eq!(read.get(&Parameter::MinValuePerByte), None);
}

#[test]
fn a_table_is_written_in_the_order_of_its_names_and_reads_back() {
    let mut table = ParameterTable::empty();
    for p in all_parameters() {
        table.insert(p, -parameter_to_id(&p));
    }
    table.insert(Parameter::InputCost, 2000);
    let json = table_json(&table);
    let names: Vec<String> = match &json {
        Json::Object(fields) => fields.iter().map(|f| f.0.clone()).collect(),
        _ => panic!("no object"),
    };
    let mut sorted = names.clone();
    sorted.sort();
    assert_eq!(names, sorted);
    assert_eq!(names.len(), 12);
    assert_eq!(decode_table(Some(&json)), Ok(table));
}
