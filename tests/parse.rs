use queryst::{parse, parse_pair, Value};

fn to_json(value: &Value) -> serde_json::Value {
    match value {
        Value::Null => serde_json::Value::Null,
        Value::String(s) => serde_json::Value::String(s.clone()),
        Value::Array(items) => serde_json::Value::Array(items.iter().map(to_json).collect()),
        Value::Object(entries) => {
            let mut map = serde_json::Map::new();
            for (k, v) in entries {
                map.insert(k.clone(), to_json(v));
            }
            serde_json::Value::Object(map)
        }
    }
}

fn eq_str(value: Value, string: &str) {
    let expected: serde_json::Value = serde_json::from_str(string).unwrap();
    assert_eq!(to_json(&value), expected);
}

#[test]
fn test_parse_pair() {
    assert_eq!(parse_pair("foo=1"), ("foo", Some("1")));
    assert_eq!(parse_pair("empty="), ("empty", Some("")));
    assert_eq!(parse_pair("noval"), ("noval", None));
}

#[test]
fn it_parses_simple_string() {
    eq_str(parse("0=foo").unwrap(), r#"{"0":"foo"}"#);
    eq_str(parse("a[<=>]==23").unwrap(), r#"{"a":{"<=>":"=23"}}"#);
    eq_str(parse(" foo = bar = baz ").unwrap(), r#"{" foo ":" bar = baz "}"#);
}

#[test]
fn it_parses_nested_string() {
    eq_str(
        parse("a[b][c][d][e][f][g][h]=i").unwrap(),
        r#"{"a":{"b":{"c":{"d":{"e":{"f":{"g":{"h":"i"}}}}}}}}"#,
    );
}

#[test]
fn it_parses_simple_array() {
    eq_str(parse("a=b&a=c&a=d&a=e").unwrap(), r#"{"a":["b","c","d","e"]}"#);
}

#[test]
fn it_parses_explicit_array() {
    eq_str(parse("a[]=b&a[]=c&a[]=d").unwrap(), r#"{"a":["b","c","d"]}"#);
}

#[test]
fn it_parses_nested_array() {
    eq_str(parse("a[b][]=c&a[b][]=d").unwrap(), r#"{"a":{"b":["c","d"]}}"#);
}

#[test]
fn it_allows_to_specify_array_indexes() {
    eq_str(parse("a[0][]=c&a[1][]=d").unwrap(), r#"{"a":[["c"],["d"]]}"#);
}

#[test]
fn it_transforms_arrays_to_object() {
    eq_str(parse("foo[0]=bar&foo[bad]=baz").unwrap(), r#"{"foo":{"0":"bar","bad":"baz"}}"#);

    eq_str(
        parse("foo[0][a]=a&foo[0][b]=b&foo[1][a]=aa&foo[1][b]=bb").unwrap(),
        r#"{"foo":[{"a":"a","b":"b"},{"a":"aa","b":"bb"}]}"#,
    );
}

#[test]
fn it_transforms_standalone_keys() {
    eq_str(parse("foo=bar&baz").unwrap(), r#"{"foo":"bar","baz":null}"#);
}

#[test]
fn it_doesnt_produce_empty_keys() {
    eq_str(parse("_r=1&").unwrap(), r#"{"_r":"1"}"#);
}

#[test]
fn it_supports_encoded_strings() {
    eq_str(parse("a[b%20c]=c%20d").unwrap(), r#"{"a":{"b c":"c d"}}"#);
}

#[test]
fn it_parses_explicit_encoded_array() {
    eq_str(parse("a%5B%5D=b&a%5B%5D=c&a%5B%5D=d").unwrap(), r#"{"a":["b","c","d"]}"#);
}

#[test]
fn empty_input_gives_empty_object() {
    eq_str(parse("").unwrap(), r#"{}"#);
}

#[test]
fn repeated_flat_key_collects_values_in_order() {
    eq_str(parse("a=1&a=2").unwrap(), r#"{"a":["1","2"]}"#);
    eq_str(parse("x=1&y=2&x=3&z=4&x=5").unwrap(), r#"{"x":["1","3","5"],"y":"2","z":"4"}"#);
}

#[test]
fn flat_keys_keep_first_arrival_order() {
    let v = parse("b=1&a=2&b=3").unwrap();
    match v {
        Value::Object(entries) => {
            let keys: Vec<&str> = entries.iter().map(|(k, _)| k.as_str()).collect();
            assert_eq!(keys, vec!["b", "a"]);
        }
        _ => panic!("expected an object"),
    }
}

#[test]
fn valueless_key_after_string_wraps_both() {
    eq_str(parse("a=1&a").unwrap(), r#"{"a":["1",null]}"#);
}

#[test]
fn string_overrides_object_at_same_path() {
    eq_str(parse("a[b]=1&a=2").unwrap(), r#"{"a":"2"}"#);
}

#[test]
fn gap_in_indices_turns_array_into_object() {
    eq_str(parse("a[0]=x&a[2]=y").unwrap(), r#"{"a":{"0":"x","2":"y"}}"#);
}

#[test]
fn first_index_past_zero_gives_object() {
    eq_str(parse("a[3]=x").unwrap(), r#"{"a":{"3":"x"}}"#);
}

#[test]
fn append_into_object_uses_next_index() {
    eq_str(parse("a[x]=1&a[4]=2&a[]=3").unwrap(), r#"{"a":{"x":"1","4":"2","5":"3"}}"#);
}

#[test]
fn equal_index_merges_into_same_slot() {
    eq_str(parse("a[0]=x&a[0]=y").unwrap(), r#"{"a":[["x","y"]]}"#);
}

#[test]
fn plus_sign_index_reads_as_index() {
    eq_str(parse("a[+1]=x").unwrap(), r#"{"a":{"1":"x"}}"#);
}

#[test]
fn index_that_overflows_is_a_name() {
    eq_str(
        parse("a[99999999999999999999]=x").unwrap(),
        r#"{"a":{"99999999999999999999":"x"}}"#,
    );
}

#[test]
fn key_with_only_brackets_has_no_name() {
    eq_str(parse("[a]=1&[]=2").unwrap(), r#"{"a":"1","0":"2"}"#);
}

#[test]
fn empty_key_with_value_is_dropped() {
    eq_str(parse("=x&a=1").unwrap(), r#"{"a":"1"}"#);
}

#[test]
fn index_key_overwrites_scalar_entry() {
    eq_str(parse("a[0]=x&a[bad]=y&a[0]=z").unwrap(), r#"{"a":{"0":"z","bad":"y"}}"#);
}

#[test]
fn leading_name_is_used_as_is() {
    eq_str(parse("%255B%255D=1").unwrap(), r#"{"[]":"1"}"#);
    eq_str(parse("%255Bx%255D=1").unwrap(), r#"{"[x]":"1"}"#);
}

#[test]
fn index_name_over_scalar_entry_overwrites_it() {
    eq_str(parse("a[b]=1&0=2&0[c]=3").unwrap(), r#"{"a":{"b":"1"},"0":{"c":"3"}}"#);
}

#[test]
fn object_keys_stay_unique() {
    let v = parse("a[x]=1&a[x]=2&a[y]=3&a[x][z]=4").unwrap();
    match v {
        Value::Object(entries) => {
            assert_eq!(entries.len(), 1);
            match &entries[0].1 {
                Value::Object(inner) => {
                    let keys: Vec<&str> = inner.iter().map(|(k, _)| k.as_str()).collect();
                    assert_eq!(keys, vec!["x", "y"]);
                }
                _ => panic!("expected an object"),
            }
        }
        _ => panic!("expected an object"),
    }
}

#[test]
fn leading_name_ends_at_first_open_bracket_only() {
    eq_str(parse("a]b[c]=1").unwrap(), r#"{"a]b":{"c":"1"}}"#);
    eq_str(parse("]b=1").unwrap(), r#"{"]b":"1"}"#);
}

#[test]
fn parse_decoded_skips_the_whole_input_decoding() {
    eq_str(queryst::parse_decoded("a=%2541&b%20c=1").unwrap(), r#"{"a":"%41","b c":"1"}"#);
    eq_str(parse("a=%2541&b%20c=1").unwrap(), r#"{"a":"A","b c":"1"}"#);
}

#[test]
fn pairs_with_empty_key_are_ignored_among_flat_keys() {
    eq_str(parse("a=1&&b=2&=x&a=3").unwrap(), r#"{"a":["1","3"],"b":"2"}"#);
}
