use queryst::{
    apply_object, cleanup_key, create_array, decode_component, merge, next_index,
    object_from_list, parse_key, parse_pairs, push_item_to_array, Skeleton, Value,
};

fn s(text: &str) -> String {
    text.to_string()
}

#[test]
fn decode_component_decodes_escapes() {
    assert_eq!(decode_component("a%20b%5B%5D").unwrap(), "a b[]");
    assert_eq!(decode_component("100%").unwrap(), "100%");
    assert_eq!(decode_component("%zz").unwrap(), "%zz");
    assert_eq!(decode_component("%FF").unwrap(), "\u{FFFD}");
    assert_eq!(decode_component("a+b").unwrap(), "a+b");
}

#[test]
fn parse_pair_prefers_equals_after_bracket() {
    assert_eq!(queryst::parse_pair("a[x=y]=z"), ("a[x=y]", Some("z")));
    assert_eq!(queryst::parse_pair("a=b]=c"), ("a=b]", Some("c")));
    assert_eq!(queryst::parse_pair(""), ("", None));
}

#[test]
fn parse_pairs_cuts_at_every_ampersand() {
    assert_eq!(
        parse_pairs("a=1&&b&c=2=3"),
        vec![("a", Some("1")), ("", None), ("b", None), ("c", Some("2=3"))]
    );
    assert_eq!(parse_pairs(""), vec![("", None)]);
}

#[test]
fn parse_key_splits_segments() {
    assert_eq!(parse_key("a[b][]").unwrap(), vec![s("a"), s("[b]"), s("[]")]);
    assert_eq!(parse_key("[x][0]").unwrap(), vec![s("[x]"), s("[0]")]);
    assert_eq!(parse_key("a[b%20c]").unwrap(), vec![s("a"), s("[b c]")]);
    assert_eq!(parse_key("a[[b]c]").unwrap(), vec![s("a"), s("[b]")]);
    assert_eq!(parse_key("a]b[c").unwrap(), vec![s("a]b")]);
    assert_eq!(parse_key("]b").unwrap(), vec![s("]b")]);
    assert_eq!(parse_key("a]b[c]").unwrap(), vec![s("a]b"), s("[c]")]);
    assert_eq!(parse_key("").unwrap(), Vec::<String>::new());
}

#[test]
fn cleanup_key_strips_one_pair_of_brackets() {
    assert_eq!(cleanup_key("[abc]"), "abc");
    assert_eq!(cleanup_key("[[x]]"), "[x]");
    assert_eq!(cleanup_key("abc"), "abc");
    assert_eq!(cleanup_key("[abc"), "[abc");
    assert_eq!(cleanup_key("["), "[");
}

#[test]
fn apply_object_classifies_segments() {
    let keys = vec![s("[x]"), s("[]"), s("[7]")];
    let skeleton = apply_object(&keys, 0, Some(s("v")));
    match skeleton {
        Skeleton::Named(k, rest) => {
            assert_eq!(k, "x");
            match *rest {
                Skeleton::Append(rest) => match *rest {
                    Skeleton::Indexed(7, leaf) => match *leaf {
                        Skeleton::Leaf(Some(v)) => assert_eq!(v, "v"),
                        _ => panic!("expected a leaf"),
                    },
                    _ => panic!("expected an index"),
                },
                _ => panic!("expected an append"),
            }
        }
        _ => panic!("expected a name"),
    }
    match apply_object(&keys, 3, None) {
        Skeleton::Leaf(None) => {}
        _ => panic!("expected a null leaf"),
    }
}

#[test]
fn next_index_follows_largest_index_key() {
    let obj = vec![(s("a"), Value::Null), (s("3"), Value::Null), (s("10"), Value::Null)];
    assert_eq!(next_index(&obj), 11);
    let none = vec![(s("a"), Value::Null)];
    assert_eq!(next_index(&none), 0);
    assert_eq!(next_index(&Vec::new()), 0);
}

#[test]
fn object_from_list_keys_items_by_index() {
    let list = Value::Array(vec![Value::String(s("x")), Value::Null]);
    assert_eq!(
        object_from_list(&list),
        Value::Object(vec![(s("0"), Value::String(s("x"))), (s("1"), Value::Null)])
    );
}

#[test]
fn create_and_push_build_an_array() {
    let mut list = create_array();
    assert_eq!(list, Value::Array(vec![]));
    push_item_to_array(&mut list, Value::String(s("a")));
    push_item_to_array(&mut list, Value::Null);
    assert_eq!(list, Value::Array(vec![Value::String(s("a")), Value::Null]));
}

#[test]
fn merge_in_place_returns_none() {
    let mut to = Value::Array(vec![Value::String(s("a"))]);
    let from = Skeleton::Leaf(Some(s("b")));
    assert_eq!(merge(&mut to, &from), None);
    assert_eq!(to, Value::Array(vec![Value::String(s("a")), Value::String(s("b"))]));
}

#[test]
fn merge_that_changes_variant_returns_replacement() {
    let mut to = Value::String(s("a"));
    let from = Skeleton::Leaf(Some(s("b")));
    let r = merge(&mut to, &from);
    assert_eq!(r, Some(Value::Array(vec![Value::String(s("a")), Value::String(s("b"))])));
    assert_eq!(to, Value::String(s("a")));
}

#[test]
fn merge_promotes_array_on_gap() {
    let mut to = Value::Array(vec![Value::String(s("a"))]);
    let from = Skeleton::Indexed(3, Box::new(Skeleton::Leaf(Some(s("b")))));
    let r = merge(&mut to, &from);
    assert_eq!(
        r,
        Some(Value::Object(vec![
            (s("0"), Value::String(s("a"))),
            (s("3"), Value::String(s("b")))
        ]))
    );
}

#[test]
fn merge_null_into_object_changes_nothing() {
    let mut to = Value::Object(vec![(s("k"), Value::String(s("v")))]);
    assert_eq!(merge(&mut to, &Skeleton::Leaf(None)), None);
    assert_eq!(to, Value::Object(vec![(s("k"), Value::String(s("v")))]));
}
