use uri_template_system_core::{
    Value,
    Values,
};

#[test]
fn associative_array_value_construction() {
    let expected = Value::AssociativeArray(Vec::from_iter([
        (String::from("a"), String::from("1")),
        (String::from("b"), String::from("2")),
    ]));

    let array = [("a", "1"), ("b", "2")];
    assert_eq!(expected, Value::associative_array(array));

    let vec = Vec::from_iter(array);
    assert_eq!(expected, Value::associative_array(vec));

    // A `HashMap` is not accepted as the source of an associative array: its
    // walk order is unspecified, and the order of the pairs is part of the
    // value. Pairs collected from a map into a vector, in an order the caller
    // chooses, are.
    let map: std::collections::HashMap<&str, &str> = std::collections::HashMap::from_iter(array);
    let mut from_map = Vec::from_iter(map);
    from_map.sort();
    assert_eq!(expected, Value::associative_array(from_map));
}

#[test]
fn item_value_construction() {
    let expected = Value::Item(String::from("a"));

    let str = "a";
    assert_eq!(expected, Value::item(str));

    let string = String::from(str);
    assert_eq!(expected, Value::item(string));
}

#[test]
fn list_value_construction() {
    let expected = Value::List(Vec::from_iter([String::from("a"), String::from("b")]));

    let array = ["a", "b"];
    assert_eq!(expected, Value::list(array));

    let vec = Vec::from_iter(array);
    assert_eq!(expected, Value::list(vec));
}

#[test]
fn associative_array_of_owned_strings() {
    let pairs = vec![(String::from("x"), String::from("")), (String::from("y"), String::from("z"))];
    assert_eq!(
        Value::associative_array(pairs),
        Value::AssociativeArray(vec![
            (String::from("x"), String::new()),
            (String::from("y"), String::from("z")),
        ])
    );
}

#[test]
fn defined_values() {
    assert!(Value::item("").defined());
    assert!(Value::item("a").defined());
    assert!(Value::list(["a"]).defined());
    assert!(Value::associative_array([("a", "b")]).defined());
    assert!(!Value::list(Vec::<&str>::new()).defined());
    assert!(!Value::associative_array(Vec::<(&str, &str)>::new()).defined());
}

#[test]
fn get_after_add() {
    let values = Values::default()
        .add("a", Value::item("1"))
        .add("b", Value::list(["x", "y"]));
    assert_eq!(values.get("a"), Some(&Value::item("1")));
    assert_eq!(values.get("b"), Some(&Value::list(["x", "y"])));
    assert_eq!(values.get("c"), None);

    let values = values.add("a", Value::item("2"));
    assert_eq!(values.get("a"), Some(&Value::item("2")));
    assert_eq!(values.get("b"), Some(&Value::list(["x", "y"])));
}

#[test]
fn empty_values_have_nothing() {
    let values = Values::new();
    assert_eq!(values.get(""), None);
    assert_eq!(values.get("a"), None);
}

#[test]
fn cloned_values_are_equal() {
    let values = Values::default()
        .add(String::from("a"), Value::associative_array([("k", "v")]))
        .add("b", Value::item("c"));
    let copy = values.clone();
    assert_eq!(copy.get("a"), Some(&Value::associative_array([("k", "v")])));
    assert_eq!(copy.get("b"), Some(&Value::item("c")));
    assert_eq!(copy.get("c"), None);
    assert_eq!(Value::list(["p", "q"]).clone(), Value::list(["p", "q"]));
}
