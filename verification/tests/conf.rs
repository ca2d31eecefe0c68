use caltrack::ConfSet;

#[test]
fn conf_set_carries_key_and_value() {
    let set = ConfSet { key: "tdee".to_string(), value: "2200".to_string() };
    assert_eq!(set.key, "tdee");
    assert_eq!(set.value, "2200");
}
