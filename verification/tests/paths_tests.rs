use rustis::master::paths::{item_path, item_value_path, key_path, value_path};

#[test]
fn paths_fill_in_keys_and_values() {
    assert_eq!(item_path("name"), "/item/name");
    assert_eq!(item_value_path("name", "John"), "/item/name/John");
    assert_eq!(key_path("k1"), "/key/k1");
    assert_eq!(value_path("v1"), "/value/v1");
    assert_eq!(item_path(""), "/item/");
}
