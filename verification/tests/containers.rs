use plist_plus::date::PlistDuration;
use plist_plus::error::PlistError;
use plist_plus::Plist;

#[test]
fn type_guard_rejects_other_kinds() {
    let n = Plist::new_uint(5);
    assert_eq!(n.get_bool_val().unwrap_err(), PlistError::InvalidArg);
    assert_eq!(n.get_string_val().unwrap_err(), PlistError::InvalidArg);
    assert_eq!(n.get_data_val().unwrap_err(), PlistError::InvalidArg);
    assert_eq!(n.get_real_val().unwrap_err(), PlistError::InvalidArg);
    assert_eq!(n.get_date_val().unwrap_err(), PlistError::InvalidArg);
    assert_eq!(n.get_uid_val().unwrap_err(), PlistError::InvalidArg);
    assert_eq!(n.get_key_val().unwrap_err(), PlistError::InvalidArg);
    assert_eq!(n.array_get_size().unwrap_err(), PlistError::InvalidArg);
    assert_eq!(n.dict_get_size().unwrap_err(), PlistError::InvalidArg);
    let b = Plist::new_bool(true);
    assert_eq!(b.get_uint_val().unwrap_err(), PlistError::InvalidArg);
    let mut b = b;
    assert_eq!(b.set_uint_val(3).unwrap_err(), PlistError::InvalidArg);
    assert!(b.get_bool_val().unwrap());
}

#[test]
fn ownership_transfer_and_no_double_release() {
    // Inserting c into p consumes the handle of c: p is then the sole
    // owner, and dropping both p and any extracted alias releases each
    // node's storage exactly once.
    let c = Plist::new_string("child");
    let mut p = Plist::new_array();
    assert!(c.is_owning());
    p.array_append_item(c).unwrap();
    let alias = p.array_get_item(0).unwrap();
    assert!(!alias.is_owning());
    std::mem::drop(alias);
    assert_eq!(p.array_get_size().unwrap(), 1);
    assert_eq!(
        p.array_get_item(0).unwrap().get_string_val().unwrap(),
        "child"
    );
    std::mem::drop(p);
}

#[test]
fn false_drop_consumes_handle() {
    let c = Plist::new_uint(9);
    c.false_drop();
}

#[test]
fn array_set_insert_remove() {
    let mut arr = Plist::new_array();
    arr.array_append_item(Plist::new_uint(1)).unwrap();
    arr.array_append_item(Plist::new_uint(3)).unwrap();
    arr.array_insert_item(Plist::new_uint(2), 1).unwrap();
    assert_eq!(arr.array_get_size().unwrap(), 3);
    assert_eq!(arr.array_get_item(1).unwrap().get_uint_val().unwrap(), 2);
    arr.array_set_item(Plist::new_uint(7), 0).unwrap();
    assert_eq!(arr.array_get_item(0).unwrap().get_uint_val().unwrap(), 7);
    arr.array_remove_item(1).unwrap();
    assert_eq!(arr.array_get_size().unwrap(), 2);
    assert_eq!(arr.array_get_item(1).unwrap().get_uint_val().unwrap(), 3);
    // out of range and wrong kinds are refused
    assert_eq!(arr.array_get_item(5).unwrap_err(), PlistError::InvalidArg);
    assert_eq!(arr.array_remove_item(9).unwrap_err(), PlistError::InvalidArg);
    let mut not_array = Plist::new_uint(0);
    assert_eq!(
        not_array.array_append_item(Plist::new_bool(true)).unwrap_err(),
        PlistError::InvalidArg
    );
}

#[test]
fn array_item_origin() {
    let mut arr = Plist::new_array();
    arr.array_append_item(Plist::new_uint(5)).unwrap();
    let item = arr.array_get_item(0).unwrap();
    assert_eq!(item.array_get_item_index().unwrap(), 0);
    // a detached node has no array origin
    assert_eq!(
        Plist::new_uint(5).array_get_item_index().unwrap_err(),
        PlistError::InvalidArg
    );
}

#[test]
fn dict_semantics() {
    let mut p = Plist::new_dict();
    p.dict_set_item("b", Plist::new_bool(false)).unwrap();
    assert_eq!(p.dict_get_size().unwrap(), 1);
    let b = p.dict_get_item("b").unwrap();
    assert_eq!(b.get_bool_val().unwrap(), false);
    // replacing a key keeps the size at one
    p.dict_set_item("b", Plist::new_bool(true)).unwrap();
    assert_eq!(p.dict_get_size().unwrap(), 1);
    assert_eq!(p.dict_get_item("b").unwrap().get_bool_val().unwrap(), true);
    // an absent key is refused
    assert_eq!(p.dict_get_item("missing").unwrap_err(), PlistError::InvalidArg);
    // insert under another name works the same way
    p.dict_insert_item("c", Plist::new_uint(4)).unwrap();
    assert_eq!(p.dict_get_size().unwrap(), 2);
    p.dict_remove_item("c").unwrap();
    assert_eq!(p.dict_get_size().unwrap(), 1);
    // removing an absent key leaves the dictionary unchanged
    p.dict_remove_item("never").unwrap();
    assert_eq!(p.dict_get_size().unwrap(), 1);
}

#[test]
fn dict_entry_keys() {
    let mut p = Plist::new_dict();
    p.dict_set_item("name", Plist::new_string("x")).unwrap();
    let item = p.dict_get_item("name").unwrap();
    assert_eq!(item.dict_get_item_key().unwrap(), "name");
    let key_node = item.dict_item_get_key().unwrap();
    assert_eq!(key_node.get_key_val().unwrap(), "name");
    // a detached node was not read out of a dictionary
    assert_eq!(
        Plist::new_uint(1).dict_get_item_key().unwrap_err(),
        PlistError::InvalidArg
    );
}

#[test]
fn key_node_accessors() {
    let mut k = Plist::new_key("label");
    assert_eq!(k.get_key_val().unwrap(), "label");
    k.set_key_val("other").unwrap();
    assert_eq!(k.get_key_val().unwrap(), "other");
}

#[test]
fn merge_adds_and_overwrites() {
    // merging {a:1} into {b:2} yields {a:1, b:2}
    let mut target = Plist::new_dict();
    target.dict_set_item("b", Plist::new_uint(2)).unwrap();
    let mut other = Plist::new_dict();
    other.dict_set_item("a", Plist::new_uint(1)).unwrap();
    target.dict_merge(other).unwrap();
    assert_eq!(target.dict_get_size().unwrap(), 2);
    assert_eq!(target.dict_get_item("a").unwrap().get_uint_val().unwrap(), 1);
    assert_eq!(target.dict_get_item("b").unwrap().get_uint_val().unwrap(), 2);

    // merging {a:1} into {a:9, b:2} overwrites a and keeps the size
    let mut target = Plist::new_dict();
    target.dict_set_item("a", Plist::new_uint(9)).unwrap();
    target.dict_set_item("b", Plist::new_uint(2)).unwrap();
    let mut other = Plist::new_dict();
    other.dict_set_item("a", Plist::new_uint(1)).unwrap();
    target.dict_merge(other).unwrap();
    assert_eq!(target.dict_get_size().unwrap(), 2);
    assert_eq!(target.dict_get_item("a").unwrap().get_uint_val().unwrap(), 1);
    assert_eq!(target.dict_get_item("b").unwrap().get_uint_val().unwrap(), 2);
}

#[test]
fn iteration_counts_and_order() {
    // an empty array yields zero items
    let mut it = Plist::new_array().into_iter();
    assert!(it.next().is_none());

    // a three-element array yields exactly three items, in order, then stops
    let mut arr = Plist::new_array();
    arr.array_append_item(Plist::new_uint(1)).unwrap();
    arr.array_append_item(Plist::new_uint(2)).unwrap();
    arr.array_append_item(Plist::new_uint(3)).unwrap();
    let mut it = arr.into_iter();
    let mut seen: Vec<u64> = Vec::new();
    while let Some(item) = it.next() {
        assert!(item.key.is_none());
        seen.push(item.plist.get_uint_val().unwrap());
    }
    assert_eq!(seen, vec![1, 2, 3]);
    assert!(it.next().is_none());

    // a dictionary yields each entry with its key
    let mut d = Plist::new_dict();
    d.dict_set_item("one", Plist::new_uint(1)).unwrap();
    d.dict_set_item("two", Plist::new_uint(2)).unwrap();
    let mut it = d.into_iter();
    let first = it.next().unwrap();
    assert_eq!(first.key.unwrap(), "one");
    assert_eq!(first.plist.get_uint_val().unwrap(), 1);
    let second = it.next().unwrap();
    assert_eq!(second.key.unwrap(), "two");
    assert!(it.next().is_none());
}

#[test]
fn path_navigation() {
    // given {"x": [10, 20, 30]}, the path ["x", "1"] reaches the 20
    let mut arr = Plist::new_array();
    arr.array_append_item(Plist::new_uint(10)).unwrap();
    arr.array_append_item(Plist::new_uint(20)).unwrap();
    arr.array_append_item(Plist::new_uint(30)).unwrap();
    let mut root = Plist::new_dict();
    root.dict_set_item("x", arr).unwrap();

    let found = root
        .clone()
        .access_path(vec!["x".to_string(), "1".to_string()])
        .unwrap();
    assert_eq!(found.get_uint_val().unwrap(), 20);

    // a segment that does not apply to the node at hand is refused
    let r = root
        .clone()
        .access_path(vec!["x".to_string(), "nope".to_string()]);
    assert_eq!(r.unwrap_err(), PlistError::InvalidArg);
    let r = root
        .clone()
        .access_path(vec!["x".to_string(), "9".to_string()]);
    assert_eq!(r.unwrap_err(), PlistError::InvalidArg);
    let r = root.access_path(vec![
        "x".to_string(),
        "1".to_string(),
        "deeper".to_string(),
    ]);
    assert_eq!(r.unwrap_err(), PlistError::InvalidArg);

    // an empty path yields the node itself
    let n = Plist::new_uint(7).access_path(Vec::new()).unwrap();
    assert_eq!(n.get_uint_val().unwrap(), 7);
}

#[test]
fn structural_equality() {
    let a = Plist::new_string("same");
    let b = Plist::new_string("same");
    // distinct handles, equal values
    assert!(Plist::compare_node_values(a, b));
    assert!(!Plist::compare_node_values(
        Plist::new_uint(1),
        Plist::new_uint(2)
    ));
    assert!(!Plist::compare_node_values(
        Plist::new_uint(1),
        Plist::new_bool(true)
    ));
    let mut d1 = Plist::new_dict();
    d1.dict_set_item("k", Plist::new_uint(1)).unwrap();
    let mut d2 = Plist::new_dict();
    d2.dict_set_item("k", Plist::new_uint(1)).unwrap();
    assert!(Plist::compare_node_values(d1.clone(), d2));
    assert!(!Plist::compare_node_values(d1, Plist::new_dict()));
}

#[test]
fn date_truncates_toward_zero() {
    // nanoseconds below one microsecond are truncated, not rounded
    let d = PlistDuration::from_secs_nanos(1546635600, 1999);
    assert_eq!(d.micros, 1);
    let d = PlistDuration::from_secs_nanos(1546635600, 999);
    assert_eq!(d.micros, 0);
}

#[test]
fn data_accessors() {
    let mut blob = Plist::new_data(&[1, 2, 3]);
    assert_eq!(blob.get_data_val().unwrap(), vec![1, 2, 3]);
    blob.set_data_val(&[9, 8]).unwrap();
    assert_eq!(blob.get_data_val().unwrap(), vec![9, 8]);
}

#[test]
fn uid_and_string_accessors() {
    let mut u = Plist::new_uid(5);
    assert_eq!(u.get_uid_val().unwrap(), 5);
    u.set_uid_val(6).unwrap();
    assert_eq!(u.get_uid_val().unwrap(), 6);
    let mut s = Plist::new_string("first");
    s.set_string_val("second").unwrap();
    assert_eq!(s.get_string_val().unwrap(), "second");
}

#[test]
fn display_rendering() {
    assert_eq!(
        Plist::new_bool(true).get_display_value().unwrap(),
        "true"
    );
    assert_eq!(Plist::new_uint(1020).get_display_value().unwrap(), "1020");
    assert_eq!(
        Plist::new_string("hey").get_display_value().unwrap(),
        "hey"
    );
    assert_eq!(
        Plist::new_data(&[1, 2]).get_display_value().unwrap(),
        "[1, 2]"
    );
    // array elements render with no separator between them
    let mut arr = Plist::new_array();
    arr.array_append_item(Plist::new_uint(10)).unwrap();
    arr.array_append_item(Plist::new_uint(20)).unwrap();
    assert_eq!(arr.get_display_value().unwrap(), "[1020]");
    assert_eq!(Plist::new_array().get_display_value().unwrap(), "[]");
    // dictionaries trim the trailing separator
    let mut d = Plist::new_dict();
    d.dict_set_item("a", Plist::new_uint(1)).unwrap();
    assert_eq!(d.get_display_value().unwrap(), "{ a: 1 }");
    // trimming the separator leaves a bare closing brace for an empty
    // dictionary
    assert_eq!(Plist::new_dict().get_display_value().unwrap(), " }");
}
