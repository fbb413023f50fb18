use plist_plus::date::PlistDuration;
use plist_plus::Plist;

#[test]
fn array_test() {
    let b = Plist::new_bool(true);
    let mut p = Plist::new_array();
    p.array_append_item(b).unwrap();
    assert!(p.array_get_item(0).unwrap().get_bool_val().unwrap());
}

#[test]
fn array_get_item_test() {
    // Create a new array with 3 items
    let mut arr = Plist::new_array();
    arr.array_append_item(Plist::new_string("1")).unwrap();
    arr.array_append_item(Plist::new_string("2")).unwrap();
    arr.array_append_item(Plist::new_string("3")).unwrap();

    // Get items and immediately drop them
    std::mem::drop(arr.array_get_item(0).unwrap());
    std::mem::drop(arr.array_get_item(1).unwrap());
    std::mem::drop(arr.array_get_item(2).unwrap());

    // Check if the items are still present.
    // They should be because the extracted handles were borrowed aliases
    assert_eq!("1", arr.array_get_item(0).unwrap().get_string_val().unwrap());
    assert_eq!("2", arr.array_get_item(1).unwrap().get_string_val().unwrap());
    assert_eq!("3", arr.array_get_item(2).unwrap().get_string_val().unwrap());
}

#[test]
fn test_bool() {
    let mut p = Plist::new_bool(false);
    p.set_bool_val(true).unwrap();
    assert_eq!(p.get_bool_val().unwrap(), true);
}

#[test]
fn check_unix_mac_date() {
    let timestamp: u64 = 1546635600123456; // Jan 04 2019 21:00:00.123456

    let unix_date = PlistDuration::from_micros(timestamp);
    let unix_plist = Plist::new_date(unix_date);

    let secs: u64 = 1546635600;
    let usecs: u32 = 123456;

    let mac_plist = Plist::new_date(PlistDuration::new(secs, usecs));

    assert_eq!(
        unix_plist.get_date_val().unwrap(),
        mac_plist.get_date_val().unwrap()
    );
}

#[test]
fn set_random_date() {
    let timestamp: u64 = 1546635600123456; // Jan 04 2019 21:00:00.123456

    let date = PlistDuration::from_micros(timestamp);
    let now = std::time::SystemTime::now()
        .duration_since(std::time::SystemTime::UNIX_EPOCH)
        .unwrap();
    // create a new date with a current time
    let mut plist = Plist::new_date(PlistDuration::from_secs_nanos(now.as_secs(), now.subsec_nanos()));
    plist.set_date_val(date).unwrap(); // set a new time

    assert_eq!(date, plist.get_date_val().unwrap());
}

#[test]
fn dict_test() {
    let b = Plist::new_bool(false);
    let mut p = Plist::new_dict();
    p.dict_set_item("b", b).unwrap();
    let b = p.dict_get_item("b").unwrap();
    assert_eq!(b.get_bool_val().unwrap(), false);
}

#[test]
fn int_test() {
    let mut p = Plist::new_uint(123412340987);
    p.set_uint_val(098709781234).unwrap();
    assert_eq!(p.get_uint_val().unwrap(), 098709781234);
}

#[test]
fn real_test() {
    let mut p = Plist::new_real(3.1415926_f64.to_bits());
    p.set_real_val(1234.098765_f64.to_bits()).unwrap();
    assert_eq!(p.get_real_val().unwrap(), 1234.098765_f64.to_bits())
}
