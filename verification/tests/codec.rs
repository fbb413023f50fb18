use plist_plus::date::PlistDuration;
use plist_plus::error::PlistError;
use plist_plus::{Plist, PlistType};

fn round_trips_bin(n: &Plist) {
    let bytes = n.to_bin().unwrap();
    let back = Plist::from_bin(bytes).unwrap();
    assert!(Plist::compare_node_values(n.clone(), back));
}

fn round_trips_xml(n: &Plist) {
    let text = n.to_xml();
    let back = Plist::from_xml(text).unwrap();
    assert!(Plist::compare_node_values(n.clone(), back));
}

#[test]
fn bin_round_trip_scalars() {
    round_trips_bin(&Plist::new_bool(true));
    round_trips_bin(&Plist::new_bool(false));
    round_trips_bin(&Plist::new_uint(0));
    round_trips_bin(&Plist::new_uint(u64::MAX));
    round_trips_bin(&Plist::new_real(2.5_f64.to_bits()));
    round_trips_bin(&Plist::new_date(PlistDuration::from_micros(1546635600123456)));
    round_trips_bin(&Plist::new_data(&[0, 1, 2, 254, 255]));
    round_trips_bin(&Plist::new_data(&[]));
    round_trips_bin(&Plist::new_string("hello plist"));
    round_trips_bin(&Plist::new_string(""));
    round_trips_bin(&Plist::new_string("snowman \u{2603} and more"));
    round_trips_bin(&Plist::new_uid(99));
}

#[test]
fn bin_round_trip_composites() {
    let mut arr = Plist::new_array();
    arr.array_append_item(Plist::new_uint(1)).unwrap();
    arr.array_append_item(Plist::new_string("two")).unwrap();
    let mut dict = Plist::new_dict();
    dict.dict_set_item("numbers", arr).unwrap();
    dict.dict_set_item("flag", Plist::new_bool(true)).unwrap();
    round_trips_bin(&dict);

    round_trips_bin(&Plist::new_array());
    round_trips_bin(&Plist::new_dict());
}

#[test]
fn xml_round_trip_scalars() {
    round_trips_xml(&Plist::new_bool(true));
    round_trips_xml(&Plist::new_bool(false));
    round_trips_xml(&Plist::new_uint(1234567890));
    round_trips_xml(&Plist::new_real(1.5_f64.to_bits()));
    round_trips_xml(&Plist::new_date(PlistDuration::from_micros(1546635600123456)));
    round_trips_xml(&Plist::new_data(&[0xde, 0xad, 0xbe, 0xef]));
    round_trips_xml(&Plist::new_string("a < b & b > c"));
    round_trips_xml(&Plist::new_string(""));
    round_trips_xml(&Plist::new_uid(7));
}

#[test]
fn xml_round_trip_composites() {
    let mut arr = Plist::new_array();
    arr.array_append_item(Plist::new_uint(10)).unwrap();
    arr.array_append_item(Plist::new_uint(20)).unwrap();
    let mut dict = Plist::new_dict();
    dict.dict_set_item("x", arr).unwrap();
    dict.dict_set_item("name", Plist::new_string("esc & <tag>")).unwrap();
    round_trips_xml(&dict);
}

#[test]
fn xml_exact_text() {
    let n = Plist::new_uint(42);
    assert_eq!(n.to_xml(), "<integer>42</integer>");
    let b = Plist::new_bool(true);
    assert_eq!(b.to_xml(), "<true/>");
    let s = Plist::new_string("a&b");
    assert_eq!(s.to_xml(), "<string>a&amp;b</string>");
    let d = Plist::new_data(&[0x0f, 0xa0]);
    assert_eq!(d.to_xml(), "<data>0fa0</data>");
}

#[test]
fn from_bin_errors() {
    // no magic prefix: a format error
    let r = Plist::from_bin(vec![1, 2, 3, 4, 5]);
    assert_eq!(r.unwrap_err(), PlistError::Format);
    // magic but truncated body: a parse error
    let mut bytes = Plist::new_uint(7).to_bin().unwrap();
    bytes.pop();
    let r = Plist::from_bin(bytes);
    assert_eq!(r.unwrap_err(), PlistError::Parse);
    // trailing garbage after a full node: a parse error
    let mut bytes = Plist::new_uint(7).to_bin().unwrap();
    bytes.push(0);
    assert_eq!(Plist::from_bin(bytes).unwrap_err(), PlistError::Parse);
}

#[test]
fn from_xml_errors() {
    let r = Plist::from_xml("with \0 inside".to_string());
    assert_eq!(r.unwrap_err(), PlistError::InvalidArg);
    let r = Plist::from_xml("<integer>12".to_string());
    assert_eq!(r.unwrap_err(), PlistError::Parse);
    let r = Plist::from_xml("<integer>7</integer>extra".to_string());
    assert_eq!(r.unwrap_err(), PlistError::Parse);
    let r = Plist::from_xml("<dict><key>a</key><true/><key>a</key><false/></dict>".to_string());
    assert_eq!(r.unwrap_err(), PlistError::Parse);
}

#[test]
fn from_memory_dispatch() {
    // a binary buffer is decoded as binary
    let bytes = Plist::new_uint(11).to_bin().unwrap();
    let n = Plist::from_memory(bytes).unwrap();
    assert_eq!(n.get_uint_val().unwrap(), 11);
    // a textual buffer is decoded as text
    let n = Plist::from_memory(b"<integer>12</integer>".to_vec()).unwrap();
    assert_eq!(n.get_uint_val().unwrap(), 12);
    // invalid UTF-8 without the magic prefix is a parse error
    let r = Plist::from_memory(vec![0xff, 0xfe, 0x80]);
    assert_eq!(r.unwrap_err(), PlistError::Parse);
}

#[test]
fn is_binary_checks_payload() {
    let buffer = Plist::new_uint(3).to_bin().unwrap();
    let blob = Plist::new_data(&buffer);
    assert!(blob.is_binary());
    let plain = Plist::new_data(&[1, 2, 3]);
    assert!(!plain.is_binary());
    // a non-blob node is never recognized
    assert!(!Plist::new_uint(3).is_binary());
}

#[test]
fn node_type_codes() {
    assert_eq!(PlistType::from_code(0), PlistType::Boolean);
    assert_eq!(PlistType::from_code(5), PlistType::Dictionary);
    assert_eq!(PlistType::from_code(10), PlistType::Null);
    assert_eq!(PlistType::from_code(77), PlistType::Unknown);
    assert_eq!(Plist::new_uint(1).get_node_type(), PlistType::Integer);
    assert_eq!(Plist::new_dict().get_node_type(), PlistType::Dictionary);
}

#[test]
fn error_codes() {
    assert_eq!(PlistError::from_code(0), PlistError::Success);
    assert_eq!(PlistError::from_code(-1), PlistError::InvalidArg);
    assert_eq!(PlistError::from_code(-2), PlistError::Format);
    assert_eq!(PlistError::from_code(-3), PlistError::Parse);
    assert_eq!(PlistError::from_code(-4), PlistError::NoMem);
    assert_eq!(PlistError::from_code(-77), PlistError::Unknown);
    assert_eq!(PlistError::Parse.name(), "Parse");
}
