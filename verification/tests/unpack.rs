use joader::dataset::record::process;
use joader::process::msgpack::{encode, field, msg_unpack, parse_object, MsgObject};

fn shown(bytes: &[u8]) -> Option<String> {
    msg_unpack(bytes).map(|values| format!("{:?}", values))
}

#[test]
fn numbers_are_read_in_each_form() {
    assert_eq!(shown(&[0x05]), Some("[UInt(5)]".to_string()));
    assert_eq!(shown(&[0x7f]), Some("[UInt(127)]".to_string()));
    assert_eq!(shown(&[0xcc, 0xff]), Some("[UInt(255)]".to_string()));
    assert_eq!(shown(&[0xcc, 0x05]), Some("[UInt(5)]".to_string()));
    assert_eq!(shown(&[0xcd, 0x01, 0x2c]), Some("[UInt(300)]".to_string()));
    assert_eq!(
        shown(&[0xce, 0x00, 0x01, 0x00, 0x00]),
        Some("[UInt(65536)]".to_string())
    );
    assert_eq!(
        shown(&[0xce, 0xff, 0xff, 0xff, 0xff]),
        Some("[UInt(4294967295)]".to_string())
    );
}

#[test]
fn runs_of_bytes_are_read_in_each_form() {
    assert_eq!(shown(&[0xc4, 2, 9, 8]), Some("[Bin([9, 8])]".to_string()));
    assert_eq!(shown(&[0xc4, 0]), Some("[Bin([])]".to_string()));
    assert_eq!(
        shown(&[0xc5, 0, 3, 1, 2, 3]),
        Some("[Bin([1, 2, 3])]".to_string())
    );
    assert_eq!(
        shown(&[0xc6, 0, 0, 0, 1, 7]),
        Some("[Bin([7])]".to_string())
    );
    let mut long = vec![0xc5, 0x01, 0x2c];
    long.extend(vec![4u8; 300]);
    match msg_unpack(&long) {
        Some(values) => match &values[..] {
            [MsgObject::Bin(bin)] => assert_eq!(bin, &vec![4u8; 300]),
            _ => panic!("one run of bytes"),
        },
        None => panic!("the bytes are a value"),
    }
}

#[test]
fn arrays_are_read_in_each_form() {
    assert_eq!(shown(&[0x90]), Some("[Array([])]".to_string()));
    assert_eq!(
        shown(&[0x92, 1, 0x91, 0xcd, 0x01, 0x2c]),
        Some("[Array([UInt(1), Array([UInt(300)])])]".to_string())
    );
    assert_eq!(
        shown(&[0xdc, 0, 2, 1, 2]),
        Some("[Array([UInt(1), UInt(2)])]".to_string())
    );
    assert_eq!(
        shown(&[0xdd, 0, 0, 0, 1, 0xc3]),
        Some("[Array([Bool(true)])]".to_string())
    );
}

#[test]
fn a_dictionary_keeps_its_entries_in_order() {
    let bytes = [
        0x82, 0xc4, 4, b'd', b'a', b't', b'a', 0xc4, 2, 1, 2, 0xc4, 1, b'n', 0x07,
    ];
    assert_eq!(
        shown(&bytes),
        Some("[Dict([(\"data\", Bin([1, 2])), (\"n\", UInt(7))])]".to_string())
    );
    assert_eq!(shown(&[0x80]), Some("[Dict([])]".to_string()));
}

#[test]
fn values_stand_one_behind_the_other() {
    assert_eq!(shown(&[]), Some("[]".to_string()));
    assert_eq!(
        shown(&[0x01, 0xc3, 0xc4, 1, 5]),
        Some("[UInt(1), Bool(true), Bin([5])]".to_string())
    );
}

#[test]
fn what_is_no_value_is_not_read() {
    // A byte that begins no value that is read.
    assert_eq!(shown(&[0xc0]), None);
    assert_eq!(shown(&[0xc2]), None);
    assert_eq!(shown(&[0xcf, 0, 0, 0, 0, 0, 0, 0, 1]), None);
    assert_eq!(shown(&[0xa1, b'a']), None);
    assert_eq!(shown(&[0xff]), None);
    // Bytes that end within a value.
    assert_eq!(shown(&[0xcc]), None);
    assert_eq!(shown(&[0xcd, 1]), None);
    assert_eq!(shown(&[0xce, 1, 2, 3]), None);
    assert_eq!(shown(&[0xc4, 3, 1, 2]), None);
    assert_eq!(shown(&[0xc5, 0]), None);
    assert_eq!(shown(&[0x92, 1]), None);
    assert_eq!(shown(&[0xdd, 0xff, 0xff, 0xff, 0xff, 1]), None);
    assert_eq!(shown(&[0x81, 0xc4, 1, b'k']), None);
    // A value behind which something else stands.
    assert_eq!(shown(&[0x01, 0xc0]), None);
    // A key that is no run of bytes, and one that is no text.
    assert_eq!(shown(&[0x81, 0x01, 0x02]), None);
    assert_eq!(shown(&[0x81, 0xc4, 1, 0xff, 0x02]), None);
}

#[test]
fn a_value_is_read_from_its_place() {
    let bytes = [0xc3, 0xcd, 0x01, 0x2c, 0x05];
    match parse_object(&bytes, 1) {
        Some((MsgObject::UInt(v), end)) => {
            assert_eq!(v, 300);
            assert_eq!(end, 4);
        }
        _ => panic!("a number begins at 1"),
    }
    match parse_object(&bytes, 0) {
        Some((MsgObject::Bool(b), end)) => {
            assert!(b);
            assert_eq!(end, 1);
        }
        _ => panic!("true stands at 0"),
    }
    assert!(parse_object(&bytes, 5).is_none());
    assert!(parse_object(&bytes, 2).is_some());
}

#[test]
fn what_was_encoded_is_read_back() {
    let value = MsgObject::Array(vec![
        Box::new(MsgObject::Bin(vec![7u8; 16])),
        Box::new(MsgObject::UInt(2)),
        Box::new(MsgObject::Array(vec![
            Box::new(MsgObject::UInt(70000)),
            Box::new(MsgObject::Bin(vec![1u8; 300])),
        ])),
        Box::new(MsgObject::Array(
            (0..20u64).map(|i| Box::new(MsgObject::UInt(i * 100))).collect(),
        )),
    ]);
    let bytes = encode(&value);
    let back = msg_unpack(&bytes).expect("an encoding is a value");
    assert_eq!(back.len(), 1);
    assert_eq!(format!("{:?}", back[0]), format!("{:?}", value));
    assert_eq!(encode(&back[0]), bytes);
}

#[test]
fn a_key_gives_its_last_entry() {
    let entries = vec![
        ("a".to_string(), Box::new(MsgObject::UInt(1))),
        ("b".to_string(), Box::new(MsgObject::UInt(2))),
        ("a".to_string(), Box::new(MsgObject::UInt(3))),
    ];
    assert!(matches!(
        field(&entries, &"a".to_string()),
        Some(MsgObject::UInt(3))
    ));
    assert!(matches!(
        field(&entries, &"b".to_string()),
        Some(MsgObject::UInt(2))
    ));
    assert!(field(&entries, &"c".to_string()).is_none());
    assert!(field(&Vec::new(), &"a".to_string()).is_none());
}

#[test]
fn a_record_gives_its_label_and_its_image() {
    let record = [
        0x92, 0x81, 0xc4, 4, b'd', b'a', b't', b'a', 0xc4, 3, 1, 2, 3, 0x07,
    ];
    assert_eq!(process(&record), Some((7, vec![1, 2, 3])));
    // More entries, more elements and more values change nothing.
    let longer = [
        0x93, 0x82, 0xc4, 1, b'x', 0xc3, 0xc4, 4, b'd', b'a', b't', b'a', 0xc4, 1, 9, 0xcd, 0x01,
        0x2c, 0xc3, 0x05,
    ];
    assert_eq!(process(&longer), Some((300, vec![9])));
    // Of two entries of one name the last counts.
    let twice = [
        0x92, 0x82, 0xc4, 4, b'd', b'a', b't', b'a', 0xc4, 1, 1, 0xc4, 4, b'd', b'a', b't', b'a',
        0xc4, 1, 2, 0x00,
    ];
    assert_eq!(process(&twice), Some((0, vec![2])));
}

#[test]
fn what_is_no_record_gives_nothing() {
    assert_eq!(process(&[]), None);
    assert_eq!(process(&[0x07]), None);
    assert_eq!(process(&[0x90]), None);
    assert_eq!(process(&[0x91, 0x80]), None);
    // No entry `data`.
    assert_eq!(process(&[0x92, 0x81, 0xc4, 1, b'x', 0xc4, 1, 1, 0x07]), None);
    // The entry `data` is no run of bytes.
    assert_eq!(
        process(&[0x92, 0x81, 0xc4, 4, b'd', b'a', b't', b'a', 0x01, 0x07]),
        None
    );
    // The label is no number.
    assert_eq!(
        process(&[0x92, 0x81, 0xc4, 4, b'd', b'a', b't', b'a', 0xc4, 1, 1, 0xc3]),
        None
    );
    // The first element is no dictionary.
    assert_eq!(process(&[0x92, 0x01, 0x07]), None);
    // The bytes end within the record.
    assert_eq!(
        process(&[0x92, 0x81, 0xc4, 4, b'd', b'a', b't', b'a', 0xc4, 3, 1, 2]),
        None
    );
}
