use joader::loader::loader::Cursor;
use joader::local_cache::policy::{Policy, RefCnt};
use joader::process::msgpack::{
    encode, get_array_head_size, get_bin_size_from_len, get_int_size, msg_size, msgpack,
    record_size, write_record_head, MsgObject,
};

#[test]
fn test_encode() {
    let int = &2u16.to_be_bytes();
    let bin = &[7u8; 16];
    let msg_int = Box::new(MsgObject::UInt(2));
    let msg_bin = Box::new(MsgObject::Bin(bin.to_vec()));
    let array = MsgObject::Array(vec![msg_bin, msg_int]);
    let size = msg_size(&array);
    assert_eq!(size, 1 + 18 + 1);
    let mut write = vec![0u8; size];
    msgpack(&mut write, &array);
    assert_eq!(&write[3..19], bin);
    assert_eq!(&write[19..], &int[1..]);
}

#[test]
fn sizes_of_the_parts() {
    assert_eq!(get_array_head_size(0), 1);
    assert_eq!(get_array_head_size(15), 1);
    assert_eq!(get_array_head_size(16), 2);
    assert_eq!(get_array_head_size(255), 2);
    assert_eq!(get_bin_size_from_len(1), 3);
    assert_eq!(get_bin_size_from_len(255), 257);
    assert_eq!(get_bin_size_from_len(256), 259);
    assert_eq!(get_bin_size_from_len(65535), 65538);
    assert_eq!(get_bin_size_from_len(65536), 65541);
    assert_eq!(get_int_size(0), 1);
    assert_eq!(get_int_size(127), 1);
    assert_eq!(get_int_size(128), 2);
    assert_eq!(get_int_size(255), 2);
    assert_eq!(get_int_size(256), 3);
    assert_eq!(get_int_size(65535), 3);
    assert_eq!(get_int_size(65536), 5);
    assert_eq!(get_int_size(4294967295), 5);
}

#[test]
fn encodings_of_numbers_and_runs() {
    assert_eq!(encode(&MsgObject::UInt(5)), vec![5]);
    assert_eq!(encode(&MsgObject::UInt(127)), vec![127]);
    assert_eq!(encode(&MsgObject::UInt(128)), vec![0xcc, 128]);
    assert_eq!(encode(&MsgObject::UInt(0x1234)), vec![0xcd, 0x12, 0x34]);
    assert_eq!(
        encode(&MsgObject::UInt(0x12345678)),
        vec![0xce, 0x12, 0x34, 0x56, 0x78]
    );
    assert_eq!(encode(&MsgObject::Bin(vec![9, 8])), vec![0xc4, 2, 9, 8]);
    let long = encode(&MsgObject::Bin(vec![1; 300]));
    assert_eq!(&long[..3], &[0xc5, 0x01, 0x2c]);
    assert_eq!(long.len(), 303);
    let nested = MsgObject::Array(vec![
        Box::new(MsgObject::UInt(1)),
        Box::new(MsgObject::Array(vec![Box::new(MsgObject::UInt(300))])),
    ]);
    assert_eq!(encode(&nested), vec![0x92, 1, 0x91, 0xcd, 0x01, 0x2c]);
    assert_eq!(msg_size(&nested), 6);
}

#[test]
fn msgpack_needs_room() {
    let value = MsgObject::UInt(70000);
    let mut small = vec![9u8; 4];
    assert!(!msgpack(&mut small, &value));
    assert_eq!(small, vec![9u8; 4]);
    let mut large = vec![9u8; 7];
    assert!(msgpack(&mut large, &value));
    assert_eq!(large, vec![0xce, 0x00, 0x01, 0x11, 0x70, 9, 9]);
}

#[test]
fn record_of_an_image() {
    let head = write_record_head(3, 640, 480, 921600);
    assert_eq!(
        head,
        vec![0x94, 3, 0xcd, 0x02, 0x80, 0xcd, 0x01, 0xe0, 0xc6, 0x00, 0x0e, 0x10, 0x00]
    );
    assert_eq!(record_size(3, 640, 480, 921600), head.len() + 921600);
}

#[test]
fn the_fewest_holders_are_given_up_first() {
    let mut policy = RefCnt::new(64);
    assert_eq!(policy.evict(), None);
    policy.set(10, 3);
    policy.set(11, 1);
    policy.set(12, 3);
    policy.set(13, 1);
    policy.set(11, 5);
    assert_eq!(policy.evict(), Some(vec![13]));
    assert_eq!(policy.evict(), Some(vec![10, 12]));
    assert_eq!(policy.evict(), Some(vec![11]));
    assert_eq!(policy.evict(), None);
}

#[test]
fn hosts_take_turns() {
    let mut cursor = Cursor::new();
    assert_eq!(cursor.next(), None);
    cursor.push(7);
    cursor.push(9);
    assert_eq!(cursor.next(), Some(9));
    assert_eq!(cursor.next(), None);
    assert_eq!(cursor.next(), Some(7));
    assert_eq!(cursor.next(), Some(9));
    assert_eq!(cursor.next(), None);
}
