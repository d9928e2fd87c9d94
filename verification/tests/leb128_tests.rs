use blohai::leb128::{write_signed, write_unsigned};

fn unsigned(value: u32) -> Vec<u8> {
    let mut out = Vec::new();
    write_unsigned(&mut out, value);
    out
}

fn signed(value: i32) -> Vec<u8> {
    let mut out = Vec::new();
    write_signed(&mut out, value);
    out
}

#[test]
fn unsigned_values_below_128_take_one_byte() {
    assert_eq!(unsigned(0), vec![0x00]);
    assert_eq!(unsigned(1), vec![0x01]);
    assert_eq!(unsigned(127), vec![0x7f]);
}

#[test]
fn unsigned_values_from_128_on_take_more_bytes() {
    assert_eq!(unsigned(128), vec![0x80, 0x01]);
    assert_eq!(unsigned(300), vec![0xac, 0x02]);
    assert_eq!(unsigned(16383), vec![0xff, 0x7f]);
    assert_eq!(unsigned(16384), vec![0x80, 0x80, 0x01]);
    assert_eq!(unsigned(624485), vec![0xe5, 0x8e, 0x26]);
}

#[test]
fn unsigned_maximum_takes_five_bytes() {
    assert_eq!(unsigned(u32::MAX), vec![0xff, 0xff, 0xff, 0xff, 0x0f]);
}

#[test]
fn unsigned_is_appended_to_what_is_there() {
    let mut out = vec![0xaa, 0xbb];
    write_unsigned(&mut out, 128);
    assert_eq!(out, vec![0xaa, 0xbb, 0x80, 0x01]);
}

#[test]
fn signed_small_values_take_one_byte() {
    assert_eq!(signed(0), vec![0x00]);
    assert_eq!(signed(1), vec![0x01]);
    assert_eq!(signed(63), vec![0x3f]);
    assert_eq!(signed(-1), vec![0x7f]);
    assert_eq!(signed(-64), vec![0x40]);
}

#[test]
fn signed_values_need_a_byte_for_the_sign() {
    assert_eq!(signed(64), vec![0xc0, 0x00]);
    assert_eq!(signed(127), vec![0xff, 0x00]);
    assert_eq!(signed(128), vec![0x80, 0x01]);
    assert_eq!(signed(-65), vec![0xbf, 0x7f]);
    assert_eq!(signed(-128), vec![0x80, 0x7f]);
    assert_eq!(signed(-129), vec![0xff, 0x7e]);
}

#[test]
fn signed_known_value() {
    assert_eq!(signed(-123456), vec![0xc0, 0xbb, 0x78]);
}

#[test]
fn signed_extremes_take_five_bytes() {
    assert_eq!(signed(i32::MAX), vec![0xff, 0xff, 0xff, 0xff, 0x07]);
    assert_eq!(signed(i32::MIN), vec![0x80, 0x80, 0x80, 0x80, 0x78]);
}

#[test]
fn signed_is_appended_to_what_is_there() {
    let mut out = vec![0x41];
    write_signed(&mut out, -1);
    assert_eq!(out, vec![0x41, 0x7f]);
}
