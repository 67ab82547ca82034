use bytes::Bytes;
use bytes::BytesMut;
use packet_pipeline::parser::varint;
use packet_pipeline::parser::varlong;
use packet_pipeline::parser::ParseErr;
use packet_pipeline::parser::VarintParseFail;
use std::iter::FromIterator;

fn parser_buf(x: &[u8]) -> Bytes {
    BytesMut::from_iter(x.iter()).freeze()
}

fn check_varint(expected: i32, input: &[u8]) {
    assert_eq!(varint(parser_buf(input)).unwrap(), (parser_buf(&[]), expected));
}

fn check_varlong(expected: i64, input: &[u8]) {
    assert_eq!(varlong(parser_buf(input)).unwrap(), (parser_buf(&[]), expected));
}

#[test]
fn varint_test() {
    check_varint(0, &[0x00]);
    check_varint(1, &[0x01]);
    check_varint(2, &[0x02]);
    check_varint(127, &[0x7f]);
    check_varint(128, &[0x80, 0x01]);
    check_varint(255, &[0xff, 0x01]);
    check_varint(2147483647, &[0xff, 0xff, 0xff, 0xff, 0x07]);
    check_varint(-1, &[0xff, 0xff, 0xff, 0xff, 0x0f]);
    check_varint(-2147483648, &[0x80, 0x80, 0x80, 0x80, 0x08]);
}

#[test]
fn varlong_test() {
    check_varlong(0, &[0x00]);
    check_varlong(1, &[0x01]);
    check_varlong(2, &[0x02]);
    check_varlong(127, &[0x7f]);
    check_varlong(128, &[0x80, 0x01]);
    check_varlong(255, &[0xff, 0x01]);
    check_varlong(2147483647, &[0xff, 0xff, 0xff, 0xff, 0x07]);
    check_varlong(
        9223372036854775807,
        &[0xff, 0xff, 0xff, 0xff, 0xff, 0xff, 0xff, 0xff, 0x7f],
    );
    check_varlong(
        -1,
        &[0xff, 0xff, 0xff, 0xff, 0xff, 0xff, 0xff, 0xff, 0xff, 0x01],
    );
    check_varlong(
        -2147483648,
        &[0x80, 0x80, 0x80, 0x80, 0xf8, 0xff, 0xff, 0xff, 0xff, 0x01],
    );
    check_varlong(
        -9223372036854775808,
        &[0x80, 0x80, 0x80, 0x80, 0x80, 0x80, 0x80, 0x80, 0x80, 0x01],
    );
}

#[test]
fn varint_blowout() {
    assert_eq!(
        varint(parser_buf(&[0x80, 0x80, 0x80, 0x80, 0x80])).unwrap_err(),
        ParseErr::Error(VarintParseFail::VarintExceededShift(32))
    );
}

#[test]
fn varlong_blowout() {
    assert_eq!(
        varlong(parser_buf(&[
            0x80, 0x80, 0x80, 0x80, 0x80, 0x80, 0x80, 0x80, 0x80, 0x80
        ]))
        .unwrap_err(),
        ParseErr::Error(VarintParseFail::VarintExceededShift(64))
    );
}

#[test]
fn varint_short() {
    assert_eq!(
        varint(parser_buf(&[0x80, 0x80])).unwrap_err(),
        ParseErr::Incomplete
    );
    assert_eq!(
        varlong(parser_buf(&[0x80, 0x80])).unwrap_err(),
        ParseErr::Incomplete
    );
}

#[test]
fn varint_non_term() {
    assert_eq!(
        varint(parser_buf(&[0x01, 0x02])).unwrap(),
        (parser_buf(&[0x02]), 1)
    );
    assert_eq!(
        varlong(parser_buf(&[0x01, 0x02])).unwrap(),
        (parser_buf(&[0x02]), 1)
    );
}

#[test]
fn varint_empty_input_is_incomplete() {
    assert_eq!(varint(parser_buf(&[])).unwrap_err(), ParseErr::Incomplete);
    assert_eq!(varlong(parser_buf(&[])).unwrap_err(), ParseErr::Incomplete);
}

#[test]
fn varint_four_continuations_then_end_is_incomplete() {
    assert_eq!(
        varint(parser_buf(&[0x80, 0x80, 0x80, 0x80])).unwrap_err(),
        ParseErr::Incomplete
    );
}

#[test]
fn varint_fifth_byte_high_bits_are_lost() {
    // the fifth group has only four bits of room in 32 bits
    check_varint(0, &[0x80, 0x80, 0x80, 0x80, 0x70]);
    check_varint(300, &[0xac, 0x02]);
}
