use bytes::Bytes;
use bytes::BytesMut;
use packet_pipeline::cursor::DirectBuf;
use packet_pipeline::cursor::DirectBufMut;
use packet_pipeline::cursor::Multibytes;
use packet_pipeline::cursor::SliceCursor;
use packet_pipeline::parser::varint;
use std::iter::FromIterator;

fn frozen(x: &[u8]) -> Bytes {
    BytesMut::from_iter(x.iter()).freeze()
}

fn writable(x: &[u8]) -> BytesMut {
    BytesMut::from_iter(x.iter())
}

#[test]
fn bytes_as_a_direct_buffer() {
    let mut b = frozen(&[1, 2, 3, 4, 5, 6]);
    assert_eq!(DirectBuf::remaining(&b), 6);
    assert_eq!(DirectBuf::bytes(&b), [1, 2, 3, 4, 5, 6]);
    DirectBuf::advance(&mut b, 1);
    assert_eq!(DirectBuf::bytes(&b), [2, 3, 4, 5, 6]);
    let head = DirectBuf::split_to(&mut b, 2);
    assert_eq!(DirectBuf::bytes(&head), [2, 3]);
    assert_eq!(DirectBuf::bytes(&b), [4, 5, 6]);
    DirectBuf::truncate(&mut b, 1);
    assert_eq!(DirectBuf::bytes(&b), [4]);
    assert_eq!(DirectBuf::remaining(&b), 1);
    assert_eq!(SliceCursor::get_u8(&mut b), 4);
    assert!(!b.has_atleast(1));
    assert!(b.has_atleast(0));
}

#[test]
fn bytes_mut_as_a_direct_buffer() {
    let mut b = writable(&[1, 2, 3, 4, 5, 6]);
    assert_eq!(DirectBuf::remaining(&b), 6);
    DirectBuf::advance(&mut b, 1);
    assert_eq!(DirectBuf::bytes(&b), [2, 3, 4, 5, 6]);
    let head = DirectBuf::split_to(&mut b, 2);
    assert_eq!(DirectBuf::bytes(&head), [2, 3]);
    assert_eq!(DirectBuf::bytes(&b), [4, 5, 6]);
    DirectBuf::truncate(&mut b, 2);
    assert_eq!(DirectBuf::bytes(&b), [4, 5]);
    b.region_mut()[1] = 9;
    assert_eq!(DirectBuf::bytes(&b), [4, 9]);
    assert_eq!(SliceCursor::get_u8(&mut b), 4);
    assert_eq!(DirectBuf::bytes(&b), [9]);
}

#[test]
fn varint_reads_from_a_writable_buffer() {
    let (rest, value) = varint(writable(&[0xac, 0x02, 0x7])).unwrap();
    assert_eq!(value, 300);
    assert_eq!(DirectBuf::bytes(&rest), [0x7]);
}

#[test]
fn varint_reads_across_pages_of_a_view() {
    let mut mb: Multibytes<Bytes> = Multibytes::empty();
    mb.append(frozen(&[]));
    mb.append(frozen(&[0xac]));
    mb.append(frozen(&[]));
    mb.append(frozen(&[0x02, 0x7]));
    let (view, value) = varint(mb.view()).unwrap();
    assert_eq!(value, 300);
    assert_eq!(view.remaining(), 1);
    assert_eq!(view.cursor().remaining(&mb), 1);
    assert_eq!(view.bytes(), [0x7]);
}

#[test]
fn pop_front_takes_pages_in_order() {
    let mut mb: Multibytes<Bytes> = Multibytes::empty();
    assert!(mb.pop_front().is_none());
    mb.append(frozen(&[1]));
    mb.append(frozen(&[2, 3]));
    assert_eq!(DirectBuf::bytes(&mb.pop_front().unwrap()), [1]);
    assert_eq!(mb.len(), 1);
    assert_eq!(mb.total_len(), 2);
    assert_eq!(DirectBuf::bytes(&mb.pop_front().unwrap()), [2, 3]);
    assert!(mb.pop_front().is_none());
}
