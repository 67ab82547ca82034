use bytes::Bytes;
use bytes::BytesMut;
use packet_pipeline::cursor::DirectBuf;
use packet_pipeline::framer::Frame;
use packet_pipeline::framer::FrameError;
use packet_pipeline::framer::Framer;
use std::iter::FromIterator;

fn to_buf(x: &[u8]) -> Bytes {
    BytesMut::from_iter(x.iter()).freeze()
}

fn varint_len(mut v: usize) -> usize {
    let mut i = 1;
    loop {
        v >>= 7;
        if v == 0 {
            return i;
        } else {
            i += 1;
        }
    }
}

fn validate_frame(f: &Frame<Bytes>, len: usize) {
    let c = f.packet.cursor();
    assert_eq!(c.remaining(&f.packet), varint_len(len) + len);
}

fn frame_bytes(f: &Frame<Bytes>) -> Vec<u8> {
    let mut out = Vec::new();
    for i in 0..f.packet.len() {
        out.extend_from_slice(f.packet.page(i).bytes());
    }
    out
}

#[test]
fn it_works() {
    assert_eq!(2 + 2, 4);
}

#[test]
fn max_frame_size() {
    let mut f = Framer::new(128, 1);
    // Prefix length of 129
    let b = to_buf(&[0x80, 0x02]);
    f.push_buffer(b);
    assert_eq!(f.frame().unwrap_err(), FrameError::DecodeError);
}

#[test]
fn invalid_varint() {
    let mut f = Framer::new(128, 1);
    // Invalid varint should result in an error
    let b = to_buf(&[0x80, 0x80, 0x80, 0x80, 0x80, 0x02]);
    f.push_buffer(b);
    assert_eq!(f.frame().unwrap_err(), FrameError::DecodeError);
}

#[test]
fn single_frame() {
    let mut f = Framer::new(128, 1);
    let b = to_buf(&[0x3, 0x0, 0x1, 0x2]);
    f.push_buffer(b);

    let packet1 = f.frame().unwrap();
    validate_frame(&packet1, 3);
    let eof = f.frame();
    assert_eq!(eof.unwrap_err(), FrameError::WaitingForHeader);
}

#[test]
fn single_frame_multi_invoke() {
    let mut f = Framer::new(128, 1);
    f.push_buffer(to_buf(&[0x3]));
    assert_eq!(f.frame().unwrap_err(), FrameError::WaitingForData(3));

    f.push_buffer(to_buf(&[0x0]));
    assert_eq!(f.frame().unwrap_err(), FrameError::WaitingForData(2));

    f.push_buffer(to_buf(&[0x1]));
    assert_eq!(f.frame().unwrap_err(), FrameError::WaitingForData(1));

    f.push_buffer(to_buf(&[0x2]));
    validate_frame(&f.frame().unwrap(), 3);
    assert_eq!(f.frame().unwrap_err(), FrameError::WaitingForHeader);
}

#[test]
fn multi_frame_single_invoke() {
    let mut f = Framer::new(128, 1);
    let b = to_buf(&[0x3, 0x0, 0x1, 0x2, 0x2, 0x0, 0x1]);
    f.push_buffer(b);
    validate_frame(&f.frame().unwrap(), 3);
    validate_frame(&f.frame().unwrap(), 2);
    assert_eq!(f.frame().unwrap_err(), FrameError::WaitingForHeader);
}

#[test]
fn odd_partition() {
    let mut f = Framer::new(128, 1);
    f.push_buffer(to_buf(&[0x3, 0x0, 0x1]));
    assert_eq!(f.frame().unwrap_err(), FrameError::WaitingForData(1));

    f.push_buffer(to_buf(&[0x2, 0x2, 0x0, 0x1, 0x4, 0x0]));
    validate_frame(&f.frame().unwrap(), 3);
    validate_frame(&f.frame().unwrap(), 2);
    assert_eq!(f.frame().unwrap_err(), FrameError::WaitingForData(3));
}

#[test]
fn frame_carries_its_bytes_and_payload_start() {
    let mut f = Framer::new(128, 1);
    f.push_buffer(to_buf(&[0x3, 0xa]));
    assert_eq!(f.frame().unwrap_err(), FrameError::WaitingForData(2));
    f.push_buffer(to_buf(&[0xb, 0xc, 0x1]));
    let frame = f.frame().unwrap();
    assert_eq!(frame_bytes(&frame), vec![0x3, 0xa, 0xb, 0xc]);
    assert_eq!(frame.data_start.remaining(&frame.packet), 3);
    assert_eq!(f.frame().unwrap_err(), FrameError::WaitingForData(1));
}

#[test]
fn frames_do_not_depend_on_the_partition() {
    let stream: Vec<u8> = vec![0x3, 0x0, 0x1, 0x2, 0x0, 0x2, 0x9, 0x8, 0x1, 0x7];
    let mut whole = Framer::new(128, 1);
    whole.push_buffer(to_buf(&stream));
    let mut expected: Vec<Vec<u8>> = Vec::new();
    while let Ok(frame) = whole.frame() {
        expected.push(frame_bytes(&frame));
    }
    assert_eq!(
        expected,
        vec![vec![0x3, 0x0, 0x1, 0x2], vec![0x0], vec![0x2, 0x9, 0x8], vec![0x1, 0x7]]
    );
    for chunk in 1..stream.len() {
        let mut f = Framer::new(128, 1);
        let mut got: Vec<Vec<u8>> = Vec::new();
        for part in stream.chunks(chunk) {
            f.push_buffer(to_buf(part));
            while let Ok(frame) = f.frame() {
                got.push(frame_bytes(&frame));
            }
        }
        assert_eq!(got, expected);
    }
}

#[test]
fn negative_length_is_a_decode_error() {
    let mut f = Framer::new(128, 1);
    f.push_buffer(to_buf(&[0xff, 0xff, 0xff, 0xff, 0x0f]));
    assert_eq!(f.frame().unwrap_err(), FrameError::DecodeError);
}

#[test]
fn empty_first_buffer_is_skipped() {
    let mut f = Framer::new(128, 1);
    f.push_buffer(to_buf(&[]));
    assert_eq!(f.frame().unwrap_err(), FrameError::WaitingForHeader);
    f.push_buffer(to_buf(&[0x1, 0x5]));
    let frame = f.frame().unwrap();
    assert_eq!(frame_bytes(&frame), vec![0x1, 0x5]);
}

#[test]
fn frame_of_exactly_the_limit_is_accepted() {
    let mut f = Framer::new(2, 1);
    f.push_buffer(to_buf(&[0x2, 0x1, 0x1, 0x3]));
    validate_frame(&f.frame().unwrap(), 2);
    assert_eq!(f.frame().unwrap_err(), FrameError::DecodeError);
}

#[test]
fn payload_start_is_trued_up() {
    let mut f = Framer::new(128, 1);
    f.push_buffer(to_buf(&[0x0, 0x2, 0x7]));
    // a frame without payload, which ends inside the buffer
    let empty = f.frame().unwrap();
    assert_eq!(frame_bytes(&empty), vec![0x0]);
    assert_eq!(
        (empty.data_start.page_index(), empty.data_start.byte_index()),
        (1, 0)
    );
    assert_eq!(f.frame().unwrap_err(), FrameError::WaitingForData(1));
    f.push_buffer(to_buf(&[]));
    f.push_buffer(to_buf(&[0x8]));
    let frame = f.frame().unwrap();
    assert_eq!(frame_bytes(&frame), vec![0x2, 0x7, 0x8]);
    assert_eq!(
        (frame.data_start.page_index(), frame.data_start.byte_index()),
        (0, 1)
    );
    // a length that fills its buffer: the payload starts in the next
    f.push_buffer(to_buf(&[0x1]));
    assert_eq!(f.frame().unwrap_err(), FrameError::WaitingForData(1));
    f.push_buffer(to_buf(&[]));
    f.push_buffer(to_buf(&[0x9]));
    let frame = f.frame().unwrap();
    assert_eq!(frame_bytes(&frame), vec![0x1, 0x9]);
    assert_eq!(
        (frame.data_start.page_index(), frame.data_start.byte_index()),
        (2, 0)
    );
}
