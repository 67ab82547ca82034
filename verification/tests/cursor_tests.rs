use bytes::BufMut;
use bytes::Bytes;
use bytes::BytesMut;
use packet_pipeline::cursor::Cursor;
use packet_pipeline::cursor::DirectBuf;
use packet_pipeline::cursor::Multibytes;
use packet_pipeline::cursor::SliceCursor;
use std::collections::VecDeque;
use std::io::IoSlice;
use std::iter::FromIterator;

fn make_test_mb() -> Multibytes<Bytes> {
    let slices: Vec<Vec<u8>> = vec![
        vec![1, 2, 3, 4],
        vec![5, 6],
        vec![],
        vec![7, 8, 9],
        vec![10],
    ];
    Multibytes::new(VecDeque::from_iter(
        slices.iter().map(|s| BytesMut::from_iter(s.iter()).freeze()),
    ))
}

fn flat_bytes(mb: &Multibytes<Bytes>) -> Vec<u8> {
    let mut out = Vec::new();
    for i in 0..mb.len() {
        out.extend_from_slice(mb.page(i).bytes());
    }
    out
}

#[test]
fn slice_cursor_has_atleast() {
    let mut b = BytesMut::new();
    b.reserve(4);
    b.put_u32(4);
    assert!(b.has_atleast(3));
    assert!(!b.has_atleast(5));
}

#[test]
fn cursor_advance() {
    let mb = make_test_mb();
    let mut cursor = mb.cursor();

    assert!(cursor.advance(&mb, 3));
    assert!(cursor.advance(&mb, 7));
    assert!(!cursor.advance(&mb, 1));
}

#[test]
fn cursor_remaining() {
    let mb = make_test_mb();
    let mut cursor = mb.cursor();

    assert_eq!(cursor.remaining(&mb), 10);
    cursor.advance(&mb, 3);
    assert_eq!(cursor.remaining(&mb), 7);
    cursor.advance(&mb, 7);
    assert_eq!(cursor.remaining(&mb), 0);
    cursor.advance(&mb, 1);
    assert_eq!(cursor.remaining(&mb), 0);
}

#[test]
fn cursor_has_atleast() {
    let mb = make_test_mb();
    let mut cursor = mb.cursor();

    assert!(cursor.has_atleast(&mb, 0));
    assert!(cursor.has_atleast(&mb, 3));
    assert!(cursor.has_atleast(&mb, 9));
    assert!(cursor.has_atleast(&mb, 10));
    assert!(!cursor.has_atleast(&mb, 11));
    cursor.advance(&mb, 3);
    assert!(cursor.has_atleast(&mb, 7));
    cursor.advance(&mb, 7);
    assert!(!cursor.has_atleast(&mb, 1));
    assert!(cursor.has_atleast(&mb, 0));
    cursor.advance(&mb, 1);
    assert!(!cursor.has_atleast(&mb, 1));
    assert!(!cursor.has_atleast(&mb, 0));
}

#[test]
fn cursor_run_off_end() {
    let mut mb = make_test_mb();
    let mut cursor = mb.cursor();

    for _ in 0..10 {
        cursor.advance(&mb, 1);
        assert_eq!(cursor.run_off_end(&mb), 0);
    }

    cursor.advance(&mb, 1);
    assert_eq!(cursor.run_off_end(&mb), 1);
    mb.append(BytesMut::from_iter(vec![11, 12].iter()).freeze());
    assert_eq!(cursor.run_off_end(&mb), 0);
    cursor.advance(&mb, 101);
    assert_eq!(cursor.run_off_end(&mb), 100);
}

#[test]
fn multibytes_split_to() {
    let mut mb = make_test_mb();
    let mut cursor = mb.cursor();

    let mb_empty = mb.split_to(&cursor);
    assert!(mb_empty.len() == 0);

    cursor.advance(&mb, 1);
    let mb_1 = mb.split_to(&cursor);
    assert_eq!(mb.len(), 5);
    assert_eq!(mb_1.len(), 1);
    assert_eq!(mb.page(0).bytes(), [2, 3, 4]);
    assert_eq!(mb_1.page(0).bytes(), [1]);
    drop(mb_1);

    cursor = mb.cursor();
    cursor.advance(&mb, 3);

    let mb_2 = mb.split_to(&cursor);
    assert_eq!(mb.len(), 4);
    assert_eq!(mb_2.len(), 1);
    assert_eq!(mb.page(0).bytes(), [5, 6]);
    assert_eq!(mb_2.page(0).bytes(), [2, 3, 4]);
    drop(mb_2);

    cursor = mb.cursor();
    cursor.advance(&mb, 3);

    let mb_3 = mb.split_to(&cursor);
    assert_eq!(mb.len(), 2);
    assert_eq!(mb_3.len(), 3);
    assert_eq!(mb.page(0).bytes(), [8, 9]);
    assert_eq!(mb_3.page(0).bytes(), [5, 6]);
    assert_eq!(mb_3.page(1).bytes(), []);
    assert_eq!(mb_3.page(2).bytes(), [7]);
    drop(mb_3);

    cursor = mb.cursor();
    cursor.advance(&mb, 3);

    let mb_4 = mb.split_to(&cursor);
    assert_eq!(mb.len(), 0);
    assert_eq!(mb_4.len(), 2);
    assert_eq!(mb_4.page(0).bytes(), [8, 9]);
    assert_eq!(mb_4.page(1).bytes(), [10]);
    drop(mb_4);
}

#[test]
fn cursor_round_trip_on_every_distance() {
    let mb = make_test_mb();
    for n in 0..=10usize {
        let mut c: Cursor = mb.cursor();
        assert!(c.advance(&mb, n));
        assert_eq!(c.remaining(&mb), 10 - n);
    }
}

#[test]
fn split_conserves_the_bytes() {
    for n in 0..=10usize {
        let mut mb = make_test_mb();
        let mut c = mb.cursor();
        assert!(c.advance(&mb, n));
        let head = mb.split_to(&c);
        let mut joined = flat_bytes(&head);
        assert_eq!(joined.len(), n);
        joined.extend_from_slice(&flat_bytes(&mb));
        assert_eq!(joined, vec![1, 2, 3, 4, 5, 6, 7, 8, 9, 10]);
    }
}

#[test]
fn cursor_stays_valid_across_append() {
    let mut mb = make_test_mb();
    let mut c = mb.view().cursor();
    assert!(c.advance(&mb, 4));
    mb.append(BytesMut::from_iter(vec![11, 12].iter()).freeze());
    assert_eq!(c.remaining(&mb), 8);
    let mut v = mb.cursor_view(c);
    assert_eq!(v.get_u8(), 5);
    assert_eq!(v.get_u8(), 6);
    assert_eq!(v.get_u8(), 7);
    assert_eq!(v.bytes(), [8, 9]);
}

#[test]
fn indexed_reads_across_pages_and_dissolves() {
    let mb = make_test_mb();
    let mut ix = mb.indexed();
    assert!(ix.has_atleast(10));
    assert!(!ix.has_atleast(11));
    for expected in 1..=10u8 {
        assert_eq!(ix.get_u8(), expected);
    }
    assert_eq!(ix.remaining(), 0);
    let at = ix.cursor();
    let (mb, c) = ix.dissolve();
    assert_eq!(c, at);
    assert_eq!(c.remaining(&mb), 0);
    assert!(c.has_atleast(&mb, 0));
    assert_eq!(c.run_off_end(&mb), 0);
}

#[test]
fn cursor_bytes_vectored() {
    let mb = make_test_mb();
    let mut cursor = mb.cursor();

    let mut io = vec![
        IoSlice::new(&[]),
        IoSlice::new(&[]),
        IoSlice::new(&[]),
        IoSlice::new(&[]),
    ];

    // by definition we must return 0
    assert_eq!(cursor.bytes_vectored(&mb, &mut []), 0);

    assert_eq!(cursor.bytes_vectored(&mb, &mut io), 4);
    assert_eq!(io[0].to_vec(), vec![1, 2, 3, 4]);
    assert_eq!(io[1].to_vec(), vec![5, 6]);
    assert_eq!(io[2].to_vec(), vec![7, 8, 9]);
    assert_eq!(io[3].to_vec(), vec![10]);

    cursor.advance(&mb, 3);
    assert_eq!(cursor.bytes_vectored(&mb, &mut io), 4);
    assert_eq!(io[0].to_vec(), vec![4]);
    assert_eq!(io[1].to_vec(), vec![5, 6]);
    assert_eq!(io[2].to_vec(), vec![7, 8, 9]);
    assert_eq!(io[3].to_vec(), vec![10]);

    cursor.advance(&mb, 2);
    assert_eq!(cursor.bytes_vectored(&mb, &mut io), 3);
    assert_eq!(io[0].to_vec(), vec![6]);
    assert_eq!(io[1].to_vec(), vec![7, 8, 9]);
    assert_eq!(io[2].to_vec(), vec![10]);

    cursor.advance(&mb, 5);
    assert_eq!(cursor.bytes_vectored(&mb, &mut io), 0);
    // We shouldn't touch the slice if we report 0
    assert_eq!(io[0].to_vec(), vec![6]);
    assert_eq!(io[1].to_vec(), vec![7, 8, 9]);
    assert_eq!(io[2].to_vec(), vec![10]);

    cursor.advance(&mb, 1);
    assert_eq!(cursor.bytes_vectored(&mb, &mut io), 0);
    assert_eq!(cursor.bytes_vectored(&mb, &mut []), 0);
}

#[test]
fn bytes_vectored_fills_no_more_than_there_is_room_for() {
    let mb = make_test_mb();
    let cursor = mb.cursor();
    let mut one = vec![IoSlice::new(&[])];
    assert_eq!(cursor.bytes_vectored(&mb, &mut one), 1);
    assert_eq!(one[0].to_vec(), vec![1, 2, 3, 4]);
    let view = mb.view();
    let mut two = vec![IoSlice::new(&[]), IoSlice::new(&[])];
    assert_eq!(view.bytes_vectored(&mut two), 2);
    assert_eq!(two[1].to_vec(), vec![5, 6]);
}

#[test]
fn true_up_reports_a_cursor_beyond_the_end() {
    let mb = make_test_mb();
    let mut c = mb.cursor();
    assert!(!c.advance(&mb, 13));
    assert_eq!(c.run_off_end(&mb), 3);
    assert!(!c.true_up(&mb));
    assert_eq!(c.run_off_end(&mb), 3);
}

/// A buffer that is a plain vector with a read position.
struct Plain {
    data: Vec<u8>,
    at: usize,
}

impl DirectBuf for Plain {
    fn remaining(&self) -> usize {
        self.data.len() - self.at
    }

    fn bytes(&self) -> &[u8] {
        &self.data[self.at..]
    }

    fn advance(&mut self, cnt: usize) {
        self.at += cnt;
    }

    fn split_to(&mut self, at: usize) -> Self {
        let head = self.data[self.at..self.at + at].to_vec();
        self.at += at;
        Plain { data: head, at: 0 }
    }

    fn truncate(&mut self, len: usize) {
        self.data.truncate(self.at + len);
    }
}

#[test]
fn stream_of_any_kind_of_buffer() {
    let mut mb: Multibytes<Plain> = Multibytes::empty();
    mb.append(Plain { data: vec![9, 1, 2], at: 1 });
    mb.append(Plain { data: vec![], at: 0 });
    mb.append(Plain { data: vec![3], at: 0 });
    assert_eq!(mb.total_len(), 3);
    let mut c = mb.cursor();
    assert!(c.advance(&mb, 1));
    assert_eq!((c.page_index(), c.byte_index()), (0, 1));
    let head = mb.split_to(&c);
    assert_eq!(head.page(0).bytes(), [1]);
    assert_eq!(mb.page(0).bytes(), [2]);
    let mut c = mb.cursor();
    assert!(c.advance(&mb, 1));
    assert_eq!((c.page_index(), c.byte_index()), (2, 0));
    assert!(mb.fits(&Plain { data: vec![0; 10], at: 0 }));
}

#[test]
fn checked_new_takes_what_can_be_counted() {
    let mb = Multibytes::checked_new(VecDeque::from_iter(
        vec![BytesMut::from_iter([1u8, 2].iter()).freeze()].into_iter(),
    ))
    .unwrap();
    assert_eq!(mb.total_len(), 2);
}

#[test]
fn runs_of_the_test_stream_can_be_given() {
    let mb = make_test_mb();
    let mut c = mb.cursor();
    assert!(c.can_vector(&mb));
    assert!(mb.view().can_vector());
    c.advance(&mb, 10);
    assert!(c.can_vector(&mb));
    // a cursor that was made for a longer page stands beyond this one
    let mut long: Multibytes<Bytes> = Multibytes::empty();
    long.append(BytesMut::from_iter([0u8; 9].iter()).freeze());
    let mut far = long.cursor();
    far.advance(&long, 7);
    assert!(!far.can_vector(&mb));
}

#[test]
fn cursor_of_a_view_is_trued_up_after_a_read() {
    let mb = make_test_mb();
    let mut v = mb.view();
    for _ in 0..4 {
        v.get_u8();
    }
    // the fourth byte was the last of its page
    assert_eq!((v.cursor().page_index(), v.cursor().byte_index()), (1, 0));
    v.get_u8();
    v.get_u8();
    // the next page is empty and is passed over
    assert_eq!((v.cursor().page_index(), v.cursor().byte_index()), (3, 0));
    for _ in 0..4 {
        v.get_u8();
    }
    assert_eq!((v.cursor().page_index(), v.cursor().byte_index()), (5, 0));
}
