use bytes::BytesMut;
use packet_pipeline::crypto::Cryptor;
use packet_pipeline::cursor::DirectBuf;
use packet_pipeline::cursor::Multibytes;
use packet_pipeline::cursor::SliceCursor;
use packet_pipeline::framer::FrameError;
use packet_pipeline::inflater::DataBacking;
use packet_pipeline::inflater::InflaterError;
use packet_pipeline::mempool::SystemMemPool;
use packet_pipeline::packet::FragmentPool;
use packet_pipeline::packet::Packetizer;
use packet_pipeline::packet::PacketizerError;
use packet_pipeline::socket::ReadResult;
use std::cell::Cell;
use std::iter::FromIterator;

#[derive(Debug)]
struct DestructTracker {
    destructed: Cell<bool>,
}

#[derive(Debug)]
struct Destructable<'a> {
    tracker: &'a DestructTracker,
}

impl<'a> Drop for Destructable<'a> {
    fn drop(&mut self) {
        self.tracker.destructed.set(true);
    }
}

#[test]
fn putpop() {
    let tracker = DestructTracker {
        destructed: Cell::new(false),
    };
    let item = Destructable { tracker: &tracker };
    let mut pool = FragmentPool::<Destructable>::new();

    pool.lossy_push(item);
    assert_eq!(tracker.destructed.get(), false);
    let item2 = pool.maybe_pop().unwrap();
    assert_eq!(tracker.destructed.get(), false);
    std::mem::drop(item2);
    assert_eq!(tracker.destructed.get(), true);
}

#[test]
fn putdrop() {
    let tracker = DestructTracker {
        destructed: Cell::new(false),
    };
    let item = Destructable { tracker: &tracker };
    let mut pool = FragmentPool::<Destructable>::new();

    pool.lossy_push(item);
    assert_eq!(tracker.destructed.get(), false);
    std::mem::drop(pool);
    assert_eq!(tracker.destructed.get(), true);
}

#[test]
fn put_a_lot() {
    let mut trackers = Vec::<DestructTracker>::new();
    for _ in 0..64 {
        trackers.push(DestructTracker {
            destructed: Cell::new(false),
        });
    }

    let extra_tracker = DestructTracker {
        destructed: Cell::new(false),
    };
    let mut pool = FragmentPool::<Destructable>::new();

    for i in 0..64 {
        let item = Destructable {
            tracker: trackers.get(i).unwrap(),
        };
        pool.lossy_push(item);
    }

    for i in 0..64 {
        assert_eq!(trackers.get(i).unwrap().destructed.get(), false);
    }

    let extra_item = Destructable {
        tracker: &extra_tracker,
    };

    pool.lossy_push(extra_item);
    assert_eq!(extra_tracker.destructed.get(), true);
    for i in 0..64 {
        std::mem::drop(pool.maybe_pop().unwrap());
        assert_eq!(trackers.get(63 - i).unwrap().destructed.get(), true);
    }
}

#[test]
fn empty_pop() {
    let mut pool = FragmentPool::<Destructable>::new();
    assert!(
        pool.maybe_pop().is_none(),
        "popped something when there was nothing to pop"
    );
}

#[test]
fn pool_counts_its_elements() {
    let mut pool = FragmentPool::<u8>::new();
    assert_eq!(pool.len(), 0);
    for i in 0..70u8 {
        pool.lossy_push(i);
    }
    assert_eq!(pool.len(), 64);
    assert_eq!(pool.maybe_pop(), Some(63));
    assert_eq!(pool.len(), 63);
}

#[test]
fn read_of_nothing_is_the_end_of_the_stream() {
    let buf = BytesMut::from_iter([1u8, 2, 3, 4].iter());
    assert!(matches!(ReadResult::from_read(buf, 0), ReadResult::EOF));
}

#[test]
fn read_of_some_bytes_is_cut_to_them() {
    let buf = BytesMut::from_iter([1u8, 2, 3, 4].iter());
    match ReadResult::from_read(buf, 3) {
        ReadResult::Data(b) => assert_eq!(b.bytes(), [1, 2, 3]),
        ReadResult::EOF => panic!("a read of three bytes ended the stream"),
    }
}

fn wire() -> Vec<u8> {
    vec![
        // a frame of four bytes, sent before compression is started
        0x4, 0x1, 0x0, 0x1, 0x2,
        // a frame whose data is too small to be compressed
        0x3, 0x0, 0x1, 0x2,
        // a frame whose data is compressed
        13, 0x4, 120, 156, 99, 100, 98, 102, 1, 0, 0, 24, 0, 11,
    ]
}

fn flat_of(mb: &Multibytes<BytesMut>) -> Vec<u8> {
    let mut out = Vec::new();
    for i in 0..mb.len() {
        out.extend_from_slice(mb.page(i).bytes());
    }
    out
}

fn check_three_packets(packetizer: &mut Packetizer<BytesMut>) {
    let alloc = SystemMemPool::new(12).unwrap();
    let packet = packetizer.next(&alloc).unwrap();
    if let DataBacking::Cursor(c) = packet.d {
        assert_eq!(c.remaining(&packet.h), 4);
    } else {
        panic!("unexpected db type");
    }

    packetizer.start_compression(3).unwrap();

    let packet2 = packetizer.next(&alloc).unwrap();
    if let DataBacking::Cursor(c) = packet2.d {
        assert_eq!(c.remaining(&packet2.h), 2);
        assert_eq!(flat_of(&packet2.h), vec![0x3, 0x0, 0x1, 0x2]);
    } else {
        panic!("unexpected db type");
    }

    let packet3 = packetizer.next(&alloc).unwrap();
    if let DataBacking::Multibytes(mb) = packet3.d {
        let mut view = mb.view();
        assert_eq!(view.get_u8(), 0x1);
        assert_eq!(view.get_u8(), 0x2);
        assert_eq!(view.get_u8(), 0x3);
        assert_eq!(view.get_u8(), 0x4);
        assert_eq!(view.remaining(), 0);
        assert_eq!(flat_of(&packet3.h), vec![13, 0x4]);
    } else {
        panic!("unexpected db type");
    }
    assert_eq!(
        packetizer.next(&alloc).err(),
        Some(PacketizerError::Framer(FrameError::WaitingForHeader))
    );
}

#[test]
fn packetizer_normal() {
    let mut packetizer: Packetizer<BytesMut> = Packetizer::new(64, 16);
    let buf = BytesMut::from_iter(wire().iter());
    assert!(packetizer.has_room_for(&buf));
    packetizer.push_buffer(buf);
    check_three_packets(&mut packetizer);
}

#[test]
fn packetizer_deciphers_what_it_is_fed() {
    let key: [u8; 16] = [3, 1, 4, 1, 5, 9, 2, 6, 5, 3, 5, 8, 9, 7, 9, 3];
    let mut sealed = wire();
    let mut peer = Cryptor::new_encrypt();
    peer.start_crypto(key);
    peer.process(&mut sealed);
    assert_ne!(sealed, wire());

    let mut packetizer: Packetizer<BytesMut> = Packetizer::new(64, 16);
    packetizer.start_crypto(key);
    for part in sealed.chunks(5) {
        packetizer.push_buffer(BytesMut::from_iter(part.iter()));
    }
    check_three_packets(&mut packetizer);
}

#[test]
fn packetizer_lifts_the_errors_of_its_parts() {
    let alloc = SystemMemPool::new(12).unwrap();
    let mut packetizer: Packetizer<BytesMut> = Packetizer::new(2, 1);
    packetizer.start_compression(64).unwrap();
    packetizer.push_buffer(BytesMut::from_iter([0x2u8, 0x5, 0x5, 0x1].iter()));
    assert_eq!(
        packetizer.next(&alloc).err(),
        Some(PacketizerError::Inflater(InflaterError::SmallCompression))
    );
    assert_eq!(
        packetizer.next(&alloc).err(),
        Some(PacketizerError::Framer(FrameError::WaitingForData(1)))
    );
    packetizer.push_buffer(BytesMut::from_iter([0xffu8, 0x3].iter()));
    assert_eq!(
        packetizer.next(&alloc).err(),
        Some(PacketizerError::Inflater(InflaterError::CompressionSizeDecodeFail))
    );
    assert_eq!(
        packetizer.next(&alloc).err(),
        Some(PacketizerError::Framer(FrameError::DecodeError))
    );
}
