use bytes::BytesMut;
use packet_pipeline::compress::MbZlibOp;
use packet_pipeline::cursor::DirectBuf;
use packet_pipeline::cursor::DirectBufMut;
use packet_pipeline::cursor::Multibytes;
use packet_pipeline::cursor::SliceCursor;
use packet_pipeline::framer::Frame;
use packet_pipeline::inflater::DataBacking;
use packet_pipeline::inflater::InflaterError;
use packet_pipeline::inflater::Packet;
use packet_pipeline::inflater::PacketInflater;
use packet_pipeline::mempool::BlockAllocator;
use packet_pipeline::mempool::SystemMemPool;
use packet_pipeline::zlib::Deflate;
use packet_pipeline::zlib::FlushMode;
use packet_pipeline::zlib::Inflate;
use packet_pipeline::zlib::ZLibError;
use packet_pipeline::zlib::ZlibOperator;
use std::collections::VecDeque;
use std::iter::FromIterator;

fn frame_of(s: Vec<u8>) -> Frame<BytesMut> {
    let b = BytesMut::from_iter(s.iter());
    let mut vd = VecDeque::new();
    vd.push_back(b);
    let mb = Multibytes::new(vd);
    let c = mb.cursor();
    Frame {
        packet: mb,
        data_start: c,
    }
}

fn flat_of(mb: &Multibytes<BytesMut>) -> Vec<u8> {
    let mut out = Vec::new();
    for i in 0..mb.len() {
        out.extend_from_slice(mb.page(i).bytes());
    }
    out
}

/// Buffers of 252 bytes: what a pool of 256-byte slabs hands out.
struct SlabSized;

impl<'a> BlockAllocator<'a, BytesMut> for SlabSized {
    fn allocate(&'a self) -> BytesMut {
        let mut b = BytesMut::new();
        b.resize(252, 0);
        b
    }
}

/// Buffers of a chosen small size, to force many output buffers.
struct Tiny(usize);

impl<'a> BlockAllocator<'a, BytesMut> for Tiny {
    fn allocate(&'a self) -> BytesMut {
        let mut b = BytesMut::new();
        b.resize(self.0, 0);
        b
    }
}

#[test]
fn packetinflater_no_inflater() {
    let alloc = SystemMemPool::new(12).unwrap();
    let mut inflater = PacketInflater::new();
    let frame = frame_of(vec![0x1, 0x0]);
    let result = inflater.inflate(frame, &alloc).unwrap();
    if let DataBacking::Cursor(c) = result.d {
        assert_eq!(c.remaining(&result.h), 2);
    } else {
        panic!("non-cursor");
    }
}

#[test]
fn packetinflater_too_small_0() {
    let alloc = SystemMemPool::new(12).unwrap();
    let mut inflater = PacketInflater::new();
    inflater.start_compression(64).unwrap();

    let frame = frame_of(vec![0x0, 0x3, 0x3]);
    let result = inflater.inflate(frame, &alloc).unwrap();
    if let DataBacking::Cursor(c) = result.d {
        assert_eq!(c.remaining(&result.h), 2);
    } else {
        panic!("non-cursor");
    }
}

#[test]
fn packetinflater_small_compression() {
    let alloc = SystemMemPool::new(12).unwrap();
    let mut inflater = PacketInflater::new();
    inflater.start_compression(64).unwrap();

    let frame = frame_of(vec![0x1, 0x3, 0x3]);
    let result = inflater.inflate(frame, &alloc);
    if let Err(e) = result {
        assert_eq!(e, InflaterError::SmallCompression);
    } else {
        panic!("valid response");
    }
}

#[test]
fn packetinflater_bad_varint() {
    let alloc = SystemMemPool::new(12).unwrap();
    let mut inflater = PacketInflater::new();
    inflater.start_compression(64).unwrap();

    let frame = frame_of(vec![0xff, 0xff, 0xff, 0xff, 0xff, 0x3, 0x3]);
    let result = inflater.inflate(frame, &alloc);
    if let Err(e) = result {
        assert_eq!(e, InflaterError::CompressionSizeDecodeFail);
    } else {
        panic!("valid response");
    }
}

#[test]
fn packetinflater_normal_compression() {
    let alloc = SystemMemPool::new(12).unwrap();
    let mut inflater = PacketInflater::new();
    inflater.start_compression(3).unwrap();

    let frame = frame_of(vec![0x4, 120, 156, 99, 100, 98, 102, 1, 0, 0, 24, 0, 11]);
    let result = inflater.inflate(frame, &alloc).unwrap();
    if let DataBacking::Multibytes(mb) = result.d {
        let mut view = mb.view();
        assert_eq!(view.get_u8(), 0x1);
        assert_eq!(view.get_u8(), 0x2);
        assert_eq!(view.get_u8(), 0x3);
        assert_eq!(view.get_u8(), 0x4);
        assert_eq!(view.remaining(), 0);
    } else {
        panic!("non-mb");
    }
}

#[test]
fn bidirectional_smoke_test() {
    let alloc = SlabSized;

    let mut deflate = MbZlibOp::deflate(5, &alloc).expect("could not init deflate");
    let mut inflate = MbZlibOp::inflate(&alloc).expect("could not init inflate");

    let mut buffer = alloc.allocate();
    for i in 0..buffer.remaining() {
        buffer[i] = (i % 16) as u8;
    }

    let mut vd = VecDeque::new();
    vd.push_back(buffer);
    let mb = Multibytes::new(vd);

    let compressed = deflate.process(mb).expect("could not deflate");
    assert_eq!(28, compressed.cursor().remaining(&compressed));
    let reinflated = inflate.process(compressed).expect("could not inflate");
    let mut v = reinflated.view();
    for i in 0..252 {
        assert_eq!(i % 16 as u8, v.get_u8());
    }
}

#[test]
fn inflated_header_holds_the_bytes_before_the_data() {
    let alloc = SystemMemPool::new(12).unwrap();
    let mut inflater = PacketInflater::new();
    inflater.start_compression(3).unwrap();
    let frame = frame_of(vec![0x4, 120, 156, 99, 100, 98, 102, 1, 0, 0, 24, 0, 11]);
    let packet: Packet<BytesMut> = inflater.inflate(frame, &alloc).unwrap();
    assert_eq!(flat_of(&packet.h), vec![0x4]);
}

#[test]
fn bad_zlib_data_is_a_zlib_error() {
    let alloc = SystemMemPool::new(12).unwrap();
    let mut inflater = PacketInflater::new();
    inflater.start_compression(3).unwrap();
    let frame = frame_of(vec![0x4, 1, 2, 3, 4, 5, 6]);
    match inflater.inflate(frame, &alloc) {
        Err(InflaterError::ZlibError(ZLibError::DataError)) => {}
        Err(e) => panic!("unexpected error {:?}", e),
        Ok(_) => panic!("valid response"),
    }
}

#[test]
fn size_at_the_threshold_is_inflated() {
    let alloc = SystemMemPool::new(12).unwrap();
    let mut inflater = PacketInflater::new();
    inflater.start_compression(4).unwrap();
    let frame = frame_of(vec![0x4, 120, 156, 99, 100, 98, 102, 1, 0, 0, 24, 0, 11]);
    let packet = inflater.inflate(frame, &alloc).unwrap();
    match packet.d {
        DataBacking::Multibytes(mb) => assert_eq!(flat_of(&mb), vec![1, 2, 3, 4]),
        DataBacking::Cursor(_) => panic!("non-mb"),
    }
}

#[test]
fn empty_input_gives_empty_output() {
    let alloc = SlabSized;
    let mut inflate = MbZlibOp::inflate(&alloc).unwrap();
    let out = inflate.process(Multibytes::new(VecDeque::new())).unwrap();
    assert_eq!(out.len(), 0);
}

#[test]
fn round_trip_across_many_input_buffers() {
    let payload: Vec<u8> = (0..5000u32).map(|i| (i * 7 % 251) as u8).collect();
    for level in [0, 1, 5, 9, -1] {
        let alloc = Tiny(8192);
        let mut deflate = MbZlibOp::deflate(level, &alloc).unwrap();
        let mut inflate = MbZlibOp::inflate(&alloc).unwrap();
        let mut vd = VecDeque::new();
        for part in payload.chunks(113) {
            vd.push_back(BytesMut::from_iter(part.iter()));
        }
        let compressed = deflate.process(Multibytes::new(vd)).unwrap();
        assert_eq!(compressed.len(), 1);
        let back = inflate.process(compressed).unwrap();
        assert_eq!(flat_of(&back), payload);
    }
}

#[test]
fn output_buffers_are_full_but_the_last() {
    // 252 bytes deflate to 28; inflated into buffers of 100 bytes, the input
    // is used up when the first buffer is full, and the driver stops there
    let big = SlabSized;
    let mut deflate = MbZlibOp::deflate(5, &big).unwrap();
    let mut plain = big.allocate();
    for i in 0..plain.remaining() {
        plain[i] = (i % 16) as u8;
    }
    let mut vd = VecDeque::new();
    vd.push_back(plain);
    let compressed = deflate.process(Multibytes::new(vd)).unwrap();

    let small = Tiny(100);
    let mut inflate = MbZlibOp::inflate(&small).unwrap();
    let out = inflate.process(compressed).unwrap();
    let bytes = flat_of(&out);
    for i in 0..out.len() {
        assert!(out.page(i).remaining() > 0);
        assert!(out.page(i).remaining() == 100 || i + 1 == out.len());
    }
    assert!(bytes.len() >= 100 && bytes.len() <= 252);
    for (i, b) in bytes.iter().enumerate() {
        assert_eq!(*b, (i % 16) as u8);
    }
}

#[test]
fn deflate_refuses_a_level_out_of_range() {
    assert_eq!(Deflate::new(10).err(), Some(ZLibError::StreamError));
    assert_eq!(Deflate::new(-2).err(), Some(ZLibError::StreamError));
    assert!(Deflate::new(0).is_ok());
    let alloc = SlabSized;
    assert!(MbZlibOp::<Deflate, BytesMut, SlabSized>::deflate(11, &alloc).is_err());
}

#[test]
fn operator_counts_what_it_took_and_wrote() {
    let mut z = Deflate::new(5).unwrap();
    let input = [7u8; 100];
    let mut output = [0u8; 64];
    let p = z.process(&input, &mut output, FlushMode::SyncFlush);
    assert_eq!(p.error, None);
    assert_eq!(p.consumed, 100);
    assert!(p.produced > 0 && p.produced <= 64);
    let mut back = Inflate::new().unwrap();
    let mut plain = [0u8; 128];
    let q = back.process(&output[..p.produced], &mut plain, FlushMode::SyncFlush);
    assert_eq!(q.error, None);
    assert_eq!(q.consumed, p.produced);
    assert_eq!(q.produced, 100);
    assert_eq!(&plain[..100], &input[..]);
    let stuck = back.process(&[], &mut plain, FlushMode::SyncFlush);
    assert_eq!(stuck.error, Some(ZLibError::BufError));
    let unknown = back.process(&[], &mut plain, FlushMode::Trees);
    assert_eq!(unknown.error, Some(ZLibError::StreamError));
    back.reset();
    let again = back.process(&output[..p.produced], &mut plain, FlushMode::SyncFlush);
    assert_eq!(again.produced, 100);
}

#[test]
fn zlib_error_codes_round_trip() {
    for code in -6..=-1 {
        assert_eq!(ZLibError::lookup(code).unwrap().code(), code);
    }
    assert_eq!(ZLibError::lookup(0), None);
    assert_eq!(ZLibError::lookup(1), None);
    assert_eq!(ZLibError::lookup(-7), None);
    assert_eq!(ZLibError::lookup(-3), Some(ZLibError::DataError));
}

#[test]
fn system_pool_hands_out_zeroed_blocks() {
    let alloc = SystemMemPool::new(12).unwrap();
    assert_eq!(alloc.block_len(), 4096);
    let mut b = alloc.allocate();
    assert_eq!(b.remaining(), 4096);
    assert!(b.bytes().iter().all(|x| *x == 0));
    b.region_mut()[3] = 9;
    assert_eq!(b.bytes()[3], 9);
    assert!(SystemMemPool::new(31).is_none());
    assert_eq!(SystemMemPool::new(0).unwrap().block_len(), 1);
}

#[test]
fn trailing_bytes_after_the_stream_end_are_refused() {
    // a complete zlib stream (of the bytes 1 2 3 4), followed by a buffer of
    // bytes that belong to nothing
    let alloc = SlabSized;
    let mut inflate = MbZlibOp::inflate(&alloc).unwrap();
    let mut vd = VecDeque::new();
    vd.push_back(BytesMut::from_iter(
        [120u8, 156, 99, 100, 98, 102, 1, 0, 0, 24, 0, 11].iter(),
    ));
    vd.push_back(BytesMut::from_iter([1u8, 2, 3].iter()));
    assert_eq!(
        inflate.process(Multibytes::new(vd)).err(),
        Some(ZLibError::BufError)
    );
}

#[test]
fn deflate_flushes_as_it_is_asked_to() {
    let input = [7u8; 100];

    // without a flush the stream keeps what it has but for its two bytes of
    // header
    let mut lazy = Deflate::new(5).unwrap();
    let mut out = [0u8; 64];
    let p = lazy.process(&input, &mut out, FlushMode::NoFlush);
    assert_eq!((p.consumed, p.produced, p.error), (100, 2, None));

    // a sync flush ends on the marker of an empty stored block
    let mut sync = Deflate::new(5).unwrap();
    let mut out = [0u8; 64];
    let p = sync.process(&input, &mut out, FlushMode::SyncFlush);
    assert_eq!((p.consumed, p.error), (100, None));
    assert!(p.produced > 6);
    assert_eq!(&out[p.produced - 4..p.produced], &[0, 0, 0xff, 0xff]);

    // a finish ends the stream, which does not end on that marker
    let mut finish = Deflate::new(5).unwrap();
    let mut out = [0u8; 64];
    let q = finish.process(&input, &mut out, FlushMode::Finish);
    assert_eq!((q.consumed, q.error), (100, None));
    assert!(q.produced > 6);
    assert_ne!(&out[q.produced - 4..q.produced], &[0, 0, 0xff, 0xff]);
    let mut back = Inflate::new().unwrap();
    let mut plain = [0u8; 128];
    let r = back.process(&out[..q.produced], &mut plain, FlushMode::Finish);
    assert_eq!((r.consumed, r.produced, r.error), (q.produced, 100, None));

    // a partial flush puts everything out, and ends otherwise than a sync
    // flush does
    let mut partial = Deflate::new(5).unwrap();
    let mut out = [0u8; 64];
    let p = partial.process(&input, &mut out, FlushMode::PartialFlush);
    assert_eq!((p.consumed, p.error), (100, None));
    assert!(p.produced > 2);
    assert_ne!(&out[p.produced - 4..p.produced], &[0, 0, 0xff, 0xff]);
}

#[test]
fn inflate_takes_every_flush_mode_that_zlib_has_for_it() {
    let input = [7u8; 100];
    let mut z = Deflate::new(5).unwrap();
    let mut packed = [0u8; 64];
    let p = z.process(&input, &mut packed, FlushMode::SyncFlush);
    for mode in [
        FlushMode::NoFlush,
        FlushMode::PartialFlush,
        FlushMode::SyncFlush,
        FlushMode::FullFlush,
    ] {
        let mut back = Inflate::new().unwrap();
        let mut plain = [0u8; 128];
        let q = back.process(&packed[..p.produced], &mut plain, mode);
        assert_eq!((q.consumed, q.produced, q.error), (p.produced, 100, None));
    }
    for mode in [FlushMode::Block, FlushMode::Trees] {
        let mut back = Inflate::new().unwrap();
        let mut plain = [0u8; 128];
        let q = back.process(&packed[..p.produced], &mut plain, mode);
        assert_eq!(
            (q.consumed, q.produced, q.error),
            (0, 0, Some(ZLibError::StreamError))
        );
        assert!(plain.iter().all(|x| *x == 0));
    }
}

/// A stream that fails at its second call, with an error of its own choice.
struct FailsSecond {
    calls: usize,
    error: ZLibError,
}

impl ZlibOperator for FailsSecond {
    fn reset(&mut self) {
        self.calls = 0;
    }

    fn process(
        &mut self,
        input: &[u8],
        output: &mut [u8],
        flush: FlushMode,
    ) -> packet_pipeline::zlib::Progress {
        assert_eq!(flush, FlushMode::SyncFlush);
        self.calls += 1;
        if self.calls >= 2 {
            return packet_pipeline::zlib::Progress {
                consumed: 0,
                produced: 0,
                error: Some(self.error),
            };
        }
        let n = input.len().min(output.len());
        output[..n].copy_from_slice(&input[..n]);
        packet_pipeline::zlib::Progress {
            consumed: n,
            produced: n,
            error: None,
        }
    }
}

#[test]
fn driver_hands_back_the_error_of_the_step_that_failed() {
    for error in [
        ZLibError::Errno,
        ZLibError::StreamError,
        ZLibError::DataError,
        ZLibError::MemError,
        ZLibError::BufError,
        ZLibError::VersionError,
    ] {
        let alloc = Tiny(4);
        let mut z = FailsSecond { calls: 0, error };
        let mut vd = VecDeque::new();
        vd.push_back(BytesMut::from_iter([1u8, 2, 3].iter()));
        vd.push_back(BytesMut::from_iter([4u8, 5, 6].iter()));
        vd.push_back(BytesMut::from_iter([7u8, 8, 9].iter()));
        let r = packet_pipeline::compress::drive(&mut z, &alloc, Multibytes::new(vd));
        assert_eq!(r.err(), Some(error));
        // the failing call was the last
        assert_eq!(z.calls, 2);
    }
}

#[test]
fn driver_takes_a_call_without_progress_for_a_buffer_error() {
    struct Idle;
    impl ZlibOperator for Idle {
        fn reset(&mut self) {}

        fn process(
            &mut self,
            _input: &[u8],
            _output: &mut [u8],
            _flush: FlushMode,
        ) -> packet_pipeline::zlib::Progress {
            packet_pipeline::zlib::Progress {
                consumed: 0,
                produced: 0,
                error: None,
            }
        }
    }
    let alloc = Tiny(4);
    let mut vd = VecDeque::new();
    vd.push_back(BytesMut::from_iter([1u8, 2, 3].iter()));
    let r = packet_pipeline::compress::drive(&mut Idle, &alloc, Multibytes::new(vd));
    assert_eq!(r.err(), Some(ZLibError::BufError));
}
