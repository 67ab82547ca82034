use vstd::prelude::*;

use crate::compress::blocks;
use crate::compress::driven;
use crate::crypto::Cryptor;
use crate::cursor::cursor_moved;
use crate::cursor::flat;
use crate::cursor::DirectBuf;
use crate::cursor::DirectBufMut;
use crate::framer::frame_spec;
use crate::framer::FrameError;
use crate::framer::FrameStep;
use crate::framer::Framer;
use crate::inflater::inflate_plan;
use crate::inflater::DataBacking;
use crate::inflater::InflaterError;
use crate::inflater::Packet;
use crate::inflater::PacketInflater;
use crate::inflater::Plan;
use crate::mbedtls::cfb8_decrypt;
use crate::mbedtls::next_iv;
use crate::mempool::BlockAllocator;
use crate::zlib::FlushMode;
use crate::zlib::Progress;
use crate::zlib::ZLibError;

verus! {

/// Why a packetizer gave no packet: what its framer or its inflater said.
#[derive(Debug, PartialEq, Eq, Clone, Copy)]
pub enum PacketizerError {
    /// No frame: more bytes are awaited, or the bytes cannot be a frame.
    Framer(FrameError),
    /// A frame, but no packet.
    Inflater(InflaterError),
}

/// The failure of zlib that a result ends with, if it does.
pub open spec fn zlib_failure<T: DirectBuf>(r: Result<Packet<T>, PacketizerError>) -> Option<
    ZLibError,
> {
    match r {
        Err(PacketizerError::Inflater(InflaterError::ZlibError(z))) => Some(z),
        _ => None,
    }
}

/// The pipeline of one connection: what is pushed is deciphered in place,
/// cut into frames, and each frame is turned into a packet, in the order of
/// the wire.
pub struct Packetizer<T: DirectBufMut> {
    crypto: Cryptor,
    framer: Framer<T>,
    inflater: PacketInflater,
}

impl<T: DirectBufMut> Packetizer<T> {
    /// The key that the pipeline deciphers with, if one is installed.
    pub closed spec fn key(&self) -> Option<Seq<u8>> {
        self.crypto.key()
    }

    /// The feedback that the next byte is deciphered with.
    pub closed spec fn iv(&self) -> Seq<u8> {
        self.crypto.iv()
    }

    /// The deciphered bytes that are not yet given out in a packet.
    pub closed spec fn pending(&self) -> Seq<u8> {
        self.framer.pending()
    }

    /// The largest payload accepted.
    pub closed spec fn limit(&self) -> usize {
        self.framer.limit()
    }

    /// The least size of compressed data that is accepted; none while
    /// compression is not started.
    pub closed spec fn threshold(&self) -> Option<i32> {
        self.inflater.threshold()
    }

    /// Every byte that zlib has taken since compression was started.
    pub closed spec fn taken(&self) -> Seq<u8> {
        self.inflater.taken()
    }

    /// Every byte that zlib has written since compression was started.
    pub closed spec fn given(&self) -> Seq<u8> {
        self.inflater.given()
    }

    /// Every call of zlib since compression was started, in order: the flush
    /// mode asked for, and what the call did.
    pub closed spec fn calls(&self) -> Seq<(FlushMode, Progress)> {
        self.inflater.calls()
    }

    /// The parts of the pipeline agree with one another.
    pub closed spec fn inv(&self) -> bool {
        self.framer.inv() && self.crypto.mode() is Decrypt
    }

    /// A pipeline without key and without compression, which accepts payloads
    /// of up to `max_frame_size` bytes.
    pub fn new(max_frame_size: usize, buffer_size: usize) -> (r: Self)
        ensures
            r.inv(),
            r.key() is None,
            r.threshold() is None,
            r.pending() == Seq::<u8>::empty(),
            r.limit() == max_frame_size,
    {
        Packetizer {
            crypto: Cryptor::new_decrypt(),
            framer: Framer::new(max_frame_size, buffer_size),
            inflater: PacketInflater::new(),
        }
    }

    /// Installs the key: what is pushed from now on is deciphered.
    pub fn start_crypto(&mut self, key: [u8; 16])
        requires
            old(self).inv(),
        ensures
            final(self).inv(),
            final(self).key() == Some(key@),
            final(self).iv() == key@,
            final(self).pending() == old(self).pending(),
            final(self).limit() == old(self).limit(),
            final(self).threshold() == old(self).threshold(),
            final(self).taken() == old(self).taken(),
            final(self).given() == old(self).given(),
            final(self).calls() == old(self).calls(),
    {
        self.crypto.start_crypto(key);
    }

    /// Starts compression: from now on a payload starts with the size of its
    /// data, and compressed data of `threshold` bytes or more is inflated.
    pub fn start_compression(&mut self, threshold: i32) -> (r: Result<(), ZLibError>)
        requires
            old(self).inv(),
        ensures
            r is Ok,
            final(self).inv(),
            final(self).threshold() == Some(threshold),
            final(self).taken() == Seq::<u8>::empty(),
            final(self).given() == Seq::<u8>::empty(),
            final(self).calls() == Seq::<(FlushMode, Progress)>::empty(),
            final(self).key() == old(self).key(),
            final(self).iv() == old(self).iv(),
            final(self).pending() == old(self).pending(),
            final(self).limit() == old(self).limit(),
    {
        self.inflater.start_compression(threshold)
    }

    /// Whether `b` can be pushed: whether the bytes held stay few enough to
    /// be counted.
    pub fn has_room_for(&self, b: &T) -> (r: bool)
        requires
            self.inv(),
        ensures
            r == (self.pending().len() + b.contents().len() <= isize::MAX),
    {
        self.framer.has_room_for(b)
    }

    /// Takes in a buffer from the wire: deciphers it in place, if a key is
    /// installed, and holds its bytes for framing.
    pub fn push_buffer(&mut self, buf: T)
        requires
            old(self).inv(),
            old(self).pending().len() + buf.contents().len() <= isize::MAX,
        ensures
            final(self).inv(),
            final(self).limit() == old(self).limit(),
            final(self).threshold() == old(self).threshold(),
            final(self).taken() == old(self).taken(),
            final(self).given() == old(self).given(),
            final(self).calls() == old(self).calls(),
            final(self).key() == old(self).key(),
            match old(self).key() {
                None => final(self).pending() == old(self).pending() + buf.contents(),
                Some(key) => {
                    &&& final(self).pending() == old(self).pending() + cfb8_decrypt(
                        key,
                        old(self).iv(),
                        buf.contents(),
                    )
                    &&& final(self).iv() == next_iv(old(self).iv(), buf.contents())
                },
            },
    {
        let mut buf = buf;
        self.crypto.process(buf.region_mut());
        self.framer.push_buffer(buf);
    }

    /// Gives the next packet of the wire, if the bytes held make one: cuts a
    /// frame off the bytes held, and passes it through the compression
    /// layer. Where there is no whole frame, nothing changes.
    pub fn next<'a, Alloc: BlockAllocator<'a, T>>(&mut self, alloc: &'a Alloc) -> (r: Result<
        Packet<T>,
        PacketizerError,
    >)
        requires
            old(self).inv(),
        ensures
            final(self).inv(),
            final(self).limit() == old(self).limit(),
            final(self).threshold() == old(self).threshold(),
            final(self).key() == old(self).key(),
            final(self).iv() == old(self).iv(),
            match frame_spec(old(self).pending(), old(self).limit()) {
                FrameStep::Frame { header, len } => {
                    let whole = old(self).pending().take((header + len) as int);
                    &&& final(self).pending() == old(self).pending().skip((header + len) as int)
                    &&& match inflate_plan(old(self).threshold(), whole.skip(header as int)) {
                        Plan::PassThrough { skip } => {
                            &&& r matches Ok(p)
                            &&& flat(p.h.pages()) == whole
                            &&& p.d matches DataBacking::Cursor(c)
                            &&& c.rest(p.h.pages()) == whole.skip((header + skip) as int)
                            &&& c.is_trued(p.h.pages())
                            &&& final(self).taken() == old(self).taken()
                            &&& final(self).given() == old(self).given()
                    &&& final(self).calls() == old(self).calls()
                        },
                        Plan::Fail(e) => {
                            &&& r matches Err(got)
                            &&& got == PacketizerError::Inflater(e)
                            &&& final(self).taken() == old(self).taken()
                            &&& final(self).given() == old(self).given()
                    &&& final(self).calls() == old(self).calls()
                        },
                        Plan::Inflate { skip } => {
                            &&& driven(
                                old(self).calls(),
                                final(self).calls(),
                                final(self).given().len() - old(self).given().len(),
                                alloc.block_len(),
                                zlib_failure(r),
                            )
                            &&& match r {
                                Ok(p) => {
                                    &&& flat(p.h.pages()) == whole.take((header + skip) as int)
                                    &&& p.d matches DataBacking::Multibytes(m)
                                    &&& final(self).taken() == old(self).taken() + whole.skip(
                                        (header + skip) as int,
                                    )
                                    &&& final(self).given() == old(self).given() + flat(m.pages())
                                    &&& blocks(m.pages(), alloc.block_len())
                                },
                                Err(e) => e matches PacketizerError::Inflater(z) && z is ZlibError,
                            }
                        },
                    }
                },
                FrameStep::WaitingForHeader => {
                    &&& r matches Err(got)
                    &&& got == PacketizerError::Framer(FrameError::WaitingForHeader)
                    &&& final(self).pending() == old(self).pending()
                    &&& final(self).taken() == old(self).taken()
                    &&& final(self).given() == old(self).given()
                    &&& final(self).calls() == old(self).calls()
                },
                FrameStep::WaitingForData(k) => {
                    &&& r matches Err(got)
                    &&& got == PacketizerError::Framer(FrameError::WaitingForData(k as usize))
                    &&& final(self).pending() == old(self).pending()
                    &&& final(self).taken() == old(self).taken()
                    &&& final(self).given() == old(self).given()
                    &&& final(self).calls() == old(self).calls()
                },
                FrameStep::DecodeError => {
                    &&& r matches Err(got)
                    &&& got == PacketizerError::Framer(FrameError::DecodeError)
                    &&& final(self).pending() == old(self).pending()
                    &&& final(self).taken() == old(self).taken()
                    &&& final(self).given() == old(self).given()
                    &&& final(self).calls() == old(self).calls()
                },
            },
    {
        match self.framer.frame() {
            Ok(frame) => {
                let ghost pages = frame.packet.pages();
                let ghost start = frame.data_start;
                proof {
                    crate::framer::lemma_frame_in_bounds(old(self).pending(), old(self).limit());
                    crate::cursor::lemma_cursor_moved_rest(pages, start, start, 0);
                }
                match self.inflater.inflate(frame, alloc) {
                    Ok(p) => {
                        proof {
                            if let DataBacking::Cursor(c) = p.d {
                                let skip = inflate_plan(
                                    old(self).threshold(),
                                    start.rest(pages),
                                )->PassThrough_skip;
                                crate::cursor::lemma_cursor_moved_rest(pages, c, start, skip);
                                assert(flat(pages).skip(start.offset(pages)).skip(skip as int)
                                    =~= flat(pages).skip(start.offset(pages) + skip));
                            }
                        }
                        Ok(p)
                    },
                    Err(e) => Err(PacketizerError::Inflater(e)),
                }
            },
            Err(e) => Err(PacketizerError::Framer(e)),
        }
    }
}

/// The number of elements that a [`FragmentPool`] has room for.
pub const POOL_CAPACITY: usize = 64;

/// A small stack of spare elements with room for a fixed number of them. An
/// element pushed onto a full pool is dropped.
pub struct FragmentPool<T> {
    pool: Vec<T>,
}

impl<T> View for FragmentPool<T> {
    type V = Seq<T>;

    /// The elements in the pool, the one pushed last at the end.
    closed spec fn view(&self) -> Seq<T> {
        self.pool@
    }
}

impl<T> FragmentPool<T> {
    /// Number of elements in the pool.
    pub fn len(&self) -> (n: usize)
        ensures
            n == self@.len(),
    {
        self.pool.len()
    }

    /// An empty pool.
    pub fn new() -> (r: FragmentPool<T>)
        ensures
            r@ == Seq::<T>::empty(),
    {
        FragmentPool { pool: Vec::new() }
    }

    /// Puts `element` on top, or drops it where the pool is full.
    pub fn lossy_push(&mut self, element: T)
        ensures
            old(self)@.len() < POOL_CAPACITY ==> final(self)@ == old(self)@.push(element),
            old(self)@.len() >= POOL_CAPACITY ==> final(self)@ == old(self)@,
    {
        if self.pool.len() < POOL_CAPACITY {
            self.pool.push(element);
        }
    }

    /// Takes the element on top, if there is one.
    pub fn maybe_pop(&mut self) -> (r: Option<T>)
        ensures
            old(self)@.len() == 0 ==> r is None && final(self)@ == old(self)@,
            old(self)@.len() > 0 ==> r == Some(old(self)@.last()) && final(self)@ == old(self)@.drop_last(),
    {
        self.pool.pop()
    }
}

} // verus!
