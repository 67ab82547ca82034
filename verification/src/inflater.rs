use vstd::prelude::*;

use crate::compress::blocks;
use crate::compress::drive;
use crate::compress::driven;
use crate::cursor::cursor_moved;
use crate::cursor::flat;
use crate::cursor::split_head;
use crate::cursor::split_tail;
use crate::cursor::Cursor;
use crate::cursor::DirectBuf;
use crate::cursor::DirectBufMut;
use crate::cursor::Multibytes;
use crate::cursor::SliceCursor;
use crate::framer::Frame;
use crate::framer::lemma_scan_bounds;
use crate::mempool::BlockAllocator;
use crate::parser::varint;
use crate::parser::varint_spec;
use crate::zlib::FlushMode;
use crate::zlib::Inflate;
use crate::zlib::Progress;
use crate::zlib::ZLibError;
use crate::zlib::ZlibOperator;

verus! {

/// Why a frame gave no packet.
#[derive(Debug, PartialEq, Eq, Clone, Copy)]
pub enum InflaterError {
    /// The payload does not start with a readable size.
    CompressionSizeDecodeFail,
    /// The payload claims to be compressed, and to be smaller than what the
    /// peer may compress.
    SmallCompression,
    /// zlib failed.
    ZlibError(ZLibError),
}

impl From<ZLibError> for InflaterError {
    fn from(z: ZLibError) -> (r: InflaterError) {
        InflaterError::ZlibError(z)
    }
}

impl vstd::std_specs::convert::FromSpecImpl<ZLibError> for InflaterError {
    open spec fn obeys_from_spec() -> bool {
        true
    }

    open spec fn from_spec(z: ZLibError) -> InflaterError {
        InflaterError::ZlibError(z)
    }
}

/// Where the data of a packet lies.
pub enum DataBacking<T: DirectBuf> {
    /// In the packet's own bytes, from this cursor on.
    Cursor(Cursor),
    /// In a stream of its own: the inflated bytes.
    Multibytes(Multibytes<T>),
}

/// A frame that has been through the compression layer: the bytes that came
/// over the wire before the data, and the data.
pub struct Packet<T: DirectBuf> {
    pub h: Multibytes<T>,
    pub d: DataBacking<T>,
}

struct InflateState {
    threshold: i32,
    inflater: Inflate,
}

/// The compression layer of one connection: transparent until compression is
/// started, then inflating what the peer compressed.
pub struct PacketInflater {
    inflate: Option<InflateState>,
}

/// What is to be done with a frame.
pub enum Plan {
    /// The data is in the frame as it stands, `skip` bytes after the start of
    /// the payload.
    PassThrough { skip: nat },
    /// The frame is refused.
    Fail(InflaterError),
    /// The payload, from `skip` bytes after its start, goes through zlib.
    Inflate { skip: nat },
}

/// What is to be done with a frame whose payload is `payload`, by a layer
/// that is transparent (`threshold` is `None`) or takes compressed data of
/// `threshold` bytes or more.
pub open spec fn inflate_plan(threshold: Option<i32>, payload: Seq<u8>) -> Plan {
    match threshold {
        None => Plan::PassThrough { skip: 0 },
        Some(t) => match varint_spec(payload) {
            Err(_) => Plan::Fail(InflaterError::CompressionSizeDecodeFail),
            Ok((size, used)) => if size == 0 {
                Plan::PassThrough { skip: used }
            } else if 0 < size < t {
                Plan::Fail(InflaterError::SmallCompression)
            } else {
                Plan::Inflate { skip: used }
            },
        },
    }
}

/// The failure of zlib that a result ends with, if it does.
pub open spec fn zlib_failure_of<T: DirectBuf>(r: Result<Packet<T>, InflaterError>) -> Option<
    ZLibError,
> {
    match r {
        Err(InflaterError::ZlibError(z)) => Some(z),
        _ => None,
    }
}

impl<T: DirectBuf> Packet<T> {
    /// The packet of a frame that zlib was run on: the header with the
    /// inflated data where zlib succeeded, else zlib's failure.
    pub fn inflated(header: Multibytes<T>, outcome: Result<Multibytes<T>, ZLibError>) -> (r: Result<
        Packet<T>,
        InflaterError,
    >)
        ensures
            match outcome {
                Ok(data) => r matches Ok(p) && p.h == header && p.d == DataBacking::Multibytes(data),
                Err(e) => r matches Err(got) && got == InflaterError::ZlibError(e),
            },
    {
        match outcome {
            Ok(data) => Ok(Packet { h: header, d: DataBacking::Multibytes(data) }),
            Err(e) => Err(InflaterError::from(e)),
        }
    }
}

impl PacketInflater {
    /// The least size of compressed data that is accepted; none while the
    /// layer is transparent.
    pub closed spec fn threshold(&self) -> Option<i32> {
        match self.inflate {
            Some(st) => Some(st.threshold),
            None => None,
        }
    }

    /// Every byte that zlib has taken since compression was started.
    pub closed spec fn taken(&self) -> Seq<u8> {
        match self.inflate {
            Some(st) => st.inflater.taken(),
            None => Seq::empty(),
        }
    }

    /// Every byte that zlib has written since compression was started.
    pub closed spec fn given(&self) -> Seq<u8> {
        match self.inflate {
            Some(st) => st.inflater.given(),
            None => Seq::empty(),
        }
    }

    /// Every call of zlib since compression was started, in order: the flush
    /// mode asked for, and what the call did.
    pub closed spec fn calls(&self) -> Seq<(FlushMode, Progress)> {
        match self.inflate {
            Some(st) => st.inflater.calls(),
            None => Seq::empty(),
        }
    }

    /// A transparent layer.
    pub fn new() -> (r: PacketInflater)
        ensures
            r.threshold() is None,
    {
        PacketInflater { inflate: None }
    }

    /// Turns a frame into a packet. While the layer is transparent the frame
    /// passes as it is. After that the payload starts with the size of the
    /// data: zero says that the data follows as it is; a size above zero and
    /// under the threshold is refused; any other size says that zlib data
    /// follows, which is inflated into buffers from `alloc`: the packet then
    /// has the bytes before the data as its header. Whether zlib succeeds is
    /// for zlib to say; whatever it says, it has taken bytes from the front
    /// of the data only, and what it had written before stays written. The
    /// first call of zlib that fails, or that neither takes nor writes a
    /// byte, ends the inflating with that failure.
    pub fn inflate<'a, T: DirectBufMut, Alloc: BlockAllocator<'a, T>>(
        &mut self,
        frame: Frame<T>,
        alloc: &'a Alloc,
    ) -> (r: Result<Packet<T>, InflaterError>)
        requires
            frame.wf(),
        ensures
            final(self).threshold() == old(self).threshold(),
            match inflate_plan(
                old(self).threshold(),
                frame.data_start.rest(frame.packet.pages()),
            ) {
                Plan::PassThrough { skip } => {
                    &&& r matches Ok(p)
                    &&& p.h.pages() == frame.packet.pages()
                    &&& p.d matches DataBacking::Cursor(c)
                    &&& cursor_moved(frame.packet.pages(), c, frame.data_start, skip)
                    &&& skip > 0 || frame.data_start.is_trued(frame.packet.pages()) ==> c.is_trued(
                        frame.packet.pages(),
                    )
                    &&& final(self).taken() == old(self).taken()
                    &&& final(self).given() == old(self).given()
                    &&& final(self).calls() == old(self).calls()
                },
                Plan::Fail(e) => {
                    &&& r matches Err(got)
                    &&& got == e
                    &&& final(self).taken() == old(self).taken()
                    &&& final(self).given() == old(self).given()
                    &&& final(self).calls() == old(self).calls()
                },
                Plan::Inflate { skip } => {
                    let cut = frame.data_start.offset(frame.packet.pages()) + skip;
                    let more = final(self).taken().len() - old(self).taken().len();
                    &&& more >= 0
                    &&& final(self).taken() == old(self).taken() + frame.bytes().skip(cut).take(more)
                    &&& final(self).given().len() >= old(self).given().len()
                    &&& final(self).given().take(old(self).given().len() as int) == old(self).given()
                    &&& driven(
                        old(self).calls(),
                        final(self).calls(),
                        final(self).given().len() - old(self).given().len(),
                        alloc.block_len(),
                        zlib_failure_of(r),
                    )
                    &&& exists|at: Cursor|
                        {
                            let data = split_tail(
                                frame.packet.pages(),
                                at.page() as int,
                                at.byte() as int,
                            );
                            &&& at.is_trued(frame.packet.pages())
                            &&& #[trigger] at.offset(frame.packet.pages()) == cut
                            &&& r matches Ok(p) ==> p.h.pages() == split_head(
                                frame.packet.pages(),
                                at.page() as int,
                                at.byte() as int,
                            )
                            &&& data.len() == 0 ==> r is Ok && final(self).calls() == old(self).calls()
                            &&& data.len() > 0 && alloc.block_len() > isize::MAX ==> zlib_failure_of(
                                r,
                            ) == Some(ZLibError::MemError) && final(self).calls() == old(self).calls()
                            &&& data.len() > 0 && alloc.block_len() <= isize::MAX ==> final(self).calls().len() > old(self).calls().len()
                        }
                    &&& match r {
                        Ok(p) => {
                            &&& flat(p.h.pages()) == frame.bytes().take(cut)
                            &&& p.d matches DataBacking::Multibytes(m)
                            &&& final(self).taken() == old(self).taken() + frame.bytes().skip(cut)
                            &&& final(self).given() == old(self).given() + flat(m.pages())
                            &&& blocks(m.pages(), alloc.block_len())
                        },
                        Err(e) => e is ZlibError,
                    }
                },
            },
    {
        let ghost pages = frame.packet.pages();
        match &mut self.inflate {
            Some(compress) => {
                let threshold = compress.threshold;
                let indexed = frame.packet.cursor_indexed(frame.data_start);
                proof {
                    lemma_scan_bounds(indexed.rest(), 0, 5);
                }
                match varint(indexed) {
                    Ok((compressed_data, decompressed_size)) => {
                        if decompressed_size == 0 {
                            let (data, mut cursor) = compressed_data.dissolve();
                            let _ = cursor.true_up(&data);
                            proof {
                                cursor.lemma_trued_in_range(pages);
                            }
                            Ok(Packet { h: data, d: DataBacking::Cursor(cursor) })
                        } else if 0 < decompressed_size && decompressed_size < threshold {
                            Err(InflaterError::SmallCompression)
                        } else {
                            let (mut data, mut cursor) = compressed_data.dissolve();
                            let _ = cursor.true_up(&data);
                            proof {
                                cursor.lemma_trued_in_range(pages);
                            }
                            let header = data.split_to(&cursor);
                            let inflated = drive(&mut compress.inflater, alloc, data);
                            Packet::inflated(header, inflated)
                        }
                    },
                    Err(_) => Err(InflaterError::CompressionSizeDecodeFail),
                }
            },
            None => Ok(Packet { h: frame.packet, d: DataBacking::Cursor(frame.data_start) }),
        }
    }

    /// Starts compression: from now on compressed data of `threshold` bytes
    /// or more is accepted and inflated.
    pub fn start_compression(&mut self, threshold: i32) -> (r: Result<(), ZLibError>)
        ensures
            r is Ok,
            final(self).threshold() == Some(threshold),
            final(self).taken() == Seq::<u8>::empty(),
            final(self).given() == Seq::<u8>::empty(),
            final(self).calls() == Seq::<(FlushMode, Progress)>::empty(),
    {
        match Inflate::new() {
            Ok(inflater) => {
                self.inflate = Some(InflateState { threshold, inflater });
                Ok(())
            },
            Err(e) => Err(e),
        }
    }
}

} // verus!
