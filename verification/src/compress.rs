use std::marker::PhantomData;
use vstd::prelude::*;

use crate::cursor::flat;
use crate::cursor::DirectBufMut;
use crate::cursor::Multibytes;
use crate::mempool::BlockAllocator;
use crate::zlib::Deflate;
use crate::zlib::FlushMode;
use crate::zlib::Inflate;
use crate::zlib::Progress;
use crate::zlib::ZLibError;
use crate::zlib::ZlibOperator;

verus! {

/// A zlib stream that reads its input from the buffers of a [`Multibytes`]
/// and writes its output to buffers that an allocator hands out.
pub struct MbZlibOp<'g, Op: ZlibOperator, T: DirectBufMut, Allocator: BlockAllocator<'g, T>> {
    z: Op,
    allocator: &'g Allocator,
    pd: PhantomData<T>,
}

/// The pages are blocks of `block` bytes, but for the last, which may be
/// shorter, and is not empty unless the blocks are.
pub open spec fn blocks(pages: Seq<Seq<u8>>, block: nat) -> bool {
    &&& forall|i: int| 0 <= i < pages.len() - 1 ==> (#[trigger] pages[i]).len() == block
    &&& pages.len() > 0 ==> pages.last().len() <= block && (block > 0 ==> pages.last().len() > 0)
}

/// The failure that one call of a stream amounts to for the driver: the one
/// that the stream reported, or a buffer error where the call reported none
/// and neither took nor wrote a byte.
pub open spec fn step_failure(p: Progress) -> Option<ZLibError> {
    match p.error {
        Some(err) => Some(err),
        None => if p.consumed == 0 && p.produced == 0 {
            Some(ZLibError::BufError)
        } else {
            None
        },
    }
}

/// The failure that one call of a stream amounts to for the driver.
pub fn stalled_or_failed(p: &Progress) -> (e: Option<ZLibError>)
    ensures
        e == step_failure(*p),
{
    match p.error {
        Some(err) => Some(err),
        None => if p.consumed == 0 && p.produced == 0 {
            Some(ZLibError::BufError)
        } else {
            None
        },
    }
}

/// How a run of the driver went, told by the calls that the stream has on
/// record before it (`before`) and after it (`after`), by the number of bytes
/// that the stream wrote during it (`produced`), by the size of the buffers
/// that the output went to (`block`), and by the error that the run ended
/// with, if it did (`failed`).
///
/// The run adds calls to the record and changes none. Each call that it adds
/// asks for a sync flush. The run goes on as long as the calls neither fail
/// nor stall, so none of the calls that it adds but the last does. If the
/// last one does, the run ends at once with that failure. If none does, the
/// run ends well, unless the output needs one more buffer and would with it
/// be longer than can be counted: that is a memory error of the driver's own.
pub open spec fn driven(
    before: Seq<(FlushMode, Progress)>,
    after: Seq<(FlushMode, Progress)>,
    produced: int,
    block: nat,
    failed: Option<ZLibError>,
) -> bool {
    &&& before.len() <= after.len()
    &&& after.take(before.len() as int) == before
    &&& forall|i: int| before.len() <= i < after.len() ==> (#[trigger] after[i]).0 is SyncFlush
    &&& forall|i: int|
        before.len() <= i < after.len() - 1 ==> step_failure((#[trigger] after[i]).1) is None
    &&& if before.len() < after.len() && step_failure(after.last().1) is Some {
        failed == step_failure(after.last().1)
    } else {
        failed is None || (failed == Some(ZLibError::MemError) && produced + block > isize::MAX)
    }
}

/// How a run of the driver ends: with an error only if that is its own
/// memory error or the failure of the last call that it made; well only if no
/// call that it made failed or stalled; and well whenever none did and the
/// output had room for one more buffer.
pub proof fn lemma_run_ends(
    before: Seq<(FlushMode, Progress)>,
    after: Seq<(FlushMode, Progress)>,
    produced: int,
    block: nat,
    failed: Option<ZLibError>,
)
    requires
        driven(before, after, produced, block, failed),
    ensures
        failed matches Some(e) ==> e == ZLibError::MemError || (before.len() < after.len()
            && step_failure(after.last().1) == Some(e)),
        failed is None ==> forall|i: int|
            before.len() <= i < after.len() ==> step_failure((#[trigger] after[i]).1) is None,
        (forall|i: int|
            before.len() <= i < after.len() ==> step_failure((#[trigger] after[i]).1) is None)
            && produced + block <= isize::MAX ==> failed is None,
{
    if failed is None {
        assert forall|i: int| before.len() <= i < after.len() implies step_failure(
            (#[trigger] after[i]).1,
        ) is None by {
            if i == after.len() - 1 {
            }
        }
    }
}

/// The error that a result ends with, if it does.
pub open spec fn failure_of<V>(r: Result<V, ZLibError>) -> Option<ZLibError> {
    match r {
        Ok(_) => None,
        Err(e) => Some(e),
    }
}

/// Drives the bytes of `b` through the stream `z` and gathers what it writes
/// in buffers from `allocator`. The stream sees the input as one unbroken
/// sequence of bytes, buffer after buffer, and its output is kept byte for
/// byte, in buffers that it filled to their end, but for the last, which is
/// cut to what was written to it, and is left out where that is nothing.
///
/// Whatever the stream does: what it has taken when the call returns is a
/// prefix of the bytes of `b`, all of them where the call succeeds, and then
/// the result holds exactly what it has written. Where `b` has a buffer and
/// the allocator's buffers can be counted, the stream is called, each time
/// for a sync flush. The first call of it that fails, or that neither takes
/// nor writes a byte, ends the run with that failure; see [`driven`].
pub fn drive<'g, Op: ZlibOperator, T: DirectBufMut, Allocator: BlockAllocator<'g, T>>(
    z: &mut Op,
    allocator: &'g Allocator,
    b: Multibytes<T>,
) -> (r: Result<Multibytes<T>, ZLibError>)
    ensures
        final(z).taken().len() >= old(z).taken().len(),
        final(z).taken() == old(z).taken() + flat(b.pages()).take(
            final(z).taken().len() - old(z).taken().len(),
        ),
        final(z).given().len() >= old(z).given().len(),
        final(z).given().take(old(z).given().len() as int) == old(z).given(),
        r matches Ok(out) ==> {
            &&& final(z).taken() == old(z).taken() + flat(b.pages())
            &&& final(z).given() == old(z).given() + flat(out.pages())
            &&& blocks(out.pages(), allocator.block_len())
            &&& out.inv()
        },
        b.pages().len() == 0 ==> r is Ok && final(z).taken() == old(z).taken() && final(z).given()
            == old(z).given() && final(z).calls() == old(z).calls(),
        driven(
            old(z).calls(),
            final(z).calls(),
            final(z).given().len() - old(z).given().len(),
            allocator.block_len(),
            failure_of(r),
        ),
        b.pages().len() > 0 && allocator.block_len() > isize::MAX ==> failure_of(r) == Some(
            ZLibError::MemError,
        ) && final(z).calls() == old(z).calls(),
        b.pages().len() > 0 && allocator.block_len() <= isize::MAX ==> final(z).calls().len() > old(z).calls().len(),
{
    let ghost all_in = flat(b.pages());
    let ghost calls0 = z.calls();
    let ghost taken0 = z.taken();
    let ghost given0 = z.given();
    let mut rest = b;
    let first = rest.pop_front();
    if first.is_none() {
        proof {
            assert(calls0.take(calls0.len() as int) =~= calls0);
            assert(all_in =~= Seq::<u8>::empty());
            assert(taken0 + all_in.take(0) =~= taken0);
            assert(given0 + Seq::<u8>::empty() =~= given0);
            assert(given0.take(given0.len() as int) =~= given0);
        }
        return Ok(Multibytes::empty());
    }
    let mut buf_in = first.unwrap();
    let mut buf_out = allocator.allocate();
    if buf_out.remaining() > isize::MAX as usize {
        proof {
            assert(calls0.take(calls0.len() as int) =~= calls0);
            assert(taken0 + all_in.take(0) =~= taken0);
            assert(given0.take(given0.len() as int) =~= given0);
        }
        return Err(ZLibError::MemError);
    }
    let mut in_pos: usize = 0;
    let mut out_pos: usize = 0;
    let mut stored: usize = 0;
    let mut vd: Multibytes<T> = Multibytes::empty();
    // the bytes of the input buffers that are used up
    let ghost done_in: Seq<u8> = Seq::empty();
    proof {
        assert(calls0.take(calls0.len() as int) =~= calls0);
        assert(taken0 + (done_in + buf_in.contents().take(0)) =~= taken0);
        assert(given0 + (flat(vd.pages()) + buf_out.contents().take(0)) =~= given0);
        assert(done_in + buf_in.contents() + flat(rest.pages()) =~= all_in);
    }
    loop
        invariant
            vd.inv(),
            forall|i: int|
                0 <= i < vd.pages().len() ==> (#[trigger] vd.pages()[i]).len()
                    == allocator.block_len(),
            buf_out.contents().len() == allocator.block_len(),
            stored == flat(vd.pages()).len(),
            in_pos <= buf_in.contents().len(),
            out_pos <= buf_out.contents().len(),
            stored + buf_out.contents().len() <= isize::MAX,
            all_in == flat(b.pages()),
            b.pages().len() > 0,
            all_in == done_in + buf_in.contents() + flat(rest.pages()),
            z.taken() == taken0 + (done_in + buf_in.contents().take(in_pos as int)),
            z.given() == given0 + (flat(vd.pages()) + buf_out.contents().take(out_pos as int)),
            taken0 == old(z).taken(),
            given0 == old(z).given(),
            calls0 == old(z).calls(),
            calls0.len() <= z.calls().len(),
            z.calls().take(calls0.len() as int) == calls0,
            allocator.block_len() <= isize::MAX,
            forall|i: int|
                calls0.len() <= i < z.calls().len() ==> (#[trigger] z.calls()[i]).0 is SyncFlush
                    && step_failure(z.calls()[i].1) is None,
        ensures
            in_pos == buf_in.contents().len(),
            rest.pages().len() == 0,
            calls0.len() < z.calls().len(),
        decreases
            (all_in.len() - (done_in.len() + in_pos)) + rest.pages().len() + (isize::MAX - (stored + out_pos)),
    {
        let ghost out_before = buf_out.contents();
        let whole_in = buf_in.bytes();
        let input = vstd::slice::slice_subrange(whole_in, in_pos, whole_in.len());
        let whole_out = buf_out.region_mut();
        let (_, room) = whole_out.split_at_mut(out_pos);
        let ghost calls_before = z.calls();
        let p = z.process(input, room, FlushMode::SyncFlush);
        proof {
            assert(z.calls().take(calls0.len() as int) =~= calls0);
            assert forall|i: int| calls0.len() <= i < z.calls().len() - 1 implies (
            #[trigger] z.calls()[i]).0 is SyncFlush && step_failure(z.calls()[i].1) is None by {
                assert(z.calls()[i] == calls_before[i]);
            }
            assert(z.calls().last() == (FlushMode::SyncFlush, p));
            // the buffer holds what it held up to `out_pos`, then what was written
            assert(buf_out.contents() =~= out_before.take(out_pos as int) + room@);
            assert(buf_out.contents().take(out_pos + p.produced) =~= out_before.take(
                out_pos as int,
            ) + room@.take(p.produced as int));
            assert(buf_in.contents().take(in_pos + p.consumed) =~= buf_in.contents().take(
                in_pos as int,
            ) + input@.take(p.consumed as int));
            assert(z.taken() =~= taken0 + (done_in + buf_in.contents().take(
                in_pos + p.consumed,
            )));
            assert(z.given() =~= given0 + (flat(vd.pages()) + buf_out.contents().take(
                out_pos + p.produced,
            )));
            lemma_driver_prefix(
                taken0,
                all_in,
                done_in,
                buf_in.contents(),
                flat(rest.pages()),
                in_pos + p.consumed,
            );
            assert((given0 + (flat(vd.pages()) + buf_out.contents().take(
                out_pos + p.produced,
            ))).take(given0.len() as int) =~= given0);
        }
        if let Some(err) = stalled_or_failed(&p) {
            return Err(err);
        }
        in_pos = in_pos + p.consumed;
        out_pos = out_pos + p.produced;
        if in_pos == buf_in.remaining() {
            let ghost pages_before = rest.pages();
            let next = rest.pop_front();
            proof {
                assert(buf_in.contents().take(in_pos as int) =~= buf_in.contents());
            }
            match next {
                Some(new_buf_in) => {
                    proof {
                        done_in = done_in + buf_in.contents();
                        assert(done_in + new_buf_in.contents().take(0) =~= done_in);
                        assert(all_in =~= done_in + new_buf_in.contents() + flat(rest.pages()));
                    }
                    buf_in = new_buf_in;
                    in_pos = 0;
                },
                None => {
                    proof {
                        assert(flat(pages_before) =~= Seq::<u8>::empty());
                        assert(all_in =~= done_in + buf_in.contents());
                        assert(all_in.take(all_in.len() as int) =~= all_in);
                    }
                    break ;
                },
            }
        }
        if out_pos == buf_out.remaining() {
            let fresh = allocator.allocate();
            let full = buf_out;
            buf_out = fresh;
            proof {
                assert(full.contents().take(out_pos as int) =~= full.contents());
                assert(given0 + (flat(vd.pages()) + full.contents()) =~= given0 + ((flat(
                    vd.pages(),
                ) + full.contents()) + buf_out.contents().take(0)));
            }
            stored = stored + out_pos;
            out_pos = 0;
            vd.append(full);
            if buf_out.remaining() > isize::MAX as usize - stored {
                return Err(ZLibError::MemError);
            }
        }
    }
    let trail_size = out_pos;
    proof {
        assert(flat(rest.pages()) =~= Seq::<u8>::empty());
        assert(buf_in.contents().take(in_pos as int) =~= buf_in.contents());
        assert(all_in =~= done_in + buf_in.contents());
    }
    if trail_size > 0 {
        buf_out.truncate(trail_size);
        vd.append(buf_out);
    } else {
        proof {
            assert(buf_out.contents().take(0) =~= Seq::<u8>::empty());
            assert(flat(vd.pages()) + Seq::<u8>::empty() =~= flat(vd.pages()));
        }
    }
    Ok(vd)
}

/// What a stream has taken, written as its earlier input followed by a part
/// of `all`, is its earlier input followed by a prefix of `all`.
proof fn lemma_driver_prefix(
    taken0: Seq<u8>,
    all: Seq<u8>,
    done: Seq<u8>,
    cur: Seq<u8>,
    rest: Seq<u8>,
    pos: int,
)
    requires
        all == done + cur + rest,
        0 <= pos <= cur.len(),
    ensures
        taken0 + (done + cur.take(pos)) == taken0 + all.take(
            (taken0 + (done + cur.take(pos))).len() - taken0.len(),
        ),
{
    assert(all.take(done.len() + pos) =~= done + cur.take(pos));
}

impl<'g, T: DirectBufMut, Allocator: BlockAllocator<'g, T>> MbZlibOp<'g, Deflate, T, Allocator> {
    /// A deflating driver of the given level, 0 to 9, or -1 for the default
    /// level. Any other level is a stream error.
    pub fn deflate(level: i32, allocator: &'g Allocator) -> (r: Result<Self, ZLibError>)
        ensures
            -1 <= level <= 9 ==> (r matches Ok(op) && op.taken() == Seq::<u8>::empty()
                && op.given() == Seq::<u8>::empty() && op.block_len() == allocator.block_len()
                && op.calls() == Seq::<(FlushMode, Progress)>::empty()),
            !(-1 <= level <= 9) ==> (r matches Err(e) && e == ZLibError::StreamError),
    {
        match Deflate::new(level) {
            Ok(deflate) => Ok(MbZlibOp { z: deflate, allocator, pd: PhantomData }),
            Err(e) => Err(e),
        }
    }
}

impl<'g, T: DirectBufMut, Allocator: BlockAllocator<'g, T>> MbZlibOp<'g, Inflate, T, Allocator> {
    /// An inflating driver.
    pub fn inflate(allocator: &'g Allocator) -> (r: Result<Self, ZLibError>)
        ensures
            r matches Ok(op) && op.taken() == Seq::<u8>::empty() && op.given() == Seq::<
                u8,
            >::empty() && op.block_len() == allocator.block_len() && op.calls() == Seq::<
                (FlushMode, Progress),
            >::empty(),
    {
        match Inflate::new() {
            Ok(inflate) => Ok(MbZlibOp { z: inflate, allocator, pd: PhantomData }),
            Err(e) => Err(e),
        }
    }
}

impl<'g, Op: ZlibOperator, T: DirectBufMut, Allocator: BlockAllocator<'g, T>> MbZlibOp<
    'g,
    Op,
    T,
    Allocator,
> {
    /// Every byte that the stream has taken.
    pub closed spec fn taken(&self) -> Seq<u8> {
        self.z.taken()
    }

    /// Every byte that the stream has written.
    pub closed spec fn given(&self) -> Seq<u8> {
        self.z.given()
    }

    /// Number of bytes in every buffer that the allocator hands out.
    pub closed spec fn block_len(&self) -> nat {
        self.allocator.block_len()
    }

    /// Every call of the stream since it was made, in order: the flush mode
    /// asked for, and what the call did.
    pub closed spec fn calls(&self) -> Seq<(FlushMode, Progress)> {
        self.z.calls()
    }

    /// Drives the bytes of `b` through the stream; see [`drive`].
    pub fn process(&mut self, b: Multibytes<T>) -> (r: Result<Multibytes<T>, ZLibError>)
        ensures
            final(self).taken().len() >= old(self).taken().len(),
            final(self).taken() == old(self).taken() + flat(b.pages()).take(
                final(self).taken().len() - old(self).taken().len(),
            ),
            final(self).given().len() >= old(self).given().len(),
            final(self).given().take(old(self).given().len() as int) == old(self).given(),
            r matches Ok(out) ==> {
                &&& final(self).taken() == old(self).taken() + flat(b.pages())
                &&& final(self).given() == old(self).given() + flat(out.pages())
                &&& blocks(out.pages(), old(self).block_len())
                &&& out.inv()
            },
            final(self).block_len() == old(self).block_len(),
            driven(
                old(self).calls(),
                final(self).calls(),
                final(self).given().len() - old(self).given().len(),
                old(self).block_len(),
                failure_of(r),
            ),
            b.pages().len() > 0 && old(self).block_len() > isize::MAX ==> failure_of(r) == Some(
                ZLibError::MemError,
            ) && final(self).calls() == old(self).calls(),
            b.pages().len() > 0 && old(self).block_len() <= isize::MAX ==> final(self).calls().len() > old(self).calls().len(),
            b.pages().len() == 0 ==> r is Ok && final(self).taken() == old(self).taken()
                && final(self).given() == old(self).given() && final(self).calls() == old(self).calls(),
    {
        drive(&mut self.z, self.allocator, b)
    }
}

} // verus!
