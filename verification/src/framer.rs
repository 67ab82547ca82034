use vstd::prelude::*;

use crate::cursor::flat;
use crate::cursor::lemma_prefix_push;
use crate::cursor::lemma_prefix_take;
use crate::cursor::lemma_split_conserves;
use crate::cursor::split_head;
use crate::cursor::split_tail;
use crate::cursor::Cursor;
use crate::cursor::DirectBuf;
use crate::cursor::Multibytes;
use crate::cursor::SliceCursor;
use crate::parser::groups32;
use crate::parser::scan;
use crate::parser::varint;
use crate::parser::varint_spec;
use crate::parser::ParseErr;
use crate::parser::Scan;

verus! {

/// One length-prefixed unit of the wire: the bytes of the length and of the
/// payload, and where the payload starts. A framer hands the frame out with a
/// cursor that is trued up.
#[derive(Debug)]
pub struct Frame<T: DirectBuf> {
    pub packet: Multibytes<T>,
    pub data_start: Cursor,
}

/// Why [`Framer::frame`] gave no frame.
#[derive(Copy, Clone, Debug, PartialEq, Eq)]
pub enum FrameError {
    /// The length is not complete yet; how much is missing is not known.
    WaitingForHeader,
    /// The length is known; so many bytes of the frame are still missing.
    WaitingForData(usize),
    /// The bytes cannot be a frame, whatever follows. Fatal.
    DecodeError,
}

#[derive(Copy, Clone)]
struct TailingDataState {
    data_start: Cursor,
    data_end: Cursor,
}

#[derive(Copy, Clone)]
enum FramerState {
    WaitingForHeader,
    WaitingForTailingData(TailingDataState),
}

/// Cuts a stream of bytes, which arrives in buffers of any size, into frames.
pub struct Framer<T: DirectBuf> {
    pub max_frame_size: usize,
    ring: Multibytes<T>,
    state: FramerState,
}

/// What the bytes `s` that a framer holds amount to.
pub enum FrameStep {
    /// A whole frame: `header` bytes of length, then `len` bytes of payload.
    Frame { header: nat, len: nat },
    /// Not even a whole length.
    WaitingForHeader,
    /// A length, and a payload that is so many bytes short.
    WaitingForData(nat),
    /// No frame can start like this.
    DecodeError,
}

/// Reads the length at the start of `s` and says what `s` amounts to for a
/// framer that accepts payloads of up to `max` bytes.
pub open spec fn frame_spec(s: Seq<u8>, max: usize) -> FrameStep {
    match varint_spec(s) {
        Ok((len, used)) => {
            if len < 0 || len > max {
                FrameStep::DecodeError
            } else if used + len <= s.len() {
                FrameStep::Frame { header: used, len: len as nat }
            } else {
                FrameStep::WaitingForData((used + len - s.len()) as nat)
            }
        },
        Err(ParseErr::Incomplete) => FrameStep::WaitingForHeader,
        Err(ParseErr::Error(_)) => FrameStep::DecodeError,
    }
}

/// An integer that ends in `s` ends after at least one byte, within `s` and
/// within the limit.
pub proof fn lemma_scan_bounds(s: Seq<u8>, k: nat, limit: nat)
    ensures
        scan(s, k, limit) matches Scan::Done { used } ==> k < used && used <= s.len() && (k < limit
            ==> used <= limit),
    decreases limit - k,
{
    if k < s.len() && s[k as int] & 0x80 != 0 && k + 1 < limit {
        lemma_scan_bounds(s, k + 1, limit);
    }
}

/// Bytes that follow do not change where an integer ends, nor that it is too
/// long.
pub proof fn lemma_scan_stable(s: Seq<u8>, t: Seq<u8>, k: nat, limit: nat)
    ensures
        scan(s, k, limit) is Done ==> scan(s + t, k, limit) == scan(s, k, limit),
        scan(s, k, limit) is TooLong ==> scan(s + t, k, limit) is TooLong,
    decreases limit - k,
{
    if k < s.len() {
        assert((s + t)[k as int] == s[k as int]);
        if s[k as int] & 0x80 != 0 && k + 1 < limit {
            lemma_scan_stable(s, t, k + 1, limit);
        }
    }
}

/// The groups of the first `k` bytes depend on those bytes only.
pub proof fn lemma_groups_stable(s: Seq<u8>, t: Seq<u8>, k: nat)
    requires
        k <= s.len(),
    ensures
        groups32(s + t, k) == groups32(s, k),
    decreases k,
{
    if k > 0 {
        lemma_groups_stable(s, t, (k - 1) as nat);
        assert((s + t)[k - 1] == s[k - 1]);
    }
}

/// A length that has been read is not changed by the bytes that follow it.
pub proof fn lemma_varint_stable(s: Seq<u8>, t: Seq<u8>)
    ensures
        varint_spec(s) is Ok ==> varint_spec(s + t) == varint_spec(s),
        varint_spec(s) matches Err(ParseErr::Error(_)) ==> varint_spec(s + t) == varint_spec(s),
{
    lemma_scan_stable(s, t, 0, 5);
    lemma_scan_bounds(s, 0, 5);
    if let Scan::Done { used } = scan(s, 0, 5) {
        lemma_groups_stable(s, t, used);
    }
}

/// A frame that is complete in `s`, and an error in `s`, stay what they are
/// whatever bytes arrive after them; a frame that is short of bytes becomes
/// complete when as many bytes as it is short of have arrived.
pub proof fn lemma_frame_stable(s: Seq<u8>, t: Seq<u8>, max: usize)
    ensures
        frame_spec(s, max) is Frame ==> frame_spec(s + t, max) == frame_spec(s, max),
        frame_spec(s, max) is DecodeError ==> frame_spec(s + t, max) is DecodeError,
        frame_spec(s, max) matches FrameStep::WaitingForData(k) ==> frame_spec(s + t, max) == (if t.len()
            >= k {
            FrameStep::Frame {
                header: varint_spec(s)->Ok_0.1,
                len: varint_spec(s)->Ok_0.0 as nat,
            }
        } else {
            FrameStep::WaitingForData((k - t.len()) as nat)
        }),
{
    lemma_varint_stable(s, t);
}

/// The frames that can be cut off the front of `s`, one after the other, each
/// with all its bytes.
pub open spec fn drain(s: Seq<u8>, max: usize) -> Seq<Seq<u8>>
    decreases s.len(),
{
    match frame_spec(s, max) {
        FrameStep::Frame { header, len } => if 0 < header + len <= s.len() {
            seq![s.take((header + len) as int)] + drain(s.skip((header + len) as int), max)
        } else {
            Seq::empty()
        },
        _ => Seq::empty(),
    }
}

/// What is left of `s` when every frame that can be cut off its front is
/// gone.
pub open spec fn leftover(s: Seq<u8>, max: usize) -> Seq<u8>
    decreases s.len(),
{
    match frame_spec(s, max) {
        FrameStep::Frame { header, len } => if 0 < header + len <= s.len() {
            leftover(s.skip((header + len) as int), max)
        } else {
            s
        },
        _ => s,
    }
}

/// What a framer gives that is fed the buffers `chunks` one at a time and
/// asked for frames after each until it has none: the frames, and the bytes
/// it still holds.
pub open spec fn feed(chunks: Seq<Seq<u8>>, max: usize) -> (Seq<Seq<u8>>, Seq<u8>)
    decreases chunks.len(),
{
    if chunks.len() == 0 {
        (Seq::empty(), Seq::empty())
    } else {
        let (frames, held) = feed(chunks.drop_last(), max);
        (frames + drain(held + chunks.last(), max), leftover(held + chunks.last(), max))
    }
}

/// A frame that `frame_spec` finds has at least one byte and lies in `s`.
pub proof fn lemma_frame_in_bounds(s: Seq<u8>, max: usize)
    ensures
        frame_spec(s, max) matches FrameStep::Frame { header, len } ==> 0 < header + len
            <= s.len(),
{
    lemma_scan_bounds(s, 0, 5);
}

/// Bytes that arrive later change nothing of the frames already complete:
/// the frames in `s` followed by `t` are the frames in `s`, then the frames
/// in what `s` leaves followed by `t`.
pub proof fn lemma_drain_append(s: Seq<u8>, t: Seq<u8>, max: usize)
    ensures
        drain(s + t, max) == drain(s, max) + drain(leftover(s, max) + t, max),
        leftover(s + t, max) == leftover(leftover(s, max) + t, max),
    decreases s.len(),
{
    lemma_frame_in_bounds(s, max);
    lemma_frame_stable(s, t, max);
    match frame_spec(s, max) {
        FrameStep::Frame { header, len } => {
            let cut = (header + len) as int;
            assert((s + t).take(cut) =~= s.take(cut));
            assert((s + t).skip(cut) =~= s.skip(cut) + t);
            lemma_drain_append(s.skip(cut), t, max);
            assert(seq![s.take(cut)] + (drain(s.skip(cut), max) + drain(
                leftover(s.skip(cut), max) + t,
                max,
            )) =~= (seq![s.take(cut)] + drain(s.skip(cut), max)) + drain(
                leftover(s.skip(cut), max) + t,
                max,
            ));
        },
        _ => {
            assert(Seq::<Seq<u8>>::empty() + drain(s + t, max) =~= drain(s + t, max));
        },
    }
}

/// However a stream of bytes is cut into buffers, a framer that is fed the
/// buffers gives the frames of the stream, and holds what the stream leaves.
pub proof fn lemma_feed_any_partition(chunks: Seq<Seq<u8>>, max: usize)
    ensures
        feed(chunks, max).0 == drain(flat(chunks), max),
        feed(chunks, max).1 == leftover(flat(chunks), max),
    decreases chunks.len(),
{
    if chunks.len() > 0 {
        let n = chunks.len() as int;
        let before = chunks.drop_last();
        lemma_feed_any_partition(before, max);
        lemma_prefix_take(chunks, n - 1, n - 1);
        assert(flat(chunks) == flat(before) + chunks.last());
        lemma_drain_append(flat(before), chunks.last(), max);
    }
}

impl<T: DirectBuf> Frame<T> {
    /// All bytes of the frame, length and payload.
    pub open spec fn bytes(&self) -> Seq<u8> {
        flat(self.packet.pages())
    }

    /// The payload starts at a position of the frame, and the frame is short
    /// enough to be measured.
    pub open spec fn wf(&self) -> bool {
        self.packet.inv() && self.data_start.in_range(self.packet.pages())
    }
}

impl<T: DirectBuf> Framer<T> {
    /// The largest payload accepted, in bytes: the field `max_frame_size`.
    pub closed spec fn limit(&self) -> usize {
        self.max_frame_size
    }

    /// The buffers pushed and not yet given out in a frame, each as the bytes
    /// it holds; the first may be what a frame left of a buffer.
    pub closed spec fn held(&self) -> Seq<Seq<u8>> {
        self.ring.pages()
    }

    /// The bytes pushed and not yet given out in a frame.
    pub open spec fn pending(&self) -> Seq<u8> {
        flat(self.held())
    }

    /// The framer's memory of a length already read agrees with the bytes it
    /// holds.
    pub closed spec fn inv(&self) -> bool {
        &&& self.ring.inv()
        &&& match self.state {
            FramerState::WaitingForHeader => true,
            FramerState::WaitingForTailingData(st) => {
                &&& varint_spec(self.pending()) matches Ok((len, used))
                &&& 0 <= len <= self.max_frame_size
                &&& st.data_start.in_range(self.ring.pages())
                &&& st.data_start.offset(self.ring.pages()) == used
                &&& st.data_start.page() <= st.data_end.page()
                &&& st.data_end.page() <= self.ring.pages().len()
                &&& st.data_end.offset(self.ring.pages()) == used + len
            },
        }
    }

    /// A framer that holds no bytes and accepts payloads of up to
    /// `max_frame_size` bytes. `buffer_size` is the number of buffers to make
    /// room for.
    pub fn new(max_frame_size: usize, buffer_size: usize) -> (f: Self)
        ensures
            f.inv(),
            f.held() == Seq::<Seq<u8>>::empty(),
            f.pending() == Seq::<u8>::empty(),
            f.limit() == max_frame_size,
    {
        Framer {
            max_frame_size,
            ring: Multibytes::new(std::collections::VecDeque::with_capacity(buffer_size)),
            state: FramerState::WaitingForHeader,
        }
    }

    /// Whether `b` can be pushed: whether the bytes held stay few enough to
    /// be counted.
    pub fn has_room_for(&self, b: &T) -> (r: bool)
        requires
            self.inv(),
        ensures
            r == (self.pending().len() + b.contents().len() <= isize::MAX),
    {
        self.ring.fits(b)
    }

    /// Appends a buffer to the bytes held.
    pub fn push_buffer(&mut self, b: T)
        requires
            old(self).inv(),
            old(self).pending().len() + b.contents().len() <= isize::MAX,
        ensures
            final(self).inv(),
            final(self).held() == old(self).held().push(b.contents()),
            final(self).pending() == old(self).pending() + b.contents(),
            final(self).limit() == old(self).limit(),
    {
        proof {
            let pages = self.ring.pages();
            lemma_varint_stable(self.pending(), b.contents());
            if let FramerState::WaitingForTailingData(st) = self.state {
                lemma_prefix_push(pages, b.contents(), st.data_start.page() as int);
                lemma_prefix_push(pages, b.contents(), st.data_end.page() as int);
            }
        }
        self.ring.append(b);
    }

    /// Tries to cut one frame off the front of the bytes held. Whether there
    /// is a frame, and which bytes it has, depends on those bytes alone, not
    /// on the buffers they came in. The frame takes the buffers that it
    /// covers as they are, and the first part of the buffer in which it ends.
    pub fn frame(&mut self) -> (r: Result<Frame<T>, FrameError>)
        requires
            old(self).inv(),
        ensures
            final(self).inv(),
            final(self).limit() == old(self).limit(),
            match frame_spec(old(self).pending(), old(self).limit()) {
                FrameStep::Frame { header, len } => {
                    &&& r matches Ok(f)
                    &&& f.bytes() == old(self).pending().take((header + len) as int)
                    &&& f.data_start.offset(f.packet.pages()) == header
                    &&& f.data_start.is_trued(f.packet.pages())
                    &&& f.wf()
                    &&& final(self).pending() == old(self).pending().skip((header + len) as int)
                    &&& exists|end: Cursor|
                        {
                            &&& end.is_trued(old(self).held())
                            &&& #[trigger] end.offset(old(self).held()) == header + len
                            &&& f.packet.pages() == split_head(
                                old(self).held(),
                                end.page() as int,
                                end.byte() as int,
                            )
                            &&& final(self).held() == split_tail(
                                old(self).held(),
                                end.page() as int,
                                end.byte() as int,
                            )
                        }
                },
                FrameStep::WaitingForHeader => {
                    &&& r == Err::<Frame<T>, FrameError>(FrameError::WaitingForHeader)
                    &&& final(self).held() == old(self).held()
                },
                FrameStep::WaitingForData(k) => {
                    &&& r == Err::<Frame<T>, FrameError>(FrameError::WaitingForData(k as usize))
                    &&& k <= usize::MAX
                    &&& final(self).held() == old(self).held()
                },
                FrameStep::DecodeError => {
                    &&& r == Err::<Frame<T>, FrameError>(FrameError::DecodeError)
                    &&& final(self).held() == old(self).held()
                },
            },
    {
        let ghost pages = self.ring.pages();
        let ghost s = self.pending();
        match self.state {
            FramerState::WaitingForHeader => {
                let header_view = self.ring.view();
                proof {
                    lemma_scan_bounds(s, 0, 5);
                    assert(header_view.rest() =~= s);
                }
                match varint(header_view) {
                    Ok((view, len)) => {
                        if len < 0 || len as usize > self.max_frame_size {
                            return Err(FrameError::DecodeError);
                        }
                        let data_start = view.cursor();
                        let mut data_end = data_start;
                        let valid = data_end.advance(&self.ring, len as usize);
                        if valid {
                            let packet = self.ring.split_to(&data_end);
                            proof {
                                data_end.lemma_trued_in_range(pages);
                                lemma_cursor_kept(pages, data_start, data_end);
                            }
                            let mut data_start = data_start;
                            let _ = data_start.true_up(&packet);
                            proof {
                                data_start.lemma_trued_in_range(packet.pages());
                            }
                            Ok(Frame { packet, data_start })
                        } else {
                            self.state = FramerState::WaitingForTailingData(
                                TailingDataState { data_start, data_end },
                            );
                            Err(FrameError::WaitingForData(data_end.run_off_end(&self.ring)))
                        }
                    },
                    Err(ParseErr::Incomplete) => Err(FrameError::WaitingForHeader),
                    Err(ParseErr::Error(_)) => Err(FrameError::DecodeError),
                }
            },
            FramerState::WaitingForTailingData(st) => {
                let mut data_end = st.data_end;
                let valid = data_end.true_up(&self.ring);
                if valid {
                    let packet = self.ring.split_to(&data_end);
                    proof {
                        data_end.lemma_trued_in_range(pages);
                        lemma_cursor_kept(pages, st.data_start, data_end);
                    }
                    self.state = FramerState::WaitingForHeader;
                    let mut data_start = st.data_start;
                    let _ = data_start.true_up(&packet);
                    proof {
                        data_start.lemma_trued_in_range(packet.pages());
                    }
                    Ok(Frame { packet, data_start })
                } else {
                    self.state = FramerState::WaitingForTailingData(
                        TailingDataState { data_start: st.data_start, data_end },
                    );
                    Err(FrameError::WaitingForData(data_end.run_off_end(&self.ring)))
                }
            },
        }
    }
}

/// A cursor that stands at or before a split point keeps its distance from the
/// origin in the part before the split, and lies in range there.
pub proof fn lemma_cursor_kept(pages: Seq<Seq<u8>>, c: Cursor, at: Cursor)
    requires
        at.can_split(pages),
        c.page() <= at.page(),
        c.offset(pages) <= at.offset(pages),
    ensures
        c.offset(split_head(pages, at.page() as int, at.byte() as int)) == c.offset(pages),
        c.in_range(split_head(pages, at.page() as int, at.byte() as int)),
{
    let page = at.page() as int;
    let byte = at.byte() as int;
    lemma_split_conserves(pages, page, byte);
    lemma_prefix_take(pages, page, c.page() as int);
    if byte > 0 {
        lemma_prefix_push(pages.take(page), pages[page].take(byte), c.page() as int);
    }
}

} // verus!
