use bytes::Bytes;
use bytes::BytesMut;
use std::collections::VecDeque;
use std::io::IoSlice;
use vstd::prelude::*;

use crate::direct::bytes_get_u8;
use crate::direct::bytes_mut_get_u8;

pub use crate::direct::DirectBuf;
pub use crate::direct::DirectBufMut;

verus! {

/// The bytes of the first `k` pages, page after page.
pub open spec fn prefix(pages: Seq<Seq<u8>>, k: int) -> Seq<u8>
    decreases k,
{
    if k <= 0 {
        Seq::empty()
    } else if k > pages.len() {
        prefix(pages, k - 1)
    } else {
        prefix(pages, k - 1) + pages[k - 1]
    }
}

/// The logical byte stream that a sequence of pages stands for.
pub open spec fn flat(pages: Seq<Seq<u8>>) -> Seq<u8> {
    prefix(pages, pages.len() as int)
}

/// What each buffer of a sequence holds.
pub open spec fn pages_of<T: DirectBuf>(bufs: Seq<T>) -> Seq<Seq<u8>> {
    Seq::new(bufs.len(), |k: int| bufs[k].contents())
}

/// Pages before a split point: the whole pages before `page`, then the first
/// `byte` bytes of page `page` where `byte` is not zero.
pub open spec fn split_head(pages: Seq<Seq<u8>>, page: int, byte: int) -> Seq<Seq<u8>> {
    if byte == 0 {
        pages.take(page)
    } else {
        pages.take(page).push(pages[page].take(byte))
    }
}

/// Pages from a split point on: page `page` without its first `byte` bytes,
/// then the pages after it.
pub open spec fn split_tail(pages: Seq<Seq<u8>>, page: int, byte: int) -> Seq<Seq<u8>> {
    if byte == 0 {
        pages.skip(page)
    } else {
        pages.skip(page).update(0, pages[page].skip(byte))
    }
}

/// A prefix of all the pages, or of more pages than there are, is the whole
/// stream.
pub proof fn lemma_prefix_beyond(pages: Seq<Seq<u8>>, k: int)
    requires
        k >= pages.len(),
    ensures
        prefix(pages, k) == flat(pages),
    decreases k,
{
    if k > pages.len() {
        lemma_prefix_beyond(pages, k - 1);
    }
}

/// The bytes of fewer pages are the first of the bytes of more pages.
pub proof fn lemma_prefix_grows(pages: Seq<Seq<u8>>, j: int, k: int)
    requires
        j <= k,
    ensures
        prefix(pages, j).len() <= prefix(pages, k).len(),
        prefix(pages, j) == prefix(pages, k).take(prefix(pages, j).len() as int),
    decreases k - j,
{
    if j < k {
        lemma_prefix_grows(pages, j, k - 1);
        if 0 < k <= pages.len() {
            assert(prefix(pages, k) == prefix(pages, k - 1) + pages[k - 1]);
            assert(prefix(pages, j) =~= prefix(pages, k).take(prefix(pages, j).len() as int));
        } else {
            assert(prefix(pages, k) == prefix(pages, k - 1));
        }
    } else {
        assert(prefix(pages, j) =~= prefix(pages, k).take(prefix(pages, j).len() as int));
    }
}

/// A page appended at the tail leaves every earlier prefix as it was.
pub proof fn lemma_prefix_push(pages: Seq<Seq<u8>>, page: Seq<u8>, k: int)
    requires
        k <= pages.len(),
    ensures
        prefix(pages.push(page), k) == prefix(pages, k),
    decreases k,
{
    if k > 0 {
        lemma_prefix_push(pages, page, k - 1);
        assert(pages.push(page)[k - 1] == pages[k - 1]);
    }
}

/// A page appended at the tail extends the stream by its bytes.
pub proof fn lemma_flat_push(pages: Seq<Seq<u8>>, page: Seq<u8>)
    ensures
        flat(pages.push(page)) == flat(pages) + page,
{
    let n = pages.len() as int;
    lemma_prefix_push(pages, page, n);
    assert(pages.push(page)[n] == page);
    assert(prefix(pages.push(page), n + 1) == prefix(pages.push(page), n) + page);
}

/// The prefix of a stream depends only on the pages it covers.
pub proof fn lemma_prefix_take(pages: Seq<Seq<u8>>, j: int, k: int)
    requires
        0 <= k <= j <= pages.len(),
    ensures
        prefix(pages.take(j), k) == prefix(pages, k),
    decreases k,
{
    if k > 0 {
        lemma_prefix_take(pages, j, k - 1);
        assert(pages.take(j)[k - 1] == pages[k - 1]);
    }
}

/// Pages after the first `j` carry the stream after the bytes of those `j`.
pub proof fn lemma_prefix_skip(pages: Seq<Seq<u8>>, j: int, k: int)
    requires
        0 <= j,
        0 <= k,
        j + k <= pages.len(),
    ensures
        prefix(pages, j) + prefix(pages.skip(j), k) == prefix(pages, j + k),
    decreases k,
{
    if k > 0 {
        lemma_prefix_skip(pages, j, k - 1);
        assert(pages.skip(j)[k - 1] == pages[j + k - 1]);
        assert(prefix(pages, j) + (prefix(pages.skip(j), k - 1) + pages[j + k - 1]) =~= (prefix(
            pages,
            j,
        ) + prefix(pages.skip(j), k - 1)) + pages[j + k - 1]);
    } else {
        assert(prefix(pages, j) + prefix(pages.skip(j), 0) =~= prefix(pages, j));
    }
}

/// Splitting conserves the stream: the bytes before a split point followed
/// by the bytes from it on are the bytes of the stream, and the part before
/// the point is as long as the point is far from the origin.
pub proof fn lemma_split_conserves(pages: Seq<Seq<u8>>, page: int, byte: int)
    requires
        0 <= page <= pages.len(),
        byte == 0 || (page < pages.len() && 0 < byte <= pages[page].len()),
    ensures
        flat(split_head(pages, page, byte)) + flat(split_tail(pages, page, byte)) == flat(pages),
        flat(split_head(pages, page, byte)) == flat(pages).take(prefix(pages, page).len() + byte),
        flat(split_head(pages, page, byte)).len() == prefix(pages, page).len() + byte,
        flat(split_head(pages, page, byte)).len() + flat(split_tail(pages, page, byte)).len()
            == flat(pages).len(),
{
    let n = pages.len() as int;
    let head = split_head(pages, page, byte);
    let tail = split_tail(pages, page, byte);
    lemma_prefix_take(pages, page, page);
    lemma_prefix_skip(pages, page, n - page);
    assert(pages.skip(page).len() == n - page);
    if byte == 0 {
        assert(flat(head) == prefix(pages, page));
        assert(flat(tail) == prefix(pages.skip(page), n - page));
    } else {
        let whole = pages[page];
        let rest = pages.skip(page);
        assert(head.take(page) =~= pages.take(page));
        lemma_flat_push(pages.take(page), whole.take(byte));
        assert(flat(head) == prefix(pages, page) + whole.take(byte));
        // the tail: its first page is the rest of the cut page
        assert(tail.len() == n - page);
        lemma_prefix_skip(tail, 1, n - page - 1);
        lemma_prefix_skip(rest, 1, n - page - 1);
        assert(tail.skip(1) =~= rest.skip(1));
        assert(prefix(tail, 1) == prefix(tail, 0) + tail[0]);
        assert(prefix(rest, 1) == prefix(rest, 0) + rest[0]);
        assert(prefix(tail, 1) =~= whole.skip(byte));
        assert(prefix(rest, 1) =~= whole);
        assert(whole =~= whole.take(byte) + whole.skip(byte));
        assert(flat(tail) == whole.skip(byte) + prefix(rest.skip(1), n - page - 1));
        assert(flat(rest) == whole + prefix(rest.skip(1), n - page - 1));
        assert(flat(head) + flat(tail) =~= prefix(pages, page) + flat(rest));
    }
    assert(flat(head) + flat(tail) =~= flat(pages));
    assert(flat(head) =~= flat(pages).take(prefix(pages, page).len() + byte));
}


/// `std::io::IoSlice`: a slice of bytes for vectored output, opaque.
#[verifier::external_type_specification]
#[verifier::external_body]
pub struct ExIoSlice<'a>(std::io::IoSlice<'a>);

/// The bytes that a `std::io::IoSlice` points to.
pub uninterp spec fn io_slice_bytes(s: IoSlice) -> Seq<u8>;

/// `std::io::IoSlice::new`: a slice for vectored output that points to the
/// bytes of `buf`. On one system the outside function panics where `buf` has
/// more bytes than a 32-bit count holds.
#[verifier::external_body]
fn io_slice_new<'a>(buf: &'a [u8]) -> (r: IoSlice<'a>)
    requires
        buf@.len() <= u32::MAX,
    ensures
        io_slice_bytes(r) == buf@,
{
    IoSlice::new(buf)
}

/// The pages from page `k` on that are not empty.
pub open spec fn nonempty_from(pages: Seq<Seq<u8>>, k: int) -> Seq<Seq<u8>>
    decreases pages.len() - k,
{
    if k < 0 || k >= pages.len() {
        Seq::empty()
    } else if pages[k].len() == 0 {
        nonempty_from(pages, k + 1)
    } else {
        seq![pages[k]] + nonempty_from(pages, k + 1)
    }
}

/// The runs of bytes from a position to the end of the stream: the rest of
/// the page of the position, then every later page that is not empty. None
/// where the position stands in no page.
pub open spec fn runs_from(pages: Seq<Seq<u8>>, page: int, byte: int) -> Seq<Seq<u8>> {
    if 0 <= page < pages.len() {
        seq![pages[page].skip(byte)] + nonempty_from(pages, page + 1)
    } else {
        Seq::empty()
    }
}

/// The runs of bytes from a position on can be given for vectored output:
/// a position that stands in a page stands in it or at its end, and the rest
/// of that page, and every later page, has no more bytes than a 32-bit count
/// holds.
pub open spec fn vectorable(pages: Seq<Seq<u8>>, page: int, byte: int) -> bool {
    0 <= page < pages.len() ==> {
        &&& 0 <= byte <= pages[page].len()
        &&& pages[page].len() - byte <= u32::MAX
        &&& forall|j: int| page < j < pages.len() ==> (#[trigger] pages[j]).len() <= u32::MAX
    }
}

/// An ordered sequence of buffers that stands for one logical byte stream.
/// Buffers are appended at the tail; some may be empty.
#[derive(Debug)]
pub struct Multibytes<T: DirectBuf> {
    pub(crate) b: VecDeque<T>,
}

/// A position in a [`Multibytes`]: a page and a byte within that page. It
/// borrows nothing and can be copied freely.
#[derive(Clone, Copy, Debug, PartialEq, Eq, PartialOrd, Structural)]
pub struct Cursor {
    of: usize,
    i: usize,
}

impl Cursor {
    /// Index of the page the cursor stands in.
    pub closed spec fn page(self) -> nat {
        self.of as nat
    }

    /// Byte index within that page.
    pub closed spec fn byte(self) -> nat {
        self.i as nat
    }

    /// Distance from the origin of the stream, in bytes.
    pub open spec fn offset(self, pages: Seq<Seq<u8>>) -> int {
        (prefix(pages, self.page() as int).len() + self.byte()) as int
    }

    /// Bytes between the cursor and the end of the stream; negative when the
    /// cursor has run past the end.
    pub open spec fn slack(self, pages: Seq<Seq<u8>>) -> int {
        flat(pages).len() - self.offset(pages)
    }

    /// The cursor stands on a byte of its page, or is the end-of-stream
    /// cursor.
    pub open spec fn is_trued(self, pages: Seq<Seq<u8>>) -> bool {
        ||| self.page() < pages.len() && self.byte() < pages[self.page() as int].len()
        ||| self.page() == pages.len() && self.byte() == 0
    }

    /// The cursor names a page of the stream, or the end, and lies at most at
    /// the end of the stream.
    pub open spec fn in_range(self, pages: Seq<Seq<u8>>) -> bool {
        self.page() <= pages.len() && self.offset(pages) <= flat(pages).len()
    }

    /// The stream can be cut at the cursor: it stands at the start of a page
    /// or of the end, or inside or at the end of a page.
    pub open spec fn can_split(self, pages: Seq<Seq<u8>>) -> bool {
        &&& self.page() <= pages.len()
        &&& self.byte() == 0 || (self.page() < pages.len() && self.byte()
            <= pages[self.page() as int].len())
    }

    /// The bytes from the cursor to the end of the stream.
    pub open spec fn rest(self, pages: Seq<Seq<u8>>) -> Seq<u8> {
        if self.offset(pages) <= flat(pages).len() {
            flat(pages).skip(self.offset(pages))
        } else {
            Seq::empty()
        }
    }

    /// What [`Cursor::run_off_end`] reports.
    pub open spec fn overrun(self, pages: Seq<Seq<u8>>) -> nat {
        if self.page() < pages.len() {
            let len = pages[self.page() as int].len();
            if self.byte() > len {
                (self.byte() - len) as nat
            } else {
                0
            }
        } else {
            self.byte()
        }
    }

    /// A trued-up cursor can be cut at and lies in range.
    pub proof fn lemma_trued_in_range(self, pages: Seq<Seq<u8>>)
        requires
            self.is_trued(pages),
        ensures
            self.can_split(pages),
            self.in_range(pages),
    {
        if self.page() < pages.len() {
            let k = self.page() as int;
            assert(prefix(pages, k + 1) == prefix(pages, k) + pages[k]);
            lemma_prefix_grows(pages, k + 1, pages.len() as int);
        }
    }

    /// Two trued-up cursors at the same distance from the origin are the same
    /// cursor.
    pub proof fn lemma_trued_unique(self, other: Cursor, pages: Seq<Seq<u8>>)
        requires
            self.is_trued(pages),
            other.is_trued(pages),
            self.offset(pages) == other.offset(pages),
        ensures
            self == other,
    {
        let a = self.page() as int;
        let b = other.page() as int;
        let n = pages.len() as int;
        if a < b {
            assert(prefix(pages, a + 1) == prefix(pages, a) + pages[a]);
            lemma_prefix_grows(pages, a + 1, b);
        } else if b < a {
            assert(prefix(pages, b + 1) == prefix(pages, b) + pages[b]);
            lemma_prefix_grows(pages, b + 1, a);
        }
    }

    /// Index of the page the cursor stands in.
    pub fn page_index(&self) -> (r: usize)
        ensures
            r == self.page(),
    {
        self.of
    }

    /// Byte index within that page.
    pub fn byte_index(&self) -> (r: usize)
        ensures
            r == self.byte(),
    {
        self.i
    }

    /// A cursor into a stream stays where it is when a page is appended to
    /// the stream: as far from the origin, on the same byte, with the bytes
    /// of the new page after those it had left.
    pub proof fn lemma_survives_append(self, pages: Seq<Seq<u8>>, page: Seq<u8>)
        requires
            self.in_range(pages),
        ensures
            self.in_range(pages.push(page)),
            self.offset(pages.push(page)) == self.offset(pages),
            self.rest(pages.push(page)) == self.rest(pages) + page,
            self.is_trued(pages) && self.page() < pages.len() ==> self.is_trued(pages.push(page)),
    {
        lemma_prefix_push(pages, page, self.page() as int);
        lemma_flat_push(pages, page);
        assert((flat(pages) + page).skip(self.offset(pages)) =~= flat(pages).skip(
            self.offset(pages),
        ) + page);
    }

    /// A cursor that has moved `n` bytes on from the origin of a stream, `n`
    /// being at most the length of the stream, has the length less `n` bytes
    /// left: the bytes of the stream from the `n`-th on.
    pub proof fn lemma_round_trip(self, origin: Cursor, pages: Seq<Seq<u8>>, n: nat)
        requires
            origin.page() == 0,
            origin.byte() == 0,
            n <= flat(pages).len(),
            self.offset(pages) == origin.offset(pages) + n,
        ensures
            self.slack(pages) == flat(pages).len() - n,
            self.rest(pages).len() == flat(pages).len() - n,
            self.rest(pages) == flat(pages).skip(n as int),
    {
    }

    /// Moves the cursor `i` bytes on and trues it up. Returns whether the new
    /// position lies in the stream (at its end counts).
    pub fn advance<T: DirectBuf>(&mut self, b: &Multibytes<T>, i: usize) -> (ok: bool)
        requires
            old(self).byte() + i <= usize::MAX,
        ensures
            final(self).offset(b.pages()) == old(self).offset(b.pages()) + i,
            final(self).page() >= old(self).page(),
            ok == final(self).is_trued(b.pages()),
            ok == (old(self).page() <= b.pages().len() && old(self).offset(b.pages()) + i <= flat(b.pages()).len()),
            !ok && old(self).page() <= b.pages().len() ==> final(self).page() == b.pages().len(),
            old(self).page() > b.pages().len() ==> final(self).page() == old(self).page(),
    {
        self.i += i;
        self.true_up(b)
    }

    /// Moves the cursor forward over every page that it has outrun, keeping
    /// its distance from the origin. Returns whether the position lies in the
    /// stream (at its end counts); if not, the cursor stands at the page after
    /// the last, its byte index being the number of bytes it is beyond the end.
    pub fn true_up<T: DirectBuf>(&mut self, b: &Multibytes<T>) -> (ok: bool)
        ensures
            final(self).offset(b.pages()) == old(self).offset(b.pages()),
            final(self).page() >= old(self).page(),
            ok == final(self).is_trued(b.pages()),
            ok == (old(self).page() <= b.pages().len() && old(self).offset(b.pages()) <= flat(b.pages()).len()),
            !ok && old(self).page() <= b.pages().len() ==> final(self).page() == b.pages().len(),
            old(self).page() > b.pages().len() ==> final(self).page() == old(self).page(),
    {
        let ghost start = *self;
        let ghost pages = b.pages();
        let n = b.b.len();
        while self.of < n
            invariant
                pages == b.pages(),
                n == pages.len(),
                n == b.b@.len(),
                start == *old(self),
                start.of <= self.of,
                self.of <= n || *self == start,
                self.offset(pages) == start.offset(pages),
            decreases n - self.of,
        {
            let len = b.b[self.of].remaining();
            proof {
                let k = self.of as int;
                assert(pages[k] == b.b@[k].contents());
                assert(prefix(pages, k + 1) == prefix(pages, k) + pages[k]);
                lemma_prefix_grows(pages, k + 1, n as int);
            }
            if self.i >= len {
                self.i -= len;
                self.of += 1;
            } else {
                return true;
            }
        }
        proof {
            lemma_prefix_beyond(pages, self.of as int);
        }
        self.of == n && self.i == 0
    }

    /// Number of bytes from the cursor to the end of the stream; zero when the
    /// cursor has run past the end.
    pub fn remaining<T: DirectBuf>(&self, b: &Multibytes<T>) -> (r: usize)
        requires
            b.inv(),
        ensures
            r == if self.slack(b.pages()) > 0 {
                self.slack(b.pages())
            } else {
                0
            },
            r == self.rest(b.pages()).len(),
    {
        let ghost pages = b.pages();
        let n = b.b.len();
        proof {
            if self.of >= n {
                lemma_prefix_beyond(pages, self.of as int);
            }
        }
        let mut blen: usize = 0;
        let mut k: usize = self.of;
        while k < n
            invariant
                pages == b.pages(),
                n == pages.len(),
                n == b.b@.len(),
                self.of <= k,
                self.of <= n ==> k <= n,
                self.of <= n ==> blen == prefix(pages, k as int).len() - prefix(
                    pages,
                    self.of as int,
                ).len(),
                self.of > n ==> blen == 0,
                flat(pages).len() <= isize::MAX,
            decreases n - k,
        {
            proof {
                let j = k as int;
                assert(pages[j] == b.b@[j].contents());
                assert(prefix(pages, j + 1) == prefix(pages, j) + pages[j]);
                lemma_prefix_grows(pages, j + 1, n as int);
                lemma_prefix_grows(pages, self.of as int, j);
            }
            blen = blen + b.b[k].remaining();
            k = k + 1;
        }
        if blen <= self.i {
            0
        } else {
            blen - self.i
        }
    }

    /// Whether at least `len` bytes lie between the cursor and the end of the
    /// stream. The comparison is made with the signed distance to the end,
    /// before that distance is cut off at zero: so a cursor that has run past
    /// the end has not even zero bytes, though [`Cursor::remaining`] gives
    /// zero for it.
    pub fn has_atleast<T: DirectBuf>(&self, b: &Multibytes<T>, len: usize) -> (r: bool)
        ensures
            r == (self.slack(b.pages()) >= len),
    {
        let ghost pages = b.pages();
        let n = b.b.len();
        proof {
            if self.of >= n {
                lemma_prefix_beyond(pages, self.of as int);
            }
        }
        // bytes of the stream that still lie before the cursor, then bytes
        // still wanted after it
        let mut skip: usize = self.i;
        let mut want: usize = len;
        let mut k: usize = self.of;
        while k < n
            invariant
                pages == b.pages(),
                n == pages.len(),
                n == b.b@.len(),
                self.of <= k,
                self.of <= n ==> k <= n,
                skip <= self.i,
                want <= len,
                skip > 0 ==> want == len,
                self.of <= n ==> prefix(pages, k as int).len() - prefix(
                    pages,
                    self.of as int,
                ).len() == (self.i - skip) + (len - want),
                self.of > n ==> skip == self.i && want == len,
            decreases n - k,
        {
            proof {
                let j = k as int;
                assert(pages[j] == b.b@[j].contents());
                assert(prefix(pages, j + 1) == prefix(pages, j) + pages[j]);
                lemma_prefix_grows(pages, j + 1, n as int);
                lemma_prefix_grows(pages, self.of as int, j);
            }
            let bl = b.b[k].remaining();
            if bl >= skip {
                let avail = bl - skip;
                skip = 0;
                if avail >= want {
                    return true;
                }
                want = want - avail;
            } else {
                skip = skip - bl;
            }
            k = k + 1;
        }
        want == 0 && skip == 0
    }

    /// Whether the runs of bytes from the cursor on can be given for
    /// vectored output.
    pub fn can_vector<T: DirectBuf>(&self, b: &Multibytes<T>) -> (r: bool)
        ensures
            r == vectorable(b.pages(), self.page() as int, self.byte() as int),
    {
        let ghost pages = b.pages();
        let n = b.b.len();
        if self.of >= n {
            return true;
        }
        let first = b.b[self.of].remaining();
        proof {
            assert(pages[self.of as int] == b.b@[self.of as int].contents());
        }
        if self.i > first || first - self.i > u32::MAX as usize {
            return false;
        }
        let mut k: usize = self.of + 1;
        while k < n
            invariant
                pages == b.pages(),
                n == pages.len(),
                n == b.b@.len(),
                self.of < k <= n,
                forall|j: int| self.of < j < k ==> (#[trigger] pages[j]).len() <= u32::MAX,
            decreases n - k,
        {
            proof {
                assert(pages[k as int] == b.b@[k as int].contents());
            }
            if b.b[k].remaining() > u32::MAX as usize {
                return false;
            }
            k = k + 1;
        }
        true
    }

    /// Fills `dst` with the runs of bytes from the cursor to the end of the
    /// stream, as many as `dst` has room for, and returns how many it
    /// filled. The rest of `dst` stays as it is.
    pub fn bytes_vectored<'a, T: DirectBuf>(
        &self,
        mb: &'a Multibytes<T>,
        dst: &mut [IoSlice<'a>],
    ) -> (n: usize)
        requires
            vectorable(mb.pages(), self.page() as int, self.byte() as int),
        ensures
            final(dst)@.len() == old(dst)@.len(),
            n == vstd::math::min(
                old(dst)@.len() as int,
                runs_from(mb.pages(), self.page() as int, self.byte() as int).len() as int,
            ),
            forall|j: int|
                0 <= j < n ==> io_slice_bytes(#[trigger] final(dst)@[j]) == runs_from(
                    mb.pages(),
                    self.page() as int,
                    self.byte() as int,
                )[j],
            forall|j: int| n <= j < old(dst)@.len() ==> final(dst)@[j] == old(dst)@[j],
    {
        let ghost pages = mb.pages();
        let ghost runs = runs_from(pages, self.of as int, self.i as int);
        let dstlen = dst.len();
        if dstlen < 1 {
            return 0;
        }
        let pages_len = mb.b.len();
        if self.of >= pages_len {
            return 0;
        }
        // The first element is special - some bytes are to be clipped from
        // its beginning
        let first = mb.b[self.of].bytes();
        proof {
            assert(pages[self.of as int] == mb.b@[self.of as int].contents());
        }
        let clipped = vstd::slice::slice_subrange(first, self.i, first.len());
        dst[0] = io_slice_new(clipped);
        proof {
            assert(clipped@ =~= pages[self.of as int].skip(self.i as int));
            assert(runs[0] == pages[self.of as int].skip(self.i as int));
            assert(runs.skip(1) =~= nonempty_from(pages, self.of + 1));
        }
        // Others can go in as they are
        let mut i: usize = 1;
        let mut k: usize = self.of + 1;
        while k < pages_len && i < dstlen
            invariant
                pages == mb.pages(),
                pages_len == pages.len(),
                pages_len == mb.b@.len(),
                runs == runs_from(pages, self.of as int, self.i as int),
                dstlen == dst@.len(),
                dst@.len() == old(dst)@.len(),
                1 <= i <= dstlen,
                self.of < k <= pages_len,
                i <= runs.len(),
                runs.skip(i as int) == nonempty_from(pages, k as int),
                forall|j: int| self.of < j < pages_len ==> (#[trigger] pages[j]).len() <= u32::MAX,
                forall|j: int| 0 <= j < i ==> io_slice_bytes(#[trigger] dst@[j]) == runs[j],
                forall|j: int| i <= j < dstlen ==> dst@[j] == old(dst)@[j],
            decreases pages_len - k,
        {
            let item = mb.b[k].bytes();
            proof {
                assert(pages[k as int] == mb.b@[k as int].contents());
            }
            if item.len() != 0 {
                proof {
                    let rest = nonempty_from(pages, k as int);
                    assert(rest.len() >= 1);
                    assert(rest[0] == pages[k as int]);
                    assert(runs.skip(i as int).len() == runs.len() - i);
                    assert(runs[i as int] == runs.skip(i as int)[0]);
                    assert(runs.skip(i + 1) =~= rest.skip(1));
                    assert(rest.skip(1) =~= nonempty_from(pages, k + 1));
                }
                dst[i] = io_slice_new(item);
                i = i + 1;
            }
            k = k + 1;
        }
        proof {
            if i < dstlen {
                assert(nonempty_from(pages, k as int) =~= Seq::<Seq<u8>>::empty());
                assert(runs.skip(i as int).len() == 0);
            }
        }
        i
    }

    /// How far the cursor stands beyond the end: for a cursor at the page
    /// after the last, its byte index; for one in a page, the bytes by which
    /// it exceeds that page's length.
    pub fn run_off_end<T: DirectBuf>(&self, b: &Multibytes<T>) -> (r: usize)
        ensures
            r == self.overrun(b.pages()),
            self.page() == b.pages().len() ==> r == self.offset(b.pages()) - flat(b.pages()).len(),
    {
        if self.of < b.b.len() {
            let len = b.b[self.of].remaining();
            assert(b.pages()[self.of as int] == b.b@[self.of as int].contents());
            if self.i > len {
                self.i - len
            } else {
                0
            }
        } else {
            self.i
        }
    }
}

impl<T: DirectBuf> Multibytes<T> {
    /// The pages, each as the bytes it holds.
    pub closed spec fn pages(&self) -> Seq<Seq<u8>> {
        pages_of(self.b@)
    }

    /// The stream is short enough for its length, and any distance in it, to
    /// be counted in a `usize`.
    pub open spec fn inv(&self) -> bool {
        flat(self.pages()).len() <= isize::MAX
    }

    /// A stream made of the given buffers, in their order.
    pub fn new(b: VecDeque<T>) -> (r: Multibytes<T>)
        requires
            flat(pages_of(b@)).len() <= isize::MAX,
        ensures
            r.pages() == pages_of(b@),
            r.inv(),
    {
        Multibytes { b }
    }

    /// A stream without pages.
    pub fn empty() -> (r: Multibytes<T>)
        ensures
            r.pages() == Seq::<Seq<u8>>::empty(),
            r.inv(),
    {
        let b: VecDeque<T> = VecDeque::new();
        assert(pages_of(b@) =~= Seq::<Seq<u8>>::empty());
        Multibytes { b }
    }

    /// Makes a stream of the given buffers, in their order, if their bytes
    /// are few enough to be counted.
    pub fn checked_new(b: VecDeque<T>) -> (r: Option<Multibytes<T>>)
        ensures
            flat(pages_of(b@)).len() <= isize::MAX ==> r is Some,
            flat(pages_of(b@)).len() > isize::MAX ==> r is None,
            r matches Some(m) ==> m.pages() == pages_of(b@) && m.inv(),
    {
        let ghost pages = pages_of(b@);
        let n = b.len();
        let mut total: usize = 0;
        let mut k: usize = 0;
        while k < n
            invariant
                pages == pages_of(b@),
                n == b@.len(),
                k <= n,
                total == prefix(pages, k as int).len(),
                total <= isize::MAX,
            decreases n - k,
        {
            let len = b[k].remaining();
            proof {
                assert(pages[k as int] == b@[k as int].contents());
                assert(prefix(pages, k + 1) == prefix(pages, k as int) + pages[k as int]);
                lemma_prefix_grows(pages, k + 1, n as int);
            }
            if len > isize::MAX as usize - total {
                return None;
            }
            total = total + len;
            k = k + 1;
        }
        Some(Multibytes { b })
    }

    /// Number of bytes in the stream.
    pub fn total_len(&self) -> (n: usize)
        requires
            self.inv(),
        ensures
            n == flat(self.pages()).len(),
    {
        let c = self.cursor();
        proof {
            assert(flat(self.pages()).skip(0) =~= flat(self.pages()));
        }
        c.remaining(self)
    }

    /// Whether `b` can be appended: whether the stream stays short enough to
    /// be counted.
    pub fn fits(&self, b: &T) -> (r: bool)
        requires
            self.inv(),
        ensures
            r == (flat(self.pages()).len() + b.contents().len() <= isize::MAX),
    {
        b.remaining() <= isize::MAX as usize - self.total_len()
    }

    /// The cursor at the origin of the stream.
    pub fn cursor(&self) -> (c: Cursor)
        ensures
            c == self.cursor_spec(),
            c.page() == 0,
            c.byte() == 0,
            c.offset(self.pages()) == 0,
    {
        Cursor { of: 0, i: 0 }
    }

    /// Number of pages.
    pub fn len(&self) -> (n: usize)
        ensures
            n == self.pages().len(),
    {
        self.b.len()
    }

    /// The page at `index`.
    pub fn page(&self, index: usize) -> (p: &T)
        requires
            index < self.pages().len(),
        ensures
            p.contents() == self.pages()[index as int],
    {
        &self.b[index]
    }

    /// Pushes a buffer at the tail.
    pub fn append(&mut self, b: T)
        requires
            flat(old(self).pages()).len() + b.contents().len() <= isize::MAX,
        ensures
            final(self).pages() == old(self).pages().push(b.contents()),
            flat(final(self).pages()) == flat(old(self).pages()) + b.contents(),
            final(self).inv(),
    {
        proof {
            lemma_flat_push(self.pages(), b.contents());
            assert(pages_of(self.b@.push(b)) =~= pages_of(self.b@).push(b.contents()));
        }
        self.b.push_back(b);
    }

    /// Removes the bytes before `c` from the stream and returns them as a
    /// stream of their own. Whole pages move as they are; the page that `c`
    /// stands inside is cut in two, without copying.
    pub fn split_to(&mut self, c: &Cursor) -> (head: Self)
        requires
            c.can_split(old(self).pages()),
            old(self).inv(),
        ensures
            head.pages() == split_head(old(self).pages(), c.page() as int, c.byte() as int),
            final(self).pages() == split_tail(old(self).pages(), c.page() as int, c.byte() as int),
            flat(head.pages()) + flat(final(self).pages()) == flat(old(self).pages()),
            flat(head.pages()).len() == c.offset(old(self).pages()),
            flat(head.pages()) == flat(old(self).pages()).take(c.offset(old(self).pages())),
            flat(final(self).pages()) == flat(old(self).pages()).skip(c.offset(old(self).pages())),
            head.inv(),
            final(self).inv(),
    {
        let ghost bufs = self.b@;
        let ghost pages = self.pages();
        proof {
            lemma_split_conserves(pages, c.page() as int, c.byte() as int);
        }
        if c.i == 0 && c.of == 0 {
            let head = Multibytes::empty();
            proof {
                assert(split_head(pages, 0, 0) =~= Seq::<Seq<u8>>::empty());
                assert(split_tail(pages, 0, 0) =~= pages);
                assert(flat(pages).skip(0) =~= flat(pages));
            }
            return head;
        }
        let mut b: VecDeque<T> = VecDeque::with_capacity(c.of);
        let mut k: usize = 0;
        while k < c.of
            invariant
                k <= c.of <= bufs.len(),
                self.b@ == bufs.skip(k as int),
                b@ == bufs.take(k as int),
            decreases c.of - k,
        {
            if let Some(x) = self.b.pop_front() {
                b.push_back(x);
            }
            k = k + 1;
            proof {
                assert(bufs.skip(k - 1).subrange(1, bufs.len() - (k - 1)) =~= bufs.skip(k as int));
                assert(bufs.take(k - 1).push(bufs[k - 1]) =~= bufs.take(k as int));
            }
        }
        if c.i > 0 {
            if let Some(x) = self.b.pop_front() {
                let mut x = x;
                let cut = x.split_to(c.i);
                b.push_back(cut);
                self.b.push_front(x);
            }
        }
        proof {
            let page = c.page() as int;
            let byte = c.byte() as int;
            assert(pages_of(b@) =~= split_head(pages, page, byte));
            assert(pages_of(self.b@) =~= split_tail(pages, page, byte));
            assert(flat(pages).skip(flat(split_head(pages, page, byte)).len() as int) =~= flat(
                split_tail(pages, page, byte),
            )) by {
                let h = flat(split_head(pages, page, byte));
                let t = flat(split_tail(pages, page, byte));
                assert((h + t).skip(h.len() as int) =~= t);
            }
        }
        Multibytes { b }
    }

    /// A read-only view of the stream with its own cursor, at the origin.
    pub fn view(&self) -> (v: MultibytesView<'_, T>)
        ensures
            v.pages() == self.pages(),
            v.position() == self.cursor_spec(),
            v.position().page() == 0,
            v.position().byte() == 0,
            v.inner_inv() == self.inv(),
    {
        MultibytesView { b: self, c: self.cursor() }
    }

    /// A read-only view of the stream whose cursor starts at `c`.
    pub fn cursor_view(&self, c: Cursor) -> (v: MultibytesView<'_, T>)
        ensures
            v.pages() == self.pages(),
            v.position() == c,
            v.inner_inv() == self.inv(),
    {
        MultibytesView { b: self, c }
    }

    /// The stream together with a cursor at its origin.
    pub fn indexed(self) -> (v: IndexedMultibytes<T>)
        ensures
            v.pages() == self.pages(),
            v.position() == self.cursor_spec(),
            v.position().page() == 0,
            v.position().byte() == 0,
            v.inner_inv() == self.inv(),
    {
        IndexedMultibytes { b: self, c: Cursor { of: 0, i: 0 } }
    }

    /// The stream together with the cursor `c`.
    pub fn cursor_indexed(self, c: Cursor) -> (v: IndexedMultibytes<T>)
        ensures
            v.pages() == self.pages(),
            v.position() == c,
            v.inner_inv() == self.inv(),
    {
        IndexedMultibytes { b: self, c }
    }

    /// The cursor that [`Multibytes::cursor`] returns.
    pub closed spec fn cursor_spec(&self) -> Cursor {
        Cursor { of: 0, i: 0 }
    }

    /// Takes the first page out of the stream.
    pub fn pop_front(&mut self) -> (p: Option<T>)
        ensures
            old(self).pages().len() == 0 ==> p is None && final(self).pages() == old(self).pages(),
            old(self).pages().len() > 0 ==> p is Some && p->0.contents() == old(self).pages()[0]
                && final(self).pages() == old(self).pages().skip(1) && flat(old(self).pages())
                == p->0.contents() + flat(final(self).pages()),
            old(self).inv() ==> final(self).inv(),
    {
        proof {
            if self.pages().len() > 0 {
                lemma_split_conserves(self.pages(), 1, 0);
                let one = self.pages().take(1);
                assert(prefix(one, 1) == prefix(one, 0) + one[0]);
                assert(flat(one) =~= self.pages()[0]);
                assert(pages_of(self.b@.subrange(1, self.b@.len() as int)) =~= pages_of(
                    self.b@,
                ).skip(1));
            }
        }
        self.b.pop_front()
    }
}


/// Byte `i` of page `k` is the byte of the stream at the distance of that
/// position from the origin.
pub proof fn lemma_flat_index(pages: Seq<Seq<u8>>, k: int, i: int)
    requires
        0 <= k < pages.len(),
        0 <= i < pages[k].len(),
    ensures
        prefix(pages, k).len() + i < flat(pages).len(),
        flat(pages)[prefix(pages, k).len() + i] == pages[k][i],
{
    assert(prefix(pages, k + 1) == prefix(pages, k) + pages[k]);
    lemma_prefix_grows(pages, k + 1, pages.len() as int);
    let whole = flat(pages);
    let upto = prefix(pages, k + 1);
    assert(upto[prefix(pages, k).len() + i] == pages[k][i]);
    assert(upto == whole.take(upto.len() as int));
}

/// A reader that takes bytes off the front of a stream.
pub trait SliceCursor: Sized {
    /// The bytes not yet read. A kind of reader that does not say what it
    /// has left is taken to have nothing left.
    open spec fn rest(&self) -> Seq<u8> {
        Seq::empty()
    }

    /// `self` is what `origin` becomes by reading `n` bytes.
    open spec fn moved_from(&self, origin: &Self, n: nat) -> bool {
        n == 0 && *self == *origin
    }

    /// Whether at least `len` bytes are left to read. A reader is itself
    /// moved by nothing.
    fn has_atleast(&self, len: usize) -> (r: bool)
        ensures
            len > 0 ==> r == (self.rest().len() >= len),
            r ==> self.rest().len() >= len,
            self.moved_from(self, 0),
    ;

    /// Reads one byte: the first of the unread bytes. The reader has then
    /// moved one byte further from wherever it had moved from.
    fn get_u8(&mut self) -> (v: u8)
        requires
            old(self).rest().len() >= 1,
        ensures
            v == old(self).rest()[0],
            final(self).rest() == old(self).rest().skip(1),
            forall|origin: Self, k: nat| #[trigger]
                old(self).moved_from(&origin, k) ==> final(self).moved_from(&origin, k + 1),
    ;
}

/// A [`SliceCursor`] over a region that can also be written.
pub trait SliceCursorMut: SliceCursor {

}

impl SliceCursor for Bytes {
    open spec fn rest(&self) -> Seq<u8> {
        self.contents()
    }

    open spec fn moved_from(&self, origin: &Self, n: nat) -> bool {
        n <= origin.contents().len() && self.contents() == origin.contents().skip(n as int)
    }

    fn has_atleast(&self, len: usize) -> (r: bool)
        ensures
            r == (self.rest().len() >= len),
    {
        proof {
            assert(self.contents().skip(0) =~= self.contents());
        }
        DirectBuf::remaining(self) >= len
    }

    fn get_u8(&mut self) -> (v: u8) {
        let v = bytes_get_u8(self);
        proof {
            assert forall|origin: Self, k: nat| #[trigger]
                old(self).moved_from(&origin, k) implies self.moved_from(&origin, k + 1) by {
                assert(origin.contents().skip(k as int).skip(1) =~= origin.contents().skip(
                    (k + 1) as int,
                ));
            }
        }
        v
    }
}

impl SliceCursor for BytesMut {
    open spec fn rest(&self) -> Seq<u8> {
        self.contents()
    }

    open spec fn moved_from(&self, origin: &Self, n: nat) -> bool {
        n <= origin.contents().len() && self.contents() == origin.contents().skip(n as int)
    }

    fn has_atleast(&self, len: usize) -> (r: bool)
        ensures
            r == (self.rest().len() >= len),
    {
        proof {
            assert(self.contents().skip(0) =~= self.contents());
        }
        DirectBuf::remaining(self) >= len
    }

    fn get_u8(&mut self) -> (v: u8) {
        let v = bytes_mut_get_u8(self);
        proof {
            assert forall|origin: Self, k: nat| #[trigger]
                old(self).moved_from(&origin, k) implies self.moved_from(&origin, k + 1) by {
                assert(origin.contents().skip(k as int).skip(1) =~= origin.contents().skip(
                    (k + 1) as int,
                ));
            }
        }
        v
    }
}

impl SliceCursorMut for BytesMut {

}

/// The cursor `now`, standing in `pages`, is `origin` moved `n` bytes on: the
/// same cursor where `n` is zero, else a cursor in range that is `n` bytes
/// further from the origin of the stream.
pub open spec fn cursor_moved(pages: Seq<Seq<u8>>, now: Cursor, origin: Cursor, n: nat) -> bool {
    if n == 0 {
        now == origin
    } else {
        now.in_range(pages) && now.offset(pages) == origin.offset(pages) + n
    }
}

/// A cursor that has moved `n` bytes on has the bytes from the `n`-th on, of
/// those that it had, left.
pub proof fn lemma_cursor_moved_rest(pages: Seq<Seq<u8>>, now: Cursor, origin: Cursor, n: nat)
    requires
        cursor_moved(pages, now, origin, n),
    ensures
        n <= origin.rest(pages).len(),
        now.rest(pages) == origin.rest(pages).skip(n as int),
{
    if n == 0 {
        assert(origin.rest(pages).skip(0) =~= origin.rest(pages));
    } else {
        assert(flat(pages).skip(origin.offset(pages)).skip(n as int) =~= flat(pages).skip(
            now.offset(pages),
        ));
    }
}

/// A stream that is owned together with a cursor into it.
pub struct IndexedMultibytes<T: DirectBuf> {
    b: Multibytes<T>,
    c: Cursor,
}

/// A stream that is borrowed together with a cursor into it.
pub struct MultibytesView<'a, T: DirectBuf> {
    b: &'a Multibytes<T>,
    c: Cursor,
}

impl<T: DirectBuf> IndexedMultibytes<T> {
    /// The pages of the stream.
    pub closed spec fn pages(&self) -> Seq<Seq<u8>> {
        self.b.pages()
    }

    /// Where the cursor stands.
    pub closed spec fn position(&self) -> Cursor {
        self.c
    }

    /// Whether the stream is short enough to be measured.
    pub closed spec fn inner_inv(&self) -> bool {
        self.b.inv()
    }

    /// The cursor.
    pub fn cursor(&self) -> (c: Cursor)
        ensures
            c == self.position(),
    {
        self.c
    }

    /// Number of bytes from the cursor to the end of the stream.
    pub fn remaining(&self) -> (n: usize)
        requires
            self.inner_inv(),
        ensures
            n == self.position().rest(self.pages()).len(),
    {
        self.c.remaining(&self.b)
    }

    /// Gives the stream and the cursor back.
    pub fn dissolve(self) -> (r: (Multibytes<T>, Cursor))
        ensures
            r.0.pages() == self.pages(),
            r.0.inv() == self.inner_inv(),
            r.1 == self.position(),
    {
        (self.b, self.c)
    }

    /// Moves the cursor `cnt` bytes on.
    pub fn advance(&mut self, cnt: usize)
        requires
            old(self).position().byte() + cnt <= usize::MAX,
        ensures
            final(self).pages() == old(self).pages(),
            final(self).inner_inv() == old(self).inner_inv(),
            final(self).position().offset(final(self).pages()) == old(self).position().offset(
                old(self).pages(),
            ) + cnt,
            final(self).position().is_trued(final(self).pages()) == (old(self).position().page()
                <= old(self).pages().len() && old(self).position().offset(old(self).pages())
                + cnt <= flat(old(self).pages()).len()),
    {
        let _ = self.c.advance(&self.b, cnt);
    }

    /// The bytes from the cursor to the end of its page; none where the
    /// cursor stands in no page or beyond the end of its page.
    pub fn bytes(&self) -> (s: &[u8])
        ensures
            s@ == page_rest(self.pages(), self.position()),
    {
        chunk_at(&self.b, &self.c)
    }

    /// Whether the runs of bytes from the cursor on can be given for
    /// vectored output; see [`Cursor::can_vector`].
    pub fn can_vector(&self) -> (r: bool)
        ensures
            r == vectorable(
                self.pages(),
                self.position().page() as int,
                self.position().byte() as int,
            ),
    {
        self.c.can_vector(&self.b)
    }

    /// Fills `dst` with the runs of bytes from the cursor to the end of the
    /// stream; see [`Cursor::bytes_vectored`].
    pub fn bytes_vectored<'b>(&'b self, dst: &mut [IoSlice<'b>]) -> (n: usize)
        requires
            vectorable(
                self.pages(),
                self.position().page() as int,
                self.position().byte() as int,
            ),
        ensures
            final(dst)@.len() == old(dst)@.len(),
            n == vstd::math::min(
                old(dst)@.len() as int,
                runs_from(
                    self.pages(),
                    self.position().page() as int,
                    self.position().byte() as int,
                ).len() as int,
            ),
            forall|j: int|
                0 <= j < n ==> io_slice_bytes(#[trigger] final(dst)@[j]) == runs_from(
                    self.pages(),
                    self.position().page() as int,
                    self.position().byte() as int,
                )[j],
            forall|j: int| n <= j < old(dst)@.len() ==> final(dst)@[j] == old(dst)@[j],
    {
        self.c.bytes_vectored(&self.b, dst)
    }
}

/// The bytes from `c` to the end of the page that `c` stands in.
pub open spec fn page_rest(pages: Seq<Seq<u8>>, c: Cursor) -> Seq<u8> {
    if c.page() < pages.len() && c.byte() <= pages[c.page() as int].len() {
        pages[c.page() as int].skip(c.byte() as int)
    } else {
        Seq::empty()
    }
}

fn chunk_at<'a, T: DirectBuf>(b: &'a Multibytes<T>, c: &Cursor) -> (s: &'a [u8])
    ensures
        s@ == page_rest(b.pages(), *c),
{
    if c.of < b.b.len() {
        let whole = b.b[c.of].bytes();
        assert(b.pages()[c.of as int] == b.b@[c.of as int].contents());
        if c.i <= whole.len() {
            let s = vstd::slice::slice_subrange(whole, c.i, whole.len());
            assert(s@ =~= whole@.skip(c.i as int));
            s
        } else {
            let s = vstd::slice::slice_subrange(whole, 0, 0);
            assert(s@ =~= Seq::<u8>::empty());
            s
        }
    } else {
        let s: &[u8] = &[];
        assert(s@ =~= Seq::<u8>::empty());
        s
    }
}

/// Reads the byte at `c`, which is first moved over the pages it has outrun,
/// steps `c` over it, and trues `c` up again.
fn read_u8_at<T: DirectBuf>(b: &Multibytes<T>, c: &mut Cursor) -> (v: u8)
    requires
        old(c).rest(b.pages()).len() >= 1,
    ensures
        v == old(c).rest(b.pages())[0],
        cursor_moved(b.pages(), *final(c), *old(c), 1),
        final(c).is_trued(b.pages()),
{
    let ghost pages = b.pages();
    proof {
        if c.page() > pages.len() {
            lemma_prefix_beyond(pages, c.page() as int);
        }
    }
    let _ = c.true_up(b);
    let page = b.b[c.of].bytes();
    proof {
        let k = c.of as int;
        assert(pages[k] == b.b@[k].contents());
        lemma_flat_index(pages, k, c.i as int);
        assert(prefix(pages, k + 1) == prefix(pages, k) + pages[k]);
        lemma_prefix_grows(pages, k + 1, pages.len() as int);
    }
    let v = page[c.i];
    c.i = c.i + 1;
    let _ = c.true_up(b);
    proof {
        c.lemma_trued_in_range(pages);
    }
    v
}

impl<T: DirectBuf> SliceCursor for IndexedMultibytes<T> {
    open spec fn rest(&self) -> Seq<u8> {
        self.position().rest(self.pages())
    }

    open spec fn moved_from(&self, origin: &Self, n: nat) -> bool {
        &&& self.pages() == origin.pages()
        &&& self.inner_inv() == origin.inner_inv()
        &&& cursor_moved(self.pages(), self.position(), origin.position(), n)
    }

    fn has_atleast(&self, len: usize) -> (r: bool)
        ensures
            r == (self.position().slack(self.pages()) >= len),
    {
        self.c.has_atleast(&self.b, len)
    }

    fn get_u8(&mut self) -> (v: u8)
        ensures
            final(self).position().is_trued(final(self).pages()),
    {
        let v = read_u8_at(&self.b, &mut self.c);
        proof {
            lemma_cursor_moved_rest(self.pages(), self.position(), old(self).position(), 1);
        }
        v
    }
}

impl<'a, T: DirectBuf> MultibytesView<'a, T> {
    /// The pages of the stream.
    pub closed spec fn pages(&self) -> Seq<Seq<u8>> {
        self.b.pages()
    }

    /// Whether the stream is short enough to be measured.
    pub closed spec fn inner_inv(&self) -> bool {
        self.b.inv()
    }

    /// Number of bytes from the cursor to the end of the stream.
    pub fn remaining(&self) -> (n: usize)
        requires
            self.inner_inv(),
        ensures
            n == self.position().rest(self.pages()).len(),
    {
        self.c.remaining(self.b)
    }

    /// Where the cursor stands.
    pub closed spec fn position(&self) -> Cursor {
        self.c
    }

    /// The cursor.
    pub fn cursor(&self) -> (c: Cursor)
        ensures
            c == self.position(),
    {
        self.c
    }

    /// Moves the cursor `cnt` bytes on.
    pub fn advance(&mut self, cnt: usize)
        requires
            old(self).position().byte() + cnt <= usize::MAX,
        ensures
            final(self).pages() == old(self).pages(),
            final(self).position().offset(final(self).pages()) == old(self).position().offset(
                old(self).pages(),
            ) + cnt,
            final(self).position().is_trued(final(self).pages()) == (old(self).position().page()
                <= old(self).pages().len() && old(self).position().offset(old(self).pages())
                + cnt <= flat(old(self).pages()).len()),
    {
        let _ = self.c.advance(self.b, cnt);
    }

    /// The bytes from the cursor to the end of its page; none where the
    /// cursor stands in no page or beyond the end of its page.
    pub fn bytes(&self) -> (s: &[u8])
        ensures
            s@ == page_rest(self.pages(), self.position()),
    {
        chunk_at(self.b, &self.c)
    }

    /// Whether the runs of bytes from the cursor on can be given for
    /// vectored output; see [`Cursor::can_vector`].
    pub fn can_vector(&self) -> (r: bool)
        ensures
            r == vectorable(
                self.pages(),
                self.position().page() as int,
                self.position().byte() as int,
            ),
    {
        self.c.can_vector(self.b)
    }

    /// Fills `dst` with the runs of bytes from the cursor to the end of the
    /// stream; see [`Cursor::bytes_vectored`].
    pub fn bytes_vectored<'b>(&'b self, dst: &mut [IoSlice<'b>]) -> (n: usize)
        requires
            vectorable(
                self.pages(),
                self.position().page() as int,
                self.position().byte() as int,
            ),
        ensures
            final(dst)@.len() == old(dst)@.len(),
            n == vstd::math::min(
                old(dst)@.len() as int,
                runs_from(
                    self.pages(),
                    self.position().page() as int,
                    self.position().byte() as int,
                ).len() as int,
            ),
            forall|j: int|
                0 <= j < n ==> io_slice_bytes(#[trigger] final(dst)@[j]) == runs_from(
                    self.pages(),
                    self.position().page() as int,
                    self.position().byte() as int,
                )[j],
            forall|j: int| n <= j < old(dst)@.len() ==> final(dst)@[j] == old(dst)@[j],
    {
        self.c.bytes_vectored(self.b, dst)
    }
}

impl<'a, T: DirectBuf> Clone for MultibytesView<'a, T> {
    fn clone(&self) -> (r: Self)
        ensures
            r.pages() == self.pages(),
            r.position() == self.position(),
    {
        MultibytesView { b: self.b, c: self.c }
    }
}

impl<'a, T: DirectBuf> SliceCursor for MultibytesView<'a, T> {
    open spec fn rest(&self) -> Seq<u8> {
        self.position().rest(self.pages())
    }

    open spec fn moved_from(&self, origin: &Self, n: nat) -> bool {
        &&& self.pages() == origin.pages()
        &&& self.inner_inv() == origin.inner_inv()
        &&& cursor_moved(self.pages(), self.position(), origin.position(), n)
    }

    fn has_atleast(&self, len: usize) -> (r: bool)
        ensures
            r == (self.position().slack(self.pages()) >= len),
    {
        self.c.has_atleast(self.b, len)
    }

    fn get_u8(&mut self) -> (v: u8)
        ensures
            final(self).position().is_trued(final(self).pages()),
    {
        let v = read_u8_at(self.b, &mut self.c);
        proof {
            lemma_cursor_moved_rest(self.pages(), self.position(), old(self).position(), 1);
        }
        v
    }
}

} // verus!
