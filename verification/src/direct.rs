use bytes::Bytes;
use bytes::BytesMut;
use vstd::prelude::*;

verus! {

/// A contiguous region of bytes that can be consumed from the front, cut in two
/// without copying, and shortened.
pub trait DirectBuf: Sized {
    /// The bytes that the buffer currently holds, front first. A kind of
    /// buffer that does not say what it holds is taken to hold nothing.
    open spec fn contents(&self) -> Seq<u8> {
        Seq::empty()
    }

    /// Number of bytes held.
    fn remaining(&self) -> (n: usize)
        ensures
            n == self.contents().len(),
    ;

    /// The held bytes as one flat slice.
    fn bytes(&self) -> (s: &[u8])
        ensures
            s@ == self.contents(),
    ;

    /// Drops the first `cnt` bytes.
    fn advance(&mut self, cnt: usize)
        requires
            cnt <= old(self).contents().len(),
        ensures
            final(self).contents() == old(self).contents().skip(cnt as int),
    ;

    /// Cuts off the first `at` bytes as a buffer of their own; `self` keeps the rest.
    fn split_to(&mut self, at: usize) -> (head: Self)
        requires
            at <= old(self).contents().len(),
        ensures
            head.contents() == old(self).contents().take(at as int),
            final(self).contents() == old(self).contents().skip(at as int),
    ;

    /// Keeps the first `len` bytes and drops the rest.
    fn truncate(&mut self, len: usize)
        requires
            len <= old(self).contents().len(),
        ensures
            final(self).contents() == old(self).contents().take(len as int),
    ;
}

/// A [`DirectBuf`] whose held region can be overwritten in place.
pub trait DirectBufMut: DirectBuf {
    /// The held bytes as one flat slice that may be written through; the
    /// number of bytes held does not change.
    fn region_mut(&mut self) -> (s: &mut [u8])
        ensures
            s@ == old(self).contents(),
            final(self).contents() == final(s)@,
    ;
}

/// `bytes::Bytes`: a handle to shared bytes that cannot be written, opaque.
#[verifier::external_type_specification]
#[verifier::external_body]
pub struct ExBytes(bytes::Bytes);

/// `bytes::BytesMut`: a handle to bytes that can be written, opaque.
#[verifier::external_type_specification]
#[verifier::external_body]
pub struct ExBytesMut(bytes::BytesMut);

/// The bytes visible through a `bytes::Bytes` handle.
pub uninterp spec fn bytes_contents(b: Bytes) -> Seq<u8>;

/// The bytes visible through a `bytes::BytesMut` handle.
pub uninterp spec fn bytes_mut_contents(b: BytesMut) -> Seq<u8>;

/// `Bytes::len`: the number of bytes visible through the handle.
#[verifier::external_body]
fn bytes_len(b: &Bytes) -> (n: usize)
    ensures
        n == bytes_contents(*b).len(),
{
    b.len()
}

/// `Bytes::split_to`: the returned handle sees the first `at` bytes, `b` the
/// rest. The outside function panics when `at` exceeds the length.
#[verifier::external_body]
fn bytes_split_to(b: &mut Bytes, at: usize) -> (head: Bytes)
    requires
        at <= bytes_contents(*old(b)).len(),
    ensures
        bytes_contents(head) == bytes_contents(*old(b)).take(at as int),
        bytes_contents(*final(b)) == bytes_contents(*old(b)).skip(at as int),
{
    b.split_to(at)
}

/// `Bytes::truncate`: keeps the first `len` bytes; a `len` beyond the length
/// changes nothing.
#[verifier::external_body]
fn bytes_truncate(b: &mut Bytes, len: usize)
    ensures
        len <= bytes_contents(*old(b)).len() ==> bytes_contents(*final(b)) == bytes_contents(
            *old(b),
        ).take(len as int),
        len > bytes_contents(*old(b)).len() ==> bytes_contents(*final(b)) == bytes_contents(
            *old(b),
        ),
{
    b.truncate(len)
}

/// `<Bytes as AsRef<[u8]>>::as_ref`: the visible bytes as a slice.
#[verifier::external_body]
fn bytes_as_slice(b: &Bytes) -> (s: &[u8])
    ensures
        s@ == bytes_contents(*b),
{
    b.as_ref()
}

/// `<Bytes as bytes::Buf>::advance`: moves the front of the handle `cnt` bytes
/// on. The outside function panics when `cnt` exceeds the length.
#[verifier::external_body]
fn bytes_advance(b: &mut Bytes, cnt: usize)
    requires
        cnt <= bytes_contents(*old(b)).len(),
    ensures
        bytes_contents(*final(b)) == bytes_contents(*old(b)).skip(cnt as int),
{
    bytes::Buf::advance(b, cnt)
}

/// `<Bytes as bytes::Buf>::get_u8`: takes the first byte off the front. The
/// outside function panics on an empty handle.
#[verifier::external_body]
pub(crate) fn bytes_get_u8(b: &mut Bytes) -> (v: u8)
    requires
        bytes_contents(*old(b)).len() >= 1,
    ensures
        v == bytes_contents(*old(b))[0],
        bytes_contents(*final(b)) == bytes_contents(*old(b)).skip(1),
{
    bytes::Buf::get_u8(b)
}

impl DirectBuf for Bytes {
    open spec fn contents(&self) -> Seq<u8> {
        bytes_contents(*self)
    }

    fn remaining(&self) -> (n: usize) {
        bytes_len(self)
    }

    fn bytes(&self) -> (s: &[u8]) {
        bytes_as_slice(self)
    }

    fn advance(&mut self, cnt: usize) {
        bytes_advance(self, cnt)
    }

    fn split_to(&mut self, at: usize) -> (head: Self) {
        bytes_split_to(self, at)
    }

    fn truncate(&mut self, len: usize) {
        bytes_truncate(self, len)
    }
}

/// `BytesMut::len`: the number of bytes visible through the handle.
#[verifier::external_body]
fn bytes_mut_len(b: &BytesMut) -> (n: usize)
    ensures
        n == bytes_mut_contents(*b).len(),
{
    b.len()
}

/// `BytesMut::split_to`: the returned handle sees the first `at` bytes, `b`
/// the rest. The outside function panics when `at` exceeds the length.
#[verifier::external_body]
fn bytes_mut_split_to(b: &mut BytesMut, at: usize) -> (head: BytesMut)
    requires
        at <= bytes_mut_contents(*old(b)).len(),
    ensures
        bytes_mut_contents(head) == bytes_mut_contents(*old(b)).take(at as int),
        bytes_mut_contents(*final(b)) == bytes_mut_contents(*old(b)).skip(at as int),
{
    b.split_to(at)
}

/// `BytesMut::truncate`: keeps the first `len` bytes; a `len` beyond the
/// length changes nothing.
#[verifier::external_body]
fn bytes_mut_truncate(b: &mut BytesMut, len: usize)
    ensures
        len <= bytes_mut_contents(*old(b)).len() ==> bytes_mut_contents(*final(b))
            == bytes_mut_contents(*old(b)).take(len as int),
        len > bytes_mut_contents(*old(b)).len() ==> bytes_mut_contents(*final(b))
            == bytes_mut_contents(*old(b)),
{
    b.truncate(len)
}

/// `<BytesMut as AsRef<[u8]>>::as_ref`: the visible bytes as a slice.
#[verifier::external_body]
fn bytes_mut_as_slice(b: &BytesMut) -> (s: &[u8])
    ensures
        s@ == bytes_mut_contents(*b),
{
    b.as_ref()
}

/// `<BytesMut as AsMut<[u8]>>::as_mut`: the visible bytes as a slice that can
/// be written through; what is written becomes what the handle sees.
#[verifier::external_body]
fn bytes_mut_as_mut_slice(b: &mut BytesMut) -> (s: &mut [u8])
    ensures
        s@ == bytes_mut_contents(*old(b)),
        bytes_mut_contents(*final(b)) == final(s)@,
{
    b.as_mut()
}

/// `<BytesMut as bytes::Buf>::advance`: moves the front of the handle `cnt`
/// bytes on. The outside function panics when `cnt` exceeds the length.
#[verifier::external_body]
fn bytes_mut_advance(b: &mut BytesMut, cnt: usize)
    requires
        cnt <= bytes_mut_contents(*old(b)).len(),
    ensures
        bytes_mut_contents(*final(b)) == bytes_mut_contents(*old(b)).skip(cnt as int),
{
    bytes::Buf::advance(b, cnt)
}

/// `<BytesMut as bytes::Buf>::get_u8`: takes the first byte off the front.
/// The outside function panics on an empty handle.
#[verifier::external_body]
pub(crate) fn bytes_mut_get_u8(b: &mut BytesMut) -> (v: u8)
    requires
        bytes_mut_contents(*old(b)).len() >= 1,
    ensures
        v == bytes_mut_contents(*old(b))[0],
        bytes_mut_contents(*final(b)) == bytes_mut_contents(*old(b)).skip(1),
{
    bytes::Buf::get_u8(b)
}

/// `BytesMut::new`: a handle that sees no bytes.
#[verifier::external_body]
pub(crate) fn bytes_mut_new() -> (b: BytesMut)
    ensures
        bytes_mut_contents(b) == Seq::<u8>::empty(),
{
    BytesMut::new()
}

/// `BytesMut::resize`: a longer length appends copies of `value`, a shorter
/// one keeps the first `new_len` bytes. The outside function panics where the
/// capacity asked for is more than an allocation can have.
#[verifier::external_body]
pub(crate) fn bytes_mut_resize(b: &mut BytesMut, new_len: usize, value: u8)
    requires
        new_len <= isize::MAX,
    ensures
        new_len <= bytes_mut_contents(*old(b)).len() ==> bytes_mut_contents(*final(b))
            == bytes_mut_contents(*old(b)).take(new_len as int),
        new_len > bytes_mut_contents(*old(b)).len() ==> bytes_mut_contents(*final(b))
            == bytes_mut_contents(*old(b)) + Seq::new(
            (new_len - bytes_mut_contents(*old(b)).len()) as nat,
            |i: int| value,
        ),
{
    b.resize(new_len, value)
}

impl DirectBuf for BytesMut {
    open spec fn contents(&self) -> Seq<u8> {
        bytes_mut_contents(*self)
    }

    fn remaining(&self) -> (n: usize) {
        bytes_mut_len(self)
    }

    fn bytes(&self) -> (s: &[u8]) {
        bytes_mut_as_slice(self)
    }

    fn advance(&mut self, cnt: usize) {
        bytes_mut_advance(self, cnt)
    }

    fn split_to(&mut self, at: usize) -> (head: Self) {
        bytes_mut_split_to(self, at)
    }

    fn truncate(&mut self, len: usize) {
        bytes_mut_truncate(self, len)
    }
}

impl DirectBufMut for BytesMut {
    fn region_mut(&mut self) -> (s: &mut [u8]) {
        bytes_mut_as_mut_slice(self)
    }
}

} // verus!
