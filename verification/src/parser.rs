use vstd::prelude::*;

use crate::cursor::SliceCursor;

verus! {

/// Why a variable-length integer was refused.
#[derive(Debug, PartialEq, Eq, Clone, Copy)]
pub enum VarintParseFail {
    /// More continuation bytes than fit the width; the value is the width in
    /// bits.
    VarintExceededShift(usize),
}

/// Why no variable-length integer came out of a reader.
#[derive(Debug, PartialEq, Eq, Clone, Copy)]
pub enum ParseErr {
    /// The bytes ended before the integer did; more may complete it.
    Incomplete,
    /// The bytes cannot start an integer, whatever follows.
    Error(VarintParseFail),
}

/// Where the integer that starts at byte `k` of `s` ends.
pub enum Scan {
    /// It ends after `used` bytes of `s`.
    Done { used: nat },
    /// `s` ends first.
    Incomplete,
    /// It has `limit` bytes and still goes on.
    TooLong,
}

/// Looks for the end of the integer from byte `k` on: the first byte whose
/// high bit is clear, among at most `limit` bytes.
pub open spec fn scan(s: Seq<u8>, k: nat, limit: nat) -> Scan
    decreases limit - k,
{
    if k >= s.len() {
        Scan::Incomplete
    } else if s[k as int] & 0x80 == 0 {
        Scan::Done { used: k + 1 }
    } else if k + 1 >= limit {
        Scan::TooLong
    } else {
        scan(s, k + 1, limit)
    }
}

/// The low seven bits of each of the first `k` bytes, the first byte lowest,
/// in 32 bits; what does not fit is lost.
pub open spec fn groups32(s: Seq<u8>, k: nat) -> u32
    decreases k,
{
    if k == 0 {
        0
    } else {
        groups32(s, (k - 1) as nat) | (((s[k - 1] & 0x7f) as u32) << ((7 * (k - 1)) as u32))
    }
}

/// The low seven bits of each of the first `k` bytes, the first byte lowest,
/// in 64 bits; what does not fit is lost.
pub open spec fn groups64(s: Seq<u8>, k: nat) -> u64
    decreases k,
{
    if k == 0 {
        0
    } else {
        groups64(s, (k - 1) as nat) | (((s[k - 1] & 0x7f) as u64) << ((7 * (k - 1)) as u64))
    }
}

/// What [`varint`] makes of the unread bytes `s`.
pub open spec fn varint_spec(s: Seq<u8>) -> Result<(i32, nat), ParseErr> {
    match scan(s, 0, 5) {
        Scan::Done { used } => Ok((groups32(s, used) as i32, used)),
        Scan::Incomplete => Err(ParseErr::Incomplete),
        Scan::TooLong => Err(ParseErr::Error(VarintParseFail::VarintExceededShift(32))),
    }
}

/// What [`varlong`] makes of the unread bytes `s`.
pub open spec fn varlong_spec(s: Seq<u8>) -> Result<(i64, nat), ParseErr> {
    match scan(s, 0, 10) {
        Scan::Done { used } => Ok((groups64(s, used) as i64, used)),
        Scan::Incomplete => Err(ParseErr::Incomplete),
        Scan::TooLong => Err(ParseErr::Error(VarintParseFail::VarintExceededShift(64))),
    }
}

/// Reads a 32-bit variable-length integer: seven bits a byte, lowest group
/// first, a set high bit meaning that another byte follows, five bytes at
/// most. A negative number is its two's complement in 32 bits.
pub fn varint<T: SliceCursor>(b: T) -> (r: Result<(T, i32), ParseErr>)
    ensures
        match varint_spec(b.rest()) {
            Ok((v, used)) => r matches Ok((t, got)) && got == v && t.moved_from(&b, used),
            Err(e) => r matches Err(got) && got == e,
        },
{
    let ghost orig = b;
    let ghost s = b.rest();
    let mut cur = b;
    proof {
        assert(s.skip(0) =~= s);
    }
    let mut i: u32 = 0;
    let mut k: usize = 0;
    let mut result: u32 = 0;
    loop
        invariant
            orig == b,
            s == b.rest(),
            k < 5,
            i == 7 * k,
            k > 0 ==> cur.moved_from(&orig, k as nat),
            k == 0 ==> cur == orig,
            cur.rest() == s.skip(k as int),
            k <= s.len(),
            result == groups32(s, k as nat),
            scan(s, 0, 5) == scan(s, k as nat, 5),
        decreases 5 - k,
    {
        if !cur.has_atleast(1) {
            return Err(ParseErr::Incomplete);
        }
        let ghost before = cur;
        let read = cur.get_u8();
        proof {
            assert(read == s[k as int]);
            assert(s.skip(k as int).skip(1) =~= s.skip(k + 1));
        }
        result = result | (((read & 0x7f) as u32) << i);
        if read & 0x80 == 0x00 {
            return Ok((cur, #[verifier::truncate] (result as i32)));
        }
        i = i + 7;
        k = k + 1;
        if i > 32 {
            return Err(ParseErr::Error(VarintParseFail::VarintExceededShift(32)));
        }
    }
}

/// Reads a 64-bit variable-length integer: seven bits a byte, lowest group
/// first, a set high bit meaning that another byte follows, ten bytes at
/// most. A negative number is its two's complement in 64 bits.
pub fn varlong<T: SliceCursor>(b: T) -> (r: Result<(T, i64), ParseErr>)
    ensures
        match varlong_spec(b.rest()) {
            Ok((v, used)) => r matches Ok((t, got)) && got == v && t.moved_from(&b, used),
            Err(e) => r matches Err(got) && got == e,
        },
{
    let ghost orig = b;
    let ghost s = b.rest();
    let mut cur = b;
    proof {
        assert(s.skip(0) =~= s);
    }
    let mut i: u32 = 0;
    let mut k: usize = 0;
    let mut result: u64 = 0;
    loop
        invariant
            orig == b,
            s == b.rest(),
            k < 10,
            i == 7 * k,
            k > 0 ==> cur.moved_from(&orig, k as nat),
            k == 0 ==> cur == orig,
            cur.rest() == s.skip(k as int),
            k <= s.len(),
            result == groups64(s, k as nat),
            scan(s, 0, 10) == scan(s, k as nat, 10),
        decreases 10 - k,
    {
        if !cur.has_atleast(1) {
            return Err(ParseErr::Incomplete);
        }
        let ghost before = cur;
        let read = cur.get_u8();
        proof {
            assert(read == s[k as int]);
            assert(s.skip(k as int).skip(1) =~= s.skip(k + 1));
        }
        result = result | (((read & 0x7f) as u64) << (i as u64));
        if read & 0x80 == 0x00 {
            return Ok((cur, #[verifier::truncate] (result as i64)));
        }
        i = i + 7;
        k = k + 1;
        if i > 64 {
            return Err(ParseErr::Error(VarintParseFail::VarintExceededShift(64)));
        }
    }
}

} // verus!
