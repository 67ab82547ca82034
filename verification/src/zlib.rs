use flate2::Compress;
use flate2::Decompress;
use vstd::prelude::*;

verus! {

/// The failures that zlib reports, by its own names.
#[derive(Debug, PartialEq, Eq, Clone, Copy)]
pub enum ZLibError {
    Errno,
    StreamError,
    DataError,
    MemError,
    BufError,
    VersionError,
}

impl ZLibError {
    /// The return code by which zlib reports this failure.
    pub open spec fn code_spec(self) -> int {
        match self {
            ZLibError::Errno => -1,
            ZLibError::StreamError => -2,
            ZLibError::DataError => -3,
            ZLibError::MemError => -4,
            ZLibError::BufError => -5,
            ZLibError::VersionError => -6,
        }
    }

    /// The return code by which zlib reports this failure.
    pub fn code(self) -> (c: i32)
        ensures
            c == self.code_spec(),
    {
        match self {
            ZLibError::Errno => -1,
            ZLibError::StreamError => -2,
            ZLibError::DataError => -3,
            ZLibError::MemError => -4,
            ZLibError::BufError => -5,
            ZLibError::VersionError => -6,
        }
    }

    /// The failure that a zlib return code stands for; none for a code that
    /// reports no failure.
    pub fn lookup(i: i32) -> (r: Option<ZLibError>)
        ensures
            -6 <= i <= -1 ==> r is Some && r->0.code_spec() == i,
            !(-6 <= i <= -1) ==> r is None,
    {
        match i {
            -1 => Some(ZLibError::Errno),
            -2 => Some(ZLibError::StreamError),
            -3 => Some(ZLibError::DataError),
            -4 => Some(ZLibError::MemError),
            -5 => Some(ZLibError::BufError),
            -6 => Some(ZLibError::VersionError),
            _ => None,
        }
    }
}

/// How much pending output a call should force out.
#[derive(Debug, PartialEq, Eq, Clone, Copy)]
pub enum FlushMode {
    NoFlush,
    PartialFlush,
    SyncFlush,
    FullFlush,
    Finish,
    Block,
    Trees,
}

/// What one call of a zlib stream did.
#[derive(Debug, PartialEq, Eq, Clone, Copy)]
pub struct Progress {
    /// Bytes taken from the front of the input.
    pub consumed: usize,
    /// Bytes written to the front of the output.
    pub produced: usize,
    /// The failure reported, if any.
    pub error: Option<ZLibError>,
}

/// A zlib stream, inflating or deflating. Each call sees one flat slice of
/// input and one of output.
pub trait ZlibOperator {
    /// Every byte taken as input since the stream was made or last reset. A
    /// kind of stream that keeps no account is taken to have taken nothing.
    open spec fn taken(&self) -> Seq<u8> {
        Seq::empty()
    }

    /// Every byte written as output since the stream was made or last reset.
    open spec fn given(&self) -> Seq<u8> {
        Seq::empty()
    }

    /// Every call of [`ZlibOperator::process`] since the stream was made or
    /// last reset, in order: the flush mode asked for, and what the call did.
    open spec fn calls(&self) -> Seq<(FlushMode, Progress)> {
        Seq::empty()
    }

    /// Puts the stream back to its initial state.
    fn reset(&mut self)
        ensures
            final(self).taken() == Seq::<u8>::empty(),
            final(self).given() == Seq::<u8>::empty(),
            final(self).calls() == Seq::<(FlushMode, Progress)>::empty(),
    ;

    /// Takes bytes from the front of `input` and writes bytes to the front of
    /// `output`, as many of each as the stream sees fit.
    fn process(&mut self, input: &[u8], output: &mut [u8], flush: FlushMode) -> (p: Progress)
        ensures
            p.consumed <= input@.len(),
            p.produced <= old(output)@.len(),
            final(output)@.len() == old(output)@.len(),
            final(self).taken() == old(self).taken() + input@.take(p.consumed as int),
            final(self).given() == old(self).given() + final(output)@.take(p.produced as int),
            final(self).calls() == old(self).calls().push((flush, p)),
    ;
}

/// `flate2::Decompress`: an inflating stream of zlib, opaque.
#[verifier::external_type_specification]
#[verifier::external_body]
pub struct ExDecompress(flate2::Decompress);

/// `flate2::Compress`: a deflating stream of zlib, opaque.
#[verifier::external_type_specification]
#[verifier::external_body]
pub struct ExCompress(flate2::Compress);

/// The count of input bytes that a `flate2::Decompress` keeps.
pub uninterp spec fn decompress_total_in(d: Decompress) -> nat;

/// The count of output bytes that a `flate2::Decompress` keeps.
pub uninterp spec fn decompress_total_out(d: Decompress) -> nat;

/// The count of input bytes that a `flate2::Compress` keeps.
pub uninterp spec fn compress_total_in(c: Compress) -> nat;

/// The count of output bytes that a `flate2::Compress` keeps.
pub uninterp spec fn compress_total_out(c: Compress) -> nat;

/// The flush modes that an outside deflating stream knows.
#[derive(Clone, Copy)]
enum Flush {
    Lazy,
    Partial,
    Sync,
    Full,
    Finish,
}

/// The flush modes that an outside inflating stream knows.
#[derive(Clone, Copy)]
enum InflateFlush {
    Lazy,
    Sync,
    Finish,
}

/// How a call of an outside stream ended.
#[derive(Clone, Copy)]
enum StepStatus {
    Done,
    BufError,
    StreamEnd,
    Failed,
}

/// `flate2::Decompress::new` with a zlib header expected: a fresh stream,
/// both counts zero.
#[verifier::external_body]
fn decompress_new() -> (d: Decompress)
    ensures
        decompress_total_in(d) == 0,
        decompress_total_out(d) == 0,
{
    Decompress::new(true)
}

/// `flate2::Decompress::total_in`: the count of input bytes.
#[verifier::external_body]
fn decompress_in(d: &Decompress) -> (n: u64)
    ensures
        n == decompress_total_in(*d),
{
    d.total_in()
}

/// `flate2::Decompress::total_out`: the count of output bytes.
#[verifier::external_body]
fn decompress_out(d: &Decompress) -> (n: u64)
    ensures
        n == decompress_total_out(*d),
{
    d.total_out()
}

/// `flate2::Decompress::reset` with a zlib header expected: both counts go
/// back to zero.
#[verifier::external_body]
fn decompress_reset(d: &mut Decompress)
    ensures
        decompress_total_in(*final(d)) == 0,
        decompress_total_out(*final(d)) == 0,
{
    d.reset(true)
}

/// `flate2::Decompress::decompress`: each count grows by what the call took
/// from `input` and wrote to `output`, which is at most their lengths; the
/// length of `output` stays. The counts are 64-bit and must have room.
#[verifier::external_body]
fn decompress_step(
    d: &mut Decompress,
    input: &[u8],
    output: &mut [u8],
    flush: InflateFlush,
) -> (st: StepStatus)
    requires
        decompress_total_in(*old(d)) + input@.len() <= u64::MAX,
        decompress_total_out(*old(d)) + old(output)@.len() <= u64::MAX,
    ensures
        decompress_total_in(*old(d)) <= decompress_total_in(*final(d)) <= decompress_total_in(
            *old(d),
        ) + input@.len(),
        decompress_total_out(*old(d)) <= decompress_total_out(*final(d)) <= decompress_total_out(
            *old(d),
        ) + old(output)@.len(),
        final(output)@.len() == old(output)@.len(),
{
    let f = match flush {
        InflateFlush::Lazy => flate2::FlushDecompress::None,
        InflateFlush::Sync => flate2::FlushDecompress::Sync,
        InflateFlush::Finish => flate2::FlushDecompress::Finish,
    };
    match d.decompress(input, output, f) {
        Ok(flate2::Status::Ok) => StepStatus::Done,
        Ok(flate2::Status::BufError) => StepStatus::BufError,
        Ok(flate2::Status::StreamEnd) => StepStatus::StreamEnd,
        Err(_) => StepStatus::Failed,
    }
}

/// `flate2::Compress::new` with a zlib header: a fresh stream, both counts
/// zero. The outside function panics where zlib refuses the level, which it
/// does above 9.
#[verifier::external_body]
fn compress_new(level: u32) -> (c: Compress)
    requires
        level <= 9,
    ensures
        compress_total_in(c) == 0,
        compress_total_out(c) == 0,
{
    Compress::new(flate2::Compression::new(level), true)
}

/// `flate2::Compress::total_in`: the count of input bytes.
#[verifier::external_body]
fn compress_in(c: &Compress) -> (n: u64)
    ensures
        n == compress_total_in(*c),
{
    c.total_in()
}

/// `flate2::Compress::total_out`: the count of output bytes.
#[verifier::external_body]
fn compress_out(c: &Compress) -> (n: u64)
    ensures
        n == compress_total_out(*c),
{
    c.total_out()
}

/// `flate2::Compress::reset`: both counts go back to zero.
#[verifier::external_body]
fn compress_reset(c: &mut Compress)
    ensures
        compress_total_in(*final(c)) == 0,
        compress_total_out(*final(c)) == 0,
{
    c.reset()
}

/// `flate2::Compress::compress`: each count grows by what the call took from
/// `input` and wrote to `output`, which is at most their lengths; the length
/// of `output` stays. The counts are 64-bit and must have room.
#[verifier::external_body]
fn compress_step(c: &mut Compress, input: &[u8], output: &mut [u8], flush: Flush) -> (st:
    StepStatus)
    requires
        compress_total_in(*old(c)) + input@.len() <= u64::MAX,
        compress_total_out(*old(c)) + old(output)@.len() <= u64::MAX,
    ensures
        compress_total_in(*old(c)) <= compress_total_in(*final(c)) <= compress_total_in(*old(c))
            + input@.len(),
        compress_total_out(*old(c)) <= compress_total_out(*final(c)) <= compress_total_out(
            *old(c),
        ) + old(output)@.len(),
        final(output)@.len() == old(output)@.len(),
{
    let f = match flush {
        Flush::Lazy => flate2::FlushCompress::None,
        Flush::Partial => flate2::FlushCompress::Partial,
        Flush::Sync => flate2::FlushCompress::Sync,
        Flush::Full => flate2::FlushCompress::Full,
        Flush::Finish => flate2::FlushCompress::Finish,
    };
    match c.compress(input, output, f) {
        Ok(flate2::Status::Ok) => StepStatus::Done,
        Ok(flate2::Status::BufError) => StepStatus::BufError,
        Ok(flate2::Status::StreamEnd) => StepStatus::StreamEnd,
        Err(_) => StepStatus::Failed,
    }
}

/// The failure, if any, that the end of a call amounts to: no progress being
/// possible is a buffer error, and a refusal by an inflating stream is a data
/// error, by a deflating one a stream error.
fn step_error(st: StepStatus, inflating: bool) -> (e: Option<ZLibError>)
    ensures
        e == match st {
            StepStatus::Done => None,
            StepStatus::StreamEnd => None,
            StepStatus::BufError => Some(ZLibError::BufError),
            StepStatus::Failed => Some(
                if inflating {
                    ZLibError::DataError
                } else {
                    ZLibError::StreamError
                },
            ),
        },
{
    match st {
        StepStatus::Done => None,
        StepStatus::StreamEnd => None,
        StepStatus::BufError => Some(ZLibError::BufError),
        StepStatus::Failed => Some(
            if inflating {
                ZLibError::DataError
            } else {
                ZLibError::StreamError
            },
        ),
    }
}

/// The flush mode to hand to an outside deflating stream: the mode of the
/// same name; none for the two modes that it does not have.
fn flush_of(flush: FlushMode) -> (f: Option<Flush>)
    ensures
        f == match flush {
            FlushMode::NoFlush => Some(Flush::Lazy),
            FlushMode::PartialFlush => Some(Flush::Partial),
            FlushMode::SyncFlush => Some(Flush::Sync),
            FlushMode::FullFlush => Some(Flush::Full),
            FlushMode::Finish => Some(Flush::Finish),
            FlushMode::Block => None::<Flush>,
            FlushMode::Trees => None::<Flush>,
        },
{
    match flush {
        FlushMode::NoFlush => Some(Flush::Lazy),
        FlushMode::PartialFlush => Some(Flush::Partial),
        FlushMode::SyncFlush => Some(Flush::Sync),
        FlushMode::FullFlush => Some(Flush::Full),
        FlushMode::Finish => Some(Flush::Finish),
        FlushMode::Block => None,
        FlushMode::Trees => None,
    }
}

/// The flush mode to hand to an outside inflating stream, which knows three:
/// the partial and the full mode go as the one that syncs, as zlib treats
/// them when it inflates; none for the two modes that the stream cannot be
/// asked for.
fn inflate_flush_of(flush: FlushMode) -> (f: Option<InflateFlush>)
    ensures
        f == match flush {
            FlushMode::NoFlush => Some(InflateFlush::Lazy),
            FlushMode::PartialFlush => Some(InflateFlush::Sync),
            FlushMode::SyncFlush => Some(InflateFlush::Sync),
            FlushMode::FullFlush => Some(InflateFlush::Sync),
            FlushMode::Finish => Some(InflateFlush::Finish),
            FlushMode::Block => None::<InflateFlush>,
            FlushMode::Trees => None::<InflateFlush>,
        },
{
    match flush {
        FlushMode::NoFlush => Some(InflateFlush::Lazy),
        FlushMode::PartialFlush => Some(InflateFlush::Sync),
        FlushMode::SyncFlush => Some(InflateFlush::Sync),
        FlushMode::FullFlush => Some(InflateFlush::Sync),
        FlushMode::Finish => Some(InflateFlush::Finish),
        FlushMode::Block => None,
        FlushMode::Trees => None,
    }
}

/// What a stream has handed to zlib in one call.
pub struct Handed {
    /// The flush mode, by the name that the stream's callers have for it.
    pub flush: FlushMode,
    /// The input.
    pub input: Seq<u8>,
    /// The number of bytes that there was room for in the output.
    pub room: nat,
}

/// The flush mode that an inflating stream hands to zlib when it is asked
/// for `flush`: zlib inflates under a partial and under a full flush as it
/// does under a sync flush.
pub open spec fn inflating_mode(flush: FlushMode) -> FlushMode {
    match flush {
        FlushMode::PartialFlush => FlushMode::SyncFlush,
        FlushMode::FullFlush => FlushMode::SyncFlush,
        other => other,
    }
}

/// The name that the stream's callers have for a flush mode of an outside
/// deflating stream.
spec fn mode_of(f: Flush) -> FlushMode {
    match f {
        Flush::Lazy => FlushMode::NoFlush,
        Flush::Partial => FlushMode::PartialFlush,
        Flush::Sync => FlushMode::SyncFlush,
        Flush::Full => FlushMode::FullFlush,
        Flush::Finish => FlushMode::Finish,
    }
}

/// The name that the stream's callers have for a flush mode of an outside
/// inflating stream.
spec fn inflate_mode_of(f: InflateFlush) -> FlushMode {
    match f {
        InflateFlush::Lazy => FlushMode::NoFlush,
        InflateFlush::Sync => FlushMode::SyncFlush,
        InflateFlush::Finish => FlushMode::Finish,
    }
}

/// What a stream answers to a call that it refuses before zlib sees it:
/// nothing taken, nothing written, a stream error.
pub open spec fn refusal() -> Progress {
    Progress { consumed: 0, produced: 0, error: Some(ZLibError::StreamError) }
}

/// Whether a stream refuses a call before zlib sees it: the flush mode is one
/// that it cannot be asked for, or its 64-bit counts of bytes, which stand at
/// `counted_in` and `counted_out`, have no room for the slices.
pub open spec fn refused(
    flush: FlushMode,
    counted_in: nat,
    counted_out: nat,
    input_len: nat,
    output_len: nat,
) -> bool {
    ||| flush is Block
    ||| flush is Trees
    ||| counted_in + input_len > u64::MAX
    ||| counted_out + output_len > u64::MAX
}

/// A stream that inflates zlib data.
pub struct Inflate {
    strm: Decompress,
    taken: Ghost<Seq<u8>>,
    given: Ghost<Seq<u8>>,
    calls: Ghost<Seq<(FlushMode, Progress)>>,
    handed: Ghost<Seq<Handed>>,
}

/// A stream that deflates into zlib data.
pub struct Deflate {
    strm: Compress,
    taken: Ghost<Seq<u8>>,
    given: Ghost<Seq<u8>>,
    calls: Ghost<Seq<(FlushMode, Progress)>>,
    handed: Ghost<Seq<Handed>>,
}

impl Inflate {
    /// The count of input bytes that the stream keeps.
    pub closed spec fn counted_in(&self) -> nat {
        decompress_total_in(self.strm)
    }

    /// The count of output bytes that the stream keeps.
    pub closed spec fn counted_out(&self) -> nat {
        decompress_total_out(self.strm)
    }

    /// The calls of zlib that the stream has made since it was made or last
    /// reset, in order, each with what was handed to zlib.
    pub closed spec fn handed(&self) -> Seq<Handed> {
        self.handed@
    }

    /// A fresh inflating stream.
    pub fn new() -> (r: Result<Inflate, ZLibError>)
        ensures
            r matches Ok(z) && z.taken() == Seq::<u8>::empty() && z.given() == Seq::<u8>::empty()
                && z.calls() == Seq::<(FlushMode, Progress)>::empty() && z.counted_in() == 0
                && z.counted_out() == 0 && z.handed() == Seq::<Handed>::empty(),
    {
        Ok(
            Inflate {
                strm: decompress_new(),
                taken: Ghost(Seq::empty()),
                given: Ghost(Seq::empty()),
                calls: Ghost(Seq::empty()),
                handed: Ghost(Seq::empty()),
            },
        )
    }
}

impl ZlibOperator for Inflate {
    closed spec fn taken(&self) -> Seq<u8> {
        self.taken@
    }

    closed spec fn given(&self) -> Seq<u8> {
        self.given@
    }

    closed spec fn calls(&self) -> Seq<(FlushMode, Progress)> {
        self.calls@
    }

    fn reset(&mut self)
        ensures
            final(self).counted_in() == 0,
            final(self).counted_out() == 0,
            final(self).handed() == Seq::<Handed>::empty(),
    {
        decompress_reset(&mut self.strm);
        self.taken = Ghost(Seq::empty());
        self.given = Ghost(Seq::empty());
        self.calls = Ghost(Seq::empty());
        self.handed = Ghost(Seq::empty());
    }

    /// A call with a flush mode that the stream cannot be asked for, or with
    /// slices that its counts have no room for, is refused: nothing is taken
    /// or written, and the counts stay. Any other call goes to zlib, with the
    /// flush mode that stands for the one asked for, and the counts grow by
    /// what it took and wrote.
    fn process(&mut self, input: &[u8], output: &mut [u8], flush: FlushMode) -> (p: Progress)
        ensures
            refused(
                flush,
                old(self).counted_in(),
                old(self).counted_out(),
                input@.len(),
                old(output)@.len(),
            ) ==> p == refusal() && final(self).counted_in() == old(self).counted_in()
                && final(self).counted_out() == old(self).counted_out() && final(output)@ == old(output)@
                && final(self).handed() == old(self).handed(),
            !refused(
                flush,
                old(self).counted_in(),
                old(self).counted_out(),
                input@.len(),
                old(output)@.len(),
            ) ==> final(self).counted_in() == old(self).counted_in() + p.consumed && final(self).counted_out() == old(self).counted_out() + p.produced
                && final(self).handed() == old(self).handed().push(
                Handed { flush: inflating_mode(flush), input: input@, room: old(output)@.len() },
            ),
    {
        let in_before = decompress_in(&self.strm);
        let out_before = decompress_out(&self.strm);
        let mode = inflate_flush_of(flush);
        if mode.is_none() || input.len() as u64 > u64::MAX - in_before || output.len() as u64
            > u64::MAX - out_before {
            let p = Progress { consumed: 0, produced: 0, error: Some(ZLibError::StreamError) };
            proof {
                assert(self.taken@ + input@.take(0) =~= self.taken@);
                assert(self.given@ + output@.take(0) =~= self.given@);
                self.calls@ = self.calls@.push((flush, p));
            }
            return p;
        }
        proof {
            self.handed@ = self.handed@.push(
                Handed {
                    flush: inflate_mode_of(mode.unwrap()),
                    input: input@,
                    room: output@.len(),
                },
            );
        }
        let st = decompress_step(&mut self.strm, input, output, mode.unwrap());
        let consumed = (decompress_in(&self.strm) - in_before) as usize;
        let produced = (decompress_out(&self.strm) - out_before) as usize;
        let p = Progress { consumed, produced, error: step_error(st, true) };
        proof {
            self.taken@ = self.taken@ + input@.take(consumed as int);
            self.given@ = self.given@ + output@.take(produced as int);
            self.calls@ = self.calls@.push((flush, p));
        }
        p
    }
}

impl Deflate {
    /// The count of input bytes that the stream keeps.
    pub closed spec fn counted_in(&self) -> nat {
        compress_total_in(self.strm)
    }

    /// The count of output bytes that the stream keeps.
    pub closed spec fn counted_out(&self) -> nat {
        compress_total_out(self.strm)
    }

    /// The calls of zlib that the stream has made since it was made or last
    /// reset, in order, each with what was handed to zlib.
    pub closed spec fn handed(&self) -> Seq<Handed> {
        self.handed@
    }

    /// A fresh deflating stream of the given level, 0 to 9, or -1 for the
    /// default level. Any other level is a stream error.
    pub fn new(level: i32) -> (r: Result<Deflate, ZLibError>)
        ensures
            -1 <= level <= 9 ==> (r matches Ok(z) && z.taken() == Seq::<u8>::empty() && z.given()
                == Seq::<u8>::empty() && z.calls() == Seq::<(FlushMode, Progress)>::empty()
                && z.counted_in() == 0 && z.counted_out() == 0 && z.handed() == Seq::<Handed>::empty()),
            !(-1 <= level <= 9) ==> (r matches Err(e) && e == ZLibError::StreamError),
    {
        if level < -1 || level > 9 {
            return Err(ZLibError::StreamError);
        }
        let lv: u32 = if level == -1 {
            6
        } else {
            level as u32
        };
        Ok(
            Deflate {
                strm: compress_new(lv),
                taken: Ghost(Seq::empty()),
                given: Ghost(Seq::empty()),
                calls: Ghost(Seq::empty()),
                handed: Ghost(Seq::empty()),
            },
        )
    }
}

impl ZlibOperator for Deflate {
    closed spec fn taken(&self) -> Seq<u8> {
        self.taken@
    }

    closed spec fn given(&self) -> Seq<u8> {
        self.given@
    }

    closed spec fn calls(&self) -> Seq<(FlushMode, Progress)> {
        self.calls@
    }

    fn reset(&mut self)
        ensures
            final(self).counted_in() == 0,
            final(self).counted_out() == 0,
            final(self).handed() == Seq::<Handed>::empty(),
    {
        compress_reset(&mut self.strm);
        self.taken = Ghost(Seq::empty());
        self.given = Ghost(Seq::empty());
        self.calls = Ghost(Seq::empty());
        self.handed = Ghost(Seq::empty());
    }

    /// A call with a flush mode that the stream cannot be asked for, or with
    /// slices that its counts have no room for, is refused: nothing is taken
    /// or written, and the counts stay. Any other call goes to zlib, with the
    /// flush mode of the same name, and the counts grow by what it took and
    /// wrote.
    fn process(&mut self, input: &[u8], output: &mut [u8], flush: FlushMode) -> (p: Progress)
        ensures
            refused(
                flush,
                old(self).counted_in(),
                old(self).counted_out(),
                input@.len(),
                old(output)@.len(),
            ) ==> p == refusal() && final(self).counted_in() == old(self).counted_in()
                && final(self).counted_out() == old(self).counted_out() && final(output)@ == old(output)@
                && final(self).handed() == old(self).handed(),
            !refused(
                flush,
                old(self).counted_in(),
                old(self).counted_out(),
                input@.len(),
                old(output)@.len(),
            ) ==> final(self).counted_in() == old(self).counted_in() + p.consumed && final(self).counted_out() == old(self).counted_out() + p.produced
                && final(self).handed() == old(self).handed().push(
                Handed { flush, input: input@, room: old(output)@.len() },
            ),
    {
        let in_before = compress_in(&self.strm);
        let out_before = compress_out(&self.strm);
        let mode = flush_of(flush);
        if mode.is_none() || input.len() as u64 > u64::MAX - in_before || output.len() as u64
            > u64::MAX - out_before {
            let p = Progress { consumed: 0, produced: 0, error: Some(ZLibError::StreamError) };
            proof {
                assert(self.taken@ + input@.take(0) =~= self.taken@);
                assert(self.given@ + output@.take(0) =~= self.given@);
                self.calls@ = self.calls@.push((flush, p));
            }
            return p;
        }
        proof {
            self.handed@ = self.handed@.push(
                Handed { flush: mode_of(mode.unwrap()), input: input@, room: output@.len() },
            );
        }
        let st = compress_step(&mut self.strm, input, output, mode.unwrap());
        let consumed = (compress_in(&self.strm) - in_before) as usize;
        let produced = (compress_out(&self.strm) - out_before) as usize;
        let p = Progress { consumed, produced, error: step_error(st, false) };
        proof {
            self.taken@ = self.taken@ + input@.take(consumed as int);
            self.given@ = self.given@ + output@.take(produced as int);
            self.calls@ = self.calls@.push((flush, p));
        }
        p
    }
}

} // verus!
