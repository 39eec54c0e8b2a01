//! Writing Atari xex files.
//!
//! A xex file starts with the bytes `FF FF`; then each segment is its first
//! address, its last address (both little endian) and its bytes. A segment
//! loaded at `0x02E2` names a routine to call during loading, one loaded at
//! `0x02E0` the routine that starts the program.
use crate::xex::segment::Segment;
use vstd::prelude::*;

verus! {

// ---------------------------------------------------------------------------
// The format
// ---------------------------------------------------------------------------

/// The two bytes of `v`, little endian.
pub open spec fn le16(v: u16) -> Seq<u8> {
    seq![(v % 256) as u8, (v / 256) as u8]
}

/// The header of every xex file.
pub open spec fn xex_header() -> Seq<u8> {
    seq![0xffu8, 0xffu8]
}

/// A segment can be written: it is not empty and ends at `0xFFFF` or below.
pub open spec fn segment_ok(address: u16, contents: Seq<u8>) -> bool {
    contents.len() > 0 && address + contents.len() - 1 <= 0xffff
}

/// The bytes of a segment in a xex file.
pub open spec fn segment_bytes(address: u16, contents: Seq<u8>) -> Seq<u8> {
    le16(address) + le16((address + contents.len() - 1) as u16) + contents
}

/// The address of the routine that runs during loading.
pub open spec fn init_vector() -> u16 {
    0x02e2
}

/// The address of the routine that starts the program.
pub open spec fn run_vector() -> u16 {
    0x02e0
}

// ---------------------------------------------------------------------------
// Reading back
// ---------------------------------------------------------------------------

/// The first segment of `bytes` as a xex loader reads it: the first and
/// the last address, little endian, then the bytes from the first to the last
/// address; with what follows it.
pub open spec fn read_segment(bytes: Seq<u8>) -> Option<(u16, Seq<u8>, Seq<u8>)> {
    if bytes.len() < 4 {
        None
    } else {
        let start = bytes[0] + 256 * bytes[1];
        let end = bytes[2] + 256 * bytes[3];
        if end < start || bytes.len() < 5 + end - start {
            None
        } else {
            Some(
                (
                    start as u16,
                    bytes.subrange(4, 5 + end - start),
                    bytes.skip(5 + end - start),
                ),
            )
        }
    }
}

/// The segments that follow one another in `bytes`.
pub open spec fn read_segments(bytes: Seq<u8>) -> Option<Seq<(u16, Seq<u8>)>>
    decreases bytes.len(),
{
    if bytes.len() == 0 {
        Some(seq![])
    } else {
        match read_segment(bytes) {
            None => None,
            Some((a, c, rest)) => if rest.len() < bytes.len() {
                match read_segments(rest) {
                    None => None,
                    Some(r) => Some(seq![(a, c)] + r),
                }
            } else {
                None
            },
        }
    }
}

/// The segments of a xex file.
pub open spec fn read_xex(bytes: Seq<u8>) -> Option<Seq<(u16, Seq<u8>)>> {
    if bytes.len() >= 2 && bytes.take(2) == xex_header() {
        read_segments(bytes.skip(2))
    } else {
        None
    }
}

/// The bytes of the segments `segs`, one after the other.
pub open spec fn segments_bytes(segs: Seq<(u16, Seq<u8>)>) -> Seq<u8>
    decreases segs.len(),
{
    if segs.len() == 0 {
        seq![]
    } else {
        segment_bytes(segs[0].0, segs[0].1) + segments_bytes(segs.drop_first())
    }
}

/// The xex file holding the segments `segs`.
pub open spec fn xex_image(segs: Seq<(u16, Seq<u8>)>) -> Seq<u8> {
    xex_header() + segments_bytes(segs)
}

/// A segment reads back as it was written, and the reading stops right
/// after it.
pub proof fn lemma_segment_roundtrip(address: u16, contents: Seq<u8>, rest: Seq<u8>)
    requires
        segment_ok(address, contents),
    ensures
        read_segment(segment_bytes(address, contents) + rest) == Some((address, contents, rest)),
{
    let end = (address + contents.len() - 1) as u16;
    let b = segment_bytes(address, contents) + rest;
    assert((address % 256) as u8 + 256 * ((address / 256) as u8) == address) by (bit_vector);
    assert((end % 256) as u8 + 256 * ((end / 256) as u8) == end) by (bit_vector);
    assert(b[0] == (address % 256) as u8);
    assert(b[1] == (address / 256) as u8);
    assert(b[2] == (end % 256) as u8);
    assert(b[3] == (end / 256) as u8);
    assert(b.subrange(4, 5 + end - address) =~= contents);
    assert(b.skip(5 + end - address) =~= rest);
}

/// A xex file reads back as the segments written to it, in order, when
/// each of them could be written.
pub proof fn lemma_xex_roundtrip(segs: Seq<(u16, Seq<u8>)>)
    requires
        forall|i: int| 0 <= i < segs.len() ==> segment_ok(#[trigger] segs[i].0, segs[i].1),
    ensures
        read_xex(xex_image(segs)) == Some(segs),
{
    let img = xex_image(segs);
    assert(img.take(2) =~= xex_header());
    assert(img.skip(2) =~= segments_bytes(segs));
    lemma_segments_roundtrip(segs);
}

/// Writing one more segment appends its bytes to the image: a file made by
/// `new` and one `write_segment` per segment holds `xex_image` of them.
pub proof fn lemma_image_push(segs: Seq<(u16, Seq<u8>)>, address: u16, contents: Seq<u8>)
    ensures
        xex_image(segs.push((address, contents))) == xex_image(segs) + segment_bytes(
            address,
            contents,
        ),
    decreases segs.len(),
{
    lemma_segments_push(segs, address, contents);
    assert(xex_image(segs.push((address, contents))) =~= xex_image(segs) + segment_bytes(
        address,
        contents,
    ));
}

proof fn lemma_segments_push(segs: Seq<(u16, Seq<u8>)>, address: u16, contents: Seq<u8>)
    ensures
        segments_bytes(segs.push((address, contents))) == segments_bytes(segs) + segment_bytes(
            address,
            contents,
        ),
    decreases segs.len(),
{
    let p = segs.push((address, contents));
    if segs.len() == 0 {
        assert(p.drop_first() =~= Seq::<(u16, Seq<u8>)>::empty());
        assert(p[0] == (address, contents));
        assert(segments_bytes(p.drop_first()) == Seq::<u8>::empty());
        assert(segments_bytes(segs) == Seq::<u8>::empty());
        assert(segments_bytes(p) =~= segment_bytes(address, contents));
    } else {
        assert(p.drop_first() =~= segs.drop_first().push((address, contents)));
        lemma_segments_push(segs.drop_first(), address, contents);
        assert(segments_bytes(p) =~= segments_bytes(segs) + segment_bytes(address, contents));
    }
}

proof fn lemma_segments_roundtrip(segs: Seq<(u16, Seq<u8>)>)
    requires
        forall|i: int| 0 <= i < segs.len() ==> segment_ok(#[trigger] segs[i].0, segs[i].1),
    ensures
        read_segments(segments_bytes(segs)) == Some(segs),
    decreases segs.len(),
{
    if segs.len() == 0 {
    } else {
        let t = segs.drop_first();
        assert forall|i: int| 0 <= i < t.len() implies segment_ok(#[trigger] t[i].0, t[i].1) by {
            assert(t[i] == segs[i + 1]);
        }
        assert(segment_ok(segs[0].0, segs[0].1));
        lemma_segments_roundtrip(t);
        let rest = segments_bytes(t);
        lemma_segment_roundtrip(segs[0].0, segs[0].1, rest);
        assert(seq![(segs[0].0, segs[0].1)] + t =~= segs);
    }
}

// ---------------------------------------------------------------------------
// Where the bytes go
// ---------------------------------------------------------------------------

/// The errors reported so far, after a call that gave `r`.
pub open spec fn reported<E>(errors: Seq<E>, r: Result<(), E>) -> Seq<E> {
    match r {
        Ok(()) => errors,
        Err(e) => errors.push(e),
    }
}

/// The writer's errors after a xex operation that gave `r`: a write error
/// is the one error the writer reported, any other result leaves them as
/// they were.
pub open spec fn passed_on<E>(errors: Seq<E>, r: Result<(), XexError<E>>) -> Seq<E> {
    match r {
        Err(XexError::Write(e)) => errors.push(e),
        _ => errors,
    }
}

/// `after` is `before` followed by a first part of `data`.
pub open spec fn wrote_prefix(before: Seq<u8>, after: Seq<u8>, data: Seq<u8>) -> bool {
    exists|k: int| 0 <= k <= data.len() && after == before + data.take(k)
}

/// A first part of `data` written after `done` is a first part of
/// `done + data + more` written after nothing.
proof fn lemma_prefix_extend(
    before: Seq<u8>,
    done: Seq<u8>,
    data: Seq<u8>,
    more: Seq<u8>,
    after: Seq<u8>,
)
    requires
        wrote_prefix(before + done, after, data),
    ensures
        wrote_prefix(before, after, done + data + more),
{
    let k = choose|k: int| 0 <= k <= data.len() && after == before + done + data.take(k);
    let all = done + data + more;
    assert(all.take(done.len() + k) =~= done + data.take(k));
    assert(after =~= before + all.take(done.len() + k));
}

/// A destination for the bytes of a xex file.
pub trait XexWrite {
    /// What a failed write reports.
    type Error;

    /// Everything written so far.
    spec fn written(&self) -> Seq<u8>;

    /// How many of the bytes written so far are known to have reached the
    /// destination itself, past any buffer on the way.
    spec fn delivered(&self) -> nat;

    /// The errors that the failed writes and flushes reported so far, in order.
    spec fn errors(&self) -> Seq<Self::Error>;

    /// Whether every write and flush of this destination succeeds; a
    /// destination that does not say so may fail.
    open spec fn never_fails() -> bool {
        false
    }

    /// Writes all of `data`; where it fails, a first part of `data` may
    /// have been written.
    fn write_all(&mut self, data: &[u8]) -> (r: Result<(), Self::Error>)
        ensures
            Self::never_fails() ==> r is Ok,
            r is Ok ==> final(self).written() == old(self).written() + data@,
            r is Err ==> wrote_prefix(old(self).written(), final(self).written(), data@),
            final(self).errors() == reported(old(self).errors(), r),
    ;

    /// Flushes what was written: afterwards all of it has reached the
    /// destination.
    fn flush(&mut self) -> (r: Result<(), Self::Error>)
        ensures
            Self::never_fails() ==> r is Ok,
            final(self).written() == old(self).written(),
            r is Ok ==> final(self).delivered() == final(self).written().len(),
            final(self).errors() == reported(old(self).errors(), r),
    ;
}

/// Writing to memory never fails.
impl XexWrite for Vec<u8> {
    type Error = ();

    open spec fn written(&self) -> Seq<u8> {
        self@
    }

    /// Memory is the destination itself.
    open spec fn delivered(&self) -> nat {
        self@.len()
    }

    open spec fn errors(&self) -> Seq<()> {
        Seq::empty()
    }

    open spec fn never_fails() -> bool {
        true
    }

    fn write_all(&mut self, data: &[u8]) -> (r: Result<(), ()>)
        ensures
            r is Ok,
    {
        let mut i: usize = 0;
        let ghost start = self@;
        while i < data.len()
            invariant
                i <= data@.len(),
                self@ == start + data@.take(i as int),
            decreases data@.len() - i,
        {
            self.push(data[i]);
            proof {
                assert(data@.take(i + 1) =~= data@.take(i as int).push(data@[i as int]));
                assert(self@ =~= start + data@.take(i + 1));
            }
            i += 1;
        }
        proof {
            assert(data@.take(data@.len() as int) =~= data@);
        }
        Ok(())
    }

    fn flush(&mut self) -> (r: Result<(), ()>)
        ensures
            r is Ok,
    {
        Ok(())
    }
}

impl<'a, W: XexWrite> XexWrite for &'a mut W {
    type Error = W::Error;

    open spec fn written(&self) -> Seq<u8> {
        (**self).written()
    }

    open spec fn delivered(&self) -> nat {
        (**self).delivered()
    }

    open spec fn errors(&self) -> Seq<W::Error> {
        (**self).errors()
    }

    /// A borrowed destination fails only where the destination it borrows can.
    open spec fn never_fails() -> bool {
        W::never_fails()
    }

    fn write_all(&mut self, data: &[u8]) -> (r: Result<(), W::Error>) {
        (**self).write_all(data)
    }

    fn flush(&mut self) -> (r: Result<(), W::Error>) {
        (**self).flush()
    }
}

/// Why a xex file could not be written.
#[derive(Debug)]
pub enum XexError<E> {
    /// The segment is either empty or exceeds `0xFFFF`.
    InvalidSegment,
    /// The destination failed.
    Write(E),
}

// ---------------------------------------------------------------------------
// The writer
// ---------------------------------------------------------------------------

/// A xex writer.
pub struct XexFile<W> {
    /// Where the bytes go.
    pub file: W,
}

impl<W: XexWrite> XexFile<W> {
    /// Everything written to the file so far.
    pub open spec fn bytes(&self) -> Seq<u8> {
        self.file.written()
    }

    fn write_header(&mut self) -> (r: Result<(), XexError<W::Error>>)
        ensures
            W::never_fails() ==> r is Ok,
            r is Ok ==> final(self).bytes() == old(self).bytes() + xex_header(),
            r matches Err(e) ==> e is Write && wrote_prefix(
                old(self).bytes(),
                final(self).bytes(),
                xex_header(),
            ),
            final(self).file.errors() == passed_on(old(self).file.errors(), r),
    {
        let header: [u8; 2] = [0xff, 0xff];
        proof {
            assert(header@ =~= xex_header());
        }
        match self.file.write_all(header.as_slice()) {
            Ok(()) => Ok(()),
            Err(e) => Err(XexError::Write(e)),
        }
    }

    /// Create a xex file in a owned stream.
    pub fn owned_stream(file: W) -> (r: Result<XexFile<W>, XexError<W::Error>>)
        ensures
            W::never_fails() ==> r is Ok,
            r matches Ok(x) ==> x.bytes() == file.written() + xex_header() && x.file.errors()
                == file.errors(),
            r matches Err(e) ==> e is Write,
    {
        let mut x = XexFile { file };
        match x.write_header() {
            Ok(()) => Ok(x),
            Err(e) => Err(e),
        }
    }

    /// Write a segment.
    ///
    /// Fails, writing nothing, where the segment is either empty or exceeds
    /// `0xFFFF`.
    pub fn write_segment<S: Segment>(&mut self, segment: &S) -> (r: Result<(), XexError<W::Error>>)
        ensures
            !segment_ok(segment.spec_address(), segment.spec_contents()) ==> (r matches Err(e)
                && e is InvalidSegment && final(self).bytes() == old(self).bytes()),
            segment_ok(segment.spec_address(), segment.spec_contents()) ==> match r {
                Ok(()) => final(self).bytes() == old(self).bytes() + segment_bytes(
                    segment.spec_address(),
                    segment.spec_contents(),
                ),
                Err(e) => e is Write && wrote_prefix(
                    old(self).bytes(),
                    final(self).bytes(),
                    segment_bytes(segment.spec_address(), segment.spec_contents()),
                ),
            },
            segment_ok(segment.spec_address(), segment.spec_contents()) && W::never_fails()
                ==> r is Ok,
            final(self).file.errors() == passed_on(old(self).file.errors(), r),
    {
        let address = segment.address();
        let contents = segment.contents();
        let n = contents.len();
        if n == 0 || n - 1 > (0xffff - address) as usize {
            return Err(XexError::InvalidSegment);
        }
        let end = (address as usize + (n - 1)) as u16;
        let head: [u8; 2] = [(address % 256) as u8, (address / 256) as u8];
        let tail: [u8; 2] = [(end % 256) as u8, (end / 256) as u8];
        proof {
            assert(head@ =~= le16(address));
            assert(tail@ =~= le16((address + n - 1) as u16));
        }
        let ghost before = self.bytes();
        let ghost all = segment_bytes(address, contents@);
        proof {
            assert(all =~= head@ + tail@ + contents@);
        }
        match self.file.write_all(head.as_slice()) {
            Ok(()) => {},
            Err(e) => {
                proof {
                    assert(before + Seq::<u8>::empty() =~= before);
                    lemma_prefix_extend(before, seq![], head@, tail@ + contents@, self.bytes());
                    assert(Seq::<u8>::empty() + head@ + (tail@ + contents@) =~= all);
                }
                return Err(XexError::Write(e));
            },
        }
        match self.file.write_all(tail.as_slice()) {
            Ok(()) => {},
            Err(e) => {
                proof {
                    lemma_prefix_extend(before, head@, tail@, contents@, self.bytes());
                }
                return Err(XexError::Write(e));
            },
        }
        match self.file.write_all(contents) {
            Ok(()) => {},
            Err(e) => {
                proof {
                    assert(before + head@ + tail@ =~= before + (head@ + tail@));
                    lemma_prefix_extend(before, head@ + tail@, contents@, seq![], self.bytes());
                    assert(head@ + tail@ + contents@ + Seq::<u8>::empty() =~= all);
                }
                return Err(XexError::Write(e));
            },
        }
        proof {
            assert(self.bytes() =~= old(self).bytes() + segment_bytes(address, contents@));
        }
        Ok(())
    }

    /// Call a init function.
    pub fn init(&mut self, addr: u16) -> (r: Result<(), XexError<W::Error>>)
        ensures
            match r {
                Ok(()) => final(self).bytes() == old(self).bytes() + segment_bytes(
                    init_vector(),
                    le16(addr),
                ),
                Err(e) => e is Write && wrote_prefix(
                    old(self).bytes(),
                    final(self).bytes(),
                    segment_bytes(init_vector(), le16(addr)),
                ),
            },
            W::never_fails() ==> r is Ok,
            final(self).file.errors() == passed_on(old(self).file.errors(), r),
    {
        let bytes: [u8; 2] = [(addr % 256) as u8, (addr / 256) as u8];
        proof {
            assert(bytes@ =~= le16(addr));
        }
        self.write_segment(&(0x02e2u16, &bytes))
    }

    /// Call the run function.
    ///
    /// This returns the underlying file type, most useful to
    /// acquire the `Vec<u8>` from [`Self::new`].
    pub fn run(self, addr: u16) -> (r: Result<W, XexError<W::Error>>)
        ensures
            match r {
                Ok(w) => w.written() == self.bytes() + segment_bytes(run_vector(), le16(addr))
                    && w.delivered() == w.written().len() && w.errors() == self.file.errors(),
                Err(e) => e is Write,
            },
            W::never_fails() ==> r is Ok,
    {
        let mut this = self;
        let bytes: [u8; 2] = [(addr % 256) as u8, (addr / 256) as u8];
        proof {
            assert(bytes@ =~= le16(addr));
        }
        match this.write_segment(&(0x02e0u16, &bytes)) {
            Ok(()) => {},
            Err(e) => {
                return Err(e);
            },
        }
        match this.file.flush() {
            Ok(()) => {},
            Err(e) => {
                return Err(XexError::Write(e));
            },
        }
        Ok(this.file)
    }
}

impl<'a, W: XexWrite> XexFile<&'a mut W> {
    /// Create a xex file in a stream.
    pub fn stream(file: &'a mut W) -> (r: Result<XexFile<&'a mut W>, XexError<W::Error>>)
        ensures
            W::never_fails() ==> r is Ok,
            r matches Ok(x) ==> x.bytes() == old(file).written() + xex_header()
                && x.file.errors() == old(file).errors() && *final(x.file) == *final(file),
            r matches Err(e) ==> e is Write,
    {
        let header: [u8; 2] = [0xff, 0xff];
        proof {
            assert(header@ =~= xex_header());
        }
        match file.write_all(header.as_slice()) {
            Ok(()) => Ok(XexFile { file }),
            Err(e) => Err(XexError::Write(e)),
        }
    }
}

impl XexFile<Vec<u8>> {
    /// Create a xex file in ram.
    pub fn new() -> (r: XexFile<Vec<u8>>)
        ensures
            r.bytes() == xex_header(),
    {
        let mut file = XexFile { file: Vec::new() };
        let header: [u8; 2] = [0xff, 0xff];
        let _ = file.file.write_all(header.as_slice());
        proof {
            assert(file.file@ =~= xex_header());
        }
        file
    }
}

} // verus!
