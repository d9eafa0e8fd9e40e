//! The streaming frame reader: one growable buffer and two cursors that turn
//! reads of any size into complete frames, and the client that pairs it with
//! a byte stream.
use crate::frame::{
    is_frame, lemma_header_agree, parse_spec, push_bytes, Frame, WsParsingError, MAX_HEADER_SIZE,
};
use vstd::prelude::*;

verus! {

/// The buffer size a reader starts with.
pub const INITIAL_BUFFER_SIZE: usize = 4096;

/// Where a complete frame lies in a reader's buffer.
#[derive(Debug, Clone, Copy, PartialEq, Eq, Structural)]
pub struct FrameSpan {
    pub start: usize,
    pub len: usize,
}

/// The stream ended with no more bytes to give.
#[derive(Debug, Clone, Copy, PartialEq, Eq, Structural)]
pub struct UnexpectedEof;

/// The buffer holds valid bytes up to `read_head`; the next frame starts at
/// `parse_head`; bytes before `parse_head` are free to overwrite.
pub struct FrameReader {
    buffer: Vec<u8>,
    read_head: usize,
    parse_head: usize,
}

impl FrameReader {
    /// The cursors are ordered inside the buffer, and the buffer can hold
    /// any header.
    pub closed spec fn wf(self) -> bool {
        &&& self.parse_head <= self.read_head <= self.buffer@.len()
        &&& self.buffer@.len() >= MAX_HEADER_SIZE
    }

    /// The bytes received and not yet handed out as frames.
    pub closed spec fn pending(self) -> Seq<u8> {
        self.buffer@.subrange(self.parse_head as int, self.read_head as int)
    }

    /// The size of the buffer.
    pub closed spec fn capacity(self) -> int {
        self.buffer@.len() as int
    }

    /// How many bytes the next read may bring in.
    pub closed spec fn spare(self) -> int {
        self.buffer@.len() - self.read_head
    }

    /// The bytes that lie at `span` in the buffer.
    pub closed spec fn bytes_at(self, span: FrameSpan) -> Seq<u8> {
        self.buffer@.subrange(span.start as int, span.start + span.len)
    }

    /// `span` lies in the buffer and holds exactly one complete frame.
    pub closed spec fn holds_frame(self, span: FrameSpan) -> bool {
        &&& span.start + span.len <= self.buffer@.len()
        &&& is_frame(self.bytes_at(span))
    }

    /// A reader that starts with the bytes a handshake read ahead.
    pub fn new(read_ahead: Vec<u8>) -> (r: FrameReader)
        ensures
            r.wf(),
            r.pending() == read_ahead@,
            r.capacity() == if read_ahead@.len() < INITIAL_BUFFER_SIZE {
                INITIAL_BUFFER_SIZE as int
            } else {
                read_ahead@.len() as int
            },
            r.spare() == r.capacity() - read_ahead@.len(),
    {
        let mut buffer = read_ahead;
        let len = buffer.len();
        if len < INITIAL_BUFFER_SIZE {
            buffer.resize(INITIAL_BUFFER_SIZE, 0);
        }
        let r = FrameReader { buffer, read_head: len, parse_head: 0 };
        assert(r.pending() =~= read_ahead@);
        r
    }

    /// How many bytes the next read may bring in; never zero after
    /// `try_extract_frame` has asked for more.
    pub fn free_space(&self) -> (r: usize)
        requires
            self.wf(),
        ensures
            r == self.spare(),
    {
        self.buffer.len() - self.read_head
    }

    /// Takes in the bytes of one read. An empty read means the stream has
    /// ended: that is an error, and nothing changes.
    pub fn ingest(&mut self, data: &[u8]) -> (r: Result<(), UnexpectedEof>)
        requires
            old(self).wf(),
            data@.len() <= old(self).spare(),
        ensures
            final(self).wf(),
            data@.len() == 0 <==> r is Err,
            r is Ok ==> final(self).pending() == old(self).pending() + data@,
            r is Ok ==> final(self).spare() == old(self).spare() - data@.len(),
            final(self).capacity() == old(self).capacity(),
            r is Err ==> final(self).pending() == old(self).pending() && final(self).spare()
                == old(self).spare(),
    {
        if data.len() == 0 {
            return Err(UnexpectedEof);
        }
        let ghost before = self.pending();
        let start = self.read_head;
        let cap = self.buffer.len();
        let mut i: usize = 0;
        while i < data.len()
            invariant
                cap == self.buffer@.len(),
                start == self.read_head,
                self.parse_head <= start,
                start + data@.len() <= self.buffer@.len(),
                i <= data@.len(),
                self.buffer@.subrange(self.parse_head as int, start as int) == before,
                self.buffer@.subrange(start as int, start + i) == data@.subrange(0, i as int),
                self.buffer@.len() >= MAX_HEADER_SIZE,
            decreases data@.len() - i,
        {
            self.buffer.set(start + i, data[i]);
            i = i + 1;
            assert(self.buffer@.subrange(start as int, start + i) =~= data@.subrange(
                0,
                i as int,
            ));
        }
        self.read_head = start + data.len();
        assert(self.pending() =~= before + data@) by {
            assert(data@.subrange(0, i as int) =~= data@);
        }
        Ok(())
    }

    /// Moves the pending bytes to the front of the buffer.
    fn compact(&mut self)
        requires
            old(self).wf(),
        ensures
            final(self).wf(),
            final(self).pending() == old(self).pending(),
            final(self).parse_head == 0,
            final(self).buffer@.len() == old(self).buffer@.len(),
    {
        let ghost before = self.pending();
        let start = self.parse_head;
        let end = self.read_head;
        let cap = self.buffer.len();
        let ghost orig = self.buffer@;
        let mut i: usize = 0;
        while i < end - start
            invariant
                cap == self.buffer@.len(),
                cap == orig.len(),
                start <= end <= cap,
                i <= end - start,
                before == orig.subrange(start as int, end as int),
                self.buffer@.subrange(0, i as int) == before.subrange(0, i as int),
                forall|j: int| i <= j < cap ==> self.buffer@[j] == orig[j],
            decreases end - start - i,
        {
            let b = self.buffer[start + i];
            assert(b == before[i as int]);
            self.buffer.set(i, b);
            i = i + 1;
            assert(self.buffer@.subrange(0, i as int) =~= before.subrange(0, i as int));
        }
        self.parse_head = 0;
        self.read_head = end - start;
        assert(self.pending() =~= before) by {
            assert(before.subrange(0, i as int) =~= before);
        }
    }

    /// Makes room for what a failed parse asked for: after a short header
    /// the pending bytes move to the front; when a known payload does not fit
    /// in the space left they move too, and the buffer grows to hold the
    /// whole frame if it still does not fit.
    fn resize_buffer(&mut self, e: WsParsingError)
        requires
            old(self).wf(),
            e is IncompleteHeader ==> old(self).pending().len() < MAX_HEADER_SIZE,
            e matches WsParsingError::IncompleteMessage(m) ==> 0 < m && old(self).pending().len()
                + m <= usize::MAX,
            !(e is InvalidLength),
        ensures
            final(self).wf(),
            final(self).pending() == old(self).pending(),
            final(self).spare() > 0,
            e is IncompleteHeader ==> {
                &&& final(self).capacity() == old(self).capacity()
                &&& final(self).spare() == final(self).capacity() - final(self).pending().len()
            },
            e matches WsParsingError::IncompleteMessage(m) ==> {
                &&& final(self).spare() >= m
                &&& m <= old(self).spare() ==> final(self).spare() == old(self).spare()
                    && final(self).capacity() == old(self).capacity()
                &&& m > old(self).spare() ==> final(self).spare() == final(self).capacity()
                    - final(self).pending().len()
                &&& final(self).capacity() == if old(self).pending().len() + m
                    <= old(self).capacity() {
                    old(self).capacity()
                } else {
                    old(self).pending().len() + m
                }
            },
    {
        match e {
            WsParsingError::IncompleteHeader => {
                self.compact();
            },
            WsParsingError::IncompleteMessage(missing) => {
                if missing > self.buffer.len() - self.read_head {
                    self.compact();
                }
                if missing > self.buffer.len() - self.read_head {
                    let ghost before = self.pending();
                    let ghost old_buffer = self.buffer@;
                    let size = self.read_head + missing;
                    self.buffer.resize(size, 0);
                    assert(self.pending() =~= before) by {
                        assert(self.buffer@.subrange(0, old_buffer.len() as int) == old_buffer);
                        assert forall|j: int|
                            self.parse_head <= j < self.read_head implies self.buffer@[j]
                            == old_buffer[j] by {
                            assert(self.buffer@.subrange(0, old_buffer.len() as int)[j]
                                == self.buffer@[j]);
                        }
                    }
                }
            },
            WsParsingError::InvalidLength => {},
        }
    }

    /// Looks for a complete frame at the parse cursor. When there is one, the
    /// cursors move past it (back to the start once nothing is left) and its
    /// place in the buffer is returned; it stays intact until the reader is
    /// next changed. When more bytes are needed, the buffer is compacted or
    /// grown so that the next read has room, and `Ok(None)` comes back.
    pub fn try_extract_frame(&mut self) -> (r: Result<Option<FrameSpan>, WsParsingError>)
        requires
            old(self).wf(),
        ensures
            final(self).wf(),
            match parse_spec(old(self).pending()) {
                Ok(n) => {
                    &&& r matches Ok(Some(span)) && span.len == n && final(self).holds_frame(span)
                        && final(self).bytes_at(span) == old(self).pending().subrange(0, n as int)
                    &&& final(self).pending() == old(self).pending().subrange(
                        n as int,
                        old(self).pending().len() as int,
                    )
                    &&& final(self).capacity() == old(self).capacity()
                    &&& n == old(self).pending().len() ==> final(self).spare()
                        == final(self).capacity()
                    &&& n < old(self).pending().len() ==> final(self).spare() == old(
                        self,
                    ).spare()
                },
                Err(WsParsingError::InvalidLength) => {
                    &&& r == Err::<Option<FrameSpan>, WsParsingError>(WsParsingError::InvalidLength)
                    &&& final(self).pending() == old(self).pending()
                    &&& final(self).capacity() == old(self).capacity()
                },
                Err(WsParsingError::IncompleteMessage(m)) => {
                    &&& r == Ok::<Option<FrameSpan>, WsParsingError>(None)
                    &&& final(self).pending() == old(self).pending()
                    &&& final(self).spare() >= m
                    &&& m <= old(self).spare() ==> final(self).spare() == old(self).spare()
                    &&& m > old(self).spare() ==> final(self).spare() == final(self).capacity()
                        - final(self).pending().len()
                    &&& final(self).capacity() == if old(self).pending().len() + m
                        <= old(self).capacity() {
                        old(self).capacity()
                    } else {
                        old(self).pending().len() + m
                    }
                },
                Err(WsParsingError::IncompleteHeader) => {
                    &&& r == Ok::<Option<FrameSpan>, WsParsingError>(None)
                    &&& final(self).pending() == old(self).pending()
                    &&& final(self).spare() > 0
                    &&& final(self).spare() == final(self).capacity() - final(self).pending().len()
                    &&& final(self).capacity() == old(self).capacity()
                },
            },
    {
        let ghost before = self.pending();
        let parsed = {
            let window = &self.buffer.as_slice()[self.parse_head..self.read_head];
            assert(window@ == before);
            match Frame::parse_slice(window) {
                Ok((frame, _)) => Ok(frame.len()),
                Err(e) => Err(e),
            }
        };
        match parsed {
            Ok(n) => {
                let span = FrameSpan { start: self.parse_head, len: n };
                if self.read_head == self.parse_head + n {
                    self.parse_head = 0;
                    self.read_head = 0;
                } else {
                    self.parse_head = self.parse_head + n;
                }
                assert(self.bytes_at(span) =~= before.subrange(0, n as int));
                assert(self.pending() =~= before.subrange(n as int, before.len() as int));
                Ok(Some(span))
            },
            Err(WsParsingError::InvalidLength) => Err(WsParsingError::InvalidLength),
            Err(e) => {
                self.resize_buffer(e);
                Ok(None)
            },
        }
    }

    /// The frame that `try_extract_frame` found at `span`.
    pub fn frame_at(&self, span: FrameSpan) -> (r: Frame<'_>)
        requires
            self.holds_frame(span),
        ensures
            r.wire() == self.bytes_at(span),
    {
        let cap = self.buffer.len();
        assert(span.start + span.len <= cap);
        let bytes = &self.buffer.as_slice()[span.start..span.start + span.len];
        assert(bytes@ == self.bytes_at(span));
        Frame::from_slice_unchecked(bytes)
    }
}

/// One side of a connection: a byte stream and the reader that frames what
/// comes from it.
pub struct Client<S> {
    pub stream: S,
    pub reader: FrameReader,
}

/// The writing half of a split connection: write capability only, no reader.
pub struct ClientWriter<W> {
    pub stream: W,
}

impl<S> Client<S> {
    /// A client over an upgraded stream; `read_ahead` holds the bytes that
    /// the handshake read past its end.
    pub fn new(stream: S, read_ahead: Vec<u8>) -> (r: Client<S>)
        ensures
            r.stream == stream,
            r.reader.wf(),
            r.reader.pending() == read_ahead@,
            r.reader.capacity() == if read_ahead@.len() < INITIAL_BUFFER_SIZE {
                INITIAL_BUFFER_SIZE as int
            } else {
                read_ahead@.len() as int
            },
            r.reader.spare() == r.reader.capacity() - read_ahead@.len(),
    {
        Client { stream, reader: FrameReader::new(read_ahead) }
    }

    /// Splits one connection into a reading half, which keeps the reader and
    /// all it has buffered, and a writing half that holds only the write
    /// side of the stream. `split_stream` cuts the stream into the two.
    pub fn split<R, W, F>(self, split_stream: F) -> (r: (Client<R>, ClientWriter<W>)) where
        F: FnOnce(S) -> (R, W),

        requires
            split_stream.requires((self.stream,)),
        ensures
            split_stream.ensures((self.stream,), (r.0.stream, r.1.stream)),
            r.0.reader == self.reader,
    {
        let Client { stream, reader } = self;
        let (read, write) = split_stream(stream);
        (Client { stream: read, reader }, ClientWriter { stream: write })
    }
}

// ---------------------------------------------------------------------------
// What a reader hands out does not depend on how the stream was cut into reads.
// ---------------------------------------------------------------------------

/// The complete frames at the front of `s`, in order, and the bytes after
/// them: what `try_extract_frame` hands out, call after call, until it asks
/// for more.
pub open spec fn split_frames(s: Seq<u8>) -> (Seq<Seq<u8>>, Seq<u8>)
    decreases s.len(),
{
    match parse_spec(s) {
        Ok(n) => if 0 < n <= s.len() {
            let (fs, rest) = split_frames(s.subrange(n as int, s.len() as int));
            (seq![s.subrange(0, n as int)] + fs, rest)
        } else {
            (Seq::empty(), s)
        },
        Err(_) => (Seq::empty(), s),
    }
}

/// A reader that has taken in `chunks`, one read each, and after each read
/// extracted every frame it could: the frames so far and the pending bytes.
pub open spec fn read_in_chunks(chunks: Seq<Seq<u8>>) -> (Seq<Seq<u8>>, Seq<u8>)
    decreases chunks.len(),
{
    if chunks.len() == 0 {
        (Seq::empty(), Seq::empty())
    } else {
        let (frames, pending) = read_in_chunks(chunks.drop_last());
        let (more, rest) = split_frames(pending + chunks.last());
        (frames + more, rest)
    }
}

/// All the chunks one after the other.
pub open spec fn concat(chunks: Seq<Seq<u8>>) -> Seq<u8>
    decreases chunks.len(),
{
    if chunks.len() == 0 {
        Seq::empty()
    } else {
        concat(chunks.drop_last()) + chunks.last()
    }
}

/// A complete frame at the front of `a` stays the same frame whatever follows `a`.
pub proof fn lemma_parse_prefix(a: Seq<u8>, b: Seq<u8>)
    requires
        parse_spec(a) is Ok,
    ensures
        parse_spec(a + b) == parse_spec(a),
{
    lemma_header_agree(a, a + b);
}

/// Cutting the input after `a` changes nothing in what is extracted.
pub proof fn lemma_split_frames_append(a: Seq<u8>, b: Seq<u8>)
    ensures
        ({
            let (fa, ra) = split_frames(a);
            let (fb, rb) = split_frames(ra + b);
            split_frames(a + b) == (fa + fb, rb)
        }),
    decreases a.len(),
{
    let (fa, ra) = split_frames(a);
    match parse_spec(a) {
        Ok(n) => {
            lemma_parse_prefix(a, b);
            let tail = a.subrange(n as int, a.len() as int);
            assert((a + b).subrange(0, n as int) =~= a.subrange(0, n as int));
            assert((a + b).subrange(n as int, (a + b).len() as int) =~= tail + b);
            lemma_split_frames_append(tail, b);
            let (ft, rt) = split_frames(tail);
            let (fb, rb) = split_frames(rt + b);
            assert(seq![a.subrange(0, n as int)] + (ft + fb) =~= (seq![a.subrange(0, n as int)]
                + ft) + fb);
        },
        Err(_) => {
            assert(fa + split_frames(a + b).0 =~= split_frames(a + b).0);
        },
    }
}

/// A reader hands out the same frames, and keeps the same bytes pending,
/// however the stream was cut into reads: the outcome equals one read of
/// everything.
pub proof fn lemma_chunking_invisible(chunks: Seq<Seq<u8>>)
    ensures
        read_in_chunks(chunks) == split_frames(concat(chunks)),
    decreases chunks.len(),
{
    if chunks.len() == 0 {
        assert(split_frames(Seq::<u8>::empty()) == (Seq::<Seq<u8>>::empty(), Seq::<u8>::empty()));
    } else {
        let init = chunks.drop_last();
        lemma_chunking_invisible(init);
        lemma_split_frames_append(concat(init), chunks.last());
    }
}

/// The bytes of each read.
pub open spec fn views(reads: Seq<Vec<u8>>) -> Seq<Seq<u8>> {
    reads.map_values(|v: Vec<u8>| v@)
}

/// The chunks before `i` and the first `j` bytes of chunk `i`.
pub open spec fn taken(all: Seq<Seq<u8>>, i: int, j: int) -> Seq<u8> {
    concat(all.take(i)) + if i < all.len() {
        all[i].take(j)
    } else {
        Seq::empty()
    }
}

/// What follows `taken(all, i, j)`.
pub open spec fn left(all: Seq<Seq<u8>>, i: int, j: int) -> Seq<u8> {
    if i < all.len() {
        all[i].skip(j) + concat(all.skip(i + 1))
    } else {
        Seq::empty()
    }
}

proof fn lemma_concat_split(s: Seq<Seq<u8>>, i: int)
    requires
        0 <= i <= s.len(),
    ensures
        concat(s) == concat(s.take(i)) + concat(s.skip(i)),
    decreases s.len(),
{
    if i == s.len() {
        assert(s.take(i) =~= s);
        assert(s.skip(i) =~= Seq::<Seq<u8>>::empty());
        assert(concat(s) + Seq::<u8>::empty() =~= concat(s));
    } else {
        let d = s.drop_last();
        lemma_concat_split(d, i);
        assert(d.take(i) =~= s.take(i));
        assert(s.skip(i).drop_last() =~= d.skip(i));
        assert(s.skip(i).last() == s.last());
        assert(concat(s) =~= concat(s.take(i)) + concat(s.skip(i)));
    }
}

proof fn lemma_taken_left(all: Seq<Seq<u8>>, i: int, j: int)
    requires
        0 <= i <= all.len(),
        i < all.len() ==> 0 <= j <= all[i].len(),
    ensures
        concat(all) == taken(all, i, j) + left(all, i, j),
{
    lemma_concat_split(all, i);
    if i < all.len() {
        let t = all.skip(i);
        lemma_concat_split(t, 1);
        assert(t.take(1).drop_last() =~= Seq::<Seq<u8>>::empty());
        assert(concat(t.take(1).drop_last()) == Seq::<u8>::empty());
        assert(t.take(1).last() == all[i]);
        assert(concat(t.take(1)) =~= all[i]);
        assert(t.skip(1) =~= all.skip(i + 1));
        assert(all[i] =~= all[i].take(j) + all[i].skip(j));
        assert(concat(all) =~= taken(all, i, j) + left(all, i, j));
    } else {
        assert(all.skip(i) =~= Seq::<Seq<u8>>::empty());
        assert(concat(all) =~= taken(all, i, j) + left(all, i, j));
    }
}

/// A header that announces an invalid length stays invalid whatever follows.
proof fn lemma_invalid_prefix(a: Seq<u8>, b: Seq<u8>)
    requires
        parse_spec(a) == Err::<nat, WsParsingError>(WsParsingError::InvalidLength),
    ensures
        parse_spec(a + b) == parse_spec(a),
        split_frames(a + b) == (Seq::<Seq<u8>>::empty(), a + b),
{
    lemma_header_agree(a, a + b);
}

impl FrameReader {
    /// Runs a fresh reader over `reads`, in order, taking each read in
    /// pieces that fit the reader's free space and extracting every frame
    /// it can after each piece. Returns copies of the frames handed out:
    /// exactly the frames of all the bytes in one read. Fails with
    /// `InvalidLength` exactly when the bytes after those frames start with
    /// a header that announces an invalid length.
    pub fn frames_of_reads(reads: &[Vec<u8>]) -> (r: Result<Vec<Vec<u8>>, WsParsingError>)
        ensures
            ({
                let (frames, rest) = split_frames(concat(views(reads@)));
                let invalid = parse_spec(rest) == Err::<nat, WsParsingError>(
                    WsParsingError::InvalidLength,
                );
                match r {
                    Ok(fs) => views(fs@) == frames && !invalid,
                    Err(e) => e == WsParsingError::InvalidLength && invalid,
                }
            }),
    {
        let ghost all = views(reads@);
        let mut reader = FrameReader::new(Vec::new());
        let mut out: Vec<Vec<u8>> = Vec::new();
        let mut i: usize = 0;
        let mut j: usize = 0;
        assert(taken(all, 0, 0) =~= Seq::<u8>::empty());
        assert(reader.pending() =~= Seq::<u8>::empty());
        assert(views(out@) =~= Seq::<Seq<u8>>::empty());
        loop
            invariant
                all == views(reads@),
                reader.wf(),
                i <= reads@.len(),
                i < reads@.len() ==> j <= all[i as int].len(),
                split_frames(taken(all, i as int, j as int)) == (
                    views(out@) + split_frames(reader.pending()).0,
                    split_frames(reader.pending()).1,
                ),
            decreases reads@.len() - i, (if i < reads@.len() {
                all[i as int].len() - j
            } else {
                0
            }), reader.pending().len(),
        {
            let ghost fed = taken(all, i as int, j as int);
            let ghost p = reader.pending();
            match reader.try_extract_frame() {
                Err(e) => {
                    proof {
                        assert(split_frames(p) == (Seq::<Seq<u8>>::empty(), p));
                        assert(views(out@) + Seq::<Seq<u8>>::empty() =~= views(out@));
                        lemma_taken_left(all, i as int, j as int);
                        let rest = left(all, i as int, j as int);
                        lemma_split_frames_append(fed, rest);
                        lemma_invalid_prefix(p, rest);
                    }
                    return Err(e);
                },
                Ok(Some(span)) => {
                    let frame = reader.frame_at(span);
                    let mut bytes: Vec<u8> = Vec::new();
                    push_bytes(&mut bytes, frame.as_bytes());
                    let ghost before = views(out@);
                    out.push(bytes);
                    proof {
                        let n = span.len as int;
                        assert(views(out@) =~= before.push(p.take(n)));
                        assert(p.take(n) =~= p.subrange(0, n));
                        assert(reader.pending() =~= p.subrange(n, p.len() as int));
                        assert(views(out@) + split_frames(reader.pending()).0 =~= before
                            + split_frames(p).0);
                    }
                    continue ;
                },
                Ok(None) => {},
            }
            proof {
                assert(split_frames(reader.pending()) == (
                    Seq::<Seq<u8>>::empty(),
                    reader.pending(),
                ));
                assert(views(out@) + Seq::<Seq<u8>>::empty() =~= views(out@));
            }
            if i == reads.len() {
                proof {
                    assert(all.take(i as int) =~= all);
                    assert(fed =~= concat(all));
                }
                return Ok(out);
            }
            let chunk = &reads[i];
            if j == chunk.len() {
                proof {
                    assert(all.take(i + 1).drop_last() =~= all.take(i as int));
                    assert(all[i as int].take(j as int) =~= all[i as int]);
                    assert(taken(all, i + 1, 0) =~= fed);
                }
                i = i + 1;
                j = 0;
                continue ;
            }
            let free = reader.free_space();
            let n = if free < chunk.len() - j {
                free
            } else {
                chunk.len() - j
            };
            let piece = &chunk.as_slice()[j..j + n];
            let _ = reader.ingest(piece);
            proof {
                lemma_split_frames_append(fed, piece@);
                assert(taken(all, i as int, (j + n) as int) =~= fed + piece@);
            }
            j = j + n;
        }
    }
}

} // verus!
