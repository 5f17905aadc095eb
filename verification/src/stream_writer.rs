//! Writes record batches to a Parquet file, and hands the file out in chunks.

use bytes::{BufMut, BytesMut};
use vstd::prelude::*;

use crate::arrow_batch;
use crate::arrow_batch::{ArrowColumn, FileProperties, ParquetSink, Stream};
use crate::record_batch::RecordBatch;

verus! {

/// `bytes::BytesMut`: bytes that can grow, and be taken apart without copying.
#[verifier::external_type_specification]
#[verifier::external_body]
pub struct ExBytesMut(bytes::BytesMut);

/// The bytes that a [`BytesMut`] holds.
pub uninterp spec fn buffered(b: BytesMut) -> Seq<u8>;

/// `BytesMut::with_capacity`: no bytes, with room for some. It panics where the room is larger
/// than can be asked for.
#[verifier::external_body]
fn buffer_with_capacity(capacity: usize) -> (r: BytesMut)
    requires
        capacity <= isize::MAX,
    ensures
        buffered(r) == Seq::<u8>::empty(),
{
    BytesMut::with_capacity(capacity)
}

/// `BufMut::put_slice`: adds bytes at the end.
#[verifier::external_body]
fn buffer_put_slice(b: &mut BytesMut, bytes: &[u8])
    ensures
        buffered(*final(b)) == buffered(*old(b)) + bytes@,
{
    b.put_slice(bytes)
}

/// `BytesMut::len`: how many bytes there are.
#[verifier::external_body]
fn buffer_len(b: &BytesMut) -> (r: usize)
    ensures
        r == buffered(*b).len(),
{
    b.len()
}

/// `BytesMut::split_to`: takes bytes off the front. It panics where there are fewer.
#[verifier::external_body]
fn buffer_split_to(b: &mut BytesMut, at: usize) -> (r: Vec<u8>)
    requires
        at <= buffered(*old(b)).len(),
    ensures
        r@ == buffered(*old(b)).take(at as int),
        buffered(*final(b)) == buffered(*old(b)).skip(at as int),
{
    b.split_to(at).to_vec()
}

/// `BytesMut::split`: takes all bytes.
#[verifier::external_body]
fn buffer_split(b: &mut BytesMut) -> (r: Vec<u8>)
    ensures
        r@ == buffered(*old(b)),
        buffered(*final(b)) == Seq::<u8>::empty(),
{
    b.split().to_vec()
}

/// Collects the bytes that a writer of a file produces.
pub struct Buffer {
    buffer: BytesMut,
}

impl View for Buffer {
    type V = Seq<u8>;

    closed spec fn view(&self) -> Seq<u8> {
        buffered(self.buffer)
    }
}

impl Buffer {
    /// An empty buffer with room for some bytes.
    pub fn with_capacity(size: usize) -> (r: Self)
        requires
            size <= isize::MAX,
        ensures
            r@ == Seq::<u8>::empty(),
    {
        Buffer { buffer: buffer_with_capacity(size) }
    }

    /// Adds bytes, all of them, and says how many.
    pub fn write(&mut self, buf: &[u8]) -> (r: usize)
        ensures
            r == buf@.len(),
            final(self)@ == old(self)@ + buf@,
    {
        buffer_put_slice(&mut self.buffer, buf);
        buf.len()
    }

    /// The number of bytes.
    pub fn len(&self) -> (r: usize)
        ensures
            r == self@.len(),
    {
        buffer_len(&self.buffer)
    }

    fn split_to(&mut self, at: usize) -> (r: Vec<u8>)
        requires
            at <= old(self)@.len(),
        ensures
            r@ == old(self)@.take(at as int),
            final(self)@ == old(self)@.skip(at as int),
    {
        buffer_split_to(&mut self.buffer, at)
    }

    fn split(&mut self) -> (r: Vec<u8>)
        ensures
            r@ == old(self)@,
            final(self)@ == Seq::<u8>::empty(),
    {
        buffer_split(&mut self.buffer)
    }
}

/// The bytes are the Parquet file of what was written.
pub open spec fn is_file_of(bytes: Seq<u8>, stream: Stream) -> bool {
    exists|little_endian: bool|
        bytes == #[trigger] arrow_batch::streamed_file(little_endian, stream)
}

/// Why a batch cannot be written.
#[derive(Clone, Copy, Debug, PartialEq, Eq, Structural)]
pub enum StreamError {
    /// The writer of the file fails.
    WriteParquet,
}

/// Hands out what is buffered, chunk by chunk.
#[derive(Debug)]
pub struct TryFlush {
    /// What is left is handed out too, though it is less than a chunk.
    pub all: bool,
    /// What is left was handed out.
    pub rest_taken: bool,
    /// The bytes that were stored.
    pub bytes_written: u64,
}

impl TryFlush {
    /// Begins to hand out.
    pub fn new(all: bool) -> (r: Self)
        ensures
            r == (TryFlush { all, rest_taken: false, bytes_written: 0 }),
    {
        TryFlush { all, rest_taken: false, bytes_written: 0 }
    }
}

/// Writes batches to a Parquet file and hands the file out in chunks of one size.
pub struct BufferedWriter {
    path: String,
    arrow_writer: Option<ParquetSink>,
    buffer: Buffer,
    bytes_written: u64,
    flushed: bool,
    threshold: usize,
    handed_out: Ghost<Seq<u8>>,
}

impl BufferedWriter {
    /// The place that the file is stored at.
    pub closed spec fn path(self) -> Seq<char> {
        self.path@
    }

    /// What is written and not handed out.
    pub closed spec fn buffered(self) -> Seq<u8> {
        self.buffer@
    }

    /// What was handed out.
    pub closed spec fn handed_out(self) -> Seq<u8> {
        self.handed_out@
    }

    /// The size of a chunk.
    pub closed spec fn threshold(self) -> usize {
        self.threshold
    }

    /// The bytes that were stored, as far as their storing is over.
    pub closed spec fn bytes_written(self) -> u64 {
        self.bytes_written
    }

    /// Some chunk was stored.
    pub closed spec fn flushed(self) -> bool {
        self.flushed
    }

    /// The file is not closed.
    pub closed spec fn is_open(self) -> bool {
        self.arrow_writer is Some
    }

    /// What was written to an open file.
    pub closed spec fn stream(self) -> Stream {
        arrow_batch::sink_stream(self.arrow_writer->0)
    }

    /// All that came out of an open file is handed out or buffered, in order.
    pub closed spec fn well_formed(self) -> bool {
        &&& self.threshold > 0
        &&& self.arrow_writer matches Some(sink) ==> arrow_batch::sink_taken(sink)
            == self.handed_out@ + self.buffer@
    }

    /// Nothing was written to the file, and nothing came out of it.
    pub open spec fn is_fresh(self) -> bool {
        &&& self.well_formed()
        &&& self.is_open()
        &&& !self.flushed()
        &&& self.bytes_written() == 0
        &&& self.buffered() == Seq::<u8>::empty()
        &&& self.handed_out() == Seq::<u8>::empty()
    }

    /// This is a later state of the writer, in which nothing more was handed out or stored.
    pub open spec fn only_buffers_after(self, before: BufferedWriter) -> bool {
        &&& self.well_formed()
        &&& self.path() == before.path()
        &&& self.threshold() == before.threshold()
        &&& self.bytes_written() == before.bytes_written()
        &&& self.flushed() == before.flushed()
        &&& self.handed_out() == before.handed_out()
    }

    /// This is the state of the writer after a batch was written.
    pub open spec fn has_written(self, before: BufferedWriter, batch: Seq<ArrowColumn>) -> bool {
        &&& self.only_buffers_after(before)
        &&& self.is_open()
        &&& before.buffered().is_prefix_of(self.buffered())
        &&& self.stream() == before.stream().with(batch)
    }

    /// This is the state of the writer after the file was ended: what was handed out and what is
    /// buffered is the whole file.
    pub open spec fn has_closed(self, before: BufferedWriter) -> bool {
        &&& self.only_buffers_after(before)
        &&& !self.is_open()
        &&& is_file_of(self.handed_out() + self.buffered(), before.stream())
    }

    /// This is a later state of the writer, in which the file is the same.
    pub open spec fn keeps_file(self, before: BufferedWriter) -> bool {
        &&& self.well_formed()
        &&& self.path() == before.path()
        &&& self.threshold() == before.threshold()
        &&& self.is_open() == before.is_open()
        &&& self.is_open() ==> self.stream() == before.stream()
    }

    /// This is the state of the writer after a chunk was handed out: as long as a chunk is
    /// buffered, the next of the full size; then, where all is to be handed out, what is left,
    /// once, though it be nothing.
    pub open spec fn has_handed_out(
        self,
        flush: TryFlush,
        before: BufferedWriter,
        flush_before: TryFlush,
        chunk: Seq<u8>,
    ) -> bool {
        &&& self.keeps_file(before)
        &&& self.bytes_written() == before.bytes_written()
        &&& self.flushed() == before.flushed()
        &&& flush.all == flush_before.all
        &&& flush.bytes_written == flush_before.bytes_written
        &&& self.handed_out() == before.handed_out() + chunk
        &&& before.buffered() == chunk + self.buffered()
        &&& if before.buffered().len() >= before.threshold() {
            chunk.len() == before.threshold() && flush.rest_taken == flush_before.rest_taken
        } else {
            flush_before.all && !flush_before.rest_taken && flush.rest_taken && chunk
                == before.buffered()
        }
    }

    /// There is no chunk to hand out.
    pub open spec fn has_no_chunk(self, flush: TryFlush) -> bool {
        &&& self.buffered().len() < self.threshold()
        &&& !flush.all || flush.rest_taken
    }

    /// This is the state of the writer after a chunk of the given size was stored.
    pub open spec fn has_stored(
        self,
        flush: TryFlush,
        before: BufferedWriter,
        flush_before: TryFlush,
        size: nat,
    ) -> bool {
        &&& self.keeps_file(before)
        &&& self.bytes_written() == before.bytes_written()
        &&& self.buffered() == before.buffered()
        &&& self.handed_out() == before.handed_out()
        &&& self.flushed()
        &&& flush.all == flush_before.all
        &&& flush.rest_taken == flush_before.rest_taken
        &&& flush.bytes_written == flush_before.bytes_written + size
    }

    /// This is the state of the writer after what was stored was counted.
    pub open spec fn has_counted(self, before: BufferedWriter, flush: TryFlush) -> bool {
        &&& self.keeps_file(before)
        &&& self.buffered() == before.buffered()
        &&& self.handed_out() == before.handed_out()
        &&& self.flushed() == before.flushed()
        &&& self.bytes_written() == before.bytes_written() + flush.bytes_written
    }

    /// A writer of a file for batches with the columns of the given one.
    pub fn try_new(
        path: String,
        schema: &RecordBatch,
        properties: Option<FileProperties>,
        buffer_threshold: usize,
    ) -> (r: Result<Self, StreamError>)
        requires
            0 < buffer_threshold <= isize::MAX,
            properties matches Some(p) ==> p.row_group_size != Some(0usize),
            schema@.valid(),
            forall|i: int|
                0 <= i < schema@.columns.len() ==> arrow_batch::convertible(
                    #[trigger] schema@.columns[i],
                ),
        ensures
            r is Ok <==> arrow_batch::can_begin(properties, arrow_batch::batch_arrays(schema@)),
            r matches Ok(writer) ==> writer.is_fresh() && writer.path() == path@
                && writer.threshold() == buffer_threshold && writer.stream() == arrow_batch::begun(
                properties,
                arrow_batch::batch_arrays(schema@),
            ),
    {
        let arrays = arrow_batch::to_arrow(schema);
        match arrow_batch::sink_new(&arrays, properties) {
            Some(sink) => {
                let writer = BufferedWriter {
                    path,
                    arrow_writer: Some(sink),
                    buffer: Buffer::with_capacity(buffer_threshold),
                    bytes_written: 0,
                    flushed: false,
                    threshold: buffer_threshold,
                    handed_out: Ghost(Seq::empty()),
                };
                assert(writer.handed_out@ + writer.buffer@ =~= Seq::<u8>::empty());
                Ok(writer)
            },
            None => Err(StreamError::WriteParquet),
        }
    }

    /// Writes a batch to the file. What comes out of the file is buffered.
    pub fn write(&mut self, batch: &RecordBatch) -> (r: Result<(), StreamError>)
        requires
            old(self).well_formed(),
            old(self).is_open(),
            batch@.valid(),
            forall|i: int|
                0 <= i < batch@.columns.len() ==> arrow_batch::convertible(
                    #[trigger] batch@.columns[i],
                ),
        ensures
            final(self).only_buffers_after(*old(self)),
            final(self).is_open(),
            old(self).buffered().is_prefix_of(final(self).buffered()),
            r is Ok <==> arrow_batch::can_write(
                old(self).stream(),
                arrow_batch::batch_arrays(batch@),
            ),
            r is Ok ==> final(self).has_written(*old(self), arrow_batch::batch_arrays(batch@)),
    {
        let arrays = arrow_batch::to_arrow(batch);
        let mut taken: Option<ParquetSink> = None;
        std::mem::swap(&mut self.arrow_writer, &mut taken);
        if let Some(mut sink) = taken {
            let written: bool = arrow_batch::sink_write(&mut sink, &arrays);
            if written {
                let bytes: Vec<u8> = arrow_batch::sink_take(&mut sink);
                self.buffer.write(bytes.as_slice());
                assert(old(self).handed_out@ + (old(self).buffer@ + bytes@) =~= (
                old(self).handed_out@ + old(self).buffer@) + bytes@);
            }
            self.arrow_writer = Some(sink);
            if written {
                return Ok(());
            }
        }
        Err(StreamError::WriteParquet)
    }

    /// Whether the file can be given up without a trace: nothing of it was stored.
    pub fn abort(self) -> (r: bool)
        ensures
            r == !self.flushed(),
    {
        !self.flushed
    }

    /// Ends the file, and gives the number of its rows. What comes out of it is buffered: with
    /// what was handed out it is the whole file.
    pub fn close(&mut self) -> (r: Result<i64, StreamError>)
        requires
            old(self).well_formed(),
            old(self).is_open(),
        ensures
            final(self).only_buffers_after(*old(self)),
            !final(self).is_open(),
            r is Ok <==> arrow_batch::can_finish(old(self).stream()),
            r matches Ok(rows) ==> rows == old(self).stream().rows() && final(self).has_closed(
                *old(self),
            ),
    {
        let mut taken: Option<ParquetSink> = None;
        std::mem::swap(&mut self.arrow_writer, &mut taken);
        if let Some(sink) = taken {
            if let Some((rows, bytes)) = arrow_batch::sink_finish(sink) {
                self.buffer.write(bytes.as_slice());
                assert(old(self).handed_out@ + (old(self).buffer@ + bytes@) =~= (
                old(self).handed_out@ + old(self).buffer@) + bytes@);
                assert(is_file_of(self.handed_out@ + self.buffer@, old(self).stream()));
                return Ok(rows);
            }
        }
        Err(StreamError::WriteParquet)
    }

    /// The next chunk to store: as long as a chunk is buffered, the next of the full size;
    /// then, where all is to be handed out, what is left, once, though it be nothing.
    pub fn try_flush(&mut self, flush: &mut TryFlush) -> (r: Option<Vec<u8>>)
        requires
            old(self).well_formed(),
        ensures
            final(self).well_formed(),
            match r {
                Some(chunk) => final(self).has_handed_out(
                    *final(flush),
                    *old(self),
                    *old(flush),
                    chunk@,
                ),
                None => {
                    &&& old(self).has_no_chunk(*old(flush))
                    &&& *final(self) == *old(self)
                    &&& *final(flush) == *old(flush)
                },
            },
    {
        let ghost before = self.buffer@;
        if self.buffer.len() >= self.threshold {
            let threshold: usize = self.threshold;
            let chunk: Vec<u8> = self.buffer.split_to(threshold);
            assert(before =~= chunk@ + self.buffer@);
            assert(self.handed_out@ + before =~= (self.handed_out@ + chunk@) + self.buffer@);
            self.handed_out = Ghost(self.handed_out@ + chunk@);
            Some(chunk)
        } else if flush.all && !flush.rest_taken {
            let chunk: Vec<u8> = self.buffer.split();
            flush.rest_taken = true;
            assert(before =~= chunk@ + self.buffer@);
            assert(self.handed_out@ + before =~= (self.handed_out@ + chunk@) + self.buffer@);
            self.handed_out = Ghost(self.handed_out@ + chunk@);
            Some(chunk)
        } else {
            None
        }
    }

    /// Takes note that a chunk was stored.
    pub fn stored(&mut self, flush: &mut TryFlush, size: usize)
        requires
            old(flush).bytes_written + size <= u64::MAX,
            old(self).well_formed(),
        ensures
            final(self).has_stored(*final(flush), *old(self), *old(flush), size as nat),
    {
        self.flushed = true;
        flush.bytes_written = flush.bytes_written + size as u64;
    }

    /// Counts what was stored, when all chunks were, and gives the sum so far.
    pub fn flush_done(&mut self, flush: TryFlush) -> (r: u64)
        requires
            old(self).bytes_written() + flush.bytes_written <= u64::MAX,
            old(self).well_formed(),
        ensures
            final(self).has_counted(*old(self), flush),
            r == final(self).bytes_written(),
    {
        self.bytes_written = self.bytes_written + flush.bytes_written;
        self.bytes_written
    }
}

/// What is done with a writer.
pub enum WriterStep {
    /// A batch is written.
    Write(Seq<ArrowColumn>),
    /// The file is ended.
    Close,
    /// A flush begins, of all that is buffered or of full chunks.
    Begin(bool),
    /// A chunk is handed out, and stored.
    Chunk(Seq<u8>),
    /// The flush is over, as there is no chunk to hand out, and what was stored is counted.
    Counted,
}

/// A writer, and the flush that is under way.
pub struct WriterPoint {
    pub writer: BufferedWriter,
    pub flush: Option<TryFlush>,
}

impl WriterPoint {
    /// This point is reached by a step from another.
    pub open spec fn follows(self, before: WriterPoint, step: WriterStep) -> bool {
        match step {
            WriterStep::Write(batch) => {
                &&& before.flush is None
                &&& self.flush is None
                &&& before.writer.is_open()
                &&& self.writer.has_written(before.writer, batch)
            },
            WriterStep::Close => {
                &&& before.flush is None
                &&& self.flush is None
                &&& before.writer.is_open()
                &&& self.writer.has_closed(before.writer)
            },
            WriterStep::Begin(all) => {
                &&& before.flush is None
                &&& self.writer == before.writer
                &&& self.flush == Some(TryFlush { all, rest_taken: false, bytes_written: 0 })
            },
            WriterStep::Chunk(chunk) => {
                &&& before.flush is Some
                &&& self.flush is Some
                &&& exists|writer: BufferedWriter, flush: TryFlush|
                    {
                        &&& #[trigger] writer.has_handed_out(
                            flush,
                            before.writer,
                            before.flush->0,
                            chunk,
                        )
                        &&& self.writer.has_stored(self.flush->0, writer, flush, chunk.len())
                    }
            },
            WriterStep::Counted => {
                &&& before.flush is Some
                &&& self.flush is None
                &&& before.writer.has_no_chunk(before.flush->0)
                &&& self.writer.has_counted(before.writer, before.flush->0)
            },
        }
    }
}

/// The points follow each other by the steps.
pub open spec fn is_run(points: Seq<WriterPoint>, steps: Seq<WriterStep>) -> bool {
    &&& points.len() == steps.len() + 1
    &&& points[0].flush is None
    &&& forall|i: int|
        0 <= i < steps.len() ==> points[i + 1].follows(points[i], #[trigger] steps[i])
}

/// The chunks of all steps, in order, as one.
pub open spec fn all_chunks(steps: Seq<WriterStep>) -> Seq<u8>
    decreases steps.len(),
{
    if steps.len() == 0 {
        Seq::empty()
    } else {
        match steps.last() {
            WriterStep::Chunk(chunk) => all_chunks(steps.drop_last()) + chunk,
            _ => all_chunks(steps.drop_last()),
        }
    }
}

/// A file with the batches of all steps, in order.
pub open spec fn all_written(stream: Stream, steps: Seq<WriterStep>) -> Stream
    decreases steps.len(),
{
    if steps.len() == 0 {
        stream
    } else {
        match steps.last() {
            WriterStep::Write(batch) => all_written(stream, steps.drop_last()).with(batch),
            _ => all_written(stream, steps.drop_last()),
        }
    }
}

/// What has been stored by a flush under way, and is not counted.
pub open spec fn uncounted(flush: Option<TryFlush>) -> nat {
    match flush {
        Some(flush) => flush.bytes_written as nat,
        None => 0,
    }
}

proof fn lemma_run(points: Seq<WriterPoint>, steps: Seq<WriterStep>)
    requires
        is_run(points, steps),
        points[0].writer.is_fresh(),
    ensures
        ({
            let last = points.last();
            let stream = all_written(points[0].writer.stream(), steps);
            &&& last.writer.handed_out() == all_chunks(steps)
            &&& last.writer.bytes_written() + uncounted(last.flush) == all_chunks(steps).len()
            &&& last.writer.is_open() ==> last.writer.stream() == stream
            &&& !last.writer.is_open() ==> is_file_of(
                last.writer.handed_out() + last.writer.buffered(),
                stream,
            )
            &&& last.flush is Some && last.flush->0.rest_taken ==> last.writer.buffered().len() == 0
        }),
    decreases steps.len(),
{
    if steps.len() > 0 {
        let n = steps.len() - 1;
        let fewer = points.drop_last();
        let before = steps.drop_last();
        assert forall|i: int| 0 <= i < before.len() implies fewer[i + 1].follows(
            fewer[i],
            #[trigger] before[i],
        ) by {
            assert(points[i + 1].follows(points[i], steps[i]));
        }
        lemma_run(fewer, before);
        let was = fewer.last();
        let last = points.last();
        assert(last.follows(was, steps[n]));
        if let WriterStep::Chunk(chunk) = steps[n] {
            let (writer, flush) = choose|writer: BufferedWriter, flush: TryFlush|
                {
                    &&& #[trigger] writer.has_handed_out(flush, was.writer, was.flush->0, chunk)
                    &&& last.writer.has_stored(last.flush->0, writer, flush, chunk.len())
                };
            assert(was.writer.handed_out() + was.writer.buffered() =~= (was.writer.handed_out()
                + chunk) + writer.buffered());
            if was.flush->0.rest_taken {
                assert((chunk + writer.buffered()).len() == 0);
            } else if flush.rest_taken {
                assert((chunk + writer.buffered()).len() == chunk.len());
            }
        }
    }
}

/// Whatever is written, and however it is handed out: the chunks of all flushes, in order, are
/// what was handed out, and when no flush is under way, the count is that of their bytes. Once
/// the file was ended, and then a flush of all that is buffered is over, the chunks are the
/// whole file of all batches written.
pub proof fn law_chunks_are_the_file(points: Seq<WriterPoint>, steps: Seq<WriterStep>)
    requires
        is_run(points, steps),
        points[0].writer.is_fresh(),
    ensures
        points.last().writer.handed_out() == all_chunks(steps),
        points.last().flush is None ==> points.last().writer.bytes_written() == all_chunks(
            steps,
        ).len(),
        steps.len() > 0 && steps.last() is Counted && points[steps.len() - 1].flush->0.all
            && !points.last().writer.is_open() ==> is_file_of(
            all_chunks(steps),
            all_written(points[0].writer.stream(), steps),
        ),
{
    lemma_run(points, steps);
    if steps.len() > 0 && steps.last() is Counted {
        let n = steps.len() - 1;
        let fewer = points.drop_last();
        let before = steps.drop_last();
        assert forall|i: int| 0 <= i < before.len() implies fewer[i + 1].follows(
            fewer[i],
            #[trigger] before[i],
        ) by {
            assert(points[i + 1].follows(points[i], steps[i]));
        }
        lemma_run(fewer, before);
        assert(points[n + 1].follows(points[n], steps[n]));
        let last = points.last();
        if points[n].flush->0.all {
            assert(last.writer.handed_out() + last.writer.buffered() =~= last.writer.handed_out());
        }
    }
}

/// A chunk that is handed out is the front of what is buffered, and what is buffered then is the
/// rest, so nothing gets lost or is handed out twice; it has the size of a chunk, unless it is
/// all that is left and all is to be handed out, which happens once. There is none to hand out
/// exactly where less than a chunk is buffered and what is left is not to be handed out, or was.
pub proof fn law_chunk_is_the_front(
    before: BufferedWriter,
    flush_before: TryFlush,
    after: BufferedWriter,
    flush: TryFlush,
    chunk: Seq<u8>,
)
    requires
        after.has_handed_out(flush, before, flush_before, chunk),
    ensures
        before.buffered().len() == chunk.len() + after.buffered().len(),
        forall|i: int|
            0 <= i < chunk.len() ==> #[trigger] chunk[i] == before.buffered()[i],
        forall|i: int|
            0 <= i < after.buffered().len() ==> #[trigger] after.buffered()[i]
                == before.buffered()[chunk.len() + i],
        after.handed_out() == before.handed_out() + chunk,
        chunk.len() == before.threshold() || flush_before.all && !flush_before.rest_taken
            && flush.rest_taken && chunk.len() < before.threshold() && after.buffered().len() == 0,
        flush_before.rest_taken ==> flush.rest_taken,
        !before.has_no_chunk(flush_before),
        before.has_no_chunk(flush_before) <==> before.buffered().len() < before.threshold() && (
        flush_before.all ==> flush_before.rest_taken),
{
    assert((chunk + after.buffered()).len() == chunk.len() + after.buffered().len());
    assert forall|i: int| 0 <= i < chunk.len() implies #[trigger] chunk[i]
        == before.buffered()[i] by {
        assert((chunk + after.buffered())[i] == chunk[i]);
    }
    assert forall|i: int| 0 <= i < after.buffered().len() implies #[trigger] after.buffered()[i]
        == before.buffered()[chunk.len() + i] by {
        assert((chunk + after.buffered())[chunk.len() + i] == after.buffered()[i]);
    }
}

/// What is handed out to be stored is the front of what is buffered, nothing of it is lost or
/// handed out twice, and where nothing is handed out nothing changes.
pub proof fn law_flush_hands_out_the_front(
    writer: &mut BufferedWriter,
    flush: &mut TryFlush,
    r: Option<Vec<u8>>,
)
    requires
        call_ensures(BufferedWriter::try_flush, (writer, flush), r),
    ensures
        r matches Some(chunk) ==> {
            &&& old(writer).buffered() == chunk@ + final(writer).buffered()
            &&& final(writer).handed_out() == old(writer).handed_out() + chunk@
            &&& chunk@.len() == old(writer).threshold() || (chunk@.len() < old(
                writer,
            ).threshold() && old(flush).all && !old(flush).rest_taken && final(flush).rest_taken && final(writer).buffered().len() == 0)
        },
        r is None ==> *final(writer) == *old(writer) && *final(flush) == *old(flush) && old(
            writer,
        ).buffered().len() < old(writer).threshold() && (old(flush).all ==> old(flush).rest_taken),
{
    if let Some(chunk) = r {
        law_chunk_is_the_front(
            *old(writer),
            *old(flush),
            *final(writer),
            *final(flush),
            chunk@,
        );
    }
}

} // verus!
