//! Sector-aligned buffered reading of a raw volume: what is served from the
//! buffer, where the next chunk starts, and where a seek leads.

use vstd::prelude::*;

verus! {

/// Read granularity for raw volume access. Must be a multiple of the physical
/// sector size (covers both 512e and 4Kn drives); large so that the multi-GB
/// $MFT read costs one system call per chunk instead of one per 4 KB.
pub const READ_CHUNK: usize = 8_388_608;

/// The alignment of the reads.
pub const READ_ALIGN: u64 = 4096;

/// Sector-aligned buffered reader over a raw volume. Serves reads from an
/// internal buffer and counts the bytes read, so that callers can show progress
/// during the $MFT slurp.
#[derive(Debug)]
pub struct AlignedVolumeReader {
    /// Logical (unaligned) read position.
    pub position: u64,
    pub buf: Vec<u8>,
    /// Where on the volume the buffer starts.
    pub buf_start: u64,
    /// How much of the buffer is filled.
    pub buf_len: usize,
    pub total_read: u64,
}

/// What came of one read into a chunk.
#[derive(Debug, Clone, Copy, PartialEq, Eq, Structural)]
pub enum ReadEvent {
    /// So many bytes were read; none at the end of the volume.
    Bytes(usize),
    /// The read was interrupted before it read anything.
    Interrupted,
    /// The read failed.
    Failed,
}

/// What to do about a chunk that is being read.
#[derive(Debug, Clone, Copy, PartialEq, Eq, Structural)]
pub enum FillStep {
    /// Read on behind so many bytes.
    Again(usize),
    /// The chunk is complete with so many bytes.
    Done(usize),
    /// Give up.
    Failed,
}

/// How the filling of a chunk of which `filled` bytes have been read goes on.
pub open spec fn filling(filled: int, event: ReadEvent) -> FillStep {
    match event {
        ReadEvent::Bytes(n) => if n == 0 || filled + n == READ_CHUNK {
            FillStep::Done((filled + n) as usize)
        } else {
            FillStep::Again((filled + n) as usize)
        },
        ReadEvent::Interrupted => FillStep::Again(filled as usize),
        ReadEvent::Failed => FillStep::Failed,
    }
}

/// Goes on filling a chunk of which `filled` bytes have been read: until it is
/// full, the volume ends or a read fails. An interrupted read is repeated.
pub fn fill_step(filled: usize, event: ReadEvent) -> (r: FillStep)
    requires
        filled < READ_CHUNK,
        event matches ReadEvent::Bytes(n) ==> n <= READ_CHUNK - filled,
    ensures
        r == match event {
            ReadEvent::Bytes(n) => if n == 0 || filled + n == READ_CHUNK {
                FillStep::Done((filled + n) as usize)
            } else {
                FillStep::Again((filled + n) as usize)
            },
            ReadEvent::Interrupted => FillStep::Again(filled),
            ReadEvent::Failed => FillStep::Failed,
        },
        r == filling(filled as int, event),
{
    match event {
        ReadEvent::Bytes(n) => {
            if n == 0 || filled + n == READ_CHUNK {
                FillStep::Done(filled + n)
            } else {
                FillStep::Again(filled + n)
            }
        },
        ReadEvent::Interrupted => FillStep::Again(filled),
        ReadEvent::Failed => FillStep::Failed,
    }
}

/// Where to move the read position.
#[derive(Debug, Clone, Copy, PartialEq, Eq, Structural)]
pub enum SeekTo {
    Start(u64),
    Current(i64),
    End(i64),
}

/// Why the read position cannot be moved.
#[derive(Debug, Clone, Copy, PartialEq, Eq, Structural)]
pub enum SeekError {
    BeforeStart,
    EndUnsupported,
}

impl SeekError {
    /// The error in words.
    pub fn message(&self) -> (r: &'static str)
        ensures
            r@ == match self {
                SeekError::BeforeStart => "seek before start"@,
                SeekError::EndUnsupported => "SeekFrom::End unsupported"@,
            },
    {
        match self {
            SeekError::BeforeStart => "seek before start",
            SeekError::EndUnsupported => "SeekFrom::End unsupported",
        }
    }
}

/// Where a seek from `position` leads. A position beyond 64 bits is cut off.
pub open spec fn seek_target(position: u64, to: SeekTo) -> Result<int, SeekError> {
    match to {
        SeekTo::Start(n) => Ok(n as int),
        SeekTo::Current(d) => if position + d < 0 {
            Err(SeekError::BeforeStart)
        } else if position + d > u64::MAX {
            Ok(u64::MAX as int)
        } else {
            Ok(position + d)
        },
        SeekTo::End(_) => Err(SeekError::EndUnsupported),
    }
}

impl AlignedVolumeReader {
    /// The filled part of the buffer lies in the buffer, and its end has a
    /// position.
    pub open spec fn wf(self) -> bool {
        self.buf_len <= self.buf@.len() && self.buf_start + self.buf_len <= u64::MAX
    }

    /// The read position lies in the buffer.
    pub open spec fn in_buffer(self) -> bool {
        self.buf_start <= self.position < self.buf_start + self.buf_len
    }

    /// The aligned position at or before the read position.
    pub open spec fn chunk_start(self) -> int {
        (self.position as int / 4096) * 4096
    }

    /// The bytes that a read of up to `want` bytes gets.
    pub open spec fn served(self, want: int) -> Seq<u8> {
        let off = self.position - self.buf_start;
        let avail = self.buf_len - off;
        if self.in_buffer() {
            self.buf@.subrange(
                off,
                off + if want < avail {
                    want
                } else {
                    avail
                },
            )
        } else {
            Seq::empty()
        }
    }

    /// Nothing read yet, at the start of the volume.
    pub fn new() -> (r: Self)
        ensures
            r.wf(),
            r.position == 0,
            r.total_read == 0,
            r.buf@ == Seq::<u8>::empty(),
            r.buf_len == 0,
            r.buf_start == 0,
            !r.in_buffer(),
    {
        AlignedVolumeReader {
            position: 0,
            buf: Vec::new(),
            buf_start: 0,
            buf_len: 0,
            total_read: 0,
        }
    }

    /// Where the read position lies in the buffer, and how many bytes are
    /// there from it on; `None` if it lies outside.
    pub fn buffered(&self) -> (r: Option<(usize, usize)>)
        requires
            self.wf(),
        ensures
            r is Some <==> self.in_buffer(),
            r matches Some((off, avail)) ==> {
                &&& off == self.position - self.buf_start
                &&& off + avail == self.buf_len
                &&& avail > 0
            },
    {
        if self.position >= self.buf_start && self.position < self.buf_start
            + self.buf_len as u64 {
            let off: usize = (self.position - self.buf_start) as usize;
            Some((off, self.buf_len - off))
        } else {
            None
        }
    }

    /// Whether a read of `want` bytes has to wait for a chunk.
    pub fn needs_fill(&self, want: usize) -> (r: bool)
        requires
            self.wf(),
        ensures
            r <==> want > 0 && !self.in_buffer(),
    {
        want > 0 && self.buffered().is_none()
    }

    /// Where on the volume the chunk for the read position starts.
    pub fn fill_start(&self) -> (r: u64)
        ensures
            r == self.chunk_start(),
            r % 4096 == 0,
            r <= self.position < r + 4096,
    {
        self.position / READ_ALIGN * READ_ALIGN
    }

    /// Whether the positions and counts stay within 64 bits with a chunk of
    /// `filled` bytes for the read position.
    pub fn has_room(&self, filled: usize) -> (r: bool)
        ensures
            r <==> self.chunk_start() + filled <= u64::MAX && self.total_read + filled <= u64::MAX,
    {
        filled as u64 <= u64::MAX - self.fill_start() && filled as u64 <= u64::MAX
            - self.total_read
    }

    /// Takes in the chunk for the read position, of which `filled` bytes were
    /// read. Gives back the bytes read so far, for progress.
    pub fn fill(&mut self, chunk: Vec<u8>, filled: usize) -> (r: u64)
        requires
            filled <= chunk@.len(),
            old(self).chunk_start() + filled <= u64::MAX,
            old(self).total_read + filled <= u64::MAX,
        ensures
            final(self).wf(),
            final(self).position == old(self).position,
            final(self).buf == chunk,
            final(self).buf_start == old(self).chunk_start(),
            final(self).buf_len == filled,
            final(self).total_read == old(self).total_read + filled,
            r == final(self).total_read,
    {
        self.buf_start = self.fill_start();
        self.buf = chunk;
        self.buf_len = filled;
        self.total_read = self.total_read + filled as u64;
        self.total_read
    }

    /// Copies into `out` what the buffer holds from the read position on, as
    /// much as fits, and moves on behind it. Outside the buffer there is
    /// nothing to copy.
    pub fn read(&mut self, out: &mut [u8]) -> (n: usize)
        requires
            old(self).wf(),
        ensures
            final(self).wf(),
            n == old(self).served(old(out)@.len() as int).len(),
            final(out)@ == old(self).served(old(out)@.len() as int) + old(out)@.skip(n as int),
            final(self).position == old(self).position + n,
            final(self).buf == old(self).buf,
            final(self).buf_start == old(self).buf_start,
            final(self).buf_len == old(self).buf_len,
            final(self).total_read == old(self).total_read,
    {
        let ghost before = out@;
        let want: usize = out.len();
        let ghost served = self.served(want as int);
        match self.buffered() {
            None => {
                assert(out@ =~= served + before.skip(0));
                0
            },
            Some((off, avail)) => {
                let n: usize = if want < avail {
                    want
                } else {
                    avail
                };
                let mut i: usize = 0;
                while i < n
                    invariant
                        i <= n <= want,
                        want == out@.len(),
                        n == served.len(),
                        off + n <= self.buf_len <= self.buf@.len(),
                        forall|k: int| 0 <= k < n ==> served[k] == self.buf@[off + k],
                        out@ == served.take(i as int) + before.skip(i as int),
                        out@.len() == before.len(),
                    decreases n - i,
                {
                    out[i] = self.buf[off + i];
                    i += 1;
                    assert(out@ =~= served.take(i as int) + before.skip(i as int));
                }
                assert(served.take(n as int) =~= served);
                self.position = self.position + n as u64;
                n
            },
        }
    }

    /// Moves the read position.
    pub fn seek(&mut self, to: SeekTo) -> (r: Result<u64, SeekError>)
        ensures
            match seek_target(old(self).position, to) {
                Ok(p) => r == Ok::<u64, SeekError>(p as u64) && final(self).position == p,
                Err(e) => r == Err::<u64, SeekError>(e) && final(self).position == old(
                    self,
                ).position,
            },
            final(self).buf == old(self).buf,
            final(self).buf_start == old(self).buf_start,
            final(self).buf_len == old(self).buf_len,
            final(self).total_read == old(self).total_read,
    {
        let new: u64 = match to {
            SeekTo::Start(n) => n,
            SeekTo::Current(d) => {
                if d >= 0 {
                    self.position.saturating_add(d as u64)
                } else {
                    let back: u64 = (-(d as i128)) as u64;
                    if back > self.position {
                        return Err(SeekError::BeforeStart);
                    }
                    self.position - back
                }
            },
            SeekTo::End(_) => {
                return Err(SeekError::EndUnsupported);
            },
        };
        self.position = new;
        Ok(new)
    }
}

/// The buffer holds what is on the volume.
pub open spec fn mirrors(r: AlignedVolumeReader, volume: Seq<u8>) -> bool {
    &&& r.buf_start + r.buf_len <= volume.len()
    &&& forall|i: int|
        0 <= i < r.buf_len ==> #[trigger] r.buf@[i] == volume[r.buf_start + i]
}

/// What a read serves is what stands on the volume at the read position.
pub proof fn reads_serve_the_volume(r: AlignedVolumeReader, volume: Seq<u8>, want: int)
    requires
        r.wf(),
        mirrors(r, volume),
        want >= 0,
    ensures
        r.position + r.served(want).len() <= volume.len() || r.served(want).len() == 0,
        r.served(want) =~= volume.subrange(
            r.position as int,
            r.position + r.served(want).len(),
        ) || r.served(want).len() == 0,
{
    if r.in_buffer() {
        let s = r.served(want);
        let v = volume.subrange(r.position as int, r.position + s.len());
        assert forall|i: int| 0 <= i < s.len() implies s[i] == v[i] by {
            assert(r.buf@[r.position - r.buf_start + i] == volume[r.buf_start + (r.position
                - r.buf_start + i)]);
        }
        assert(s =~= v);
    }
}

/// A chunk for the read position that holds at least as much of the volume as
/// the alignment serves the next read, unless the volume ends before it.
pub proof fn filling_serves_the_next_read(r: AlignedVolumeReader, len: int, want: int)
    requires
        r.wf(),
        want > 0,
        r.buf_start == r.chunk_start(),
        r.buf_start + r.buf_len == len || r.buf_len >= READ_ALIGN,
    ensures
        r.position < len ==> r.served(want).len() > 0,
        r.served(want).len() == 0 ==> r.position >= len,
{
}

} // verus!
