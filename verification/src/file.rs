//! Reading and writing streams of frames.
//!
//! A `File` wraps a byte buffer either as a stateful reader or as a
//! writer — never both; the mode is fixed at construction. The buffer
//! holds a plain concatenation of encoded frame records: reading decodes
//! one record per call and reports a clean end of stream only at a record
//! boundary, and writing appends one record per call. Opening a path and
//! moving bytes to or from disk is the caller's concern.

use vstd::prelude::*;
use crate::codec::{decode_frame_bytes, frame_bytes, pairs_bounded, DecodeError};
use crate::frame::{pairs_to_map, Frame};

verus! {

/// The ways to open a `File`: reading an existing stream, writing a fresh
/// one, or appending to an existing one.
#[derive(Clone, Copy, Debug, PartialEq, Eq, Structural)]
pub enum FileMode {
    Read,
    Write,
    Append,
}

enum Stream {
    /// Bytes being read, and the position of the next record.
    Reader(Vec<u8>, usize),
    /// Bytes written so far.
    Writer(Vec<u8>),
}

/// A reader or writer of frame streams over a byte buffer.
pub struct File {
    stream: Stream,
}

impl File {
    /// Open for reading: the buffer is consumed from its start.
    pub closed spec fn is_read(&self) -> bool {
        match self.stream {
            Stream::Reader(d, p) => p <= d@.len(),
            Stream::Writer(_) => false,
        }
    }

    /// Open for writing or appending.
    pub closed spec fn is_write(&self) -> bool {
        self.stream is Writer
    }

    /// The whole byte stream a reader was opened over.
    pub closed spec fn read_data(&self) -> Seq<u8> {
        match self.stream {
            Stream::Reader(d, _) => d@,
            Stream::Writer(_) => Seq::empty(),
        }
    }

    /// How far a reader has advanced into its stream.
    pub closed spec fn read_pos(&self) -> int {
        match self.stream {
            Stream::Reader(_, p) => p as int,
            Stream::Writer(_) => 0,
        }
    }

    /// The bytes a writer holds, earlier contents included when appending.
    pub closed spec fn written(&self) -> Seq<u8> {
        match self.stream {
            Stream::Reader(_, _) => Seq::empty(),
            Stream::Writer(d) => d@,
        }
    }

    /// Open a stream over `contents` in the given mode.
    ///
    /// `Read` consumes `contents` from the start; `Write` starts over
    /// empty, as a truncating open would; `Append` keeps `contents` and
    /// writes after them.
    pub fn new(contents: Vec<u8>, mode: FileMode) -> (f: File)
        ensures
            match mode {
                FileMode::Read => f.is_read() && f.read_data() == contents@ && f.read_pos() == 0,
                FileMode::Write => f.is_write() && f.written() == Seq::<u8>::empty(),
                FileMode::Append => f.is_write() && f.written() == contents@,
            },
    {
        match mode {
            FileMode::Read => File { stream: Stream::Reader(contents, 0) },
            FileMode::Write => File { stream: Stream::Writer(Vec::new()) },
            FileMode::Append => File { stream: Stream::Writer(contents) },
        }
    }

    /// Read one frame from the stream.
    ///
    /// An end of stream exactly at a record boundary is the one clean way
    /// a stream ends and yields `Ok(None)`. A record decodes to
    /// `Ok(Some(frame))` and advances the position past it. Bytes that end
    /// mid-record, or are malformed, leave the position alone and yield an
    /// error, never a silent end of stream.
    pub fn read_frame(&mut self) -> (r: Result<Option<Frame>, DecodeError>)
        requires
            old(self).is_read(),
        ensures
            final(self).is_read(),
            final(self).read_data() == old(self).read_data(),
            match r {
                Ok(opt) => match opt {
                    None => {
                        &&& old(self).read_pos() == old(self).read_data().len()
                        &&& final(self).read_pos() == old(self).read_pos()
                    },
                    Some(f) => {
                        &&& old(self).read_pos() < old(self).read_data().len()
                        &&& decode_frame_bytes(
                            old(self).read_data().skip(old(self).read_pos()),
                        ) is Some
                        &&& f.local() == pairs_to_map(
                            (decode_frame_bytes(
                                old(self).read_data().skip(old(self).read_pos()),
                            )->0).0,
                        )
                        &&& f.wf()
                        &&& f.ancestor() is None
                        &&& old(self).read_pos() <= final(self).read_pos()
                        &&& final(self).read_pos() <= final(self).read_data().len()
                        &&& final(self).read_data().skip(final(self).read_pos()) == (
                        decode_frame_bytes(old(self).read_data().skip(old(self).read_pos()))->0).1
                    },
                },
                Err(_) => {
                    &&& old(self).read_pos() < old(self).read_data().len()
                    &&& decode_frame_bytes(old(self).read_data().skip(old(self).read_pos())) is None
                    &&& final(self).read_pos() == old(self).read_pos()
                },
            },
    {
        match &mut self.stream {
            Stream::Reader(data, pos) => {
                if *pos == data.len() {
                    return Ok(None);
                }
                let mut f = Frame::new();
                match f.read_from_stream(data.as_slice(), *pos) {
                    Ok(end) => {
                        *pos = end;
                        Ok(Some(f))
                    },
                    Err(e) => Err(e),
                }
            },
            Stream::Writer(_) => {
                proof {
                    assert(false);
                }
                Err(DecodeError)
            },
        }
    }

    /// Write one frame to the stream.
    ///
    /// Appends the frame's record to the bytes written so far; in this
    /// in-memory stream that always succeeds.
    pub fn write_frame(&mut self, frame: &Frame)
        requires
            old(self).is_write(),
        ensures
            final(self).is_write(),
            pairs_bounded(frame.pairs()),
            final(self).written() == old(self).written() + frame_bytes(frame.pairs()),
    {
        match &mut self.stream {
            Stream::Writer(data) => {
                frame.write_to_stream(data);
            },
            Stream::Reader(_, _) => {
                proof {
                    assert(false);
                }
            },
        }
    }

    /// Take the bytes a writer holds, to be moved to their destination.
    pub fn into_bytes(self) -> (r: Vec<u8>)
        requires
            self.is_write(),
        ensures
            r@ == self.written(),
    {
        match self.stream {
            Stream::Writer(data) => data,
            Stream::Reader(data, _) => {
                proof {
                    assert(false);
                }
                data
            },
        }
    }
}

} // verus!
