//! Receiving data.

use vstd::prelude::*;

use super::JsonStreamReader;
use crate::buffer::READER_BUF_SIZE;
use crate::error::{IoError, Problem, ReaderError};
use crate::model::ReaderModel;

verus! {

/// What happened when it was tried to read data from the source
#[derive(Debug, Clone, Copy, PartialEq, Eq)]
pub enum ReadEvent<'a> {
    /// The source provided data; none if its end has been reached
    Data(&'a [u8]),
    /// Reading was interrupted
    Interrupted,
    /// Reading failed for another reason
    Failed,
}

/// How to go on after it was tried to read data from the source
#[derive(Debug, PartialEq, Eq)]
pub enum FillAction {
    /// Continue the operation by calling it again
    Continue,
    /// Try again to read data from the source
    Retry,
    /// The operation failed
    Fail(ReaderError),
}

impl ReaderModel {
    /// Whether data of the given length can be received.
    pub open spec fn accepts(self, count: nat) -> bool {
        &&& !self.scan.pending.eof
        &&& self.scan.pending.bytes.len() + count <= READER_BUF_SIZE
        &&& self.scan.total() + self.unaccounted() + count <= u64::MAX
    }

    /// Data is received; none if the end of the data has been reached.
    pub open spec fn received(self, data: Seq<u8>) -> ReaderModel {
        self.extended(data, data.len() == 0)
    }

    /// The source fails, while an operation or reading of a string value needs more data: all of
    /// the data which was received before has been consumed.
    pub open spec fn broken_off(self) -> ReaderModel {
        if self.ongoing is Some || self.string_reader_active {
            ReaderModel { scan: self.scan.broken_off(), ..self }
        } else {
            self
        }
    }

    pub proof fn lemma_broken_off(self)
        requires
            self.consistent(),
        ensures
            self.broken_off().consistent(),
    {
    }

    /// The reader stays valid when more data is available.
    pub proof fn lemma_extended(self, bytes: Seq<u8>, eof: bool)
        requires
            self.valid(),
            self.scan.total() + self.unaccounted() + bytes.len() <= u64::MAX,
        ensures
            self.extended(bytes, eof).valid(),
    {
    }
}

impl<R> JsonStreamReader<R> {
    /// The number of bytes which can be received at most
    pub fn read_capacity(&self) -> (capacity: usize)
        requires
            self.wf(),
        ensures
            capacity == READER_BUF_SIZE - self@.scan.pending.bytes.len(),
    {
        proof {
            self.scanner.lemma_wf();
        }
        READER_BUF_SIZE - self.scanner.available()
    }

    /// Whether data of the given length can be received
    pub fn accepts(&self, count: usize) -> (result: bool)
        requires
            self.wf(),
        ensures
            result == self@.accepts(count as nat),
    {
        proof {
            self.scanner.lemma_wf();
        }
        if self.scanner.has_reached_eof() || count > self.read_capacity() {
            return false;
        }
        let token: u64 = match self.peeked {
            Some(peeked) => peeked.consumed_len() as u64,
            None => 0,
        };
        let number: u64 = match self.activity {
            crate::model::Activity::ReadingNumber(state) => state.len,
            _ => 0,
        };
        let total = self.scanner.location().byte_pos + self.scanner.available() as u64 + token
            + number;
        count as u64 <= u64::MAX - total
    }

    /// Processes the result of reading data from the source
    ///
    /// This has to be called when an operation stopped with
    /// [`NeedsInput`](crate::error::Stop::NeedsInput). If the source fails, what was received of a
    /// token or character which is not complete yet is lost.
    pub fn fill_buffer(&mut self, event: ReadEvent<'_>) -> (action: FillAction)
        requires
            old(self).wf(),
            event matches ReadEvent::Data(data) ==> old(self)@.accepts(data@.len()),
        ensures
            final(self).wf(),
            final(self).source() == old(self).source(),
            match event {
                ReadEvent::Data(data) => {
                    &&& final(self)@ == old(self)@.received(data@)
                    &&& action == FillAction::Continue
                },
                ReadEvent::Interrupted => {
                    &&& final(self)@ == old(self)@
                    &&& action == FillAction::Retry
                },
                ReadEvent::Failed => {
                    &&& final(self)@ == old(self)@.broken_off().settled()
                    &&& action matches FillAction::Fail(error) && error.reports(
                        Problem::Io(IoError::Source, old(self)@.broken_off().place()),
                    )
                },
            },
    {
        match event {
            ReadEvent::Data(data) => {
                proof {
                    self@.lemma_extended(data@, data@.len() == 0);
                }
                if data.len() == 0 {
                    self.scanner.mark_eof();
                    assert(data@ =~= Seq::empty());
                } else {
                    self.scanner.receive(data);
                }
                FillAction::Continue
            },
            // Retry if interrupted
            ReadEvent::Interrupted => FillAction::Retry,
            ReadEvent::Failed => {
                proof {
                    self@.lemma_broken_off();
                    self@.broken_off().lemma_settled();
                }
                if self.ongoing.is_some() || self.is_string_value_reader_active {
                    self.scanner.break_off();
                }
                let location = self.create_error_location();
                self.settle();
                FillAction::Fail(ReaderError::IoError { error: IoError::Source, location })
            },
        }
    }
}

} // verus!
