//! Buffer for data which was received but not processed yet, and for the value which is
//! currently being read.

use vstd::prelude::*;
use vstd::slice::slice_subrange;
use vstd::utf8::*;

use crate::lookahead::{Ahead, Pending};

verus! {

/// Size of the buffer for received data.
pub const READER_BUF_SIZE: usize = 1024;

const INITIAL_VALUE_BYTES_BUF_CAPACITY: usize = 128;

/// Received data, together with the value which is currently being read.
///
/// The value can for example be a JSON string value or the string representation of a JSON
/// number. Its bytes are left in the buffer for received data as long as possible, so that
/// they can be served from there.
#[derive(Debug)]
pub struct InputBuffer {
    /// Buffer with the received data
    buf: [u8; READER_BUF_SIZE],
    /// Start index (inclusive) of the data in `buf` which was not consumed yet
    buf_pos: usize,
    /// Index (exclusive) up to which `buf` is filled
    buf_end_pos: usize,
    /// Whether no data follows behind the data in `buf`
    reached_eof: bool,
    /// Whether a value is currently being read
    is_reading_value: bool,
    /// The start of the value, in case it cannot be served directly from `buf`; the remainder is
    /// in `buf`, from `buf_value_start` to `buf_pos`
    value_bytes_buf: Vec<u8>,
    /// Whether `value_bytes_buf` is used to store the value
    is_using_bytes_buf: bool,
    /// Start index of the value (or its remainder) in `buf`, inclusive
    buf_value_start: usize,
}

/// A completely read value, which is either borrowed from an [`InputBuffer`] or owned.
#[derive(Debug)]
pub enum BytesValue {
    /// Value is backed by the buffer for received data
    ReaderBuf { start: usize, end: usize },
    /// Value is backed by the buffer for values
    BytesValueBuf,
    /// An owned value
    Owned(Vec<u8>),
}

impl InputBuffer {
    pub closed spec fn wf(self) -> bool {
        &&& self.buf_pos <= self.buf_end_pos <= READER_BUF_SIZE
        &&& self.is_reading_value ==> self.buf_value_start <= self.buf_pos
        &&& self.is_reading_value && !self.is_using_bytes_buf ==> self.value_bytes_buf@.len() == 0
    }

    /// The data which was not consumed yet.
    pub closed spec fn pending(self) -> Pending {
        Pending {
            bytes: self.buf@.subrange(self.buf_pos as int, self.buf_end_pos as int),
            eof: self.reached_eof,
        }
    }

    /// The bytes read so far of the current value, if any.
    pub closed spec fn value(self) -> Option<Seq<u8>> {
        if self.is_reading_value {
            Some(
                self.value_bytes_buf@ + self.buf@.subrange(
                    self.buf_value_start as int,
                    self.buf_pos as int,
                ),
            )
        } else {
            None
        }
    }

    /// The bytes of a completely read value.
    pub closed spec fn bytes_of(self, value: BytesValue) -> Seq<u8> {
        match value {
            BytesValue::ReaderBuf { start, end } => self.buf@.subrange(start as int, end as int),
            BytesValue::BytesValueBuf => self.value_bytes_buf@,
            BytesValue::Owned(bytes) => bytes@,
        }
    }

    /// Whether the bytes of a value can be obtained.
    pub closed spec fn provides(self, value: BytesValue) -> bool {
        match value {
            BytesValue::ReaderBuf { start, end } => start <= end <= READER_BUF_SIZE,
            _ => true,
        }
    }

    pub proof fn lemma_pending_len(self)
        requires
            self.wf(),
        ensures
            self.pending().bytes.len() <= READER_BUF_SIZE,
    {
    }

    /// Creates an empty buffer.
    pub fn new() -> (result: Self)
        ensures
            result.wf(),
            result.pending() == (Pending { bytes: Seq::empty(), eof: false }),
            result.value() is None,
    {
        let result = InputBuffer {
            buf: [0;READER_BUF_SIZE],
            buf_pos: 0,
            buf_end_pos: 0,
            reached_eof: false,
            is_reading_value: false,
            value_bytes_buf: Vec::with_capacity(INITIAL_VALUE_BYTES_BUF_CAPACITY),
            is_using_bytes_buf: false,
            buf_value_start: 0,
        };
        assert(result.pending().bytes =~= Seq::empty());
        result
    }

    /// Whether no more data can be received.
    pub fn has_reached_eof(&self) -> (result: bool)
        ensures
            result == self.pending().eof,
    {
        self.reached_eof
    }

    /// The number of available bytes.
    pub fn available(&self) -> (count: usize)
        requires
            self.wf(),
        ensures
            count == self.pending().bytes.len(),
    {
        self.buf_end_pos - self.buf_pos
    }

    /// The available bytes.
    pub fn content(&self) -> (bytes: &[u8])
        requires
            self.wf(),
        ensures
            bytes@ == self.pending().bytes,
    {
        slice_subrange(self.buf.as_slice(), self.buf_pos, self.buf_end_pos)
    }

    /// Peeks at a byte without consuming it.
    pub fn ahead(&self, distance: usize) -> (result: Ahead)
        requires
            self.wf(),
        ensures
            result == self.pending().ahead(distance as int),
    {
        if distance < self.buf_end_pos - self.buf_pos {
            Ahead::Byte(self.buf[self.buf_pos + distance])
        } else if self.reached_eof {
            Ahead::Ended
        } else {
            Ahead::Missing
        }
    }

    /// Moves the part of the value which is still in `buf` to `value_bytes_buf`.
    fn save_value(&mut self)
        requires
            old(self).wf(),
            old(self).is_reading_value,
        ensures
            final(self).wf(),
            final(self).is_reading_value,
            final(self).buf_value_start == final(self).buf_pos,
            final(self).buf_pos == old(self).buf_pos,
            final(self).buf_end_pos == old(self).buf_end_pos,
            final(self).buf == old(self).buf,
            final(self).pending() == old(self).pending(),
            final(self).value() == old(self).value(),
    {
        if self.buf_value_start < self.buf_pos {
            let bytes = slice_subrange(self.buf.as_slice(), self.buf_value_start, self.buf_pos);
            self.value_bytes_buf.extend_from_slice(bytes);
            self.is_using_bytes_buf = true;
            self.buf_value_start = self.buf_pos;
        }
        assert(self.value()->0 =~= old(self).value()->0);
    }

    /// Moves the available bytes to the start of `buf`.
    fn move_to_front(&mut self)
        requires
            old(self).wf(),
            old(self).is_reading_value ==> old(self).buf_value_start == old(self).buf_pos,
        ensures
            final(self).wf(),
            final(self).buf_pos == 0,
            final(self).is_reading_value ==> final(self).buf_value_start == 0,
            final(self).buf_end_pos == old(self).pending().bytes.len(),
            final(self).is_reading_value == old(self).is_reading_value,
            final(self).value_bytes_buf == old(self).value_bytes_buf,
            final(self).pending() == old(self).pending(),
            final(self).value() == old(self).value(),
    {
        let start = self.buf_pos;
        let count = self.buf_end_pos - start;
        if start > 0 {
            let mut i: usize = 0;
            while i < count
                invariant
                    i <= count,
                    start + count <= READER_BUF_SIZE,
                    start > 0,
                    self.buf_pos == start,
                    self.buf_end_pos == start + count,
                    self.reached_eof == old(self).reached_eof,
                    self.is_reading_value == old(self).is_reading_value,
                    self.value_bytes_buf == old(self).value_bytes_buf,
                    self.is_using_bytes_buf == old(self).is_using_bytes_buf,
                    self.buf_value_start == old(self).buf_value_start,
                    forall|k: int| 0 <= k < i ==> self.buf@[k] == old(self).buf@[start + k],
                    forall|k: int|
                        i <= k < READER_BUF_SIZE ==> self.buf@[k] == old(self).buf@[k],
                decreases count - i,
            {
                self.buf[i] = self.buf[start + i];
                i += 1;
            }
            self.buf_pos = 0;
            self.buf_end_pos = count;
        }
        self.buf_value_start = 0;
        assert(self.pending().bytes =~= old(self).pending().bytes);
        if self.is_reading_value {
            assert(self.value()->0 =~= old(self).value()->0);
        }
    }

    /// Adds received data behind the available bytes.
    pub fn receive(&mut self, data: &[u8])
        requires
            old(self).wf(),
            old(self).pending().bytes.len() + data@.len() <= READER_BUF_SIZE,
        ensures
            final(self).wf(),
            final(self).pending() == old(self).pending().extended(data@, old(self).pending().eof),
            final(self).value() == old(self).value(),
    {
        // If possible continue filling `buf` behind previously received data
        if data.len() > READER_BUF_SIZE - self.buf_end_pos {
            if self.is_reading_value {
                self.save_value();
            }
            self.move_to_front();
        }
        let ghost mid = *self;
        let start = self.buf_end_pos;
        let mut i: usize = 0;
        while i < data.len()
            invariant
                i <= data.len(),
                start + data.len() <= READER_BUF_SIZE,
                mid.wf(),
                self.buf_pos == mid.buf_pos,
                self.buf_end_pos == mid.buf_end_pos,
                mid.buf_end_pos == start,
                self.reached_eof == mid.reached_eof,
                self.is_reading_value == mid.is_reading_value,
                self.value_bytes_buf == mid.value_bytes_buf,
                self.is_using_bytes_buf == mid.is_using_bytes_buf,
                self.buf_value_start == mid.buf_value_start,
                forall|k: int| 0 <= k < start ==> self.buf@[k] == mid.buf@[k],
                forall|k: int| 0 <= k < i ==> self.buf@[start + k] == data@[k],
            decreases data.len() - i,
        {
            self.buf[start + i] = data[i];
            i += 1;
        }
        self.buf_end_pos = start + data.len();
        assert(self.pending().bytes =~= mid.pending().bytes + data@) by {
            assert forall|k: int| 0 <= k < self.pending().bytes.len() implies (
            #[trigger] self.pending().bytes[k]) == (mid.pending().bytes + data@)[k] by {
                let at = self.buf_pos + k;
                if at >= start {
                    assert(self.buf@[start + (at - start)] == data@[at - start]);
                }
            }
        }
        if self.is_reading_value {
            assert(self.value()->0 =~= mid.value()->0);
        }
    }

    /// Records that no more data follows.
    pub fn mark_eof(&mut self)
        requires
            old(self).wf(),
        ensures
            final(self).wf(),
            final(self).pending() == (Pending { eof: true, ..old(self).pending() }),
            final(self).value() == old(self).value(),
    {
        self.reached_eof = true;
    }

    /// Starts reading a value at the next byte.
    pub fn begin_value(&mut self)
        requires
            old(self).wf(),
        ensures
            final(self).wf(),
            final(self).pending() == old(self).pending(),
            final(self).value() == Some(Seq::<u8>::empty()),
    {
        self.is_reading_value = false;
        // Move buffer content to start of array to make sure complete buffer size is available
        self.move_to_front();
        self.value_bytes_buf.clear();
        self.is_using_bytes_buf = false;
        self.buf_value_start = 0;
        self.is_reading_value = true;
        assert(self.value()->0 =~= Seq::<u8>::empty());
    }

    /// Discards the value which is currently being read, if any.
    pub fn discard_value(&mut self)
        requires
            old(self).wf(),
        ensures
            final(self).wf(),
            final(self).pending() == old(self).pending(),
            final(self).value() is None,
    {
        self.is_reading_value = false;
    }

    /// Consumes bytes without making them part of the value.
    pub fn skip(&mut self, count: usize)
        requires
            old(self).wf(),
            count <= old(self).pending().bytes.len(),
        ensures
            final(self).wf(),
            final(self).pending() == old(self).pending().after(count as int),
            final(self).value() == old(self).value(),
    {
        if self.is_reading_value {
            // If no bytes have been kept so far in `buf`, can just increase index; otherwise need
            // to save the previous part of the value
            self.save_value();
            self.buf_value_start = self.buf_value_start + count;
        }
        self.buf_pos = self.buf_pos + count;
        assert(self.pending().bytes =~= old(self).pending().bytes.skip(count as int));
        if self.is_reading_value {
            assert(self.value()->0 =~= old(self).value()->0);
        }
    }

    /// Consumes bytes and makes them part of the value.
    pub fn keep(&mut self, count: usize)
        requires
            old(self).wf(),
            old(self).value() is Some,
            count <= old(self).pending().bytes.len(),
        ensures
            final(self).wf(),
            final(self).pending() == old(self).pending().after(count as int),
            final(self).value() == Some(
                old(self).value()->0 + old(self).pending().bytes.take(count as int),
            ),
    {
        self.buf_pos = self.buf_pos + count;
        assert(self.pending().bytes =~= old(self).pending().bytes.skip(count as int));
        assert(self.value()->0 =~= old(self).value()->0 + old(self).pending().bytes.take(
            count as int,
        ));
    }

    /// Makes bytes which do not occur literally in the data part of the value.
    pub fn push_bytes(&mut self, bytes: &[u8])
        requires
            old(self).wf(),
            old(self).value() is Some,
        ensures
            final(self).wf(),
            final(self).pending() == old(self).pending(),
            final(self).value() == Some(old(self).value()->0 + bytes@),
    {
        self.save_value();
        self.is_using_bytes_buf = true;
        self.value_bytes_buf.extend_from_slice(bytes);
        assert(self.value()->0 =~= old(self).value()->0 + bytes@);
    }

    /// Whether a value is currently being read.
    pub fn is_reading_value(&self) -> (result: bool)
        ensures
            result == (self.value() is Some),
    {
        self.is_reading_value
    }

    /// The number of bytes read so far of the current value.
    pub fn value_len(&self) -> (len: usize)
        requires
            self.wf(),
            self.value() is Some,
            self.value()->0.len() <= usize::MAX,
        ensures
            len == self.value()->0.len(),
    {
        self.value_bytes_buf.len() + (self.buf_pos - self.buf_value_start)
    }

    /// Ends reading the value, and consumes the delimiter bytes which follow it.
    ///
    /// `requires_borrowed` indicates whether the caller requires obtaining the value using
    /// [`get_str`](Self::get_str).
    pub fn finish_value(&mut self, requires_borrowed: bool, delimiter_len: usize) -> (result:
        BytesValue)
        requires
            old(self).wf(),
            old(self).value() is Some,
            delimiter_len <= old(self).pending().bytes.len(),
        ensures
            final(self).wf(),
            final(self).pending() == old(self).pending().after(delimiter_len as int),
            final(self).value() is None,
            final(self).provides(result),
            final(self).bytes_of(result) == old(self).value()->0,
            requires_borrowed ==> !(result is Owned),
    {
        let result = if self.is_using_bytes_buf {
            // Push remainder into buffer
            self.save_value();
            if requires_borrowed {
                BytesValue::BytesValueBuf
            } else {
                let mut bytes: Vec<u8> = Vec::with_capacity(INITIAL_VALUE_BYTES_BUF_CAPACITY);
                std::mem::swap(&mut bytes, &mut self.value_bytes_buf);
                BytesValue::Owned(bytes)
            }
        } else {
            BytesValue::ReaderBuf { start: self.buf_value_start, end: self.buf_pos }
        };
        self.is_reading_value = false;
        self.buf_pos = self.buf_pos + delimiter_len;
        assert(self.pending().bytes =~= old(self).pending().bytes.skip(delimiter_len as int));
        assert(self.bytes_of(result) =~= old(self).value()->0);
        result
    }

    /// A value without any bytes.
    pub fn empty_value(&self) -> (result: BytesValue)
        ensures
            self.provides(result),
            self.bytes_of(result) == Seq::<u8>::empty(),
    {
        BytesValue::Owned(Vec::new())
    }

    /// Gets a completely read value as `str`.
    pub fn get_str(&self, value: &BytesValue) -> (result: &str)
        requires
            self.provides(*value),
            !(value is Owned),
            valid_utf8(self.bytes_of(*value)),
        ensures
            result@ == decode_utf8(self.bytes_of(*value)),
    {
        match value {
            BytesValue::ReaderBuf { start, end } => crate::utf8::to_str(
                slice_subrange(self.buf.as_slice(), *start, *end),
            ),
            _ => crate::utf8::to_str(self.value_bytes_buf.as_slice()),
        }
    }

    /// Gets a completely read value as `String`.
    pub fn get_string(&self, value: BytesValue) -> (result: String)
        requires
            self.provides(value),
            valid_utf8(self.bytes_of(value)),
        ensures
            result@ == decode_utf8(self.bytes_of(value)),
    {
        match value {
            BytesValue::Owned(bytes) => crate::utf8::to_string(bytes),
            borrowed => self.get_str(&borrowed).to_owned(),
        }
    }
}

} // verus!
