//! Independence of scanning from how the data is divided into pieces.
//!
//! When the available data does not suffice, a scan stops and is continued once more data was
//! received. The lemmas here show that the outcome is the same as if that data had been
//! available from the start.

use vstd::prelude::*;

use crate::lookahead::{Ahead, Pending};
use crate::number::{NumberEnd, NumberProgress, NumberStep};
use crate::scan::{GapEnd, ScanState, StringEnd};

verus! {

impl Pending {
    /// Bytes which were available before are still the next ones when more data is available.
    pub proof fn lemma_ahead_extended(self, bytes: Seq<u8>, eof: bool)
        requires
            !self.eof,
        ensures
            forall|distance: int|
                0 <= distance < self.bytes.len() ==> #[trigger] self.extended(bytes, eof).ahead(
                    distance,
                ) == self.ahead(distance),
            forall|count: int|
                0 <= count <= self.bytes.len() ==> #[trigger] self.extended(bytes, eof).after(count)
                    == self.after(count).extended(bytes, eof),
            forall|count: int|
                0 <= count <= self.bytes.len() ==> #[trigger] self.extended(
                    bytes,
                    eof,
                ).bytes.take(count) == self.bytes.take(count),
    {
        assert forall|count: int| 0 <= count <= self.bytes.len() implies #[trigger] self.extended(
            bytes,
            eof,
        ).after(count) == self.after(count).extended(bytes, eof) by {
            assert((self.bytes + bytes).skip(count) =~= self.bytes.skip(count) + bytes);
        }
        assert forall|count: int| 0 <= count <= self.bytes.len() implies #[trigger] self.extended(
            bytes,
            eof,
        ).bytes.take(count) == self.bytes.take(count) by {
            assert((self.bytes + bytes).take(count) =~= self.bytes.take(count));
        }
    }

    /// A decision on a char of more than one byte does not change when more data is available.
    pub proof fn lemma_multibyte_char_extended(self, bytes: Seq<u8>, eof: bool)
        requires
            !self.eof,
            self.bytes.len() > 0,
            !(self.multibyte_char() is NeedsInput),
        ensures
            self.extended(bytes, eof).multibyte_char() == self.multibyte_char(),
    {
        self.lemma_ahead_extended(bytes, eof);
        let extended = self.extended(bytes, eof);
        assert(extended.bytes[0] == self.bytes[0]);
        assert(1 < self.bytes.len() ==> extended.ahead(1) == self.ahead(1));
        assert(2 < self.bytes.len() ==> extended.ahead(2) == self.ahead(2));
        assert(3 < self.bytes.len() ==> extended.ahead(3) == self.ahead(3));
    }

    /// A decision on a string character does not change when more data is available.
    pub proof fn lemma_string_char_extended(self, bytes: Seq<u8>, eof: bool)
        requires
            !self.eof,
            !(self.string_char() is NeedsInput),
        ensures
            self.extended(bytes, eof).string_char() == self.string_char(),
            self.string_char().bytes(self.extended(bytes, eof)) == self.string_char().bytes(self),
    {
        self.lemma_ahead_extended(bytes, eof);
        self.lemma_string_char();
        let extended = self.extended(bytes, eof);
        assert(self.bytes.len() > 0);
        assert(extended.ahead(0) == self.ahead(0));
        assert(1 < self.bytes.len() ==> extended.ahead(1) == self.ahead(1));
        if self.bytes[0] >= 0x80 {
            self.lemma_multibyte_char_extended(bytes, eof);
        } else if self.bytes[0] == crate::ascii::BACKSLASH {
            if self.bytes[1] == crate::ascii::LOWER_U {
                assert(2 < self.bytes.len() ==> extended.ahead(2) == self.ahead(2));
                assert(3 < self.bytes.len() ==> extended.ahead(3) == self.ahead(3));
                assert(4 < self.bytes.len() ==> extended.ahead(4) == self.ahead(4));
                assert(5 < self.bytes.len() ==> extended.ahead(5) == self.ahead(5));
                assert(6 < self.bytes.len() ==> extended.ahead(6) == self.ahead(6));
                assert(7 < self.bytes.len() ==> extended.ahead(7) == self.ahead(7));
                assert(8 < self.bytes.len() ==> extended.ahead(8) == self.ahead(8));
                assert(9 < self.bytes.len() ==> extended.ahead(9) == self.ahead(9));
                assert(10 < self.bytes.len() ==> extended.ahead(10) == self.ahead(10));
                assert(11 < self.bytes.len() ==> extended.ahead(11) == self.ahead(11));
            }
        }
    }
}

impl ScanState {
    /// As [`lemma_skip_gap_extended`](Self::lemma_skip_gap_extended), for a single step.
    pub proof fn lemma_gap_step_extended(self, allow_comments: bool, bytes: Seq<u8>, eof: bool)
        requires
            !self.pending.eof,
        ensures
            ({
                let (next, end) = self.gap_step(allow_comments);
                let extended = self.extended(bytes, eof);
                if end == Some(GapEnd::NeedsInput) {
                    next.extended(bytes, eof).gap_step(allow_comments) == extended.gap_step(
                        allow_comments,
                    )
                } else {
                    extended.gap_step(allow_comments) == (next.extended(bytes, eof), end)
                }
            }),
    {
        self.pending.lemma_ahead_extended(bytes, eof);
        let (next, end) = self.gap_step(allow_comments);
        let extended = self.extended(bytes, eof);
        if self.pending.bytes.len() > 0 {
            assert(extended.pending.ahead(0) == self.pending.ahead(0));
            assert(extended.pending.after(1) == self.pending.after(1).extended(bytes, eof));
            if self.pending.bytes.len() > 1 {
                assert(extended.pending.ahead(1) == self.pending.ahead(1));
                assert(extended.pending.after(2) == self.pending.after(2).extended(bytes, eof));
                assert(self.pending.after(1).after(1) == self.pending.after(2)) by {
                    assert(self.pending.bytes.skip(1).skip(1) =~= self.pending.bytes.skip(2));
                }
                assert(extended.pending.after(1).after(1) == extended.pending.after(2)) by {
                    assert(extended.pending.bytes.skip(1).skip(1) =~= extended.pending.bytes.skip(2));
                }
            }
            if self.pending.bytes[0] >= 0x80 {
                self.pending.lemma_multibyte_char();
                if !(self.pending.multibyte_char() is NeedsInput) {
                    self.pending.lemma_multibyte_char_extended(bytes, eof);
                    let len = self.pending.multibyte_char().source_len();
                    assert(extended.pending.after(len) == self.pending.after(len).extended(
                        bytes,
                        eof,
                    ));
                }
            }
        }
    }

    /// Skipping a gap does not depend on how the data is divided: a scan which has to wait for
    /// more data ends, when continued, as if all data had been there; and the end of a gap does
    /// not change when more data follows.
    pub proof fn lemma_skip_gap_extended(self, allow_comments: bool, bytes: Seq<u8>, eof: bool)
        requires
            !self.pending.eof,
        ensures
            ({
                let (next, end) = self.skip_gap(allow_comments);
                let extended = self.extended(bytes, eof);
                if end == GapEnd::NeedsInput {
                    next.extended(bytes, eof).skip_gap(allow_comments) == extended.skip_gap(
                        allow_comments,
                    )
                } else {
                    extended.skip_gap(allow_comments) == (next.extended(bytes, eof), end)
                }
            }),
        decreases self.pending.bytes.len(),
    {
        self.lemma_gap_step(allow_comments);
        self.lemma_gap_step_extended(allow_comments, bytes, eof);
        let (next, end) = self.gap_step(allow_comments);
        let extended = self.extended(bytes, eof);
        extended.lemma_gap_step(allow_comments);
        next.extended(bytes, eof).lemma_gap_step(allow_comments);
        if end is None {
            next.lemma_skip_gap_extended(allow_comments, bytes, eof);
        }
    }

    /// As [`lemma_read_string_extended`](Self::lemma_read_string_extended), for a single
    /// character.
    pub proof fn lemma_string_step_extended(self, bytes: Seq<u8>, eof: bool)
        requires
            !self.pending.eof,
        ensures
            ({
                let (next, end) = self.string_step();
                let extended = self.extended(bytes, eof);
                if end == Some(StringEnd::NeedsInput) {
                    next == self
                } else {
                    extended.string_step() == (next.extended(bytes, eof), end)
                }
            }),
    {
        self.pending.lemma_string_char();
        self.pending.lemma_ahead_extended(bytes, eof);
        let char = self.pending.string_char();
        if !(char is NeedsInput) {
            self.pending.lemma_string_char_extended(bytes, eof);
            let len = char.source_len();
            assert(self.extended(bytes, eof).pending.after(len) == self.pending.after(len).extended(
                bytes,
                eof,
            ));
        }
    }

    /// Reading a string does not depend on how the data is divided.
    pub proof fn lemma_read_string_extended(self, bytes: Seq<u8>, eof: bool)
        requires
            !self.pending.eof,
        ensures
            ({
                let (next, end) = self.read_string();
                let extended = self.extended(bytes, eof);
                if end == StringEnd::NeedsInput {
                    next.extended(bytes, eof).read_string() == extended.read_string()
                } else {
                    extended.read_string() == (next.extended(bytes, eof), end)
                }
            }),
        decreases self.pending.bytes.len(),
    {
        self.lemma_string_step();
        self.lemma_string_step_extended(bytes, eof);
        let (next, end) = self.string_step();
        self.extended(bytes, eof).lemma_string_step();
        if end is None {
            next.lemma_read_string_extended(bytes, eof);
        }
    }

    /// Reading a number does not depend on how the data is divided.
    pub proof fn lemma_read_number_extended(
        self,
        progress: NumberProgress,
        bytes: Seq<u8>,
        eof: bool,
    )
        requires
            !self.pending.eof,
        ensures
            ({
                let (next, advanced, end) = self.read_number(progress);
                let extended = self.extended(bytes, eof);
                if end == NumberEnd::NeedsInput {
                    next.extended(bytes, eof).read_number(advanced) == extended.read_number(
                        progress,
                    )
                } else {
                    extended.read_number(progress) == (next.extended(bytes, eof), advanced, end)
                }
            }),
        decreases self.pending.bytes.len(),
    {
        self.pending.lemma_ahead_extended(bytes, eof);
        let extended = self.extended(bytes, eof);
        if let Ahead::Byte(byte) = self.pending.ahead(0) {
            assert(extended.pending.ahead(0) == self.pending.ahead(0));
            if let NumberStep::Consume(part) = progress.part.step(byte) {
                let next = self.with_bytes(seq![byte]).dropped(1);
                assert(extended.pending.after(1) == self.pending.after(1).extended(bytes, eof));
                assert(extended.with_bytes(seq![byte]).dropped(1) == next.extended(bytes, eof));
                next.lemma_read_number_extended(progress.advanced(byte, part), bytes, eof);
            }
        }
    }
}

} // verus!
