//! Independence of peeking from the operation for which it is done.

use vstd::prelude::*;

use crate::error::Outcome;
use crate::model::{Operation, ReaderModel, TransferProgress};
use crate::scan::GapEnd;

verus! {

/// What the reader remembers of the operation in progress, apart from the token ahead.
pub struct Purpose {
    pub skip_base: Option<nat>,
    pub transfer: Option<TransferProgress>,
    pub ongoing: Option<Operation>,
}

impl ReaderModel {
    /// The same state, with another operation in progress.
    pub open spec fn with_purpose(self, purpose: Purpose) -> ReaderModel {
        ReaderModel {
            skip_base: purpose.skip_base,
            transfer: purpose.transfer,
            ongoing: purpose.ongoing,
            ..self
        }
    }

    /// Whether a function has the same effect with another operation in progress.
    pub open spec fn is_indifferent<T>(
        stop: (ReaderModel, Outcome<T>),
        other: (ReaderModel, Outcome<T>),
        purpose: Purpose,
    ) -> bool {
        if stop.1 is Failed {
            other == stop
        } else {
            other == (stop.0.with_purpose(purpose), stop.1)
        }
    }

    pub proof fn lemma_after_name_indifferent(self, purpose: Purpose)
        ensures
            ReaderModel::is_indifferent(
                self.after_name(),
                self.with_purpose(purpose).after_name(),
                purpose,
            ),
    {
    }

    pub proof fn lemma_peek_token_indifferent(self, byte: u8, purpose: Purpose)
        ensures
            ReaderModel::is_indifferent(
                self.peek_token(byte),
                self.with_purpose(purpose).peek_token(byte),
                purpose,
            ),
    {
    }

    pub proof fn lemma_peek_after_comma_indifferent(self, purpose: Purpose)
        ensures
            ReaderModel::is_indifferent(
                self.peek_after_comma(),
                self.with_purpose(purpose).peek_after_comma(),
                purpose,
            ),
    {
        let (scan, end) = self.scan.skip_gap(self.settings.allow_comments);
        if let GapEnd::Byte(byte) = end {
            let next = ReaderModel { scan, ..self };
            next.lemma_peek_token_indifferent(byte, purpose);
        }
    }

    pub proof fn lemma_peek_separated_indifferent(self, purpose: Purpose)
        ensures
            ReaderModel::is_indifferent(
                self.peek_separated(),
                self.with_purpose(purpose).peek_separated(),
                purpose,
            ),
    {
        if self.comma is Some {
            self.lemma_peek_after_comma_indifferent(purpose);
        } else {
            let (scan, end) = self.scan.skip_gap(self.settings.allow_comments);
            if let GapEnd::Byte(byte) = end {
                if byte != crate::ascii::COMMA {
                    let next = ReaderModel { scan, ..self };
                    next.lemma_peek_token_indifferent(byte, purpose);
                } else if self.can_have_comma() {
                    let behind = ReaderModel {
                        scan: scan.consumed(1, 1),
                        comma: Some(scan.spot),
                        ..self
                    };
                    behind.lemma_peek_after_comma_indifferent(purpose);
                }
            }
        }
    }

    pub proof fn lemma_peek_optional_indifferent(self, purpose: Purpose)
        ensures
            ReaderModel::is_indifferent(
                self.peek_optional(),
                self.with_purpose(purpose).peek_optional(),
                purpose,
            ),
    {
        if self.peeked is None {
            if self.expects_member_value() && !self.colon_read {
                self.lemma_after_name_indifferent(purpose);
                let (next, outcome) = self.after_name();
                if outcome is Ready {
                    next.lemma_peek_separated_indifferent(purpose);
                }
            } else {
                self.lemma_peek_separated_indifferent(purpose);
            }
        }
    }

    pub proof fn lemma_peek_internal_indifferent(self, purpose: Purpose)
        ensures
            ReaderModel::is_indifferent(
                self.peek_internal(),
                self.with_purpose(purpose).peek_internal(),
                purpose,
            ),
    {
        self.lemma_peek_optional_indifferent(purpose);
    }

    pub proof fn lemma_peek_value_indifferent(self, purpose: Purpose)
        ensures
            ReaderModel::is_indifferent(
                self.peek_value(),
                self.with_purpose(purpose).peek_value(),
                purpose,
            ),
    {
        self.lemma_peek_internal_indifferent(purpose);
    }
}

} // verus!
