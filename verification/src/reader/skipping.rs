//! Skipping of values.

use vstd::prelude::*;

use super::JsonStreamReader;
use crate::error::{Stop, SyntaxErrorKind, ValueType};
use crate::model::Activity;
use crate::scan::GapEnd;
use crate::token::StackValue;

verus! {

impl<R> JsonStreamReader<R> {
    /// Ends the innermost array or object.
    pub(super) fn end_innermost(&mut self) -> (result: Result<(), Stop>)
        requires
            old(self).scanner.wf(),
            old(self)@.can_peek(),
            old(self)@.stack.len() > 0,
        ensures
            old(self).moved_to(*final(self), old(self)@.end_container(old(self)@.stack.last()).0),
            old(self)@.end_container(old(self)@.stack.last()).1.is_result(result),
    {
        if self.is_in_array() {
            self.end_container(StackValue::Array)
        } else {
            self.end_container(StackValue::Object)
        }
    }

    /// Skips the start of an array or object, or another value completely.
    fn skip_item(&mut self) -> (result: Result<(), Stop>)
        requires
            old(self).scanner.wf(),
            old(self)@.can_resume(),
            !old(self)@.expects_member_name,
            match old(self)@.doing {
                crate::model::Doing::Idle => true,
                crate::model::Doing::ReadingString
                | crate::model::Doing::ReadingNumber(_) => true,
                _ => false,
            },
        ensures
            old(self).moved_to(*final(self), old(self)@.skip_item().0),
            old(self)@.skip_item().1.is_result(result),
    {
        match self.activity {
            Activity::ReadingString => {
                let keep = self.scanner.is_reading_value();
                self.read_string(keep, false)?;
                return Ok(());
            },
            Activity::ReadingNumber(_) => {
                let keep = self.scanner.is_reading_value();
                self.read_number_bytes(keep, false)?;
                return Ok(());
            },
            _ => {},
        }
        proof {
            self@.lemma_peek_value();
        }
        match self.peek_value()? {
            ValueType::Array => self.on_container_start(StackValue::Array),
            ValueType::Object => self.on_container_start(StackValue::Object),
            ValueType::String => {
                self.read_string(false, false)?;
                Ok(())
            },
            ValueType::Number => {
                self.read_number_bytes(false, false)?;
                Ok(())
            },
            ValueType::Boolean => {
                self.read_bool()?;
                Ok(())
            },
            ValueType::Null => self.read_null(),
        }
    }

    /// Skips the next element or the end of an array or object.
    fn skip_element(&mut self) -> (result: Result<(), Stop>)
        requires
            old(self).scanner.wf(),
            old(self)@.can_peek(),
            old(self)@.stack.len() > 0,
        ensures
            old(self).moved_to(*final(self), old(self)@.skip_element().0),
            old(self)@.skip_element().1.is_result(result),
    {
        proof {
            self@.lemma_check_next();
        }
        if !self.check_next()? {
            self.end_innermost()
        } else if self.expects_member_name {
            self.pass_name()
        } else {
            self.skip_item()
        }
    }

    /// Skips the rest of the value at the given nesting depth.
    fn skip_rest(&mut self, base: usize) -> (result: Result<(), Stop>)
        requires
            old(self).scanner.wf(),
            old(self)@.can_skip(base as nat),
        ensures
            old(self).moved_to(*final(self), old(self)@.skip_rest(base as nat).0),
            old(self)@.skip_rest(base as nat).1.is_result(result),
    {
        loop
            invariant
                self.scanner.wf(),
                self.reader == old(self).reader,
                self@.can_skip(base as nat),
                self@.skip_rest(base as nat) == old(self)@.skip_rest(base as nat),
            decreases self@.remaining(),
        {
            proof {
                self@.lemma_skip_step(base as nat);
            }
            let result = match self.activity {
                Activity::ReadingName => self.pass_name(),
                Activity::Idle if self.stack.len() > base && !self.expects_member_value() => {
                    self.skip_element()
                },
                _ => self.skip_item(),
            };
            if let Err(stop) = result {
                return Err(stop);
            }
            if self.stack.len() <= base {
                self.skip_base = None;
                return Ok(());
            }
        }
    }

    /// Starts or continues skipping a value.
    pub(super) fn pass_value(&mut self) -> (result: Result<(), Stop>)
        requires
            old(self).scanner.wf(),
            old(self)@.can_pass_value(),
        ensures
            old(self).moved_to(*final(self), old(self)@.pass_value().0),
            old(self)@.pass_value().1.is_result(result),
    {
        match self.skip_base {
            Some(base) => self.skip_rest(base),
            None => {
                let base = self.stack.len();
                self.skip_base = Some(base);
                self.skip_rest(base)
            },
        }
    }

    /// One step of skipping to the top-level.
    fn top_level_step(&mut self) -> (result: Result<bool, Stop>)
        requires
            old(self).scanner.wf(),
            old(self)@.can_pass_to_top_level(),
        ensures
            old(self).moved_to(*final(self), old(self)@.top_level_step().0),
            old(self)@.top_level_step().1.is_result(result),
    {
        let is_reading_name = match self.activity {
            Activity::ReadingName => true,
            _ => false,
        };
        if is_reading_name && self.skip_base.is_none() {
            self.pass_name()?;
            return Ok(false);
        }
        // Handle expected member value separately because it must not be checked for a next
        // element when member value is expected
        if self.skip_base.is_some() || self.expects_member_value() {
            self.pass_value()?;
            return Ok(false);
        }
        if self.stack.len() == 0 {
            return Ok(true);
        }
        proof {
            self@.lemma_check_next();
        }
        if !self.check_next()? {
            self.end_innermost()?;
        } else if self.expects_member_name {
            self.pass_name()?;
        } else {
            self.pass_value()?;
        }
        Ok(false)
    }

    /// Skips all remaining elements of the started arrays and objects, and their ends.
    pub(super) fn pass_to_top_level(&mut self) -> (result: Result<(), Stop>)
        requires
            old(self).scanner.wf(),
            old(self)@.can_pass_to_top_level(),
        ensures
            old(self).moved_to(*final(self), old(self)@.pass_to_top_level().0),
            old(self)@.pass_to_top_level().1.is_result(result),
    {
        loop
            invariant
                self.scanner.wf(),
                self.reader == old(self).reader,
                self@.can_pass_to_top_level(),
                self@.pass_to_top_level() == old(self)@.pass_to_top_level(),
            decreases self@.remaining(),
        {
            proof {
                self@.lemma_top_level_step();
            }
            match self.top_level_step() {
                Ok(true) => return Ok(()),
                Ok(false) => {},
                Err(stop) => return Err(stop),
            }
        }
    }

    /// Consumes whitespace and comments up to the end of the data.
    pub(super) fn pass_trailing_whitespace(&mut self) -> (result: Result<(), Stop>)
        requires
            old(self).scanner.wf(),
        ensures
            old(self).moved_to(*final(self), old(self)@.pass_trailing_whitespace().0),
            old(self)@.pass_trailing_whitespace().1.is_result(result),
    {
        match self.skip_whitespace() {
            GapEnd::Byte(_) => self.create_syntax_value_error(SyntaxErrorKind::TrailingData),
            GapEnd::Eof => Ok(()),
            GapEnd::NeedsInput => Err(Stop::NeedsInput),
            GapEnd::Rejected(rejection) => self.reject(rejection),
        }
    }
}

} // verus!
