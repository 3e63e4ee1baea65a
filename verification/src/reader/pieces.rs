//! Reading strings one character at a time.

use vstd::prelude::*;
use vstd::slice::slice_subrange;

use crate::chars::{self, EncodedChar};
use crate::model::{self, Outcome, State};
use crate::reader::{self, JsonStreamReader};
use crate::text::{self, count_malformed, read_string_unit, TextUnit};
use crate::types::{ReaderError, Step, ValueType};

verus! {

impl<R> JsonStreamReader<R> {
    /// Starts to read a string piecewise.
    pub(crate) fn start_string_reader(&mut self) -> (r: Result<Step<()>, ReaderError>)
        requires
            old(self).can_read_value(),
        ensures
            final(self).wf(),
            final(self).source() == old(self).source(),
            reader::resolves(|s: State| model::string_reader_run(s), old(self)@, final(self)@, r),
            r matches Ok(Step::NeedInput) ==> final(self).can_read_value(),
            r matches Ok(Step::Ready(_)) ==> final(self)@.string_reader_active,
    {
        match self.start_expected_value_type(ValueType::String, false) {
            Err(e) => Err(e),
            Ok(Step::NeedInput) => Ok(Step::NeedInput),
            Ok(Step::Ready(_)) => {
                self.is_string_value_reader_active = true;
                Ok(Step::Ready(()))
            },
        }
    }

    /// Reads the next character or escape sequence of a string which is read piecewise. The
    /// result is the UTF-8 encoding of the character, `None` behind the end of the string.
    #[verifier::spinoff_prover]
    pub(crate) fn read_string_bytes(&mut self) -> (r: Result<Step<Option<EncodedChar>>, ReaderError>)
        requires
            old(self).wf(),
            old(self)@.string_reader_active,
        ensures
            final(self).wf(),
            final(self).source() == old(self).source(),
            r is Ok ==> model::received(final(self)@) == model::received(old(self)@),
            match r {
                Ok(Step::Ready(Some(c))) => c.wf() && model::piece_run(old(self)@) == Outcome::Ready(
                    Some(c@),
                    final(self)@,
                ) && final(self)@.string_reader_active,
                Ok(Step::Ready(None)) => model::piece_run(old(self)@) == Outcome::Ready(
                    None::<Seq<u8>>,
                    final(self)@,
                ),
                Ok(Step::NeedInput) => model::piece_run(old(self)@) == Outcome::<Option<Seq<u8>>>::NeedMore(final(self)@) && final(self)@
                    == old(self)@ && model::undecided(final(self)@),
                Err(e) => model::piece_run(old(self)@) == Outcome::<Option<Seq<u8>>>::Failed(
                    e@,
                    final(self)@,
                ) && final(self)@.string_reader_active,
            },
    {
        let ghost before = self@;
        let available = self.input.available();
        let unit = read_string_unit(available, self.input.is_eof());
        proof {
            text::lemma_text_unit(before.rest, before.eof);
        }
        match unit {
            TextUnit::Incomplete => Ok(Step::NeedInput),
            TextUnit::Fault(fault) => {
                let taken: usize = count_malformed(available);
                self.input.consume(taken);
                assert(self@ =~= (State { rest: before.rest.skip(taken as int), ..before }));
                Err(self.create_fault_error(fault))
            },
            TextUnit::End => {
                self.input.consume(1);
                self.advance(1, 1);
                self.is_string_value_reader_active = false;
                assert(self@ =~= (State { string_reader_active: false, ..before.moved(1, 1) }));
                self.on_value_end();
                Ok(Step::Ready(None))
            },
            TextUnit::Raw(len) => {
                let c = EncodedChar::copy(slice_subrange(available, 0, len));
                assert(c@ =~= text::unit_bytes(unit, before.rest));
                self.input.consume(len);
                self.advance(1, len as u64);
                Ok(Step::Ready(Some(c)))
            },
            TextUnit::Escape { len, c } => {
                let encoded = chars::encode_char(c);
                let c = EncodedChar::copy(encoded.as_slice());
                self.input.consume(len);
                self.advance(len as u64, len as u64);
                Ok(Step::Ready(Some(c)))
            },
        }
    }
}

} // verus!
