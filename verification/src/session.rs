//! Sequences of operations.

use vstd::prelude::*;

use crate::model;
use crate::model::{Outcome, State, Task};
use crate::tracking;
use crate::types::{ErrorKind, ErrorModel, PositionModel, ReaderSettings, StackValue, ValueType};

verus! {

/// What is asked of a reader.
pub enum Request {
    /// Input arrives. The flag tells that it is all the input there is.
    Supply(Seq<u8>, bool),
    /// No input could be obtained because of an error of the source.
    SourceError(ErrorKind),
    Position,
    Peek,
    HasNext,
    Begin(StackValue),
    End,
    Name,
    SkipName,
    Boolean,
    Null,
    Text,
    Number,
    StringReader,
    /// Reading bytes of a string piecewise, where some bytes are there already.
    Pieces(Seq<u8>, nat),
    Skip,
    SkipToTopLevel,
    ConsumeTrailingWhitespace,
}

/// What a reader answers.
pub enum Answer {
    NeedInput,
    Failed(ErrorModel),
    Done,
    Position(PositionModel),
    Type(ValueType),
    Flag(bool),
    Text(Seq<char>),
    /// The bytes which have been read of a string, and whether it has ended.
    Bytes(Seq<u8>, bool),
    /// More input is needed; these bytes have been read of a string.
    NeedInputBehind(Seq<u8>),
}

/// The answer which an outcome stands for, and the state behind it. When input is needed, the
/// operation can be asked for again in the state in which it waits.
pub open spec fn answer<T>(o: Outcome<T>, result: spec_fn(T) -> Answer) -> (Answer, State) {
    match o {
        Outcome::NeedMore(s) => (Answer::NeedInput, s),
        Outcome::Failed(e, s) => (Answer::Failed(e), s),
        Outcome::Ready(v, s) => (result(v), s),
    }
}

/// What the reader answers to a request, and the state behind it.
pub open spec fn perform(st: State, request: Request) -> (Answer, State) {
    match request {
        Request::Supply(bytes, eof) => (Answer::Done, model::extend(st, bytes, eof)),
        // Nothing is obtained behind the end of the input
        Request::SourceError(kind) => if st.eof || kind == ErrorKind::Interrupted {
            (Answer::Done, st)
        } else {
            let s = model::source_failed(st);
            (
                Answer::Failed(
                    ErrorModel::Io { kind, message: Seq::empty(), location: s.position() },
                ),
                s,
            )
        },
        Request::Position => (Answer::Position(st.position()), st),
        Request::Peek => answer(model::type_ahead_run(st), |v: ValueType| Answer::Type(v)),
        Request::HasNext => answer(model::has_next_run(st), |v: bool| Answer::Flag(v)),
        Request::Begin(kind) => answer(model::begin_run(st, kind), |v: ()| Answer::Done),
        Request::End => answer(model::end_run(st), |v: ()| Answer::Done),
        Request::Name => answer(model::name_run(st, Task::Name), |v: Seq<char>| Answer::Text(v)),
        Request::SkipName => answer(
            model::name_run(st, Task::SkipName),
            |v: Seq<char>| Answer::Done,
        ),
        Request::Boolean => answer(model::bool_run(st), |v: bool| Answer::Flag(v)),
        Request::Null => answer(model::null_run(st), |v: ()| Answer::Done),
        Request::Text => answer(model::string_run(st), |v: Seq<char>| Answer::Text(v)),
        Request::Number => answer(model::number_run(st), |v: Seq<char>| Answer::Text(v)),
        Request::StringReader => answer(model::string_reader_run(st), |v: ()| Answer::Done),
        Request::Pieces(produced, want) => match model::pieces_run(st, produced, want) {
            Outcome::NeedMore(s) => (
                Answer::NeedInputBehind(model::pieces_waiting(st, produced, want)),
                s,
            ),
            Outcome::Failed(e, s) => (Answer::Failed(e), s),
            Outcome::Ready((bytes, reached_end), s) => (Answer::Bytes(bytes, reached_end), s),
        },
        Request::Skip => answer(model::skip_run(st), |v: ()| Answer::Done),
        Request::SkipToTopLevel => answer(model::top_run(st), |v: ()| Answer::Done),
        Request::ConsumeTrailingWhitespace => answer(
            model::trailing_run(st),
            |v: ()| Answer::Done,
        ),
    }
}

/// The answers to a sequence of requests.
pub open spec fn answers(st: State, requests: Seq<Request>) -> Seq<Answer>
    decreases requests.len(),
{
    if requests.len() == 0 {
        Seq::empty()
    } else {
        let (first, s) = perform(st, requests[0]);
        seq![first] + answers(s, requests.skip(1))
    }
}

/// The answer of a reader which does not track the path.
pub open spec fn untracked_answer(a: Answer) -> Answer {
    match a {
        Answer::Failed(e) => Answer::Failed(tracking::untracked_error(e)),
        Answer::Position(position) => Answer::Position(tracking::untracked_position(position)),
        _ => a,
    }
}

#[verifier::spinoff_prover]
#[verifier::rlimit(60)]
proof fn lemma_perform_untracked(st: State, request: Request)
    ensures
        perform(tracking::untracked(st), request).0 == untracked_answer(perform(st, request).0),
        perform(tracking::untracked(st), request).1 == tracking::untracked(
            perform(st, request).1,
        ),
{
    match request {
        Request::Supply(bytes, eof) => {
            assert(model::extend(tracking::untracked(st), bytes, eof) =~= tracking::untracked(
                model::extend(st, bytes, eof),
            ));
        },
        Request::SourceError(_) => {
            tracking::law_source_error_untracked(st);
        },
        Request::Position => {},
        Request::Peek => {
            tracking::law_peek_untracked(st);
        },
        Request::HasNext | Request::End => {
            tracking::law_containers_untracked(st, StackValue::Array);
        },
        Request::Begin(kind) => {
            tracking::law_containers_untracked(st, kind);
        },
        Request::Name | Request::SkipName => {
            tracking::law_names_untracked(st);
        },
        Request::Boolean | Request::Null => {
            tracking::law_literals_untracked(st);
        },
        Request::Text | Request::StringReader => {
            tracking::law_strings_untracked(st);
        },
        Request::Number => {
            tracking::law_numbers_untracked(st);
        },
        Request::Pieces(produced, want) => {
            tracking::law_pieces_untracked(st, produced, want);
            tracking::law_pieces_waiting_untracked(st, produced, want);
        },
        Request::Skip => {
            tracking::law_skip_untracked(st);
        },
        Request::SkipToTopLevel => {
            tracking::law_top_untracked(st);
        },
        Request::ConsumeTrailingWhitespace => {
            tracking::law_trailing_untracked(st);
        },
    }
}

proof fn lemma_answers_untracked(st: State, requests: Seq<Request>)
    ensures
        answers(tracking::untracked(st), requests) == answers(st, requests).map_values(
            |a: Answer| untracked_answer(a),
        ),
    decreases requests.len(),
{
    let strip = |a: Answer| untracked_answer(a);
    if requests.len() > 0 {
        let (first, s) = perform(st, requests[0]);
        lemma_perform_untracked(st, requests[0]);
        lemma_answers_untracked(s, requests.skip(1));
        let later = answers(s, requests.skip(1));
        assert((seq![first] + later).map_values(strip) =~= seq![strip(first)] + later.map_values(
            strip,
        ));
    } else {
        assert(answers(st, requests).map_values(strip) =~= Seq::<Answer>::empty());
    }
}

/// Whether the path is tracked has no effect on what is read: whatever is asked of a reader, and
/// whatever its source gives or fails with, the answers are the same apart from the path in
/// positions and error locations.
pub proof fn law_tracking_has_no_effect(settings: ReaderSettings, requests: Seq<Request>)
    ensures
        answers(
            model::initial_state(ReaderSettings { track_path: false, ..settings }),
            requests,
        ) == answers(
            model::initial_state(ReaderSettings { track_path: true, ..settings }),
            requests,
        ).map_values(|a: Answer| untracked_answer(a)),
{
    let with_path = model::initial_state(ReaderSettings { track_path: true, ..settings });
    lemma_answers_untracked(with_path, requests);
    assert(tracking::untracked(with_path) =~= model::initial_state(
        ReaderSettings { track_path: false, ..settings },
    ));
}

/// Looking twice at the type of the next value, or asking twice whether one follows before the
/// end of the input, gives the same answer, and the second time nothing changes any more.
pub proof fn law_looking_twice(st: State)
    ensures
        perform(st, Request::Peek).0 is Type ==> perform(
            perform(st, Request::Peek).1,
            Request::Peek,
        ) == perform(st, Request::Peek),
        perform(st, Request::HasNext).0 is Flag && perform(st, Request::HasNext).1.peeked is Some
            ==> perform(
            perform(st, Request::HasNext).1,
            Request::HasNext,
        ) == perform(st, Request::HasNext),
{
    model::lemma_peek_work(st);
}

} // verus!
