//! Plain data of the reader: positions, settings, tokens and errors.

use vstd::prelude::*;

verus! {

/// Kind of an I/O failure reported by the source of the JSON data.
#[derive(Clone, Copy, PartialEq, Eq, Structural, Debug)]
pub enum ErrorKind {
    Other,
    NotFound,
    PermissionDenied,
    ConnectionRefused,
    ConnectionReset,
    ConnectionAborted,
    NotConnected,
    AddrInUse,
    AddrNotAvailable,
    BrokenPipe,
    AlreadyExists,
    InvalidInput,
    InvalidData,
    TimedOut,
    Interrupted,
    Unsupported,
    OutOfMemory,
    WriteZero,
}

/// An I/O failure together with a description of it.
#[derive(Clone, Debug)]
pub struct IoError {
    pub kind: ErrorKind,
    pub message: String,
}

/// Position measured in lines and columns, both starting at 0.
#[derive(Clone, Copy, PartialEq, Eq, Structural, Debug)]
pub struct LinePosition {
    /// Number of line breaks in front of the position.
    pub line: u64,
    /// Number of characters between the last line break and the position.
    pub column: u64,
}

/// One step of a path into a JSON document.
#[derive(Clone, Debug)]
pub enum JsonPathPiece {
    /// Index of an array item.
    ArrayItem(u64),
    /// Name of an object member.
    ObjectMember(String),
}

/// Model of [`JsonPathPiece`].
pub enum PathStep {
    Item(u64),
    Member(Seq<char>),
}

impl View for JsonPathPiece {
    type V = PathStep;

    open spec fn view(&self) -> PathStep {
        match self {
            JsonPathPiece::ArrayItem(index) => PathStep::Item(*index),
            JsonPathPiece::ObjectMember(name) => PathStep::Member(name@),
        }
    }
}

/// Model of a path: the model of each of its steps.
pub open spec fn path_view(pieces: Seq<JsonPathPiece>) -> Seq<PathStep> {
    pieces.map_values(|piece: JsonPathPiece| piece@)
}

/// Position of the reader within the JSON document.
#[derive(Clone, Debug)]
pub struct JsonReaderPosition {
    pub path: Option<Vec<JsonPathPiece>>,
    pub line_pos: Option<LinePosition>,
    pub data_pos: Option<u64>,
}

/// Model of [`JsonReaderPosition`].
pub struct PositionModel {
    pub path: Option<Seq<PathStep>>,
    pub line_pos: Option<LinePosition>,
    pub data_pos: Option<u64>,
}

/// Model of an optional path.
pub open spec fn optional_path_view(path: Option<Vec<JsonPathPiece>>) -> Option<Seq<PathStep>> {
    match path {
        Some(pieces) => Some(path_view(pieces@)),
        None => None,
    }
}

impl View for JsonReaderPosition {
    type V = PositionModel;

    open spec fn view(&self) -> PositionModel {
        PositionModel {
            path: optional_path_view(self.path),
            line_pos: self.line_pos,
            data_pos: self.data_pos,
        }
    }
}

/// What is wrong with malformed JSON data.
#[derive(Clone, Copy, PartialEq, Eq, Structural, Debug)]
pub enum SyntaxErrorKind {
    /// A literal is incomplete or misspelled, for example `tru`.
    InvalidLiteral,
    /// A literal is directly followed by unrelated data, for example `truey`.
    TrailingDataAfterLiteral,
    /// A closing bracket does not match the current array or object.
    UnexpectedClosingBracket,
    /// A comma stands where none may stand.
    UnexpectedComma,
    /// The comma between two array items or object members is missing.
    MissingComma,
    /// A colon stands where none may stand.
    UnexpectedColon,
    /// The colon between member name and member value is missing.
    MissingColon,
    /// A number does not have the form of a JSON number.
    MalformedNumber,
    /// A number is directly followed by unrelated data, for example `123f`.
    TrailingDataAfterNumber,
    /// Neither a member name nor the end of the object follows.
    ExpectingMemberNameOrObjectEnd,
    /// The character behind a `\` names no escape sequence.
    UnknownEscapeSequence,
    /// An escape sequence is incomplete or holds a wrong digit.
    MalformedEscapeSequence,
    /// A surrogate escape stands without its counterpart.
    UnpairedSurrogatePairEscapeSequence,
    /// A control character is not written as escape sequence.
    NotEscapedControlCharacter,
    /// A trailing comma was found, but the settings do not allow it.
    TrailingCommaNotEnabled,
    /// A comment was found, but the settings do not allow it.
    CommentsNotEnabled,
    /// A `/` is not followed by `/` or `*`.
    IncompleteComment,
    /// The data ends inside a block comment.
    BlockCommentNotClosed,
    /// The data is no JSON at all.
    MalformedJson,
    /// The data ends before the document does.
    IncompleteDocument,
    /// Data follows the top-level value.
    TrailingData,
}

/// A syntax error and where it is.
#[derive(Clone, Debug)]
pub struct JsonSyntaxError {
    pub kind: SyntaxErrorKind,
    pub location: JsonReaderPosition,
}

/// How the structure of the document differs from what the caller expects.
#[derive(Clone, Copy, PartialEq, Eq, Structural, Debug)]
pub enum UnexpectedStructureKind {
    FewerElementsThanExpected,
    MoreElementsThanExpected,
}

/// Type of a JSON value.
#[derive(Clone, Copy, PartialEq, Eq, Structural, Debug)]
pub enum ValueType {
    Array,
    Object,
    String,
    Number,
    Boolean,
    Null,
}

/// Failure of a reading operation.
#[derive(Clone, Debug)]
pub enum ReaderError {
    /// The JSON data is malformed.
    SyntaxError(JsonSyntaxError),
    /// The next value has another type than the caller asked for.
    UnexpectedValueType { expected: ValueType, actual: ValueType, location: JsonReaderPosition },
    /// The document has another structure than the caller expects.
    UnexpectedStructure { kind: UnexpectedStructureKind, location: JsonReaderPosition },
    /// Entering the array or object would exceed the nesting limit of the settings.
    MaxNestingDepthExceeded { max_nesting_depth: u32, location: JsonReaderPosition },
    /// The number exceeds the restrictions of the settings.
    UnsupportedNumberValue { number: String, location: JsonReaderPosition },
    /// The data could not be obtained, or is no valid UTF-8.
    IoError { error: IoError, location: JsonReaderPosition },
}

/// Model of [`ReaderError`].
pub enum ErrorModel {
    Syntax { kind: SyntaxErrorKind, location: PositionModel },
    UnexpectedValueType { expected: ValueType, actual: ValueType, location: PositionModel },
    UnexpectedStructure { kind: UnexpectedStructureKind, location: PositionModel },
    MaxNestingDepthExceeded { max_nesting_depth: u32, location: PositionModel },
    UnsupportedNumberValue { number: Seq<char>, location: PositionModel },
    Io { kind: ErrorKind, message: Seq<char>, location: PositionModel },
}

impl View for ReaderError {
    type V = ErrorModel;

    open spec fn view(&self) -> ErrorModel {
        match self {
            ReaderError::SyntaxError(e) => ErrorModel::Syntax {
                kind: e.kind,
                location: e.location@,
            },
            ReaderError::UnexpectedValueType { expected, actual, location } =>
                ErrorModel::UnexpectedValueType {
                    expected: *expected,
                    actual: *actual,
                    location: location@,
                },
            ReaderError::UnexpectedStructure { kind, location } =>
                ErrorModel::UnexpectedStructure { kind: *kind, location: location@ },
            ReaderError::MaxNestingDepthExceeded { max_nesting_depth, location } =>
                ErrorModel::MaxNestingDepthExceeded {
                    max_nesting_depth: *max_nesting_depth,
                    location: location@,
                },
            ReaderError::UnsupportedNumberValue { number, location } =>
                ErrorModel::UnsupportedNumberValue { number: number@, location: location@ },
            ReaderError::IoError { error, location } => ErrorModel::Io {
                kind: error.kind,
                message: error.message@,
                location: location@,
            },
        }
    }
}

/// Copies a path.
pub fn clone_path(path: &Vec<JsonPathPiece>) -> (r: Vec<JsonPathPiece>)
    ensures
        path_view(r@) == path_view(path@),
{
    let mut r: Vec<JsonPathPiece> = Vec::with_capacity(path.len());
    let mut i: usize = 0;
    while i < path.len()
        invariant
            i <= path@.len(),
            r@.len() == i,
            forall|j: int| 0 <= j < i ==> (#[trigger] r@[j])@ == path@[j]@,
        decreases path@.len() - i,
    {
        match &path[i] {
            JsonPathPiece::ArrayItem(index) => {
                r.push(JsonPathPiece::ArrayItem(*index));
            },
            JsonPathPiece::ObjectMember(name) => {
                r.push(JsonPathPiece::ObjectMember(name.clone()));
            },
        }
        i = i + 1;
    }
    assert(path_view(r@) =~= path_view(path@));
    r
}

impl JsonReaderPosition {
    /// Copies the position.
    pub fn duplicate(&self) -> (r: Self)
        ensures
            r@ == self@,
    {
        JsonReaderPosition {
            path: match &self.path {
                Some(path) => Some(clone_path(path)),
                None => None,
            },
            line_pos: self.line_pos,
            data_pos: self.data_pos,
        }
    }
}

impl ReaderError {
    /// Copies the error.
    pub fn duplicate(&self) -> (r: Self)
        ensures
            r@ == self@,
    {
        match self {
            ReaderError::SyntaxError(e) => ReaderError::SyntaxError(
                JsonSyntaxError { kind: e.kind, location: e.location.duplicate() },
            ),
            ReaderError::UnexpectedValueType { expected, actual, location } =>
                ReaderError::UnexpectedValueType {
                    expected: *expected,
                    actual: *actual,
                    location: location.duplicate(),
                },
            ReaderError::UnexpectedStructure { kind, location } =>
                ReaderError::UnexpectedStructure { kind: *kind, location: location.duplicate() },
            ReaderError::MaxNestingDepthExceeded { max_nesting_depth, location } =>
                ReaderError::MaxNestingDepthExceeded {
                    max_nesting_depth: *max_nesting_depth,
                    location: location.duplicate(),
                },
            ReaderError::UnsupportedNumberValue { number, location } =>
                ReaderError::UnsupportedNumberValue {
                    number: number.clone(),
                    location: location.duplicate(),
                },
            ReaderError::IoError { error, location } => ReaderError::IoError {
                error: IoError { kind: error.kind, message: error.message.clone() },
                location: location.duplicate(),
            },
        }
    }
}

/// What a unit of input is rejected for, without the place where it happened.
#[derive(Clone, Copy, PartialEq, Eq, Structural, Debug)]
pub enum Fault {
    /// The input violates the JSON grammar.
    Syntax(SyntaxErrorKind),
    /// The input is no valid UTF-8.
    InvalidUtf8,
}

/// Settings to customize which JSON data the reader accepts.
#[derive(Clone, Copy, Debug)]
pub struct ReaderSettings {
    /// Whether `// ...` and `/* ... */` comments may stand where whitespace may stand.
    pub allow_comments: bool,
    /// Whether the last array item or object member may be followed by a comma.
    pub allow_trailing_comma: bool,
    /// Whether more than one top-level value may be read.
    pub allow_multiple_top_level: bool,
    /// Whether error locations include the JSON path.
    pub track_path: bool,
    /// How many arrays and objects may be open at the same time; `None` means no limit.
    pub max_nesting_depth: Option<u32>,
    /// Whether numbers with an exponent below -99 or above 99, or with more than 100
    /// characters, are rejected.
    pub restrict_number_values: bool,
}

/// Nesting limit of the default settings.
pub const DEFAULT_MAX_NESTING_DEPTH: u32 = 128;

/// The default settings: compliant with the JSON standard.
pub open spec fn default_settings() -> ReaderSettings {
    ReaderSettings {
        allow_comments: false,
        allow_trailing_comma: false,
        allow_multiple_top_level: false,
        track_path: true,
        max_nesting_depth: Some(DEFAULT_MAX_NESTING_DEPTH),
        restrict_number_values: true,
    }
}

impl Default for ReaderSettings {
    /// Creates the default settings.
    fn default() -> (settings: Self)
        ensures
            settings == default_settings(),
    {
        ReaderSettings {
            allow_comments: false,
            allow_trailing_comma: false,
            allow_multiple_top_level: false,
            track_path: true,
            max_nesting_depth: Some(DEFAULT_MAX_NESTING_DEPTH),
            restrict_number_values: true,
        }
    }
}

/// A point of the document: line and column as in [`LinePosition`], and the number of
/// bytes in front of it.
#[derive(Clone, Copy, PartialEq, Eq, Structural, Debug)]
pub struct Place {
    pub line: u64,
    pub column: u64,
    pub byte_pos: u64,
}

impl Place {
    /// The place behind `columns` characters which take up `bytes` bytes.
    pub open spec fn forward(self, columns: int, bytes: int) -> Place {
        Place {
            line: self.line,
            column: (self.column + columns) as u64,
            byte_pos: (self.byte_pos + bytes) as u64,
        }
    }

    /// The place behind a line break of `bytes` bytes.
    pub open spec fn next_line(self, bytes: int) -> Place {
        Place {
            line: (self.line + 1) as u64,
            column: 0,
            byte_pos: (self.byte_pos + bytes) as u64,
        }
    }
}

/// A token which has been recognized but not consumed by the caller yet.
#[derive(Clone, Copy, PartialEq, Eq, Structural, Debug)]
pub enum PeekedValue {
    ObjectStart,
    ObjectEnd,
    ArrayStart,
    ArrayEnd,
    /// The opening `"` has been taken from the input already.
    StringStart,
    /// The opening `"` has been taken from the input already.
    NameStart,
    /// No byte of the number has been taken from the input yet.
    NumberStart,
    Null,
    BooleanTrue,
    BooleanFalse,
}

/// An array or object which has been entered.
#[derive(Clone, Copy, PartialEq, Eq, Structural, Debug)]
pub enum StackValue {
    Array,
    Object,
}

/// Result of an operation which may have to wait for input.
#[derive(Debug)]
pub enum Step<T> {
    /// The operation is complete.
    Ready(T),
    /// More input has to be supplied, then the same operation has to be called again.
    NeedInput,
}

/// Result of supplying input.
#[derive(Clone, Copy, PartialEq, Eq, Structural, Debug)]
pub enum FillStep {
    /// Input has been added.
    Filled,
    /// The end of the input has been reached.
    EndOfInput,
    /// The source was interrupted; it has to be asked again.
    Retry,
}

} // verus!
