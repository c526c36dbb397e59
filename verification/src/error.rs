use vstd::prelude::*;
use vstd::std_specs::convert::FromSpecImpl;

verus! {

/// The status that the engine reports for a call.
#[derive(Debug, Clone, Copy, PartialEq, Eq, Hash, Structural)]
pub enum StatusCode {
    Success,
    NotFound,
    AlreadyExists,
    InvalidArgument,
    NotSupported,
    InternalError,
    PermissionDenied,
    FailedPrecondition,
    Unknown,
}

impl StatusCode {
    /// The status that a raw engine code stands for. Codes `0` to `7` are the
    /// named statuses in order; every other code is `Unknown`.
    pub open spec fn of_code(code: u32) -> StatusCode {
        if code == 0 {
            StatusCode::Success
        } else if code == 1 {
            StatusCode::NotFound
        } else if code == 2 {
            StatusCode::AlreadyExists
        } else if code == 3 {
            StatusCode::InvalidArgument
        } else if code == 4 {
            StatusCode::NotSupported
        } else if code == 5 {
            StatusCode::InternalError
        } else if code == 6 {
            StatusCode::PermissionDenied
        } else if code == 7 {
            StatusCode::FailedPrecondition
        } else {
            StatusCode::Unknown
        }
    }

    /// The raw code of a status: its position among the variants.
    pub open spec fn spec_code(self) -> u32 {
        match self {
            StatusCode::Success => 0,
            StatusCode::NotFound => 1,
            StatusCode::AlreadyExists => 2,
            StatusCode::InvalidArgument => 3,
            StatusCode::NotSupported => 4,
            StatusCode::InternalError => 5,
            StatusCode::PermissionDenied => 6,
            StatusCode::FailedPrecondition => 7,
            StatusCode::Unknown => 8,
        }
    }

    /// The raw code of this status.
    #[verifier::when_used_as_spec(spec_code)]
    pub fn code(self) -> (code: u32)
        ensures
            code == self.spec_code(),
    {
        match self {
            StatusCode::Success => 0,
            StatusCode::NotFound => 1,
            StatusCode::AlreadyExists => 2,
            StatusCode::InvalidArgument => 3,
            StatusCode::NotSupported => 4,
            StatusCode::InternalError => 5,
            StatusCode::PermissionDenied => 6,
            StatusCode::FailedPrecondition => 7,
            StatusCode::Unknown => 8,
        }
    }

    /// Reading back the code of a status gives that status.
    pub proof fn lemma_code_round_trip(status: StatusCode)
        ensures
            StatusCode::of_code(status.spec_code()) == status,
    {
    }
}

impl From<u32> for StatusCode {
    fn from(code: u32) -> (status: StatusCode) {
        match code {
            0 => StatusCode::Success,
            1 => StatusCode::NotFound,
            2 => StatusCode::AlreadyExists,
            3 => StatusCode::InvalidArgument,
            4 => StatusCode::NotSupported,
            5 => StatusCode::InternalError,
            6 => StatusCode::PermissionDenied,
            7 => StatusCode::FailedPrecondition,
            _ => StatusCode::Unknown,
        }
    }
}

impl FromSpecImpl<u32> for StatusCode {
    open spec fn obeys_from_spec() -> bool {
        true
    }

    open spec fn from_spec(code: u32) -> StatusCode {
        StatusCode::of_code(code)
    }
}

/// What can go wrong in a call on the engine or on the way to it.
#[derive(Debug, Clone)]
pub enum Error {
    NotFound(String),
    AlreadyExists(String),
    InvalidArgument(String),
    NotSupported(String),
    InternalError(String),
    PermissionDenied(String),
    FailedPrecondition(String),
    Unknown(String),
    NullPointer,
    CollectionNotFound(String),
    IndexNotFound(String),
    FieldNotFound(String),
    DimensionMismatch { expected: usize, actual: usize },
    /// Bytes that are UTF-8 up to index `valid_up_to` and not behind it:
    /// `error_len` bytes there can be part of no character, or, where it is
    /// `None`, the bytes end in the middle of one.
    Utf8Error { valid_up_to: usize, error_len: Option<u8> },
    /// Bytes meant for the engine that hold a zero byte at `nul_position`.
    IoError { nul_position: usize, bytes: Vec<u8> },
}

/// An `Error` with each message as the sequence of its characters.
pub enum ErrorView {
    NotFound(Seq<char>),
    AlreadyExists(Seq<char>),
    InvalidArgument(Seq<char>),
    NotSupported(Seq<char>),
    InternalError(Seq<char>),
    PermissionDenied(Seq<char>),
    FailedPrecondition(Seq<char>),
    Unknown(Seq<char>),
    NullPointer,
    CollectionNotFound(Seq<char>),
    IndexNotFound(Seq<char>),
    FieldNotFound(Seq<char>),
    DimensionMismatch { expected: usize, actual: usize },
    Utf8Error { valid_up_to: usize, error_len: Option<u8> },
    IoError { nul_position: usize, bytes: Seq<u8> },
}

impl View for Error {
    type V = ErrorView;

    open spec fn view(&self) -> ErrorView {
        match self {
            Error::NotFound(m) => ErrorView::NotFound(m@),
            Error::AlreadyExists(m) => ErrorView::AlreadyExists(m@),
            Error::InvalidArgument(m) => ErrorView::InvalidArgument(m@),
            Error::NotSupported(m) => ErrorView::NotSupported(m@),
            Error::InternalError(m) => ErrorView::InternalError(m@),
            Error::PermissionDenied(m) => ErrorView::PermissionDenied(m@),
            Error::FailedPrecondition(m) => ErrorView::FailedPrecondition(m@),
            Error::Unknown(m) => ErrorView::Unknown(m@),
            Error::NullPointer => ErrorView::NullPointer,
            Error::CollectionNotFound(m) => ErrorView::CollectionNotFound(m@),
            Error::IndexNotFound(m) => ErrorView::IndexNotFound(m@),
            Error::FieldNotFound(m) => ErrorView::FieldNotFound(m@),
            Error::DimensionMismatch { expected, actual } => ErrorView::DimensionMismatch {
                expected: *expected,
                actual: *actual,
            },
            Error::Utf8Error { valid_up_to, error_len } => ErrorView::Utf8Error {
                valid_up_to: *valid_up_to,
                error_len: *error_len,
            },
            Error::IoError { nul_position, bytes } => ErrorView::IoError {
                nul_position: *nul_position,
                bytes: bytes@,
            },
        }
    }
}

/// The text that goes with a status: the engine's message, or nothing where it
/// gave none.
pub open spec fn status_text(message: Option<String>) -> Seq<char> {
    match message {
        Some(m) => m@,
        None => Seq::empty(),
    }
}

/// The error that a status other than `Success` translates to, with its text.
pub open spec fn status_error(code: StatusCode, text: Seq<char>) -> ErrorView {
    match code {
        StatusCode::NotFound => ErrorView::NotFound(text),
        StatusCode::AlreadyExists => ErrorView::AlreadyExists(text),
        StatusCode::InvalidArgument => ErrorView::InvalidArgument(text),
        StatusCode::NotSupported => ErrorView::NotSupported(text),
        StatusCode::InternalError => ErrorView::InternalError(text),
        StatusCode::PermissionDenied => ErrorView::PermissionDenied(text),
        StatusCode::FailedPrecondition => ErrorView::FailedPrecondition(text),
        _ => ErrorView::Unknown(text),
    }
}

/// Translates the status of an engine call. `Success` is success, whatever message
/// comes with it; every other status is the error of its kind, carrying the
/// engine's message, or an empty one where the engine gave none.
pub fn check_status(code: StatusCode, message: Option<String>) -> (outcome: Result<(), Error>)
    ensures
        code == StatusCode::Success <==> outcome is Ok,
        code != StatusCode::Success ==> outcome is Err && outcome->Err_0@ == status_error(
            code,
            status_text(message),
        ),
{
    if code == StatusCode::Success {
        return Ok(());
    }
    let text = match message {
        Some(m) => m,
        None => String::new(),
    };
    let error = match code {
        StatusCode::NotFound => Error::NotFound(text),
        StatusCode::AlreadyExists => Error::AlreadyExists(text),
        StatusCode::InvalidArgument => Error::InvalidArgument(text),
        StatusCode::NotSupported => Error::NotSupported(text),
        StatusCode::InternalError => Error::InternalError(text),
        StatusCode::PermissionDenied => Error::PermissionDenied(text),
        StatusCode::FailedPrecondition => Error::FailedPrecondition(text),
        _ => Error::Unknown(text),
    };
    Err(error)
}

} // verus!
