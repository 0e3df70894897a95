//! The two error types: of the storage engine, and of the public interface.

use vstd::prelude::*;
use vstd::string::StringExecFns;

verus! {

/// Errors of the storage engine.
#[derive(Debug)]
pub enum AppError {
    IoError(String),
    DecodeError(String),
    KeyNotFound(String),
    InternalError(String),
}

/// An [`AppError`] with its text as a character sequence.
pub enum AppErrorModel {
    IoError(Seq<char>),
    DecodeError(Seq<char>),
    KeyNotFound(Seq<char>),
    InternalError(Seq<char>),
}

impl View for AppError {
    type V = AppErrorModel;

    open spec fn view(&self) -> AppErrorModel {
        match *self {
            AppError::IoError(m) => AppErrorModel::IoError(m@),
            AppError::DecodeError(m) => AppErrorModel::DecodeError(m@),
            AppError::KeyNotFound(m) => AppErrorModel::KeyNotFound(m@),
            AppError::InternalError(m) => AppErrorModel::InternalError(m@),
        }
    }
}

/// A decoding error with the given text.
pub fn decode_error(text: &str) -> (r: AppError)
    ensures
        r@ == AppErrorModel::DecodeError(text@),
{
    AppError::DecodeError(String::from_str(text))
}

/// Errors of the public interface.
#[derive(Debug)]
pub enum Error {
    /// An I/O error from the underlying storage.
    Io(String),
    /// A table name was empty or contained a path separator.
    InvalidTableName(String),
    /// `create_table` was called for a table that already exists.
    TableExists(String),
    /// The requested table does not exist.
    TableNotFound(String),
    /// A stored value was not written through the bytes interface.
    UnexpectedValue,
    /// Any other internal error.
    Internal(String),
}

/// An [`Error`] with its text as a character sequence.
pub enum ErrorModel {
    Io(Seq<char>),
    InvalidTableName(Seq<char>),
    TableExists(Seq<char>),
    TableNotFound(Seq<char>),
    UnexpectedValue,
    Internal(Seq<char>),
}

impl View for Error {
    type V = ErrorModel;

    open spec fn view(&self) -> ErrorModel {
        match *self {
            Error::Io(m) => ErrorModel::Io(m@),
            Error::InvalidTableName(n) => ErrorModel::InvalidTableName(n@),
            Error::TableExists(n) => ErrorModel::TableExists(n@),
            Error::TableNotFound(n) => ErrorModel::TableNotFound(n@),
            Error::UnexpectedValue => ErrorModel::UnexpectedValue,
            Error::Internal(m) => ErrorModel::Internal(m@),
        }
    }
}

impl From<AppError> for Error {
    fn from(e: AppError) -> (r: Error) {
        match e {
            AppError::IoError(m) => Error::Io(m),
            AppError::DecodeError(m) => Error::Internal(m),
            AppError::KeyNotFound(m) => Error::Internal(m),
            AppError::InternalError(m) => Error::Internal(m),
        }
    }
}

impl vstd::std_specs::convert::FromSpecImpl<AppError> for Error {
    open spec fn obeys_from_spec() -> bool {
        true
    }

    open spec fn from_spec(e: AppError) -> Error {
        match e {
            AppError::IoError(m) => Error::Io(m),
            AppError::DecodeError(m) => Error::Internal(m),
            AppError::KeyNotFound(m) => Error::Internal(m),
            AppError::InternalError(m) => Error::Internal(m),
        }
    }
}

/// The public error that an engine error becomes: I/O errors stay I/O errors, all others are
/// internal.
pub open spec fn public_error(e: AppErrorModel) -> ErrorModel {
    match e {
        AppErrorModel::IoError(m) => ErrorModel::Io(m),
        AppErrorModel::DecodeError(m) => ErrorModel::Internal(m),
        AppErrorModel::KeyNotFound(m) => ErrorModel::Internal(m),
        AppErrorModel::InternalError(m) => ErrorModel::Internal(m),
    }
}

/// The text that describes a public error.
pub open spec fn error_text(e: ErrorModel) -> Seq<char> {
    match e {
        ErrorModel::Io(m) => "io error: "@ + m,
        ErrorModel::InvalidTableName(n) => "invalid table name: "@ + n,
        ErrorModel::TableExists(n) => "table already exists: "@ + n,
        ErrorModel::TableNotFound(n) => "table not found: "@ + n,
        ErrorModel::UnexpectedValue => "stored value was not written as bytes"@,
        ErrorModel::Internal(m) => "internal error: "@ + m,
    }
}

impl Error {
    /// The text that describes the error.
    pub fn message(&self) -> (r: String)
        ensures
            r@ == error_text(self@),
    {
        match self {
            Error::Io(m) => String::from_str("io error: ").concat(m.as_str()),
            Error::InvalidTableName(n) => String::from_str("invalid table name: ").concat(
                n.as_str(),
            ),
            Error::TableExists(n) => String::from_str("table already exists: ").concat(n.as_str()),
            Error::TableNotFound(n) => String::from_str("table not found: ").concat(n.as_str()),
            Error::UnexpectedValue => String::from_str("stored value was not written as bytes"),
            Error::Internal(m) => String::from_str("internal error: ").concat(m.as_str()),
        }
    }
}

/// An error of the engine keeps its text when it becomes public, and is an I/O error exactly if it
/// was one; every public error is worded by its kind and its text.
pub proof fn law_errors_keep_their_text(m: Seq<char>)
    ensures
        public_error(AppErrorModel::IoError(m)) == ErrorModel::Io(m),
        public_error(AppErrorModel::DecodeError(m)) == ErrorModel::Internal(m),
        public_error(AppErrorModel::KeyNotFound(m)) == ErrorModel::Internal(m),
        public_error(AppErrorModel::InternalError(m)) == ErrorModel::Internal(m),
        error_text(ErrorModel::Io(m)) == "io error: "@ + m,
        error_text(ErrorModel::InvalidTableName(m)) == "invalid table name: "@ + m,
        error_text(ErrorModel::TableExists(m)) == "table already exists: "@ + m,
        error_text(ErrorModel::TableNotFound(m)) == "table not found: "@ + m,
        error_text(ErrorModel::UnexpectedValue) == "stored value was not written as bytes"@,
        error_text(ErrorModel::Internal(m)) == "internal error: "@ + m,
{
}

/// What an error stands for has its kind and its whole text.
pub proof fn law_errors_stand_for_their_text(text: String)
    ensures
        AppError::IoError(text)@ == AppErrorModel::IoError(text@),
        AppError::DecodeError(text)@ == AppErrorModel::DecodeError(text@),
        AppError::KeyNotFound(text)@ == AppErrorModel::KeyNotFound(text@),
        AppError::InternalError(text)@ == AppErrorModel::InternalError(text@),
        Error::Io(text)@ == ErrorModel::Io(text@),
        Error::InvalidTableName(text)@ == ErrorModel::InvalidTableName(text@),
        Error::TableExists(text)@ == ErrorModel::TableExists(text@),
        Error::TableNotFound(text)@ == ErrorModel::TableNotFound(text@),
        Error::UnexpectedValue@ == ErrorModel::UnexpectedValue,
        Error::Internal(text)@ == ErrorModel::Internal(text@),
{
}

} // verus!
