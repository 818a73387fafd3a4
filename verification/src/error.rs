//! The error type shared by the library and the command-line front end.

use vstd::prelude::*;

use crate::text::{decimal, owned, push_decimal, push_str};

verus! {

/// std's I/O error, carried through unchanged inside [`AppError::Io`].
#[verifier::external_type_specification]
#[verifier::external_body]
pub struct ExIoError(std::io::Error);

/// Everything that can make a run fail.
#[derive(Debug)]
pub enum AppError {
    /// Invalid command-line arguments.
    Arg(String),
    /// An I/O failure, with the path it concerns where one is known.
    Io { path: Option<std::path::PathBuf>, source: std::io::Error },
    /// The input could not be decoded.
    Decode(String),
    /// The output could not be encoded.
    Encode(String),
    /// The quantized image scored below the requested minimum quality.
    QualityTooLow { minimum: u8, actual: u8 },
    /// `--skip-if-larger` rejected an output that did not save enough bytes.
    SkipIfLargerRejected {
        input_bytes: u64,
        output_bytes: u64,
        maximum_file_size: u64,
        quality_score: u8,
    },
}

/// The process exit code that belongs to each kind of error.
pub open spec fn spec_exit_code(e: AppError) -> i32 {
    match e {
        AppError::Arg(_) => 2,
        AppError::Io { .. } => 3,
        AppError::Decode(_) => 4,
        AppError::Encode(_) => 4,
        AppError::QualityTooLow { .. } => 98,
        AppError::SkipIfLargerRejected { .. } => 99,
    }
}

impl AppError {
    /// The exit code: 2 for arguments, 3 for I/O, 4 for decoding or encoding,
    /// 98 for a quality below the minimum, 99 for a rejected larger output.
    pub fn exit_code(&self) -> (code: i32)
        ensures
            code == spec_exit_code(*self),
    {
        match self {
            AppError::Arg(_) => 2,
            AppError::Io { .. } => 3,
            AppError::Decode(_) | AppError::Encode(_) => 4,
            AppError::QualityTooLow { .. } => 98,
            AppError::SkipIfLargerRejected { .. } => 99,
        }
    }

    /// An I/O error that names the path it concerns.
    pub fn io_with_path(path: std::path::PathBuf, source: std::io::Error) -> (e: Self)
        ensures
            e matches AppError::Io { path: Some(p), source: s } && p == path && s == source,
    {
        AppError::Io { path: Some(path), source }
    }

    /// The text shown for this error.
    pub fn message(&self) -> (s: String)
        ensures
            !(self is Io) ==> s@ == message_of(*self),
            self is Io ==> s@.len() >= io_prefix(*self).len() && s@.subrange(0, io_prefix(*self).len() as int)
                == io_prefix(*self),
    {
        match self {
            AppError::Arg(m) => m.clone(),
            AppError::Io { path, source } => {
                let mut s = match path {
                    Some(p) => {
                        let mut s = owned("io error at ");
                        let shown = path_display_text(p);
                        let ghost head = s@;
                        push_str(&mut s, shown.as_str());
                        push_str(&mut s, ": ");
                        proof {
                            assert(s@.subrange(0, head.len() as int) =~= head);
                        }
                        s
                    },
                    None => owned("io error: "),
                };
                let ghost prefix = s@;
                let text = io_error_text(source);
                push_str(&mut s, text.as_str());
                proof {
                    assert(s@.subrange(0, prefix.len() as int) =~= prefix);
                }
                s
            },
            AppError::Decode(m) => {
                let mut s = owned("decode error: ");
                push_str(&mut s, m.as_str());
                s
            },
            AppError::Encode(m) => {
                let mut s = owned("encode error: ");
                push_str(&mut s, m.as_str());
                s
            },
            AppError::QualityTooLow { minimum, actual } => {
                let mut s = owned("quality too low: actual=");
                push_decimal(&mut s, *actual as u64);
                push_str(&mut s, ", minimum=");
                push_decimal(&mut s, *minimum as u64);
                s
            },
            AppError::SkipIfLargerRejected { input_bytes, output_bytes, maximum_file_size, .. } => {
                let mut s = owned("output would be larger: input=");
                push_decimal(&mut s, *input_bytes);
                push_str(&mut s, " bytes, output=");
                push_decimal(&mut s, *output_bytes);
                push_str(&mut s, " bytes, maximum=");
                push_decimal(&mut s, *maximum_file_size);
                push_str(&mut s, " bytes");
                s
            },
        }
    }
}


/// The text of an error; for an I/O error, the part before the system's
/// own description.
pub open spec fn message_of(e: AppError) -> Seq<char> {
    match e {
        AppError::Arg(m) => m@,
        AppError::Io { .. } => io_prefix(e),
        AppError::Decode(m) => "decode error: "@ + m@,
        AppError::Encode(m) => "encode error: "@ + m@,
        AppError::QualityTooLow { minimum, actual } => "quality too low: actual="@ + decimal(actual as nat)
            + ", minimum="@ + decimal(minimum as nat),
        AppError::SkipIfLargerRejected { input_bytes, output_bytes, maximum_file_size, .. } =>
            "output would be larger: input="@ + decimal(input_bytes as nat) + " bytes, output="@ + decimal(
            output_bytes as nat,
        ) + " bytes, maximum="@ + decimal(maximum_file_size as nat) + " bytes"@,
    }
}

/// How an I/O error's text begins: "io error at " (followed by the path as
/// std displays it) where the path is known.
pub open spec fn io_prefix(e: AppError) -> Seq<char> {
    match e {
        AppError::Io { path: Some(_), .. } => "io error at "@,
        _ => "io error: "@,
    }
}

/// `Path::display` of std, as text. A path is opaque here, so nothing is
/// stated of the text.
#[verifier::external_body]
fn path_display_text(p: &std::path::PathBuf) -> (s: String) {
    format!("{}", p.display())
}

/// The `Display` text of std's I/O error, which comes from the system.
#[verifier::external_body]
fn io_error_text(e: &std::io::Error) -> (s: String) {
    format!("{e}")
}

} // verus!
