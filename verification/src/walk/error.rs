//! The errors that a walk meets.
use crate::sys::{IoError, SysError};
use crate::text::{lossy, utf8_lossy};
use vstd::prelude::*;

verus! {

#[derive(Debug)]
pub struct WalkError {
    pub path: Option<Vec<u8>>,
    pub depth: u16,
    pub kind: WalkErrorKind,
}

#[derive(Debug)]
pub enum WalkErrorKind {
    PermissionDenied,
    Io(IoError),
    TooManyOpenFiles,
    SymlinkLoop,
}

pub const EPERM: i32 = 1;

pub const EACCES: i32 = 13;

pub const ENFILE: i32 = 23;

pub const EMFILE: i32 = 24;

/// Whether an error of the system carries one of two error numbers.
pub open spec fn has_code(e: SysError, a: i32, b: i32) -> bool {
    e matches SysError::Io(io) && (io.code == Some(a) || io.code == Some(b))
}

/// What a [`WalkErrorKind`] says.
#[verifier::ext_equal]
pub enum FailureKind {
    PermissionDenied,
    Io { code: Option<i32>, text: Seq<char> },
    TooManyOpenFiles,
    SymlinkLoop,
}

/// What a [`WalkError`] says.
#[verifier::ext_equal]
pub struct Failure {
    pub path: Option<Seq<u8>>,
    pub depth: u16,
    pub kind: FailureKind,
}

impl View for WalkErrorKind {
    type V = FailureKind;

    open spec fn view(&self) -> FailureKind {
        match self {
            WalkErrorKind::PermissionDenied => FailureKind::PermissionDenied,
            WalkErrorKind::Io(io) => FailureKind::Io { code: io.code, text: io.text@ },
            WalkErrorKind::TooManyOpenFiles => FailureKind::TooManyOpenFiles,
            WalkErrorKind::SymlinkLoop => FailureKind::SymlinkLoop,
        }
    }
}

impl View for WalkError {
    type V = Failure;

    open spec fn view(&self) -> Failure {
        Failure {
            path: match self.path {
                Some(path) => Some(path@),
                None => None,
            },
            depth: self.depth,
            kind: self.kind@,
        }
    }
}

/// How a kind of error prints.
pub open spec fn kind_text(kind: FailureKind) -> Seq<char> {
    match kind {
        FailureKind::PermissionDenied => "PermissionDenied"@,
        FailureKind::Io { text, .. } => "Io("@ + text + ")"@,
        FailureKind::TooManyOpenFiles => "TooManyOpenFiles"@,
        FailureKind::SymlinkLoop => "SymlinkLoop"@,
    }
}

/// How an error prints: where it happened, then what it is.
pub open spec fn failure_text(failure: Failure) -> Seq<char> {
    let place = match failure.path {
        Some(path) => utf8_lossy(path),
        None => "<unknown>"@,
    };
    place + ": "@ + kind_text(failure.kind)
}

impl WalkError {
    /// The error as a line of text.
    pub fn to_text(&self) -> (line: String)
        ensures
            line@ == failure_text(self@),
    {
        let mut line = match &self.path {
            Some(p) => lossy(p.as_slice()),
            None => String::from_str("<unknown>"),
        };
        line.append(": ");
        match &self.kind {
            WalkErrorKind::PermissionDenied => line.append("PermissionDenied"),
            WalkErrorKind::Io(io) => {
                line.append("Io(");
                line.append(io.text.as_str());
                line.append(")");
            },
            WalkErrorKind::TooManyOpenFiles => line.append("TooManyOpenFiles"),
            WalkErrorKind::SymlinkLoop => line.append("SymlinkLoop"),
        }
        assert(line@ =~= failure_text(self@));
        line
    }
}

/// What a walk reports for an error of the system: refused access and exhausted
/// descriptors are kinds of their own, any other error with a number or a
/// message keeps it.
pub open spec fn failure_kind(e: SysError) -> FailureKind {
    if has_code(e, EACCES, EPERM) {
        FailureKind::PermissionDenied
    } else if has_code(e, EMFILE, ENFILE) {
        FailureKind::TooManyOpenFiles
    } else {
        match e {
            SysError::Io(io) => FailureKind::Io { code: io.code, text: io.text@ },
            _ => FailureKind::Io {
                code: None,
                text: "Custom { kind: Other, error: \"syscall failed\" }"@,
            },
        }
    }
}

/// Sorts an error of the system.
pub fn map_sys_error(e: SysError) -> (kind: WalkErrorKind)
    ensures
        kind@ == failure_kind(e),
{
    match e {
        SysError::Io(io) => {
            match io.code {
                Some(code) => {
                    if code == EACCES || code == EPERM {
                        WalkErrorKind::PermissionDenied
                    } else if code == EMFILE || code == ENFILE {
                        WalkErrorKind::TooManyOpenFiles
                    } else {
                        WalkErrorKind::Io(io)
                    }
                },
                None => WalkErrorKind::Io(io),
            }
        },
        _ => WalkErrorKind::Io(
            IoError {
                code: None,
                text: String::from_str("Custom { kind: Other, error: \"syscall failed\" }"),
            },
        ),
    }
}

/// Whether a text names an error: it starts with the path, or says that there is
/// none, and ends with the kind of the error behind a colon. An error that the
/// system put in its own words keeps them.
pub open spec fn names_error(text: Seq<char>, error: WalkError) -> bool {
    let place = match error.path {
        Some(path) => utf8_lossy(path@),
        None => "<unknown>"@,
    };
    &&& (place + ": "@).is_prefix_of(text)
    &&& text.skip(place.len() as int + 2) == (match error.kind {
        WalkErrorKind::PermissionDenied => "PermissionDenied"@,
        WalkErrorKind::Io(io) => "Io("@ + io.text@ + ")"@,
        WalkErrorKind::TooManyOpenFiles => "TooManyOpenFiles"@,
        WalkErrorKind::SymlinkLoop => "SymlinkLoop"@,
    })
}

pub(crate) proof fn lemma_failure_text(error: WalkError)
    ensures
        names_error(failure_text(error@), error),
{
    reveal_strlit(": ");
    let text = failure_text(error@);
    let place = match error.path {
        Some(path) => utf8_lossy(path@),
        None => "<unknown>"@,
    };
    assert(text.subrange(0, place.len() as int + 2) =~= place + ": "@);
    assert(text.skip(place.len() as int + 2) =~= kind_text(error.kind@));
}

/// The line of an error says where it happened and what it is.
pub proof fn law_error_is_named(error: &WalkError, line: String)
    requires
        call_ensures(WalkError::to_text, (error,), line),
    ensures
        names_error(line@, *error),
{
    lemma_failure_text(*error);
}

} // verus!
