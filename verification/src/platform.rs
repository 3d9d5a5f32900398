//! What other platforms are told of files and errors.
use crate::model::{Meta, Moment};
use crate::path::RelPath;
use crate::sdk::{error_text, Error, ErrorKind, FileInfo, FileType};
use crate::text::chars_of;
use crate::view::InfoView;
use vstd::prelude::*;

verus! {

/// The number of an error for a C program, which is negative: that of the
/// operating system if it has one, else one for its kind.
pub open spec fn errno_of(raw: Option<i32>, kind: ErrorKind) -> int {
    match raw {
        Some(code) => -code,
        None => match kind {
            ErrorKind::NotFound => -2,
            ErrorKind::PermissionDenied => -13,
            ErrorKind::Other => -5,
        },
    }
}

/// See `errno_of`.
pub fn errno(raw: Option<i32>, kind: ErrorKind) -> (r: i32)
    requires
        raw matches Some(code) ==> code > i32::MIN,
    ensures
        r == errno_of(raw, kind),
{
    match raw {
        Some(code) => -code,
        None => match kind {
            ErrorKind::NotFound => -2,
            ErrorKind::PermissionDenied => -13,
            ErrorKind::Other => -5,
        },
    }
}

/// The whole seconds of a time since the epoch; 0 for a time before.
pub fn mtime_secs(t: Moment) -> (r: i64)
    ensures
        r == if t.secs >= 0 {
            t.secs as int
        } else {
            0
        },
{
    if t.secs >= 0 {
        t.secs
    } else {
        0
    }
}

/// An offset or a size of a C program, which may be negative by mistake.
pub fn at_least_zero(n: i64) -> (r: u64)
    ensures
        r == if n >= 0 {
            n as int
        } else {
            0
        },
{
    if n >= 0 {
        n as u64
    } else {
        0
    }
}

/// What is wrong, for a program on a phone.
#[derive(Debug)]
pub enum FsError {
    InvalidCredentials,
    NotAuthenticated,
    PermissionDenied,
    NotFound,
    Network { msg: String },
    Other { msg: String },
}

/// The same by the characters.
pub enum FsErrorView {
    InvalidCredentials,
    NotAuthenticated,
    PermissionDenied,
    NotFound,
    Network { msg: Seq<char> },
    Other { msg: Seq<char> },
}

impl View for FsError {
    type V = FsErrorView;

    open spec fn view(&self) -> FsErrorView {
        match self {
            FsError::InvalidCredentials => FsErrorView::InvalidCredentials,
            FsError::NotAuthenticated => FsErrorView::NotAuthenticated,
            FsError::PermissionDenied => FsErrorView::PermissionDenied,
            FsError::NotFound => FsErrorView::NotFound,
            FsError::Network { msg } => FsErrorView::Network { msg: msg@ },
            FsError::Other { msg } => FsErrorView::Other { msg: msg@ },
        }
    }
}

/// What an error of the server is to a program on a phone.
pub open spec fn phone_error(e: Error) -> FsErrorView {
    match e {
        Error::InvalidCredentials => FsErrorView::InvalidCredentials,
        Error::NotAuthenticated => FsErrorView::NotAuthenticated,
        Error::PermissionDenied => FsErrorView::PermissionDenied,
        Error::NotFound => FsErrorView::NotFound,
        Error::Http(why) => FsErrorView::Network { msg: why@ },
        e => FsErrorView::Other { msg: error_text(e) },
    }
}

/// How an error is written out.
pub open spec fn fs_error_text(e: FsErrorView) -> Seq<char> {
    match e {
        FsErrorView::InvalidCredentials => "invalid credentials"@,
        FsErrorView::NotAuthenticated => "not authenticated"@,
        FsErrorView::PermissionDenied => "permission denied"@,
        FsErrorView::NotFound => "not found"@,
        FsErrorView::Network { msg } => "network error: "@ + msg,
        FsErrorView::Other { msg } => msg,
    }
}

impl FsError {
    /// What an error of the server is to a program on a phone.
    pub fn of(e: Error) -> (r: FsError)
        ensures
            r@ == phone_error(e),
    {
        match e {
            Error::InvalidCredentials => FsError::InvalidCredentials,
            Error::NotAuthenticated => FsError::NotAuthenticated,
            Error::PermissionDenied => FsError::PermissionDenied,
            Error::NotFound => FsError::NotFound,
            Error::Http(why) => FsError::Network { msg: why },
            e => FsError::Other { msg: e.to_string() },
        }
    }

    /// What an error of a local file is to a program on a phone.
    pub fn of_local(kind: ErrorKind, text: String) -> (r: FsError)
        ensures
            r@ == match kind {
                ErrorKind::NotFound => FsErrorView::NotFound,
                ErrorKind::PermissionDenied => FsErrorView::PermissionDenied,
                ErrorKind::Other => FsErrorView::Other { msg: text@ },
            },
    {
        match kind {
            ErrorKind::NotFound => FsError::NotFound,
            ErrorKind::PermissionDenied => FsError::PermissionDenied,
            ErrorKind::Other => FsError::Other { msg: text },
        }
    }

    /// The error written out.
    pub fn to_string(&self) -> (r: String)
        ensures
            r@ == fs_error_text(self@),
    {
        match self {
            FsError::InvalidCredentials => "invalid credentials".to_owned(),
            FsError::NotAuthenticated => "not authenticated".to_owned(),
            FsError::PermissionDenied => "permission denied".to_owned(),
            FsError::NotFound => "not found".to_owned(),
            FsError::Network { msg } => crate::text::concat("network error: ", msg.as_str()),
            FsError::Other { msg } => msg.clone(),
        }
    }
}

/// What a name stands for, for a program on a phone.
#[derive(Clone, Copy, Debug, PartialEq, Eq, Structural)]
pub enum EntryKind {
    File,
    Directory,
}

/// What a program on a phone is told of a file.
#[derive(Debug)]
pub struct Entry {
    pub name: String,
    pub kind: EntryKind,
    pub size: Option<u64>,
    pub mtime_ms: Option<i64>,
}

/// The same by the characters.
#[verifier::ext_equal]
pub struct EntryView {
    pub name: Seq<char>,
    pub kind: EntryKind,
    pub size: Option<u64>,
    pub mtime_ms: Option<i64>,
}

impl View for Entry {
    type V = EntryView;

    open spec fn view(&self) -> EntryView {
        EntryView {
            name: self.name@,
            kind: self.kind,
            size: self.size,
            mtime_ms: self.mtime_ms,
        }
    }
}

/// The milliseconds of a time since the epoch, in as many bits as there are;
/// none for a time before.
pub open spec fn millis_of(t: Option<Moment>) -> Option<i64> {
    match t {
        Some(m) => if m.secs >= 0 {
            Some((m.secs * 1000 + m.nanos / 1_000_000) as i64)
        } else {
            None
        },
        None => None,
    }
}

/// See `millis_of`.
pub fn millis(t: Option<Moment>) -> (r: Option<i64>)
    ensures
        r == millis_of(t),
{
    match t {
        Some(m) => {
            if m.secs >= 0 {
                let ms: i128 = m.secs as i128 * 1000 + (m.nanos / 1_000_000) as i128;
                Some(#[verifier::truncate]
                (ms as i64))
            } else {
                None
            }
        },
        None => None,
    }
}

/// What a program on a phone is told of a file that is listed.
pub open spec fn phone_entry(e: InfoView) -> EntryView {
    EntryView {
        name: e.name,
        kind: match e.kind {
            FileType::File => EntryKind::File,
            FileType::Directory => EntryKind::Directory,
        },
        size: e.size,
        mtime_ms: millis_of(e.mtime),
    }
}

impl Entry {
    /// What a program on a phone is told of a file that is listed.
    pub fn of(info: &FileInfo) -> (r: Entry)
        ensures
            r@ == phone_entry(info@),
    {
        Entry {
            name: info.name.clone(),
            kind: match info.kind {
                FileType::File => EntryKind::File,
                FileType::Directory => EntryKind::Directory,
            },
            size: info.size,
            mtime_ms: millis(info.mtime),
        }
    }

    /// What a program on a phone is told of a local file that holds edits.
    pub fn of_local(path: &RelPath, md: &Meta) -> (r: Entry)
        ensures
            r@ == (EntryView {
                name: crate::path::base_name(path@),
                kind: EntryKind::File,
                size: Some(md.size),
                mtime_ms: millis_of(md.mtime),
            }),
    {
        Entry {
            name: path.name().to_owned(),
            kind: EntryKind::File,
            size: Some(md.size),
            mtime_ms: millis(md.mtime),
        }
    }
}

/// Whether a document of a phone is a directory: its name ends with a slash.
pub fn is_dir_id(id: &str) -> (r: bool)
    ensures
        r == (id@.len() > 0 && id@.last() == '/'),
{
    let cs = chars_of(id);
    cs.len() > 0 && cs[cs.len() - 1] == '/'
}

} // verus!
