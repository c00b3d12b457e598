//! The error type shared by the whole library.

use vstd::prelude::*;
use vstd::string::StringExecFns;

use crate::text;

verus! {

/// What went wrong, with the details that are shown to the caller.
#[derive(Debug)]
pub enum FtError {
    Oom(String),
    Invalid(String),
    StaleHandle { handle: u32, current: u32 },
    Kernel(String),
    UnsupportedModel(String),
    Io(String),
}

/// An error as a mathematical value.
pub enum ErrorView {
    Oom(Seq<char>),
    Invalid(Seq<char>),
    StaleHandle { handle: u32, current: u32 },
    Kernel(Seq<char>),
    UnsupportedModel(Seq<char>),
    Io(Seq<char>),
}

impl ErrorView {
    /// The sentence that describes the error.
    pub open spec fn text(self) -> Seq<char> {
        match self {
            ErrorView::Oom(m) => "out of memory: "@ + m,
            ErrorView::Invalid(m) => "invalid request: "@ + m,
            ErrorView::StaleHandle { handle, current } => "stale handle (gen "@ + text::dec(handle as nat)
                + ", current "@ + text::dec(current as nat) + ")"@,
            ErrorView::Kernel(m) => "kernel backend: "@ + m,
            ErrorView::UnsupportedModel(m) => "model not supported: "@ + m,
            ErrorView::Io(m) => "io: "@ + m,
        }
    }
}

impl View for FtError {
    type V = ErrorView;

    open spec fn view(&self) -> ErrorView {
        match self {
            FtError::Oom(m) => ErrorView::Oom(m@),
            FtError::Invalid(m) => ErrorView::Invalid(m@),
            FtError::StaleHandle { handle, current } => ErrorView::StaleHandle {
                handle: *handle,
                current: *current,
            },
            FtError::Kernel(m) => ErrorView::Kernel(m@),
            FtError::UnsupportedModel(m) => ErrorView::UnsupportedModel(m@),
            FtError::Io(m) => ErrorView::Io(m@),
        }
    }
}

fn labelled(label: &str, m: &str) -> (s: String)
    ensures
        s@ == label@ + m@,
{
    let mut s = label.to_owned();
    s.append(m);
    s
}

impl FtError {
    /// The sentence that describes the error.
    pub fn message(&self) -> (s: String)
        ensures
            s@ == self@.text(),
            self matches FtError::Oom(m) ==> s@ == "out of memory: "@ + m@,
            self matches FtError::Invalid(m) ==> s@ == "invalid request: "@ + m@,
            self matches FtError::StaleHandle { handle, current } ==> s@ == "stale handle (gen "@
                + text::dec(*handle as nat) + ", current "@ + text::dec(*current as nat) + ")"@,
            self matches FtError::Kernel(m) ==> s@ == "kernel backend: "@ + m@,
            self matches FtError::UnsupportedModel(m) ==> s@ == "model not supported: "@ + m@,
            self matches FtError::Io(m) ==> s@ == "io: "@ + m@,
    {
        match self {
            FtError::Oom(m) => labelled("out of memory: ", m.as_str()),
            FtError::Invalid(m) => labelled("invalid request: ", m.as_str()),
            FtError::StaleHandle { handle, current } => {
                let mut s = "stale handle (gen ".to_owned();
                text::push_dec(&mut s, *handle as u64);
                s.append(", current ");
                text::push_dec(&mut s, *current as u64);
                s.append(")");
                s
            },
            FtError::Kernel(m) => labelled("kernel backend: ", m.as_str()),
            FtError::UnsupportedModel(m) => labelled("model not supported: ", m.as_str()),
            FtError::Io(m) => labelled("io: ", m.as_str()),
        }
    }
}

} // verus!
