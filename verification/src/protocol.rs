//! What an operation asks of the filesystem, what it is told back, and the
//! step it takes on each call.

use vstd::prelude::*;
use crate::error::IoError;

verus! {

/// How a write treats what is already at its path.
#[derive(Clone, Copy, Debug, PartialEq, Eq, Structural)]
pub enum WriteMode {
    /// The path must be free; a new file is made with exactly the bytes.
    CreateNew,
    /// The file is made if missing and emptied if present, then holds exactly
    /// the bytes.
    Replace,
    /// The file must exist; it is emptied and then holds exactly the bytes.
    Truncate,
    /// The file must exist; the bytes are added at its end.
    Append,
}

/// One filesystem primitive, as contracts see it.
pub enum Request {
    CreateDirAll { path: Seq<char> },
    Probe { path: Seq<char> },
    ListDir { path: Seq<char> },
    Read { path: Seq<char> },
    Write { path: Seq<char>, data: Seq<u8>, mode: WriteMode },
    RemoveFile { path: Seq<char> },
    RemoveDirAll { path: Seq<char> },
    Rename { from: Seq<char>, to: Seq<char> },
}

/// One directory entry, as contracts see it.
pub struct Entry {
    pub name: Seq<char>,
    pub is_dir: bool,
}

/// The answer to a request, as contracts see it.
pub enum Reply {
    Done,
    Found(bool),
    Bytes(Seq<u8>),
    Entries(Seq<Entry>),
    Failed(IoError),
}

/// A step, as contracts see it.
pub enum StepView {
    Ask(Request),
    Finished(Result<(), IoError>),
}

/// One filesystem primitive for the caller to perform.
#[derive(Clone, Debug, PartialEq, Eq)]
pub enum FsRequest {
    /// Create the directory and every missing directory leading to it.
    /// Answered by `Done`.
    CreateDirAll { path: String },
    /// Tell whether anything exists at the path. Answered by `Found`.
    Probe { path: String },
    /// List the entries of the directory, in any order. Answered by `Entries`.
    ListDir { path: String },
    /// Read the whole file. Answered by `Bytes`.
    Read { path: String },
    /// Write the bytes to the file as the mode says. Answered by `Done`.
    Write { path: String, data: Vec<u8>, mode: WriteMode },
    /// Remove the file. Answered by `Done`.
    RemoveFile { path: String },
    /// Remove the directory and everything under it. Answered by `Done`.
    RemoveDirAll { path: String },
    /// Rename or move a file or directory. Answered by `Done`.
    Rename { from: String, to: String },
}

/// One entry of a directory listing.
#[derive(Clone, Debug, PartialEq, Eq)]
pub struct DirEntry {
    pub name: String,
    pub is_dir: bool,
}

/// What the caller reports after performing a request.
#[derive(Clone, Debug, PartialEq, Eq)]
pub enum FsReply {
    /// The primitive succeeded and has nothing to return.
    Done,
    /// Whether the probed path exists.
    Found(bool),
    /// The contents of the file that was read.
    Bytes(Vec<u8>),
    /// The entries of the directory that was listed.
    Entries(Vec<DirEntry>),
    /// The primitive failed.
    Failed(IoError),
}

/// What an operation does next.
#[derive(Debug, PartialEq, Eq)]
pub enum Step {
    /// Perform this request and call again with its reply.
    Ask(FsRequest),
    /// The run is over, with this outcome.
    Finished(Result<(), IoError>),
}

impl View for FsRequest {
    type V = Request;

    open spec fn view(&self) -> Request {
        match self {
            FsRequest::CreateDirAll { path } => Request::CreateDirAll { path: path@ },
            FsRequest::Probe { path } => Request::Probe { path: path@ },
            FsRequest::ListDir { path } => Request::ListDir { path: path@ },
            FsRequest::Read { path } => Request::Read { path: path@ },
            FsRequest::Write { path, data, mode } => Request::Write {
                path: path@,
                data: data@,
                mode: *mode,
            },
            FsRequest::RemoveFile { path } => Request::RemoveFile { path: path@ },
            FsRequest::RemoveDirAll { path } => Request::RemoveDirAll { path: path@ },
            FsRequest::Rename { from, to } => Request::Rename { from: from@, to: to@ },
        }
    }
}

impl View for DirEntry {
    type V = Entry;

    open spec fn view(&self) -> Entry {
        Entry { name: self.name@, is_dir: self.is_dir }
    }
}

/// The listing `entries` as contracts see it.
pub open spec fn entries_view(entries: Seq<DirEntry>) -> Seq<Entry> {
    entries.map_values(|e: DirEntry| e@)
}

impl View for FsReply {
    type V = Reply;

    open spec fn view(&self) -> Reply {
        match self {
            FsReply::Done => Reply::Done,
            FsReply::Found(found) => Reply::Found(*found),
            FsReply::Bytes(data) => Reply::Bytes(data@),
            FsReply::Entries(entries) => Reply::Entries(entries_view(entries@)),
            FsReply::Failed(e) => Reply::Failed(*e),
        }
    }
}

impl View for Step {
    type V = StepView;

    open spec fn view(&self) -> StepView {
        match self {
            Step::Ask(request) => StepView::Ask(request@),
            Step::Finished(outcome) => StepView::Finished(*outcome),
        }
    }
}

/// The view of a start (`None`) or of a reply handed back.
pub open spec fn reply_view(reply: Option<FsReply>) -> Option<Reply> {
    match reply {
        Some(r) => Some(r@),
        None => None,
    }
}

/// A copy of `data`.
pub fn copy_bytes(data: &Vec<u8>) -> (copy: Vec<u8>)
    ensures
        copy@ == data@,
{
    let copy = data.clone();
    assert(copy@ =~= data@);
    copy
}

} // verus!
