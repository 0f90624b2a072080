//! The file system as the analysis sees it: plain values that the caller
//! reads from the system and hands in, and the requests that a traversal
//! makes of the caller.

use vstd::prelude::*;

verus! {

/// What kind of thing a path names.
#[derive(Debug, Clone, Copy, PartialEq, Eq, Structural)]
pub enum FileKind {
    File,
    Directory,
    Symlink,
    Other,
}

/// The identity of a file on its system: two paths name the same file exactly
/// if their identities are equal (device and inode, where the system has
/// them).
#[derive(Debug, Clone, Copy, PartialEq, Eq, Structural)]
pub struct FileIdentity {
    pub dev: u64,
    pub ino: u64,
}

/// What the system reports of a path. The identity is absent on a system that
/// has no stable one; duplicates are then not detected.
#[derive(Debug, Clone, Copy)]
pub struct FileMetadata {
    pub kind: FileKind,
    pub len: u64,
    pub identity: Option<FileIdentity>,
}

impl FileMetadata {
    pub open spec fn spec_is_dir(&self) -> bool {
        self.kind == FileKind::Directory
    }

    pub open spec fn spec_is_file(&self) -> bool {
        self.kind == FileKind::File
    }

    pub open spec fn spec_is_symlink(&self) -> bool {
        self.kind == FileKind::Symlink
    }

    #[verifier::when_used_as_spec(spec_is_dir)]
    pub fn is_dir(&self) -> (b: bool)
        ensures
            b == self.spec_is_dir(),
    {
        self.kind == FileKind::Directory
    }

    #[verifier::when_used_as_spec(spec_is_file)]
    pub fn is_file(&self) -> (b: bool)
        ensures
            b == self.spec_is_file(),
    {
        self.kind == FileKind::File
    }

    #[verifier::when_used_as_spec(spec_is_symlink)]
    pub fn is_symlink(&self) -> (b: bool)
        ensures
            b == self.spec_is_symlink(),
    {
        self.kind == FileKind::Symlink
    }
}

impl FileIdentity {
    /// The identity that the metadata carries, if the system has one.
    pub fn from_metadata(metadata: &FileMetadata) -> (id: Option<FileIdentity>)
        ensures
            id == metadata.identity,
    {
        metadata.identity
    }
}

/// Why a path could not be read.
#[derive(Debug, Clone, Copy, PartialEq, Eq, Structural)]
pub enum FailureKind {
    /// Nothing is at the path.
    NotFound,
    /// Any other failure: no permission, a fault of the device, and so on.
    Other,
}

/// A failed read: its kind, and the system's message.
#[derive(Debug, Clone)]
pub struct ReadFailure {
    pub kind: FailureKind,
    pub message: String,
}

/// One child of a directory as the system lists it. The metadata is absent
/// where it could not be read.
#[derive(Debug, Clone)]
pub struct RawEntry {
    pub path: String,
    pub metadata: Option<FileMetadata>,
}

/// The mathematical value of a [`RawEntry`].
pub struct RawEntryView {
    pub path: Seq<char>,
    pub metadata: Option<FileMetadata>,
}

impl View for RawEntry {
    type V = RawEntryView;

    open spec fn view(&self) -> RawEntryView {
        RawEntryView { path: self.path@, metadata: self.metadata }
    }
}

/// The views of a listing, in the same order.
pub open spec fn raw_views(entries: Seq<RawEntry>) -> Seq<RawEntryView> {
    Seq::new(entries.len(), |i: int| entries[i]@)
}

/// What a traversal asks of its caller next. Each request but the last names
/// a path and is answered by one [`FsReply`].
#[derive(Debug, Clone)]
pub enum FsRequest {
    /// The metadata of the path itself, links not followed.
    LinkMetadata(String),
    /// The canonical form of the path: absolute, all links resolved.
    Canonicalize(String),
    /// The metadata of what the path leads to, links followed.
    Metadata(String),
    /// The text that the link at the path holds.
    ReadLink(String),
    /// The children of the directory at the path.
    ReadDir(String),
    /// Nothing: the traversal is over.
    Finished,
}

/// The mathematical value of an [`FsRequest`].
pub enum RequestView {
    LinkMetadata(Seq<char>),
    Canonicalize(Seq<char>),
    Metadata(Seq<char>),
    ReadLink(Seq<char>),
    ReadDir(Seq<char>),
    Finished,
}

impl View for FsRequest {
    type V = RequestView;

    open spec fn view(&self) -> RequestView {
        match self {
            FsRequest::LinkMetadata(p) => RequestView::LinkMetadata(p@),
            FsRequest::Canonicalize(p) => RequestView::Canonicalize(p@),
            FsRequest::Metadata(p) => RequestView::Metadata(p@),
            FsRequest::ReadLink(p) => RequestView::ReadLink(p@),
            FsRequest::ReadDir(p) => RequestView::ReadDir(p@),
            FsRequest::Finished => RequestView::Finished,
        }
    }
}

/// The caller's answer to a request. A failure carries the system's message.
#[derive(Debug)]
pub enum FsReply {
    /// Answers `LinkMetadata` and `Metadata`.
    Metadata(Result<FileMetadata, String>),
    /// Answers `Canonicalize` and `ReadLink`.
    Path(Result<String, String>),
    /// Answers `ReadDir`. Children that could not be read at all are left
    /// out.
    Entries(Result<Vec<RawEntry>, String>),
}

/// The mathematical value of an [`FsReply`].
pub enum ReplyView {
    Metadata(Result<FileMetadata, Seq<char>>),
    Path(Result<Seq<char>, Seq<char>>),
    Entries(Result<Seq<RawEntryView>, Seq<char>>),
}

/// The view of the outcome of a request for a path.
pub open spec fn path_result_view(r: Result<String, String>) -> Result<Seq<char>, Seq<char>> {
    match r {
        Ok(p) => Ok(p@),
        Err(m) => Err(m@),
    }
}

/// The view of the outcome of a request for metadata.
pub open spec fn metadata_result_view(r: Result<FileMetadata, String>) -> Result<
    FileMetadata,
    Seq<char>,
> {
    match r {
        Ok(m) => Ok(m),
        Err(m) => Err(m@),
    }
}

/// The view of the outcome of a request for a listing.
pub open spec fn entries_result_view(r: Result<Vec<RawEntry>, String>) -> Result<
    Seq<RawEntryView>,
    Seq<char>,
> {
    match r {
        Ok(entries) => Ok(raw_views(entries@)),
        Err(m) => Err(m@),
    }
}

impl View for FsReply {
    type V = ReplyView;

    open spec fn view(&self) -> ReplyView {
        match self {
            FsReply::Metadata(r) => ReplyView::Metadata(metadata_result_view(*r)),
            FsReply::Path(r) => ReplyView::Path(path_result_view(*r)),
            FsReply::Entries(r) => ReplyView::Entries(entries_result_view(*r)),
        }
    }
}

} // verus!
