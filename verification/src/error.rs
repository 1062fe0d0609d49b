//! What can be wrong with a value, and how that is worded.
use vstd::prelude::*;

verus! {

/// The kinds of problem that the library reports.
#[derive(Debug, Clone, Copy, PartialEq, Eq, Structural)]
pub enum Problem {
    InvalidObjectId,
    InvalidName,
    EmptyPath,
    InvalidRawPath,
    NoncanonicalRawPath,
    UnsupportedPath,
    UnportablePath,
    UnchunkedTooLarge,
    ExecutableSymlink,
    PathCollision,
    MissingMessage,
    MessageTooLong,
    UnsupportedTransaction,
    UndescribedCommit,
    FileTooLarge,
    MissingDependency,
    DependencyMismatch,
    UnwrittenDependency,
    ConflictingFiles,
    TransactionMismatch,
    UnorderedGraph,
    TruncatedDelta,
    InvalidDeltaLiteral,
    TruncatedDeltaCopy,
    DeltaTooLong,
    DeltaOffsetOverflow,
    DeltaOutsideBase,
    InvalidDeltaOperation,
    DeltaLengthMismatch,
    CompressionFailed,
    DecompressionFailed,
    UnsupportedBatchKind,
    BatchTooManyObjects,
    DuplicateObject,
    ObjectTooLarge,
    ObjectHashMismatch,
    BatchTooLarge,
    InvalidBatchHeader,
    BatchOverfull,
    InvalidObjectKind,
    TruncatedBatch,
    InvalidBatchText,
    InvalidObjectLength,
    BatchHashMismatch,
    InvalidLength,
    MissingLength,
    UnknownCodec,
    CorruptLength,
    InvalidPackSize,
    CorruptPack,
    MissingObject,
    InvalidPackedSize,
    MissingLocation,
    MissingOffset,
    PackBoundsOverflow,
    OutsidePack,
    InvalidDeltaPack,
    InvalidPackBase,
    UnknownEncoding,
    CorruptLogicalLength,
    CorruptObject,
    TruncatedRecord,
    RecordLengthMismatch,
    TruncatedCache,
    CacheLengthOverflow,
    PackVerification,
    SizeMismatch,
    NotAManifest,
    OversizedManifest,
    InvalidFanout,
    InvalidChild,
    ChunkSizeOverflow,
    ManifestSizeMismatch,
    ContentSizeMismatch,
    MissingContent,
    FileChanged,
    EmptySelection,
    BothEdited,
    OutsideCollision,
    InvalidReference,
    UnknownHash,
    AmbiguousHash,
    EmptySummary,
    MetadataTooLarge,
    UnsupportedWorkspace,
    InvalidCheckout,
    PartialCheckout,
    NotAView,
    DifferentSelection,
    TooManyLines,
    NotAnHttpUrl,
    UrlCarriesMore,
    UrlTooLong,
    MissingProject,
    InvalidProjectName,
    MissingToken,
    UnsupportedProtocol,
    InvalidInventory,
    RemoteObjectMissing,
    RemoteObjectTooLarge,
    BatchMismatch,
    ReceiptMismatch,
    NoncanonicalTransaction,
    RemoteLengthMismatch,
    ConcurrentConflict,
    SeveralIncoming,
    UnsupportedUpload,
    ObjectIdMismatch,
    SnapshotTooLarge,
    NoncanonicalSnapshot,
    UnknownObjectKind,
    PublicationTooLarge,
    ForeignRevision,
    RequestReused,
    ForeignPredecessor,
    PredecessorRequired,
    MissingChange,
    UnverifiedUpload,
    FileObjectTooLarge,
    UnsupportedObjectKind,
    TransactionTooLarge,
    FileSizeMismatch,
    RequestTooLarge,
    NotFileObjects,
    EmptyAccessToken,
    StorageNodesRequired,
    InvalidStorageUrl,
    RepeatedStorageNode,
    NegativeCursor,
    CursorMismatch,
    NoSuchProject,
    RetiringNode,
    EmptyCommitRecord,
    InvalidTreeEntry,
    Submodule,
    InvalidTreeSize,
    CommitTooLarge,
    UnnamedPin,
    UncommittedView,
    NameTaken,
    AmbiguousName,
    ProjectMismatch,
    OutsidePath,
    InvalidReplicas,
    TooFewCopies,
    TooManyFailures,
    Draining,
    TransactionChanged,
    PinMismatch,
    UnsupportedStored,
}

/// A problem and the text that it is about.
#[derive(Debug)]
pub struct Error {
    pub problem: Problem,
    pub subject: String,
}

/// The mathematical value of an `Error`.
pub struct ErrorV {
    pub problem: Problem,
    pub subject: Seq<char>,
}

impl View for Error {
    type V = ErrorV;

    open spec fn view(&self) -> ErrorV {
        ErrorV { problem: self.problem, subject: self.subject@ }
    }
}

impl DeepView for Error {
    type V = ErrorV;

    open spec fn deep_view(&self) -> ErrorV {
        self@
    }
}

/// A problem that is about nothing in particular.
pub open spec fn plain(problem: Problem) -> ErrorV {
    ErrorV { problem, subject: Seq::empty() }
}

/// A problem with a subject.
pub open spec fn about(problem: Problem, subject: Seq<char>) -> ErrorV {
    ErrorV { problem, subject }
}

/// The mathematical value of a check's result.
pub open spec fn verdict(result: Result<(), Error>) -> Result<(), ErrorV> {
    match result {
        Ok(()) => Ok(()),
        Err(error) => Err(error@),
    }
}

/// The mathematical value of a fallible result.
pub open spec fn outcome<T: DeepView>(result: Result<T, Error>) -> Result<T::V, ErrorV> {
    match result {
        Ok(value) => Ok(value.deep_view()),
        Err(error) => Err(error@),
    }
}

/// The first problem that `check` finds along `keys`.
pub open spec fn first_problem(
    keys: Seq<Seq<char>>,
    check: spec_fn(Seq<char>) -> Result<(), ErrorV>,
) -> Result<(), ErrorV>
    decreases keys.len(),
{
    if keys.len() == 0 {
        Ok(())
    } else {
        match check(keys[0]) {
            Ok(()) => first_problem(keys.drop_first(), check),
            Err(error) => Err(error),
        }
    }
}

/// No problem is found exactly where every key passes.
pub proof fn lemma_first_problem(
    keys: Seq<Seq<char>>,
    check: spec_fn(Seq<char>) -> Result<(), ErrorV>,
)
    ensures
        first_problem(keys, check) is Ok <==> forall|i: int|
            0 <= i < keys.len() ==> check(#[trigger] keys[i]) is Ok,
    decreases keys.len(),
{
    if keys.len() > 0 {
        let rest = keys.drop_first();
        lemma_first_problem(rest, check);
        if first_problem(keys, check) is Ok {
            assert forall|i: int| 0 <= i < keys.len() implies check(#[trigger] keys[i]) is Ok by {
                if i > 0 {
                    assert(rest[i - 1] == keys[i]);
                }
            }
        }
        if forall|i: int| 0 <= i < keys.len() ==> check(#[trigger] keys[i]) is Ok {
            assert(check(keys[0]) is Ok);
            assert forall|i: int| 0 <= i < rest.len() implies check(#[trigger] rest[i]) is Ok by {
                assert(rest[i] == keys[i + 1]);
            }
        }
    }
}

/// One step of a walk along the keys.
pub proof fn lemma_first_problem_step(
    keys: Seq<Seq<char>>,
    check: spec_fn(Seq<char>) -> Result<(), ErrorV>,
    i: int,
)
    requires
        0 <= i < keys.len(),
    ensures
        first_problem(keys.skip(i), check) == (match check(keys[i]) {
            Ok(()) => first_problem(keys.skip(i + 1), check),
            Err(error) => Err(error),
        }),
{
    assert(keys.skip(i)[0] == keys[i]);
    assert(keys.skip(i).drop_first() =~= keys.skip(i + 1));
}

impl Problem {
    /// What is said before the subject of a problem.
    pub open spec fn opening(self) -> Seq<char> {
        match self {
            Problem::InvalidObjectId => "invalid object ID: "@,
            Problem::InvalidName => "names must contain 1–128 ASCII letters, digits, hyphens, or underscores"@,
            Problem::EmptyPath => "empty file path"@,
            Problem::InvalidRawPath => "invalid raw path encoding"@,
            Problem::NoncanonicalRawPath => "noncanonical raw path encoding"@,
            Problem::UnsupportedPath => "unsupported file path: "@,
            Problem::UnportablePath => "this filesystem cannot represent "@,
            Problem::UnchunkedTooLarge => "unchunked file exceeds object size limit"@,
            Problem::ExecutableSymlink => "symlinks cannot carry executable mode"@,
            Problem::PathCollision => "file/directory collision: "@,
            Problem::MissingMessage => "a change needs a message"@,
            Problem::MessageTooLong => "message exceeds 16 KiB"@,
            Problem::UnsupportedTransaction => "unsupported transaction format"@,
            Problem::UndescribedCommit => "describe the commit in 1–16384 bytes"@,
            Problem::FileTooLarge => "file too large: "@,
            Problem::MissingDependency => "missing dependency "@,
            Problem::DependencyMismatch => "dependency ID mismatch"@,
            Problem::UnwrittenDependency => "dependency "@,
            Problem::ConflictingFiles => "conflicting files: "@,
            Problem::TransactionMismatch => "transaction ID mismatch"@,
            Problem::UnorderedGraph => "transaction graph has missing dependencies or a cycle"@,
            Problem::TruncatedDelta => "truncated delta"@,
            Problem::InvalidDeltaLiteral => "invalid delta literal"@,
            Problem::TruncatedDeltaCopy => "truncated delta copy"@,
            Problem::DeltaTooLong => "delta exceeds object length"@,
            Problem::DeltaOffsetOverflow => "delta offset overflow"@,
            Problem::DeltaOutsideBase => "delta outside base"@,
            Problem::InvalidDeltaOperation => "invalid delta operation"@,
            Problem::DeltaLengthMismatch => "delta length mismatch"@,
            Problem::CompressionFailed => "compression failed"@,
            Problem::DecompressionFailed => "decompression failed"@,
            Problem::UnsupportedBatchKind => "unsupported batch object kind"@,
            Problem::BatchTooManyObjects => "object batch exceeds 128 items"@,
            Problem::DuplicateObject => "duplicate object in batch"@,
            Problem::ObjectTooLarge => "object exceeds type size limit"@,
            Problem::ObjectHashMismatch => "object hash mismatch"@,
            Problem::BatchTooLarge => "object batch exceeds byte limit"@,
            Problem::InvalidBatchHeader => "invalid object batch header"@,
            Problem::BatchOverfull => "too many objects in batch"@,
            Problem::InvalidObjectKind => "invalid object kind"@,
            Problem::TruncatedBatch => "truncated object batch"@,
            Problem::InvalidBatchText => "invalid text in object batch"@,
            Problem::InvalidObjectLength => "invalid object length"@,
            Problem::BatchHashMismatch => "batch object hash mismatch"@,
            Problem::InvalidLength => "invalid length"@,
            Problem::MissingLength => "compressed object has no length"@,
            Problem::UnknownCodec => "unknown storage codec "@,
            Problem::CorruptLength => "corrupt object length"@,
            Problem::InvalidPackSize => "invalid pack size"@,
            Problem::CorruptPack => "corrupt storage pack"@,
            Problem::MissingObject => "missing "@,
            Problem::InvalidPackedSize => "invalid packed object size"@,
            Problem::MissingLocation => "object has no storage location"@,
            Problem::MissingOffset => "packed object has no offset"@,
            Problem::PackBoundsOverflow => "packed object bounds overflow"@,
            Problem::OutsidePack => "packed object outside pack"@,
            Problem::InvalidDeltaPack => "invalid delta pack"@,
            Problem::InvalidPackBase => "invalid pack-local base"@,
            Problem::UnknownEncoding => "unknown packed encoding"@,
            Problem::CorruptLogicalLength => "corrupt logical object length"@,
            Problem::CorruptObject => "corrupt "@,
            Problem::TruncatedRecord => "truncated metadata record"@,
            Problem::RecordLengthMismatch => "metadata length mismatch"@,
            Problem::TruncatedCache => "truncated cache record"@,
            Problem::CacheLengthOverflow => "cache length overflow"@,
            Problem::PackVerification => "pack verification failed"@,
            Problem::SizeMismatch => "size mismatch for "@,
            Problem::NotAManifest => "expected a chunk manifest"@,
            Problem::OversizedManifest => "oversized chunk manifest"@,
            Problem::InvalidFanout => "invalid chunk manifest fanout"@,
            Problem::InvalidChild => "invalid chunk child"@,
            Problem::ChunkSizeOverflow => "chunk size overflow"@,
            Problem::ManifestSizeMismatch => "chunk manifest size mismatch"@,
            Problem::ContentSizeMismatch => "file content size mismatch"@,
            Problem::MissingContent => "missing content "@,
            Problem::FileChanged => "file changed size while being read; try again"@,
            Problem::EmptySelection => "--paths needs a project-relative file or directory"@,
            Problem::BothEdited => "both you and the remote edited: "@,
            Problem::OutsideCollision => "selected paths collide with files outside the checkout: "@,
            Problem::InvalidReference => "use a hash or at least four lowercase hexadecimal characters from `kelp log`"@,
            Problem::UnknownHash => "hash "@,
            Problem::AmbiguousHash => "hash "@,
            Problem::EmptySummary => "describe this version with a non-empty message"@,
            Problem::MetadataTooLarge => "commit metadata exceeds 2 MiB"@,
            Problem::UnsupportedWorkspace => "unsupported workspace version "@,
            Problem::InvalidCheckout => "invalid checkout path selection"@,
            Problem::PartialCheckout => "partial checkout requires workspace format 2"@,
            Problem::NotAView => ""@,
            Problem::DifferentSelection => "this saved view covers a different path selection; restore it in a checkout with the same selection"@,
            Problem::TooManyLines => "too many lines to compare"@,
            Problem::NotAnHttpUrl => "remote must be an HTTP or HTTPS URL"@,
            Problem::UrlCarriesMore => "remote URL must not contain credentials, query parameters, or a fragment"@,
            Problem::UrlTooLong => "remote URL is too long"@,
            Problem::MissingProject => "include the project name, for example https://code.example.com/my-project"@,
            Problem::InvalidProjectName => "include a valid project name at the end of the remote URL"@,
            Problem::MissingToken => "set KELP_TOKEN to the remote's access token"@,
            Problem::UnsupportedProtocol => "unsupported remote protocol "@,
            Problem::InvalidInventory => "invalid object inventory response"@,
            Problem::RemoteObjectMissing => "remote object is missing"@,
            Problem::RemoteObjectTooLarge => "remote object exceeds size limit"@,
            Problem::BatchMismatch => "remote object batch does not match the request"@,
            Problem::ReceiptMismatch => "remote receipt does not match the committed transaction"@,
            Problem::NoncanonicalTransaction => "noncanonical transaction"@,
            Problem::RemoteLengthMismatch => "remote file length mismatch"@,
            Problem::ConcurrentConflict => "concurrent commits conflict in: "@,
            Problem::SeveralIncoming => "several incoming versions conflict in "@,
            Problem::UnsupportedUpload => "only blobs and snapshots can be uploaded"@,
            Problem::ObjectIdMismatch => "object bytes do not match the requested ID"@,
            Problem::SnapshotTooLarge => "snapshot exceeds metadata size limit"@,
            Problem::NoncanonicalSnapshot => "snapshot must use the canonical v0 encoding"@,
            Problem::UnknownObjectKind => "unknown object kind"@,
            Problem::PublicationTooLarge => "publication exceeds metadata size limit"@,
            Problem::ForeignRevision => "revision belongs to a different project or change"@,
            Problem::RequestReused => "request ID already used for another publication"@,
            Problem::ForeignPredecessor => "predecessor must belong to the same change and base"@,
            Problem::PredecessorRequired => "an existing change requires a predecessor"@,
            Problem::MissingChange => "change "@,
            Problem::UnverifiedUpload => "only hash-verified file objects can be uploaded directly"@,
            Problem::FileObjectTooLarge => "file object exceeds size limit"@,
            Problem::UnsupportedObjectKind => "unsupported object kind"@,
            Problem::TransactionTooLarge => "transaction exceeds 2 MiB"@,
            Problem::FileSizeMismatch => "file size mismatch for "@,
            Problem::RequestTooLarge => "requested object batch exceeds byte limit"@,
            Problem::NotFileObjects => "transaction publication uses the transactions endpoint"@,
            Problem::EmptyAccessToken => "access token must not be empty"@,
            Problem::StorageNodesRequired => "storage nodes and a storage token are required"@,
            Problem::InvalidStorageUrl => "invalid storage URL"@,
            Problem::RepeatedStorageNode => "storage nodes must have distinct URLs"@,
            Problem::NegativeCursor => "negative journal cursor"@,
            Problem::CursorMismatch => "cursor does not match the storage layout"@,
            Problem::NoSuchProject => "project "@,
            Problem::RetiringNode => "the retiring node must be in --shards"@,
            Problem::EmptyCommitRecord => "empty Git commit record"@,
            Problem::InvalidTreeEntry => "invalid Git tree entry"@,
            Problem::Submodule => "Git submodules must be imported as their own Kelp projects"@,
            Problem::InvalidTreeSize => "invalid size in Git tree entry"@,
            Problem::CommitTooLarge => "Git commit "@,
            Problem::UnnamedPin => "a release needs a name"@,
            Problem::UncommittedView => "release "@,
            Problem::NameTaken => "release "@,
            Problem::AmbiguousName => "release "@,
            Problem::ProjectMismatch => "--project must match the project in the remote URL"@,
            Problem::OutsidePath => "--paths needs project-relative paths without .."@,
            Problem::InvalidReplicas => "the number of copies must be between one and the number of storage nodes"@,
            Problem::TooFewCopies => "too few storage nodes can keep a copy"@,
            Problem::TooManyFailures => "too many storage nodes are unavailable"@,
            Problem::Draining => "this storage node is being emptied and takes no new content"@,
            Problem::TransactionChanged => "transaction changed during evacuation"@,
            Problem::PinMismatch => "release view hash mismatch"@,
            Problem::UnsupportedStored => "unsupported stored object kind"@,
        }
    }

    /// What is said after the subject of a problem.
    pub open spec fn closing(self) -> Seq<char> {
        match self {
            Problem::BothEdited => ". Your files are unchanged. Use `kelp pull --keep-local` or `kelp pull --keep-remote` to choose those files' versions"@,
            Problem::UnknownHash => " is not available locally"@,
            Problem::AmbiguousHash => " is ambiguous; use more characters or a view:/commit: prefix"@,
            Problem::NotAView => " identifies edits, not a complete project view; choose a view hash from `kelp log`"@,
            Problem::ConcurrentConflict => ". Both versions are retained. Use `kelp pull --keep-local` or `kelp pull --keep-remote`, then commit the resolution"@,
            Problem::SeveralIncoming => "; keep local, edit the file, and commit to resolve all alternatives"@,
            Problem::MissingChange => " does not exist"@,
            Problem::NoSuchProject => " does not exist"@,
            Problem::CommitTooLarge => " exceeds the transaction metadata limit"@,
            Problem::UncommittedView => " does not match committed files"@,
            Problem::NameTaken => " already names another view"@,
            Problem::AmbiguousName => " names several views; use the view hash"@,
            _ => ""@,
        }
    }

    fn opening_text(self) -> (text: &'static str)
        ensures
            text@ == self.opening(),
    {
        match self {
            Problem::InvalidObjectId => "invalid object ID: ",
            Problem::InvalidName => "names must contain 1–128 ASCII letters, digits, hyphens, or underscores",
            Problem::EmptyPath => "empty file path",
            Problem::InvalidRawPath => "invalid raw path encoding",
            Problem::NoncanonicalRawPath => "noncanonical raw path encoding",
            Problem::UnsupportedPath => "unsupported file path: ",
            Problem::UnportablePath => "this filesystem cannot represent ",
            Problem::UnchunkedTooLarge => "unchunked file exceeds object size limit",
            Problem::ExecutableSymlink => "symlinks cannot carry executable mode",
            Problem::PathCollision => "file/directory collision: ",
            Problem::MissingMessage => "a change needs a message",
            Problem::MessageTooLong => "message exceeds 16 KiB",
            Problem::UnsupportedTransaction => "unsupported transaction format",
            Problem::UndescribedCommit => "describe the commit in 1–16384 bytes",
            Problem::FileTooLarge => "file too large: ",
            Problem::MissingDependency => "missing dependency ",
            Problem::DependencyMismatch => "dependency ID mismatch",
            Problem::UnwrittenDependency => "dependency ",
            Problem::ConflictingFiles => "conflicting files: ",
            Problem::TransactionMismatch => "transaction ID mismatch",
            Problem::UnorderedGraph => "transaction graph has missing dependencies or a cycle",
            Problem::TruncatedDelta => "truncated delta",
            Problem::InvalidDeltaLiteral => "invalid delta literal",
            Problem::TruncatedDeltaCopy => "truncated delta copy",
            Problem::DeltaTooLong => "delta exceeds object length",
            Problem::DeltaOffsetOverflow => "delta offset overflow",
            Problem::DeltaOutsideBase => "delta outside base",
            Problem::InvalidDeltaOperation => "invalid delta operation",
            Problem::DeltaLengthMismatch => "delta length mismatch",
            Problem::CompressionFailed => "compression failed",
            Problem::DecompressionFailed => "decompression failed",
            Problem::UnsupportedBatchKind => "unsupported batch object kind",
            Problem::BatchTooManyObjects => "object batch exceeds 128 items",
            Problem::DuplicateObject => "duplicate object in batch",
            Problem::ObjectTooLarge => "object exceeds type size limit",
            Problem::ObjectHashMismatch => "object hash mismatch",
            Problem::BatchTooLarge => "object batch exceeds byte limit",
            Problem::InvalidBatchHeader => "invalid object batch header",
            Problem::BatchOverfull => "too many objects in batch",
            Problem::InvalidObjectKind => "invalid object kind",
            Problem::TruncatedBatch => "truncated object batch",
            Problem::InvalidBatchText => "invalid text in object batch",
            Problem::InvalidObjectLength => "invalid object length",
            Problem::BatchHashMismatch => "batch object hash mismatch",
            Problem::InvalidLength => "invalid length",
            Problem::MissingLength => "compressed object has no length",
            Problem::UnknownCodec => "unknown storage codec ",
            Problem::CorruptLength => "corrupt object length",
            Problem::InvalidPackSize => "invalid pack size",
            Problem::CorruptPack => "corrupt storage pack",
            Problem::MissingObject => "missing ",
            Problem::InvalidPackedSize => "invalid packed object size",
            Problem::MissingLocation => "object has no storage location",
            Problem::MissingOffset => "packed object has no offset",
            Problem::PackBoundsOverflow => "packed object bounds overflow",
            Problem::OutsidePack => "packed object outside pack",
            Problem::InvalidDeltaPack => "invalid delta pack",
            Problem::InvalidPackBase => "invalid pack-local base",
            Problem::UnknownEncoding => "unknown packed encoding",
            Problem::CorruptLogicalLength => "corrupt logical object length",
            Problem::CorruptObject => "corrupt ",
            Problem::TruncatedRecord => "truncated metadata record",
            Problem::RecordLengthMismatch => "metadata length mismatch",
            Problem::TruncatedCache => "truncated cache record",
            Problem::CacheLengthOverflow => "cache length overflow",
            Problem::PackVerification => "pack verification failed",
            Problem::SizeMismatch => "size mismatch for ",
            Problem::NotAManifest => "expected a chunk manifest",
            Problem::OversizedManifest => "oversized chunk manifest",
            Problem::InvalidFanout => "invalid chunk manifest fanout",
            Problem::InvalidChild => "invalid chunk child",
            Problem::ChunkSizeOverflow => "chunk size overflow",
            Problem::ManifestSizeMismatch => "chunk manifest size mismatch",
            Problem::ContentSizeMismatch => "file content size mismatch",
            Problem::MissingContent => "missing content ",
            Problem::FileChanged => "file changed size while being read; try again",
            Problem::EmptySelection => "--paths needs a project-relative file or directory",
            Problem::BothEdited => "both you and the remote edited: ",
            Problem::OutsideCollision => "selected paths collide with files outside the checkout: ",
            Problem::InvalidReference => "use a hash or at least four lowercase hexadecimal characters from `kelp log`",
            Problem::UnknownHash => "hash ",
            Problem::AmbiguousHash => "hash ",
            Problem::EmptySummary => "describe this version with a non-empty message",
            Problem::MetadataTooLarge => "commit metadata exceeds 2 MiB",
            Problem::UnsupportedWorkspace => "unsupported workspace version ",
            Problem::InvalidCheckout => "invalid checkout path selection",
            Problem::PartialCheckout => "partial checkout requires workspace format 2",
            Problem::NotAView => "",
            Problem::DifferentSelection => "this saved view covers a different path selection; restore it in a checkout with the same selection",
            Problem::TooManyLines => "too many lines to compare",
            Problem::NotAnHttpUrl => "remote must be an HTTP or HTTPS URL",
            Problem::UrlCarriesMore => "remote URL must not contain credentials, query parameters, or a fragment",
            Problem::UrlTooLong => "remote URL is too long",
            Problem::MissingProject => "include the project name, for example https://code.example.com/my-project",
            Problem::InvalidProjectName => "include a valid project name at the end of the remote URL",
            Problem::MissingToken => "set KELP_TOKEN to the remote's access token",
            Problem::UnsupportedProtocol => "unsupported remote protocol ",
            Problem::InvalidInventory => "invalid object inventory response",
            Problem::RemoteObjectMissing => "remote object is missing",
            Problem::RemoteObjectTooLarge => "remote object exceeds size limit",
            Problem::BatchMismatch => "remote object batch does not match the request",
            Problem::ReceiptMismatch => "remote receipt does not match the committed transaction",
            Problem::NoncanonicalTransaction => "noncanonical transaction",
            Problem::RemoteLengthMismatch => "remote file length mismatch",
            Problem::ConcurrentConflict => "concurrent commits conflict in: ",
            Problem::SeveralIncoming => "several incoming versions conflict in ",
            Problem::UnsupportedUpload => "only blobs and snapshots can be uploaded",
            Problem::ObjectIdMismatch => "object bytes do not match the requested ID",
            Problem::SnapshotTooLarge => "snapshot exceeds metadata size limit",
            Problem::NoncanonicalSnapshot => "snapshot must use the canonical v0 encoding",
            Problem::UnknownObjectKind => "unknown object kind",
            Problem::PublicationTooLarge => "publication exceeds metadata size limit",
            Problem::ForeignRevision => "revision belongs to a different project or change",
            Problem::RequestReused => "request ID already used for another publication",
            Problem::ForeignPredecessor => "predecessor must belong to the same change and base",
            Problem::PredecessorRequired => "an existing change requires a predecessor",
            Problem::MissingChange => "change ",
            Problem::UnverifiedUpload => "only hash-verified file objects can be uploaded directly",
            Problem::FileObjectTooLarge => "file object exceeds size limit",
            Problem::UnsupportedObjectKind => "unsupported object kind",
            Problem::TransactionTooLarge => "transaction exceeds 2 MiB",
            Problem::FileSizeMismatch => "file size mismatch for ",
            Problem::RequestTooLarge => "requested object batch exceeds byte limit",
            Problem::NotFileObjects => "transaction publication uses the transactions endpoint",
            Problem::EmptyAccessToken => "access token must not be empty",
            Problem::StorageNodesRequired => "storage nodes and a storage token are required",
            Problem::InvalidStorageUrl => "invalid storage URL",
            Problem::RepeatedStorageNode => "storage nodes must have distinct URLs",
            Problem::NegativeCursor => "negative journal cursor",
            Problem::CursorMismatch => "cursor does not match the storage layout",
            Problem::NoSuchProject => "project ",
            Problem::RetiringNode => "the retiring node must be in --shards",
            Problem::EmptyCommitRecord => "empty Git commit record",
            Problem::InvalidTreeEntry => "invalid Git tree entry",
            Problem::Submodule => "Git submodules must be imported as their own Kelp projects",
            Problem::InvalidTreeSize => "invalid size in Git tree entry",
            Problem::CommitTooLarge => "Git commit ",
            Problem::UnnamedPin => "a release needs a name",
            Problem::UncommittedView => "release ",
            Problem::NameTaken => "release ",
            Problem::AmbiguousName => "release ",
            Problem::ProjectMismatch => "--project must match the project in the remote URL",
            Problem::OutsidePath => "--paths needs project-relative paths without ..",
            Problem::InvalidReplicas => "the number of copies must be between one and the number of storage nodes",
            Problem::TooFewCopies => "too few storage nodes can keep a copy",
            Problem::TooManyFailures => "too many storage nodes are unavailable",
            Problem::Draining => "this storage node is being emptied and takes no new content",
            Problem::TransactionChanged => "transaction changed during evacuation",
            Problem::PinMismatch => "release view hash mismatch",
            Problem::UnsupportedStored => "unsupported stored object kind",
        }
    }

    fn closing_text(self) -> (text: &'static str)
        ensures
            text@ == self.closing(),
    {
        match self {
            Problem::BothEdited => ". Your files are unchanged. Use `kelp pull --keep-local` or `kelp pull --keep-remote` to choose those files' versions",
            Problem::UnknownHash => " is not available locally",
            Problem::AmbiguousHash => " is ambiguous; use more characters or a view:/commit: prefix",
            Problem::NotAView => " identifies edits, not a complete project view; choose a view hash from `kelp log`",
            Problem::ConcurrentConflict => ". Both versions are retained. Use `kelp pull --keep-local` or `kelp pull --keep-remote`, then commit the resolution",
            Problem::SeveralIncoming => "; keep local, edit the file, and commit to resolve all alternatives",
            Problem::MissingChange => " does not exist",
            Problem::NoSuchProject => " does not exist",
            Problem::CommitTooLarge => " exceeds the transaction metadata limit",
            Problem::UncommittedView => " does not match committed files",
            Problem::NameTaken => " already names another view",
            Problem::AmbiguousName => " names several views; use the view hash",
            _ => "",
        }
    }
}

impl Error {
    /// A problem without a subject.
    pub fn plain(problem: Problem) -> (error: Error)
        ensures
            error@ == plain(problem),
    {
        let error = Error { problem, subject: String::new() };
        assert(error.subject@ =~= Seq::<char>::empty());
        error
    }

    /// A problem with a subject.
    pub fn about(problem: Problem, subject: String) -> (error: Error)
        ensures
            error@ == about(problem, subject@),
    {
        Error { problem, subject }
    }

    /// The problem in words.
    pub fn message(&self) -> (text: String)
        ensures
            text@ == self@.problem.opening() + self@.subject + self@.problem.closing(),
    {
        let mut text = self.problem.opening_text().to_owned();
        text.append(self.subject.as_str());
        text.append(self.problem.closing_text());
        text
    }
}

} // verus!
