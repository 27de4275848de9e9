use vstd::prelude::*;

verus! {

/// Failure while resolving season or episode metadata.
#[derive(Debug, Clone, Copy, PartialEq, Eq, Structural)]
pub enum MetadataError {
    /// An episode bundle has no readable descriptor.
    MissingDescriptor,
    /// An episode descriptor could not be understood.
    InvalidDescriptor,
    /// A season directory contains no episode bundles at all.
    EmptySeason,
}

/// Failure while locating or normalizing a subtitle.
#[derive(Debug, Clone, Copy, PartialEq, Eq, Structural)]
pub enum SubtitleError {
    /// The language-specific subtitle directory holds no file.
    DirectoryEmpty,
    /// The language-specific subtitle directory holds more than one file,
    /// so the choice would be arbitrary; this is rejected explicitly.
    AmbiguousDirectory,
    /// The single subtitle file has an extension outside the supported set.
    UnknownFormat,
    /// The subtitle text could not be decoded into the pivot document.
    CodecFailure,
}

/// Failure while running the external multiplexer.
#[derive(Debug, Clone, Copy, PartialEq, Eq, Structural)]
pub enum MuxError {
    /// The multiplexer ran but exited with this non-zero status.
    ExternalFailure(i32),
    /// The multiplexer process could not be started at all.
    ProcessSpawnFailure,
}

/// Failure while moving or copying a finished container into the library.
#[derive(Debug, Clone, Copy, PartialEq, Eq, Structural)]
pub enum PackagingError {
    /// An underlying filesystem operation failed.
    IOFailure,
}

/// Any failure a pipeline stage can report for one episode or season.
#[derive(Debug, Clone, Copy, PartialEq, Eq, Structural)]
pub enum Error {
    Metadata(MetadataError),
    Subtitle(SubtitleError),
    Mux(MuxError),
    Packaging(PackagingError),
}

/// The fixed description of each error, naming its stage.
pub open spec fn spec_error_message(e: Error) -> Seq<char> {
    match e {
        Error::Metadata(MetadataError::MissingDescriptor) => "metadata error: missing episode descriptor"@,
        Error::Metadata(MetadataError::InvalidDescriptor) => "metadata error: invalid episode descriptor"@,
        Error::Metadata(MetadataError::EmptySeason) => "metadata error: season directory has no episodes"@,
        Error::Subtitle(SubtitleError::DirectoryEmpty) => "subtitle error: subtitle directory is empty"@,
        Error::Subtitle(SubtitleError::AmbiguousDirectory) => "subtitle error: subtitle directory holds more than one file"@,
        Error::Subtitle(SubtitleError::UnknownFormat) => "subtitle error: unsupported subtitle format"@,
        Error::Subtitle(SubtitleError::CodecFailure) => "subtitle error: subtitle text could not be decoded"@,
        Error::Mux(MuxError::ExternalFailure(_)) => "mux error: external multiplexer exited with a non-zero status"@,
        Error::Mux(MuxError::ProcessSpawnFailure) => "mux error: external multiplexer could not be started"@,
        Error::Packaging(PackagingError::IOFailure) => "packaging error: filesystem operation failed"@,
    }
}

impl Error {
    /// A short human-readable description of the error.
    pub fn message(&self) -> (r: String)
        ensures
            r@ == spec_error_message(*self),
    {
        let text: &str = match self {
            Error::Metadata(MetadataError::MissingDescriptor) => "metadata error: missing episode descriptor",
            Error::Metadata(MetadataError::InvalidDescriptor) => "metadata error: invalid episode descriptor",
            Error::Metadata(MetadataError::EmptySeason) => "metadata error: season directory has no episodes",
            Error::Subtitle(SubtitleError::DirectoryEmpty) => "subtitle error: subtitle directory is empty",
            Error::Subtitle(SubtitleError::AmbiguousDirectory) => "subtitle error: subtitle directory holds more than one file",
            Error::Subtitle(SubtitleError::UnknownFormat) => "subtitle error: unsupported subtitle format",
            Error::Subtitle(SubtitleError::CodecFailure) => "subtitle error: subtitle text could not be decoded",
            Error::Mux(MuxError::ExternalFailure(_)) => "mux error: external multiplexer exited with a non-zero status",
            Error::Mux(MuxError::ProcessSpawnFailure) => "mux error: external multiplexer could not be started",
            Error::Packaging(PackagingError::IOFailure) => "packaging error: filesystem operation failed",
        };
        text.to_owned()
    }
}

} // verus!
