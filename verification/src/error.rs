use vstd::prelude::*;

use crate::edb;
use crate::launcher::{ExecutableArchitecture, HostArchitecture};
use crate::skin_archive::{ArchiveFailure, ArchiveFailureModel};
use crate::text::TextEncoding;

verus! {

/// Why a toolbox operation failed.
#[derive(Debug, Clone)]
pub enum Error {
    /// The bytes are neither UTF-8 nor GBK text.
    InvalidText,
    /// The text has characters the encoding cannot represent.
    UnrepresentableText(TextEncoding),
    /// An INI line could not be read; `line` counts from 1.
    InvalidIni { line: usize, reason: &'static str },
    /// A skin archive entry is not a plain relative path.
    UnsafeArchivePath(String),
    /// A skin lacks a required file.
    MissingSkinAsset(&'static str),
    /// A skin asset is larger than allowed.
    AssetTooLarge,
    /// A skin archive could not be read.
    Archive(ArchiveFailure),
    /// The EDB/EDT layer failed.
    Database(edb::Error),
    /// A tool database lacks a required field.
    MissingToolField(&'static str),
    /// A packaged tool path is unsafe or unsupported.
    InvalidToolPath(String),
    /// A built-in action was asked to start as a process.
    BuiltInAction(String),
    /// A tool path does not exist.
    ToolNotFound(String),
    /// A resolved tool path leaves the package root.
    ToolOutsideRoot(String),
    /// Hardware detection failed.
    HardwareDetection(String),
    /// The host cannot run the tool's architecture.
    UnsupportedToolArchitecture { host: HostArchitecture, executable: ExecutableArchitecture, path: String },
}

/// An error as mathematics: its texts as characters.
pub enum ErrorModel {
    InvalidText,
    UnrepresentableText(TextEncoding),
    InvalidIni { line: usize, reason: &'static str },
    UnsafeArchivePath(Seq<char>),
    MissingSkinAsset(&'static str),
    AssetTooLarge,
    Archive(ArchiveFailureModel),
    Database(edb::Error),
    MissingToolField(&'static str),
    InvalidToolPath(Seq<char>),
    BuiltInAction(Seq<char>),
    ToolNotFound(Seq<char>),
    ToolOutsideRoot(Seq<char>),
    HardwareDetection(Seq<char>),
    UnsupportedToolArchitecture { host: HostArchitecture, executable: ExecutableArchitecture, path: Seq<char> },
}

impl View for Error {
    type V = ErrorModel;

    open spec fn view(&self) -> ErrorModel {
        match self {
            Error::InvalidText => ErrorModel::InvalidText,
            Error::UnrepresentableText(e) => ErrorModel::UnrepresentableText(*e),
            Error::InvalidIni { line, reason } => ErrorModel::InvalidIni { line: *line, reason: *reason },
            Error::UnsafeArchivePath(s) => ErrorModel::UnsafeArchivePath(s@),
            Error::MissingSkinAsset(n) => ErrorModel::MissingSkinAsset(*n),
            Error::AssetTooLarge => ErrorModel::AssetTooLarge,
            Error::Archive(f) => ErrorModel::Archive(f@),
            Error::Database(e) => ErrorModel::Database(*e),
            Error::MissingToolField(n) => ErrorModel::MissingToolField(*n),
            Error::InvalidToolPath(s) => ErrorModel::InvalidToolPath(s@),
            Error::BuiltInAction(s) => ErrorModel::BuiltInAction(s@),
            Error::ToolNotFound(s) => ErrorModel::ToolNotFound(s@),
            Error::ToolOutsideRoot(s) => ErrorModel::ToolOutsideRoot(s@),
            Error::HardwareDetection(s) => ErrorModel::HardwareDetection(s@),
            Error::UnsupportedToolArchitecture { host, executable, path } => ErrorModel::UnsupportedToolArchitecture {
                host: *host,
                executable: *executable,
                path: path@,
            },
        }
    }
}

} // verus!
