//! What is known of the files that go into an archive before it is built:
//! for each its path below the archived directory, its length and the
//! checksum of its contents.

use vstd::prelude::*;
use vstd::string::*;
use std::path::PathBuf;
use crate::checksum::{checksum, crc64_iso};

verus! {

/// `std::path::PathBuf`, carried through as it is.
#[verifier::external_type_specification]
#[verifier::external_body]
pub struct ExPathBuf(PathBuf);

/// `PathBuf::clone` returns a copy of the path.
pub assume_specification[ <PathBuf as Clone>::clone ](path: &PathBuf) -> (r: PathBuf)
    ensures
        r == *path,
;

/// What one file contributes to the layout.
pub struct Metadatum {
    /// The path, relative to the archived directory.
    pub name: Seq<char>,
    /// The number of bytes in the file.
    pub length: u64,
    /// The checksum of those bytes.
    pub checksum: u64,
}

/// Basic information about one file.
#[derive(Clone, Debug)]
pub struct FileDatum {
    name: String,
    length: u64,
    checksum: u64,
}

impl View for FileDatum {
    type V = Metadatum;

    closed spec fn view(&self) -> Metadatum {
        Metadatum { name: self.name@, length: self.length, checksum: self.checksum }
    }
}

/// The views of a run of file data, in the same order.
pub open spec fn metadata(data: Seq<FileDatum>) -> Seq<Metadatum> {
    data.map_values(|d: FileDatum| d@)
}

impl FileDatum {
    /// Describes a file by its path, length and checksum.
    pub fn new(name: String, length: u64, checksum: u64) -> (r: Self)
        ensures
            r@ == (Metadatum { name: name@, length, checksum }),
    {
        FileDatum { name, length, checksum }
    }

    /// Describes a file by its path and its contents: the length and the
    /// checksum are taken from the contents.
    pub fn from_contents(name: String, contents: &[u8]) -> (r: Self)
        ensures
            r@ == (Metadatum {
                name: name@,
                length: contents@.len() as u64,
                checksum: crc64_iso(contents@),
            }),
    {
        FileDatum { name, length: contents.len() as u64, checksum: checksum(contents) }
    }

    /// The file's path, relative to the archived directory.
    pub fn name(&self) -> (r: String)
        ensures
            r@ == self@.name,
    {
        self.name.clone()
    }

    /// The file's path, borrowed.
    pub fn name_str(&self) -> (r: &str)
        ensures
            r@ == self@.name,
    {
        self.name.as_str()
    }

    /// The file's length in bytes.
    pub fn len(&self) -> (r: u64)
        ensures
            r == self@.length,
    {
        self.length
    }

    /// The checksum of the file's contents.
    pub fn checksum(&self) -> (r: u64)
        ensures
            r == self@.checksum,
    {
        self.checksum
    }
}

/// Information on all the files found below one directory.
#[derive(Clone, Debug)]
pub struct FileData {
    base_path: PathBuf,
    data: Vec<FileDatum>,
}

impl View for FileData {
    type V = Seq<Metadatum>;

    closed spec fn view(&self) -> Seq<Metadatum> {
        metadata(self.data@)
    }
}

impl FileData {
    /// The directory that was listed.
    pub closed spec fn base(&self) -> PathBuf {
        self.base_path
    }

    /// Puts a listing together from the directory and its files.
    pub fn new(base_path: PathBuf, data: Vec<FileDatum>) -> (r: Self)
        ensures
            r@ == metadata(data@),
            r.base() == base_path,
    {
        FileData { base_path, data }
    }

    /// The path of the listed directory.
    pub fn path(&self) -> (r: PathBuf)
        ensures
            r == self.base(),
    {
        self.base_path.clone()
    }

    /// The number of files listed.
    pub fn len(&self) -> (r: usize)
        ensures
            r == self@.len(),
    {
        self.data.len()
    }

    /// The data of the files, borrowed.
    pub fn as_vec(&self) -> (r: &Vec<FileDatum>)
        ensures
            metadata(r@) == self@,
    {
        &self.data
    }

    /// Gives up the listing for the data of its files.
    pub fn into_vec(self) -> (r: Vec<FileDatum>)
        ensures
            metadata(r@) == self@,
    {
        self.data
    }
}

/// Why a listing could not be made or used.
#[derive(Clone, Debug, PartialEq, Eq)]
pub enum FileDataError {
    /// The path to list is not a directory.
    BasePathNotDirectory,
    /// A file's name is not valid UTF-8; the name is given as far as it
    /// can be shown.
    NonUtf8Filepath(String),
    /// Two files of one listing have the same path.
    DuplicateEntry,
}

impl FileDataError {
    /// The text that describes each kind of error.
    pub open spec fn spec_description(&self) -> Seq<char> {
        match self {
            FileDataError::BasePathNotDirectory => "Base path is not a directory"@,
            FileDataError::NonUtf8Filepath(_) => "Non-Utf8 file path detected"@,
            FileDataError::DuplicateEntry => "Duplicate entry"@,
        }
    }

    /// A short description of the kind of error.
    pub fn description(&self) -> (r: &'static str)
        ensures
            r@ == self.spec_description(),
    {
        match self {
            FileDataError::BasePathNotDirectory => "Base path is not a directory",
            FileDataError::NonUtf8Filepath(_) => "Non-Utf8 file path detected",
            FileDataError::DuplicateEntry => "Duplicate entry",
        }
    }

    /// The message that a user is shown: for a file name that is not UTF-8
    /// the name itself, else the description.
    pub fn to_string(&self) -> (r: String)
        ensures
            r@ == match self {
                FileDataError::NonUtf8Filepath(path) => path@,
                _ => self.spec_description(),
            },
    {
        match self {
            FileDataError::NonUtf8Filepath(path) => path.clone(),
            _ => self.description().to_owned(),
        }
    }
}

} // verus!
