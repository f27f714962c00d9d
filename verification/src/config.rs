//! The settings that a command-line front end hands to the library.

use crate::error::Error;
use crate::hashsum::DIGEST_SIZE;
use vstd::prelude::*;

verus! {

/// Settings common to all operations.
#[derive(Debug)]
pub struct BaseConfig {
    /// Whether an existing output may be overwritten.
    pub force_create: bool,
}

/// Settings for building an archive.
#[derive(Debug)]
pub struct CompressConfig {
    pub base: BaseConfig,
    /// Where the input is read from; standard input where this is empty.
    pub input: String,
    /// Where the archive is written to.
    pub output: String,
    /// Where the chunk data is collected while the archive is built.
    pub temp_file: String,
    /// The number of bytes that chunk hashes are cut to.
    pub hash_length: usize,
}

/// Settings for unpacking an archive.
#[derive(Debug)]
pub struct UnpackConfig {
    pub base: BaseConfig,
}

/// The operation to perform, with its settings.
#[derive(Debug)]
pub enum Config {
    Compress(CompressConfig),
    Unpack(UnpackConfig),
}

impl CompressConfig {
    /// The hash length as an archive header records it, if it is between one
    /// byte and a full digest.
    pub fn header_hash_length(&self) -> (r: Result<u8, Error>)
        ensures
            r == if 1 <= self.hash_length <= DIGEST_SIZE {
                Ok::<u8, Error>(self.hash_length as u8)
            } else {
                Err::<u8, Error>(Error::BadConfig)
            },
    {
        if 1 <= self.hash_length && self.hash_length <= DIGEST_SIZE {
            Ok(self.hash_length as u8)
        } else {
            Err(Error::BadConfig)
        }
    }
}

} // verus!
