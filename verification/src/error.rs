//! Error kinds of the transfer core and the human-readable messages that
//! travel in `Err` reply frames.

use vstd::prelude::*;
use vstd::string::StrSliceExecFns;
use vstd::string::StringSliceAdditionalSpecFns;

verus! {

/// Everything that can go wrong in the protocol core.  `Io` and
/// `UploadError` carry a message as raw bytes, the form in which it travels
/// on the wire.
#[derive(Debug, Clone, PartialEq, Eq)]
pub enum Error {
    /// A chunk write could not be saved.
    ChunkFail,
    /// A chunk index that is not in the file's pending map.
    ChunkIndex,
    /// The assembled file does not match the expected checksum.
    FailChecksum,
    /// The per-file error counter saturated; the transfer is abandoned.
    FileFail,
    /// The options blob could not be decoded.
    InvalidFileOpts,
    /// The source path is missing or is not a regular file.
    InvalidFilePath,
    /// The remote side sent a frame that the sender does not understand.
    InvalidReply,
    /// A malformed frame, or a frame in the wrong state.
    InvalidRequest,
    /// An operating-system error, wrapped as its message.
    Io(Vec<u8>),
    /// The structure is in receive mode but was asked to send.
    ModeRecv,
    /// The structure is in send mode but was asked to receive.
    ModeSend,
    /// A terminal failure reported by the receiver, with its message.
    UploadError(Vec<u8>),
}

impl Error {
    /// The message bytes for this error, as they appear in an `Err` reply.
    pub open spec fn spec_message(&self) -> Seq<u8> {
        match self {
            Error::ChunkFail => "Failed to save chunk to file".spec_bytes(),
            Error::ChunkIndex => "Chunk index not in file".spec_bytes(),
            Error::FailChecksum => "Uploaded file does not match expected CRC".spec_bytes(),
            Error::FileFail => "Failed to upload file".spec_bytes(),
            Error::InvalidFileOpts => "Invalid file options".spec_bytes(),
            Error::InvalidFilePath => "Path does not exist or is not a file".spec_bytes(),
            Error::InvalidReply => "Invalid reply".spec_bytes(),
            Error::InvalidRequest => "Invalid request".spec_bytes(),
            Error::Io(m) => "IO error: ".spec_bytes() + m@,
            Error::ModeRecv => "Struct is in wrong mode for receiving".spec_bytes(),
            Error::ModeSend => "Struct is in wrong mode for sending".spec_bytes(),
            Error::UploadError(m) => "Could not upload file: ".spec_bytes() + m@,
        }
    }

    /// Render the message bytes.
    pub fn message(&self) -> (r: Vec<u8>)
        ensures
            r@ == self.spec_message(),
    {
        match self {
            Error::ChunkFail => "Failed to save chunk to file".as_bytes_vec(),
            Error::ChunkIndex => "Chunk index not in file".as_bytes_vec(),
            Error::FailChecksum => "Uploaded file does not match expected CRC".as_bytes_vec(),
            Error::FileFail => "Failed to upload file".as_bytes_vec(),
            Error::InvalidFileOpts => "Invalid file options".as_bytes_vec(),
            Error::InvalidFilePath => "Path does not exist or is not a file".as_bytes_vec(),
            Error::InvalidReply => "Invalid reply".as_bytes_vec(),
            Error::InvalidRequest => "Invalid request".as_bytes_vec(),
            Error::Io(m) => {
                let mut v = "IO error: ".as_bytes_vec();
                v.extend_from_slice(m.as_slice());
                v
            },
            Error::ModeRecv => "Struct is in wrong mode for receiving".as_bytes_vec(),
            Error::ModeSend => "Struct is in wrong mode for sending".as_bytes_vec(),
            Error::UploadError(m) => {
                let mut v = "Could not upload file: ".as_bytes_vec();
                v.extend_from_slice(m.as_slice());
                v
            },
        }
    }
}

} // verus!
