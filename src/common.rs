use vstd::prelude::*;

use crate::error::Result;

verus! {

/// A command record: what the log holds (`Put`, `Remove`) and what a
/// client may ask for (`Get`, which is never persisted).
#[derive(Debug, Clone, PartialEq, Eq)]
pub enum Command {
    Put { key: String, value: String },
    Remove { key: String },
    Get { key: String },
}

impl Command {
    /// The key that a command mentions.
    pub open spec fn key_of(self) -> Seq<char> {
        match self {
            Command::Put { key, .. } => key@,
            Command::Remove { key } => key@,
            Command::Get { key } => key@,
        }
    }

    /// Whether the command may stand in a segment.
    pub open spec fn is_persistent(self) -> bool {
        !(self is Get)
    }
}

/// Locates a record: the byte range `[start, start + len)` of segment
/// `file_no`.
#[derive(Debug, Clone, Copy, PartialEq, Eq)]
pub struct OffSet {
    file_no: u64,
    start: u64,
    len: u64,
}

impl OffSet {
    pub closed spec fn spec_no(self) -> u64 {
        self.file_no
    }

    pub closed spec fn spec_start(self) -> u64 {
        self.start
    }

    pub closed spec fn spec_len(self) -> u64 {
        self.len
    }

    /// The first byte past the record.
    pub open spec fn spec_end(self) -> int {
        self.spec_start() + self.spec_len()
    }

    /// The locator of the bytes `[start, end)` of segment `file_no`.
    pub fn new(file_no: u64, start: u64, end: u64) -> (r: OffSet)
        requires
            start <= end,
        ensures
            r.spec_no() == file_no,
            r.spec_start() == start,
            r.spec_len() == end - start,
    {
        OffSet { file_no, start, len: end - start }
    }

    pub fn start(&self) -> (r: u64)
        ensures
            r == self.spec_start(),
    {
        self.start
    }

    pub fn len(&self) -> (r: u64)
        ensures
            r == self.spec_len(),
    {
        self.len
    }

    pub fn no(&self) -> (r: u64)
        ensures
            r == self.spec_no(),
    {
        self.file_no
    }
}

/// The interface of a storage engine, as the server and its callers use it.
/// A handle is cheap to clone and every clone reaches the same store.
pub trait KvsEngine: Clone + Send + 'static {
    /// The value of `key`, or `None` where the store holds no such key.
    fn get(&self, key: String) -> Result<Option<String>>;

    /// Stores `value` under `key`, replacing any value it had.
    fn set(&self, key: String, value: String) -> Result<()>;

    /// Removes `key`; `KeyNotFound` where the store holds no such key.
    fn remove(&self, key: String) -> Result<()>;
}

} // verus!
