//! The transaction log's data types: one entry per mutation, and pointers
//! into the log region of the backing file.
use vstd::prelude::*;

verus! {

/// One mutation event as it is recorded in the log: a monotonically
/// increasing record id and the operation itself.
#[derive(Debug)]
pub struct LogEntry {
    pub logid: u64,
    pub operation: LogOperation,
}

/// The two kinds of mutation a record can carry: storing a value under a
/// key, or removing a key.
#[derive(Debug)]
pub enum LogOperation {
    Put(String, String),
    Rm(String),
}

/// Locates one record inside the log region: the byte offset of its length
/// prefix, relative to the start of the log region, and its total on-disk
/// size including the two prefix bytes.
#[derive(Clone, Copy, Debug, PartialEq, Eq, Structural)]
pub struct LogPointer {
    pub offset: usize,
    pub size: usize,
}

impl LogPointer {
    pub fn new() -> (p: LogPointer)
        ensures
            p.offset == 0,
            p.size == 0,
    {
        LogPointer { offset: 0, size: 0 }
    }
}

/// The mathematical picture of a log operation: keys and values as
/// character sequences.
pub ghost enum SpecOp {
    Put { key: Seq<char>, value: Seq<char> },
    Rm { key: Seq<char> },
}

/// The mathematical picture of a log entry.
pub ghost struct SpecEntry {
    pub logid: u64,
    pub op: SpecOp,
}

/// The mathematical picture of a log pointer, with unbounded integers.
pub ghost struct SpecPtr {
    pub off: int,
    pub size: int,
}

impl View for LogOperation {
    type V = SpecOp;

    open spec fn view(&self) -> SpecOp {
        match self {
            LogOperation::Put(k, v) => SpecOp::Put { key: k@, value: v@ },
            LogOperation::Rm(k) => SpecOp::Rm { key: k@ },
        }
    }
}

impl View for LogEntry {
    type V = SpecEntry;

    open spec fn view(&self) -> SpecEntry {
        SpecEntry { logid: self.logid, op: self.operation@ }
    }
}

impl View for LogPointer {
    type V = SpecPtr;

    open spec fn view(&self) -> SpecPtr {
        SpecPtr { off: self.offset as int, size: self.size as int }
    }
}

} // verus!
