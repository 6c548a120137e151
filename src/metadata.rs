//! Versions, packages and the operations a package carries.
use vstd::prelude::*;

use crate::name::CleanName;

verus! {

/// A half-open byte interval, from `start` included to `end` excluded, into a
/// package data stream.
#[derive(Debug, Clone, Copy, PartialEq, Eq)]
pub struct ByteRange {
    pub start: u64,
    pub end: u64,
}

impl ByteRange {
    pub open spec fn spec_len(&self) -> int {
        self.end - self.start
    }
}

/// One record of a package: a per-path mutation with integrity data.
#[derive(Debug, Clone)]
pub enum Operation {
    MkDir { path: String },
    RmDir { path: String },
    Add {
        path: String,
        mode: u32,
        final_size: u64,
        final_hash: Vec<u8>,
        data_range: ByteRange,
        data_codec: String,
    },
    Patch {
        path: String,
        mode: u32,
        final_size: u64,
        final_hash: Vec<u8>,
        local_hash: Vec<u8>,
        local_size: u64,
        data_range: ByteRange,
        data_codec: String,
        patcher: String,
    },
    Check { path: String, final_hash: Vec<u8>, final_size: u64, mode: u32 },
    Rm { path: String },
}

/// The data range of an operation that carries data.
pub open spec fn op_range(op: Operation) -> Option<ByteRange> {
    match op {
        Operation::Add { data_range, .. } => Some(data_range),
        Operation::Patch { data_range, .. } => Some(data_range),
        _ => None,
    }
}

/// The path an operation targets.
pub open spec fn op_path(op: Operation) -> Seq<char> {
    match op {
        Operation::MkDir { path } => path@,
        Operation::RmDir { path } => path@,
        Operation::Add { path, .. } => path@,
        Operation::Patch { path, .. } => path@,
        Operation::Check { path, .. } => path@,
        Operation::Rm { path } => path@,
    }
}

/// The hash and size a file must have once the operation is applied.
pub open spec fn op_final(op: Operation) -> Option<(Seq<u8>, u64)> {
    match op {
        Operation::Add { final_hash, final_size, .. } => Some((final_hash@, final_size)),
        Operation::Patch { final_hash, final_size, .. } => Some((final_hash@, final_size)),
        Operation::Check { final_hash, final_size, .. } => Some((final_hash@, final_size)),
        _ => None,
    }
}

/// The same operation with its data range replaced (operations without
/// data are unchanged).
pub open spec fn with_range(op: Operation, r: ByteRange) -> Operation {
    match op {
        Operation::Add { path, mode, final_size, final_hash, data_codec, .. } => Operation::Add {
            path,
            mode,
            final_size,
            final_hash,
            data_range: r,
            data_codec,
        },
        Operation::Patch {
            path,
            mode,
            final_size,
            final_hash,
            local_hash,
            local_size,
            data_codec,
            patcher,
            ..
        } => Operation::Patch {
            path,
            mode,
            final_size,
            final_hash,
            local_hash,
            local_size,
            data_range: r,
            data_codec,
            patcher,
        },
        _ => op,
    }
}

/// The data ranges of `ops`, in operation order, skipping operations
/// that carry no data.
pub open spec fn ranges_of(ops: Seq<Operation>) -> Seq<ByteRange>
    decreases ops.len(),
{
    if ops.len() == 0 {
        Seq::empty()
    } else {
        let prev = ranges_of(ops.drop_last());
        match op_range(ops.last()) {
            Some(r) => prev.push(r),
            None => prev,
        }
    }
}

/// Ranges that tile the stream from offset zero, in order: each starts where the previous
/// one ends, the first at zero.
pub open spec fn contiguous(rs: Seq<ByteRange>) -> bool {
    forall|i: int|
        0 <= i < rs.len() ==> (#[trigger] rs[i]).start <= rs[i].end && (if i == 0 {
            rs[i].start == 0
        } else {
            rs[i].start == rs[i - 1].end
        })
}

/// The length of the stream that contiguous ranges cover.
pub open spec fn stream_len(rs: Seq<ByteRange>) -> int {
    if rs.len() == 0 {
        0
    } else {
        rs.last().end as int
    }
}

/// The sum of the lengths of `rs`.
pub open spec fn sum_len(rs: Seq<ByteRange>) -> int
    decreases rs.len(),
{
    if rs.len() == 0 {
        0
    } else {
        sum_len(rs.drop_last()) + rs.last().spec_len()
    }
}

/// A package whose operations' ranges tile its data stream of `size` bytes.
pub open spec fn layout_ok(ops: Seq<Operation>, size: u64) -> bool {
    contiguous(ranges_of(ops)) && stream_len(ranges_of(ops)) == size
}

/// A published version of a tree.
#[derive(Debug, Clone)]
pub struct Version {
    pub revision: CleanName,
    pub description: String,
}

/// The revision a repository currently publishes.
#[derive(Debug, Clone)]
pub struct Current {
    pub version: CleanName,
}

/// The description of one package: complete (`from` is `None`) or patch.
#[derive(Debug, Clone)]
pub struct PackageMetadata {
    pub package_data_name: CleanName,
    pub from: Option<CleanName>,
    pub to: CleanName,
    pub size: u64,
    pub operations: Vec<Operation>,
    pub hash: Vec<u8>,
}

impl PackageMetadata {
    pub open spec fn spec_from(&self) -> Option<Seq<char>> {
        match self.from {
            Some(f) => Some(f@),
            None => None,
        }
    }

    pub fn is_complete(&self) -> (r: bool)
        ensures
            r == (self.from is None),
    {
        self.from.is_none()
    }
}

} // verus!
