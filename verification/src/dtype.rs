//! Kinds of directory entries.
use vstd::prelude::*;

verus! {

/// `d_type` values of `readdir(3)` on Linux.
pub const DT_FIFO: u8 = 1;

pub const DT_CHR: u8 = 2;

pub const DT_DIR: u8 = 4;

pub const DT_BLK: u8 = 6;

pub const DT_REG: u8 = 8;

pub const DT_LNK: u8 = 10;

pub const DT_SOCK: u8 = 12;

/// The kind of a staged entry: regular file, directory or symbolic link.
#[derive(Debug, Clone, Copy, PartialEq, Eq, Structural)]
pub enum DType {
    File,
    Dir,
    Link,
}

/// The kind that a journal's one-letter code names: `f`, `d` or `l` in ASCII.
pub open spec fn dtype_of_code(c: u8) -> Option<DType> {
    if c == 102 {
        Some(DType::File)
    } else if c == 100 {
        Some(DType::Dir)
    } else if c == 108 {
        Some(DType::Link)
    } else {
        None
    }
}

/// The `d_type` value of a kind.
pub open spec fn dtype_code(d: DType) -> u8 {
    match d {
        DType::File => DT_REG,
        DType::Dir => DT_DIR,
        DType::Link => DT_LNK,
    }
}

/// The `d_type` values that an entry may carry.
pub open spec fn valid_dtype(val: u8) -> bool {
    ||| val == DT_REG
    ||| val == DT_DIR
    ||| val == DT_LNK
    ||| val == DT_BLK
    ||| val == DT_CHR
    ||| val == DT_FIFO
    ||| val == DT_SOCK
}

impl DType {
    /// Reads the one-letter code of a journal record: `f`, `d` or `l`.
    pub fn from_char(c: u8) -> (r: Option<DType>)
        ensures
            r == dtype_of_code(c),
    {
        if c == 102 {
            Some(DType::File)
        } else if c == 100 {
            Some(DType::Dir)
        } else if c == 108 {
            Some(DType::Link)
        } else {
            None
        }
    }

    /// The `d_type` value of this kind.
    pub fn to_libc(&self) -> (r: u8)
        ensures
            r == dtype_code(*self),
    {
        match self {
            DType::File => DT_REG,
            DType::Dir => DT_DIR,
            DType::Link => DT_LNK,
        }
    }

    /// The kind given, or a regular file where none is.
    pub fn or_file(d: Option<DType>) -> (r: DType)
        ensures
            r == kind_or_file(d),
    {
        match d {
            Some(k) => k,
            None => DType::File,
        }
    }
}

/// The kind given, or a regular file where none is.
pub open spec fn kind_or_file(d: Option<DType>) -> DType {
    match d {
        Some(k) => k,
        None => DType::File,
    }
}

/// Validates a raw `d_type` value.
pub fn dtype_valid(val: u8) -> (r: bool)
    ensures
        r == valid_dtype(val),
{
    val == DT_REG || val == DT_DIR || val == DT_LNK || val == DT_BLK || val == DT_CHR || val
        == DT_FIFO || val == DT_SOCK
}

/// A kind has the letter of the journal and the number of `readdir(3)`: `f`
/// and 8 for a regular file, `d` and 4 for a directory, `l` and 10 for a link.
pub proof fn law_kinds_are_known(d: DType, c: u8)
    ensures
        dtype_of_code(c) == Some(d) ==> (dtype_code(d) == 8 <==> c == 102) && (dtype_code(d) == 4
            <==> c == 100) && (dtype_code(d) == 10 <==> c == 108),
        dtype_of_code(c) is Some <==> c == 102 || c == 100 || c == 108,
        d is File <==> dtype_code(d) == 8,
        d is Dir <==> dtype_code(d) == 4,
        d is Link <==> dtype_code(d) == 10,
        valid_dtype(dtype_code(d)),
        valid_dtype(c) <==> c == 1 || c == 2 || c == 4 || c == 6 || c == 8 || c == 10 || c == 12,
{
}

} // verus!
