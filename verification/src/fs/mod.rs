pub mod mail;

use vstd::prelude::*;

pub use mail::{MailBox, MailRingBuffer};

verus! {

/// Kind bits of a file: a directory.
pub const STAT_MODE_DIR: u32 = 0o040000;

/// Kind bits of a file: an ordinary regular file.
pub const STAT_MODE_FILE: u32 = 0o100000;

/// The kind of a file, as a set of flag bits (`DIR`, `FILE`, or none).
pub struct StatMode {
    bits: u32,
}

impl StatMode {
    pub closed spec fn spec_bits(&self) -> u32 {
        self.bits
    }

    /// The flag bits.
    pub fn bits(&self) -> (b: u32)
        ensures
            b == self.spec_bits(),
    {
        self.bits
    }

    /// No flag set.
    pub fn empty() -> (m: StatMode)
        ensures
            m.spec_bits() == 0,
    {
        StatMode { bits: 0 }
    }

    /// The directory flag.
    pub fn dir() -> (m: StatMode)
        ensures
            m.spec_bits() == STAT_MODE_DIR,
    {
        StatMode { bits: STAT_MODE_DIR }
    }

    /// The regular-file flag.
    pub fn file() -> (m: StatMode)
        ensures
            m.spec_bits() == STAT_MODE_FILE,
    {
        StatMode { bits: STAT_MODE_FILE }
    }

    /// The flags of `bits`, with every bit that names no flag dropped.
    pub fn from_bits_truncate(bits: u32) -> (m: StatMode)
        ensures
            m.spec_bits() == bits & (STAT_MODE_DIR | STAT_MODE_FILE),
    {
        StatMode { bits: bits & (STAT_MODE_DIR | STAT_MODE_FILE) }
    }

    /// Whether every flag of `other` is set here.
    pub fn contains(&self, other: &StatMode) -> (r: bool)
        ensures
            r == (self.spec_bits() & other.spec_bits() == other.spec_bits()),
    {
        self.bits & other.bits == other.bits
    }
}

/// What `fstat` reports of a file.
pub struct Stat {
    /// The device the file lives on.
    pub dev: u64,
    /// The file's inode number.
    pub ino: u64,
    /// The file's kind.
    pub mode: StatMode,
    /// The number of hard links to the file; 1 at creation.
    pub nlink: u32,
    /// Padding kept for layout compatibility.
    pub pad: [u64; 7],
}

impl Stat {
    /// A status record with the given fields and zero padding.
    pub fn new(dev: u64, ino: u64, mode: StatMode, nlink: u32) -> (st: Stat)
        ensures
            st.dev == dev,
            st.ino == ino,
            st.mode == mode,
            st.nlink == nlink,
            forall|i: int| 0 <= i < 7 ==> st.pad@[i] == 0,
    {
        Stat { dev, ino, mode, nlink, pad: [0u64, 0, 0, 0, 0, 0, 0] }
    }
}

/// Whether `st` is the record of a file that carries no status of its own:
/// device 0, inode 0, no kind flag, one link, zero padding.
pub open spec fn is_plain_stat(st: Stat) -> bool {
    &&& st.dev == 0
    &&& st.ino == 0
    &&& st.mode.spec_bits() == 0
    &&& st.nlink == 1
    &&& forall|i: int| 0 <= i < 7 ==> st.pad@[i] == 0
}

/// An object that system calls can read bytes from and write bytes to.
pub trait File {
    /// The object's well-formedness, which every operation keeps.
    spec fn inv(&self) -> bool;

    fn readable(&self) -> bool;

    fn writable(&self) -> bool;

    /// Reads into `buf`; returns the number of bytes read, or a value that
    /// signals that nothing could be read.
    fn read(&mut self, buf: &mut Vec<u8>) -> (n: usize)
        requires
            old(self).inv(),
        ensures
            final(self).inv(),
    ;

    /// Writes from `buf`; returns the number of bytes written, or a value
    /// that signals that nothing could be written.
    fn write(&mut self, buf: &[u8]) -> (n: usize)
        requires
            old(self).inv(),
        ensures
            final(self).inv(),
    ;

    /// The file's status; a file without status of its own reports
    /// device 0, inode 0, no kind, one link and zero padding.
    fn get_stat(&self) -> (st: Stat)
        default_ensures
            is_plain_stat(st),
    {
        assert(0u32 & (STAT_MODE_DIR | STAT_MODE_FILE) == 0) by (bit_vector);
        Stat::new(0, 0, StatMode::from_bits_truncate(0), 1)
    }
}

} // verus!
