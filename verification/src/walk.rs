//! The database builder's bookkeeping: the line written for each walked
//! entry, the running statistics of a build, and the bit cursor that picks
//! drives out of a drive mask.

use crate::query::SEP;
use crate::text::{copy_range, lemma_ascii_seq_valid};
use vstd::prelude::*;
use vstd::utf8::{valid_utf8, valid_utf8_concat};

verus! {

/// The number of bits in a drive mask word.
pub const DRIVE_BITS: u8 = 32;

/// Running totals of one database build: how much was walked and how large
/// the compressed database came out.
pub struct Statistics {
    pub dirs: usize,
    pub files: usize,
    pub files_bytes: usize,
    pub db_size: usize,
    pub elapsed: u64,
}

impl Statistics {
    /// Fresh totals, all zero.
    pub fn new() -> (r: Statistics)
        ensures
            r.dirs == 0 && r.files == 0 && r.files_bytes == 0 && r.db_size == 0 && r.elapsed == 0,
    {
        Statistics { dirs: 0, files: 0, files_bytes: 0, db_size: 0, elapsed: 0 }
    }

    /// Accounts one walked entry: a directory bumps the directory count, a
    /// file bumps the file count and the name-byte total.
    pub fn record_entry(&mut self, path_len: usize, is_dir: bool)
        requires
            old(self).dirs < usize::MAX,
            old(self).files < usize::MAX,
            old(self).files_bytes + path_len <= usize::MAX,
        ensures
            final(self).dirs == old(self).dirs + (if is_dir { 1int } else { 0int }),
            final(self).files == old(self).files + (if is_dir { 0int } else { 1int }),
            final(self).files_bytes == old(self).files_bytes + (if is_dir { 0int } else {
                path_len as int
            }),
            final(self).db_size == old(self).db_size,
            final(self).elapsed == old(self).elapsed,
    {
        if is_dir {
            self.dirs = self.dirs + 1;
        } else {
            self.files = self.files + 1;
            self.files_bytes = self.files_bytes + path_len;
        }
    }
}

/// The line the walker hands to the encoder for one entry: the path as it
/// is, with a trailing separator marking a directory.
pub fn walk_line(path: &Vec<u8>, is_dir: bool) -> (r: Vec<u8>)
    requires
        path@.len() + 1 <= usize::MAX,
    ensures
        r@ == path@ + (if is_dir {
            seq![SEP]
        } else {
            Seq::<u8>::empty()
        }),
        valid_utf8(path@) ==> valid_utf8(r@),
{
    let n = path.len();
    let mut r = copy_range(path, 0, n);
    assert(r@ =~= path@);
    if is_dir {
        r.push(SEP);
        proof {
            if valid_utf8(path@) {
                lemma_ascii_seq_valid(SEP);
                valid_utf8_concat(path@, seq![SEP]);
            }
            assert(r@ =~= path@ + seq![SEP]);
        }
        r
    } else {
        assert(r@ =~= path@ + Seq::<u8>::empty());
        r
    }
}

/// Iterator-like cursor over the bits of a 32-bit drive mask, least
/// significant bit first.
pub struct DwordBits {
    dword: u32,
    ctr: u8,
}

impl DwordBits {
    /// The bits already handed out.
    pub closed spec fn consumed(&self) -> nat {
        self.ctr as nat
    }

    /// The word the cursor walks over.
    pub closed spec fn word(&self) -> u32 {
        self.dword
    }

    pub fn new(dword: u32) -> (r: DwordBits)
        ensures
            r.word() == dword,
            r.consumed() == 0,
    {
        DwordBits { dword, ctr: 0 }
    }

    /// The next bit of the word, lowest first; `None` once all 32 are gone.
    pub fn next(&mut self) -> (r: Option<bool>)
        ensures
            final(self).word() == old(self).word(),
            old(self).consumed() >= DRIVE_BITS ==> (r is None && final(self).consumed() == old(
                self,
            ).consumed()),
            old(self).consumed() < DRIVE_BITS ==> (final(self).consumed() == old(self).consumed()
                + 1 && r == Some(
                old(self).word() >> (old(self).consumed() as u32) & 1u32 == 1u32,
            )),
    {
        if self.ctr >= DRIVE_BITS {
            return None;
        }
        let bit = self.dword >> (self.ctr as u32) & 1u32 == 1u32;
        self.ctr = self.ctr + 1;
        Some(bit)
    }
}

} // verus!
