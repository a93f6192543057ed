use vstd::prelude::*;

use crate::codec::code_of;

verus! {

/// The identity of one indexed document page: which directory, which file,
/// and which page (1-based) the text came from.  Immutable once created; its
/// storage key is the 64-bit content hash of the three fields.
#[derive(Clone, Debug, PartialEq, Eq, Hash)]
pub struct Source {
    pub dir: String,
    pub file_name: String,
    pub page_number: usize,
}

/// Offset basis of the 64-bit FNV-1a hash.
pub const HASH_BASIS: u64 = 0xcbf29ce484222325;

/// Multiplier of the 64-bit FNV-1a hash.
pub const HASH_PRIME: u64 = 0x100000001b3;

/// Field separator fed between the hashed fields; it lies above the largest
/// Unicode scalar value, so no character collides with it.
pub const HASH_SEP: u64 = 0x110000;

/// One FNV-1a mixing step: fold `x` into the running state `h`.
pub open spec fn hash_step(h: u64, x: u64) -> u64 {
    (h ^ x).wrapping_mul(HASH_PRIME)
}

/// The hash state after folding every character of `s` into `h`, in order.
pub open spec fn hash_chars(h: u64, s: Seq<char>) -> u64
    decreases s.len(),
{
    if s.len() == 0 {
        h
    } else {
        hash_step(hash_chars(h, s.drop_last()), code_of(s.last()))
    }
}

/// The content hash of a page identity: both strings and the page number,
/// separated so that field boundaries matter.
pub open spec fn source_hash(dir: Seq<char>, file_name: Seq<char>, page_number: nat) -> u64 {
    hash_step(
        hash_step(
            hash_chars(hash_step(hash_chars(HASH_BASIS, dir), HASH_SEP), file_name),
            HASH_SEP,
        ),
        page_number as u64,
    )
}

/// Folds the characters of `s` into the running hash state `h`.
fn hash_string(h: u64, s: &str) -> (r: u64)
    ensures
        r == hash_chars(h, s@),
{
    let n: usize = s.unicode_len();
    let mut acc: u64 = h;
    let mut i: usize = 0;
    while i < n
        invariant
            n == s@.len(),
            i <= n,
            acc == hash_chars(h, s@.subrange(0, i as int)),
        decreases n - i,
    {
        let c = s.get_char(i);
        proof {
            let pre = s@.subrange(0, i + 1);
            assert(pre.drop_last() =~= s@.subrange(0, i as int));
            assert(pre.last() == s@[i as int]);
        }
        acc = (acc ^ ((c as u32) as u64)).wrapping_mul(HASH_PRIME);
        i = i + 1;
    }
    proof {
        assert(s@.subrange(0, n as int) =~= s@);
    }
    acc
}

impl Source {
    pub fn new(dir: String, file_name: String, page_number: usize) -> (r: Self)
        ensures
            r.dir == dir,
            r.file_name == file_name,
            r.page_number == page_number,
    {
        Self { dir, file_name, page_number }
    }

    /// The 64-bit content hash under which this record is stored.
    pub fn get_hash(&self) -> (r: u64)
        ensures
            r == source_hash(self.dir@, self.file_name@, self.page_number as nat),
    {
        let h1 = hash_string(HASH_BASIS, self.dir.as_str());
        let h2 = h1 ^ HASH_SEP;
        let h2 = h2.wrapping_mul(HASH_PRIME);
        let h3 = hash_string(h2, self.file_name.as_str());
        let h4 = (h3 ^ HASH_SEP).wrapping_mul(HASH_PRIME);
        (h4 ^ (self.page_number as u64)).wrapping_mul(HASH_PRIME)
    }
}

} // verus!
