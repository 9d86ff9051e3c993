//! Content digests, and the view of a listing that the deduplication reads.
use vstd::prelude::*;
use blake2::Blake2b;
use blake2::Digest;
use blake2::digest::consts::U16;

verus! {

/// The 16-byte BLAKE2b digest of `data`.
pub uninterp spec fn blake2b_128(data: Seq<u8>) -> Seq<u8>;

/// Relies on blake2's `Blake2b<U16>` through `Digest::digest`: a digest of
/// 16 bytes that depends on the bytes of the content alone.
#[verifier::external_body]
fn blake2b_digest(data: &Vec<u8>) -> (r: Vec<u8>)
    ensures
        r@ == blake2b_128(data@),
        r@.len() == 16,
{
    Blake2b::<U16>::digest(data.as_slice()).to_vec()
}

/// The fingerprint of a file's content; equal contents give equal fingerprints.
pub fn fingerprint(content: &Vec<u8>) -> (r: Vec<u8>)
    ensures
        r@ == blake2b_128(content@),
        r@.len() == 16,
{
    blake2b_digest(content)
}

/// Whether two byte strings are equal.
pub fn bytes_equal(a: &Vec<u8>, b: &Vec<u8>) -> (r: bool)
    ensures
        r == (a@ == b@),
{
    if a.len() != b.len() {
        return false;
    }
    let mut i: usize = 0;
    while i < a.len()
        invariant
            a.len() == b.len(),
            i <= a.len(),
            forall|j: int| 0 <= j < i ==> a@[j] == b@[j],
        decreases a.len() - i,
    {
        if a[i] != b[i] {
            return false;
        }
        i = i + 1;
    }
    assert(a@ =~= b@);
    true
}

/// One entry of the listing snapshot, as the deduplication sees it.
pub enum Entry {
    /// A subdirectory: skipped, never read, fingerprinted or deleted.
    Directory,
    /// A file whose content could not be read: skipped and left in place.
    Unreadable,
    /// A file that was read, with the fingerprint of its content.
    File(Vec<u8>),
}

/// The fingerprint of an entry, for files only.
pub open spec fn digest_of(e: Entry) -> Option<Seq<u8>> {
    match e {
        Entry::File(d) => Some(d@),
        _ => None,
    }
}

/// Whether index `k` of `s` is a file.
pub open spec fn is_file(s: Seq<Entry>, k: int) -> bool {
    0 <= k < s.len() && digest_of(s[k]) is Some
}

/// Whether index `k` of `s` is a file with fingerprint `d`.
pub open spec fn file_with(s: Seq<Entry>, k: int, d: Seq<u8>) -> bool {
    0 <= k < s.len() && digest_of(s[k]) == Some(d)
}

/// A file kept for its fingerprint: the fingerprint and the file's index in the listing.
pub struct Winner {
    pub digest: Vec<u8>,
    pub index: usize,
}

impl Winner {
    pub open spec fn view(&self) -> (Seq<u8>, usize) {
        (self.digest@, self.index)
    }
}

/// Whether the winners of `ws` have pairwise distinct fingerprints.
pub open spec fn distinct_digests(ws: Seq<Winner>) -> bool {
    forall|a: int, b: int|
        0 <= a < ws.len() && 0 <= b < ws.len() && a != b ==> #[trigger] ws[a].digest@
            != #[trigger] ws[b].digest@
}

} // verus!
