use vstd::prelude::*;

verus! {

/// One fixed-width binary record: the 16-byte digest of an encoded index.
/// All ordering in the system looks only at the comparison key, bytes
/// `START_CMP..HASH_SIZE` of the digest, read big-endian.
#[derive(Clone, Copy, Debug)]
pub struct Digest(pub [u8; 16]);

impl View for Digest {
    type V = Seq<u8>;

    open spec fn view(&self) -> Seq<u8> {
        self.0@
    }
}

/// The comparison key of a digest, as an integer: bytes 10..16 read
/// big-endian. Lexicographic comparison of those bytes over unsigned values
/// is exactly numeric comparison of this integer.
pub open spec fn key_val(d: Seq<u8>) -> int {
    d[10] * 0x100_0000_0000 + d[11] * 0x1_0000_0000 + d[12] * 0x100_0000 + d[13] * 0x1_0000
        + d[14] * 0x100 + d[15]
}

/// The views of a sequence of digest values.
pub open spec fn views(s: Seq<Digest>) -> Seq<Seq<u8>> {
    s.map_values(|d: Digest| d@)
}

/// Non-decreasing by comparison key.
pub open spec fn sorted_asc(s: Seq<Seq<u8>>) -> bool {
    forall|i: int, j: int| 0 <= i <= j < s.len() ==> key_val(s[i]) <= key_val(s[j])
}

/// Non-increasing by comparison key.
pub open spec fn sorted_desc(s: Seq<Seq<u8>>) -> bool {
    forall|i: int, j: int| 0 <= i <= j < s.len() ==> key_val(s[i]) >= key_val(s[j])
}

impl Digest {
    /// The comparison key of this digest as a machine integer.
    pub fn key(&self) -> (k: u64)
        ensures
            k == key_val(self@),
    {
        (self.0[10] as u64) * 0x100_0000_0000 + (self.0[11] as u64) * 0x1_0000_0000
            + (self.0[12] as u64) * 0x100_0000 + (self.0[13] as u64) * 0x1_0000
            + (self.0[14] as u64) * 0x100 + (self.0[15] as u64)
    }
}

/// Three-way comparison of two digests by key, in descending direction:
/// `Less` means `a` sorts before `b` in a descending run, that is `a`'s key
/// is the larger one.
pub fn cmp_desc(a: &Digest, b: &Digest) -> (o: core::cmp::Ordering)
    ensures
        o == core::cmp::Ordering::Less <==> key_val(b@) < key_val(a@),
        o == core::cmp::Ordering::Equal <==> key_val(a@) == key_val(b@),
        o == core::cmp::Ordering::Greater <==> key_val(a@) < key_val(b@),
{
    let ka = a.key();
    let kb = b.key();
    if kb < ka {
        core::cmp::Ordering::Less
    } else if kb == ka {
        core::cmp::Ordering::Equal
    } else {
        core::cmp::Ordering::Greater
    }
}

/// Reversing turns a descending run into an ascending one.
pub proof fn lemma_reverse_sorted(s: Seq<Seq<u8>>)
    requires
        sorted_desc(s),
    ensures
        sorted_asc(s.reverse()),
{
}

} // verus!
