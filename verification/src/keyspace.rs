//! The 256-bit XOR key space.
//!
//! Record keys and peer identifiers are hashed into 32-byte identifiers;
//! proximity between identifiers is the XOR of their bytes read as a
//! big-endian unsigned integer, compared lexicographically byte by byte.

use vstd::prelude::*;

verus! {

/// The digest of an arbitrary byte string under SHA-256.
pub uninterp spec fn sha256_of(data: Seq<u8>) -> Seq<u8>;

/// Relies on sha2::Sha256 (RustCrypto): the digest is 32 bytes long and is
/// determined by the input bytes alone.
#[verifier::external_body]
fn sha256_digest(data: &Vec<u8>) -> (r: Vec<u8>)
    ensures
        r@ == sha256_of(data@),
        r@.len() == 32,
{
    <sha2::Sha256 as sha2::Digest>::digest(data.as_slice()).to_vec()
}

/// A position in the key space: exactly 32 bytes.
pub struct KadKey {
    pub bytes: Vec<u8>,
}

impl KadKey {
    pub open spec fn wf(self) -> bool {
        self.bytes@.len() == 32
    }
}

/// Hash an arbitrary byte string (a record key or a peer identifier) into
/// the key space.
pub fn kad_id(data: &Vec<u8>) -> (r: KadKey)
    ensures
        r.bytes@ == sha256_of(data@),
        r.wf(),
{
    KadKey { bytes: sha256_digest(data) }
}

/// Clone a key-space position.
pub fn kad_clone(k: &KadKey) -> (r: KadKey)
    ensures
        r.bytes@ == k.bytes@,
{
    let mut out: Vec<u8> = Vec::new();
    let mut i: usize = 0;
    while i < k.bytes.len()
        invariant
            i <= k.bytes@.len(),
            out@.len() == i as int,
            forall|j: int| 0 <= j < i ==> out@[j] == k.bytes@[j],
        decreases k.bytes@.len() - i,
    {
        out.push(k.bytes[i]);
        i += 1;
    }
    proof {
        assert(out@ =~= k.bytes@);
    }
    KadKey { bytes: out }
}

/// XOR of two identifiers, the distance between them in the key space.
pub open spec fn xor_bytes(a: Seq<u8>, b: Seq<u8>) -> Seq<u8> {
    Seq::new(a.len(), |i: int| a[i] ^ b[i])
}

/// Strict lexicographic order on byte strings, scanning from index `i`.
pub open spec fn lex_lt_from(a: Seq<u8>, b: Seq<u8>, i: int) -> bool
    decreases a.len() - i,
{
    if i < 0 || i >= a.len() || i >= b.len() {
        false
    } else if a[i] < b[i] {
        true
    } else if a[i] > b[i] {
        false
    } else {
        lex_lt_from(a, b, i + 1)
    }
}

/// Strict lexicographic order on byte strings: with equal lengths this is
/// the order of the strings read as big-endian unsigned integers.
pub open spec fn lex_lt(a: Seq<u8>, b: Seq<u8>) -> bool {
    lex_lt_from(a, b, 0)
}

/// `a` is strictly closer to `t` than `b` is.
pub open spec fn dist_lt(t: Seq<u8>, a: Seq<u8>, b: Seq<u8>) -> bool {
    lex_lt(xor_bytes(t, a), xor_bytes(t, b))
}

/// `a` is no farther from `t` than `b` is.
pub open spec fn dist_le(t: Seq<u8>, a: Seq<u8>, b: Seq<u8>) -> bool {
    !lex_lt(xor_bytes(t, b), xor_bytes(t, a))
}

/// The lexicographic order is irreflexive, so every identifier is no
/// farther from a target than itself.
pub proof fn lemma_lex_lt_irrefl(a: Seq<u8>, i: int)
    ensures
        !lex_lt_from(a, a, i),
    decreases a.len() - i,
{
    if 0 <= i && i < a.len() {
        lemma_lex_lt_irrefl(a, i + 1);
    }
}

/// The lexicographic order is transitive.
pub proof fn lemma_lex_lt_trans(a: Seq<u8>, b: Seq<u8>, c: Seq<u8>, i: int)
    requires
        a.len() == b.len(),
        b.len() == c.len(),
        lex_lt_from(a, b, i),
        lex_lt_from(b, c, i),
    ensures
        lex_lt_from(a, c, i),
    decreases a.len() - i,
{
    if i < a.len() && a[i] == b[i] && b[i] == c[i] {
        lemma_lex_lt_trans(a, b, c, i + 1);
    }
}

/// Preferring `a` over `b` and `b` over everything scanned so far lets `a`
/// stand in for `b`: strict-below composes with no-farther.
pub proof fn lemma_dist_lt_le(t: Seq<u8>, a: Seq<u8>, b: Seq<u8>, c: Seq<u8>)
    requires
        t.len() == a.len(),
        t.len() == b.len(),
        t.len() == c.len(),
        dist_lt(t, a, b),
        dist_le(t, b, c),
    ensures
        dist_le(t, a, c),
{
    if lex_lt(xor_bytes(t, c), xor_bytes(t, a)) {
        lemma_lex_lt_trans(xor_bytes(t, c), xor_bytes(t, a), xor_bytes(t, b), 0);
    }
}

/// Decide whether `a` is strictly closer to `t` than `b` is.
pub fn closer(t: &KadKey, a: &KadKey, b: &KadKey) -> (r: bool)
    requires
        t.wf(),
        a.wf(),
        b.wf(),
    ensures
        r == dist_lt(t.bytes@, a.bytes@, b.bytes@),
{
    let ghost da = xor_bytes(t.bytes@, a.bytes@);
    let ghost db = xor_bytes(t.bytes@, b.bytes@);
    let mut i: usize = 0;
    while i < 32
        invariant
            t.wf(),
            a.wf(),
            b.wf(),
            i <= 32,
            da == xor_bytes(t.bytes@, a.bytes@),
            db == xor_bytes(t.bytes@, b.bytes@),
            lex_lt(da, db) == lex_lt_from(da, db, i as int),
        decreases 32 - i,
    {
        let xa = t.bytes[i] ^ a.bytes[i];
        let xb = t.bytes[i] ^ b.bytes[i];
        if xa < xb {
            return true;
        }
        if xa > xb {
            return false;
        }
        i += 1;
    }
    false
}

/// Leading zero bits of one byte.
pub open spec fn byte_lz(x: u8) -> int {
    if x >= 128 {
        0
    } else if x >= 64 {
        1
    } else if x >= 32 {
        2
    } else if x >= 16 {
        3
    } else if x >= 8 {
        4
    } else if x >= 4 {
        5
    } else if x >= 2 {
        6
    } else if x >= 1 {
        7
    } else {
        8
    }
}

/// Length in bits of the common prefix of `a` and `b` from index `i` on.
pub open spec fn prefix_bits_from(a: Seq<u8>, b: Seq<u8>, i: int) -> int
    decreases a.len() - i,
{
    if i < 0 || i >= a.len() || i >= b.len() {
        0
    } else if a[i] != b[i] {
        byte_lz(a[i] ^ b[i])
    } else {
        8 + prefix_bits_from(a, b, i + 1)
    }
}

/// Length in bits of the common leading prefix of two identifiers; 256 for
/// equal 32-byte identifiers.
pub open spec fn prefix_bits(a: Seq<u8>, b: Seq<u8>) -> int {
    prefix_bits_from(a, b, 0)
}

fn byte_lz_exec(x: u8) -> (r: usize)
    ensures
        r == byte_lz(x),
{
    if x >= 128 {
        0
    } else if x >= 64 {
        1
    } else if x >= 32 {
        2
    } else if x >= 16 {
        3
    } else if x >= 8 {
        4
    } else if x >= 4 {
        5
    } else if x >= 2 {
        6
    } else if x >= 1 {
        7
    } else {
        8
    }
}

/// The routing-table bucket a peer at `b` belongs to, seen from `a`: the
/// common-prefix length of the two identifiers. 256 means the identifiers
/// are equal, which no bucket holds.
pub fn bucket_index(a: &KadKey, b: &KadKey) -> (r: usize)
    requires
        a.wf(),
        b.wf(),
    ensures
        r == prefix_bits(a.bytes@, b.bytes@),
        r <= 256,
        (r == 256) <==> (a.bytes@ == b.bytes@),
{
    let mut i: usize = 0;
    while i < 32
        invariant
            a.wf(),
            b.wf(),
            i <= 32,
            prefix_bits(a.bytes@, b.bytes@) == 8 * (i as int) + prefix_bits_from(
                a.bytes@,
                b.bytes@,
                i as int,
            ),
            forall|j: int| 0 <= j < i ==> a.bytes@[j] == b.bytes@[j],
        decreases 32 - i,
    {
        let ba = a.bytes[i];
        let bb = b.bytes[i];
        if ba != bb {
            let x = ba ^ bb;
            proof {
                assert(ba != bb ==> (ba ^ bb) != 0) by (bit_vector);
            }
            return 8 * i + byte_lz_exec(x);
        }
        i += 1;
    }
    proof {
        assert(a.bytes@ =~= b.bytes@);
    }
    256
}

/// Compare two byte strings for equality.
pub fn bytes_eq(a: &Vec<u8>, b: &Vec<u8>) -> (r: bool)
    ensures
        r == (a@ == b@),
{
    if a.len() != b.len() {
        proof {
            assert(a@.len() != b@.len());
        }
        return false;
    }
    let mut i: usize = 0;
    while i < a.len()
        invariant
            a@.len() == b@.len(),
            i <= a@.len(),
            forall|j: int| 0 <= j < i ==> a@[j] == b@[j],
        decreases a@.len() - i,
    {
        if a[i] != b[i] {
            return false;
        }
        i += 1;
    }
    proof {
        assert(a@ =~= b@);
    }
    true
}

/// Clone a byte string.
pub fn bytes_clone(a: &Vec<u8>) -> (r: Vec<u8>)
    ensures
        r@ == a@,
{
    let mut out: Vec<u8> = Vec::new();
    let mut i: usize = 0;
    while i < a.len()
        invariant
            i <= a@.len(),
            out@.len() == i as int,
            forall|j: int| 0 <= j < i ==> out@[j] == a@[j],
        decreases a@.len() - i,
    {
        out.push(a[i]);
        i += 1;
    }
    proof {
        assert(out@ =~= a@);
    }
    out
}

} // verus!
