//! SHA-256 content fingerprints and length-prefixed identity hashes.
use crate::text::{hex_lower, lemma_utf8_injective, to_hex_lower, utf8};
use sha2::{Digest, Sha256};
use vstd::prelude::*;

verus! {

broadcast use vstd::utf8::group_utf8_lib;

/// The SHA-256 digest of a byte sequence, as computed by the `sha2` crate.
pub uninterp spec fn spec_sha256(data: Seq<u8>) -> Seq<u8>;

/// Calls `sha2::Sha256::digest` (the `Digest` trait of the `digest` crate) on `data`.
/// Claims that the 32 returned bytes are the digest of exactly the bytes of `data`;
/// the digest itself is not modelled, only named.
#[verifier::external_body]
fn sha256_digest(data: &[u8]) -> (out: Vec<u8>)
    ensures
        out@ == spec_sha256(data@),
        out@.len() == 32,
{
    Sha256::digest(data).to_vec()
}

/// Lower-case hexadecimal SHA-256 fingerprint of `bytes`.
pub fn sha256(bytes: &[u8]) -> (s: String)
    ensures
        s@ == hex_lower(spec_sha256(bytes@)),
        s@.len() == 64,
{
    let digest = sha256_digest(bytes);
    to_hex_lower(digest.as_slice())
}

/// Big-endian bytes of a `u64`.
pub open spec fn be64(n: u64) -> Seq<u8> {
    seq![
        (n >> 56u64) as u8,
        (n >> 48u64) as u8,
        (n >> 40u64) as u8,
        (n >> 32u64) as u8,
        (n >> 24u64) as u8,
        (n >> 16u64) as u8,
        (n >> 8u64) as u8,
        n as u8,
    ]
}

/// One identity component: its UTF-8 length as a big-endian `u64`, then its UTF-8 bytes.
pub open spec fn frame_part(part: Seq<char>) -> Seq<u8> {
    be64(utf8(part).len() as u64) + utf8(part)
}

/// The bytes hashed for an identity: every component framed by its length.
pub open spec fn frame(parts: Seq<Seq<char>>) -> Seq<u8>
    decreases parts.len(),
{
    if parts.len() == 0 {
        seq![]
    } else {
        frame(parts.drop_last()) + frame_part(parts.last())
    }
}

/// The identity hash of a list of components: hex SHA-256 of their framing.
pub open spec fn spec_identity_hash(parts: Seq<Seq<char>>) -> Seq<char> {
    hex_lower(spec_sha256(frame(parts)))
}

/// The character views of a list of string slices.
pub open spec fn str_views(parts: Seq<&str>) -> Seq<Seq<char>> {
    parts.map_values(|p: &str| p@)
}

/// Every component is short enough for its length to fit the `u64` prefix.
pub open spec fn parts_fit(parts: Seq<Seq<char>>) -> bool {
    forall|i: int| 0 <= i < parts.len() ==> utf8(#[trigger] parts[i]).len() <= u64::MAX
}

proof fn lemma_be64_injective(x: u64, y: u64)
    by (bit_vector)
    requires
        (x >> 56u64) as u8 == (y >> 56u64) as u8,
        (x >> 48u64) as u8 == (y >> 48u64) as u8,
        (x >> 40u64) as u8 == (y >> 40u64) as u8,
        (x >> 32u64) as u8 == (y >> 32u64) as u8,
        (x >> 24u64) as u8 == (y >> 24u64) as u8,
        (x >> 16u64) as u8 == (y >> 16u64) as u8,
        (x >> 8u64) as u8 == (y >> 8u64) as u8,
        x as u8 == y as u8,
    ensures
        x == y,
{
}

proof fn lemma_frame_len(parts: Seq<Seq<char>>)
    ensures
        frame(parts).len() >= 8 * parts.len(),
    decreases parts.len(),
{
    if parts.len() > 0 {
        lemma_frame_len(parts.drop_last());
    }
}

/// Length prefixes make the framing unambiguous: equal framings come from equal
/// component lists, so adjacent components can never be confused (`["ab","c"]` and
/// `["a","bc"]` frame differently).
pub proof fn lemma_frame_injective(a: Seq<Seq<char>>, b: Seq<Seq<char>>)
    requires
        parts_fit(a),
        parts_fit(b),
        frame(a) == frame(b),
    ensures
        a == b,
    decreases a.len() + b.len(),
{
    lemma_frame_len(a);
    lemma_frame_len(b);
    if a.len() == 0 || b.len() == 0 {
        if a.len() != 0 || b.len() != 0 {
            // One framing is empty and the other has at least eight bytes.
            assert(false);
        }
        assert(a =~= b);
    } else {
        // Peel components from the front instead: rewrite both framings front-first.
        lemma_frame_front(a);
        lemma_frame_front(b);
        let fa = frame(a);
        let la = utf8(a[0]).len() as u64;
        let lb = utf8(b[0]).len() as u64;
        assert(fa.subrange(0, 8) =~= be64(la));
        assert(fa.subrange(0, 8) =~= be64(lb));
        assert(be64(la)[0] == be64(lb)[0]);
        assert(be64(la)[1] == be64(lb)[1]);
        assert(be64(la)[2] == be64(lb)[2]);
        assert(be64(la)[3] == be64(lb)[3]);
        assert(be64(la)[4] == be64(lb)[4]);
        assert(be64(la)[5] == be64(lb)[5]);
        assert(be64(la)[6] == be64(lb)[6]);
        assert(be64(la)[7] == be64(lb)[7]);
        lemma_be64_injective(la, lb);
        assert(utf8(a[0]).len() <= u64::MAX);
        assert(utf8(b[0]).len() <= u64::MAX);
        let n = utf8(a[0]).len() as int;
        assert(utf8(a[0]) =~= fa.subrange(8, 8 + n));
        assert(utf8(b[0]) =~= fa.subrange(8, 8 + n));
        lemma_utf8_injective(a[0], b[0]);
        let ra = a.drop_first();
        let rb = b.drop_first();
        assert(frame(ra) =~= fa.subrange(8 + n, fa.len() as int));
        assert(frame(rb) =~= fa.subrange(8 + n, fa.len() as int));
        assert(parts_fit(ra)) by {
            assert forall|i: int| 0 <= i < ra.len() implies utf8(#[trigger] ra[i]).len()
                <= u64::MAX by {
                assert(ra[i] == a[i + 1]);
            }
        }
        assert(parts_fit(rb)) by {
            assert forall|i: int| 0 <= i < rb.len() implies utf8(#[trigger] rb[i]).len()
                <= u64::MAX by {
                assert(rb[i] == b[i + 1]);
            }
        }
        lemma_frame_injective(ra, rb);
        assert(a =~= seq![a[0]] + ra);
        assert(b =~= seq![b[0]] + rb);
    }
}

/// Framing read from the front.
pub proof fn lemma_frame_front(parts: Seq<Seq<char>>)
    requires
        parts.len() > 0,
    ensures
        frame(parts) == frame_part(parts[0]) + frame(parts.drop_first()),
    decreases parts.len(),
{
    if parts.len() == 1 {
        assert(parts.drop_last() =~= seq![]);
        assert(parts.drop_first() =~= seq![]);
        assert(frame(parts.drop_last()) =~= seq![]);
        assert(frame(parts.drop_first()) =~= seq![]);
        assert(frame(parts) =~= frame_part(parts[0]));
    } else {
        let init = parts.drop_last();
        lemma_frame_front(init);
        assert(init.drop_first() =~= parts.drop_first().drop_last());
        assert(parts.drop_first().last() == parts.last());
        assert(frame(parts.drop_first()) == frame(parts.drop_first().drop_last()) + frame_part(
            parts.drop_first().last(),
        ));
        assert(frame(parts) =~= frame_part(parts[0]) + frame(parts.drop_first()));
    }
}

/// Appends the big-endian bytes of `n`.
fn push_be64(out: &mut Vec<u8>, n: u64)
    ensures
        final(out)@ == old(out)@ + be64(n),
{
    out.push((n >> 56u64) as u8);
    out.push((n >> 48u64) as u8);
    out.push((n >> 40u64) as u8);
    out.push((n >> 32u64) as u8);
    out.push((n >> 24u64) as u8);
    out.push((n >> 16u64) as u8);
    out.push((n >> 8u64) as u8);
    out.push(n as u8);
    assert(final(out)@ =~= old(out)@ + be64(n));
}

/// Appends a byte slice.
pub fn extend_bytes(out: &mut Vec<u8>, bytes: &[u8])
    ensures
        final(out)@ == old(out)@ + bytes@,
{
    let mut i: usize = 0;
    while i < bytes.len()
        invariant
            i <= bytes@.len(),
            out@ == old(out)@ + bytes@.subrange(0, i as int),
        decreases bytes.len() - i,
    {
        out.push(bytes[i]);
        i = i + 1;
        assert(out@ =~= old(out)@ + bytes@.subrange(0, i as int));
    }
    assert(bytes@.subrange(0, i as int) =~= bytes@);
}

/// The length-prefixed framing of identity components.
pub fn identity_frame(parts: &[&str]) -> (out: Vec<u8>)
    ensures
        out@ == frame(str_views(parts@)),
{
    let mut out: Vec<u8> = Vec::new();
    let mut i: usize = 0;
    while i < parts.len()
        invariant
            i <= parts@.len(),
            out@ == frame(str_views(parts@.subrange(0, i as int))),
        decreases parts.len() - i,
    {
        let part: &str = parts[i];
        let bytes = part.as_bytes();
        let ghost prev = str_views(parts@.subrange(0, i as int));
        let n = bytes.len();
        push_be64(&mut out, n as u64);
        extend_bytes(&mut out, bytes);
        proof {
            let next = str_views(parts@.subrange(0, i + 1));
            assert(next =~= prev.push(part@));
            assert(next.drop_last() =~= prev);
            assert(next.last() == part@);
            assert(bytes@ == utf8(part@));
            assert(out@ =~= frame(prev) + frame_part(part@));
        }
        i = i + 1;
    }
    assert(parts@.subrange(0, i as int) =~= parts@);
    out
}

/// SHA-256 over length-prefixed components, rendered in lower-case hex.
/// Length prefixes prevent ambiguity between adjacent identity components.
pub fn identity_hash(parts: &[&str]) -> (s: String)
    ensures
        s@ == spec_identity_hash(str_views(parts@)),
        s@.len() == 64,
{
    let framed = identity_frame(parts);
    sha256(framed.as_slice())
}

} // verus!
