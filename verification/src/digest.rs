//! SHA-256 identities, and the byte strings that they are taken of.

use crate::text::{digit, digit_text};
use vstd::prelude::*;

verus! {

/// The digest that `sha2::Sha256` computes of a message.
pub uninterp spec fn sha256_digest(message: Seq<u8>) -> Seq<u8>;

/// Calls `sha2::Sha256::digest`. A SHA-256 digest has 32 bytes.
#[verifier::external_body]
fn digest_bytes(message: &[u8]) -> (r: Vec<u8>)
    ensures
        r@ == sha256_digest(message@),
        r@.len() == 32,
{
    <sha2::Sha256 as sha2::Digest>::digest(message).to_vec()
}

/// Two lower-case hexadecimal digits for each byte, the high one first.
pub open spec fn hex(bytes: Seq<u8>) -> Seq<char>
    decreases bytes.len(),
{
    if bytes.len() == 0 {
        Seq::empty()
    } else {
        hex(bytes.drop_last()) + seq![
            digit((bytes.last() / 16) as nat),
            digit((bytes.last() % 16) as nat),
        ]
    }
}

/// The text form of the SHA-256 digest of a message.
pub open spec fn sha256_text(message: Seq<u8>) -> Seq<char> {
    hex(sha256_digest(message))
}

/// The bytes of a single, the low one first.
pub open spec fn single_bytes(bits: u32) -> Seq<u8> {
    seq![
        (bits % 256) as u8,
        (bits / 256 % 256) as u8,
        (bits / 0x1_0000 % 256) as u8,
        (bits / 0x100_0000) as u8,
    ]
}

/// The bytes of a sequence of singles, one after the other.
pub open spec fn samples_bytes(samples: Seq<u32>) -> Seq<u8>
    decreases samples.len(),
{
    if samples.len() == 0 {
        Seq::empty()
    } else {
        samples_bytes(samples.drop_last()) + single_bytes(samples.last())
    }
}

/// Writes bytes in lower-case hexadecimal.
pub fn hex_text(bytes: &[u8]) -> (r: String)
    ensures
        r@ == hex(bytes@),
{
    let mut r = String::new();
    let mut i: usize = 0;
    assert(bytes@.take(0) =~= Seq::<u8>::empty());
    while i < bytes.len()
        invariant
            i <= bytes@.len(),
            r@ == hex(bytes@.take(i as int)),
        decreases bytes@.len() - i,
    {
        let byte = bytes[i];
        let ghost before = r@;
        r.append(digit_text(byte / 16));
        r.append(digit_text(byte % 16));
        proof {
            assert(bytes@.take(i + 1).drop_last() =~= bytes@.take(i as int));
            assert(r@ =~= before + seq![digit((byte / 16) as nat), digit((byte % 16) as nat)]);
        }
        i = i + 1;
    }
    assert(bytes@.take(i as int) =~= bytes@);
    r
}

/// The SHA-256 digest of `bytes`, in lower-case hexadecimal.
pub fn sha256(bytes: &[u8]) -> (r: String)
    ensures
        r@ == sha256_text(bytes@),
        r@.len() == 64,
{
    let digest = digest_bytes(bytes);
    proof {
        lemma_hex_length(digest@);
    }
    hex_text(digest.as_slice())
}

/// Appends the bytes of `samples` to `bytes`.
pub fn append_samples(bytes: &mut Vec<u8>, samples: &[u32])
    ensures
        final(bytes)@ == old(bytes)@ + samples_bytes(samples@),
{
    let mut i: usize = 0;
    assert(samples@.take(0) =~= Seq::<u32>::empty());
    assert(bytes@ =~= old(bytes)@ + samples_bytes(samples@.take(0)));
    while i < samples.len()
        invariant
            i <= samples@.len(),
            bytes@ == old(bytes)@ + samples_bytes(samples@.take(i as int)),
        decreases samples@.len() - i,
    {
        let bits = samples[i];
        bytes.push((bits % 256) as u8);
        bytes.push((bits / 256 % 256) as u8);
        bytes.push((bits / 0x1_0000 % 256) as u8);
        bytes.push((bits / 0x100_0000) as u8);
        proof {
            assert(samples@.take(i + 1).drop_last() =~= samples@.take(i as int));
            assert(bytes@ =~= old(bytes)@ + samples_bytes(samples@.take(i + 1)));
        }
        i = i + 1;
    }
    assert(samples@.take(i as int) =~= samples@);
}

/// Appends `tail` to `bytes`.
pub fn append_bytes(bytes: &mut Vec<u8>, tail: &[u8])
    ensures
        final(bytes)@ == old(bytes)@ + tail@,
{
    bytes.extend_from_slice(tail);
    assert(bytes@ =~= old(bytes)@ + tail@);
}

/// The SHA-256 identity of a sequence of singles.
pub fn samples_sha256(samples: &[u32]) -> (r: String)
    ensures
        r@ == sha256_text(samples_bytes(samples@)),
        r@.len() == 64,
{
    let mut bytes: Vec<u8> = Vec::new();
    append_samples(&mut bytes, samples);
    assert(bytes@ =~= samples_bytes(samples@));
    sha256(bytes.as_slice())
}

proof fn lemma_hex_length(bytes: Seq<u8>)
    ensures
        hex(bytes).len() == 2 * bytes.len(),
    decreases bytes.len(),
{
    if bytes.len() > 0 {
        lemma_hex_length(bytes.drop_last());
    }
}

/// Hexadecimal text tells byte strings apart.
pub proof fn law_hex_is_injective(a: Seq<u8>, b: Seq<u8>)
    requires
        hex(a) == hex(b),
    ensures
        a == b,
    decreases a.len(),
{
    lemma_hex_length(a);
    lemma_hex_length(b);
    if a.len() > 0 {
        let n = hex(a).len() as int;
        assert(hex(a).take(n - 2) =~= hex(a.drop_last()));
        assert(hex(b).take(n - 2) =~= hex(b.drop_last()));
        law_hex_is_injective(a.drop_last(), b.drop_last());
        assert(hex(a)[n - 2] == digit((a.last() / 16) as nat));
        assert(hex(a)[n - 1] == digit((a.last() % 16) as nat));
        assert(hex(b)[n - 2] == digit((b.last() / 16) as nat));
        assert(hex(b)[n - 1] == digit((b.last() % 16) as nat));
        assert(a.last() == b.last());
        assert(a =~= a.drop_last().push(a.last()));
        assert(b =~= b.drop_last().push(b.last()));
    } else {
        assert(a =~= b);
    }
}

/// The bytes of a sequence of singles tell sequences apart.
pub proof fn law_samples_bytes_is_injective(a: Seq<u32>, b: Seq<u32>)
    requires
        samples_bytes(a) == samples_bytes(b),
    ensures
        a == b,
    decreases a.len(),
{
    lemma_samples_bytes_length(a);
    lemma_samples_bytes_length(b);
    if a.len() > 0 {
        let n = samples_bytes(a).len() as int;
        assert(samples_bytes(a).take(n - 4) =~= samples_bytes(a.drop_last()));
        assert(samples_bytes(b).take(n - 4) =~= samples_bytes(b.drop_last()));
        law_samples_bytes_is_injective(a.drop_last(), b.drop_last());
        let x = a.last();
        let y = b.last();
        assert(samples_bytes(a).skip(n - 4) =~= single_bytes(x));
        assert(samples_bytes(b).skip(n - 4) =~= single_bytes(y));
        assert(single_bytes(x)[0] == single_bytes(y)[0]);
        assert(single_bytes(x)[1] == single_bytes(y)[1]);
        assert(single_bytes(x)[2] == single_bytes(y)[2]);
        assert(single_bytes(x)[3] == single_bytes(y)[3]);
        assert(a =~= a.drop_last().push(x));
        assert(b =~= b.drop_last().push(y));
    } else {
        assert(a =~= b);
    }
}

pub proof fn lemma_samples_bytes_length(samples: Seq<u32>)
    ensures
        samples_bytes(samples).len() == 4 * samples.len(),
    decreases samples.len(),
{
    if samples.len() > 0 {
        lemma_samples_bytes_length(samples.drop_last());
    }
}

/// In hexadecimal text each byte stands as two characters, the high half first, in lower case.
pub proof fn law_hex_spells_every_byte(bytes: Seq<u8>, i: int)
    requires
        0 <= i < bytes.len(),
    ensures
        hex(bytes).len() == 2 * bytes.len(),
        hex(bytes)[2 * i] == "0123456789abcdef"@[bytes[i] as int / 16],
        hex(bytes)[2 * i + 1] == "0123456789abcdef"@[bytes[i] as int % 16],
    decreases bytes.len(),
{
    lemma_hex_length(bytes);
    lemma_hex_length(bytes.drop_last());
    reveal_strlit("0123456789abcdef");
    if i < bytes.len() - 1 {
        law_hex_spells_every_byte(bytes.drop_last(), i);
        assert(bytes.drop_last()[i] == bytes[i]);
    }
}

/// In the bytes of singles each one stands as four, the low one first.
pub proof fn law_low_byte_stands_first(samples: Seq<u32>, i: int)
    requires
        0 <= i < samples.len(),
    ensures
        samples_bytes(samples).len() == 4 * samples.len(),
        samples_bytes(samples)[4 * i] + 0x100 * samples_bytes(samples)[4 * i + 1] + 0x1_0000
            * samples_bytes(samples)[4 * i + 2] + 0x100_0000 * samples_bytes(samples)[4 * i + 3]
            == samples[i],
    decreases samples.len(),
{
    lemma_samples_bytes_length(samples);
    lemma_samples_bytes_length(samples.drop_last());
    if i < samples.len() - 1 {
        law_low_byte_stands_first(samples.drop_last(), i);
        assert(samples.drop_last()[i] == samples[i]);
    } else {
        let n = 4 * i;
        assert(samples_bytes(samples)[n] == single_bytes(samples[i])[0]);
        assert(samples_bytes(samples)[n + 1] == single_bytes(samples[i])[1]);
        assert(samples_bytes(samples)[n + 2] == single_bytes(samples[i])[2]);
        assert(samples_bytes(samples)[n + 3] == single_bytes(samples[i])[3]);
    }
}

/// A SHA-256 identity spells the digest, byte by byte.
pub proof fn law_identity_spells_the_digest(message: Seq<u8>, i: int)
    requires
        0 <= i < sha256_digest(message).len(),
    ensures
        sha256_text(message).len() == 2 * sha256_digest(message).len(),
        sha256_text(message)[2 * i] == "0123456789abcdef"@[sha256_digest(message)[i] as int / 16],
        sha256_text(message)[2 * i + 1] == "0123456789abcdef"@[sha256_digest(message)[i] as int
            % 16],
{
    law_hex_spells_every_byte(sha256_digest(message), i);
}

} // verus!
