//! A 64-bit hash over words, bytes and text.
//!
//! The hash of a sequence is a left fold of [`mix`] over its items, so that the
//! hash of a compound shape can be carried on from the hash of its parts.

use vstd::prelude::*;
use vstd::slice::slice_index_get;
use vstd::string::StringSliceAdditionalSpecFns;
use vstd::utf8::decode_utf8;
use vstd::utf8::encode_utf8;
use vstd::utf8::encode_utf8_decode_utf8;

verus! {

/// The value every hash starts from.
pub const HASH_SEED: u64 = 0xcbf2_9ce4_8422_2325;

/// The multiplier of one mixing step.
pub const HASH_PRIME: u64 = 0x0000_0100_0000_01b3;

/// One mixing step: the word is xor-ed into the state, and the state is
/// multiplied by [`HASH_PRIME`] modulo 2^64.
pub open spec fn spec_mix(h: u64, word: u64) -> u64 {
    (h ^ word).wrapping_mul(HASH_PRIME)
}

/// Mixes one word into a hash state.
#[verifier::when_used_as_spec(spec_mix)]
pub fn mix(h: u64, word: u64) -> (r: u64)
    ensures
        r == spec_mix(h, word),
{
    (h ^ word).wrapping_mul(HASH_PRIME)
}

/// The state after mixing the bytes in, first byte first.
pub open spec fn fold_bytes(h: u64, bytes: Seq<u8>) -> u64
    decreases bytes.len(),
{
    if bytes.len() == 0 {
        h
    } else {
        spec_mix(fold_bytes(h, bytes.drop_last()), bytes.last() as u64)
    }
}

/// The state after mixing the UTF-8 encoding of the text in.
pub open spec fn fold_text(h: u64, text: Seq<char>) -> u64 {
    fold_bytes(h, encode_utf8(text))
}

/// Mixes a run of bytes into a hash state.
pub fn hash_bytes(h: u64, bytes: &[u8]) -> (r: u64)
    ensures
        r == fold_bytes(h, bytes@),
{
    let mut state: u64 = h;
    let mut i: usize = 0;
    while i < bytes.len()
        invariant
            i <= bytes@.len(),
            state == fold_bytes(h, bytes@.take(i as int)),
        decreases bytes@.len() - i,
    {
        proof {
            let next = bytes@.take(i + 1);
            assert(next.drop_last() =~= bytes@.take(i as int));
            assert(next.last() == bytes@[i as int]);
        }
        let b: u8 = *slice_index_get(bytes, i);
        state = mix(state, b as u64);
        i = i + 1;
    }
    proof {
        assert(bytes@.take(i as int) =~= bytes@);
    }
    state
}

/// Mixes a string into a hash state.
pub fn hash_str(h: u64, s: &str) -> (r: u64)
    ensures
        r == fold_text(h, s@),
{
    hash_bytes(h, s.as_bytes())
}

/// Two texts with the same UTF-8 encoding are the same text.
pub proof fn lemma_encoding_is_injective(a: Seq<char>, b: Seq<char>)
    requires
        encode_utf8(a) == encode_utf8(b),
    ensures
        a == b,
{
    encode_utf8_decode_utf8(a);
    encode_utf8_decode_utf8(b);
    assert(decode_utf8(encode_utf8(a)) == a);
    assert(decode_utf8(encode_utf8(b)) == b);
}

/// Whether two strings hold the same text.
pub fn str_eq(a: &str, b: &str) -> (r: bool)
    ensures
        r == (a@ == b@),
{
    let x: &[u8] = a.as_bytes();
    let y: &[u8] = b.as_bytes();
    if x.len() != y.len() {
        return false;
    }
    let mut i: usize = 0;
    while i < x.len()
        invariant
            x@.len() == y@.len(),
            i <= x@.len(),
            x@ == encode_utf8(a@),
            y@ == encode_utf8(b@),
            forall|j: int| 0 <= j < i ==> x@[j] == y@[j],
        decreases x@.len() - i,
    {
        if *slice_index_get(x, i) != *slice_index_get(y, i) {
            return false;
        }
        i = i + 1;
    }
    proof {
        assert(x@ =~= y@);
        lemma_encoding_is_injective(a@, b@);
    }
    true
}

} // verus!
