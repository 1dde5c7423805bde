//! The textual key under which a transaction hash is stored: two lower-case
//! hexadecimal digits per byte.

use vstd::prelude::*;

verus! {

/// The sixteen lower-case hexadecimal digits, in order of their value.
pub open spec fn hex_digits() -> Seq<char> {
    seq!['0', '1', '2', '3', '4', '5', '6', '7', '8', '9', 'a', 'b', 'c', 'd', 'e', 'f']
}

/// The digit at position `i` of the key of `bytes`: even positions hold the high
/// half of a byte, odd positions the low half.
pub open spec fn hex_digit_at(bytes: Seq<u8>, i: int) -> char {
    let byte = bytes[i / 2] as int;
    if i % 2 == 0 {
        hex_digits()[byte / 16]
    } else {
        hex_digits()[byte % 16]
    }
}

/// The key of a hash: every byte written as two hexadecimal digits, high half
/// first, bytes in order.
pub open spec fn hex_string(bytes: Seq<u8>) -> Seq<char> {
    Seq::new(2 * bytes.len(), |i: int| hex_digit_at(bytes, i))
}

/// Calls `hex::encode` on a byte slice. The contract claims what that function
/// documents: the result holds two lower-case hexadecimal digits for each byte,
/// the digit of the high four bits before the digit of the low four bits, in
/// the order of the bytes.
#[verifier::external_body]
fn encode_hex(data: &[u8]) -> (text: String)
    ensures
        text@ == hex_string(data@),
{
    hex::encode(data)
}

/// The key under which the store files a transaction with the given hash.
pub fn hash_key(hash: &[u8]) -> (key: String)
    ensures
        key@ == hex_string(hash@),
{
    encode_hex(hash)
}

/// The bytes of each hash of a list, in order.
pub open spec fn hash_views(hashes: Seq<Vec<u8>>) -> Seq<Seq<u8>> {
    Seq::new(hashes.len(), |i: int| hashes[i]@)
}

/// The keys of a list of hashes, as a set.
pub open spec fn keys_of(hashes: Seq<Seq<u8>>) -> Set<Seq<char>> {
    Set::new(
        |key: Seq<char>| exists|i: int| 0 <= i < hashes.len() && key == hex_string(#[trigger] hashes[i]),
    )
}

/// The character sequences of a list of keys, as a set.
pub open spec fn key_views(keys: Seq<String>) -> Set<Seq<char>> {
    Set::new(|key: Seq<char>| exists|i: int| 0 <= i < keys.len() && key == (#[trigger] keys[i])@)
}

/// The keys of a list of hashes, in order.
pub fn hash_keys(hashes: &[Vec<u8>]) -> (keys: Vec<String>)
    ensures
        keys.len() == hashes.len(),
        forall|i: int| 0 <= i < hashes.len() ==> (#[trigger] keys[i])@ == hex_string(hashes[i]@),
        key_views(keys@) == keys_of(hash_views(hashes@)),
{
    let mut keys: Vec<String> = Vec::new();
    let mut i: usize = 0;
    while i < hashes.len()
        invariant
            i <= hashes.len(),
            keys.len() == i,
            forall|j: int| 0 <= j < i ==> (#[trigger] keys[j])@ == hex_string(hashes[j]@),
        decreases hashes.len() - i,
    {
        keys.push(hash_key(hashes[i].as_slice()));
        i += 1;
    }
    proof {
        let views = hash_views(hashes@);
        assert forall|key: Seq<char>| key_views(keys@).contains(key) <==> keys_of(views).contains(
            key,
        ) by {
            if key_views(keys@).contains(key) {
                let j = choose|j: int| 0 <= j < keys.len() && key == (#[trigger] keys[j])@;
                assert(key == hex_string(views[j]));
            }
            if keys_of(views).contains(key) {
                let j = choose|j: int| 0 <= j < views.len() && key == hex_string(#[trigger] views[j]);
                assert(key == keys[j]@);
            }
        }
    }
    keys
}

/// Two digits of equal value are the same digit, and no two values share one.
proof fn lemma_digits_distinct(a: int, b: int)
    requires
        0 <= a < 16,
        0 <= b < 16,
        hex_digits()[a] == hex_digits()[b],
    ensures
        a == b,
{
}

/// Different hashes never share a key.
pub proof fn lemma_hex_string_injective(a: Seq<u8>, b: Seq<u8>)
    requires
        hex_string(a) == hex_string(b),
    ensures
        a == b,
{
    assert(hex_string(a).len() == 2 * a.len());
    assert forall|k: int| 0 <= k < a.len() implies a[k] == b[k] by {
        let x = a[k] as int;
        let y = b[k] as int;
        assert(hex_string(a)[2 * k] == hex_digits()[x / 16]);
        assert(hex_string(a)[2 * k + 1] == hex_digits()[x % 16]);
        lemma_digits_distinct(x / 16, y / 16);
        lemma_digits_distinct(x % 16, y % 16);
    }
}

} // verus!
