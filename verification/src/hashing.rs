//! The stable identifier of a note: the first eight bytes of the SHA-256 of
//! its path, in lower-case hex.
use sha2::{Digest, Sha256};
use vstd::prelude::*;

verus! {

broadcast use vstd::string::group_string_axioms;

/// SHA-256 of `data`.
pub uninterp spec fn sha256_digest(data: Seq<u8>) -> Seq<u8>;

/// Calls sha2's `Sha256` (`new`, `update` with `data`, `finalize`). Claims
/// that the result is the named digest of `data` and that it is 32 bytes
/// long, the output size of `Sha256`.
#[verifier::external_body]
fn sha256(data: &[u8]) -> (r: Vec<u8>)
    ensures
        r@ == sha256_digest(data@),
        r@.len() == 32,
{
    let mut hasher = Sha256::new();
    hasher.update(data);
    hasher.finalize().to_vec()
}

/// A hex digit, lower case.
pub open spec fn hex_digit(n: int) -> char {
    seq!['0', '1', '2', '3', '4', '5', '6', '7', '8', '9', 'a', 'b', 'c', 'd', 'e', 'f'][n]
}

/// Two lower-case hex digits per byte, high nibble first.
pub open spec fn hex_lower(data: Seq<u8>) -> Seq<char>
    decreases data.len(),
{
    if data.len() == 0 {
        seq![]
    } else {
        seq![hex_digit(data[0] as int / 16), hex_digit(data[0] as int % 16)] + hex_lower(data.drop_first())
    }
}

/// Calls `hex::encode`, which maps each byte to two characters of
/// `0123456789abcdef`, the high nibble first.
#[verifier::external_body]
fn hex_encode(data: &[u8]) -> (r: String)
    ensures
        r@ == hex_lower(data@),
{
    hex::encode(data)
}

/// The identifier of a note path: hex of the first eight bytes of the SHA-256
/// of the path's UTF-8 bytes.
pub open spec fn path_hash_of(path: Seq<char>) -> Seq<char> {
    hex_lower(sha256_digest(vstd::utf8::encode_utf8(path)).take(8))
}

pub proof fn lemma_hex_lower_len(data: Seq<u8>)
    ensures
        hex_lower(data).len() == 2 * data.len(),
    decreases data.len(),
{
    if data.len() > 0 {
        lemma_hex_lower_len(data.drop_first());
    }
}


/// The value of a lower-case hex digit.
pub open spec fn hex_value(c: char) -> int {
    if '0' <= c && c <= '9' {
        c as int - '0' as int
    } else {
        c as int - 'a' as int + 10
    }
}

proof fn lemma_hex_digit_value(n: int)
    requires
        0 <= n < 16,
    ensures
        hex_value(hex_digit(n)) == n,
{
    let d = seq!['0', '1', '2', '3', '4', '5', '6', '7', '8', '9', 'a', 'b', 'c', 'd', 'e', 'f'];
    assert(hex_digit(n) == d[n]);
    assert(d[0] == '0' && d[1] == '1' && d[2] == '2' && d[3] == '3' && d[4] == '4' && d[5] == '5'
        && d[6] == '6' && d[7] == '7' && d[8] == '8' && d[9] == '9' && d[10] == 'a' && d[11]
        == 'b' && d[12] == 'c' && d[13] == 'd' && d[14] == 'e' && d[15] == 'f');
}

/// Different bytes give different hex text.
pub proof fn law_hex_lower_injective(a: Seq<u8>, b: Seq<u8>)
    requires
        hex_lower(a) == hex_lower(b),
    ensures
        a == b,
    decreases a.len(),
{
    lemma_hex_lower_len(a);
    lemma_hex_lower_len(b);
    if a.len() == 0 {
        assert(a =~= b);
    } else {
        let ha = hex_lower(a);
        let hb = hex_lower(b);
        assert(ha[0] == hex_digit(a[0] as int / 16) && ha[1] == hex_digit(a[0] as int % 16));
        assert(hb[0] == hex_digit(b[0] as int / 16) && hb[1] == hex_digit(b[0] as int % 16));
        lemma_hex_digit_value(a[0] as int / 16);
        lemma_hex_digit_value(a[0] as int % 16);
        lemma_hex_digit_value(b[0] as int / 16);
        lemma_hex_digit_value(b[0] as int % 16);
        assert(a[0] as int == (a[0] as int / 16) * 16 + a[0] as int % 16);
        assert(b[0] as int == (b[0] as int / 16) * 16 + b[0] as int % 16);
        assert(a[0] == b[0]);
        assert(hex_lower(a.drop_first()) == ha.skip(2));
        assert(hex_lower(b.drop_first()) == hb.skip(2));
        law_hex_lower_injective(a.drop_first(), b.drop_first());
        assert(a.len() == b.len());
        assert forall|i: int| 0 <= i < a.len() implies a[i] == b[i] by {
            if i > 0 {
                assert(a[i] == a.drop_first()[i - 1]);
                assert(b[i] == b.drop_first()[i - 1]);
            }
        }
        assert(a =~= b);
    }
}

/// The identifier is computed from every byte of the path: two paths whose
/// SHA-256 digests differ in their first eight bytes get different
/// identifiers.
pub proof fn law_path_hash_separates_paths(p1: Seq<char>, p2: Seq<char>)
    requires
        sha256_digest(vstd::utf8::encode_utf8(p1)).take(8) != sha256_digest(
            vstd::utf8::encode_utf8(p2),
        ).take(8),
    ensures
        path_hash_of(p1) != path_hash_of(p2),
{
    if path_hash_of(p1) == path_hash_of(p2) {
        law_hex_lower_injective(
            sha256_digest(vstd::utf8::encode_utf8(p1)).take(8),
            sha256_digest(vstd::utf8::encode_utf8(p2)).take(8),
        );
    }
}

/// The identifier of `path`, sixteen hex digits.
pub fn path_hash(path: &str) -> (h: String)
    ensures
        h@ == path_hash_of(path@),
        h@.len() == 16,
{
    let mut digest = sha256(path.as_bytes());
    digest.truncate(8);
    proof {
        lemma_hex_lower_len(digest@);
    }
    hex_encode(digest.as_slice())
}

} // verus!
