//! Identifiers derived from a corpus's canonical path: its id and its socket's file name.
use vstd::prelude::*;
use crate::text::concat;

verus! {

/// The BLAKE3 digest of `data`.
pub uninterp spec fn blake3_digest(data: Seq<u8>) -> Seq<u8>;

/// Calls `blake3::hash` and copies out the 32 bytes of the digest.
///
/// The contract names the digest as a function of the input bytes alone and states its length,
/// which the crate documents as 32 bytes; nothing else about the hash function is claimed.
#[verifier::external_body]
fn blake3_hash(data: &[u8]) -> (r: Vec<u8>)
    ensures
        r@ == blake3_digest(data@),
        r@.len() == 32,
{
    blake3::hash(data).as_bytes().to_vec()
}

/// The lower-case hexadecimal digit of `n`.
pub open spec fn hex_digit(n: u8) -> char
    recommends
        n < 16,
{
    if n < 10 {
        ((n + 48) as u8) as char
    } else {
        ((n + 87) as u8) as char
    }
}

/// Each byte as two lower-case hexadecimal digits, high digit first.
pub open spec fn hex_string(b: Seq<u8>) -> Seq<char>
    decreases b.len(),
{
    if b.len() == 0 {
        Seq::empty()
    } else {
        hex_string(b.drop_last()) + seq![hex_digit(b.last() / 16), hex_digit(b.last() % 16)]
    }
}

fn hex_char(n: u8) -> (c: char)
    requires
        n < 16,
    ensures
        c == hex_digit(n),
{
    if n < 10 {
        (n + 48) as char
    } else {
        (n + 87) as char
    }
}

/// The first `hex_chars / 2` bytes of `digest` as lower-case hexadecimal.
pub fn hex_digest_prefix(digest: &[u8], hex_chars: usize) -> (r: String)
    requires
        hex_chars / 2 <= digest@.len(),
    ensures
        r@ == hex_string(digest@.subrange(0, (hex_chars / 2) as int)),
{
    let take = hex_chars / 2;
    let mut chars: Vec<char> = Vec::new();
    let mut i: usize = 0;
    while i < take
        invariant
            0 <= i <= take,
            take <= digest@.len(),
            chars@ == hex_string(digest@.subrange(0, i as int)),
        decreases take - i,
    {
        let b = digest[i];
        chars.push(hex_char(b / 16));
        chars.push(hex_char(b % 16));
        i = i + 1;
        proof {
            let s = digest@.subrange(0, i as int);
            assert(s.drop_last() =~= digest@.subrange(0, i - 1));
            assert(s.last() == b);
            assert(chars@ =~= hex_string(s));
        }
    }
    crate::text::string_from_chars(chars.as_slice())
}

/// The first `hex_chars / 2` bytes of the BLAKE3 digest of `path`, as lower-case hexadecimal.
pub fn hex_prefix(path: &[u8], hex_chars: usize) -> (r: String)
    requires
        hex_chars / 2 <= 32,
    ensures
        r@ == hex_string(blake3_digest(path@).subrange(0, (hex_chars / 2) as int)),
        r@.len() == 2 * (hex_chars / 2),
        is_lower_hex(r@),
{
    let digest = blake3_hash(path);
    let r = hex_digest_prefix(digest.as_slice(), hex_chars);
    proof { lemma_hex_string_shape(blake3_digest(path@).subrange(0, (hex_chars / 2) as int)); }
    r
}

/// Every character is a lower-case hexadecimal digit.
pub open spec fn is_lower_hex(s: Seq<char>) -> bool {
    forall|k: int| 0 <= k < s.len() ==> ('0' <= #[trigger] s[k] <= '9') || ('a' <= s[k] <= 'f')
}

/// The id of the corpus at the canonical path whose bytes are `canonical`: sixteen hexadecimal
/// digits of its BLAKE3 digest.
pub fn derive_corpus_id(canonical: &[u8]) -> (r: String)
    ensures
        r@ == hex_string(blake3_digest(canonical@).subrange(0, 8)),
        r@.len() == 16,
        is_lower_hex(r@),
{
    hex_prefix(canonical, 16)
}

/// The socket file name of the corpus at the canonical path whose bytes are `canonical`: its id
/// followed by `.sock`.
pub fn derive_socket_filename(canonical: &[u8]) -> (r: String)
    ensures
        r@ == hex_string(blake3_digest(canonical@).subrange(0, 8)) + ".sock"@,
        r@.len() == 21,
        is_lower_hex(r@.subrange(0, 16)),
        r@.subrange(16, 21) == ".sock"@,
{
    let id = hex_prefix(canonical, 16);
    let r = concat(id.as_str(), ".sock");
    proof {
        reveal_strlit(".sock");
        assert(r@.subrange(0, 16) =~= id@);
        assert(r@.subrange(16, 21) =~= ".sock"@);
    }
    r
}

/// The hexadecimal text of `n` bytes has `2 * n` characters, each a lower-case hexadecimal
/// digit.
pub proof fn lemma_hex_string_shape(b: Seq<u8>)
    ensures
        hex_string(b).len() == 2 * b.len(),
        forall|k: int| 0 <= k < hex_string(b).len() ==> {
            let c = #[trigger] hex_string(b)[k];
            ('0' <= c <= '9') || ('a' <= c <= 'f')
        },
    decreases b.len(),
{
    if b.len() > 0 {
        lemma_hex_string_shape(b.drop_last());
        let hi = b.last() / 16;
        let lo = b.last() % 16;
        assert(hi < 16 && lo < 16);
        let prev = hex_string(b.drop_last());
        assert forall|k: int| 0 <= k < hex_string(b).len() implies {
            let c = #[trigger] hex_string(b)[k];
            ('0' <= c <= '9') || ('a' <= c <= 'f')
        } by {
            if k >= prev.len() {
                let d = if k == prev.len() { hi } else { lo };
                assert(hex_string(b)[k] == hex_digit(d));
            } else {
                assert(hex_string(b)[k] == prev[k]);
            }
        }
    }
}

} // verus!
