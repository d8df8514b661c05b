use vstd::prelude::*;

use rand::Rng;
use sha2::Digest;
use vstd::string::{StrSliceExecFns, StringExecFns};

verus! {

/// Number of random bytes behind an API key.
pub const KEY_LENGTH: usize = 32;

/// The lowercase hexadecimal digits, in order of value.
pub open spec fn hex_digits() -> Seq<char> {
    seq!['0', '1', '2', '3', '4', '5', '6', '7', '8', '9', 'a', 'b', 'c', 'd', 'e', 'f']
}

/// The two lowercase hex digits of one byte, high nibble first.
pub open spec fn byte_hex(b: u8) -> Seq<char> {
    seq![hex_digits()[(b / 16) as int], hex_digits()[(b % 16) as int]]
}

/// The lowercase hex form of a byte string: two digits per byte.
pub open spec fn hex_of(bytes: Seq<u8>) -> Seq<char>
    decreases bytes.len(),
{
    if bytes.len() == 0 {
        Seq::empty()
    } else {
        hex_of(bytes.drop_last()) + byte_hex(bytes.last())
    }
}

/// The prefix that marks a room-invite token.
pub open spec fn invite_prefix() -> Seq<char> {
    seq!['c', 'i', 'n', 'v', '_']
}

/// The SHA-256 digest of the UTF-8 encoding of `text`.
pub uninterp spec fn sha256_of_text(text: Seq<char>) -> Seq<u8>;

/// `KEY_LENGTH` bytes from the thread-local generator of `rand`.
/// The contract says only how many bytes come back: their values are chance.
#[verifier::external_body]
fn random_key_bytes() -> (r: Vec<u8>)
    ensures
        r@.len() == KEY_LENGTH,
{
    let bytes: [u8; 32] = rand::thread_rng().gen();
    bytes.to_vec()
}

/// `sha2::Sha256::digest` over the UTF-8 bytes of `text`: the result is the
/// digest of the text, and a SHA-256 digest is 32 bytes long.
#[verifier::external_body]
fn sha256_digest(text: &str) -> (r: Vec<u8>)
    ensures
        r@ == sha256_of_text(text@),
        r@.len() == 32,
{
    sha2::Sha256::digest(text.as_bytes()).to_vec()
}

/// The hex digit of a value below sixteen, as a one-character string.
pub(crate) fn hex_digit(v: u8) -> (r: &'static str)
    requires
        v < 16,
    ensures
        r@ == seq![hex_digits()[v as int]],
{
    let digits = "0123456789abcdef";
    proof {
        reveal_strlit("0123456789abcdef");
    }
    let d = digits.substring_char(v as usize, v as usize + 1);
    proof {
        assert(d@ =~= seq![hex_digits()[v as int]]);
    }
    d
}

/// Encode bytes as a lowercase hex string.
pub fn encode(bytes: Vec<u8>) -> (r: String)
    ensures
        r@ == hex_of(bytes@),
{
    let mut out = String::new();
    let mut i: usize = 0;
    proof {
        assert(bytes@.subrange(0, 0) =~= Seq::<u8>::empty());
    }
    while i < bytes.len()
        invariant
            i <= bytes@.len(),
            out@ == hex_of(bytes@.subrange(0, i as int)),
        decreases bytes@.len() - i,
    {
        let b = bytes[i];
        out.append(hex_digit(b / 16));
        out.append(hex_digit(b % 16));
        proof {
            let s = bytes@.subrange(0, i + 1);
            assert(s.drop_last() =~= bytes@.subrange(0, i as int));
            assert(s.last() == b);
            assert(out@ =~= hex_of(s));
        }
        i = i + 1;
    }
    proof {
        assert(bytes@.subrange(0, bytes@.len() as int) =~= bytes@);
    }
    out
}

/// Generate a random API key: the hex form of `KEY_LENGTH` random bytes.
pub fn generate_key() -> (r: String)
    ensures
        exists|b: Seq<u8>| b.len() == KEY_LENGTH && r@ == hex_of(b),
{
    let bytes = random_key_bytes();
    let ghost b = bytes@;
    let r = encode(bytes);
    proof {
        assert(b.len() == KEY_LENGTH && r@ == hex_of(b));
    }
    r
}

/// Generate a room-invite token: a recognizable prefix and the same entropy
/// as an API key. The raw token is shown once; only its hash is stored.
pub fn generate_invite_token() -> (r: String)
    ensures
        exists|b: Seq<u8>| b.len() == KEY_LENGTH && r@ == invite_prefix() + hex_of(b),
{
    let mut token = String::new();
    token.append("cinv_");
    proof {
        reveal_strlit("cinv_");
        assert(token@ =~= invite_prefix());
    }
    let key = generate_key();
    token.append(key.as_str());
    token
}

/// SHA-256 hex of an invite token, the only form of it that is stored.
pub fn hash_invite_token(token: &str) -> (r: String)
    ensures
        r@ == hex_of(sha256_of_text(token@)),
{
    encode(sha256_digest(token))
}

/// The hex form of `n` bytes has `2 n` characters.
pub proof fn lemma_hex_len(bytes: Seq<u8>)
    ensures
        hex_of(bytes).len() == 2 * bytes.len(),
    decreases bytes.len(),
{
    if bytes.len() > 0 {
        lemma_hex_len(bytes.drop_last());
    }
}

} // verus!
