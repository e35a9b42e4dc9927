//! Content digests and front matter: the outside work the parser relies on.
use vstd::prelude::*;
use crate::model::opt_view;
use crate::text::push_char;

verus! {

/// The SHA-256 hash of the UTF-8 bytes of `text`.
pub uninterp spec fn sha256_of(text: Seq<char>) -> Seq<u8>;

/// `Sha256::digest` of the UTF-8 bytes of `text` (sha2): the 32-byte hash.
#[verifier::external_body]
pub(crate) fn sha256(text: &str) -> (r: Vec<u8>)
    ensures
        r@ == sha256_of(text@),
        r@.len() == 32,
{
    <sha2::Sha256 as sha2::Digest>::digest(text.as_bytes()).to_vec()
}

/// The lowercase hexadecimal digit of `n` (below 16).
pub open spec fn hex_digit(n: u8) -> char {
    if n < 10 {
        ((n + 48) as u8) as char
    } else {
        ((n + 87) as u8) as char
    }
}

/// The lowercase hexadecimal text of `bytes`, two digits per byte.
pub open spec fn hex_lower(bytes: Seq<u8>) -> Seq<char>
    decreases bytes.len(),
{
    if bytes.len() == 0 {
        Seq::empty()
    } else {
        hex_lower(bytes.drop_last()) + seq![
            hex_digit(bytes.last() / 16),
            hex_digit(bytes.last() % 16),
        ]
    }
}

fn hex_digit_of(n: u8) -> (c: char)
    requires
        n < 16,
    ensures
        c == hex_digit(n),
{
    if n < 10 {
        (n + 48) as char
    } else {
        (n + 87) as char
    }
}

/// The lowercase hexadecimal text of `bytes`.
pub fn to_hex_lower(bytes: &[u8]) -> (s: String)
    ensures
        s@ == hex_lower(bytes@),
        s@.len() == 2 * bytes@.len(),
{
    let mut s = String::new();
    let mut i: usize = 0;
    while i < bytes.len()
        invariant
            i <= bytes@.len(),
            s@ == hex_lower(bytes@.take(i as int)),
            s@.len() == 2 * i,
        decreases bytes@.len() - i,
    {
        let b = bytes[i];
        proof {
            assert(bytes@.take(i as int + 1).drop_last() =~= bytes@.take(i as int));
            assert(bytes@.take(i as int + 1).last() == b);
        }
        push_char(&mut s, hex_digit_of(b / 16));
        push_char(&mut s, hex_digit_of(b % 16));
        i = i + 1;
    }
    proof {
        assert(bytes@.take(bytes@.len() as int) =~= bytes@);
    }
    s
}

/// The hex-encoded SHA-256 digest of `text`.
pub open spec fn digest_of(text: Seq<char>) -> Seq<char> {
    hex_lower(sha256_of(text))
}

/// Computes the hex-encoded SHA-256 digest of `text`: 64 lowercase hex digits.
pub fn compute_digest(text: &str) -> (r: String)
    ensures
        r@ == digest_of(text@),
        r@.len() == 64,
{
    let h = sha256(text);
    to_hex_lower(h.as_slice())
}

/// What parsing `content` as YAML gives: its JSON text, and its string
/// `title` field if it has one; `None` when it is not valid YAML.
pub uninterp spec fn yaml_front_matter_of(content: Seq<char>) -> Option<(Seq<char>, Option<Seq<char>>)>;

/// Parses `content` as YAML into a `serde_json::Value` (serde_yaml), and gives
/// its JSON text (serde_json) with its `title` field when that is a string.
/// The contract names the result.
#[verifier::external_body]
pub(crate) fn parse_front_matter(content: &str) -> (r: Option<(String, Option<String>)>)
    ensures
        match r {
            Some((json, title)) => yaml_front_matter_of(content@) == Some((json@, opt_view(title))),
            None => yaml_front_matter_of(content@) is None,
        },
{
    let json: serde_json::Value = serde_yaml::from_str(content).ok()?;
    let title = match json.get("title") {
        Some(serde_json::Value::String(t)) => Some(t.clone()),
        _ => None,
    };
    Some((json.to_string(), title))
}

} // verus!
