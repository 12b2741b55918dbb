//! HMAC-SHA256 signing of webhook payloads.
//!
//! Each delivery is signed with the endpoint's secret over the exact bytes of the JSON body. The
//! signature is sent in the `X-Octo-Signature` header as lowercase hex. Consumers recompute the
//! HMAC over the received body and compare in constant time to authenticate the webhook.

use vstd::prelude::*;
use vstd::string::StringSliceAdditionalSpecFns;
use vstd::utf8::{encode_utf8, is_ascii_chars_encode_utf8};

use hmac::{Hmac, Mac};
use sha2::Sha256;

verus! {

/// The HTTP header carrying the signature.
pub const SIGNATURE_HEADER: &'static str = "X-Octo-Signature";

/// The HMAC-SHA256 tag of `msg` under `key`.
pub uninterp spec fn hmac_sha256_of(key: Seq<u8>, msg: Seq<u8>) -> Seq<u8>;

/// The lowercase hexadecimal digit for `n < 16`.
pub open spec fn lower_hex_digit(n: u8) -> char {
    if n < 10 {
        (('0' as u32) + n) as char
    } else {
        (('a' as u32) + n - 10) as char
    }
}

/// `bytes` written as lowercase hexadecimal, two digits per byte, high nibble first.
pub open spec fn hex_lower(bytes: Seq<u8>) -> Seq<char>
    decreases bytes.len(),
{
    if bytes.len() == 0 {
        Seq::empty()
    } else {
        hex_lower(bytes.drop_last()) + seq![
            lower_hex_digit(bytes.last() / 16),
            lower_hex_digit(bytes.last() % 16),
        ]
    }
}

/// The value of a hexadecimal digit byte, in either case; `None` for any other byte.
pub open spec fn hex_nibble(c: u8) -> Option<u8> {
    if 0x30 <= c <= 0x39 {
        Some((c - 0x30) as u8)
    } else if 0x61 <= c <= 0x66 {
        Some((c - 0x61 + 10) as u8)
    } else if 0x41 <= c <= 0x46 {
        Some((c - 0x41 + 10) as u8)
    } else {
        None
    }
}

/// The bytes that the hexadecimal text `text` denotes: `None` unless `text` has an even
/// length and consists of hexadecimal digits only (either case).
pub open spec fn hex_decoded(text: Seq<u8>) -> Option<Seq<u8>>
    decreases text.len(),
{
    if text.len() % 2 != 0 {
        None
    } else if text.len() == 0 {
        Some(Seq::empty())
    } else {
        match (
            hex_decoded(text.take(text.len() - 2)),
            hex_nibble(text[text.len() - 2]),
            hex_nibble(text[text.len() - 1]),
        ) {
            (Some(prefix), Some(high), Some(low)) => Some(prefix.push((high * 16 + low) as u8)),
            _ => None,
        }
    }
}

/// The signature of `body` under `secret`: its HMAC-SHA256 tag in lowercase hex.
pub open spec fn signature_of(secret: Seq<u8>, body: Seq<u8>) -> Seq<char> {
    hex_lower(hmac_sha256_of(secret, body))
}

/// Whether the signature text `signature` (as UTF-8 bytes) authenticates `body` under `secret`:
/// it must decode as hex to exactly the HMAC-SHA256 tag.
pub open spec fn signature_accepted(secret: Seq<u8>, body: Seq<u8>, signature: Seq<u8>) -> bool {
    match hex_decoded(signature) {
        Some(tag) => tag == hmac_sha256_of(secret, body),
        None => false,
    }
}

/// Computes HMAC-SHA256 with `hmac::Hmac<sha2::Sha256>`: `new_from_slice(key)`, `update(msg)`,
/// `finalize()`. The contract claims that the 32-byte tag is the HMAC-SHA256 of `msg` under
/// `key`, a function of the two byte strings alone. `new_from_slice` accepts keys of any length
/// for `Hmac`, so the `expect` never fires.
#[verifier::external_body]
fn hmac_sha256_tag(key: &[u8], msg: &[u8]) -> (tag: Vec<u8>)
    ensures
        tag@ == hmac_sha256_of(key@, msg@),
        tag@.len() == 32,
{
    let mut mac = <Hmac<Sha256> as Mac>::new_from_slice(key).expect("HMAC accepts any key length");
    mac.update(msg);
    mac.finalize().into_bytes().to_vec()
}

/// Checks `tag` with `hmac::Hmac<sha2::Sha256>`: `new_from_slice(key)`, `update(msg)`,
/// `verify_slice(tag)`, a constant-time comparison. The contract claims that the check succeeds
/// exactly when `tag` equals the HMAC-SHA256 of `msg` under `key`, and never for a tag whose
/// length is not the 32-byte output size.
#[verifier::external_body]
fn hmac_sha256_matches(key: &[u8], msg: &[u8], tag: &[u8]) -> (ok: bool)
    ensures
        ok == (tag@ == hmac_sha256_of(key@, msg@)),
        ok ==> tag@.len() == 32,
{
    let mut mac = <Hmac<Sha256> as Mac>::new_from_slice(key).expect("HMAC accepts any key length");
    mac.update(msg);
    mac.verify_slice(tag).is_ok()
}

/// Encodes with `hex::encode`. The contract claims lowercase hexadecimal, two digits per byte,
/// high nibble first, as the crate documents.
#[verifier::external_body]
fn hex_encode_lower(data: &[u8]) -> (text: String)
    ensures
        text@ == hex_lower(data@),
{
    hex::encode(data)
}

/// Decodes with `hex::decode`, which reads the UTF-8 bytes of `text`. The contract claims that
/// it succeeds exactly on an even number of hexadecimal digits (either case) and yields the
/// bytes they denote, two digits per byte, high nibble first.
#[verifier::external_body]
fn hex_decode(text: &str) -> (bytes: Option<Vec<u8>>)
    ensures
        hex_decoded(text.spec_bytes()) == match bytes {
            Some(b) => Some(b@),
            None => None,
        },
{
    hex::decode(text).ok()
}

/// The signature text for a computed tag: `tag` in lowercase hex.
pub fn encode_signature(tag: &[u8]) -> (signature: String)
    ensures
        signature@ == hex_lower(tag@),
        signature@.len() == 2 * tag@.len(),
{
    proof {
        lemma_hex_lower_len(tag@);
    }
    hex_encode_lower(tag)
}

/// Compute the lowercase-hex HMAC-SHA256 of `body` under `secret`.
pub fn sign(secret: &[u8], body: &[u8]) -> (signature: String)
    ensures
        signature@ == signature_of(secret@, body@),
        signature@.len() == 64,
{
    let tag = hmac_sha256_tag(secret, body);
    encode_signature(tag.as_slice())
}

/// Verify a hex signature against `body` using a constant-time comparison.
///
/// The comparison is `hmac`'s `verify_slice`, which is constant-time; it must never be
/// replaced by a variable-time comparison of the decoded bytes or of the hex strings.
pub fn verify(secret: &[u8], body: &[u8], signature_hex: &str) -> (ok: bool)
    ensures
        ok == signature_accepted(secret@, body@, signature_hex.spec_bytes()),
        ok ==> signature_hex.spec_bytes().len() == 64,
{
    let sig = match hex_decode(signature_hex) {
        Some(sig) => sig,
        None => {
            return false;
        },
    };
    proof {
        lemma_hex_decoded_len(signature_hex.spec_bytes());
    }
    hmac_sha256_matches(secret, body, sig.as_slice())
}

/// Lowercase hex has two digits per byte.
pub proof fn lemma_hex_lower_len(bytes: Seq<u8>)
    ensures
        hex_lower(bytes).len() == 2 * bytes.len(),
    decreases bytes.len(),
{
    if bytes.len() > 0 {
        lemma_hex_lower_len(bytes.drop_last());
    }
}

/// Decoding halves the length.
pub proof fn lemma_hex_decoded_len(text: Seq<u8>)
    ensures
        hex_decoded(text) matches Some(bytes) ==> text.len() == 2 * bytes.len(),
    decreases text.len(),
{
    if text.len() % 2 == 0 && text.len() > 0 {
        lemma_hex_decoded_len(text.take(text.len() - 2));
    }
}

/// Position `2 i` of the lowercase hex text holds the high nibble of byte `i`, and position
/// `2 i + 1` its low nibble.
proof fn lemma_hex_lower_index(bytes: Seq<u8>, i: int)
    requires
        0 <= i < bytes.len(),
    ensures
        hex_lower(bytes)[2 * i] == lower_hex_digit(bytes[i] / 16),
        hex_lower(bytes)[2 * i + 1] == lower_hex_digit(bytes[i] % 16),
    decreases bytes.len(),
{
    lemma_hex_lower_len(bytes.drop_last());
    if i < bytes.len() - 1 {
        lemma_hex_lower_index(bytes.drop_last(), i);
    }
}

/// Every lowercase hex digit reads back as the nibble it was written for.
proof fn lemma_hex_nibble_of_digit(n: u8)
    requires
        n < 16,
    ensures
        (lower_hex_digit(n) as u32) < 0x80,
        hex_nibble(lower_hex_digit(n) as u8) == Some(n),
{
}

/// Lowercase hex text is ASCII, so its UTF-8 bytes are its characters one for one.
proof fn lemma_hex_lower_bytes(bytes: Seq<u8>)
    ensures
        encode_utf8(hex_lower(bytes)).len() == 2 * bytes.len(),
        forall|i: int|
            0 <= i < bytes.len() ==> {
                &&& #[trigger] encode_utf8(hex_lower(bytes))[2 * i] == lower_hex_digit(
                    bytes[i] / 16,
                ) as u8
                &&& encode_utf8(hex_lower(bytes))[2 * i + 1] == lower_hex_digit(bytes[i] % 16) as u8
            },
{
    let text = hex_lower(bytes);
    lemma_hex_lower_len(bytes);
    assert forall|k: int| 0 <= k < text.len() implies '\0' <= #[trigger] text[k] <= '\u{7f}' by {
        let i = k / 2;
        lemma_hex_lower_index(bytes, i);
        lemma_hex_nibble_of_digit(bytes[i] / 16);
        lemma_hex_nibble_of_digit(bytes[i] % 16);
    }
    is_ascii_chars_encode_utf8(text);
    assert forall|i: int| 0 <= i < bytes.len() implies {
        &&& #[trigger] encode_utf8(text)[2 * i] == lower_hex_digit(bytes[i] / 16) as u8
        &&& encode_utf8(text)[2 * i + 1] == lower_hex_digit(bytes[i] % 16) as u8
    } by {
        lemma_hex_lower_index(bytes, i);
        assert(text[2 * i] as u8 == encode_utf8(text)[2 * i]);
        assert(text[2 * i + 1] as u8 == encode_utf8(text)[2 * i + 1]);
    }
}

/// Text holding, for each byte, its two lowercase hex digits decodes back to those bytes.
proof fn lemma_hex_decoded_lower(bytes: Seq<u8>, text: Seq<u8>)
    requires
        text.len() == 2 * bytes.len(),
        forall|i: int|
            0 <= i < bytes.len() ==> {
                &&& #[trigger] text[2 * i] == lower_hex_digit(bytes[i] / 16) as u8
                &&& text[2 * i + 1] == lower_hex_digit(bytes[i] % 16) as u8
            },
    ensures
        hex_decoded(text) == Some(bytes),
    decreases bytes.len(),
{
    if bytes.len() > 0 {
        let n = bytes.len() - 1;
        let rest = bytes.drop_last();
        let prefix = text.take(text.len() - 2);
        assert forall|i: int| 0 <= i < rest.len() implies {
            &&& #[trigger] prefix[2 * i] == lower_hex_digit(rest[i] / 16) as u8
            &&& prefix[2 * i + 1] == lower_hex_digit(rest[i] % 16) as u8
        } by {
            assert(text[2 * i] == lower_hex_digit(bytes[i] / 16) as u8);
        }
        lemma_hex_decoded_lower(rest, prefix);
        assert(text[2 * n] == lower_hex_digit(bytes[n] / 16) as u8);
        lemma_hex_nibble_of_digit(bytes[n] / 16);
        lemma_hex_nibble_of_digit(bytes[n] % 16);
        assert(bytes[n] / 16 * 16 + bytes[n] % 16 == bytes[n]);
        assert(rest.push(bytes[n]) =~= bytes);
    } else {
        assert(bytes =~= Seq::<u8>::empty());
    }
}

/// Lowercase hex decodes back to the bytes it was made from.
pub proof fn lemma_hex_roundtrip(bytes: Seq<u8>)
    ensures
        hex_decoded(encode_utf8(hex_lower(bytes))) == Some(bytes),
{
    lemma_hex_lower_bytes(bytes);
    lemma_hex_decoded_lower(bytes, encode_utf8(hex_lower(bytes)));
}

/// A signature written as the lowercase hex of some tag is accepted exactly when that tag is
/// the HMAC-SHA256 of the body under the secret: a signature that differs from the correct
/// one in any byte, the first and last included, is rejected.
pub proof fn lemma_verify_hex_tag(secret: Seq<u8>, body: Seq<u8>, tag: Seq<u8>)
    ensures
        signature_accepted(secret, body, encode_utf8(hex_lower(tag))) <==> tag == hmac_sha256_of(
            secret,
            body,
        ),
{
    lemma_hex_roundtrip(tag);
}

/// Signing then verifying with the same secret over the same body always succeeds.
pub proof fn lemma_sign_then_verify(secret: Seq<u8>, body: Seq<u8>)
    ensures
        signature_accepted(secret, body, encode_utf8(signature_of(secret, body))),
{
    lemma_verify_hex_tag(secret, body, hmac_sha256_of(secret, body));
}

/// A lowercase hexadecimal digit character: `'0'..='9'` or `'a'..='f'`.
pub open spec fn is_lower_hex_char(c: char) -> bool {
    ('0' <= c <= '9') || ('a' <= c <= 'f')
}

/// Lowercase hex text has two characters per byte, every one of them a lowercase hex digit,
/// and the pair for byte `i` reads back as its high and low nibble.
pub proof fn lemma_hex_lower_is_lowercase_hex(bytes: Seq<u8>)
    ensures
        hex_lower(bytes).len() == 2 * bytes.len(),
        forall|k: int| 0 <= k < hex_lower(bytes).len() ==> is_lower_hex_char(#[trigger] hex_lower(bytes)[k]),
        forall|i: int|
            0 <= i < bytes.len() ==> {
                &&& hex_nibble(#[trigger] hex_lower(bytes)[2 * i] as u8) == Some(bytes[i] / 16)
                &&& hex_nibble(hex_lower(bytes)[2 * i + 1] as u8) == Some(bytes[i] % 16)
            },
{
    lemma_hex_lower_len(bytes);
    assert forall|k: int| 0 <= k < hex_lower(bytes).len() implies is_lower_hex_char(
        #[trigger] hex_lower(bytes)[k],
    ) by {
        let i = k / 2;
        lemma_hex_lower_index(bytes, i);
        lemma_hex_nibble_of_digit(bytes[i] / 16);
        lemma_hex_nibble_of_digit(bytes[i] % 16);
    }
    assert forall|i: int| 0 <= i < bytes.len() implies {
        &&& hex_nibble(#[trigger] hex_lower(bytes)[2 * i] as u8) == Some(bytes[i] / 16)
        &&& hex_nibble(hex_lower(bytes)[2 * i + 1] as u8) == Some(bytes[i] % 16)
    } by {
        lemma_hex_lower_index(bytes, i);
        lemma_hex_nibble_of_digit(bytes[i] / 16);
        lemma_hex_nibble_of_digit(bytes[i] % 16);
    }
}

/// Every signature is 64 lowercase hex digits, the two digits at `2 i` and `2 i + 1` being the
/// high and low nibble of byte `i` of the HMAC-SHA256 tag.
pub proof fn lemma_signature_is_lowercase_hex(secret: Seq<u8>, body: Seq<u8>)
    ensures
        forall|k: int|
            0 <= k < signature_of(secret, body).len() ==> is_lower_hex_char(
                #[trigger] signature_of(secret, body)[k],
            ),
        forall|i: int|
            0 <= i < hmac_sha256_of(secret, body).len() ==> {
                &&& hex_nibble(#[trigger] signature_of(secret, body)[2 * i] as u8) == Some(
                    hmac_sha256_of(secret, body)[i] / 16,
                )
                &&& hex_nibble(signature_of(secret, body)[2 * i + 1] as u8) == Some(
                    hmac_sha256_of(secret, body)[i] % 16,
                )
            },
{
    lemma_hex_lower_is_lowercase_hex(hmac_sha256_of(secret, body));
}

/// Hex text decodes exactly when it has an even length and every byte is a hex digit (either
/// case); the bytes it decodes to are, for each pair, sixteen times the first digit plus the
/// second.
pub proof fn lemma_hex_decoded_pointwise(text: Seq<u8>)
    ensures
        hex_decoded(text) is Some <==> (text.len() % 2 == 0 && forall|k: int|
            0 <= k < text.len() ==> #[trigger] hex_nibble(text[k]) is Some),
        hex_decoded(text) matches Some(bytes) ==> {
            &&& text.len() == 2 * bytes.len()
            &&& forall|i: int|
                0 <= i < bytes.len() ==> #[trigger] bytes[i] == hex_nibble(text[2 * i])->0 * 16
                    + hex_nibble(text[2 * i + 1])->0
        },
    decreases text.len(),
{
    if text.len() % 2 == 0 && text.len() > 0 {
        let n = text.len();
        let prefix = text.take(n - 2);
        lemma_hex_decoded_pointwise(prefix);
        assert forall|k: int| 0 <= k < prefix.len() implies prefix[k] == text[k] by {}
        if (forall|k: int| 0 <= k < n ==> #[trigger] hex_nibble(text[k]) is Some) {
            assert(forall|k: int| 0 <= k < prefix.len() ==> #[trigger] hex_nibble(prefix[k]) is Some);
            assert(hex_nibble(text[n - 2]) is Some);
            assert(hex_nibble(text[n - 1]) is Some);
        }
        if hex_decoded(text) is Some {
            let pb = hex_decoded(prefix)->0;
            let high = hex_nibble(text[n - 2])->0;
            let low = hex_nibble(text[n - 1])->0;
            assert(high < 16 && low < 16);
            assert(high * 16 + low < 256) by (nonlinear_arith)
                requires
                    high < 16,
                    low < 16,
            ;
            let bytes = hex_decoded(text)->0;
            assert(bytes == pb.push((high * 16 + low) as u8));
            assert forall|k: int| 0 <= k < n implies #[trigger] hex_nibble(text[k]) is Some by {
                if k < n - 2 {
                    assert(hex_nibble(prefix[k]) is Some);
                }
            }
            assert forall|i: int| 0 <= i < bytes.len() implies #[trigger] bytes[i] == hex_nibble(
                text[2 * i],
            )->0 * 16 + hex_nibble(text[2 * i + 1])->0 by {
                if i < pb.len() {
                    assert(bytes[i] == pb[i]);
                    assert(prefix[2 * i] == text[2 * i]);
                    assert(prefix[2 * i + 1] == text[2 * i + 1]);
                }
            }
        }
    } else if text.len() == 0 {
    } else {
    }
}

} // verus!
