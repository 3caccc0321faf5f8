//! The save-file transform: XOR mask, URL-safe base64, gzip.
use base64::Engine;
use std::io::Read;
use vstd::prelude::*;

verus! {

/// The byte every save-file byte is XOR'd with.
pub const SAVE_XOR_KEY: u8 = 11;

/// Every byte XOR'd with `key`.
pub open spec fn xor_spec(bytes: Seq<u8>, key: u8) -> Seq<u8> {
    bytes.map_values(|b: u8| b ^ key)
}

/// The bytes with every zero byte left out.
pub open spec fn strip_zeros_spec(bytes: Seq<u8>) -> Seq<u8> {
    bytes.filter(|b: u8| b != 0)
}

/// What base64 (URL-safe alphabet) decoding makes of `input`: `None` when it is not valid.
pub uninterp spec fn url_safe_decoded(input: Seq<u8>) -> Option<Seq<u8>>;

/// The UTF-8 text that gzip decompression makes of `input`: `None` when the stream or its
/// text is not valid.
pub uninterp spec fn gunzipped_text(input: Seq<u8>) -> Option<Seq<char>>;

/// The error of a decode that cannot go on.
#[derive(Debug, Clone, Copy, PartialEq, Eq, Structural)]
pub enum DecodeError {
    /// The data is not valid URL-safe base64.
    Encoding,
}

/// Decoded text, with a flag that says whether decompression failed (the text is then empty).
#[derive(Debug)]
pub struct Decoded {
    pub text: String,
    pub decompression_failed: bool,
}

/// The bytes that reach the base64 stage.
pub open spec fn unmasked_spec(bytes: Seq<u8>, apply_xor: bool) -> Seq<u8> {
    if apply_xor {
        strip_zeros_spec(xor_spec(bytes, SAVE_XOR_KEY))
    } else {
        bytes
    }
}

/// The text a decode yields, or its error: a failed decompression gives the empty text.
pub open spec fn decode_spec(bytes: Seq<u8>, apply_xor: bool) -> Result<Seq<char>, DecodeError> {
    match url_safe_decoded(unmasked_spec(bytes, apply_xor)) {
        None => Err(DecodeError::Encoding),
        Some(raw) => Ok(
            match gunzipped_text(raw) {
                Some(t) => t,
                None => Seq::empty(),
            },
        ),
    }
}

/// Whether the base64 stage succeeds and the decompression after it fails.
pub open spec fn decompression_fails_spec(bytes: Seq<u8>, apply_xor: bool) -> bool {
    match url_safe_decoded(unmasked_spec(bytes, apply_xor)) {
        Some(raw) => gunzipped_text(raw) is None,
        None => false,
    }
}

/// XORing twice with the same key gives back the bytes.
pub proof fn lemma_xor_self_inverse(bytes: Seq<u8>, key: u8)
    ensures
        xor_spec(xor_spec(bytes, key), key) == bytes,
{
    assert forall|i: int| 0 <= i < bytes.len() implies #[trigger] xor_spec(
        xor_spec(bytes, key),
        key,
    )[i] == bytes[i] by {
        let b = bytes[i];
        assert((b ^ key) ^ key == b) by (bit_vector);
    }
    assert(xor_spec(xor_spec(bytes, key), key) =~= bytes);
}

/// Every byte XOR'd with `key`.
pub fn xor(bytes: &[u8], key: u8) -> (r: Vec<u8>)
    ensures
        r@ == xor_spec(bytes@, key),
{
    let mut out: Vec<u8> = Vec::with_capacity(bytes.len());
    let mut i: usize = 0;
    while i < bytes.len()
        invariant
            i <= bytes@.len(),
            out@ == xor_spec(bytes@.take(i as int), key),
        decreases bytes@.len() - i,
    {
        out.push(bytes[i] ^ key);
        i += 1;
        assert(out@ =~= xor_spec(bytes@.take(i as int), key));
    }
    assert(bytes@.take(i as int) =~= bytes@);
    out
}

/// The save file's mask undone: every byte XOR'd with the key, then the zero bytes dropped.
pub fn unmask_save(bytes: &[u8]) -> (r: Vec<u8>)
    ensures
        r@ == strip_zeros_spec(xor_spec(bytes@, SAVE_XOR_KEY)),
{
    let xored = xor(bytes, SAVE_XOR_KEY);
    let mut out: Vec<u8> = Vec::new();
    let mut i: usize = 0;
    while i < xored.len()
        invariant
            i <= xored@.len(),
            out@ == strip_zeros_spec(xored@.take(i as int)),
        decreases xored@.len() - i,
    {
        let b = xored[i];
        proof {
            let s = xored@.take(i as int + 1);
            assert(s.drop_last() =~= xored@.take(i as int));
            reveal(Seq::filter);
        }
        if b != 0 {
            out.push(b);
        }
        i += 1;
    }
    assert(xored@.take(i as int) =~= xored@);
    out
}

/// Relies on base64's `URL_SAFE` engine `decode`: the decoded bytes, or an error, as a
/// function of the input alone.
#[verifier::external_body]
fn base64_url_safe_decode(input: &[u8]) -> (r: Option<Vec<u8>>)
    ensures
        url_safe_decoded(input@) == match r {
            Some(v) => Some(v@),
            None => None::<Seq<u8>>,
        },
{
    base64::engine::general_purpose::URL_SAFE.decode(input).ok()
}

/// Relies on flate2's `GzDecoder` read to the end into a `String`: the text, or an error
/// when the stream or its UTF-8 is broken, as a function of the input alone.
#[verifier::external_body]
fn gunzip_to_string(input: &[u8]) -> (r: Option<String>)
    ensures
        gunzipped_text(input@) == match r {
            Some(s) => Some(s@),
            None => None::<Seq<char>>,
        },
{
    let mut text = String::new();
    match flate2::read::GzDecoder::new(input).read_to_string(&mut text) {
        Ok(_) => Some(text),
        Err(_) => None,
    }
}

/// Decodes `bytes`: optionally unmasks them (XOR with the key, zero bytes dropped), then
/// base64-decodes them (URL-safe) and decompresses the result (gzip) into text.
/// A base64 failure is an error; a decompression failure yields empty text and sets the flag.
pub fn decode(bytes: &[u8], apply_xor: bool) -> (r: Result<Decoded, DecodeError>)
    ensures
        match r {
            Ok(d) => decode_spec(bytes@, apply_xor) == Ok::<Seq<char>, DecodeError>(d.text@)
                && d.decompression_failed == decompression_fails_spec(bytes@, apply_xor),
            Err(e) => decode_spec(bytes@, apply_xor) == Err::<Seq<char>, DecodeError>(e),
        },
{
    let raw = if apply_xor {
        base64_url_safe_decode(unmask_save(bytes).as_slice())
    } else {
        base64_url_safe_decode(bytes)
    };
    match raw {
        None => Err(DecodeError::Encoding),
        Some(raw) => match gunzip_to_string(raw.as_slice()) {
            Some(text) => Ok(Decoded { text, decompression_failed: false }),
            None => Ok(Decoded { text: String::new(), decompression_failed: true }),
        },
    }
}

} // verus!
