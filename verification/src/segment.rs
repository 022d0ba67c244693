//! What becomes of a segment's bytes once they have been received: the
//! checks that tell an error page from a transport stream, and AES-128
//! decryption.

use vstd::prelude::*;
use aes::Aes128;
use cbc::Decryptor;
use cipher::block_padding::Pkcs7;
use cipher::generic_array::GenericArray;
use cipher::{BlockDecryptMut, KeyIvInit};
use crate::playlist::{bytes_view, EncryptionInfo};
use crate::text::{chars_of, contains, contains_spec, starts_with, starts_with_spec, string_of};

verus! {

/// How fetching one segment ended.
#[derive(Debug)]
pub enum DownloadResult {
    /// The segment was saved to this file.
    Success(String),
    /// The server sent nothing for this URL; nothing was saved.
    Skipped(String),
    /// The download of this URL was cancelled by the user.
    Cancelled(String),
}

/// What to do after a chunk of a segment arrives.
#[derive(Debug, Clone, Copy, PartialEq, Eq, Structural)]
pub enum ChunkStep {
    /// The user cancelled: drop the partial file and stop.
    Cancel,
    /// The chunk was kept: read the next one.
    Continue,
}

/// Why a received segment is refused.
#[derive(Debug)]
pub enum SegmentError {
    /// The `Content-Type` is HTML or XML: an error page, worth a retry.
    HtmlContentType(String),
    /// The body begins with `<`: an HTML page.
    HtmlBody,
    /// The body begins with `{` or `[`: a JSON error.
    JsonBody,
    /// Decryption or its padding failed.
    Decryption,
}

/// A received segment ready to be written, or nothing to write.
#[derive(Debug)]
pub enum SegmentData {
    /// The body was empty.
    Skipped,
    /// The (decrypted) bytes to write.
    Ready(Vec<u8>),
}

/// The IV that HLS prescribes when a key tag gives none: the segment's
/// media sequence number as a 128-bit big-endian integer.
pub open spec fn iv_for_index(n: u64) -> Seq<u8> {
    Seq::new(
        16,
        |k: int|
            if k < 8 {
                0u8
            } else {
                ((n >> (8 * (15 - k)) as u64) & 0xff) as u8
            },
    )
}

/// Law: different segment numbers get different IVs.
pub proof fn lemma_iv_for_index_injective(a: u64, b: u64)
    requires
        iv_for_index(a) == iv_for_index(b),
    ensures
        a == b,
{
    let ia = iv_for_index(a);
    let ib = iv_for_index(b);
    assert(ia[8] == ib[8] && ia[9] == ib[9] && ia[10] == ib[10] && ia[11] == ib[11]);
    assert(ia[12] == ib[12] && ia[13] == ib[13] && ia[14] == ib[14] && ia[15] == ib[15]);
    assert(a == b) by (bit_vector)
        requires
            ((a >> 56u64) & 0xff) as u8 == ((b >> 56u64) & 0xff) as u8,
            ((a >> 48u64) & 0xff) as u8 == ((b >> 48u64) & 0xff) as u8,
            ((a >> 40u64) & 0xff) as u8 == ((b >> 40u64) & 0xff) as u8,
            ((a >> 32u64) & 0xff) as u8 == ((b >> 32u64) & 0xff) as u8,
            ((a >> 24u64) & 0xff) as u8 == ((b >> 24u64) & 0xff) as u8,
            ((a >> 16u64) & 0xff) as u8 == ((b >> 16u64) & 0xff) as u8,
            ((a >> 8u64) & 0xff) as u8 == ((b >> 8u64) & 0xff) as u8,
            ((a >> 0u64) & 0xff) as u8 == ((b >> 0u64) & 0xff) as u8,
    ;
}

/// What AES-128-CBC decryption with PKCS#7 unpadding gives for `data`
/// under `key` and `iv`, or `None` when the padding is malformed or the
/// data is no whole number of blocks.
pub uninterp spec fn aes128_cbc_pkcs7_decrypt(key: Seq<u8>, iv: Seq<u8>, data: Seq<u8>) -> Option<
    Seq<u8>,
>;

/// Calls `cbc::Decryptor::<aes::Aes128>::new(key, iv).decrypt_padded_mut::<Pkcs7>`.
///
/// Trusted: the result is what the name above gives for the arguments.
/// From the crate's source (`decrypt_padded_inout_mut` and `Pkcs7::unpad`):
/// data that is empty or not a multiple of 16 bytes is refused, and a
/// plaintext is 1 to 16 bytes shorter than the data. The key and IV must
/// be 16 bytes, or `GenericArray::from_slice` panics.
#[verifier::external_body]
fn aes128_cbc_decrypt(key: &[u8], iv: &[u8], data: Vec<u8>) -> (r: Option<Vec<u8>>)
    requires
        key@.len() == 16,
        iv@.len() == 16,
    ensures
        bytes_view(r) == aes128_cbc_pkcs7_decrypt(key@, iv@, data@),
        data@.len() % 16 != 0 || data@.len() == 0 ==> r is None,
        r matches Some(p) ==> data@.len() - 16 <= p@.len() < data@.len(),
{
    let mut buf = data;
    let dec = Decryptor::<Aes128>::new(GenericArray::from_slice(key), GenericArray::from_slice(iv));
    match dec.decrypt_padded_mut::<Pkcs7>(&mut buf) {
        Ok(plain) => Some(plain.to_vec()),
        Err(_) => None,
    }
}

/// Keeps a received chunk unless the download was cancelled.
pub fn receive_chunk(buffer: &mut Vec<u8>, chunk: &[u8], cancelled: bool) -> (r: ChunkStep)
    ensures
        cancelled ==> r == ChunkStep::Cancel && final(buffer)@ == old(buffer)@,
        !cancelled ==> r == ChunkStep::Continue && final(buffer)@ == old(buffer)@ + chunk@,
{
    if cancelled {
        return ChunkStep::Cancel;
    }
    let ghost start = buffer@;
    let mut i: usize = 0;
    while i < chunk.len()
        invariant
            i <= chunk.len(),
            buffer@ == start + chunk@.subrange(0, i as int),
        decreases chunk.len() - i,
    {
        buffer.push(chunk[i]);
        i += 1;
    }
    assert(chunk@.subrange(0, i as int) =~= chunk@);
    ChunkStep::Continue
}

/// The IV for segment `index` when the key tag gives none.
pub fn default_iv(index: usize) -> (r: Vec<u8>)
    ensures
        r@ == iv_for_index(index as u64),
{
    let n = index as u64;
    let mut r: Vec<u8> = Vec::new();
    let mut k: usize = 0;
    while k < 16
        invariant
            k <= 16,
            n == index as u64,
            r@.len() == k,
            forall|j: int| 0 <= j < k ==> r@[j] == iv_for_index(n)[j],
        decreases 16 - k,
    {
        if k < 8 {
            r.push(0u8);
        } else {
            let shift = (8 * (15 - k)) as u64;
            r.push(((n >> shift) & 0xff) as u8);
        }
        k += 1;
    }
    assert(r@ =~= iv_for_index(n));
    r
}

/// The IV that decrypts segment `index` under `enc`.
pub open spec fn segment_iv(index: usize, enc: EncryptionInfo) -> Seq<u8> {
    match enc.iv {
        Some(v) => v@,
        None => iv_for_index(index as u64),
    }
}

/// Decrypts segment `index` with AES-128-CBC and PKCS#7 padding, using the
/// key tag's IV or, without one, the IV derived from `index`.
pub fn decrypt_segment(index: usize, data: Vec<u8>, enc: &EncryptionInfo) -> (r: Result<
    Vec<u8>,
    SegmentError,
>)
    requires
        enc.key@.len() == 16,
        enc.iv matches Some(v) ==> v@.len() == 16,
    ensures
        match aes128_cbc_pkcs7_decrypt(enc.key@, segment_iv(index, *enc), data@) {
            Some(p) => r matches Ok(v) && v@ == p,
            None => r matches Err(SegmentError::Decryption),
        },
{
    let iv = match &enc.iv {
        Some(v) => {
            let mut c: Vec<u8> = Vec::new();
            let mut i: usize = 0;
            while i < v.len()
                invariant
                    i <= v.len(),
                    c@ == v@.subrange(0, i as int),
                decreases v.len() - i,
            {
                c.push(v[i]);
                i += 1;
            }
            assert(c@ =~= v@);
            c
        },
        None => default_iv(index),
    };
    match aes128_cbc_decrypt(enc.key.as_slice(), iv.as_slice(), data) {
        Some(p) => Ok(p),
        None => Err(SegmentError::Decryption),
    }
}

pub open spec fn html_type() -> Seq<char> {
    seq!['t', 'e', 'x', 't', '/', 'h', 't', 'm', 'l']
}

pub open spec fn xml_word() -> Seq<char> {
    seq!['x', 'm', 'l']
}

/// A `Content-Type` of an error page rather than a segment.
pub open spec fn is_page_content_type(ct: Seq<char>) -> bool {
    starts_with_spec(ct, html_type()) || contains_spec(ct, xml_word())
}

/// What the checks on a non-empty body find: `Some(true)` for HTML, `Some(false)`
/// for JSON, `None` when it may be a segment. Only bodies of four bytes or
/// more are looked at.
pub open spec fn body_kind(body: Seq<u8>) -> Option<bool> {
    if body.len() >= 4 && body[0] == 0x3c {
        Some(true)
    } else if body.len() >= 4 && (body[0] == 0x7b || body[0] == 0x5b) {
        Some(false)
    } else {
        None
    }
}

/// A body that gets as far as decryption.
pub open spec fn reaches_decryption(body: Seq<u8>, ct: Seq<char>) -> bool {
    body.len() > 0 && !is_page_content_type(ct) && body_kind(body) is None
}

/// Whether a received body gets as far as decryption: it is not empty and
/// neither its `Content-Type` nor its first byte marks an error page.
pub fn body_needs_key(body: &[u8], content_type: &str) -> (r: bool)
    ensures
        r == reaches_decryption(body@, content_type@),
{
    if body.len() == 0 {
        return false;
    }
    let ct = chars_of(content_type);
    let html = chars_of("text/html");
    let xml = chars_of("xml");
    proof {
        reveal_strlit("text/html");
        reveal_strlit("xml");
        assert(html@ =~= html_type());
        assert(xml@ =~= xml_word());
    }
    if starts_with(&ct, &html) || contains(&ct, &xml) {
        return false;
    }
    !(body.len() >= 4 && (body[0] == 0x3c || body[0] == 0x7b || body[0] == 0x5b))
}

/// Checks a fully received segment and decrypts it when it is encrypted.
/// An empty body is skipped; a `Content-Type` starting with `text/html` or
/// holding `xml`, or a body of four bytes or more that begins with `<`,
/// `{` or `[`, is refused as an error page; the rest is decrypted with the
/// segment's key, or kept as it is when the segment is not encrypted.
pub fn prepare_segment(
    index: usize,
    body: Vec<u8>,
    content_type: &str,
    encryption: Option<&EncryptionInfo>,
) -> (r: Result<SegmentData, SegmentError>)
    requires
        reaches_decryption(body@, content_type@) ==> (encryption matches Some(e) ==> e.key@.len()
            == 16 && (e.iv matches Some(v) ==> v@.len() == 16)),
    ensures
        body@.len() == 0 ==> r matches Ok(SegmentData::Skipped),
        body@.len() > 0 && is_page_content_type(content_type@) ==> (r matches Err(
            SegmentError::HtmlContentType(c),
        ) && c@ == content_type@),
        body@.len() > 0 && !is_page_content_type(content_type@) ==> match body_kind(body@) {
            Some(true) => r matches Err(SegmentError::HtmlBody),
            Some(false) => r matches Err(SegmentError::JsonBody),
            None => match encryption {
                None => r matches Ok(SegmentData::Ready(v)) && v@ == body@,
                Some(e) => match aes128_cbc_pkcs7_decrypt(e.key@, segment_iv(index, *e), body@) {
                    Some(p) => r matches Ok(SegmentData::Ready(v)) && v@ == p,
                    None => r matches Err(SegmentError::Decryption),
                },
            },
        },
{
    if body.len() == 0 {
        return Ok(SegmentData::Skipped);
    }
    let ct = chars_of(content_type);
    let html = chars_of("text/html");
    let xml = chars_of("xml");
    proof {
        reveal_strlit("text/html");
        reveal_strlit("xml");
        assert(html@ =~= html_type());
        assert(xml@ =~= xml_word());
    }
    if starts_with(&ct, &html) || contains(&ct, &xml) {
        return Err(SegmentError::HtmlContentType(string_of(ct.as_slice())));
    }
    if body.len() >= 4 {
        let first = body[0];
        if first == 0x3c {
            return Err(SegmentError::HtmlBody);
        }
        if first == 0x7b || first == 0x5b {
            return Err(SegmentError::JsonBody);
        }
    }
    match encryption {
        Some(enc) => match decrypt_segment(index, body, enc) {
            Ok(p) => Ok(SegmentData::Ready(p)),
            Err(e) => Err(e),
        },
        None => Ok(SegmentData::Ready(body)),
    }
}

} // verus!
