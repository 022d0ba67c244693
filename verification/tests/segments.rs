use aes::Aes128;
use cipher::block_padding::Pkcs7;
use cipher::{BlockEncryptMut, KeyIvInit};
use m3u8_download::playlist::EncryptionInfo;
use m3u8_download::segment::{
    decrypt_segment, default_iv, prepare_segment, receive_chunk, ChunkStep, SegmentData,
    SegmentError,
};

fn encrypt(key: &[u8], iv: &[u8], plain: &[u8]) -> Vec<u8> {
    cbc::Encryptor::<Aes128>::new_from_slices(key, iv)
        .unwrap()
        .encrypt_padded_vec_mut::<Pkcs7>(plain)
}

#[test]
fn chunks_are_kept_until_cancelled() {
    let mut buf = vec![1u8, 2];
    assert_eq!(receive_chunk(&mut buf, &[3, 4], false), ChunkStep::Continue);
    assert_eq!(buf, vec![1, 2, 3, 4]);
    assert_eq!(receive_chunk(&mut buf, &[5], true), ChunkStep::Cancel);
    assert_eq!(buf, vec![1, 2, 3, 4]);
}

#[test]
fn default_iv_is_big_endian_index() {
    let mut expected = vec![0u8; 16];
    expected[15] = 1;
    assert_eq!(default_iv(1), expected);
    expected[14] = 1;
    expected[15] = 2;
    assert_eq!(default_iv(258), expected);
    assert_eq!(default_iv(0), vec![0u8; 16]);
    let v = default_iv(usize::MAX);
    assert_eq!(&v[8..16], &(usize::MAX as u64).to_be_bytes());
}

#[test]
fn empty_body_is_skipped() {
    assert!(matches!(prepare_segment(0, vec![], "text/html", None), Ok(SegmentData::Skipped)));
}

#[test]
fn page_content_types_are_refused() {
    match prepare_segment(0, vec![0x47; 8], "text/html; charset=utf-8", None) {
        Err(SegmentError::HtmlContentType(ct)) => assert_eq!(ct, "text/html; charset=utf-8"),
        other => panic!("unexpected {:?}", other),
    }
    assert!(matches!(
        prepare_segment(0, vec![0x47; 8], "application/xml", None),
        Err(SegmentError::HtmlContentType(_))
    ));
    // only a prefix test for html, and case matters
    assert!(matches!(
        prepare_segment(0, vec![0x47; 8], "TEXT/HTML", None),
        Ok(SegmentData::Ready(_))
    ));
}

#[test]
fn page_bodies_are_refused() {
    assert!(matches!(
        prepare_segment(0, b"<html></html>".to_vec(), "video/mp2t", None),
        Err(SegmentError::HtmlBody)
    ));
    assert!(matches!(
        prepare_segment(0, b"{\"err\":1}".to_vec(), "", None),
        Err(SegmentError::JsonBody)
    ));
    assert!(matches!(
        prepare_segment(0, b"[1,2]".to_vec(), "", None),
        Err(SegmentError::JsonBody)
    ));
    // bodies under four bytes are not looked at
    match prepare_segment(0, b"<a>".to_vec(), "", None) {
        Ok(SegmentData::Ready(v)) => assert_eq!(v, b"<a>".to_vec()),
        other => panic!("unexpected {:?}", other),
    }
}

#[test]
fn encrypted_segment_with_playlist_iv() {
    let key = [3u8; 16];
    let iv = [9u8; 16];
    let plain = b"\x47 transport stream payload".to_vec();
    let body = encrypt(&key, &iv, &plain);
    assert_ne!(body, plain);
    let enc = EncryptionInfo { key: key.to_vec(), iv: Some(iv.to_vec()) };
    match prepare_segment(4, body, "video/mp2t", Some(&enc)) {
        Ok(SegmentData::Ready(v)) => assert_eq!(v, plain),
        other => panic!("unexpected {:?}", other),
    }
}

#[test]
fn encrypted_segment_with_index_iv() {
    let key = [5u8; 16];
    let plain = vec![0x47u8; 40];
    let body = encrypt(&key, &default_iv(7), &plain);
    let enc = EncryptionInfo { key: key.to_vec(), iv: None };
    match decrypt_segment(7, body.clone(), &enc) {
        Ok(v) => assert_eq!(v, plain),
        other => panic!("unexpected {:?}", other),
    }
    // another index gives another IV: the first block no longer decrypts
    // to the plaintext
    match decrypt_segment(8, body, &enc) {
        Ok(v) => assert_ne!(v, plain),
        Err(SegmentError::Decryption) => {}
        other => panic!("unexpected {:?}", other),
    }
}

#[test]
fn bad_ciphertext_is_a_decryption_error() {
    let enc = EncryptionInfo { key: vec![1u8; 16], iv: None };
    assert!(matches!(
        prepare_segment(0, vec![0x47; 17], "", Some(&enc)),
        Err(SegmentError::Decryption)
    ));
    assert!(matches!(decrypt_segment(0, vec![], &enc), Err(SegmentError::Decryption)));
}
