use m3u8_download::hex::{hex_to_bytes, HexError};
use m3u8_download::key_line::{parse_ext_x_key, KeyLineError};
use m3u8_download::url::resolve_url;

#[test]
fn hex_doc_example() {
    assert_eq!(hex_to_bytes("0011ff"), Ok(vec![0x00, 0x11, 0xff]));
}

#[test]
fn hex_empty_and_case() {
    assert_eq!(hex_to_bytes(""), Ok(vec![]));
    assert_eq!(hex_to_bytes("ABcd"), Ok(vec![0xab, 0xcd]));
}

#[test]
fn hex_odd_length() {
    assert_eq!(hex_to_bytes("abc"), Err(HexError::OddLength));
    // three bytes of UTF-8
    assert_eq!(hex_to_bytes("\u{e9}0"), Err(HexError::OddLength));
}

#[test]
fn hex_invalid_digit() {
    assert_eq!(hex_to_bytes("zz"), Err(HexError::InvalidDigit));
    assert_eq!(hex_to_bytes("0g"), Err(HexError::InvalidDigit));
    assert_eq!(hex_to_bytes("-1"), Err(HexError::InvalidDigit));
    assert_eq!(hex_to_bytes("\u{e9}\u{e9}"), Err(HexError::InvalidDigit));
}

#[test]
fn hex_plus_sign_chunk() {
    // u8::from_str_radix accepts a leading '+', so "+f" reads as 15
    assert_eq!(u8::from_str_radix("+f", 16), Ok(15));
    assert_eq!(hex_to_bytes("+f0a"), Ok(vec![15, 10]));
    assert_eq!(hex_to_bytes("++"), Err(HexError::InvalidDigit));
}

#[test]
fn hex_roundtrip_law() {
    let bytes: Vec<u8> = (0u8..=255).collect();
    let text: String = bytes.iter().map(|b| format!("{:02x}", b)).collect();
    assert_eq!(hex_to_bytes(&text), Ok(bytes));
}

#[test]
fn key_line_doc_example() {
    let (m, u, iv) =
        parse_ext_x_key("#EXT-X-KEY:METHOD=AES-128,URI=\"key.php\",IV=0X112233").unwrap();
    assert_eq!(m, "AES-128");
    assert_eq!(u, "key.php");
    assert_eq!(iv, Some("0X112233".to_string()));
}

#[test]
fn key_line_missing_value() {
    assert_eq!(parse_ext_x_key("#EXT-X-KEY:METHOD=AES-128,URI"), Err(KeyLineError::InvalidKeyLine));
    assert_eq!(parse_ext_x_key("#EXT-X-KEY:"), Err(KeyLineError::InvalidKeyLine));
}

#[test]
fn key_line_later_attribute_wins_and_defaults() {
    let (m, u, iv) = parse_ext_x_key("#EXT-X-KEY:METHOD=NONE,METHOD=AES-128,KEYFORMAT=identity").unwrap();
    assert_eq!(m, "AES-128");
    assert_eq!(u, "");
    assert_eq!(iv, None);
}

#[test]
fn key_line_trimming() {
    let (m, u, iv) =
        parse_ext_x_key("#EXT-X-KEY:#EXT-X-KEY: METHOD = SAMPLE-AES , URI = \"\"a b\"\" , IV= ").unwrap();
    assert_eq!(m, "SAMPLE-AES");
    assert_eq!(u, "a b");
    assert_eq!(iv, Some("".to_string()));
}

#[test]
fn key_line_tag_not_at_start() {
    // the tag is only stripped from the very start, before trimming
    let (m, u, iv) = parse_ext_x_key(" #EXT-X-KEY:METHOD=NONE").unwrap();
    assert_eq!(m, "");
    assert_eq!(u, "");
    assert_eq!(iv, None);
}

#[test]
fn resolve_absolute() {
    assert_eq!(
        resolve_url("http://a.com/x/y.m3u8", "https://cdn.net/seg.ts"),
        "https://cdn.net/seg.ts"
    );
}

#[test]
fn resolve_root_relative() {
    assert_eq!(
        resolve_url("https://host.com/a/b/index.m3u8", "/key.bin"),
        "https://host.com/key.bin"
    );
    assert_eq!(resolve_url("a/b", "/c"), "a/b/c");
}

#[test]
fn resolve_relative() {
    assert_eq!(
        resolve_url("https://host.com/a/b/index.m3u8", "seg1.ts?t=1"),
        "https://host.com/a/b/seg1.ts?t=1"
    );
    assert_eq!(resolve_url("index.m3u8", "a.ts"), "index.m3u8/a.ts");
}

#[test]
fn resolve_is_idempotent_for_http_bases() {
    let base = "https://host.com/a/b/index.m3u8";
    for rel in ["seg.ts", "/root.ts", "http://x/y.ts", "../up.ts", "", "http_seg0.ts"] {
        let once = resolve_url(base, rel);
        assert!(once.starts_with("http://") || once.starts_with("https://"));
        assert_eq!(resolve_url(base, &once), once);
    }
}

#[test]
fn resolve_name_starting_with_http_is_relative() {
    assert_eq!(
        resolve_url("https://example.com/v/index.m3u8", "http_seg0.ts"),
        "https://example.com/v/http_seg0.ts"
    );
    assert_eq!(
        resolve_url("https://example.com/v/index.m3u8", "https:/x.ts"),
        "https://example.com/v/https:/x.ts"
    );
    assert_eq!(
        resolve_url("http://a.com/x/y.m3u8", "http://cdn.net/seg.ts"),
        "http://cdn.net/seg.ts"
    );
    // only the scheme prefix in small letters counts as absolute
    assert_eq!(resolve_url("http://a.com/x/y.m3u8", "HTTP://cdn/s.ts"), "http://a.com/x/HTTP://cdn/s.ts");
}

#[test]
fn resolve_against_a_bare_host() {
    assert_eq!(resolve_url("https://host", "a.ts"), "https://a.ts");
    assert_eq!(resolve_url("https://host", "/a.ts"), "https://host/a.ts");
}
