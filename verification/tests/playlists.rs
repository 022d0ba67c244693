use m3u8_download::playlist::{
    build_segments, is_master_playlist, plan_media_playlist, select_best_variant,
    MasterPlaylistError, PlanStep,
};
use m3u8_download::key_line::KeyLineError;
use m3u8_download::validate::{validate_m3u8_response, PlaylistResponseError};

const MASTER: &str = "#EXTM3U\n\
#EXT-X-STREAM-INF:PROGRAM-ID=1,BANDWIDTH=800000,RESOLUTION=640x360\n\
low/index.m3u8\n\
#EXT-X-STREAM-INF:PROGRAM-ID=1,BANDWIDTH=2000000\r\n\
high/index.m3u8\r\n\
#EXT-X-STREAM-INF:PROGRAM-ID=1,BANDWIDTH=2000000\n\
other/index.m3u8\n";

#[test]
fn master_detection() {
    assert!(is_master_playlist(MASTER));
    assert!(!is_master_playlist("#EXTM3U\n#EXTINF:10,\nseg0.ts\n"));
    // an indented tag does not count
    assert!(!is_master_playlist("#EXTM3U\n  #EXT-X-STREAM-INF:BANDWIDTH=1\nx.m3u8"));
}

#[test]
fn best_variant_is_highest_and_first() {
    let (bw, url) = select_best_variant(MASTER, "https://h.com/v/master.m3u8").unwrap();
    assert_eq!(bw, 2000000);
    assert_eq!(url, "https://h.com/v/high/index.m3u8");
}

#[test]
fn bandwidth_first_in_the_attribute_list() {
    let text = "#EXTM3U\n#EXT-X-STREAM-INF:BANDWIDTH=800000\nlow.m3u8\n#EXT-X-STREAM-INF:BANDWIDTH=2000000\nhigh.m3u8";
    let (bw, url) = select_best_variant(text, "https://e.com/v/master.m3u8").unwrap();
    assert_eq!(bw, 2000000);
    assert_eq!(url, "https://e.com/v/high.m3u8");
}

#[test]
fn no_variant_without_a_positive_bandwidth() {
    let text = "#EXTM3U\n#EXT-X-STREAM-INF:BANDWIDTH=0\nzero.m3u8\n#EXT-X-STREAM-INF:RESOLUTION=1x1\nnone.m3u8\n";
    assert_eq!(
        select_best_variant(text, "https://h.com/m.m3u8"),
        Err(MasterPlaylistError::NoVariant)
    );
}

#[test]
fn unreadable_bandwidth_counts_as_zero() {
    let text = "#EXTM3U\n#EXT-X-STREAM-INF:A=1, BANDWIDTH=12x\nbad.m3u8\n#EXT-X-STREAM-INF:A=1, BANDWIDTH=+5 \ngood.m3u8\n";
    let (bw, url) = select_best_variant(text, "https://h.com/m.m3u8").unwrap();
    assert_eq!(bw, 5);
    assert_eq!(url, "https://h.com/good.m3u8");
}

const MEDIA: &str = "#EXTM3U\n\
#EXT-X-KEY:METHOD=AES-128,URI=\"key.key\",IV=0x00000000000000000000000000000001\n\
#EXTINF:10,\n\
seg0.ts\n\
#EXTINF:10,\n\
  seg1.ts?token=abc  \n\
#EXT-X-KEY:METHOD=NONE\n\
/abs/seg2.ts\n\
#EXT-X-ENDLIST\n";

#[test]
fn media_plan_steps() {
    let plan = plan_media_playlist(MEDIA, "https://h.com/v/index.m3u8", "/tmp/dl");
    assert_eq!(plan.error, None);
    assert_eq!(plan.steps.len(), 5);
    match &plan.steps[0] {
        PlanStep::UseKey { key_url, iv } => {
            assert_eq!(key_url, "https://h.com/v/key.key");
            let mut expected = vec![0u8; 16];
            expected[15] = 1;
            assert_eq!(iv.as_ref(), Some(&expected));
        }
        other => panic!("unexpected {:?}", other),
    }
    match &plan.steps[1] {
        PlanStep::Segment { index, url, path } => {
            assert_eq!(*index, 0);
            assert_eq!(url, "https://h.com/v/seg0.ts");
            assert_eq!(path, "/tmp/dl/part_0.ts");
        }
        other => panic!("unexpected {:?}", other),
    }
    match &plan.steps[2] {
        PlanStep::Segment { index, url, path } => {
            assert_eq!(*index, 1);
            assert_eq!(url, "https://h.com/v/seg1.ts?token=abc");
            assert_eq!(path, "/tmp/dl/part_1.ts");
        }
        other => panic!("unexpected {:?}", other),
    }
    assert!(matches!(plan.steps[3], PlanStep::ClearKey));
    match &plan.steps[4] {
        PlanStep::Segment { index, url, path } => {
            assert_eq!(*index, 2);
            assert_eq!(url, "https://h.com/abs/seg2.ts");
            assert_eq!(path, "/tmp/dl/part_2.ts");
        }
        other => panic!("unexpected {:?}", other),
    }
}

#[test]
fn media_plan_iv_prefix_in_either_case() {
    let mut expected = vec![0u8; 16];
    expected[15] = 1;
    for prefix in ["0x", "0X", ""] {
        let text = format!(
            "#EXT-X-KEY:METHOD=aes-128,URI=k,IV={}00000000000000000000000000000001\nx.ts\n",
            prefix
        );
        let plan = plan_media_playlist(&text, "https://h.com/i.m3u8", "d");
        match &plan.steps[0] {
            PlanStep::UseKey { key_url, iv } => {
                assert_eq!(key_url, "https://h.com/k");
                assert_eq!(iv.as_ref(), Some(&expected));
            }
            other => panic!("unexpected {:?}", other),
        }
    }
}

#[test]
fn media_plan_long_s_method() {
    // str::to_uppercase maps U+017F to 'S'
    assert_eq!("ae\u{17f}-128".to_uppercase(), "AES-128");
    let text = "#EXT-X-KEY:METHOD=ae\u{17f}-128,URI=k\nx.ts\n";
    let plan = plan_media_playlist(text, "https://h.com/i.m3u8", "d");
    assert!(matches!(plan.steps[0], PlanStep::UseKey { .. }));
    let text = "#EXT-X-KEY:METHOD=SAMPLE-AES,URI=k\nx.ts\n";
    let plan = plan_media_playlist(text, "https://h.com/i.m3u8", "d");
    assert!(matches!(plan.steps[0], PlanStep::ClearKey));
}

#[test]
fn media_plan_stops_at_malformed_key() {
    let text = "a.ts\n#EXT-X-KEY:METHOD\nb.ts\n";
    let plan = plan_media_playlist(text, "https://h.com/i.m3u8", "d");
    assert_eq!(plan.error, Some(KeyLineError::InvalidKeyLine));
    assert_eq!(plan.steps.len(), 1);
}

#[test]
fn media_plan_ignores_other_lines() {
    let text = "#EXTINF:1,\n#comment.ts\nvideo.mp4\n\n";
    let plan = plan_media_playlist(text, "https://h.com/i.m3u8", "d");
    assert_eq!(plan.error, None);
    assert!(plan.steps.is_empty());
}

#[test]
fn segments_take_the_key_in_force() {
    let plan = plan_media_playlist(MEDIA, "https://h.com/v/index.m3u8", "/tmp/dl");
    let key = vec![7u8; 16];
    let segs = build_segments(&plan.steps, &vec![key.clone()]);
    assert_eq!(segs.len(), 3);
    for (k, s) in segs.iter().enumerate() {
        assert_eq!(s.index, k);
        assert_eq!(s.path, format!("/tmp/dl/part_{}.ts", k));
    }
    assert_eq!(segs[0].encryption.as_ref().map(|e| e.key.clone()), Some(key.clone()));
    assert_eq!(segs[1].encryption.as_ref().map(|e| e.key.clone()), Some(key));
    assert!(segs[2].encryption.is_none());
}

#[test]
fn response_status_errors() {
    assert!(matches!(validate_m3u8_response(403, "#EXTM3U", None), Err(PlaylistResponseError::Forbidden)));
    assert!(matches!(validate_m3u8_response(404, "#EXTM3U", None), Err(PlaylistResponseError::NotFound)));
    assert!(matches!(validate_m3u8_response(500, "#EXTM3U", None), Err(PlaylistResponseError::Status(500))));
    assert!(matches!(validate_m3u8_response(199, "#EXTM3U", None), Err(PlaylistResponseError::Status(199))));
}

#[test]
fn response_content_type() {
    match validate_m3u8_response(200, "#EXTM3U", Some("video/mp4")) {
        Err(PlaylistResponseError::ContentType(ct)) => assert_eq!(ct, "video/mp4"),
        other => panic!("unexpected {:?}", other),
    }
    assert!(validate_m3u8_response(200, "#EXTM3U", Some("Application/VND.Apple.MPEGURL")).is_ok());
    assert!(validate_m3u8_response(204, "#EXTM3U", Some("APPLICATION/OCTET-STREAM")).is_ok());
    assert!(validate_m3u8_response(299, "#EXTM3U", Some("text/html")).is_ok());
    // U+0130 lower-cases to "i" and a combining dot, so no "plain" appears
    assert!(!"PLA\u{130}N".to_lowercase().contains("plain"));
    assert!(validate_m3u8_response(200, "#EXTM3U", Some("PLA\u{130}N")).is_err());
}

#[test]
fn response_body_header() {
    assert!(validate_m3u8_response(200, " \r\n\t#EXTM3U\n", None).is_ok());
    assert!(matches!(
        validate_m3u8_response(200, "<html>", Some("text/plain")),
        Err(PlaylistResponseError::MissingHeader)
    ));
    assert!(matches!(
        validate_m3u8_response(200, "#extm3u", None),
        Err(PlaylistResponseError::MissingHeader)
    ));
}

#[test]
fn leading_white_space_is_unicode_white_space() {
    for u in 0u32..0x3100 {
        if let Some(c) = char::from_u32(u) {
            let text = format!("{}#EXTM3U", c);
            assert_eq!(
                validate_m3u8_response(200, &text, None).is_ok(),
                c.is_whitespace(),
                "U+{:04X}",
                u
            );
        }
    }
}
