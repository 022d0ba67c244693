use m3u8_download::resume::{
    backoff_delay_millis, check_segment_count, completed_segments, manifest_entries,
    manifest_line, next_after_attempt, next_after_round, resume_state, should_attempt,
    should_merge, AttemptNext, DownloadError, ResumeState, RoundNext, MAX_ROUNDS,
    MAX_SEGMENT_ATTEMPTS,
};

fn names(ns: &[&str]) -> Vec<Option<String>> {
    ns.iter().map(|n| Some(n.to_string())).collect()
}
use m3u8_download::segment::DownloadResult;

#[test]
fn manifest_lines_are_read_as_written() {
    let text = "part_0.ts\npart_1.ts\r\n\n   \npart_2.ts \npart_3.ts\r";
    assert_eq!(
        manifest_entries(text),
        vec!["part_0.ts", "part_1.ts", "part_2.ts ", "part_3.ts\r"]
    );
    let segs = names(&["part_0.ts", "part_1.ts", "part_2.ts", "part_3.ts"]);
    // part_2.ts and part_3.ts were recorded with stray characters
    assert_eq!(completed_segments(text, &segs), 2);
    assert_eq!(completed_segments("", &segs), 0);
}

#[test]
fn a_name_recorded_twice_counts_once() {
    let segs = names(&["part_0.ts", "part_1.ts"]);
    let text = "part_0.ts\npart_0.ts\n";
    assert_eq!(completed_segments(text, &segs), 1);
    assert_eq!(
        next_after_round(false, completed_segments(text, &segs), segs.len(), 0),
        RoundNext::Retry { failed_rounds: 1 }
    );
    let text = "part_0.ts\nother.ts\npart_1.ts\n";
    assert_eq!(completed_segments(text, &segs), 2);
    assert_eq!(
        next_after_round(false, completed_segments(text, &segs), segs.len(), 0),
        RoundNext::Complete
    );
}

#[test]
fn unnamed_segments_never_count() {
    let segs = vec![None, Some("part_1.ts".to_string())];
    assert_eq!(completed_segments("part_1.ts\n", &segs), 1);
}

#[test]
fn attempt_and_merge_gates() {
    assert!(should_attempt(false, 1));
    assert!(should_attempt(false, MAX_SEGMENT_ATTEMPTS));
    assert!(!should_attempt(false, MAX_SEGMENT_ATTEMPTS + 1));
    assert!(!should_attempt(true, 1));
    assert!(should_merge(false));
    assert!(!should_merge(true));
    assert_eq!(check_segment_count(0), Err(DownloadError::NoSegments));
    assert_eq!(check_segment_count(3), Ok(()));
}

#[test]
fn manifest_roundtrip() {
    let names = ["part_0.ts", "part_10.ts", "part_2.ts"];
    let text: String = names.iter().map(|n| manifest_line(n)).collect();
    assert_eq!(text, "part_0.ts\npart_10.ts\npart_2.ts\n");
    assert_eq!(manifest_entries(&text), names.to_vec());
    let segs: Vec<Option<String>> = names.iter().map(|n| Some(n.to_string())).collect();
    assert_eq!(completed_segments(&text, &segs), names.len());
}

#[test]
fn resume_states() {
    let done = vec!["part_0.ts".to_string(), "part_1.ts".to_string()];
    assert_eq!(resume_state(None, &done, Some(10)), ResumeState::Unnamed);
    assert_eq!(resume_state(Some("part_0.ts"), &done, Some(10)), ResumeState::AlreadyDone(10));
    assert_eq!(resume_state(Some("part_1.ts"), &done, Some(0)), ResumeState::Pending);
    assert_eq!(resume_state(Some("part_1.ts"), &done, None), ResumeState::Pending);
    assert_eq!(resume_state(Some("part_2.ts"), &done, Some(10)), ResumeState::Pending);
}

#[test]
fn attempts() {
    let ok = DownloadResult::Success("f".to_string());
    let empty = DownloadResult::Skipped("u".to_string());
    let cancelled = DownloadResult::Cancelled("u".to_string());
    assert_eq!(next_after_attempt(3, Some(&ok)), AttemptNext::Record);
    assert_eq!(next_after_attempt(15, Some(&cancelled)), AttemptNext::Stop);
    assert_eq!(next_after_attempt(1, None), AttemptNext::Retry { base_delay_secs: 1 });
    assert_eq!(next_after_attempt(2, Some(&empty)), AttemptNext::Retry { base_delay_secs: 2 });
    assert_eq!(next_after_attempt(4, None), AttemptNext::Retry { base_delay_secs: 8 });
    assert_eq!(next_after_attempt(5, None), AttemptNext::Retry { base_delay_secs: 10 });
    assert_eq!(next_after_attempt(14, Some(&empty)), AttemptNext::Retry { base_delay_secs: 10 });
    assert_eq!(next_after_attempt(MAX_SEGMENT_ATTEMPTS, None), AttemptNext::GiveUp);
    assert_eq!(next_after_attempt(MAX_SEGMENT_ATTEMPTS, Some(&empty)), AttemptNext::GiveUp);
}

#[test]
fn backoff_never_shrinks() {
    let mut last = 0;
    for a in 1..MAX_SEGMENT_ATTEMPTS {
        match next_after_attempt(a, None) {
            AttemptNext::Retry { base_delay_secs } => {
                assert!(base_delay_secs >= last && base_delay_secs <= 10);
                assert_eq!(base_delay_secs, (1u64 << (a - 1)).min(10));
                last = base_delay_secs;
            }
            other => panic!("unexpected {:?}", other),
        }
    }
}

#[test]
fn backoff_delay_has_jitter_below_a_second() {
    for _ in 0..50 {
        let d = backoff_delay_millis(3);
        assert!((3000..4000).contains(&d));
    }
    assert!(backoff_delay_millis(0) < 1000);
}

#[test]
fn rounds() {
    assert_eq!(next_after_round(true, 10, 10, 0), RoundNext::Cancelled);
    assert_eq!(next_after_round(false, 10, 10, 0), RoundNext::Complete);
    assert_eq!(next_after_round(false, 11, 10, 4), RoundNext::Complete);
    assert_eq!(next_after_round(false, 3, 10, 0), RoundNext::Retry { failed_rounds: 1 });
    assert_eq!(next_after_round(false, 3, 10, 4), RoundNext::GiveUp);
}

#[test]
fn rounds_are_bounded() {
    let mut failed = 0;
    let mut rounds = 0;
    loop {
        rounds += 1;
        match next_after_round(false, 0, 1, failed) {
            RoundNext::Retry { failed_rounds } => failed = failed_rounds,
            RoundNext::GiveUp => break,
            other => panic!("unexpected {:?}", other),
        }
    }
    assert_eq!(rounds, MAX_ROUNDS);
}
