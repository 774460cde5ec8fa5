use domain_searcher::api::{
    fmt_duration, human_bytes, json_body, parse_domain_path, stats_remaining, text_body,
};
use domain_searcher::normalize_cap;
use domain_searcher::progress::Progress;
use domain_searcher::resume::{
    apply_resume, cursor_of, make_resume_state, parse_resume_state, serialize_resume_state,
    should_save, ResumeState,
};

fn snapshot() -> ResumeState {
    ResumeState {
        last_domain: "ab.io".to_string(),
        updated_at_unix: 1700000000,
        enqueued: 10,
        checked: 8,
        found: 2,
        total_planned: 100,
    }
}

#[test]
fn snapshot_serializes_canonically() {
    let s = serialize_resume_state(&snapshot());
    let mut expect = String::from("{\"last_domain\":\"ab.io\",\"updated_at_unix\":1700000000,");
    expect.push_str("\"enqueued\":10,\"checked\":8,\"found\":2,\"total_planned\":100}");
    assert_eq!(s, expect);
}

#[test]
fn snapshot_round_trips() {
    let st = snapshot();
    let text = serialize_resume_state(&st);
    let back = parse_resume_state(&text).expect("canonical text parses");
    assert_eq!(back.last_domain, st.last_domain);
    assert_eq!(back.updated_at_unix, st.updated_at_unix);
    assert_eq!(back.enqueued, st.enqueued);
    assert_eq!(back.checked, st.checked);
    assert_eq!(back.found, st.found);
    assert_eq!(back.total_planned, st.total_planned);
}

#[test]
fn negative_counters_round_trip() {
    let mut st = snapshot();
    st.enqueued = -3;
    st.total_planned = i64::MIN;
    let text = serialize_resume_state(&st);
    let back = parse_resume_state(&text).expect("canonical text parses");
    assert_eq!(back.enqueued, -3);
    assert_eq!(back.total_planned, i64::MIN);
}

#[test]
fn escaped_domains_round_trip() {
    let mut st = snapshot();
    st.last_domain = "a\"b\\c\u{1}.io".to_string();
    let text = serialize_resume_state(&st);
    let back = parse_resume_state(&text).expect("canonical text parses");
    assert_eq!(back.last_domain, st.last_domain);
}

#[test]
fn damaged_snapshots_read_as_absent() {
    assert!(parse_resume_state("").is_none());
    assert!(parse_resume_state("not json").is_none());
    assert!(parse_resume_state("{\"last_domain\":\"a.io\"}").is_none());
    let text = serialize_resume_state(&snapshot());
    let cut = &text[..text.len() - 1];
    assert!(parse_resume_state(cut).is_none());
}

#[test]
fn saver_writes_only_new_nonempty_cursors() {
    assert!(should_save("ab.io", ""));
    assert!(should_save("ab.io", "aa.io"));
    assert!(!should_save("ab.io", "ab.io"));
    assert!(!should_save("", "aa.io"));
}

#[test]
fn snapshot_builder_trims_the_cursor() {
    let mut p = Progress::new(7);
    p.inc_enqueued();
    let st = make_resume_state(" ab.io ", 42, &p);
    assert_eq!(st.last_domain, "ab.io");
    assert_eq!(st.updated_at_unix, 42);
    assert_eq!(st.enqueued, 1);
    assert_eq!(st.total_planned, 7);
    assert_eq!(cursor_of(&st), "ab.io");
}

#[test]
fn resume_seeds_counters() {
    let mut p = Progress::new(50);
    apply_resume(&mut p, &snapshot());
    assert_eq!(p.snapshot(), (10, 8, 2));
    assert_eq!(p.total_planned(), 100);
}

#[test]
fn resume_keeps_configured_plan_when_snapshot_has_none() {
    let mut p = Progress::new(50);
    let mut st = snapshot();
    st.total_planned = 0;
    apply_resume(&mut p, &st);
    assert_eq!(p.total_planned(), 50);
}

#[test]
fn empty_snapshot_changes_nothing() {
    let mut p = Progress::new(50);
    let st = ResumeState {
        last_domain: "x.io".to_string(),
        updated_at_unix: 1,
        enqueued: 0,
        checked: 0,
        found: 0,
        total_planned: 0,
    };
    apply_resume(&mut p, &st);
    assert_eq!(p.snapshot(), (0, 0, 0));
    assert_eq!(p.total_planned(), 50);
}

#[test]
fn durations_format_like_the_stats_page() {
    assert_eq!(fmt_duration(59), "00:59");
    assert_eq!(fmt_duration(3599), "59:59");
    assert_eq!(fmt_duration(3600), "1:00:00");
    assert_eq!(fmt_duration(90061), "1d 01:01:01");
    assert_eq!(fmt_duration(0), "00:00");
}

#[test]
fn byte_counts_format_for_people() {
    assert_eq!(human_bytes(0), "0B");
    assert_eq!(human_bytes(500), "500B");
    assert_eq!(human_bytes(1024), "1.0KiB");
    assert_eq!(human_bytes(1536), "1.5KiB");
    assert_eq!(human_bytes(1048576), "1.0MiB");
    assert_eq!(human_bytes(u64::MAX), "16.0EiB");
}

#[test]
fn remaining_work() {
    assert_eq!(stats_remaining(0, 5), -1);
    assert_eq!(stats_remaining(10, 3), 7);
    assert_eq!(stats_remaining(10, 15), 0);
}

#[test]
fn domain_paths_parse() {
    assert_eq!(parse_domain_path("ru.txt"), Some(("ru".to_string(), "txt".to_string())));
    assert_eq!(
        parse_domain_path("__all__.json"),
        Some(("__all__".to_string(), "json".to_string()))
    );
    assert_eq!(parse_domain_path("A.TXT"), Some(("a".to_string(), "txt".to_string())));
    assert_eq!(parse_domain_path("a/b.txt"), None);
    assert_eq!(parse_domain_path(".txt"), None);
    assert_eq!(parse_domain_path("a."), None);
    assert_eq!(parse_domain_path("plain"), None);
    assert_eq!(parse_domain_path(""), None);
}

#[test]
fn listing_bodies() {
    let items = vec!["a.io".to_string(), "b.io".to_string()];
    assert_eq!(text_body(&items), "a.io\nb.io\n");
    assert_eq!(text_body(&Vec::new()), "\n");
    assert_eq!(json_body(&items), "[\"a.io\",\"b.io\"]");
    assert_eq!(json_body(&Vec::new()), "[]");
    let tricky = vec!["a\"b".to_string()];
    assert_eq!(json_body(&tricky), "[\"a\\\"b\"]");
}

#[test]
fn caps_normalize() {
    assert_eq!(normalize_cap(-7), 0);
    assert_eq!(normalize_cap(0), 0);
    assert_eq!(normalize_cap(9), 9);
}
