use transit_monitor::Announcement;
use transit_monitor::Timestamp;
use transit_monitor::dedup_by_datetime;
use transit_monitor::merge_announcements;
use transit_monitor::novel_announcements;
use transit_monitor::plan_run;
use transit_monitor::reconcile;
use transit_monitor::sort_by_datetime;

fn ann(secs: i64, content: &str, link: &str) -> Announcement {
    Announcement {
        content: content.to_string(),
        link: link.to_string(),
        datetime: Timestamp { secs, nanos: 0, offset_secs: 3600 },
    }
}

#[test]
fn identity_ignores_content_and_link() {
    let a = ann(100, "one text", "/one");
    let b = ann(100, "another text", "/two");
    let c = ann(200, "one text", "/one");
    assert!(a.same_identity(&b));
    assert!(!a.same_identity(&c));
}

#[test]
fn identity_compares_the_whole_instant() {
    let a = ann(100, "x", "/x");
    let mut b = ann(100, "x", "/x");
    b.datetime.nanos = 5;
    assert!(!a.same_identity(&b));
    let mut c = ann(100, "y", "/y");
    c.datetime.offset_secs = 0;
    assert!(a.same_identity(&c));
}

#[test]
fn sort_orders_by_datetime() {
    let v = vec![ann(300, "c", "/c"), ann(100, "a", "/a"), ann(200, "b", "/b")];
    let sorted = sort_by_datetime(v);
    let want = vec![ann(100, "a", "/a"), ann(200, "b", "/b"), ann(300, "c", "/c")];
    assert_eq!(sorted, want);
}

#[test]
fn sort_is_stable_for_equal_datetimes() {
    let v = vec![ann(200, "first", "/1"), ann(100, "x", "/x"), ann(200, "second", "/2")];
    let sorted = sort_by_datetime(v);
    let want = vec![ann(100, "x", "/x"), ann(200, "first", "/1"), ann(200, "second", "/2")];
    assert_eq!(sorted, want);
}

#[test]
fn dedup_keeps_first_of_each_run() {
    let v = vec![
        ann(100, "keep", "/k"),
        ann(100, "drop", "/d"),
        ann(200, "keep too", "/k2"),
    ];
    let got = dedup_by_datetime(v);
    let want = vec![ann(100, "keep", "/k"), ann(200, "keep too", "/k2")];
    assert_eq!(got, want);
}

#[test]
fn merge_is_idempotent() {
    let known = vec![ann(100, "a", "/a"), ann(200, "b", "/b")];
    let merged = merge_announcements(known.clone(), known.clone());
    assert_eq!(merged, known);
}

#[test]
fn merge_keeps_stored_record_on_equal_datetime() {
    let x = ann(100, "stored text", "/stored");
    let y = ann(100, "fetched text", "/fetched");
    let merged = merge_announcements(vec![x.clone()], vec![y]);
    assert_eq!(merged, vec![x]);
}

#[test]
fn merge_result_is_sorted_and_deduplicated() {
    let known = vec![ann(300, "c", "/c"), ann(100, "a", "/a")];
    let current = vec![ann(200, "b", "/b"), ann(100, "a again", "/a2")];
    let merged = merge_announcements(known, current);
    let want = vec![ann(100, "a", "/a"), ann(200, "b", "/b"), ann(300, "c", "/c")];
    assert_eq!(merged, want);
}

#[test]
fn novelty_is_everything_when_disjoint() {
    let known = vec![ann(100, "a", "/a")];
    let current = vec![ann(200, "b", "/b"), ann(300, "c", "/c")];
    let novel = novel_announcements(&current, &known);
    assert_eq!(novel, current);
}

#[test]
fn novelty_is_empty_when_all_known() {
    let known = vec![ann(100, "a", "/a"), ann(200, "b", "/b")];
    let current = vec![ann(200, "b reworded", "/b2"), ann(100, "a reworded", "/a2")];
    let novel = novel_announcements(&current, &known);
    assert_eq!(novel, Vec::new());
}

#[test]
fn novelty_keeps_current_order_and_repeats() {
    let known = vec![ann(100, "a", "/a")];
    let current = vec![
        ann(300, "late", "/l"),
        ann(100, "a", "/a"),
        ann(200, "early", "/e"),
    ];
    let novel = novel_announcements(&current, &known);
    assert_eq!(novel, vec![ann(300, "late", "/l"), ann(200, "early", "/e")]);
}

#[test]
fn novelty_reports_each_fresh_entry_even_with_equal_datetimes() {
    let known = vec![ann(100, "a", "/a")];
    let current = vec![ann(200, "first wording", "/1"), ann(200, "second wording", "/2")];
    let novel = novel_announcements(&current, &known);
    assert_eq!(novel, current);
    let merged = merge_announcements(known, current);
    let want = vec![ann(100, "a", "/a"), ann(200, "first wording", "/1")];
    assert_eq!(merged, want);
}

#[test]
fn reconcile_reports_and_merges() {
    let known = vec![ann(100, "a", "/a")];
    let current = vec![ann(100, "a", "/a"), ann(200, "b", "/b")];
    let plan = reconcile(known, current);
    assert_eq!(plan.novel, vec![ann(200, "b", "/b")]);
    assert_eq!(plan.store, vec![ann(100, "a", "/a"), ann(200, "b", "/b")]);
    assert!(plan.found_novelty());
}

#[test]
fn bootstrap_run_is_silent() {
    let fetched = vec![ann(200, "b", "/b"), ann(100, "a", "/a")];
    let plan = plan_run(None, fetched);
    assert_eq!(plan.novel, Vec::new());
    assert!(!plan.found_novelty());
    assert_eq!(plan.store, vec![ann(100, "a", "/a"), ann(200, "b", "/b")]);
}

#[test]
fn run_with_nothing_new_is_distinguished() {
    let known = vec![ann(100, "a", "/a")];
    let current = vec![ann(100, "a", "/a")];
    let plan = plan_run(Some(known.clone()), current);
    assert!(!plan.found_novelty());
    assert_eq!(plan.store, known);
}

#[test]
fn end_to_end_scenario() {
    let a = Announcement {
        content: "A".to_string(),
        link: "/a".to_string(),
        datetime: Timestamp { secs: 1704099600, nanos: 0, offset_secs: 3600 },
    };
    let b = Announcement {
        content: "B".to_string(),
        link: "/b".to_string(),
        datetime: Timestamp { secs: 1704182400, nanos: 0, offset_secs: 3600 },
    };
    let stored = vec![a.clone()];
    let fetched = vec![a.clone(), b.clone()];
    let plan = plan_run(Some(stored), fetched);
    assert_eq!(plan.novel, vec![b.clone()]);
    assert_eq!(plan.store, vec![a, b]);
    assert!(plan.found_novelty());
}
