use transit_monitor::Announcement;
use transit_monitor::ExtractError;
use transit_monitor::Timestamp;
use transit_monitor::extract_announcements;

fn ts(secs: i64, nanos: u32, offset_secs: i32) -> Timestamp {
    Timestamp { secs, nanos, offset_secs }
}

#[test]
fn extract_single_item() {
    let markup = "<html><body>\
<div class=\"related-teaser__content\">\
<a href=\"/wrap\">wrapper</a>\
<a href=\"/a\">details</a>\
<time datetime=\"2024-01-01T10:00:00+01:00\">Jan 1</time>\
<p> A &amp; B </p>\
</div>\
</body></html>";
    let got = extract_announcements(markup).unwrap();
    assert_eq!(got.len(), 1);
    assert_eq!(got[0].content, "A & B");
    assert_eq!(got[0].link, "/a");
    assert_eq!(got[0].datetime, ts(1704099600, 0, 3600));
}

#[test]
fn extract_skips_first_anchor() {
    let markup = "<div class=\"related-teaser__content\">\
<a href=\"/only\">one anchor</a>\
<time datetime=\"2024-01-01T10:00:00+01:00\">x</time>\
<p>t</p>\
</div>";
    let got = extract_announcements(markup).unwrap();
    assert_eq!(got.len(), 1);
    assert_eq!(got[0].link, "");
}

#[test]
fn extract_anchor_without_href_is_passed_over() {
    let markup = "<div class=\"related-teaser__content\">\
<a href=\"/wrap\">w</a>\
<a href=\"/kept\">k</a>\
<a name=\"x\">no href</a>\
</div>";
    let got = extract_announcements(markup).unwrap();
    assert_eq!(got.len(), 1);
    assert_eq!(got[0].link, "/kept");
}

#[test]
fn extract_last_paragraph_wins() {
    let markup = "<div class=\"related-teaser__content\">\
<p>first</p>\
<p>second</p>\
</div>";
    let got = extract_announcements(markup).unwrap();
    assert_eq!(got.len(), 1);
    assert_eq!(got[0].content, "second");
}

#[test]
fn extract_last_time_wins() {
    let markup = "<div class=\"related-teaser__content\">\
<time datetime=\"2024-01-01T10:00:00+01:00\">a</time>\
<time datetime=\"2024-02-03T04:05:06+00:00\">b</time>\
</div>";
    let got = extract_announcements(markup).unwrap();
    assert_eq!(got.len(), 1);
    assert_eq!(got[0].datetime, ts(1706933106, 0, 0));
}

#[test]
fn extract_malformed_timestamp_fails() {
    let markup = "<div class=\"related-teaser__content\">\
<time datetime=\"yesterday\">bad</time>\
</div>";
    let got = extract_announcements(markup);
    assert_eq!(got, Err(ExtractError::MalformedTimestamp));
}

#[test]
fn extract_malformed_timestamp_fails_even_when_a_later_one_parses() {
    let markup = "<div class=\"related-teaser__content\">\
<time datetime=\"nonsense\">bad</time>\
<time datetime=\"2024-01-01T10:00:00+01:00\">good</time>\
</div>";
    let got = extract_announcements(markup);
    assert_eq!(got, Err(ExtractError::MalformedTimestamp));
}

#[test]
fn extract_missing_fields_leave_defaults() {
    let markup = "<div class=\"related-teaser__content\"><span>nothing</span></div>";
    let got = extract_announcements(markup).unwrap();
    assert_eq!(got.len(), 1);
    let want = Announcement {
        content: String::new(),
        link: String::new(),
        datetime: ts(0, 0, 0),
    };
    assert_eq!(got[0], want);
}

#[test]
fn extract_time_without_attribute_leaves_epoch() {
    let markup = "<div class=\"related-teaser__content\">\
<time>no attribute</time>\
</div>";
    let got = extract_announcements(markup).unwrap();
    assert_eq!(got.len(), 1);
    assert_eq!(got[0].datetime, ts(0, 0, 0));
}

#[test]
fn extract_no_containers_yields_empty() {
    let markup = "<html><body><div class=\"other\"><p>x</p></div></body></html>";
    let got = extract_announcements(markup).unwrap();
    assert_eq!(got.len(), 0);
}

#[test]
fn extract_keeps_document_order() {
    let markup = "<div class=\"related-teaser__content\">\
<time datetime=\"2024-03-01T00:00:00+00:00\">later</time><p>late</p></div>\
<div class=\"related-teaser__content\">\
<time datetime=\"2024-01-01T00:00:00+00:00\">earlier</time><p>early</p></div>";
    let got = extract_announcements(markup).unwrap();
    assert_eq!(got.len(), 2);
    assert_eq!(got[0].content, "late");
    assert_eq!(got[1].content, "early");
}

#[test]
fn extract_is_deterministic() {
    let markup = "<div class=\"related-teaser__content\">\
<a href=\"/w\">w</a><a href=\"/a\">a</a>\
<time datetime=\"2024-01-01T10:00:00+01:00\">t</time>\
<p>body &lt;1&gt;</p>\
</div>";
    let once = extract_announcements(markup).unwrap();
    let twice = extract_announcements(markup).unwrap();
    assert_eq!(once, twice);
    assert_eq!(once[0].content, "body <1>");
}

#[test]
fn extract_fractional_seconds_and_negative_offset() {
    let markup = "<div class=\"related-teaser__content\">\
<time datetime=\"1996-12-19T16:39:57.250-08:00\">t</time>\
</div>";
    let got = extract_announcements(markup).unwrap();
    assert_eq!(got.len(), 1);
    assert_eq!(got[0].datetime, ts(851042397, 250000000, -28800));
}
