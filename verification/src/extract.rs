//! Extraction of announcement records from the source page's markup.
//!
//! The markup is turned into plain per-container data (anchor hrefs, time
//! attributes, paragraph bodies) by a trusted traversal, and the verified
//! logic builds one announcement per container: the href of the anchors
//! after the first (the first is a decorative permalink wrapper — a
//! deliberate, documented heuristic about the source page), the parsed
//! timestamp of the last machine-readable time attribute, and the last
//! paragraph's body, trimmed and entity-decoded. A missing sub-element
//! leaves the documented default (empty string, epoch-zero timestamp); a
//! present but malformed timestamp aborts the whole extraction.

use vstd::prelude::*;

use crate::announcement::Announcement;
use crate::announcement::Timestamp;

verus! {

/// The plain data read from one announcement container, in document order.
pub struct RawItem {
    /// The `href` attribute of each anchor element, `None` where absent.
    pub links: Vec<Option<String>>,
    /// The machine-readable timestamp attribute of each time element,
    /// `None` where absent.
    pub times: Vec<Option<String>>,
    /// The inner markup of each paragraph element.
    pub texts: Vec<String>,
}

/// The mathematical shape of one container's data.
pub ghost struct RawItemView {
    pub links: Seq<Option<Seq<char>>>,
    pub times: Seq<Option<Seq<char>>>,
    pub texts: Seq<Seq<char>>,
}

/// The view of one optional attribute value.
pub open spec fn opt_str_view(o: Option<String>) -> Option<Seq<char>> {
    match o {
        Some(s) => Some(s@),
        None => None,
    }
}

/// The views of a sequence of optional attribute values.
pub open spec fn opts_view(v: Seq<Option<String>>) -> Seq<Option<Seq<char>>> {
    v.map_values(|o: Option<String>| opt_str_view(o))
}

impl View for RawItem {
    type V = RawItemView;

    open spec fn view(&self) -> RawItemView {
        RawItemView {
            links: opts_view(self.links@),
            times: opts_view(self.times@),
            texts: self.texts@.map_values(|s: String| s@),
        }
    }
}

/// What the source page's markup contains: one entry per announcement
/// container, in document order. The traversal is a pure function of the
/// markup text.
pub uninterp spec fn scraped_items_of(markup: Seq<char>) -> Seq<RawItemView>;

/// What parsing a text as an RFC 3339 timestamp yields: `None` where the
/// text is malformed, else the instant as Unix seconds and subsecond
/// nanoseconds, and the fixed offset from UTC in seconds.
pub uninterp spec fn rfc3339_of(s: Seq<char>) -> Option<(i64, u32, i32)>;

/// What decoding HTML entities in a text yields.
pub uninterp spec fn decoded_entities_of(s: Seq<char>) -> Seq<char>;

/// What trimming leading and trailing whitespace from a text yields.
pub uninterp spec fn trimmed_of(s: Seq<char>) -> Seq<char>;

/// Relies on scraper: `Html::parse_document`, selection of the announcement
/// containers (`div[class="related-teaser__content"]`), and of the `a`,
/// `time` and `p` elements within each, in document order; `attr` and
/// `inner_html` read the matched elements. Parsing and selection are pure
/// functions of the markup text, so the result carries a single name.
/// The selector texts are constant and valid, so `Selector::parse` cannot
/// fail.
#[verifier::external_body]
fn scrape_items(markup: &str) -> (r: Vec<RawItem>)
    ensures
        r@.map_values(|it: RawItem| it@) == scraped_items_of(markup@),
{
    let doc = scraper::Html::parse_document(markup);
    let cont = scraper::Selector::parse("div[class=\"related-teaser__content\"]").unwrap();
    let a_sel = scraper::Selector::parse("a").unwrap();
    let t_sel = scraper::Selector::parse("time").unwrap();
    let p_sel = scraper::Selector::parse("p").unwrap();
    doc.select(&cont).map(
        |el| RawItem {
            links: el.select(&a_sel).map(|a| a.attr("href").map(|s| s.to_string())).collect(),
            times: el.select(&t_sel).map(|t| t.attr("datetime").map(|s| s.to_string())).collect(),
            texts: el.select(&p_sel).map(|p| p.inner_html()).collect(),
        },
    ).collect()
}

/// The error type of chrono's parsing.
#[verifier::external_type_specification]
#[verifier::external_body]
pub struct ExParseError(chrono::format::ParseError);

/// Relies on chrono's `DateTime::parse_from_rfc3339` and the accessors
/// `timestamp`, `timestamp_subsec_nanos` and `FixedOffset::local_minus_utc`:
/// the parse is a pure function of the text; on success the subsecond
/// nanoseconds stay below 2_000_000_000 (a leap second folds into the extra
/// second) and the offset is strictly within one day of UTC (the `FixedOffset`
/// bound).
#[verifier::external_body]
fn parse_rfc3339(s: &str) -> (r: Result<Timestamp, chrono::format::ParseError>)
    ensures
        r is Ok <==> rfc3339_of(s@) is Some,
        r matches Ok(ts) ==> rfc3339_of(s@) == Some((ts.secs, ts.nanos, ts.offset_secs))
            && ts.wf(),
{
    match chrono::DateTime::parse_from_rfc3339(s) {
        Ok(dt) => Ok(
            Timestamp {
                secs: dt.timestamp(),
                nanos: dt.timestamp_subsec_nanos(),
                offset_secs: dt.offset().local_minus_utc(),
            },
        ),
        Err(e) => Err(e),
    }
}

/// Relies on html_escape's `decode_html_entities`: a pure function of the
/// text.
#[verifier::external_body]
fn decode_entities(s: &str) -> (r: String)
    ensures
        r@ == decoded_entities_of(s@),
{
    html_escape::decode_html_entities(s).into_owned()
}

/// Relies on `str::trim` of std: a pure function of the text.
#[verifier::external_body]
fn trim_text(s: &str) -> (r: &str)
    ensures
        r@ == trimmed_of(s@),
{
    s.trim()
}

/// The last present value in a sequence of optional values, or `None` when
/// none is present: within one container, the last match wins.
pub open spec fn last_some(s: Seq<Option<Seq<char>>>) -> Option<Seq<char>>
    decreases s.len(),
{
    if s.len() == 0 {
        None
    } else {
        match s.last() {
            Some(t) => Some(t),
            None => last_some(s.drop_last()),
        }
    }
}

/// The link of a container: the href of the last anchor with one, the first
/// anchor skipped; empty when no such anchor exists.
pub open spec fn link_spec(it: RawItemView) -> Seq<char> {
    if it.links.len() < 1 {
        Seq::empty()
    } else {
        match last_some(it.links.skip(1)) {
            Some(l) => l,
            None => Seq::empty(),
        }
    }
}

/// Every present timestamp attribute of the container parses.
pub open spec fn times_ok(it: RawItemView) -> bool {
    forall|i: int|
        0 <= i < it.times.len() ==> (#[trigger] it.times[i] matches Some(t) ==> rfc3339_of(t)
            is Some)
}

/// The datetime of a container: the parse of the last present timestamp
/// attribute; the epoch when no time element carries one. Meaningful only
/// when every present attribute parses.
pub open spec fn datetime_spec(it: RawItemView) -> Timestamp {
    match last_some(it.times) {
        Some(t) => match rfc3339_of(t) {
            Some(p) => Timestamp { secs: p.0, nanos: p.1, offset_secs: p.2 },
            None => Timestamp { secs: 0, nanos: 0, offset_secs: 0 },
        },
        None => Timestamp { secs: 0, nanos: 0, offset_secs: 0 },
    }
}

/// The content of a container: the last paragraph's body, trimmed and
/// entity-decoded; empty when the container has no paragraph.
pub open spec fn content_spec(it: RawItemView) -> Seq<char> {
    if it.texts.len() == 0 {
        Seq::empty()
    } else {
        decoded_entities_of(trimmed_of(it.texts.last()))
    }
}

/// The announcement built from one container's data.
pub open spec fn announcement_matches(a: Announcement, it: RawItemView) -> bool {
    a.content@ == content_spec(it) && a.link@ == link_spec(it) && a.datetime == datetime_spec(it)
}

/// The record sequence built from a container sequence, in document order.
pub open spec fn extraction_matches(v: Seq<Announcement>, items: Seq<RawItemView>) -> bool {
    v.len() == items.len() && forall|i: int|
        0 <= i < items.len() ==> announcement_matches(v[i], #[trigger] items[i])
}

/// Every container's present timestamp attributes parse.
pub open spec fn all_times_ok(items: Seq<RawItemView>) -> bool {
    forall|i: int| 0 <= i < items.len() ==> times_ok(#[trigger] items[i])
}

/// Extraction failure: a timestamp attribute was present but malformed.
/// Missing sub-elements are not errors; this is.
#[derive(Clone, Copy, Debug, PartialEq, Eq)]
pub enum ExtractError {
    MalformedTimestamp,
}

/// A suffix of absent values does not change the last present one.
proof fn lemma_last_some_none_suffix(t: Seq<Option<Seq<char>>>, m: int)
    requires
        0 <= m <= t.len(),
        forall|i: int| m <= i < t.len() ==> #[trigger] t[i] is None,
    ensures
        last_some(t) == last_some(t.take(m)),
    decreases t.len() - m,
{
    if m < t.len() {
        assert(t.last() is None);
        assert(t.drop_last() =~= t.take(t.len() - 1));
        assert(last_some(t) == last_some(t.take(t.len() - 1)));
        assert forall|i: int| m <= i < t.take(t.len() - 1).len() implies #[trigger] t.take(
            t.len() - 1,
        )[i] is None by {
            assert(t.take(t.len() - 1)[i] == t[i]);
        }
        lemma_last_some_none_suffix(t.take(t.len() - 1), m);
        assert(t.take(t.len() - 1).take(m) =~= t.take(m));
    } else {
        assert(t.take(m) =~= t);
    }
}

/// The last present value among `v[start..]`, cloned out; `None` when every
/// value there is absent.
fn last_present_from(v: &Vec<Option<String>>, start: usize) -> (r: Option<String>)
    requires
        start <= v@.len(),
    ensures
        match r {
            Some(s) => last_some(opts_view(v@).skip(start as int)) == Some(s@),
            None => last_some(opts_view(v@).skip(start as int)) is None,
        },
{
    let ghost t = opts_view(v@).skip(start as int);
    let mut k: usize = v.len();
    while k > start
        invariant
            start <= k <= v@.len(),
            t == opts_view(v@).skip(start as int),
            forall|i: int| k <= i < v@.len() ==> #[trigger] opts_view(v@)[i] is None,
        decreases k,
    {
        match &v[k - 1] {
            Some(s) => {
                proof {
                    assert(forall|i: int| k - start <= i < t.len() ==> #[trigger] t[i] is None);
                    lemma_last_some_none_suffix(t, k - start);
                    assert(t.take(k - start).last() == t[k - start - 1]);
                    assert(t[k - start - 1] == opts_view(v@)[k - 1]);
                    assert(opts_view(v@)[k - 1] == Some(s@));
                }
                return Some(s.clone());
            },
            None => {
                proof {
                    assert(opts_view(v@)[k - 1] is None);
                }
                k = k - 1;
            },
        }
    }
    proof {
        assert(forall|i: int| 0 <= i < t.len() ==> #[trigger] t[i] is None);
        lemma_last_some_none_suffix(t, 0);
        assert(t.take(0) =~= Seq::<Option<Seq<char>>>::empty());
    }
    None
}

/// Build one announcement from one container's data. Fails exactly when a
/// timestamp attribute is present but malformed; a missing link, time or
/// paragraph leaves the documented default.
pub fn build_announcement(item: &RawItem) -> (r: Result<Announcement, ExtractError>)
    ensures
        r matches Ok(a) ==> times_ok(item@) && announcement_matches(a, item@) && a.datetime.wf(),
        r is Err <==> !times_ok(item@),
        r matches Err(e) ==> e == ExtractError::MalformedTimestamp,
{
    let ghost tv = item@.times;
    let mut stamp = Timestamp::epoch();
    let mut j: usize = 0;
    proof {
        assert(tv.take(0) =~= Seq::<Option<Seq<char>>>::empty());
    }
    while j < item.times.len()
        invariant
            j <= item.times@.len(),
            tv == item@.times,
            tv.len() == item.times@.len(),
            forall|i: int|
                0 <= i < j ==> (#[trigger] tv[i] matches Some(t) ==> rfc3339_of(t) is Some),
            match last_some(tv.take(j as int)) {
                Some(t) => rfc3339_of(t) == Some((stamp.secs, stamp.nanos, stamp.offset_secs)),
                None => stamp == (Timestamp { secs: 0, nanos: 0, offset_secs: 0 }),
            },
            stamp.wf(),
        decreases item.times@.len() - j,
    {
        proof {
            assert(tv.take(j + 1).drop_last() =~= tv.take(j as int));
            assert(tv.take(j + 1).last() == tv[j as int]);
            assert(tv[j as int] == opt_str_view(item.times@[j as int]));
        }
        match &item.times[j] {
            Some(t) => {
                match parse_rfc3339(t.as_str()) {
                    Ok(ts) => {
                        stamp = ts;
                    },
                    Err(_) => {
                        proof {
                            assert(tv[j as int] matches Some(x) && rfc3339_of(x) is None);
                        }
                        return Err(ExtractError::MalformedTimestamp);
                    },
                }
            },
            None => {},
        }
        j = j + 1;
    }
    proof {
        assert(tv.take(j as int) =~= tv);
    }
    let link: String = if item.links.len() < 1 {
        String::new()
    } else {
        match last_present_from(&item.links, 1) {
            Some(s) => s,
            None => String::new(),
        }
    };
    let content: String = if item.texts.len() == 0 {
        String::new()
    } else {
        let trimmed = trim_text(item.texts[item.texts.len() - 1].as_str());
        decode_entities(trimmed)
    };
    proof {
        if item.texts@.len() > 0 {
            assert(item@.texts.last() == item.texts@[item.texts@.len() - 1]@);
        }
    }
    Ok(Announcement { content, link, datetime: stamp })
}

/// Extract the announcement sequence from the source page's markup, one
/// record per container, in document order. Fails exactly when some
/// container holds a present but malformed timestamp attribute; markup with
/// no matching container yields the empty sequence.
pub fn extract_announcements(markup: &str) -> (r: Result<Vec<Announcement>, ExtractError>)
    ensures
        r matches Ok(v) ==> extraction_matches(v@, scraped_items_of(markup@)),
        r is Ok <==> all_times_ok(scraped_items_of(markup@)),
        r matches Err(e) ==> e == ExtractError::MalformedTimestamp,
{
    let items = scrape_items(markup);
    let ghost views = scraped_items_of(markup@);
    let mut out: Vec<Announcement> = Vec::new();
    let mut j: usize = 0;
    while j < items.len()
        invariant
            j <= items@.len(),
            views == scraped_items_of(markup@),
            items@.map_values(|it: RawItem| it@) == views,
            out@.len() == j,
            forall|i: int| 0 <= i < j ==> announcement_matches(out@[i], #[trigger] views[i]),
            forall|i: int| 0 <= i < j ==> times_ok(#[trigger] views[i]),
        decreases items@.len() - j,
    {
        proof {
            assert(views[j as int] == items@[j as int]@);
        }
        match build_announcement(&items[j]) {
            Ok(a) => {
                out.push(a);
            },
            Err(e) => {
                proof {
                    assert(!times_ok(views[j as int]));
                }
                return Err(e);
            },
        }
        j = j + 1;
    }
    Ok(out)
}

/// Extraction determinism law: for a fixed container sequence — and the
/// containers are a pure function of the markup — any two extracted record
/// sequences agree in length and, entry by entry, in content, link and
/// datetime.
pub proof fn lemma_extraction_deterministic(
    markup: Seq<char>,
    v1: Seq<Announcement>,
    v2: Seq<Announcement>,
)
    requires
        extraction_matches(v1, scraped_items_of(markup)),
        extraction_matches(v2, scraped_items_of(markup)),
    ensures
        v1.len() == v2.len(),
        forall|i: int|
            0 <= i < v1.len() ==> #[trigger] v1[i].content@ == v2[i].content@
                && v1[i].link@ == v2[i].link@ && v1[i].datetime == v2[i].datetime,
{
    assert forall|i: int|
        0 <= i < v1.len() implies #[trigger] v1[i].content@ == v2[i].content@
            && v1[i].link@ == v2[i].link@ && v1[i].datetime == v2[i].datetime by {
        assert(announcement_matches(v1[i], scraped_items_of(markup)[i]));
        assert(announcement_matches(v2[i], scraped_items_of(markup)[i]));
    }
}

} // verus!
