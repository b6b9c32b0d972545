use epg_core::decode::DropReason;
use epg_core::grid::get_epg_by_range;
use epg_core::ingest::{build_epg_source, ingest_feed, wants_gzip, FeedBody, IngestError};
use epg_core::query::get_programs_by_channel;
use epg_core::store::{upsert_source, EpgStore};

fn programme(channel: &str, start: &str, stop: Option<&str>, title: Option<&str>) -> String {
    let mut p = format!("<programme start=\"{}\"", start);
    if let Some(stop) = stop {
        p.push_str(&format!(" stop=\"{}\"", stop));
    }
    p.push_str(&format!(" channel=\"{}\">", channel));
    if let Some(title) = title {
        p.push_str(&format!("<title>{}</title>", title));
    }
    p.push_str("</programme>");
    p
}

fn feed(channels: &[(&str, &str)], programmes: &[String]) -> String {
    let mut xml = String::from("<?xml version=\"1.0\" encoding=\"UTF-8\"?><tv>");
    for (id, name) in channels {
        xml.push_str(&format!(
            "<channel id=\"{}\"><display-name>{}</display-name></channel>",
            id, name
        ));
    }
    for p in programmes {
        xml.push_str(p);
    }
    xml.push_str("</tv>");
    xml
}

fn ingest(store: Option<EpgStore>, url: &str, xml: &str) -> EpgStore {
    let (source, _drops) =
        build_epg_source(url.to_string(), FeedBody::Plain(xml.to_string())).unwrap();
    upsert_source(store, source)
}

// 2024-01-01 10:00:00 UTC
const T1000: i64 = 1704103200;
// 2024-01-01 11:00:00 UTC
const T1100: i64 = 1704106800;

#[test]
fn scenario_single_channel_single_program() {
    let xml = feed(
        &[("bbc1", "BBC One")],
        &[programme(
            "bbc1",
            "20240101100000 +0000",
            Some("20240101110000 +0000"),
            Some("News"),
        )],
    );
    let store = ingest(None, "http://example.com/epg.xml", &xml);
    let programs = get_programs_by_channel(Some(&store), "BBC One".to_string());
    assert_eq!(programs.len(), 1);
    assert_eq!(programs[0].title, "News");
    assert_eq!(programs[0].channel, "BBC One");
    assert_eq!(programs[0].start, T1000);
    assert_eq!(programs[0].stop, T1100);
    assert_eq!(programs[0].desc, None);
    assert_eq!(programs[0].icon, None);
}

#[test]
fn scenario_two_sources_merged_and_sorted() {
    let xml1 = feed(
        &[("cnn", "CNN")],
        &[programme(
            "cnn",
            "20240101120000 +0000",
            Some("20240101130000 +0000"),
            Some("Late"),
        )],
    );
    let xml2 = feed(
        &[("cnn-intl", "CNN")],
        &[programme(
            "cnn-intl",
            "20240101100000 +0000",
            Some("20240101110000 +0000"),
            Some("Early"),
        )],
    );
    let store = ingest(None, "http://a.example/epg.xml", &xml1);
    let store = ingest(Some(store), "http://b.example/epg.xml", &xml2);
    let programs = get_programs_by_channel(Some(&store), "CNN".to_string());
    assert_eq!(programs.len(), 2);
    assert_eq!(programs[0].title, "Early");
    assert_eq!(programs[1].title, "Late");
}

#[test]
fn scenario_grid_first_page() {
    let xml = feed(
        &[("bbc1", "BBC One"), ("cnn", "CNN")],
        &[
            programme(
                "cnn",
                "20240101120000 +0000",
                Some("20240101130000 +0000"),
                Some("World"),
            ),
            programme(
                "bbc1",
                "20240101100000 +0000",
                Some("20240101110000 +0000"),
                Some("News"),
            ),
        ],
    );
    let store = ingest(None, "http://example.com/epg.xml", &xml);
    let rows = get_epg_by_range(
        Some(&store),
        "20240101000000 +0000".to_string(),
        "20240101235959 +0000".to_string(),
        0,
        1,
        vec!["BBC One".to_string(), "CNN".to_string()],
    )
    .unwrap();
    assert_eq!(rows.len(), 1);
    assert_eq!(rows[0].name, "BBC One");
    assert_eq!(rows[0].id, "BBC One");
    assert_eq!(rows[0].programs.len(), 1);
    assert_eq!(rows[0].programs[0].title, "News");
}

#[test]
fn scenario_reingest_removes_old_programs() {
    let both = feed(
        &[("bbc1", "BBC One")],
        &[
            programme(
                "bbc1",
                "20240101100000 +0000",
                Some("20240101110000 +0000"),
                Some("News"),
            ),
            programme(
                "bbc1",
                "20240101110000 +0000",
                Some("20240101120000 +0000"),
                Some("Weather"),
            ),
        ],
    );
    let only_news = feed(
        &[("bbc1", "BBC One")],
        &[programme(
            "bbc1",
            "20240101100000 +0000",
            Some("20240101110000 +0000"),
            Some("News"),
        )],
    );
    let url = "http://example.com/epg.xml";
    let store = ingest(None, url, &both);
    let programs = get_programs_by_channel(Some(&store), "BBC One".to_string());
    assert_eq!(programs.len(), 2);
    let store = ingest(Some(store), url, &only_news);
    let programs = get_programs_by_channel(Some(&store), "BBC One".to_string());
    assert_eq!(programs.len(), 1);
    assert_eq!(programs[0].title, "News");
    assert_eq!(store.sources.len(), 1);
}

#[test]
fn programme_without_stop_is_dropped() {
    let xml = feed(
        &[("bbc1", "BBC One")],
        &[
            programme("bbc1", "20240101100000 +0000", None, Some("NoStop")),
            programme(
                "bbc1",
                "20240101110000 +0000",
                Some("20240101120000 +0000"),
                Some("Kept"),
            ),
        ],
    );
    let (source, drops) =
        build_epg_source("u".to_string(), FeedBody::Plain(xml)).unwrap();
    assert_eq!(drops, vec![DropReason::BadStop]);
    let store = upsert_source(None, source);
    let programs = get_programs_by_channel(Some(&store), "BBC One".to_string());
    assert_eq!(programs.len(), 1);
    assert_eq!(programs[0].title, "Kept");
}

#[test]
fn drop_reasons_cover_each_validation_rule() {
    let xml = feed(
        &[("bbc1", "BBC One")],
        &[
            programme(
                "unknown",
                "20240101100000 +0000",
                Some("20240101110000 +0000"),
                Some("A"),
            ),
            programme(
                "bbc1",
                "garbage",
                Some("20240101110000 +0000"),
                Some("B"),
            ),
            programme("bbc1", "20240101100000 +0000", Some("garbage"), Some("C")),
            programme(
                "bbc1",
                "20240101100000 +0000",
                Some("20240101110000 +0000"),
                None,
            ),
        ],
    );
    let (_source, drops) =
        build_epg_source("u".to_string(), FeedBody::Plain(xml)).unwrap();
    assert_eq!(
        drops,
        vec![
            DropReason::NoChannelName,
            DropReason::BadStart,
            DropReason::BadStop,
            DropReason::NoTitle,
        ]
    );
}

#[test]
fn grid_pagination_clamps() {
    let xml = feed(
        &[("a", "Alpha"), ("b", "Beta")],
        &[
            programme(
                "a",
                "20240101100000 +0000",
                Some("20240101110000 +0000"),
                Some("A"),
            ),
            programme(
                "b",
                "20240101100000 +0000",
                Some("20240101110000 +0000"),
                Some("B"),
            ),
        ],
    );
    let store = ingest(None, "u", &xml);
    let names = vec!["Alpha".to_string(), "Beta".to_string()];
    let start = "20240101000000 +0000".to_string();
    let end = "20240101235959 +0000".to_string();
    let beyond = get_epg_by_range(Some(&store), start.clone(), end.clone(), 5, 10, names.clone())
        .unwrap();
    assert!(beyond.is_empty());
    let tail = get_epg_by_range(Some(&store), start, end, 1, 10, names).unwrap();
    assert_eq!(tail.len(), 1);
    assert_eq!(tail[0].name, "Beta");
}

#[test]
fn grid_errors() {
    let err = get_epg_by_range(
        None,
        "20240101000000 +0000".to_string(),
        "20240101235959 +0000".to_string(),
        0,
        10,
        vec!["X".to_string()],
    )
    .unwrap_err();
    assert_eq!(err, "EPG data not initialized");
    let xml = feed(
        &[("a", "Alpha")],
        &[programme(
            "a",
            "20240101100000 +0000",
            Some("20240101110000 +0000"),
            Some("A"),
        )],
    );
    let store = ingest(None, "u", &xml);
    let err = get_epg_by_range(
        Some(&store),
        "not a time".to_string(),
        "20240101235959 +0000".to_string(),
        0,
        10,
        vec!["Alpha".to_string()],
    )
    .unwrap_err();
    assert_eq!(err, "invalid start time");
    let err = get_epg_by_range(
        Some(&store),
        "20240101000000 +0000".to_string(),
        "bad".to_string(),
        0,
        10,
        vec!["Alpha".to_string()],
    )
    .unwrap_err();
    assert_eq!(err, "invalid end time");
}

#[test]
fn grid_overlap_filter_is_inclusive() {
    // Window 10:00-11:00; one programme ends exactly at 10:00, one starts
    // exactly at 11:00, one lies entirely before: the boundary ones stay.
    let xml = feed(
        &[("a", "Alpha")],
        &[
            programme(
                "a",
                "20240101090000 +0000",
                Some("20240101100000 +0000"),
                Some("EndsAtStart"),
            ),
            programme(
                "a",
                "20240101110000 +0000",
                Some("20240101120000 +0000"),
                Some("StartsAtEnd"),
            ),
            programme(
                "a",
                "20240101070000 +0000",
                Some("20240101080000 +0000"),
                Some("Before"),
            ),
        ],
    );
    let store = ingest(None, "u", &xml);
    let rows = get_epg_by_range(
        Some(&store),
        "20240101100000 +0000".to_string(),
        "20240101110000 +0000".to_string(),
        0,
        10,
        vec!["Alpha".to_string()],
    )
    .unwrap();
    assert_eq!(rows.len(), 1);
    let titles: Vec<&str> = rows[0].programs.iter().map(|p| p.title.as_str()).collect();
    assert_eq!(titles, vec!["EndsAtStart", "StartsAtEnd"]);
}

#[test]
fn gzip_feed_roundtrip() {
    let xml = feed(
        &[("a", "Alpha")],
        &[programme(
            "a",
            "20240101100000 +0000",
            Some("20240101110000 +0000"),
            Some("Zipped"),
        )],
    );
    let mut encoder =
        flate2::write::GzEncoder::new(Vec::new(), flate2::Compression::default());
    std::io::Write::write_all(&mut encoder, xml.as_bytes()).unwrap();
    let bytes = encoder.finish().unwrap();
    let (source, _drops) =
        build_epg_source("http://example.com/epg.xml.gz".to_string(), FeedBody::Gzipped(bytes))
            .unwrap();
    let store = upsert_source(None, source);
    let programs = get_programs_by_channel(Some(&store), "Alpha".to_string());
    assert_eq!(programs.len(), 1);
    assert_eq!(programs[0].title, "Zipped");
}

#[test]
fn ingest_errors() {
    let err = build_epg_source(
        "u".to_string(),
        FeedBody::Gzipped(vec![1, 2, 3, 4]),
    )
    .unwrap_err();
    assert_eq!(err, IngestError::Decompress);
    assert_eq!(err.message(), "failed to decompress EPG data");
    let err = build_epg_source(
        "u".to_string(),
        FeedBody::Plain("this is not xml <".to_string()),
    )
    .unwrap_err();
    assert_eq!(err, IngestError::XmlParse);
    assert_eq!(err.message(), "failed to parse EPG XML data");
}

#[test]
fn failed_ingest_leaves_store_untouched() {
    let xml = feed(
        &[("a", "Alpha")],
        &[programme(
            "a",
            "20240101100000 +0000",
            Some("20240101110000 +0000"),
            Some("Kept"),
        )],
    );
    let mut store: Option<EpgStore> = None;
    let url = "http://example.com/epg.xml".to_string();
    let drops = ingest_feed(&mut store, url.clone(), FeedBody::Plain(xml)).unwrap();
    assert!(drops.is_empty());
    let err = ingest_feed(&mut store, url, FeedBody::Plain("broken <".to_string())).unwrap_err();
    assert_eq!(err, IngestError::XmlParse);
    let programs = get_programs_by_channel(store.as_ref(), "Alpha".to_string());
    assert_eq!(programs.len(), 1);
    assert_eq!(programs[0].title, "Kept");
}

#[test]
fn gz_urls_are_recognized() {
    assert!(wants_gzip("http://example.com/epg.xml.gz"));
    assert!(!wants_gzip("http://example.com/epg.xml"));
    assert!(!wants_gzip("gz"));
}

#[test]
fn grid_matches_trimmed_names_and_sorts_rows() {
    let xml = feed(
        &[("z", "Zebra"), ("a", " Alpha ")],
        &[
            programme(
                "z",
                "20240101100000 +0000",
                Some("20240101110000 +0000"),
                Some("Z"),
            ),
            programme(
                "a",
                "20240101100000 +0000",
                Some("20240101110000 +0000"),
                Some("A"),
            ),
        ],
    );
    let store = ingest(None, "u", &xml);
    let rows = get_epg_by_range(
        Some(&store),
        "20240101000000 +0000".to_string(),
        "20240101235959 +0000".to_string(),
        0,
        10,
        vec!["Alpha".to_string(), "  Zebra".to_string()],
    )
    .unwrap();
    assert_eq!(rows.len(), 2);
    assert_eq!(rows[0].name, "Alpha");
    assert_eq!(rows[0].id, " Alpha ");
    assert_eq!(rows[1].name, "Zebra");
}

#[test]
fn rows_with_equal_trimmed_names_keep_discovery_order() {
    // Two distinct channels whose display names trim to the same text: the
    // row of the channel stored first stays first.
    let xml = feed(
        &[("n1", " News "), ("n2", "News")],
        &[
            programme(
                "n1",
                "20240101100000 +0000",
                Some("20240101110000 +0000"),
                Some("A"),
            ),
            programme(
                "n2",
                "20240101100000 +0000",
                Some("20240101110000 +0000"),
                Some("B"),
            ),
        ],
    );
    let store = ingest(None, "u", &xml);
    let rows = get_epg_by_range(
        Some(&store),
        "20240101000000 +0000".to_string(),
        "20240101235959 +0000".to_string(),
        0,
        10,
        vec!["News".to_string()],
    )
    .unwrap();
    assert_eq!(rows.len(), 2);
    assert_eq!(rows[0].id, " News ");
    assert_eq!(rows[0].name, "News");
    assert_eq!(rows[1].id, "News");
    assert_eq!(rows[1].name, "News");
}

#[test]
fn grid_row_icon_is_first_overlapping_programs_icon() {
    let xml = feed(
        &[("a", "Alpha")],
        &[
            // Outside the window, with an icon that must not be used.
            "<programme start=\"20240101010000 +0000\" stop=\"20240101020000 +0000\" channel=\"a\"><title>Out</title><icon src=\"http://img/out.png\"/></programme>".to_string(),
            "<programme start=\"20240101100000 +0000\" stop=\"20240101110000 +0000\" channel=\"a\"><title>In</title><icon src=\"http://img/in.png\"/></programme>".to_string(),
        ],
    );
    let store = ingest(None, "u", &xml);
    let rows = get_epg_by_range(
        Some(&store),
        "20240101090000 +0000".to_string(),
        "20240101235959 +0000".to_string(),
        0,
        10,
        vec!["Alpha".to_string()],
    )
    .unwrap();
    assert_eq!(rows.len(), 1);
    assert_eq!(rows[0].icon.as_deref(), Some("http://img/in.png"));
}

#[test]
fn first_metadata_values_are_kept() {
    let xml = feed(
        &[("a", "Alpha")],
        &["<programme start=\"20240101100000 +0000\" stop=\"20240101110000 +0000\" channel=\"a\"><title>First</title><title>Second</title><desc>D1</desc><desc>D2</desc><category>Cat1</category><category>Cat2</category><language>en</language></programme>".to_string()],
    );
    let store = ingest(None, "u", &xml);
    let programs = get_programs_by_channel(Some(&store), "Alpha".to_string());
    assert_eq!(programs.len(), 1);
    assert_eq!(programs[0].title, "First");
    assert_eq!(programs[0].desc.as_deref(), Some("D1"));
    assert_eq!(programs[0].category.as_deref(), Some("Cat1"));
    assert_eq!(programs[0].language.as_deref(), Some("en"));
}

#[test]
fn grouping_loses_no_program() {
    // Interleaved channels: every decoded programme must survive grouping.
    let xml = feed(
        &[("a", "Alpha"), ("b", "Beta")],
        &[
            programme(
                "a",
                "20240101100000 +0000",
                Some("20240101110000 +0000"),
                Some("A1"),
            ),
            programme(
                "b",
                "20240101100000 +0000",
                Some("20240101110000 +0000"),
                Some("B1"),
            ),
            programme(
                "a",
                "20240101110000 +0000",
                Some("20240101120000 +0000"),
                Some("A2"),
            ),
        ],
    );
    let store = ingest(None, "u", &xml);
    let alpha = get_programs_by_channel(Some(&store), "Alpha".to_string());
    let beta = get_programs_by_channel(Some(&store), "Beta".to_string());
    assert_eq!(alpha.len(), 2);
    assert_eq!(beta.len(), 1);
    assert_eq!(alpha[0].title, "A1");
    assert_eq!(alpha[1].title, "A2");
    assert_eq!(beta[0].title, "B1");
}

#[test]
fn unknown_channel_and_missing_store_yield_empty() {
    assert!(get_programs_by_channel(None, "BBC One".to_string()).is_empty());
    let xml = feed(&[("a", "Alpha")], &[]);
    let store = ingest(None, "u", &xml);
    assert!(get_programs_by_channel(Some(&store), "Nope".to_string()).is_empty());
}

#[test]
fn unsorted_input_comes_back_sorted() {
    let xml = feed(
        &[("a", "Alpha")],
        &[
            programme(
                "a",
                "20240101150000 +0000",
                Some("20240101160000 +0000"),
                Some("Third"),
            ),
            programme(
                "a",
                "20240101050000 +0000",
                Some("20240101060000 +0000"),
                Some("First"),
            ),
            programme(
                "a",
                "20240101100000 +0000",
                Some("20240101110000 +0000"),
                Some("Second"),
            ),
        ],
    );
    let store = ingest(None, "u", &xml);
    let programs = get_programs_by_channel(Some(&store), "Alpha".to_string());
    let titles: Vec<&str> = programs.iter().map(|p| p.title.as_str()).collect();
    assert_eq!(titles, vec!["First", "Second", "Third"]);
    for w in programs.windows(2) {
        assert!(w[0].start <= w[1].start);
    }
}

#[test]
fn later_channel_mapping_wins() {
    // Two channel elements share an id: the mapping keeps the later name.
    let xml = feed(
        &[("a", "Old Name"), ("a", "New Name")],
        &[programme(
            "a",
            "20240101100000 +0000",
            Some("20240101110000 +0000"),
            Some("Show"),
        )],
    );
    let store = ingest(None, "u", &xml);
    assert!(get_programs_by_channel(Some(&store), "Old Name".to_string()).is_empty());
    let programs = get_programs_by_channel(Some(&store), "New Name".to_string());
    assert_eq!(programs.len(), 1);
}

#[test]
fn empty_allowlist_yields_empty_grid() {
    let xml = feed(
        &[("a", "Alpha")],
        &[programme(
            "a",
            "20240101100000 +0000",
            Some("20240101110000 +0000"),
            Some("A"),
        )],
    );
    let store = ingest(None, "u", &xml);
    let rows = get_epg_by_range(
        Some(&store),
        "20240101000000 +0000".to_string(),
        "20240101235959 +0000".to_string(),
        0,
        10,
        Vec::new(),
    )
    .unwrap();
    assert!(rows.is_empty());
}

#[test]
fn programs_with_equal_starts_keep_source_order() {
    let xml1 = feed(
        &[("c1", "CNN")],
        &[programme(
            "c1",
            "20240101100000 +0000",
            Some("20240101110000 +0000"),
            Some("FromFirstSource"),
        )],
    );
    let xml2 = feed(
        &[("c2", "CNN")],
        &[programme(
            "c2",
            "20240101100000 +0000",
            Some("20240101110000 +0000"),
            Some("FromSecondSource"),
        )],
    );
    let store = ingest(None, "http://a.example/epg.xml", &xml1);
    let store = ingest(Some(store), "http://b.example/epg.xml", &xml2);
    let programs = get_programs_by_channel(Some(&store), "CNN".to_string());
    assert_eq!(programs.len(), 2);
    assert_eq!(programs[0].title, "FromFirstSource");
    assert_eq!(programs[1].title, "FromSecondSource");
}

#[test]
fn offsets_are_normalized_to_utc() {
    let xml = feed(
        &[("a", "Alpha")],
        &[programme(
            "a",
            "20240101120000 +0200",
            Some("20240101130000 +0200"),
            Some("Shifted"),
        )],
    );
    let store = ingest(None, "u", &xml);
    let programs = get_programs_by_channel(Some(&store), "Alpha".to_string());
    assert_eq!(programs.len(), 1);
    // 12:00 +0200 is 10:00 UTC.
    assert_eq!(programs[0].start, T1000);
}
