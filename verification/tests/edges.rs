//! Single functions on chosen values: numbers, text, times, patterns, paths.
use bundle_cat::directory::{
    discover_entry, is_bundle_path, relative_bundle_name, DirectoryBundleSource, Discovery,
    EntryKind, NameFault, PathFault, PathPart,
};
use bundle_cat::ereport::{parse_ereport_path, read_ereport_class, write_block, Ereport};
use bundle_cat::error::BundleError;
use bundle_cat::inventory::{apply_sled_ids, conclude, Decoded, Layout, SledId};
use bundle_cat::log_file::LogFile;
use bundle_cat::logs::read_timestamp_from_contents;
use bundle_cat::names::NameMap;
use bundle_cat::pattern::{decide, matches_patterns, Pattern};
use bundle_cat::reader::{name_text, LineCount};
use bundle_cat::sled::{choose_sled, cubby_order, BundleInfo, SledInfo};
use bundle_cat::structured;
use bundle_cat::text;
use bundle_cat::time::{
    choose_reading, parse_timestamp, within_time_range, TimeRange, Timestamp, MAX_NANOSECOND,
    MIN_NANOSECOND,
};

fn glob(s: &str) -> Pattern {
    Pattern::new(s).unwrap()
}

fn instant(nanosecond: i128) -> Timestamp {
    Timestamp::from_nanosecond(nanosecond).unwrap()
}

fn time(s: &str) -> Timestamp {
    instant(s.parse::<jiff::Timestamp>().unwrap().as_nanosecond())
}

#[test]
fn numbers_read_as_the_standard_library_reads_them() {
    for s in [
        "", "0", "7", "007", "+7", "-7", "+", "-", "++7", "7 ", " 7", "1a", "18446744073709551615",
        "18446744073709551616", "65535", "65536", "99999999999999999999999", "-0", "\u{0663}",
        "9223372036854775807", "9223372036854775808", "-9223372036854775808",
        "-9223372036854775809", "true",
    ] {
        assert_eq!(text::parse_unsigned(s, u64::MAX), s.parse::<u64>().ok(), "{s}");
        assert_eq!(
            text::parse_unsigned(s, 65535),
            s.parse::<u16>().ok().map(u64::from),
            "{s}"
        );
        assert_eq!(text::parse_signed(s), s.parse::<i64>().ok(), "{s}");
        assert_eq!(text::parse_bool(s), s.parse::<bool>().ok(), "{s}");
    }
    assert_eq!(text::parse_digits("+7", u64::MAX), None);
    assert_eq!(text::parse_digits("7", u64::MAX), Some(7));
    for n in [0, 9, 10, 99, 100, 305419896, u64::MAX] {
        assert_eq!(text::decimal_text(n), n.to_string());
        assert_eq!(text::parse_unsigned(&text::decimal_text(n), u64::MAX), Some(n));
    }
}

#[test]
fn text_is_cut_as_the_standard_library_cuts_it() {
    for s in ["", "/", "a", "a/b", "/a//b/", "ä/ö", "no slash"] {
        let pieces: Vec<&str> = s.split('/').collect();
        assert_eq!(text::split_at(s, '/'), pieces, "{s}");
        assert_eq!(pieces.join("/"), s);
        let cut = s.rsplit_once('/');
        assert_eq!(
            text::cut_at_last(s, '/'),
            cut.map(|(a, b)| (a.to_string(), b.to_string()))
        );
        assert_eq!(text::without_suffix(s, "b/"), s.strip_suffix("b/"));
        assert_eq!(text::begins_with(s, "a"), s.starts_with('a'));
        assert_eq!(text::finishes_with(s, "ö"), s.ends_with('ö'));
    }
    for (a, b) in [("", "a"), ("a", "b"), ("a", "aa"), ("Z", "a"), ("ö", "z"), ("x", "x")] {
        assert_eq!(text::comes_before(a, b), a < b, "{a} {b}");
        assert_eq!(text::comes_before(b, a), b < a, "{a} {b}");
    }
    let mut out = String::new();
    text::push_left(&mut out, "ä", 3);
    text::push_right(&mut out, "long", 2);
    text::push_right(&mut out, "b", 3);
    assert_eq!(out, format!("{:<3}{:>2}{:>3}", "ä", "long", "b"));
}

#[test]
fn text_between_marks() {
    assert_eq!(
        text::between_marks("x[[a]b]", "[", "]").as_deref(),
        Some("[a")
    );
    assert_eq!(text::between_marks("x[a", "[", "]"), None);
    assert_eq!(text::between_marks("a]", "[", "]"), None);
    assert_eq!(text::between_marks("[]", "[", "]").as_deref(), Some(""));
    assert_eq!(text::between_marks("ab", "", "").as_deref(), Some(""));
}

#[test]
fn errors_are_chains_of_messages() {
    let error = BundleError::new("cause".to_string())
        .context("step".to_string())
        .context("whole".to_string());
    assert_eq!(error.messages, ["whole", "step", "cause"]);
    assert_eq!(error.report(), "whole: step: cause");
    assert_eq!(error.message(), "whole");
    assert_eq!(error.at("!").messages, ["whole!", "step", "cause"]);
}

#[test]
fn maps_keep_their_names_in_order() {
    let mut map = NameMap::new();
    for name in ["m", "a", "z", "m"] {
        let n = map.len();
        map = map.insert(name.to_string(), name.len() + n);
    }
    assert_eq!(map.len(), 3);
    let keys: Vec<&String> = (0..map.len()).map(|i| map.key_at(i)).collect();
    assert_eq!(keys, ["a", "m", "z"]);
    assert_eq!(map.get("m"), Some(&4));
    assert_eq!(map.get("b"), None);
    assert_eq!(*map.value_at(0), 2);
    let (map, gone) = map.remove("a");
    assert_eq!(gone, Some(2));
    assert_eq!(map.len(), 2);
    let (map, gone) = map.remove("a");
    assert_eq!(gone, None);
    assert_eq!(map.get("a"), None);
}

#[test]
fn globs_are_matched_and_checked() {
    let pattern = glob("BRM0325*");
    assert_eq!(pattern.as_str(), "BRM0325*");
    assert!(pattern.matches("BRM03250013"));
    assert!(!pattern.matches("xBRM03250013"));
    assert!(glob("h[ai]?").matches("hat"));
    let error = Pattern::new("a[").unwrap_err();
    assert_eq!(
        error.report(),
        "Pattern syntax error near position 1: invalid range pattern"
    );
    assert_eq!(pattern.clone().as_str(), "BRM0325*");
    assert!(decide(&vec![]));
    assert!(decide(&vec![false, true]));
    assert!(!decide(&vec![false, false]));
    assert!(matches_patterns(&[], "anything"));
    assert!(matches_patterns(&[glob("x"), glob("a*")], "anything"));
    assert!(!matches_patterns(&[glob("x"), glob("b*")], "anything"));
}

fn sled(uuid: &str, serial: &str, cubby: Option<u16>) -> SledInfo {
    SledInfo {
        uuid: uuid.to_string(),
        cubby,
        serial: serial.to_string(),
        zones: Vec::new(),
        services: Vec::new(),
        is_scrimlet: false,
    }
}

#[test]
fn sleds_are_selected_by_cubby_uuid_or_serial() {
    let known = sled("0f16e501-aa", "BRM1", Some(16));
    let unknown = sled("16", "BRM2", None);
    assert!(known.matches_patterns(&[]));
    assert!(known.matches_patterns(&[glob("16")]));
    assert!(known.matches_patterns(&[glob("+16")]));
    assert!(!known.matches_patterns(&[glob("1")]));
    assert!(known.matches_patterns(&[glob("1"), glob("0f16e501-*")]));
    assert!(known.matches_patterns(&[glob("BRM*")]));
    assert!(unknown.matches_patterns(&[glob("16")]));
    assert!(!unknown.matches_patterns(&[glob("17")]));

    // A number decides alone where the cubby is known, and for no other sled.
    assert!(!choose_sled(Some(3), "4", true));
    assert!(choose_sled(Some(4), "4", false));
    assert!(choose_sled(None, "4", true));
    assert!(choose_sled(Some(3), "65536", true));
}

#[test]
fn sleds_are_ordered_by_uuid() {
    let a = sled("a", "2", None);
    let b = sled("b", "1", Some(1));
    assert!(a < b);
    assert!(!(b < a));
    assert_eq!(
        a.partial_cmp(&sled("a", "3", Some(9))),
        Some(std::cmp::Ordering::Equal)
    );
}

#[test]
fn listings_are_stable_by_cubby() {
    let cubbies = vec![Some(3), None, Some(1), Some(3), None, Some(0)];
    assert_eq!(cubby_order(&cubbies), [1, 4, 5, 2, 0, 3]);
    assert_eq!(cubby_order(&Vec::new()), [0usize; 0]);
}

#[test]
fn log_files_are_described_by_their_paths() {
    let log = LogFile::from_path(
        "rack/r/sled/u/logs/oxz_switch/mg-ddm/archive/oxide-mg-ddm:default.log.1758510604",
    )
    .unwrap();
    assert_eq!(log.sled_uuid, "u");
    assert_eq!(log.zone.as_deref(), Some("oxz_switch"));
    assert_eq!(log.service.as_deref(), Some("mg-ddm"));
    assert_eq!(log.timestamp, Some(1758510604));

    let check = LogFile::from_path("rack/r/sled/u/check.json").unwrap();
    assert_eq!(check.zone, None);
    assert_eq!(check.service, None);
    assert_eq!(check.timestamp, None);
    assert!(check.matches_services(&[]));
    assert!(!check.matches_services(&[glob("*")]));
    assert!(check.matches_zones(&[]));
    assert!(!check.matches_zones(&[glob("*")]));
    assert!(check.matches_paths(&[glob("*check.json")]));

    assert_eq!(LogFile::from_path("rack/r/sled/u/logs/"), None);
    assert_eq!(LogFile::from_path("rack/r/sled/u"), None);
    assert_eq!(LogFile::extract_timestamp("a.-5"), Some(-5));
    assert_eq!(LogFile::extract_timestamp("17"), Some(17));
}

#[test]
fn ereport_paths_read_back() {
    let report = Ereport {
        part: "913-0000019".to_string(),
        serial: "BRM09250001".to_string(),
        restart_id: "restart".to_string(),
        ena: u64::MAX,
    };
    let path = format!(
        "ereports/{}-{}/{}/{}.json",
        report.part, report.serial, report.restart_id, report.ena
    );
    assert_eq!(parse_ereport_path(&path), Some(report.clone()));
    assert_eq!(Ereport::from_path(&path), Some(report));
    assert_eq!(structured::parse_ereport_path(&path).unwrap().ena, u64::MAX);

    // What the lenient grammar takes beyond the exact one, and that beyond the
    // strict one.
    let longer = "ereports/a-b/c/1.json/d";
    assert_eq!(parse_ereport_path(longer), None);
    assert_eq!(Ereport::from_path(longer).unwrap().ena, 1);
    let signed = "ereports/a-b/c/+1.json";
    assert_eq!(structured::parse_ereport_path(signed), None);
    assert_eq!(parse_ereport_path(signed).unwrap().ena, 1);
    assert_eq!(parse_ereport_path("ereports/a-b//1.json"), None);
    assert_eq!(
        parse_ereport_path("ereports/a-b/c/18446744073709551616.json"),
        None
    );
}

#[test]
fn classes_end_at_the_first_quote() {
    assert_eq!(
        read_ereport_class(r#"{"class":"a\"b","class":"c"}"#).as_deref(),
        Some(r"a\")
    );
    assert_eq!(read_ereport_class(r#"{"class": "spaced"}"#), None);
}

#[test]
fn classes_of_json_objects() {
    assert_eq!(
        structured::parse_ereport_class(r#"{ "class" : "ab" }"#).as_deref(),
        Some("ab")
    );
    assert_eq!(structured::parse_ereport_class(r#"{"class":1}"#), None);
    assert_eq!(structured::parse_ereport_class(r#"["class"]"#), None);
    assert_eq!(structured::parse_ereport_class("nothing"), None);
}

#[test]
fn blocks_of_ereports() {
    let mut out = String::new();
    write_block(&mut out, "p", &Some("{}".to_string()), "raw", false);
    write_block(&mut out, "q", &None, "raw", true);
    assert_eq!(out, "==> p <==\n{}\n\nraw");
}

#[test]
fn windows_of_time() {
    let start = time("2025-01-01T00:00:00Z");
    let middle = time("2025-06-01T00:00:00Z");
    let end = time("2026-01-01T00:00:00Z");
    let range = TimeRange {
        after: Some(start),
        before: Some(end),
    };
    assert!(range.is_set());
    assert!(!TimeRange::default().is_set());
    assert!(range.contains(middle));
    assert!(!range.contains(start));
    assert!(!range.contains(end));
    assert!(TimeRange::default().contains(middle));
    // Nothing before 2001 is in any window, and 2001 itself is.
    assert!(!TimeRange::default().contains(time("2000-12-31T23:59:59.999999999Z")));
    assert!(TimeRange::default().contains(time("2001-01-01T00:00:00Z")));
    // A missing bound leaves out nothing, not even the last instant.
    let last = instant(MAX_NANOSECOND);
    assert!(TimeRange::default().contains(last));
    assert!(within_time_range(&last, &None, &Some(start)));
    assert!(!within_time_range(&last, &Some(last), &None));
    assert!(!within_time_range(&last, &None, &Some(last)));
}

#[test]
fn instants_have_the_range_of_the_time_library() {
    assert_eq!(jiff::Timestamp::MIN.as_nanosecond(), MIN_NANOSECOND);
    assert_eq!(jiff::Timestamp::MAX.as_nanosecond(), MAX_NANOSECOND);
    for second in [0, -1, 978307200, 253402207200, 253402207201, -377705023201, -377705023202] {
        assert_eq!(
            Timestamp::from_second(second).map(|t| t.as_nanosecond()),
            jiff::Timestamp::from_second(second)
                .ok()
                .map(|t| t.as_nanosecond()),
        );
    }
    assert_eq!(Timestamp::from_second(i64::MAX), None);
    assert_eq!(Timestamp::from_nanosecond(MAX_NANOSECOND + 1), None);
    assert_eq!(Timestamp::from_nanosecond(MIN_NANOSECOND - 1), None);
}

#[test]
fn times_are_read_in_three_ways() {
    let now = time("2025-09-24T06:30:00Z");
    let read = |s: &str| parse_timestamp(now, s).unwrap();
    assert_eq!(read("2025-09-24T06:30:00+01:00"), time("2025-09-24T05:30:00Z"));
    assert_eq!(read("2025-09-24T07:00"), time("2025-09-24T07:00:00Z"));
    assert_eq!(read("2025-09-24"), time("2025-09-24T00:00:00Z"));
    assert_eq!(read("-1 day"), time("2025-09-23T06:30:00Z"));
    assert_eq!(read("2h"), time("2025-09-24T08:30:00Z"));
    assert_eq!(read("19000y"), instant(MAX_NANOSECOND));
    let error = parse_timestamp(now, "whenever").unwrap_err();
    assert_eq!(error.messages.len(), 1);
    assert!(error.report().starts_with("could not parse timestamp: "));
    // A civil time that no instant can stand for.
    let error = parse_timestamp(now, "9999-12-31T23:59:59").unwrap_err();
    assert!(!error.report().starts_with("could not parse timestamp: "));
}

#[test]
fn readings_of_a_time_have_an_order() {
    let a = instant(1);
    let b = instant(2);
    let c = instant(3);
    let no = || Err("no".to_string());
    assert_eq!(choose_reading(Ok(a), Some(Ok(b)), Some(c)).unwrap(), a);
    assert_eq!(choose_reading(no(), Some(Ok(b)), Some(c)).unwrap(), b);
    assert_eq!(choose_reading(no(), None, Some(c)).unwrap(), c);
    assert_eq!(
        choose_reading(no(), Some(Err("late".to_string())), Some(c))
            .unwrap_err()
            .report(),
        "late"
    );
    assert_eq!(
        choose_reading(no(), None, None).unwrap_err().report(),
        "could not parse timestamp: no"
    );
}

#[test]
fn first_recent_time_in_a_log() {
    let decode = |line: &[u8]| match line {
        b"{old" => Timestamp::from_second(978307199),
        b"{first" => Timestamp::from_second(978307200),
        b"{new" => Timestamp::from_second(978307201),
        b"{newer\r" => Timestamp::from_second(978307202),
        _ => None,
    };
    let read = |buf: &[u8]| read_timestamp_from_contents(buf, &decode).map(|t| t.as_nanosecond());
    assert_eq!(read(b"{old\n{first\n{new"), Some(978307200_000000000));
    assert_eq!(read(b"{old\n{new\r\n{newer\r"), Some(978307201_000000000));
    assert_eq!(read(b"new\n{newer\r"), Some(978307202_000000000));
    assert_eq!(read(b"{newer\r\n"), None);
    assert_eq!(read(b"{old\n\n"), None);
    assert_eq!(read(b""), None);
}

#[test]
fn faulty_text_names_its_file() {
    assert_eq!(name_text("p", Ok("t".to_string())).unwrap(), "t");
    let error = name_text("p", Err("odd".to_string())).unwrap_err();
    assert_eq!(
        error.messages,
        ["contents of p were not valid UTF-8", "odd"]
    );
}

#[test]
fn line_counts_are_positive() {
    assert_eq!(LineCount::new(0), None);
    assert_eq!(LineCount::new(5).unwrap().get(), 5);
}

fn info() -> BundleInfo {
    BundleInfo {
        sleds: NameMap::new().insert("u".to_string(), sled("u", "S", None)),
        unhealthy_sleds: NameMap::new(),
    }
}

fn id(serial: &str, cubby: Option<u16>, uuid: Option<&str>) -> SledId {
    SledId {
        serial: serial.to_string(),
        cubby,
        uuid: uuid.map(str::to_owned),
    }
}

#[test]
fn sled_ids_apply_in_order() {
    let ids = vec![
        id("a", Some(1), Some("u")),
        id("b", Some(2), Some("nobody")),
        id("c", Some(3), None),
        id("c", None, None),
        id("d", Some(5), Some("u")),
    ];
    let info = apply_sled_ids(info(), &ids);
    assert_eq!(info.sleds.get("u").unwrap().cubby, Some(5));
    assert_eq!(info.sleds.get("u").unwrap().serial, "S");
    assert_eq!(info.sleds.len(), 1);
    assert_eq!(info.unhealthy_sleds.get("c"), Some(&None));
    assert_eq!(info.unhealthy_sleds.len(), 1);
}

#[test]
fn conclusions_from_sled_info() {
    let failed = || Err(BundleError::new("why".to_string()).context("cut".to_string()));
    let entries = || Decoded::Entries(vec![id("x", Some(1), None)]);
    let (done, warning) = conclude(Layout::Descendants, info(), entries(), Ok(())).unwrap();
    assert_eq!(done.unhealthy_sleds.len(), 1);
    assert_eq!(warning, None);
    let torn = || Decoded::Torn(" here".to_string());
    let error = conclude(Layout::Descendants, info(), torn(), failed()).unwrap_err();
    assert_eq!(error.report(), "failed to read sled_info.json: cut here: why");
    let (done, warning) = conclude(Layout::Depth, info(), torn(), failed()).unwrap();
    assert_eq!(done.unhealthy_sleds.len(), 0);
    assert_eq!(warning.as_deref(), Some("Failed to parse sled_info.json: cut here"));
    let (_, warning) = conclude(Layout::Descendants, info(), torn(), Ok(())).unwrap();
    assert_eq!(warning.as_deref(), Some("Failed to parse sled_info.json:  here"));
    let malformed = Decoded::Malformed("odd".to_string());
    let (done, warning) = conclude(Layout::Descendants, info(), malformed, failed()).unwrap();
    assert_eq!(done.unhealthy_sleds.len(), 0);
    assert_eq!(warning.as_deref(), Some("Failed to parse sled_info.json: odd"));
}

#[test]
fn discovered_files_are_answered_and_nothing_else() {
    let normal = |s: &str| PathPart::Normal(s.to_string());
    let name = relative_bundle_name(&vec![normal("logs"), normal("a.log")]).unwrap();
    assert_eq!(name, "logs/a.log");
    let source = DirectoryBundleSource::new()
        .with_file("z")
        .with_file(&name)
        .with_file("z");
    assert_eq!(source.file_names(), &["logs/a.log", "z"]);
    assert_eq!(source.discovered_path(&name, true), Ok(()));
    assert_eq!(source.discovered_path(&name, false), Err(PathFault::Invalid));
    assert_eq!(
        source.discovered_path("unknown.txt", true),
        Err(PathFault::Unknown)
    );
    assert!(is_bundle_path(&name));
    for path in ["", "/z", "z/", "logs//a.log", "./z", "../z", "logs/../z", "logs/.."] {
        assert!(!is_bundle_path(path), "{path}");
        assert_eq!(
            source.discovered_path(path, true),
            Err(PathFault::Invalid),
            "{path}"
        );
    }
}

#[test]
fn faulty_components_have_no_name() {
    let normal = || PathPart::Normal("a".to_string());
    assert_eq!(
        relative_bundle_name(&vec![normal(), PathPart::NotUtf8, PathPart::Special]),
        Err(NameFault::NotUtf8)
    );
    assert_eq!(
        relative_bundle_name(&vec![PathPart::Special, normal()]),
        Err(NameFault::Special)
    );
    assert_eq!(relative_bundle_name(&Vec::new()).as_deref(), Ok(""));
}

#[test]
fn entries_are_indexed_searched_or_ignored() {
    let good = vec![
        PathPart::Normal("a".to_string()),
        PathPart::Normal("b".to_string()),
    ];
    let bad = vec![PathPart::NotUtf8];
    let file = discover_entry(EntryKind::File, &good, false);
    assert!(matches!(file, Ok(Discovery::Indexed(name)) if name == "a/b"));
    let file = discover_entry(EntryKind::File, &bad, false);
    assert!(matches!(file, Err(NameFault::NotUtf8)));
    let directory = discover_entry(EntryKind::Directory, &bad, false);
    assert!(matches!(directory, Ok(Discovery::Descend)));
    let directory = discover_entry(EntryKind::Directory, &bad, true);
    assert!(matches!(directory, Err(NameFault::NotUtf8)));
    let link = discover_entry(EntryKind::Other, &good, true);
    assert!(matches!(link, Ok(Discovery::Ignored)));
}
