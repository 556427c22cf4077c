//! Bundles in memory: how a source is asked, and how its answers are used.
use bundle_cat::bundle::{Bundle, EreportFilter, EreportListFilter, EreportShowFilter, LogFilter};
use bundle_cat::cat;
use bundle_cat::ereport::{EreportEntry, EreportHandler};
use bundle_cat::error::BundleError;
use bundle_cat::inventory::{Decoded, SledId};
use bundle_cat::log_file::LogFile;
use bundle_cat::logs::{CommandOutcome, Exit, LogHandler, Style};
use bundle_cat::pattern::Pattern;
use bundle_cat::reader;
use bundle_cat::reader::LineCount;
use bundle_cat::sled::BundleInfo;
use bundle_cat::source::{BundleFileMetadata, BundleSource};
use bundle_cat::time::{TimeRange, Timestamp};
use serde_json::Value;
use std::cell::RefCell;
use std::collections::BTreeMap;
use std::io::Read;
use std::rc::Rc;

const TEST_RACK: &str = "34261901-b550-451c-9bd0-3926bb29c40d";
const TEST_SLED: &str = "aaaaaaaa-bbbb-cccc-dddd-eeeeeeeeeeee";
const SLED_UUID: &str = "690650fd-4f95-4b3a-b2ec-977d47154383";
const LOG_PATH: &str =
    "rack/rack-id/sled/690650fd-4f95-4b3a-b2ec-977d47154383/logs/zone/service/example.log";
const FILE_NAME: &str = "logs/example.log";

/// A file of a source: its contents, and the error that ends the reading of it.
#[derive(Clone, Default)]
struct File {
    contents: Vec<u8>,
    read_error: Option<&'static str>,
    open_error: Option<&'static str>,
    metadata_error: Option<&'static str>,
}

#[derive(Default)]
struct MemorySource {
    files: BTreeMap<String, File>,
    events: Option<Rc<RefCell<Vec<String>>>>,
    modified: Option<Timestamp>,
    open: File,
    chunk: Option<usize>,
}

impl MemorySource {
    fn with(files: &[(&str, &[u8])]) -> Self {
        let mut source = Self::default();
        for (name, contents) in files {
            source.add(name, contents);
        }
        source
    }

    fn add(&mut self, name: &str, contents: &[u8]) {
        let file = File {
            contents: contents.to_vec(),
            ..Default::default()
        };
        self.files.insert(name.to_string(), file);
    }

    fn bundle() -> Self {
        let sled_path = format!("rack/{TEST_RACK}/sled/{TEST_SLED}/sled.txt");
        let log_path = format!(
            "rack/{TEST_RACK}/sled/{TEST_SLED}/logs/global/sled-agent/current/oxide-sled-agent:default.log"
        );
        Self::with(&[
            (
                &sled_path,
                br#"Sled { is_scrimlet: false, serial_number: "BRM99990001", ignored: true }"#,
            ),
            (
                &log_path,
                b"{\"time\":\"2025-09-24T06:30:00Z\",\"msg\":\"complete\"}\nsecond line\n",
            ),
        ])
    }

    fn record(&self, what: &str, path: &str) {
        if let Some(events) = &self.events {
            events.borrow_mut().push(format!("{what}:{path}"));
        }
    }
}

impl BundleSource for MemorySource {
    fn file_names(&self) -> Vec<String> {
        self.files.keys().cloned().collect()
    }

    fn open_file(&mut self, path: &str) -> Result<(), BundleError> {
        self.record("open", path);
        let file = match self.files.get(path) {
            Some(file) => file.clone(),
            None => return Err(BundleError::new("unknown test file".to_string())),
        };
        if let Some(message) = file.open_error {
            return Err(BundleError::new(message.to_string()));
        }
        self.open = file;
        Ok(())
    }

    fn read(&mut self, max: usize) -> Result<Vec<u8>, BundleError> {
        if self.open.contents.is_empty() {
            if let Some(message) = self.open.read_error {
                return Err(BundleError::new(message.to_string()));
            }
        }
        let n = max
            .min(self.chunk.unwrap_or(max))
            .min(self.open.contents.len());
        Ok(self.open.contents.drain(..n).collect())
    }

    fn metadata(&mut self, path: &str) -> Result<BundleFileMetadata, BundleError> {
        self.record("metadata", path);
        let file = &self.files[path];
        if let Some(message) = file.metadata_error {
            return Err(BundleError::new(message.to_string()));
        }
        Ok(BundleFileMetadata {
            len: Some(file.contents.len() as u64),
            modified: self.modified,
        })
    }
}

/// The end of a document that could not be read to its end.
struct TornEnd;

impl Read for TornEnd {
    fn read(&mut self, _buf: &mut [u8]) -> std::io::Result<usize> {
        Err(std::io::Error::other(""))
    }
}

/// The records of `sled_info.json`. A document that was not read to its end is
/// malformed where what was read of it shows that, and torn otherwise.
fn decode_sled_info(bytes: &[u8], complete: bool) -> Decoded {
    if !complete {
        let torn = serde_json::from_reader::<_, BTreeMap<String, Value>>(bytes.chain(TornEnd));
        let e = torn.unwrap_err();
        return if e.is_io() {
            Decoded::Torn(e.to_string())
        } else {
            Decoded::Malformed(e.to_string())
        };
    }
    let json: Value = match serde_json::from_slice(bytes) {
        Ok(json) => json,
        Err(e) => return Decoded::Malformed(e.to_string()),
    };
    let mut ids = Vec::new();
    for (serial, id) in json.as_object().unwrap() {
        ids.push(SledId {
            serial: serial.clone(),
            cubby: id["cubby"].as_u64().map(|n| n as u16),
            uuid: id["uuid"].as_str().map(str::to_owned),
        });
    }
    Decoded::Entries(ids)
}

/// The time of a log event.
fn decode_time(line: &[u8]) -> Option<Timestamp> {
    let json: Value = serde_json::from_slice(line).ok()?;
    let time = json.get("time")?.as_str()?.parse::<jiff::Timestamp>().ok()?;
    Timestamp::from_nanosecond(time.as_nanosecond())
}

fn time(s: &str) -> Timestamp {
    let time = s.parse::<jiff::Timestamp>().unwrap();
    Timestamp::from_nanosecond(time.as_nanosecond()).unwrap()
}

fn glob(s: &str) -> Pattern {
    Pattern::new(s).unwrap()
}

fn ok<T>(r: Result<T, BundleError>) -> T {
    r.unwrap_or_else(|e| panic!("{}", e.report()))
}

fn bundle(source: MemorySource) -> Bundle<MemorySource> {
    ok(Bundle::from_source(source, &decode_sled_info))
}

fn cat_bundle(source: MemorySource) -> cat::Bundle<MemorySource> {
    ok(cat::Bundle::from_source(source, &decode_sled_info))
}

fn error_of(source: MemorySource) -> String {
    match Bundle::from_source(source, &decode_sled_info) {
        Ok(_) => panic!("bundle should fail"),
        Err(e) => e.report(),
    }
}

fn cat_error_of(source: MemorySource) -> String {
    match cat::Bundle::from_source(source, &decode_sled_info) {
        Ok(_) => panic!("bundle should fail"),
        Err(e) => e.report(),
    }
}

#[test]
fn string_reader_uses_explicit_path_context() {
    let mut source = MemorySource::with(&[("logs/example.log", b"hello")]);
    ok(source.open_file("logs/example.log"));
    let contents = ok(reader::read_file_to_string(&mut source, "logs/example.log"));

    assert_eq!(contents, "hello");
}

#[test]
fn string_reader_reports_invalid_utf8_with_path() {
    let mut source = MemorySource::with(&[("logs/bad.log", b"\xff")]);
    ok(source.open_file("logs/bad.log"));
    let error = reader::read_file_to_string(&mut source, "logs/bad.log").unwrap_err();

    assert!(error
        .messages[0]
        .contains("contents of logs/bad.log were not valid UTF-8"));
    assert_eq!(
        error.messages[1],
        "invalid utf-8 sequence of 1 bytes from index 0"
    );
}

#[test]
fn string_reader_reports_read_failure_with_path() {
    let mut source = MemorySource::default();
    source.open.read_error = Some("read failed");
    let error = reader::read_file_to_string(&mut source, "logs/broken.log").unwrap_err();

    assert_eq!(
        error.messages[0],
        "failed to read contents of logs/broken.log"
    );
    assert_eq!(
        error.report(),
        "failed to read contents of logs/broken.log: read failed"
    );
}

fn read_file<S: BundleSource + ?Sized>(source: &mut S, path: &str) -> String {
    ok(source.open_file(path));
    ok(reader::read_file_to_string(source, path))
}

#[test]
fn source_boxed_source_forwards_listing_and_file_reads() {
    let source = MemorySource::with(&[(FILE_NAME, b"hello")]);
    let mut source: Box<dyn BundleSource> = Box::new(source);

    assert_eq!(source.file_names(), vec![FILE_NAME]);
    assert_eq!(read_file(&mut source, FILE_NAME), "hello");
    assert_eq!(ok(source.metadata(FILE_NAME)).len, Some(5));
}

#[test]
fn bundle_can_be_built_from_a_source() {
    let bundle = bundle(MemorySource::with(&[(FILE_NAME, b"hello")]));

    assert_eq!(bundle.info().sleds.len(), 0);
}

#[test]
fn bundle_info_reads_sled_txt_through_source() {
    let path = format!("rack/rack-id/sled/{SLED_UUID}/sled.txt");
    let contents = br#"Sled { is_scrimlet: false, serial_number: "BRM03250013", }"#;
    let bundle = bundle(MemorySource::with(&[(&path, contents)]));

    let sled = bundle.info().sleds.get(SLED_UUID).unwrap();
    assert_eq!(sled.serial, "BRM03250013");
    assert!(!sled.is_scrimlet);
}

#[test]
fn malformed_sled_info_json_remains_best_effort() {
    let bundle = bundle(MemorySource::with(&[("sled_info.json", b"not json")]));

    assert_eq!(bundle.info().unhealthy_sleds.len(), 0);
    let warning = bundle.warning().as_deref().unwrap();
    assert!(warning.starts_with("Failed to parse sled_info.json: "), "{warning}");
}

#[test]
fn listed_unreadable_sled_info_has_path_context() {
    let mut source = MemorySource::with(&[("sled_info.json", b"")]);
    source.files.get_mut("sled_info.json").unwrap().open_error = Some("injected open failure");

    assert_eq!(
        error_of(source),
        "failed to parse sled information from bundle: failed to open sled_info.json: \
         injected open failure"
    );
}

#[test]
fn sled_info_read_failure_has_path_context() {
    let mut source = MemorySource::with(&[("sled_info.json", b"")]);
    source.files.get_mut("sled_info.json").unwrap().read_error = Some("injected read failure");

    let message = error_of(source);
    assert!(message.contains("failed to read sled_info.json"), "{message}");
    assert!(message.contains("injected read failure"), "{message}");
}

/// A malformed beginning is noticed before the failure behind it, except where
/// the whole file is read first.
#[test]
fn malformed_beginning_of_sled_info_hides_a_read_failure() {
    let broken = || {
        let mut source = MemorySource::with(&[("sled_info.json", b"not json")]);
        source.files.get_mut("sled_info.json").unwrap().read_error = Some("read failed");
        source
    };
    let lenient = bundle(broken());
    let warning = lenient.warning().as_deref().unwrap();
    assert!(warning.starts_with("Failed to parse sled_info.json: "), "{warning}");
    assert_eq!(
        cat_error_of(broken()),
        "failed to read sled_info.json: read failed"
    );
}

/// An archive takes every fault of sled_info.json for a warning.
#[test]
fn archive_never_fails_on_sled_info() {
    let mut source = MemorySource::with(&[]);
    let (info, warning) = ok(BundleInfo::from_archive(&mut source, &decode_sled_info));
    assert_eq!(info.sleds.len(), 0);
    assert_eq!(warning, None);

    let mut source = MemorySource::with(&[("sled_info.json", b"{")]);
    source.files.get_mut("sled_info.json").unwrap().read_error = Some("read failed");
    let (_, warning) = ok(BundleInfo::from_archive(&mut source, &decode_sled_info));
    assert_eq!(
        warning.as_deref(),
        Some("Failed to parse sled_info.json: read failed at line 1 column 1")
    );
}

#[test]
fn unreadable_sled_txt_is_reported() {
    let path = format!("rack/rack-id/sled/{SLED_UUID}/sled.txt");
    let faulty = |file: File| {
        let mut source = MemorySource::default();
        source.files.insert(path.clone(), file);
        source
    };
    let file = File {
        metadata_error: Some("no metadata"),
        ..Default::default()
    };
    assert_eq!(
        error_of(faulty(file)),
        format!(
            "failed to parse sled information from bundle: \
             failed to read metadata for {path}: no metadata"
        )
    );
    let file = File {
        open_error: Some("no file"),
        ..Default::default()
    };
    assert_eq!(
        cat_error_of(faulty(file)),
        format!("failed to open {path}: no file")
    );
    let file = File {
        read_error: Some("no bytes"),
        ..Default::default()
    };
    assert_eq!(
        cat_error_of(faulty(file)),
        format!("failed to read contents of {path}: no bytes")
    );
    let file = File {
        contents: b"Sled { is_scrimlet: maybe, }".to_vec(),
        ..Default::default()
    };
    assert_eq!(
        cat_error_of(faulty(file)),
        format!("failed to parse sled serial from {path}")
    );
}

/// Of two records with one UUID the later counts, without zones and services.
#[test]
fn second_record_of_a_sled_has_no_logs() {
    let sled = br#"Sled { is_scrimlet: true, serial_number: "FIRST" }"#;
    let other = br#"Sled { is_scrimlet: false, serial_number: "SECOND" }"#;
    let first = format!("rack/a/sled/{TEST_SLED}/sled.txt");
    let second = format!("rack/b/sled/{TEST_SLED}/sled.txt");
    let log = format!("rack/a/sled/{TEST_SLED}/logs/zone/service/file");
    let source = MemorySource::with(&[(&first, sled), (&second, other), (&log, b"")]);
    let bundle = bundle(source);

    assert_eq!(bundle.info().sleds.len(), 1);
    let sled = bundle.info().sleds.get(TEST_SLED).unwrap();
    assert_eq!(sled.serial, "SECOND");
    assert_eq!(sled.zones.len(), 0);
    assert_eq!(sled.services.len(), 0);
}

#[test]
fn sled_info_sets_cubbies_and_unhealthy_sleds() {
    let sled = br#"Sled { is_scrimlet: true, serial_number: "BRM1" }"#;
    let path = format!("rack/a/sled/{TEST_SLED}/sled.txt");
    let json = format!(
        r#"{{"BRM1":{{"cubby":7,"uuid":"{TEST_SLED}"}},"BRM2":{{"cubby":null,"uuid":null}},
            "BRM3":{{"cubby":3,"uuid":null}},"BRM4":{{"cubby":4,"uuid":"unknown"}}}}"#
    );
    let bundle = bundle(MemorySource::with(&[
        (&path, sled),
        ("sled_info.json", json.as_bytes()),
    ]));

    assert_eq!(bundle.info().sleds.get(TEST_SLED).unwrap().cubby, Some(7));
    assert_eq!(bundle.info().unhealthy_sleds.len(), 2);
    assert_eq!(bundle.info().unhealthy_sleds.get("BRM3"), Some(&Some(3)));
    let mut out = String::new();
    bundle.write_sleds(&mut out);
    assert_eq!(
        out,
        format!(
            "CUBBY\tSERIAL     \tID                                  \tSCRIMLET\n \
             7\tBRM1\t{TEST_SLED}\t    true\n\
             \nUNHEALTHY SLEDS\nCUBBY\tSERIAL\n  \tBRM2\n 3\tBRM3\n\
             \nPOSSIBLY UNREACHABLE SLEDS \n\
             CUBBY\tSERIAL     \tID                                  \tMISSING BUNDLE OUTPUT\n \
             7\tBRM1\t{TEST_SLED}\tservices, zones\n"
        )
    );
}

#[test]
fn bundle_from_source_reads_inventory() {
    let bundle = cat_bundle(MemorySource::bundle());
    let mut out = String::new();
    bundle.services(&[], &mut out);
    assert_eq!(out, "sled-agent\n");
}

/// Services and zones with logs are listed though their sled has no record, or
/// though a second record overwrote the first.
#[test]
fn services_and_zones_of_sleds_without_a_record_are_listed() {
    let list = |source: MemorySource, patterns: &[Pattern]| {
        let bundle = cat_bundle(source);
        let mut services = String::new();
        let mut zones = String::new();
        bundle.services(patterns, &mut services);
        bundle.zones(patterns, &mut zones);
        (services, zones)
    };
    let both = ("s\n".to_string(), "z\n".to_string());
    let none = (String::new(), String::new());
    let lone = || MemorySource::with(&[("rack/R/sled/U/logs/z/s/f", b"")]);
    assert_eq!(list(lone(), &[]), both);
    assert_eq!(list(lone(), &[glob("U*")]), both);
    assert_eq!(list(lone(), &[glob("other")]), none);

    let twice = || {
        let sled = br#"Sled { is_scrimlet: true, serial_number: "S" }"#;
        MemorySource::with(&[
            ("rack/Q/sled/U/sled.txt", sled),
            ("rack/R/sled/U/sled.txt", sled),
            ("rack/R/sled/U/logs/z/s/f", b""),
        ])
    };
    assert_eq!(list(twice(), &[]), both);
    assert_eq!(list(twice(), &[glob("S")]), both);
    assert_eq!(list(twice(), &[glob("T")]), none);
}

/// A failure behind the opening brace is reported with its place.
#[test]
fn torn_sled_info_is_reported_with_its_place() {
    let mut source = MemorySource::with(&[("sled_info.json", b"{\n \"a\"")]);
    source.files.get_mut("sled_info.json").unwrap().read_error = Some("read failed");
    assert_eq!(
        error_of(source),
        "failed to parse sled information from bundle: failed to read sled_info.json: \
         read failed at line 2 column 4"
    );
}

/// The order of the names, and directories among them, leave the inventory as it
/// is.
#[test]
fn order_of_names_does_not_matter() {
    struct Reversed(MemorySource);

    impl BundleSource for Reversed {
        fn file_names(&self) -> Vec<String> {
            let mut names = self.0.file_names();
            names.reverse();
            names.push("rack/R/sled/U/logs/empty/".to_string());
            names
        }
        fn open_file(&mut self, path: &str) -> Result<(), BundleError> {
            self.0.open_file(path)
        }
        fn read(&mut self, max: usize) -> Result<Vec<u8>, BundleError> {
            self.0.read(max)
        }
        fn metadata(&mut self, path: &str) -> Result<BundleFileMetadata, BundleError> {
            self.0.metadata(path)
        }
    }

    let source = || {
        MemorySource::with(&[
            ("rack/R/sled/U/logs/z/s/f", b""),
            ("rack/R/sled/U/logs/y/t/f", b""),
            (
                "rack/R/sled/U/sled.txt",
                br#"Sled { is_scrimlet: true, serial_number: "S" }"#,
            ),
            (
                "rack/R/sled/V/sled.txt",
                br#"Sled { is_scrimlet: false, serial_number: "T" }"#,
            ),
            ("sled_info.json", br#"{"S":{"cubby":3,"uuid":"U"}}"#),
        ])
    };
    let forward = cat_bundle(source());
    let backward = ok(cat::Bundle::from_source(
        Reversed(source()),
        &decode_sled_info,
    ));
    let (mut a, mut b) = (String::new(), String::new());
    forward.sleds(&mut a);
    backward.sleds(&mut b);
    forward.services(&[], &mut a);
    backward.services(&[], &mut b);
    assert_eq!(a, b);
    assert!(a.ends_with("s\nt\n"));
}

#[test]
fn shallow_regular_log_path_does_not_infer_zone_or_service() {
    let mut source = MemorySource::bundle();
    source.files.retain(|path, _| path.ends_with("sled.txt"));
    source.add(
        &format!("rack/{TEST_RACK}/sled/{TEST_SLED}/logs/global/sled-agent"),
        b"",
    );

    let bundle = cat_bundle(source);
    let mut zones = String::new();
    let mut services = String::new();
    bundle.zones(&[], &mut zones);
    bundle.services(&[], &mut services);

    assert!(zones.is_empty());
    assert!(services.is_empty());
}

#[test]
fn empty_inventory_path_components_do_not_infer_zone_or_service() {
    let mut source = MemorySource::bundle();
    source.files.retain(|path, _| path.ends_with("sled.txt"));
    for path in ["logs//service/file", "logs/zone//file"] {
        source.add(&format!("rack/{TEST_RACK}/sled/{TEST_SLED}/{path}"), b"");
    }

    let bundle = cat_bundle(source);
    let mut zones = String::new();
    let mut services = String::new();
    bundle.zones(&[], &mut zones);
    bundle.services(&[], &mut services);

    assert!(zones.is_empty());
    assert!(services.is_empty());
}

/// A service directory says that its zone is there, an empty zone directory
/// says nothing.
#[test]
fn directories_and_the_zones_they_name() {
    let base = format!("rack/{TEST_RACK}/sled/{TEST_SLED}");
    let sled = br#"Sled { is_scrimlet: false, serial_number: "BRM99990001" }"#;
    let source = || {
        MemorySource::with(&[
            (&format!("{base}/sled.txt"), sled),
            (&format!("{base}/logs/empty/"), b""),
            (&format!("{base}/logs/zone/service/"), b""),
        ])
    };
    let mut zones = String::new();
    let mut services = String::new();
    let lenient = bundle(source());
    lenient.write_zones(&[], &mut zones);
    lenient.write_services(&[], &mut services);
    assert_eq!(zones, "zone\n");
    assert_eq!(services, "");

    let mut zones = String::new();
    cat_bundle(source()).zones(&[], &mut zones);
    assert_eq!(zones, "");
}

#[test]
fn boxed_bundle_source_executes_existing_operation() {
    let source: Box<dyn BundleSource> = Box::new(MemorySource::bundle());
    let bundle = ok(cat::Bundle::from_source(source, &decode_sled_info));
    let mut out = String::new();
    bundle.services(&[], &mut out);
    assert_eq!(out, "sled-agent\n");
}

fn structured_ereport_source() -> MemorySource {
    MemorySource::with(&[
        (
            "ereports/913-0000019-SERIAL1/restart-1/100.json",
            br#"{"class":"ereport.cpu.match","value":1}"#,
        ),
        (
            "ereports/913-0000019-SERIAL2/restart-2/200.json",
            br#"{"class":"ereport.io.other","value":2}"#,
        ),
        (
            "ereports/913-0000019-SERIAL3/restart-3/300.json",
            br#"{"value":3}"#,
        ),
    ])
}

/// Keeps the serial numbers of ereports, up to a limit.
struct Serials {
    seen: Vec<String>,
    limit: usize,
}

impl EreportHandler for Serials {
    fn handle(&mut self, entry: EreportEntry) -> Result<(), BundleError> {
        if self.seen.len() == self.limit {
            return Err(BundleError::new("enough".to_string()));
        }
        self.seen.push(entry.metadata.serial);
        Ok(())
    }
}

#[test]
fn structured_ereports_expose_data_and_retain_missing_classes() {
    let mut bundle = bundle(structured_ereport_source());
    let filter = EreportFilter {
        class: vec![glob("ereport.cpu*")],
        ..Default::default()
    };

    let entries = ok(bundle.ereports(&filter));

    assert_eq!(entries.len(), 2);
    assert_eq!(
        entries[0].path,
        "ereports/913-0000019-SERIAL1/restart-1/100.json"
    );
    assert_eq!(entries[0].metadata.serial, "SERIAL1");
    assert_eq!(entries[0].metadata.ena, 100);
    assert_eq!(entries[0].class.as_deref(), Some("ereport.cpu.match"));
    assert_eq!(
        entries[0].contents,
        r#"{"class":"ereport.cpu.match","value":1}"#
    );
    assert_eq!(entries[1].metadata.serial, "SERIAL3");
    assert_eq!(entries[1].class, None);

    let mut serials = Serials {
        seen: Vec::new(),
        limit: 9,
    };
    ok(bundle.for_each_ereport(&filter, &mut serials));
    assert_eq!(serials.seen, ["SERIAL1", "SERIAL3"]);
}

#[test]
fn ereport_handler_stops_the_walk() {
    let mut bundle = bundle(structured_ereport_source());
    let mut serials = Serials {
        seen: Vec::new(),
        limit: 2,
    };
    let error = bundle
        .for_each_ereport(&EreportFilter::default(), &mut serials)
        .unwrap_err();
    assert_eq!(error.report(), "enough");
    assert_eq!(serials.seen, ["SERIAL1", "SERIAL2"]);
}

#[test]
fn ereports_that_cannot_be_read_end_the_output() {
    let second = "ereports/913-0000019-SERIAL2/restart-2/200.json";
    let source = || {
        let mut source = structured_ereport_source();
        source.files.get_mut(second).unwrap().open_error = Some("gone");
        source
    };
    let mut out = String::new();
    let error = bundle(source())
        .write_ereports_list(&EreportListFilter::default(), &mut out)
        .unwrap_err();
    assert_eq!(error.report(), format!("failed to open {second}: gone"));
    assert_eq!(
        out,
        "PART       \tSERIAL     \tRESTART_ID                          \tENA\tCLASS\n\
         913-0000019\tSERIAL1    \trestart-1                           \t100\tereport.cpu.match\n"
    );

    let mut out = String::new();
    let error = bundle(source())
        .write_ereports_show(&EreportShowFilter::default(), &mut out)
        .unwrap_err();
    assert_eq!(error.report(), format!("failed to open {second}: gone"));
    assert_eq!(
        out,
        "==> ereports/913-0000019-SERIAL1/restart-1/100.json <==\n\
         {\n  \"class\": \"ereport.cpu.match\",\n  \"value\": 1\n}\n\n"
    );

    let mut out = String::new();
    let error = bundle_cat::archive::exec_ereports_list(
        &mut source(),
        &EreportListFilter::default(),
        &mut out,
    )
    .unwrap_err();
    assert_eq!(error.report(), "failed to access file index 1: gone");
}

/// Lenient paths may be longer and have empty components; contents that are no
/// JSON are shown as they are.
#[test]
fn lenient_paths_are_listed_by_the_command_line_only() {
    let source = || {
        MemorySource::with(&[
            ("ereports_old/-S/r/+7.json/extra", b"raw \"class\":\"c\""),
            ("ereports/P-S/r/8.json", b"not json"),
        ])
    };
    let mut strict = String::new();
    ok(bundle(source()).write_ereports_list(&EreportListFilter::default(), &mut strict));
    assert_eq!(
        strict,
        "PART       \tSERIAL     \tRESTART_ID                          \tE\tCLASS\n\
         P          \tS          \tr                                   \t8\tunknown\n"
            .replace("\tE\t", "\tENA\t")
    );
    let mut lenient = String::new();
    ok(cat_bundle(source()).ereports_show(cat::ComponentInfo::default(), true, &mut lenient));
    assert_eq!(lenient, "not jsonraw \"class\":\"c\"");
}

/// No ereports leave a heading with room for the title of the column.
#[test]
fn empty_listing_of_ereports() {
    let mut out = String::new();
    ok(bundle(MemorySource::default())
        .write_ereports_list(&EreportListFilter::default(), &mut out));
    assert_eq!(
        out,
        "PART       \tSERIAL     \tRESTART_ID                          \tENA\tCLASS\n"
    );
}

fn recording_source(events: Rc<RefCell<Vec<String>>>) -> MemorySource {
    let path = format!("rack/rack-id/sled/{SLED_UUID}/sled.txt");
    let mut source = MemorySource::with(&[
        (
            &path,
            br#"Sled { is_scrimlet: false, serial_number: "BRM03250013", }"#,
        ),
        (
            LOG_PATH,
            b"{\"time\":\"2025-09-24T06:30:00Z\"}\nlog body\n",
        ),
    ]);
    source.events = Some(events);
    source.modified = Some(time("2002-01-01T00:00:00Z"));
    source
}

/// Keeps the contents of logs.
#[derive(Default)]
struct Contents {
    bytes: Vec<u8>,
    paths: Vec<String>,
}

impl<S: BundleSource + ?Sized> LogHandler<S> for Contents {
    fn handle(
        &mut self,
        _style: &Style,
        log: &LogFile,
        source: &mut S,
        time_check_buf: Option<Vec<u8>>,
    ) -> Result<(), BundleError> {
        self.paths.push(log.path.clone());
        self.bytes.extend(time_check_buf.unwrap_or_default());
        reader::drain(source, &mut self.bytes)
    }
}

#[test]
fn time_filter_fetches_metadata_before_opening_read_callback() {
    let events = Rc::new(RefCell::new(Vec::new()));
    let mut bundle = bundle(recording_source(Rc::clone(&events)));
    events.borrow_mut().clear();
    let filter = LogFilter {
        after: Some(time("2025-09-24T06:00:00Z")),
        ..Default::default()
    };
    let mut contents = Contents::default();

    ok(bundle.for_each_log(&filter, &decode_time, &mut contents));

    let log_events: Vec<String> = events
        .borrow()
        .iter()
        .filter(|e| e.ends_with(LOG_PATH))
        .cloned()
        .collect();
    assert_eq!(
        log_events,
        vec![format!("metadata:{LOG_PATH}"), format!("open:{LOG_PATH}")]
    );
    assert_eq!(
        contents.bytes,
        b"{\"time\":\"2025-09-24T06:30:00Z\"}\nlog body\n"
    );
    assert_eq!(contents.paths, [LOG_PATH]);
}

#[test]
fn logs_of_unknown_sleds_are_passed_over() {
    let mut source = recording_source(Rc::new(RefCell::new(Vec::new())));
    source.add("rack/rack-id/sled/stranger/logs/zone/service/file.log", b"x");
    let mut bundle = bundle(source);
    let mut contents = Contents::default();
    ok(bundle.for_each_log(&LogFilter::default(), &decode_time, &mut contents));
    assert_eq!(contents.paths.len(), 2);

    let mut source = recording_source(Rc::new(RefCell::new(Vec::new())));
    source.add("rack/rack-id/sled/stranger/logs/zone/service/file.log", b"x");
    assert!(!cat_bundle(source).sleds_are_known());
}

#[test]
fn time_filtered_logs_fetch_metadata_before_open_and_write_complete_file_once() {
    let events = Rc::new(RefCell::new(Vec::new()));
    let mut source = MemorySource::bundle();
    source.events = Some(Rc::clone(&events));
    let mut bundle = cat_bundle(source);
    events.borrow_mut().clear();

    let mut out = Vec::new();
    let filter = cat::LogFilter {
        service: &[glob("sled-agent")],
        ..Default::default()
    };
    let range = TimeRange {
        after: Some(time("2025-09-01T00:00:00Z")),
        before: Some(time("2025-10-01T00:00:00Z")),
    };
    let output = cat::LogOutput {
        no_header: true,
        ..Default::default()
    };
    assert!(ok(bundle.logs(filter, range, output, &decode_time, &mut out)).is_none());

    let log_path = format!(
        "rack/{TEST_RACK}/sled/{TEST_SLED}/logs/global/sled-agent/current/oxide-sled-agent:default.log"
    );
    assert_eq!(
        *events.borrow(),
        [format!("metadata:{log_path}"), format!("open:{log_path}")]
    );
    assert_eq!(
        out,
        b"{\"time\":\"2025-09-24T06:30:00Z\",\"msg\":\"complete\"}\nsecond line\n"
    );
}

#[test]
fn log_timestamp_fallbacks_follow_content_filename_metadata_precedence() {
    let cases = [
        (
            "content timestamp",
            "test.log.1749945600",
            b"{\"time\":\"2024-06-15T00:00:00Z\"}\n".as_slice(),
            b"".as_slice(),
        ),
        (
            "filename timestamp",
            "test.log.1718409600",
            b"no timestamp\n".as_slice(),
            b"".as_slice(),
        ),
        (
            "metadata timestamp",
            "test.log",
            b"selected exactly once\n".as_slice(),
            b"selected exactly once\n".as_slice(),
        ),
    ];

    for (label, file_name, contents, expected) in cases {
        let sled_path = format!("rack/{TEST_RACK}/sled/{TEST_SLED}/sled.txt");
        let log_path = format!("rack/{TEST_RACK}/sled/{TEST_SLED}/logs/zone/test/{file_name}");
        let mut source = MemorySource::with(&[
            (
                &sled_path,
                br#"Sled { is_scrimlet: false, serial_number: "BRM99990001" }"#,
            ),
            (&log_path, contents),
        ]);
        source.modified = Some(time("2025-06-15T00:00:00Z"));
        let mut bundle = cat_bundle(source);
        let mut out = Vec::new();

        let filter = cat::LogFilter {
            service: &[glob("test")],
            ..Default::default()
        };
        let range = TimeRange {
            after: Some(time("2025-01-01T00:00:00Z")),
            before: Some(time("2026-01-01T00:00:00Z")),
        };
        let output = cat::LogOutput {
            no_header: true,
            ..Default::default()
        };
        assert!(ok(bundle.logs(filter, range, output, &decode_time, &mut out)).is_none());

        assert_eq!(out, expected, "{label}");
    }
}

/// A long log in small pieces: the head, and the whole, with and without a time
/// filter.
#[test]
fn long_logs_are_cut_at_lines() {
    let sled_path = format!("rack/{TEST_RACK}/sled/{TEST_SLED}/sled.txt");
    let log_path = format!("rack/{TEST_RACK}/sled/{TEST_SLED}/logs/zone/test/a.log.1749945600");
    let mut text = String::new();
    for i in 0..20_000 {
        text.push_str(&format!("line {i}\n"));
    }
    text.push_str("the end without a newline");
    let source = |chunk: Option<usize>| {
        let mut source = MemorySource::with(&[
            (
                &sled_path,
                br#"Sled { is_scrimlet: false, serial_number: "BRM99990001" }"#,
            ),
            (&log_path, text.as_bytes()),
        ]);
        source.chunk = chunk;
        source
    };
    for chunk in [None, Some(5), Some(8191)] {
        for after in [None, Some(time("2025-01-01T00:00:00Z"))] {
            for lines in [1, 7, 12_345, 20_000, 20_001] {
                let filter = LogFilter {
                    service: vec![glob("test")],
                    after,
                    line_ct: LineCount::new(lines),
                    no_header: true,
                    ..Default::default()
                };
                let mut out = Vec::new();
                ok(bundle(source(chunk)).write_logs(&filter, &decode_time, &mut out));
                let expected: String = text.split_inclusive('\n').take(lines).collect();
                assert!(out == expected.as_bytes(), "{lines} lines");
            }
            let filter = LogFilter {
                service: vec![glob("test")],
                after,
                no_header: true,
                ..Default::default()
            };
            let mut out = Vec::new();
            ok(bundle(source(chunk)).write_logs(&filter, &decode_time, &mut out));
            assert!(out == text.as_bytes());
        }
    }
}

/// A log that fails in the middle leaves what was read of it.
#[test]
fn failing_log_leaves_its_beginning() {
    let sled_path = format!("rack/{TEST_RACK}/sled/{TEST_SLED}/sled.txt");
    let log_path = format!("rack/{TEST_RACK}/sled/{TEST_SLED}/logs/zone/test/a.log");
    let source = || {
        let mut source = MemorySource::with(&[
            (
                &sled_path,
                br#"Sled { is_scrimlet: false, serial_number: "BRM99990001" }"#,
            ),
            (&log_path, b"one\ntwo"),
        ]);
        source.files.get_mut(&log_path).unwrap().read_error = Some("torn");
        source
    };
    let mut out = Vec::new();
    let filter = LogFilter {
        service: vec![glob("test")],
        ..Default::default()
    };
    let error = bundle(source())
        .write_logs(&filter, &decode_time, &mut out)
        .unwrap_err();
    assert_eq!(error.report(), "torn");
    assert_eq!(
        String::from_utf8(out).unwrap(),
        format!("==> {log_path} <==\none\ntwo")
    );

    let filter = LogFilter {
        service: vec![glob("test")],
        before: Some(time("2025-01-01T00:00:00Z")),
        ..Default::default()
    };
    let mut out = Vec::new();
    let error = bundle(source())
        .write_logs(&filter, &decode_time, &mut out)
        .unwrap_err();
    assert_eq!(
        error.report(),
        format!("failed to read file {log_path}: torn")
    );
    assert_eq!(out, b"");

    // The head alone does not reach the failure.
    let filter = LogFilter {
        service: vec![glob("test")],
        line_ct: LineCount::new(1),
        no_header: true,
        ..Default::default()
    };
    let mut out = Vec::new();
    ok(bundle(source()).write_logs(&filter, &decode_time, &mut out));
    assert_eq!(out, b"one\n");
}

/// An archive reads as much of a log as its length says.
#[test]
fn archive_wants_the_whole_head() {
    let log_path = format!("rack/{TEST_RACK}/sled/{TEST_SLED}/logs/zone/test/a.log");
    let sled_path = format!("rack/{TEST_RACK}/sled/{TEST_SLED}/sled.txt");

    /// A source that takes its files for longer than they are.
    struct Boasting(MemorySource);

    impl BundleSource for Boasting {
        fn file_names(&self) -> Vec<String> {
            self.0.file_names()
        }
        fn open_file(&mut self, path: &str) -> Result<(), BundleError> {
            self.0.open_file(path)
        }
        fn read(&mut self, max: usize) -> Result<Vec<u8>, BundleError> {
            self.0.read(max)
        }
        fn metadata(&mut self, path: &str) -> Result<BundleFileMetadata, BundleError> {
            let facts = self.0.metadata(path)?;
            Ok(BundleFileMetadata {
                len: facts.len.map(|n| n + 1),
                modified: facts.modified,
            })
        }
    }

    let mut inner = MemorySource::with(&[
        (
            &sled_path,
            br#"Sled { is_scrimlet: false, serial_number: "BRM99990001" }"#,
        ),
        (&log_path, b"{\"time\":\"2025-09-24T06:30:00Z\"}\n"),
    ]);
    let info = ok(BundleInfo::from_source(
        &mut inner,
        &decode_sled_info,
    ))
    .0;
    let args = LogFilter {
        service: vec![glob("test")],
        after: Some(time("2025-01-01T00:00:00Z")),
        list: true,
        ..Default::default()
    };
    let mut out = Vec::new();
    ok(bundle_cat::archive::exec_logs(
        &mut inner,
        &info,
        &args,
        &decode_time,
        &mut out,
    ));
    assert_eq!(String::from_utf8(out).unwrap(), format!("{log_path}\n"));

    let mut out = Vec::new();
    let error = bundle_cat::archive::exec_logs(
        &mut Boasting(inner),
        &info,
        &args,
        &decode_time,
        &mut out,
    )
    .unwrap_err();
    assert_eq!(
        error.report(),
        format!("failed to read file {log_path}: failed to fill whole buffer")
    );
}

/// What a command leaves when something on its way fails.
#[test]
fn failing_commands_end_the_run() {
    let fault = |m: &str| BundleError::new(m.to_string());
    let run = |outcome: CommandOutcome| {
        let mut bundle = cat_bundle(MemorySource::bundle());
        let mut out = Vec::new();
        let filter = cat::LogFilter {
            service: &[glob("sled-agent")],
            ..Default::default()
        };
        let output = cat::LogOutput {
            no_header: true,
            command: Some("jq"),
            ..Default::default()
        };
        let range = TimeRange::default();
        let request = ok(bundle.logs(filter, range, output, &decode_time, &mut out)).unwrap();
        assert_eq!(
            request.input(),
            b"{\"time\":\"2025-09-24T06:30:00Z\",\"msg\":\"complete\"}\nsecond line\n"
        );
        let r = bundle.resume_logs(
            request,
            "jq",
            outcome,
            range,
            output,
            &decode_time,
            &mut out,
        );
        let message = match r {
            Ok(pending) => {
                assert!(pending.is_none());
                None
            }
            Err(e) => Some(e.report()),
        };
        (message, String::from_utf8(out).unwrap())
    };
    let ran = |sent, copied, exit| CommandOutcome::Ran {
        output: b"out".to_vec(),
        sent,
        copied,
        exit,
    };
    assert_eq!(
        run(CommandOutcome::NotStarted(fault("no shell"))),
        (Some("no shell".to_string()), String::new())
    );
    assert_eq!(
        run(ran(Err(fault("pipe")), Err(fault("copy")), Exit::Success)),
        (Some("pipe".to_string()), "out".to_string())
    );
    assert_eq!(
        run(ran(Ok(()), Err(fault("copy")), Exit::Success)),
        (Some("copy".to_string()), "out".to_string())
    );
    assert_eq!(
        run(ran(Ok(()), Ok(()), Exit::Failure("exit status: 2".to_string()))),
        (
            Some("command 'jq' exited with exit status: 2".to_string()),
            "out".to_string()
        )
    );
    assert_eq!(
        run(ran(Ok(()), Ok(()), Exit::Unknown(fault("wait")))),
        (Some("wait".to_string()), "out".to_string())
    );
    assert_eq!(
        run(ran(Ok(()), Ok(()), Exit::Success)),
        (None, "out".to_string())
    );
}
