//! Whole bundles, packed as zip archives: listings, ereports and logs.
use bundle_cat::archive::{
    exec_ereports_list, exec_ereports_show, exec_logs, exec_services, exec_sleds, exec_zones,
};
use bundle_cat::bundle::{
    Bundle, EreportFilter, EreportListFilter, EreportShowFilter, LogFilter,
};
use bundle_cat::cat;
use bundle_cat::ereport::read_ereport_class;
use bundle_cat::error::BundleError;
use bundle_cat::inventory::{listing_is_complete, Decoded, SledId};
use bundle_cat::logs::{CommandOutcome, Exit};
use bundle_cat::pattern::Pattern;
use bundle_cat::reader::LineCount;
use bundle_cat::sled::BundleInfo;
use bundle_cat::source::{BundleFileMetadata, BundleSource};
use bundle_cat::time::{TimeRange, Timestamp};
use serde_json::Value;
use std::io::{Cursor, Read, Write};
use zip::write::{SimpleFileOptions, ZipWriter};
use zip::{CompressionMethod, DateTime, ZipArchive};

/// The compact form of a JSON document.
fn json_text(s: &str) -> String {
    serde_json::from_str::<Value>(s).unwrap().to_string()
}

#[derive(Default)]
struct ZipFile {
    name: &'static str,
    contents: Option<String>,
    mtime: Option<DateTime>,
}

fn zip_files() -> Vec<ZipFile> {
    vec![
        ZipFile {
            name: "ereports",
            ..Default::default()
        },
        ZipFile {
            name: "ereports/907-0000023-BRM03250000/",
            ..Default::default()
        },
        ZipFile {
            name: "ereports/907-0000023-BRM03250000/550e8400-e29b-41d4-a716-446655440000/",
            ..Default::default()
        },
        ZipFile {
            name: "ereports/907-0000023-BRM03250000/550e8400-e29b-41d4-a716-446655440000/305419896.json",
            contents: Some(
                json_text(r##"{
                  "restart_id": "550e8400-e29b-41d4-a716-446655440000",
                  "ena": "0x0000000012345678",
                  "time_collected": "2025-10-11T14:32:15.123Z",
                  "time_deleted": null,
                  "collector_id": "7c3a8b90-f234-4567-89ab-cdef01234567",
                  "part_number": "907-0000023",
                  "serial_number": "BRM03250000",
                  "class": "ereport.io.pci.device",
                  "reporter": {
                    "Sp": {
                      "sp_type": "Sled",
                      "slot": 5
                    }
                  },
                  "fault_class": "fault.io.pci.device.error",
                  "severity": "major",
                  "timestamp": 12345,
                  "details": {
                    "device_id": "0x1234",
                    "vendor_id": "0x8086"
                  }
                }"##),
            ),
            ..Default::default()
        },
        ZipFile {
            name: "ereports/913-0000019-BRM09250001/",
            ..Default::default()
        },
        ZipFile {
            name: "ereports/913-0000019-BRM09250001/660f9511-f3ac-52e5-b827-557766551111/",
            ..Default::default()
        },
        ZipFile {
            name: "ereports/913-0000019-BRM09250001/660f9511-f3ac-52e5-b827-557766551111/2596069104.json",
            contents: Some(
                json_text(r##"{
                  "restart_id": "660f9511-f3ac-52e5-b827-557766551111",
                  "ena": "0x000000009abcdef0",
                  "time_collected": "2025-10-11T14:45:22.456Z",
                  "time_deleted": "2025-10-11T15:00:00.000Z",
                  "collector_id": "8d4b9c01-e345-5678-90bc-def012345678",
                  "part_number": "913-0000019",
                  "serial_number": "BRM09250001",
                  "class": "ereport.cpu.amd.bus_interconnect_error",
                  "reporter": {
                    "HostOs": {
                      "sled": "9e5cad12-f456-6789-a1cd-ef0123456789"
                    }
                  },
                  "error_type": "bus_interconnect",
                  "cpu_id": 3,
                  "machine_check": {
                    "bank": 0,
                    "status": "0x1234567890abcdef"
                  }
                }"##),
            ),
            ..Default::default()
        },
        ZipFile {
            name: "rack/",
            ..Default::default()
        },
        ZipFile {
            name: "rack/34261901-b550-451c-9bd0-3926bb29c40d/",
            ..Default::default()
        },
        ZipFile {
            name: "rack/34261901-b550-451c-9bd0-3926bb29c40d/sled/",
            ..Default::default()
        },
        ZipFile {
            name: "rack/34261901-b550-451c-9bd0-3926bb29c40d/sled/690650fd-4f95-4b3a-b2ec-977d47154383/",
            ..Default::default()
        },
        ZipFile {
            name: "rack/34261901-b550-451c-9bd0-3926bb29c40d/sled/690650fd-4f95-4b3a-b2ec-977d47154383/logs/",
            ..Default::default()
        },
        ZipFile {
            name: "rack/34261901-b550-451c-9bd0-3926bb29c40d/sled/690650fd-4f95-4b3a-b2ec-977d47154383/logs/oxz_switch/",
            ..Default::default()
        },
        ZipFile {
            name: "rack/34261901-b550-451c-9bd0-3926bb29c40d/sled/690650fd-4f95-4b3a-b2ec-977d47154383/logs/oxz_switch/dendrite/",
            ..Default::default()
        },
        ZipFile {
            name: "rack/34261901-b550-451c-9bd0-3926bb29c40d/sled/690650fd-4f95-4b3a-b2ec-977d47154383/logs/oxz_switch/dendrite/archive/",
            ..Default::default()
        },
        // An archived log with all 1986 timestamps in its body. We should find this by the
        // file timestamp.
        ZipFile {
            name: "rack/34261901-b550-451c-9bd0-3926bb29c40d/sled/690650fd-4f95-4b3a-b2ec-977d47154383/logs/oxz_switch/dendrite/archive/oxide-dendrite:default.log.1758702600",
            contents: Some([
                r#"{"msg":"loopback entry fd69:644c:516f:ee88::1 already set","v":0,"name":"dpd","level":20,"time":"1986-12-26T07:30:02.0679829Z","hostname":"oxz_switch","pid":1717}"#,
                r#"{"msg":"request completed","v":0,"name":"dpd","level":30,"time":"1986-12-28T07:30:02.068057082Z","hostname":"oxz_switch","pid":1717,"uri":"/loopback/ipv6","method":"POST","req_id":"ce63fccd-fb9e-4a99-a3a8-5c1677740099","remote_addr":"[::1]:60692","local_addr":"[::1]:12224","server_id":"2","unit":"api-server","latency_us":92,"response_code":"204"}"#,
                r#"{"msg":"request completed","v":0,"name":"dpd","level":30,"time":"1986-12-28T07:30:02.068201157Z","hostname":"oxz_switch","pid":1717,"uri":"/route/ipv4/0.0.0.0%2F0","method":"GET","req_id":"af76ae57-5dbf-42c2-91c7-9a376a779188","remote_addr":"[::1]:60692","local_addr":"[::1]:12224","server_id":"2","unit":"api-server","latency_us":49,"response_code":"200"}"#,
                r#"{"msg":"request completed","v":0,"name":"dpd","level":30,"time":"1986-12-28T07:30:02.068945446Z","hostname":"oxz_switch","pid":1717,"uri":"/ports/qsfp0/links/0","method":"GET","req_id":"d3df6b3b-48e8-4ffb-ab03-1fe07c5e0126","remote_addr":"[::1]:60692","local_addr":"[::1]:12224","server_id":"2","unit":"api-server","latency_us":78,"response_code":"200"}"#
            ].join("\n").to_string()),
            ..Default::default()
        },
        ZipFile {
            name: "rack/34261901-b550-451c-9bd0-3926bb29c40d/sled/690650fd-4f95-4b3a-b2ec-977d47154383/logs/oxz_switch/dendrite/current/",
            ..Default::default()
        },
        // A current log with all 1986 timestamps in its body and a valid mtime.
        ZipFile {
            name: "rack/34261901-b550-451c-9bd0-3926bb29c40d/sled/690650fd-4f95-4b3a-b2ec-977d47154383/logs/oxz_switch/dendrite/current/oxide-dendrite:default.log",
            contents: Some([
                r#"{"msg":"loopback entry fd69:644c:516f:ee88::1 already set","v":0,"name":"dpd","level":20,"time":"1986-12-26T07:30:02.0679829Z","hostname":"oxz_switch","pid":1717}"#,
                r#"{"msg":"request completed","v":0,"name":"dpd","level":30,"time":"1986-12-28T07:30:02.068057082Z","hostname":"oxz_switch","pid":1717,"uri":"/loopback/ipv6","method":"POST","req_id":"ce63fccd-fb9e-4a99-a3a8-5c1677740099","remote_addr":"[::1]:60692","local_addr":"[::1]:12224","server_id":"2","unit":"api-server","latency_us":92,"response_code":"204"}"#,
                r#"{"msg":"request completed","v":0,"name":"dpd","level":30,"time":"1986-12-28T07:30:02.068201157Z","hostname":"oxz_switch","pid":1717,"uri":"/route/ipv4/0.0.0.0%2F0","method":"GET","req_id":"af76ae57-5dbf-42c2-91c7-9a376a779188","remote_addr":"[::1]:60692","local_addr":"[::1]:12224","server_id":"2","unit":"api-server","latency_us":49,"response_code":"200"}"#,
                r#"{"msg":"request completed","v":0,"name":"dpd","level":30,"time":"1986-12-28T07:30:02.068945446Z","hostname":"oxz_switch","pid":1717,"uri":"/ports/qsfp0/links/0","method":"GET","req_id":"d3df6b3b-48e8-4ffb-ab03-1fe07c5e0126","remote_addr":"[::1]:60692","local_addr":"[::1]:12224","server_id":"2","unit":"api-server","latency_us":78,"response_code":"200"}"#
            ].join("\n").to_string()),
            mtime: Some(DateTime::from_date_and_time(2025, 9, 24, 6, 30, 0).unwrap()),
        },
        ZipFile {
            name: "rack/34261901-b550-451c-9bd0-3926bb29c40d/sled/690650fd-4f95-4b3a-b2ec-977d47154383/sled.txt",
            contents: Some(r#"Sled { identity: SledIdentity { id: 690650fd-4f95-4b3a-b2ec-977d47154383, time_created: 2025-05-08T20:31:05.863348Z, time_modified: 2025-05-08T20:31:05.863348Z }, time_deleted: None, rcgen: Generation(Generation(21)), rack_id: 34261901-b550-451c-9bd0-3926bb29c40d, is_scrimlet: true, serial_number: "BRM03250013", part_number: "913-0000019", revision: SqlU32(14), usable_hardware_threads: SqlU32(128), usable_physical_ram: ByteCount(ByteCount(2186120527872)), reservoir_size: ByteCount(ByteCount(1790577737728)), ip: fd00:1122:3344:108::1, port: SqlU16(12345), last_used_address: fd00:1122:3344:108::1:7, policy: InService, state: Active, sled_agent_gen: Generation(Generation(1)), repo_depot_port: SqlU16(12348) }"#.to_string()),
            ..Default::default()
        },
        ZipFile {
            name: "rack/34261901-b550-451c-9bd0-3926bb29c40d/sled/f589c739-3c4c-4731-8f6f-41c8b2e72f89/",
            ..Default::default()
        },
        ZipFile {
            name: "rack/34261901-b550-451c-9bd0-3926bb29c40d/sled/f589c739-3c4c-4731-8f6f-41c8b2e72f89/logs/",
            ..Default::default()
        },
        ZipFile {
            name: "rack/34261901-b550-451c-9bd0-3926bb29c40d/sled/f589c739-3c4c-4731-8f6f-41c8b2e72f89/logs/global/",
            ..Default::default()
        },
        ZipFile {
            name: "rack/34261901-b550-451c-9bd0-3926bb29c40d/sled/f589c739-3c4c-4731-8f6f-41c8b2e72f89/logs/global/sled-agent/",
            ..Default::default()
        },
        ZipFile {
            name: "rack/34261901-b550-451c-9bd0-3926bb29c40d/sled/f589c739-3c4c-4731-8f6f-41c8b2e72f89/logs/global/sled-agent/archive/",
            ..Default::default()
        },
        ZipFile {
            name: "rack/34261901-b550-451c-9bd0-3926bb29c40d/sled/f589c739-3c4c-4731-8f6f-41c8b2e72f89/logs/global/sled-agent/archive/oxide-sled-agent:default.log.1758382851",
            contents: Some(r#"{"msg":"accepted connection","v":0,"name":"SledAgent","level":30,"time":"2025-09-20T03:10:05.955267578Z","hostname":"BRM03250017","pid":653,"local_addr":"[fd00:1122:3344:10b::1]:12345","component":"dropshot (SledAgent)","file":"/home/build/.cargo/registry/src/index.crates.io-1949cf8c6b5b557f/dropshot-0.16.2/src/server.rs:1025","remote_addr":"[fd00:1122:3344:110::3]:58794"}"#.to_string()),
            ..Default::default()
        },
        // A log with its first valid timestamp in 1986, but subsequent lines with a good
        // time.
        ZipFile {
            name: "rack/34261901-b550-451c-9bd0-3926bb29c40d/sled/f589c739-3c4c-4731-8f6f-41c8b2e72f89/logs/global/sled-agent/archive/oxide-sled-agent:default.log.1759246835",
            contents: Some([
                r#"{"msg":"request completed","v":0,"name":"SledAgent","level":30,"time":"1986-12-28T03:10:06.955544333Z","hostname":"BRM03250017","pid":653,"uri":"/vmms/6534d5a9-a7b7-4fc6-b593-c4fa2a1105bd/state","method":"GET","req_id":"28f129e9-8291-4f2a-a239-d86ae96baf49","remote_addr":"[fd00:1122:3344:110::3]:58794","local_addr":"[fd00:1122:3344:10b::1]:12345","component":"dropshot (SledAgent)","file":"/home/build/.cargo/registry/src/index.crates.io-1949cf8c6b5b557f/dropshot-0.16.2/src/server.rs:867","latency_us":162,"response_code":200}"#,
                r#"{"msg":"request completed","v":0,"name":"SledAgent","level":30,"time":"2025-09-30T18:46:54.021483428Z","hostname":"BRM03250017","pid":653,"uri":"/vpc-routes","method":"GET","req_id":"0a7087c0-dec9-43f5-b0a3-a4567f73853a","remote_addr":"[fd00:1122:3344:10e::3]:42087","local_addr":"[fd00:1122:3344:10b::1]:12345","component":"dropshot (SledAgent)","file":"/home/build/.cargo/registry/src/index.crates.io-1949cf8c6b5b557f/dropshot-0.16.2/src/server.rs:867","latency_us":45,"response_code":200}"#,
            ].join("\n").to_string()),
            ..Default::default()
        },
        ZipFile {
            name: "rack/34261901-b550-451c-9bd0-3926bb29c40d/sled/f589c739-3c4c-4731-8f6f-41c8b2e72f89/logs/global/sled-agent/current/",
            ..Default::default()
        },
        ZipFile {
            name: "rack/34261901-b550-451c-9bd0-3926bb29c40d/sled/f589c739-3c4c-4731-8f6f-41c8b2e72f89/logs/global/sled-agent/current/oxide-sled-agent:default.log",
            contents: Some(r#"{"msg":"request completed","v":0,"name":"SledAgent","level":30,"time":"2025-10-05T16:13:17.955544333Z","hostname":"BRM03250017","pid":653,"uri":"/vmms/6534d5a9-a7b7-4fc6-b593-c4fa2a1105bd/state","method":"GET","req_id":"28f129e9-8291-4f2a-a239-d86ae96baf49","remote_addr":"[fd00:1122:3344:110::3]:58794","local_addr":"[fd00:1122:3344:10b::1]:12345","component":"dropshot (SledAgent)","file":"/home/build/.cargo/registry/src/index.crates.io-1949cf8c6b5b557f/dropshot-0.16.2/src/server.rs:867","latency_us":162,"response_code":200}"#.to_string()),
            ..Default::default()
        },
        ZipFile {
            name: "rack/34261901-b550-451c-9bd0-3926bb29c40d/sled/f589c739-3c4c-4731-8f6f-41c8b2e72f89/logs/oxz_nexus_b48c76b6-656f-4258-862a-4d2a2b9abfc0/",
            ..Default::default()
        },
        ZipFile {
            name: "rack/34261901-b550-451c-9bd0-3926bb29c40d/sled/f589c739-3c4c-4731-8f6f-41c8b2e72f89/logs/oxz_nexus_b48c76b6-656f-4258-862a-4d2a2b9abfc0/nexus/",
            ..Default::default()
        },
        ZipFile {
            name: "rack/34261901-b550-451c-9bd0-3926bb29c40d/sled/f589c739-3c4c-4731-8f6f-41c8b2e72f89/logs/oxz_nexus_b48c76b6-656f-4258-862a-4d2a2b9abfc0/nexus/current/",
            ..Default::default()
        },
        ZipFile {
            name: "rack/34261901-b550-451c-9bd0-3926bb29c40d/sled/f589c739-3c4c-4731-8f6f-41c8b2e72f89/logs/oxz_nexus_b48c76b6-656f-4258-862a-4d2a2b9abfc0/nexus/current/oxide-nexus:default.log",
            contents: Some(r#"{"msg":"client response","v":0,"name":"nexus","level":20,"time":"2025-09-24T09:00:01.813252417Z","hostname":"oxz_nexus_b48c76b6-656f-4258-862a-4d2a2b9abfc0","pid":10391,"gateway_url":"http://[fd00:1122:3344:108::2]:12225","background_task":"inventory_collection","component":"BackgroundTasks","component":"nexus","component":"ServerContext","name":"b48c76b6-656f-4258-862a-4d2a2b9abfc0","result":"Ok(Response { url: \"http://[fd00:1122:3344:108::2]:12225/sp/sled/20/component/rot/caboose?firmware_slot=1\", status: 200, headers: {\"content-type\": \"application/json\", \"x-request-id\": \"c41ca417-a096-458c-98c3-d0604e66d5a9\", \"content-length\": \"206\", \"date\": \"Wed, 24 Sep 2025 09:00:01 GMT\"} })"}"#.to_string()),
            ..Default::default()
        },
        ZipFile {
            name: "rack/34261901-b550-451c-9bd0-3926bb29c40d/sled/f589c739-3c4c-4731-8f6f-41c8b2e72f89/logs/oxz_ntp_b4c60b54-c6e8-40e8-90f6-57a7ee2ce107/",
            ..Default::default()
        },
        ZipFile {
            name: "rack/34261901-b550-451c-9bd0-3926bb29c40d/sled/f589c739-3c4c-4731-8f6f-41c8b2e72f89/logs/oxz_ntp_b4c60b54-c6e8-40e8-90f6-57a7ee2ce107/ntp/",
            ..Default::default()
        },
        ZipFile {
            name: "rack/34261901-b550-451c-9bd0-3926bb29c40d/sled/f589c739-3c4c-4731-8f6f-41c8b2e72f89/logs/oxz_ntp_b4c60b54-c6e8-40e8-90f6-57a7ee2ce107/ntp/archive/",
            ..Default::default()
        },
        ZipFile {
            name: "rack/34261901-b550-451c-9bd0-3926bb29c40d/sled/f589c739-3c4c-4731-8f6f-41c8b2e72f89/logs/oxz_ntp_b4c60b54-c6e8-40e8-90f6-57a7ee2ce107/ntp/archive/oxide-ntp:default.log.1758698540",
            contents: Some(r#"2025-09-24T05:58:09Z Selected source fd00:1122:3344:101::e (boundary-ntp.control-plane.oxide.internal)"#.to_string()),
            ..Default::default()
        },
        ZipFile {
            name: "rack/34261901-b550-451c-9bd0-3926bb29c40d/sled/f589c739-3c4c-4731-8f6f-41c8b2e72f89/sled.txt",
            contents: Some(r#"Sled { identity: SledIdentity { id: f589c739-3c4c-4731-8f6f-41c8b2e72f89, time_created: 2025-05-08T20:31:07.381152Z, time_modified: 2025-09-22T15:44:13.232736Z }, time_deleted: None, rcgen: Generation(Generation(21)), rack_id: 34261901-b550-451c-9bd0-3926bb29c40d, is_scrimlet: false, serial_number: "BRM03250017", part_number: "913-0000019", revision: SqlU32(14), usable_hardware_threads: SqlU32(128), usable_physical_ram: ByteCount(ByteCount(2186120527872)), reservoir_size: ByteCount(ByteCount(1790577737728)), ip: fd00:1122:3344:10b::1, port: SqlU16(12345), last_used_address: fd00:1122:3344:10b::1:8, policy: InService, state: Active, sled_agent_gen: Generation(Generation(3)), repo_depot_port: SqlU16(12348) }"#.to_string()),
            ..Default::default()
        },
        ZipFile {
            name: "sled_info.json",
            contents: Some(r##"{
  "BRM03250017": {
    "cubby": 8,
    "uuid": "f589c739-3c4c-4731-8f6f-41c8b2e72f89"
  },
  "BRM03250013": {
    "cubby": 14,
    "uuid": "690650fd-4f95-4b3a-b2ec-977d47154383"
  },
  "BRM03250666": {
    "cubby": 13,
    "uuid": null
  }
}"##.to_string()),
            ..Default::default()
        }
    ]
}

fn build_zip() -> Vec<u8> {
    let mut zip = ZipWriter::new(Cursor::new(Vec::new()));

    for file in zip_files() {
        let options = SimpleFileOptions::default()
            .compression_method(CompressionMethod::Stored)
            .last_modified_time(file.mtime.unwrap_or_default());
        if let Some(contents) = file.contents {
            zip.start_file(file.name, options).unwrap();
            zip.write_all(contents.as_bytes()).unwrap();
            zip.write_all(b"\n").unwrap();
        } else {
            zip.add_directory(file.name, options).unwrap();
        }
    }

    zip.finish().unwrap().into_inner()
}


fn fault(message: String) -> BundleError {
    BundleError::new(message)
}

/// A source over a zip archive: a file is unpacked when it is opened.
struct ZipSource {
    archive: ZipArchive<Cursor<Vec<u8>>>,
    open: Cursor<Vec<u8>>,
}

impl ZipSource {
    fn new(bytes: Vec<u8>) -> Self {
        ZipSource {
            archive: ZipArchive::new(Cursor::new(bytes)).unwrap(),
            open: Cursor::new(Vec::new()),
        }
    }
}

impl BundleSource for ZipSource {
    fn file_names(&self) -> Vec<String> {
        self.archive.file_names().map(str::to_owned).collect()
    }

    fn open_file(&mut self, path: &str) -> Result<(), BundleError> {
        let mut file = self
            .archive
            .by_name(path)
            .map_err(|e| fault(e.to_string()))?;
        let mut contents = Vec::new();
        file.read_to_end(&mut contents)
            .map_err(|e| fault(e.to_string()))?;
        self.open = Cursor::new(contents);
        Ok(())
    }

    fn read(&mut self, max: usize) -> Result<Vec<u8>, BundleError> {
        let mut chunk = vec![0; max];
        let n = self
            .open
            .read(&mut chunk)
            .map_err(|e| fault(e.to_string()))?;
        chunk.truncate(n);
        Ok(chunk)
    }

    fn metadata(&mut self, path: &str) -> Result<BundleFileMetadata, BundleError> {
        let file = self
            .archive
            .by_name(path)
            .map_err(|e| fault(e.to_string()))?;
        let modified = file.last_modified().and_then(|time| {
            let civil = jiff::civil::DateTime::try_from(time).ok()?;
            let zoned = civil.to_zoned(jiff::tz::TimeZone::UTC).ok()?;
            Timestamp::from_nanosecond(zoned.timestamp().as_nanosecond())
        });
        Ok(BundleFileMetadata {
            len: Some(file.size()),
            modified,
        })
    }
}

/// The records of `sled_info.json`, in the order of the serial numbers.
fn decode_sled_info(bytes: &[u8], _complete: bool) -> Decoded {
    let json: Value = match serde_json::from_slice(bytes) {
        Ok(json) => json,
        Err(e) => return Decoded::Malformed(e.to_string()),
    };
    let mut ids = Vec::new();
    for (serial, id) in json.as_object().unwrap() {
        ids.push(SledId {
            serial: serial.clone(),
            cubby: id["cubby"].as_u64().map(|n| n as u16),
            uuid: id["uuid"].as_str().map(str::to_owned),
        });
    }
    Decoded::Entries(ids)
}

/// The time of a log event.
fn decode_time(line: &[u8]) -> Option<Timestamp> {
    let json: Value = serde_json::from_slice(line).ok()?;
    let time = json.get("time")?.as_str()?.parse::<jiff::Timestamp>().ok()?;
    Timestamp::from_nanosecond(time.as_nanosecond())
}

fn time(s: &str) -> Timestamp {
    let time = s.parse::<jiff::Timestamp>().unwrap();
    Timestamp::from_nanosecond(time.as_nanosecond()).unwrap()
}

fn glob(s: &str) -> Pattern {
    Pattern::new(s).unwrap()
}

fn ok<T>(r: Result<T, BundleError>) -> T {
    r.unwrap_or_else(|e| panic!("{}", e.report()))
}

fn bundle() -> Bundle<ZipSource> {
    ok(Bundle::from_source(ZipSource::new(build_zip()), &decode_sled_info))
}

fn cat_bundle() -> cat::Bundle<ZipSource> {
    ok(cat::Bundle::from_source(ZipSource::new(build_zip()), &decode_sled_info))
}

fn archive_info(archive: &mut ZipSource) -> BundleInfo {
    assert!(listing_is_complete(&archive.file_names()));
    let (info, warning) = ok(BundleInfo::from_archive(archive, &decode_sled_info));
    assert_eq!(warning, None);
    info
}

const SLED_A: &str = "690650fd-4f95-4b3a-b2ec-977d47154383";
const SLED_B: &str = "f589c739-3c4c-4731-8f6f-41c8b2e72f89";


const RACK: &str = "rack/34261901-b550-451c-9bd0-3926bb29c40d/sled";

/// The text of a file of the fixture.
fn contents(path: &str) -> String {
    let file = zip_files().into_iter().find(|f| f.name == path);
    format!("{}\n", file.unwrap().contents.unwrap())
}

fn dendrite_archive() -> String {
    format!("{RACK}/{SLED_A}/logs/oxz_switch/dendrite/archive/oxide-dendrite:default.log.1758702600")
}

fn dendrite_current() -> String {
    format!("{RACK}/{SLED_A}/logs/oxz_switch/dendrite/current/oxide-dendrite:default.log")
}

fn sled_a_txt() -> String {
    format!("{RACK}/{SLED_A}/sled.txt")
}

fn agent(file: &str) -> String {
    format!("{RACK}/{SLED_B}/logs/global/sled-agent/{file}")
}

fn nexus() -> String {
    format!(
        "{RACK}/{SLED_B}/logs/oxz_nexus_b48c76b6-656f-4258-862a-4d2a2b9abfc0/nexus/current/oxide-nexus:default.log"
    )
}

fn ntp() -> String {
    format!(
        "{RACK}/{SLED_B}/logs/oxz_ntp_b4c60b54-c6e8-40e8-90f6-57a7ee2ce107/ntp/archive/oxide-ntp:default.log.1758698540"
    )
}

fn sled_b_txt() -> String {
    format!("{RACK}/{SLED_B}/sled.txt")
}

fn all_logs() -> Vec<String> {
    vec![
        dendrite_archive(),
        dendrite_current(),
        sled_a_txt(),
        agent("archive/oxide-sled-agent:default.log.1758382851"),
        agent("archive/oxide-sled-agent:default.log.1759246835"),
        agent("current/oxide-sled-agent:default.log"),
        nexus(),
        ntp(),
        sled_b_txt(),
    ]
}

/// The logs from after 2025-09-24T06:00:00Z.
fn logs_after() -> Vec<String> {
    vec![
        dendrite_archive(),
        dendrite_current(),
        agent("archive/oxide-sled-agent:default.log.1759246835"),
        agent("current/oxide-sled-agent:default.log"),
        nexus(),
        ntp(),
    ]
}

/// The logs from before 2025-09-24T06:00:00Z.
fn logs_before() -> Vec<String> {
    vec![agent("archive/oxide-sled-agent:default.log.1758382851")]
}

/// Files as they are shown, each with a header.
fn with_headers(paths: &[String]) -> String {
    let mut out = String::new();
    for path in paths {
        out.push_str(&format!("==> {path} <==\n{}\n", contents(path)));
    }
    out
}

/// The first `n` lines of files, each with a header.
fn heads(paths: &[String], n: usize) -> String {
    let mut out = String::new();
    for path in paths {
        let text = contents(path);
        let head: String = text.split_inclusive('\n').take(n).collect();
        out.push_str(&format!("==> {path} <==\n{head}\n"));
    }
    out
}

fn listed(paths: &[String]) -> String {
    paths.iter().map(|p| format!("{p}\n")).collect()
}

fn plain(paths: &[String]) -> String {
    paths.iter().map(|p| contents(p)).collect()
}

const SLEDS: &str = "CUBBY\tSERIAL     \tID                                  \tSCRIMLET\n \
8\tBRM03250017\tf589c739-3c4c-4731-8f6f-41c8b2e72f89\t   false\n\
14\tBRM03250013\t690650fd-4f95-4b3a-b2ec-977d47154383\t    true\n\
\nUNHEALTHY SLEDS\nCUBBY\tSERIAL\n13\tBRM03250666\n";

const SERVICES: &str = "dendrite\nnexus\nntp\nsled-agent\n";
const SERVICES_B: &str = "nexus\nntp\nsled-agent\n";
const SERVICES_A: &str = "dendrite\n";

const ZONES: &str = "global\noxz_nexus_b48c76b6-656f-4258-862a-4d2a2b9abfc0\n\
oxz_ntp_b4c60b54-c6e8-40e8-90f6-57a7ee2ce107\noxz_switch\n";
const ZONES_B: &str = "global\noxz_nexus_b48c76b6-656f-4258-862a-4d2a2b9abfc0\n\
oxz_ntp_b4c60b54-c6e8-40e8-90f6-57a7ee2ce107\n";
const ZONES_A: &str = "oxz_switch\n";

const REPORT_A: &str =
    "ereports/907-0000023-BRM03250000/550e8400-e29b-41d4-a716-446655440000/305419896.json";
const REPORT_B: &str =
    "ereports/913-0000019-BRM09250001/660f9511-f3ac-52e5-b827-557766551111/2596069104.json";

const LIST_HEADING: &str =
    "PART       \tSERIAL     \tRESTART_ID                          \tENA       \tCLASS\n";
const LIST_A: &str = "907-0000023\tBRM03250000\t550e8400-e29b-41d4-a716-446655440000\t 305419896\t\
ereport.io.pci.device\n";
const LIST_B: &str = "913-0000019\tBRM09250001\t660f9511-f3ac-52e5-b827-557766551111\t2596069104\t\
ereport.cpu.amd.bus_interconnect_error\n";
const LIST_HEADING_A: &str =
    "PART       \tSERIAL     \tRESTART_ID                          \tENA      \tCLASS\n";
const LIST_ALONE_A: &str =
    "907-0000023\tBRM03250000\t550e8400-e29b-41d4-a716-446655440000\t305419896\t\
ereport.io.pci.device\n";

/// An ereport as it is shown without a header.
fn pretty(path: &str) -> String {
    let json: Value = serde_json::from_str(&contents(path)).unwrap();
    format!("{}\n", serde_json::to_string_pretty(&json).unwrap())
}

/// An ereport as it is shown with a header.
fn shown(path: &str) -> String {
    format!("==> {path} <==\n{}\n", pretty(path))
}

#[test]
fn bundle_test_sleds() {
    let bundle = bundle();
    let mut out = String::new();
    bundle.write_sleds(&mut out);
    assert_eq!(out, SLEDS);
}

#[test]
fn bundle_test_services() {
    let bundle = bundle();

    let mut out = String::new();
    bundle.write_services(&[], &mut out);
    assert_eq!(out, SERVICES);

    let mut out = String::new();
    bundle.write_services(&[glob("f589c*")], &mut out);
    assert_eq!(out, SERVICES_B);

    let mut out = String::new();
    bundle.write_services(&[glob("BRM03250013")], &mut out);
    assert_eq!(out, SERVICES_A);
}

#[test]
fn bundle_test_zones() {
    let bundle = bundle();

    let mut out = String::new();
    bundle.write_zones(&[], &mut out);
    assert_eq!(out, ZONES);

    let mut out = String::new();
    bundle.write_zones(&[glob("f589c*")], &mut out);
    assert_eq!(out, ZONES_B);

    let mut out = String::new();
    bundle.write_zones(&[glob("BRM03250013")], &mut out);
    assert_eq!(out, ZONES_A);
}

/// A zip containing a sled with sled.txt but no logs/{zone}/{service}
/// descendants.
fn incomplete_zip() -> Vec<u8> {
    let sled_uuid = "aaaaaaaa-bbbb-cccc-dddd-eeeeeeeeeeee";
    let sled_txt = format!(
        r#"Sled {{ identity: SledIdentity {{ id: {sled_uuid}, time_created: 2025-05-08T20:31:05.863348Z, time_modified: 2025-05-08T20:31:05.863348Z }}, time_deleted: None, rcgen: Generation(Generation(1)), rack_id: 34261901-b550-451c-9bd0-3926bb29c40d, is_scrimlet: false, serial_number: "BRM99990001", part_number: "913-0000019", revision: SqlU32(14), usable_hardware_threads: SqlU32(128), usable_physical_ram: ByteCount(ByteCount(2186120527872)), reservoir_size: ByteCount(ByteCount(1790577737728)), ip: fd00:1122:3344:108::1, port: SqlU16(12345), last_used_address: fd00:1122:3344:108::1:7, policy: InService, state: Active, sled_agent_gen: Generation(Generation(1)), repo_depot_port: SqlU16(12348) }}"#
    );

    let sled_dir = format!("rack/34261901-b550-451c-9bd0-3926bb29c40d/sled/{sled_uuid}/");
    let sled_txt_path =
        format!("rack/34261901-b550-451c-9bd0-3926bb29c40d/sled/{sled_uuid}/sled.txt");

    let files: Vec<(&str, Option<&str>)> = vec![
        ("rack/", None),
        ("rack/34261901-b550-451c-9bd0-3926bb29c40d/", None),
        ("rack/34261901-b550-451c-9bd0-3926bb29c40d/sled/", None),
        (&sled_dir, None),
        (&sled_txt_path, Some(sled_txt.as_str())),
    ];

    let mut zip = ZipWriter::new(Cursor::new(Vec::new()));
    let options = SimpleFileOptions::default().compression_method(CompressionMethod::Stored);
    for (name, contents) in &files {
        if let Some(contents) = contents {
            zip.start_file(*name, options).unwrap();
            zip.write_all(contents.as_bytes()).unwrap();
            zip.write_all(b"\n").unwrap();
        } else {
            zip.add_directory(*name, options).unwrap();
        }
    }
    zip.finish().unwrap().into_inner()
}

const INCOMPLETE: &str = "CUBBY\tSERIAL     \tID                                  \tSCRIMLET\n\
\x20\x20\tBRM99990001\taaaaaaaa-bbbb-cccc-dddd-eeeeeeeeeeee\t   false\n\
\nPOSSIBLY UNREACHABLE SLEDS \n\
CUBBY\tSERIAL     \tID                                  \tMISSING BUNDLE OUTPUT\n\
\x20\x20\tBRM99990001\taaaaaaaa-bbbb-cccc-dddd-eeeeeeeeeeee\tservices, zones\n";

#[test]
fn bundle_test_incomplete_bundle_sled_no_services_or_zones() {
    let bundle = ok(Bundle::from_source(
        ZipSource::new(incomplete_zip()),
        &decode_sled_info,
    ));
    let mut out = String::new();
    bundle.write_sleds(&mut out);
    assert_eq!(out, INCOMPLETE);
}

#[test]
fn ereport_test_ereports_list() {
    let mut bundle = bundle();

    let mut out = String::new();
    ok(bundle.write_ereports_list(&EreportListFilter::default(), &mut out));
    assert_eq!(out, format!("{LIST_HEADING}{LIST_A}{LIST_B}"));

    let mut out = String::new();
    let filter = EreportListFilter {
        serial: vec![glob("BRM09*")],
        ..Default::default()
    };
    ok(bundle.write_ereports_list(&filter, &mut out));
    assert_eq!(out, format!("{LIST_HEADING}{LIST_B}"));

    let mut out = String::new();
    let filter = EreportListFilter {
        part: vec![glob("907*")],
        ..Default::default()
    };
    ok(bundle.write_ereports_list(&filter, &mut out));
    assert_eq!(out, format!("{LIST_HEADING_A}{LIST_ALONE_A}"));

    let mut out = String::new();
    let filter = EreportListFilter {
        class: vec![glob("ereport.cpu*")],
        ..Default::default()
    };
    ok(bundle.write_ereports_list(&filter, &mut out));
    assert_eq!(out, format!("{LIST_HEADING}{LIST_B}"));
}

#[test]
fn ereport_test_ereports_show() {
    let mut bundle = bundle();

    let mut out = String::new();
    ok(bundle.write_ereports_show(&EreportShowFilter::default(), &mut out));
    assert_eq!(out, shown(REPORT_A) + &shown(REPORT_B));

    let mut out = String::new();
    let filter = EreportShowFilter {
        no_header: true,
        ..Default::default()
    };
    ok(bundle.write_ereports_show(&filter, &mut out));
    assert_eq!(out, pretty(REPORT_A) + &pretty(REPORT_B));

    let mut out = String::new();
    let filter = EreportShowFilter {
        serial: vec![glob("BRM09*")],
        ..Default::default()
    };
    ok(bundle.write_ereports_show(&filter, &mut out));
    assert_eq!(out, shown(REPORT_B));

    let mut out = String::new();
    let filter = EreportShowFilter {
        part: vec![glob("907*")],
        ..Default::default()
    };
    ok(bundle.write_ereports_show(&filter, &mut out));
    assert_eq!(out, shown(REPORT_A));

    let mut out = String::new();
    let filter = EreportShowFilter {
        class: vec![glob("ereport.cpu*")],
        ..Default::default()
    };
    ok(bundle.write_ereports_show(&filter, &mut out));
    assert_eq!(out, shown(REPORT_B));
}

#[test]
fn ereport_test_read_ereport_class() {
    let ereport = zip_files()[3].contents.clone().unwrap();
    assert_eq!(
        read_ereport_class(&ereport).as_deref(),
        Some("ereport.io.pci.device")
    );
}

#[test]
fn lib_test_read_ereport_class() {
    let ereport = zip_files()[3].contents.clone().unwrap();
    assert_eq!(
        read_ereport_class(&ereport).as_deref(),
        Some("ereport.io.pci.device")
    );
}

#[test]
fn main_test_read_ereport_class() {
    let ereport = zip_files()[3].contents.clone().unwrap();
    assert_eq!(
        read_ereport_class(&ereport).as_deref(),
        Some("ereport.io.pci.device")
    );
}

/// The logs that a filter selects, as text.
fn written(filter: &LogFilter) -> String {
    let mut out = Vec::new();
    ok(bundle().write_logs(filter, &decode_time, &mut out));
    String::from_utf8(out).unwrap()
}

#[test]
fn log_test_logs() {
    assert_eq!(written(&LogFilter::default()), with_headers(&all_logs()));

    let filter = LogFilter {
        sled: vec![glob("BRM03250013")],
        ..Default::default()
    };
    assert_eq!(written(&filter), with_headers(&all_logs()[..3]));

    let filter = LogFilter {
        zone: vec![glob("oxz_switch")],
        ..Default::default()
    };
    assert_eq!(written(&filter), with_headers(&all_logs()[..2]));

    let filter = LogFilter {
        path: vec![glob("*sled.txt")],
        ..Default::default()
    };
    assert_eq!(written(&filter), with_headers(&[sled_a_txt(), sled_b_txt()]));

    let filter = LogFilter {
        after: Some(time("2025-09-24T06:00:00.0Z")),
        ..Default::default()
    };
    assert_eq!(written(&filter), with_headers(&logs_after()));

    let filter = LogFilter {
        before: Some(time("2025-09-24T06:00:00.0Z")),
        ..Default::default()
    };
    assert_eq!(written(&filter), with_headers(&logs_before()));

    let filter = LogFilter {
        list: true,
        ..Default::default()
    };
    assert_eq!(written(&filter), listed(&all_logs()));

    let filter = LogFilter {
        line_ct: LineCount::new(2),
        ..Default::default()
    };
    assert_eq!(written(&filter), heads(&all_logs(), 2));

    let filter = LogFilter {
        no_header: true,
        ..Default::default()
    };
    assert_eq!(written(&filter), plain(&all_logs()));
}

#[test]
fn log_time_filter_with_head_and_list() {
    let filter = LogFilter {
        after: Some(time("2025-09-24T06:00:00.0Z")),
        line_ct: LineCount::new(2),
        ..Default::default()
    };
    assert_eq!(written(&filter), heads(&logs_after(), 2));

    let filter = LogFilter {
        after: Some(time("2025-09-24T06:00:00.0Z")),
        list: true,
        ..Default::default()
    };
    assert_eq!(written(&filter), listed(&logs_after()));
}

#[test]
fn lib_test_ereports_list() {
    let mut bundle = cat_bundle();

    let mut out = String::new();
    ok(bundle.ereports_list(cat::ComponentInfo::default(), &mut out));
    assert_eq!(out, format!("{LIST_HEADING}{LIST_A}{LIST_B}"));

    let mut out = String::new();
    let components = cat::ComponentInfo {
        serial: &[glob("BRM09*")],
        ..Default::default()
    };
    ok(bundle.ereports_list(components, &mut out));
    assert_eq!(out, format!("{LIST_HEADING}{LIST_B}"));

    let mut out = String::new();
    let components = cat::ComponentInfo {
        part: &[glob("907*")],
        ..Default::default()
    };
    ok(bundle.ereports_list(components, &mut out));
    assert_eq!(out, format!("{LIST_HEADING_A}{LIST_ALONE_A}"));

    let mut out = String::new();
    let components = cat::ComponentInfo {
        class: &[glob("ereport.cpu*")],
        ..Default::default()
    };
    ok(bundle.ereports_list(components, &mut out));
    assert_eq!(out, format!("{LIST_HEADING}{LIST_B}"));
}

#[test]
fn lib_test_ereports_show() {
    let mut bundle = cat_bundle();

    let mut out = String::new();
    ok(bundle.ereports_show(cat::ComponentInfo::default(), false, &mut out));
    assert_eq!(out, shown(REPORT_A) + &shown(REPORT_B));

    let mut out = String::new();
    ok(bundle.ereports_show(cat::ComponentInfo::default(), true, &mut out));
    assert_eq!(out, pretty(REPORT_A) + &pretty(REPORT_B));

    let mut out = String::new();
    let components = cat::ComponentInfo {
        serial: &[glob("BRM09*")],
        ..Default::default()
    };
    ok(bundle.ereports_show(components, false, &mut out));
    assert_eq!(out, shown(REPORT_B));

    let mut out = String::new();
    let components = cat::ComponentInfo {
        part: &[glob("907*")],
        ..Default::default()
    };
    ok(bundle.ereports_show(components, false, &mut out));
    assert_eq!(out, shown(REPORT_A));

    let mut out = String::new();
    let components = cat::ComponentInfo {
        class: &[glob("ereport.cpu*")],
        ..Default::default()
    };
    ok(bundle.ereports_show(components, false, &mut out));
    assert_eq!(out, shown(REPORT_B));
}

/// The logs that a filter selects, as text, when no command is run.
fn catted(filter: cat::LogFilter, time: TimeRange, output: cat::LogOutput) -> String {
    let mut bundle = cat_bundle();
    assert!(bundle.sleds_are_known());
    let mut out = Vec::new();
    assert!(ok(bundle.logs(filter, time, output, &decode_time, &mut out)).is_none());
    String::from_utf8(out).unwrap()
}

/// The logs that a filter selects, when each is given to a command that hands
/// its input back behind the marker `> `.
fn piped(filter: cat::LogFilter, output: cat::LogOutput) -> String {
    let mut bundle = cat_bundle();
    let mut out = Vec::new();
    let range = TimeRange::default();
    let mut pending = ok(bundle.logs(filter, range, output, &decode_time, &mut out));
    while let Some(request) = pending {
        let outcome = CommandOutcome::Ran {
            output: [b"> ", request.input()].concat(),
            sent: Ok(()),
            copied: Ok(()),
            exit: Exit::Success,
        };
        pending = ok(bundle.resume_logs(
            request,
            "jq -C .",
            outcome,
            range,
            output,
            &decode_time,
            &mut out,
        ));
    }
    String::from_utf8(out).unwrap()
}

#[test]
fn lib_test_logs() {
    let none = TimeRange::default;
    let style = cat::LogOutput::default;
    let all = cat::LogFilter::default;

    assert_eq!(catted(all(), none(), style()), with_headers(&all_logs()));

    let filter = cat::LogFilter {
        sled: &[glob("BRM03250013")],
        ..Default::default()
    };
    assert_eq!(catted(filter, none(), style()), with_headers(&all_logs()[..3]));

    let filter = cat::LogFilter {
        zone: &[glob("oxz_switch")],
        ..Default::default()
    };
    assert_eq!(catted(filter, none(), style()), with_headers(&all_logs()[..2]));

    let filter = cat::LogFilter {
        path: &[glob("*sled.txt")],
        ..Default::default()
    };
    assert_eq!(
        catted(filter, none(), style()),
        with_headers(&[sled_a_txt(), sled_b_txt()])
    );

    let after = TimeRange {
        after: Some(time("2025-09-24T06:00:00.0Z")),
        ..Default::default()
    };
    assert_eq!(catted(all(), after, style()), with_headers(&logs_after()));

    let before = TimeRange {
        before: Some(time("2025-09-24T06:00:00.0Z")),
        ..Default::default()
    };
    assert_eq!(catted(all(), before, style()), with_headers(&logs_before()));

    let output = cat::LogOutput {
        list: true,
        ..Default::default()
    };
    assert_eq!(catted(all(), none(), output), listed(&all_logs()));

    let output = cat::LogOutput {
        line_ct: LineCount::new(2),
        ..Default::default()
    };
    assert_eq!(catted(all(), none(), output), heads(&all_logs(), 2));

    let output = cat::LogOutput {
        no_header: true,
        ..Default::default()
    };
    assert_eq!(catted(all(), none(), output), plain(&all_logs()));

    let dendrite = [dendrite_archive(), dendrite_current()];
    let filter = cat::LogFilter {
        service: &[glob("dendrite")],
        ..Default::default()
    };
    let output = cat::LogOutput {
        command: Some("jq -C ."),
        ..Default::default()
    };
    assert_eq!(
        piped(filter, output),
        with_headers(&dendrite).replace("<==\n", "<==\n> ")
    );

    let output = cat::LogOutput {
        line_ct: LineCount::new(2),
        command: Some("jq -C ."),
        ..Default::default()
    };
    assert_eq!(
        piped(filter, output),
        heads(&dendrite, 2).replace("<==\n", "<==\n> ")
    );
}

#[test]
fn lib_test_services() {
    let bundle = cat_bundle();

    let mut out = String::new();
    bundle.services(&[], &mut out);
    assert_eq!(out, SERVICES);

    let mut out = String::new();
    bundle.services(&[glob("f589c*")], &mut out);
    assert_eq!(out, SERVICES_B);

    let mut out = String::new();
    bundle.services(&[glob("BRM03250013")], &mut out);
    assert_eq!(out, SERVICES_A);
}

#[test]
fn lib_test_sleds() {
    let bundle = cat_bundle();
    let mut out = String::new();
    bundle.sleds(&mut out);
    assert_eq!(out, SLEDS);
}

#[test]
fn lib_test_zones() {
    let bundle = cat_bundle();

    let mut out = String::new();
    bundle.zones(&[], &mut out);
    assert_eq!(out, ZONES);

    let mut out = String::new();
    bundle.zones(&[glob("f589c*")], &mut out);
    assert_eq!(out, ZONES_B);

    let mut out = String::new();
    bundle.zones(&[glob("BRM03250013")], &mut out);
    assert_eq!(out, ZONES_A);
}

#[test]
fn lib_test_incomplete_bundle_sled_no_services_or_zones() {
    let bundle = ok(cat::Bundle::from_source(
        ZipSource::new(incomplete_zip()),
        &decode_sled_info,
    ));
    let mut out = String::new();
    bundle.sleds(&mut out);
    assert_eq!(out, INCOMPLETE);
}

#[test]
fn main_test_ereports_list() {
    let mut archive = ZipSource::new(build_zip());

    let mut out = String::new();
    ok(exec_ereports_list(&mut archive, &EreportListFilter::default(), &mut out));
    assert_eq!(out, format!("{LIST_HEADING}{LIST_A}{LIST_B}"));

    let mut out = String::new();
    let args = EreportListFilter {
        serial: vec![glob("BRM09*")],
        ..Default::default()
    };
    ok(exec_ereports_list(&mut archive, &args, &mut out));
    assert_eq!(out, format!("{LIST_HEADING}{LIST_B}"));

    let mut out = String::new();
    let args = EreportListFilter {
        part: vec![glob("907*")],
        ..Default::default()
    };
    ok(exec_ereports_list(&mut archive, &args, &mut out));
    assert_eq!(out, format!("{LIST_HEADING_A}{LIST_ALONE_A}"));

    let mut out = String::new();
    let args = EreportListFilter {
        class: vec![glob("ereport.cpu*")],
        ..Default::default()
    };
    ok(exec_ereports_list(&mut archive, &args, &mut out));
    assert_eq!(out, format!("{LIST_HEADING}{LIST_B}"));
}

#[test]
fn main_test_ereports_show() {
    let mut archive = ZipSource::new(build_zip());

    let mut out = String::new();
    ok(exec_ereports_show(&mut archive, &EreportShowFilter::default(), &mut out));
    assert_eq!(out, shown(REPORT_A) + &shown(REPORT_B));

    let mut out = String::new();
    let args = EreportShowFilter {
        no_header: true,
        ..Default::default()
    };
    ok(exec_ereports_show(&mut archive, &args, &mut out));
    assert_eq!(out, pretty(REPORT_A) + &pretty(REPORT_B));

    let mut out = String::new();
    let args = EreportShowFilter {
        serial: vec![glob("BRM09*")],
        ..Default::default()
    };
    ok(exec_ereports_show(&mut archive, &args, &mut out));
    assert_eq!(out, shown(REPORT_B));

    let mut out = String::new();
    let args = EreportShowFilter {
        part: vec![glob("907*")],
        ..Default::default()
    };
    ok(exec_ereports_show(&mut archive, &args, &mut out));
    assert_eq!(out, shown(REPORT_A));

    let mut out = String::new();
    let args = EreportShowFilter {
        class: vec![glob("ereport.cpu*")],
        ..Default::default()
    };
    ok(exec_ereports_show(&mut archive, &args, &mut out));
    assert_eq!(out, shown(REPORT_B));
}

/// The logs of an archive that a filter selects, as text.
fn executed(args: &LogFilter) -> String {
    let mut archive = ZipSource::new(build_zip());
    let info = archive_info(&mut archive);
    assert!(cat::knows_all_sleds(&archive.file_names(), &info));
    let mut out = Vec::new();
    ok(exec_logs(&mut archive, &info, args, &decode_time, &mut out));
    String::from_utf8(out).unwrap()
}

#[test]
fn main_test_logs() {
    assert_eq!(executed(&LogFilter::default()), with_headers(&all_logs()));

    let args = LogFilter {
        sled: vec![glob("BRM03250013")],
        ..Default::default()
    };
    assert_eq!(executed(&args), with_headers(&all_logs()[..3]));

    let args = LogFilter {
        zone: vec![glob("oxz_switch")],
        ..Default::default()
    };
    assert_eq!(executed(&args), with_headers(&all_logs()[..2]));

    let args = LogFilter {
        path: vec![glob("*sled.txt")],
        ..Default::default()
    };
    assert_eq!(executed(&args), with_headers(&[sled_a_txt(), sled_b_txt()]));

    let args = LogFilter {
        after: Some(time("2025-09-24T06:00:00.0Z")),
        ..Default::default()
    };
    assert_eq!(executed(&args), with_headers(&logs_after()));

    let args = LogFilter {
        before: Some(time("2025-09-24T06:00:00.0Z")),
        ..Default::default()
    };
    assert_eq!(executed(&args), with_headers(&logs_before()));

    let args = LogFilter {
        list: true,
        ..Default::default()
    };
    assert_eq!(executed(&args), listed(&all_logs()));

    let args = LogFilter {
        line_ct: LineCount::new(2),
        ..Default::default()
    };
    assert_eq!(executed(&args), heads(&all_logs(), 2));

    let args = LogFilter {
        no_header: true,
        ..Default::default()
    };
    assert_eq!(executed(&args), plain(&all_logs()));
}

#[test]
fn main_test_services() {
    let info = archive_info(&mut ZipSource::new(build_zip()));

    let mut out = String::new();
    exec_services(&info, &[], &mut out);
    assert_eq!(out, SERVICES);

    let mut out = String::new();
    exec_services(&info, &[glob("f589c*")], &mut out);
    assert_eq!(out, SERVICES_B);

    let mut out = String::new();
    exec_services(&info, &[glob("BRM03250013")], &mut out);
    assert_eq!(out, SERVICES_A);
}

#[test]
fn main_test_sleds() {
    let info = archive_info(&mut ZipSource::new(build_zip()));
    let mut out = String::new();
    exec_sleds(&info, &mut out);
    assert_eq!(out, SLEDS);
}

#[test]
fn main_test_zones() {
    let info = archive_info(&mut ZipSource::new(build_zip()));

    let mut out = String::new();
    exec_zones(&info, &[], &mut out);
    assert_eq!(out, ZONES);

    let mut out = String::new();
    exec_zones(&info, &[glob("f589c*")], &mut out);
    assert_eq!(out, ZONES_B);

    let mut out = String::new();
    exec_zones(&info, &[glob("BRM03250013")], &mut out);
    assert_eq!(out, ZONES_A);
}

/// The selected logs, when each is given to a command that hands its input back
/// behind a marker.
fn piped_by_handle(filter: &LogFilter, marker: &str) -> String {
    let source: Box<dyn BundleSource> = Box::new(ZipSource::new(build_zip()));
    let mut bundle = ok(Bundle::from_source(source, &decode_sled_info));
    let mut out = Vec::new();
    let mut pending = ok(bundle.exec_logs_with_command(filter, &decode_time, &mut out));
    while let Some(request) = pending {
        let outcome = CommandOutcome::Ran {
            output: [marker.as_bytes(), request.input()].concat(),
            sent: Ok(()),
            copied: Ok(()),
            exit: Exit::Success,
        };
        pending = ok(bundle.resume_logs_with_command(
            request,
            "jq -M .",
            outcome,
            filter,
            &decode_time,
            &mut out,
        ));
    }
    String::from_utf8(out).unwrap()
}

#[test]
fn logs_exec() {
    let filter = LogFilter {
        service: vec![glob("dendrite")],
        ..Default::default()
    };
    assert_eq!(
        piped_by_handle(&filter, "> "),
        with_headers(&all_logs()[..2]).replace("<==\n", "<==\n> ")
    );
    let filter = LogFilter {
        service: vec![glob("dendrite")],
        list: true,
        ..Default::default()
    };
    assert_eq!(piped_by_handle(&filter, "> "), listed(&all_logs()[..2]));
}

#[test]
fn logs_exec_head() {
    let filter = LogFilter {
        service: vec![glob("dendrite")],
        line_ct: LineCount::new(2),
        ..Default::default()
    };
    assert_eq!(
        piped_by_handle(&filter, "> "),
        heads(&all_logs()[..2], 2).replace("<==\n", "<==\n> ")
    );
}

/// A command that hands its input back changes nothing.
#[test]
fn echoing_command_changes_nothing() {
    let filter = LogFilter {
        after: Some(time("2025-09-24T06:00:00.0Z")),
        line_ct: LineCount::new(2),
        ..Default::default()
    };
    assert_eq!(piped_by_handle(&filter, ""), written(&filter));
}

/// A bundle is incomplete for an archive when a sled has no logs.
#[test]
fn incomplete_archive_is_recognised() {
    let archive = ZipSource::new(incomplete_zip());
    assert!(!listing_is_complete(&archive.file_names()));
}

/// A source of the files of the fixture alone, without the directories.
struct FilesOnly {
    open: Cursor<Vec<u8>>,
}

impl BundleSource for FilesOnly {
    fn file_names(&self) -> Vec<String> {
        let files = zip_files().into_iter().filter(|f| f.contents.is_some());
        files.map(|f| f.name.to_owned()).collect()
    }

    fn open_file(&mut self, path: &str) -> Result<(), BundleError> {
        self.open = Cursor::new(contents(path).into_bytes());
        Ok(())
    }

    fn read(&mut self, max: usize) -> Result<Vec<u8>, BundleError> {
        // Short reads: at most seven bytes at a time.
        let mut chunk = vec![0; max.min(7)];
        let n = self.open.read(&mut chunk).unwrap();
        chunk.truncate(n);
        Ok(chunk)
    }

    fn metadata(&mut self, path: &str) -> Result<BundleFileMetadata, BundleError> {
        let file = zip_files().into_iter().find(|f| f.name == path).unwrap();
        let civil = jiff::civil::DateTime::try_from(file.mtime.unwrap_or_default()).unwrap();
        let zoned = civil.to_zoned(jiff::tz::TimeZone::UTC).unwrap();
        Ok(BundleFileMetadata {
            len: None,
            modified: Timestamp::from_nanosecond(zoned.timestamp().as_nanosecond()),
        })
    }
}

/// Everything that a bundle shows.
fn render<S: BundleSource>(bundle: &mut Bundle<S>) -> Vec<String> {
    let mut all = Vec::new();
    let mut out = String::new();
    bundle.write_sleds(&mut out);
    bundle.write_services(&[], &mut out);
    bundle.write_zones(&[], &mut out);
    all.push(out);
    let mut out = Vec::new();
    ok(bundle.write_logs(&LogFilter::default(), &decode_time, &mut out));
    let filter = LogFilter {
        after: Some(time("2025-09-24T06:00:00Z")),
        line_ct: LineCount::new(1),
        ..Default::default()
    };
    ok(bundle.write_logs(&filter, &decode_time, &mut out));
    all.push(String::from_utf8(out).unwrap());
    let mut out = String::new();
    ok(bundle.write_ereports_list(&EreportListFilter::default(), &mut out));
    ok(bundle.write_ereports_show(&EreportShowFilter::default(), &mut out));
    all.push(out);
    all
}

/// A source with directory entries and one without them, which reads in small
/// pieces, give the same.
#[test]
fn sources_with_and_without_directories_match() {
    let mut packed = bundle();
    let unpacked = FilesOnly {
        open: Cursor::new(Vec::new()),
    };
    let boxed: Box<dyn BundleSource> = Box::new(unpacked);
    let mut unpacked = ok(Bundle::from_source(boxed, &decode_sled_info));

    assert_eq!(render(&mut packed), render(&mut unpacked));
    let filter = EreportFilter::default();
    assert_eq!(ok(packed.ereports(&filter)), ok(unpacked.ereports(&filter)));
}
