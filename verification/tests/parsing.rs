//! Parsers of `sled.txt`, of ereport paths and of ereport classes.
use bundle_cat::ereport::{parse_ereport_path, read_ereport_class, Ereport};
use bundle_cat::sled::{parse_sled_txt, read_sled_serial, SledTxtInfo};
use bundle_cat::structured;

const SCRIMLET_INFO: &str = r#"Sled { identity: SledIdentity { id: f589c739-3c4c-4731-8f6f-41c8b2e72f89, time_created: 2025-05-08T20:31:07.381152Z, time_modified: 2025-09-22T15:44:13.232736Z }, time_deleted: None, rcgen: Generation(Generation(21)), rack_id: 34261901-b550-451c-9bd0-3926bb29c40d, is_scrimlet: true, serial_number: "BRM03250000", part_number: "913-0000019", revision: SqlU32(14), usable_hardware_threads: SqlU32(128), usable_physical_ram: ByteCount(ByteCount(2186120527872)), reservoir_size: ByteCount(ByteCount(1790577737728)), ip: fd00:1122:3344:10b::1, port: SqlU16(12345), last_used_address: fd00:1122:3344:10b::1:8, policy: InService, state: Active, sled_agent_gen: Generation(Generation(3)), repo_depot_port: SqlU16(12348) }"#;

const SLED_INFO: &str = r#"Sled { identity: SledIdentity { id: f1e02cab-ef5a-4405-974c-f8cf7df7d4ea, time_created: 2025-05-08T20:31:06.943606Z, time_modified: 2025-05-08T20:31:06.943606Z }, time_deleted: None, rcgen: Generation(Generation(21)), rack_id: 34261901-b550-451c-9bd0-3926bb29c40d, is_scrimlet: false, serial_number: "BRM03250001", part_number: "913-0000019", revision: SqlU32(14), usable_hardware_threads: SqlU32(128), usable_physical_ram: ByteCount(ByteCount(2186120527872)), reservoir_size: ByteCount(ByteCount(1790577737728)), ip: fd00:1122:3344:102::1, port: SqlU16(12345), last_used_address: fd00:1122:3344:102::1:3, policy: InService, state: Active, sled_agent_gen: Generation(Generation(1)), repo_depot_port: SqlU16(12348) }"#;

#[test]
fn parses_sled_txt_identity_fields() {
    let contents =
        r#"Sled { is_scrimlet: true, serial_number: "BRM03250000", part_number: "913-0000019" }"#;

    assert_eq!(
        parse_sled_txt(contents),
        Some(SledTxtInfo {
            serial: "BRM03250000".to_string(),
            is_scrimlet: true,
        })
    );
}

#[test]
fn rejects_incomplete_sled_txt() {
    assert_eq!(
        parse_sled_txt(r#"Sled { serial_number: "BRM03250000" }"#),
        None
    );
}

#[test]
fn parses_ereport_path() {
    let path =
        "ereports/907-0000023-BRM03250000/550e8400-e29b-41d4-a716-446655440000/305419896.json";

    assert_eq!(
        parse_ereport_path(path),
        Some(Ereport {
            part: "907-0000023".to_string(),
            serial: "BRM03250000".to_string(),
            restart_id: "550e8400-e29b-41d4-a716-446655440000".to_string(),
            ena: 305419896,
        })
    );
}

#[test]
fn rejects_malformed_ereport_paths() {
    for path in [
        "other/907-0000023-BRM03250000/restart/1.json",
        "ereports/no-part-serial-boundary/restart/not-an-ena.json",
        "ereports/907-0000023-BRM03250000/restart/1.json/extra",
        "ereports/-BRM03250000/restart/1.json",
        "ereports/907-0000023-/restart/1.json",
    ] {
        assert_eq!(parse_ereport_path(path), None, "accepted {path}");
    }
}

#[test]
fn parses_sled_txt_fields() {
    let contents = r#"Sled { is_scrimlet: true, serial_number: "BRM03250000" }"#;
    assert_eq!(
        structured::parse_sled_txt(contents),
        Some(structured::SledTxtInfo {
            serial: "BRM03250000".to_string(),
            is_scrimlet: true,
        })
    );
}

#[test]
fn rejects_invalid_sled_txt() {
    for contents in [
        "Sled { is_scrimlet: true }",
        r#"Sled { serial_number: "BRM03250000" }"#,
        r#"Sled { is_scrimlet: true, serial_number: "BRM03250000 }"#,
        r#"Sled { is_scrimlet: yes, serial_number: "BRM03250000" }"#,
    ] {
        assert_eq!(structured::parse_sled_txt(contents), None, "accepted {contents:?}");
    }
}

#[test]
fn parses_strict_ereport_path() {
    assert_eq!(
        structured::parse_ereport_path("ereports/907-0000023-BRM03250000/restart-id/305419896.json"),
        Some(structured::EreportPathInfo {
            part: "907-0000023".to_string(),
            serial: "BRM03250000".to_string(),
            restart_id: "restart-id".to_string(),
            ena: 305419896,
        })
    );
}

#[test]
fn rejects_invalid_ereport_paths() {
    for path in [
        "reports/907-0000023-BRM03250000/restart-id/1.json",
        "ereports/907-0000023-BRM03250000/restart-id",
        "ereports/907-0000023-BRM03250000/restart-id/1.json/extra",
        "ereports/-BRM03250000/restart-id/1.json",
        "ereports/907-0000023-/restart-id/1.json",
        "ereports/907-0000023-BRM03250000//1.json",
        "ereports/907-0000023-BRM03250000/restart-id/1.txt",
        "ereports/907-0000023-BRM03250000/restart-id/.json",
        "ereports/907-0000023-BRM03250000/restart-id/+1.json",
        "ereports/907-0000023-BRM03250000/restart-id/not-decimal.json",
    ] {
        assert_eq!(structured::parse_ereport_path(path), None, "accepted {path:?}");
    }
}

#[test]
fn bundle_test_read_sled_txt() {
    assert_eq!(
        parse_sled_txt(SCRIMLET_INFO),
        Some(SledTxtInfo {
            serial: "BRM03250000".to_string(),
            is_scrimlet: true,
        })
    );
    assert_eq!(
        parse_sled_txt(SLED_INFO),
        Some(SledTxtInfo {
            serial: "BRM03250001".to_string(),
            is_scrimlet: false,
        })
    );
}

#[test]
fn lib_test_read_sled_txt() {
    assert_eq!(
        read_sled_serial(SCRIMLET_INFO),
        Some(("BRM03250000".to_string(), true))
    );
    assert_eq!(
        read_sled_serial(SLED_INFO),
        Some(("BRM03250001".to_string(), false))
    );
}

#[test]
fn main_test_read_sled_txt() {
    assert_eq!(
        read_sled_serial(SCRIMLET_INFO),
        Some(("BRM03250000".to_string(), true))
    );
    assert_eq!(
        read_sled_serial(SLED_INFO),
        Some(("BRM03250001".to_string(), false))
    );
}
