//! Narrow parsers for `sled.txt` and for ereports, with a strict grammar.
use crate::ereport;
use crate::ereport::Report;
use crate::sled;
use crate::text;
use vstd::prelude::*;

verus! {

/// Fields parsed from a bundle's `sled.txt` inventory record.
#[derive(Debug, PartialEq, Eq)]
pub struct SledTxtInfo {
    /// The sled's serial number.
    pub serial: String,
    /// Whether the sled is a scrimlet.
    pub is_scrimlet: bool,
}

impl Clone for SledTxtInfo {
    fn clone(&self) -> (r: Self)
        ensures
            r.serial@ == self.serial@,
            r.is_scrimlet == self.is_scrimlet,
    {
        SledTxtInfo { serial: self.serial.clone(), is_scrimlet: self.is_scrimlet }
    }
}

/// Parses the serial number and scrimlet flag from `sled.txt` contents.
///
/// Returns `None` when the input is invalid or does not contain both fields.
pub fn parse_sled_txt(contents: &str) -> (r: Option<SledTxtInfo>)
    ensures
        match r {
            Some(t) => sled::sled_txt(contents@) == Some((t.serial@, t.is_scrimlet)),
            None => sled::sled_txt(contents@) is None,
        },
{
    match sled::read_sled_serial(contents) {
        Some((serial, is_scrimlet)) => Some(SledTxtInfo { serial, is_scrimlet }),
        None => None,
    }
}

/// Fields parsed from an ereport path.
#[derive(Debug, PartialEq, Eq)]
pub struct EreportPathInfo {
    /// The reporting component's part number.
    pub part: String,
    /// The reporting component's serial number.
    pub serial: String,
    /// The ereport restart identifier.
    pub restart_id: String,
    /// The ereport's event number association (ENA).
    pub ena: u64,
}

impl View for EreportPathInfo {
    type V = Report;

    open spec fn view(&self) -> Report {
        Report {
            part: self.part@,
            serial: self.serial@,
            restart_id: self.restart_id@,
            ena: self.ena as nat,
        }
    }
}

impl Clone for EreportPathInfo {
    fn clone(&self) -> (r: Self)
        ensures
            r@ == self@,
    {
        EreportPathInfo {
            part: self.part.clone(),
            serial: self.serial.clone(),
            restart_id: self.restart_id.clone(),
            ena: self.ena,
        }
    }
}

/// An owned ereport read from a bundle.
#[derive(Debug, PartialEq, Eq)]
pub struct EreportEntry {
    /// The bundle-relative ereport path.
    pub path: String,
    /// Metadata parsed from the ereport path.
    pub metadata: EreportPathInfo,
    /// The top-level string `class`, when present and valid.
    pub class: Option<String>,
    /// The unchanged UTF-8 file contents.
    pub contents: String,
}

impl Clone for EreportEntry {
    fn clone(&self) -> (r: Self)
        ensures
            r.path@ == self.path@,
            r.metadata@ == self.metadata@,
            text::optional(r.class) == text::optional(self.class),
            r.contents@ == self.contents@,
    {
        EreportEntry {
            path: self.path.clone(),
            metadata: self.metadata.clone(),
            class: match &self.class {
                Some(c) => Some(c.clone()),
                None => None,
            },
            contents: self.contents.clone(),
        }
    }
}

/// The string member `key` of the JSON object that a text denotes; `None` where
/// the text is no JSON object, or the member is missing or no string.
pub uninterp spec fn json_member(s: Seq<char>, key: Seq<char>) -> Option<Seq<char>>;

/// Reads a string member of a JSON object, by `serde_json::from_str` into a
/// `serde_json::Value` and the accessors `as_object`, `get` and `as_str`.
///
/// Trusted: the outcome depends on the text and the key alone. Which texts are
/// objects is left to the crate.
#[verifier::external_body]
fn string_member(s: &str, key: &str) -> (r: Option<String>)
    ensures
        text::optional(r) == json_member(s@, key@),
{
    let json = serde_json::from_str::<serde_json::Value>(s).ok()?;
    json.as_object()?.get(key)?.as_str().map(str::to_owned)
}

/// The top-level string `class` of an ereport's contents.
pub fn parse_ereport_class(contents: &str) -> (r: Option<String>)
    ensures
        text::optional(r) == json_member(contents@, "class"@),
{
    string_member(contents, "class")
}

/// The metadata in a path
/// `ereports/{part}-{serial}/{restart_id}/{decimal_ena}.json`, where the number
/// is made of digits alone.
pub open spec fn strict_report(path: Seq<char>) -> Option<Report> {
    let parts = text::split(path, '/');
    if parts.len() == 4 && parts[0] == "ereports"@ && parts[2].len() > 0 {
        match (text::rsplit_once(parts[1], '-'), text::strip_suffix(parts[3], ".json"@)) {
            (Some((part, serial)), Some(number)) => match text::digits_value(number) {
                Some(ena) if ena <= ereport::MAX_ENA && part.len() > 0 && serial.len() > 0 => Some(
                    Report { part, serial, restart_id: parts[2], ena },
                ),
                _ => None,
            },
            _ => None,
        }
    } else {
        None
    }
}

/// Parses an ereport path with the strict grammar
/// `ereports/{part}-{serial}/{restart_id}/{decimal_ena}.json`.
///
/// The part and serial are separated at the final `-`. Returns `None` when the
/// input is invalid or does not match this grammar exactly.
pub fn parse_ereport_path(path: &str) -> (r: Option<EreportPathInfo>)
    ensures
        match r {
            Some(report) => strict_report(path@) == Some(report@),
            None => strict_report(path@) is None,
        },
{
    let components = text::split_at(path, '/');
    if components.len() != 4 || !text::same(components[0].as_str(), "ereports")
        || components[2].as_str().is_empty() {
        return None;
    }
    match text::cut_at_last(components[1].as_str(), '-') {
        None => None,
        Some((part, serial)) => match text::without_suffix(components[3].as_str(), ".json") {
            None => None,
            Some(number) => match text::parse_digits(number, ereport::MAX_ENA) {
                None => None,
                Some(ena) => {
                    if part.as_str().is_empty() || serial.as_str().is_empty() {
                        None
                    } else {
                        Some(
                            EreportPathInfo {
                                part,
                                serial,
                                restart_id: components[2].clone(),
                                ena,
                            },
                        )
                    }
                },
            },
        },
    }
}

} // verus!
