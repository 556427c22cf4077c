//! Log files: what their paths say, and which filters select them.
use crate::pattern;
use crate::pattern::Pattern;
use crate::text;
use vstd::prelude::*;

verus! {

/// A file below a sled's directory, as its path describes it.
#[derive(Debug, PartialEq)]
pub struct LogFile {
    pub path: String,
    pub sled_uuid: String,
    pub service: Option<String>,
    pub zone: Option<String>,
    pub timestamp: Option<i64>,
}

/// A log file as a mathematical value.
pub struct Log {
    pub path: Seq<char>,
    pub sled_uuid: Seq<char>,
    pub service: Option<Seq<char>>,
    pub zone: Option<Seq<char>>,
    pub timestamp: Option<int>,
}

impl View for LogFile {
    type V = Log;

    open spec fn view(&self) -> Log {
        Log {
            path: self.path@,
            sled_uuid: self.sled_uuid@,
            service: text::optional(self.service),
            zone: text::optional(self.zone),
            timestamp: match self.timestamp {
                Some(t) => Some(t as int),
                None => None,
            },
        }
    }
}

/// The number behind the last dot of a path.
pub open spec fn trailing_number(path: Seq<char>) -> Option<int> {
    text::signed_value(text::split(path, '.').last())
}

/// What a path says of a log file: for logs
/// `rack/{rack_uuid}/sled/{sled_uuid}/logs/{zone}/{service}/...`, for health
/// checks `rack/{rack_uuid}/sled/{sled_uuid}/{check}.json`. Directories and
/// shallower paths are no log files.
pub open spec fn log_of(path: Seq<char>) -> Option<Log> {
    let parts = text::split(path, '/');
    if text::ends_with(path, "/"@) || parts.len() < 5 {
        None
    } else {
        Some(
            Log {
                path,
                sled_uuid: parts[3],
                service: text::piece(parts, 6),
                zone: text::piece(parts, 5),
                timestamp: trailing_number(path),
            },
        )
    }
}

/// A copy of piece `i`, if there is one.
pub fn piece_at(parts: &Vec<String>, i: usize) -> (r: Option<String>)
    ensures
        text::optional(r) == text::piece(text::texts(parts@), i as int),
{
    if i < parts.len() {
        Some(parts[i].clone())
    } else {
        None
    }
}

impl LogFile {
    /// What a path says of a log file; `None` for a path of another kind.
    pub fn from_path(path: &str) -> (r: Option<Self>)
        ensures
            match r {
                Some(log) => log_of(path@) == Some(log@),
                None => log_of(path@) is None,
            },
    {
        // Ignore directories.
        if text::finishes_with(path, "/") {
            return None;
        }
        let parts = text::split_at(path, '/');
        if parts.len() < 5 {
            return None;
        }
        // Only archived logs have a trailing timestamp.
        let timestamp = Self::extract_timestamp(path);
        Some(
            LogFile {
                path: path.to_owned(),
                sled_uuid: parts[3].clone(),
                service: piece_at(&parts, 6),
                zone: piece_at(&parts, 5),
                timestamp,
            },
        )
    }

    /// Extract trailing timestamp from paths with a file name like
    /// "oxide-mg-ddm:default.log.1758510604".
    pub fn extract_timestamp(path: &str) -> (r: Option<i64>)
        ensures
            match r {
                Some(t) => trailing_number(path@) == Some(t as int),
                None => trailing_number(path@) is None,
            },
    {
        let parts = text::split_at(path, '.');
        proof {
            text::lemma_split_not_empty(path@, '.');
        }
        assert(text::split(path@, '.').last() == parts@.last()@);
        text::parse_signed(parts[parts.len() - 1].as_str())
    }

    /// Whether patterns for the service select this file. No patterns select
    /// every file.
    pub fn matches_services(&self, service_patterns: &[Pattern]) -> (r: bool)
        ensures
            r == pattern::selects_optional(service_patterns@, self@.service),
    {
        if service_patterns.len() == 0 {
            return true;
        }
        match &self.service {
            Some(service) => pattern::matches_patterns(service_patterns, service.as_str()),
            None => false,
        }
    }

    /// Whether patterns for the zone select this file. No patterns select
    /// every file.
    pub fn matches_zones(&self, zone_patterns: &[Pattern]) -> (r: bool)
        ensures
            r == pattern::selects_optional(zone_patterns@, self@.zone),
    {
        if zone_patterns.len() == 0 {
            return true;
        }
        match &self.zone {
            Some(zone) => pattern::matches_patterns(zone_patterns, zone.as_str()),
            None => false,
        }
    }

    /// Whether patterns for the path select this file. No patterns select
    /// every file.
    pub fn matches_paths(&self, path_patterns: &[Pattern]) -> (r: bool)
        ensures
            r == pattern::selects(path_patterns@, self@.path),
    {
        pattern::matches_patterns(path_patterns, self.path.as_str())
    }
}

} // verus!
