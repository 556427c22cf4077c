//! Error reports: what their paths and contents say, and walks over those that
//! a filter selects.
use crate::error;
use crate::error::BundleError;
use crate::pattern;
use crate::pattern::Pattern;
use crate::reader;
use crate::source;
use crate::source::{BundleSource, Chain, SourceCall};
use crate::text;
use vstd::prelude::*;

verus! {

/// Metadata encoded in an ereport's bundle-relative path.
#[derive(Debug, PartialEq, Eq)]
pub struct Ereport {
    /// Hardware part number.
    pub part: String,
    /// Hardware serial number.
    pub serial: String,
    /// Restart identifier containing this ereport.
    pub restart_id: String,
    /// Error numeric association identifying the report.
    pub ena: u64,
}

/// Structured ereport data suitable for non-text renderers.
#[derive(Debug, PartialEq, Eq)]
pub struct EreportEntry {
    /// Bundle-relative path of the ereport file.
    pub path: String,
    /// Metadata parsed from `path`.
    pub metadata: Ereport,
    /// Extracted ereport class, if present in the raw contents.
    pub class: Option<String>,
    /// Original UTF-8 file contents.
    pub contents: String,
}

/// An ereport's metadata as a mathematical value.
pub struct Report {
    pub part: Seq<char>,
    pub serial: Seq<char>,
    pub restart_id: Seq<char>,
    pub ena: nat,
}

/// An ereport as a mathematical value.
pub struct Entry {
    pub path: Seq<char>,
    pub metadata: Report,
    pub class: Option<Seq<char>>,
    pub contents: Seq<char>,
}

impl View for Ereport {
    type V = Report;

    open spec fn view(&self) -> Report {
        Report {
            part: self.part@,
            serial: self.serial@,
            restart_id: self.restart_id@,
            ena: self.ena as nat,
        }
    }
}

impl View for EreportEntry {
    type V = Entry;

    open spec fn view(&self) -> Entry {
        Entry {
            path: self.path@,
            metadata: self.metadata@,
            class: text::optional(self.class),
            contents: self.contents@,
        }
    }
}

impl Clone for Ereport {
    fn clone(&self) -> (r: Self)
        ensures
            r@ == self@,
    {
        Ereport {
            part: self.part.clone(),
            serial: self.serial.clone(),
            restart_id: self.restart_id.clone(),
            ena: self.ena,
        }
    }
}

impl Clone for EreportEntry {
    fn clone(&self) -> (r: Self)
        ensures
            r@ == self@,
    {
        EreportEntry {
            path: self.path.clone(),
            metadata: self.metadata.clone(),
            class: match &self.class {
                Some(c) => Some(c.clone()),
                None => None,
            },
            contents: self.contents.clone(),
        }
    }
}

/// The largest error numeric association.
pub const MAX_ENA: u64 = 0xffff_ffff_ffff_ffff;

/// The metadata in a component directory's name, a restart identifier and a
/// file name: the name is cut at its last `-`, since part numbers contain a `-`
/// but serials do not.
pub open spec fn report_parts(
    identity: Seq<char>,
    restart_id: Seq<char>,
    file_name: Seq<char>,
) -> Option<Report> {
    match (text::rsplit_once(identity, '-'), text::strip_suffix(file_name, ".json"@)) {
        (Some((part, serial)), Some(number)) => match text::unsigned_value(
            number,
            MAX_ENA as nat,
        ) {
            Some(ena) => Some(Report { part, serial, restart_id, ena }),
            None => None,
        },
        _ => None,
    }
}

/// The metadata in a path
/// `ereports/{part-number}-{serial_number}/{restart_id}/{ENA}.json`, where
/// nothing may be empty and nothing may follow.
pub open spec fn exact_report(path: Seq<char>) -> Option<Report> {
    let parts = text::split(path, '/');
    if parts.len() == 4 && parts[0] == "ereports"@ && parts[2].len() > 0 {
        match report_parts(parts[1], parts[2], parts[3]) {
            Some(report) if report.part.len() > 0 && report.serial.len() > 0 => Some(report),
            _ => None,
        }
    } else {
        None
    }
}

/// The metadata in a path that begins with `ereports` and has the components
/// `{part-number}-{serial_number}`, `{restart_id}` and `{ENA}.json` behind the
/// first; they may be empty, and more may follow.
pub open spec fn lenient_report(path: Seq<char>) -> Option<Report> {
    let parts = text::split(path, '/');
    if text::starts_with(path, "ereports"@) && parts.len() >= 4 {
        report_parts(parts[1], parts[2], parts[3])
    } else {
        None
    }
}

/// Reads the metadata out of the components of a path.
fn parse_parts(identity: &str, restart_id: &str, file_name: &str) -> (r: Option<Ereport>)
    ensures
        match r {
            Some(report) => report_parts(identity@, restart_id@, file_name@) == Some(report@),
            None => report_parts(identity@, restart_id@, file_name@) is None,
        },
{
    match text::cut_at_last(identity, '-') {
        None => None,
        Some((part, serial)) => match text::without_suffix(file_name, ".json") {
            None => None,
            Some(number) => match text::parse_unsigned(number, MAX_ENA) {
                None => None,
                Some(ena) => Some(
                    Ereport { part, serial, restart_id: restart_id.to_owned(), ena },
                ),
            },
        },
    }
}

/// Parse an ereport's metadata from its bundle-relative path.
pub fn parse_ereport_path(path: &str) -> (r: Option<Ereport>)
    ensures
        match r {
            Some(report) => exact_report(path@) == Some(report@),
            None => exact_report(path@) is None,
        },
{
    // ereports/{part-number}-{serial_number}/{restart_id}/{ENA}.json
    let splits = text::split_at(path, '/');
    if splits.len() != 4 || !text::same(splits[0].as_str(), "ereports") || splits[2].as_str()
        .is_empty() {
        return None;
    }
    match parse_parts(splits[1].as_str(), splits[2].as_str(), splits[3].as_str()) {
        Some(report) => {
            if report.part.as_str().is_empty() || report.serial.as_str().is_empty() {
                None
            } else {
                Some(report)
            }
        },
        None => None,
    }
}

impl Ereport {
    /// Parse an ereport's metadata from a path that may be longer than usual.
    pub fn from_path(path: &str) -> (r: Option<Self>)
        ensures
            match r {
                Some(report) => lenient_report(path@) == Some(report@),
                None => lenient_report(path@) is None,
            },
    {
        // ereports/{part-number}-{serial_number}/{restart_id}/{ENA}.json
        if !text::begins_with(path, "ereports") {
            return None;
        }
        let splits = text::split_at(path, '/');
        if splits.len() < 4 {
            return None;
        }
        parse_parts(splits[1].as_str(), splits[2].as_str(), splits[3].as_str())
    }
}

/// The class in the raw contents of an ereport.
pub open spec fn class_in(contents: Seq<char>) -> Option<Seq<char>> {
    text::between(contents, "\"class\":\""@, "\""@)
}

/// Finds the class in the raw contents of an ereport.
pub fn read_ereport_class(ereport_raw: &str) -> (r: Option<String>)
    ensures
        text::optional(r) == class_in(ereport_raw@),
{
    text::between_marks(ereport_raw, "\"class\":\"", "\"")
}

/// An ereport is passed over if it has a class that the patterns do not
/// select; one without a class is kept.
pub open spec fn passed_over(class: Option<Seq<char>>, patterns: Seq<Pattern>) -> bool {
    class matches Some(c) && !pattern::selects(patterns, c)
}

/// A file of the bundle that is an ereport.
pub struct Found {
    pub index: usize,
    pub path: String,
    pub metadata: Ereport,
}

/// A found ereport as a mathematical value.
pub struct Candidate {
    pub index: int,
    pub path: Seq<char>,
    pub metadata: Report,
}

impl View for Found {
    type V = Candidate;

    open spec fn view(&self) -> Candidate {
        Candidate { index: self.index as int, path: self.path@, metadata: self.metadata@ }
    }
}

/// The ways to find an ereport's file again and to read its path.
#[derive(Clone, Copy, Debug, PartialEq, Eq, Structural)]
pub enum Access {
    /// Exact paths, opened by name.
    Exact,
    /// Lenient paths, opened by name.
    Lenient,
    /// Lenient paths, opened by their position in the listing.
    Positional,
}

/// The metadata in a path.
pub open spec fn report_of(path: Seq<char>, access: Access) -> Option<Report> {
    match access {
        Access::Exact => exact_report(path),
        _ => lenient_report(path),
    }
}

/// The ereports among the first `n` names whose part and serial number the
/// patterns select.
pub open spec fn candidates(
    names: Seq<Seq<char>>,
    n: int,
    part: Seq<Pattern>,
    serial: Seq<Pattern>,
    access: Access,
) -> Seq<Candidate>
    decreases n,
{
    if n <= 0 {
        Seq::empty()
    } else {
        let earlier = candidates(names, n - 1, part, serial, access);
        match report_of(names[n - 1], access) {
            Some(metadata) if pattern::selects(part, metadata.part) && pattern::selects(
                serial,
                metadata.serial,
            ) => earlier.push(Candidate { index: n - 1, path: names[n - 1], metadata }),
            _ => earlier,
        }
    }
}

/// The values of a list of found ereports.
pub open spec fn values(list: Seq<Found>) -> Seq<Candidate> {
    list.map_values(|f: Found| f@)
}

/// Finds the ereports whose part and serial number the patterns select.
pub fn find_reports(
    names: &Vec<String>,
    part: &[Pattern],
    serial: &[Pattern],
    access: Access,
) -> (r: Vec<Found>)
    ensures
        values(r@) == candidates(
            text::texts(names@),
            names@.len() as int,
            part@,
            serial@,
            access,
        ),
{
    let mut found: Vec<Found> = Vec::new();
    let ghost all = text::texts(names@);
    let mut i: usize = 0;
    assert(values(found@) =~= Seq::empty());
    while i < names.len()
        invariant
            i <= names.len(),
            all == text::texts(names@),
            values(found@) == candidates(all, i as int, part@, serial@, access),
        decreases names.len() - i,
    {
        let path = names[i].as_str();
        assert(path@ == all[i as int]);
        let report = match access {
            Access::Exact => parse_ereport_path(path),
            _ => Ereport::from_path(path),
        };
        match report {
            Some(metadata) => {
                if pattern::matches_patterns(part, metadata.part.as_str())
                    && pattern::matches_patterns(serial, metadata.serial.as_str()) {
                    let ghost earlier = found@;
                    found.push(Found { index: i, path: path.to_owned(), metadata });
                    assert(values(found@) =~= values(earlier).push(found@.last()@));
                }
            },
            None => {},
        }
        i = i + 1;
    }
    found
}

/// What loading an ereport's contents gives from request `p` on.
pub open spec fn report_loaded(
    h: Seq<SourceCall>,
    p: int,
    candidate: Candidate,
    access: Access,
) -> Option<(Result<Seq<char>, Chain>, int)> {
    match access {
        Access::Positional => match source::opening(h, p, candidate.path) {
            None => None,
            Some(Err(e)) => Some(
                (
                    Err(
                        error::wrapped(
                            "failed to access file index "@ + text::decimal(
                                candidate.index as nat,
                            ),
                            e,
                        ),
                    ),
                    p + 1,
                ),
            ),
            Some(Ok(_)) => reader::text_read(h, p + 1, candidate.path),
        },
        _ => reader::text_loaded(h, p, candidate.path),
    }
}

/// Loads the contents of an ereport.
fn load_report<S: BundleSource + ?Sized>(source: &mut S, found: &Found, access: Access) -> (r:
    Result<String, BundleError>)
    ensures
        final(source).names() == old(source).names(),
        source::continues(old(source).calls(), final(source).calls()),
        forall|h: Seq<SourceCall>|
            source::continues(final(source).calls(), h) ==> #[trigger] report_loaded(
                h,
                old(source).calls().len() as int,
                found@,
                access,
            ) == Some((source::string(r), final(source).calls().len() as int)),
{
    match access {
        Access::Positional => match source.open_file(found.path.as_str()) {
            Err(e) => {
                let index = text::decimal_text(found.index as u64);
                Err(e.context(text::concat2("failed to access file index ", index.as_str())))
            },
            Ok(_) => reader::read_file_to_string(source, found.path.as_str()),
        },
        _ => reader::load_text(source, found.path.as_str()),
    }
}

/// The ereport that a candidate with these contents is.
pub open spec fn entry_of(candidate: Candidate, contents: Seq<char>) -> Entry {
    Entry {
        path: candidate.path,
        metadata: candidate.metadata,
        class: class_in(contents),
        contents,
    }
}

/// The walk over the candidates from number `i` on, from request `p` on:
/// the ereports it keeps, behind those in `kept`, the error that ended it, and
/// the number of the next request.
pub open spec fn walked(
    candidates: Seq<Candidate>,
    i: int,
    class: Seq<Pattern>,
    access: Access,
    h: Seq<SourceCall>,
    p: int,
    kept: Seq<Entry>,
) -> Option<((Seq<Entry>, Option<Chain>), int)>
    decreases candidates.len() - i,
{
    if i < 0 || i >= candidates.len() {
        Some(((kept, None), p))
    } else {
        match report_loaded(h, p, candidates[i], access) {
            None => None,
            Some((Err(e), q)) => Some(((kept, Some(e)), q)),
            Some((Ok(contents), q)) => {
                let entry = entry_of(candidates[i], contents);
                let next = if passed_over(entry.class, class) {
                    kept
                } else {
                    kept.push(entry)
                };
                walked(candidates, i + 1, class, access, h, q, next)
            },
        }
    }
}

/// One line of the listing of ereports.
pub open spec fn list_row(metadata: Report, class: Option<Seq<char>>, width: nat) -> Seq<char> {
    text::left_aligned(metadata.part, 11) + "\t"@ + text::left_aligned(metadata.serial, 11) + "\t"@
        + text::left_aligned(metadata.restart_id, 36) + "\t"@ + text::right_aligned(
        text::decimal(metadata.ena),
        width,
    ) + "\t"@ + (match class {
        Some(c) => c,
        None => "unknown"@,
    }) + "\n"@
}

/// The heading of the listing of ereports.
pub open spec fn list_heading(width: nat) -> Seq<char> {
    text::left_aligned("PART"@, 11) + "\t"@ + text::left_aligned("SERIAL"@, 11) + "\t"@
        + text::left_aligned("RESTART_ID"@, 36) + "\t"@ + text::left_aligned("ENA"@, width)
        + "\tCLASS\n"@
}

/// The lines of a list of ereports.
pub open spec fn list_rows(entries: Seq<Entry>, width: nat) -> Seq<char>
    decreases entries.len(),
{
    if entries.len() == 0 {
        Seq::empty()
    } else {
        list_rows(entries.drop_last(), width) + list_row(
            entries.last().metadata,
            entries.last().class,
            width,
        )
    }
}

/// The largest number among the first `n` candidates.
pub open spec fn max_ena(candidates: Seq<Candidate>, n: int) -> nat
    decreases n,
{
    if n <= 0 {
        0
    } else {
        let earlier = max_ena(candidates, n - 1);
        if candidates[n - 1].metadata.ena > earlier {
            candidates[n - 1].metadata.ena
        } else {
            earlier
        }
    }
}

/// The width of the column of numbers: that of the largest one.
pub open spec fn ena_width(candidates: Seq<Candidate>) -> nat {
    if candidates.len() == 0 {
        3
    } else {
        text::decimal(max_ena(candidates, candidates.len() as int)).len()
    }
}

fn push_list_row(out: &mut String, metadata: &Ereport, class: &Option<String>, width: usize)
    ensures
        final(out)@ == old(out)@ + list_row(
            metadata@,
            text::optional(*class),
            width as nat,
        ),
{
    text::push_left(out, metadata.part.as_str(), 11);
    out.append("\t");
    text::push_left(out, metadata.serial.as_str(), 11);
    out.append("\t");
    text::push_left(out, metadata.restart_id.as_str(), 36);
    out.append("\t");
    let ena = text::decimal_text(metadata.ena);
    text::push_right(out, ena.as_str(), width);
    out.append("\t");
    match class {
        Some(c) => out.append(c.as_str()),
        None => out.append("unknown"),
    }
    out.append("\n");
    assert(out@ =~= old(out)@ + list_row(metadata@, text::optional(*class), width as nat));
}

fn push_list_heading(out: &mut String, width: usize)
    ensures
        final(out)@ == old(out)@ + list_heading(width as nat),
{
    text::push_left(out, "PART", 11);
    out.append("\t");
    text::push_left(out, "SERIAL", 11);
    out.append("\t");
    text::push_left(out, "RESTART_ID", 36);
    out.append("\t");
    text::push_left(out, "ENA", width);
    out.append("\tCLASS\n");
    assert(out@ =~= old(out)@ + list_heading(width as nat));
}

/// The width of the column of numbers.
fn number_width(found: &Vec<Found>) -> (r: usize)
    ensures
        r == ena_width(values(found@)),
{
    let ghost all = values(found@);
    if found.len() == 0 {
        return 3;
    }
    let mut max: u64 = 0;
    let mut i: usize = 0;
    while i < found.len()
        invariant
            i <= found.len(),
            all == values(found@),
            max == max_ena(all, i as int),
        decreases found.len() - i,
    {
        assert(all[i as int] == found[i as int]@);
        if found[i].metadata.ena > max {
            max = found[i].metadata.ena;
        }
        i = i + 1;
    }
    let width: usize = text::decimal_text(max).as_str().unicode_len();
    width
}

/// Lists the ereports that a filter selects: a heading, then a line for each.
/// After an error `out` holds the lines written before it.
pub fn list_reports<S: BundleSource + ?Sized>(
    source: &mut S,
    part: &[Pattern],
    serial: &[Pattern],
    class: &[Pattern],
    access: Access,
    out: &mut String,
) -> (r: Result<(), BundleError>)
    ensures
        final(source).names() == old(source).names(),
        source::continues(old(source).calls(), final(source).calls()),
        ({
            let names = old(source).names();
            let all = candidates(names, names.len() as int, part@, serial@, access);
            let width = ena_width(all);
            forall|h: Seq<SourceCall>|
                source::continues(final(source).calls(), h) ==> (match #[trigger] walked(
                    all,
                    0,
                    class@,
                    access,
                    h,
                    old(source).calls().len() as int,
                    Seq::empty(),
                ) {
                    Some(((kept, failure), next)) => {
                        &&& final(out)@ == old(out)@ + list_heading(width) + list_rows(kept, width)
                        &&& failure == reader::failure(r)
                        &&& next == final(source).calls().len()
                    },
                    None => false,
                })
        }),
{
    let names = source.file_names();
    let found = find_reports(&names, part, serial, access);
    let ghost all = values(found@);
    let width: usize = number_width(&found);
    push_list_heading(out, width);
    let ghost start = out@;
    let ghost mut kept: Seq<Entry> = Seq::empty();
    let mut i: usize = 0;
    assert(out@ =~= start + list_rows(kept, width as nat));
    while i < found.len()
        invariant
            i <= found.len(),
            all == values(found@),
            all == candidates(
                old(source).names(),
                old(source).names().len() as int,
                part@,
                serial@,
                access,
            ),
            width == ena_width(all),
            start == old(out)@ + list_heading(width as nat),
            source.names() == old(source).names(),
            source::continues(old(source).calls(), source.calls()),
            out@ == start + list_rows(kept, width as nat),
            forall|h: Seq<SourceCall>|
                source::continues(source.calls(), h) ==> #[trigger] walked(
                    all,
                    0,
                    class@,
                    access,
                    h,
                    old(source).calls().len() as int,
                    Seq::empty(),
                ) == walked(all, i as int, class@, access, h, source.calls().len() as int, kept),
        decreases found.len() - i,
    {
        assert(all[i as int] == found[i as int]@);
        match load_report(source, &found[i], access) {
            Err(e) => return Err(e),
            Ok(contents) => {
                let ereport_class = read_ereport_class(contents.as_str());
                let keep = match &ereport_class {
                    Some(c) => pattern::matches_patterns(class, c.as_str()),
                    None => true,
                };
                if keep {
                    push_list_row(out, &found[i].metadata, &ereport_class, width);
                    proof {
                        let entry = entry_of(all[i as int], contents@);
                        assert(kept.push(entry).drop_last() =~= kept);
                        kept = kept.push(entry);
                        assert(out@ =~= start + list_rows(kept, width as nat));
                    }
                }
            },
        }
        i = i + 1;
    }
    Ok(())
}

/// What a handler of ereports was given, and what it answered.
pub type Handled = (Entry, Result<(), Chain>);

/// A user of [`visit`]: it is handed one ereport after the other and may stop
/// the walk by an error.
pub trait EreportHandler {
    /// What must hold between two calls.
    open spec fn ready(&self) -> bool {
        arbitrary()
    }

    /// Everything handled so far, the oldest first.
    open spec fn handled(&self) -> Seq<Handled> {
        arbitrary()
    }

    fn handle(&mut self, entry: EreportEntry) -> (r: Result<(), BundleError>)
        requires
            old(self).ready(),
        ensures
            final(self).ready(),
            final(self).handled() == old(self).handled().push((entry@, source::done(r))),
    ;
}

/// The walk over the candidates from number `i` on, from request `p` on, when a
/// handler answered as `handled` says from number `k` on: the error that ended
/// it, the number of the next request, and that of the next answer.
pub open spec fn visited(
    candidates: Seq<Candidate>,
    i: int,
    class: Seq<Pattern>,
    access: Access,
    h: Seq<SourceCall>,
    p: int,
    handled: Seq<Handled>,
    k: int,
) -> Option<(Option<Chain>, int, int)>
    decreases candidates.len() - i,
{
    if i < 0 || i >= candidates.len() {
        Some((None, p, k))
    } else {
        match report_loaded(h, p, candidates[i], access) {
            None => None,
            Some((Err(e), q)) => Some((Some(e), q, k)),
            Some((Ok(contents), q)) => {
                let entry = entry_of(candidates[i], contents);
                if passed_over(entry.class, class) {
                    visited(candidates, i + 1, class, access, h, q, handled, k)
                } else if 0 <= k < handled.len() && handled[k].0 == entry {
                    match handled[k].1 {
                        Err(e) => Some((Some(e), q, k + 1)),
                        Ok(_) => visited(candidates, i + 1, class, access, h, q, handled, k + 1),
                    }
                } else {
                    None
                }
            },
        }
    }
}

/// Hands every ereport that a filter selects to `handler`, until one cannot be
/// read or the handler fails.
pub fn visit<S: BundleSource + ?Sized, H: EreportHandler>(
    source: &mut S,
    part: &[Pattern],
    serial: &[Pattern],
    class: &[Pattern],
    access: Access,
    handler: &mut H,
) -> (r: Result<(), BundleError>)
    requires
        old(handler).ready(),
    ensures
        final(handler).ready(),
        final(source).names() == old(source).names(),
        source::continues(old(source).calls(), final(source).calls()),
        source::continues(old(handler).handled(), final(handler).handled()),
        ({
            let names = old(source).names();
            let all = candidates(names, names.len() as int, part@, serial@, access);
            forall|h: Seq<SourceCall>|
                source::continues(final(source).calls(), h) ==> #[trigger] visited(
                    all,
                    0,
                    class@,
                    access,
                    h,
                    old(source).calls().len() as int,
                    final(handler).handled(),
                    old(handler).handled().len() as int,
                ) == Some(
                    (
                        reader::failure(r),
                        final(source).calls().len() as int,
                        final(handler).handled().len() as int,
                    ),
                )
        }),
{
    let names = source.file_names();
    let found = find_reports(&names, part, serial, access);
    let ghost all = values(found@);
    let mut i: usize = 0;
    while i < found.len()
        invariant
            i <= found.len(),
            all == values(found@),
            all == candidates(
                old(source).names(),
                old(source).names().len() as int,
                part@,
                serial@,
                access,
            ),
            handler.ready(),
            source.names() == old(source).names(),
            source::continues(old(source).calls(), source.calls()),
            source::continues(old(handler).handled(), handler.handled()),
            forall|h: Seq<SourceCall>, s: Seq<Handled>|
                source::continues(source.calls(), h) && source::continues(handler.handled(), s)
                    ==> #[trigger] visited(
                    all,
                    0,
                    class@,
                    access,
                    h,
                    old(source).calls().len() as int,
                    s,
                    old(handler).handled().len() as int,
                ) == visited(
                    all,
                    i as int,
                    class@,
                    access,
                    h,
                    source.calls().len() as int,
                    s,
                    handler.handled().len() as int,
                ),
        decreases found.len() - i,
    {
        assert(all[i as int] == found[i as int]@);
        match load_report(source, &found[i], access) {
            Err(e) => return Err(e),
            Ok(contents) => {
                let ereport_class = read_ereport_class(contents.as_str());
                let keep = match &ereport_class {
                    Some(c) => pattern::matches_patterns(class, c.as_str()),
                    None => true,
                };
                if keep {
                    let entry = EreportEntry {
                        path: found[i].path.clone(),
                        metadata: found[i].metadata.clone(),
                        class: ereport_class,
                        contents,
                    };
                    assert(entry@ == entry_of(all[i as int], contents@));
                    match handler.handle(entry) {
                        Err(e) => return Err(e),
                        Ok(_) => {},
                    }
                }
            },
        }
        i = i + 1;
    }
    Ok(())
}

/// The ereports of a list of answers.
pub open spec fn entries_of(handled: Seq<Handled>) -> Seq<Entry> {
    handled.map_values(|x: Handled| x.0)
}

/// A handler that never fails sees exactly the ereports that the walk keeps.
pub proof fn lemma_visited_all(
    candidates: Seq<Candidate>,
    i: int,
    class: Seq<Pattern>,
    access: Access,
    h: Seq<SourceCall>,
    p: int,
    handled: Seq<Handled>,
    k: int,
    kept: Seq<Entry>,
    failure: Option<Chain>,
    next: int,
)
    requires
        0 <= i,
        0 <= k <= handled.len(),
        forall|j: int| k <= j < handled.len() ==> (#[trigger] handled[j]).1 is Ok,
        visited(candidates, i, class, access, h, p, handled, k) == Some(
            (failure, next, handled.len() as int),
        ),
    ensures
        walked(candidates, i, class, access, h, p, kept) == Some(
            ((kept + entries_of(handled.skip(k)), failure), next),
        ),
    decreases candidates.len() - i,
{
    if i >= candidates.len() {
        assert(kept + entries_of(handled.skip(k)) =~= kept);
    } else {
        match report_loaded(h, p, candidates[i], access) {
            Some((Ok(contents), q)) => {
                let entry = entry_of(candidates[i], contents);
                if passed_over(entry.class, class) {
                    lemma_visited_all(
                        candidates,
                        i + 1,
                        class,
                        access,
                        h,
                        q,
                        handled,
                        k,
                        kept,
                        failure,
                        next,
                    );
                } else {
                    assert(handled[k].1 is Ok);
                    lemma_visited_all(
                        candidates,
                        i + 1,
                        class,
                        access,
                        h,
                        q,
                        handled,
                        k + 1,
                        kept.push(entry),
                        failure,
                        next,
                    );
                    assert(kept.push(entry) + entries_of(handled.skip(k + 1)) =~= kept
                        + entries_of(handled.skip(k)));
                }
            },
            _ => {
                assert(kept + entries_of(handled.skip(k)) =~= kept);
            },
        }
    }
}

/// The handler that collects what it is given.
struct Collector {
    entries: Vec<EreportEntry>,
}

/// The values of a list of ereports.
pub open spec fn entry_values(list: Seq<EreportEntry>) -> Seq<Entry> {
    list.map_values(|e: EreportEntry| e@)
}

impl EreportHandler for Collector {
    closed spec fn ready(&self) -> bool {
        true
    }

    closed spec fn handled(&self) -> Seq<Handled> {
        self.entries@.map_values(|e: EreportEntry| (e@, Ok::<(), Chain>(())))
    }

    fn handle(&mut self, entry: EreportEntry) -> (r: Result<(), BundleError>) {
        self.entries.push(entry);
        assert(self.handled() =~= old(self).handled().push((entry@, Ok::<(), Chain>(()))));
        Ok(())
    }
}

/// Collects the ereports that a filter selects.
pub fn collect_reports<S: BundleSource + ?Sized>(
    source: &mut S,
    part: &[Pattern],
    serial: &[Pattern],
    class: &[Pattern],
    access: Access,
) -> (r: Result<Vec<EreportEntry>, BundleError>)
    ensures
        final(source).names() == old(source).names(),
        source::continues(old(source).calls(), final(source).calls()),
        ({
            let names = old(source).names();
            let all = candidates(names, names.len() as int, part@, serial@, access);
            forall|h: Seq<SourceCall>|
                source::continues(final(source).calls(), h) ==> (match #[trigger] walked(
                    all,
                    0,
                    class@,
                    access,
                    h,
                    old(source).calls().len() as int,
                    Seq::empty(),
                ) {
                    Some(((kept, failure), next)) => {
                        &&& next == final(source).calls().len()
                        &&& match r {
                            Ok(entries) => failure is None && entry_values(entries@) == kept,
                            Err(e) => failure == Some(e@),
                        }
                    },
                    None => false,
                })
        }),
{
    let mut collector = Collector { entries: Vec::new() };
    assert(collector.handled() =~= Seq::empty());
    let outcome = visit(source, part, serial, class, access, &mut collector);
    proof {
        let names = old(source).names();
        let all = candidates(names, names.len() as int, part@, serial@, access);
        let seen = collector.handled();
        assert(entries_of(seen.skip(0)) =~= entry_values(collector.entries@));
        assert(Seq::<Entry>::empty() + entries_of(seen.skip(0)) =~= entries_of(seen.skip(0)));
        assert forall|h: Seq<SourceCall>|
            source::continues(source.calls(), h) implies #[trigger] walked(
            all,
            0,
            class@,
            access,
            h,
            old(source).calls().len() as int,
            Seq::empty(),
        ) == Some(
            (
                (entry_values(collector.entries@), reader::failure(outcome)),
                source.calls().len() as int,
            ),
        ) by {
            lemma_visited_all(
                all,
                0,
                class@,
                access,
                h,
                old(source).calls().len() as int,
                seen,
                0,
                Seq::empty(),
                reader::failure(outcome),
                source.calls().len() as int,
            );
        }
    }
    match outcome {
        Ok(_) => Ok(collector.entries),
        Err(e) => Err(e),
    }
}

/// A JSON document set out over several lines; `None` for a text that is no
/// JSON document.
pub uninterp spec fn json_pretty(s: Seq<char>) -> Option<Seq<char>>;

/// Sets out a JSON document over several lines, by
/// `serde_json::to_string_pretty` on the `serde_json::Value` that
/// `serde_json::from_str` reads.
///
/// Trusted: the outcome depends on the text alone. Which texts are documents,
/// and how they are set out, is left to the crate.
#[verifier::external_body]
fn pretty_json(s: &str) -> (r: Option<String>)
    ensures
        text::optional(r) == json_pretty(s@),
{
    let json = serde_json::from_str::<serde_json::Value>(s).ok()?;
    serde_json::to_string_pretty(&json).ok()
}

/// The line above the contents of a file.
pub open spec fn header(path: Seq<char>) -> Seq<char> {
    "==> "@ + path + " <==\n"@
}

/// The contents of an ereport as they are shown, where `pretty` is the JSON
/// document in them, if they hold one: the document and a newline, or the raw
/// contents.
pub open spec fn body(pretty: Option<Seq<char>>, contents: Seq<char>) -> Seq<char> {
    match pretty {
        Some(json) => json + "\n"@,
        None => contents,
    }
}

/// One ereport as it is shown.
pub open spec fn block(
    path: Seq<char>,
    pretty: Option<Seq<char>>,
    contents: Seq<char>,
    no_header: bool,
) -> Seq<char> {
    if no_header {
        body(pretty, contents)
    } else {
        header(path) + body(pretty, contents) + "\n"@
    }
}

/// A list of ereports as they are shown.
pub open spec fn blocks(entries: Seq<Entry>, no_header: bool) -> Seq<char>
    decreases entries.len(),
{
    if entries.len() == 0 {
        Seq::empty()
    } else {
        let last = entries.last();
        blocks(entries.drop_last(), no_header) + block(
            last.path,
            json_pretty(last.contents),
            last.contents,
            no_header,
        )
    }
}

/// Writes one ereport, where `pretty` is the JSON document in its contents.
pub fn write_block(
    out: &mut String,
    path: &str,
    pretty: &Option<String>,
    contents: &str,
    no_header: bool,
)
    ensures
        final(out)@ == old(out)@ + block(path@, text::optional(*pretty), contents@, no_header),
{
    if !no_header {
        out.append("==> ");
        out.append(path);
        out.append(" <==\n");
    }
    match pretty {
        Some(json) => {
            out.append(json.as_str());
            out.append("\n");
        },
        None => {
            out.append(contents);
        },
    }
    if !no_header {
        out.append("\n");
    }
    assert(out@ =~= old(out)@ + block(path@, text::optional(*pretty), contents@, no_header));
}

/// The handler that writes what it is given, without headers where `PLAIN`.
struct Writer<const PLAIN: bool> {
    out: String,
    seen: Ghost<Seq<Entry>>,
}

impl<const PLAIN: bool> EreportHandler for Writer<PLAIN> {
    closed spec fn ready(&self) -> bool {
        self.out@ == blocks(self.seen@, PLAIN)
    }

    closed spec fn handled(&self) -> Seq<Handled> {
        self.seen@.map_values(|e: Entry| (e, Ok::<(), Chain>(())))
    }

    fn handle(&mut self, entry: EreportEntry) -> (r: Result<(), BundleError>) {
        let pretty = pretty_json(entry.contents.as_str());
        write_block(
            &mut self.out,
            entry.path.as_str(),
            &pretty,
            entry.contents.as_str(),
            PLAIN,
        );
        self.seen = Ghost(self.seen@.push(entry@));
        proof {
            assert(self.seen@.drop_last() =~= old(self).seen@);
            assert(self.out@ =~= blocks(self.seen@, PLAIN));
            assert(self.handled() =~= old(self).handled().push((entry@, Ok::<(), Chain>(()))));
        }
        Ok(())
    }
}

/// Shows the ereports that a filter selects, without headers where `PLAIN`.
fn show_as<S: BundleSource + ?Sized, const PLAIN: bool>(
    source: &mut S,
    part: &[Pattern],
    serial: &[Pattern],
    class: &[Pattern],
    access: Access,
    out: &mut String,
) -> (r: Result<(), BundleError>)
    ensures
        final(source).names() == old(source).names(),
        source::continues(old(source).calls(), final(source).calls()),
        ({
            let names = old(source).names();
            let all = candidates(names, names.len() as int, part@, serial@, access);
            forall|h: Seq<SourceCall>|
                source::continues(final(source).calls(), h) ==> (match #[trigger] walked(
                    all,
                    0,
                    class@,
                    access,
                    h,
                    old(source).calls().len() as int,
                    Seq::empty(),
                ) {
                    Some(((kept, failure), next)) => {
                        &&& final(out)@ == old(out)@ + blocks(kept, PLAIN)
                        &&& failure == reader::failure(r)
                        &&& next == final(source).calls().len()
                    },
                    None => false,
                })
        }),
{
    let mut writer: Writer<PLAIN> = Writer { out: String::new(), seen: Ghost(Seq::empty()) };
    assert(writer.out@ =~= blocks(writer.seen@, PLAIN));
    assert(writer.handled() =~= Seq::empty());
    let outcome = visit(source, part, serial, class, access, &mut writer);
    proof {
        let names = old(source).names();
        let all = candidates(names, names.len() as int, part@, serial@, access);
        let seen = writer.handled();
        assert(entries_of(seen.skip(0)) =~= writer.seen@);
        assert(Seq::<Entry>::empty() + writer.seen@ =~= writer.seen@);
        assert forall|h: Seq<SourceCall>|
            source::continues(source.calls(), h) implies #[trigger] walked(
            all,
            0,
            class@,
            access,
            h,
            old(source).calls().len() as int,
            Seq::empty(),
        ) == Some(
            ((writer.seen@, reader::failure(outcome)), source.calls().len() as int),
        ) by {
            lemma_visited_all(
                all,
                0,
                class@,
                access,
                h,
                old(source).calls().len() as int,
                seen,
                0,
                Seq::empty(),
                reader::failure(outcome),
                source.calls().len() as int,
            );
        }
    }
    out.append(writer.out.as_str());
    outcome
}

/// Shows the ereports that a filter selects. After an error `out` holds what
/// was written before it.
pub fn show_reports<S: BundleSource + ?Sized>(
    source: &mut S,
    part: &[Pattern],
    serial: &[Pattern],
    class: &[Pattern],
    access: Access,
    no_header: bool,
    out: &mut String,
) -> (r: Result<(), BundleError>)
    ensures
        final(source).names() == old(source).names(),
        source::continues(old(source).calls(), final(source).calls()),
        ({
            let names = old(source).names();
            let all = candidates(names, names.len() as int, part@, serial@, access);
            forall|h: Seq<SourceCall>|
                source::continues(final(source).calls(), h) ==> (match #[trigger] walked(
                    all,
                    0,
                    class@,
                    access,
                    h,
                    old(source).calls().len() as int,
                    Seq::empty(),
                ) {
                    Some(((kept, failure), next)) => {
                        &&& final(out)@ == old(out)@ + blocks(kept, no_header)
                        &&& failure == reader::failure(r)
                        &&& next == final(source).calls().len()
                    },
                    None => false,
                })
        }),
{
    if no_header {
        show_as::<S, true>(source, part, serial, class, access, out)
    } else {
        show_as::<S, false>(source, part, serial, class, access, out)
    }
}

} // verus!
