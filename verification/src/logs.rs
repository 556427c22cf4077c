//! Logs: which files a filter selects, from what time a file is, and walks
//! over the files that write them or hand them on.
use crate::ereport;
use crate::error;
use crate::error::BundleError;
use crate::log_file;
use crate::log_file::{Log, LogFile};
use crate::names::NameMap;
use crate::pattern;
use crate::pattern::Pattern;
use crate::reader;
use crate::reader::LineCount;
use crate::sled;
use crate::sled::{Sled, SledInfo};
use crate::source;
use crate::source::{BundleSource, Chain, SourceCall};
use crate::text;
use crate::time;
use crate::time::Timestamp;
use bstr::ByteSlice;
use vstd::prelude::*;

verus! {

/// The byte of `{`, with which a JSON object begins.
pub const BRACE: u8 = 0x7b;

/// How much of a file is read to find out from what time it is.
pub const TIME_CHECK_MAX: usize = 65536;

/// The bytes before the first newline.
pub open spec fn line_length(b: Seq<u8>) -> nat
    decreases b.len(),
{
    if b.len() == 0 || b[0] == reader::NEWLINE {
        0
    } else {
        1 + line_length(b.skip(1))
    }
}

/// A line without the carriage return at its end.
pub open spec fn without_return(line: Seq<u8>) -> Seq<u8> {
    if line.len() > 0 && line.last() == reader::RETURN {
        line.drop_last()
    } else {
        line
    }
}

/// The lines of `b` without their terminators, which are `"\n"` and `"\r\n"`.
pub open spec fn lines_of(b: Seq<u8>) -> Seq<Seq<u8>>
    decreases b.len(),
{
    if b.len() == 0 {
        Seq::empty()
    } else if line_length(b) >= b.len() {
        seq![b]
    } else {
        seq![without_return(b.take(line_length(b) as int))] + lines_of(
            b.skip((line_length(b) + 1) as int),
        )
    }
}

/// The lines of a byte string, by `bstr`'s `lines`.
///
/// Trusted: the iterator yields the lines in order, each without its
/// terminator `"\n"` or `"\r\n"`; a last line without one is yielded as it is.
#[verifier::external_body]
fn split_lines(b: &[u8]) -> (r: Vec<&[u8]>)
    ensures
        r@.map_values(|line: &[u8]| line@) == lines_of(b@),
{
    b.lines().collect()
}

/// The decoder may find the time `t` in a line.
pub open spec fn may_decode<F: Fn(&[u8]) -> Option<Timestamp>>(
    decode: F,
    line: Seq<u8>,
    t: Option<int>,
) -> bool {
    exists|b: &[u8], r: Option<Timestamp>|
        b@ == line && #[trigger] call_ensures(decode, (b,), r) && t == source::instant(r)
}

/// The decoder accepts every line, and the time that it finds in one depends on
/// nothing else.
pub open spec fn is_decoder<F: Fn(&[u8]) -> Option<Timestamp>>(decode: F) -> bool {
    &&& forall|b: &[u8]| call_requires(decode, (b,))
    &&& forall|line: Seq<u8>, x: Option<int>, y: Option<int>| #[trigger]
        may_decode(decode, line, x) && #[trigger] may_decode(decode, line, y) ==> x == y
}

/// The time that the decoder finds in a line.
pub open spec fn decoded<F: Fn(&[u8]) -> Option<Timestamp>>(decode: F, line: Seq<u8>) -> Option<
    int,
> {
    choose|t: Option<int>| may_decode(decode, line, t)
}

/// The time in a line of a log: lines that are no JSON object have none, nor
/// do those from the previous millenium.
pub open spec fn line_time<F: Fn(&[u8]) -> Option<Timestamp>>(decode: F, line: Seq<u8>) -> Option<
    int,
> {
    if line.len() > 0 && line[0] == BRACE {
        match decoded(decode, line) {
            Some(t) if t >= time::JANUARY_1_2001 => Some(t),
            _ => None,
        }
    } else {
        None
    }
}

/// The first time in the lines from number `i` on.
pub open spec fn first_time<F: Fn(&[u8]) -> Option<Timestamp>>(
    decode: F,
    lines: Seq<Seq<u8>>,
    i: int,
) -> Option<int>
    decreases lines.len() - i,
{
    if i < 0 || i >= lines.len() {
        None
    } else {
        match line_time(decode, lines[i]) {
            Some(t) => Some(t),
            None => first_time(decode, lines, i + 1),
        }
    }
}

/// Finds the first time in the contents of a log.
pub fn read_timestamp_from_contents<F: Fn(&[u8]) -> Option<Timestamp>>(
    buf: &[u8],
    decode: &F,
) -> (r: Option<Timestamp>)
    requires
        is_decoder(*decode),
    ensures
        source::instant(r) == first_time(*decode, lines_of(buf@), 0),
{
    let lines = split_lines(buf);
    let ghost all = lines_of(buf@);
    let mut i: usize = 0;
    assert(lines@.map_values(|line: &[u8]| line@).len() == lines.len());
    while i < lines.len()
        invariant
            i <= lines.len(),
            is_decoder(*decode),
            all == lines@.map_values(|line: &[u8]| line@),
            all == lines_of(buf@),
            first_time(*decode, all, 0) == first_time(*decode, all, i as int),
        decreases lines.len() - i,
    {
        let line = lines[i];
        assert(all[i as int] == line@);
        if line.len() > 0 && line[0] == BRACE {
            let found = decode(line);
            assert(may_decode(*decode, line@, source::instant(found)));
            match found {
                Some(t) => {
                    if t.as_nanosecond() >= time::JANUARY_1_2001 {
                        return Some(t);
                    }
                },
                None => {},
            }
        }
        i = i + 1;
    }
    None
}

/// The first of several times that is known.
pub open spec fn first_known(
    in_contents: Option<int>,
    in_name: Option<int>,
    modified: Option<int>,
) -> Option<int> {
    match in_contents {
        Some(t) => Some(t),
        None => match in_name {
            Some(t) => Some(t),
            None => modified,
        },
    }
}

/// The instant that the number in a log's file name denotes.
pub open spec fn name_time(timestamp: Option<int>) -> Option<int> {
    match timestamp {
        Some(s) => time::second_instant(s),
        None => None,
    }
}

/// From what time a log is, in order of decreasing accuracy: by its contents,
/// by the number in its file name, by its last change.
pub fn log_time<F: Fn(&[u8]) -> Option<Timestamp>>(
    head: &[u8],
    log: &LogFile,
    modified: Option<Timestamp>,
    decode: &F,
) -> (r: Option<Timestamp>)
    requires
        is_decoder(*decode),
    ensures
        source::instant(r) == first_known(
            first_time(*decode, lines_of(head@), 0),
            name_time(log@.timestamp),
            source::instant(modified),
        ),
{
    match read_timestamp_from_contents(head, decode) {
        Some(t) => Some(t),
        None => {
            let in_name = match log.timestamp {
                Some(s) => Timestamp::from_second(s),
                None => None,
            };
            match in_name {
                Some(t) => Some(t),
                None => modified,
            }
        },
    }
}

/// Which logs to take: patterns for the sled, the service, the zone and the
/// path.
pub struct Selection<'a> {
    pub sled: &'a [Pattern],
    pub service: &'a [Pattern],
    pub zone: &'a [Pattern],
    pub path: &'a [Pattern],
}

/// A selection as a mathematical value.
pub struct Choice {
    pub sled: Seq<Pattern>,
    pub service: Seq<Pattern>,
    pub zone: Seq<Pattern>,
    pub path: Seq<Pattern>,
}

impl<'a> View for Selection<'a> {
    type V = Choice;

    open spec fn view(&self) -> Choice {
        Choice {
            sled: self.sled@,
            service: self.service@,
            zone: self.zone@,
            path: self.path@,
        }
    }
}

/// The selection takes a log of the sled.
pub open spec fn takes(choice: Choice, log: Log, sled: Sled) -> bool {
    &&& sled::sled_selected(choice.sled, sled)
    &&& pattern::selects_optional(choice.service, log.service)
    &&& pattern::selects_optional(choice.zone, log.zone)
    &&& pattern::selects(choice.path, log.path)
}

/// The logs among the first `n` names that the selection takes. Logs of unknown
/// sleds are passed over.
pub open spec fn selected(
    names: Seq<Seq<char>>,
    n: int,
    sleds: Map<Seq<char>, Sled>,
    choice: Choice,
) -> Seq<Log>
    decreases n,
{
    if n <= 0 {
        Seq::empty()
    } else {
        let earlier = selected(names, n - 1, sleds, choice);
        match log_file::log_of(names[n - 1]) {
            Some(log) if sleds.contains_key(log.sled_uuid) && takes(
                choice,
                log,
                sleds[log.sled_uuid],
            ) => earlier.push(log),
            _ => earlier,
        }
    }
}

/// The values of a list of logs.
pub open spec fn log_values(logs: Seq<LogFile>) -> Seq<Log> {
    logs.map_values(|log: LogFile| log@)
}

/// Finds the logs that a selection takes.
pub fn select_logs(
    names: &Vec<String>,
    sleds: &NameMap<SledInfo>,
    selection: &Selection,
) -> (r: Vec<LogFile>)
    ensures
        log_values(r@) == selected(
            text::texts(names@),
            names@.len() as int,
            sled::sled_values(sleds@),
            selection@,
        ),
{
    let ghost all = text::texts(names@);
    let mut logs: Vec<LogFile> = Vec::new();
    let mut i: usize = 0;
    assert(log_values(logs@) =~= Seq::empty());
    while i < names.len()
        invariant
            i <= names.len(),
            all == text::texts(names@),
            log_values(logs@) == selected(
                all,
                i as int,
                sled::sled_values(sleds@),
                selection@,
            ),
        decreases names.len() - i,
    {
        assert(all[i as int] == names[i as int]@);
        match LogFile::from_path(names[i].as_str()) {
            Some(log) => {
                match sleds.get(log.sled_uuid.as_str()) {
                    Some(sled) => {
                        if sled.matches_patterns(selection.sled) && log.matches_services(
                            selection.service,
                        ) && log.matches_zones(selection.zone) && log.matches_paths(
                            selection.path,
                        ) {
                            let ghost earlier = log_values(logs@);
                            logs.push(log);
                            assert(log_values(logs@) =~= earlier.push(log@));
                        }
                    },
                    None => {},
                }
            },
            None => {},
        }
        i = i + 1;
    }
    logs
}

/// How errors of the source are reported, and how much of a file is read to
/// find out from what time it is.
#[derive(Clone, Copy, Debug, PartialEq, Eq, Structural)]
pub enum Manner {
    /// With the step that failed; up to the limit.
    Named,
    /// As they are; as much as the file is long, up to the limit, and nothing
    /// of a file whose length is not known.
    Bare,
}

/// An error of the source, seen from a step.
pub open spec fn reported(manner: Manner, message: Seq<char>, e: Chain) -> Chain {
    match manner {
        Manner::Named => error::wrapped(message, e),
        Manner::Bare => e,
    }
}

/// A window of time: the end and the start of it.
pub type Window = (Option<int>, Option<int>);

/// Reading the head of the open file, which is `len` bytes long, from request
/// `p` on.
pub open spec fn head_read(h: Seq<SourceCall>, p: int, len: Option<u64>, manner: Manner) -> Option<
    (Result<Seq<u8>, Chain>, int),
> {
    match manner {
        Manner::Named => reader::filled(h, p, Seq::empty(), TIME_CHECK_MAX as nat),
        Manner::Bare => {
            let size: nat = match len {
                Some(n) => if n < TIME_CHECK_MAX {
                    n as nat
                } else {
                    TIME_CHECK_MAX as nat
                },
                None => 0,
            };
            reader::filled_exactly(h, p, size)
        },
    }
}

/// Whether the log is from a time in the window, when `head` is the beginning
/// of its contents.
pub open spec fn timely<F: Fn(&[u8]) -> Option<Timestamp>>(
    head: Seq<u8>,
    log: Log,
    modified: Option<int>,
    window: Window,
    decode: F,
) -> bool {
    match first_known(first_time(decode, lines_of(head), 0), name_time(log.timestamp), modified) {
        Some(t) => time::in_window(t, window.0, window.1),
        None => false,
    }
}

/// What opening a log gives from request `p` on, where a time filter passes
/// over logs from outside the window: `Ok(None)` for a log that is passed over,
/// else the part of it that was read.
pub open spec fn opened<F: Fn(&[u8]) -> Option<Timestamp>>(
    h: Seq<SourceCall>,
    p: int,
    log: Log,
    window: Window,
    decode: F,
    manner: Manner,
) -> Option<(Result<Option<Option<Seq<u8>>>, Chain>, int)> {
    if window.0 is None && window.1 is None {
        match source::opening(h, p, log.path) {
            None => None,
            Some(Err(e)) => Some((Err(reported(manner, "failed to open "@ + log.path, e)), p + 1)),
            Some(Ok(_)) => Some((Ok(Some(None)), p + 1)),
        }
    } else {
        match source::metadata_of(h, p, log.path) {
            None => None,
            Some(Err(e)) => Some(
                (Err(reported(manner, "failed to read metadata for "@ + log.path, e)), p + 1),
            ),
            Some(Ok(facts)) => match source::opening(h, p + 1, log.path) {
                None => None,
                Some(Err(e)) => Some(
                    (Err(reported(manner, "failed to open "@ + log.path, e)), p + 2),
                ),
                Some(Ok(_)) => match head_read(h, p + 2, facts.0, manner) {
                    None => None,
                    Some((Err(e), q)) => Some(
                        (Err(error::wrapped("failed to read file "@ + log.path, e)), q),
                    ),
                    Some((Ok(head), q)) => if timely(head, log, facts.1, window, decode) {
                        Some((Ok(Some(Some(head))), q))
                    } else {
                        Some((Ok(None), q))
                    },
                },
            },
        }
    }
}

/// A result of opening a log, its error as a chain.
pub open spec fn opened_value(r: Result<Option<Option<Vec<u8>>>, BundleError>) -> Result<
    Option<Option<Seq<u8>>>,
    Chain,
> {
    match r {
        Ok(None) => Ok(None),
        Ok(Some(buf)) => Ok(Some(reader::cached_bytes(buf))),
        Err(e) => Err(e@),
    }
}

fn report(manner: Manner, step: &str, path: &str, e: BundleError) -> (r: BundleError)
    ensures
        r@ == reported(manner, step@ + path@, e@),
{
    match manner {
        Manner::Named => e.context(text::concat2(step, path)),
        Manner::Bare => e,
    }
}

/// Opens a log; a log from outside the window is passed over.
pub fn open_log<S: BundleSource + ?Sized, F: Fn(&[u8]) -> Option<Timestamp>>(
    source: &mut S,
    log: &LogFile,
    before: &Option<Timestamp>,
    after: &Option<Timestamp>,
    decode: &F,
    manner: Manner,
) -> (r: Result<Option<Option<Vec<u8>>>, BundleError>)
    requires
        is_decoder(*decode),
    ensures
        final(source).names() == old(source).names(),
        source::continues(old(source).calls(), final(source).calls()),
        forall|h: Seq<SourceCall>|
            source::continues(final(source).calls(), h) ==> #[trigger] opened(
                h,
                old(source).calls().len() as int,
                log@,
                (source::instant(*before), source::instant(*after)),
                *decode,
                manner,
            ) == Some((opened_value(r), final(source).calls().len() as int)),
{
    let path = log.path.as_str();
    if before.is_none() && after.is_none() {
        return match source.open_file(path) {
            Err(e) => Err(report(manner, "failed to open ", path, e)),
            Ok(_) => Ok(Some(None)),
        };
    }
    let metadata = match source.metadata(path) {
        Err(e) => return Err(report(manner, "failed to read metadata for ", path, e)),
        Ok(metadata) => metadata,
    };
    match source.open_file(path) {
        Err(e) => return Err(report(manner, "failed to open ", path, e)),
        Ok(_) => {},
    }
    let head = match manner {
        Manner::Named => reader::fill(source, TIME_CHECK_MAX),
        Manner::Bare => {
            let size: usize = match metadata.len {
                Some(n) => if n < TIME_CHECK_MAX as u64 {
                    n as usize
                } else {
                    TIME_CHECK_MAX
                },
                None => 0,
            };
            reader::fill_exactly(source, size)
        },
    };
    let head = match head {
        Err(e) => return Err(e.context(text::concat2("failed to read file ", path))),
        Ok(head) => head,
    };
    match log_time(head.as_slice(), log, metadata.modified, decode) {
        Some(ts) => {
            if time::within_time_range(&ts, before, after) {
                Ok(Some(Some(head)))
            } else {
                Ok(None)
            }
        },
        None => Ok(None),
    }
}

/// How to render the selected log files.
#[derive(Clone, Copy, Debug, PartialEq, Eq)]
pub struct Style {
    /// List matching files without printing their contents.
    pub list: bool,
    /// Number of lines to print from matching files.
    pub line_ct: Option<LineCount>,
    /// Don't display the file name header when outputting file contents.
    pub no_header: bool,
}

/// The output with the line above a log, unless there are no headers.
pub open spec fn headed(out: Seq<u8>, path: Seq<char>, no_header: bool) -> Seq<u8> {
    if no_header {
        out
    } else {
        out + vstd::utf8::encode_utf8(ereport::header(path))
    }
}

/// The output with the empty line below a log, unless there are no headers.
pub open spec fn footed(out: Seq<u8>, no_header: bool) -> Seq<u8> {
    if no_header {
        out
    } else {
        out + vstd::utf8::encode_utf8("\n"@)
    }
}

/// What writing the open log `path` appends to `out` from request `p` on, where
/// `cached` holds the part of it that was read already: the new output, the
/// error that ended it, and the number of the next request.
pub open spec fn log_written(
    h: Seq<SourceCall>,
    p: int,
    path: Seq<char>,
    cached: Option<Seq<u8>>,
    style: Style,
    out: Seq<u8>,
) -> Option<((Seq<u8>, Option<Chain>), int)> {
    if style.list {
        Some(((out + vstd::utf8::encode_utf8(path + "\n"@), None), p))
    } else {
        match reader::shown(
            h,
            p,
            cached,
            reader::line_limit(style.line_ct),
            headed(out, path, style.no_header),
        ) {
            None => None,
            Some(((b, Some(e)), q)) => Some(((b, Some(e)), q)),
            Some(((b, None), q)) => Some(((footed(b, style.no_header), None), q)),
        }
    }
}

fn push_text(out: &mut Vec<u8>, s: &str)
    ensures
        final(out)@ == old(out)@ + vstd::utf8::encode_utf8(s@),
{
    out.extend_from_slice(s.as_bytes());
    assert(out@ =~= old(out)@ + vstd::utf8::encode_utf8(s@));
}

fn push_header(out: &mut Vec<u8>, path: &str, no_header: bool)
    ensures
        final(out)@ == headed(old(out)@, path@, no_header),
{
    if !no_header {
        let line = text::concat3("==> ", path, " <==\n");
        push_text(out, line.as_str());
    }
}

fn push_footer(out: &mut Vec<u8>, no_header: bool)
    ensures
        final(out)@ == footed(old(out)@, no_header),
{
    if !no_header {
        push_text(out, "\n");
    }
}

/// Writes the open log `path`, of which `time_check_buf` was read already.
/// After an error `out` holds what was written before it.
pub fn write_log<S: BundleSource + ?Sized>(
    source: &mut S,
    path: &str,
    time_check_buf: &Option<Vec<u8>>,
    style: &Style,
    out: &mut Vec<u8>,
) -> (r: Result<(), BundleError>)
    ensures
        final(source).names() == old(source).names(),
        source::continues(old(source).calls(), final(source).calls()),
        forall|h: Seq<SourceCall>|
            source::continues(final(source).calls(), h) ==> #[trigger] log_written(
                h,
                old(source).calls().len() as int,
                path@,
                reader::cached_bytes(*time_check_buf),
                *style,
                old(out)@,
            ) == Some(((final(out)@, reader::failure(r)), final(source).calls().len() as int)),
{
    if style.list {
        let line = text::concat2(path, "\n");
        push_text(out, line.as_str());
        return Ok(());
    }
    push_header(out, path, style.no_header);
    let limit = match style.line_ct {
        Some(n) => Some(n.get()),
        None => None,
    };
    assert(reader::count(limit) == reader::line_limit(style.line_ct));
    match reader::write_file_content(time_check_buf, source, out, limit) {
        Err(e) => Err(e),
        Ok(_) => {
            push_footer(out, style.no_header);
            Ok(())
        },
    }
}

/// Where a run over logs stands when it halts.
pub enum Halt {
    /// At its end, or at an error.
    Finished(Option<Chain>),
    /// Before a command that wants `input`, at the reading of which `failure`
    /// may have come up. The log behind the present one is number `next`.
    Command { input: Seq<u8>, failure: Option<Chain>, next: int },
}

/// A run over the logs from number `i` on, from request `p` on, that writes
/// each log from a time in the window to `out`, or, where `piped`, halts at the
/// first of them with its contents: where it halts, the output, and the number
/// of the next request.
pub open spec fn ran<F: Fn(&[u8]) -> Option<Timestamp>>(
    logs: Seq<Log>,
    i: int,
    window: Window,
    decode: F,
    manner: Manner,
    style: Style,
    piped: bool,
    h: Seq<SourceCall>,
    p: int,
    out: Seq<u8>,
) -> Option<((Halt, Seq<u8>), int)>
    decreases logs.len() - i,
{
    if i < 0 || i >= logs.len() {
        Some(((Halt::Finished(None), out), p))
    } else {
        match opened(h, p, logs[i], window, decode, manner) {
            None => None,
            Some((Err(e), q)) => Some(((Halt::Finished(Some(e)), out), q)),
            Some((Ok(None), q)) => ran(
                logs,
                i + 1,
                window,
                decode,
                manner,
                style,
                piped,
                h,
                q,
                out,
            ),
            Some((Ok(Some(cached)), q)) => if piped && !style.list {
                match reader::shown(
                    h,
                    q,
                    cached,
                    reader::line_limit(style.line_ct),
                    Seq::empty(),
                ) {
                    None => None,
                    Some(((input, failure), q2)) => Some(
                        (
                            (
                                Halt::Command { input, failure, next: i + 1 },
                                headed(out, logs[i].path, style.no_header),
                            ),
                            q2,
                        ),
                    ),
                }
            } else {
                match log_written(h, q, logs[i].path, cached, style, out) {
                    None => None,
                    Some(((o, Some(e)), q2)) => Some(((Halt::Finished(Some(e)), o), q2)),
                    Some(((o, None), q2)) => ran(
                        logs,
                        i + 1,
                        window,
                        decode,
                        manner,
                        style,
                        piped,
                        h,
                        q2,
                        o,
                    ),
                }
            },
        }
    }
}

/// Where a run over logs halted.
#[derive(Debug)]
pub enum Halted {
    /// At its end, or at an error.
    Finished(Result<(), BundleError>),
    /// Before a command, with the input for it, the error at the reading of
    /// the input, and the number of the log to go on with.
    Command { input: Vec<u8>, failure: Result<(), BundleError>, next: usize },
}

impl View for Halted {
    type V = Halt;

    open spec fn view(&self) -> Halt {
        match *self {
            Halted::Finished(r) => Halt::Finished(reader::failure(r)),
            Halted::Command { input, failure, next } => Halt::Command {
                input: input@,
                failure: reader::failure(failure),
                next: next as int,
            },
        }
    }
}

/// Runs over the logs from number `start` on and writes each that is from a
/// time between the bounds, or, where `piped`, halts at the first of them for a
/// command.
pub fn run_logs<S: BundleSource + ?Sized, F: Fn(&[u8]) -> Option<Timestamp>>(
    source: &mut S,
    logs: &Vec<LogFile>,
    start: usize,
    before: &Option<Timestamp>,
    after: &Option<Timestamp>,
    decode: &F,
    manner: Manner,
    style: &Style,
    piped: bool,
    out: &mut Vec<u8>,
) -> (r: Halted)
    requires
        is_decoder(*decode),
    ensures
        !piped ==> r is Finished,
        final(source).names() == old(source).names(),
        source::continues(old(source).calls(), final(source).calls()),
        forall|h: Seq<SourceCall>|
            source::continues(final(source).calls(), h) ==> #[trigger] ran(
                log_values(logs@),
                start as int,
                (source::instant(*before), source::instant(*after)),
                *decode,
                manner,
                *style,
                piped,
                h,
                old(source).calls().len() as int,
                old(out)@,
            ) == Some(((r@, final(out)@), final(source).calls().len() as int)),
{
    let ghost all = log_values(logs@);
    let ghost window = (source::instant(*before), source::instant(*after));
    let mut i: usize = start;
    while i < logs.len()
        invariant
            is_decoder(*decode),
            all == log_values(logs@),
            window == (source::instant(*before), source::instant(*after)),
            source.names() == old(source).names(),
            source::continues(old(source).calls(), source.calls()),
            forall|h: Seq<SourceCall>|
                source::continues(source.calls(), h) ==> #[trigger] ran(
                    all,
                    start as int,
                    window,
                    *decode,
                    manner,
                    *style,
                    piped,
                    h,
                    old(source).calls().len() as int,
                    old(out)@,
                ) == ran(
                    all,
                    i as int,
                    window,
                    *decode,
                    manner,
                    *style,
                    piped,
                    h,
                    source.calls().len() as int,
                    out@,
                ),
        decreases logs.len() - i,
    {
        let log = &logs[i];
        assert(all[i as int] == log@);
        match open_log(source, log, before, after, decode, manner) {
            Err(e) => return Halted::Finished(Err(e)),
            Ok(None) => {},
            Ok(Some(time_check_buf)) => {
                if piped && !style.list {
                    push_header(out, log.path.as_str(), style.no_header);
                    let limit = match style.line_ct {
                        Some(n) => Some(n.get()),
                        None => None,
                    };
                    assert(reader::count(limit) == reader::line_limit(style.line_ct));
                    let mut input: Vec<u8> = Vec::new();
                    assert(input@ =~= Seq::empty());
                    let failure = reader::write_file_content(
                        &time_check_buf,
                        source,
                        &mut input,
                        limit,
                    );
                    return Halted::Command { input, failure, next: i + 1 };
                }
                match write_log(source, log.path.as_str(), &time_check_buf, style, out) {
                    Err(e) => return Halted::Finished(Err(e)),
                    Ok(_) => {},
                }
            },
        }
        i = i + 1;
    }
    Halted::Finished(Ok(()))
}

/// What a handler of logs was given, the record of the source's requests after
/// it, of which those from number `from` on are the handler's, and what it
/// answered.
pub struct Visit {
    pub log: Log,
    pub cached: Option<Seq<u8>>,
    pub from: int,
    pub calls: Seq<SourceCall>,
    pub outcome: Result<(), Chain>,
}

/// A user of [`visit_logs`]: it is handed one open log after the other, with
/// the part of it that was read already, and may stop the walk by an error. It
/// reads on through the source.
pub trait LogHandler<S: BundleSource + ?Sized> {
    /// What must hold between two calls.
    open spec fn ready(&self, style: Style) -> bool {
        arbitrary()
    }

    /// Everything handled so far, the oldest first.
    open spec fn handled(&self) -> Seq<Visit> {
        arbitrary()
    }

    fn handle(
        &mut self,
        style: &Style,
        log: &LogFile,
        source: &mut S,
        time_check_buf: Option<Vec<u8>>,
    ) -> (r: Result<(), BundleError>)
        requires
            old(self).ready(*style),
        ensures
            final(self).ready(*style),
            final(source).names() == old(source).names(),
            source::continues(old(source).calls(), final(source).calls()),
            final(self).handled() == old(self).handled().push(
                (Visit {
                    log: log@,
                    cached: reader::cached_bytes(time_check_buf),
                    from: old(source).calls().len() as int,
                    calls: final(source).calls(),
                    outcome: source::done(r),
                }),
            ),
    ;
}

/// A walk over the logs from number `i` on, from request `p` on, when a handler
/// answered as `visits` says from number `k` on: the error that ended it, the
/// number of the next request, and that of the next answer.
pub open spec fn visited<F: Fn(&[u8]) -> Option<Timestamp>>(
    logs: Seq<Log>,
    i: int,
    window: Window,
    decode: F,
    h: Seq<SourceCall>,
    p: int,
    visits: Seq<Visit>,
    k: int,
) -> Option<(Option<Chain>, int, int)>
    decreases logs.len() - i,
{
    if i < 0 || i >= logs.len() {
        Some((None, p, k))
    } else {
        match opened(h, p, logs[i], window, decode, Manner::Named) {
            None => None,
            Some((Err(e), q)) => Some((Some(e), q, k)),
            Some((Ok(None), q)) => visited(logs, i + 1, window, decode, h, q, visits, k),
            Some((Ok(Some(cached)), q)) => {
                let visit = visits[k];
                if 0 <= k < visits.len() && visit.log == logs[i] && visit.cached == cached
                    && visit.from == q && visit.from <= visit.calls.len() && source::continues(
                    visit.calls,
                    h,
                ) {
                    match visit.outcome {
                        Err(e) => Some((Some(e), visit.calls.len() as int, k + 1)),
                        Ok(_) => visited(
                            logs,
                            i + 1,
                            window,
                            decode,
                            h,
                            visit.calls.len() as int,
                            visits,
                            k + 1,
                        ),
                    }
                } else {
                    None
                }
            },
        }
    }
}

/// Hands every log that is from a time between the bounds to `handler`, until
/// one cannot be read or the handler fails.
pub fn visit_logs<
    S: BundleSource + ?Sized,
    F: Fn(&[u8]) -> Option<Timestamp>,
    H: LogHandler<S>,
>(
    source: &mut S,
    logs: &Vec<LogFile>,
    before: &Option<Timestamp>,
    after: &Option<Timestamp>,
    decode: &F,
    style: &Style,
    handler: &mut H,
) -> (r: Result<(), BundleError>)
    requires
        is_decoder(*decode),
        old(handler).ready(*style),
    ensures
        final(handler).ready(*style),
        final(source).names() == old(source).names(),
        source::continues(old(source).calls(), final(source).calls()),
        source::continues(old(handler).handled(), final(handler).handled()),
        forall|h: Seq<SourceCall>|
            source::continues(final(source).calls(), h) ==> #[trigger] visited(
                log_values(logs@),
                0,
                (source::instant(*before), source::instant(*after)),
                *decode,
                h,
                old(source).calls().len() as int,
                final(handler).handled(),
                old(handler).handled().len() as int,
            ) == Some(
                (
                    reader::failure(r),
                    final(source).calls().len() as int,
                    final(handler).handled().len() as int,
                ),
            ),
{
    let ghost all = log_values(logs@);
    let ghost window = (source::instant(*before), source::instant(*after));
    let mut i: usize = 0;
    while i < logs.len()
        invariant
            is_decoder(*decode),
            i <= logs.len(),
            all == log_values(logs@),
            window == (source::instant(*before), source::instant(*after)),
            handler.ready(*style),
            source.names() == old(source).names(),
            source::continues(old(source).calls(), source.calls()),
            source::continues(old(handler).handled(), handler.handled()),
            forall|h: Seq<SourceCall>, v: Seq<Visit>|
                source::continues(source.calls(), h) && source::continues(handler.handled(), v)
                    ==> #[trigger] visited(
                    all,
                    0,
                    window,
                    *decode,
                    h,
                    old(source).calls().len() as int,
                    v,
                    old(handler).handled().len() as int,
                ) == visited(
                    all,
                    i as int,
                    window,
                    *decode,
                    h,
                    source.calls().len() as int,
                    v,
                    handler.handled().len() as int,
                ),
        decreases logs.len() - i,
    {
        let log = &logs[i];
        assert(all[i as int] == log@);
        match open_log(source, log, before, after, decode, Manner::Named) {
            Err(e) => return Err(e),
            Ok(None) => {},
            Ok(Some(time_check_buf)) => {
                match handler.handle(style, log, source, time_check_buf) {
                    Err(e) => return Err(e),
                    Ok(_) => {},
                }
            },
        }
        i = i + 1;
    }
    Ok(())
}

/// The error of an answer.
pub open spec fn outcome_failure(r: Result<(), Chain>) -> Option<Chain> {
    match r {
        Ok(_) => None,
        Err(e) => Some(e),
    }
}

/// Visit number `j` took the output from `outs[j]` to `outs[j + 1]`.
pub open spec fn wrote(style: Style, visits: Seq<Visit>, outs: Seq<Seq<u8>>, j: int) -> bool {
    let v = visits[j];
    forall|h: Seq<SourceCall>|
        source::continues(v.calls, h) ==> #[trigger] log_written(
            h,
            v.from,
            v.log.path,
            v.cached,
            style,
            outs[j],
        ) == Some(((outs[j + 1], outcome_failure(v.outcome)), v.calls.len() as int))
}

/// A handler that writes each log leaves the output of the run over the logs.
proof fn lemma_visits_written<F: Fn(&[u8]) -> Option<Timestamp>>(
    logs: Seq<Log>,
    i: int,
    window: Window,
    decode: F,
    style: Style,
    h: Seq<SourceCall>,
    p: int,
    visits: Seq<Visit>,
    outs: Seq<Seq<u8>>,
    k: int,
    failure: Option<Chain>,
    next: int,
)
    requires
        0 <= i,
        0 <= k <= visits.len(),
        outs.len() == visits.len() + 1,
        forall|j: int| 0 <= j < visits.len() ==> #[trigger] wrote(style, visits, outs, j),
        visited(logs, i, window, decode, h, p, visits, k) == Some(
            (failure, next, visits.len() as int),
        ),
    ensures
        ran(logs, i, window, decode, Manner::Named, style, false, h, p, outs[k]) == Some(
            ((Halt::Finished(failure), outs.last()), next),
        ),
    decreases logs.len() - i,
{
    if i < logs.len() {
        match opened(h, p, logs[i], window, decode, Manner::Named) {
            Some((Ok(None), q)) => {
                lemma_visits_written(
                    logs,
                    i + 1,
                    window,
                    decode,
                    style,
                    h,
                    q,
                    visits,
                    outs,
                    k,
                    failure,
                    next,
                );
            },
            Some((Ok(Some(cached)), q)) => {
                assert(wrote(style, visits, outs, k));
                let v = visits[k];
                assert(log_written(h, v.from, v.log.path, v.cached, style, outs[k]) == Some(
                    ((outs[k + 1], outcome_failure(v.outcome)), v.calls.len() as int),
                ));
                if v.outcome is Ok {
                    lemma_visits_written(
                        logs,
                        i + 1,
                        window,
                        decode,
                        style,
                        h,
                        v.calls.len() as int,
                        visits,
                        outs,
                        k + 1,
                        failure,
                        next,
                    );
                }
            },
            _ => {},
        }
    }
}

/// The handler that writes each log.
struct Writer {
    out: Vec<u8>,
    visits: Ghost<Seq<Visit>>,
    outs: Ghost<Seq<Seq<u8>>>,
}

impl<S: BundleSource + ?Sized> LogHandler<S> for Writer {
    closed spec fn ready(&self, style: Style) -> bool {
        &&& self.outs@.len() == self.visits@.len() + 1
        &&& self.outs@[0] == Seq::<u8>::empty()
        &&& self.outs@.last() == self.out@
        &&& forall|j: int|
            0 <= j < self.visits@.len() ==> #[trigger] wrote(style, self.visits@, self.outs@, j)
    }

    closed spec fn handled(&self) -> Seq<Visit> {
        self.visits@
    }

    fn handle(
        &mut self,
        style: &Style,
        log: &LogFile,
        source: &mut S,
        time_check_buf: Option<Vec<u8>>,
    ) -> (r: Result<(), BundleError>) {
        let r = write_log(source, log.path.as_str(), &time_check_buf, style, &mut self.out);
        let ghost visit = Visit {
            log: log@,
            cached: reader::cached_bytes(time_check_buf),
            from: old(source).calls().len() as int,
            calls: source.calls(),
            outcome: source::done(r),
        };
        self.visits = Ghost(self.visits@.push(visit));
        self.outs = Ghost(self.outs@.push(self.out@));
        proof {
            let n = old(self).visits@.len();
            assert forall|j: int| 0 <= j < self.visits@.len() implies #[trigger] wrote(
                *style,
                self.visits@,
                self.outs@,
                j,
            ) by {
                if j < n {
                    assert(wrote(*style, old(self).visits@, old(self).outs@, j));
                    assert(self.visits@[j] == old(self).visits@[j]);
                    assert(self.outs@[j] == old(self).outs@[j]);
                    assert(self.outs@[j + 1] == old(self).outs@[j + 1]);
                } else {
                    assert(self.outs@[j] == old(self).out@);
                }
            }
        }
        r
    }
}

/// Writes every log that is from a time between the bounds. After an error
/// `out` holds what was written before it.
pub fn write_visited<S: BundleSource + ?Sized, F: Fn(&[u8]) -> Option<Timestamp>>(
    source: &mut S,
    logs: &Vec<LogFile>,
    before: &Option<Timestamp>,
    after: &Option<Timestamp>,
    decode: &F,
    style: &Style,
    out: &mut Vec<u8>,
) -> (r: Result<(), BundleError>)
    requires
        is_decoder(*decode),
    ensures
        final(source).names() == old(source).names(),
        source::continues(old(source).calls(), final(source).calls()),
        forall|h: Seq<SourceCall>|
            source::continues(final(source).calls(), h) ==> (match #[trigger] ran(
                log_values(logs@),
                0,
                (source::instant(*before), source::instant(*after)),
                *decode,
                Manner::Named,
                *style,
                false,
                h,
                old(source).calls().len() as int,
                Seq::empty(),
            ) {
                Some(((halt, written), next)) => {
                    &&& final(out)@ == old(out)@ + written
                    &&& halt == Halt::Finished(reader::failure(r))
                    &&& next == final(source).calls().len()
                },
                None => false,
            }),
{
    let mut writer = Writer {
        out: Vec::new(),
        visits: Ghost(Seq::empty()),
        outs: Ghost(Seq::empty().push(Seq::empty())),
    };
    assert(writer.out@ =~= Seq::empty());
    assert(LogHandler::<S>::ready(&writer, *style));
    let r = visit_logs(source, logs, before, after, decode, style, &mut writer);
    proof {
        let window = (source::instant(*before), source::instant(*after));
        assert forall|h: Seq<SourceCall>|
            source::continues(source.calls(), h) implies #[trigger] ran(
            log_values(logs@),
            0,
            window,
            *decode,
            Manner::Named,
            *style,
            false,
            h,
            old(source).calls().len() as int,
            Seq::empty(),
        ) == Some(
            ((Halt::Finished(reader::failure(r)), writer.out@), source.calls().len() as int),
        ) by {
            lemma_visits_written(
                log_values(logs@),
                0,
                window,
                *decode,
                *style,
                h,
                old(source).calls().len() as int,
                writer.visits@,
                writer.outs@,
                0,
                reader::failure(r),
                source.calls().len() as int,
            );
        }
    }
    out.append(&mut writer.out);
    r
}

/// What came of a command that was to be given a log.
#[derive(Debug)]
pub enum CommandOutcome {
    /// The command could not be started.
    NotStarted(BundleError),
    /// The command ran: what it wrote, whether its input could be sent and its
    /// output be copied, and how it ended.
    Ran {
        output: Vec<u8>,
        sent: Result<(), BundleError>,
        copied: Result<(), BundleError>,
        exit: Exit,
    },
}

/// How a command ended.
#[derive(Debug)]
pub enum Exit {
    Success,
    /// With a status other than success, in words.
    Failure(String),
    /// In a way that could not be found out.
    Unknown(BundleError),
}

/// The error that a command ends a run with, when `failure` came up at the
/// reading of its input: the first of those on its way that failed.
pub open spec fn command_failure(
    command: Seq<char>,
    failure: Option<Chain>,
    outcome: CommandOutcome,
) -> Option<Chain> {
    match outcome {
        CommandOutcome::NotStarted(e) => Some(e@),
        CommandOutcome::Ran { output, sent, copied, exit } => if sent is Err {
            reader::failure(sent)
        } else if failure is Some {
            failure
        } else if copied is Err {
            reader::failure(copied)
        } else {
            match exit {
                Exit::Success => None,
                Exit::Failure(status) => Some(
                    error::single("command '"@ + command + "' exited with "@ + status@),
                ),
                Exit::Unknown(e) => Some(e@),
            }
        },
    }
}

/// What a command writes.
pub open spec fn command_output(outcome: CommandOutcome) -> Seq<u8> {
    match outcome {
        CommandOutcome::NotStarted(_) => Seq::empty(),
        CommandOutcome::Ran { output, .. } => output@,
    }
}

/// Concludes a log that was given to a command: its output is written, and the
/// empty line below it unless something failed.
pub fn conclude_command(
    command: &str,
    failure: Result<(), BundleError>,
    outcome: CommandOutcome,
    no_header: bool,
    out: &mut Vec<u8>,
) -> (r: Result<(), BundleError>)
    ensures
        reader::failure(r) == command_failure(command@, reader::failure(failure), outcome),
        final(out)@ == (if r is Ok {
            footed(old(out)@ + command_output(outcome), no_header)
        } else {
            old(out)@ + command_output(outcome)
        }),
{
    match outcome {
        CommandOutcome::NotStarted(e) => {
            assert(out@ =~= old(out)@ + Seq::<u8>::empty());
            Err(e)
        },
        CommandOutcome::Ran { output, sent, copied, exit } => {
            let mut output = output;
            out.append(&mut output);
            match sent {
                Err(e) => return Err(e),
                Ok(_) => {},
            }
            match failure {
                Err(e) => return Err(e),
                Ok(_) => {},
            }
            match copied {
                Err(e) => return Err(e),
                Ok(_) => {},
            }
            match exit {
                Exit::Success => {
                    push_footer(out, no_header);
                    Ok(())
                },
                Exit::Failure(status) => {
                    let mut m = text::concat3("command '", command, "' exited with ");
                    m.append(status.as_str());
                    Err(BundleError::new(m))
                },
                Exit::Unknown(e) => Err(e),
            }
        },
    }
}

/// A command that is to be given a log.
#[derive(Debug)]
pub struct CommandRequest {
    input: Vec<u8>,
    failure: Result<(), BundleError>,
    logs: Vec<LogFile>,
    next: usize,
}

impl CommandRequest {
    /// What the command is to read.
    pub closed spec fn wanted(&self) -> Seq<u8> {
        self.input@
    }

    /// What the command is to read.
    pub fn input(&self) -> (r: &[u8])
        ensures
            r@ == self.wanted(),
    {
        self.input.as_slice()
    }

    /// The error at the reading of the input.
    pub closed spec fn read_failure(&self) -> Option<source::Chain> {
        reader::failure(self.failure)
    }

    /// The logs of the run.
    pub closed spec fn all_logs(&self) -> Seq<Log> {
        log_values(self.logs@)
    }

    /// The number of the log to go on with.
    pub closed spec fn next_log(&self) -> int {
        self.next as int
    }
}

/// A run over logs came to an end with `r`: it halted at a command, or it is
/// over.
pub open spec fn halted(
    r: Result<Option<CommandRequest>, BundleError>,
    logs: Seq<Log>,
    halt: Halt,
) -> bool {
    match r {
        Ok(Some(request)) => {
            &&& halt == Halt::Command {
                input: request.wanted(),
                failure: request.read_failure(),
                next: request.next_log(),
            }
            &&& request.all_logs() == logs
        },
        Ok(None) => halt == Halt::Finished(None),
        Err(e) => halt == Halt::Finished(Some(e@)),
    }
}

/// Runs over the logs from number `start` on, as [`run_logs`] does; a halt at a
/// command comes as a request from which the run can be resumed.
pub fn pipe_logs<S: BundleSource + ?Sized, F: Fn(&[u8]) -> Option<Timestamp>>(
    source: &mut S,
    matching: Vec<LogFile>,
    start: usize,
    before: &Option<Timestamp>,
    after: &Option<Timestamp>,
    decode: &F,
    style: &Style,
    piped: bool,
    out: &mut Vec<u8>,
) -> (r: Result<Option<CommandRequest>, BundleError>)
    requires
        is_decoder(*decode),
    ensures
        final(source).names() == old(source).names(),
        source::continues(old(source).calls(), final(source).calls()),
        forall|h: Seq<SourceCall>|
            source::continues(final(source).calls(), h) ==> (match #[trigger] ran(
                log_values(matching@),
                start as int,
                (source::instant(*before), source::instant(*after)),
                *decode,
                Manner::Named,
                *style,
                piped,
                h,
                old(source).calls().len() as int,
                old(out)@,
            ) {
                Some(((halt, written), next)) => {
                    &&& final(out)@ == written
                    &&& halted(r, log_values(matching@), halt)
                    &&& next == final(source).calls().len()
                },
                None => false,
            }),
{
    match run_logs(
        source,
        &matching,
        start,
        before,
        after,
        decode,
        Manner::Named,
        style,
        piped,
        out,
    ) {
        Halted::Finished(Ok(_)) => Ok(None),
        Halted::Finished(Err(e)) => Err(e),
        Halted::Command { input, failure, next } => Ok(
            Some(CommandRequest { input, failure, logs: matching, next }),
        ),
    }
}

/// Goes on with the logs behind the one that a command was given, after the
/// command `command` ended with `outcome`.
pub fn resume_logs<S: BundleSource + ?Sized, F: Fn(&[u8]) -> Option<Timestamp>>(
    source: &mut S,
    request: CommandRequest,
    command: &str,
    outcome: CommandOutcome,
    before: &Option<Timestamp>,
    after: &Option<Timestamp>,
    decode: &F,
    style: &Style,
    piped: bool,
    out: &mut Vec<u8>,
) -> (r: Result<Option<CommandRequest>, BundleError>)
    requires
        is_decoder(*decode),
    ensures
        final(source).names() == old(source).names(),
        source::continues(old(source).calls(), final(source).calls()),
        match command_failure(command@, request.read_failure(), outcome) {
            Some(failure) => {
                &&& r matches Err(e) && e@ == failure
                &&& final(out)@ == old(out)@ + command_output(outcome)
                &&& final(source).calls() == old(source).calls()
            },
            None => forall|h: Seq<SourceCall>|
                source::continues(final(source).calls(), h) ==> (match #[trigger] ran(
                    request.all_logs(),
                    request.next_log(),
                    (source::instant(*before), source::instant(*after)),
                    *decode,
                    Manner::Named,
                    *style,
                    piped,
                    h,
                    old(source).calls().len() as int,
                    footed(old(out)@ + command_output(outcome), style.no_header),
                ) {
                    Some(((halt, written), next)) => {
                        &&& final(out)@ == written
                        &&& halted(r, request.all_logs(), halt)
                        &&& next == final(source).calls().len()
                    },
                    None => false,
                }),
        },
{
    let CommandRequest { input, failure, logs, next } = request;
    match conclude_command(command, failure, outcome, style.no_header, out) {
        Err(e) => Err(e),
        Ok(_) => pipe_logs(source, logs, next, before, after, decode, style, piped, out),
    }
}

} // verus!
