//! Laws of reading and running: what is made of the contents of a file, what is
//! written round it, which logs a run visits, and what a command changes.
use crate::bundle;
use crate::cat;
use crate::directory;
use crate::directory::Discovery;
use crate::directory::NameFault;
use crate::directory::Step;
use crate::ereport;
use crate::ereport::Access;
use crate::ereport::Candidate;
use crate::ereport::Ereport;
use crate::ereport::EreportEntry;
use crate::ereport::Found;
use crate::ereport::Handled;
use crate::error::BundleError;
use crate::inventory;
use crate::inventory::Layout;
use crate::log_file;
use crate::log_file::Log;
use crate::log_file::LogFile;
use crate::logs;
use crate::logs::CommandOutcome;
use crate::logs::CommandRequest;
use crate::logs::Exit;
use crate::logs::Halt;
use crate::logs::Manner;
use crate::logs::Selection;
use crate::logs::Style;
use crate::logs::Visit;
use crate::logs::Window;
use crate::pattern::Pattern;
use crate::reader;
use crate::reader::LineCount;
use crate::sled::BundleInfo;
use crate::sled::Sled;
use crate::sled::SledInfo;
use crate::source;
use crate::source::BundleFileMetadata;
use crate::source::Chain;
use crate::source::SourceCall;
use crate::stored;
use crate::stored::Tree;
use crate::text;
use crate::time;
use crate::time::TimeRange;
use crate::time::Timestamp;
use vstd::prelude::*;

verus! {

/// Bytes that are UTF-8 are the text that they encode; others are none, which is
/// said with the path of the file and before the complaint about them.
pub proof fn law_text_of_bytes(path: Seq<char>, b: Seq<u8>)
    ensures
        vstd::utf8::valid_utf8(b) ==> reader::named_text(path, reader::decoded(b)) == Ok::<
            Seq<char>,
            Chain,
        >(vstd::utf8::decode_utf8(b)),
        !vstd::utf8::valid_utf8(b) ==> reader::named_text(path, reader::decoded(b)) == Err::<
            Seq<char>,
            Chain,
        >(seq!["contents of "@ + path + " were not valid UTF-8"@, reader::utf8_complaint(b)]),
{
    let complaint = reader::utf8_complaint(b);
    let message = "contents of "@ + path + " were not valid UTF-8"@;
    assert(seq![message] + seq![complaint] =~= seq![message, complaint]);
}

/// What was written gives back the text that was read.
pub proof fn law_written_text_is_read_back(path: Seq<char>, s: Seq<char>)
    ensures
        reader::named_text(path, reader::decoded(vstd::utf8::encode_utf8(s))) == Ok::<
            Seq<char>,
            Chain,
        >(s),
{
    vstd::utf8::encode_utf8_valid_utf8(s);
    vstd::utf8::encode_utf8_decode_utf8(s);
}

/// A file that is loaded as a text is opened, read to its end, and decoded whole;
/// the step that fails is named, with the path.
pub proof fn law_steps_of_loading(h: Seq<SourceCall>, p: int, path: Seq<char>)
    ensures
        match source::opening(h, p, path) {
            None => reader::text_loaded(h, p, path) is None,
            Some(Err(e)) => reader::text_loaded(h, p, path) == Some(
                (Err::<Seq<char>, Chain>(seq!["failed to open "@ + path] + e), p + 1),
            ),
            Some(Ok(_)) => reader::text_loaded(h, p, path) == reader::text_read(h, p + 1, path),
        },
        match reader::drained(h, p, Seq::empty()) {
            None => reader::text_read(h, p, path) is None,
            Some(((_, Some(e)), q)) => reader::text_read(h, p, path) == Some(
                (Err::<Seq<char>, Chain>(seq!["failed to read contents of "@ + path] + e), q),
            ),
            Some(((b, None), q)) => if vstd::utf8::valid_utf8(b) {
                reader::text_read(h, p, path) == Some(
                    (Ok::<Seq<char>, Chain>(vstd::utf8::decode_utf8(b)), q),
                )
            } else {
                reader::text_read(h, p, path) == Some(
                    (
                        Err::<Seq<char>, Chain>(
                            seq![
                                "contents of "@ + path + " were not valid UTF-8"@,
                                reader::utf8_complaint(b),
                            ],
                        ),
                        q,
                    ),
                )
            },
        },
{
    match reader::drained(h, p, Seq::empty()) {
        Some(((b, None), _)) => {
            law_text_of_bytes(path, b);
        },
        _ => {},
    }
}

/// How the file of an ereport is loaded: by its name, whichever grammar its path
/// was read by, or by its position, in which case only the error of opening it
/// differs.
pub proof fn law_loading_of_ereports(
    h: Seq<SourceCall>,
    p: int,
    candidate: Candidate,
)
    requires
        candidate.index >= 0,
    ensures
        ereport::report_loaded(h, p, candidate, Access::Exact) == reader::text_loaded(
            h,
            p,
            candidate.path,
        ),
        ereport::report_loaded(h, p, candidate, Access::Lenient) == reader::text_loaded(
            h,
            p,
            candidate.path,
        ),
        match source::opening(h, p, candidate.path) {
            Some(Err(e)) => ereport::report_loaded(h, p, candidate, Access::Positional) == Some(
                (
                    Err::<Seq<char>, Chain>(
                        seq![
                            "failed to access file index "@ + text::decimal(
                                candidate.index as nat,
                            ),
                        ] + e,
                    ),
                    p + 1,
                ),
            ),
            _ => ereport::report_loaded(h, p, candidate, Access::Positional)
                == reader::text_loaded(h, p, candidate.path),
        },
{
}

/// A read that is cut short by an error keeps what came before it, and hands the
/// error on as it is.
pub proof fn law_error_ends_a_read(h: Seq<SourceCall>, p: int, got: Seq<u8>)
    requires
        0 <= p,
    ensures
        match reader::drained(h, p, got) {
            Some(((b, failure), q)) => {
                &&& p < q <= h.len()
                &&& source::continues(got, b)
                &&& h[q - 1] matches SourceCall::Read { chunk, .. }
                &&& match failure {
                    Some(e) => chunk == Err::<Seq<u8>, Chain>(e),
                    None => chunk is Ok && chunk->Ok_0.len() == 0,
                }
            },
            None => true,
        },
    decreases h.len() - p,
{
    match source::reading(h, p, reader::CHUNK as nat) {
        Some(Ok(b)) => {
            if b.len() > 0 {
                law_error_ends_a_read(h, p + 1, got + b);
                match reader::drained(h, p, got) {
                    Some(((all, _), _)) => {
                        assert forall|i: int| 0 <= i < got.len() implies #[trigger] all[i]
                            == got[i] by {
                            assert(all[i] == (got + b)[i]);
                        }
                    },
                    None => {},
                }
            }
        },
        _ => {},
    }
}

/// Where no lines are wanted, nothing is read, and nothing is written but the
/// first byte of what was read already.
pub proof fn law_no_lines(h: Seq<SourceCall>, p: int, b: Seq<u8>, out: Seq<u8>)
    ensures
        reader::shown(h, p, None, Some(0), out) == Some(((out, None::<Chain>), p)),
        reader::shown(h, p, Some(b), Some(0), out) == Some(((out + b.take(1), None::<Chain>), p)),
{
}

/// Round the contents of a log stand a line with its path and an empty line, or
/// nothing where headers are left out.
pub proof fn law_what_stands_round_a_log(out: Seq<u8>, path: Seq<char>)
    ensures
        logs::headed(out, path, true) == out,
        logs::footed(out, true) == out,
        logs::headed(out, path, false) == out + vstd::utf8::encode_utf8(
            "==> "@ + path + " <==\n"@,
        ),
        logs::footed(out, false) == out + vstd::utf8::encode_utf8("\n"@),
{
}

/// A log is handed on: it can be opened, and lies between the bounds where there
/// are any.
pub open spec fn is_handed_on<F: Fn(&[u8]) -> Option<Timestamp>>(
    tree: Tree,
    log: Log,
    window: Window,
    decode: F,
    manner: Manner,
) -> bool {
    if window.0 is None && window.1 is None {
        tree(log.path).opened is Ok
    } else {
        crate::selection::stored_between(tree, log, window, decode, manner)
    }
}

proof fn lemma_handed_on<F: Fn(&[u8]) -> Option<Timestamp>>(
    tree: Tree,
    log: Log,
    window: Window,
    decode: F,
    manner: Manner,
)
    ensures
        is_handed_on(tree, log, window, decode, manner) <==> stored::admitted(
            tree,
            log,
            window,
            decode,
            manner,
        ) == Ok::<bool, Chain>(true),
{
    let file = tree(log.path);
    if file.opened is Ok && file.facts is Ok && stored::head_of(file, manner) is Ok {
        crate::selection::law_both_bounds_hold_of_a_timely_log(
            stored::head_of(file, manner)->Ok_0,
            log,
            file.facts->Ok_0.1,
            window,
            decode,
        );
    }
}

/// The logs of the visits from number `k` up to number `end`.
pub open spec fn visited_logs(visits: Seq<Visit>, k: int, end: int) -> Seq<Log> {
    Seq::new((end - k) as nat, |j: int| visits[k + j].log)
}

/// A walk over logs that comes to its end has visited exactly those that can be
/// opened and lie between the bounds, each once, in order. At each visit the log
/// was open, and what is handed on of it is what had been read of it.
pub proof fn law_walk_visits_what_lies_between<F: Fn(&[u8]) -> Option<Timestamp>>(
    tree: Tree,
    all: Seq<Log>,
    i: int,
    window: Window,
    decode: F,
    h: Seq<SourceCall>,
    from: int,
    p: int,
    visits: Seq<Visit>,
    k: int,
)
    requires
        stored::keeps(h, from, tree),
        0 <= from <= p,
        0 <= i <= all.len(),
        0 <= k <= visits.len(),
    ensures
        match logs::visited(all, i, window, decode, h, p, visits, k) {
            Some((None, _, end)) => {
                &&& k <= end <= visits.len()
                &&& visited_logs(visits, k, end) == all.skip(i).filter(
                    |log: Log| is_handed_on(tree, log, window, decode, Manner::Named),
                )
                &&& forall|j: int|
                    k <= j < end ==> stored::begun(
                        h,
                        (#[trigger] visits[j]).from,
                        tree,
                        visits[j].log.path,
                        visits[j].cached,
                    )
            },
            _ => true,
        },
    decreases all.len() - i,
{
    let f = |log: Log| is_handed_on(tree, log, window, decode, Manner::Named);
    reveal(Seq::filter);
    if i == all.len() {
        assert(all.skip(i) =~= Seq::empty());
        assert(visited_logs(visits, k, k) =~= Seq::<Log>::empty().filter(f));
    } else {
        lemma_handed_on(tree, all[i], window, decode, Manner::Named);
        stored::lemma_opened(h, from, tree, p, all[i], window, decode, Manner::Named);
        let first = seq![all[i]];
        assert(all.skip(i) =~= first + all.skip(i + 1));
        Seq::filter_distributes_over_add(first, all.skip(i + 1), f);
        assert(first.drop_last() =~= Seq::empty());
        reveal_with_fuel(Seq::filter, 2);
        match logs::opened(h, p, all[i], window, decode, Manner::Named) {
            Some((Ok(None), q)) => {
                law_walk_visits_what_lies_between(
                    tree,
                    all,
                    i + 1,
                    window,
                    decode,
                    h,
                    from,
                    q,
                    visits,
                    k,
                );
                assert(first.filter(f) =~= Seq::empty());
                assert(Seq::<Log>::empty() + all.skip(i + 1).filter(f) =~= all.skip(i + 1).filter(
                    f,
                ));
            },
            Some((Ok(Some(_)), q)) => {
                assert(first.filter(f) =~= first);
                if k < visits.len() && visits[k].log == all[i] && visits[k].from == q
                    && visits[k].from <= visits[k].calls.len() && visits[k].outcome is Ok {
                    let next = visits[k].calls.len() as int;
                    law_walk_visits_what_lies_between(
                        tree,
                        all,
                        i + 1,
                        window,
                        decode,
                        h,
                        from,
                        next,
                        visits,
                        k + 1,
                    );
                    match logs::visited(all, i + 1, window, decode, h, next, visits, k + 1) {
                        Some((None, _, end)) => {
                            if k + 1 <= end <= visits.len() {
                                assert(visited_logs(visits, k, end) =~= first + visited_logs(
                                    visits,
                                    k + 1,
                                    end,
                                ));
                            }
                        },
                        _ => {},
                    }
                }
            },
            _ => {},
        }
    }
}

/// An ereport could not be loaded: the request ended with this error.
pub open spec fn loading_failed(
    h: Seq<SourceCall>,
    from: int,
    candidate: Candidate,
    access: Access,
    e: Chain,
    to: int,
) -> bool {
    ereport::report_loaded(h, from, candidate, access) == Some((Err::<Seq<char>, Chain>(e), to))
}

/// Some ereport, from number `i` on, could not be loaded.
pub open spec fn some_loading_failed(
    h: Seq<SourceCall>,
    candidates: Seq<Candidate>,
    i: int,
    access: Access,
    e: Chain,
    to: int,
) -> bool {
    exists|j: int, from: int|
        i <= j < candidates.len() && #[trigger] loading_failed(
            h,
            from,
            candidates[j],
            access,
            e,
            to,
        )
}

/// A walk over ereports stops at the first error and hands it on as it is: that of
/// an ereport that cannot be loaded, or that of the handler. Before it the handler
/// took everything without one.
pub proof fn law_walk_stops_at_the_first_error(
    candidates: Seq<Candidate>,
    i: int,
    class: Seq<Pattern>,
    access: Access,
    h: Seq<SourceCall>,
    p: int,
    handled: Seq<Handled>,
    k: int,
)
    requires
        0 <= i <= candidates.len(),
        0 <= k <= handled.len(),
    ensures
        match ereport::visited(candidates, i, class, access, h, p, handled, k) {
            Some((None, _, end)) => forall|j: int|
                k <= j < end ==> (#[trigger] handled[j]).1 is Ok,
            Some((Some(e), q, end)) => {
                &&& k <= end <= handled.len()
                &&& forall|j: int| k <= j < end - 1 ==> (#[trigger] handled[j]).1 is Ok
                &&& {
                    ||| k < end && handled[end - 1].1 == Err::<(), Chain>(e)
                    ||| {
                        &&& k < end ==> handled[end - 1].1 is Ok
                        &&& some_loading_failed(h, candidates, i, access, e, q)
                    }
                }
            },
            None => true,
        },
    decreases candidates.len() - i,
{
    if i < candidates.len() {
        match ereport::report_loaded(h, p, candidates[i], access) {
            Some((Err(e), q)) => {
                assert(loading_failed(h, p, candidates[i], access, e, q));
                assert(some_loading_failed(h, candidates, i, access, e, q));
            },
            Some((Ok(contents), q)) => {
                let entry = ereport::entry_of(candidates[i], contents);
                if ereport::passed_over(entry.class, class) {
                    law_walk_stops_at_the_first_error(
                        candidates,
                        i + 1,
                        class,
                        access,
                        h,
                        q,
                        handled,
                        k,
                    );
                } else if k < handled.len() && handled[k].0 == entry && handled[k].1 is Ok {
                    law_walk_stops_at_the_first_error(
                        candidates,
                        i + 1,
                        class,
                        access,
                        h,
                        q,
                        handled,
                        k + 1,
                    );
                }
            },
            None => {},
        }
    }
}

/// A log could not be opened: the request ended with this error.
pub open spec fn opening_failed<F: Fn(&[u8]) -> Option<Timestamp>>(
    h: Seq<SourceCall>,
    from: int,
    log: Log,
    window: Window,
    decode: F,
    e: Chain,
    to: int,
) -> bool {
    logs::opened(h, from, log, window, decode, Manner::Named) == Some(
        (Err::<Option<Option<Seq<u8>>>, Chain>(e), to),
    )
}

/// Some log, from number `i` on, could not be opened.
pub open spec fn some_opening_failed<F: Fn(&[u8]) -> Option<Timestamp>>(
    h: Seq<SourceCall>,
    all: Seq<Log>,
    i: int,
    window: Window,
    decode: F,
    e: Chain,
    to: int,
) -> bool {
    exists|j: int, from: int|
        i <= j < all.len() && #[trigger] opening_failed(h, from, all[j], window, decode, e, to)
}

/// A walk over logs stops at the first error and hands it on as it is: that of a
/// log that cannot be opened, or that of a visit. Before it every visit went well.
pub proof fn law_log_walk_stops_at_the_first_error<F: Fn(&[u8]) -> Option<Timestamp>>(
    all: Seq<Log>,
    i: int,
    window: Window,
    decode: F,
    h: Seq<SourceCall>,
    p: int,
    visits: Seq<Visit>,
    k: int,
)
    requires
        0 <= i <= all.len(),
        0 <= k <= visits.len(),
    ensures
        match logs::visited(all, i, window, decode, h, p, visits, k) {
            Some((None, _, end)) => forall|j: int|
                k <= j < end ==> (#[trigger] visits[j]).outcome is Ok,
            Some((Some(e), q, end)) => {
                &&& k <= end <= visits.len()
                &&& forall|j: int| k <= j < end - 1 ==> (#[trigger] visits[j]).outcome is Ok
                &&& {
                    ||| k < end && visits[end - 1].outcome == Err::<(), Chain>(e)
                    ||| {
                        &&& k < end ==> visits[end - 1].outcome is Ok
                        &&& some_opening_failed(h, all, i, window, decode, e, q)
                    }
                }
            },
            None => true,
        },
    decreases all.len() - i,
{
    if i < all.len() {
        match logs::opened(h, p, all[i], window, decode, Manner::Named) {
            Some((Err(e), q)) => {
                assert(opening_failed(h, p, all[i], window, decode, e, q));
                assert(some_opening_failed(h, all, i, window, decode, e, q));
            },
            Some((Ok(None), q)) => {
                law_log_walk_stops_at_the_first_error(
                    all,
                    i + 1,
                    window,
                    decode,
                    h,
                    q,
                    visits,
                    k,
                );
            },
            Some((Ok(Some(_)), _)) => {
                if k < visits.len() && visits[k].outcome is Ok {
                    law_log_walk_stops_at_the_first_error(
                        all,
                        i + 1,
                        window,
                        decode,
                        h,
                        visits[k].calls.len() as int,
                        visits,
                        k + 1,
                    );
                }
            },
            None => {},
        }
    }
}

/// A run with a command halts at the first log that is handed on, which no log
/// before it is. The command gets what would be shown of that log, and behind it
/// the run goes on with the log that follows.
pub proof fn law_command_gets_each_log<F: Fn(&[u8]) -> Option<Timestamp>>(
    tree: Tree,
    all: Seq<Log>,
    i: int,
    window: Window,
    decode: F,
    manner: Manner,
    style: Style,
    h: Seq<SourceCall>,
    from: int,
    p: int,
    out: Seq<u8>,
)
    requires
        stored::keeps(h, from, tree),
        0 <= from <= p,
        0 <= i <= all.len(),
        !style.list,
        reader::line_limit(style.line_ct) != Some(0nat),
    ensures
        match logs::ran(all, i, window, decode, manner, style, true, h, p, out) {
            Some(((Halt::Finished(None), written), _)) => {
                &&& written == out
                &&& forall|j: int|
                    i <= j < all.len() ==> !is_handed_on(
                        tree,
                        #[trigger] all[j],
                        window,
                        decode,
                        manner,
                    )
            },
            Some(((Halt::Command { input, failure, next }, written), _)) => {
                let at = next - 1;
                let shown = stored::body(tree(all[at].path), reader::line_limit(style.line_ct));
                &&& i <= at < all.len()
                &&& is_handed_on(tree, all[at], window, decode, manner)
                &&& forall|j: int|
                    i <= j < at ==> !is_handed_on(tree, #[trigger] all[j], window, decode, manner)
                &&& input == shown.0 && failure == shown.1
                &&& written == (if style.no_header {
                    out
                } else {
                    out + vstd::utf8::encode_utf8("==> "@ + all[at].path + " <==\n"@)
                })
            },
            _ => true,
        },
    decreases all.len() - i,
{
    if i < all.len() {
        lemma_handed_on(tree, all[i], window, decode, manner);
        stored::lemma_opened(h, from, tree, p, all[i], window, decode, manner);
        match logs::opened(h, p, all[i], window, decode, manner) {
            Some((Ok(None), q)) => {
                law_command_gets_each_log(
                    tree,
                    all,
                    i + 1,
                    window,
                    decode,
                    manner,
                    style,
                    h,
                    from,
                    q,
                    out,
                );
            },
            Some((Ok(Some(cached)), q)) => {
                let limit = reader::line_limit(style.line_ct);
                stored::lemma_shown(
                    h,
                    from,
                    tree,
                    q,
                    all[i].path,
                    cached,
                    limit,
                    Seq::empty(),
                );
                let shown = stored::body(tree(all[i].path), limit).0;
                assert(Seq::<u8>::empty() + shown =~= shown);
            },
            _ => {},
        }
    }
}

/// A listing needs no command: with one it writes what it writes without one.
pub proof fn law_listing_runs_no_command<F: Fn(&[u8]) -> Option<Timestamp>>(
    all: Seq<Log>,
    i: int,
    window: Window,
    decode: F,
    manner: Manner,
    style: Style,
    h: Seq<SourceCall>,
    p: int,
    out: Seq<u8>,
)
    requires
        0 <= i,
        style.list,
    ensures
        logs::ran(all, i, window, decode, manner, style, true, h, p, out) == logs::ran(
            all,
            i,
            window,
            decode,
            manner,
            style,
            false,
            h,
            p,
            out,
        ),
    decreases all.len() - i,
{
    if i < all.len() {
        match logs::opened(h, p, all[i], window, decode, manner) {
            Some((Ok(None), q)) => {
                law_listing_runs_no_command(
                    all,
                    i + 1,
                    window,
                    decode,
                    manner,
                    style,
                    h,
                    q,
                    out,
                );
            },
            Some((Ok(Some(cached)), q)) => {
                match logs::log_written(h, q, all[i].path, cached, style, out) {
                    Some(((o, None), next)) => {
                        law_listing_runs_no_command(
                            all,
                            i + 1,
                            window,
                            decode,
                            manner,
                            style,
                            h,
                            next,
                            o,
                        );
                    },
                    _ => {},
                }
            },
            _ => {},
        }
    }
}

/// What a command comes to: its start, the sending of its input, the reading of
/// that input, the copying of its output and its end, in this order, are what can
/// go wrong, and the first of them that did decides.
pub proof fn law_first_fault_of_a_command_counts(
    command: Seq<char>,
    failure: Option<Chain>,
    output: Vec<u8>,
    sent: Result<(), BundleError>,
    copied: Result<(), BundleError>,
    exit: Exit,
    e: BundleError,
)
    ensures
        logs::command_failure(command, failure, CommandOutcome::NotStarted(e)) == Some(e@),
        logs::command_output(CommandOutcome::NotStarted(e)) == Seq::<u8>::empty(),
        ({
            let outcome = CommandOutcome::Ran { output, sent, copied, exit };
            let r = logs::command_failure(command, failure, outcome);
            &&& logs::command_output(outcome) == output@
            &&& sent is Err ==> r == Some(sent->Err_0@)
            &&& sent is Ok && failure is Some ==> r == failure
            &&& sent is Ok && failure is None && copied is Err ==> r == Some(copied->Err_0@)
            &&& sent is Ok && failure is None && copied is Ok ==> match exit {
                Exit::Success => r is None,
                Exit::Failure(status) => r == Some(
                    seq!["command '"@ + command + "' exited with "@ + status@],
                ),
                Exit::Unknown(cause) => r == Some(cause@),
            }
        }),
{
}

/// The parts of a filter stand for themselves: each list of patterns is that of
/// its own kind, the time before which logs lie is the end of the window and the
/// time after which they lie its start.
pub proof fn law_filters_stand_for_themselves(
    filter: bundle::LogFilter,
    given: cat::LogFilter,
    selection: Selection,
    output: cat::LogOutput,
    range: TimeRange,
)
    ensures
        filter.choice().sled == filter.sled@ && filter.choice().service == filter.service@
            && filter.choice().zone == filter.zone@ && filter.choice().path == filter.path@,
        given.choice().sled == given.sled@ && given.choice().service == given.service@
            && given.choice().zone == given.zone@ && given.choice().path == given.path@,
        selection@.sled == selection.sled@ && selection@.service == selection.service@
            && selection@.zone == selection.zone@ && selection@.path == selection.path@,
        filter.rendering().list == filter.list && filter.rendering().line_ct == filter.line_ct
            && filter.rendering().no_header == filter.no_header,
        output.rendering().list == output.list && output.rendering().line_ct == output.line_ct
            && output.rendering().no_header == output.no_header,
        filter.before is Some ==> filter.window().0 == Some(filter.before->0@),
        filter.before is None ==> filter.window().0 is None,
        filter.after is Some ==> filter.window().1 == Some(filter.after->0@),
        filter.after is None ==> filter.window().1 is None,
        range.before is Some ==> cat::window(range).0 == Some(range.before->0@),
        range.before is None ==> cat::window(range).0 is None,
        range.after is Some ==> cat::window(range).1 == Some(range.after->0@),
        range.after is None ==> cat::window(range).1 is None,
{
}

/// The values that contracts speak of are those of the fields.
pub proof fn law_values_are_those_of_the_fields(
    log: LogFile,
    sled: SledInfo,
    report: Ereport,
    entry: EreportEntry,
    facts: BundleFileMetadata,
)
    ensures
        log@.path == log.path@ && log@.sled_uuid == log.sled_uuid@,
        log@.service is Some <==> log.service is Some,
        log.service is Some ==> log@.service->0 == log.service->0@,
        log@.zone is Some <==> log.zone is Some,
        log.zone is Some ==> log@.zone->0 == log.zone->0@,
        log@.timestamp is Some <==> log.timestamp is Some,
        log.timestamp is Some ==> log@.timestamp->0 == log.timestamp->0,
        sled@.uuid == sled.uuid@ && sled@.serial == sled.serial@ && sled@.cubby == sled.cubby,
        sled@.is_scrimlet == sled.is_scrimlet,
        sled@.zones.len() == sled.zones@.len() && forall|i: int|
            0 <= i < sled.zones@.len() ==> #[trigger] sled@.zones[i] == sled.zones@[i]@,
        sled@.services.len() == sled.services@.len() && forall|i: int|
            0 <= i < sled.services@.len() ==> #[trigger] sled@.services[i] == sled.services@[i]@,
        report@.part == report.part@ && report@.serial == report.serial@,
        report@.restart_id == report.restart_id@ && report@.ena == report.ena,
        entry@.path == entry.path@ && entry@.metadata == entry.metadata@,
        entry@.contents == entry.contents@,
        entry@.class is Some <==> entry.class is Some,
        entry.class is Some ==> entry@.class->0 == entry.class->0@,
        source::facts(Ok::<BundleFileMetadata, BundleError>(facts)) is Ok,
        source::facts(Ok::<BundleFileMetadata, BundleError>(facts))->Ok_0.0 == facts.len,
        facts.modified is Some ==> source::facts(
            Ok::<BundleFileMetadata, BundleError>(facts),
        )->Ok_0.1 == Some(facts.modified->0@),
        facts.modified is None ==> source::facts(
            Ok::<BundleFileMetadata, BundleError>(facts),
        )->Ok_0.1 is None,
{
}

/// The value of an inventory holds the value of each sled under its own UUID, and
/// the cubbies of the unhealthy sleds as they are.
pub proof fn law_value_of_an_inventory(info: BundleInfo, uuid: Seq<char>)
    ensures
        info@.sleds.contains_key(uuid) <==> info.sleds@.contains_key(uuid),
        info.sleds@.contains_key(uuid) ==> info@.sleds[uuid] == info.sleds@[uuid]@,
        info@.unhealthy == info.unhealthy_sleds@,
{
}

/// A request is answered by the entry in the record of requests that stands at its
/// number, if that is one for the same thing.
pub proof fn law_answers_stand_at_their_numbers(
    h: Seq<SourceCall>,
    p: int,
    path: Seq<char>,
    max: nat,
    opened: Result<(), Chain>,
    chunk: Result<Seq<u8>, Chain>,
    facts: Result<source::Facts, Chain>,
)
    ensures
        source::opening(h, p, path) == Some(opened) <==> 0 <= p < h.len() && h[p]
            == (SourceCall::Open { path, opened }),
        source::reading(h, p, max) == Some(chunk) <==> 0 <= p < h.len() && h[p]
            == (SourceCall::Read { max, chunk }),
        source::metadata_of(h, p, path) == Some(facts) <==> 0 <= p < h.len() && h[p]
            == (SourceCall::Metadata { path, facts }),
{
}

/// A record of requests continues another if that is its beginning.
pub proof fn law_later_records_begin_with_earlier_ones<T>(earlier: Seq<T>, later: Seq<T>)
    ensures
        source::continues(earlier, later) <==> exists|rest: Seq<T>| later == #[trigger] (earlier
            + rest),
{
    if source::continues(earlier, later) {
        assert(later =~= earlier + later.skip(earlier.len() as int));
    }
    if exists|rest: Seq<T>| later == #[trigger] (earlier + rest) {
        let rest = choose|rest: Seq<T>| later == #[trigger] (earlier + rest);
        assert forall|i: int| 0 <= i < earlier.len() implies #[trigger] later[i] == earlier[i] by {
            assert((earlier + rest)[i] == earlier[i]);
        }
    }
}

/// What a call came to is its value, or else the messages of its error.
pub proof fn law_outcomes_stand_for_themselves(
    e: BundleError,
    bytes: Vec<u8>,
    s: String,
    t: Timestamp,
    info: BundleInfo,
    note: Option<String>,
    cached: Option<Vec<u8>>,
    n: usize,
    lines: LineCount,
)
    ensures
        reader::failure(Ok(())) is None && reader::failure(Err(e)) == Some(e@),
        source::done(Ok(())) is Ok && source::done(Err(e)) == Err::<(), Chain>(e@),
        source::bytes(Ok(bytes)) == Ok::<Seq<u8>, Chain>(bytes@),
        source::bytes(Err(e)) == Err::<Seq<u8>, Chain>(e@),
        source::string(Ok(s)) == Ok::<Seq<char>, Chain>(s@),
        source::string(Err(e)) == Err::<Seq<char>, Chain>(e@),
        source::facts(Err(e)) == Err::<source::Facts, Chain>(e@),
        source::instant(Some(t)) == Some(t@) && source::instant(None) is None,
        time::outcome(Ok(t)) == Ok::<int, Seq<char>>(t@),
        time::outcome(Err(s)) == Err::<int, Seq<char>>(s@),
        time::stamp(Ok(t)) == Ok::<int, Chain>(t@),
        time::stamp(Err(e)) == Err::<int, Chain>(e@),
        reader::decoding(Ok(s)) == Ok::<Seq<char>, Seq<char>>(s@),
        reader::decoding(Err(s)) == Err::<Seq<char>, Seq<char>>(s@),
        text::optional(Some(s)) == Some(s@) && text::optional(None) is None,
        inventory::warned(Err(e)) == Err::<inventory::Warned, Chain>(e@),
        inventory::warned(Ok((info, note))) is Ok,
        inventory::warned(Ok((info, note)))->Ok_0 == (info@, text::optional(note)),
        logs::opened_value(Err(e)) == Err::<Option<Option<Seq<u8>>>, Chain>(e@),
        logs::opened_value(Ok(None)) == Ok::<Option<Option<Seq<u8>>>, Chain>(None),
        logs::opened_value(Ok(Some(None))) == Ok::<Option<Option<Seq<u8>>>, Chain>(Some(None)),
        logs::opened_value(Ok(Some(Some(bytes)))) == Ok::<Option<Option<Seq<u8>>>, Chain>(
            Some(Some(bytes@)),
        ),
        logs::outcome_failure(Ok(())) is None,
        logs::outcome_failure(Err(e@)) == Some(e@),
        reader::cached_bytes(Some(bytes)) == Some(bytes@) && reader::cached_bytes(None) is None,
        reader::count(Some(n)) == Some(n as nat) && reader::count(None) is None,
        reader::line_limit(Some(lines)) == Some(lines@) && reader::line_limit(None) is None,
        directory::step_value(Err(NameFault::Special)) == Err::<Step, NameFault>(
            NameFault::Special,
        ),
        directory::step_value(Err(NameFault::NotUtf8)) == Err::<Step, NameFault>(
            NameFault::NotUtf8,
        ),
        directory::step_value(Ok(Discovery::Descend)) == Ok::<Step, NameFault>(Step::Descend),
        directory::step_value(Ok(Discovery::Ignored)) == Ok::<Step, NameFault>(Step::Ignored),
        directory::step_value(Ok(Discovery::Indexed(s))) == Ok::<Step, NameFault>(
            Step::Indexed(s@),
        ),
{
}

/// A list stands for the values of its elements, one for one and in order.
pub proof fn law_lists_stand_for_their_elements(
    strings: Seq<String>,
    logs: Seq<LogFile>,
    found: Seq<Found>,
    entries: Seq<EreportEntry>,
    e: BundleError,
)
    ensures
        text::texts(strings).len() == strings.len() && forall|i: int|
            0 <= i < strings.len() ==> #[trigger] text::texts(strings)[i] == strings[i]@,
        logs::log_values(logs).len() == logs.len() && forall|i: int|
            0 <= i < logs.len() ==> #[trigger] logs::log_values(logs)[i] == logs[i]@,
        ereport::entry_values(entries).len() == entries.len() && forall|i: int|
            0 <= i < entries.len() ==> #[trigger] ereport::entry_values(entries)[i] == entries[i]@,
        ereport::values(found).len() == found.len() && forall|i: int|
            0 <= i < found.len() ==> {
                &&& (#[trigger] ereport::values(found)[i]).index == found[i].index
                &&& ereport::values(found)[i].path == found[i].path@
                &&& ereport::values(found)[i].metadata == found[i].metadata@
            },
        e@.len() == e.messages@.len() && forall|i: int|
            0 <= i < e@.len() ==> #[trigger] e@[i] == e.messages@[i]@,
{
}

/// A run with a command has come to its end, to an error, or to a request that
/// holds the input, what failed at its reading, and where to go on in the same
/// list.
pub proof fn law_where_a_run_halts(
    request: CommandRequest,
    e: BundleError,
    all: Seq<Log>,
    halt: Halt,
)
    ensures
        logs::halted(Ok(None), all, halt) <==> halt == Halt::Finished(None),
        logs::halted(Err(e), all, halt) <==> halt == Halt::Finished(Some(e@)),
        logs::halted(Ok(Some(request)), all, halt) <==> {
            &&& request.all_logs() == all
            &&& halt matches Halt::Command { input, failure, next }
            &&& input == request.wanted()
            &&& failure == request.read_failure()
            &&& next == request.next_log()
        },
{
}

/// Every log in the listing is that of a known sled.
pub proof fn law_known_sleds(names: Seq<Seq<char>>, sleds: Map<Seq<char>, Sled>)
    ensures
        cat::all_known(names, sleds) <==> forall|i: int, log: Log|
            0 <= i < names.len() && #[trigger] log_file::log_of(names[i]) == Some(log)
                ==> #[trigger] sleds.contains_key(log.sled_uuid),
{
    if forall|i: int, log: Log|
        0 <= i < names.len() && #[trigger] log_file::log_of(names[i]) == Some(log)
            ==> #[trigger] sleds.contains_key(log.sled_uuid) {
        assert forall|i: int| 0 <= i < names.len() implies (#[trigger] log_file::log_of(names[i]) matches Some(
            log,
        ) ==> sleds.contains_key(log.sled_uuid)) by {
            if log_file::log_of(names[i]) is Some {
                let log = log_file::log_of(names[i])->0;
                assert(log_file::log_of(names[i]) == Some(log));
                assert(sleds.contains_key(log.sled_uuid));
            }
        }
    }
}

/// A listing is complete if every record in it is that of a sled of its own, and
/// some name tells a zone of that sled, and some a service.
pub proof fn law_complete_listings(names: Seq<Seq<char>>)
    ensures
        ({
            let paths = names.filter(|s: Seq<char>| inventory::is_sled_txt(s, Layout::Depth));
            inventory::is_complete(names) <==> {
                &&& forall|i: int, j: int|
                    0 <= i < j < paths.len() ==> text::split(#[trigger] paths[i], '/')[3]
                        != text::split(#[trigger] paths[j], '/')[3]
                &&& forall|i: int|
                    0 <= i < paths.len() ==> {
                        &&& tells_of(names, text::split(#[trigger] paths[i], '/')[3], true)
                        &&& tells_of(names, text::split(paths[i], '/')[3], false)
                    }
            }
        }),
{
    let paths = names.filter(|s: Seq<char>| inventory::is_sled_txt(s, Layout::Depth));
    crate::holdings::law_records_are_the_sled_txts(names, Seq::empty(), Layout::Depth);
    assert(paths == inventory::records(names, names.len() as int, Layout::Depth));
    assert forall|uuid: Seq<char>|
        #![trigger tells_of(names, uuid, true)]
        #![trigger tells_of(names, uuid, false)]
        {
            &&& tells_of(names, uuid, true) <==> !inventory::zones_of(
                names,
                Layout::Depth,
                uuid,
            ).is_empty()
            &&& tells_of(names, uuid, false) <==> !inventory::services_of(
                names,
                Layout::Depth,
                uuid,
            ).is_empty()
        } by {
        let zones = inventory::zones_of(names, Layout::Depth, uuid);
        let services = inventory::services_of(names, Layout::Depth, uuid);
        if !zones.is_empty() {
            let zone = choose|x: Seq<char>| zones.contains(x);
            assert(inventory::has_zone(names, Layout::Depth, uuid, zone));
        }
        if !services.is_empty() {
            let service = choose|x: Seq<char>| services.contains(x);
            assert(inventory::has_service(names, Layout::Depth, uuid, service));
        }
        if tells_of(names, uuid, true) {
            let i = choose|i: int|
                {
                    &&& 0 <= i < names.len()
                    &&& #[trigger] inventory::spot_of(names[i], Layout::Depth) matches Some(spot)
                    &&& spot.sled == uuid
                    &&& spot.zone is Some
                };
            assert(zones.contains(inventory::spot_of(names[i], Layout::Depth)->0.zone->0));
        }
        if tells_of(names, uuid, false) {
            let i = choose|i: int|
                {
                    &&& 0 <= i < names.len()
                    &&& #[trigger] inventory::spot_of(names[i], Layout::Depth) matches Some(spot)
                    &&& spot.sled == uuid
                    &&& spot.service is Some
                };
            assert(services.contains(inventory::spot_of(names[i], Layout::Depth)->0.service->0));
        }
    }
    if inventory::is_complete(names) {
        assert forall|i: int, j: int| 0 <= i < j < paths.len() implies text::split(
            #[trigger] paths[i],
            '/',
        )[3] != text::split(#[trigger] paths[j], '/')[3] by {
            assert(!inventory::repeated(paths, j));
            assert(inventory::uuid_in(paths[i]) != inventory::uuid_in(paths[j]));
        }
        assert forall|i: int| 0 <= i < paths.len() implies {
            &&& tells_of(names, text::split(#[trigger] paths[i], '/')[3], true)
            &&& tells_of(names, text::split(paths[i], '/')[3], false)
        } by {
            assert(!inventory::repeated(paths, i));
        }
    }
}

/// Some name in the listing tells a zone of the sled, or a service of it.
pub open spec fn tells_of(names: Seq<Seq<char>>, uuid: Seq<char>, zone: bool) -> bool {
    exists|i: int|
        {
            &&& 0 <= i < names.len()
            &&& #[trigger] inventory::spot_of(names[i], Layout::Depth) matches Some(spot)
            &&& spot.sled == uuid
            &&& if zone {
                spot.zone is Some
            } else {
                spot.service is Some
            }
        }
}

} // verus!
