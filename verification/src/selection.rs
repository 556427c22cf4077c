//! Laws of what is selected: which logs the patterns and the time bounds let
//! through, and which ereports the patterns of their classes do.
use crate::ereport;
use crate::ereport::Access;
use crate::ereport::Candidate;
use crate::ereport::Entry;
use crate::ereport::Handled;
use crate::laws;
use crate::log_file;
use crate::log_file::Log;
use crate::logs;
use crate::logs::Choice;
use crate::logs::Halt;
use crate::logs::Manner;
use crate::logs::Style;
use crate::logs::Window;
use crate::meaning;
use crate::pattern;
use crate::pattern::Pattern;
use crate::reader;
use crate::sled;
use crate::sled::Sled;
use crate::source;
use crate::source::Chain;
use crate::source::SourceCall;
use crate::stored;
use crate::stored::Tree;
use crate::text;
use crate::time::Timestamp;
use vstd::prelude::*;

verus! {

/// Some pattern of the list, at any position, matches the text.
pub open spec fn some_matches(patterns: Seq<Pattern>, s: Seq<char>) -> bool {
    exists|i: int| 0 <= i < patterns.len() && pattern::glob_matches(#[trigger] patterns[i]@, s)
}

/// A log is taken if and only if it satisfies each kind of pattern on its own,
/// whatever the patterns of the other kinds are: where there are patterns of a
/// kind, one of them matches.
pub proof fn law_each_kind_of_pattern_counts(choice: Choice, log: Log, sled: Sled)
    ensures
        logs::takes(choice, log, sled) <==> {
            &&& choice.sled.len() > 0 ==> exists|i: int|
                0 <= i < choice.sled.len() && sled::sled_matches(
                    #[trigger] choice.sled[i]@,
                    sled,
                )
            &&& choice.service.len() > 0 ==> log.service is Some && some_matches(
                choice.service,
                log.service->0,
            )
            &&& choice.zone.len() > 0 ==> log.zone is Some && some_matches(
                choice.zone,
                log.zone->0,
            )
            &&& choice.path.len() > 0 ==> some_matches(choice.path, log.path)
        },
{
    meaning::law_any_pattern_selects(choice.path, log.path);
    if log.service is Some {
        meaning::law_any_pattern_selects(choice.service, log.service->0);
    } else {
        meaning::law_any_pattern_selects(choice.service, Seq::empty());
    }
    if log.zone is Some {
        meaning::law_any_pattern_selects(choice.zone, log.zone->0);
    } else {
        meaning::law_any_pattern_selects(choice.zone, Seq::empty());
    }
}

/// The patterns of all kinds together select what the patterns of each kind
/// select when they are given alone.
pub proof fn law_kinds_of_patterns_are_independent(choice: Choice, log: Log, sled: Sled)
    ensures
        ({
            let none = Choice {
                sled: Seq::empty(),
                service: Seq::empty(),
                zone: Seq::empty(),
                path: Seq::empty(),
            };
            &&& logs::takes(none, log, sled)
            &&& logs::takes(choice, log, sled) <==> {
                &&& logs::takes(Choice { sled: choice.sled, ..none }, log, sled)
                &&& logs::takes(Choice { service: choice.service, ..none }, log, sled)
                &&& logs::takes(Choice { zone: choice.zone, ..none }, log, sled)
                &&& logs::takes(Choice { path: choice.path, ..none }, log, sled)
            }
        }),
{
}

proof fn lemma_selected_of_earlier(
    names: Seq<Seq<char>>,
    name: Seq<char>,
    n: int,
    sleds: Map<Seq<char>, Sled>,
    choice: Choice,
)
    requires
        n <= names.len(),
    ensures
        logs::selected(names.push(name), n, sleds, choice) == logs::selected(
            names,
            n,
            sleds,
            choice,
        ),
    decreases n,
{
    if n > 0 {
        lemma_selected_of_earlier(names, name, n - 1, sleds, choice);
        assert(names.push(name)[n - 1] == names[n - 1]);
    }
}

/// One more name in the listing adds its log to the selection, behind the others,
/// if it is that of a log of a known sled that satisfies every kind of pattern,
/// and changes nothing otherwise.
pub proof fn law_each_name_is_judged_alone(
    names: Seq<Seq<char>>,
    name: Seq<char>,
    sleds: Map<Seq<char>, Sled>,
    choice: Choice,
)
    ensures
        logs::selected(Seq::empty(), 0, sleds, choice) == Seq::<Log>::empty(),
        ({
            let before = logs::selected(names, names.len() as int, sleds, choice);
            let after = logs::selected(
                names.push(name),
                (names.len() + 1) as int,
                sleds,
                choice,
            );
            match log_file::log_of(name) {
                None => after == before,
                Some(log) => if sleds.contains_key(log.sled_uuid) && logs::takes(
                    choice,
                    log,
                    sleds[log.sled_uuid],
                ) {
                    after == before + seq![log]
                } else {
                    after == before
                },
            }
        }),
{
    lemma_selected_of_earlier(names, name, names.len() as int, sleds, choice);
    assert(names.push(name)[names.len() as int] == name);
}

/// Every selected log satisfies each kind of pattern, and every log of a known
/// sled that satisfies all four is selected.
pub proof fn law_selection_by_every_kind(
    names: Seq<Seq<char>>,
    sleds: Map<Seq<char>, Sled>,
    choice: Choice,
    log: Log,
)
    ensures
        logs::selected(names, names.len() as int, sleds, choice).contains(log) <==> {
            &&& names.contains(log.path)
            &&& log_file::log_of(log.path) == Some(log)
            &&& sleds.contains_key(log.sled_uuid)
            &&& choice.sled.len() > 0 ==> sled::sled_selected(choice.sled, sleds[log.sled_uuid])
            &&& choice.service.len() > 0 ==> log.service is Some && some_matches(
                choice.service,
                log.service->0,
            )
            &&& choice.zone.len() > 0 ==> log.zone is Some && some_matches(
                choice.zone,
                log.zone->0,
            )
            &&& choice.path.len() > 0 ==> some_matches(choice.path, log.path)
        },
{
    let list = logs::selected(names, names.len() as int, sleds, choice);
    laws::law_selected_logs(names, names.len() as int, sleds, choice);
    law_each_kind_of_pattern_counts(choice, log, sleds[log.sled_uuid]);
    if list.contains(log) {
        let k = choose|k: int| 0 <= k < list.len() && list[k] == log;
        assert(list[k] == log);
    }
    if names.contains(log.path) && log_file::log_of(log.path) == Some(log) {
        let i = choose|i: int| 0 <= i < names.len() && names[i] == log.path;
        assert(log_file::log_of(names[i]) == Some(log));
    }
}

/// A path is that of a log if it has at least five parts and does not end in a
/// slash. The fourth part is the UUID of the sled, the sixth the zone, and the
/// seventh the service, as far as there are that many.
pub proof fn law_parts_of_a_log_path(parts: Seq<Seq<char>>)
    requires
        parts.len() > 0,
        forall|i: int| 0 <= i < parts.len() ==> !(#[trigger] parts[i]).contains('/'),
    ensures
        ({
            let path = text::join(parts, seq!['/']);
            match log_file::log_of(path) {
                None => parts.len() < 5 || parts.last().len() == 0,
                Some(log) => {
                    &&& parts.len() >= 5 && parts.last().len() > 0
                    &&& log.path == path
                    &&& log.sled_uuid == parts[3]
                    &&& log.zone == (if parts.len() >= 6 {
                        Some(parts[5])
                    } else {
                        None
                    })
                    &&& log.service == (if parts.len() >= 7 {
                        Some(parts[6])
                    } else {
                        None
                    })
                    &&& log.timestamp == log_file::trailing_number(path)
                },
            }
        }),
{
    reveal_strlit("/");
    let path = text::join(parts, seq!['/']);
    laws::law_split_restores(parts, '/');
    meaning::law_beginnings_and_endings(path, "/"@, path.drop_last());
    assert("/"@ =~= seq!['/']);
    if parts.len() > 1 {
        let front = parts.drop_last();
        meaning::law_join_by_pieces(front, parts.last(), seq!['/']);
        assert(front.push(parts.last()) =~= parts);
        let start = text::join(front, seq!['/']) + seq!['/'];
        assert(path == start + parts.last());
        if parts.last().len() == 0 {
            assert(path =~= start);
            assert(path =~= path.drop_last() + "/"@);
            meaning::law_beginnings_and_endings(path, "/"@, path.drop_last());
        } else {
            let c = parts.last()[parts.last().len() - 1];
            assert(path[path.len() - 1] == c);
            assert(parts[parts.len() - 1].contains(c));
            if text::ends_with(path, "/"@) {
                meaning::law_occurrence_by_characters(path, "/"@, path.len() - 1);
                assert(path.subrange(path.len() - 1, path.len() as int)[0] == path[path.len() - 1]);
            }
        }
    }
}

/// The time in the name of a log is the number behind its last dot, or the whole
/// path where it has none.
pub proof fn law_number_behind_the_last_dot(before: Seq<char>, after: Seq<char>)
    requires
        !after.contains('.'),
    ensures
        log_file::trailing_number(before + seq!['.'] + after) == text::signed_value(after),
        log_file::trailing_number(after) == text::signed_value(after),
{
    let one = seq![after];
    assert forall|i: int| 0 <= i < one.len() implies !(#[trigger] one[i]).contains('.') by {}
    laws::law_split_restores(one, '.');
    meaning::law_join_by_pieces(one, after, seq!['.']);
    let pieces = text::split(before, '.');
    laws::law_join_restores(before, '.');
    laws::law_pieces_without_separator(before, '.');
    text::lemma_split_not_empty(before, '.');
    let all = pieces.push(after);
    meaning::law_join_by_pieces(pieces, after, seq!['.']);
    assert forall|i: int| 0 <= i < all.len() implies !(#[trigger] all[i]).contains('.') by {
        if i < pieces.len() {
            assert(all[i] == pieces[i]);
        }
    }
    laws::law_split_restores(all, '.');
    assert(all.last() == after);
}

/// The lines of a text: each ends before a newline, and before a carriage return
/// in front of that; what stands behind the last newline is a line, as it is, if
/// it is anything.
pub proof fn law_lines_end_at_newlines(line: Seq<u8>, rest: Seq<u8>)
    requires
        !line.contains(0x0au8),
    ensures
        logs::lines_of(Seq::empty()) == Seq::<Seq<u8>>::empty(),
        line.len() > 0 ==> logs::lines_of(line) == seq![line],
        line.len() == 0 || line.last() != 0x0du8 ==> logs::lines_of(line + seq![0x0au8] + rest)
            == seq![line] + logs::lines_of(rest),
        logs::lines_of(line + seq![0x0du8, 0x0au8] + rest) == seq![line] + logs::lines_of(rest),
{
    lemma_line_length(line, Seq::empty());
    assert(line + Seq::<u8>::empty() =~= line);
    let tail = seq![0x0au8] + rest;
    let s = line + seq![0x0au8] + rest;
    lemma_line_length(line, tail);
    assert(line + tail =~= s);
    assert(s.take(line.len() as int) =~= line);
    assert(s.skip((line.len() + 1) as int) =~= rest);
    let long = line.push(0x0du8);
    assert forall|k: int| 0 <= k < long.len() implies long[k] != 0x0au8 by {
        if k < line.len() {
            assert(line.contains(line[k]));
        }
    }
    lemma_line_length(long, tail);
    let t = line + seq![0x0du8, 0x0au8] + rest;
    assert(long + tail =~= t);
    assert(t.take(long.len() as int) =~= long);
    assert(t.skip((long.len() + 1) as int) =~= rest);
    assert(long.drop_last() =~= line);
}

proof fn lemma_line_length(line: Seq<u8>, tail: Seq<u8>)
    requires
        !line.contains(0x0au8),
        tail.len() == 0 || tail[0] == 0x0au8,
    ensures
        logs::line_length(line + tail) == line.len(),
    decreases line.len(),
{
    let s = line + tail;
    if line.len() > 0 {
        assert(line.contains(line[0]));
        let rest = line.skip(1);
        assert forall|k: int| 0 <= k < rest.len() implies rest[k] != 0x0au8 by {
            assert(line.contains(line[k + 1]));
        }
        lemma_line_length(rest, tail);
        assert(s.skip(1) =~= rest + tail);
    } else {
        assert(s =~= tail);
    }
}

/// A line tells a time if it begins with a brace and is decoded to one that is
/// not from before 2001.
pub open spec fn tells<F: Fn(&[u8]) -> Option<Timestamp>>(
    decode: F,
    line: Seq<u8>,
    t: int,
) -> bool {
    &&& line.len() > 0 && line[0] == 0x7bu8
    &&& logs::decoded(decode, line) == Some(t)
    &&& t >= 978_307_200 * 1_000_000_000
}

/// The time in the contents is that of the first line that tells one.
pub proof fn law_first_line_that_tells_a_time<F: Fn(&[u8]) -> Option<Timestamp>>(
    decode: F,
    lines: Seq<Seq<u8>>,
    from: int,
)
    requires
        0 <= from <= lines.len(),
    ensures
        match logs::first_time(decode, lines, from) {
            Some(t) => exists|i: int|
                {
                    &&& from <= i < lines.len()
                    &&& #[trigger] tells(decode, lines[i], t)
                    &&& forall|j: int, u: int|
                        from <= j < i ==> !#[trigger] tells(decode, lines[j], u)
                },
            None => forall|j: int, u: int|
                from <= j < lines.len() ==> !#[trigger] tells(decode, lines[j], u),
        },
    decreases lines.len() - from,
{
    if from < lines.len() {
        law_first_line_that_tells_a_time(decode, lines, from + 1);
        match logs::line_time(decode, lines[from]) {
            Some(t) => {
                assert(tells(decode, lines[from], t));
            },
            None => {
                assert forall|u: int| !tells(decode, lines[from], u) by {}
            },
        }
    }
}

/// What a line is decoded to is what the decoder gives, which gives one thing
/// only.
pub proof fn law_decoder_decides<F: Fn(&[u8]) -> Option<Timestamp>>(
    decode: F,
    line: &[u8],
    r: Option<Timestamp>,
)
    requires
        logs::is_decoder(decode),
        call_ensures(decode, (line,), r),
    ensures
        logs::decoded(decode, line@) == (match r {
            Some(t) => Some(t@),
            None => None,
        }),
{
    assert(logs::may_decode(decode, line@, source::instant(r)));
}

/// The time of a log: that in its contents; else that in its name, if a timestamp
/// can hold it; else that of its modification.
pub open spec fn time_of<F: Fn(&[u8]) -> Option<Timestamp>>(
    decode: F,
    head: Seq<u8>,
    log: Log,
    modified: Option<int>,
) -> Option<int> {
    let inside = logs::first_time(decode, logs::lines_of(head), 0);
    if inside is Some {
        inside
    } else if log.timestamp is Some && -377_705_023_201 <= log.timestamp->0
        <= 253_402_207_200 {
        Some(log.timestamp->0 * 1_000_000_000)
    } else {
        modified
    }
}

/// The time lies between the bounds: not before 2001, strictly before the end,
/// where there is one, and strictly after the start, where there is one.
pub open spec fn lies_between(t: int, window: Window) -> bool {
    &&& t >= 978_307_200 * 1_000_000_000
    &&& window.0 is Some ==> t < window.0->0
    &&& window.1 is Some ==> window.1->0 < t
}

/// Under a time filter a log passes if and only if its time is known and lies
/// between all the bounds that are given.
pub proof fn law_both_bounds_hold_of_a_timely_log<F: Fn(&[u8]) -> Option<Timestamp>>(
    head: Seq<u8>,
    log: Log,
    modified: Option<int>,
    window: Window,
    decode: F,
)
    ensures
        logs::timely(head, log, modified, window, decode) <==> {
            &&& time_of(decode, head, log, modified) is Some
            &&& lies_between(time_of(decode, head, log, modified)->0, window)
        },
        logs::timely(head, log, modified, window, decode) <==> {
            &&& logs::timely(head, log, modified, (window.0, None), decode)
            &&& logs::timely(head, log, modified, (None, window.1), decode)
        },
{
}

/// A log that was opened under a time filter is handed on, with what was read of
/// it, if and only if its time lies between the bounds; without a filter every log
/// is, and nothing of it is read.
pub proof fn law_opened_logs_lie_between_the_bounds<F: Fn(&[u8]) -> Option<Timestamp>>(
    h: Seq<SourceCall>,
    p: int,
    log: Log,
    window: Window,
    decode: F,
    manner: Manner,
)
    ensures
        match logs::opened(h, p, log, window, decode, manner) {
            Some((Ok(passed), q)) => if window.0 is None && window.1 is None {
                &&& source::opening(h, p, log.path) matches Some(Ok(_))
                &&& passed == Some(None::<Seq<u8>>) && q == p + 1
            } else {
                &&& source::metadata_of(h, p, log.path) matches Some(Ok(facts))
                &&& source::opening(h, p + 1, log.path) matches Some(Ok(_))
                &&& logs::head_read(h, p + 2, facts.0, manner) matches Some((Ok(head), end))
                &&& q == end
                &&& {
                    let t = time_of(decode, head, log, facts.1);
                    if t is Some && lies_between(t->0, window) {
                        passed == Some(Some(head))
                    } else {
                        passed is None
                    }
                }
            },
            _ => true,
        },
{
    match logs::opened(h, p, log, window, decode, manner) {
        Some((Ok(passed), q)) => {
            if window.0 is Some || window.1 is Some {
                let facts = source::metadata_of(h, p, log.path)->0->Ok_0;
                let (read, _) = logs::head_read(h, p + 2, facts.0, manner)->0;
                let head = read->Ok_0;
                law_both_bounds_hold_of_a_timely_log(head, log, facts.1, window, decode);
            }
        },
        _ => {},
    }
}

/// Why a log cannot be opened: the error is that of the request that failed, with
/// the step where steps are named.
pub proof fn law_errors_of_opening<F: Fn(&[u8]) -> Option<Timestamp>>(
    h: Seq<SourceCall>,
    p: int,
    log: Log,
    window: Window,
    decode: F,
    manner: Manner,
)
    ensures
        match logs::opened(h, p, log, window, decode, manner) {
            Some((Err(e), q)) => {
                let filtered = window.0 is Some || window.1 is Some;
                let first = if filtered {
                    p + 1
                } else {
                    p
                };
                ||| {
                    &&& filtered && q == p + 1
                    &&& source::metadata_of(h, p, log.path) matches Some(Err(cause))
                    &&& e == (if manner is Named {
                        seq!["failed to read metadata for "@ + log.path] + cause
                    } else {
                        cause
                    })
                }
                ||| {
                    &&& filtered ==> source::metadata_of(h, p, log.path) is Some
                        && source::metadata_of(h, p, log.path)->0 is Ok
                    &&& q == first + 1
                    &&& source::opening(h, first, log.path) matches Some(Err(cause))
                    &&& e == (if manner is Named {
                        seq!["failed to open "@ + log.path] + cause
                    } else {
                        cause
                    })
                }
                ||| {
                    &&& filtered
                    &&& source::metadata_of(h, p, log.path) matches Some(Ok(facts))
                    &&& source::opening(h, p + 1, log.path) matches Some(Ok(_))
                    &&& logs::head_read(h, p + 2, facts.0, manner) matches Some((Err(cause), end))
                    &&& q == end
                    &&& e == seq!["failed to read file "@ + log.path] + cause
                }
            },
            _ => true,
        },
{
}

/// How much of a log is read to find its time: up to 64 KiB, or, where lengths are
/// relied on, exactly as much of that as the file is said to be long, and nothing
/// where its length is not known.
pub proof fn law_how_much_is_read_for_the_time(
    h: Seq<SourceCall>,
    p: int,
    len: Option<u64>,
)
    ensures
        logs::head_read(h, p, len, Manner::Named) == reader::filled(h, p, Seq::empty(), 65536),
        len is None ==> logs::head_read(h, p, len, Manner::Bare) == reader::filled_exactly(h, p, 0),
        len is Some && len->0 <= 65536 ==> logs::head_read(h, p, len, Manner::Bare)
            == reader::filled_exactly(h, p, len->0 as nat),
        len is Some && len->0 > 65536 ==> logs::head_read(h, p, len, Manner::Bare)
            == reader::filled_exactly(h, p, 65536),
{
}

/// A stored log lies between the bounds: its time, from the beginning that is read
/// of it, its name or its metadata, does.
pub open spec fn stored_between<F: Fn(&[u8]) -> Option<Timestamp>>(
    tree: Tree,
    log: Log,
    window: Window,
    decode: F,
    manner: Manner,
) -> bool {
    let file = tree(log.path);
    let head = stored::head_of(file, manner);
    &&& file.opened is Ok && file.facts is Ok && head is Ok
    &&& time_of(decode, head->Ok_0, log, file.facts->Ok_0.1) matches Some(t)
    &&& lies_between(t, window)
}

/// A run under a time filter that comes to its end has written exactly the logs
/// whose times lie between the bounds, in order; a listing, their paths.
pub proof fn law_run_writes_what_lies_between<F: Fn(&[u8]) -> Option<Timestamp>>(
    tree: Tree,
    all: Seq<Log>,
    window: Window,
    decode: F,
    manner: Manner,
    style: Style,
    h: Seq<SourceCall>,
    from: int,
    p: int,
    out: Seq<u8>,
)
    requires
        stored::keeps(h, from, tree),
        0 <= from <= p,
        reader::line_limit(style.line_ct) != Some(0nat),
        window.0 is Some || window.1 is Some,
    ensures
        match logs::ran(all, 0, window, decode, manner, style, false, h, p, out) {
            Some(((Halt::Finished(None), written), _)) => {
                let passed = all.filter(
                    |log: Log| stored_between(tree, log, window, decode, manner),
                );
                &&& written == out + stored::blocks(tree, passed, style)
                &&& style.list ==> written == out + passed.map_values(
                    |log: Log| vstd::utf8::encode_utf8(log.path + "\n"@),
                ).flatten()
            },
            _ => true,
        },
{
    let f = |log: Log| stored_between(tree, log, window, decode, manner);
    let g = |log: Log|
        stored::admitted(tree, log, window, decode, manner) == Ok::<bool, Chain>(true);
    assert forall|log: Log| #[trigger] f(log) == g(log) by {
        let file = tree(log.path);
        if file.opened is Ok && file.facts is Ok && stored::head_of(file, manner) is Ok {
            law_both_bounds_hold_of_a_timely_log(
                stored::head_of(file, manner)->Ok_0,
                log,
                file.facts->Ok_0.1,
                window,
                decode,
            );
        }
    }
    assert(f =~= g);
    stored::law_time_filter_leaves_out_blocks(
        tree,
        all,
        window,
        decode,
        manner,
        style,
        h,
        from,
        p,
        out,
        h,
        from,
        p,
        out,
    );
    let passed = all.filter(f);
    if style.list {
        lemma_listed_paths(tree, passed, style);
    }
}

proof fn lemma_listed_paths(tree: Tree, list: Seq<Log>, style: Style)
    requires
        style.list,
    ensures
        stored::blocks(tree, list, style) == list.map_values(
            |log: Log| vstd::utf8::encode_utf8(log.path + "\n"@),
        ).flatten(),
    decreases list.len(),
{
    let rows = list.map_values(|log: Log| vstd::utf8::encode_utf8(log.path + "\n"@));
    rows.lemma_flatten_and_flatten_alt_are_equivalent();
    if list.len() > 0 {
        lemma_listed_paths(tree, list.drop_last(), style);
        rows.drop_last().lemma_flatten_and_flatten_alt_are_equivalent();
        assert(rows.drop_last() =~= list.drop_last().map_values(
            |log: Log| vstd::utf8::encode_utf8(log.path + "\n"@),
        ));
    }
}

/// An ereport is kept if and only if it has no class, there are no patterns, or
/// some pattern of the list, at any position, matches its class.
pub open spec fn class_is_wanted(class: Option<Seq<char>>, patterns: Seq<Pattern>) -> bool {
    class is None || patterns.len() == 0 || some_matches(patterns, class->0)
}

/// The ereports whose class is wanted.
pub open spec fn wanted(patterns: Seq<Pattern>) -> spec_fn(Entry) -> bool {
    |e: Entry| class_is_wanted(e.class, patterns)
}

/// An ereport is passed over if and only if it has a class, and there are
/// patterns of which none, at whatever position, matches it.
pub proof fn law_any_class_pattern_keeps(class: Option<Seq<char>>, patterns: Seq<Pattern>)
    ensures
        ereport::passed_over(class, patterns) <==> class is Some && patterns.len() > 0
            && forall|i: int|
            0 <= i < patterns.len() ==> !pattern::glob_matches(#[trigger] patterns[i]@, class->0),
        ereport::passed_over(class, patterns) <==> !class_is_wanted(class, patterns),
{
    if class is Some {
        meaning::law_any_pattern_selects(patterns, class->0);
    }
}

/// What is known of an ereport whose file was read: where it lies, what its path
/// says, the class between the quotes behind the first `"class":"` in it, and
/// what it holds.
pub open spec fn read_entry(candidate: Candidate, contents: Seq<char>) -> Entry {
    Entry {
        path: candidate.path,
        metadata: candidate.metadata,
        class: text::between(contents, "\"class\":\""@, "\""@),
        contents,
    }
}

/// The ereports that were read from candidate number `i` on.
pub open spec fn read_entries(
    candidates: Seq<Candidate>,
    i: int,
    contents: Seq<Seq<char>>,
) -> Seq<Entry> {
    Seq::new(contents.len(), |k: int| read_entry(candidates[i + k], contents[k]))
}

/// The contents are what the source gave for the candidates from number `i` on,
/// one after the other, between requests `p` and `q`.
pub open spec fn were_read(
    candidates: Seq<Candidate>,
    i: int,
    access: Access,
    h: Seq<SourceCall>,
    p: int,
    contents: Seq<Seq<char>>,
    q: int,
) -> bool
    decreases contents.len(),
{
    if contents.len() == 0 {
        p == q
    } else {
        match ereport::report_loaded(h, p, candidates[i], access) {
            Some((Ok(text), next)) => text == contents[0] && were_read(
                candidates,
                i + 1,
                access,
                h,
                next,
                contents.skip(1),
                q,
            ),
            _ => false,
        }
    }
}

proof fn lemma_one_more_entry(
    candidates: Seq<Candidate>,
    i: int,
    contents: Seq<Seq<char>>,
    class: Seq<Pattern>,
)
    requires
        contents.len() > 0,
    ensures
        ({
            let first = read_entry(candidates[i], contents[0]);
            let rest = read_entries(candidates, i + 1, contents.skip(1)).filter(wanted(class));
            read_entries(candidates, i, contents).filter(wanted(class)) == (if class_is_wanted(first.class, class) {
                seq![first] + rest
            } else {
                rest
            })
        }),
{
    let first = seq![read_entry(candidates[i], contents[0])];
    let rest = read_entries(candidates, i + 1, contents.skip(1));
    assert(read_entries(candidates, i, contents) =~= first + rest);
    Seq::filter_distributes_over_add(first, rest, wanted(class));
    assert(first.drop_last() =~= Seq::empty());
    reveal_with_fuel(Seq::filter, 2);
    if class_is_wanted(first[0].class, class) {
        assert(first.filter(wanted(class)) =~= first);
    } else {
        assert(first.filter(wanted(class)) =~= Seq::empty());
        assert(Seq::<Entry>::empty() + rest.filter(wanted(class)) =~= rest.filter(wanted(class)));
    }
}

/// The entries are those whose class is wanted, in order, of the candidates from
/// number `i` on, each of which was read once, in order, between requests `p` and
/// `q`.
pub open spec fn are_the_wanted(
    entries: Seq<Entry>,
    candidates: Seq<Candidate>,
    i: int,
    class: Seq<Pattern>,
    access: Access,
    h: Seq<SourceCall>,
    p: int,
    q: int,
) -> bool {
    exists|contents: Seq<Seq<char>>|
        {
            &&& contents.len() == candidates.len() - i
            &&& #[trigger] were_read(candidates, i, access, h, p, contents, q)
            &&& entries == read_entries(candidates, i, contents).filter(wanted(class))
        }
}

proof fn lemma_none_wanted(
    candidates: Seq<Candidate>,
    class: Seq<Pattern>,
    access: Access,
    h: Seq<SourceCall>,
    p: int,
)
    ensures
        are_the_wanted(
            Seq::empty(),
            candidates,
            candidates.len() as int,
            class,
            access,
            h,
            p,
            p,
        ),
{
    let none = Seq::<Seq<char>>::empty();
    let n = candidates.len() as int;
    reveal(Seq::filter);
    assert(were_read(candidates, n, access, h, p, none, p));
    assert(read_entries(candidates, n, none).filter(wanted(class)) =~= Seq::empty());
}

proof fn lemma_one_more_wanted(
    rest: Seq<Entry>,
    candidates: Seq<Candidate>,
    i: int,
    class: Seq<Pattern>,
    access: Access,
    h: Seq<SourceCall>,
    p: int,
    text: Seq<char>,
    next: int,
    q: int,
)
    requires
        0 <= i < candidates.len(),
        ereport::report_loaded(h, p, candidates[i], access) == Some(
            (Ok::<Seq<char>, Chain>(text), next),
        ),
        are_the_wanted(rest, candidates, i + 1, class, access, h, next, q),
    ensures
        ({
            let first = read_entry(candidates[i], text);
            are_the_wanted(
                if class_is_wanted(first.class, class) {
                    seq![first] + rest
                } else {
                    rest
                },
                candidates,
                i,
                class,
                access,
                h,
                p,
                q,
            )
        }),
{
    let later = choose|contents: Seq<Seq<char>>|
        {
            &&& contents.len() == candidates.len() - (i + 1)
            &&& #[trigger] were_read(candidates, i + 1, access, h, next, contents, q)
            &&& rest == read_entries(candidates, i + 1, contents).filter(wanted(class))
        };
    let contents = seq![text] + later;
    assert(contents.skip(1) =~= later);
    lemma_one_more_entry(candidates, i, contents, class);
    assert(were_read(candidates, i, access, h, p, contents, q));
}

/// A walk over ereports that comes to its end has read every candidate once, in
/// order, and has kept exactly those whose class is wanted, in order, behind what
/// was kept before.
pub proof fn law_walk_keeps_exactly_the_wanted(
    candidates: Seq<Candidate>,
    i: int,
    class: Seq<Pattern>,
    access: Access,
    h: Seq<SourceCall>,
    p: int,
    before: Seq<Entry>,
)
    requires
        0 <= i <= candidates.len(),
    ensures
        match ereport::walked(candidates, i, class, access, h, p, before) {
            Some(((all, None), q)) => {
                &&& source::continues(before, all)
                &&& are_the_wanted(
                    all.skip(before.len() as int),
                    candidates,
                    i,
                    class,
                    access,
                    h,
                    p,
                    q,
                )
            },
            _ => true,
        },
    decreases candidates.len() - i,
{
    if i == candidates.len() {
        lemma_none_wanted(candidates, class, access, h, p);
        assert(before.skip(before.len() as int) =~= Seq::empty());
    } else {
        match ereport::report_loaded(h, p, candidates[i], access) {
            Some((Ok(text), next)) => {
                let entry = read_entry(candidates[i], text);
                law_any_class_pattern_keeps(entry.class, class);
                assert(entry == ereport::entry_of(candidates[i], text));
                let over = ereport::passed_over(entry.class, class);
                let then = if over {
                    before
                } else {
                    before.push(entry)
                };
                law_walk_keeps_exactly_the_wanted(candidates, i + 1, class, access, h, next, then);
                match ereport::walked(candidates, i + 1, class, access, h, next, then) {
                    Some(((all, None), q)) => {
                        let rest = all.skip(then.len() as int);
                        lemma_one_more_wanted(
                            rest,
                            candidates,
                            i,
                            class,
                            access,
                            h,
                            p,
                            text,
                            next,
                            q,
                        );
                        assert forall|k: int| 0 <= k < before.len() implies #[trigger] all[k]
                            == before[k] by {
                            assert(all[k] == then[k]);
                        }
                        if !over {
                            assert(all[before.len() as int] == then[before.len() as int]);
                            assert(all.skip(before.len() as int) =~= seq![entry] + rest);
                        }
                    },
                    _ => {},
                }
            },
            _ => {},
        }
    }
}

/// A walk that hands every ereport on, and comes to its end, has read every
/// candidate once, in order, and has handed on exactly those whose class is
/// wanted, in order.
pub proof fn law_walk_hands_on_exactly_the_wanted(
    candidates: Seq<Candidate>,
    i: int,
    class: Seq<Pattern>,
    access: Access,
    h: Seq<SourceCall>,
    p: int,
    handled: Seq<Handled>,
    k: int,
)
    requires
        0 <= i <= candidates.len(),
        0 <= k <= handled.len(),
    ensures
        match ereport::visited(candidates, i, class, access, h, p, handled, k) {
            Some((None, q, end)) => {
                &&& k <= end <= handled.len()
                &&& are_the_wanted(
                    Seq::new((end - k) as nat, |j: int| handled[k + j].0),
                    candidates,
                    i,
                    class,
                    access,
                    h,
                    p,
                    q,
                )
            },
            _ => true,
        },
    decreases candidates.len() - i,
{
    if i == candidates.len() {
        lemma_none_wanted(candidates, class, access, h, p);
        assert(Seq::new(0, |j: int| handled[k + j].0) =~= Seq::empty());
    } else {
        match ereport::report_loaded(h, p, candidates[i], access) {
            Some((Ok(text), next)) => {
                let entry = read_entry(candidates[i], text);
                law_any_class_pattern_keeps(entry.class, class);
                assert(entry == ereport::entry_of(candidates[i], text));
                let over = ereport::passed_over(entry.class, class);
                if over || (k < handled.len() && handled[k].0 == entry && handled[k].1 is Ok) {
                    let then = if over {
                        k
                    } else {
                        k + 1
                    };
                    law_walk_hands_on_exactly_the_wanted(
                        candidates,
                        i + 1,
                        class,
                        access,
                        h,
                        next,
                        handled,
                        then,
                    );
                    match ereport::visited(
                        candidates,
                        i + 1,
                        class,
                        access,
                        h,
                        next,
                        handled,
                        then,
                    ) {
                        Some((None, q, end)) => {
                            let rest = Seq::new((end - then) as nat, |j: int| handled[then + j].0);
                            lemma_one_more_wanted(
                                rest,
                                candidates,
                                i,
                                class,
                                access,
                                h,
                                p,
                                text,
                                next,
                                q,
                            );
                            let all = Seq::new((end - k) as nat, |j: int| handled[k + j].0);
                            if over {
                                assert(all =~= rest);
                            } else {
                                assert(all =~= seq![entry] + rest);
                            }
                        },
                        _ => {},
                    }
                }
            },
            _ => {},
        }
    }
}

} // verus!
