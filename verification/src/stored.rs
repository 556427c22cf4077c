//! Sources whose files stay as they are: what a bundle shows then depends on the
//! names and the files alone, not on how often, in which order or in which pieces
//! they were asked for.
use crate::ereport;
use crate::ereport::{Access, Candidate, Entry, Handled};
use crate::error;
use crate::inventory;
use crate::inventory::{Decoded, Layout, Warned};
use crate::laws;
use crate::log_file::Log;
use crate::logs;
use crate::logs::{Halt, Manner, Style, Window};
use crate::names;
use crate::pattern::Pattern;
use crate::reader;
use crate::sled;
use crate::sled::{Inventory, Sled};
use crate::source;
use crate::source::{Chain, Facts, SourceCall};
use crate::text;
use crate::time::Timestamp;
use vstd::prelude::*;

verus! {

/// A file that stays as it is: what comes of opening it and of asking for its
/// metadata, its bytes, and the error that comes behind them instead of the end.
pub struct Stored {
    pub opened: Result<(), Chain>,
    pub facts: Result<Facts, Chain>,
    pub contents: Seq<u8>,
    pub ending: Option<Chain>,
}

/// The files of a source by name.
pub type Tree = spec_fn(Seq<char>) -> Stored;

/// The file that is open after the first `n` requests, and how much of it was
/// read.
pub open spec fn cursor(h: Seq<SourceCall>, n: int) -> Option<(Seq<char>, int)>
    decreases n,
{
    if n <= 0 {
        None
    } else {
        match h[n - 1] {
            SourceCall::Open { path, opened } => if opened is Ok {
                Some((path, 0))
            } else {
                None
            },
            SourceCall::Metadata { .. } => None,
            SourceCall::Read { chunk, .. } => match (cursor(h, n - 1), chunk) {
                (Some((path, at)), Ok(b)) => Some((path, at + b.len())),
                (open, _) => open,
            },
        }
    }
}

/// The answer is that of the files, where `open` is the open file and how much of
/// it was read: a read may give fewer bytes than were asked for, but gives none
/// at the end only.
pub open spec fn answers(open: Option<(Seq<char>, int)>, call: SourceCall, tree: Tree) -> bool {
    match call {
        SourceCall::Open { path, opened } => opened == tree(path).opened,
        SourceCall::Metadata { path, facts } => facts == tree(path).facts,
        SourceCall::Read { max, chunk } => match open {
            None => true,
            Some((path, at)) => {
                let file = tree(path);
                match chunk {
                    Ok(b) => {
                        &&& b.len() <= max
                        &&& at + b.len() <= file.contents.len()
                        &&& b == file.contents.subrange(at, at + b.len())
                        &&& b.len() == 0 ==> at == file.contents.len() && file.ending is None
                    },
                    Err(e) => at == file.contents.len() && file.ending == Some(e),
                }
            },
        },
    }
}

/// The answer to request `n` is that of the files.
pub open spec fn answered(h: Seq<SourceCall>, n: int, tree: Tree) -> bool {
    answers(cursor(h, n), h[n], tree)
}

/// From request `from` on, the record gives the answers of the files.
pub open spec fn keeps(h: Seq<SourceCall>, from: int, tree: Tree) -> bool {
    forall|n: int| from <= n < h.len() ==> #[trigger] answered(h, n, tree)
}

proof fn lemma_drained(
    h: Seq<SourceCall>,
    from: int,
    tree: Tree,
    p: int,
    got: Seq<u8>,
    path: Seq<char>,
    at: int,
)
    requires
        keeps(h, from, tree),
        0 <= from <= p,
        cursor(h, p) == Some((path, at)),
        0 <= at <= tree(path).contents.len(),
    ensures
        match reader::drained(h, p, got) {
            Some(((b, failure), q)) => {
                &&& p < q
                &&& b == got + tree(path).contents.skip(at)
                &&& failure == tree(path).ending
            },
            None => true,
        },
    decreases h.len() - p,
{
    let all = tree(path).contents;
    match source::reading(h, p, reader::CHUNK as nat) {
        Some(Ok(b)) => {
            assert(answered(h, p, tree));
            if b.len() == 0 {
                assert(got + all.skip(at) =~= got);
            } else {
                assert(cursor(h, p + 1) == Some((path, at + b.len())));
                lemma_drained(h, from, tree, p + 1, got + b, path, at + b.len());
                assert((got + b) + all.skip(at + b.len()) =~= got + all.skip(at));
            }
        },
        Some(Err(e)) => {
            assert(answered(h, p, tree));
            assert(got + all.skip(at) =~= got);
        },
        None => {},
    }
}

/// The first `limit` bytes of a file behind the first `at`, or all where there
/// are fewer and the file can be read to its end.
pub open spec fn beginning(file: Stored, at: int, limit: nat) -> Result<Seq<u8>, Chain> {
    let rest = file.contents.skip(at);
    if rest.len() >= limit {
        Ok(rest.take(limit as int))
    } else {
        match file.ending {
            None => Ok(rest),
            Some(e) => Err(e),
        }
    }
}

proof fn lemma_filled(
    h: Seq<SourceCall>,
    from: int,
    tree: Tree,
    p: int,
    got: Seq<u8>,
    limit: nat,
    path: Seq<char>,
    at: int,
)
    requires
        keeps(h, from, tree),
        0 <= from <= p,
        cursor(h, p) == Some((path, at)),
        0 <= at <= tree(path).contents.len(),
        got.len() <= limit,
    ensures
        match reader::filled(h, p, got, limit) {
            Some((r, q)) => {
                let more = beginning(tree(path), at, (limit - got.len()) as nat);
                &&& p <= q
                &&& match more {
                    Ok(b) => r == Ok::<Seq<u8>, Chain>(got + b) && cursor(h, q) == Some(
                        (path, at + b.len()),
                    ),
                    Err(e) => r == Err::<Seq<u8>, Chain>(e),
                }
            },
            None => true,
        },
    decreases h.len() - p,
{
    let all = tree(path).contents;
    let want = (limit - got.len()) as nat;
    if got.len() >= limit {
        assert(got + all.skip(at).take(0) =~= got);
    } else {
        match source::reading(h, p, want) {
            Some(Ok(b)) => {
                assert(answered(h, p, tree));
                if b.len() == 0 {
                    assert(got + all.skip(at) =~= got);
                } else {
                    let next = at + b.len();
                    assert(cursor(h, p + 1) == Some((path, next)));
                    lemma_filled(h, from, tree, p + 1, got + b, limit, path, next);
                    let left = (limit - (got + b).len()) as nat;
                    if all.skip(at).len() >= want {
                        assert((got + b) + all.skip(next).take(left as int) =~= got + all.skip(
                            at,
                        ).take(want as int));
                    } else {
                        assert((got + b) + all.skip(next) =~= got + all.skip(at));
                    }
                }
            },
            Some(Err(e)) => {
                assert(answered(h, p, tree));
            },
            None => {},
        }
    }
}

/// What is shown of a file: its first lines, or all of it and the error behind
/// it.
pub open spec fn body(file: Stored, line_ct: Option<nat>) -> (Seq<u8>, Option<Chain>) {
    match line_ct {
        Some(n) if n <= reader::newlines(file.contents).len() => (
            reader::first_lines(file.contents, n),
            None,
        ),
        _ => (file.contents, file.ending),
    }
}

proof fn lemma_headed(
    h: Seq<SourceCall>,
    from: int,
    tree: Tree,
    p: int,
    n: nat,
    out: Seq<u8>,
    path: Seq<char>,
    at: int,
)
    requires
        keeps(h, from, tree),
        0 <= from <= p,
        cursor(h, p) == Some((path, at)),
        0 <= at <= tree(path).contents.len(),
        n > 0,
    ensures
        match reader::headed(h, p, n, out) {
            Some(((written, failure), q)) => {
                let rest = tree(path).contents.skip(at);
                &&& p < q
                &&& if n <= reader::newlines(rest).len() {
                    written == out + reader::first_lines(rest, n) && failure is None
                } else {
                    written == out + rest && failure == tree(path).ending
                }
            },
            None => true,
        },
    decreases h.len() - p,
{
    let all = tree(path).contents;
    let rest = all.skip(at);
    match source::reading(h, p, reader::CHUNK as nat) {
        Some(Ok(b)) => {
            assert(answered(h, p, tree));
            if b.len() == 0 {
                assert(rest =~= Seq::empty());
                assert(out + rest =~= out);
            } else {
                let next = at + b.len();
                let more = all.skip(next);
                assert(rest =~= b + more);
                laws::law_first_lines_of_pieces(b, more, n);
                laws::lemma_newlines_concat(b, more);
                if n > reader::newlines(b).len() {
                    let m = (n - reader::newlines(b).len()) as nat;
                    assert(cursor(h, p + 1) == Some((path, next)));
                    lemma_headed(h, from, tree, p + 1, m, out + b, path, next);
                    assert((out + b) + more =~= out + rest);
                    assert((out + b) + reader::first_lines(more, m) =~= out + (b
                        + reader::first_lines(more, m)));
                }
            }
        },
        Some(Err(e)) => {
            assert(answered(h, p, tree));
            assert(rest =~= Seq::empty());
            assert(out + rest =~= out);
        },
        None => {},
    }
}

/// A file was opened and `cached` holds what was read of it.
pub open spec fn begun(
    h: Seq<SourceCall>,
    p: int,
    tree: Tree,
    path: Seq<char>,
    cached: Option<Seq<u8>>,
) -> bool {
    match cached {
        None => cursor(h, p) == Some((path, 0int)),
        Some(b) => {
            &&& cursor(h, p) == Some((path, b.len() as int))
            &&& b.len() <= tree(path).contents.len()
            &&& b == tree(path).contents.take(b.len() as int)
        },
    }
}

/// What is shown of a file depends on the file alone.
pub proof fn lemma_shown(
    h: Seq<SourceCall>,
    from: int,
    tree: Tree,
    p: int,
    path: Seq<char>,
    cached: Option<Seq<u8>>,
    line_ct: Option<nat>,
    out: Seq<u8>,
)
    requires
        keeps(h, from, tree),
        0 <= from <= p,
        begun(h, p, tree, path, cached),
        line_ct != Some(0nat),
    ensures
        match reader::shown(h, p, cached, line_ct, out) {
            Some((shown, q)) => {
                &&& p <= q
                &&& shown == (out + body(tree(path), line_ct).0, body(tree(path), line_ct).1)
            },
            None => true,
        },
{
    let all = tree(path).contents;
    let held = match cached {
        Some(b) => b,
        None => Seq::empty(),
    };
    let at = held.len() as int;
    let rest = all.skip(at);
    assert(all =~= held + rest);
    match line_ct {
        Some(n) => {
            laws::law_first_lines_of_pieces(held, rest, n);
            laws::lemma_newlines_concat(held, rest);
            let count = reader::newlines(held).len();
            if n > count {
                let m = (n - count) as nat;
                lemma_headed(h, from, tree, p, m, out + held, path, at);
                assert((out + held) + rest =~= out + all);
                assert((out + held) + reader::first_lines(rest, m) =~= out + (held
                    + reader::first_lines(rest, m)));
                assert(out + Seq::<u8>::empty() =~= out);
            } else {
                assert(cached is Some);
            }
        },
        None => {
            lemma_drained(h, from, tree, p, out + held, path, at);
            assert((out + held) + rest =~= out + all);
            assert(out + Seq::<u8>::empty() =~= out);
        },
    }
}

/// How much of a log is read to find out from what time it is.
pub open spec fn head_of(file: Stored, manner: Manner) -> Result<Seq<u8>, Chain> {
    match manner {
        Manner::Named => beginning(file, 0, logs::TIME_CHECK_MAX as nat),
        Manner::Bare => {
            let size: nat = match file.facts {
                Ok((Some(n), _)) => if n < logs::TIME_CHECK_MAX {
                    n as nat
                } else {
                    logs::TIME_CHECK_MAX as nat
                },
                _ => 0,
            };
            match beginning(file, 0, size) {
                Ok(b) if b.len() < size => Err(error::single("failed to fill whole buffer"@)),
                r => r,
            }
        },
    }
}

/// Whether a log is shown, or the error that keeps it from being shown.
pub open spec fn admitted<F: Fn(&[u8]) -> Option<Timestamp>>(
    tree: Tree,
    log: Log,
    window: Window,
    decode: F,
    manner: Manner,
) -> Result<bool, Chain> {
    let file = tree(log.path);
    if window.0 is None && window.1 is None {
        match file.opened {
            Err(e) => Err(logs::reported(manner, "failed to open "@ + log.path, e)),
            Ok(_) => Ok(true),
        }
    } else {
        match (file.facts, file.opened, head_of(file, manner)) {
            (Err(e), _, _) => Err(
                logs::reported(manner, "failed to read metadata for "@ + log.path, e),
            ),
            (Ok(_), Err(e), _) => Err(logs::reported(manner, "failed to open "@ + log.path, e)),
            (Ok(_), Ok(_), Err(e)) => Err(
                error::wrapped("failed to read file "@ + log.path, e),
            ),
            (Ok(facts), Ok(_), Ok(head)) => Ok(logs::timely(head, log, facts.1, window, decode)),
        }
    }
}

/// Whether a log is handed on depends on the files alone, and so does what had
/// been read of it.
pub proof fn lemma_opened<F: Fn(&[u8]) -> Option<Timestamp>>(
    h: Seq<SourceCall>,
    from: int,
    tree: Tree,
    p: int,
    log: Log,
    window: Window,
    decode: F,
    manner: Manner,
)
    requires
        keeps(h, from, tree),
        0 <= from <= p,
    ensures
        match logs::opened(h, p, log, window, decode, manner) {
            Some((r, q)) => {
                &&& p <= q
                &&& match r {
                    Err(e) => admitted(tree, log, window, decode, manner) == Err::<bool, Chain>(e),
                    Ok(None) => admitted(tree, log, window, decode, manner) == Ok::<bool, Chain>(
                        false,
                    ),
                    Ok(Some(cached)) => {
                        &&& admitted(tree, log, window, decode, manner) == Ok::<bool, Chain>(true)
                        &&& begun(h, q, tree, log.path, cached)
                    },
                }
            },
            None => true,
        },
{
    let file = tree(log.path);
    let filtered = !(window.0 is None && window.1 is None);
    if logs::opened(h, p, log, window, decode, manner) is Some {
        assert(answered(h, p, tree));
        if filtered && source::metadata_of(h, p, log.path)->0 is Ok {
            assert(answered(h, p + 1, tree));
            if source::opening(h, p + 1, log.path)->0 is Ok {
                let limit: nat = match manner {
                    Manner::Named => logs::TIME_CHECK_MAX as nat,
                    Manner::Bare => match file.facts {
                        Ok((Some(n), _)) => if n < logs::TIME_CHECK_MAX {
                            n as nat
                        } else {
                            logs::TIME_CHECK_MAX as nat
                        },
                        _ => 0,
                    },
                };
                let empty = Seq::<u8>::empty();
                assert(cursor(h, p + 2) == Some((log.path, 0int)));
                lemma_filled(h, from, tree, p + 2, empty, limit, log.path, 0);
                assert(file.contents.skip(0) =~= file.contents);
                match beginning(file, 0, limit) {
                    Ok(b) => {
                        assert(empty + b =~= b);
                        assert(b =~= file.contents.take(b.len() as int));
                    },
                    Err(_) => {},
                }
            }
        }
    }
}

/// What is shown of one log: its path, or its body with the header above it and
/// the empty line below.
pub open spec fn block(file: Stored, path: Seq<char>, style: Style) -> (Seq<u8>, Option<Chain>) {
    if style.list {
        (vstd::utf8::encode_utf8(path + "\n"@), None)
    } else {
        let (shown, failure) = body(file, reader::line_limit(style.line_ct));
        let top = logs::headed(Seq::empty(), path, style.no_header) + shown;
        match failure {
            Some(e) => (top, Some(e)),
            None => (logs::footed(top, style.no_header), None),
        }
    }
}

proof fn lemma_log_written(
    h: Seq<SourceCall>,
    from: int,
    tree: Tree,
    p: int,
    path: Seq<char>,
    cached: Option<Seq<u8>>,
    style: Style,
    out: Seq<u8>,
)
    requires
        keeps(h, from, tree),
        0 <= from <= p,
        begun(h, p, tree, path, cached),
        reader::line_limit(style.line_ct) != Some(0nat),
    ensures
        match logs::log_written(h, p, path, cached, style, out) {
            Some((shown, q)) => {
                &&& p <= q
                &&& shown == (
                    out + block(tree(path), path, style).0,
                    block(tree(path), path, style).1,
                )
            },
            None => true,
        },
{
    if !style.list {
        let limit = reader::line_limit(style.line_ct);
        let empty = Seq::<u8>::empty();
        let top = logs::headed(out, path, style.no_header);
        let bare = logs::headed(empty, path, style.no_header);
        lemma_shown(h, from, tree, p, path, cached, limit, top);
        let shown = body(tree(path), limit).0;
        assert(top =~= out + bare);
        assert(top + shown =~= out + (bare + shown));
        assert(logs::footed(out + (bare + shown), style.no_header) =~= out + logs::footed(
            bare + shown,
            style.no_header,
        ));
    }
}

/// What a run over the logs from number `i` on writes, and the error that ends
/// it.
pub open spec fn output<F: Fn(&[u8]) -> Option<Timestamp>>(
    tree: Tree,
    all: Seq<Log>,
    i: int,
    window: Window,
    decode: F,
    manner: Manner,
    style: Style,
) -> (Seq<u8>, Option<Chain>)
    decreases all.len() - i,
{
    if i < 0 || i >= all.len() {
        (Seq::empty(), None)
    } else {
        match admitted(tree, all[i], window, decode, manner) {
            Err(e) => (Seq::empty(), Some(e)),
            Ok(false) => output(tree, all, i + 1, window, decode, manner, style),
            Ok(true) => {
                let (here, failure) = block(tree(all[i].path), all[i].path, style);
                match failure {
                    Some(e) => (here, Some(e)),
                    None => {
                        let (rest, later) = output(
                            tree,
                            all,
                            i + 1,
                            window,
                            decode,
                            manner,
                            style,
                        );
                        (here + rest, later)
                    },
                }
            },
        }
    }
}

/// While the files stay as they are, what a run over logs writes depends on the
/// files alone.
pub proof fn law_logs_depend_on_files<F: Fn(&[u8]) -> Option<Timestamp>>(
    h: Seq<SourceCall>,
    from: int,
    tree: Tree,
    p: int,
    all: Seq<Log>,
    i: int,
    window: Window,
    decode: F,
    manner: Manner,
    style: Style,
    out: Seq<u8>,
)
    requires
        keeps(h, from, tree),
        0 <= from <= p,
        0 <= i,
        reader::line_limit(style.line_ct) != Some(0nat),
    ensures
        match logs::ran(all, i, window, decode, manner, style, false, h, p, out) {
            Some(((halt, written), _)) => {
                let (shown, failure) = output(tree, all, i, window, decode, manner, style);
                &&& halt == Halt::Finished(failure)
                &&& written == out + shown
            },
            None => true,
        },
    decreases all.len() - i,
{
    assert(out + Seq::<u8>::empty() =~= out);
    if i < all.len() {
        lemma_opened(h, from, tree, p, all[i], window, decode, manner);
        match logs::opened(h, p, all[i], window, decode, manner) {
            Some((Ok(None), q)) => {
                law_logs_depend_on_files(
                    h,
                    from,
                    tree,
                    q,
                    all,
                    i + 1,
                    window,
                    decode,
                    manner,
                    style,
                    out,
                );
            },
            Some((Ok(Some(cached)), q)) => {
                let path = all[i].path;
                lemma_log_written(h, from, tree, q, path, cached, style, out);
                let (here, failure) = block(tree(path), path, style);
                match logs::log_written(h, q, path, cached, style, out) {
                    Some(((o, None), next)) => {
                        law_logs_depend_on_files(
                            h,
                            from,
                            tree,
                            next,
                            all,
                            i + 1,
                            window,
                            decode,
                            manner,
                            style,
                            o,
                        );
                        let (rest, _) = output(tree, all, i + 1, window, decode, manner, style);
                        assert((out + here) + rest =~= out + (here + rest));
                    },
                    _ => {},
                }
            },
            _ => {},
        }
    }
}

/// The logs that a time filter lets through.
pub open spec fn passing<F: Fn(&[u8]) -> Option<Timestamp>>(
    tree: Tree,
    all: Seq<Log>,
    window: Window,
    decode: F,
    manner: Manner,
) -> Seq<Log> {
    all.filter(|log: Log| admitted(tree, log, window, decode, manner) == Ok::<bool, Chain>(true))
}

/// The blocks of a list of logs, one behind the other.
pub open spec fn blocks(tree: Tree, list: Seq<Log>, style: Style) -> Seq<u8>
    decreases list.len(),
{
    if list.len() == 0 {
        Seq::empty()
    } else {
        blocks(tree, list.drop_last(), style) + block(
            tree(list.last().path),
            list.last().path,
            style,
        ).0
    }
}

proof fn lemma_blocks_front(tree: Tree, log: Log, list: Seq<Log>, style: Style)
    ensures
        blocks(tree, seq![log] + list, style) == block(tree(log.path), log.path, style).0 + blocks(
            tree,
            list,
            style,
        ),
    decreases list.len(),
{
    let whole = seq![log] + list;
    let here = block(tree(log.path), log.path, style).0;
    if list.len() == 0 {
        assert(whole.drop_last() =~= Seq::empty());
        assert(blocks(tree, whole.drop_last(), style) =~= Seq::empty());
        assert(whole.last() == log);
        assert(blocks(tree, whole, style) =~= here + blocks(tree, list, style));
    } else {
        lemma_blocks_front(tree, log, list.drop_last(), style);
        assert(whole.drop_last() =~= seq![log] + list.drop_last());
        assert(whole.last() == list.last());
        assert(blocks(tree, whole, style) =~= here + blocks(tree, list, style));
    }
}

proof fn lemma_filter_one(log: Log, pred: spec_fn(Log) -> bool)
    ensures
        seq![log].filter(pred) == (if pred(log) {
            seq![log]
        } else {
            Seq::empty()
        }),
{
    reveal(Seq::filter);
    let one = seq![log];
    let none = one.drop_last();
    assert(none =~= Seq::empty());
    assert(none.filter(pred) =~= Seq::empty());
    assert(one.last() == log);
    if pred(log) {
        assert(one.filter(pred) =~= one);
    }
}

/// A run without an error writes the blocks of the logs that pass the filter.
proof fn lemma_output_is_blocks<F: Fn(&[u8]) -> Option<Timestamp>>(
    tree: Tree,
    all: Seq<Log>,
    i: int,
    window: Window,
    decode: F,
    manner: Manner,
    style: Style,
)
    requires
        0 <= i <= all.len(),
        output(tree, all, i, window, decode, manner, style).1 is None,
    ensures
        output(tree, all, i, window, decode, manner, style).0 == blocks(
            tree,
            passing(tree, all.skip(i), window, decode, manner),
            style,
        ),
        window.0 is None && window.1 is None ==> passing(
            tree,
            all.skip(i),
            window,
            decode,
            manner,
        ) == all.skip(i),
    decreases all.len() - i,
{
    let pred = |log: Log|
        admitted(tree, log, window, decode, manner) == Ok::<bool, Chain>(true);
    reveal(Seq::filter);
    if i < all.len() {
        lemma_output_is_blocks(tree, all, i + 1, window, decode, manner, style);
        let rest = all.skip(i + 1);
        let one = seq![all[i]];
        assert(all.skip(i) =~= one + rest);
        Seq::filter_distributes_over_add(one, rest, pred);
        lemma_filter_one(all[i], pred);
        if pred(all[i]) {
            lemma_blocks_front(tree, all[i], rest.filter(pred), style);
        } else {
            assert(Seq::<Log>::empty() + rest.filter(pred) =~= rest.filter(pred));
        }
    } else {
        assert(all.skip(i) =~= Seq::empty());
        assert(passing(tree, all.skip(i), window, decode, manner) =~= Seq::empty());
    }
}

/// The lines of a listing: the paths, each on a line of its own.
pub open spec fn paths(list: Seq<Log>) -> Seq<u8>
    decreases list.len(),
{
    if list.len() == 0 {
        Seq::empty()
    } else {
        paths(list.drop_last()) + vstd::utf8::encode_utf8(list.last().path + "\n"@)
    }
}

/// The bodies of a list of logs, one behind the other.
pub open spec fn bodies(tree: Tree, list: Seq<Log>, line_ct: Option<nat>) -> Seq<u8>
    decreases list.len(),
{
    if list.len() == 0 {
        Seq::empty()
    } else {
        bodies(tree, list.drop_last(), line_ct) + body(tree(list.last().path), line_ct).0
    }
}

/// The bodies of a list of logs, each with its header above it and an empty line
/// below.
pub open spec fn headed_bodies(tree: Tree, list: Seq<Log>, line_ct: Option<nat>) -> Seq<u8>
    decreases list.len(),
{
    if list.len() == 0 {
        Seq::empty()
    } else {
        headed_bodies(tree, list.drop_last(), line_ct) + (vstd::utf8::encode_utf8(
            ereport::header(list.last().path),
        ) + body(tree(list.last().path), line_ct).0 + vstd::utf8::encode_utf8("\n"@))
    }
}

/// Every log of the list can be shown without an error.
spec fn all_shown(tree: Tree, list: Seq<Log>, line_ct: Option<nat>) -> bool {
    forall|k: int| 0 <= k < list.len() ==> body(tree((#[trigger] list[k]).path), line_ct).1 is None
}

proof fn lemma_blocks_by_style(tree: Tree, list: Seq<Log>, style: Style)
    requires
        style.list || all_shown(tree, list, reader::line_limit(style.line_ct)),
    ensures
        style.list ==> blocks(tree, list, style) == paths(list),
        !style.list && style.no_header ==> blocks(tree, list, style) == bodies(
            tree,
            list,
            reader::line_limit(style.line_ct),
        ),
        !style.list && !style.no_header ==> blocks(tree, list, style) == headed_bodies(
            tree,
            list,
            reader::line_limit(style.line_ct),
        ),
    decreases list.len(),
{
    if list.len() > 0 {
        let front = list.drop_last();
        let limit = reader::line_limit(style.line_ct);
        if !style.list {
            assert forall|k: int| 0 <= k < front.len() implies body(
                tree((#[trigger] front[k]).path),
                limit,
            ).1 is None by {
                assert(list[k] == front[k]);
            }
            assert(list[list.len() - 1] == list.last());
        }
        lemma_blocks_by_style(tree, front, style);
        let path = list.last().path;
        let shown = body(tree(path), limit).0;
        assert(Seq::<u8>::empty() + shown =~= shown);
        assert(Seq::<u8>::empty() + vstd::utf8::encode_utf8(ereport::header(path))
            =~= vstd::utf8::encode_utf8(ereport::header(path)));
    }
}

proof fn lemma_output_shows<F: Fn(&[u8]) -> Option<Timestamp>>(
    tree: Tree,
    all: Seq<Log>,
    i: int,
    window: Window,
    decode: F,
    manner: Manner,
    style: Style,
)
    requires
        0 <= i <= all.len(),
        !style.list,
        output(tree, all, i, window, decode, manner, style).1 is None,
    ensures
        all_shown(
            tree,
            passing(tree, all.skip(i), window, decode, manner),
            reader::line_limit(style.line_ct),
        ),
    decreases all.len() - i,
{
    let pred = |log: Log|
        admitted(tree, log, window, decode, manner) == Ok::<bool, Chain>(true);
    let limit = reader::line_limit(style.line_ct);
    reveal(Seq::filter);
    if i < all.len() {
        lemma_output_shows(tree, all, i + 1, window, decode, manner, style);
        let rest = all.skip(i + 1);
        let one = seq![all[i]];
        assert(all.skip(i) =~= one + rest);
        Seq::filter_distributes_over_add(one, rest, pred);
        lemma_filter_one(all[i], pred);
        let tail = rest.filter(pred);
        assert(tail == passing(tree, rest, window, decode, manner));
        if pred(all[i]) {
            let list = one + tail;
            assert forall|k: int| 0 <= k < list.len() implies body(
                tree((#[trigger] list[k]).path),
                limit,
            ).1 is None by {
                if k > 0 {
                    assert(list[k] == tail[k - 1]);
                }
            }
        } else {
            assert(Seq::<Log>::empty() + tail =~= tail);
        }
    } else {
        assert(all.skip(i) =~= Seq::empty());
        assert(passing(tree, all.skip(i), window, decode, manner) =~= Seq::empty());
    }
}

/// What a run without an error writes, while the files stay as they are: a
/// listing gives the paths of the logs that pass, plain output their bodies, and
/// headed output the bodies, each with its header above it and an empty line
/// below.
pub proof fn law_output_by_style<F: Fn(&[u8]) -> Option<Timestamp>>(
    tree: Tree,
    all: Seq<Log>,
    window: Window,
    decode: F,
    manner: Manner,
    style: Style,
    h: Seq<SourceCall>,
    from: int,
    p: int,
    out: Seq<u8>,
)
    requires
        keeps(h, from, tree),
        0 <= from <= p,
        reader::line_limit(style.line_ct) != Some(0nat),
    ensures
        ({
            let list = passing(tree, all, window, decode, manner);
            let limit = reader::line_limit(style.line_ct);
            match logs::ran(all, 0, window, decode, manner, style, false, h, p, out) {
                Some(((Halt::Finished(None), written), _)) => written == out + (if style.list {
                    paths(list)
                } else if style.no_header {
                    bodies(tree, list, limit)
                } else {
                    headed_bodies(tree, list, limit)
                }),
                _ => true,
            }
        }),
{
    law_logs_depend_on_files(h, from, tree, p, all, 0, window, decode, manner, style, out);
    assert(all.skip(0) =~= all);
    if output(tree, all, 0, window, decode, manner, style).1 is None {
        lemma_output_is_blocks(tree, all, 0, window, decode, manner, style);
        if !style.list {
            lemma_output_shows(tree, all, 0, window, decode, manner, style);
        }
        lemma_blocks_by_style(tree, passing(tree, all, window, decode, manner), style);
    }
}

/// A listing, plain output and headed output by one filter, while the files stay
/// as they are, are about the same logs: the listing gives their paths and
/// nothing else, plain output their bodies, and headed output the same bodies,
/// each with its header above it and an empty line below, and nothing else.
pub proof fn law_listing_plain_and_headed_agree<F: Fn(&[u8]) -> Option<Timestamp>>(
    tree: Tree,
    all: Seq<Log>,
    window: Window,
    decode: F,
    manner: Manner,
    style: Style,
    listing_h: Seq<SourceCall>,
    listing_from: int,
    listing_p: int,
    plain_h: Seq<SourceCall>,
    plain_from: int,
    plain_p: int,
    headed_h: Seq<SourceCall>,
    headed_from: int,
    headed_p: int,
)
    requires
        keeps(listing_h, listing_from, tree),
        0 <= listing_from <= listing_p,
        keeps(plain_h, plain_from, tree),
        0 <= plain_from <= plain_p,
        keeps(headed_h, headed_from, tree),
        0 <= headed_from <= headed_p,
        reader::line_limit(style.line_ct) != Some(0nat),
    ensures
        ({
            let list = passing(tree, all, window, decode, manner);
            let limit = reader::line_limit(style.line_ct);
            let listing = Style { list: true, ..style };
            let plain = Style { list: false, no_header: true, ..style };
            let headed = Style { list: false, no_header: false, ..style };
            let empty = Seq::<u8>::empty();
            match (
                logs::ran(
                    all,
                    0,
                    window,
                    decode,
                    manner,
                    listing,
                    false,
                    listing_h,
                    listing_p,
                    empty,
                ),
                logs::ran(all, 0, window, decode, manner, plain, false, plain_h, plain_p, empty),
                logs::ran(
                    all,
                    0,
                    window,
                    decode,
                    manner,
                    headed,
                    false,
                    headed_h,
                    headed_p,
                    empty,
                ),
            ) {
                (
                    Some(((Halt::Finished(None), first), _)),
                    Some(((Halt::Finished(None), second), _)),
                    Some(((Halt::Finished(None), third), _)),
                ) => {
                    &&& first == paths(list)
                    &&& second == bodies(tree, list, limit)
                    &&& third == headed_bodies(tree, list, limit)
                },
                _ => true,
            }
        }),
{
    let listing = Style { list: true, ..style };
    let plain = Style { list: false, no_header: true, ..style };
    let headed = Style { list: false, no_header: false, ..style };
    let empty = Seq::<u8>::empty();
    law_output_by_style(
        tree,
        all,
        window,
        decode,
        manner,
        listing,
        listing_h,
        listing_from,
        listing_p,
        empty,
    );
    law_output_by_style(
        tree,
        all,
        window,
        decode,
        manner,
        plain,
        plain_h,
        plain_from,
        plain_p,
        empty,
    );
    law_output_by_style(
        tree,
        all,
        window,
        decode,
        manner,
        headed,
        headed_h,
        headed_from,
        headed_p,
        empty,
    );
    let list = passing(tree, all, window, decode, manner);
    let limit = reader::line_limit(style.line_ct);
    assert(empty + paths(list) =~= paths(list));
    assert(empty + bodies(tree, list, limit) =~= bodies(tree, list, limit));
    assert(empty + headed_bodies(tree, list, limit) =~= headed_bodies(tree, list, limit));
}

/// A time filter leaves out whole blocks and changes nothing else, while the
/// files stay as they are: without one the blocks of all selected logs are
/// written, with one the same blocks of those that pass, in the same order.
pub proof fn law_time_filter_leaves_out_blocks<F: Fn(&[u8]) -> Option<Timestamp>>(
    tree: Tree,
    all: Seq<Log>,
    window: Window,
    decode: F,
    manner: Manner,
    style: Style,
    h: Seq<SourceCall>,
    from: int,
    p: int,
    out: Seq<u8>,
    filtered_h: Seq<SourceCall>,
    filtered_from: int,
    filtered_p: int,
    filtered_out: Seq<u8>,
)
    requires
        keeps(h, from, tree),
        0 <= from <= p,
        keeps(filtered_h, filtered_from, tree),
        0 <= filtered_from <= filtered_p,
        reader::line_limit(style.line_ct) != Some(0nat),
    ensures
        match logs::ran(all, 0, (None, None), decode, manner, style, false, h, p, out) {
            Some(((Halt::Finished(None), written), _)) => written == out + blocks(tree, all, style),
            _ => true,
        },
        match logs::ran(
            all,
            0,
            window,
            decode,
            manner,
            style,
            false,
            filtered_h,
            filtered_p,
            filtered_out,
        ) {
            Some(((Halt::Finished(None), written), _)) => written == filtered_out + blocks(
                tree,
                passing(tree, all, window, decode, manner),
                style,
            ),
            _ => true,
        },
{
    let none: Window = (None, None);
    law_logs_depend_on_files(h, from, tree, p, all, 0, none, decode, manner, style, out);
    law_logs_depend_on_files(
        filtered_h,
        filtered_from,
        tree,
        filtered_p,
        all,
        0,
        window,
        decode,
        manner,
        style,
        filtered_out,
    );
    assert(all.skip(0) =~= all);
    if output(tree, all, 0, none, decode, manner, style).1 is None {
        lemma_output_is_blocks(tree, all, 0, none, decode, manner, style);
    }
    if output(tree, all, 0, window, decode, manner, style).1 is None {
        lemma_output_is_blocks(tree, all, 0, window, decode, manner, style);
    }
}

/// The text of a file, once it is open.
pub open spec fn text_in(file: Stored, path: Seq<char>) -> Result<Seq<char>, Chain> {
    match file.ending {
        Some(e) => Err(error::wrapped("failed to read contents of "@ + path, e)),
        None => reader::named_text(path, reader::decoded(file.contents)),
    }
}

/// The text of a file that is to be opened first; an error at that is told as
/// from the step `step`.
pub open spec fn text_of(file: Stored, path: Seq<char>, step: Seq<char>) -> Result<
    Seq<char>,
    Chain,
> {
    match file.opened {
        Err(e) => Err(error::wrapped(step, e)),
        Ok(_) => text_in(file, path),
    }
}

proof fn lemma_text_read(
    h: Seq<SourceCall>,
    from: int,
    tree: Tree,
    p: int,
    path: Seq<char>,
)
    requires
        keeps(h, from, tree),
        0 <= from <= p,
        cursor(h, p) == Some((path, 0int)),
    ensures
        match reader::text_read(h, p, path) {
            Some((r, q)) => p <= q && r == text_in(tree(path), path),
            None => true,
        },
{
    let empty = Seq::<u8>::empty();
    let all = tree(path).contents;
    lemma_drained(h, from, tree, p, empty, path, 0);
    assert(empty + all.skip(0) =~= all);
}

proof fn lemma_text_loaded(
    h: Seq<SourceCall>,
    from: int,
    tree: Tree,
    p: int,
    path: Seq<char>,
)
    requires
        keeps(h, from, tree),
        0 <= from <= p,
    ensures
        match reader::text_loaded(h, p, path) {
            Some((r, q)) => p <= q && r == text_of(tree(path), path, "failed to open "@ + path),
            None => true,
        },
{
    if source::opening(h, p, path) is Some {
        assert(answered(h, p, tree));
        if source::opening(h, p, path)->0 is Ok {
            assert(cursor(h, p + 1) == Some((path, 0int)));
            lemma_text_read(h, from, tree, p + 1, path);
        }
    }
}

/// The contents of an ereport.
pub open spec fn report_text(tree: Tree, candidate: Candidate, access: Access) -> Result<
    Seq<char>,
    Chain,
> {
    text_of(
        tree(candidate.path),
        candidate.path,
        match access {
            Access::Positional => "failed to access file index "@ + text::decimal(
                candidate.index as nat,
            ),
            _ => "failed to open "@ + candidate.path,
        },
    )
}

/// The ereports that a walk from candidate `i` on keeps, and the error that ends
/// it.
pub open spec fn kept(
    tree: Tree,
    candidates: Seq<Candidate>,
    i: int,
    class: Seq<Pattern>,
    access: Access,
) -> (Seq<Entry>, Option<Chain>)
    decreases candidates.len() - i,
{
    if i < 0 || i >= candidates.len() {
        (Seq::empty(), None)
    } else {
        match report_text(tree, candidates[i], access) {
            Err(e) => (Seq::empty(), Some(e)),
            Ok(contents) => {
                let entry = ereport::entry_of(candidates[i], contents);
                let (rest, failure) = kept(tree, candidates, i + 1, class, access);
                if ereport::passed_over(entry.class, class) {
                    (rest, failure)
                } else {
                    (seq![entry] + rest, failure)
                }
            },
        }
    }
}

/// While the files stay as they are, what a walk over ereports keeps depends on
/// the files alone.
pub proof fn law_ereports_depend_on_files(
    h: Seq<SourceCall>,
    from: int,
    tree: Tree,
    p: int,
    candidates: Seq<Candidate>,
    i: int,
    class: Seq<Pattern>,
    access: Access,
    before: Seq<Entry>,
)
    requires
        keeps(h, from, tree),
        0 <= from <= p,
        0 <= i,
    ensures
        match ereport::walked(candidates, i, class, access, h, p, before) {
            Some(((entries, failure), _)) => {
                &&& entries == before + kept(tree, candidates, i, class, access).0
                &&& failure == kept(tree, candidates, i, class, access).1
            },
            None => true,
        },
    decreases candidates.len() - i,
{
    assert(before + Seq::<Entry>::empty() =~= before);
    if i < candidates.len() {
        let candidate = candidates[i];
        if access == Access::Positional {
            if source::opening(h, p, candidate.path) is Some {
                assert(answered(h, p, tree));
                if source::opening(h, p, candidate.path)->0 is Ok {
                    assert(cursor(h, p + 1) == Some((candidate.path, 0int)));
                    lemma_text_read(h, from, tree, p + 1, candidate.path);
                }
            }
        } else {
            lemma_text_loaded(h, from, tree, p, candidate.path);
        }
        match ereport::report_loaded(h, p, candidate, access) {
            Some((Ok(contents), q)) => {
                let entry = ereport::entry_of(candidate, contents);
                let rest = kept(tree, candidates, i + 1, class, access).0;
                if ereport::passed_over(entry.class, class) {
                    law_ereports_depend_on_files(
                        h,
                        from,
                        tree,
                        q,
                        candidates,
                        i + 1,
                        class,
                        access,
                        before,
                    );
                } else {
                    law_ereports_depend_on_files(
                        h,
                        from,
                        tree,
                        q,
                        candidates,
                        i + 1,
                        class,
                        access,
                        before.push(entry),
                    );
                    assert(before.push(entry) + rest =~= before + (seq![entry] + rest));
                }
            },
            _ => {},
        }
    }
}

proof fn lemma_kept(
    tree: Tree,
    candidates: Seq<Candidate>,
    i: int,
    class: Seq<Pattern>,
    access: Access,
)
    requires
        0 <= i,
    ensures
        forall|k: int|
            0 <= k < kept(tree, candidates, i, class, access).0.len() ==> {
                let entry = #[trigger] kept(tree, candidates, i, class, access).0[k];
                &&& reader::decoded(tree(entry.path).contents) == Ok::<Seq<char>, Seq<char>>(
                    entry.contents,
                )
                &&& laws::is_kept(entry, candidates, class)
            },
    decreases candidates.len() - i,
{
    if i < candidates.len() {
        lemma_kept(tree, candidates, i + 1, class, access);
        match report_text(tree, candidates[i], access) {
            Ok(contents) => {
                let entry = ereport::entry_of(candidates[i], contents);
                let rest = kept(tree, candidates, i + 1, class, access).0;
                let all = kept(tree, candidates, i, class, access).0;
                if !ereport::passed_over(entry.class, class) {
                    assert(laws::is_kept(entry, candidates, class));
                    assert forall|k: int| 0 <= k < all.len() implies ({
                        let entry = #[trigger] all[k];
                        &&& reader::decoded(tree(entry.path).contents) == Ok::<
                            Seq<char>,
                            Seq<char>,
                        >(entry.contents)
                        &&& laws::is_kept(entry, candidates, class)
                    }) by {
                        if k > 0 {
                            assert(all[k] == rest[k - 1]);
                        }
                    }
                }
            },
            Err(_) => {},
        }
    }
}

/// Ereports that are collected are those that a handler was given which never
/// failed, in the same order, while the files stay as they are. Each has the
/// metadata in its path and the unchanged text of its file.
pub proof fn law_collecting_gives_what_was_handled(
    tree: Tree,
    all: Seq<Seq<char>>,
    part: Seq<Pattern>,
    serial: Seq<Pattern>,
    class: Seq<Pattern>,
    h: Seq<SourceCall>,
    from: int,
    p: int,
    handled: Seq<Handled>,
    k: int,
    next: int,
    later_h: Seq<SourceCall>,
    later_from: int,
    later_p: int,
)
    requires
        keeps(h, from, tree),
        0 <= from <= p,
        keeps(later_h, later_from, tree),
        0 <= later_from <= later_p,
        0 <= k <= handled.len(),
        forall|j: int| k <= j < handled.len() ==> (#[trigger] handled[j]).1 is Ok,
        ereport::visited(
            ereport::candidates(all, all.len() as int, part, serial, Access::Exact),
            0,
            class,
            Access::Exact,
            h,
            p,
            handled,
            k,
        ) == Some((None::<Chain>, next, handled.len() as int)),
    ensures
        ({
            let entries = ereport::entries_of(handled.skip(k));
            &&& match ereport::walked(
                ereport::candidates(all, all.len() as int, part, serial, Access::Exact),
                0,
                class,
                Access::Exact,
                later_h,
                later_p,
                Seq::empty(),
            ) {
                Some((outcome, _)) => outcome == (entries, None::<Chain>),
                None => true,
            }
            &&& forall|i: int|
                0 <= i < entries.len() ==> {
                    let entry = #[trigger] entries[i];
                    &&& ereport::exact_report(entry.path) == Some(entry.metadata)
                    &&& reader::decoded(tree(entry.path).contents) == Ok::<Seq<char>, Seq<char>>(
                        entry.contents,
                    )
                }
        }),
{
    let candidates = ereport::candidates(all, all.len() as int, part, serial, Access::Exact);
    let empty = Seq::<Entry>::empty();
    let entries = ereport::entries_of(handled.skip(k));
    ereport::lemma_visited_all(
        candidates,
        0,
        class,
        Access::Exact,
        h,
        p,
        handled,
        k,
        empty,
        None,
        next,
    );
    law_ereports_depend_on_files(h, from, tree, p, candidates, 0, class, Access::Exact, empty);
    law_ereports_depend_on_files(
        later_h,
        later_from,
        tree,
        later_p,
        candidates,
        0,
        class,
        Access::Exact,
        empty,
    );
    let found = kept(tree, candidates, 0, class, Access::Exact).0;
    assert(empty + found =~= found);
    assert(empty + entries =~= entries);
    lemma_kept(tree, candidates, 0, class, Access::Exact);
    laws::law_candidates_are_selected(all, all.len() as int, part, serial, Access::Exact);
    assert forall|i: int| 0 <= i < entries.len() implies ({
        let entry = #[trigger] entries[i];
        &&& ereport::exact_report(entry.path) == Some(entry.metadata)
        &&& reader::decoded(tree(entry.path).contents) == Ok::<Seq<char>, Seq<char>>(
            entry.contents,
        )
    }) by {
        let entry = found[i];
        assert(laws::is_kept(entry, candidates, class));
        let j = choose|j: int|
            0 <= j < candidates.len() && (#[trigger] candidates[j]).path == entry.path
                && candidates[j].metadata == entry.metadata;
        assert(ereport::report_of(candidates[j].path, Access::Exact) == Some(
            candidates[j].metadata,
        ));
    }
}

/// The text of an inventory record.
pub open spec fn record_text(file: Stored, path: Seq<char>, layout: Layout) -> Result<
    Seq<char>,
    Chain,
> {
    match layout {
        Layout::Descendants => match file.facts {
            Err(e) => Err(error::wrapped("failed to read metadata for "@ + path, e)),
            Ok(_) => text_of(file, path, "failed to open "@ + path),
        },
        Layout::Components => text_of(file, path, "failed to open "@ + path),
        Layout::Depth => match file.opened {
            Err(e) => Err(e),
            Ok(_) => text_in(file, path),
        },
    }
}

/// The sleds of the records from number `i` on, beside those in `sleds`.
pub open spec fn sleds_in(
    tree: Tree,
    all: Seq<Seq<char>>,
    layout: Layout,
    paths: Seq<Seq<char>>,
    i: int,
    sleds: Map<Seq<char>, Sled>,
) -> Result<Map<Seq<char>, Sled>, Chain>
    decreases paths.len() - i,
{
    if i < 0 || i >= paths.len() {
        Ok(sleds)
    } else {
        match record_text(tree(paths[i]), paths[i], layout) {
            Err(e) => Err(e),
            Ok(contents) => match sled::sled_txt(contents) {
                None => Err(error::single("failed to parse sled serial from "@ + paths[i])),
                Some((serial, is_scrimlet)) => sleds_in(
                    tree,
                    all,
                    layout,
                    paths,
                    i + 1,
                    sleds.insert(
                        inventory::uuid_in(paths[i]),
                        inventory::sled_of(all, layout, paths, i, serial, is_scrimlet),
                    ),
                ),
            },
        }
    }
}

/// What `sled_info.json` makes of an inventory.
pub open spec fn completed<D: Fn(&[u8], bool) -> Decoded>(
    tree: Tree,
    layout: Layout,
    listed: bool,
    decode: D,
    info: Inventory,
) -> Result<Warned, Chain> {
    let file = tree("sled_info.json"@);
    if layout != Layout::Depth && !listed {
        Ok((info, None))
    } else {
        match file.opened {
            Err(e) => if layout == Layout::Depth {
                Ok((info, None))
            } else {
                Err(error::wrapped("failed to open sled_info.json"@, e))
            },
            Ok(_) => if layout == Layout::Components && file.ending is Some {
                Err(error::wrapped("failed to read sled_info.json"@, file.ending->0))
            } else {
                inventory::concluded(
                    layout,
                    info,
                    inventory::decoded(decode, file.contents, file.ending is None),
                    file.ending,
                )
            },
        }
    }
}

/// The inventory of the files that are listed under the names `all`.
pub open spec fn inventory_of<D: Fn(&[u8], bool) -> Decoded>(
    tree: Tree,
    all: Seq<Seq<char>>,
    layout: Layout,
    decode: D,
) -> Result<Warned, Chain> {
    let paths = inventory::records(all, all.len() as int, layout);
    match sleds_in(tree, all, layout, paths, 0, Map::empty()) {
        Err(e) => Err(e),
        Ok(sleds) => completed(
            tree,
            layout,
            all.contains("sled_info.json"@),
            decode,
            Inventory { sleds, unhealthy: Map::empty() },
        ),
    }
}

proof fn lemma_record_loaded(
    h: Seq<SourceCall>,
    from: int,
    tree: Tree,
    p: int,
    path: Seq<char>,
    layout: Layout,
)
    requires
        keeps(h, from, tree),
        0 <= from <= p,
    ensures
        match inventory::record_loaded(h, p, path, layout) {
            Some((r, q)) => p <= q && r == record_text(tree(path), path, layout),
            None => true,
        },
{
    match layout {
        Layout::Descendants => {
            if source::metadata_of(h, p, path) is Some {
                assert(answered(h, p, tree));
                lemma_text_loaded(h, from, tree, p + 1, path);
            }
        },
        Layout::Components => {
            lemma_text_loaded(h, from, tree, p, path);
        },
        Layout::Depth => {
            if source::opening(h, p, path) is Some {
                assert(answered(h, p, tree));
                if source::opening(h, p, path)->0 is Ok {
                    assert(cursor(h, p + 1) == Some((path, 0int)));
                    lemma_text_read(h, from, tree, p + 1, path);
                }
            }
        },
    }
}

proof fn lemma_sleds_read(
    h: Seq<SourceCall>,
    from: int,
    tree: Tree,
    p: int,
    all: Seq<Seq<char>>,
    layout: Layout,
    paths: Seq<Seq<char>>,
    i: int,
    sleds: Map<Seq<char>, Sled>,
)
    requires
        keeps(h, from, tree),
        0 <= from <= p,
        0 <= i,
    ensures
        match inventory::sleds_read(all, layout, paths, i, h, p, sleds) {
            Some((r, q)) => p <= q && r == sleds_in(tree, all, layout, paths, i, sleds),
            None => true,
        },
    decreases paths.len() - i,
{
    if i < paths.len() {
        lemma_record_loaded(h, from, tree, p, paths[i], layout);
        match inventory::record_loaded(h, p, paths[i], layout) {
            Some((Ok(contents), q)) => match sled::sled_txt(contents) {
                Some((serial, is_scrimlet)) => {
                    lemma_sleds_read(
                        h,
                        from,
                        tree,
                        q,
                        all,
                        layout,
                        paths,
                        i + 1,
                        sleds.insert(
                            inventory::uuid_in(paths[i]),
                            inventory::sled_of(all, layout, paths, i, serial, is_scrimlet),
                        ),
                    );
                },
                None => {},
            },
            _ => {},
        }
    }
}

/// While the files stay as they are, the inventory depends on the names and the
/// files alone.
pub proof fn law_inventory_depends_on_files<D: Fn(&[u8], bool) -> Decoded>(
    h: Seq<SourceCall>,
    from: int,
    tree: Tree,
    p: int,
    all: Seq<Seq<char>>,
    layout: Layout,
    decode: D,
)
    requires
        keeps(h, from, tree),
        0 <= from <= p,
    ensures
        match inventory::inventory_read(all, layout, decode, h, p) {
            Some((r, _)) => r == inventory_of(tree, all, layout, decode),
            None => true,
        },
{
    let paths = inventory::records(all, all.len() as int, layout);
    let path = "sled_info.json"@;
    lemma_sleds_read(h, from, tree, p, all, layout, paths, 0, Map::empty());
    match inventory::sleds_read(all, layout, paths, 0, h, p, Map::empty()) {
        Some((Ok(sleds), q)) => {
            if source::opening(h, q, path) is Some {
                assert(answered(h, q, tree));
                if source::opening(h, q, path)->0 is Ok {
                    let contents = tree(path).contents;
                    let empty = Seq::<u8>::empty();
                    assert(cursor(h, q + 1) == Some((path, 0int)));
                    lemma_drained(h, from, tree, q + 1, empty, path, 0);
                    assert(empty + contents.skip(0) =~= contents);
                }
            }
        },
        _ => {},
    }
}

/// The names say the same of the logs of every sled.
spec fn same_logs(a: Seq<Seq<char>>, b: Seq<Seq<char>>, layout: Layout) -> bool {
    forall|uuid: Seq<char>| #[trigger]
        inventory::zones_of(a, layout, uuid) == inventory::zones_of(b, layout, uuid)
            && inventory::services_of(a, layout, uuid) == inventory::services_of(b, layout, uuid)
}

proof fn lemma_same_sleds(
    tree: Tree,
    a: Seq<Seq<char>>,
    b: Seq<Seq<char>>,
    layout: Layout,
    paths: Seq<Seq<char>>,
    i: int,
    sleds: Map<Seq<char>, Sled>,
)
    requires
        same_logs(a, b, layout),
        0 <= i,
    ensures
        sleds_in(tree, a, layout, paths, i, sleds) == sleds_in(tree, b, layout, paths, i, sleds),
    decreases paths.len() - i,
{
    if i < paths.len() {
        match record_text(tree(paths[i]), paths[i], layout) {
            Ok(contents) => match sled::sled_txt(contents) {
                Some((serial, is_scrimlet)) => {
                    let uuid = inventory::uuid_in(paths[i]);
                    let sled = inventory::sled_of(a, layout, paths, i, serial, is_scrimlet);
                    assert(inventory::zones_of(a, layout, uuid) == inventory::zones_of(
                        b,
                        layout,
                        uuid,
                    ));
                    assert(sled == inventory::sled_of(b, layout, paths, i, serial, is_scrimlet));
                    lemma_same_sleds(tree, a, b, layout, paths, i + 1, sleds.insert(uuid, sled));
                },
                None => {},
            },
            Err(_) => {},
        }
    }
}

proof fn lemma_files_among(all: Seq<Seq<char>>, n: int, name: Seq<char>)
    requires
        0 <= n <= all.len(),
        !text::ends_with(name, "/"@),
    ensures
        laws::files_among(all, n).contains(name) <==> all.take(n).contains(name),
    decreases n,
{
    if n > 0 {
        lemma_files_among(all, n - 1, name);
        let earlier = laws::files_among(all, n - 1);
        let files = laws::files_among(all, n);
        let front = all.take(n - 1);
        assert(all.take(n) =~= front.push(all[n - 1]));
        if front.contains(name) {
            let k = choose|k: int| 0 <= k < front.len() && front[k] == name;
            assert(all.take(n)[k] == name);
        }
        if all.take(n).contains(name) {
            let k = choose|k: int| 0 <= k < n && all.take(n)[k] == name;
            if k < n - 1 {
                assert(front[k] == name);
            }
        }
        if earlier.contains(name) {
            let k = choose|k: int| 0 <= k < earlier.len() && earlier[k] == name;
            assert(files[k] == name);
        }
        if files.contains(name) {
            let k = choose|k: int| 0 <= k < files.len() && files[k] == name;
            if k < earlier.len() {
                assert(earlier[k] == name);
            }
        }
        if all[n - 1] == name {
            assert(files[files.len() - 1] == name);
            assert(all.take(n)[n - 1] == name);
        }
    }
}

proof fn lemma_inventory_of_files<D: Fn(&[u8], bool) -> Decoded>(
    tree: Tree,
    all: Seq<Seq<char>>,
    decode: D,
)
    ensures
        inventory_of(tree, all, Layout::Components, decode) == inventory_of(
            tree,
            laws::files_among(all, all.len() as int),
            Layout::Components,
            decode,
        ),
{
    let layout = Layout::Components;
    let n = all.len() as int;
    let files = laws::files_among(all, n);
    let paths = inventory::records(all, n, layout);
    let choice = logs::Choice {
        sled: Seq::empty(),
        service: Seq::empty(),
        zone: Seq::empty(),
        path: Seq::empty(),
    };
    assert(all.take(n) =~= all);
    laws::law_directory_entries_do_not_matter(all, n, Map::empty(), choice, Seq::empty());
    assert forall|uuid: Seq<char>| #[trigger]
        inventory::zones_of(all, layout, uuid) == inventory::zones_of(files, layout, uuid)
            && inventory::services_of(all, layout, uuid) == inventory::services_of(
            files,
            layout,
            uuid,
        ) by {
        laws::law_directory_entries_do_not_matter(all, n, Map::empty(), choice, uuid);
    }
    lemma_same_sleds(tree, all, files, layout, paths, 0, Map::empty());
    reveal_strlit("sled_info.json");
    reveal_strlit("/");
    let name = "sled_info.json"@;
    if text::ends_with(name, "/"@) {
        assert(name.subrange(13, 14)[0] == "/"@[0]);
    }
    lemma_files_among(all, n, name);
}

/// Directory entries do not count at all where zones and services are inferred
/// from files: two sources that list the same files in the same order, whatever
/// directories they list beside them, have the same inventory or fail with the
/// same error, while the files stay as they are.
pub proof fn law_directory_entries_leave_the_inventory<D: Fn(&[u8], bool) -> Decoded>(
    tree: Tree,
    decode: D,
    a: Seq<Seq<char>>,
    a_h: Seq<SourceCall>,
    a_from: int,
    a_p: int,
    b: Seq<Seq<char>>,
    b_h: Seq<SourceCall>,
    b_from: int,
    b_p: int,
)
    requires
        keeps(a_h, a_from, tree),
        0 <= a_from <= a_p,
        keeps(b_h, b_from, tree),
        0 <= b_from <= b_p,
        laws::files_among(a, a.len() as int) == laws::files_among(b, b.len() as int),
    ensures
        match (
            inventory::inventory_read(a, Layout::Components, decode, a_h, a_p),
            inventory::inventory_read(b, Layout::Components, decode, b_h, b_p),
        ) {
            (Some((x, _)), Some((y, _))) => x == y,
            _ => true,
        },
{
    law_inventory_depends_on_files(a_h, a_from, tree, a_p, a, Layout::Components, decode);
    law_inventory_depends_on_files(b_h, b_from, tree, b_p, b, Layout::Components, decode);
    lemma_inventory_of_files(tree, a, decode);
    lemma_inventory_of_files(tree, b, decode);
}

/// No two inventory records among the names have the same UUID.
pub open spec fn one_record_per_sled(all: Seq<Seq<char>>, layout: Layout) -> bool {
    forall|i: int, j: int|
        0 <= i < j < all.len() && inventory::is_sled_txt(#[trigger] all[i], layout)
            && inventory::is_sled_txt(#[trigger] all[j], layout) ==> inventory::uuid_in(all[i])
            != inventory::uuid_in(all[j])
}

/// The names are the same, in whatever order.
pub open spec fn same_names(a: Seq<Seq<char>>, b: Seq<Seq<char>>) -> bool {
    forall|name: Seq<char>| #[trigger] a.contains(name) <==> b.contains(name)
}

/// The named files have the same bytes in both trees, which can be read to their
/// end, and nothing hinders the use of the second tree.
pub open spec fn same_files(first: Tree, second: Tree, all: Seq<Seq<char>>) -> bool {
    forall|name: Seq<char>| #[trigger]
        all.contains(name) ==> {
            &&& first(name).contents == second(name).contents
            &&& first(name).ending is None
            &&& second(name).ending is None
            &&& second(name).opened is Ok
            &&& second(name).facts is Ok
        }
}

/// The records are the names of records, and no other names.
proof fn lemma_records(all: Seq<Seq<char>>, n: int, layout: Layout)
    requires
        0 <= n <= all.len(),
    ensures
        forall|path: Seq<char>|
            inventory::records(all, n, layout).contains(path) <==> (#[trigger] all.take(n).contains(
                path,
            ) && inventory::is_sled_txt(path, layout)),
    decreases n,
{
    let now = inventory::records(all, n, layout);
    if n > 0 {
        lemma_records(all, n - 1, layout);
        let earlier = inventory::records(all, n - 1, layout);
        let last = all[n - 1];
        let front = all.take(n - 1);
        assert(all.take(n) =~= front.push(last));
        let whole = all.take(n);
        assert forall|path: Seq<char>|
            now.contains(path) <==> (#[trigger] all.take(n).contains(path)
                && inventory::is_sled_txt(path, layout)) by {
            assert(earlier.contains(path) <==> (all.take(n - 1).contains(path)
                && inventory::is_sled_txt(path, layout)));
            if now.contains(path) {
                let k = choose|k: int| 0 <= k < now.len() && now[k] == path;
                if k < earlier.len() {
                    assert(earlier[k] == path);
                    assert(front.contains(path));
                    let j = choose|j: int| 0 <= j < front.len() && front[j] == path;
                    assert(whole[j] == path);
                } else {
                    assert(inventory::is_sled_txt(last, layout));
                    assert(whole[n - 1] == path);
                }
            }
            if whole.contains(path) && inventory::is_sled_txt(path, layout) {
                let j = choose|j: int| 0 <= j < whole.len() && whole[j] == path;
                if j < n - 1 {
                    assert(front[j] == path);
                    assert(earlier.contains(path));
                    let k = choose|k: int| 0 <= k < earlier.len() && earlier[k] == path;
                    assert(now[k] == path);
                } else {
                    assert(path == last);
                    assert(now[now.len() - 1] == path);
                }
            }
        }
    } else {
        assert(all.take(0) =~= Seq::empty());
    }
}

/// Where no two records share a UUID, none is repeated.
proof fn lemma_none_repeated(all: Seq<Seq<char>>, n: int, layout: Layout)
    requires
        0 <= n <= all.len(),
        one_record_per_sled(all, layout),
    ensures
        ({
            let paths = inventory::records(all, n, layout);
            forall|i: int, j: int|
                0 <= i < j < paths.len() ==> inventory::uuid_in(#[trigger] paths[i])
                    != inventory::uuid_in(#[trigger] paths[j])
        }),
    decreases n,
{
    if n > 0 {
        lemma_none_repeated(all, n - 1, layout);
        lemma_records(all, n - 1, layout);
        let earlier = inventory::records(all, n - 1, layout);
        let paths = inventory::records(all, n, layout);
        assert forall|i: int, j: int| 0 <= i < j < paths.len() implies inventory::uuid_in(
            #[trigger] paths[i],
        ) != inventory::uuid_in(#[trigger] paths[j]) by {
            if j < earlier.len() {
                assert(paths[i] == earlier[i]);
                assert(paths[j] == earlier[j]);
            } else {
                assert(paths[i] == earlier[i]);
                assert(earlier.contains(earlier[i]));
                let front = all.take(n - 1);
                assert(front.contains(earlier[i]));
                let k = choose|k: int| 0 <= k < front.len() && front[k] == earlier[i];
                assert(all[k] == earlier[i]);
                assert(all[n - 1] == paths[j]);
            }
        }
    }
}

/// The sled of a record whose UUID no other record has.
spec fn sled_at(tree: Tree, all: Seq<Seq<char>>, layout: Layout, path: Seq<char>) -> Option<Sled> {
    match record_text(tree(path), path, layout) {
        Err(_) => None,
        Ok(contents) => match sled::sled_txt(contents) {
            None => None,
            Some((serial, is_scrimlet)) => {
                let uuid = inventory::uuid_in(path);
                Some(
                    Sled {
                        uuid,
                        cubby: None,
                        serial,
                        zones: names::sorted(inventory::zones_of(all, layout, uuid)),
                        services: names::sorted(inventory::services_of(all, layout, uuid)),
                        is_scrimlet,
                    },
                )
            },
        },
    }
}

proof fn lemma_sleds_in(
    tree: Tree,
    all: Seq<Seq<char>>,
    layout: Layout,
    paths: Seq<Seq<char>>,
    i: int,
    sleds: Map<Seq<char>, Sled>,
)
    requires
        0 <= i <= paths.len(),
        forall|j: int, k: int|
            0 <= j < k < paths.len() ==> inventory::uuid_in(#[trigger] paths[j])
                != inventory::uuid_in(#[trigger] paths[k]),
    ensures
        sleds_in(tree, all, layout, paths, i, sleds) is Ok <==> (forall|k: int|
            i <= k < paths.len() ==> sled_at(tree, all, layout, #[trigger] paths[k]) is Some),
        match sleds_in(tree, all, layout, paths, i, sleds) {
            Ok(read) => {
                &&& forall|uuid: Seq<char>| #[trigger]
                    read.contains_key(uuid) <==> sleds.contains_key(uuid) || exists|k: int|
                        i <= k < paths.len() && inventory::uuid_in(#[trigger] paths[k]) == uuid
                &&& forall|k: int|
                    i <= k < paths.len() ==> Some(
                        read[inventory::uuid_in(#[trigger] paths[k])],
                    ) == sled_at(tree, all, layout, paths[k])
                &&& forall|uuid: Seq<char>|
                    (forall|k: int|
                        i <= k < paths.len() ==> inventory::uuid_in(#[trigger] paths[k]) != uuid)
                        ==> #[trigger] read[uuid] == sleds[uuid]
            },
            Err(_) => true,
        },
    decreases paths.len() - i,
{
    if i < paths.len() {
        let here = sled_at(tree, all, layout, paths[i]);
        let uuid = inventory::uuid_in(paths[i]);
        match record_text(tree(paths[i]), paths[i], layout) {
            Ok(contents) => match sled::sled_txt(contents) {
                Some((serial, is_scrimlet)) => {
                    let sled = inventory::sled_of(all, layout, paths, i, serial, is_scrimlet);
                    if inventory::repeated(paths, i) {
                        let j = choose|j: int|
                            0 <= j < i && inventory::uuid_in(#[trigger] paths[j]) == uuid;
                        assert(inventory::uuid_in(paths[j]) != inventory::uuid_in(paths[i]));
                    }
                    assert(here == Some(sled));
                    let more = sleds.insert(uuid, sled);
                    lemma_sleds_in(tree, all, layout, paths, i + 1, more);
                    match sleds_in(tree, all, layout, paths, i, sleds) {
                        Ok(read) => {
                            assert(forall|k: int|
                                i + 1 <= k < paths.len() ==> inventory::uuid_in(#[trigger] paths[k])
                                    != uuid);
                            assert(read[uuid] == more[uuid]);
                            assert forall|k: int| i <= k < paths.len() implies Some(
                                read[inventory::uuid_in(#[trigger] paths[k])],
                            ) == sled_at(tree, all, layout, paths[k]) by {
                                if k == i {
                                    assert(read[uuid] == sled);
                                }
                            }
                            assert forall|u: Seq<char>| #[trigger]
                                read.contains_key(u) <==> sleds.contains_key(u) || exists|k: int|
                                    i <= k < paths.len() && inventory::uuid_in(#[trigger] paths[k])
                                        == u by {
                                if u == uuid {
                                    assert(more.contains_key(u));
                                    assert(inventory::uuid_in(paths[i]) == u);
                                }
                                if exists|k: int|
                                    i <= k < paths.len() && inventory::uuid_in(#[trigger] paths[k])
                                        == u {
                                    let k = choose|k: int|
                                        i <= k < paths.len() && inventory::uuid_in(
                                            #[trigger] paths[k],
                                        ) == u;
                                    if k == i {
                                        assert(u == uuid);
                                    }
                                }
                            }
                            assert forall|u: Seq<char>|
                                (forall|k: int|
                                    i <= k < paths.len() ==> inventory::uuid_in(#[trigger] paths[k])
                                        != u) implies #[trigger] read[u] == sleds[u] by {
                                assert(inventory::uuid_in(paths[i]) != u);
                                assert(read[u] == more[u]);
                            }
                        },
                        Err(_) => {},
                    }
                    assert forall|k: int|
                        (forall|m: int|
                            i + 1 <= m < paths.len() ==> sled_at(
                                tree,
                                all,
                                layout,
                                #[trigger] paths[m],
                            ) is Some) && i <= k < paths.len() implies sled_at(
                        tree,
                        all,
                        layout,
                        #[trigger] paths[k],
                    ) is Some by {
                    }
                },
                None => {
                    assert(sled_at(tree, all, layout, paths[i]) is None);
                },
            },
            Err(_) => {
                assert(sled_at(tree, all, layout, paths[i]) is None);
            },
        }
    }
}

proof fn lemma_same_logs(a: Seq<Seq<char>>, b: Seq<Seq<char>>, layout: Layout)
    requires
        same_names(a, b),
    ensures
        same_logs(a, b, layout),
{
    assert forall|uuid: Seq<char>| #[trigger]
        inventory::zones_of(a, layout, uuid) == inventory::zones_of(b, layout, uuid)
            && inventory::services_of(a, layout, uuid) == inventory::services_of(
            b,
            layout,
            uuid,
        ) by {
        assert forall|x: Seq<char>|
            inventory::has_zone(a, layout, uuid, x) == inventory::has_zone(b, layout, uuid, x)
                && inventory::has_service(a, layout, uuid, x) == inventory::has_service(
                b,
                layout,
                uuid,
                x,
            ) by {
            lemma_told_by_one(a, b, layout, uuid, x);
            lemma_told_by_one(b, a, layout, uuid, x);
        }
        assert(inventory::zones_of(a, layout, uuid) =~= inventory::zones_of(b, layout, uuid));
        assert(inventory::services_of(a, layout, uuid) =~= inventory::services_of(
            b,
            layout,
            uuid,
        ));
    }
}

proof fn lemma_told_by_one(
    a: Seq<Seq<char>>,
    b: Seq<Seq<char>>,
    layout: Layout,
    uuid: Seq<char>,
    x: Seq<char>,
)
    requires
        forall|name: Seq<char>| #[trigger] a.contains(name) ==> b.contains(name),
    ensures
        inventory::has_zone(a, layout, uuid, x) ==> inventory::has_zone(b, layout, uuid, x),
        inventory::has_service(a, layout, uuid, x) ==> inventory::has_service(b, layout, uuid, x),
{
    if inventory::has_zone(a, layout, uuid, x) {
        let i = choose|i: int|
            0 <= i < a.len() && (#[trigger] inventory::spot_of(a[i], layout) matches Some(spot)
                && spot.sled == uuid && spot.zone == Some(x));
        assert(a.contains(a[i]));
        let j = choose|j: int| 0 <= j < b.len() && b[j] == a[i];
        assert(inventory::spot_of(b[j], layout) == inventory::spot_of(a[i], layout));
    }
    if inventory::has_service(a, layout, uuid, x) {
        let i = choose|i: int|
            0 <= i < a.len() && (#[trigger] inventory::spot_of(a[i], layout) matches Some(spot)
                && spot.sled == uuid && spot.service == Some(x));
        assert(a.contains(a[i]));
        let j = choose|j: int| 0 <= j < b.len() && b[j] == a[i];
        assert(inventory::spot_of(b[j], layout) == inventory::spot_of(a[i], layout));
    }
}

/// The order in which a source lists its files does not matter, nor does the kind
/// of source: where no two records share a UUID, two sources that hold the same
/// files under the same names have the same inventory, if the first has one and
/// the files of the second can be read.
pub proof fn law_order_of_names_does_not_matter<D: Fn(&[u8], bool) -> Decoded>(
    layout: Layout,
    decode: D,
    first: Tree,
    a: Seq<Seq<char>>,
    a_h: Seq<SourceCall>,
    a_from: int,
    a_p: int,
    second: Tree,
    b: Seq<Seq<char>>,
    b_h: Seq<SourceCall>,
    b_from: int,
    b_p: int,
)
    requires
        layout != Layout::Depth,
        keeps(a_h, a_from, first),
        0 <= a_from <= a_p,
        keeps(b_h, b_from, second),
        0 <= b_from <= b_p,
        same_names(a, b),
        same_files(first, second, a),
        one_record_per_sled(a, layout),
        one_record_per_sled(b, layout),
    ensures
        match (
            inventory::inventory_read(a, layout, decode, a_h, a_p),
            inventory::inventory_read(b, layout, decode, b_h, b_p),
        ) {
            (Some((Ok(x), _)), Some((y, _))) => y == Ok::<Warned, Chain>(x),
            _ => true,
        },
{
    law_inventory_depends_on_files(a_h, a_from, first, a_p, a, layout, decode);
    law_inventory_depends_on_files(b_h, b_from, second, b_p, b, layout, decode);
    if inventory_of(first, a, layout, decode) is Ok {
        let n = a.len() as int;
        let m = b.len() as int;
        let x = inventory::records(a, n, layout);
        let y = inventory::records(b, m, layout);
        let none = Map::<Seq<char>, Sled>::empty();
        lemma_none_repeated(a, n, layout);
        lemma_none_repeated(b, m, layout);
        lemma_sleds_in(first, a, layout, x, 0, none);
        lemma_sleds_in(second, b, layout, y, 0, none);
        lemma_same_logs(a, b, layout);
        lemma_records(a, n, layout);
        lemma_records(b, m, layout);
        assert(a.take(n) =~= a);
        assert(b.take(m) =~= b);
        assert forall|path: Seq<char>| #[trigger] x.contains(path) <==> y.contains(path) by {
            assert(a.take(n).contains(path) == a.contains(path));
            assert(b.take(m).contains(path) == b.contains(path));
        }
        assert forall|path: Seq<char>| #[trigger] x.contains(path) && sled_at(
            first,
            a,
            layout,
            path,
        ) is Some implies sled_at(first, a, layout, path) == sled_at(second, b, layout, path) by {
            assert(a.take(n).contains(path));
            assert(a.contains(path));
            let uuid = inventory::uuid_in(path);
            assert(inventory::zones_of(a, layout, uuid) == inventory::zones_of(b, layout, uuid));
        }
        assert forall|k: int| 0 <= k < y.len() implies sled_at(
            second,
            b,
            layout,
            #[trigger] y[k],
        ) is Some by {
            assert(y.contains(y[k]));
            assert(x.contains(y[k]));
            let j = choose|j: int| 0 <= j < x.len() && x[j] == y[k];
            assert(sled_at(first, a, layout, x[j]) is Some);
        }
        let sleds = sleds_in(first, a, layout, x, 0, none)->Ok_0;
        let others = sleds_in(second, b, layout, y, 0, none)->Ok_0;
        assert forall|uuid: Seq<char>| #[trigger]
            sleds.contains_key(uuid) <==> others.contains_key(uuid) by {
            if sleds.contains_key(uuid) {
                let k = choose|k: int|
                    0 <= k < x.len() && inventory::uuid_in(#[trigger] x[k]) == uuid;
                assert(x.contains(x[k]));
                let j = choose|j: int| 0 <= j < y.len() && y[j] == x[k];
                assert(inventory::uuid_in(y[j]) == uuid);
            }
            if others.contains_key(uuid) {
                let k = choose|k: int|
                    0 <= k < y.len() && inventory::uuid_in(#[trigger] y[k]) == uuid;
                assert(y.contains(y[k]));
                assert(x.contains(y[k]));
                let j = choose|j: int| 0 <= j < x.len() && x[j] == y[k];
                assert(inventory::uuid_in(x[j]) == uuid);
            }
        }
        assert forall|uuid: Seq<char>| #[trigger]
            sleds.contains_key(uuid) implies sleds[uuid] == others[uuid] by {
            let k = choose|k: int|
                0 <= k < x.len() && inventory::uuid_in(#[trigger] x[k]) == uuid;
            assert(x.contains(x[k]));
            let j = choose|j: int| 0 <= j < y.len() && y[j] == x[k];
            assert(Some(sleds[uuid]) == sled_at(first, a, layout, x[k]));
            assert(Some(others[inventory::uuid_in(y[j])]) == sled_at(second, b, layout, y[j]));
        }
        assert(sleds =~= others);
        let name = "sled_info.json"@;
        assert(a.contains(name) == b.contains(name));
    }
}

} // verus!
