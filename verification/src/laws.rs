//! Laws: what holds of all inputs, of several functions together, or of every
//! answer that a source may give.
use crate::directory;
use crate::ereport;
use crate::ereport::{Access, Candidate, Entry, Report};
use crate::inventory;
use crate::inventory::{Document, Identity, Layout};
use crate::listing;
use crate::log_file;
use crate::log_file::Log;
use crate::logs;
use crate::logs::{Choice, Manner, Window};
use crate::names;
use crate::pattern;
use crate::pattern::Pattern;
use crate::reader;
use crate::sled;
use crate::sled::{Inventory, Sled};
use crate::source;
use crate::source::{BundleSource, Chain, SourceCall};
use crate::structured;
use crate::text;
use crate::time;
use crate::time::Timestamp;
use vstd::prelude::*;

verus! {

/// No piece of a split text holds the separator.
pub proof fn law_pieces_without_separator(s: Seq<char>, sep: char)
    ensures
        forall|i: int|
            0 <= i < text::split(s, sep).len() ==> !(#[trigger] text::split(s, sep)[i]).contains(sep),
    decreases s.len(),
{
    if s.len() > 0 {
        law_pieces_without_separator(s.drop_last(), sep);
        text::lemma_split_not_empty(s.drop_last(), sep);
        let pieces = text::split(s.drop_last(), sep);
        assert forall|i: int| 0 <= i < text::split(s, sep).len() implies !(#[trigger] text::split(
            s,
            sep,
        )[i]).contains(sep) by {
            let piece = text::split(s, sep)[i];
            if s.last() != sep && i == pieces.len() - 1 {
                if piece.contains(sep) {
                    let k = choose|k: int| 0 <= k < piece.len() && piece[k] == sep;
                    assert(k < pieces.last().len());
                    assert(pieces.last()[k] == sep);
                    assert(pieces[pieces.len() - 1].contains(sep));
                }
            } else if i < pieces.len() {
                assert(piece == pieces[i]);
            }
        }
    }
}

/// Joining the pieces of a text restores it.
pub proof fn law_join_restores(s: Seq<char>, sep: char)
    ensures
        text::join(text::split(s, sep), seq![sep]) == s,
    decreases s.len(),
{
    if s.len() == 0 {
        assert(text::split(s, sep) =~= seq![Seq::<char>::empty()]);
        assert(s =~= Seq::<char>::empty());
    } else {
        law_join_restores(s.drop_last(), sep);
        text::lemma_split_not_empty(s.drop_last(), sep);
        let pieces = text::split(s.drop_last(), sep);
        let all = text::split(s, sep);
        if s.last() == sep {
            assert(all.drop_last() =~= pieces);
            assert(text::join(all, seq![sep]) =~= s);
        } else {
            assert(all.drop_last() =~= pieces.drop_last());
            assert(s =~= s.drop_last().push(s.last()));
            if pieces.len() == 1 {
                assert(text::join(all, seq![sep]) =~= s);
            } else {
                assert(text::join(all, seq![sep]) =~= text::join(pieces, seq![sep]).push(s.last()));
            }
        }
    }
}

proof fn lemma_split_push(s: Seq<char>, piece: Seq<char>, sep: char)
    requires
        !piece.contains(sep),
    ensures
        text::split(s + piece, sep) == text::split(s, sep).drop_last().push(
            text::split(s, sep).last() + piece,
        ),
    decreases piece.len(),
{
    text::lemma_split_not_empty(s, sep);
    let pieces = text::split(s, sep);
    if piece.len() == 0 {
        assert(s + piece =~= s);
        assert(pieces.last() + piece =~= pieces.last());
        assert(pieces.drop_last().push(pieces.last()) =~= pieces);
    } else {
        assert forall|k: int| 0 <= k < piece.len() - 1 implies piece.drop_last()[k] != sep by {
            assert(piece[k] == piece.drop_last()[k]);
        }
        assert(piece[piece.len() - 1] == piece.last());
        lemma_split_push(s, piece.drop_last(), sep);
        assert((s + piece).drop_last() =~= s + piece.drop_last());
        let shorter = text::split(s + piece.drop_last(), sep);
        assert(shorter.drop_last() =~= pieces.drop_last());
        assert(shorter.last().push(piece.last()) =~= pieces.last() + piece);
    }
}

/// Splitting what was joined gives back the pieces, where none holds the
/// separator.
pub proof fn law_split_restores(pieces: Seq<Seq<char>>, sep: char)
    requires
        pieces.len() > 0,
        forall|i: int| 0 <= i < pieces.len() ==> !(#[trigger] pieces[i]).contains(sep),
    ensures
        text::split(text::join(pieces, seq![sep]), sep) == pieces,
    decreases pieces.len(),
{
    let empty = Seq::<char>::empty();
    if pieces.len() == 1 {
        lemma_split_push(empty, pieces[0], sep);
        assert(empty + pieces[0] =~= pieces[0]);
        assert(text::split(empty, sep) =~= seq![empty]);
        assert(text::split(pieces[0], sep) =~= pieces);
    } else {
        let front = pieces.drop_last();
        assert forall|i: int| 0 <= i < front.len() implies !(#[trigger] front[i]).contains(sep) by {
            assert(front[i] == pieces[i]);
        }
        law_split_restores(front, sep);
        let joined = text::join(front, seq![sep]);
        assert((joined + seq![sep]).drop_last() =~= joined);
        assert(text::split(joined + seq![sep], sep) == front.push(empty));
        assert(pieces[pieces.len() - 1] == pieces.last());
        lemma_split_push(joined + seq![sep], pieces.last(), sep);
        assert(front.push(empty).drop_last() =~= front);
        assert(empty + pieces.last() =~= pieces.last());
        assert(front.push(pieces.last()) =~= pieces);
    }
}

/// A number written in decimal reads as that number.
pub proof fn law_decimal_reads_back(n: nat, max: nat)
    requires
        n <= max,
    ensures
        text::digits_value(text::decimal(n)) == Some(n),
        text::unsigned_value(text::decimal(n), max) == Some(n),
    decreases n,
{
    let s = text::decimal(n);
    if n < 10 {
        assert(s.drop_last() =~= Seq::empty());
        reveal_with_fuel(text::decimal_value, 2);
        assert(text::decimal_value(s) == n);
    } else {
        law_decimal_reads_back(n / 10, max);
        assert(s.drop_last() =~= text::decimal(n / 10));
        assert(n == 10 * (n / 10) + n % 10);
        assert forall|i: int| 0 <= i < s.len() implies text::is_digit(#[trigger] s[i]) by {
            if i < s.len() - 1 {
                assert(s[i] == text::decimal(n / 10)[i]);
            }
        }
    }
    assert(text::is_digit(s[0]));
}

proof fn lemma_first_piece(s: Seq<char>, sep: char)
    ensures
        text::starts_with(s, text::split(s, sep)[0]),
    decreases s.len(),
{
    let first = text::split(s, sep)[0];
    if s.len() == 0 {
        assert(s.subrange(0, 0) =~= first);
    } else {
        let front = s.drop_last();
        lemma_first_piece(front, sep);
        text::lemma_split_not_empty(front, sep);
        let pieces = text::split(front, sep);
        let before = pieces[0];
        if s.last() == sep || pieces.len() > 1 {
            assert(first == before);
            assert(s.subrange(0, first.len() as int) =~= front.subrange(0, first.len() as int));
        } else {
            law_join_restores(front, sep);
            assert(before == front);
            assert(first == before.push(s.last()));
            assert(s.subrange(0, first.len() as int) =~= first);
        }
    }
}

/// The three grammars of ereport paths nest: what the strict one accepts, the
/// exact one accepts, and what that accepts, the lenient one accepts, each with
/// the same metadata.
pub proof fn law_path_grammars_nest(path: Seq<char>)
    ensures
        structured::strict_report(path) is Some ==> ereport::exact_report(path)
            == structured::strict_report(path),
        ereport::exact_report(path) is Some ==> ereport::lenient_report(path)
            == ereport::exact_report(path),
{
    lemma_first_piece(path, '/');
    let parts = text::split(path, '/');
    match text::strip_suffix(parts[3], ".json"@) {
        Some(number) => {
            if number.len() > 0 && text::is_digit(number[0]) {
                assert(number[0] != '+');
            }
            if text::all_digits(number) && number.len() > 0 {
                assert(text::is_digit(number[0]));
            }
        },
        None => {},
    }
}

/// The path of an ereport.
pub open spec fn report_path(report: Report) -> Seq<char> {
    text::join(
        seq![
            "ereports"@,
            report.part + seq!['-'] + report.serial,
            report.restart_id,
            text::decimal(report.ena) + ".json"@,
        ],
        seq!['/'],
    )
}

/// The metadata can stand in a path: nothing is empty, no slash occurs, and the
/// serial number has no `-`.
pub open spec fn is_plain(report: Report) -> bool {
    &&& report.part.len() > 0 && !report.part.contains('/')
    &&& report.serial.len() > 0 && !report.serial.contains('/') && !report.serial.contains('-')
    &&& report.restart_id.len() > 0 && !report.restart_id.contains('/')
    &&& report.ena <= ereport::MAX_ENA
}

/// The last position of a character is the one behind which it does not occur.
pub proof fn lemma_last_position(a: Seq<char>, b: Seq<char>, c: char)
    requires
        !b.contains(c),
    ensures
        text::last_position(a + seq![c] + b, c) == Some(a.len() as int),
    decreases b.len(),
{
    let s = a + seq![c] + b;
    if b.len() == 0 {
        assert(s.last() == c);
    } else {
        assert(s.last() == b[b.len() - 1]);
        assert(s.drop_last() =~= a + seq![c] + b.drop_last());
        assert forall|k: int| 0 <= k < b.len() - 1 implies b.drop_last()[k] != c by {
            assert(b[k] == b.drop_last()[k]);
        }
        lemma_last_position(a, b.drop_last(), c);
    }
}

/// The metadata of an ereport can be read back from its path, by all three
/// grammars.
pub proof fn law_report_path_reads_back(report: Report)
    requires
        is_plain(report),
    ensures
        structured::strict_report(report_path(report)) == Some(report),
        ereport::exact_report(report_path(report)) == Some(report),
        ereport::lenient_report(report_path(report)) == Some(report),
{
    reveal_strlit("ereports");
    reveal_strlit(".json");
    let identity = report.part + seq!['-'] + report.serial;
    let number = text::decimal(report.ena);
    let file_name = number + ".json"@;
    let pieces = seq!["ereports"@, identity, report.restart_id, file_name];
    law_decimal_reads_back(report.ena, ereport::MAX_ENA as nat);
    assert forall|i: int| 0 <= i < pieces.len() implies !(#[trigger] pieces[i]).contains('/') by {
        if i == 1 {
            assert forall|k: int| 0 <= k < identity.len() implies identity[k] != '/' by {
                if k < report.part.len() {
                    assert(identity[k] == report.part[k]);
                } else if k > report.part.len() {
                    assert(identity[k] == report.serial[k - report.part.len() - 1]);
                }
            }
        } else if i == 3 {
            assert forall|k: int| 0 <= k < file_name.len() implies file_name[k] != '/' by {
                if k < number.len() {
                    assert(file_name[k] == number[k]);
                    assert(text::is_digit(number[k]));
                }
            }
        }
    }
    law_split_restores(pieces, '/');
    lemma_last_position(report.part, report.serial, '-');
    assert(identity.take(report.part.len() as int) =~= report.part);
    assert(identity.skip((report.part.len() + 1) as int) =~= report.serial);
    assert(file_name.subrange(number.len() as int, file_name.len() as int) =~= ".json"@);
    assert(file_name.take(number.len() as int) =~= number);
    assert(text::strip_suffix(file_name, ".json"@) == Some(number));
    law_path_grammars_nest(report_path(report));
}

/// An ereport without a class is never passed over.
pub proof fn law_missing_class_is_kept(patterns: Seq<Pattern>)
    ensures
        !ereport::passed_over(None, patterns),
{
}

/// Without patterns no ereport is passed over.
pub proof fn law_no_class_patterns_keep_all(class: Option<Seq<char>>)
    ensures
        !ereport::passed_over(class, Seq::empty()),
{
}

/// An ereport that a walk keeps: its class comes from its contents and is not
/// one to be passed over, and its path is that of a candidate.
pub open spec fn is_kept(entry: Entry, candidates: Seq<Candidate>, class: Seq<Pattern>) -> bool {
    &&& entry.class == ereport::class_in(entry.contents)
    &&& !ereport::passed_over(entry.class, class)
    &&& exists|i: int|
        0 <= i < candidates.len() && (#[trigger] candidates[i]).path == entry.path
            && candidates[i].metadata == entry.metadata
}

/// A walk keeps what was kept before and adds only ereports that the filter
/// selects, whatever the source answers.
pub proof fn law_walk_keeps_selected(
    candidates: Seq<Candidate>,
    i: int,
    class: Seq<Pattern>,
    access: Access,
    h: Seq<SourceCall>,
    p: int,
    before: Seq<Entry>,
)
    requires
        0 <= i,
    ensures
        match ereport::walked(candidates, i, class, access, h, p, before) {
            Some(((kept, _), _)) => {
                &&& source::continues(before, kept)
                &&& forall|k: int|
                    before.len() <= k < kept.len() ==> is_kept(
                        #[trigger] kept[k],
                        candidates,
                        class,
                    )
            },
            None => true,
        },
    decreases candidates.len() - i,
{
    if i < candidates.len() {
        match ereport::report_loaded(h, p, candidates[i], access) {
            Some((Ok(contents), q)) => {
                let entry = ereport::entry_of(candidates[i], contents);
                let next = if ereport::passed_over(entry.class, class) {
                    before
                } else {
                    before.push(entry)
                };
                law_walk_keeps_selected(candidates, i + 1, class, access, h, q, next);
                if !ereport::passed_over(entry.class, class) {
                    assert(is_kept(entry, candidates, class));
                    match ereport::walked(candidates, i + 1, class, access, h, q, next) {
                        Some(((kept, _), _)) => {
                            assert(kept[before.len() as int] == next[before.len() as int]);
                            assert forall|k: int| 0 <= k < before.len() implies #[trigger] kept[k]
                                == before[k] by {
                                assert(kept[k] == next[k]);
                            }
                        },
                        None => {},
                    }
                }
            },
            _ => {},
        }
    }
}

/// The candidates are the listed files whose paths are those of ereports of a
/// selected part and serial number, all of them, in the order of the listing.
pub proof fn law_candidates_are_selected(
    names: Seq<Seq<char>>,
    n: int,
    part: Seq<Pattern>,
    serial: Seq<Pattern>,
    access: Access,
)
    requires
        0 <= n <= names.len(),
    ensures
        forall|k: int|
            0 <= k < ereport::candidates(names, n, part, serial, access).len() ==> {
                let c = #[trigger] ereport::candidates(names, n, part, serial, access)[k];
                &&& 0 <= c.index < n && names[c.index] == c.path
                &&& ereport::report_of(c.path, access) == Some(c.metadata)
                &&& pattern::selects(part, c.metadata.part)
                &&& pattern::selects(serial, c.metadata.serial)
            },
        forall|j: int, k: int|
            0 <= j < k < ereport::candidates(names, n, part, serial, access).len() ==> (
            #[trigger] ereport::candidates(names, n, part, serial, access)[j]).index < (
            #[trigger] ereport::candidates(names, n, part, serial, access)[k]).index,
        forall|i: int|
            0 <= i < n && (#[trigger] ereport::report_of(names[i], access) matches Some(m)
                && pattern::selects(part, m.part) && pattern::selects(serial, m.serial))
                ==> exists|k: int|
                0 <= k < ereport::candidates(names, n, part, serial, access).len() && (
                #[trigger] ereport::candidates(names, n, part, serial, access)[k]).index == i,
    decreases n,
{
    if n > 0 {
        law_candidates_are_selected(names, n - 1, part, serial, access);
        let earlier = ereport::candidates(names, n - 1, part, serial, access);
        let all = ereport::candidates(names, n, part, serial, access);
        assert forall|i: int|
            0 <= i < n && (#[trigger] ereport::report_of(names[i], access) matches Some(m)
                && pattern::selects(part, m.part) && pattern::selects(
                serial,
                m.serial,
            )) implies exists|k: int| 0 <= k < all.len() && (#[trigger] all[k]).index == i by {
            if i < n - 1 {
                let k = choose|k: int|
                    0 <= k < earlier.len() && (#[trigger] earlier[k]).index == i;
                assert(all[k] == earlier[k]);
            } else {
                assert(all[all.len() - 1].index == i);
            }
        }
    }
}

/// The bytes that the reads among the requests from `p` up to `q` gave.
pub open spec fn chunks(h: Seq<SourceCall>, p: int, q: int) -> Seq<u8>
    decreases q - p,
{
    if p >= q {
        Seq::empty()
    } else {
        (match h[p] {
            SourceCall::Read { chunk: Ok(b), .. } => b,
            _ => Seq::empty(),
        }) + chunks(h, p + 1, q)
    }
}

/// Reading a file to its end gives all of its bytes, once and in order; after an
/// error, those that were read before it.
pub proof fn law_drain_gives_everything(h: Seq<SourceCall>, p: int, got: Seq<u8>)
    requires
        0 <= p,
    ensures
        match reader::drained(h, p, got) {
            Some(((b, _), q)) => p < q <= h.len() && b == got + chunks(h, p, q),
            None => true,
        },
    decreases h.len() - p,
{
    match source::reading(h, p, reader::CHUNK as nat) {
        Some(Ok(b)) => {
            if b.len() > 0 {
                law_drain_gives_everything(h, p + 1, got + b);
                match reader::drained(h, p, got) {
                    Some(((all, _), q)) => {
                        assert(got + chunks(h, p, q) =~= (got + b) + chunks(h, p + 1, q));
                    },
                    None => {},
                }
            } else {
                assert(chunks(h, p + 1, p + 1) =~= Seq::empty());
                assert(got + chunks(h, p, p + 1) =~= got);
            }
        },
        Some(Err(e)) => {
            assert(chunks(h, p + 1, p + 1) =~= Seq::empty());
            assert(got + chunks(h, p, p + 1) =~= got);
        },
        None => {},
    }
}

/// Where the newlines stand: in ascending order, at every newline and nowhere
/// else.
pub proof fn law_newlines(b: Seq<u8>)
    ensures
        forall|i: int|
            0 <= i < reader::newlines(b).len() ==> 0 <= #[trigger] reader::newlines(b)[i] < b.len()
                && b[reader::newlines(b)[i]] == reader::NEWLINE,
        forall|i: int, j: int|
            0 <= i < j < reader::newlines(b).len() ==> #[trigger] reader::newlines(b)[i]
                < #[trigger] reader::newlines(b)[j],
        forall|k: int|
            0 <= k < b.len() && #[trigger] b[k] == reader::NEWLINE ==> reader::newlines(b).contains(k),
    decreases b.len(),
{
    if b.len() > 0 {
        let front = b.drop_last();
        law_newlines(front);
        assert forall|k: int|
            0 <= k < b.len() && #[trigger] b[k] == reader::NEWLINE implies reader::newlines(
            b,
        ).contains(k) by {
            if k < b.len() - 1 {
                assert(front[k] == reader::NEWLINE);
                let j = choose|j: int|
                    0 <= j < reader::newlines(front).len() && reader::newlines(front)[j] == k;
                assert(reader::newlines(b)[j] == k);
            } else {
                assert(reader::newlines(b)[reader::newlines(b).len() - 1] == k);
            }
        }
    }
}

/// The newlines of two pieces of a file, one behind the other.
pub proof fn lemma_newlines_concat(a: Seq<u8>, b: Seq<u8>)
    ensures
        reader::newlines(a + b) == reader::newlines(a) + reader::newlines(b).map_values(
            |i: int| i + a.len(),
        ),
    decreases b.len(),
{
    let shift = |i: int| i + a.len();
    if b.len() == 0 {
        assert(a + b =~= a);
        assert(reader::newlines(a) + reader::newlines(b).map_values(shift) =~= reader::newlines(a));
    } else {
        lemma_newlines_concat(a, b.drop_last());
        assert((a + b).drop_last() =~= a + b.drop_last());
        assert((a + b).last() == b.last());
        if b.last() == reader::NEWLINE {
            assert(reader::newlines(b).map_values(shift) =~= reader::newlines(
                b.drop_last(),
            ).map_values(shift).push(a.len() + b.len() - 1));
        }
        assert(reader::newlines(a + b) =~= reader::newlines(a) + reader::newlines(b).map_values(
            shift,
        ));
    }
}

/// The first lines of a file are known once a piece of it holds that many
/// newlines: what follows does not change them. Otherwise they are that piece
/// and the remaining lines of what follows.
pub proof fn law_first_lines_of_pieces(a: Seq<u8>, b: Seq<u8>, n: nat)
    ensures
        n <= reader::newlines(a).len() ==> reader::first_lines(a + b, n) == reader::first_lines(a, n),
        n > reader::newlines(a).len() ==> reader::first_lines(a + b, n) == a + reader::first_lines(
            b,
            (n - reader::newlines(a).len()) as nat,
        ),
{
    lemma_newlines_concat(a, b);
    law_newlines(a);
    law_newlines(b);
    let all = reader::newlines(a + b);
    let count = reader::newlines(a).len();
    if n == 0 {
    } else if n <= count {
        let end = reader::newlines(a)[n - 1] + 1;
        assert(all[n - 1] == reader::newlines(a)[n - 1]);
        assert((a + b).take(end) =~= a.take(end));
    } else if n <= all.len() {
        let m = n - count;
        assert(all[n - 1] == reader::newlines(b)[m - 1] + a.len());
        let end = reader::newlines(b)[m - 1] + 1;
        assert((a + b).take(a.len() + end) =~= a + b.take(end));
    }
}

/// The first lines of a file are a beginning of it, with as many newlines as
/// were asked for, or all of it where it has fewer.
pub proof fn law_first_lines(b: Seq<u8>, n: nat)
    ensures
        reader::first_lines(b, n).len() <= b.len(),
        reader::first_lines(b, n) == b.take(reader::first_lines(b, n).len() as int),
        reader::newlines(reader::first_lines(b, n)).len() == (if n <= reader::newlines(b).len() {
            n
        } else {
            reader::newlines(b).len()
        }),
        0 < n <= reader::newlines(b).len() ==> reader::first_lines(b, n).last() == reader::NEWLINE,
{
    law_newlines(b);
    if n == 0 {
        assert(b.take(0) =~= Seq::empty());
    } else if n <= reader::newlines(b).len() {
        let end = reader::newlines(b)[n - 1] + 1;
        let a = b.take(end);
        let rest = b.skip(end);
        assert(a + rest =~= b);
        lemma_newlines_concat(a, rest);
        law_newlines(a);
        law_newlines(rest);
        let count = reader::newlines(a).len();
        assert(a[end - 1] == reader::NEWLINE);
        let j = choose|j: int| 0 <= j < count && reader::newlines(a)[j] == end - 1;
        assert(reader::newlines(b)[j] == reader::newlines(a)[j]);
        if j < n - 1 {
            assert(reader::newlines(b)[j] < reader::newlines(b)[n - 1]);
        } else if j > n - 1 {
            assert(reader::newlines(b)[n - 1] < reader::newlines(b)[j]);
        }
        if count > n {
            assert(reader::newlines(a)[n - 1] < reader::newlines(a)[n as int]);
        }
    } else {
        assert(b.take(b.len() as int) =~= b);
    }
}

/// The file had ended when request `p` was answered.
pub open spec fn ended_at(h: Seq<SourceCall>, p: int) -> bool {
    0 <= p < h.len() && (h[p] matches SourceCall::Read { chunk: Ok(b), .. } && b.len() == 0)
}

/// Showing the head of a file writes the first lines of what was read of it,
/// however the source cut it into pieces, and reads until it has those lines or
/// the file ends.
pub proof fn law_head_writes_first_lines(h: Seq<SourceCall>, p: int, n: nat, out: Seq<u8>)
    requires
        0 <= p,
        n > 0,
    ensures
        match reader::headed(h, p, n, out) {
            Some(((written, None), q)) => {
                &&& p < q <= h.len()
                &&& written == out + reader::first_lines(chunks(h, p, q), n)
                &&& n <= reader::newlines(chunks(h, p, q)).len() || ended_at(h, q - 1)
            },
            _ => true,
        },
    decreases h.len() - p,
{
    match source::reading(h, p, reader::CHUNK as nat) {
        Some(Ok(b)) => {
            let empty = Seq::<u8>::empty();
            assert(chunks(h, p + 1, p + 1) =~= empty);
            assert(b + empty =~= b);
            if b.len() == 0 {
                assert(chunks(h, p, p + 1) =~= empty);
                assert(out + reader::first_lines(empty, n) =~= out);
            } else if n <= reader::newlines(b).len() {
                assert(chunks(h, p, p + 1) =~= b);
            } else {
                let m = (n - reader::newlines(b).len()) as nat;
                law_head_writes_first_lines(h, p + 1, m, out + b);
                match reader::headed(h, p, n, out) {
                    Some(((written, None), q)) => {
                        let rest = chunks(h, p + 1, q);
                        law_first_lines_of_pieces(b, rest, n);
                        lemma_newlines_concat(b, rest);
                        assert(out + (b + reader::first_lines(rest, m)) =~= (out + b)
                            + reader::first_lines(rest, m));
                    },
                    _ => {},
                }
            }
        },
        _ => {},
    }
}

/// The part of a file that was read already does not change what is shown: the
/// first lines of the file, or all of it, are written once, beginning with that
/// part.
pub proof fn law_read_part_is_shown_once(
    h: Seq<SourceCall>,
    p: int,
    cached: Option<Seq<u8>>,
    line_ct: Option<nat>,
    out: Seq<u8>,
)
    requires
        0 <= p,
        line_ct != Some(0nat),
    ensures
        match reader::shown(h, p, cached, line_ct, out) {
            Some(((written, None), q)) => {
                let held = match cached {
                    Some(b) => b,
                    None => Seq::empty(),
                };
                let file = held + chunks(h, p, q);
                match line_ct {
                    Some(n) => {
                        &&& written == out + reader::first_lines(file, n)
                        &&& n <= reader::newlines(file).len() || ended_at(h, q - 1)
                    },
                    None => written == out + file && ended_at(h, q - 1),
                }
            },
            _ => true,
        },
{
    let empty = Seq::<u8>::empty();
    let held = match cached {
        Some(b) => b,
        None => empty,
    };
    match line_ct {
        Some(n) => {
            let count = reader::newlines(held).len();
            if n > count || cached is None {
                let m = if cached is None { n } else { (n - count) as nat };
                law_head_writes_first_lines(h, p, m, out + held);
                assert(out + empty =~= out);
                match reader::shown(h, p, cached, line_ct, out) {
                    Some(((written, None), q)) => {
                        let rest = chunks(h, p, q);
                        law_first_lines_of_pieces(held, rest, n);
                        lemma_newlines_concat(held, rest);
                        assert(empty + rest =~= rest);
                        assert(out + (held + reader::first_lines(rest, m)) =~= (out + held)
                            + reader::first_lines(rest, m));
                    },
                    _ => {},
                }
            } else {
                assert(chunks(h, p, p) =~= empty);
                assert(held + empty =~= held);
            }
        },
        None => {
            assert(out + empty =~= out);
            law_drain_gives_everything(h, p, out + held);
            lemma_drain_ends(h, p, out + held);
            match reader::shown(h, p, cached, line_ct, out) {
                Some(((written, None), q)) => {
                    assert((out + held) + chunks(h, p, q) =~= out + (held + chunks(h, p, q)));
                },
                _ => {},
            }
        },
    }
}

proof fn lemma_drain_ends(h: Seq<SourceCall>, p: int, got: Seq<u8>)
    requires
        0 <= p,
    ensures
        match reader::drained(h, p, got) {
            Some(((_, None), q)) => ended_at(h, q - 1),
            _ => true,
        },
    decreases h.len() - p,
{
    match source::reading(h, p, reader::CHUNK as nat) {
        Some(Ok(b)) => {
            if b.len() > 0 {
                lemma_drain_ends(h, p + 1, got + b);
            }
        },
        _ => {},
    }
}

/// Timestamps from before 2001 lie in no window.
pub proof fn law_nothing_before_2001(ts: int, before: Option<int>, after: Option<int>)
    requires
        ts < time::JANUARY_1_2001,
    ensures
        !time::in_window(ts, before, after),
{
}

/// Narrowing a window takes nothing new in.
pub proof fn law_windows_are_monotone(
    ts: int,
    before: int,
    after: int,
    wider_before: int,
    wider_after: int,
)
    requires
        before <= wider_before,
        wider_after <= after,
        time::in_window(ts, Some(before), Some(after)),
    ensures
        time::in_window(ts, Some(wider_before), Some(wider_after)),
{
}

/// A missing bound leaves out nothing: a window without bounds holds every
/// instant from 2001 on, and a window with one bound holds what that bound lets
/// through.
pub proof fn law_missing_bounds_leave_out_nothing(ts: int, bound: int)
    requires
        ts >= time::JANUARY_1_2001,
    ensures
        time::in_window(ts, None, None),
        time::in_window(ts, Some(bound), None) <==> ts < bound,
        time::in_window(ts, None, Some(bound)) <==> ts > bound,
{
}

/// The time that is found in the contents of a log is from 2001 or later.
pub proof fn law_content_times_are_recent<F: Fn(&[u8]) -> Option<Timestamp>>(
    decode: F,
    lines: Seq<Seq<u8>>,
    i: int,
)
    ensures
        match logs::first_time(decode, lines, i) {
            Some(t) => t >= time::JANUARY_1_2001,
            None => true,
        },
    decreases lines.len() - i,
{
    if 0 <= i < lines.len() {
        law_content_times_are_recent(decode, lines, i + 1);
    }
}

/// The time of a log is the one in its contents; without one, that in its file
/// name; without one, that of its last change.
pub proof fn law_time_precedence(
    in_contents: Option<int>,
    in_name: Option<int>,
    modified: Option<int>,
)
    ensures
        in_contents is Some ==> logs::first_known(in_contents, in_name, modified) == in_contents,
        in_contents is None && in_name is Some ==> logs::first_known(in_contents, in_name, modified)
            == in_name,
        in_contents is None && in_name is None ==> logs::first_known(in_contents, in_name, modified)
            == modified,
{
}

/// With a time filter the metadata of a log are asked for before it is opened;
/// without one they are not asked for.
pub proof fn law_metadata_before_open<F: Fn(&[u8]) -> Option<Timestamp>>(
    h: Seq<SourceCall>,
    p: int,
    log: Log,
    window: Window,
    decode: F,
    manner: Manner,
)
    requires
        logs::opened(h, p, log, window, decode, manner) is Some,
    ensures
        ({
            let (outcome, q) = logs::opened(h, p, log, window, decode, manner)->0;
            if window.0 is None && window.1 is None {
                &&& q == p + 1
                &&& source::opening(h, p, log.path) is Some
            } else {
                &&& source::metadata_of(h, p, log.path) is Some
                &&& outcome is Ok ==> (source::opening(h, p + 1, log.path) matches Some(reply)
                    && reply is Ok)
            }
        }),
{
}

/// The logs that a filter selects are listed files of known sleds that its
/// patterns take.
pub proof fn law_selected_logs(
    names: Seq<Seq<char>>,
    n: int,
    sleds: Map<Seq<char>, Sled>,
    choice: Choice,
)
    requires
        0 <= n <= names.len(),
    ensures
        forall|k: int|
            0 <= k < logs::selected(names, n, sleds, choice).len() ==> {
                let log = #[trigger] logs::selected(names, n, sleds, choice)[k];
                &&& log_file::log_of(log.path) == Some(log)
                &&& names.contains(log.path)
                &&& sleds.contains_key(log.sled_uuid)
                &&& logs::takes(choice, log, sleds[log.sled_uuid])
            },
        forall|i: int|
            0 <= i < n && (#[trigger] log_file::log_of(names[i]) matches Some(log)
                && sleds.contains_key(log.sled_uuid) && logs::takes(
                choice,
                log,
                sleds[log.sled_uuid],
            )) ==> logs::selected(names, n, sleds, choice).contains(
                log_file::log_of(names[i])->0,
            ),
    decreases n,
{
    if n > 0 {
        law_selected_logs(names, n - 1, sleds, choice);
        let earlier = logs::selected(names, n - 1, sleds, choice);
        let all = logs::selected(names, n, sleds, choice);
        assert(names.contains(names[n - 1]));
        assert forall|i: int|
            0 <= i < n && (#[trigger] log_file::log_of(names[i]) matches Some(log)
                && sleds.contains_key(log.sled_uuid) && logs::takes(
                choice,
                log,
                sleds[log.sled_uuid],
            )) implies all.contains(log_file::log_of(names[i])->0) by {
            let log = log_file::log_of(names[i])->0;
            if i < n - 1 {
                assert(earlier.contains(log));
                let k = choose|k: int| 0 <= k < earlier.len() && earlier[k] == log;
                assert(all[k] == log);
            } else {
                assert(all[all.len() - 1] == log);
            }
        }
    }
}

/// A filter without patterns takes every log of every sled.
pub proof fn law_no_patterns_take_all(choice: Choice, log: Log, sled: Sled)
    requires
        choice.sled.len() == 0,
        choice.service.len() == 0,
        choice.zone.len() == 0,
        choice.path.len() == 0,
    ensures
        logs::takes(choice, log, sled),
{
}

/// A number selects the sled in that cubby and no other sled whose cubby is
/// known.
pub proof fn law_number_selects_cubby(pattern: Seq<char>, n: nat, sled: Sled)
    requires
        text::unsigned_value(pattern, 0xffff) == Some(n),
        sled.cubby is Some,
    ensures
        sled::sled_matches(pattern, sled) <==> sled.cubby == Some(n as u16),
{
}

/// Index `a` belongs before index `b`: by cubby, and within a cubby by position.
pub open spec fn belongs_before(cubbies: Seq<Option<u16>>, a: int, b: int) -> bool {
    sled::rank(cubbies[a]) < sled::rank(cubbies[b]) || (sled::rank(cubbies[a]) == sled::rank(
        cubbies[b],
    ) && a < b)
}

/// The list holds the indices below `n`, each once, in the order of their
/// cubbies and within a cubby by position.
pub open spec fn is_stable_order(cubbies: Seq<Option<u16>>, order: Seq<int>, n: int) -> bool {
    &&& order.len() == n
    &&& forall|k: int| 0 <= k < n ==> 0 <= #[trigger] order[k] < n
    &&& forall|i: int| 0 <= i < n ==> #[trigger] order.contains(i)
    &&& forall|j: int, k: int|
        0 <= j < k < n ==> belongs_before(cubbies, #[trigger] order[j], #[trigger] order[k])
}

proof fn lemma_placed_in_order(order: Seq<int>, cubbies: Seq<Option<u16>>, i: int)
    requires
        forall|k: int| 0 <= k < order.len() ==> 0 <= #[trigger] order[k] < i,
        forall|j: int, k: int|
            0 <= j < k < order.len() ==> belongs_before(
                cubbies,
                #[trigger] order[j],
                #[trigger] order[k],
            ),
    ensures
        ({
            let new = sled::placed(order, cubbies, i);
            &&& new.len() == order.len() + 1
            &&& forall|k: int|
                0 <= k < new.len() ==> #[trigger] new[k] == i || order.contains(new[k])
            &&& new.contains(i)
            &&& forall|x: int| order.contains(x) ==> #[trigger] new.contains(x)
            &&& forall|j: int, k: int|
                0 <= j < k < new.len() ==> belongs_before(
                    cubbies,
                    #[trigger] new[j],
                    #[trigger] new[k],
                )
        }),
    decreases order.len(),
{
    let new = sled::placed(order, cubbies, i);
    if order.len() > 0 && sled::rank(cubbies[order.last()]) > sled::rank(cubbies[i]) {
        let front = order.drop_last();
        lemma_placed_in_order(front, cubbies, i);
        let shorter = sled::placed(front, cubbies, i);
        assert(new == shorter.push(order.last()));
        assert forall|k: int| 0 <= k < new.len() implies #[trigger] new[k] == i || order.contains(
            new[k],
        ) by {
            if k < shorter.len() {
                assert(new[k] == shorter[k]);
                if shorter[k] != i {
                    let m = choose|m: int| 0 <= m < front.len() && front[m] == shorter[k];
                    assert(order[m] == new[k]);
                }
            } else {
                assert(order[order.len() - 1] == new[k]);
            }
        }
        let at = choose|at: int| 0 <= at < shorter.len() && shorter[at] == i;
        assert(new[at] == i);
        assert forall|x: int| order.contains(x) implies #[trigger] new.contains(x) by {
            let m = choose|m: int| 0 <= m < order.len() && order[m] == x;
            if m < front.len() {
                assert(front[m] == x);
                assert(shorter.contains(x));
                let q = choose|q: int| 0 <= q < shorter.len() && shorter[q] == x;
                assert(new[q] == x);
            } else {
                assert(new[new.len() - 1] == x);
            }
        }
        assert forall|j: int, k: int| 0 <= j < k < new.len() implies belongs_before(
            cubbies,
            #[trigger] new[j],
            #[trigger] new[k],
        ) by {
            assert(new[j] == shorter[j]);
            if k < shorter.len() {
                assert(new[k] == shorter[k]);
            } else if shorter[j] != i {
                let m = choose|m: int| 0 <= m < front.len() && front[m] == shorter[j];
                assert(belongs_before(cubbies, order[m], order[order.len() - 1]));
            }
        }
    } else {
        assert(new == order.push(i));
        assert(new[order.len() as int] == i);
        assert forall|k: int| 0 <= k < new.len() implies #[trigger] new[k] == i || order.contains(
            new[k],
        ) by {
            if k < order.len() {
                assert(order[k] == new[k]);
            }
        }
        assert forall|x: int| order.contains(x) implies #[trigger] new.contains(x) by {
            let m = choose|m: int| 0 <= m < order.len() && order[m] == x;
            assert(new[m] == x);
        }
        assert forall|j: int, k: int| 0 <= j < k < new.len() implies belongs_before(
            cubbies,
            #[trigger] new[j],
            #[trigger] new[k],
        ) by {
            assert(new[j] == order[j]);
            if k < order.len() {
                assert(new[k] == order[k]);
            } else if j < order.len() - 1 {
                assert(belongs_before(cubbies, order[j], order[order.len() - 1]));
            }
        }
    }
}

/// The sled listings are sorted by cubby, sleds without a cubby first, and
/// sleds of the same cubby stay in the order of the inventory.
pub proof fn law_listing_order(cubbies: Seq<Option<u16>>, n: nat)
    requires
        n <= cubbies.len(),
    ensures
        is_stable_order(cubbies, sled::by_cubby(cubbies, n), n as int),
    decreases n,
{
    if n > 0 {
        let m = (n - 1) as nat;
        law_listing_order(cubbies, m);
        let order = sled::by_cubby(cubbies, m);
        let new = sled::by_cubby(cubbies, n);
        lemma_placed_in_order(order, cubbies, n - 1);
        assert forall|k: int| 0 <= k < n implies 0 <= #[trigger] new[k] < n by {
            if new[k] != n - 1 {
                let j = choose|j: int| 0 <= j < order.len() && order[j] == new[k];
                assert(0 <= order[j] < m);
            }
        }
        assert forall|i: int| 0 <= i < n implies #[trigger] new.contains(i) by {
            if i < m {
                assert(order.contains(i));
            }
        }
    }
}

/// The paths of the logs from number `i` on, each on a line of its own.
pub open spec fn path_lines(logs: Seq<Log>, i: int) -> Seq<u8>
    decreases logs.len() - i,
{
    if i < 0 || i >= logs.len() {
        Seq::empty()
    } else {
        vstd::utf8::encode_utf8(logs[i].path + "\n"@) + path_lines(logs, i + 1)
    }
}

/// A listing without a time filter writes the path of every selected log, and
/// reads none of them.
pub proof fn law_listing_writes_paths<F: Fn(&[u8]) -> Option<Timestamp>>(
    all: Seq<Log>,
    i: int,
    decode: F,
    manner: Manner,
    style: logs::Style,
    h: Seq<SourceCall>,
    p: int,
    out: Seq<u8>,
)
    requires
        0 <= i <= all.len(),
        style.list,
    ensures
        match logs::ran(all, i, (None, None), decode, manner, style, false, h, p, out) {
            Some(((logs::Halt::Finished(None), written), q)) => {
                &&& written == out + path_lines(all, i)
                &&& q == p + (all.len() - i)
            },
            _ => true,
        },
    decreases all.len() - i,
{
    if i < all.len() {
        let here = vstd::utf8::encode_utf8(all[i].path + "\n"@);
        law_listing_writes_paths(all, i + 1, decode, manner, style, h, p + 1, out + here);
        assert((out + here) + path_lines(all, i + 1) =~= out + path_lines(all, i));
    } else {
        assert(out + path_lines(all, i) =~= out);
    }
}

/// A boxed source lists and records what the source in the box does.
pub proof fn law_boxed_source_forwards<T: BundleSource + ?Sized>(source: Box<T>)
    ensures
        source.names() == (*source).names(),
        source.calls() == (*source).calls(),
{
}

/// A bundle names finitely many zones and services of a sled, and the sorted
/// lists of them are ascending and complete.
pub proof fn law_zones_and_services_are_sorted(
    all: Seq<Seq<char>>,
    layout: Layout,
    uuid: Seq<char>,
)
    ensures
        inventory::zones_of(all, layout, uuid).finite(),
        inventory::services_of(all, layout, uuid).finite(),
        names::ascending(names::sorted(inventory::zones_of(all, layout, uuid))),
        names::ascending(names::sorted(inventory::services_of(all, layout, uuid))),
        names::sorted(inventory::zones_of(all, layout, uuid)).to_set() == inventory::zones_of(
            all,
            layout,
            uuid,
        ),
        names::sorted(inventory::services_of(all, layout, uuid)).to_set() == inventory::services_of(
            all,
            layout,
            uuid,
        ),
    decreases all.len(),
{
    let zones = inventory::zones_of(all, layout, uuid);
    let services = inventory::services_of(all, layout, uuid);
    if all.len() == 0 {
        assert(zones =~= Set::empty());
        assert(services =~= Set::empty());
    } else {
        let front = all.drop_last();
        let last = all.last();
        law_zones_and_services_are_sorted(front, layout, uuid);
        assert(all =~= front.push(last));
        assert forall|x: Seq<char>| true implies (#[trigger] zones.contains(x)
            <==> inventory::has_zone(front.push(last), layout, uuid, x)) && (services.contains(x)
            <==> inventory::has_service(front.push(last), layout, uuid, x)) by {
        }
        let a = inventory::zones_of(front, layout, uuid);
        let b = inventory::services_of(front, layout, uuid);
        assert forall|x: Seq<char>| true implies #[trigger] inventory::has_zone(
            front.push(last),
            layout,
            uuid,
            x,
        ) == (a.contains(x) || (inventory::spot_of(last, layout) matches Some(s) && s.sled == uuid
            && s.zone == Some(x))) by {
            inventory::lemma_one_more(front, last, layout, uuid, x);
        }
        assert forall|x: Seq<char>| true implies #[trigger] inventory::has_service(
            front.push(last),
            layout,
            uuid,
            x,
        ) == (b.contains(x) || (inventory::spot_of(last, layout) matches Some(s) && s.sled == uuid
            && s.service == Some(x))) by {
            inventory::lemma_one_more(front, last, layout, uuid, x);
        }
        match inventory::spot_of(last, layout) {
            Some(spot) if spot.sled == uuid => {
                match spot.zone {
                    Some(z) => {
                        assert(zones =~= a.insert(z));
                    },
                    None => {
                        assert(zones =~= a);
                    },
                }
                match spot.service {
                    Some(z) => {
                        assert(services =~= b.insert(z));
                    },
                    None => {
                        assert(services =~= b);
                    },
                }
            },
            _ => {
                assert(zones =~= a);
                assert(services =~= b);
            },
        }
    }
    names::lemma_sorted_of_finite(zones);
    names::lemma_sorted_of_finite(services);
}

/// Every sled stands under its UUID, with ascending lists of zones and services.
pub open spec fn is_sound(sleds: Map<Seq<char>, Sled>) -> bool {
    forall|uuid: Seq<char>| #[trigger]
        sleds.contains_key(uuid) ==> {
            &&& sleds[uuid].uuid == uuid
            &&& names::ascending(sleds[uuid].zones)
            &&& names::ascending(sleds[uuid].services)
        }
}

proof fn lemma_sleds_are_sound(
    all: Seq<Seq<char>>,
    layout: Layout,
    paths: Seq<Seq<char>>,
    i: int,
    h: Seq<SourceCall>,
    p: int,
    sleds: Map<Seq<char>, Sled>,
)
    requires
        0 <= i,
        is_sound(sleds),
    ensures
        match inventory::sleds_read(all, layout, paths, i, h, p, sleds) {
            Some((Ok(read), _)) => is_sound(read),
            _ => true,
        },
    decreases paths.len() - i,
{
    if i < paths.len() {
        match inventory::record_loaded(h, p, paths[i], layout) {
            Some((Ok(contents), q)) => match sled::sled_txt(contents) {
                Some((serial, is_scrimlet)) => {
                    let uuid = inventory::uuid_in(paths[i]);
                    let new = inventory::sled_of(all, layout, paths, i, serial, is_scrimlet);
                    law_zones_and_services_are_sorted(all, layout, uuid);
                    lemma_sleds_are_sound(
                        all,
                        layout,
                        paths,
                        i + 1,
                        h,
                        q,
                        sleds.insert(uuid, new),
                    );
                },
                None => {},
            },
            _ => {},
        }
    }
}

/// What `sled_info.json` adds: no sled comes or goes, nothing but a cubby
/// changes, and the unhealthy sleds are those of the records without a UUID.
pub proof fn law_sled_info_sets_cubbies_only(info: Inventory, ids: Seq<Identity>, n: int)
    requires
        0 <= n <= ids.len(),
    ensures
        inventory::assigned(info, ids, n).sleds.dom() == info.sleds.dom(),
        forall|uuid: Seq<char>| #[trigger]
            info.sleds.contains_key(uuid) ==> inventory::assigned(info, ids, n).sleds[uuid] == (
            Sled {
                cubby: inventory::assigned(info, ids, n).sleds[uuid].cubby,
                ..info.sleds[uuid]
            }),
        forall|serial: Seq<char>| #[trigger]
            inventory::assigned(info, ids, n).unhealthy.contains_key(serial) <==> (
            info.unhealthy.contains_key(serial) || exists|k: int|
                0 <= k < n && (#[trigger] ids[k]).serial == serial && ids[k].uuid is None),
    decreases n,
{
    if n > 0 {
        law_sled_info_sets_cubbies_only(info, ids, n - 1);
        let earlier = inventory::assigned(info, ids, n - 1);
        let now = inventory::assigned(info, ids, n);
        assert(now.sleds.dom() =~= info.sleds.dom());
        assert forall|serial: Seq<char>| #[trigger]
            now.unhealthy.contains_key(serial) <==> (info.unhealthy.contains_key(serial)
                || exists|k: int|
                0 <= k < n && (#[trigger] ids[k]).serial == serial && ids[k].uuid is None) by {
            if earlier.unhealthy.contains_key(serial) && !info.unhealthy.contains_key(serial) {
                let k = choose|k: int|
                    0 <= k < n - 1 && (#[trigger] ids[k]).serial == serial && ids[k].uuid is None;
                assert(ids[k].serial == serial);
            }
            if ids[n - 1].uuid is None && ids[n - 1].serial == serial {
                assert(now.unhealthy.contains_key(serial));
            }
        }
    } else {
        assert(info.sleds.dom() =~= inventory::assigned(info, ids, n).sleds.dom());
    }
}

/// In every inventory that was read each sled stands under its UUID, with
/// ascending lists of zones and services, whatever the source answered.
pub proof fn law_inventory_is_sound<D: Fn(&[u8], bool) -> inventory::Decoded>(
    all: Seq<Seq<char>>,
    layout: Layout,
    decode: D,
    h: Seq<SourceCall>,
    p: int,
)
    ensures
        match inventory::inventory_read(all, layout, decode, h, p) {
            Some((Ok((info, _)), _)) => is_sound(info.sleds),
            _ => true,
        },
{
    let paths = inventory::records(all, all.len() as int, layout);
    lemma_sleds_are_sound(all, layout, paths, 0, h, p, Map::empty());
    match inventory::sleds_read(all, layout, paths, 0, h, p, Map::empty()) {
        Some((Ok(sleds), q)) => {
            let info = Inventory { sleds, unhealthy: Map::empty() };
            match inventory::inventory_read(all, layout, decode, h, p) {
                Some((Ok((read, _)), _)) => {
                    if read != info {
                        let ids = choose|ids: Seq<Identity>|
                            read == #[trigger] inventory::assigned(info, ids, ids.len() as int);
                        law_sled_info_sets_cubbies_only(info, ids, ids.len() as int);
                        assert forall|uuid: Seq<char>| #[trigger]
                            read.sleds.contains_key(uuid) implies read.sleds[uuid].uuid == uuid
                            && names::ascending(read.sleds[uuid].zones) && names::ascending(
                            read.sleds[uuid].services,
                        ) by {
                            assert(info.sleds.dom().contains(uuid));
                            assert(info.sleds.contains_key(uuid));
                        }
                    }
                },
                _ => {},
            }
        },
        _ => {},
    }
}

/// A malformed `sled_info.json` leaves the inventory as it is, with a warning;
/// one that is not listed leaves it as it is, without one, and is not asked
/// for.
pub proof fn law_sled_info_is_best_effort<D: Fn(&[u8], bool) -> inventory::Decoded>(
    layout: Layout,
    info: Inventory,
    complaint: Seq<char>,
    failure: Option<Chain>,
    decode: D,
    h: Seq<SourceCall>,
    p: int,
)
    ensures
        inventory::concluded(layout, info, Document::Malformed(complaint), failure) == Ok::<
            inventory::Warned,
            Chain,
        >((info, Some(inventory::warning(complaint)))),
        layout != Layout::Depth ==> inventory::completed(layout, false, decode, info, h, p) == Some(
            (Ok::<inventory::Warned, Chain>((info, None)), p),
        ),
{
}

/// A discovered file can be asked for: the name that its components make is a
/// valid path with those components.
pub proof fn law_discovered_names_are_valid(parts: Seq<Seq<char>>)
    requires
        parts.len() > 0,
        forall|i: int|
            0 <= i < parts.len() ==> directory::is_proper(#[trigger] parts[i]) && !parts[i].contains(
                '/',
            ),
    ensures
        text::split(text::join(parts, "/"@), '/') == parts,
        directory::is_valid_path(text::join(parts, "/"@)),
{
    reveal_strlit("/");
    assert("/"@ =~= seq!['/']);
    law_split_restores(parts, '/');
    let path = text::join(parts, "/"@);
    if path.len() == 0 {
        assert(text::split(path, '/') =~= seq![Seq::<char>::empty()]);
        assert(parts[0].len() == 0);
        assert(directory::is_proper(parts[0]));
    }
}

/// A path with an empty, a `.` or a `..` component is never valid.
pub proof fn law_traversal_is_invalid(path: Seq<char>, i: int)
    requires
        0 <= i < text::split(path, '/').len(),
        ({
            let part = text::split(path, '/')[i];
            part.len() == 0 || part == "."@ || part == ".."@
        }),
    ensures
        !directory::is_valid_path(path),
{
    assert(!directory::is_proper(text::split(path, '/')[i]));
}

/// Every sled has the zones and services that the names say it has logs of.
pub open spec fn holds_all_logs(
    sleds: Map<Seq<char>, Sled>,
    all: Seq<Seq<char>>,
    layout: Layout,
) -> bool {
    forall|uuid: Seq<char>| #[trigger]
        sleds.contains_key(uuid) ==> {
            &&& sleds[uuid].zones == names::sorted(inventory::zones_of(all, layout, uuid))
            &&& sleds[uuid].services == names::sorted(inventory::services_of(all, layout, uuid))
        }
}

proof fn lemma_sleds_of_records(
    all: Seq<Seq<char>>,
    layout: Layout,
    paths: Seq<Seq<char>>,
    i: int,
    h: Seq<SourceCall>,
    p: int,
    sleds: Map<Seq<char>, Sled>,
)
    requires
        0 <= i,
    ensures
        match inventory::sleds_read(all, layout, paths, i, h, p, sleds) {
            Some((Ok(read), _)) => {
                &&& forall|uuid: Seq<char>| #[trigger]
                    read.contains_key(uuid) <==> sleds.contains_key(uuid) || exists|k: int|
                        i <= k < paths.len() && inventory::uuid_in(#[trigger] paths[k]) == uuid
                &&& holds_all_logs(sleds, all, layout) && (forall|k: int|
                    0 <= k < paths.len() ==> !inventory::repeated(paths, k)) ==> holds_all_logs(
                    read,
                    all,
                    layout,
                )
            },
            _ => true,
        },
    decreases paths.len() - i,
{
    if i < paths.len() {
        match inventory::record_loaded(h, p, paths[i], layout) {
            Some((Ok(contents), q)) => match sled::sled_txt(contents) {
                Some((serial, is_scrimlet)) => {
                    let here = inventory::uuid_in(paths[i]);
                    let new = inventory::sled_of(all, layout, paths, i, serial, is_scrimlet);
                    let more = sleds.insert(here, new);
                    lemma_sleds_of_records(all, layout, paths, i + 1, h, q, more);
                    match inventory::sleds_read(all, layout, paths, i, h, p, sleds) {
                        Some((Ok(read), _)) => {
                            assert forall|uuid: Seq<char>| #[trigger]
                                read.contains_key(uuid) <==> sleds.contains_key(uuid)
                                    || exists|k: int|
                                    i <= k < paths.len() && inventory::uuid_in(#[trigger] paths[k])
                                        == uuid by {
                                if uuid == here {
                                    assert(more.contains_key(uuid));
                                    assert(inventory::uuid_in(paths[i]) == uuid);
                                }
                                if exists|k: int|
                                    i <= k < paths.len() && inventory::uuid_in(#[trigger] paths[k])
                                        == uuid {
                                    let k = choose|k: int|
                                        i <= k < paths.len() && inventory::uuid_in(
                                            #[trigger] paths[k],
                                        ) == uuid;
                                    if k == i {
                                        assert(uuid == here);
                                    }
                                }
                            }
                        },
                        _ => {},
                    }
                },
                None => {},
            },
            _ => {},
        }
    }
}

/// The inventory holds exactly the sleds with a record, and, where no two
/// records share a UUID, each with exactly the zones and services that the names
/// say it has logs of.
pub proof fn law_inventory_is_complete<D: Fn(&[u8], bool) -> inventory::Decoded>(
    all: Seq<Seq<char>>,
    layout: Layout,
    decode: D,
    h: Seq<SourceCall>,
    p: int,
)
    ensures
        ({
            let paths = inventory::records(all, all.len() as int, layout);
            match inventory::inventory_read(all, layout, decode, h, p) {
                Some((Ok((info, _)), _)) => {
                    &&& forall|uuid: Seq<char>| #[trigger]
                        info.sleds.contains_key(uuid) <==> exists|k: int|
                            0 <= k < paths.len() && inventory::uuid_in(#[trigger] paths[k]) == uuid
                    &&& (forall|k: int|
                        0 <= k < paths.len() ==> !inventory::repeated(paths, k)) ==> holds_all_logs(
                        info.sleds,
                        all,
                        layout,
                    )
                },
                _ => true,
            }
        }),
{
    let paths = inventory::records(all, all.len() as int, layout);
    lemma_sleds_of_records(all, layout, paths, 0, h, p, Map::empty());
    match inventory::sleds_read(all, layout, paths, 0, h, p, Map::empty()) {
        Some((Ok(sleds), q)) => {
            let info = Inventory { sleds, unhealthy: Map::empty() };
            match inventory::inventory_read(all, layout, decode, h, p) {
                Some((Ok((read, _)), _)) => {
                    if read != info {
                        let ids = choose|ids: Seq<Identity>|
                            read == #[trigger] inventory::assigned(info, ids, ids.len() as int);
                        law_sled_info_sets_cubbies_only(info, ids, ids.len() as int);
                        assert forall|uuid: Seq<char>| #[trigger]
                            read.sleds.contains_key(uuid) <==> sleds.contains_key(uuid) by {
                            assert(read.sleds.dom().contains(uuid) == info.sleds.dom().contains(
                                uuid,
                            ));
                        }
                    }
                },
                _ => {},
            }
        },
        _ => {},
    }
}

proof fn lemma_slash_ends(s: Seq<char>)
    requires
        text::ends_with(s, "/"@),
    ensures
        s.len() > 0,
        s.last() == '/',
        text::split(s, '/').last() == Seq::<char>::empty(),
{
    reveal_strlit("/");
    assert(s.subrange(s.len() - 1, s.len() as int)[0] == "/"@[0]);
}

/// The files among the first `n` names: directories end in a slash.
pub open spec fn files_among(all: Seq<Seq<char>>, n: int) -> Seq<Seq<char>>
    decreases n,
{
    if n <= 0 {
        Seq::empty()
    } else if text::ends_with(all[n - 1], "/"@) {
        files_among(all, n - 1)
    } else {
        files_among(all, n - 1).push(all[n - 1])
    }
}

proof fn lemma_records_prefix(a: Seq<Seq<char>>, b: Seq<Seq<char>>, n: int, layout: Layout)
    requires
        0 <= n <= a.len(),
        source::continues(a, b),
    ensures
        inventory::records(a, n, layout) == inventory::records(b, n, layout),
    decreases n,
{
    if n > 0 {
        lemma_records_prefix(a, b, n - 1, layout);
        assert(b[n - 1] == a[n - 1]);
    }
}

proof fn lemma_selected_prefix(
    a: Seq<Seq<char>>,
    b: Seq<Seq<char>>,
    n: int,
    sleds: Map<Seq<char>, Sled>,
    choice: Choice,
)
    requires
        0 <= n <= a.len(),
        source::continues(a, b),
    ensures
        logs::selected(a, n, sleds, choice) == logs::selected(b, n, sleds, choice),
    decreases n,
{
    if n > 0 {
        lemma_selected_prefix(a, b, n - 1, sleds, choice);
        assert(b[n - 1] == a[n - 1]);
    }
}

/// Directory entries among the names change neither the inventory records nor
/// the logs that a filter selects, nor, where zones and services are inferred
/// from files, the zones and services: a source that lists files alone and one
/// that lists directories too give the same.
pub proof fn law_directory_entries_do_not_matter(
    all: Seq<Seq<char>>,
    n: int,
    sleds: Map<Seq<char>, Sled>,
    choice: Choice,
    uuid: Seq<char>,
)
    requires
        0 <= n <= all.len(),
    ensures
        ({
            let files = files_among(all, n);
            let m = files.len() as int;
            let layout = Layout::Components;
            &&& inventory::records(files, m, layout) == inventory::records(all, n, layout)
            &&& inventory::records(files, m, Layout::Descendants) == inventory::records(
                all,
                n,
                Layout::Descendants,
            )
            &&& logs::selected(files, m, sleds, choice) == logs::selected(all, n, sleds, choice)
            &&& inventory::zones_of(files, layout, uuid) == inventory::zones_of(
                all.take(n),
                layout,
                uuid,
            )
            &&& inventory::services_of(files, layout, uuid) == inventory::services_of(
                all.take(n),
                layout,
                uuid,
            )
        }),
    decreases n,
{
    let files = files_among(all, n);
    let layout = Layout::Components;
    if n > 0 {
        law_directory_entries_do_not_matter(all, n - 1, sleds, choice, uuid);
        let last = all[n - 1];
        let earlier = files_among(all, n - 1);
        let front = all.take(n - 1);
        assert(all.take(n) =~= front.push(last));
        assert forall|x: Seq<char>| #[trigger]
            inventory::has_zone(files, layout, uuid, x) == inventory::has_zone(
                all.take(n),
                layout,
                uuid,
                x,
            ) by {
            assert(inventory::zones_of(earlier, layout, uuid).contains(x) == inventory::zones_of(
                front,
                layout,
                uuid,
            ).contains(x));
            inventory::lemma_one_more(front, last, layout, uuid, x);
            inventory::lemma_one_more(earlier, last, layout, uuid, x);
        }
        assert forall|x: Seq<char>| #[trigger]
            inventory::has_service(files, layout, uuid, x) == inventory::has_service(
                all.take(n),
                layout,
                uuid,
                x,
            ) by {
            assert(inventory::services_of(earlier, layout, uuid).contains(x) == inventory::services_of(
                front,
                layout,
                uuid,
            ).contains(x));
            inventory::lemma_one_more(front, last, layout, uuid, x);
            inventory::lemma_one_more(earlier, last, layout, uuid, x);
        }
        assert(inventory::zones_of(files, layout, uuid) =~= inventory::zones_of(
            all.take(n),
            layout,
            uuid,
        ));
        assert(inventory::services_of(files, layout, uuid) =~= inventory::services_of(
            all.take(n),
            layout,
            uuid,
        ));
        if text::ends_with(last, "/"@) {
            lemma_slash_ends(last);
            reveal_strlit("sled.txt");
            if inventory::is_sled_txt(last, Layout::Descendants) {
                assert(last.subrange(last.len() - 8, last.len() as int)[7] == "sled.txt"@[7]);
            }
        } else {
            lemma_records_prefix(earlier, files, earlier.len() as int, layout);
            lemma_records_prefix(earlier, files, earlier.len() as int, Layout::Descendants);
            lemma_selected_prefix(earlier, files, earlier.len() as int, sleds, choice);
        }
    } else {
        assert(all.take(0) =~= Seq::empty());
        assert(files =~= Seq::empty());
    }
}

/// A path that is too shallow for a service directory says nothing of zones and
/// services, and a directory, or a path with an empty component on the way, says
/// nothing where they are inferred from files.
pub proof fn law_shallow_paths_say_nothing(name: Seq<char>, layout: Layout)
    ensures
        text::split(name, '/').len() < 8 ==> inventory::spot_of(name, layout) is None,
        text::ends_with(name, "/"@) ==> inventory::spot_of(name, Layout::Components) is None,
        text::split(name, '/').len() >= 8 && (text::split(name, '/')[3].len() == 0 || text::split(
            name,
            '/',
        )[5].len() == 0 || text::split(name, '/')[6].len() == 0 || text::split(name, '/')[7].len()
            == 0) ==> inventory::spot_of(name, Layout::Components) is None,
{
}

/// What a path says when zones and services are inferred from files, it says as
/// well when they are inferred from everything below a service directory.
pub proof fn law_layouts_agree_on_files(name: Seq<char>)
    ensures
        inventory::spot_of(name, Layout::Components) is Some ==> inventory::spot_of(
            name,
            Layout::Descendants,
        ) == inventory::spot_of(name, Layout::Components),
{
    lemma_first_piece(name, '/');
}

/// The listed services and zones are ascending, and they are those of the
/// selected sleds.
pub proof fn law_listed_names_are_sorted(sleds: Map<Seq<char>, Sled>, patterns: Seq<Pattern>)
    requires
        sleds.dom().finite(),
    ensures
        names::ascending(names::sorted(listing::services_of(sleds, patterns))),
        names::ascending(names::sorted(listing::zones_of(sleds, patterns))),
        names::sorted(listing::services_of(sleds, patterns)).to_set() == listing::services_of(
            sleds,
            patterns,
        ),
        names::sorted(listing::zones_of(sleds, patterns)).to_set() == listing::zones_of(
            sleds,
            patterns,
        ),
    decreases sleds.dom().len(),
{
    let services = listing::services_of(sleds, patterns);
    let zones = listing::zones_of(sleds, patterns);
    if sleds.dom().is_empty() {
        assert forall|x: Seq<char>| !services.contains(x) && !zones.contains(x) by {
            assert forall|u: Seq<char>| !sleds.contains_key(u) by {
                assert(!sleds.dom().contains(u));
            }
        }
        assert(services =~= Set::empty());
        assert(zones =~= Set::empty());
    } else {
        let u = sleds.dom().choose();
        let rest = sleds.remove(u);
        law_listed_names_are_sorted(rest, patterns);
        let fewer_services = listing::services_of(rest, patterns);
        let fewer_zones = listing::zones_of(rest, patterns);
        vstd::seq_lib::seq_to_set_is_finite(names::sorted(fewer_services));
        vstd::seq_lib::seq_to_set_is_finite(names::sorted(fewer_zones));
        vstd::seq_lib::seq_to_set_is_finite(sleds[u].services);
        vstd::seq_lib::seq_to_set_is_finite(sleds[u].zones);
        let taken = sled::sled_selected(patterns, sleds[u]);
        assert(sleds.contains_key(u));
        assert forall|x: Seq<char>| #[trigger]
            services.contains(x) <==> fewer_services.contains(x) || (taken
                && sleds[u].services.contains(x)) by {
            if services.contains(x) {
                let v = choose|v: Seq<char>| #[trigger]
                    sleds.contains_key(v) && sled::sled_selected(patterns, sleds[v])
                        && sleds[v].services.contains(x);
                if v != u {
                    assert(rest.contains_key(v) && rest[v] == sleds[v]);
                }
            }
            if fewer_services.contains(x) {
                let v = choose|v: Seq<char>| #[trigger]
                    rest.contains_key(v) && sled::sled_selected(patterns, rest[v])
                        && rest[v].services.contains(x);
                assert(sleds.contains_key(v) && rest[v] == sleds[v]);
            }
        }
        assert forall|x: Seq<char>| #[trigger]
            zones.contains(x) <==> fewer_zones.contains(x) || (taken && sleds[u].zones.contains(
                x,
            )) by {
            if zones.contains(x) {
                let v = choose|v: Seq<char>| #[trigger]
                    sleds.contains_key(v) && sled::sled_selected(patterns, sleds[v])
                        && sleds[v].zones.contains(x);
                if v != u {
                    assert(rest.contains_key(v) && rest[v] == sleds[v]);
                }
            }
            if fewer_zones.contains(x) {
                let v = choose|v: Seq<char>| #[trigger]
                    rest.contains_key(v) && sled::sled_selected(patterns, rest[v])
                        && rest[v].zones.contains(x);
                assert(sleds.contains_key(v) && rest[v] == sleds[v]);
            }
        }
        if taken {
            assert(services =~= fewer_services.union(sleds[u].services.to_set()));
            assert(zones =~= fewer_zones.union(sleds[u].zones.to_set()));
        } else {
            assert(services =~= fewer_services);
            assert(zones =~= fewer_zones);
        }
    }
    names::lemma_sorted_of_finite(services);
    names::lemma_sorted_of_finite(zones);
}

/// In a complete archive no sled lacks zones or services, so that the table of
/// incomplete sleds would stay empty.
pub proof fn law_complete_archive<D: Fn(&[u8], bool) -> inventory::Decoded>(
    all: Seq<Seq<char>>,
    decode: D,
    h: Seq<SourceCall>,
    p: int,
)
    requires
        inventory::is_complete(all),
    ensures
        match inventory::inventory_read(all, Layout::Depth, decode, h, p) {
            Some((Ok((info, _)), _)) => forall|uuid: Seq<char>| #[trigger]
                info.sleds.contains_key(uuid) ==> !listing::is_incomplete(info.sleds[uuid]),
            _ => true,
        },
{
    let paths = inventory::records(all, all.len() as int, Layout::Depth);
    law_inventory_is_complete(all, Layout::Depth, decode, h, p);
    match inventory::inventory_read(all, Layout::Depth, decode, h, p) {
        Some((Ok((info, _)), _)) => {
            assert forall|k: int| 0 <= k < paths.len() implies !inventory::repeated(paths, k) by {
                let uuid = inventory::uuid_in(paths[k]);
            }
            assert forall|uuid: Seq<char>| #[trigger]
                info.sleds.contains_key(uuid) implies !listing::is_incomplete(info.sleds[uuid]) by {
                let k = choose|k: int|
                    0 <= k < paths.len() && inventory::uuid_in(#[trigger] paths[k]) == uuid;
                let zones = inventory::zones_of(all, Layout::Depth, uuid);
                let services = inventory::services_of(all, Layout::Depth, uuid);
                law_zones_and_services_are_sorted(all, Layout::Depth, uuid);
                if names::sorted(zones).len() == 0 {
                    assert(names::sorted(zones).to_set() =~= Set::empty());
                }
                if names::sorted(services).len() == 0 {
                    assert(names::sorted(services).to_set() =~= Set::empty());
                }
            }
        },
        _ => {},
    }
}

proof fn lemma_chunks_concat(h: Seq<SourceCall>, p: int, q: int, r: int)
    requires
        p <= q <= r,
    ensures
        chunks(h, p, q) + chunks(h, q, r) == chunks(h, p, r),
    decreases q - p,
{
    if p < q {
        lemma_chunks_concat(h, p + 1, q, r);
        assert(chunks(h, p, q) + chunks(h, q, r) =~= chunks(h, p, r));
    } else {
        assert(chunks(h, p, q) + chunks(h, q, r) =~= chunks(h, p, r));
    }
}

/// Reading up to a limit gives the bytes of the file in order, from where it was
/// read before.
pub proof fn law_fill_gives_the_beginning(h: Seq<SourceCall>, p: int, got: Seq<u8>, limit: nat)
    requires
        0 <= p,
    ensures
        match reader::filled(h, p, got, limit) {
            Some((Ok(b), q)) => p <= q && b == got + chunks(h, p, q),
            _ => true,
        },
    decreases h.len() - p,
{
    let empty = Seq::<u8>::empty();
    if got.len() >= limit {
        assert(chunks(h, p, p) =~= empty);
        assert(got + empty =~= got);
    } else {
        match source::reading(h, p, (limit - got.len()) as nat) {
            Some(Ok(b)) => {
                if b.len() > 0 {
                    law_fill_gives_the_beginning(h, p + 1, got + b, limit);
                    match reader::filled(h, p, got, limit) {
                        Some((Ok(all), q)) => {
                            assert(got + chunks(h, p, q) =~= (got + b) + chunks(h, p + 1, q));
                        },
                        _ => {},
                    }
                } else {
                    assert(chunks(h, p + 1, p + 1) =~= empty);
                    assert(got + chunks(h, p, p + 1) =~= got);
                }
            },
            _ => {},
        }
    }
}

/// A log that passes a time filter is written whole and once: what was read to
/// find its time comes first, the rest follows.
pub proof fn law_time_filter_loses_nothing<F: Fn(&[u8]) -> Option<Timestamp>>(
    h: Seq<SourceCall>,
    p: int,
    log: Log,
    window: Window,
    decode: F,
    manner: Manner,
    out: Seq<u8>,
)
    requires
        0 <= p,
        window.0 is Some || window.1 is Some,
    ensures
        match logs::opened(h, p, log, window, decode, manner) {
            Some((Ok(Some(cached)), q)) => match reader::shown(h, q, cached, None, out) {
                Some(((written, None), r)) => {
                    &&& written == out + chunks(h, p + 2, r)
                    &&& ended_at(h, r - 1)
                },
                _ => true,
            },
            _ => true,
        },
{
    match logs::opened(h, p, log, window, decode, manner) {
        Some((Ok(Some(cached)), q)) => {
            let facts = source::metadata_of(h, p, log.path)->0->Ok_0;
            let limit: nat = match manner {
                Manner::Named => logs::TIME_CHECK_MAX as nat,
                Manner::Bare => match facts.0 {
                    Some(n) => if n < logs::TIME_CHECK_MAX {
                        n as nat
                    } else {
                        logs::TIME_CHECK_MAX as nat
                    },
                    None => 0,
                },
            };
            law_fill_gives_the_beginning(h, p + 2, Seq::empty(), limit);
            let head = cached->0;
            assert(head =~= chunks(h, p + 2, q));
            match reader::shown(h, q, cached, None, out) {
                Some(((written, None), r)) => {
                    law_drain_gives_everything(h, q, out + head);
                    lemma_drain_ends(h, q, out + head);
                    lemma_chunks_concat(h, p + 2, q, r);
                    assert((out + head) + chunks(h, q, r) =~= out + (head + chunks(h, q, r)));
                },
                _ => {},
            }
        },
        _ => {},
    }
}

proof fn lemma_decimal_grows(n: nat, m: nat)
    requires
        n <= m,
    ensures
        text::decimal(n).len() <= text::decimal(m).len(),
    decreases m,
{
    if m >= 10 && n >= 10 {
        lemma_decimal_grows(n / 10, m / 10);
    } else if m >= 10 {
        assert(text::decimal(m).len() >= 1);
    }
}

proof fn lemma_max_ena(candidates: Seq<Candidate>, n: int, k: int)
    requires
        0 <= k < n <= candidates.len(),
    ensures
        candidates[k].metadata.ena <= ereport::max_ena(candidates, n),
    decreases n,
{
    if k < n - 1 {
        lemma_max_ena(candidates, n - 1, k);
    }
}

/// In a listing of ereports every number fits its column.
pub proof fn law_numbers_fit_their_column(candidates: Seq<Candidate>, k: int)
    requires
        0 <= k < candidates.len(),
    ensures
        text::decimal(candidates[k].metadata.ena).len() <= ereport::ena_width(candidates),
        text::right_aligned(
            text::decimal(candidates[k].metadata.ena),
            ereport::ena_width(candidates),
        ).len() == ereport::ena_width(candidates),
{
    lemma_max_ena(candidates, candidates.len() as int, k);
    lemma_decimal_grows(
        candidates[k].metadata.ena,
        ereport::max_ena(candidates, candidates.len() as int),
    );
}

/// A search finds the first occurrence, and finds none only where there is none.
pub proof fn law_search_finds_the_first(s: Seq<char>, needle: Seq<char>, from: int)
    requires
        0 <= from,
    ensures
        match text::find(s, needle, from) {
            Some(at) => {
                &&& from <= at
                &&& text::occurs_at(s, needle, at)
                &&& forall|i: int| from <= i < at ==> !#[trigger] text::occurs_at(s, needle, i)
            },
            None => forall|i: int| from <= i ==> !#[trigger] text::occurs_at(s, needle, i),
        },
    decreases s.len() - from + 1,
{
    if from + needle.len() <= s.len() && !text::occurs_at(s, needle, from) {
        law_search_finds_the_first(s, needle, from + 1);
    }
}

/// A class or a serial number that was found between quotes holds no quote.
pub proof fn law_quoted_text_has_no_quote(s: Seq<char>, opening: Seq<char>)
    ensures
        match text::between(s, opening, "\""@) {
            Some(found) => !found.contains('"'),
            None => true,
        },
{
    reveal_strlit("\"");
    law_search_finds_the_first(s, opening, 0);
    match text::find(s, opening, 0) {
        Some(at) => {
            let start = at + opening.len();
            law_search_finds_the_first(s, "\""@, start);
            match text::find(s, "\""@, start) {
                Some(end) => {
                    let found = s.subrange(start, end);
                    assert forall|k: int| 0 <= k < found.len() implies found[k] != '"' by {
                        if found[k] == '"' {
                            assert(s.subrange(start + k, start + k + 1) =~= "\""@);
                            assert(text::occurs_at(s, "\""@, start + k));
                        }
                    }
                },
                None => {},
            }
        },
        None => {},
    }
}

/// The beginning of a log goes to the handler exactly when a time filter had to
/// read it.
pub proof fn law_beginning_is_kept_with_time_filter<F: Fn(&[u8]) -> Option<Timestamp>>(
    h: Seq<SourceCall>,
    p: int,
    log: Log,
    window: Window,
    decode: F,
    manner: Manner,
)
    ensures
        match logs::opened(h, p, log, window, decode, manner) {
            Some((Ok(Some(cached)), _)) => cached is Some <==> (window.0 is Some || window.1
                is Some),
            _ => true,
        },
{
}

proof fn lemma_drained_behind(h: Seq<SourceCall>, p: int, out: Seq<u8>, got: Seq<u8>)
    ensures
        reader::drained(h, p, out + got) == (match reader::drained(h, p, got) {
            Some(((b, failure), q)) => Some(((out + b, failure), q)),
            None => None,
        }),
    decreases h.len() - p,
{
    match source::reading(h, p, reader::CHUNK as nat) {
        Some(Ok(b)) => {
            if b.len() > 0 {
                lemma_drained_behind(h, p + 1, out, got + b);
                assert((out + got) + b =~= out + (got + b));
            }
        },
        _ => {},
    }
}

proof fn lemma_headed_behind(h: Seq<SourceCall>, p: int, n: nat, out: Seq<u8>, got: Seq<u8>)
    ensures
        reader::headed(h, p, n, out + got) == (match reader::headed(h, p, n, got) {
            Some(((b, failure), q)) => Some(((out + b, failure), q)),
            None => None,
        }),
    decreases h.len() - p,
{
    if n > 0 {
        match source::reading(h, p, reader::CHUNK as nat) {
            Some(Ok(b)) => {
                if b.len() == 0 {
                } else if n <= reader::newlines(b).len() {
                    let head = reader::first_lines(b, n);
                    assert((out + got) + head =~= out + (got + head));
                } else {
                    let m = (n - reader::newlines(b).len()) as nat;
                    lemma_headed_behind(h, p + 1, m, out, got + b);
                    assert((out + got) + b =~= out + (got + b));
                }
            },
            _ => {},
        }
    }
}

/// What is shown of a file does not depend on what was written before it.
pub proof fn law_output_is_appended(
    h: Seq<SourceCall>,
    p: int,
    cached: Option<Seq<u8>>,
    line_ct: Option<nat>,
    out: Seq<u8>,
)
    ensures
        reader::shown(h, p, cached, line_ct, out) == (match reader::shown(
            h,
            p,
            cached,
            line_ct,
            Seq::empty(),
        ) {
            Some(((b, failure), q)) => Some(((out + b, failure), q)),
            None => None,
        }),
{
    let empty = Seq::<u8>::empty();
    assert(out + empty =~= out);
    match (line_ct, cached) {
        (Some(n), Some(b)) => {
            let count = reader::newlines(b).len();
            if n <= count {
                let head = if n == 0 { b.take(1) } else { reader::first_lines(b, n) };
                assert(out + (empty + head) =~= out + head);
            } else {
                assert(empty + b =~= b);
                lemma_headed_behind(h, p, (n - count) as nat, out, b);
            }
        },
        (Some(n), None) => {
            lemma_headed_behind(h, p, n, out, empty);
        },
        (None, Some(b)) => {
            assert(empty + b =~= b);
            lemma_drained_behind(h, p, out, b);
        },
        (None, None) => {
            lemma_drained_behind(h, p, out, empty);
        },
    }
}

/// A log that is given to a command which hands its input back is shown as it is
/// without a command.
pub proof fn law_echoing_command_changes_nothing(
    h: Seq<SourceCall>,
    p: int,
    path: Seq<char>,
    cached: Option<Seq<u8>>,
    style: logs::Style,
    out: Seq<u8>,
)
    requires
        !style.list,
    ensures
        match reader::shown(h, p, cached, reader::line_limit(style.line_ct), Seq::empty()) {
            Some(((input, None), q)) => logs::log_written(h, p, path, cached, style, out) == Some(
                (
                    (
                        logs::footed(
                            logs::headed(out, path, style.no_header) + input,
                            style.no_header,
                        ),
                        None::<Chain>,
                    ),
                    q,
                ),
            ),
            _ => true,
        },
{
    law_output_is_appended(
        h,
        p,
        cached,
        reader::line_limit(style.line_ct),
        logs::headed(out, path, style.no_header),
    );
}

/// The services and zones present in a bundle are listed in ascending order, and
/// all of them are.
pub proof fn law_present_names_are_sorted(
    all: Seq<Seq<char>>,
    layout: Layout,
    sleds: Map<Seq<char>, Sled>,
    patterns: Seq<Pattern>,
)
    ensures
        names::ascending(
            names::sorted(inventory::present_services(all, layout, sleds, patterns)),
        ),
        names::ascending(names::sorted(inventory::present_zones(all, layout, sleds, patterns))),
        names::sorted(inventory::present_services(all, layout, sleds, patterns)).to_set()
            == inventory::present_services(all, layout, sleds, patterns),
        names::sorted(inventory::present_zones(all, layout, sleds, patterns)).to_set()
            == inventory::present_zones(all, layout, sleds, patterns),
{
    inventory::lemma_present_is_finite(all, layout, sleds, patterns);
    names::lemma_sorted_of_finite(inventory::present_services(all, layout, sleds, patterns));
    names::lemma_sorted_of_finite(inventory::present_zones(all, layout, sleds, patterns));
}

/// Without patterns every service and every zone that the names speak of is
/// present, whether its sled has a record or not.
pub proof fn law_all_named_are_present(
    all: Seq<Seq<char>>,
    layout: Layout,
    sleds: Map<Seq<char>, Sled>,
    uuid: Seq<char>,
    name: Seq<char>,
)
    ensures
        inventory::has_service(all, layout, uuid, name) ==> inventory::present_services(
            all,
            layout,
            sleds,
            Seq::empty(),
        ).contains(name),
        inventory::has_zone(all, layout, uuid, name) ==> inventory::present_zones(
            all,
            layout,
            sleds,
            Seq::empty(),
        ).contains(name),
{
    assert(inventory::uuid_selected(Seq::empty(), sleds, uuid));
}

/// Where every sled with logs has a record and all of its zones and services, the
/// services and zones that are present are those of the selected sleds of the
/// inventory.
pub proof fn law_complete_inventory_lists_what_is_present(
    all: Seq<Seq<char>>,
    layout: Layout,
    sleds: Map<Seq<char>, Sled>,
    patterns: Seq<Pattern>,
)
    requires
        holds_all_logs(sleds, all, layout),
        forall|i: int|
            0 <= i < all.len() ==> (#[trigger] inventory::spot_of(all[i], layout) matches Some(spot)
                ==> sleds.contains_key(spot.sled)),
    ensures
        inventory::present_services(all, layout, sleds, patterns) == listing::services_of(
            sleds,
            patterns,
        ),
        inventory::present_zones(all, layout, sleds, patterns) == listing::zones_of(
            sleds,
            patterns,
        ),
{
    let services = inventory::present_services(all, layout, sleds, patterns);
    let zones = inventory::present_zones(all, layout, sleds, patterns);
    assert forall|x: Seq<char>| services.contains(x) <==> listing::services_of(
        sleds,
        patterns,
    ).contains(x) by {
        if services.contains(x) {
            let u = choose|u: Seq<char>| #[trigger]
                inventory::has_service(all, layout, u, x) && inventory::uuid_selected(
                    patterns,
                    sleds,
                    u,
                );
            let i = choose|i: int|
                0 <= i < all.len() && (#[trigger] inventory::spot_of(all[i], layout) matches Some(
                    spot,
                ) && spot.sled == u && spot.service == Some(x));
            assert(sleds.contains_key(u));
            law_zones_and_services_are_sorted(all, layout, u);
            assert(inventory::services_of(all, layout, u).contains(x));
            assert(sleds[u].services.to_set().contains(x));
        }
        if listing::services_of(sleds, patterns).contains(x) {
            let u = choose|u: Seq<char>| #[trigger]
                sleds.contains_key(u) && sled::sled_selected(patterns, sleds[u])
                    && sleds[u].services.contains(x);
            law_zones_and_services_are_sorted(all, layout, u);
            assert(sleds[u].services.to_set().contains(x));
            assert(inventory::has_service(all, layout, u, x));
        }
    }
    assert forall|x: Seq<char>| zones.contains(x) <==> listing::zones_of(
        sleds,
        patterns,
    ).contains(x) by {
        if zones.contains(x) {
            let u = choose|u: Seq<char>| #[trigger]
                inventory::has_zone(all, layout, u, x) && inventory::uuid_selected(
                    patterns,
                    sleds,
                    u,
                );
            let i = choose|i: int|
                0 <= i < all.len() && (#[trigger] inventory::spot_of(all[i], layout) matches Some(
                    spot,
                ) && spot.sled == u && spot.zone == Some(x));
            assert(sleds.contains_key(u));
            law_zones_and_services_are_sorted(all, layout, u);
            assert(inventory::zones_of(all, layout, u).contains(x));
            assert(sleds[u].zones.to_set().contains(x));
        }
        if listing::zones_of(sleds, patterns).contains(x) {
            let u = choose|u: Seq<char>| #[trigger]
                sleds.contains_key(u) && sled::sled_selected(patterns, sleds[u])
                    && sleds[u].zones.contains(x);
            law_zones_and_services_are_sorted(all, layout, u);
            assert(sleds[u].zones.to_set().contains(x));
            assert(inventory::has_zone(all, layout, u, x));
        }
    }
    assert(services =~= listing::services_of(sleds, patterns));
    assert(zones =~= listing::zones_of(sleds, patterns));
}

} // verus!
