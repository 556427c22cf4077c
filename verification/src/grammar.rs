//! Laws of the paths in a bundle: what is read from a path is said in terms of
//! its parts, which have no slash in them.
use crate::directory;
use crate::directory::EntryKind;
use crate::directory::NameFault;
use crate::directory::PathPart;
use crate::directory::Step;
use crate::ereport;
use crate::ereport::Access;
use crate::ereport::Report;
use crate::inventory;
use crate::inventory::Layout;
use crate::laws;
use crate::meaning;
use crate::structured;
use crate::text;
use vstd::prelude::*;

verus! {

/// The parts can stand in a path: there is one at least, and none holds a slash.
pub open spec fn are_parts(parts: Seq<Seq<char>>) -> bool {
    &&& parts.len() > 0
    &&& forall|i: int| 0 <= i < parts.len() ==> !(#[trigger] parts[i]).contains('/')
}

/// The path that is made of the parts.
pub open spec fn path_of(parts: Seq<Seq<char>>) -> Seq<char> {
    text::join(parts, seq!['/'])
}

/// Every text is the path of its own parts, and of no others.
pub proof fn law_every_path_has_parts(path: Seq<char>, parts: Seq<Seq<char>>)
    requires
        are_parts(parts),
    ensures
        are_parts(text::split(path, '/')),
        path_of(text::split(path, '/')) == path,
        path_of(parts) == path <==> parts == text::split(path, '/'),
{
    laws::law_join_restores(path, '/');
    laws::law_pieces_without_separator(path, '/');
    text::lemma_split_not_empty(path, '/');
    laws::law_split_restores(parts, '/');
}

proof fn lemma_parts(parts: Seq<Seq<char>>)
    requires
        are_parts(parts),
    ensures
        text::split(path_of(parts), '/') == parts,
{
    laws::law_split_restores(parts, '/');
}

/// A path ends in a slash if and only if its last part is empty and not its only
/// one.
pub proof fn law_slash_at_the_end(parts: Seq<Seq<char>>)
    requires
        are_parts(parts),
    ensures
        text::ends_with(path_of(parts), "/"@) <==> parts.len() > 1 && parts.last().len() == 0,
{
    reveal_strlit("/");
    assert("/"@ =~= seq!['/']);
    let path = path_of(parts);
    let last = parts.last();
    if parts.len() > 1 {
        let front = parts.drop_last();
        meaning::law_join_by_pieces(front, last, seq!['/']);
        assert(front.push(last) =~= parts);
        let start = text::join(front, seq!['/']);
        if last.len() == 0 {
            assert(path =~= start + seq!['/']);
            meaning::law_beginnings_and_endings(path, "/"@, start);
        }
    } else {
        meaning::law_join_by_pieces(parts, last, seq!['/']);
        assert(parts =~= seq![last]);
    }
    if last.len() > 0 {
        let c = last[last.len() - 1];
        assert(path[path.len() - 1] == c);
        assert(parts[parts.len() - 1].contains(c));
        if text::ends_with(path, "/"@) {
            assert(path.subrange(path.len() - 1, path.len() as int)[0] == c);
        }
    }
}

/// What the second and the fourth part of the path of an ereport say: the part
/// and the serial number, with the last `-` between them, and a number before
/// `.json`.
pub open spec fn names_report(parts: Seq<Seq<char>>, report: Report, number: Seq<char>) -> bool {
    &&& parts[1] == report.part + seq!['-'] + report.serial
    &&& !report.serial.contains('-')
    &&& parts[2] == report.restart_id
    &&& parts[3] == number + ".json"@
}

/// The path of an ereport, read exactly: four parts, the first of which is
/// `ereports`, with nothing empty. The number may have a `+` before it and must
/// fit into 64 bits.
pub proof fn law_exact_report_paths(parts: Seq<Seq<char>>, report: Report)
    requires
        are_parts(parts),
    ensures
        ereport::exact_report(path_of(parts)) == Some(report) <==> {
            &&& parts.len() == 4
            &&& parts[0] == "ereports"@
            &&& report.part.len() > 0 && report.serial.len() > 0 && report.restart_id.len() > 0
            &&& exists|number: Seq<char>| #[trigger]
                names_report(parts, report, number) && text::unsigned_value(
                    number,
                    0xffff_ffff_ffff_ffff,
                ) == Some(report.ena)
        },
{
    lemma_parts(parts);
    lemma_report_parts(parts, report);
}

/// The path of an ereport, read leniently: four parts at least, at the beginning
/// of which stands `ereports`; some may be empty.
pub proof fn law_lenient_report_paths(parts: Seq<Seq<char>>, report: Report)
    requires
        are_parts(parts),
    ensures
        ereport::lenient_report(path_of(parts)) == Some(report) <==> {
            &&& parts.len() >= 4
            &&& text::starts_with(path_of(parts), "ereports"@)
            &&& exists|number: Seq<char>| #[trigger]
                names_report(parts, report, number) && text::unsigned_value(
                    number,
                    0xffff_ffff_ffff_ffff,
                ) == Some(report.ena)
        },
{
    lemma_parts(parts);
    lemma_report_parts(parts, report);
}

/// The path of an ereport, read strictly: as when read exactly, and the number is
/// made of digits alone.
pub proof fn law_strict_report_paths(parts: Seq<Seq<char>>, report: Report)
    requires
        are_parts(parts),
    ensures
        structured::strict_report(path_of(parts)) == Some(report) <==> {
            &&& parts.len() == 4
            &&& parts[0] == "ereports"@
            &&& report.part.len() > 0 && report.serial.len() > 0 && report.restart_id.len() > 0
            &&& exists|number: Seq<char>| #[trigger]
                names_report(parts, report, number) && text::digits_value(number) == Some(
                    report.ena,
                ) && report.ena <= 0xffff_ffff_ffff_ffff
        },
{
    lemma_parts(parts);
    let path = path_of(parts);
    if parts.len() == 4 {
        lemma_cut(parts[1], report.part, report.serial);
        match text::strip_suffix(parts[3], ".json"@) {
            Some(number) => {
                meaning::law_beginnings_and_endings(parts[3], ".json"@, number);
                if structured::strict_report(path) == Some(report) {
                    assert(names_report(parts, report, number));
                }
            },
            None => {},
        }
        assert forall|number: Seq<char>| #[trigger]
            names_report(parts, report, number) implies text::strip_suffix(parts[3], ".json"@)
            == Some(number) by {
            meaning::law_beginnings_and_endings(parts[3], ".json"@, number);
        }
    }
}

proof fn lemma_cut(s: Seq<char>, part: Seq<char>, serial: Seq<char>)
    ensures
        text::rsplit_once(s, '-') == Some((part, serial)) <==> s == part + seq!['-'] + serial
            && !serial.contains('-'),
{
    meaning::law_cut_at_the_last(s, '-');
    if s == part + seq!['-'] + serial && !serial.contains('-') {
        laws::lemma_last_position(part, serial, '-');
        assert(s.take(part.len() as int) =~= part);
        assert(s.skip((part.len() + 1) as int) =~= serial);
    }
}

proof fn lemma_report_parts(parts: Seq<Seq<char>>, report: Report)
    ensures
        ereport::report_parts(parts[1], parts[2], parts[3]) == Some(report) <==> exists|
            number: Seq<char>,
        | #[trigger]
            names_report(parts, report, number) && text::unsigned_value(
                number,
                0xffff_ffff_ffff_ffff,
            ) == Some(report.ena),
{
    lemma_cut(parts[1], report.part, report.serial);
    match text::strip_suffix(parts[3], ".json"@) {
        Some(number) => {
            meaning::law_beginnings_and_endings(parts[3], ".json"@, number);
            if ereport::report_parts(parts[1], parts[2], parts[3]) == Some(report) {
                assert(names_report(parts, report, number));
            }
        },
        None => {},
    }
    assert forall|number: Seq<char>| #[trigger]
        names_report(parts, report, number) implies text::strip_suffix(parts[3], ".json"@) == Some(
        number,
    ) by {
        meaning::law_beginnings_and_endings(parts[3], ".json"@, number);
    }
}

/// Which grammar a path is read by: the exact one where files are opened exactly,
/// and else the lenient one, however they are opened.
pub proof fn law_grammar_of_each_access(path: Seq<char>)
    ensures
        ereport::report_of(path, Access::Exact) == ereport::exact_report(path),
        ereport::report_of(path, Access::Lenient) == ereport::lenient_report(path),
        ereport::report_of(path, Access::Positional) == ereport::lenient_report(path),
{
}

/// What the path of a log says of a sled, where zones and services are inferred
/// from what lies below a service directory: the fourth part is the UUID, the
/// fifth is `logs`, the sixth the zone, and the seventh the service, unless the
/// path is that of the service directory itself.
pub proof fn law_spots_of_descendants(parts: Seq<Seq<char>>)
    requires
        are_parts(parts),
    ensures
        match inventory::spot_of(path_of(parts), Layout::Descendants) {
            Some(spot) => {
                &&& text::starts_with(path_of(parts), "rack"@)
                &&& parts.len() >= 8 && parts[4] == "logs"@
                &&& spot.sled == parts[3] && spot.zone == Some(parts[5])
                &&& spot.service is Some <==> parts.len() > 8 || parts[7].len() > 0
                &&& spot.service is Some ==> spot.service->0 == parts[6]
            },
            None => !text::starts_with(path_of(parts), "rack"@) || parts.len() < 8 || parts[4]
                != "logs"@,
        },
{
    lemma_parts(parts);
    law_slash_at_the_end(parts);
}

/// What the path of a log says of a sled, where every component counts: the path
/// is that of a file, its first, third and fifth parts are `rack`, `sled` and
/// `logs`, and its UUID, zone, service and the part behind them are not empty.
pub proof fn law_spots_by_components(parts: Seq<Seq<char>>)
    requires
        are_parts(parts),
    ensures
        match inventory::spot_of(path_of(parts), Layout::Components) {
            Some(spot) => {
                &&& parts.len() >= 8 && parts.last().len() > 0
                &&& parts[0] == "rack"@ && parts[2] == "sled"@ && parts[4] == "logs"@
                &&& forall|k: int|
                    k == 3 || 5 <= k <= 7 ==> (#[trigger] parts[k]).len() > 0
                &&& spot.sled == parts[3] && spot.zone == Some(parts[5]) && spot.service == Some(
                    parts[6],
                )
            },
            None => {
                ||| parts.len() < 8
                ||| parts.last().len() == 0
                ||| parts[0] != "rack"@ || parts[2] != "sled"@ || parts[4] != "logs"@
                ||| parts[3].len() == 0 || parts[5].len() == 0 || parts[6].len() == 0
                    || parts[7].len() == 0
            },
        },
{
    lemma_parts(parts);
    law_slash_at_the_end(parts);
}

/// What a path says of a sled, where its depth alone counts: a path of eight parts
/// tells a zone, one of nine a service, and no other tells anything.
pub proof fn law_spots_by_depth(parts: Seq<Seq<char>>)
    requires
        are_parts(parts),
    ensures
        match inventory::spot_of(path_of(parts), Layout::Depth) {
            Some(spot) => {
                &&& text::starts_with(path_of(parts), "rack"@)
                &&& spot.sled == parts[3]
                &&& parts.len() == 8 || parts.len() == 9
                &&& parts.len() == 8 ==> spot.zone == Some(parts[5]) && spot.service is None
                &&& parts.len() == 9 ==> spot.zone is None && spot.service == Some(parts[6])
            },
            None => !text::starts_with(path_of(parts), "rack"@) || (parts.len() != 8 && parts.len()
                != 9),
        },
{
    lemma_parts(parts);
}

/// Which paths are those of the record of a sled, and whose record they are: there
/// are five parts, and the fourth is the UUID.
pub proof fn law_paths_of_records(parts: Seq<Seq<char>>)
    requires
        are_parts(parts),
    ensures
        inventory::is_sled_txt(path_of(parts), Layout::Components) <==> {
            &&& parts.len() == 5
            &&& parts[0] == "rack"@ && parts[2] == "sled"@ && parts[4] == "sled.txt"@
        },
        inventory::is_sled_txt(path_of(parts), Layout::Depth) <==> {
            &&& parts.len() == 5
            &&& text::starts_with(path_of(parts), "rack"@)
            &&& text::ends_with(path_of(parts), "sled.txt"@)
        },
        inventory::is_sled_txt(path_of(parts), Layout::Descendants) == inventory::is_sled_txt(
            path_of(parts),
            Layout::Depth,
        ),
        parts.len() >= 4 ==> inventory::uuid_in(path_of(parts)) == parts[3],
{
    lemma_parts(parts);
}

/// A path can be asked for if and only if it is not empty and no part of it is
/// empty, `.` or `..`.
pub proof fn law_valid_paths(parts: Seq<Seq<char>>)
    requires
        are_parts(parts),
    ensures
        directory::is_valid_path(path_of(parts)) <==> forall|i: int|
            0 <= i < parts.len() ==> {
                &&& (#[trigger] parts[i]).len() > 0
                &&& parts[i] != seq!['.']
                &&& parts[i] != seq!['.', '.']
            },
{
    reveal_strlit(".");
    reveal_strlit("..");
    assert("."@ =~= seq!['.']);
    assert(".."@ =~= seq!['.', '.']);
    lemma_parts(parts);
    let path = path_of(parts);
    if path.len() == 0 {
        meaning::law_join_by_pieces(parts.drop_last(), parts.last(), seq!['/']);
        if parts.len() == 1 {
            assert(parts =~= seq![parts[0]]);
            assert(parts[0].len() == 0);
        } else {
            assert(parts.drop_last().push(parts.last()) =~= parts);
            assert(false);
        }
    }
    if directory::is_valid_path(path) {
        assert forall|i: int| 0 <= i < parts.len() implies {
            &&& (#[trigger] parts[i]).len() > 0
            &&& parts[i] != seq!['.']
            &&& parts[i] != seq!['.', '.']
        } by {
            assert(directory::is_proper(parts[i]));
        }
    }
}

/// The names of components are those of the components, in order, if all are
/// proper names; else the first that is not decides what is wrong.
pub proof fn law_names_of_components(parts: Seq<PathPart>, n: int)
    requires
        0 <= n <= parts.len(),
    ensures
        match directory::part_names(parts, n) {
            Ok(list) => {
                &&& list.len() == n
                &&& forall|i: int|
                    0 <= i < n ==> (#[trigger] parts[i] matches PathPart::Normal(name)
                        && name@ == list[i])
            },
            Err(fault) => exists|i: int|
                {
                    &&& 0 <= i < n
                    &&& #[trigger] parts[i] == (match fault {
                        NameFault::NotUtf8 => PathPart::NotUtf8,
                        NameFault::Special => PathPart::Special,
                    })
                    &&& forall|j: int| 0 <= j < i ==> #[trigger] parts[j] is Normal
                },
        },
    decreases n,
{
    if n > 0 {
        law_names_of_components(parts, n - 1);
        match directory::part_names(parts, n - 1) {
            Ok(list) => {
                assert forall|j: int| 0 <= j < n - 1 implies #[trigger] parts[j] is Normal by {}
                match parts[n - 1] {
                    PathPart::Normal(_) => {},
                    PathPart::NotUtf8 => {
                        assert(parts[n - 1] == PathPart::NotUtf8);
                    },
                    PathPart::Special => {
                        assert(parts[n - 1] == PathPart::Special);
                    },
                }
            },
            Err(_) => {},
        }
    }
}

/// Below a directory only files are indexed, under the names of their components
/// with slashes between them; a directory is entered, unless its own name is
/// looked at and is not proper; anything else is no part of the bundle.
pub proof fn law_what_is_discovered(parts: Seq<PathPart>, check_directories: bool)
    ensures
        ({
            let list = directory::part_names(parts, parts.len() as int);
            &&& directory::step_of(EntryKind::Other, parts, check_directories) == Ok::<
                Step,
                NameFault,
            >(Step::Ignored)
            &&& list is Ok ==> directory::step_of(EntryKind::File, parts, check_directories) == Ok::<
                Step,
                NameFault,
            >(Step::Indexed(path_of(list->Ok_0)))
            &&& list is Err ==> directory::step_of(EntryKind::File, parts, check_directories)
                == Err::<Step, NameFault>(list->Err_0)
            &&& list is Ok || !check_directories ==> directory::step_of(
                EntryKind::Directory,
                parts,
                check_directories,
            ) == Ok::<Step, NameFault>(Step::Descend)
            &&& list is Err && check_directories ==> directory::step_of(
                EntryKind::Directory,
                parts,
                check_directories,
            ) == Err::<Step, NameFault>(list->Err_0)
        }),
{
    reveal_strlit("/");
    assert("/"@ =~= seq!['/']);
}

} // verus!
