//! What the operations are for: laws that say of results, over all inputs and in
//! terms of characters, positions, members and order, what they must satisfy, and
//! how the results of several calls relate.
use crate::error;
use crate::laws;
use crate::names;
use crate::pattern;
use crate::pattern::Pattern;
use crate::sled;
use crate::sled::Sled;
use crate::source::Chain;
use crate::text;
use crate::time;
use vstd::prelude::*;

verus! {

/// A text occurs where each of its characters does.
pub proof fn law_occurrence_by_characters(s: Seq<char>, needle: Seq<char>, i: int)
    ensures
        text::occurs_at(s, needle, i) <==> {
            &&& 0 <= i
            &&& i + needle.len() <= s.len()
            &&& forall|k: int| 0 <= k < needle.len() ==> s[i + k] == #[trigger] needle[k]
        },
{
    if 0 <= i && i + needle.len() <= s.len() {
        let part = s.subrange(i, i + needle.len());
        if forall|k: int| 0 <= k < needle.len() ==> s[i + k] == #[trigger] needle[k] {
            assert(part =~= needle);
        }
        if part == needle {
            assert forall|k: int| 0 <= k < needle.len() implies s[i + k] == #[trigger] needle[k] by {
                assert(part[k] == needle[k]);
            }
        }
    }
}

/// A text begins with another, or ends in it, where something makes it up to the
/// whole; what is left without an ending is what makes it up.
pub proof fn law_beginnings_and_endings(s: Seq<char>, part: Seq<char>, rest: Seq<char>)
    ensures
        text::starts_with(part + rest, part),
        text::starts_with(s, part) ==> s == part + s.skip(part.len() as int),
        text::ends_with(rest + part, part),
        text::strip_suffix(s, part) == Some(rest) <==> s == rest + part,
        text::ends_with(s, part) <==> text::strip_suffix(s, part) is Some,
{
    assert((part + rest).subrange(0, part.len() as int) =~= part);
    assert((rest + part).subrange(rest.len() as int, (rest.len() + part.len()) as int) =~= part);
    if text::starts_with(s, part) {
        assert(s =~= s.subrange(0, part.len() as int) + s.skip(part.len() as int));
    }
    if s == rest + part {
        assert(s.take(s.len() - part.len()) =~= rest);
    }
    if text::ends_with(s, part) {
        let at = s.len() - part.len();
        assert(s =~= s.take(at) + s.subrange(at, s.len() as int));
    }
}

/// The text between two marks begins behind the first opening mark and ends
/// before the first closing mark behind that; there is none only where one of
/// the two is missing.
pub proof fn law_text_between_marks(s: Seq<char>, opening: Seq<char>, closing: Seq<char>)
    ensures
        match text::between(s, opening, closing) {
            Some(found) => exists|at: int|
                {
                    let start = at + opening.len();
                    let end = start + found.len();
                    &&& #[trigger] text::occurs_at(s, opening, at)
                    &&& forall|i: int| 0 <= i < at ==> !#[trigger] text::occurs_at(s, opening, i)
                    &&& text::occurs_at(s, closing, end)
                    &&& forall|i: int|
                        start <= i < end ==> !#[trigger] text::occurs_at(s, closing, i)
                    &&& end <= s.len() && s.subrange(start, end) == found
                },
            None => (forall|i: int| !#[trigger] text::occurs_at(s, opening, i)) || exists|at: int|
                {
                    &&& #[trigger] text::occurs_at(s, opening, at)
                    &&& forall|i: int| 0 <= i < at ==> !#[trigger] text::occurs_at(s, opening, i)
                    &&& forall|i: int|
                        at + opening.len() <= i ==> !#[trigger] text::occurs_at(s, closing, i)
                },
        },
{
    laws::law_search_finds_the_first(s, opening, 0);
    match text::find(s, opening, 0) {
        Some(at) => {
            let start = at + opening.len();
            laws::law_search_finds_the_first(s, closing, start);
            assert(text::occurs_at(s, opening, at));
        },
        None => {
            assert forall|i: int| !#[trigger] text::occurs_at(s, opening, i) by {
                if i < 0 {
                    assert(!text::occurs_at(s, opening, i));
                }
            }
        },
    }
}

/// A cut at the last occurrence of a character: the two parts and the character
/// between them make up the text, and the second part does not hold the
/// character. There is no cut only where the text does not hold it.
pub proof fn law_cut_at_the_last(s: Seq<char>, c: char)
    ensures
        match text::rsplit_once(s, c) {
            Some((a, b)) => s == a + seq![c] + b && !b.contains(c),
            None => !s.contains(c),
        },
    decreases s.len(),
{
    if s.len() > 0 {
        let front = s.drop_last();
        law_cut_at_the_last(front, c);
        assert(s =~= front.push(s.last()));
        if s.last() == c {
            assert(s.skip(s.len() as int) =~= Seq::empty());
            assert(s =~= s.take(s.len() - 1) + seq![c] + s.skip(s.len() as int));
        } else {
            match text::last_position(front, c) {
                Some(i) => {
                    let a = front.take(i);
                    let b = front.skip(i + 1);
                    assert(text::rsplit_once(front, c) == Some((a, b)));
                    assert(front.len() == (a + seq![c] + b).len());
                    assert(0 <= i < front.len()) by {
                        lemma_last_position_in_range(front, c);
                    }
                    assert(s.take(i) =~= a);
                    assert(s.skip(i + 1) =~= b.push(s.last()));
                    assert(s =~= s.take(i) + seq![c] + s.skip(i + 1));
                    assert forall|k: int| 0 <= k < b.len() + 1 implies #[trigger] s.skip(i + 1)[k]
                        != c by {
                        if k < b.len() {
                            assert(b[k] != c) by {
                                assert(b.contains(b[k]));
                            }
                            assert(s.skip(i + 1)[k] == b[k]);
                        }
                    }
                },
                None => {
                    assert forall|k: int| 0 <= k < s.len() implies s[k] != c by {
                        if k < front.len() {
                            assert(front[k] == s[k]);
                            assert(front.contains(front[k]));
                        }
                    }
                },
            }
        }
    }
}

proof fn lemma_last_position_in_range(s: Seq<char>, c: char)
    ensures
        match text::last_position(s, c) {
            Some(i) => 0 <= i < s.len(),
            None => true,
        },
    decreases s.len(),
{
    if s.len() > 0 {
        lemma_last_position_in_range(s.drop_last(), c);
    }
}

/// Joining one more piece adds the separator and the piece; a single piece stands
/// alone.
pub proof fn law_join_by_pieces(pieces: Seq<Seq<char>>, piece: Seq<char>, sep: Seq<char>)
    ensures
        text::join(Seq::empty(), sep) == Seq::<char>::empty(),
        text::join(seq![piece], sep) == piece,
        pieces.len() > 0 ==> text::join(pieces.push(piece), sep) == text::join(pieces, sep) + sep
            + piece,
{
    assert(pieces.push(piece).drop_last() =~= pieces);
    assert(pieces.push(piece).last() == piece);
}

/// A number is read digit by digit: one more digit multiplies by ten and adds. A
/// text with any other character, or without any, is no number.
pub proof fn law_digits_are_read_in_order(s: Seq<char>, c: char)
    ensures
        text::digits_value(Seq::empty()) is None,
        text::digits_value(s) is Some <==> s.len() > 0 && forall|i: int|
            0 <= i < s.len() ==> '0' <= #[trigger] s[i] && s[i] <= '9',
        '0' <= c && c <= '9' ==> text::digits_value(seq![c]) == Some((c as nat - '0' as nat) as nat),
        '0' <= c && c <= '9' && text::digits_value(s) is Some ==> text::digits_value(s.push(c))
            == Some((10 * text::digits_value(s)->0 + (c as nat - '0' as nat)) as nat),
{
    assert(s.push(c).drop_last() =~= s);
    assert(seq![c].drop_last() =~= Seq::empty());
    reveal_with_fuel(text::decimal_value, 2);
    if text::digits_value(s) is Some {
        assert forall|i: int| 0 <= i < s.len() implies '0' <= #[trigger] s[i] && s[i] <= '9' by {
            assert(text::is_digit(s[i]));
        }
        if '0' <= c && c <= '9' {
            assert forall|i: int| 0 <= i < s.push(c).len() implies text::is_digit(
                #[trigger] s.push(c)[i],
            ) by {
                if i < s.len() {
                    assert(text::is_digit(s[i]));
                }
            }
        }
    }
}

/// A number may have a sign before its digits, `+` or, where it is signed, `-`,
/// and must not be larger than its type can hold.
pub proof fn law_signs_and_limits(digits: Seq<char>, max: nat)
    ensures
        ({
            let value = text::digits_value(digits);
            let fits = value is Some && value->0 <= max;
            let positive = value is Some && value->0 <= 0x7fff_ffff_ffff_ffff;
            let negative = value is Some && value->0 <= 0x8000_0000_0000_0000;
            &&& text::unsigned_value(seq!['+'] + digits, max) == (if fits {
                value
            } else {
                None
            })
            &&& (digits.len() == 0 || digits[0] != '+') ==> text::unsigned_value(digits, max) == (
            if fits {
                value
            } else {
                None
            })
            &&& text::signed_value(seq!['+'] + digits) == (if positive {
                Some(value->0 as int)
            } else {
                None
            })
            &&& text::signed_value(seq!['-'] + digits) == (if negative {
                Some(-(value->0 as int))
            } else {
                None
            })
            &&& (digits.len() == 0 || (digits[0] != '+' && digits[0] != '-'))
                ==> text::signed_value(digits) == (if positive {
                Some(value->0 as int)
            } else {
                None
            })
        }),
{
    assert((seq!['+'] + digits).skip(1) =~= digits);
    assert((seq!['-'] + digits).skip(1) =~= digits);
}

/// Only the words `true` and `false` are truth values.
pub proof fn law_truth_values(s: Seq<char>)
    ensures
        text::bool_value(s) == Some(true) <==> s == seq!['t', 'r', 'u', 'e'],
        text::bool_value(s) == Some(false) <==> s == seq!['f', 'a', 'l', 's', 'e'],
{
    reveal_strlit("true");
    reveal_strlit("false");
    assert("true"@ =~= seq!['t', 'r', 'u', 'e']);
    assert("false"@ =~= seq!['f', 'a', 'l', 's', 'e']);
    assert("true"@.len() != "false"@.len());
}

/// A number is written without leading zeros.
pub proof fn law_decimal_has_no_leading_zero(n: nat)
    ensures
        text::decimal(n).len() > 0,
        n > 0 ==> text::decimal(n)[0] != '0',
        n < 10 ==> text::decimal(n).len() == 1,
    decreases n,
{
    if n >= 10 {
        law_decimal_has_no_leading_zero(n / 10);
        assert(text::decimal(n)[0] == text::decimal(n / 10)[0]);
    }
}

/// A text that is filled up to a width keeps its characters, in order, at the one
/// end, and has spaces at the other; one that is wide enough stays as it is.
pub proof fn law_alignment(s: Seq<char>, width: nat)
    ensures
        ({
            let left = text::left_aligned(s, width);
            let right = text::right_aligned(s, width);
            let n = s.len();
            let full = if n < width { width } else { n };
            &&& left.len() == full && right.len() == full
            &&& left.take(n as int) == s
            &&& forall|i: int| n <= i < full ==> #[trigger] left[i] == ' '
            &&& right.skip(full - n) == s
            &&& forall|i: int| 0 <= i < full - n ==> #[trigger] right[i] == ' '
        }),
{
    let left = text::left_aligned(s, width);
    let right = text::right_aligned(s, width);
    assert(left.take(s.len() as int) =~= s);
    assert(right.skip(right.len() - s.len()) =~= s);
}

/// Names are ordered by the first character in which they differ, and a name
/// stands before what it begins.
pub proof fn law_order_of_names(a: Seq<char>, b: Seq<char>)
    ensures
        text::precedes(a, b) <==> exists|k: int|
            {
                &&& 0 <= k <= a.len() && k < b.len()
                &&& #[trigger] a.take(k) == b.take(k)
                &&& k == a.len() || a[k] < b[k]
            },
    decreases a.len(),
{
    if b.len() == 0 {
    } else if a.len() == 0 {
        assert(a.take(0) =~= b.take(0));
    } else if a[0] != b[0] {
        assert(a.take(0) =~= b.take(0));
        assert forall|k: int|
            0 <= k <= a.len() && k < b.len() && #[trigger] a.take(k) == b.take(k) && (k == a.len()
                || a[k] < b[k]) implies a[0] < b[0] by {
            if k > 0 {
                assert(a.take(k)[0] == b.take(k)[0]);
            }
        }
    } else {
        let x = a.skip(1);
        let y = b.skip(1);
        law_order_of_names(x, y);
        if text::precedes(x, y) {
            let k = choose|k: int|
                {
                    &&& 0 <= k <= x.len() && k < y.len()
                    &&& #[trigger] x.take(k) == y.take(k)
                    &&& k == x.len() || x[k] < y[k]
                };
            assert(a.take(k + 1) =~= seq![a[0]] + x.take(k));
            assert(b.take(k + 1) =~= seq![b[0]] + y.take(k));
            assert(a.take(k + 1) == b.take(k + 1));
        }
        assert forall|k: int|
            0 <= k <= a.len() && k < b.len() && #[trigger] a.take(k) == b.take(k) && (k == a.len()
                || a[k] < b[k]) implies text::precedes(a, b) by {
            assert(k > 0);
            assert(x.take(k - 1) =~= a.take(k).skip(1));
            assert(y.take(k - 1) =~= b.take(k).skip(1));
            assert(x.take(k - 1) == y.take(k - 1));
        }
    }
}

/// A list in ascending order has its names in the order of names, each once.
pub proof fn law_ascending_lists(list: Seq<Seq<char>>)
    ensures
        names::ascending(list) <==> forall|i: int, j: int|
            0 <= i < j < list.len() ==> text::precedes(#[trigger] list[i], #[trigger] list[j]),
        names::ascending(list) ==> list.no_duplicates(),
{
    if names::ascending(list) {
        assert forall|i: int, j: int| 0 <= i < list.len() && 0 <= j < list.len() && i != j implies
            list[i] != list[j] by {
            names::lemma_irreflexive(list[i]);
            if i < j {
                assert(text::precedes(list[i], list[j]));
            } else {
                assert(text::precedes(list[j], list[i]));
            }
        }
    }
}

/// An error that is seen from a step has the step's message first and the cause
/// behind it, unchanged.
pub proof fn law_error_chains(message: Seq<char>, cause: Chain, place: Seq<char>)
    ensures
        error::single(message).len() == 1 && error::single(message)[0] == message,
        error::wrapped(message, cause).len() == cause.len() + 1,
        error::wrapped(message, cause)[0] == message,
        error::wrapped(message, cause).skip(1) == cause,
        cause.len() > 0 ==> {
            &&& error::first(cause) == cause[0]
            &&& error::located(cause, place).len() == cause.len()
            &&& error::located(cause, place)[0] == cause[0] + place
            &&& error::located(cause, place).skip(1) == cause.skip(1)
        },
{
    assert(error::wrapped(message, cause).skip(1) =~= cause);
    if cause.len() > 0 {
        assert(error::located(cause, place).skip(1) =~= cause.skip(1));
    }
}

/// A time lies in a window if and only if it is not from before 2001, and each
/// bound that is given lets it through on its own: the end, whatever the start
/// is, and the start, whatever the end is.
pub proof fn law_each_bound_counts(ts: int, before: Option<int>, after: Option<int>)
    ensures
        time::in_window(ts, before, after) <==> {
            &&& ts >= 978_307_200 * 1_000_000_000
            &&& forall|end: int| before == Some(end) ==> ts < end
            &&& forall|start: int| after == Some(start) ==> ts > start
        },
        time::in_window(ts, before, after) <==> time::in_window(ts, before, None)
            && time::in_window(ts, None, after),
{
}

/// A number of seconds is an instant of that many whole seconds, if a timestamp
/// can hold it.
pub proof fn law_seconds_are_instants(second: int)
    ensures
        match time::second_instant(second) {
            Some(t) => t == second * 1_000_000_000 && -377_705_023_201 <= second
                <= 253_402_207_200,
            None => second < -377_705_023_201 || second > 253_402_207_200,
        },
{
}

/// Of the readings of a time that a user typed, an instant counts before a civil
/// time, and that before a span; an error comes only where the reading that
/// counts is one, or where there is none.
pub proof fn law_order_of_readings(
    as_instant: Result<int, Seq<char>>,
    as_civil: Option<Result<int, Seq<char>>>,
    as_span: Option<int>,
)
    ensures
        ({
            let r = time::chosen(as_instant, as_civil, as_span);
            &&& forall|t: int|
                as_instant == Ok::<int, Seq<char>>(t) ==> r == Ok::<int, Chain>(t)
            &&& forall|t: int|
                as_instant is Err && as_civil == Some(Ok::<int, Seq<char>>(t)) ==> r == Ok::<
                    int,
                    Chain,
                >(t)
            &&& forall|late: Seq<char>|
                as_instant is Err && as_civil == Some(Err::<int, Seq<char>>(late)) ==> (r
                    matches Err(e) && e.len() == 1 && e[0] == late)
            &&& forall|t: int|
                as_instant is Err && as_civil is None && as_span == Some(t) ==> r == Ok::<
                    int,
                    Chain,
                >(t)
            &&& forall|e: Seq<char>|
                as_instant == Err::<int, Seq<char>>(e) && as_civil is None && as_span is None ==> (r
                    matches Err(chain) && chain.len() == 1 && chain[0]
                    == "could not parse timestamp: "@ + e)
        }),
{
}

/// A list of patterns selects a text if it is empty or some pattern of it, at any
/// position, matches the text; it selects a missing text only if it is empty.
pub proof fn law_any_pattern_selects(patterns: Seq<Pattern>, s: Seq<char>)
    ensures
        pattern::selects(patterns, s) <==> patterns.len() == 0 || exists|i: int|
            0 <= i < patterns.len() && pattern::glob_matches(#[trigger] patterns[i]@, s),
        pattern::selects_optional(patterns, Some(s)) <==> patterns.len() == 0 || exists|i: int|
            0 <= i < patterns.len() && pattern::glob_matches(#[trigger] patterns[i]@, s),
        pattern::selects_optional(patterns, None) <==> patterns.len() == 0,
{
}

/// Two lists of patterns, one behind the other, select what either selects, where
/// neither is empty.
pub proof fn law_pattern_lists_add_up(a: Seq<Pattern>, b: Seq<Pattern>, s: Seq<char>)
    requires
        a.len() > 0,
        b.len() > 0,
    ensures
        pattern::selects(a + b, s) <==> pattern::selects(a, s) || pattern::selects(b, s),
{
    let both = a + b;
    if pattern::selects(a, s) {
        let i = choose|i: int| 0 <= i < a.len() && pattern::glob_matches(#[trigger] a[i]@, s);
        assert(pattern::glob_matches(both[i]@, s));
    }
    if pattern::selects(b, s) {
        let i = choose|i: int| 0 <= i < b.len() && pattern::glob_matches(#[trigger] b[i]@, s);
        assert(pattern::glob_matches(both[a.len() + i]@, s));
    }
    if pattern::selects(both, s) {
        let i = choose|i: int|
            0 <= i < both.len() && pattern::glob_matches(#[trigger] both[i]@, s);
        if i < a.len() {
            assert(pattern::glob_matches(a[i]@, s));
        } else {
            assert(pattern::glob_matches(b[i - a.len()]@, s));
        }
    }
}

/// Verdicts select if one of them is favourable, wherever it stands, or there are
/// none.
pub proof fn law_any_verdict_selects(verdicts: Seq<bool>)
    ensures
        pattern::verdict(verdicts) <==> verdicts.len() == 0 || exists|i: int|
            0 <= i < verdicts.len() && #[trigger] verdicts[i],
{
    if verdicts.contains(true) {
        let i = choose|i: int| 0 <= i < verdicts.len() && verdicts[i] == true;
        assert(verdicts[i]);
    }
    if exists|i: int| 0 <= i < verdicts.len() && #[trigger] verdicts[i] {
        let i = choose|i: int| 0 <= i < verdicts.len() && #[trigger] verdicts[i];
        assert(verdicts[i] == true);
    }
}

/// A list of patterns selects a sled if it is empty, or some pattern of it, at any
/// position, is the number of the sled's cubby, or, where the cubby is unknown or
/// the pattern is no number, matches the UUID or the serial number.
pub proof fn law_sleds_are_selected(patterns: Seq<Pattern>, sled: Sled)
    ensures
        sled::sled_selected(patterns, sled) <==> patterns.len() == 0 || exists|i: int|
            {
                let text = #[trigger] patterns[i]@;
                let number = text::unsigned_value(text, 65535);
                &&& 0 <= i < patterns.len()
                &&& if sled.cubby is Some && number is Some {
                    number->0 == sled.cubby->0
                } else {
                    pattern::glob_matches(text, sled.uuid) || pattern::glob_matches(
                        text,
                        sled.serial,
                    )
                }
            },
{
    if patterns.len() > 0 && sled::sled_selected(patterns, sled) {
        let i = choose|i: int|
            0 <= i < patterns.len() && sled::sled_matches(#[trigger] patterns[i]@, sled);
        let text = patterns[i]@;
    }
    if patterns.len() > 0 && exists|i: int|
        {
            let text = #[trigger] patterns[i]@;
            let number = text::unsigned_value(text, 65535);
            &&& 0 <= i < patterns.len()
            &&& if sled.cubby is Some && number is Some {
                number->0 == sled.cubby->0
            } else {
                pattern::glob_matches(text, sled.uuid) || pattern::glob_matches(text, sled.serial)
            }
        } {
        let i = choose|i: int|
            {
                let text = #[trigger] patterns[i]@;
                let number = text::unsigned_value(text, 65535);
                &&& 0 <= i < patterns.len()
                &&& if sled.cubby is Some && number is Some {
                    number->0 == sled.cubby->0
                } else {
                    pattern::glob_matches(text, sled.uuid) || pattern::glob_matches(
                        text,
                        sled.serial,
                    )
                }
            };
        assert(sled::sled_matches(patterns[i]@, sled));
    }
}

/// The verdict on one pattern for a sled: the cubby decides where both are
/// numbers, the names decide otherwise.
pub proof fn law_cubby_or_names_decide(cubby: Option<u16>, pattern: Seq<char>, by_name: bool)
    ensures
        cubby is Some && text::unsigned_value(pattern, 65535) is Some ==> sled::chosen_by(
            cubby,
            pattern,
            by_name,
        ) == (text::unsigned_value(pattern, 65535)->0 == cubby->0),
        cubby is None || text::unsigned_value(pattern, 65535) is None ==> sled::chosen_by(
            cubby,
            pattern,
            by_name,
        ) == by_name,
{
}

/// A `sled.txt` says what stands between the quotes behind the first
/// ` serial_number: `, and between the first ` is_scrimlet: ` and the comma behind
/// it; where the latter is no truth value, or either is missing, it says nothing.
pub proof fn law_sled_txt_fields(s: Seq<char>)
    ensures
        match sled::sled_txt(s) {
            Some((serial, flag)) => {
                &&& text::between(s, " serial_number: \""@, "\""@) == Some(serial)
                &&& text::between(s, " is_scrimlet: "@, ","@) == Some(
                    if flag {
                        "true"@
                    } else {
                        "false"@
                    },
                )
            },
            None => {
                ||| text::between(s, " serial_number: \""@, "\""@) is None
                ||| text::between(s, " is_scrimlet: "@, ","@) is None
                ||| (text::between(s, " is_scrimlet: "@, ","@)->0 != "true"@ && text::between(
                    s,
                    " is_scrimlet: "@,
                    ","@,
                )->0 != "false"@)
            },
        },
{
}

/// Sleds without a cubby stand before all others, and the others in the order of
/// the numbers of their cubbies.
pub proof fn law_order_of_cubbies(a: u16, b: u16)
    ensures
        sled::rank(None) < sled::rank(Some(a)),
        sled::rank(Some(a)) < sled::rank(Some(b)) <==> a < b,
        sled::rank(Some(a)) == sled::rank(Some(b)) <==> a == b,
{
}

/// The listing of sleds holds every sled of the inventory once, in the order of
/// the UUIDs.
pub proof fn law_every_sled_is_listed(sleds: Map<Seq<char>, Sled>)
    requires
        sleds.dom().finite(),
    ensures
        ({
            let list = sled::listed(sleds);
            exists|uuids: Seq<Seq<char>>|
                {
                    &&& #[trigger] uuids.len() == list.len()
                    &&& forall|i: int, j: int|
                        0 <= i < j < uuids.len() ==> text::precedes(
                            #[trigger] uuids[i],
                            #[trigger] uuids[j],
                        )
                    &&& forall|uuid: Seq<char>| #[trigger]
                        sleds.contains_key(uuid) <==> uuids.contains(uuid)
                    &&& forall|i: int|
                        0 <= i < uuids.len() ==> #[trigger] list[i] == sleds[uuids[i]]
                }
        }),
{
    let uuids = names::sorted(sleds.dom());
    names::lemma_sorted_of_finite(sleds.dom());
    assert forall|uuid: Seq<char>| #[trigger]
        sleds.contains_key(uuid) <==> uuids.contains(uuid) by {
        assert(uuids.to_set().contains(uuid) == sleds.dom().contains(uuid));
    }
    assert(uuids.len() == sled::listed(sleds).len());
}

} // verus!
