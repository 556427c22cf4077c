//! Laws of the listings: which rows a table has, in which order, and what each
//! row holds.
use crate::ereport;
use crate::ereport::Candidate;
use crate::ereport::Entry;
use crate::laws;
use crate::listing;
use crate::names;
use crate::pattern::Pattern;
use crate::sled;
use crate::sled::Inventory;
use crate::sled::Sled;
use crate::text;
use vstd::prelude::*;

verus! {

proof fn lemma_one_more_row(rows: Seq<Seq<char>>)
    ensures
        rows.len() == 0 ==> rows.flatten() == Seq::<char>::empty(),
        rows.len() > 0 ==> rows.flatten() == rows.drop_last().flatten() + rows.last(),
{
    rows.lemma_flatten_and_flatten_alt_are_equivalent();
    if rows.len() > 0 {
        rows.drop_last().lemma_flatten_and_flatten_alt_are_equivalent();
    }
}

/// Whether `a` stands before `b` in a listing by cubby: an unknown cubby before
/// every known one, a smaller number before a larger one, and the order of the
/// names for those whose cubbies do not differ.
pub open spec fn stands_before(
    a: (Option<u16>, Seq<char>),
    b: (Option<u16>, Seq<char>),
) -> bool {
    match (a.0, b.0) {
        (None, None) => text::precedes(a.1, b.1),
        (None, Some(_)) => true,
        (Some(_), None) => false,
        (Some(x), Some(y)) => x < y || (x == y && text::precedes(a.1, b.1)),
    }
}

/// The number of a cubby, on the right of two columns; nothing but spaces where
/// the cubby is unknown.
pub open spec fn cubby_cell(cubby: Option<u16>) -> Seq<char> {
    match cubby {
        None => seq![' ', ' '],
        Some(n) => text::right_aligned(text::decimal(n as nat), 2),
    }
}

proof fn lemma_cubby_cell(cubby: Option<u16>)
    ensures
        cubby_cell(cubby) == text::right_aligned(listing::cubby_text(cubby), 2),
{
    assert(text::right_aligned(Seq::empty(), 2) =~= seq![' ', ' ']);
}

/// The order in which a map by name is listed by cubby: each name once, in the
/// order of [`stands_before`].
proof fn lemma_listed_by_cubby(list: Seq<Seq<char>>, cubbies: Seq<Option<u16>>)
    requires
        names::ascending(list),
        cubbies.len() == list.len(),
    ensures
        ({
            let order = sled::by_cubby(cubbies, cubbies.len());
            &&& order.len() == list.len()
            &&& forall|k: int| 0 <= k < order.len() ==> 0 <= #[trigger] order[k] < list.len()
            &&& forall|i: int| 0 <= i < list.len() ==> #[trigger] order.contains(i)
            &&& forall|j: int, k: int|
                0 <= j < k < order.len() ==> stands_before(
                    (cubbies[#[trigger] order[j]], list[order[j]]),
                    (cubbies[#[trigger] order[k]], list[order[k]]),
                )
        }),
{
    let order = sled::by_cubby(cubbies, cubbies.len());
    laws::law_listing_order(cubbies, cubbies.len());
    assert forall|j: int, k: int| 0 <= j < k < order.len() implies stands_before(
        (cubbies[#[trigger] order[j]], list[order[j]]),
        (cubbies[#[trigger] order[k]], list[order[k]]),
    ) by {
        assert(laws::belongs_before(cubbies, order[j], order[k]));
        assert(0 <= order[j] < list.len() && 0 <= order[k] < list.len());
    }
}

proof fn lemma_unhealthy_rows(
    serials: Seq<Seq<char>>,
    cubbies: Seq<Option<u16>>,
    order: Seq<int>,
    n: int,
)
    requires
        0 <= n <= order.len(),
    ensures
        listing::unhealthy_rows(serials, cubbies, order, n) == Seq::new(
            n as nat,
            |k: int| cubby_cell(cubbies[order[k]]) + "\t"@ + serials[order[k]] + "\n"@,
        ).flatten(),
    decreases n,
{
    let rows = Seq::new(
        n as nat,
        |k: int| cubby_cell(cubbies[order[k]]) + "\t"@ + serials[order[k]] + "\n"@,
    );
    lemma_one_more_row(rows);
    if n > 0 {
        lemma_unhealthy_rows(serials, cubbies, order, n - 1);
        lemma_cubby_cell(cubbies[order[n - 1]]);
        assert(rows.drop_last() =~= Seq::new(
            (n - 1) as nat,
            |k: int| cubby_cell(cubbies[order[k]]) + "\t"@ + serials[order[k]] + "\n"@,
        ));
    }
}

/// The table of unhealthy sleds has exactly one row for each serial number that
/// the inventory holds, and each row is made of the cubby that the inventory
/// holds for that serial number, a tab and the serial number itself. The rows
/// stand in the order of the cubbies, and there is no table without any.
pub proof fn law_unhealthy_table_pairs_each_serial_with_its_cubby(
    unhealthy: Map<Seq<char>, Option<u16>>,
)
    requires
        unhealthy.dom().finite(),
    ensures
        unhealthy.dom() == Set::<Seq<char>>::empty() ==> listing::unhealthy_table(unhealthy)
            == Seq::<char>::empty(),
        unhealthy.dom() != Set::<Seq<char>>::empty() ==> exists|serials: Seq<Seq<char>>|
            {
                &&& #[trigger] serials.no_duplicates()
                &&& forall|s: Seq<char>| #[trigger]
                    unhealthy.contains_key(s) <==> serials.contains(s)
                &&& forall|j: int, k: int|
                    0 <= j < k < serials.len() ==> stands_before(
                        (unhealthy[#[trigger] serials[j]], serials[j]),
                        (unhealthy[#[trigger] serials[k]], serials[k]),
                    )
                &&& listing::unhealthy_table(unhealthy) == "\nUNHEALTHY SLEDS\nCUBBY\tSERIAL\n"@
                    + serials.map_values(
                    |s: Seq<char>| cubby_cell(unhealthy[s]) + "\t"@ + s + "\n"@,
                ).flatten()
            },
{
    reveal_strlit("\nUNHEALTHY SLEDS\nCUBBY\tSERIAL\n");
    reveal_strlit("\nUNHEALTHY SLEDS\n");
    reveal_strlit("\tSERIAL\n");
    reveal_strlit("CUBBY");
    let list = names::sorted(unhealthy.dom());
    names::lemma_sorted_of_finite(unhealthy.dom());
    let cubbies = list.map_values(|s: Seq<char>| unhealthy[s]);
    let order = sled::by_cubby(cubbies, cubbies.len());
    if list.len() == 0 {
        assert(unhealthy.dom() =~= Set::empty()) by {
            assert(list.to_set() =~= unhealthy.dom());
        }
    } else {
        assert(unhealthy.dom().contains(list[0])) by {
            assert(list.to_set().contains(list[0]));
        }
        lemma_listed_by_cubby(list, cubbies);
        let serials = Seq::new(order.len(), |k: int| list[order[k]]);
        assert forall|j: int, k: int| 0 <= j < k < serials.len() implies stands_before(
            (unhealthy[#[trigger] serials[j]], serials[j]),
            (unhealthy[#[trigger] serials[k]], serials[k]),
        ) by {
            assert(0 <= order[j] < list.len() && 0 <= order[k] < list.len());
        }
        assert forall|j: int, k: int|
            0 <= j < serials.len() && 0 <= k < serials.len() && j != k implies serials[j]
            != serials[k] by {
            names::lemma_irreflexive(serials[j]);
            if j < k {
                assert(stands_before((unhealthy[serials[j]], serials[j]), (unhealthy[serials[k]], serials[k])));
            } else {
                assert(stands_before((unhealthy[serials[k]], serials[k]), (unhealthy[serials[j]], serials[j])));
            }
        }
        assert forall|s: Seq<char>| #[trigger]
            unhealthy.contains_key(s) <==> serials.contains(s) by {
            assert(list.to_set().contains(s) == unhealthy.dom().contains(s));
            if list.contains(s) {
                let i = choose|i: int| 0 <= i < list.len() && list[i] == s;
                assert(order.contains(i));
                let k = choose|k: int| 0 <= k < order.len() && order[k] == i;
                assert(serials[k] == s);
            }
            if serials.contains(s) {
                let k = choose|k: int| 0 <= k < serials.len() && serials[k] == s;
                assert(0 <= order[k] < list.len());
                assert(list[order[k]] == s);
            }
        }
        lemma_unhealthy_rows(list, cubbies, order, list.len() as int);
        assert(serials.map_values(
            |s: Seq<char>| cubby_cell(unhealthy[s]) + "\t"@ + s + "\n"@,
        ) =~= Seq::new(
            list.len(),
            |k: int| cubby_cell(cubbies[order[k]]) + "\t"@ + list[order[k]] + "\n"@,
        ));
        assert(text::right_aligned("CUBBY"@, 2) =~= "CUBBY"@);
        assert("\nUNHEALTHY SLEDS\n"@ + "CUBBY"@ + "\tSERIAL\n"@
            =~= "\nUNHEALTHY SLEDS\nCUBBY\tSERIAL\n"@);
        assert(serials.no_duplicates());
    }
}

/// The heading of a table that names sleds, without its last column.
pub open spec fn identity_columns() -> Seq<char> {
    "CUBBY\t"@ + text::left_aligned("SERIAL"@, 11) + "\t"@ + text::left_aligned("ID"@, 36) + "\t"@
}

proof fn lemma_identity_columns()
    ensures
        identity_columns() == listing::identity_heading(),
{
    reveal_strlit("CUBBY\t");
    reveal_strlit("CUBBY");
    reveal_strlit("\t");
    assert(text::right_aligned("CUBBY"@, 2) =~= "CUBBY"@);
    assert("CUBBY"@ + "\t"@ =~= "CUBBY\t"@);
}

/// What a table says of one sled, with `last` in its last column.
pub open spec fn sled_line(sled: Sled, last: Seq<char>) -> Seq<char> {
    cubby_cell(sled.cubby) + "\t"@ + sled.serial + "\t"@ + sled.uuid + "\t"@ + last + "\n"@
}

/// What the table of sleds says of one sled.
pub open spec fn scrimlet_line(sled: Sled) -> Seq<char> {
    sled_line(
        sled,
        if sled.is_scrimlet {
            "    true"@
        } else {
            "   false"@
        },
    )
}

proof fn lemma_scrimlet_line(sled: Sled)
    ensures
        scrimlet_line(sled) == listing::identity_row(
            sled,
            text::right_aligned(listing::flag_text(sled.is_scrimlet), 8),
        ),
{
    reveal_strlit("    true");
    reveal_strlit("   false");
    reveal_strlit("true");
    reveal_strlit("false");
    lemma_cubby_cell(sled.cubby);
    assert(text::right_aligned("true"@, 8) =~= "    true"@);
    assert(text::right_aligned("false"@, 8) =~= "   false"@);
}

proof fn lemma_sled_rows(list: Seq<Sled>, order: Seq<int>, n: int)
    requires
        0 <= n <= order.len(),
    ensures
        listing::sled_rows(list, order, n) == Seq::new(
            n as nat,
            |k: int| scrimlet_line(list[order[k]]),
        ).flatten(),
    decreases n,
{
    let rows = Seq::new(n as nat, |k: int| scrimlet_line(list[order[k]]));
    lemma_one_more_row(rows);
    if n > 0 {
        lemma_sled_rows(list, order, n - 1);
        lemma_scrimlet_line(list[order[n - 1]]);
        assert(rows.drop_last() =~= Seq::new(
            (n - 1) as nat,
            |k: int| scrimlet_line(list[order[k]]),
        ));
    }
}

/// The table of sleds has exactly one row for each sled of the inventory, with
/// that sled's own cubby, serial number, UUID and whether it is a scrimlet, in the
/// order of the cubbies.
pub proof fn law_sled_table_has_a_row_for_each_sled(sleds: Map<Seq<char>, Sled>)
    requires
        sleds.dom().finite(),
    ensures
        exists|uuids: Seq<Seq<char>>|
            {
                &&& #[trigger] uuids.no_duplicates()
                &&& forall|s: Seq<char>| #[trigger]
                    sleds.contains_key(s) <==> uuids.contains(s)
                &&& forall|j: int, k: int|
                    0 <= j < k < uuids.len() ==> stands_before(
                        (sleds[#[trigger] uuids[j]].cubby, uuids[j]),
                        (sleds[#[trigger] uuids[k]].cubby, uuids[k]),
                    )
                &&& listing::sled_table(sleds) == identity_columns() + "SCRIMLET\n"@
                    + uuids.map_values(|s: Seq<char>| scrimlet_line(sleds[s])).flatten()
            },
{
    lemma_identity_columns();
    let all = names::sorted(sleds.dom());
    names::lemma_sorted_of_finite(sleds.dom());
    let list = sled::listed(sleds);
    let cubbies = listing::cubbies(list);
    let order = sled::by_cubby(cubbies, cubbies.len());
    lemma_listed_by_cubby(all, cubbies);
    let uuids = Seq::new(order.len(), |k: int| all[order[k]]);
    assert forall|j: int, k: int| 0 <= j < k < uuids.len() implies stands_before(
        (sleds[#[trigger] uuids[j]].cubby, uuids[j]),
        (sleds[#[trigger] uuids[k]].cubby, uuids[k]),
    ) by {
        assert(0 <= order[j] < all.len() && 0 <= order[k] < all.len());
    }
    assert forall|j: int, k: int|
        0 <= j < uuids.len() && 0 <= k < uuids.len() && j != k implies uuids[j] != uuids[k] by {
        names::lemma_irreflexive(uuids[j]);
        if j < k {
            assert(stands_before((sleds[uuids[j]].cubby, uuids[j]), (sleds[uuids[k]].cubby, uuids[k])));
        } else {
            assert(stands_before((sleds[uuids[k]].cubby, uuids[k]), (sleds[uuids[j]].cubby, uuids[j])));
        }
    }
    assert forall|s: Seq<char>| #[trigger] sleds.contains_key(s) <==> uuids.contains(s) by {
        assert(all.to_set().contains(s) == sleds.dom().contains(s));
        if all.contains(s) {
            let i = choose|i: int| 0 <= i < all.len() && all[i] == s;
            assert(order.contains(i));
            let k = choose|k: int| 0 <= k < order.len() && order[k] == i;
            assert(uuids[k] == s);
        }
        if uuids.contains(s) {
            let k = choose|k: int| 0 <= k < uuids.len() && uuids[k] == s;
            assert(0 <= order[k] < all.len());
            assert(all[order[k]] == s);
        }
    }
    lemma_sled_rows(list, order, list.len() as int);
    assert(uuids.map_values(|s: Seq<char>| scrimlet_line(sleds[s])) =~= Seq::new(
        list.len(),
        |k: int| scrimlet_line(list[order[k]]),
    ));
    assert(uuids.no_duplicates());
}

/// What the table of incomplete sleds says of one sled: nothing, if it has
/// services and zones; else what is missing.
pub open spec fn missing_line(sled: Sled) -> Seq<char> {
    if sled.services.len() > 0 && sled.zones.len() > 0 {
        Seq::empty()
    } else if sled.services.len() > 0 {
        sled_line(sled, "zones"@)
    } else if sled.zones.len() > 0 {
        sled_line(sled, "services"@)
    } else {
        sled_line(sled, "services, zones"@)
    }
}

proof fn lemma_incomplete_rows(list: Seq<Sled>, n: int)
    requires
        0 <= n <= list.len(),
    ensures
        listing::incomplete_rows(list, n) == list.take(n).map_values(
            |s: Sled| missing_line(s),
        ).flatten(),
    decreases n,
{
    let rows = list.take(n).map_values(|s: Sled| missing_line(s));
    lemma_one_more_row(rows);
    if n > 0 {
        lemma_incomplete_rows(list, n - 1);
        lemma_cubby_cell(list[n - 1].cubby);
        assert(rows.drop_last() =~= list.take(n - 1).map_values(|s: Sled| missing_line(s)));
        assert(listing::incomplete_rows(list, n - 1) + Seq::<char>::empty()
            =~= listing::incomplete_rows(list, n - 1));
    }
}

/// The table of incomplete sleds has exactly one row for each sled without
/// services or zones, in the order of the UUIDs, which says of that sled what is
/// missing, and there is no table if no sled is incomplete.
pub proof fn law_incomplete_table_names_what_is_missing(sleds: Map<Seq<char>, Sled>)
    requires
        sleds.dom().finite(),
    ensures
        (forall|s: Seq<char>| #[trigger]
            sleds.contains_key(s) ==> sleds[s].services.len() > 0 && sleds[s].zones.len() > 0)
            ==> listing::incomplete_table(sleds) == Seq::<char>::empty(),
        (exists|s: Seq<char>| #[trigger]
            sleds.contains_key(s) && (sleds[s].services.len() == 0 || sleds[s].zones.len() == 0))
            ==> exists|uuids: Seq<Seq<char>>|
            {
                &&& #[trigger] uuids.no_duplicates()
                &&& forall|s: Seq<char>| #[trigger]
                    sleds.contains_key(s) <==> uuids.contains(s)
                &&& forall|j: int, k: int|
                    0 <= j < k < uuids.len() ==> text::precedes(
                        #[trigger] uuids[j],
                        #[trigger] uuids[k],
                    )
                &&& listing::incomplete_table(sleds) == "\nPOSSIBLY UNREACHABLE SLEDS \n"@
                    + identity_columns() + "MISSING BUNDLE OUTPUT\n"@ + uuids.map_values(
                    |s: Seq<char>| missing_line(sleds[s]),
                ).flatten()
            },
{
    lemma_identity_columns();
    let uuids = names::sorted(sleds.dom());
    names::lemma_sorted_of_finite(sleds.dom());
    let list = sled::listed(sleds);
    assert forall|s: Seq<char>| #[trigger] sleds.contains_key(s) <==> uuids.contains(s) by {
        assert(uuids.to_set().contains(s) == sleds.dom().contains(s));
    }
    assert forall|i: int| 0 <= i < list.len() implies sleds.contains_key(#[trigger] uuids[i]) by {
        assert(uuids.contains(uuids[i]));
    }
    if exists|s: Seq<char>| #[trigger]
        sleds.contains_key(s) && (sleds[s].services.len() == 0 || sleds[s].zones.len() == 0) {
        let s = choose|s: Seq<char>| #[trigger]
            sleds.contains_key(s) && (sleds[s].services.len() == 0 || sleds[s].zones.len() == 0);
        let i = choose|i: int| 0 <= i < uuids.len() && uuids[i] == s;
        assert(listing::is_incomplete(list[i]));
    }
    lemma_incomplete_rows(list, list.len() as int);
    assert(list.take(list.len() as int) =~= list);
    assert(list.map_values(|s: Sled| missing_line(s)) =~= uuids.map_values(
        |s: Seq<char>| missing_line(sleds[s]),
    ));
    assert forall|j: int, k: int|
        0 <= j < uuids.len() && 0 <= k < uuids.len() && j != k implies uuids[j] != uuids[k] by {
        names::lemma_irreflexive(uuids[j]);
        if j < k {
            assert(text::precedes(uuids[j], uuids[k]));
        } else {
            assert(text::precedes(uuids[k], uuids[j]));
        }
    }
    assert(uuids.no_duplicates());
}

/// The overview of the sleds is its three tables, one behind the other.
pub proof fn law_overview_has_three_tables(info: Inventory)
    ensures
        listing::sleds_text(info) == listing::sled_table(info.sleds) + listing::unhealthy_table(
            info.unhealthy,
        ) + listing::incomplete_table(info.sleds),
{
}

/// A list of names is written one name on each line, in order.
pub proof fn law_names_stand_on_lines(list: Seq<Seq<char>>)
    ensures
        listing::lines(list) == list.map_values(|s: Seq<char>| s + "\n"@).flatten(),
    decreases list.len(),
{
    let rows = list.map_values(|s: Seq<char>| s + "\n"@);
    lemma_one_more_row(rows);
    if list.len() > 0 {
        law_names_stand_on_lines(list.drop_last());
        assert(rows.drop_last() =~= list.drop_last().map_values(|s: Seq<char>| s + "\n"@));
        assert(listing::lines(list.drop_last()) + list.last() + "\n"@ =~= listing::lines(
            list.drop_last(),
        ) + (list.last() + "\n"@));
    }
}

/// A service, or a zone, is listed if and only if some sled of the inventory that
/// the patterns select has it.
pub proof fn law_listed_services_and_zones(
    sleds: Map<Seq<char>, Sled>,
    patterns: Seq<Pattern>,
    name: Seq<char>,
)
    ensures
        listing::services_of(sleds, patterns).contains(name) <==> exists|uuid: Seq<char>, i: int|
            {
                &&& sleds.contains_key(uuid)
                &&& sled::sled_selected(patterns, sleds[uuid])
                &&& 0 <= i < sleds[uuid].services.len()
                &&& #[trigger] sleds[uuid].services[i] == name
            },
        listing::zones_of(sleds, patterns).contains(name) <==> exists|uuid: Seq<char>, i: int|
            {
                &&& sleds.contains_key(uuid)
                &&& sled::sled_selected(patterns, sleds[uuid])
                &&& 0 <= i < sleds[uuid].zones.len()
                &&& #[trigger] sleds[uuid].zones[i] == name
            },
{
    if listing::services_of(sleds, patterns).contains(name) {
        let uuid = choose|uuid: Seq<char>|
            #[trigger] sleds.contains_key(uuid) && sled::sled_selected(patterns, sleds[uuid])
                && sleds[uuid].services.contains(name);
        let i = choose|i: int|
            0 <= i < sleds[uuid].services.len() && sleds[uuid].services[i] == name;
        assert(sleds[uuid].services[i] == name);
    }
    if listing::zones_of(sleds, patterns).contains(name) {
        let uuid = choose|uuid: Seq<char>|
            #[trigger] sleds.contains_key(uuid) && sled::sled_selected(patterns, sleds[uuid])
                && sleds[uuid].zones.contains(name);
        let i = choose|i: int| 0 <= i < sleds[uuid].zones.len() && sleds[uuid].zones[i] == name;
        assert(sleds[uuid].zones[i] == name);
    }
}

/// What the listing of ereports says of one ereport: its own part, serial number,
/// restart id, ENA and class.
pub open spec fn report_line(entry: Entry, width: nat) -> Seq<char> {
    text::left_aligned(entry.metadata.part, 11) + "\t"@ + text::left_aligned(
        entry.metadata.serial,
        11,
    ) + "\t"@ + text::left_aligned(entry.metadata.restart_id, 36) + "\t"@ + text::right_aligned(
        text::decimal(entry.metadata.ena),
        width,
    ) + "\t"@ + (if entry.class is Some {
        entry.class->0
    } else {
        "unknown"@
    }) + "\n"@
}

/// One more ereport adds its own row to the listing, whatever stands before it,
/// and nothing else.
pub proof fn law_each_ereport_adds_its_row(entries: Seq<Entry>, entry: Entry, width: nat)
    ensures
        ereport::list_rows(Seq::empty(), width) == Seq::<char>::empty(),
        ereport::list_rows(entries.push(entry), width) == ereport::list_rows(entries, width)
            + report_line(entry, width),
{
    assert(entries.push(entry).drop_last() =~= entries);
}

/// Behind the heading the listing has exactly one row for each ereport, in order.
pub proof fn law_listing_has_a_row_for_each_ereport(entries: Seq<Entry>, width: nat)
    ensures
        ereport::list_rows(entries, width) == entries.map_values(
            |e: Entry| report_line(e, width),
        ).flatten(),
        ereport::list_heading(width) == "PART       \tSERIAL     \tRESTART_ID"@ + text::spaces(26)
            + "\t"@ + text::left_aligned("ENA"@, width) + "\tCLASS\n"@,
    decreases entries.len(),
{
    let rows = entries.map_values(|e: Entry| report_line(e, width));
    lemma_one_more_row(rows);
    if entries.len() > 0 {
        law_listing_has_a_row_for_each_ereport(entries.drop_last(), width);
        law_each_ereport_adds_its_row(entries.drop_last(), entries.last(), width);
        assert(entries.drop_last().push(entries.last()) =~= entries);
        assert(rows.drop_last() =~= entries.drop_last().map_values(
            |e: Entry| report_line(e, width),
        ));
    }
    reveal_strlit("PART       \tSERIAL     \tRESTART_ID");
    reveal_strlit("PART");
    reveal_strlit("SERIAL");
    reveal_strlit("RESTART_ID");
    reveal_strlit("\t");
    assert(text::left_aligned("PART"@, 11) + "\t"@ + text::left_aligned("SERIAL"@, 11) + "\t"@
        + text::left_aligned("RESTART_ID"@, 36) =~= "PART       \tSERIAL     \tRESTART_ID"@
        + text::spaces(26));
}

proof fn lemma_some_ena_is_largest(candidates: Seq<Candidate>, n: int)
    requires
        0 < n <= candidates.len(),
    ensures
        exists|k: int|
            0 <= k < n && (#[trigger] candidates[k]).metadata.ena == ereport::max_ena(
                candidates,
                n,
            ),
    decreases n,
{
    if candidates[n - 1].metadata.ena > ereport::max_ena(candidates, n - 1) {
        assert(candidates[n - 1].metadata.ena == ereport::max_ena(candidates, n));
    } else if n > 1 {
        lemma_some_ena_is_largest(candidates, n - 1);
        let k = choose|k: int|
            0 <= k < n - 1 && (#[trigger] candidates[k]).metadata.ena == ereport::max_ena(
                candidates,
                n - 1,
            );
        assert(candidates[k].metadata.ena == ereport::max_ena(candidates, n));
    } else {
        assert(candidates[0].metadata.ena == ereport::max_ena(candidates, n));
    }
}

/// The column of the ENAs is as wide as the widest of them, and as the word `ENA`
/// where there is none.
pub proof fn law_ena_column_is_as_wide_as_needed(candidates: Seq<Candidate>)
    ensures
        candidates.len() == 0 ==> ereport::ena_width(candidates) == 3,
        candidates.len() > 0 ==> exists|k: int|
            0 <= k < candidates.len() && text::decimal(
                (#[trigger] candidates[k]).metadata.ena,
            ).len() == ereport::ena_width(candidates),
        forall|k: int|
            0 <= k < candidates.len() ==> text::decimal(
                (#[trigger] candidates[k]).metadata.ena,
            ).len() <= ereport::ena_width(candidates),
{
    if candidates.len() > 0 {
        lemma_some_ena_is_largest(candidates, candidates.len() as int);
    }
    assert forall|k: int| 0 <= k < candidates.len() implies text::decimal(
        (#[trigger] candidates[k]).metadata.ena,
    ).len() <= ereport::ena_width(candidates) by {
        laws::law_numbers_fit_their_column(candidates, k);
    }
}

/// What is shown of one ereport: its contents as they are, or in a pretty form if
/// they have one, behind a line with its path and before an empty line unless
/// headers are left out.
pub open spec fn shown_report(entry: Entry, no_header: bool) -> Seq<char> {
    let text = match ereport::json_pretty(entry.contents) {
        Some(pretty) => pretty + "\n"@,
        None => entry.contents,
    };
    if no_header {
        text
    } else {
        "==> "@ + entry.path + " <==\n"@ + text + "\n"@
    }
}

/// Every ereport is shown, once, in order, and nothing else is.
pub proof fn law_each_ereport_is_shown(entries: Seq<Entry>, entry: Entry, no_header: bool)
    ensures
        ereport::blocks(entries, no_header) == entries.map_values(
            |e: Entry| shown_report(e, no_header),
        ).flatten(),
        ereport::blocks(entries.push(entry), no_header) == ereport::blocks(entries, no_header)
            + shown_report(entry, no_header),
    decreases entries.len(),
{
    let rows = entries.map_values(|e: Entry| shown_report(e, no_header));
    lemma_one_more_row(rows);
    assert(entries.push(entry).drop_last() =~= entries);
    if entries.len() > 0 {
        law_each_ereport_is_shown(entries.drop_last(), entries.last(), no_header);
        assert(entries.drop_last().push(entries.last()) =~= entries);
        assert(rows.drop_last() =~= entries.drop_last().map_values(
            |e: Entry| shown_report(e, no_header),
        ));
    }
}

} // verus!
