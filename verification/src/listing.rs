//! The text listings of sleds, services and zones.
use crate::inventory;
use crate::inventory::Layout;
use crate::names;
use crate::names::NameMap;
use crate::pattern::Pattern;
use crate::sled;
use crate::sled::{BundleInfo, Inventory, Sled, SledInfo};
use crate::text;
use vstd::prelude::*;

verus! {

/// A cubby number as it is printed: nothing for an unknown one.
pub open spec fn cubby_text(cubby: Option<u16>) -> Seq<char> {
    match cubby {
        Some(n) => text::decimal(n as nat),
        None => Seq::empty(),
    }
}

pub open spec fn flag_text(flag: bool) -> Seq<char> {
    if flag {
        "true"@
    } else {
        "false"@
    }
}

/// The heading of a table of sleds, up to the last column.
pub open spec fn identity_heading() -> Seq<char> {
    text::right_aligned("CUBBY"@, 2) + "\t"@ + text::left_aligned("SERIAL"@, 11) + "\t"@
        + text::left_aligned("ID"@, 36) + "\t"@
}

/// The line of one sled in a table of sleds, with its last column.
pub open spec fn identity_row(sled: Sled, last: Seq<char>) -> Seq<char> {
    text::right_aligned(cubby_text(sled.cubby), 2) + "\t"@ + sled.serial + "\t"@ + sled.uuid + "\t"@
        + last + "\n"@
}

/// The lines of the first `n` sleds of `list`, taken in the order `order`.
pub open spec fn sled_rows(list: Seq<Sled>, order: Seq<int>, n: int) -> Seq<char>
    decreases n,
{
    if n <= 0 {
        Seq::empty()
    } else {
        let sled = list[order[n - 1]];
        sled_rows(list, order, n - 1) + identity_row(
            sled,
            text::right_aligned(flag_text(sled.is_scrimlet), 8),
        )
    }
}

/// The cubbies of a list of sleds.
pub open spec fn cubbies(list: Seq<Sled>) -> Seq<Option<u16>> {
    list.map_values(|s: Sled| s.cubby)
}

/// The table of all sleds, in the order of their cubbies.
pub open spec fn sled_table(sleds: Map<Seq<char>, Sled>) -> Seq<char> {
    let list = sled::listed(sleds);
    let order = sled::by_cubby(cubbies(list), list.len());
    identity_heading() + "SCRIMLET\n"@ + sled_rows(list, order, list.len() as int)
}

/// The lines of the first `n` unhealthy sleds, taken in the order `order`.
pub open spec fn unhealthy_rows(
    serials: Seq<Seq<char>>,
    cubbies: Seq<Option<u16>>,
    order: Seq<int>,
    n: int,
) -> Seq<char>
    decreases n,
{
    if n <= 0 {
        Seq::empty()
    } else {
        let i = order[n - 1];
        unhealthy_rows(serials, cubbies, order, n - 1) + (text::right_aligned(
            cubby_text(cubbies[i]),
            2,
        ) + "\t"@ + serials[i] + "\n"@)
    }
}

/// The table of the unhealthy sleds, in the order of their cubbies; nothing
/// where there are none.
pub open spec fn unhealthy_table(unhealthy: Map<Seq<char>, Option<u16>>) -> Seq<char> {
    let serials = names::sorted(unhealthy.dom());
    let cubbies = serials.map_values(|s: Seq<char>| unhealthy[s]);
    if serials.len() == 0 {
        Seq::empty()
    } else {
        "\nUNHEALTHY SLEDS\n"@ + text::right_aligned("CUBBY"@, 2) + "\tSERIAL\n"@
            + unhealthy_rows(
            serials,
            cubbies,
            sled::by_cubby(cubbies, cubbies.len()),
            serials.len() as int,
        )
    }
}

/// The bundle holds no service, or no zone, of the sled.
pub open spec fn is_incomplete(sled: Sled) -> bool {
    sled.services.len() == 0 || sled.zones.len() == 0
}

/// What of the sled's output the bundle lacks.
pub open spec fn missing_output(sled: Sled) -> Seq<char> {
    if sled.services.len() == 0 && sled.zones.len() == 0 {
        "services, zones"@
    } else if sled.services.len() == 0 {
        "services"@
    } else {
        "zones"@
    }
}

/// The lines of the incomplete sleds among the first `n` of `list`.
pub open spec fn incomplete_rows(list: Seq<Sled>, n: int) -> Seq<char>
    decreases n,
{
    if n <= 0 {
        Seq::empty()
    } else if is_incomplete(list[n - 1]) {
        incomplete_rows(list, n - 1) + identity_row(list[n - 1], missing_output(list[n - 1]))
    } else {
        incomplete_rows(list, n - 1)
    }
}

pub open spec fn any_incomplete(list: Seq<Sled>) -> bool {
    exists|i: int| 0 <= i < list.len() && is_incomplete(#[trigger] list[i])
}

/// The table of the incomplete sleds; nothing where there are none.
pub open spec fn incomplete_table(sleds: Map<Seq<char>, Sled>) -> Seq<char> {
    let list = sled::listed(sleds);
    if any_incomplete(list) {
        "\nPOSSIBLY UNREACHABLE SLEDS \n"@ + identity_heading() + "MISSING BUNDLE OUTPUT\n"@
            + incomplete_rows(list, list.len() as int)
    } else {
        Seq::empty()
    }
}

/// The listing of all sleds: the healthy, the unhealthy, and the incomplete.
pub open spec fn sleds_text(info: Inventory) -> Seq<char> {
    sled_table(info.sleds) + unhealthy_table(info.unhealthy) + incomplete_table(info.sleds)
}

fn push_cubby(out: &mut String, cubby: Option<u16>)
    ensures
        final(out)@ == old(out)@ + text::right_aligned(cubby_text(cubby), 2),
{
    let t = match cubby {
        Some(n) => text::decimal_text(n as u64),
        None => String::new(),
    };
    assert(t@ =~= cubby_text(cubby));
    text::push_right(out, t.as_str(), 2);
}

fn push_identity_heading(out: &mut String)
    ensures
        final(out)@ == old(out)@ + identity_heading(),
{
    text::push_right(out, "CUBBY", 2);
    out.append("\t");
    text::push_left(out, "SERIAL", 11);
    out.append("\t");
    text::push_left(out, "ID", 36);
    out.append("\t");
    assert(out@ =~= old(out)@ + identity_heading());
}

fn push_identity_row(out: &mut String, sled: &SledInfo, last: &str)
    ensures
        final(out)@ == old(out)@ + identity_row(sled@, last@),
{
    push_cubby(out, sled.cubby);
    out.append("\t");
    out.append(sled.serial.as_str());
    out.append("\t");
    out.append(sled.uuid.as_str());
    out.append("\t");
    out.append(last);
    out.append("\n");
    assert(out@ =~= old(out)@ + identity_row(sled@, last@));
}

/// Entry `i` of a map of sleds is entry `i` of its listing.
proof fn lemma_listed(sleds: Map<Seq<char>, SledInfo>, i: int)
    requires
        0 <= i < names::sorted(sleds.dom()).len(),
        sleds.contains_key(names::sorted(sleds.dom())[i]),
    ensures
        sled::sled_values(sleds).dom() == sleds.dom(),
        sled::listed(sled::sled_values(sleds)).len() == names::sorted(sleds.dom()).len(),
        sled::listed(sled::sled_values(sleds))[i] == sleds[names::sorted(sleds.dom())[i]]@,
{
    assert(sled::sled_values(sleds).dom() =~= sleds.dom());
}

proof fn lemma_listed_len(sleds: Map<Seq<char>, SledInfo>)
    ensures
        sled::listed(sled::sled_values(sleds)).len() == names::sorted(sleds.dom()).len(),
{
    assert(sled::sled_values(sleds).dom() =~= sleds.dom());
}

fn push_sled_table(out: &mut String, sleds: &NameMap<SledInfo>)
    ensures
        final(out)@ == old(out)@ + sled_table(sled::sled_values(sleds@)),
{
    let ghost list = sled::listed(sled::sled_values(sleds@));
    proof {
        lemma_listed_len(sleds@);
    }
    let n: usize = sleds.len();
    let mut held: Vec<Option<u16>> = Vec::new();
    let mut i: usize = 0;
    while i < n
        invariant
            n == list.len(),
            n == names::sorted(sleds@.dom()).len(),
            list == sled::listed(sled::sled_values(sleds@)),
            i <= n,
            held.len() == i,
            forall|j: int| 0 <= j < i ==> #[trigger] held[j] == list[j].cubby,
        decreases n - i,
    {
        let s = sleds.value_at(i);
        proof {
            lemma_listed(sleds@, i as int);
        }
        held.push(s.cubby);
        i = i + 1;
    }
    assert(held@ =~= cubbies(list));
    let order = sled::cubby_order(&held);
    let ghost ranks = sled::by_cubby(cubbies(list), list.len());
    push_identity_heading(out);
    out.append("SCRIMLET\n");
    let mut k: usize = 0;
    let ghost start = old(out)@ + identity_heading() + "SCRIMLET\n"@;
    assert(out@ =~= start + sled_rows(list, ranks, 0));
    while k < order.len()
        invariant
            n == list.len(),
            n == names::sorted(sleds@.dom()).len(),
            list == sled::listed(sled::sled_values(sleds@)),
            order.len() == n,
            forall|j: int| 0 <= j < order.len() ==> #[trigger] order[j] < n,
            order@.map_values(|i: usize| i as int) == ranks,
            k <= order.len(),
            out@ == start + sled_rows(list, ranks, k as int),
        decreases order.len() - k,
    {
        let s = sleds.value_at(order[k]);
        proof {
            lemma_listed(sleds@, order[k as int] as int);
            assert(ranks[k as int] == order[k as int]);
        }
        let mut flag = String::new();
        text::push_right(&mut flag, if s.is_scrimlet { "true" } else { "false" }, 8);
        assert(flag@ =~= text::right_aligned(flag_text(s.is_scrimlet), 8));
        push_identity_row(out, s, flag.as_str());
        assert(out@ =~= start + sled_rows(list, ranks, k + 1));
        k = k + 1;
    }
    assert(out@ =~= old(out)@ + sled_table(sled::sled_values(sleds@)));
}

fn push_unhealthy_table(out: &mut String, unhealthy: &NameMap<Option<u16>>)
    ensures
        final(out)@ == old(out)@ + unhealthy_table(unhealthy@),
{
    let ghost serials = names::sorted(unhealthy@.dom());
    let ghost all = serials.map_values(|s: Seq<char>| unhealthy@[s]);
    let n: usize = unhealthy.len();
    if n == 0 {
        assert(out@ =~= old(out)@ + unhealthy_table(unhealthy@));
        return ;
    }
    let mut held: Vec<Option<u16>> = Vec::new();
    let mut i: usize = 0;
    while i < n
        invariant
            n == serials.len(),
            serials == names::sorted(unhealthy@.dom()),
            all == serials.map_values(|s: Seq<char>| unhealthy@[s]),
            i <= n,
            held.len() == i,
            forall|j: int| 0 <= j < i ==> #[trigger] held[j] == all[j],
        decreases n - i,
    {
        held.push(*unhealthy.value_at(i));
        i = i + 1;
    }
    assert(held@ =~= all);
    let order = sled::cubby_order(&held);
    let ghost ranks = sled::by_cubby(all, all.len());
    out.append("\nUNHEALTHY SLEDS\n");
    text::push_right(out, "CUBBY", 2);
    out.append("\tSERIAL\n");
    let ghost start = old(out)@ + "\nUNHEALTHY SLEDS\n"@ + text::right_aligned("CUBBY"@, 2)
        + "\tSERIAL\n"@;
    let mut k: usize = 0;
    assert(out@ =~= start + unhealthy_rows(serials, all, ranks, 0));
    while k < order.len()
        invariant
            n == serials.len(),
            serials == names::sorted(unhealthy@.dom()),
            all == serials.map_values(|s: Seq<char>| unhealthy@[s]),
            order.len() == n,
            forall|j: int| 0 <= j < order.len() ==> #[trigger] order[j] < n,
            order@.map_values(|i: usize| i as int) == ranks,
            k <= order.len(),
            out@ == start + unhealthy_rows(serials, all, ranks, k as int),
        decreases order.len() - k,
    {
        let at: usize = order[k];
        assert(ranks[k as int] == at);
        push_cubby(out, *unhealthy.value_at(at));
        out.append("\t");
        out.append(unhealthy.key_at(at).as_str());
        out.append("\n");
        assert(out@ =~= start + unhealthy_rows(serials, all, ranks, k + 1));
        k = k + 1;
    }
    assert(out@ =~= old(out)@ + unhealthy_table(unhealthy@));
}

fn push_incomplete_table(out: &mut String, sleds: &NameMap<SledInfo>)
    ensures
        final(out)@ == old(out)@ + incomplete_table(sled::sled_values(sleds@)),
{
    let ghost list = sled::listed(sled::sled_values(sleds@));
    proof {
        lemma_listed_len(sleds@);
    }
    let n: usize = sleds.len();
    let mut rows = String::new();
    let mut any = false;
    let mut i: usize = 0;
    assert(rows@ =~= incomplete_rows(list, 0));
    while i < n
        invariant
            n == list.len(),
            n == names::sorted(sleds@.dom()).len(),
            list == sled::listed(sled::sled_values(sleds@)),
            i <= n,
            any == exists|j: int| 0 <= j < i && is_incomplete(#[trigger] list[j]),
            rows@ == incomplete_rows(list, i as int),
        decreases n - i,
    {
        let s = sleds.value_at(i);
        proof {
            lemma_listed(sleds@, i as int);
        }
        let no_services = s.services.len() == 0;
        let no_zones = s.zones.len() == 0;
        if no_services || no_zones {
            any = true;
            assert(is_incomplete(list[i as int]));
            let missing = if no_services && no_zones {
                "services, zones"
            } else if no_services {
                "services"
            } else {
                "zones"
            };
            push_identity_row(&mut rows, s, missing);
        }
        i = i + 1;
    }
    if any {
        out.append("\nPOSSIBLY UNREACHABLE SLEDS \n");
        push_identity_heading(out);
        out.append("MISSING BUNDLE OUTPUT\n");
        out.append(rows.as_str());
    }
    assert(out@ =~= old(out)@ + incomplete_table(sled::sled_values(sleds@)));
}

/// Writes the table of the sleds and that of the unhealthy ones.
pub fn write_health(info: &BundleInfo, out: &mut String)
    ensures
        final(out)@ == old(out)@ + sled_table(info@.sleds) + unhealthy_table(info@.unhealthy),
{
    push_sled_table(out, &info.sleds);
    push_unhealthy_table(out, &info.unhealthy_sleds);
}

/// Writes the listing of all sleds.
pub fn write_sleds(info: &BundleInfo, out: &mut String)
    ensures
        final(out)@ == old(out)@ + sleds_text(info@),
{
    write_health(info, out);
    push_incomplete_table(out, &info.sleds);
    assert(out@ =~= old(out)@ + sleds_text(info@));
}

/// Each name on a line of its own.
pub open spec fn lines(list: Seq<Seq<char>>) -> Seq<char>
    decreases list.len(),
{
    if list.len() == 0 {
        Seq::empty()
    } else {
        lines(list.drop_last()) + list.last() + "\n"@
    }
}

/// The services of the sleds that the patterns select.
pub open spec fn services_of(sleds: Map<Seq<char>, Sled>, patterns: Seq<Pattern>) -> Set<
    Seq<char>,
> {
    Set::new(
        |service: Seq<char>|
            exists|uuid: Seq<char>|
                #[trigger] sleds.contains_key(uuid) && sled::sled_selected(patterns, sleds[uuid])
                    && sleds[uuid].services.contains(service),
    )
}

/// The zones of the sleds that the patterns select.
pub open spec fn zones_of(sleds: Map<Seq<char>, Sled>, patterns: Seq<Pattern>) -> Set<Seq<char>> {
    Set::new(
        |zone: Seq<char>|
            exists|uuid: Seq<char>|
                #[trigger] sleds.contains_key(uuid) && sled::sled_selected(patterns, sleds[uuid])
                    && sleds[uuid].zones.contains(zone),
    )
}

/// Writes each name on a line of its own.
fn push_lines(out: &mut String, list: &Vec<String>)
    ensures
        final(out)@ == old(out)@ + lines(text::texts(list@)),
{
    let ghost all = text::texts(list@);
    let mut i: usize = 0;
    assert(all.take(0) =~= Seq::empty());
    assert(out@ =~= old(out)@ + lines(all.take(0)));
    while i < list.len()
        invariant
            i <= list.len(),
            all == text::texts(list@),
            out@ == old(out)@ + lines(all.take(i as int)),
        decreases list.len() - i,
    {
        out.append(list[i].as_str());
        out.append("\n");
        assert(all.take(i + 1).drop_last() =~= all.take(i as int));
        assert(out@ =~= old(out)@ + lines(all.take(i + 1)));
        i = i + 1;
    }
    assert(all.take(i as int) =~= all);
}

/// Adds every name of `list` to the ascending list `set`.
fn insert_all(set: &mut Vec<String>, list: &Vec<String>)
    requires
        names::ascending(text::texts(old(set)@)),
    ensures
        names::ascending(text::texts(final(set)@)),
        text::texts(final(set)@).to_set() == text::texts(old(set)@).to_set().union(
            text::texts(list@).to_set(),
        ),
{
    let ghost all = text::texts(list@);
    let mut i: usize = 0;
    assert(text::texts(set@).to_set() =~= text::texts(set@).to_set().union(all.take(0).to_set()));
    while i < list.len()
        invariant
            i <= list.len(),
            all == text::texts(list@),
            names::ascending(text::texts(set@)),
            text::texts(set@).to_set() == text::texts(old(set)@).to_set().union(
                all.take(i as int).to_set(),
            ),
        decreases list.len() - i,
    {
        names::insert_name(set, list[i].as_str());
        proof {
            let a = all.take(i as int);
            let b = all.take(i + 1);
            assert(b =~= a.push(all[i as int]));
            assert forall|s: Seq<char>| b.contains(s) <==> a.contains(s) || s == all[i as int] by {
                if a.contains(s) {
                    let k = choose|k: int| 0 <= k < a.len() && a[k] == s;
                    assert(b[k] == s);
                }
                if s == all[i as int] {
                    assert(b[i as int] == s);
                }
            }
            assert(text::texts(set@).to_set() =~= text::texts(old(set)@).to_set().union(
                b.to_set(),
            ));
        }
        i = i + 1;
    }
    assert(all.take(i as int) =~= all);
}

/// What of the first `n` sleds a listing of names gathers.
spec fn gathered(list: Seq<Sled>, patterns: Seq<Pattern>, services: bool, n: int) -> Set<Seq<char>> {
    Set::new(
        |s: Seq<char>|
            exists|i: int|
                0 <= i < n && sled::sled_selected(patterns, #[trigger] list[i]) && (if services {
                    list[i].services
                } else {
                    list[i].zones
                }).contains(s),
    )
}

/// Gathers the services, or the zones, of the sleds that the patterns select.
fn gather(sleds: &NameMap<SledInfo>, patterns: &[Pattern], services: bool) -> (r: Vec<String>)
    ensures
        text::texts(r@) == names::sorted(
            if services {
                services_of(sled::sled_values(sleds@), patterns@)
            } else {
                zones_of(sled::sled_values(sleds@), patterns@)
            },
        ),
{
    let ghost values = sled::sled_values(sleds@);
    let ghost list = sled::listed(values);
    proof {
        lemma_listed_len(sleds@);
    }
    let n: usize = sleds.len();
    let mut set: Vec<String> = Vec::new();
    let mut i: usize = 0;
    assert(text::texts(set@).to_set() =~= gathered(list, patterns@, services, 0));
    while i < n
        invariant
            n == list.len(),
            n == names::sorted(sleds@.dom()).len(),
            values == sled::sled_values(sleds@),
            list == sled::listed(values),
            i <= n,
            names::ascending(text::texts(set@)),
            text::texts(set@).to_set() == gathered(list, patterns@, services, i as int),
        decreases n - i,
    {
        let s = sleds.value_at(i);
        proof {
            lemma_listed(sleds@, i as int);
        }
        let ghost earlier = text::texts(set@).to_set();
        if s.matches_patterns(patterns) {
            insert_all(&mut set, if services { &s.services } else { &s.zones });
        }
        proof {
            let here = if services { list[i as int].services } else { list[i as int].zones };
            assert forall|x: Seq<char>|
                gathered(list, patterns@, services, i + 1).contains(x) <==> earlier.contains(x) || (
                sled::sled_selected(patterns@, list[i as int]) && here.contains(x)) by {
                if earlier.contains(x) {
                    let k = choose|k: int|
                        0 <= k < i && sled::sled_selected(patterns@, #[trigger] list[k]) && (
                        if services { list[k].services } else { list[k].zones }).contains(x);
                    assert(0 <= k < i + 1 && sled::sled_selected(patterns@, list[k]));
                }
            }
            assert(text::texts(set@).to_set() =~= gathered(list, patterns@, services, i + 1));
        }
        i = i + 1;
    }
    proof {
        let want = if services {
            services_of(values, patterns@)
        } else {
            zones_of(values, patterns@)
        };
        let got = gathered(list, patterns@, services, n as int);
        let keys = names::sorted(sleds@.dom());
        assert(values.dom() =~= sleds@.dom());
        assert forall|x: Seq<char>| want.contains(x) <==> got.contains(x) by {
            if want.contains(x) {
                let u = choose|u: Seq<char>|
                    #[trigger] values.contains_key(u) && sled::sled_selected(patterns@, values[u])
                        && (if services { values[u].services } else { values[u].zones }).contains(x);
                assert(keys.to_set().contains(u));
                let k = choose|k: int| 0 <= k < keys.len() && keys[k] == u;
                assert(list[k] == values[u]);
            }
            if got.contains(x) {
                let k = choose|k: int|
                    0 <= k < n && sled::sled_selected(patterns@, #[trigger] list[k]) && (
                    if services { list[k].services } else { list[k].zones }).contains(x);
                assert(list[k] == values[keys[k]]);
                assert(keys.to_set().contains(keys[k]));
                assert(values.contains_key(keys[k]));
            }
        }
        assert(want =~= got);
        names::lemma_sorted(text::texts(set@));
    }
    set
}

/// Writes the services of the selected sleds, in ascending order.
pub fn write_services(info: &BundleInfo, sled_patterns: &[Pattern], out: &mut String)
    ensures
        final(out)@ == old(out)@ + lines(
            names::sorted(services_of(info@.sleds, sled_patterns@)),
        ),
{
    let services = gather(&info.sleds, sled_patterns, true);
    push_lines(out, &services);
}

/// Writes the zones of the selected sleds, in ascending order.
pub fn write_zones(info: &BundleInfo, sled_patterns: &[Pattern], out: &mut String)
    ensures
        final(out)@ == old(out)@ + lines(names::sorted(zones_of(info@.sleds, sled_patterns@))),
{
    let zones = gather(&info.sleds, sled_patterns, false);
    push_lines(out, &zones);
}

/// Writes the services that the names say some selected sled has logs of, in
/// ascending order.
pub fn write_present_services(
    names: &Vec<String>,
    layout: Layout,
    info: &BundleInfo,
    sled_patterns: &[Pattern],
    out: &mut String,
)
    ensures
        final(out)@ == old(out)@ + lines(
            names::sorted(
                inventory::present_services(
                    text::texts(names@),
                    layout,
                    info@.sleds,
                    sled_patterns@,
                ),
            ),
        ),
{
    let services = inventory::gather_present(names, layout, &info.sleds, sled_patterns, true);
    push_lines(out, &services);
}

/// Writes the zones that the names say some selected sled has logs of, in
/// ascending order.
pub fn write_present_zones(
    names: &Vec<String>,
    layout: Layout,
    info: &BundleInfo,
    sled_patterns: &[Pattern],
    out: &mut String,
)
    ensures
        final(out)@ == old(out)@ + lines(
            names::sorted(
                inventory::present_zones(
                    text::texts(names@),
                    layout,
                    info@.sleds,
                    sled_patterns@,
                ),
            ),
        ),
{
    let zones = inventory::gather_present(names, layout, &info.sleds, sled_patterns, false);
    push_lines(out, &zones);
}

} // verus!
