//! Laws of the inventory: which sleds it holds, what it holds of each, and what
//! `sled_info.json` changes in it.
use crate::inventory;
use crate::inventory::Document;
use crate::inventory::Identity;
use crate::inventory::Layout;
use crate::inventory::Warned;
use crate::names;
use crate::pattern::Pattern;
use crate::reader;
use crate::sled;
use crate::sled::Inventory;
use crate::sled::Sled;
use crate::source;
use crate::source::Chain;
use crate::source::SourceCall;
use crate::text;
use vstd::prelude::*;

verus! {

proof fn lemma_records_of_earlier(names: Seq<Seq<char>>, name: Seq<char>, n: int, layout: Layout)
    requires
        n <= names.len(),
    ensures
        inventory::records(names.push(name), n, layout) == inventory::records(names, n, layout),
    decreases n,
{
    if n > 0 {
        lemma_records_of_earlier(names, name, n - 1, layout);
        assert(names.push(name)[n - 1] == names[n - 1]);
    }
}

/// The records are the names that are paths of records, each as often and in the
/// order in which it is listed.
pub proof fn law_records_are_the_sled_txts(names: Seq<Seq<char>>, name: Seq<char>, layout: Layout)
    ensures
        inventory::records(names, names.len() as int, layout) == names.filter(
            |s: Seq<char>| inventory::is_sled_txt(s, layout),
        ),
        inventory::records(names.push(name), (names.len() + 1) as int, layout)
            == inventory::records(names, names.len() as int, layout) + (
        if inventory::is_sled_txt(name, layout) {
            seq![name]
        } else {
            Seq::empty()
        }),
    decreases names.len(),
{
    let f = |s: Seq<char>| inventory::is_sled_txt(s, layout);
    reveal(Seq::filter);
    lemma_records_of_earlier(names, name, names.len() as int, layout);
    assert(names.push(name)[names.len() as int] == name);
    if names.len() > 0 {
        let front = names.drop_last();
        law_records_are_the_sled_txts(front, names.last(), layout);
        assert(front.push(names.last()) =~= names);
        lemma_records_of_earlier(front, names.last(), front.len() as int, layout);
    }
}

/// A sled has a zone, or a service, if and only if some name in the listing says
/// so of that very sled.
pub proof fn law_zones_and_services_come_from_names(
    names: Seq<Seq<char>>,
    layout: Layout,
    uuid: Seq<char>,
    x: Seq<char>,
)
    ensures
        inventory::zones_of(names, layout, uuid).contains(x) <==> exists|i: int|
            {
                &&& 0 <= i < names.len()
                &&& #[trigger] inventory::spot_of(names[i], layout) is Some
                &&& inventory::spot_of(names[i], layout)->0.sled == uuid
                &&& inventory::spot_of(names[i], layout)->0.zone == Some(x)
            },
        inventory::services_of(names, layout, uuid).contains(x) <==> exists|i: int|
            {
                &&& 0 <= i < names.len()
                &&& #[trigger] inventory::spot_of(names[i], layout) is Some
                &&& inventory::spot_of(names[i], layout)->0.sled == uuid
                &&& inventory::spot_of(names[i], layout)->0.service == Some(x)
            },
{
    if inventory::zones_of(names, layout, uuid).contains(x) {
        let i = choose|i: int|
            0 <= i < names.len() && (#[trigger] inventory::spot_of(names[i], layout) matches Some(
                spot,
            ) && spot.sled == uuid && spot.zone == Some(x));
        assert(inventory::spot_of(names[i], layout) is Some);
    }
    if inventory::services_of(names, layout, uuid).contains(x) {
        let i = choose|i: int|
            0 <= i < names.len() && (#[trigger] inventory::spot_of(names[i], layout) matches Some(
                spot,
            ) && spot.sled == uuid && spot.service == Some(x));
        assert(inventory::spot_of(names[i], layout) is Some);
    }
}

/// What the inventory holds of the sled of record number `j`: the serial number
/// and the flag that its record says, no cubby, and, unless an earlier record is
/// that of the same sled, the zones and services that the names tell, in order.
pub open spec fn is_sled_of_record(
    sled: Sled,
    all: Seq<Seq<char>>,
    layout: Layout,
    paths: Seq<Seq<char>>,
    j: int,
    contents: Seq<char>,
) -> bool {
    let uuid = text::split(paths[j], '/')[3];
    let first = forall|k: int| 0 <= k < j ==> text::split(#[trigger] paths[k], '/')[3] != uuid;
    &&& sled.uuid == uuid
    &&& sled.cubby is None
    &&& sled::sled_txt(contents) == Some((sled.serial, sled.is_scrimlet))
    &&& sled.zones == (if first {
        names::sorted(inventory::zones_of(all, layout, uuid))
    } else {
        Seq::empty()
    })
    &&& sled.services == (if first {
        names::sorted(inventory::services_of(all, layout, uuid))
    } else {
        Seq::empty()
    })
}

/// Between the two requests the record was read, and holds the contents.
pub open spec fn was_read(
    h: Seq<SourceCall>,
    from: int,
    path: Seq<char>,
    layout: Layout,
    contents: Seq<char>,
    to: int,
) -> bool {
    inventory::record_loaded(h, from, path, layout) == Some(
        (Ok::<Seq<char>, Chain>(contents), to),
    )
}

/// No record behind number `j` is that of the same sled.
pub open spec fn is_last_of_its_sled(paths: Seq<Seq<char>>, j: int) -> bool {
    forall|k: int|
        j < k < paths.len() ==> text::split(#[trigger] paths[k], '/')[3] != text::split(
            paths[j],
            '/',
        )[3]
}

/// Reading the records from number `i` on adds the sled of each record, under its
/// UUID, and nothing else; where several records are those of one sled, the last
/// of them counts. What a record says was read from that record's own file.
pub proof fn law_each_record_gives_its_sled(
    all: Seq<Seq<char>>,
    layout: Layout,
    paths: Seq<Seq<char>>,
    i: int,
    h: Seq<SourceCall>,
    p: int,
    sleds: Map<Seq<char>, Sled>,
)
    requires
        0 <= i <= paths.len(),
    ensures
        match inventory::sleds_read(all, layout, paths, i, h, p, sleds) {
            Some((Ok(result), _)) => {
                &&& forall|uuid: Seq<char>| #[trigger]
                    result.contains_key(uuid) <==> sleds.contains_key(uuid) || exists|j: int|
                        i <= j < paths.len() && text::split(#[trigger] paths[j], '/')[3] == uuid
                &&& forall|uuid: Seq<char>|
                    #![trigger result[uuid]]
                    (forall|j: int|
                        i <= j < paths.len() ==> text::split(#[trigger] paths[j], '/')[3] != uuid)
                        ==> result[uuid] == sleds[uuid]
                &&& forall|j: int|
                    i <= j < paths.len() && #[trigger] is_last_of_its_sled(paths, j) ==> exists|
                        contents: Seq<char>,
                        from: int,
                        to: int,
                    |
                        {
                            &&& #[trigger] was_read(h, from, paths[j], layout, contents, to)
                            &&& is_sled_of_record(
                                result[text::split(paths[j], '/')[3]],
                                all,
                                layout,
                                paths,
                                j,
                                contents,
                            )
                        }
            },
            _ => true,
        },
    decreases paths.len() - i,
{
    if i < paths.len() {
        let uuid = text::split(paths[i], '/')[3];
        match inventory::record_loaded(h, p, paths[i], layout) {
            Some((Ok(contents), q)) => match sled::sled_txt(contents) {
                Some((serial, is_scrimlet)) => {
                    let sled = inventory::sled_of(all, layout, paths, i, serial, is_scrimlet);
                    let next = sleds.insert(uuid, sled);
                    law_each_record_gives_its_sled(all, layout, paths, i + 1, h, q, next);
                    match inventory::sleds_read(all, layout, paths, i + 1, h, q, next) {
                        Some((Ok(result), _)) => {
                            assert(is_sled_of_record(sled, all, layout, paths, i, contents)) by {
                                if inventory::repeated(paths, i) {
                                    let k = choose|k: int|
                                        0 <= k < i && inventory::uuid_in(#[trigger] paths[k])
                                            == inventory::uuid_in(paths[i]);
                                    assert(text::split(paths[k], '/')[3] == uuid);
                                } else {
                                    assert forall|k: int| 0 <= k < i implies text::split(
                                        #[trigger] paths[k],
                                        '/',
                                    )[3] != uuid by {
                                        assert(inventory::uuid_in(paths[k]) != uuid);
                                    }
                                }
                            }
                            assert forall|u: Seq<char>| #[trigger]
                                result.contains_key(u) <==> sleds.contains_key(u) || exists|j: int|
                                    i <= j < paths.len() && text::split(#[trigger] paths[j], '/')[3]
                                        == u by {
                                if result.contains_key(u) && !next.contains_key(u) {
                                    let j = choose|j: int|
                                        i + 1 <= j < paths.len() && text::split(
                                            #[trigger] paths[j],
                                            '/',
                                        )[3] == u;
                                    assert(text::split(paths[j], '/')[3] == u);
                                }
                                if result.contains_key(u) && u == uuid {
                                    assert(text::split(paths[i], '/')[3] == u);
                                }
                            }
                            assert forall|u: Seq<char>|
                                #![trigger result[u]]
                                (forall|j: int|
                                    i <= j < paths.len() ==> text::split(#[trigger] paths[j], '/')[3]
                                        != u) implies result[u] == sleds[u] by {
                                assert(text::split(paths[i], '/')[3] != u);
                            }
                            if is_last_of_its_sled(paths, i) {
                                assert(result[uuid] == next[uuid]);
                                assert(was_read(h, p, paths[i], layout, contents, q));
                            }
                        },
                        _ => {},
                    }
                },
                None => {},
            },
            _ => {},
        }
    }
}

/// Reading stops at the first record that cannot be read, with its error, or that
/// says nothing of a serial number, with its path.
pub proof fn law_errors_of_records(
    all: Seq<Seq<char>>,
    layout: Layout,
    paths: Seq<Seq<char>>,
    i: int,
    h: Seq<SourceCall>,
    p: int,
    sleds: Map<Seq<char>, Sled>,
)
    requires
        0 <= i <= paths.len(),
    ensures
        match inventory::sleds_read(all, layout, paths, i, h, p, sleds) {
            Some((Err(e), q)) => exists|j: int, from: int|
                {
                    &&& i <= j < paths.len()
                    &&& #[trigger] inventory::record_loaded(h, from, paths[j], layout) matches Some(
                        (read, to),
                    )
                    &&& q == to
                    &&& match read {
                        Err(cause) => e == cause,
                        Ok(contents) => sled::sled_txt(contents) is None && e == seq![
                            "failed to parse sled serial from "@ + paths[j],
                        ],
                    }
                },
            _ => true,
        },
    decreases paths.len() - i,
{
    if i < paths.len() {
        match inventory::record_loaded(h, p, paths[i], layout) {
            Some((Ok(contents), q)) => match sled::sled_txt(contents) {
                Some((serial, is_scrimlet)) => {
                    let sled = inventory::sled_of(all, layout, paths, i, serial, is_scrimlet);
                    law_errors_of_records(
                        all,
                        layout,
                        paths,
                        i + 1,
                        h,
                        q,
                        sleds.insert(inventory::uuid_in(paths[i]), sled),
                    );
                },
                None => {
                    assert(inventory::record_loaded(h, p, paths[i], layout) is Some);
                },
            },
            _ => {},
        }
    }
}

/// How a record is read: its file is opened and read to the end; where whole
/// subtrees count, its metadata are asked for first, and where depth counts, an
/// error of opening it is handed on as it is.
pub proof fn law_reading_of_records(h: Seq<SourceCall>, p: int, path: Seq<char>)
    ensures
        inventory::record_loaded(h, p, path, Layout::Components) == reader::text_loaded(h, p, path),
        match source::metadata_of(h, p, path) {
            Some(Ok(_)) => inventory::record_loaded(h, p, path, Layout::Descendants)
                == reader::text_loaded(h, p + 1, path),
            Some(Err(e)) => inventory::record_loaded(h, p, path, Layout::Descendants) == Some(
                (
                    Err::<Seq<char>, Chain>(seq!["failed to read metadata for "@ + path] + e),
                    p + 1,
                ),
            ),
            None => inventory::record_loaded(h, p, path, Layout::Descendants) is None,
        },
        match source::opening(h, p, path) {
            Some(Err(e)) => inventory::record_loaded(h, p, path, Layout::Depth) == Some(
                (Err::<Seq<char>, Chain>(e), p + 1),
            ),
            _ => inventory::record_loaded(h, p, path, Layout::Depth) == reader::text_loaded(
                h,
                p,
                path,
            ),
        },
{
}

/// The last of the first `n` identities with this UUID has number `k`.
pub open spec fn is_last_with_uuid(ids: Seq<Identity>, n: int, k: int, uuid: Seq<char>) -> bool {
    &&& 0 <= k < n
    &&& ids[k].uuid == Some(uuid)
    &&& forall|j: int| k < j < n ==> (#[trigger] ids[j]).uuid != Some(uuid)
}

/// The last of the first `n` identities without a UUID and with this serial number
/// has number `k`.
pub open spec fn is_last_unhealthy(ids: Seq<Identity>, n: int, k: int, serial: Seq<char>) -> bool {
    &&& 0 <= k < n
    &&& ids[k].uuid is None && ids[k].serial == serial
    &&& forall|j: int|
        k < j < n ==> !((#[trigger] ids[j]).uuid is None && ids[j].serial == serial)
}

/// Each sled gets the cubby that the last identity with its UUID gives it, and
/// keeps its own if there is none; each unhealthy sled gets the cubby that the
/// last identity with its serial number, and no UUID, gives it.
pub proof fn law_last_identity_counts(
    info: Inventory,
    ids: Seq<Identity>,
    n: int,
    k: int,
    uuid: Seq<char>,
    serial: Seq<char>,
)
    requires
        0 <= n <= ids.len(),
    ensures
        info.sleds.contains_key(uuid) && is_last_with_uuid(ids, n, k, uuid) ==> inventory::assigned(
            info,
            ids,
            n,
        ).sleds[uuid] == (Sled { cubby: ids[k].cubby, ..info.sleds[uuid] }),
        info.sleds.contains_key(uuid) && (forall|j: int|
            0 <= j < n ==> (#[trigger] ids[j]).uuid != Some(uuid)) ==> inventory::assigned(info, ids, n).sleds[uuid] == info.sleds[uuid],
        inventory::assigned(info, ids, n).sleds.contains_key(uuid) <==> info.sleds.contains_key(
            uuid,
        ),
        is_last_unhealthy(ids, n, k, serial) ==> inventory::assigned(
            info,
            ids,
            n,
        ).unhealthy.contains_key(serial) && inventory::assigned(info, ids, n).unhealthy[serial]
            == ids[k].cubby,
        (forall|j: int|
            0 <= j < n ==> !((#[trigger] ids[j]).uuid is None && ids[j].serial == serial)) ==> {
            &&& inventory::assigned(info, ids, n).unhealthy.contains_key(serial)
                <==> info.unhealthy.contains_key(serial)
            &&& inventory::assigned(info, ids, n).unhealthy[serial] == info.unhealthy[serial]
        },
    decreases n,
{
    if n > 0 {
        law_last_identity_counts(info, ids, n - 1, k, uuid, serial);
        if info.sleds.contains_key(uuid) && is_last_with_uuid(ids, n, n - 1, uuid) && k == n - 1 {
            lemma_assigned_keeps_the_rest(info, ids, n - 1, uuid);
        }
        if is_last_with_uuid(ids, n, k, uuid) && k < n - 1 {
            assert(ids[n - 1].uuid != Some(uuid));
        }
        if is_last_unhealthy(ids, n, k, serial) && k < n - 1 {
            assert(!(ids[n - 1].uuid is None && ids[n - 1].serial == serial));
        }
    }
}

proof fn lemma_assigned_keeps_the_rest(
    info: Inventory,
    ids: Seq<Identity>,
    n: int,
    uuid: Seq<char>,
)
    requires
        0 <= n <= ids.len(),
        info.sleds.contains_key(uuid),
    ensures
        ({
            let sled = inventory::assigned(info, ids, n).sleds[uuid];
            sled == (Sled { cubby: sled.cubby, ..info.sleds[uuid] })
        }),
        inventory::assigned(info, ids, n).sleds.contains_key(uuid),
    decreases n,
{
    if n > 0 {
        lemma_assigned_keeps_the_rest(info, ids, n - 1, uuid);
    }
}

/// What a `sled_info.json` that was opened amounts to. Where it is read completely
/// its identities are assigned, all of them; where it is malformed, or ends too
/// early, the inventory stays as it is, with a warning; an error at its reading is
/// handed on where that is not a matter of a warning.
pub proof fn law_outcome_of_sled_info(
    layout: Layout,
    info: Inventory,
    ids: Seq<Identity>,
    text: Seq<char>,
    e: Chain,
    failure: Option<Chain>,
)
    requires
        e.len() > 0,
    ensures
        inventory::concluded(layout, info, Document::Entries(ids), failure) == Ok::<Warned, Chain>(
            (inventory::assigned(info, ids, ids.len() as int), None),
        ),
        inventory::concluded(layout, info, Document::Malformed(text), failure) == Ok::<
            Warned,
            Chain,
        >((info, Some("Failed to parse sled_info.json: "@ + text))),
        inventory::concluded(layout, info, Document::Torn(text), None) == Ok::<Warned, Chain>(
            (info, Some("Failed to parse sled_info.json: "@ + text)),
        ),
        layout is Depth ==> inventory::concluded(layout, info, Document::Torn(text), Some(e))
            == Ok::<Warned, Chain>(
            (info, Some("Failed to parse sled_info.json: "@ + (e[0] + text))),
        ),
        !(layout is Depth) ==> inventory::concluded(layout, info, Document::Torn(text), Some(e))
            == Err::<Warned, Chain>(
            seq!["failed to read sled_info.json"@] + (seq![e[0] + text] + e.skip(1)),
        ),
{
    assert(e.update(0, e[0] + text) =~= seq![e[0] + text] + e.skip(1));
}

/// When `sled_info.json` counts: where it is listed, or where depth counts if it
/// can be opened; its contents are read to the end and handed to the decoder
/// whole.
pub proof fn law_when_sled_info_counts<D: Fn(&[u8], bool) -> inventory::Decoded>(
    layout: Layout,
    listed: bool,
    decode: D,
    info: Inventory,
    h: Seq<SourceCall>,
    p: int,
)
    ensures
        ({
            let r = inventory::completed(layout, listed, decode, info, h, p);
            let opened = source::opening(h, p, "sled_info.json"@);
            let read = reader::drained(h, p + 1, Seq::empty());
            let asked = listed || layout is Depth;
            &&& !asked ==> r == Some((Ok::<Warned, Chain>((info, None)), p))
            &&& asked ==> match opened {
                None => r is None,
                Some(Err(e)) => r == Some(
                    (
                        if layout is Depth {
                            Ok::<Warned, Chain>((info, None))
                        } else {
                            Err(seq!["failed to open sled_info.json"@] + e)
                        },
                        p + 1,
                    ),
                ),
                Some(Ok(_)) => match read {
                    None => r is None,
                    Some(((_, Some(e)), q)) if layout is Components => r == Some(
                        (Err::<Warned, Chain>(seq!["failed to read sled_info.json"@] + e), q),
                    ),
                    Some(((contents, failure), q)) => r == Some(
                        (
                            inventory::concluded(
                                layout,
                                info,
                                inventory::decoded(decode, contents, failure is None),
                                failure,
                            ),
                            q,
                        ),
                    ),
                },
            }
        }),
{
}

/// What `sled_info.json` is decoded to is what the decoder gives, which gives one
/// thing only.
pub proof fn law_decoder_of_sled_info_decides<D: Fn(&[u8], bool) -> inventory::Decoded>(
    decode: D,
    contents: &[u8],
    complete: bool,
    r: inventory::Decoded,
)
    requires
        inventory::is_decoder(decode),
        call_ensures(decode, (contents, complete), r),
    ensures
        match r {
            inventory::Decoded::Entries(ids) => {
                &&& inventory::decoded(decode, contents@, complete) matches Document::Entries(list)
                &&& list.len() == ids@.len()
                &&& forall|i: int|
                    0 <= i < list.len() ==> {
                        &&& (#[trigger] list[i]).serial == ids@[i].serial@
                        &&& list[i].cubby == ids@[i].cubby
                        &&& list[i].uuid == (match ids@[i].uuid {
                            Some(uuid) => Some(uuid@),
                            None => None,
                        })
                    }
            },
            inventory::Decoded::Malformed(m) => inventory::decoded(decode, contents@, complete)
                == Document::Malformed(m@),
            inventory::Decoded::Torn(place) => inventory::decoded(decode, contents@, complete)
                == Document::Torn(place@),
        },
{
    assert(inventory::may_decode(decode, contents@, complete, r@));
}

/// The inventory is that of all the records in the listing, from an empty one on,
/// completed from `sled_info.json`, which counts as listed if its name is in the
/// listing.
pub proof fn law_inventory_is_records_and_sled_info<
    D: Fn(&[u8], bool) -> inventory::Decoded,
>(all: Seq<Seq<char>>, layout: Layout, decode: D, h: Seq<SourceCall>, p: int)
    ensures
        ({
            let paths = all.filter(|s: Seq<char>| inventory::is_sled_txt(s, layout));
            let r = inventory::inventory_read(all, layout, decode, h, p);
            match inventory::sleds_read(all, layout, paths, 0, h, p, Map::empty()) {
                None => r is None,
                Some((Err(e), q)) => r == Some((Err::<Warned, Chain>(e), q)),
                Some((Ok(sleds), q)) => r == inventory::completed(
                    layout,
                    exists|i: int| 0 <= i < all.len() && #[trigger] all[i] == "sled_info.json"@,
                    decode,
                    Inventory { sleds, unhealthy: Map::empty() },
                    h,
                    q,
                ),
            }
        }),
{
    law_records_are_the_sled_txts(all, Seq::empty(), layout);
    if all.contains("sled_info.json"@) {
        let i = choose|i: int| 0 <= i < all.len() && all[i] == "sled_info.json"@;
        assert(all[i] == "sled_info.json"@);
    }
}

/// A sled is selected by what the inventory knows of it, and by its UUID alone if
/// the inventory does not know it; a service or zone is present if some name tells
/// it of a selected sled.
pub proof fn law_present_services_and_zones(
    all: Seq<Seq<char>>,
    layout: Layout,
    sleds: Map<Seq<char>, Sled>,
    patterns: Seq<Pattern>,
    uuid: Seq<char>,
    name: Seq<char>,
)
    ensures
        sleds.contains_key(uuid) ==> inventory::uuid_selected(patterns, sleds, uuid)
            == sled::sled_selected(patterns, sleds[uuid]),
        !sleds.contains_key(uuid) ==> (inventory::uuid_selected(patterns, sleds, uuid)
            <==> patterns.len() == 0 || exists|i: int|
            0 <= i < patterns.len() && crate::pattern::glob_matches(
                #[trigger] patterns[i]@,
                uuid,
            )),
        inventory::present_services(all, layout, sleds, patterns).contains(name) <==> exists|i: int|
            {
                &&& 0 <= i < all.len()
                &&& #[trigger] inventory::spot_of(all[i], layout) is Some
                &&& inventory::spot_of(all[i], layout)->0.service == Some(name)
                &&& inventory::uuid_selected(
                    patterns,
                    sleds,
                    inventory::spot_of(all[i], layout)->0.sled,
                )
            },
        inventory::present_zones(all, layout, sleds, patterns).contains(name) <==> exists|i: int|
            {
                &&& 0 <= i < all.len()
                &&& #[trigger] inventory::spot_of(all[i], layout) is Some
                &&& inventory::spot_of(all[i], layout)->0.zone == Some(name)
                &&& inventory::uuid_selected(
                    patterns,
                    sleds,
                    inventory::spot_of(all[i], layout)->0.sled,
                )
            },
{
    if inventory::present_services(all, layout, sleds, patterns).contains(name) {
        let u = choose|u: Seq<char>| #[trigger]
            inventory::has_service(all, layout, u, name) && inventory::uuid_selected(
                patterns,
                sleds,
                u,
            );
        let i = choose|i: int|
            0 <= i < all.len() && (#[trigger] inventory::spot_of(all[i], layout) matches Some(spot)
                && spot.sled == u && spot.service == Some(name));
        assert(inventory::spot_of(all[i], layout) is Some);
    }
    if inventory::present_zones(all, layout, sleds, patterns).contains(name) {
        let u = choose|u: Seq<char>| #[trigger]
            inventory::has_zone(all, layout, u, name) && inventory::uuid_selected(
                patterns,
                sleds,
                u,
            );
        let i = choose|i: int|
            0 <= i < all.len() && (#[trigger] inventory::spot_of(all[i], layout) matches Some(spot)
                && spot.sled == u && spot.zone == Some(name));
        assert(inventory::spot_of(all[i], layout) is Some);
    }
    assert forall|i: int|
        0 <= i < all.len() && #[trigger] inventory::spot_of(all[i], layout) is Some implies {
        let spot = inventory::spot_of(all[i], layout)->0;
        &&& spot.service == Some(name) ==> inventory::has_service(all, layout, spot.sled, name)
        &&& spot.zone == Some(name) ==> inventory::has_zone(all, layout, spot.sled, name)
    } by {}
}

} // verus!
