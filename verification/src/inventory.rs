//! The inventory of a bundle: its sleds, with the zones and services that they
//! left logs of, read through a source.
use crate::error;
use crate::error::BundleError;
use crate::names;
use crate::names::NameMap;
use crate::pattern;
use crate::pattern::Pattern;
use crate::reader;
use crate::sled;
use crate::sled::{BundleInfo, Inventory, Sled, SledInfo};
use crate::source;
use crate::source::{BundleSource, Chain, SourceCall};
use crate::text;
use vstd::prelude::*;

verus! {

/// How the names in a bundle are read.
#[derive(Clone, Copy, Debug, PartialEq, Eq, Structural)]
pub enum Layout {
    /// Zones and services are inferred from what lies below a service
    /// directory; a zone also from a service directory itself.
    Descendants,
    /// Zones and services are inferred from files below a service directory,
    /// where every component on the way has its proper name.
    Components,
    /// Zones are inferred from paths of the depth of a service directory,
    /// services from those one level below.
    Depth,
}

/// What a path says of the logs of a sled.
pub struct Spot {
    pub sled: Seq<char>,
    pub zone: Option<Seq<char>>,
    pub service: Option<Seq<char>>,
}

/// What a path `rack/{rack_uuid}/sled/{sled_uuid}/logs/{zone}/{service}/...`
/// says of the logs of a sled.
pub open spec fn spot_of(name: Seq<char>, layout: Layout) -> Option<Spot> {
    let parts = text::split(name, '/');
    let n = parts.len();
    match layout {
        Layout::Descendants => if text::starts_with(name, "rack"@) && n >= 8 && parts[4]
            == "logs"@ {
            Some(
                Spot {
                    sled: parts[3],
                    zone: Some(parts[5]),
                    service: if n >= 9 || !text::ends_with(name, "/"@) {
                        Some(parts[6])
                    } else {
                        None
                    },
                },
            )
        } else {
            None
        },
        Layout::Components => if !text::ends_with(name, "/"@) && n >= 8 && parts[0] == "rack"@
            && parts[2] == "sled"@ && parts[4] == "logs"@ && parts[3].len() > 0 && parts[5].len()
            > 0 && parts[6].len() > 0 && parts[7].len() > 0 {
            Some(Spot { sled: parts[3], zone: Some(parts[5]), service: Some(parts[6]) })
        } else {
            None
        },
        Layout::Depth => if text::starts_with(name, "rack"@) && n == 8 {
            Some(Spot { sled: parts[3], zone: Some(parts[5]), service: None })
        } else if text::starts_with(name, "rack"@) && n == 9 {
            Some(Spot { sled: parts[3], zone: None, service: Some(parts[6]) })
        } else {
            None
        },
    }
}

/// The path is the inventory record of a sled.
pub open spec fn is_sled_txt(name: Seq<char>, layout: Layout) -> bool {
    let parts = text::split(name, '/');
    match layout {
        Layout::Components => parts.len() == 5 && parts[0] == "rack"@ && parts[2] == "sled"@
            && parts[4] == "sled.txt"@,
        _ => parts.len() == 5 && text::starts_with(name, "rack"@) && text::ends_with(
            name,
            "sled.txt"@,
        ),
    }
}

/// The UUID in the path of an inventory record.
pub open spec fn uuid_in(path: Seq<char>) -> Seq<char> {
    text::split(path, '/')[3]
}

/// The inventory records among the first `n` names.
pub open spec fn records(names: Seq<Seq<char>>, n: int, layout: Layout) -> Seq<Seq<char>>
    decreases n,
{
    if n <= 0 {
        Seq::empty()
    } else if is_sled_txt(names[n - 1], layout) {
        records(names, n - 1, layout).push(names[n - 1])
    } else {
        records(names, n - 1, layout)
    }
}

/// Some name says that the sled has logs of the zone.
pub open spec fn has_zone(
    names: Seq<Seq<char>>,
    layout: Layout,
    uuid: Seq<char>,
    zone: Seq<char>,
) -> bool {
    exists|i: int|
        0 <= i < names.len() && (#[trigger] spot_of(names[i], layout) matches Some(spot) && spot.sled
            == uuid && spot.zone == Some(zone))
}

/// Some name says that the sled has logs of the service.
pub open spec fn has_service(
    names: Seq<Seq<char>>,
    layout: Layout,
    uuid: Seq<char>,
    service: Seq<char>,
) -> bool {
    exists|i: int|
        0 <= i < names.len() && (#[trigger] spot_of(names[i], layout) matches Some(spot) && spot.sled
            == uuid && spot.service == Some(service))
}

/// The zones that the names say the sled has logs of.
pub open spec fn zones_of(names: Seq<Seq<char>>, layout: Layout, uuid: Seq<char>) -> Set<Seq<char>> {
    Set::new(|zone: Seq<char>| has_zone(names, layout, uuid, zone))
}

/// The services that the names say the sled has logs of.
pub open spec fn services_of(names: Seq<Seq<char>>, layout: Layout, uuid: Seq<char>) -> Set<
    Seq<char>,
> {
    Set::new(|service: Seq<char>| has_service(names, layout, uuid, service))
}

/// An earlier record has the UUID of record `i`.
pub open spec fn repeated(paths: Seq<Seq<char>>, i: int) -> bool {
    exists|j: int| 0 <= j < i && uuid_in(#[trigger] paths[j]) == uuid_in(paths[i])
}

/// The sled of record `i`: the first record of a UUID gets the zones and
/// services.
pub open spec fn sled_of(
    names: Seq<Seq<char>>,
    layout: Layout,
    paths: Seq<Seq<char>>,
    i: int,
    serial: Seq<char>,
    is_scrimlet: bool,
) -> Sled {
    let uuid = uuid_in(paths[i]);
    Sled {
        uuid,
        cubby: None,
        serial,
        zones: if repeated(paths, i) {
            Seq::empty()
        } else {
            names::sorted(zones_of(names, layout, uuid))
        },
        services: if repeated(paths, i) {
            Seq::empty()
        } else {
            names::sorted(services_of(names, layout, uuid))
        },
        is_scrimlet,
    }
}

/// What loading an inventory record gives from request `p` on.
pub open spec fn record_loaded(h: Seq<SourceCall>, p: int, path: Seq<char>, layout: Layout) -> Option<
    (Result<Seq<char>, Chain>, int),
> {
    match layout {
        Layout::Descendants => match source::metadata_of(h, p, path) {
            None => None,
            Some(Err(e)) => Some(
                (Err(error::wrapped("failed to read metadata for "@ + path, e)), p + 1),
            ),
            Some(Ok(_)) => reader::text_loaded(h, p + 1, path),
        },
        Layout::Components => reader::text_loaded(h, p, path),
        Layout::Depth => match source::opening(h, p, path) {
            None => None,
            Some(Err(e)) => Some((Err(e), p + 1)),
            Some(Ok(_)) => reader::text_read(h, p + 1, path),
        },
    }
}

/// The sleds of the records from number `i` on, read from request `p` on,
/// beside those in `sleds`.
pub open spec fn sleds_read(
    names: Seq<Seq<char>>,
    layout: Layout,
    paths: Seq<Seq<char>>,
    i: int,
    h: Seq<SourceCall>,
    p: int,
    sleds: Map<Seq<char>, Sled>,
) -> Option<(Result<Map<Seq<char>, Sled>, Chain>, int)>
    decreases paths.len() - i,
{
    if i < 0 || i >= paths.len() {
        Some((Ok(sleds), p))
    } else {
        match record_loaded(h, p, paths[i], layout) {
            None => None,
            Some((Err(e), q)) => Some((Err(e), q)),
            Some((Ok(contents), q)) => match sled::sled_txt(contents) {
                None => Some(
                    (Err(error::single("failed to parse sled serial from "@ + paths[i])), q),
                ),
                Some((serial, is_scrimlet)) => sleds_read(
                    names,
                    layout,
                    paths,
                    i + 1,
                    h,
                    q,
                    sleds.insert(
                        uuid_in(paths[i]),
                        sled_of(names, layout, paths, i, serial, is_scrimlet),
                    ),
                ),
            },
        }
    }
}

/// What a name says of the logs of a sled.
struct SpotInfo {
    sled: String,
    zone: Option<String>,
    service: Option<String>,
}

impl View for SpotInfo {
    type V = Spot;

    closed spec fn view(&self) -> Spot {
        Spot {
            sled: self.sled@,
            zone: text::optional(self.zone),
            service: text::optional(self.service),
        }
    }
}

spec fn spot_value(s: Option<SpotInfo>) -> Option<Spot> {
    match s {
        Some(s) => Some(s@),
        None => None,
    }
}

/// Reads what a name says of the logs of a sled.
fn read_spot(name: &str, layout: Layout) -> (r: Option<SpotInfo>)
    ensures
        spot_value(r) == spot_of(name@, layout),
{
    let parts = text::split_at(name, '/');
    let n: usize = parts.len();
    match layout {
        Layout::Descendants => {
            if text::begins_with(name, "rack") && n >= 8 && text::same(parts[4].as_str(), "logs") {
                let service = if n >= 9 || !text::finishes_with(name, "/") {
                    Some(parts[6].clone())
                } else {
                    None
                };
                Some(SpotInfo { sled: parts[3].clone(), zone: Some(parts[5].clone()), service })
            } else {
                None
            }
        },
        Layout::Components => {
            if !text::finishes_with(name, "/") && n >= 8 && text::same(parts[0].as_str(), "rack")
                && text::same(parts[2].as_str(), "sled") && text::same(parts[4].as_str(), "logs")
                && !parts[3].as_str().is_empty() && !parts[5].as_str().is_empty()
                && !parts[6].as_str().is_empty() && !parts[7].as_str().is_empty() {
                Some(
                    SpotInfo {
                        sled: parts[3].clone(),
                        zone: Some(parts[5].clone()),
                        service: Some(parts[6].clone()),
                    },
                )
            } else {
                None
            }
        },
        Layout::Depth => {
            if text::begins_with(name, "rack") && n == 8 {
                Some(
                    SpotInfo { sled: parts[3].clone(), zone: Some(parts[5].clone()), service: None },
                )
            } else if text::begins_with(name, "rack") && n == 9 {
                Some(
                    SpotInfo { sled: parts[3].clone(), zone: None, service: Some(parts[6].clone()) },
                )
            } else {
                None
            }
        },
    }
}

/// Whether a name is that of an inventory record.
fn names_record(name: &str, layout: Layout) -> (r: bool)
    ensures
        r == is_sled_txt(name@, layout),
{
    let parts = text::split_at(name, '/');
    if parts.len() != 5 {
        return false;
    }
    match layout {
        Layout::Components => text::same(parts[0].as_str(), "rack") && text::same(
            parts[2].as_str(),
            "sled",
        ) && text::same(parts[4].as_str(), "sled.txt"),
        _ => text::begins_with(name, "rack") && text::finishes_with(name, "sled.txt"),
    }
}

/// The inventory records among the names.
fn find_records(names: &Vec<String>, layout: Layout) -> (r: Vec<String>)
    ensures
        text::texts(r@) == records(text::texts(names@), names@.len() as int, layout),
        forall|i: int| 0 <= i < r.len() ==> is_sled_txt((#[trigger] r[i])@, layout),
{
    let ghost all = text::texts(names@);
    let mut paths: Vec<String> = Vec::new();
    let mut i: usize = 0;
    assert(text::texts(paths@) =~= Seq::empty());
    while i < names.len()
        invariant
            i <= names.len(),
            all == text::texts(names@),
            text::texts(paths@) == records(all, i as int, layout),
            forall|j: int| 0 <= j < paths.len() ==> is_sled_txt((#[trigger] paths[j])@, layout),
        decreases names.len() - i,
    {
        assert(all[i as int] == names[i as int]@);
        if names_record(names[i].as_str(), layout) {
            let ghost earlier = text::texts(paths@);
            paths.push(names[i].clone());
            assert(text::texts(paths@) =~= earlier.push(all[i as int]));
        }
        i = i + 1;
    }
    paths
}

/// The spots of all names.
fn find_spots(names: &Vec<String>, layout: Layout) -> (r: Vec<Option<SpotInfo>>)
    ensures
        r.len() == names.len(),
        forall|i: int|
            0 <= i < r.len() ==> spot_value(#[trigger] r[i]) == spot_of(names@[i]@, layout),
{
    let mut spots: Vec<Option<SpotInfo>> = Vec::new();
    let mut i: usize = 0;
    while i < names.len()
        invariant
            i <= names.len(),
            spots.len() == i,
            forall|j: int|
                0 <= j < i ==> spot_value(#[trigger] spots[j]) == spot_of(names@[j]@, layout),
        decreases names.len() - i,
    {
        spots.push(read_spot(names[i].as_str(), layout));
        i = i + 1;
    }
    spots
}

/// Gathers the zones, or the services, of one sled.
fn gather(
    Ghost(all): Ghost<Seq<Seq<char>>>,
    layout: Layout,
    spots: &Vec<Option<SpotInfo>>,
    uuid: &str,
    services: bool,
) -> (r: Vec<String>)
    requires
        spots.len() == all.len(),
        forall|i: int|
            0 <= i < spots.len() ==> spot_value(#[trigger] spots[i]) == spot_of(all[i], layout),
    ensures
        text::texts(r@) == names::sorted(
            if services {
                services_of(all, layout, uuid@)
            } else {
                zones_of(all, layout, uuid@)
            },
        ),
        names::ascending(text::texts(r@)),
        text::texts(r@).to_set() == (if services {
            services_of(all, layout, uuid@)
        } else {
            zones_of(all, layout, uuid@)
        }),
{
    let mut set: Vec<String> = Vec::new();
    let mut i: usize = 0;
    assert(text::texts(set@).to_set() =~= Set::new(
        |x: Seq<char>|
            if services {
                has_service(all.take(0), layout, uuid@, x)
            } else {
                has_zone(all.take(0), layout, uuid@, x)
            },
    ));
    while i < spots.len()
        invariant
            i <= spots.len(),
            spots.len() == all.len(),
            forall|i: int|
                0 <= i < spots.len() ==> spot_value(#[trigger] spots[i]) == spot_of(all[i], layout),
            names::ascending(text::texts(set@)),
            text::texts(set@).to_set() == Set::new(
                |x: Seq<char>|
                    if services {
                        has_service(all.take(i as int), layout, uuid@, x)
                    } else {
                        has_zone(all.take(i as int), layout, uuid@, x)
                    },
            ),
        decreases spots.len() - i,
    {
        let ghost earlier = text::texts(set@).to_set();
        let ghost a = all.take(i as int);
        let ghost b = all.take(i + 1);
        let ghost here = spot_of(all[i as int], layout);
        assert(spot_value(spots[i as int]) == here);
        proof {
            assert forall|x: Seq<char>|
                has_zone(b, layout, uuid@, x) <==> has_zone(a, layout, uuid@, x) || (
                here matches Some(s) && s.sled == uuid@ && s.zone == Some(x)) by {
                lemma_one_more(a, all[i as int], layout, uuid@, x);
                assert(b =~= a.push(all[i as int]));
            }
            assert forall|x: Seq<char>|
                has_service(b, layout, uuid@, x) <==> has_service(a, layout, uuid@, x) || (
                here matches Some(s) && s.sled == uuid@ && s.service == Some(x)) by {
                lemma_one_more(a, all[i as int], layout, uuid@, x);
                assert(b =~= a.push(all[i as int]));
            }
        }
        match &spots[i] {
            Some(spot) => {
                if text::same(spot.sled.as_str(), uuid) {
                    let part = if services { &spot.service } else { &spot.zone };
                    match part {
                        Some(name) => names::insert_name(&mut set, name.as_str()),
                        None => {},
                    }
                }
            },
            None => {},
        }
        assert(text::texts(set@).to_set() =~= Set::new(
            |x: Seq<char>|
                if services {
                    has_service(b, layout, uuid@, x)
                } else {
                    has_zone(b, layout, uuid@, x)
                },
        ));
        i = i + 1;
    }
    proof {
        assert(all.take(i as int) =~= all);
        names::lemma_sorted(text::texts(set@));
        if services {
            assert(text::texts(set@).to_set() =~= services_of(all, layout, uuid@));
        } else {
            assert(text::texts(set@).to_set() =~= zones_of(all, layout, uuid@));
        }
    }
    set
}

/// One more name adds what it says to the zones and services.
pub proof fn lemma_one_more(
    a: Seq<Seq<char>>,
    name: Seq<char>,
    layout: Layout,
    uuid: Seq<char>,
    x: Seq<char>,
)
    ensures
        has_zone(a.push(name), layout, uuid, x) <==> has_zone(a, layout, uuid, x) || (spot_of(
            name,
            layout,
        ) matches Some(s) && s.sled == uuid && s.zone == Some(x)),
        has_service(a.push(name), layout, uuid, x) <==> has_service(a, layout, uuid, x) || (spot_of(
            name,
            layout,
        ) matches Some(s) && s.sled == uuid && s.service == Some(x)),
{
    let b = a.push(name);
    assert(spot_of(b[a.len() as int], layout) == spot_of(name, layout));
    if has_zone(a, layout, uuid, x) {
        let i = choose|i: int|
            0 <= i < a.len() && (#[trigger] spot_of(a[i], layout) matches Some(spot) && spot.sled
                == uuid && spot.zone == Some(x));
        assert(spot_of(b[i], layout) == spot_of(a[i], layout));
    }
    if has_service(a, layout, uuid, x) {
        let i = choose|i: int|
            0 <= i < a.len() && (#[trigger] spot_of(a[i], layout) matches Some(spot) && spot.sled
                == uuid && spot.service == Some(x));
        assert(spot_of(b[i], layout) == spot_of(a[i], layout));
    }
}

/// The UUID in the path of an inventory record.
fn read_uuid(path: &str, Ghost(layout): Ghost<Layout>) -> (r: String)
    requires
        is_sled_txt(path@, layout),
    ensures
        r@ == uuid_in(path@),
{
    let parts = text::split_at(path, '/');
    parts[3].clone()
}

/// Loads an inventory record.
fn load_record<S: BundleSource + ?Sized>(source: &mut S, path: &str, layout: Layout) -> (r: Result<
    String,
    BundleError,
>)
    ensures
        final(source).names() == old(source).names(),
        source::continues(old(source).calls(), final(source).calls()),
        forall|h: Seq<SourceCall>|
            source::continues(final(source).calls(), h) ==> #[trigger] record_loaded(
                h,
                old(source).calls().len() as int,
                path@,
                layout,
            ) == Some((source::string(r), final(source).calls().len() as int)),
{
    match layout {
        Layout::Descendants => match source.metadata(path) {
            Err(e) => Err(e.context(text::concat2("failed to read metadata for ", path))),
            Ok(_) => reader::load_text(source, path),
        },
        Layout::Components => reader::load_text(source, path),
        Layout::Depth => match source.open_file(path) {
            Err(e) => Err(e),
            Ok(_) => reader::read_file_to_string(source, path),
        },
    }
}

/// Whether an earlier record has the UUID of record `i`.
fn occurs_before(uuids: &Vec<String>, uuid: &str) -> (r: bool)
    ensures
        r == exists|j: int| 0 <= j < uuids.len() && (#[trigger] uuids[j])@ == uuid@,
{
    let mut j: usize = 0;
    while j < uuids.len()
        invariant
            j <= uuids.len(),
            forall|k: int| 0 <= k < j ==> (#[trigger] uuids[k])@ != uuid@,
        decreases uuids.len() - j,
    {
        if text::same(uuids[j].as_str(), uuid) {
            return true;
        }
        j = j + 1;
    }
    false
}

/// A result of sleds, its error as a chain.
pub open spec fn sled_outcome(r: Result<NameMap<SledInfo>, BundleError>) -> Result<
    Map<Seq<char>, Sled>,
    Chain,
> {
    match r {
        Ok(sleds) => Ok(sled::sled_values(sleds@)),
        Err(e) => Err(e@),
    }
}

/// Reads the sleds of a bundle.
pub fn read_sleds<S: BundleSource + ?Sized>(
    source: &mut S,
    names: &Vec<String>,
    layout: Layout,
) -> (r: Result<NameMap<SledInfo>, BundleError>)
    ensures
        final(source).names() == old(source).names(),
        source::continues(old(source).calls(), final(source).calls()),
        ({
            let all = text::texts(names@);
            forall|h: Seq<SourceCall>|
                source::continues(final(source).calls(), h) ==> #[trigger] sleds_read(
                    all,
                    layout,
                    records(all, all.len() as int, layout),
                    0,
                    h,
                    old(source).calls().len() as int,
                    Map::empty(),
                ) == Some((sled_outcome(r), final(source).calls().len() as int))
        }),
{
    let ghost all = text::texts(names@);
    let paths = find_records(names, layout);
    let ghost listed = records(all, all.len() as int, layout);
    let spots = find_spots(names, layout);
    let mut sleds: NameMap<SledInfo> = NameMap::new();
    let mut uuids: Vec<String> = Vec::new();
    let mut i: usize = 0;
    assert(sled::sled_values(sleds@) =~= Map::empty());
    while i < paths.len()
        invariant
            i <= paths.len(),
            all == text::texts(names@),
            listed == text::texts(paths@),
            listed == records(all, all.len() as int, layout),
            forall|j: int| 0 <= j < paths.len() ==> is_sled_txt((#[trigger] paths[j])@, layout),
            spots.len() == all.len(),
            forall|j: int|
                0 <= j < spots.len() ==> spot_value(#[trigger] spots[j]) == spot_of(
                    names@[j]@,
                    layout,
                ),
            uuids.len() == i,
            forall|j: int| 0 <= j < i ==> (#[trigger] uuids[j])@ == uuid_in(listed[j]),
            source.names() == old(source).names(),
            source::continues(old(source).calls(), source.calls()),
            forall|h: Seq<SourceCall>|
                source::continues(source.calls(), h) ==> #[trigger] sleds_read(
                    all,
                    layout,
                    listed,
                    0,
                    h,
                    old(source).calls().len() as int,
                    Map::empty(),
                ) == sleds_read(
                    all,
                    layout,
                    listed,
                    i as int,
                    h,
                    source.calls().len() as int,
                    sled::sled_values(sleds@),
                ),
        decreases paths.len() - i,
    {
        let path = paths[i].as_str();
        assert(path@ == listed[i as int]);
        let contents = match load_record(source, path, layout) {
            Ok(contents) => contents,
            Err(e) => return Err(e),
        };
        let (serial, is_scrimlet) = match sled::read_sled_serial(contents.as_str()) {
            Some(x) => x,
            None => return Err(
                BundleError::new(text::concat2("failed to parse sled serial from ", path)),
            ),
        };
        let uuid = read_uuid(path, Ghost(layout));
        let again = occurs_before(&uuids, uuid.as_str());
        proof {
            if again {
                let j = choose|j: int| 0 <= j < uuids.len() && (#[trigger] uuids[j])@ == uuid@;
                assert(uuid_in(listed[j]) == uuid_in(listed[i as int]));
            }
            if repeated(listed, i as int) {
                let j = choose|j: int|
                    0 <= j < i && uuid_in(#[trigger] listed[j]) == uuid_in(listed[i as int]);
                assert(uuids[j]@ == uuid@);
            }
            assert(again == repeated(listed, i as int));
            assert forall|j: int| 0 <= j < spots.len() implies spot_value(#[trigger] spots[j])
                == spot_of(all[j], layout) by {
                assert(all[j] == names@[j]@);
            }
        }
        let services = if again {
            Vec::new()
        } else {
            gather(Ghost(all), layout, &spots, uuid.as_str(), true)
        };
        let zones = if again {
            Vec::new()
        } else {
            gather(Ghost(all), layout, &spots, uuid.as_str(), false)
        };
        assert(again ==> text::texts(services@) =~= Seq::empty());
        assert(again ==> text::texts(zones@) =~= Seq::empty());
        let info = SledInfo {
            uuid: uuid.clone(),
            cubby: None,
            serial,
            zones,
            services,
            is_scrimlet,
        };
        let ghost earlier = sleds@;
        uuids.push(uuid.clone());
        sleds = sleds.insert(uuid, info);
        proof {
            assert(info@ == sled_of(all, layout, listed, i as int, serial@, is_scrimlet));
            assert(sled::sled_values(sleds@) =~= sled::sled_values(earlier).insert(uuid@, info@));
        }
        i = i + 1;
    }
    Ok(sleds)
}

/// One record of `sled_info.json`.
#[derive(Debug, PartialEq, Eq)]
pub struct SledId {
    pub serial: String,
    pub cubby: Option<u16>,
    pub uuid: Option<String>,
}

/// One record of `sled_info.json` as a mathematical value.
pub struct Identity {
    pub serial: Seq<char>,
    pub cubby: Option<u16>,
    pub uuid: Option<Seq<char>>,
}

impl View for SledId {
    type V = Identity;

    open spec fn view(&self) -> Identity {
        Identity {
            serial: self.serial@,
            cubby: self.cubby,
            uuid: text::optional(self.uuid),
        }
    }
}

/// The values of a list of records.
pub open spec fn identities(ids: Seq<SledId>) -> Seq<Identity> {
    ids.map_values(|id: SledId| id@)
}

/// What a decoder makes of the contents of `sled_info.json`.
#[derive(Debug)]
pub enum Decoded {
    /// The records, in the order in which they apply.
    Entries(Vec<SledId>),
    /// The contents are malformed, with the complaint about them.
    Malformed(String),
    /// The contents end before the document does, with the place at which more
    /// was wanted, as it is put behind the error that ended them.
    Torn(String),
}

/// What a decoder made of the contents, as a mathematical value.
pub enum Document {
    Entries(Seq<Identity>),
    Malformed(Seq<char>),
    Torn(Seq<char>),
}

impl View for Decoded {
    type V = Document;

    open spec fn view(&self) -> Document {
        match *self {
            Decoded::Entries(ids) => Document::Entries(identities(ids@)),
            Decoded::Malformed(m) => Document::Malformed(m@),
            Decoded::Torn(place) => Document::Torn(place@),
        }
    }
}

/// The decoder may make `document` of the contents.
pub open spec fn may_decode<D: Fn(&[u8], bool) -> Decoded>(
    decode: D,
    contents: Seq<u8>,
    complete: bool,
    document: Document,
) -> bool {
    exists|b: &[u8], r: Decoded|
        b@ == contents && #[trigger] call_ensures(decode, (b, complete), r) && r@ == document
}

/// The decoder accepts every input, and what it makes of the contents depends
/// on nothing else.
pub open spec fn is_decoder<D: Fn(&[u8], bool) -> Decoded>(decode: D) -> bool {
    &&& forall|b: &[u8], complete: bool| call_requires(decode, (b, complete))
    &&& forall|contents: Seq<u8>, complete: bool, x: Document, y: Document|
        #[trigger] may_decode(decode, contents, complete, x) && #[trigger] may_decode(
            decode,
            contents,
            complete,
            y,
        ) ==> x == y
}

/// What the decoder makes of the contents.
pub open spec fn decoded<D: Fn(&[u8], bool) -> Decoded>(
    decode: D,
    contents: Seq<u8>,
    complete: bool,
) -> Document {
    choose|document: Document| may_decode(decode, contents, complete, document)
}

/// Runs the decoder.
fn run_decoder<D: Fn(&[u8], bool) -> Decoded>(decode: &D, contents: &Vec<u8>, complete: bool) -> (r:
    Decoded)
    requires
        is_decoder(*decode),
    ensures
        r@ == decoded(*decode, contents@, complete),
{
    let b = contents.as_slice();
    let r = decode(b, complete);
    assert(may_decode(*decode, contents@, complete, r@));
    r
}

/// The inventory after the first `n` records: a record with the UUID of a sled
/// gives the sled its cubby, one without a UUID is an unhealthy sled.
pub open spec fn assigned(info: Inventory, ids: Seq<Identity>, n: int) -> Inventory
    decreases n,
{
    if n <= 0 {
        info
    } else {
        let earlier = assigned(info, ids, n - 1);
        let id = ids[n - 1];
        match id.uuid {
            Some(uuid) => if earlier.sleds.contains_key(uuid) {
                Inventory {
                    sleds: earlier.sleds.insert(
                        uuid,
                        Sled { cubby: id.cubby, ..earlier.sleds[uuid] },
                    ),
                    ..earlier
                }
            } else {
                earlier
            },
            None => Inventory { unhealthy: earlier.unhealthy.insert(id.serial, id.cubby), ..earlier },
        }
    }
}

/// Applies the records of `sled_info.json` to an inventory.
pub fn apply_sled_ids(info: BundleInfo, ids: &Vec<SledId>) -> (r: BundleInfo)
    ensures
        r@ == assigned(info@, identities(ids@), ids@.len() as int),
{
    let ghost all = identities(ids@);
    let BundleInfo { sleds, unhealthy_sleds } = info;
    let mut sleds = sleds;
    let mut unhealthy_sleds = unhealthy_sleds;
    let mut i: usize = 0;
    while i < ids.len()
        invariant
            i <= ids.len(),
            all == identities(ids@),
            (Inventory { sleds: sled::sled_values(sleds@), unhealthy: unhealthy_sleds@ })
                == assigned(info@, all, i as int),
        decreases ids.len() - i,
    {
        let id = &ids[i];
        assert(all[i as int] == id@);
        let ghost earlier = sleds@;
        match &id.uuid {
            Some(uuid) => {
                // UUIDs are from Nexus, we will always have an existing entry.
                let (rest, found) = sleds.remove(uuid.as_str());
                match found {
                    Some(sled) => {
                        let mut sled = sled;
                        sled.cubby = id.cubby;
                        sleds = rest.insert(uuid.clone(), sled);
                        assert(sled::sled_values(sleds@) =~= sled::sled_values(earlier).insert(
                            uuid@,
                            Sled { cubby: id.cubby, ..sled::sled_values(earlier)[uuid@] },
                        ));
                    },
                    None => {
                        sleds = rest;
                        assert(sleds@ =~= earlier);
                    },
                }
            },
            None => {
                // Sleds unknown to Nexus will have their serial and cubby from MGS.
                unhealthy_sleds = unhealthy_sleds.insert(id.serial.clone(), id.cubby);
            },
        }
        i = i + 1;
    }
    BundleInfo { sleds, unhealthy_sleds }
}

/// The warning about a malformed `sled_info.json`.
pub open spec fn warning(complaint: Seq<char>) -> Seq<char> {
    "Failed to parse sled_info.json: "@ + complaint
}

/// An inventory, and the warning that came up while it was read.
pub type Warned = (Inventory, Option<Seq<char>>);

/// What the contents of `sled_info.json` make of an inventory, when `failure`
/// ended the reading of them and the decoder made `document` of what was read:
/// records apply, and a malformed document is worth a warning. Where the
/// document is torn, the failure that tore it is reported; in an archive it is
/// worth a warning only. Contents that were read to their end and are torn all
/// the same are malformed.
pub open spec fn concluded(
    layout: Layout,
    info: Inventory,
    document: Document,
    failure: Option<Chain>,
) -> Result<Warned, Chain> {
    match (document, failure) {
        (Document::Entries(ids), _) => Ok((assigned(info, ids, ids.len() as int), None)),
        (Document::Malformed(m), _) => Ok((info, Some(warning(m)))),
        (Document::Torn(place), None) => Ok((info, Some(warning(place)))),
        (Document::Torn(place), Some(e)) => if layout == Layout::Depth {
            Ok((info, Some(warning(error::first(e) + place))))
        } else {
            Err(error::wrapped("failed to read sled_info.json"@, error::located(e, place)))
        },
    }
}

/// What reading `sled_info.json` makes of an inventory from request `p` on;
/// `listed` says whether the source lists the file.
pub open spec fn completed<D: Fn(&[u8], bool) -> Decoded>(
    layout: Layout,
    listed: bool,
    decode: D,
    info: Inventory,
    h: Seq<SourceCall>,
    p: int,
) -> Option<(Result<Warned, Chain>, int)> {
    if layout != Layout::Depth && !listed {
        Some((Ok((info, None)), p))
    } else {
        match source::opening(h, p, "sled_info.json"@) {
            None => None,
            Some(Err(e)) => if layout == Layout::Depth {
                Some((Ok((info, None)), p + 1))
            } else {
                Some((Err(error::wrapped("failed to open sled_info.json"@, e)), p + 1))
            },
            Some(Ok(_)) => match reader::drained(h, p + 1, Seq::empty()) {
                None => None,
                Some(((contents, failure), q)) => if layout == Layout::Components && failure is Some {
                    Some(
                        (Err(error::wrapped("failed to read sled_info.json"@, failure->0)), q),
                    )
                } else {
                    Some(
                        (
                            concluded(
                                layout,
                                info,
                                decoded(decode, contents, failure is None),
                                failure,
                            ),
                            q,
                        ),
                    )
                },
            },
        }
    }
}

/// What reading the whole inventory gives from request `p` on.
pub open spec fn inventory_read<D: Fn(&[u8], bool) -> Decoded>(
    names: Seq<Seq<char>>,
    layout: Layout,
    decode: D,
    h: Seq<SourceCall>,
    p: int,
) -> Option<(Result<Warned, Chain>, int)> {
    match sleds_read(
        names,
        layout,
        records(names, names.len() as int, layout),
        0,
        h,
        p,
        Map::empty(),
    ) {
        None => None,
        Some((Err(e), q)) => Some((Err(e), q)),
        Some((Ok(sleds), q)) => completed(
            layout,
            names.contains("sled_info.json"@),
            decode,
            Inventory { sleds, unhealthy: Map::empty() },
            h,
            q,
        ),
    }
}

/// A result of an inventory, its error as a chain.
pub open spec fn warned(r: Result<(BundleInfo, Option<String>), BundleError>) -> Result<
    Warned,
    Chain,
> {
    match r {
        Ok((info, message)) => Ok((info@, text::optional(message))),
        Err(e) => Err(e@),
    }
}

/// Concludes the inventory from the contents of `sled_info.json`.
pub fn conclude(
    layout: Layout,
    info: BundleInfo,
    document: Decoded,
    failure: Result<(), BundleError>,
) -> (r: Result<(BundleInfo, Option<String>), BundleError>)
    ensures
        warned(r) == concluded(layout, info@, document@, reader::failure(failure)),
{
    match document {
        Decoded::Entries(ids) => Ok((apply_sled_ids(info, &ids), None)),
        Decoded::Malformed(m) => Ok(
            (info, Some(text::concat2("Failed to parse sled_info.json: ", m.as_str()))),
        ),
        Decoded::Torn(place) => match failure {
            Ok(_) => Ok(
                (info, Some(text::concat2("Failed to parse sled_info.json: ", place.as_str()))),
            ),
            Err(e) => {
                if layout == Layout::Depth {
                    let m = text::concat2(e.message().as_str(), place.as_str());
                    Ok((info, Some(text::concat2("Failed to parse sled_info.json: ", m.as_str()))))
                } else {
                    Err(e.at(place.as_str()).context("failed to read sled_info.json".to_owned()))
                }
            },
        },
    }
}

/// Whether a list holds a name.
pub fn holds_name(names: &Vec<String>, name: &str) -> (r: bool)
    ensures
        r == text::texts(names@).contains(name@),
{
    let ghost all = text::texts(names@);
    let mut i: usize = 0;
    while i < names.len()
        invariant
            i <= names.len(),
            all == text::texts(names@),
            forall|j: int| 0 <= j < i ==> #[trigger] all[j] != name@,
        decreases names.len() - i,
    {
        assert(all[i as int] == names[i as int]@);
        if text::same(names[i].as_str(), name) {
            return true;
        }
        i = i + 1;
    }
    false
}

/// Reads the inventory of a bundle: the sleds that have a record, and what
/// `sled_info.json` adds to them. A malformed `sled_info.json` is worth a
/// warning only.
pub fn read_inventory<S: BundleSource + ?Sized, D: Fn(&[u8], bool) -> Decoded>(
    source: &mut S,
    layout: Layout,
    decode: &D,
) -> (r: Result<(BundleInfo, Option<String>), BundleError>)
    requires
        is_decoder(*decode),
    ensures
        final(source).names() == old(source).names(),
        source::continues(old(source).calls(), final(source).calls()),
        forall|h: Seq<SourceCall>|
            source::continues(final(source).calls(), h) ==> #[trigger] inventory_read(
                old(source).names(),
                layout,
                *decode,
                h,
                old(source).calls().len() as int,
            ) == Some((warned(r), final(source).calls().len() as int)),
{
    let names = source.file_names();
    let sleds = match read_sleds(source, &names, layout) {
        Ok(sleds) => sleds,
        Err(e) => return Err(e),
    };
    let info = BundleInfo { sleds, unhealthy_sleds: NameMap::new() };
    if layout != Layout::Depth && !holds_name(&names, "sled_info.json") {
        return Ok((info, None));
    }
    match source.open_file("sled_info.json") {
        Err(e) => {
            if layout == Layout::Depth {
                return Ok((info, None));
            }
            return Err(e.context("failed to open sled_info.json".to_owned()));
        },
        Ok(_) => {},
    }
    let mut contents: Vec<u8> = Vec::new();
    assert(contents@ =~= Seq::empty());
    let failure = reader::drain(source, &mut contents);
    if layout == Layout::Components {
        match failure {
            Err(e) => return Err(e.context("failed to read sled_info.json".to_owned())),
            Ok(_) => {},
        }
    }
    let document = run_decoder(decode, &contents, failure.is_ok());
    conclude(layout, info, document, failure)
}

/// Every sled with an inventory record has one record, and logs of some zone
/// and of some service.
pub open spec fn is_complete(names: Seq<Seq<char>>) -> bool {
    let paths = records(names, names.len() as int, Layout::Depth);
    forall|i: int|
        0 <= i < paths.len() ==> {
            let uuid = uuid_in(#[trigger] paths[i]);
            &&& !repeated(paths, i)
            &&& !zones_of(names, Layout::Depth, uuid).is_empty()
            &&& !services_of(names, Layout::Depth, uuid).is_empty()
        }
}

/// Whether every sled with an inventory record has one record, and logs of some
/// zone and of some service.
pub fn listing_is_complete(names: &Vec<String>) -> (r: bool)
    ensures
        r == is_complete(text::texts(names@)),
{
    let ghost all = text::texts(names@);
    let layout = Layout::Depth;
    let paths = find_records(names, layout);
    let ghost listed = records(all, all.len() as int, layout);
    let spots = find_spots(names, layout);
    let mut uuids: Vec<String> = Vec::new();
    let mut i: usize = 0;
    assert forall|j: int| 0 <= j < spots.len() implies spot_value(#[trigger] spots[j]) == spot_of(
        all[j],
        layout,
    ) by {
        assert(all[j] == names@[j]@);
    }
    while i < paths.len()
        invariant
            i <= paths.len(),
            layout == Layout::Depth,
            all == text::texts(names@),
            listed == text::texts(paths@),
            listed == records(all, all.len() as int, layout),
            forall|j: int| 0 <= j < paths.len() ==> is_sled_txt((#[trigger] paths[j])@, layout),
            spots.len() == all.len(),
            forall|j: int|
                0 <= j < spots.len() ==> spot_value(#[trigger] spots[j]) == spot_of(all[j], layout),
            uuids.len() == i,
            forall|j: int| 0 <= j < i ==> (#[trigger] uuids[j])@ == uuid_in(listed[j]),
            forall|j: int|
                0 <= j < i ==> {
                    let uuid = uuid_in(#[trigger] listed[j]);
                    &&& !repeated(listed, j)
                    &&& !zones_of(all, layout, uuid).is_empty()
                    &&& !services_of(all, layout, uuid).is_empty()
                },
        decreases paths.len() - i,
    {
        let path = paths[i].as_str();
        assert(path@ == listed[i as int]);
        let uuid = read_uuid(path, Ghost(layout));
        let again = occurs_before(&uuids, uuid.as_str());
        let services = gather(Ghost(all), layout, &spots, uuid.as_str(), true);
        let zones = gather(Ghost(all), layout, &spots, uuid.as_str(), false);
        proof {
            if again {
                let j = choose|j: int| 0 <= j < uuids.len() && (#[trigger] uuids[j])@ == uuid@;
                assert(uuid_in(listed[j]) == uuid_in(listed[i as int]));
            }
            if repeated(listed, i as int) {
                let j = choose|j: int|
                    0 <= j < i && uuid_in(#[trigger] listed[j]) == uuid_in(listed[i as int]);
                assert(uuids[j]@ == uuid@);
            }
            lemma_empty(text::texts(services@));
            lemma_empty(text::texts(zones@));
        }
        if again || services.len() == 0 || zones.len() == 0 {
            return false;
        }
        uuids.push(uuid);
        i = i + 1;
    }
    true
}

proof fn lemma_empty(list: Seq<Seq<char>>)
    ensures
        list.to_set().is_empty() <==> list.len() == 0,
{
    if list.len() > 0 {
        assert(list.to_set().contains(list[0]));
    } else {
        assert(list.to_set() =~= Set::empty());
    }
}

/// The patterns select the sled `uuid`: a sled with a record as they select
/// sleds, one without a record by its UUID.
pub open spec fn uuid_selected(
    patterns: Seq<Pattern>,
    sleds: Map<Seq<char>, Sled>,
    uuid: Seq<char>,
) -> bool {
    if sleds.contains_key(uuid) {
        sled::sled_selected(patterns, sleds[uuid])
    } else {
        pattern::selects(patterns, uuid)
    }
}

/// The services that the names say some selected sled has logs of.
pub open spec fn present_services(
    names: Seq<Seq<char>>,
    layout: Layout,
    sleds: Map<Seq<char>, Sled>,
    patterns: Seq<Pattern>,
) -> Set<Seq<char>> {
    Set::new(
        |service: Seq<char>|
            exists|uuid: Seq<char>| #[trigger]
                has_service(names, layout, uuid, service) && uuid_selected(patterns, sleds, uuid),
    )
}

/// The zones that the names say some selected sled has logs of.
pub open spec fn present_zones(
    names: Seq<Seq<char>>,
    layout: Layout,
    sleds: Map<Seq<char>, Sled>,
    patterns: Seq<Pattern>,
) -> Set<Seq<char>> {
    Set::new(
        |zone: Seq<char>|
            exists|uuid: Seq<char>| #[trigger]
                has_zone(names, layout, uuid, zone) && uuid_selected(patterns, sleds, uuid),
    )
}

/// The service, or the zone, that a name says a selected sled has logs of.
spec fn told(
    name: Seq<char>,
    layout: Layout,
    sleds: Map<Seq<char>, Sled>,
    patterns: Seq<Pattern>,
    services: bool,
) -> Option<Seq<char>> {
    match spot_of(name, layout) {
        Some(spot) if uuid_selected(patterns, sleds, spot.sled) => if services {
            spot.service
        } else {
            spot.zone
        },
        _ => None,
    }
}

/// What the names tell of selected sleds.
spec fn all_told(
    names: Seq<Seq<char>>,
    layout: Layout,
    sleds: Map<Seq<char>, Sled>,
    patterns: Seq<Pattern>,
    services: bool,
) -> Set<Seq<char>> {
    Set::new(
        |x: Seq<char>|
            exists|i: int|
                0 <= i < names.len() && #[trigger] told(names[i], layout, sleds, patterns, services)
                    == Some(x),
    )
}

proof fn lemma_all_told(
    names: Seq<Seq<char>>,
    layout: Layout,
    sleds: Map<Seq<char>, Sled>,
    patterns: Seq<Pattern>,
)
    ensures
        all_told(names, layout, sleds, patterns, true) == present_services(
            names,
            layout,
            sleds,
            patterns,
        ),
        all_told(names, layout, sleds, patterns, false) == present_zones(
            names,
            layout,
            sleds,
            patterns,
        ),
{
    let services = present_services(names, layout, sleds, patterns);
    let zones = present_zones(names, layout, sleds, patterns);
    let a = all_told(names, layout, sleds, patterns, true);
    let b = all_told(names, layout, sleds, patterns, false);
    assert forall|x: Seq<char>| a.contains(x) <==> services.contains(x) by {
        if a.contains(x) {
            let i = choose|i: int|
                0 <= i < names.len() && #[trigger] told(names[i], layout, sleds, patterns, true)
                    == Some(x);
            let spot = spot_of(names[i], layout)->0;
            assert(has_service(names, layout, spot.sled, x));
        }
        if services.contains(x) {
            let u = choose|u: Seq<char>| #[trigger]
                has_service(names, layout, u, x) && uuid_selected(patterns, sleds, u);
            let i = choose|i: int|
                0 <= i < names.len() && (#[trigger] spot_of(names[i], layout) matches Some(spot)
                    && spot.sled == u && spot.service == Some(x));
            assert(told(names[i], layout, sleds, patterns, true) == Some(x));
        }
    }
    assert forall|x: Seq<char>| b.contains(x) <==> zones.contains(x) by {
        if b.contains(x) {
            let i = choose|i: int|
                0 <= i < names.len() && #[trigger] told(names[i], layout, sleds, patterns, false)
                    == Some(x);
            let spot = spot_of(names[i], layout)->0;
            assert(has_zone(names, layout, spot.sled, x));
        }
        if zones.contains(x) {
            let u = choose|u: Seq<char>| #[trigger]
                has_zone(names, layout, u, x) && uuid_selected(patterns, sleds, u);
            let i = choose|i: int|
                0 <= i < names.len() && (#[trigger] spot_of(names[i], layout) matches Some(spot)
                    && spot.sled == u && spot.zone == Some(x));
            assert(told(names[i], layout, sleds, patterns, false) == Some(x));
        }
    }
    assert(a =~= services);
    assert(b =~= zones);
}

proof fn lemma_told_is_finite(
    names: Seq<Seq<char>>,
    layout: Layout,
    sleds: Map<Seq<char>, Sled>,
    patterns: Seq<Pattern>,
    services: bool,
)
    ensures
        all_told(names, layout, sleds, patterns, services).finite(),
    decreases names.len(),
{
    let all = all_told(names, layout, sleds, patterns, services);
    if names.len() == 0 {
        assert(all =~= Set::empty());
    } else {
        let front = names.drop_last();
        lemma_told_is_finite(front, layout, sleds, patterns, services);
        let fewer = all_told(front, layout, sleds, patterns, services);
        let last = told(names.last(), layout, sleds, patterns, services);
        assert forall|x: Seq<char>| all.contains(x) <==> fewer.contains(x) || last == Some(x) by {
            if all.contains(x) {
                let k = choose|k: int|
                    0 <= k < names.len() && #[trigger] told(
                        names[k],
                        layout,
                        sleds,
                        patterns,
                        services,
                    ) == Some(x);
                if k < front.len() {
                    assert(told(front[k], layout, sleds, patterns, services) == Some(x));
                }
            }
            if fewer.contains(x) {
                let k = choose|k: int|
                    0 <= k < front.len() && #[trigger] told(
                        front[k],
                        layout,
                        sleds,
                        patterns,
                        services,
                    ) == Some(x);
                assert(told(names[k], layout, sleds, patterns, services) == Some(x));
            }
            if last == Some(x) {
                assert(told(names[names.len() - 1], layout, sleds, patterns, services) == Some(x));
            }
        }
        match last {
            Some(x) => {
                assert(all =~= fewer.insert(x));
            },
            None => {
                assert(all =~= fewer);
            },
        }
    }
}

/// The names speak of finitely many services and zones.
pub proof fn lemma_present_is_finite(
    names: Seq<Seq<char>>,
    layout: Layout,
    sleds: Map<Seq<char>, Sled>,
    patterns: Seq<Pattern>,
)
    ensures
        present_services(names, layout, sleds, patterns).finite(),
        present_zones(names, layout, sleds, patterns).finite(),
{
    lemma_all_told(names, layout, sleds, patterns);
    lemma_told_is_finite(names, layout, sleds, patterns, true);
    lemma_told_is_finite(names, layout, sleds, patterns, false);
}

/// Whether the patterns select the sled `uuid`.
fn selects_uuid(sleds: &NameMap<SledInfo>, patterns: &[Pattern], uuid: &str) -> (r: bool)
    ensures
        r == uuid_selected(patterns@, sled::sled_values(sleds@), uuid@),
{
    match sleds.get(uuid) {
        Some(sled) => sled.matches_patterns(patterns),
        None => pattern::matches_patterns(patterns, uuid),
    }
}

/// Gathers the services, or the zones, that the names say some selected sled has
/// logs of, in ascending order.
pub fn gather_present(
    names: &Vec<String>,
    layout: Layout,
    sleds: &NameMap<SledInfo>,
    patterns: &[Pattern],
    services: bool,
) -> (r: Vec<String>)
    ensures
        ({
            let all = text::texts(names@);
            let values = sled::sled_values(sleds@);
            let want = if services {
                present_services(all, layout, values, patterns@)
            } else {
                present_zones(all, layout, values, patterns@)
            };
            &&& text::texts(r@) == names::sorted(want)
            &&& names::ascending(text::texts(r@))
            &&& text::texts(r@).to_set() == want
        }),
{
    let ghost all = text::texts(names@);
    let ghost values = sled::sled_values(sleds@);
    let mut set: Vec<String> = Vec::new();
    let mut i: usize = 0;
    assert(text::texts(set@).to_set() =~= all_told(
        all.take(0),
        layout,
        values,
        patterns@,
        services,
    ));
    while i < names.len()
        invariant
            i <= names.len(),
            all == text::texts(names@),
            values == sled::sled_values(sleds@),
            names::ascending(text::texts(set@)),
            text::texts(set@).to_set() == all_told(
                all.take(i as int),
                layout,
                values,
                patterns@,
                services,
            ),
        decreases names.len() - i,
    {
        let ghost earlier = text::texts(set@).to_set();
        let ghost a = all.take(i as int);
        let ghost b = all.take(i + 1);
        let ghost here = told(all[i as int], layout, values, patterns@, services);
        assert(all[i as int] == names[i as int]@);
        match read_spot(names[i].as_str(), layout) {
            Some(spot) => {
                if selects_uuid(sleds, patterns, spot.sled.as_str()) {
                    let part = if services { &spot.service } else { &spot.zone };
                    match part {
                        Some(name) => names::insert_name(&mut set, name.as_str()),
                        None => {},
                    }
                }
            },
            None => {},
        }
        proof {
            assert(b =~= a.push(all[i as int]));
            let now = all_told(b, layout, values, patterns@, services);
            assert forall|x: Seq<char>| now.contains(x) <==> earlier.contains(x) || here == Some(x) by {
                if earlier.contains(x) {
                    let k = choose|k: int|
                        0 <= k < a.len() && #[trigger] told(a[k], layout, values, patterns@, services)
                            == Some(x);
                    assert(told(b[k], layout, values, patterns@, services) == Some(x));
                }
                if now.contains(x) {
                    let k = choose|k: int|
                        0 <= k < b.len() && #[trigger] told(b[k], layout, values, patterns@, services)
                            == Some(x);
                    if k < i {
                        assert(told(a[k], layout, values, patterns@, services) == Some(x));
                    }
                }
                if here == Some(x) {
                    assert(told(b[i as int], layout, values, patterns@, services) == Some(x));
                }
            }
            assert(text::texts(set@).to_set() =~= now);
        }
        i = i + 1;
    }
    proof {
        assert(all.take(i as int) =~= all);
        lemma_all_told(all, layout, values, patterns@);
        names::lemma_sorted(text::texts(set@));
    }
    set
}

} // verus!
