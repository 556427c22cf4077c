//! Sleds: their identity, how patterns select them, and the sled listings.
use crate::names;
use crate::names::NameMap;
use crate::pattern;
use crate::pattern::Pattern;
use crate::text;
use vstd::prelude::*;

verus! {

/// Identity fields parsed from a bundle's `sled.txt` contents.
#[derive(Debug, PartialEq, Eq)]
pub struct SledTxtInfo {
    pub serial: String,
    pub is_scrimlet: bool,
}

impl Clone for SledTxtInfo {
    fn clone(&self) -> (r: Self)
        ensures
            r.serial@ == self.serial@,
            r.is_scrimlet == self.is_scrimlet,
    {
        SledTxtInfo { serial: self.serial.clone(), is_scrimlet: self.is_scrimlet }
    }
}

/// The serial number and the scrimlet flag in the contents of a `sled.txt`.
pub open spec fn sled_txt(s: Seq<char>) -> Option<(Seq<char>, bool)> {
    match (
        text::between(s, " serial_number: \""@, "\""@),
        text::between(s, " is_scrimlet: "@, ","@),
    ) {
        (Some(serial), Some(flag)) => match text::bool_value(flag) {
            Some(b) => Some((serial, b)),
            None => None,
        },
        _ => None,
    }
}

/// Read the serial number and scrimlet status from `sled.txt` contents.
pub fn read_sled_serial(sled_info: &str) -> (r: Option<(String, bool)>)
    ensures
        match r {
            Some((serial, flag)) => sled_txt(sled_info@) == Some((serial@, flag)),
            None => sled_txt(sled_info@) is None,
        },
{
    match text::between_marks(sled_info, " serial_number: \"", "\"") {
        None => None,
        Some(serial) => match text::between_marks(sled_info, " is_scrimlet: ", ",") {
            None => None,
            Some(flag) => match text::parse_bool(flag.as_str()) {
                None => None,
                Some(is_scrimlet) => Some((serial, is_scrimlet)),
            },
        },
    }
}

/// Parse the serial number and scrimlet status from `sled.txt` contents.
pub fn parse_sled_txt(sled_info: &str) -> (r: Option<SledTxtInfo>)
    ensures
        match r {
            Some(t) => sled_txt(sled_info@) == Some((t.serial@, t.is_scrimlet)),
            None => sled_txt(sled_info@) is None,
        },
{
    match read_sled_serial(sled_info) {
        Some((serial, is_scrimlet)) => Some(SledTxtInfo { serial, is_scrimlet }),
        None => None,
    }
}

/// What a bundle says of one sled.
#[derive(Debug, PartialEq)]
pub struct SledInfo {
    pub uuid: String,
    pub cubby: Option<u16>,
    pub serial: String,
    pub zones: Vec<String>,
    pub services: Vec<String>,
    pub is_scrimlet: bool,
}

impl PartialOrd for SledInfo {
    fn partial_cmp(&self, other: &Self) -> (r: Option<std::cmp::Ordering>) {
        if text::comes_before(self.uuid.as_str(), other.uuid.as_str()) {
            Some(std::cmp::Ordering::Less)
        } else if text::comes_before(other.uuid.as_str(), self.uuid.as_str()) {
            Some(std::cmp::Ordering::Greater)
        } else {
            Some(std::cmp::Ordering::Equal)
        }
    }
}

impl vstd::std_specs::cmp::PartialOrdSpecImpl for SledInfo {
    open spec fn obeys_partial_cmp_spec() -> bool {
        true
    }

    open spec fn partial_cmp_spec(&self, other: &Self) -> Option<std::cmp::Ordering> {
        if text::precedes(self.uuid@, other.uuid@) {
            Some(std::cmp::Ordering::Less)
        } else if text::precedes(other.uuid@, self.uuid@) {
            Some(std::cmp::Ordering::Greater)
        } else {
            Some(std::cmp::Ordering::Equal)
        }
    }
}

/// A sled as a mathematical value.
pub struct Sled {
    pub uuid: Seq<char>,
    pub cubby: Option<u16>,
    pub serial: Seq<char>,
    pub zones: Seq<Seq<char>>,
    pub services: Seq<Seq<char>>,
    pub is_scrimlet: bool,
}

impl View for SledInfo {
    type V = Sled;

    open spec fn view(&self) -> Sled {
        Sled {
            uuid: self.uuid@,
            cubby: self.cubby,
            serial: self.serial@,
            zones: text::texts(self.zones@),
            services: text::texts(self.services@),
            is_scrimlet: self.is_scrimlet,
        }
    }
}

/// A pattern selects a sled in a known cubby by its number, where the pattern
/// is a number; any other sled by its UUID or its serial number, where
/// `by_name` says whether either matches.
pub open spec fn chosen_by(cubby: Option<u16>, pattern: Seq<char>, by_name: bool) -> bool {
    match (cubby, text::unsigned_value(pattern, 0xffff)) {
        (Some(c), Some(n)) => n == c,
        _ => by_name,
    }
}

/// One pattern selects the sled.
pub open spec fn sled_matches(pattern: Seq<char>, sled: Sled) -> bool {
    chosen_by(
        sled.cubby,
        pattern,
        pattern::glob_matches(pattern, sled.uuid) || pattern::glob_matches(pattern, sled.serial),
    )
}

/// The list of patterns selects the sled: an empty list selects every sled.
pub open spec fn sled_selected(patterns: Seq<Pattern>, sled: Sled) -> bool {
    patterns.len() == 0 || exists|i: int|
        0 <= i < patterns.len() && sled_matches(#[trigger] patterns[i]@, sled)
}

/// Whether a pattern selects a sled, where `by_name` says whether it matches
/// the UUID or the serial number.
///
/// If the pattern can be parsed into a number, it must be a cubby number. All
/// valid serials and UUIDs will fail to parse.
pub fn choose_sled(cubby: Option<u16>, pattern: &str, by_name: bool) -> (r: bool)
    ensures
        r == chosen_by(cubby, pattern@, by_name),
{
    match cubby {
        Some(c) => match text::parse_unsigned(pattern, 0xffff) {
            Some(n) => n == c as u64,
            None => by_name,
        },
        None => by_name,
    }
}

impl SledInfo {
    /// Whether a list of patterns selects this sled. No patterns select all
    /// sleds.
    pub fn matches_patterns(&self, patterns: &[Pattern]) -> (r: bool)
        ensures
            r == sled_selected(patterns@, self@),
    {
        // Match all sleds if unspecified.
        if patterns.len() == 0 {
            return true;
        }
        let mut i: usize = 0;
        while i < patterns.len()
            invariant
                i <= patterns.len(),
                forall|j: int| 0 <= j < i ==> !sled_matches(#[trigger] patterns@[j]@, self@),
            decreases patterns.len() - i,
        {
            let p = &patterns[i];
            let by_name = p.matches(self.uuid.as_str()) || p.matches(self.serial.as_str());
            if choose_sled(self.cubby, p.as_str(), by_name) {
                assert(sled_matches(patterns@[i as int]@, self@));
                return true;
            }
            i = i + 1;
        }
        false
    }
}

/// What a bundle says of its sleds.
#[derive(Debug)]
pub struct BundleInfo {
    /// The sleds with an inventory record, by UUID.
    pub sleds: NameMap<SledInfo>,
    /// The cubbies of sleds without one, by serial number.
    pub unhealthy_sleds: NameMap<Option<u16>>,
}

/// The sleds of a bundle as mathematical values.
pub struct Inventory {
    pub sleds: Map<Seq<char>, Sled>,
    pub unhealthy: Map<Seq<char>, Option<u16>>,
}

/// The values of a map of sleds.
pub open spec fn sled_values(sleds: Map<Seq<char>, SledInfo>) -> Map<Seq<char>, Sled> {
    sleds.map_values(|s: SledInfo| s@)
}

impl View for BundleInfo {
    type V = Inventory;

    open spec fn view(&self) -> Inventory {
        Inventory { sleds: sled_values(self.sleds@), unhealthy: self.unhealthy_sleds@ }
    }
}

/// The sleds in ascending order of their UUIDs.
pub open spec fn listed(sleds: Map<Seq<char>, Sled>) -> Seq<Sled> {
    names::sorted(sleds.dom()).map_values(|uuid: Seq<char>| sleds[uuid])
}

/// The order of cubbies: an unknown one before all numbers.
pub open spec fn rank(cubby: Option<u16>) -> int {
    match cubby {
        None => -1,
        Some(n) => n as int,
    }
}

/// `i` put into the list of indices `order` by its cubby: behind those of the
/// same cubby.
pub open spec fn placed(order: Seq<int>, cubbies: Seq<Option<u16>>, i: int) -> Seq<int>
    decreases order.len(),
{
    if order.len() > 0 && rank(cubbies[order.last()]) > rank(cubbies[i]) {
        placed(order.drop_last(), cubbies, i).push(order.last())
    } else {
        order.push(i)
    }
}

/// The first `n` indices in the order of their cubbies, those of the same
/// cubby in ascending order.
pub open spec fn by_cubby(cubbies: Seq<Option<u16>>, n: nat) -> Seq<int>
    decreases n,
{
    if n == 0 {
        Seq::empty()
    } else {
        placed(by_cubby(cubbies, (n - 1) as nat), cubbies, n - 1)
    }
}

proof fn lemma_placed(order: Seq<int>, cubbies: Seq<Option<u16>>, i: int, at: int)
    requires
        0 <= at <= order.len(),
        forall|k: int| at <= k < order.len() ==> rank(cubbies[#[trigger] order[k]]) > rank(cubbies[i]),
        at > 0 ==> rank(cubbies[order[at - 1]]) <= rank(cubbies[i]),
    ensures
        placed(order, cubbies, i) == order.insert(at, i),
    decreases order.len(),
{
    if at < order.len() {
        assert(rank(cubbies[order[order.len() - 1]]) > rank(cubbies[i]));
        lemma_placed(order.drop_last(), cubbies, i, at);
        assert(order.drop_last().insert(at, i).push(order.last()) =~= order.insert(at, i));
    } else {
        assert(order.insert(at, i) =~= order.push(i));
    }
}

/// The indices of a list of cubbies in the order of the cubbies: an unknown
/// cubby first, equal ones in the order of the list.
pub fn cubby_order(cubbies: &Vec<Option<u16>>) -> (r: Vec<usize>)
    ensures
        r@.map_values(|i: usize| i as int) == by_cubby(cubbies@, cubbies@.len()),
        forall|k: int| 0 <= k < r.len() ==> #[trigger] r[k] < cubbies.len(),
        r.len() == cubbies.len(),
{
    let mut order: Vec<usize> = Vec::new();
    let mut i: usize = 0;
    assert(order@.map_values(|i: usize| i as int) =~= Seq::empty());
    while i < cubbies.len()
        invariant
            i <= cubbies.len(),
            order@.map_values(|i: usize| i as int) == by_cubby(cubbies@, i as nat),
            forall|k: int| 0 <= k < order.len() ==> #[trigger] order[k] < i,
            order.len() == i,
        decreases cubbies.len() - i,
    {
        let ghost known = order@.map_values(|i: usize| i as int);
        let mut at: usize = order.len();
        while at > 0 && before(cubbies[i], cubbies[order[at - 1]])
            invariant
                i < cubbies.len(),
                at <= order.len(),
                known == order@.map_values(|i: usize| i as int),
                forall|k: int| 0 <= k < order.len() ==> #[trigger] order[k] < i,
                forall|k: int|
                    at <= k < known.len() ==> rank(cubbies[#[trigger] known[k]]) > rank(
                        cubbies[i as int],
                    ),
            decreases at,
        {
            assert(known[at - 1] == order[at - 1]);
            at = at - 1;
        }
        proof {
            if at > 0 {
                assert(known[at - 1] == order[at - 1]);
            }
            lemma_placed(known, cubbies@, i as int, at as int);
        }
        let ghost earlier = order@;
        order.insert(at, i);
        assert forall|k: int| 0 <= k < order.len() implies #[trigger] order[k] < i + 1 by {
            if k < at {
                assert(order[k] == earlier[k]);
            } else if k > at {
                assert(order[k] == earlier[k - 1]);
            }
        }
        assert(order@.map_values(|i: usize| i as int) =~= known.insert(at as int, i as int));
        i = i + 1;
    }
    order
}

/// Whether cubby `a` stands before cubby `b`.
fn before(a: Option<u16>, b: Option<u16>) -> (r: bool)
    ensures
        r == (rank(a) < rank(b)),
{
    match (a, b) {
        (_, None) => false,
        (None, Some(_)) => true,
        (Some(x), Some(y)) => x < y,
    }
}

} // verus!
