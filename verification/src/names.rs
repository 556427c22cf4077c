//! Lists of names in ascending order, without repetition, and maps whose keys
//! are such lists.
use crate::text;
use vstd::prelude::*;

verus! {

/// Each name stands before every later one.
pub open spec fn ascending(list: Seq<Seq<char>>) -> bool {
    forall|i: int, j: int|
        0 <= i < j < list.len() ==> text::precedes(#[trigger] list[i], #[trigger] list[j])
}

/// The names of a finite set in ascending order.
pub open spec fn sorted(names: Set<Seq<char>>) -> Seq<Seq<char>> {
    choose|list: Seq<Seq<char>>| #[trigger] ascending(list) && list.to_set() == names
}

/// No name stands before itself.
pub proof fn lemma_irreflexive(a: Seq<char>)
    ensures
        !text::precedes(a, a),
    decreases a.len(),
{
    if a.len() > 0 {
        lemma_irreflexive(a.skip(1));
    }
}

/// The order is transitive.
pub proof fn lemma_transitive(a: Seq<char>, b: Seq<char>, c: Seq<char>)
    requires
        text::precedes(a, b),
        text::precedes(b, c),
    ensures
        text::precedes(a, c),
    decreases a.len(),
{
    if a.len() > 0 && a[0] == b[0] && b[0] == c[0] {
        lemma_transitive(a.skip(1), b.skip(1), c.skip(1));
    }
}

/// Of two different names one stands before the other.
pub proof fn lemma_total(a: Seq<char>, b: Seq<char>)
    ensures
        text::precedes(a, b) || text::precedes(b, a) || a == b,
    decreases a.len(),
{
    if a.len() == 0 || b.len() == 0 {
        if a.len() == 0 && b.len() == 0 {
            assert(a =~= b);
        }
    } else if a[0] == b[0] {
        lemma_total(a.skip(1), b.skip(1));
        if a.skip(1) == b.skip(1) {
            assert(a =~= seq![a[0]] + a.skip(1));
            assert(b =~= seq![b[0]] + b.skip(1));
        }
    } else {
        assert(a[0] < b[0] || b[0] < a[0]);
    }
}

/// A set has one ascending list only.
pub proof fn lemma_one_order(x: Seq<Seq<char>>, y: Seq<Seq<char>>)
    requires
        ascending(x),
        ascending(y),
        x.to_set() == y.to_set(),
    ensures
        x == y,
    decreases x.len(),
{
    if x.len() == 0 {
        if y.len() > 0 {
            assert(y.to_set().contains(y[0]));
        }
        assert(x =~= y);
    } else {
        assert(x.to_set().contains(x.last()));
        assert(y.contains(x.last()));
        let i = choose|i: int| 0 <= i < y.len() && y[i] == x.last();
        assert(y.to_set().contains(y.last()));
        assert(x.contains(y.last()));
        let j = choose|j: int| 0 <= j < x.len() && x[j] == y.last();
        if i < y.len() - 1 && j < x.len() - 1 {
            lemma_transitive(x.last(), y.last(), x.last());
            lemma_irreflexive(x.last());
        }
        if i < y.len() - 1 {
            assert(x.last() == y.last());
            lemma_irreflexive(x.last());
        }
        assert(x.last() == y.last());
        let a = x.drop_last();
        let b = y.drop_last();
        assert forall|s: Seq<char>| a.to_set().contains(s) <==> b.to_set().contains(s) by {
            lemma_without_last(x, s);
            lemma_without_last(y, s);
        }
        assert(a.to_set() =~= b.to_set());
        lemma_one_order(a, b);
        assert(x =~= a.push(x.last()));
        assert(y =~= b.push(y.last()));
    }
}

proof fn lemma_without_last(x: Seq<Seq<char>>, s: Seq<char>)
    requires
        ascending(x),
        x.len() > 0,
    ensures
        x.drop_last().to_set().contains(s) <==> (x.to_set().contains(s) && s != x.last()),
{
    let a = x.drop_last();
    if a.to_set().contains(s) {
        let i = choose|i: int| 0 <= i < a.len() && a[i] == s;
        assert(x[i] == s);
        if s == x.last() {
            lemma_irreflexive(s);
        }
    }
    if x.to_set().contains(s) && s != x.last() {
        let i = choose|i: int| 0 <= i < x.len() && x[i] == s;
        assert(a[i] == s);
    }
}

/// The ascending list of a set is `sorted` of it.
pub proof fn lemma_sorted(list: Seq<Seq<char>>)
    requires
        ascending(list),
    ensures
        sorted(list.to_set()) == list,
{
    let chosen = sorted(list.to_set());
    assert(ascending(chosen) && chosen.to_set() == list.to_set());
    lemma_one_order(chosen, list);
}

/// Where a name stands, or belongs, in an ascending list: everything before
/// it is smaller, nothing from it on is.
pub open spec fn place(list: Seq<Seq<char>>, name: Seq<char>, i: int) -> bool {
    &&& 0 <= i <= list.len()
    &&& forall|j: int| 0 <= j < i ==> text::precedes(#[trigger] list[j], name)
    &&& forall|j: int| i <= j < list.len() ==> !text::precedes(#[trigger] list[j], name)
}

proof fn lemma_insert_ascending(list: Seq<Seq<char>>, name: Seq<char>, i: int)
    requires
        ascending(list),
        place(list, name, i),
        i < list.len() ==> list[i] != name,
    ensures
        ascending(list.insert(i, name)),
        list.insert(i, name).to_set() == list.to_set().insert(name),
        !list.contains(name),
{
    let new = list.insert(i, name);
    assert forall|a: int, b: int| 0 <= a < b < new.len() implies text::precedes(
        #[trigger] new[a],
        #[trigger] new[b],
    ) by {
        if b == i {
            assert(new[a] == list[a]);
        } else if a == i {
            lemma_total(list[b - 1], name);
            if list[b - 1] == name {
                if b - 1 > i {
                    lemma_irreflexive(name);
                    assert(text::precedes(list[i], list[b - 1]));
                }
            }
        } else {
            let x = if a < i { a } else { a - 1 };
            let y = if b < i { b } else { b - 1 };
            assert(text::precedes(list[x], list[y]));
        }
    }
    assert forall|s: Seq<char>| new.to_set().contains(s) <==> list.to_set().insert(name).contains(
        s,
    ) by {
        if new.contains(s) {
            let k = choose|k: int| 0 <= k < new.len() && new[k] == s;
            if k < i {
                assert(list[k] == s);
            } else if k > i {
                assert(list[k - 1] == s);
            }
        }
        if list.contains(s) {
            let k = choose|k: int| 0 <= k < list.len() && list[k] == s;
            if k < i {
                assert(new[k] == s);
            } else {
                assert(new[k + 1] == s);
            }
        }
        if s == name {
            assert(new[i] == s);
        }
    }
    assert(new.to_set() =~= list.to_set().insert(name));
    if list.contains(name) {
        let k = choose|k: int| 0 <= k < list.len() && list[k] == name;
        lemma_irreflexive(name);
        if k > i {
            assert(text::precedes(list[i], list[k]));
        }
    }
}

/// Every name has a place in an ascending list.
pub proof fn lemma_place(list: Seq<Seq<char>>, name: Seq<char>) -> (i: int)
    requires
        ascending(list),
    ensures
        place(list, name, i),
    decreases list.len(),
{
    if list.len() == 0 {
        0
    } else {
        let front = list.drop_last();
        let i = lemma_place(front, name);
        let n = front.len() as int;
        if i < n {
            assert(front[i] == list[i]);
            assert(text::precedes(list[i], list[n]));
            if text::precedes(list[n], name) {
                lemma_transitive(list[i], list[n], name);
            }
            assert forall|j: int| i <= j < list.len() implies !text::precedes(
                #[trigger] list[j],
                name,
            ) by {
                if j < n {
                    assert(front[j] == list[j]);
                }
            }
            assert forall|j: int| 0 <= j < i implies text::precedes(#[trigger] list[j], name) by {
                assert(front[j] == list[j]);
            }
            i
        } else {
            assert forall|j: int| 0 <= j < n implies text::precedes(#[trigger] list[j], name) by {
                assert(front[j] == list[j]);
            }
            if text::precedes(list[n], name) {
                n + 1
            } else {
                n
            }
        }
    }
}

proof fn lemma_list_of(names: Set<Seq<char>>) -> (list: Seq<Seq<char>>)
    requires
        names.finite(),
    ensures
        ascending(list),
        list.to_set() == names,
    decreases names.len(),
{
    if names.is_empty() {
        assert(Seq::<Seq<char>>::empty().to_set() =~= names);
        Seq::empty()
    } else {
        let x = names.choose();
        let rest = lemma_list_of(names.remove(x));
        let i = lemma_place(rest, x);
        assert(!rest.to_set().contains(x));
        if i < rest.len() && rest[i] == x {
            assert(rest.to_set().contains(rest[i]));
        }
        lemma_insert_ascending(rest, x, i);
        assert(names.remove(x).insert(x) =~= names);
        rest.insert(i, x)
    }
}

/// The sorted list of a finite set is ascending and holds the names of the set.
pub proof fn lemma_sorted_of_finite(names: Set<Seq<char>>)
    requires
        names.finite(),
    ensures
        ascending(sorted(names)),
        sorted(names).to_set() == names,
{
    let list = lemma_list_of(names);
    lemma_sorted(list);
}

/// Finds where a name stands, or belongs, in an ascending list.
fn place_of(list: &Vec<String>, name: &str) -> (r: (usize, bool))
    requires
        ascending(text::texts(list@)),
    ensures
        place(text::texts(list@), name@, r.0 as int),
        r.1 == text::texts(list@).contains(name@),
        r.1 ==> r.0 < list.len() && text::texts(list@)[r.0 as int] == name@,
        !r.1 && r.0 < list.len() ==> text::texts(list@)[r.0 as int] != name@,
{
    let mut i: usize = 0;
    let ghost all = text::texts(list@);
    while i < list.len() && text::comes_before(list[i].as_str(), name)
        invariant
            i <= list.len(),
            all == text::texts(list@),
            ascending(all),
            forall|j: int| 0 <= j < i ==> text::precedes(#[trigger] all[j], name@),
        decreases list.len() - i,
    {
        assert(all[i as int] == list[i as int]@);
        i = i + 1;
    }
    proof {
        assert forall|j: int| i <= j < all.len() implies !text::precedes(#[trigger] all[j], name@) by {
            assert(all[i as int] == list[i as int]@);
            if text::precedes(all[j], name@) && j > i {
                lemma_transitive(all[i as int], all[j], name@);
            }
        }
        if i < all.len() {
            assert(all[i as int] == list[i as int]@);
        }
    }
    let found = i < list.len() && text::same(list[i].as_str(), name);
    proof {
        if !found {
            if all.contains(name@) {
                let k = choose|k: int| 0 <= k < all.len() && all[k] == name@;
                lemma_irreflexive(name@);
                if k > i {
                    assert(text::precedes(all[i as int], all[k]));
                }
            }
        } else {
            assert(all[i as int] == name@);
        }
    }
    (i, found)
}

/// Adds a name to an ascending list; a name that it holds is not added again.
pub fn insert_name(list: &mut Vec<String>, name: &str)
    requires
        ascending(text::texts(old(list)@)),
    ensures
        ascending(text::texts(final(list)@)),
        text::texts(final(list)@).to_set() == text::texts(old(list)@).to_set().insert(name@),
{
    let (i, found) = place_of(list, name);
    let ghost all = text::texts(list@);
    if found {
        assert(all.to_set() =~= all.to_set().insert(name@));
    } else {
        proof {
            lemma_insert_ascending(all, name@, i as int);
        }
        list.insert(i, name.to_owned());
        assert(text::texts(list@) =~= all.insert(i as int, name@));
    }
}

/// A map from names to values, kept in ascending order of the names.
#[derive(Debug)]
pub struct NameMap<V> {
    keys: Vec<String>,
    values: Vec<V>,
}

impl<V> View for NameMap<V> {
    type V = Map<Seq<char>, V>;

    closed spec fn view(&self) -> Map<Seq<char>, V> {
        let keys = text::texts(self.keys@);
        Map::new(
            |k: Seq<char>| keys.contains(k),
            |k: Seq<char>| self.values@[keys.index_of(k)],
        )
    }
}

impl<V> NameMap<V> {
    #[verifier::type_invariant]
    closed spec fn ordered(self) -> bool {
        &&& self.keys@.len() == self.values@.len()
        &&& ascending(text::texts(self.keys@))
    }

    proof fn lemma_at(&self, i: int)
        requires
            self.ordered(),
            0 <= i < self.keys@.len(),
        ensures
            self@.contains_key(self.keys@[i]@),
            self@[self.keys@[i]@] == self.values@[i],
    {
        let keys = text::texts(self.keys@);
        let k = keys[i];
        assert(keys.contains(k));
        let j = keys.index_of(k);
        assert(0 <= j < keys.len() && keys[j] == k);
        lemma_irreflexive(k);
        if j < i {
            assert(text::precedes(keys[j], keys[i]));
        } else if i < j {
            assert(text::precedes(keys[i], keys[j]));
        }
    }

    proof fn lemma_dom(&self)
        requires
            self.ordered(),
        ensures
            self@.dom() == text::texts(self.keys@).to_set(),
            sorted(self@.dom()) == text::texts(self.keys@),
    {
        assert(self@.dom() =~= text::texts(self.keys@).to_set());
        lemma_sorted(text::texts(self.keys@));
    }

    /// A map without entries.
    pub fn new() -> (r: Self)
        ensures
            r@ == Map::<Seq<char>, V>::empty(),
    {
        let r = NameMap { keys: Vec::new(), values: Vec::new() };
        assert(r@ =~= Map::<Seq<char>, V>::empty());
        r
    }

    /// The number of entries.
    pub fn len(&self) -> (r: usize)
        ensures
            r == sorted(self@.dom()).len(),
            sorted(self@.dom()).to_set() == self@.dom(),
    {
        proof {
            use_type_invariant(self);
            self.lemma_dom();
        }
        self.keys.len()
    }

    /// The name of entry `i`, in ascending order.
    pub fn key_at(&self, i: usize) -> (r: &String)
        requires
            i < sorted(self@.dom()).len(),
        ensures
            r@ == sorted(self@.dom())[i as int],
    {
        proof {
            use_type_invariant(self);
            self.lemma_dom();
        }
        &self.keys[i]
    }

    /// The value of entry `i`, in ascending order of the names.
    pub fn value_at(&self, i: usize) -> (r: &V)
        requires
            i < sorted(self@.dom()).len(),
        ensures
            self@.contains_key(sorted(self@.dom())[i as int]),
            *r == self@[sorted(self@.dom())[i as int]],
    {
        proof {
            use_type_invariant(self);
            self.lemma_dom();
            self.lemma_at(i as int);
        }
        &self.values[i]
    }

    /// The value under a name.
    pub fn get(&self, name: &str) -> (r: Option<&V>)
        ensures
            match r {
                Some(v) => self@.contains_key(name@) && *v == self@[name@],
                None => !self@.contains_key(name@),
            },
    {
        proof {
            use_type_invariant(self);
            self.lemma_dom();
        }
        let (i, found) = place_of(&self.keys, name);
        if found {
            proof {
                self.lemma_at(i as int);
            }
            Some(&self.values[i])
        } else {
            None
        }
    }

    /// The map with one entry added, or its value replaced.
    pub fn insert(self, name: String, value: V) -> (r: Self)
        ensures
            r@ == self@.insert(name@, value),
    {
        proof {
            use_type_invariant(&self);
        }
        let NameMap { keys, values } = self;
        let mut keys = keys;
        let mut values = values;
        let (i, found) = place_of(&keys, name.as_str());
        let ghost all = text::texts(keys@);
        if found {
            values.set(i, value);
            let r = NameMap { keys, values };
            proof {
                r.lemma_at(i as int);
                assert forall|k: Seq<char>| #[trigger] all.contains(k) && k != name@ implies r@[k]
                    == self@[k] by {
                    let j = all.index_of(k);
                    assert(0 <= j < all.len() && all[j] == k);
                    r.lemma_at(j);
                    self.lemma_at(j);
                }
                assert(r@ =~= self@.insert(name@, value));
            }
            r
        } else {
            proof {
                lemma_insert_ascending(all, name@, i as int);
            }
            let ghost text = name@;
            keys.insert(i, name);
            values.insert(i, value);
            assert(text::texts(keys@) =~= all.insert(i as int, text));
            let r = NameMap { keys, values };
            proof {
                r.lemma_at(i as int);
                assert(r.keys@[i as int]@ == text);
                assert forall|k: Seq<char>| #[trigger] all.contains(k) implies r@.contains_key(k)
                    && r@[k] == self@[k] by {
                    let j = all.index_of(k);
                    assert(0 <= j < all.len() && all[j] == k);
                    self.lemma_at(j);
                    let m = if j < i { j } else { j + 1 };
                    assert(r.keys@[m]@ == k);
                    r.lemma_at(m);
                }
                assert forall|k: Seq<char>| #[trigger] r@.contains_key(k) implies k == text
                    || all.contains(k) by {
                    assert(text::texts(r.keys@).contains(k));
                    assert(text::texts(r.keys@).to_set().contains(k));
                    assert(all.to_set().insert(text).contains(k));
                }
                assert(r@ =~= self@.insert(text, value));
            }
            r
        }
    }

    /// The map without one entry, and the value that the entry had.
    pub fn remove(self, name: &str) -> (r: (Self, Option<V>))
        ensures
            r.0@ == self@.remove(name@),
            match r.1 {
                Some(v) => self@.contains_key(name@) && v == self@[name@],
                None => !self@.contains_key(name@),
            },
    {
        proof {
            use_type_invariant(&self);
        }
        let NameMap { keys, values } = self;
        let mut keys = keys;
        let mut values = values;
        let (i, found) = place_of(&keys, name);
        let ghost all = text::texts(keys@);
        if found {
            proof {
                self.lemma_at(i as int);
            }
            keys.remove(i);
            let value = values.remove(i);
            assert(text::texts(keys@) =~= all.remove(i as int));
            let r = NameMap { keys, values };
            proof {
                assert forall|k: Seq<char>| #[trigger] all.contains(k) && k != name@ implies r@
                    .contains_key(k) && r@[k] == self@[k] by {
                    let j = all.index_of(k);
                    assert(0 <= j < all.len() && all[j] == k);
                    self.lemma_at(j);
                    let m = if j < i { j } else { j - 1 };
                    assert(r.keys@[m]@ == k);
                    r.lemma_at(m);
                }
                assert forall|k: Seq<char>| #[trigger] r@.contains_key(k) implies k != name@
                    && all.contains(k) by {
                    let m = text::texts(r.keys@).index_of(k);
                    assert(text::texts(r.keys@).contains(k));
                    assert(text::texts(r.keys@)[m] == k);
                    let j = if m < i { m } else { m + 1 };
                    assert(all[j] == k);
                    lemma_irreflexive(k);
                    if j < i {
                        assert(text::precedes(all[j], all[i as int]));
                    } else {
                        assert(text::precedes(all[i as int], all[j]));
                    }
                }
                assert(r@ =~= self@.remove(name@));
            }
            (r, Some(value))
        } else {
            let r = NameMap { keys, values };
            assert(r@ =~= self@.remove(name@));
            (r, None)
        }
    }
}

} // verus!
