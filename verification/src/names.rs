//! A map from channel names, kept in the order of the names.

use vstd::prelude::*;
use vstd::utf8::*;

verus! {

/// `a` comes before `b` in the lexicographic order of bytes: they agree up to some place, and
/// there `a` ends or has the smaller byte.
pub open spec fn bytes_before(a: Seq<u8>, b: Seq<u8>) -> bool {
    exists|k: int| #[trigger] differ_at(a, b, k)
}

/// `a` and `b` agree before `k`, and at `k`, inside `b`, `a` ends or has the smaller byte.
pub open spec fn differ_at(a: Seq<u8>, b: Seq<u8>, k: int) -> bool {
    &&& 0 <= k <= a.len()
    &&& k < b.len()
    &&& forall|i: int| 0 <= i < k ==> #[trigger] a[i] == b[i]
    &&& k == a.len() || a[k] < b[k]
}

/// The order of names, which is that of their bytes in UTF-8.
pub open spec fn name_before(a: Seq<char>, b: Seq<char>) -> bool {
    bytes_before(encode_utf8(a), encode_utf8(b))
}

/// Each name comes before all that follow it.
pub open spec fn names_sorted(names: Seq<Seq<char>>) -> bool {
    forall|i: int, j: int|
        0 <= i < j < names.len() ==> #[trigger] name_before(names[i], names[j])
}

/// No name comes before itself.
pub proof fn lemma_name_before_irreflexive(a: Seq<char>)
    ensures
        !name_before(a, a),
{
}

/// A name that comes before a second comes before all that follow the second.
pub proof fn lemma_name_before_transitive(a: Seq<char>, b: Seq<char>, c: Seq<char>)
    requires
        name_before(a, b),
        name_before(b, c),
    ensures
        name_before(a, c),
{
    let (x, y, z) = (encode_utf8(a), encode_utf8(b), encode_utf8(c));
    let k1 = choose|k: int| #[trigger] differ_at(x, y, k);
    let k2 = choose|k: int| #[trigger] differ_at(y, z, k);
    let k = if k1 <= k2 {
        k1
    } else {
        k2
    };
    assert forall|i: int| 0 <= i < k implies #[trigger] x[i] == z[i] by {
        assert(x[i] == y[i]);
        assert(y[i] == z[i]);
    }
    if k1 < k2 {
        assert(y[k1] == z[k1]);
    } else if k2 < k1 {
        assert(x[k2] == y[k2]);
    }
    assert(differ_at(x, z, k));
}

/// Of two different names one comes before the other, and not both.
pub proof fn law_names_are_ordered(a: Seq<char>, b: Seq<char>)
    ensures
        a == b ==> !name_before(a, b),
        a != b ==> name_before(a, b) != name_before(b, a),
{
    let (x, y) = (encode_utf8(a), encode_utf8(b));
    lemma_name_before_irreflexive(a);
    if a != b {
        if name_before(a, b) && name_before(b, a) {
            lemma_name_before_transitive(a, b, a);
        }
        encode_utf8_decode_utf8(a);
        encode_utf8_decode_utf8(b);
        lemma_differ_from(x, y, 0);
    }
}

/// Bytes that agree up to a place and are not the same differ from there on.
proof fn lemma_differ_from(x: Seq<u8>, y: Seq<u8>, k: int)
    requires
        x != y,
        0 <= k <= x.len(),
        k <= y.len(),
        forall|i: int| 0 <= i < k ==> #[trigger] x[i] == y[i],
    ensures
        bytes_before(x, y) || bytes_before(y, x),
    decreases x.len() - k,
{
    if k < x.len() && k < y.len() && x[k] == y[k] {
        lemma_differ_from(x, y, k + 1);
    } else if k == x.len() && k == y.len() {
        assert(x =~= y);
    } else {
        assert(differ_at(x, y, k) || differ_at(y, x, k));
    }
}

/// The order of names is that of a dictionary over their bytes: behind a common beginning, the
/// smaller byte decides, whatever follows, and a name comes before each longer one that begins
/// with it.
pub proof fn law_first_difference_decides(
    a: Seq<char>,
    b: Seq<char>,
    start: Seq<u8>,
    rest: Seq<u8>,
    other: Seq<u8>,
    small: u8,
    great: u8,
)
    requires
        encode_utf8(b) == start.push(great) + other,
        encode_utf8(a) == start || (encode_utf8(a) == start.push(small) + rest && small < great),
    ensures
        name_before(a, b),
{
    assert(differ_at(encode_utf8(a), encode_utf8(b), start.len() as int));
}

/// What a map holds under the first `n` names.
pub open spec fn part<V>(map: Map<Seq<char>, V>, names: Seq<Seq<char>>, n: int) -> Map<
    Seq<char>,
    V,
> {
    Map::new(
        |name: Seq<char>| exists|i: int| 0 <= i < n && #[trigger] names[i] == name,
        |name: Seq<char>| map[name],
    )
}

/// Under one more name a map holds one more value.
pub proof fn lemma_part<V>(map: Map<Seq<char>, V>, names: Seq<Seq<char>>, n: int)
    requires
        0 <= n < names.len(),
    ensures
        part(map, names, n + 1) == part(map, names, n).insert(names[n], map[names[n]]),
{
    let more = part(map, names, n).insert(names[n], map[names[n]]);
    assert forall|name: Seq<char>|
        part(map, names, n + 1).contains_key(name) <==> more.contains_key(name) by {
        if part(map, names, n).contains_key(name) {
            let i = choose|i: int| 0 <= i < n && #[trigger] names[i] == name;
            assert(0 <= i < n + 1 && names[i] == name);
        }
        if name == names[n] {
            assert(0 <= n < n + 1 && names[n] == name);
        }
    }
    assert(part(map, names, n + 1) =~= more);
}

/// How two names stand to each other.
#[derive(Debug, Clone, Copy, PartialEq, Eq, Structural)]
pub enum NameOrder {
    /// The first comes before the second.
    Before,
    /// They are the same name.
    Same,
    /// The second comes before the first.
    After,
}

/// Compares two names.
pub fn compare_names(a: &str, b: &str) -> (order: NameOrder)
    ensures
        order == NameOrder::Before <==> name_before(a@, b@),
        order == NameOrder::Same <==> a@ == b@,
        order == NameOrder::After <==> name_before(b@, a@),
{
    let x = a.as_bytes();
    let y = b.as_bytes();
    let mut i: usize = 0;
    while i < x.len() && i < y.len()
        invariant
            i <= x@.len(),
            i <= y@.len(),
            x@ == encode_utf8(a@),
            y@ == encode_utf8(b@),
            forall|j: int| 0 <= j < i ==> #[trigger] x@[j] == y@[j],
        decreases x@.len() - i,
    {
        if x[i] != y[i] {
            proof {
                lemma_name_before_irreflexive(a@);
            }
            if x[i] < y[i] {
                proof {
                    assert(differ_at(x@, y@, i as int));
                    if name_before(b@, a@) {
                        lemma_name_before_transitive(a@, b@, a@);
                    }
                }
                return NameOrder::Before;
            }
            proof {
                assert(differ_at(y@, x@, i as int));
                if name_before(a@, b@) {
                    lemma_name_before_transitive(a@, b@, a@);
                }
            }
            return NameOrder::After;
        }
        i = i + 1;
    }
    proof {
        lemma_name_before_irreflexive(a@);
    }
    if i < y.len() {
        proof {
            assert(differ_at(x@, y@, i as int));
            if name_before(b@, a@) {
                lemma_name_before_transitive(a@, b@, a@);
            }
        }
        NameOrder::Before
    } else if i < x.len() {
        proof {
            assert(differ_at(y@, x@, i as int));
            if name_before(a@, b@) {
                lemma_name_before_transitive(a@, b@, a@);
            }
        }
        NameOrder::After
    } else {
        proof {
            assert(x@ =~= y@);
            encode_utf8_decode_utf8(a@);
            encode_utf8_decode_utf8(b@);
            assert(a@ == b@);
        }
        NameOrder::Same
    }
}

/// A map from names to values. Each name occurs once, and the names stand in their order.
#[derive(Debug)]
pub struct NameMap<V> {
    names: Vec<String>,
    values: Vec<V>,
}

impl<V> View for NameMap<V> {
    type V = Map<Seq<char>, V>;

    open spec fn view(&self) -> Map<Seq<char>, V> {
        Map::new(
            |name: Seq<char>| self.names().contains(name),
            |name: Seq<char>| self.values()[self.names().index_of(name)],
        )
    }
}

impl<V> NameMap<V> {
    /// The names, in order.
    pub closed spec fn names(&self) -> Seq<Seq<char>> {
        self.names@.map_values(|name: String| name@)
    }

    /// The values, each where its name stands.
    pub closed spec fn values(&self) -> Seq<V> {
        self.values@
    }

    /// There are as many values as names, and the names are in order.
    pub open spec fn wf(&self) -> bool {
        &&& self.names().len() == self.values().len()
        &&& names_sorted(self.names())
    }

    /// What the map holds under the name at a place is the value at that place.
    pub proof fn lemma_at(&self, i: int)
        requires
            self.wf(),
            0 <= i < self.names().len(),
        ensures
            self@.contains_key(self.names()[i]),
            self@[self.names()[i]] == self.values()[i],
            self.names().index_of(self.names()[i]) == i,
    {
        let name = self.names()[i];
        assert(self.names().contains(name));
        let k = self.names().index_of(name);
        assert(0 <= k < self.names().len() && self.names()[k] == name);
        lemma_name_before_irreflexive(name);
        if k < i {
            assert(name_before(self.names()[k], self.names()[i]));
        } else if i < k {
            assert(name_before(self.names()[i], self.names()[k]));
        }
    }

    /// The names are listed in their order, each name of the map once and no other.
    pub proof fn law_listed_in_order(&self, i: int, j: int, name: Seq<char>)
        requires
            self.wf(),
            0 <= i < j < self.names().len(),
        ensures
            name_before(self.names()[i], self.names()[j]),
            self.names()[i] != self.names()[j],
            self@.contains_key(name) <==> exists|k: int|
                0 <= k < self.names().len() && #[trigger] self.names()[k] == name,
    {
        assert(name_before(self.names()[i], self.names()[j]));
        lemma_name_before_irreflexive(self.names()[i]);
        if self@.contains_key(name) {
            let k = self.names().index_of(name);
            assert(self.names()[k] == name);
        }
        assert forall|k: int|
            0 <= k < self.names().len() && #[trigger] self.names()[k] == name implies
            self@.contains_key(name) by {
            self.lemma_at(k);
        }
    }

    /// A name is not among those before it.
    pub proof fn lemma_part_before<W>(&self, map: Map<Seq<char>, W>, n: int)
        requires
            self.wf(),
            0 <= n < self.names().len(),
        ensures
            !part(map, self.names(), n).contains_key(self.names()[n]),
    {
        assert forall|i: int| 0 <= i < n implies #[trigger] self.names()[i]
            != self.names()[n] by {
            self.lemma_at(i);
            self.lemma_at(n);
        }
    }

    /// All names make up the whole.
    pub proof fn lemma_part_all<W>(&self, map: Map<Seq<char>, W>)
        requires
            self.wf(),
            map.dom() == self@.dom(),
        ensures
            part(map, self.names(), self.names().len() as int) == map,
    {
        let names = self.names();
        assert forall|name: Seq<char>|
            part(map, names, names.len() as int).contains_key(name) <==> map.contains_key(name) by {
            assert(map.contains_key(name) <==> self@.dom().contains(name));
            if map.contains_key(name) {
                let i = names.index_of(name);
                assert(names[i] == name);
            }
            if part(map, names, names.len() as int).contains_key(name) {
                let i = choose|i: int| 0 <= i < names.len() && #[trigger] names[i] == name;
                self.lemma_at(i);
            }
        }
        assert(part(map, names, names.len() as int) =~= map);
    }

    /// A map that holds nothing.
    pub fn new() -> (map: NameMap<V>)
        ensures
            map.wf(),
            map@ == Map::<Seq<char>, V>::empty(),
    {
        let map = NameMap { names: Vec::new(), values: Vec::new() };
        assert(map@ =~= Map::<Seq<char>, V>::empty());
        map
    }

    /// The number of names.
    pub fn len(&self) -> (n: usize)
        requires
            self.wf(),
        ensures
            n == self.names().len(),
    {
        self.values.len()
    }

    /// The name at a place of the order.
    pub fn name_at(&self, i: usize) -> (name: &String)
        requires
            self.wf(),
            i < self.names().len(),
        ensures
            name@ == self.names()[i as int],
            self@.contains_key(name@),
    {
        proof {
            self.lemma_at(i as int);
        }
        &self.names[i]
    }

    /// The value under the name at a place of the order.
    pub fn value_at(&self, i: usize) -> (value: &V)
        requires
            self.wf(),
            i < self.names().len(),
        ensures
            *value == self@[self.names()[i as int]],
    {
        proof {
            self.lemma_at(i as int);
        }
        &self.values[i]
    }

    /// The value under the name at a place of the order, to be written in place.
    pub fn value_at_mut(&mut self, i: usize) -> (value: &mut V)
        requires
            old(self).wf(),
            i < old(self).names().len(),
        ensures
            *value == old(self)@[old(self).names()[i as int]],
            final(self).wf(),
            final(self).names() == old(self).names(),
            final(self)@ == old(self)@.insert(old(self).names()[i as int], *final(value)),
    {
        proof {
            self.lemma_at(i as int);
        }
        &mut self.values[i]
    }

    /// Where the name stands, or where it would go.
    fn find(&self, name: &str) -> (place: Result<usize, usize>)
        requires
            self.wf(),
        ensures
            match place {
                Ok(i) => i < self.names().len() && self.names()[i as int] == name@,
                Err(i) => {
                    &&& i <= self.names().len()
                    &&& !self.names().contains(name@)
                    &&& forall|j: int| 0 <= j < i ==> #[trigger] name_before(self.names()[j], name@)
                    &&& forall|j: int|
                        i <= j < self.names().len() ==> #[trigger] name_before(
                            name@,
                            self.names()[j],
                        )
                },
            },
    {
        let mut low: usize = 0;
        let mut high: usize = self.names.len();
        while low < high
            invariant
                self.wf(),
                low <= high <= self.names().len(),
                forall|j: int| 0 <= j < low ==> #[trigger] name_before(self.names()[j], name@),
                forall|j: int|
                    high <= j < self.names().len() ==> #[trigger] name_before(
                        name@,
                        self.names()[j],
                    ),
            decreases high - low,
        {
            let mid: usize = low + (high - low) / 2;
            match compare_names(self.names[mid].as_str(), name) {
                NameOrder::Same => {
                    return Ok(mid);
                },
                NameOrder::Before => {
                    proof {
                        assert forall|j: int| 0 <= j < mid + 1 implies #[trigger] name_before(
                            self.names()[j],
                            name@,
                        ) by {
                            if j < mid {
                                assert(name_before(self.names()[j], self.names()[mid as int]));
                                lemma_name_before_transitive(
                                    self.names()[j],
                                    self.names()[mid as int],
                                    name@,
                                );
                            }
                        }
                    }
                    low = mid + 1;
                },
                NameOrder::After => {
                    proof {
                        assert forall|j: int|
                            mid <= j < self.names().len() implies #[trigger] name_before(
                            name@,
                            self.names()[j],
                        ) by {
                            if mid < j {
                                assert(name_before(self.names()[mid as int], self.names()[j]));
                                lemma_name_before_transitive(
                                    name@,
                                    self.names()[mid as int],
                                    self.names()[j],
                                );
                            }
                        }
                    }
                    high = mid;
                },
            }
        }
        proof {
            lemma_name_before_irreflexive(name@);
            if self.names().contains(name@) {
                let j = self.names().index_of(name@);
                assert(self.names()[j] == name@);
                assert(name_before(self.names()[j], name@) || name_before(name@, self.names()[j]));
            }
        }
        Err(low)
    }

    /// The value under the name, if there is one.
    pub fn get(&self, name: &str) -> (value: Option<&V>)
        requires
            self.wf(),
        ensures
            value is Some <==> self@.contains_key(name@),
            value matches Some(v) ==> *v == self@[name@],
    {
        match self.find(name) {
            Ok(i) => {
                proof {
                    self.lemma_at(i as int);
                }
                Some(&self.values[i])
            },
            Err(_) => None,
        }
    }

    /// The value under the name, to be written in place, if there is one.
    pub fn get_mut(&mut self, name: &str) -> (value: Option<&mut V>)
        requires
            old(self).wf(),
        ensures
            final(self).wf(),
            final(self).names() == old(self).names(),
            match value {
                Some(v) => {
                    &&& old(self)@.contains_key(name@)
                    &&& *v == old(self)@[name@]
                    &&& final(self)@ == old(self)@.insert(name@, *final(v))
                },
                None => !old(self)@.contains_key(name@) && final(self)@ == old(self)@,
            },
    {
        match self.find(name) {
            Ok(i) => {
                proof {
                    self.lemma_at(i as int);
                }
                Some(&mut self.values[i])
            },
            Err(_) => None,
        }
    }

    /// Puts a value under the name, in place of one that was there.
    pub fn insert(&mut self, name: String, value: V)
        requires
            old(self).wf(),
        ensures
            final(self).wf(),
            final(self)@ == old(self)@.insert(name@, value),
    {
        match self.find(name.as_str()) {
            Ok(i) => {
                self.values.set(i, value);
                proof {
                    old(self).lemma_at(i as int);
                    assert(self.names() =~= old(self).names());
                    assert(self@ =~= old(self)@.insert(name@, value));
                }
            },
            Err(i) => {
                let ghost key = name@;
                self.names.insert(i, name);
                self.values.insert(i, value);
                proof {
                    assert(self.names() =~= old(self).names().insert(i as int, key));
                    self.lemma_inserted(*old(self), i as int, key, value);
                }
            },
        }
    }

    /// Takes the value under the name out, if there is one.
    pub fn remove(&mut self, name: &str) -> (value: Option<V>)
        requires
            old(self).wf(),
        ensures
            final(self).wf(),
            final(self)@ == old(self)@.remove(name@),
            value is Some <==> old(self)@.contains_key(name@),
            value matches Some(v) ==> v == old(self)@[name@],
    {
        match self.find(name) {
            Ok(i) => {
                self.names.remove(i);
                let value = self.values.remove(i);
                proof {
                    old(self).lemma_at(i as int);
                    assert(self.names() =~= old(self).names().remove(i as int));
                    self.lemma_removed(*old(self), i as int);
                }
                Some(value)
            },
            Err(_) => {
                assert(self@ =~= old(self)@.remove(name@));
                None
            },
        }
    }

    proof fn lemma_inserted(&self, before: NameMap<V>, i: int, name: Seq<char>, value: V)
        requires
            before.wf(),
            0 <= i <= before.names().len(),
            self.names() == before.names().insert(i, name),
            self.values() == before.values().insert(i, value),
            !before.names().contains(name),
            forall|j: int| 0 <= j < i ==> #[trigger] name_before(before.names()[j], name),
            forall|j: int|
                i <= j < before.names().len() ==> #[trigger] name_before(name, before.names()[j]),
        ensures
            self.wf(),
            self@ == before@.insert(name, value),
    {
        let old_names = before.names();
        let names = self.names();
        assert forall|j: int, k: int| 0 <= j < k < names.len() implies #[trigger] name_before(
            names[j],
            names[k],
        ) by {
            let j0 = if j < i { j } else { j - 1 };
            let k0 = if k < i { k } else { k - 1 };
            if j == i {
                assert(names[k] == old_names[k0]);
                assert(name_before(name, old_names[k0]));
            } else if k == i {
                assert(names[j] == old_names[j0]);
                assert(name_before(old_names[j0], name));
            } else {
                assert(names[j] == old_names[j0]);
                assert(names[k] == old_names[k0]);
                assert(name_before(old_names[j0], old_names[k0]));
            }
        }
        assert forall|n: Seq<char>| self@.contains_key(n) <==> before@.insert(
            name,
            value,
        ).contains_key(n) by {
            if before.names().contains(n) {
                let j = old_names.index_of(n);
                assert(old_names[j] == n);
                assert(names[if j < i { j } else { j + 1 }] == n);
            }
            if names.contains(n) && n != name {
                let j = names.index_of(n);
                assert(names[j] == n);
                assert(old_names[if j < i { j } else { j - 1 }] == n);
            }
            assert(names[i] == name);
        }
        assert forall|n: Seq<char>| self@.contains_key(n) implies self@[n] == before@.insert(
            name,
            value,
        )[n] by {
            if n == name {
                self.lemma_at(i);
            } else {
                let j = old_names.index_of(n);
                assert(before.names().contains(n));
                let at = if j < i { j } else { j + 1 };
                assert(names[at] == n);
                self.lemma_at(at);
                before.lemma_at(j);
            }
        }
        assert(self@ =~= before@.insert(name, value));
    }

    proof fn lemma_removed(&self, before: NameMap<V>, i: int)
        requires
            before.wf(),
            0 <= i < before.names().len(),
            self.names() == before.names().remove(i),
            self.values() == before.values().remove(i),
        ensures
            self.wf(),
            self@ == before@.remove(before.names()[i]),
    {
        let old_names = before.names();
        let names = self.names();
        let name = old_names[i];
        assert forall|j: int, k: int| 0 <= j < k < names.len() implies #[trigger] name_before(
            names[j],
            names[k],
        ) by {
            let j0 = if j < i { j } else { j + 1 };
            let k0 = if k < i { k } else { k + 1 };
            assert(name_before(old_names[j0], old_names[k0]));
        }
        assert forall|n: Seq<char>| self@.contains_key(n) <==> before@.remove(
            name,
        ).contains_key(n) by {
            if old_names.contains(n) && n != name {
                let j = old_names.index_of(n);
                assert(old_names[j] == n);
                assert(names[if j < i { j } else { j - 1 }] == n);
            }
            if names.contains(n) {
                let j = names.index_of(n);
                let j0 = if j < i { j } else { j + 1 };
                assert(old_names[j0] == n);
                before.lemma_at(i);
                before.lemma_at(j0);
            }
        }
        assert forall|n: Seq<char>| self@.contains_key(n) implies self@[n] == before@.remove(
            name,
        )[n] by {
            let j = names.index_of(n);
            assert(names.contains(n) && names[j] == n);
            let j0 = if j < i { j } else { j + 1 };
            assert(old_names[j0] == n);
            before.lemma_at(j0);
            self.lemma_at(j);
        }
        assert(self@ =~= before@.remove(name));
    }
}

} // verus!
