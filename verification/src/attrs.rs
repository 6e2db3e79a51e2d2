//! Multi-valued attribute maps and the string-set helpers the matchers use.
//!
//! Subject and resource attributes are multi-valued: each key maps to a set
//! of string values. A key mapped to an empty set behaves exactly like an
//! absent key when matching (fail-closed).
use vstd::prelude::*;

verus! {

broadcast use vstd::seq_lib::group_seq_properties;

/// `true` when some element of `s` has the character sequence `v`.
///
/// A `Vec<String>` is read as a set of strings: order and repetition do not
/// matter to membership.
pub open spec fn str_seq_has(s: Seq<String>, v: Seq<char>) -> bool {
    exists|i: int| 0 <= i < s.len() && (#[trigger] s[i])@ == v
}

/// The set of character sequences held by `s`.
pub open spec fn str_set(s: Seq<String>) -> Set<Seq<char>> {
    Set::new(|v: Seq<char>| str_seq_has(s, v))
}

/// `true` when no two elements of `s` have the same character sequence.
pub open spec fn str_seq_distinct(s: Seq<String>) -> bool {
    forall|i: int, j: int| 0 <= i < j < s.len() ==> (#[trigger] s[i])@ != (#[trigger] s[j])@
}

/// Tests whether `haystack` holds a string equal to `needle`.
pub fn contains_str(haystack: &Vec<String>, needle: &String) -> (r: bool)
    ensures
        r == str_seq_has(haystack@, needle@),
{
    let mut i: usize = 0;
    while i < haystack.len()
        invariant
            0 <= i <= haystack@.len(),
            forall|k: int| 0 <= k < i ==> (#[trigger] haystack@[k])@ != needle@,
        decreases haystack@.len() - i,
    {
        if haystack[i] == *needle {
            return true;
        }
        i = i + 1;
    }
    false
}

/// A multi-valued attribute map: each key maps to a set of string values.
///
/// Its view is a `Map` from key to value set. The map is built with
/// [`AttrMap::new`] and [`AttrMap::insert`]; inserting a key replaces the
/// value set previously held for it.
#[derive(Debug, Clone)]
pub struct AttrMap {
    entries: Vec<(String, Vec<String>)>,
}

impl AttrMap {
    /// `true` when some entry has key `k`.
    pub closed spec fn spec_has_key(self, k: Seq<char>) -> bool {
        exists|i: int| 0 <= i < self.entries@.len() && (#[trigger] self.entries@[i]).0@ == k
    }

    /// `true` when some entry with key `k` holds the value `v`.
    pub closed spec fn spec_has_pair(self, k: Seq<char>, v: Seq<char>) -> bool {
        exists|i: int|
            0 <= i < self.entries@.len() && (#[trigger] self.entries@[i]).0@ == k && str_seq_has(
                self.entries@[i].1@,
                v,
            )
    }
}

impl View for AttrMap {
    type V = Map<Seq<char>, Set<Seq<char>>>;

    closed spec fn view(&self) -> Map<Seq<char>, Set<Seq<char>>> {
        Map::new(
            |k: Seq<char>| self.spec_has_key(k),
            |k: Seq<char>| Set::new(|v: Seq<char>| self.spec_has_pair(k, v)),
        )
    }
}

/// `true` when `attrs` maps `key` to a set that shares a value with `values`.
pub open spec fn shares_value(
    attrs: Map<Seq<char>, Set<Seq<char>>>,
    key: Seq<char>,
    values: Seq<String>,
) -> bool {
    attrs.contains_key(key) && exists|v: Seq<char>| #[trigger]
        attrs[key].contains(v) && str_seq_has(values, v)
}

/// `true` when `a` maps `ka`, and `b` maps `kb`, to value sets that share a
/// value.
pub open spec fn co_member(
    a: Map<Seq<char>, Set<Seq<char>>>,
    ka: Seq<char>,
    b: Map<Seq<char>, Set<Seq<char>>>,
    kb: Seq<char>,
) -> bool {
    &&& a.contains_key(ka)
    &&& b.contains_key(kb)
    &&& exists|v: Seq<char>| #[trigger] a[ka].contains(v) && b[kb].contains(v)
}

impl AttrMap {
    /// Creates an empty attribute map.
    pub fn new() -> (r: AttrMap)
        ensures
            r@ == Map::<Seq<char>, Set<Seq<char>>>::empty(),
    {
        let r = AttrMap { entries: Vec::new() };
        assert(r@ =~= Map::<Seq<char>, Set<Seq<char>>>::empty());
        r
    }

    /// `true` when the map holds no key.
    pub fn is_empty(&self) -> (r: bool)
        ensures
            r == (self@.dom() == Set::<Seq<char>>::empty()),
    {
        if self.entries.len() == 0 {
            assert(self@.dom() =~= Set::<Seq<char>>::empty());
            true
        } else {
            assert(self@.dom().contains(self.entries@[0].0@));
            false
        }
    }

    /// Sets the value set of `key` to the strings of `values`, replacing
    /// whatever the key held before.
    pub fn insert(&mut self, key: String, values: Vec<String>)
        ensures
            final(self)@ == old(self)@.insert(key@, str_set(values@)),
    {
        let ghost orig = self.entries@;
        let ghost k = key@;
        let mut i: usize = 0;
        while i < self.entries.len()
            invariant
                0 <= i <= self.entries@.len(),
                forall|j: int| 0 <= j < i ==> (#[trigger] self.entries@[j]).0@ != k,
                forall|j: int|
                    0 <= j < self.entries@.len() ==> #[trigger] orig.contains(self.entries@[j]),
                forall|j: int|
                    0 <= j < orig.len() && (#[trigger] orig[j]).0@ != k ==> self.entries@.contains(
                        orig[j],
                    ),
                k == key@,
            decreases self.entries@.len() - i,
        {
            if self.entries[i].0 == key {
                let ghost before = self.entries@;
                let _removed = self.entries.remove(i);
                proof {
                    assert forall|j: int|
                        0 <= j < orig.len() && (#[trigger] orig[j]).0@ != k implies self.entries@.contains(
                        orig[j],
                    ) by {
                        let m = choose|m: int| 0 <= m < before.len() && before[m] == orig[j];
                        if m < i {
                            assert(self.entries@[m] == orig[j]);
                        } else {
                            assert(m != i);
                            assert(self.entries@[m - 1] == orig[j]);
                        }
                    }
                    assert forall|j: int| 0 <= j < self.entries@.len() implies #[trigger] orig.contains(
                        self.entries@[j],
                    ) by {
                        if j < i {
                            assert(self.entries@[j] == before[j]);
                        } else {
                            assert(self.entries@[j] == before[j + 1]);
                        }
                    }
                }
            } else {
                i = i + 1;
            }
        }
        let ghost mid = self.entries@;
        self.entries.push((key, values));
        proof {
            let new_map = old(self)@.insert(k, str_set(values@));
            assert forall|kk: Seq<char>| #[trigger] self@.contains_key(kk) <==> new_map.contains_key(kk) by {
                if kk != k {
                    if self@.contains_key(kk) {
                        let j = choose|j: int|
                            0 <= j < self.entries@.len() && (#[trigger] self.entries@[j]).0@ == kk;
                        assert(j < mid.len());
                        assert(orig.contains(mid[j]));
                        let m = choose|m: int| 0 <= m < orig.len() && orig[m] == mid[j];
                        assert(old(self).entries@[m].0@ == kk);
                    }
                    if new_map.contains_key(kk) {
                        let m = choose|m: int|
                            0 <= m < orig.len() && (#[trigger] old(self).entries@[m]).0@ == kk;
                        assert(orig[m].0@ != k);
                        assert(mid.contains(orig[m]));
                        let j = choose|j: int| 0 <= j < mid.len() && mid[j] == orig[m];
                        assert(self.entries@[j].0@ == kk);
                    }
                } else {
                    assert(self.entries@[mid.len() as int].0@ == kk);
                }
            }
            assert forall|kk: Seq<char>| #[trigger] self@.contains_key(kk) implies self@[kk]
                =~= new_map[kk] by {
                if kk == k {
                    assert forall|v: Seq<char>| self.spec_has_pair(kk, v) <==> str_seq_has(
                        values@,
                        v,
                    ) by {
                        if self.spec_has_pair(kk, v) {
                            let j = choose|j: int|
                                0 <= j < self.entries@.len() && (#[trigger] self.entries@[j]).0@
                                    == kk && str_seq_has(self.entries@[j].1@, v);
                            if j < mid.len() {
                                assert(self.entries@[j] == mid[j]);
                            }
                        }
                        if str_seq_has(values@, v) {
                            assert(self.entries@[mid.len() as int].0@ == kk);
                        }
                    }
                } else {
                    assert forall|v: Seq<char>| self.spec_has_pair(kk, v) <==> old(
                        self,
                    ).spec_has_pair(kk, v) by {
                        if self.spec_has_pair(kk, v) {
                            let j = choose|j: int|
                                0 <= j < self.entries@.len() && (#[trigger] self.entries@[j]).0@
                                    == kk && str_seq_has(self.entries@[j].1@, v);
                            assert(j < mid.len());
                            assert(orig.contains(mid[j]));
                            let m = choose|m: int| 0 <= m < orig.len() && orig[m] == mid[j];
                            assert(old(self).entries@[m].0@ == kk);
                        }
                        if old(self).spec_has_pair(kk, v) {
                            let m = choose|m: int|
                                0 <= m < orig.len() && (#[trigger] old(self).entries@[m]).0@ == kk
                                    && str_seq_has(old(self).entries@[m].1@, v);
                            assert(mid.contains(orig[m]));
                            let j = choose|j: int| 0 <= j < mid.len() && mid[j] == orig[m];
                            assert(self.entries@[j] == orig[m]);
                        }
                    }
                }
            }
            assert(self@ =~= new_map);
        }
    }

    /// The values held for `key`; empty when the key is absent.
    pub fn values_of(&self, key: &String) -> (r: Vec<String>)
        ensures
            forall|v: Seq<char>|
                #[trigger] str_seq_has(r@, v) <==> (self@.contains_key(key@) && self@[key@].contains(
                    v,
                )),
    {
        let mut r: Vec<String> = Vec::new();
        let mut i: usize = 0;
        while i < self.entries.len()
            invariant
                0 <= i <= self.entries@.len(),
                forall|v: Seq<char>|
                    #[trigger] str_seq_has(r@, v) <==> exists|j: int|
                        0 <= j < i && (#[trigger] self.entries@[j]).0@ == key@ && str_seq_has(
                            self.entries@[j].1@,
                            v,
                        ),
            decreases self.entries@.len() - i,
        {
            if self.entries[i].0 == *key {
                let vals = &self.entries[i].1;
                let ghost before = r@;
                let mut m: usize = 0;
                while m < vals.len()
                    invariant
                        0 <= m <= vals@.len(),
                        i < self.entries@.len(),
                        vals@ == self.entries@[i as int].1@,
                        self.entries@[i as int].0@ == key@,
                        r@ == before + vals@.take(m as int),
                    decreases vals@.len() - m,
                {
                    r.push(vals[m].clone());
                    proof {
                        assert(r@ =~= before + vals@.take(m + 1));
                    }
                    m = m + 1;
                }
                proof {
                    assert(vals@.take(m as int) =~= vals@);
                    assert forall|v: Seq<char>|
                        #[trigger] str_seq_has(r@, v) <==> exists|j: int|
                            0 <= j < i + 1 && (#[trigger] self.entries@[j]).0@ == key@ && str_seq_has(
                                self.entries@[j].1@,
                                v,
                            ) by {
                        if str_seq_has(r@, v) {
                            let q = choose|q: int| 0 <= q < r@.len() && (#[trigger] r@[q])@ == v;
                            if q < before.len() {
                                assert(r@[q] == before[q]);
                                assert(str_seq_has(before, v));
                            } else {
                                assert(r@[q] == vals@[q - before.len()]);
                                assert(str_seq_has(self.entries@[i as int].1@, v));
                            }
                        }
                        if exists|j: int|
                            0 <= j < i + 1 && (#[trigger] self.entries@[j]).0@ == key@ && str_seq_has(
                                self.entries@[j].1@,
                                v,
                            ) {
                            let j = choose|j: int|
                                0 <= j < i + 1 && (#[trigger] self.entries@[j]).0@ == key@ && str_seq_has(
                                    self.entries@[j].1@,
                                    v,
                                );
                            if j < i {
                                assert(str_seq_has(before, v));
                                let q = choose|q: int| 0 <= q < before.len() && (#[trigger] before[q])@ == v;
                                assert(r@[q] == before[q]);
                            } else {
                                let q = choose|q: int| 0 <= q < vals@.len() && (#[trigger] vals@[q])@ == v;
                                assert(r@[before.len() + q] == vals@[q]);
                            }
                        }
                    }
                }
            }
            i = i + 1;
        }
        proof {
            assert forall|v: Seq<char>|
                #[trigger] str_seq_has(r@, v) <==> (self@.contains_key(key@) && self@[key@].contains(v)) by {
                if str_seq_has(r@, v) {
                    let j = choose|j: int|
                        0 <= j < i && (#[trigger] self.entries@[j]).0@ == key@ && str_seq_has(
                            self.entries@[j].1@,
                            v,
                        );
                    assert(self.spec_has_key(key@));
                    assert(self.spec_has_pair(key@, v));
                }
                if self@.contains_key(key@) && self@[key@].contains(v) {
                    assert(self.spec_has_pair(key@, v));
                    let j = choose|j: int|
                        0 <= j < self.entries@.len() && (#[trigger] self.entries@[j]).0@ == key@
                            && str_seq_has(self.entries@[j].1@, v);
                    assert(0 <= j < i);
                }
            }
        }
        r
    }

    /// Tests whether the value set of `key` shares a value with `values`.
    ///
    /// A key that is absent, or mapped to an empty set, shares nothing.
    pub fn shares_value_with(&self, key: &String, values: &Vec<String>) -> (r: bool)
        ensures
            r == shares_value(self@, key@, values@),
    {
        let mut i: usize = 0;
        while i < self.entries.len()
            invariant
                0 <= i <= self.entries@.len(),
                forall|j: int, v: Seq<char>|
                    0 <= j < i && self.entries@[j].0@ == key@ && #[trigger] str_seq_has(
                        self.entries@[j].1@,
                        v,
                    ) ==> !str_seq_has(values@, v),
            decreases self.entries@.len() - i,
        {
            if self.entries[i].0 == *key {
                let vals = &self.entries[i].1;
                let mut j: usize = 0;
                while j < vals.len()
                    invariant
                        0 <= j <= vals@.len(),
                        i < self.entries@.len(),
                        vals@ == self.entries@[i as int].1@,
                        self.entries@[i as int].0@ == key@,
                        forall|m: int| 0 <= m < j ==> !str_seq_has(values@, (#[trigger] vals@[m])@),
                    decreases vals@.len() - j,
                {
                    if contains_str(values, &vals[j]) {
                        proof {
                            let v = vals@[j as int]@;
                            assert(self.spec_has_pair(key@, v));
                            assert(self@[key@].contains(v));
                        }
                        return true;
                    }
                    j = j + 1;
                }
            }
            i = i + 1;
        }
        proof {
            if shares_value(self@, key@, values@) {
                let v = choose|v: Seq<char>| #[trigger]
                    self@[key@].contains(v) && str_seq_has(values@, v);
                assert(self.spec_has_pair(key@, v));
            }
        }
        false
    }
}

impl AttrMap {
    /// Whether some entry has the key `key`.
    fn has_key(&self, key: &String) -> (r: bool)
        ensures
            r == self.spec_has_key(key@),
    {
        let mut i: usize = 0;
        while i < self.entries.len()
            invariant
                0 <= i <= self.entries@.len(),
                forall|j: int| 0 <= j < i ==> (#[trigger] self.entries@[j]).0@ != key@,
            decreases self.entries@.len() - i,
        {
            if self.entries[i].0 == *key {
                return true;
            }
            i = i + 1;
        }
        false
    }

    /// Whether some entry with the key `key` holds the value `value`.
    fn has_pair(&self, key: &String, value: &String) -> (r: bool)
        ensures
            r == self.spec_has_pair(key@, value@),
    {
        let mut i: usize = 0;
        while i < self.entries.len()
            invariant
                0 <= i <= self.entries@.len(),
                forall|j: int|
                    0 <= j < i ==> !((#[trigger] self.entries@[j]).0@ == key@ && str_seq_has(
                        self.entries@[j].1@,
                        value@,
                    )),
            decreases self.entries@.len() - i,
        {
            if self.entries[i].0 == *key && contains_str(&self.entries[i].1, value) {
                return true;
            }
            i = i + 1;
        }
        false
    }

    /// Whether every key and every key-value pair of `self` is in `other`.
    fn included_in(&self, other: &AttrMap) -> (r: bool)
        ensures
            r == ((forall|k: Seq<char>| #[trigger] self.spec_has_key(k) ==> other.spec_has_key(k))
                && (forall|k: Seq<char>, v: Seq<char>| #[trigger]
                self.spec_has_pair(k, v) ==> other.spec_has_pair(k, v))),
    {
        let mut i: usize = 0;
        while i < self.entries.len()
            invariant
                0 <= i <= self.entries@.len(),
                forall|j: int| 0 <= j < i ==> other.spec_has_key((#[trigger] self.entries@[j]).0@),
                forall|j: int, m: int|
                    0 <= j < i && 0 <= m < self.entries@[j].1@.len() ==> other.spec_has_pair(
                        self.entries@[j].0@,
                        (#[trigger] self.entries@[j].1@[m])@,
                    ),
            decreases self.entries@.len() - i,
        {
            let key = &self.entries[i].0;
            let vals = &self.entries[i].1;
            if !other.has_key(key) {
                proof {
                    assert(self.entries@[i as int].0@ == key@);
                    assert(self.spec_has_key(key@));
                }
                return false;
            }
            let mut m: usize = 0;
            while m < vals.len()
                invariant
                    0 <= m <= vals@.len(),
                    i < self.entries@.len(),
                    key@ == self.entries@[i as int].0@,
                    vals@ == self.entries@[i as int].1@,
                    forall|q: int| 0 <= q < m ==> other.spec_has_pair(key@, (#[trigger] vals@[q])@),
                decreases vals@.len() - m,
            {
                if !other.has_pair(key, &vals[m]) {
                    proof {
                        assert(self.entries@[i as int].1@[m as int]@ == vals@[m as int]@);
                        assert(self.spec_has_pair(key@, vals@[m as int]@));
                    }
                    return false;
                }
                m = m + 1;
            }
            i = i + 1;
        }
        proof {
            assert forall|k: Seq<char>, v: Seq<char>| #[trigger]
                self.spec_has_pair(k, v) implies other.spec_has_pair(k, v) by {
                let j = choose|j: int|
                    0 <= j < self.entries@.len() && (#[trigger] self.entries@[j]).0@ == k
                        && str_seq_has(self.entries@[j].1@, v);
                let m = choose|m: int|
                    0 <= m < self.entries@[j].1@.len() && (#[trigger] self.entries@[j].1@[m])@ == v;
                assert(other.spec_has_pair(self.entries@[j].0@, self.entries@[j].1@[m]@));
            }
        }
        true
    }

    /// Whether `self` and `other` hold the same keys with the same value
    /// sets, however their entries were inserted.
    pub fn same_attrs(&self, other: &AttrMap) -> (r: bool)
        ensures
            r == (self@ == other@),
    {
        let a = self.included_in(other);
        let b = other.included_in(self);
        proof {
            if a && b {
                assert forall|k: Seq<char>| #[trigger] self@.contains_key(k) implies self@[k]
                    =~= other@[k] by {
                    assert forall|v: Seq<char>| self@[k].contains(v) <==> other@[k].contains(v) by {
                        if self.spec_has_pair(k, v) {
                            assert(other.spec_has_pair(k, v));
                        }
                        if other.spec_has_pair(k, v) {
                            assert(self.spec_has_pair(k, v));
                        }
                    }
                }
                assert forall|k: Seq<char>| #[trigger] self@.contains_key(k) <==> other@.contains_key(k) by {
                    if self.spec_has_key(k) {
                        assert(other.spec_has_key(k));
                    }
                    if other.spec_has_key(k) {
                        assert(self.spec_has_key(k));
                    }
                }
                assert(self@ =~= other@);
            }
            if self@ == other@ {
                assert forall|k: Seq<char>, v: Seq<char>| #[trigger]
                    self.spec_has_pair(k, v) implies other.spec_has_pair(k, v) by {
                    let j = choose|j: int|
                        0 <= j < self.entries@.len() && (#[trigger] self.entries@[j]).0@ == k
                            && str_seq_has(self.entries@[j].1@, v);
                    assert(self.spec_has_key(k));
                    assert(self@[k].contains(v));
                    assert(other@.contains_key(k));
                    assert(other@[k].contains(v));
                    assert(other.spec_has_pair(k, v));
                }
                assert forall|k: Seq<char>, v: Seq<char>| #[trigger]
                    other.spec_has_pair(k, v) implies self.spec_has_pair(k, v) by {
                    let j = choose|j: int|
                        0 <= j < other.entries@.len() && (#[trigger] other.entries@[j]).0@ == k
                            && str_seq_has(other.entries@[j].1@, v);
                    assert(other.spec_has_key(k));
                    assert(other@[k].contains(v));
                    assert(self@.contains_key(k));
                    assert(self@[k].contains(v));
                    assert(self.spec_has_pair(k, v));
                }
                assert forall|k: Seq<char>| #[trigger] self.spec_has_key(k) implies other.spec_has_key(k) by {
                    assert(self@.contains_key(k));
                }
                assert forall|k: Seq<char>| #[trigger] other.spec_has_key(k) implies self.spec_has_key(k) by {
                    assert(other@.contains_key(k));
                }
            }
        }
        a && b
    }
}

impl PartialEq for AttrMap {
    fn eq(&self, other: &Self) -> (r: bool) {
        self.same_attrs(other)
    }
}

impl vstd::std_specs::cmp::PartialEqSpecImpl for AttrMap {
    open spec fn obeys_eq_spec() -> bool {
        true
    }

    open spec fn eq_spec(&self, other: &Self) -> bool {
        self@ == other@
    }
}

impl Eq for AttrMap {

}

} // verus!
