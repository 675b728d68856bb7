//! A map from paths to values, kept sorted by path.
use crate::text::{law_str_lt_total, law_str_lt_transitive, precedes, same, str_lt};
use vstd::prelude::*;

verus! {

/// A map from strings to values. Its entries stand in the byte order of
/// their keys, and no key occurs twice.
#[derive(Debug)]
pub struct PathMap<V> {
    pub(crate) entries: Vec<(String, V)>,
}

/// Keys in strictly rising order.
pub open spec fn sorted_keys<V>(s: Seq<(String, V)>) -> bool {
    forall|i: int, j: int|
        0 <= i < j < s.len() ==> str_lt((#[trigger] s[i]).0@, (#[trigger] s[j]).0@)
}

/// The map that a sequence of entries stands for.
pub open spec fn entries_map<V>(s: Seq<(String, V)>) -> Map<Seq<char>, V>
    decreases s.len(),
{
    if s.len() == 0 {
        Map::empty()
    } else {
        entries_map(s.drop_last()).insert(s.last().0@, s.last().1)
    }
}

impl<V> View for PathMap<V> {
    type V = Map<Seq<char>, V>;

    closed spec fn view(&self) -> Map<Seq<char>, V> {
        entries_map(self.entries@)
    }
}

/// The map is the one that its entries stand for.
pub(crate) proof fn lemma_view<V>(m: PathMap<V>)
    ensures
        m@ == entries_map(m.entries@),
{
}

/// What a sorted sequence of entries says of the map that it stands for.
pub proof fn lemma_entries_map<V>(s: Seq<(String, V)>)
    requires
        sorted_keys(s),
    ensures
        forall|i: int|
            0 <= i < s.len() ==> entries_map(s).contains_key((#[trigger] s[i]).0@) && entries_map(
                s,
            )[s[i].0@] == s[i].1,
        forall|k: Seq<char>|
            #[trigger] entries_map(s).contains_key(k) ==> exists|i: int|
                0 <= i < s.len() && (#[trigger] s[i]).0@ == k,
    decreases s.len(),
{
    if s.len() > 0 {
        let t = s.drop_last();
        lemma_entries_map(t);
        assert forall|i: int| 0 <= i < s.len() implies entries_map(s).contains_key(
            (#[trigger] s[i]).0@,
        ) && entries_map(s)[s[i].0@] == s[i].1 by {
            if i < t.len() {
                assert(t[i] == s[i]);
                law_str_lt_total(s[i].0@, s.last().0@);
            }
        }
        assert forall|k: Seq<char>| #[trigger] entries_map(s).contains_key(k) implies exists|i: int|
            0 <= i < s.len() && (#[trigger] s[i]).0@ == k by {
            if k == s.last().0@ {
                assert(s[s.len() - 1].0@ == k);
            } else {
                assert(entries_map(t).contains_key(k));
                let i = choose|i: int| 0 <= i < t.len() && (#[trigger] t[i]).0@ == k;
                assert(s[i].0@ == k);
            }
        }
    }
}

proof fn lemma_entries_len<V>(s: Seq<(String, V)>)
    requires
        sorted_keys(s),
    ensures
        entries_map(s).dom().finite(),
        entries_map(s).len() == s.len(),
    decreases s.len(),
{
    if s.len() > 0 {
        let t = s.drop_last();
        lemma_entries_len(t);
        lemma_entries_map(t);
        let k = s.last().0@;
        if entries_map(t).contains_key(k) {
            let i = choose|i: int| 0 <= i < t.len() && (#[trigger] t[i]).0@ == k;
            assert(s[i].0@ == k);
            law_str_lt_total(k, k);
        }
    }
}

/// A key that the position before which it belongs does not hold is absent.
proof fn lemma_absent<V>(s: Seq<(String, V)>, p: int, key: Seq<char>)
    requires
        sorted_keys(s),
        0 <= p <= s.len(),
        forall|i: int| 0 <= i < p ==> str_lt((#[trigger] s[i]).0@, key),
        forall|i: int| p <= i < s.len() ==> !str_lt((#[trigger] s[i]).0@, key),
    ensures
        entries_map(s).contains_key(key) == (p < s.len() && s[p].0@ == key),
{
    lemma_entries_map(s);
    law_str_lt_total(key, key);
    if entries_map(s).contains_key(key) {
        let i = choose|i: int| 0 <= i < s.len() && (#[trigger] s[i]).0@ == key;
        if i > p {
            assert(str_lt(s[p].0@, s[i].0@));
        }
        assert(i == p);
    }
}

/// Two sorted sequences with the same entries at the same keys stand for the same map.
proof fn lemma_map_ext<V>(s: Seq<(String, V)>, m: Map<Seq<char>, V>)
    requires
        sorted_keys(s),
        forall|i: int|
            0 <= i < s.len() ==> m.contains_key((#[trigger] s[i]).0@) && m[s[i].0@] == s[i].1,
        forall|k: Seq<char>|
            #[trigger] m.contains_key(k) ==> exists|i: int|
                0 <= i < s.len() && (#[trigger] s[i]).0@ == k,
    ensures
        entries_map(s) == m,
{
    lemma_entries_map(s);
    assert(entries_map(s) =~= m);
}

proof fn lemma_insert<V>(s: Seq<(String, V)>, p: int, e: (String, V))
    requires
        sorted_keys(s),
        0 <= p <= s.len(),
        forall|i: int| 0 <= i < p ==> str_lt((#[trigger] s[i]).0@, e.0@),
        forall|i: int| p <= i < s.len() ==> !str_lt((#[trigger] s[i]).0@, e.0@),
        !entries_map(s).contains_key(e.0@),
    ensures
        sorted_keys(s.insert(p, e)),
        entries_map(s.insert(p, e)) == entries_map(s).insert(e.0@, e.1),
{
    lemma_entries_map(s);
    let t = s.insert(p, e);
    let m = entries_map(s).insert(e.0@, e.1);
    assert forall|i: int| p <= i < s.len() implies str_lt(e.0@, (#[trigger] s[i]).0@) by {
        law_str_lt_total(e.0@, s[i].0@);
    }
    assert forall|i: int, j: int| 0 <= i < j < t.len() implies str_lt(
        (#[trigger] t[i]).0@,
        (#[trigger] t[j]).0@,
    ) by {
        let a = if i < p { i } else { i - 1 };
        let b = if j < p { j } else { j - 1 };
        if i != p {
            assert(t[i] == s[a]);
        }
        if j != p {
            assert(t[j] == s[b]);
        }
    }
    assert forall|i: int| 0 <= i < t.len() implies m.contains_key((#[trigger] t[i]).0@)
        && m[t[i].0@] == t[i].1 by {
        if i < p {
            assert(t[i] == s[i]);
        } else if i > p {
            assert(t[i] == s[i - 1]);
        }
    }
    assert forall|k: Seq<char>| #[trigger] m.contains_key(k) implies exists|i: int|
        0 <= i < t.len() && (#[trigger] t[i]).0@ == k by {
        if k == e.0@ {
            assert(t[p].0@ == k);
        } else {
            assert(entries_map(s).contains_key(k));
            let i = choose|i: int| 0 <= i < s.len() && (#[trigger] s[i]).0@ == k;
            let j = if i < p { i } else { i + 1 };
            assert(t[j].0@ == k);
        }
    }
    lemma_map_ext(t, m);
}

proof fn lemma_remove<V>(s: Seq<(String, V)>, p: int)
    requires
        sorted_keys(s),
        0 <= p < s.len(),
    ensures
        sorted_keys(s.remove(p)),
        entries_map(s.remove(p)) == entries_map(s).remove(s[p].0@),
{
    lemma_entries_map(s);
    let t = s.remove(p);
    let m = entries_map(s).remove(s[p].0@);
    assert forall|i: int, j: int| 0 <= i < j < t.len() implies str_lt(
        (#[trigger] t[i]).0@,
        (#[trigger] t[j]).0@,
    ) by {
        let a = if i < p { i } else { i + 1 };
        let b = if j < p { j } else { j + 1 };
        assert(t[i] == s[a] && t[j] == s[b]);
    }
    assert forall|i: int| 0 <= i < t.len() implies m.contains_key((#[trigger] t[i]).0@)
        && m[t[i].0@] == t[i].1 by {
        let a = if i < p { i } else { i + 1 };
        assert(t[i] == s[a]);
        law_str_lt_total(s[a].0@, s[p].0@);
    }
    assert forall|k: Seq<char>| #[trigger] m.contains_key(k) implies exists|i: int|
        0 <= i < t.len() && (#[trigger] t[i]).0@ == k by {
        assert(entries_map(s).contains_key(k));
        let i = choose|i: int| 0 <= i < s.len() && (#[trigger] s[i]).0@ == k;
        let j = if i < p { i } else { i - 1 };
        assert(t[j].0@ == k);
    }
    lemma_map_ext(t, m);
}

/// A map has only one listing of its entries in the order of their keys.
pub proof fn law_listing_unique<V>(s: Seq<(String, V)>, t: Seq<(String, V)>)
    requires
        sorted_keys(s),
        sorted_keys(t),
        entries_map(s) == entries_map(t),
    ensures
        s.len() == t.len(),
        forall|i: int|
            0 <= i < s.len() ==> (#[trigger] s[i]).0@ == t[i].0@ && s[i].1 == t[i].1,
    decreases s.len(),
{
    lemma_entries_map(s);
    lemma_entries_map(t);
    lemma_entries_len(s);
    lemma_entries_len(t);
    if s.len() > 0 {
        let n = s.len() - 1;
        let m = entries_map(s);
        assert(m.contains_key(s[n].0@));
        assert(m.contains_key(t[n].0@));
        let i = choose|i: int| 0 <= i < t.len() && (#[trigger] t[i]).0@ == s[n].0@;
        let j = choose|j: int| 0 <= j < s.len() && (#[trigger] s[j]).0@ == t[n].0@;
        law_str_lt_total(s[n].0@, t[n].0@);
        if i < n && j < n {
            assert(str_lt(t[i].0@, t[n].0@));
            assert(str_lt(s[j].0@, s[n].0@));
            assert(false);
        }
        assert(s[n].0@ == t[n].0@);
        let (a, b) = (s.drop_last(), t.drop_last());
        lemma_entries_map(a);
        lemma_entries_map(b);
        let k = s[n].0@;
        assert(!entries_map(a).contains_key(k)) by {
            if entries_map(a).contains_key(k) {
                let x = choose|x: int| 0 <= x < a.len() && (#[trigger] a[x]).0@ == k;
                assert(str_lt(s[x].0@, s[n].0@));
                law_str_lt_total(k, k);
            }
        }
        assert(!entries_map(b).contains_key(k)) by {
            if entries_map(b).contains_key(k) {
                let x = choose|x: int| 0 <= x < b.len() && (#[trigger] b[x]).0@ == k;
                assert(str_lt(t[x].0@, t[n].0@));
                law_str_lt_total(k, k);
            }
        }
        assert(entries_map(a) =~= m.remove(k));
        assert(entries_map(b) =~= m.remove(k));
        law_listing_unique(a, b);
        assert forall|i: int| 0 <= i < s.len() implies (#[trigger] s[i]).0@ == t[i].0@ && s[i].1
            == t[i].1 by {
            if i < n {
                assert(a[i] == s[i] && b[i] == t[i]);
            }
        }
    }
}

impl<V> PathMap<V> {
    /// The entries stand in the byte order of their keys.
    #[verifier::type_invariant]
    closed spec fn inv(&self) -> bool {
        sorted_keys(self.entries@)
    }

    pub fn new() -> (r: Self)
        ensures
            r@ == Map::<Seq<char>, V>::empty(),
    {
        PathMap { entries: Vec::new() }
    }

    /// The first position whose key does not come before `key`.
    fn position(&self, key: &str) -> (p: usize)
        ensures
            p <= self.entries@.len(),
            forall|i: int| 0 <= i < p ==> str_lt((#[trigger] self.entries@[i]).0@, key@),
            forall|i: int|
                p <= i < self.entries@.len() ==> !str_lt((#[trigger] self.entries@[i]).0@, key@),
    {
        proof {
            use_type_invariant(self);
        }
        let mut lo: usize = 0;
        let mut hi: usize = self.entries.len();
        while lo < hi
            invariant
                lo <= hi <= self.entries@.len(),
                sorted_keys(self.entries@),
                forall|i: int| 0 <= i < lo ==> str_lt((#[trigger] self.entries@[i]).0@, key@),
                forall|i: int|
                    hi <= i < self.entries@.len() ==> !str_lt(
                        (#[trigger] self.entries@[i]).0@,
                        key@,
                    ),
            decreases hi - lo,
        {
            let mid: usize = lo + (hi - lo) / 2;
            if precedes(self.entries[mid].0.as_str(), key) {
                proof {
                    assert forall|i: int| 0 <= i < mid + 1 implies str_lt(
                        (#[trigger] self.entries@[i]).0@,
                        key@,
                    ) by {
                        if i < mid {
                            law_str_lt_transitive(
                                self.entries@[i].0@,
                                self.entries@[mid as int].0@,
                                key@,
                            );
                        }
                    }
                }
                lo = mid + 1;
            } else {
                proof {
                    assert forall|i: int| mid <= i < self.entries@.len() implies !str_lt(
                        (#[trigger] self.entries@[i]).0@,
                        key@,
                    ) by {
                        if i > mid && str_lt(self.entries@[i].0@, key@) {
                            law_str_lt_transitive(
                                self.entries@[mid as int].0@,
                                self.entries@[i].0@,
                                key@,
                            );
                        }
                    }
                }
                hi = mid;
            }
        }
        lo
    }

    /// Takes the entries out.
    fn take(&mut self) -> (r: Vec<(String, V)>)
        ensures
            r@ == old(self).entries@,
    {
        let mut taken = PathMap { entries: Vec::new() };
        core::mem::swap(self, &mut taken);
        taken.entries
    }

    /// True when position `p` holds `key`.
    fn holds(&self, p: usize, key: &str) -> (r: bool)
        ensures
            r == (p < self.entries@.len() && self.entries@[p as int].0@ == key@),
    {
        p < self.entries.len() && same(self.entries[p].0.as_str(), key)
    }

    /// The number of entries.
    pub fn len(&self) -> (n: usize)
        ensures
            n == self@.len(),
            self@.dom().finite(),
    {
        proof {
            use_type_invariant(self);
            lemma_entries_len(self.entries@);
        }
        self.entries.len()
    }

    pub fn is_empty(&self) -> (r: bool)
        ensures
            r == (self@ == Map::<Seq<char>, V>::empty()),
    {
        proof {
            use_type_invariant(self);
            lemma_entries_map(self.entries@);
            if self.entries@.len() > 0 {
                assert(self@.contains_key(self.entries@[0].0@));
            }
        }
        self.entries.len() == 0
    }

    /// The value at `key`.
    pub fn get(&self, key: &str) -> (r: Option<&V>)
        ensures
            match r {
                Some(v) => self@.contains_key(key@) && *v == self@[key@],
                None => !self@.contains_key(key@),
            },
    {
        let p: usize = self.position(key);
        proof {
            use_type_invariant(self);
            lemma_entries_map(self.entries@);
            lemma_absent(self.entries@, p as int, key@);
        }
        if self.holds(p, key) {
            Some(&self.entries[p].1)
        } else {
            None
        }
    }

    pub fn contains_key(&self, key: &str) -> (r: bool)
        ensures
            r == self@.contains_key(key@),
    {
        self.get(key).is_some()
    }

    /// Puts `value` at `key` and returns what stood there.
    pub fn insert(&mut self, key: String, value: V) -> (r: Option<V>)
        ensures
            final(self)@ == old(self)@.insert(key@, value),
            match r {
                Some(v) => old(self)@.contains_key(key@) && v == old(self)@[key@],
                None => !old(self)@.contains_key(key@),
            },
    {
        let r = self.remove(key.as_str());
        let p: usize = self.position(key.as_str());
        let ghost m = self@;
        proof {
            use_type_invariant(&*self);
            lemma_entries_map(self.entries@);
            lemma_insert(self.entries@, p as int, (key, value));
        }
        let mut entries = self.take();
        entries.insert(p, (key, value));
        *self = PathMap { entries };
        proof {
            assert(self@ == m.insert(key@, value));
            assert(old(self)@.remove(key@).insert(key@, value) =~= old(self)@.insert(key@, value));
        }
        r
    }

    /// Takes the entry at `key` out and returns its value.
    pub fn remove(&mut self, key: &str) -> (r: Option<V>)
        ensures
            final(self)@ == old(self)@.remove(key@),
            match r {
                Some(v) => old(self)@.contains_key(key@) && v == old(self)@[key@],
                None => !old(self)@.contains_key(key@),
            },
    {
        let p: usize = self.position(key);
        proof {
            use_type_invariant(&*self);
            lemma_entries_map(self.entries@);
            lemma_absent(self.entries@, p as int, key@);
        }
        if self.holds(p, key) {
            proof {
                lemma_remove(self.entries@, p as int);
            }
            let mut entries = self.take();
            let (_, v) = entries.remove(p);
            *self = PathMap { entries };
            Some(v)
        } else {
            proof {
                assert(self@.remove(key@) =~= self@);
            }
            None
        }
    }

    /// The entries, in the byte order of their keys.
    pub open spec fn sorted_entries(self, s: Seq<(String, V)>) -> bool {
        &&& sorted_keys(s)
        &&& entries_map(s) == self@
    }

    /// The entries, in the byte order of their keys.
    pub fn entries(&self) -> (r: &Vec<(String, V)>)
        ensures
            self.sorted_entries(r@),
    {
        self.raw_entries()
    }

    /// The entries as they are stored.
    pub(crate) fn raw_entries(&self) -> (r: &Vec<(String, V)>)
        ensures
            self.sorted_entries(r@),
            *r == self.entries,
    {
        proof {
            use_type_invariant(self);
        }
        &self.entries
    }

    /// The entries, in the byte order of their keys.
    pub fn into_entries(self) -> (r: Vec<(String, V)>)
        ensures
            self.sorted_entries(r@),
    {
        proof {
            use_type_invariant(&self);
        }
        self.entries
    }
}

} // verus!
