//! A finite map keyed by 256-bit digests. It keeps keys and values side by
//! side in the order of arrival; an index from the first eight bytes of a
//! digest to the places where such digests stand finds a key without
//! looking through all of them.

use vstd::prelude::*;
use std::collections::HashMap;
use crate::crypto::hash::H256;
use crate::crypto::merkle::digests_view;
use crate::encoding::le_value;
use crate::encoding::lemma_le_value_bound;
use crate::encoding::lemma_radix_values;
use crate::encoding::read_le;

verus! {

/// A map from digests to values of `V`.
pub struct DigestMap<V> {
    keys: Vec<H256>,
    values: Vec<V>,
    /// For the first eight bytes of a digest, read as a number, the places
    /// in `keys` of the digests that start so.
    index: HashMap<u64, Vec<usize>>,
}

/// The number that the first eight bytes of a digest denote.
spec fn slot_of(h: Seq<u8>) -> u64 {
    le_value(h.take(8)) as u64
}

/// The index names places of keys, each under the slot of its key.
spec fn index_points(keys: Seq<H256>, index: Map<u64, Vec<usize>>) -> bool {
    forall|s: u64, x: usize|
        index.contains_key(s) && #[trigger] index[s]@.contains(x) ==> x < keys.len() && slot_of(
            keys[x as int]@,
        ) == s
}

/// Takes `place` out of the list under `s`.
fn unlist(index: &mut HashMap<u64, Vec<usize>>, s: u64, place: usize)
    requires
        old(index)@.contains_key(s),
        old(index)@[s]@.contains(place),
        old(index)@[s]@.no_duplicates(),
    ensures
        final(index)@.dom() == old(index)@.dom(),
        forall|u: u64| u != s && old(index)@.contains_key(u) ==> final(index)@[u] == old(index)@[u],
        final(index)@[s]@.no_duplicates(),
        forall|x: usize|
            final(index)@[s]@.contains(x) <==> old(index)@[s]@.contains(x) && x != place,
{
    let mut places = match index.remove(&s) {
        Some(places) => places,
        None => Vec::new(),
    };
    let ghost was = places@;
    let mut p: usize = 0;
    while p < places.len() && places[p] != place
        invariant
            p <= places.len(),
            places@ == was,
            was.contains(place),
            forall|t: int| 0 <= t < p ==> was[t] != place,
        decreases places.len() - p,
    {
        p += 1;
    }
    proof {
        if p == places.len() {
            let t = choose|t: int| 0 <= t < was.len() && was[t] == place;
            assert(was[t] != place);
        }
    }
    places.swap_remove(p);
    proof {
        let now = places@;
        let last = was.len() - 1;
        assert forall|a: int, b: int| 0 <= a < now.len() && 0 <= b < now.len() && a != b implies now[a]
            != now[b] by {
            let a0 = if a == p {
                last
            } else {
                a
            };
            let b0 = if b == p {
                last
            } else {
                b
            };
            assert(now[a] == was[a0] && now[b] == was[b0]);
        }
        assert forall|x: usize| now.contains(x) <==> was.contains(x) && x != place by {
            if now.contains(x) {
                let a = choose|a: int| 0 <= a < now.len() && now[a] == x;
                let a0 = if a == p {
                    last
                } else {
                    a
                };
                assert(was[a0] == x);
                assert(a0 != p);
            }
            if was.contains(x) && x != place {
                let a0 = choose|a0: int| 0 <= a0 < was.len() && was[a0] == x;
                let a = if a0 == last {
                    p as int
                } else {
                    a0
                };
                assert(now[a] == x);
            }
        }
    }
    index.insert(s, places);
    proof {
        assert(final(index)@.dom() =~= old(index)@.dom());
    }
}

/// Puts `to` in the place of `from` in the list under `s`.
fn relist(index: &mut HashMap<u64, Vec<usize>>, s: u64, from: usize, to: usize)
    requires
        old(index)@.contains_key(s),
        old(index)@[s]@.contains(from),
        !old(index)@[s]@.contains(to),
        old(index)@[s]@.no_duplicates(),
    ensures
        final(index)@.dom() == old(index)@.dom(),
        forall|u: u64| u != s && old(index)@.contains_key(u) ==> final(index)@[u] == old(index)@[u],
        final(index)@[s]@.no_duplicates(),
        forall|x: usize|
            final(index)@[s]@.contains(x) <==> (old(index)@[s]@.contains(x) && x != from) || x
                == to,
{
    let mut places = match index.remove(&s) {
        Some(places) => places,
        None => Vec::new(),
    };
    let ghost was = places@;
    let mut p: usize = 0;
    while p < places.len() && places[p] != from
        invariant
            p <= places.len(),
            places@ == was,
            was.contains(from),
            forall|t: int| 0 <= t < p ==> was[t] != from,
        decreases places.len() - p,
    {
        p += 1;
    }
    proof {
        if p == places.len() {
            let t = choose|t: int| 0 <= t < was.len() && was[t] == from;
            assert(was[t] != from);
        }
    }
    places[p] = to;
    proof {
        let now = places@;
        assert forall|a: int, b: int| 0 <= a < now.len() && 0 <= b < now.len() && a != b implies now[a]
            != now[b] by {
            if a != p && b != p {
                assert(was[a] != was[b]);
            } else if a == p {
                assert(was.contains(was[b]));
            } else {
                assert(was.contains(was[a]));
            }
        }
        assert forall|x: usize| now.contains(x) <==> (was.contains(x) && x != from) || x == to by {
            if now.contains(x) {
                let a = choose|a: int| 0 <= a < now.len() && now[a] == x;
                if a != p {
                    assert(was[a] == x);
                }
            }
            if was.contains(x) && x != from {
                let a = choose|a: int| 0 <= a < was.len() && was[a] == x;
                assert(now[a] == x);
            }
            if x == to {
                assert(now[p as int] == x);
            }
        }
    }
    index.insert(s, places);
    proof {
        assert(final(index)@.dom() =~= old(index)@.dom());
    }
}

/// The index names the place of every key.
spec fn index_covers(keys: Seq<H256>, index: Map<u64, Vec<usize>>) -> bool {
    forall|i: int|
        0 <= i < keys.len() ==> index.contains_key(slot_of(#[trigger] keys[i]@)) && index[slot_of(
            keys[i]@,
        )]@.contains(i as usize)
}

/// The index names no place twice.
spec fn index_plain(index: Map<u64, Vec<usize>>) -> bool {
    forall|s: u64| index.contains_key(s) ==> (#[trigger] index[s]@).no_duplicates()
}

/// The number that the first eight bytes of a digest denote.
fn slot(k: &H256) -> (s: u64)
    ensures
        s == slot_of(k@),
{
    let x = read_le(k.bytes.as_slice(), 0, 8);
    proof {
        assert(k@.take(8) =~= k@.subrange(0, 8));
        lemma_le_value_bound(k@.take(8));
        lemma_radix_values();
    }
    x as u64
}

/// Whether a key with these bytes stands among the keys.
spec fn has_key(keys: Seq<H256>, h: Seq<u8>) -> bool {
    exists|i: int| 0 <= i < keys.len() && (#[trigger] keys[i])@ == h
}

/// A place where a key with these bytes stands.
spec fn key_index(keys: Seq<H256>, h: Seq<u8>) -> int {
    choose|i: int| 0 <= i < keys.len() && (#[trigger] keys[i])@ == h
}

/// No two keys have the same bytes.
spec fn keys_distinct(keys: Seq<H256>) -> bool {
    forall|i: int, j: int|
        0 <= i < keys.len() && 0 <= j < keys.len() && i != j ==> (#[trigger] keys[i])@ != (
        #[trigger] keys[j])@
}

/// The map that keys and values side by side stand for.
spec fn pairing<V>(keys: Seq<H256>, values: Seq<V>) -> Map<Seq<u8>, V> {
    Map::new(|h: Seq<u8>| has_key(keys, h), |h: Seq<u8>| values[key_index(keys, h)])
}

/// Under a key that stands at `i` the map holds the value that stands at `i`.
proof fn lemma_lookup<V>(keys: Seq<H256>, values: Seq<V>, i: int)
    requires
        keys_distinct(keys),
        0 <= i < keys.len(),
    ensures
        pairing(keys, values).contains_key(keys[i]@),
        pairing(keys, values)[keys[i]@] == values[i],
{
    assert(has_key(keys, keys[i]@));
    let j = key_index(keys, keys[i]@);
    assert(keys[j]@ == keys[i]@);
}

/// Appending a new key with a value inserts the pair in the map.
proof fn lemma_push<V>(keys: Seq<H256>, values: Seq<V>, k: H256, v: V)
    requires
        keys_distinct(keys),
        keys.len() == values.len(),
        !has_key(keys, k@),
    ensures
        keys_distinct(keys.push(k)),
        pairing(keys.push(k), values.push(v)) == pairing(keys, values).insert(k@, v),
{
    let keys2 = keys.push(k);
    let values2 = values.push(v);
    assert forall|i: int, j: int|
        0 <= i < keys2.len() && 0 <= j < keys2.len() && i != j implies (#[trigger] keys2[i])@ != (
    #[trigger] keys2[j])@ by {
        if i < keys.len() && j < keys.len() {
            assert(keys[i]@ != keys[j]@);
        } else if i < keys.len() {
            assert(keys[i]@ != k@);
        } else {
            assert(keys[j]@ != k@);
        }
    }
    let left = pairing(keys2, values2);
    let right = pairing(keys, values).insert(k@, v);
    assert forall|h: Seq<u8>| left.contains_key(h) <==> right.contains_key(h) by {
        if has_key(keys2, h) {
            let i = key_index(keys2, h);
            if i < keys.len() {
                assert(keys[i]@ == h);
            }
        }
        if has_key(keys, h) {
            let i = key_index(keys, h);
            assert(keys2[i]@ == h);
        }
        if h == k@ {
            assert(keys2[keys.len() as int]@ == h);
        }
    }
    assert forall|h: Seq<u8>| left.contains_key(h) implies left[h] == right[h] by {
        let i = key_index(keys2, h);
        lemma_lookup(keys2, values2, i);
        if i < keys.len() {
            lemma_lookup(keys, values, i);
        }
    }
    assert(left =~= right);
}

/// Replacing the value at `i` replaces the value under the key at `i`.
proof fn lemma_update<V>(keys: Seq<H256>, values: Seq<V>, i: int, v: V)
    requires
        keys_distinct(keys),
        keys.len() == values.len(),
        0 <= i < keys.len(),
    ensures
        pairing(keys, values.update(i, v)) == pairing(keys, values).insert(keys[i]@, v),
{
    let left = pairing(keys, values.update(i, v));
    let right = pairing(keys, values).insert(keys[i]@, v);
    assert(has_key(keys, keys[i]@));
    assert forall|h: Seq<u8>| left.contains_key(h) implies left[h] == right[h] by {
        let j = key_index(keys, h);
        lemma_lookup(keys, values, j);
        lemma_lookup(keys, values.update(i, v), j);
    }
    assert(left =~= right);
}

/// Moving the last pair to `i` and dropping the end removes the key
/// that stood at `i` from the map.
proof fn lemma_swap_remove<V>(keys: Seq<H256>, values: Seq<V>, i: int)
    requires
        keys_distinct(keys),
        keys.len() == values.len(),
        0 <= i < keys.len(),
    ensures
        keys_distinct(keys.update(i, keys.last()).drop_last()),
        pairing(keys.update(i, keys.last()).drop_last(), values.update(i, values.last()).drop_last())
            == pairing(keys, values).remove(keys[i]@),
{
    let n = keys.len() as int;
    let keys2 = keys.update(i, keys.last()).drop_last();
    let values2 = values.update(i, values.last()).drop_last();
    assert forall|a: int, b: int|
        0 <= a < keys2.len() && 0 <= b < keys2.len() && a != b implies (#[trigger] keys2[a])@ != (
    #[trigger] keys2[b])@ by {
        let a0 = if a == i {
            n - 1
        } else {
            a
        };
        let b0 = if b == i {
            n - 1
        } else {
            b
        };
        assert(keys2[a] == keys[a0] && keys2[b] == keys[b0]);
        assert(keys[a0]@ != keys[b0]@);
    }
    let left = pairing(keys2, values2);
    let right = pairing(keys, values).remove(keys[i]@);
    assert forall|h: Seq<u8>| left.contains_key(h) <==> right.contains_key(h) by {
        if has_key(keys2, h) {
            let a = key_index(keys2, h);
            let a0 = if a == i {
                n - 1
            } else {
                a
            };
            assert(keys[a0]@ == h);
            assert(keys[a0]@ != keys[i]@);
        }
        if has_key(keys, h) && h != keys[i]@ {
            let a0 = key_index(keys, h);
            let a = if a0 == n - 1 {
                i
            } else {
                a0
            };
            assert(keys2[a]@ == h);
        }
    }
    assert forall|h: Seq<u8>| left.contains_key(h) implies left[h] == right[h] by {
        let a = key_index(keys2, h);
        let a0 = if a == i {
            n - 1
        } else {
            a
        };
        lemma_lookup(keys2, values2, a);
        lemma_lookup(keys, values, a0);
    }
    assert(left =~= right);
}

/// The map has as many keys as there are keys.
proof fn lemma_size<V>(keys: Seq<H256>, values: Seq<V>)
    requires
        keys_distinct(keys),
    ensures
        pairing(keys, values).dom().finite(),
        pairing(keys, values).dom().len() == keys.len(),
{
    let ids = digests_view(keys);
    assert(ids.no_duplicates()) by {
        assert forall|i: int, j: int| 0 <= i < ids.len() && 0 <= j < ids.len() && i != j implies ids[i]
            != ids[j] by {
            assert(keys[i]@ != keys[j]@);
        }
    }
    ids.unique_seq_to_set();
    vstd::seq_lib::seq_to_set_is_finite(ids);
    assert(pairing(keys, values).dom() =~= ids.to_set()) by {
        assert forall|h: Seq<u8>| pairing(keys, values).dom().contains(h) <==> ids.to_set().contains(
            h,
        ) by {
            if has_key(keys, h) {
                let i = key_index(keys, h);
                assert(ids[i] == h);
            }
            if ids.contains(h) {
                let i = choose|i: int| 0 <= i < ids.len() && ids[i] == h;
                assert(keys[i]@ == h);
            }
        }
    }
}

impl<V> View for DigestMap<V> {
    type V = Map<Seq<u8>, V>;

    closed spec fn view(&self) -> Map<Seq<u8>, V> {
        pairing(self.keys@, self.values@)
    }
}

impl<V> DigestMap<V> {
    /// What holds of every map: each key stands once, with one value, and
    /// the index finds it.
    pub closed spec fn wf(&self) -> bool {
        &&& self.keys.len() == self.values.len()
        &&& keys_distinct(self.keys@)
        &&& index_points(self.keys@, self.index@)
        &&& index_covers(self.keys@, self.index@)
        &&& index_plain(self.index@)
    }

    /// A map has finitely many keys.
    pub proof fn lemma_finite(&self)
        requires
            self.wf(),
        ensures
            self@.dom().finite(),
    {
        lemma_size(self.keys@, self.values@);
    }

    /// The place where the key stands, found through the index.
    fn find(&self, k: &H256) -> (r: Option<usize>)
        requires
            self.wf(),
        ensures
            match r {
                Some(i) => i < self.keys.len() && self.keys[i as int]@ == k@,
                None => !has_key(self.keys@, k@),
            },
    {
        let s = slot(k);
        match self.index.get(&s) {
            Some(places) => {
                let mut j: usize = 0;
                while j < places.len()
                    invariant
                        j <= places.len(),
                        self.wf(),
                        self.index@.contains_key(s),
                        self.index@[s] == *places,
                        forall|t: int| 0 <= t < j ==> self.keys[places@[t] as int]@ != k@,
                    decreases places.len() - j,
                {
                    let i = places[j];
                    proof {
                        assert(self.index@[s]@.contains(places@[j as int]));
                    }
                    if self.keys[i].same(k) {
                        return Some(i);
                    }
                    j += 1;
                }
                proof {
                    if has_key(self.keys@, k@) {
                        let i = key_index(self.keys@, k@);
                        assert(self.index@[slot_of(self.keys@[i]@)]@.contains(i as usize));
                        let t = choose|t: int| 0 <= t < places@.len() && places@[t] == i as usize;
                        assert(self.keys[places@[t] as int]@ != k@);
                    }
                }
                None
            },
            None => {
                proof {
                    if has_key(self.keys@, k@) {
                        let i = key_index(self.keys@, k@);
                        assert(self.index@.contains_key(slot_of(self.keys@[i]@)));
                    }
                }
                None
            },
        }
    }

    /// The empty map.
    pub fn new() -> (m: Self)
        ensures
            m.wf(),
            m@ == Map::<Seq<u8>, V>::empty(),
    {
        let m = DigestMap { keys: Vec::new(), values: Vec::new(), index: HashMap::new() };
        assert(m@ =~= Map::<Seq<u8>, V>::empty());
        m
    }

    /// How many keys the map holds.
    pub fn len(&self) -> (n: usize)
        requires
            self.wf(),
        ensures
            n == self@.dom().len(),
    {
        proof {
            lemma_size(self.keys@, self.values@);
        }
        self.keys.len()
    }

    /// Whether the map holds the key.
    pub fn contains_key(&self, k: &H256) -> (r: bool)
        requires
            self.wf(),
        ensures
            r == self@.contains_key(k@),
    {
        self.find(k).is_some()
    }

    /// The value under a key.
    pub fn get(&self, k: &H256) -> (r: Option<&V>)
        requires
            self.wf(),
        ensures
            r is Some == self@.contains_key(k@),
            r is Some ==> *r->0 == self@[k@],
    {
        match self.find(k) {
            Some(i) => {
                proof {
                    lemma_lookup(self.keys@, self.values@, i as int);
                }
                Some(&self.values[i])
            },
            None => None,
        }
    }

    /// Puts a value under a key, in place of the value that was there.
    pub fn insert(&mut self, k: H256, v: V)
        requires
            old(self).wf(),
        ensures
            final(self).wf(),
            final(self)@ == old(self)@.insert(k@, v),
    {
        match self.find(&k) {
            Some(i) => {
                proof {
                    lemma_update(self.keys@, self.values@, i as int, v);
                }
                self.values[i] = v;
            },
            None => {
                proof {
                    lemma_push(self.keys@, self.values@, k, v);
                }
                let place = self.keys.len();
                let s = slot(&k);
                let mut places = match self.index.remove(&s) {
                    Some(places) => places,
                    None => Vec::new(),
                };
                let ghost was = places@;
                proof {
                    assert forall|t: int| 0 <= t < was.len() implies was[t] != place by {
                        assert(old(self).index@[s]@.contains(was[t]));
                    }
                }
                places.push(place);
                self.index.insert(s, places);
                self.keys.push(k);
                self.values.push(v);
                proof {
                    let keys = self.keys@;
                    let index = self.index@;
                    assert forall|u: u64, x: usize|
                        index.contains_key(u) && #[trigger] index[u]@.contains(x) implies x
                        < keys.len() && slot_of(keys[x as int]@) == u by {
                        if u == s {
                            let t = choose|t: int| 0 <= t < places@.len() && places@[t] == x;
                            if t < was.len() {
                                assert(old(self).index@[s]@.contains(was[t]));
                            }
                        } else {
                            assert(old(self).index@[u]@.contains(x));
                        }
                    }
                    assert forall|i: int| 0 <= i < keys.len() implies index.contains_key(
                        slot_of(#[trigger] keys[i]@),
                    ) && index[slot_of(keys[i]@)]@.contains(i as usize) by {
                        if i < place {
                            let u = slot_of(old(self).keys@[i]@);
                            let listed = old(self).index@[u]@;
                            assert(listed.contains(i as usize));
                            if u == s {
                                let t = choose|t: int| 0 <= t < was.len() && was[t] == i as usize;
                                assert(places@[t] == i as usize);
                            }
                        } else {
                            assert(places@[places@.len() - 1] == place);
                        }
                    }
                    assert forall|u: u64| index.contains_key(u) implies (
                    #[trigger] index[u]@).no_duplicates() by {
                        if u != s {
                            assert(old(self).index@[u]@.no_duplicates());
                        } else if old(self).index@.contains_key(s) {
                            assert(old(self).index@[s]@.no_duplicates());
                        }
                    }
                }
            },
        }
    }

    /// Takes a key and its value out of the map.
    pub fn remove(&mut self, k: &H256) -> (r: Option<V>)
        requires
            old(self).wf(),
        ensures
            final(self).wf(),
            final(self)@ == old(self)@.remove(k@),
            r is Some == old(self)@.contains_key(k@),
            r is Some ==> r->0 == old(self)@[k@],
    {
        match self.find(k) {
            Some(i) => {
                proof {
                    lemma_lookup(self.keys@, self.values@, i as int);
                    lemma_swap_remove(self.keys@, self.values@, i as int);
                }
                let last = self.keys.len() - 1;
                let s = slot(&self.keys[i]);
                let t = slot(&self.keys[last]);
                proof {
                    assert(self.index@[slot_of(self.keys@[i as int]@)]@.contains(i));
                    assert(self.index@[slot_of(self.keys@[last as int]@)]@.contains(last));
                }
                unlist(&mut self.index, s, i);
                if i != last {
                    proof {
                        if self.index@[t]@.contains(i) {
                            assert(old(self).index@[t]@.contains(i));
                        }
                    }
                    relist(&mut self.index, t, last, i);
                }
                self.keys.swap_remove(i);
                let value = self.values.swap_remove(i);
                proof {
                    let keys = self.keys@;
                    let index = self.index@;
                    let before = old(self).index@;
                    assert forall|u: u64, x: usize|
                        index.contains_key(u) && #[trigger] index[u]@.contains(x) implies x
                        < keys.len() && slot_of(keys[x as int]@) == u by {
                        if i != last && u == t && x == i {
                        } else {
                            assert(before[u]@.contains(x));
                        }
                    }
                    assert forall|j: int| 0 <= j < keys.len() implies index.contains_key(
                        slot_of(#[trigger] keys[j]@),
                    ) && index[slot_of(keys[j]@)]@.contains(j as usize) by {
                        if j != i {
                            let u = slot_of(old(self).keys@[j]@);
                            assert(before[u]@.contains(j as usize));
                        }
                    }
                    assert forall|u: u64| index.contains_key(u) implies (
                    #[trigger] index[u]@).no_duplicates() by {
                        assert(before.contains_key(u));
                        assert(before[u]@.no_duplicates());
                    }
                }
                Some(value)
            },
            None => {
                assert(self@.remove(k@) =~= self@);
                None
            },
        }
    }
}

} // verus!
