//! A count map: finitely many integer keys, each with an unsigned count,
//! held as a vector sorted strictly by key so that iteration order is
//! deterministic. Viewed in specifications as a `Map<int, nat>`.
//!
//! This is the shape shared by the per-author activity calendars (key: local
//! day or week index, value: commits) and the weekly file-count series
//! (key: week index, value: files).

use vstd::prelude::*;

verus! {

/// The count of `k` in `m`, with absent keys counting as zero.
pub open spec fn val0(m: Map<int, nat>, k: int) -> nat {
    if m.dom().contains(k) {
        m[k]
    } else {
        0
    }
}

/// The map read off an association list, later entries overriding earlier.
pub open spec fn assoc_map(s: Seq<(i64, u64)>) -> Map<int, nat>
    decreases s.len(),
{
    if s.len() == 0 {
        Map::empty()
    } else {
        assoc_map(s.drop_last()).insert(s.last().0 as int, s.last().1 as nat)
    }
}

/// Keys strictly increasing: sorted and free of duplicates.
pub open spec fn sorted_strict(s: Seq<(i64, u64)>) -> bool {
    forall|i: int, j: int| 0 <= i < j < s.len() ==> s[i].0 < s[j].0
}

/// Some entry of `s` carries the key `k`.
pub open spec fn has_key(s: Seq<(i64, u64)>, k: int) -> bool {
    exists|i: int| 0 <= i < s.len() && s[i].0 == k
}

/// `m` with the count of `k` raised by `v` (absent keys count as zero).
pub open spec fn bump(m: Map<int, nat>, k: int, v: nat) -> Map<int, nat> {
    m.insert(k, val0(m, k) + v)
}

/// Pointwise sum of two count maps; the domain is the union.
pub open spec fn map_add(a: Map<int, nat>, b: Map<int, nat>) -> Map<int, nat> {
    Map::new(|k: int| a.dom().contains(k) || b.dom().contains(k), |k: int| val0(a, k) + val0(b, k))
}

/// `m` with the count of `k` raised to at least `v` (absent keys count as zero).
pub open spec fn raise_to(m: Map<int, nat>, k: int, v: nat) -> Map<int, nat> {
    m.insert(k, if val0(m, k) >= v { val0(m, k) } else { v })
}

pub proof fn lemma_assoc_dom(s: Seq<(i64, u64)>)
    ensures
        forall|k: int| assoc_map(s).dom().contains(k) <==> has_key(s, k),
    decreases s.len(),
{
    if s.len() > 0 {
        lemma_assoc_dom(s.drop_last());
        assert forall|k: int| assoc_map(s).dom().contains(k) <==> has_key(s, k) by {
            if assoc_map(s).dom().contains(k) {
                if k == s.last().0 {
                    assert(s[s.len() - 1].0 == k);
                } else {
                    assert(assoc_map(s.drop_last()).dom().contains(k));
                    assert(has_key(s.drop_last(), k));
                    let i = choose|i: int| 0 <= i < s.drop_last().len() && s.drop_last()[i].0 == k;
                    assert(s[i].0 == k);
                }
            }
            if has_key(s, k) {
                let i = choose|i: int| 0 <= i < s.len() && s[i].0 == k;
                if i < s.len() - 1 {
                    assert(s.drop_last()[i].0 == k);
                    assert(has_key(s.drop_last(), k));
                    assert(assoc_map(s.drop_last()).dom().contains(k));
                    assert(assoc_map(s).dom().contains(k));
                } else {
                    assert(k == s.last().0);
                    assert(assoc_map(s).dom().contains(k));
                }
            }
        }
    }
}

pub proof fn lemma_assoc_index(s: Seq<(i64, u64)>, i: int)
    requires
        sorted_strict(s),
        0 <= i < s.len(),
    ensures
        assoc_map(s).dom().contains(s[i].0 as int),
        assoc_map(s)[s[i].0 as int] == s[i].1 as nat,
    decreases s.len(),
{
    if i < s.len() - 1 {
        assert(sorted_strict(s.drop_last()));
        assert(s.drop_last()[i] == s[i]);
        lemma_assoc_index(s.drop_last(), i);
        assert(s[i].0 < s.last().0);
    }
}

pub proof fn lemma_assoc_absent(s: Seq<(i64, u64)>, k: int)
    requires
        !has_key(s, k),
    ensures
        !assoc_map(s).dom().contains(k),
{
    lemma_assoc_dom(s);
}

/// Replacing the entry at `i` by one with the same key updates the map.
pub proof fn lemma_assoc_update(s: Seq<(i64, u64)>, i: int, v: u64)
    requires
        sorted_strict(s),
        0 <= i < s.len(),
    ensures
        assoc_map(s.update(i, (s[i].0, v))) == assoc_map(s).insert(s[i].0 as int, v as nat),
    decreases s.len(),
{
    let t = s.update(i, (s[i].0, v));
    if i == s.len() - 1 {
        assert(t.drop_last() =~= s.drop_last());
        assert(assoc_map(t) =~= assoc_map(s).insert(s[i].0 as int, v as nat));
    } else {
        assert(sorted_strict(s.drop_last()));
        assert(s.drop_last()[i] == s[i]);
        lemma_assoc_update(s.drop_last(), i, v);
        assert(t.drop_last() =~= s.drop_last().update(i, (s[i].0, v)));
        assert(t.last() == s.last());
        assert(s[i].0 < s.last().0);
        assert(assoc_map(t) =~= assoc_map(s).insert(s[i].0 as int, v as nat));
    }
}

/// Inserting an entry with a fresh key at any position inserts into the map.
pub proof fn lemma_assoc_insert(s: Seq<(i64, u64)>, i: int, k: i64, v: u64)
    requires
        !has_key(s, k as int),
        0 <= i <= s.len(),
    ensures
        assoc_map(s.insert(i, (k, v))) == assoc_map(s).insert(k as int, v as nat),
    decreases s.len(),
{
    let t = s.insert(i, (k, v));
    if i == s.len() {
        assert(t.drop_last() =~= s);
        assert(t.last() == (k, v));
        assert(assoc_map(t) =~= assoc_map(s).insert(k as int, v as nat));
    } else {
        assert(!has_key(s.drop_last(), k as int)) by {
            if has_key(s.drop_last(), k as int) {
                let j = choose|j: int|
                    0 <= j < s.drop_last().len() && s.drop_last()[j].0 == k as i64;
                assert(s[j].0 == k);
            }
        }
        lemma_assoc_insert(s.drop_last(), i, k, v);
        assert(t.drop_last() =~= s.drop_last().insert(i, (k, v)));
        assert(t.last() == s.last());
        assert(s.last().0 != k) by {
            assert(s[s.len() - 1].0 == s.last().0);
        }
        assert(assoc_map(t) =~= assoc_map(s).insert(k as int, v as nat));
    }
}

/// Appending an entry inserts its key into the map.
pub proof fn lemma_assoc_push(s: Seq<(i64, u64)>, k: i64, v: u64)
    ensures
        assoc_map(s.push((k, v))) == assoc_map(s).insert(k as int, v as nat),
{
    assert(s.push((k, v)).drop_last() =~= s);
    assert(s.push((k, v)).last() == (k, v));
}

/// `map_add` is commutative.
pub proof fn lemma_map_add_comm(a: Map<int, nat>, b: Map<int, nat>)
    ensures
        map_add(a, b) == map_add(b, a),
{
    assert(map_add(a, b) =~= map_add(b, a));
}

/// `map_add` is associative.
pub proof fn lemma_map_add_assoc(a: Map<int, nat>, b: Map<int, nat>, c: Map<int, nat>)
    ensures
        map_add(map_add(a, b), c) == map_add(a, map_add(b, c)),
{
    assert(map_add(map_add(a, b), c) =~= map_add(a, map_add(b, c)));
}

/// The empty map is the identity of `map_add`.
pub proof fn lemma_map_add_empty(a: Map<int, nat>)
    ensures
        map_add(a, Map::empty()) == a,
{
    assert(map_add(a, Map::empty()) =~= a);
}

/// A finite map of counts, iterated in strictly increasing key order.
#[derive(Debug)]
pub struct CountMap {
    entries: Vec<(i64, u64)>,
}

impl View for CountMap {
    type V = Map<int, nat>;

    open spec fn view(&self) -> Map<int, nat> {
        assoc_map(self.items())
    }
}

impl CountMap {
    /// The entries in iteration order.
    pub closed spec fn items(&self) -> Seq<(i64, u64)> {
        self.entries@
    }

    /// Entries sorted strictly by key.
    pub open spec fn wf(&self) -> bool {
        sorted_strict(self.items())
    }

    pub fn new() -> (m: CountMap)
        ensures
            m@ == Map::<int, nat>::empty(),
            m.wf(),
            m.items().len() == 0,
    {
        CountMap { entries: Vec::new() }
    }

    pub fn len(&self) -> (n: usize)
        ensures
            n == self.items().len(),
    {
        self.entries.len()
    }

    /// The entry at position `i` of the key-sorted order.
    pub fn item_at(&self, i: usize) -> (e: (i64, u64))
        requires
            i < self.items().len(),
        ensures
            e == self.items()[i as int],
    {
        self.entries[i]
    }

    /// Every listed entry is in the map with its listed count.
    pub proof fn lemma_items(&self)
        requires
            self.wf(),
        ensures
            forall|i: int|
                0 <= i < self.items().len() ==> self@.dom().contains(#[trigger] self.items()[i].0 as int)
                    && self@[self.items()[i].0 as int] == self.items()[i].1 as nat,
            forall|k: int| self@.dom().contains(k) <==> has_key(self.items(), k),
    {
        lemma_assoc_dom(self.items());
        assert forall|i: int| 0 <= i < self.items().len() implies self@.dom().contains(
            #[trigger] self.items()[i].0 as int,
        ) && self@[self.items()[i].0 as int] == self.items()[i].1 as nat by {
            lemma_assoc_index(self.items(), i);
        }
    }

    /// The count stored for `key`, zero when absent.
    pub fn get(&self, key: i64) -> (v: u64)
        requires
            self.wf(),
        ensures
            v as nat == val0(self@, key as int),
    {
        proof {
            self.lemma_items();
        }
        let n = self.entries.len();
        let mut i: usize = 0;
        while i < n
            invariant
                n == self.items().len(),
                i <= n,
                self.wf(),
                forall|j: int| 0 <= j < i ==> self.items()[j].0 != key,
                forall|j: int|
                    0 <= j < self.items().len() ==> self@.dom().contains(
                        #[trigger] self.items()[j].0 as int,
                    ) && self@[self.items()[j].0 as int] == self.items()[j].1 as nat,
                forall|k: int| self@.dom().contains(k) <==> has_key(self.items(), k),
            decreases n - i,
        {
            if self.entries[i].0 == key {
                return self.entries[i].1;
            }
            i += 1;
        }
        proof {
            if self@.dom().contains(key as int) {
                assert(has_key(self.items(), key as int));
                let j = choose|j: int|
                    0 <= j < self.items().len() && self.items()[j].0 == key as int;
                assert(self.items()[j].0 != key);
                assert(false);
            }
        }
        0
    }

    /// The position of the first key at or above `key`, with everything
    /// before it strictly below `key`.
    fn lower_bound(&self, key: i64) -> (i: usize)
        requires
            self.wf(),
        ensures
            i <= self.items().len(),
            forall|j: int| 0 <= j < i ==> self.items()[j].0 < key,
            i < self.items().len() ==> self.items()[i as int].0 >= key,
    {
        let n = self.entries.len();
        let mut i: usize = 0;
        while i < n
            invariant
                n == self.items().len(),
                i <= n,
                forall|j: int| 0 <= j < i ==> self.items()[j].0 < key,
            decreases n - i,
        {
            if self.entries[i].0 >= key {
                return i;
            }
            i += 1;
        }
        i
    }

    /// Raise the count of `key` by `v`.
    pub fn add_count(&mut self, key: i64, v: u64)
        requires
            old(self).wf(),
            val0(old(self)@, key as int) + v <= u64::MAX,
        ensures
            final(self).wf(),
            final(self)@ == bump(old(self)@, key as int, v as nat),
    {
        let i = self.lower_bound(key);
        if i < self.entries.len() && self.entries[i].0 == key {
            proof {
                lemma_assoc_index(self.items(), i as int);
                lemma_assoc_update(self.items(), i as int, (self.items()[i as int].1 + v) as u64);
            }
            let cur = self.entries[i].1;
            self.entries[i] = (key, cur + v);
            assert(sorted_strict(self.items())) by {
                assert(forall|p: int, q: int|
                    0 <= p < q < self.items().len() ==> self.items()[p].0 < self.items()[q].0);
            }
        } else {
            proof {
                assert(!has_key(self.items(), key as int)) by {
                    if has_key(self.items(), key as int) {
                        let j = choose|j: int|
                            0 <= j < self.items().len() && self.items()[j].0 == key;
                        if j < i {
                        } else {
                            assert((i as int) <= j);
                            if i < self.items().len() {
                                assert(self.items()[i as int].0 >= key);
                                if (i as int) < j {
                                    assert(self.items()[i as int].0 < self.items()[j].0);
                                }
                            }
                        }
                    }
                }
                lemma_assoc_insert(self.items(), i as int, key, v);
                lemma_assoc_absent(self.items(), key as int);
            }
            self.entries.insert(i, (key, v));
            assert(sorted_strict(self.items()));
        }
    }

    /// Raise the count of `key` to `v` if it is below `v`.
    pub fn update_max(&mut self, key: i64, v: u64)
        requires
            old(self).wf(),
        ensures
            final(self).wf(),
            final(self)@ == raise_to(old(self)@, key as int, v as nat),
    {
        let i = self.lower_bound(key);
        if i < self.entries.len() && self.entries[i].0 == key {
            proof {
                lemma_assoc_index(self.items(), i as int);
            }
            let cur = self.entries[i].1;
            let nv = if cur >= v {
                cur
            } else {
                v
            };
            proof {
                lemma_assoc_update(self.items(), i as int, nv);
            }
            self.entries[i] = (key, nv);
            assert(sorted_strict(self.items()));
        } else {
            proof {
                assert(!has_key(self.items(), key as int)) by {
                    if has_key(self.items(), key as int) {
                        let j = choose|j: int|
                            0 <= j < self.items().len() && self.items()[j].0 == key;
                        if j >= i && i < self.items().len() && (i as int) < j {
                            assert(self.items()[i as int].0 < self.items()[j].0);
                        }
                    }
                }
                lemma_assoc_insert(self.items(), i as int, key, v);
                lemma_assoc_absent(self.items(), key as int);
            }
            self.entries.insert(i, (key, v));
            assert(sorted_strict(self.items()));
        }
    }

    /// The counts of `count` consecutive keys starting at `from`, for
    /// charting a contiguous series; absent keys count as zero.
    pub fn series(&self, from: i64, count: usize) -> (r: Vec<u64>)
        requires
            self.wf(),
            count <= i64::MAX,
            from + count <= i64::MAX,
        ensures
            r@.len() == count,
            forall|j: int| 0 <= j < count ==> r@[j] as nat == val0(self@, from + j),
    {
        let mut out: Vec<u64> = Vec::new();
        let mut j: usize = 0;
        while j < count
            invariant
                self.wf(),
                count <= i64::MAX,
                from + count <= i64::MAX,
                j <= count,
                out@.len() == j,
                forall|q: int| 0 <= q < j ==> out@[q] as nat == val0(self@, from + q),
            decreases count - j,
        {
            let v = self.get(from + (j as i64));
            out.push(v);
            j += 1;
        }
        out
    }

    /// The pointwise sum of two count maps.
    pub fn merge(&self, other: &CountMap) -> (r: CountMap)
        requires
            self.wf(),
            other.wf(),
            forall|k: int| val0(self@, k) + val0(other@, k) <= u64::MAX,
        ensures
            r.wf(),
            r@ == map_add(self@, other@),
    {
        proof {
            self.lemma_items();
            other.lemma_items();
        }
        let a = &self.entries;
        let b = &other.entries;
        let mut res: Vec<(i64, u64)> = Vec::new();
        let mut i: usize = 0;
        let mut j: usize = 0;
        while i < a.len() || j < b.len()
            invariant
                a@ == self.items(),
                b@ == other.items(),
                self.wf(),
                other.wf(),
                forall|k: int| val0(self@, k) + val0(other@, k) <= u64::MAX,
                forall|p: int|
                    0 <= p < self.items().len() ==> self@.dom().contains(
                        #[trigger] self.items()[p].0 as int,
                    ) && self@[self.items()[p].0 as int] == self.items()[p].1 as nat,
                forall|p: int|
                    0 <= p < other.items().len() ==> other@.dom().contains(
                        #[trigger] other.items()[p].0 as int,
                    ) && other@[other.items()[p].0 as int] == other.items()[p].1 as nat,
                i <= a@.len(),
                j <= b@.len(),
                sorted_strict(res@),
                forall|p: int, q: int|
                    0 <= p < res@.len() && i <= q < a@.len() ==> res@[p].0 < a@[q].0,
                forall|p: int, q: int|
                    0 <= p < res@.len() && j <= q < b@.len() ==> res@[p].0 < b@[q].0,
                assoc_map(res@) == map_add(
                    assoc_map(a@.take(i as int)),
                    assoc_map(b@.take(j as int)),
                ),
            decreases a@.len() - i + b@.len() - j,
        {
            let ghost am = assoc_map(a@.take(i as int));
            let ghost bm = assoc_map(b@.take(j as int));
            proof {
                lemma_assoc_dom(a@.take(i as int));
                lemma_assoc_dom(b@.take(j as int));
                lemma_assoc_dom(res@);
            }
            let take_a: bool = if i < a.len() && j < b.len() {
                a[i].0 <= b[j].0
            } else {
                i < a.len()
            };
            let take_b: bool = if i < a.len() && j < b.len() {
                b[j].0 <= a[i].0
            } else {
                j < b.len()
            };
            let key: i64 = if take_a {
                a[i].0
            } else {
                b[j].0
            };
            proof {
                assert(!has_key(res@, key as int)) by {
                    if has_key(res@, key as int) {
                        let p = choose|p: int| 0 <= p < res@.len() && res@[p].0 == key;
                        if take_a {
                            assert(res@[p].0 < a@[i as int].0);
                        } else {
                            assert(res@[p].0 < b@[j as int].0);
                        }
                    }
                }
                lemma_assoc_absent(res@, key as int);
            }
            let mut v: u64 = 0;
            let ghost old_i = i as int;
            let ghost old_j = j as int;
            if take_a {
                proof {
                    lemma_assoc_index(a@, i as int);
                    // The key is new to the consumed prefix of `a`.
                    assert(!has_key(a@.take(old_i), key as int)) by {
                        if has_key(a@.take(old_i), key as int) {
                            let p = choose|p: int|
                                0 <= p < a@.take(old_i).len() && a@.take(old_i)[p].0 == key;
                            assert(a@[p].0 < a@[old_i].0);
                        }
                    }
                    lemma_assoc_absent(a@.take(old_i), key as int);
                    assert(a@.take(old_i + 1).drop_last() =~= a@.take(old_i));
                    assert(a@.take(old_i + 1).last() == a@[old_i]);
                }
                v = a[i].1;
                i += 1;
            }
            if take_b {
                proof {
                    lemma_assoc_index(b@, j as int);
                    assert(!has_key(b@.take(old_j), key as int)) by {
                        if has_key(b@.take(old_j), key as int) {
                            let p = choose|p: int|
                                0 <= p < b@.take(old_j).len() && b@.take(old_j)[p].0 == key;
                            assert(b@[p].0 < b@[old_j].0);
                        }
                    }
                    lemma_assoc_absent(b@.take(old_j), key as int);
                    assert(b@.take(old_j + 1).drop_last() =~= b@.take(old_j));
                    assert(b@.take(old_j + 1).last() == b@[old_j]);
                }
                let bv = b[j].1;
                proof {
                    if take_a {
                        assert(val0(self@, key as int) == a@[old_i].1 as nat);
                        assert(val0(other@, key as int) == b@[old_j].1 as nat);
                    }
                }
                v = v + bv;
                j += 1;
            }
            proof {
                lemma_assoc_push(res@, key, v);
            }
            res.push((key, v));
            proof {
                assert(sorted_strict(res@));
                assert(assoc_map(res@) =~= map_add(
                    assoc_map(a@.take(i as int)),
                    assoc_map(b@.take(j as int)),
                ));
            }
        }
        proof {
            assert(a@.take(a@.len() as int) =~= a@);
            assert(b@.take(b@.len() as int) =~= b@);
        }
        CountMap { entries: res }
    }
}

} // verus!
