//! File counts by extension, derived from one snapshot.
//!
//! A path's bucket is the text after the last dot of its final component;
//! a component without a dot, or whose only dot leads it (a hidden file),
//! falls into the `none` bucket. Entries iterate in strictly increasing
//! key order, so rendering is deterministic. The bar derivation scales
//! each bucket onto a fixed width; the `none` bucket, and any bucket
//! whose scaled share is below one unit, fold into an `other` aggregate.

use crate::snapshot::Snapshot;
use vstd::prelude::*;

verus! {

/// The position of the last `c` in `s`, or -1.
pub open spec fn rfind(s: Seq<char>, c: char) -> int
    decreases s.len(),
{
    if s.len() == 0 {
        -1
    } else if s.last() == c {
        s.len() - 1
    } else {
        rfind(s.drop_last(), c)
    }
}

/// The extension bucket of a path (see the module doc).
pub open spec fn ext_of(p: Seq<char>) -> Seq<char> {
    let comp = p.skip(rfind(p, '/') + 1);
    let d = rfind(comp, '.');
    if d <= 0 {
        "none"@
    } else {
        comp.skip(d + 1)
    }
}

/// Strict lexicographic order on character sequences, by code point.
pub open spec fn lex_lt(a: Seq<char>, b: Seq<char>) -> bool
    decreases a.len(),
{
    if b.len() == 0 {
        false
    } else if a.len() == 0 {
        true
    } else if a.first() != b.first() {
        (a.first() as int) < (b.first() as int)
    } else {
        lex_lt(a.drop_first(), b.drop_first())
    }
}

proof fn lemma_lex_irrefl(a: Seq<char>)
    ensures
        !lex_lt(a, a),
    decreases a.len(),
{
    if a.len() > 0 {
        lemma_lex_irrefl(a.drop_first());
    }
}

proof fn lemma_lex_total(a: Seq<char>, b: Seq<char>)
    ensures
        lex_lt(a, b) || lex_lt(b, a) || a == b,
    decreases a.len(),
{
    if a.len() == 0 {
        if b.len() == 0 {
            assert(a =~= b);
        }
    } else if b.len() == 0 {
    } else if a.first() == b.first() {
        lemma_lex_total(a.drop_first(), b.drop_first());
        if a.drop_first() == b.drop_first() {
            assert(a =~= seq![a.first()] + a.drop_first());
            assert(b =~= seq![b.first()] + b.drop_first());
        }
    }
}

proof fn lemma_lex_trans(a: Seq<char>, b: Seq<char>, c: Seq<char>)
    requires
        lex_lt(a, b),
        lex_lt(b, c),
    ensures
        lex_lt(a, c),
    decreases a.len(),
{
    if a.len() > 0 && b.len() > 0 && c.len() > 0 {
        if a.first() == b.first() && b.first() == c.first() {
            lemma_lex_trans(a.drop_first(), b.drop_first(), c.drop_first());
        }
    }
}

/// Walking from `i` with equal prefixes, the order is decided by the
/// tails.
proof fn lemma_lex_skip(a: Seq<char>, b: Seq<char>, i: int)
    requires
        0 <= i <= a.len(),
        i <= b.len(),
        forall|j: int| 0 <= j < i ==> a[j] == b[j],
    ensures
        lex_lt(a, b) == lex_lt(a.skip(i), b.skip(i)),
    decreases i,
{
    if i > 0 {
        assert(a[0] == b[0]);
        assert(a.first() == b.first());
        let a1 = a.drop_first();
        let b1 = b.drop_first();
        assert(forall|j: int| 0 <= j < i - 1 ==> a1[j] == b1[j]);
        lemma_lex_skip(a1, b1, i - 1);
        assert(a1.skip(i - 1) =~= a.skip(i));
        assert(b1.skip(i - 1) =~= b.skip(i));
    } else {
        assert(a.skip(0) =~= a);
        assert(b.skip(0) =~= b);
    }
}

/// Strict lexicographic order (see [`lex_lt`]).
pub fn str_lt(a: &str, b: &str) -> (r: bool)
    ensures
        r == lex_lt(a@, b@),
{
    let na = a.unicode_len();
    let nb = b.unicode_len();
    let mut i: usize = 0;
    while i < na && i < nb
        invariant
            na == a@.len(),
            nb == b@.len(),
            i <= na,
            i <= nb,
            forall|j: int| 0 <= j < i ==> a@[j] == b@[j],
        decreases na - i,
    {
        let ca = a.get_char(i);
        let cb = b.get_char(i);
        if ca != cb {
            proof {
                lemma_lex_skip(a@, b@, i as int);
                assert(a@.skip(i as int).first() == ca);
                assert(b@.skip(i as int).first() == cb);
            }
            return ca < cb;
        }
        i += 1;
    }
    proof {
        lemma_lex_skip(a@, b@, i as int);
    }
    na < nb
}

/// The position just past the last `c` in `s`: 0 when `c` is absent.
fn rfind_char(s: &str, c: char) -> (r: usize)
    ensures
        r as int == rfind(s@, c) + 1,
        r <= s@.len(),
{
    let n = s.unicode_len();
    let mut i: usize = n;
    proof {
        assert(s@.take(n as int) =~= s@);
    }
    while i > 0
        invariant
            n == s@.len(),
            i <= n,
            rfind(s@, c) == rfind(s@.take(i as int), c),
        decreases i,
    {
        proof {
            assert(s@.take(i as int).last() == s@[i as int - 1]);
            assert(s@.take(i as int).drop_last() =~= s@.take(i as int - 1));
        }
        if s.get_char(i - 1) == c {
            return i;
        }
        i -= 1;
    }
    proof {
        assert(s@.take(0) =~= Seq::<char>::empty());
    }
    0
}

/// The extension bucket of one path (see [`ext_of`]).
pub fn extension_of(path: &str) -> (r: String)
    ensures
        r@ == ext_of(path@),
{
    let n = path.unicode_len();
    let comp_start = rfind_char(path, '/');
    let comp = path.substring_char(comp_start, n);
    proof {
        assert(comp@ =~= path@.skip(rfind(path@, '/') + 1));
    }
    let m = comp.unicode_len();
    let d = rfind_char(comp, '.');
    if d <= 1 {
        String::from_str("none")
    } else {
        let r = comp.substring_char(d, m);
        proof {
            assert(r@ =~= comp@.skip(rfind(comp@, '.') + 1));
        }
        String::from_str(r)
    }
}

/// The histogram read off an association list.
pub open spec fn ext_map(s: Seq<(String, u64)>) -> Map<Seq<char>, nat>
    decreases s.len(),
{
    if s.len() == 0 {
        Map::empty()
    } else {
        ext_map(s.drop_last()).insert(s.last().0@, s.last().1 as nat)
    }
}

/// The count of `k`, zero when absent.
pub open spec fn ext_count(m: Map<Seq<char>, nat>, k: Seq<char>) -> nat {
    if m.dom().contains(k) {
        m[k]
    } else {
        0
    }
}

/// `m` with the count of `k` raised by one.
pub open spec fn bump_ext(m: Map<Seq<char>, nat>, k: Seq<char>) -> Map<Seq<char>, nat> {
    m.insert(k, ext_count(m, k) + 1)
}

/// The histogram of a sequence of paths: each path counted once, under
/// its extension bucket.
pub open spec fn spec_histogram(paths: Seq<Seq<char>>) -> Map<Seq<char>, nat>
    decreases paths.len(),
{
    if paths.len() == 0 {
        Map::empty()
    } else {
        bump_ext(spec_histogram(paths.drop_last()), ext_of(paths.last()))
    }
}

/// Keys strictly increasing in lexicographic order.
pub open spec fn lex_sorted(s: Seq<(String, u64)>) -> bool {
    forall|i: int, j: int| 0 <= i < j < s.len() ==> lex_lt(s[i].0@, s[j].0@)
}

proof fn lemma_ext_map_index(s: Seq<(String, u64)>, i: int)
    requires
        lex_sorted(s),
        0 <= i < s.len(),
    ensures
        ext_map(s).dom().contains(s[i].0@),
        ext_map(s)[s[i].0@] == s[i].1 as nat,
    decreases s.len(),
{
    if i < s.len() - 1 {
        assert(lex_sorted(s.drop_last()));
        assert(s.drop_last()[i] == s[i]);
        lemma_ext_map_index(s.drop_last(), i);
        assert(lex_lt(s[i].0@, s.last().0@));
        lemma_lex_irrefl(s[i].0@);
        assert(s[i].0@ != s.last().0@) by {
            if s[i].0@ == s.last().0@ {
                assert(lex_lt(s[i].0@, s[i].0@));
            }
        }
    }
}

proof fn lemma_ext_map_dom(s: Seq<(String, u64)>)
    ensures
        forall|k: Seq<char>|
            ext_map(s).dom().contains(k) <==> exists|i: int| 0 <= i < s.len() && s[i].0@ == k,
    decreases s.len(),
{
    if s.len() > 0 {
        lemma_ext_map_dom(s.drop_last());
        assert forall|k: Seq<char>|
            ext_map(s).dom().contains(k) <==> exists|i: int|
                0 <= i < s.len() && s[i].0@ == k by {
            if ext_map(s).dom().contains(k) {
                if k == s.last().0@ {
                    assert(s[s.len() - 1].0@ == k);
                } else {
                    assert(ext_map(s.drop_last()).dom().contains(k));
                    let i = choose|i: int|
                        0 <= i < s.drop_last().len() && s.drop_last()[i].0@ == k;
                    assert(s[i].0@ == k);
                }
            }
            if exists|i: int| 0 <= i < s.len() && s[i].0@ == k {
                let i = choose|i: int| 0 <= i < s.len() && s[i].0@ == k;
                if i < s.len() - 1 {
                    assert(s.drop_last()[i].0@ == k);
                    assert(ext_map(s.drop_last()).dom().contains(k));
                } else {
                    assert(k == s.last().0@);
                }
                assert(ext_map(s).dom().contains(k));
            }
        }
    }
}

proof fn lemma_ext_map_absent(s: Seq<(String, u64)>, k: Seq<char>)
    requires
        forall|i: int| 0 <= i < s.len() ==> s[i].0@ != k,
    ensures
        !ext_map(s).dom().contains(k),
{
    lemma_ext_map_dom(s);
    if ext_map(s).dom().contains(k) {
        let i = choose|i: int| 0 <= i < s.len() && s[i].0@ == k;
    }
}

proof fn lemma_ext_map_update(s: Seq<(String, u64)>, i: int, x: (String, u64))
    requires
        lex_sorted(s),
        0 <= i < s.len(),
        x.0@ == s[i].0@,
    ensures
        ext_map(s.update(i, x)) == ext_map(s).insert(x.0@, x.1 as nat),
    decreases s.len(),
{
    let t = s.update(i, x);
    if i == s.len() - 1 {
        assert(t.drop_last() =~= s.drop_last());
        assert(ext_map(t) =~= ext_map(s).insert(x.0@, x.1 as nat));
    } else {
        assert(lex_sorted(s.drop_last()));
        assert(s.drop_last()[i] == s[i]);
        lemma_ext_map_update(s.drop_last(), i, x);
        assert(t.drop_last() =~= s.drop_last().update(i, x));
        assert(t.last() == s.last());
        lemma_lex_irrefl(s[i].0@);
        assert(s[i].0@ != s.last().0@) by {
            if s[i].0@ == s.last().0@ {
                assert(lex_lt(s[i].0@, s[i].0@));
            }
        }
        assert(ext_map(t) =~= ext_map(s).insert(x.0@, x.1 as nat));
    }
}

proof fn lemma_ext_map_insert(s: Seq<(String, u64)>, i: int, x: (String, u64))
    requires
        forall|j: int| 0 <= j < s.len() ==> s[j].0@ != x.0@,
        0 <= i <= s.len(),
    ensures
        ext_map(s.insert(i, x)) == ext_map(s).insert(x.0@, x.1 as nat),
    decreases s.len(),
{
    let t = s.insert(i, x);
    if i == s.len() {
        assert(t.drop_last() =~= s);
        assert(t.last() == x);
        assert(ext_map(t) =~= ext_map(s).insert(x.0@, x.1 as nat));
    } else {
        assert(forall|j: int| 0 <= j < s.drop_last().len() ==> s.drop_last()[j] == s[j]);
        lemma_ext_map_insert(s.drop_last(), i, x);
        assert(t.drop_last() =~= s.drop_last().insert(i, x));
        assert(t.last() == s.last());
        assert(s[s.len() - 1].0@ != x.0@);
        assert(ext_map(t) =~= ext_map(s).insert(x.0@, x.1 as nat));
    }
}

/// File counts by extension bucket, in strictly increasing key order.
pub struct ExtensionHistogram {
    entries: Vec<(String, u64)>,
}

impl View for ExtensionHistogram {
    type V = Map<Seq<char>, nat>;

    open spec fn view(&self) -> Map<Seq<char>, nat> {
        ext_map(self.items())
    }
}

impl ExtensionHistogram {
    /// The entries in iteration order.
    pub closed spec fn items(&self) -> Seq<(String, u64)> {
        self.entries@
    }

    /// Entries strictly sorted by key.
    pub open spec fn wf(&self) -> bool {
        lex_sorted(self.items())
    }

    pub fn new() -> (h: ExtensionHistogram)
        ensures
            h.wf(),
            h@ == Map::<Seq<char>, nat>::empty(),
            h.items().len() == 0,
    {
        ExtensionHistogram { entries: Vec::new() }
    }

    pub fn len(&self) -> (n: usize)
        ensures
            n == self.items().len(),
    {
        self.entries.len()
    }

    /// The entry at position `i` of the key-sorted order.
    pub fn item_at(&self, i: usize) -> (r: (&String, u64))
        requires
            i < self.items().len(),
        ensures
            *r.0 == self.items()[i as int].0,
            r.1 == self.items()[i as int].1,
    {
        let p = &self.entries[i];
        (&p.0, p.1)
    }

    /// The count of one bucket.
    pub fn get(&self, key: &String) -> (v: u64)
        requires
            self.wf(),
        ensures
            v as nat == ext_count(self@, key@),
    {
        proof {
            lemma_ext_map_dom(self.items());
            assert forall|i: int| 0 <= i < self.items().len() implies ext_map(
                self.items(),
            ).dom().contains(#[trigger] self.items()[i].0@) && ext_map(self.items())[self.items()[i].0@]
                == self.items()[i].1 as nat by {
                lemma_ext_map_index(self.items(), i);
            }
        }
        let n = self.entries.len();
        let mut i: usize = 0;
        while i < n
            invariant
                n == self.items().len(),
                i <= n,
                self.wf(),
                forall|j: int| 0 <= j < i ==> self.items()[j].0@ != key@,
                forall|j: int|
                    0 <= j < self.items().len() ==> self@.dom().contains(
                        #[trigger] self.items()[j].0@,
                    ) && self@[self.items()[j].0@] == self.items()[j].1 as nat,
                forall|k: Seq<char>|
                    self@.dom().contains(k) <==> exists|j: int|
                        0 <= j < self.items().len() && self.items()[j].0@ == k,
            decreases n - i,
        {
            if self.entries[i].0 == *key {
                return self.entries[i].1;
            }
            i += 1;
        }
        proof {
            if self@.dom().contains(key@) {
                let j = choose|j: int| 0 <= j < self.items().len() && self.items()[j].0@ == key@;
                assert(false);
            }
        }
        0
    }

    /// Count one more file under `ext`.
    fn add_one(&mut self, ext: String)
        requires
            old(self).wf(),
            ext_count(old(self)@, ext@) + 1 <= u64::MAX,
        ensures
            final(self).wf(),
            final(self)@ == bump_ext(old(self)@, ext@),
            final(self).items().len() <= old(self).items().len() + 1,
    {
        let n = self.entries.len();
        let mut i: usize = 0;
        while i < n && str_lt(self.entries[i].0.as_str(), ext.as_str())
            invariant
                *self == *old(self),
                n == self.items().len(),
                i <= n,
                forall|j: int| 0 <= j < i ==> lex_lt(self.items()[j].0@, ext@),
            decreases n - i,
        {
            i += 1;
        }
        if i < n && self.entries[i].0 == ext {
            proof {
                lemma_ext_map_index(self.items(), i as int);
            }
            let cur = self.entries[i].1;
            proof {
                lemma_ext_map_update(self.items(), i as int, (ext, (cur + 1) as u64));
            }
            self.entries[i] = (ext, cur + 1);
            proof {
                assert(lex_sorted(self.items())) by {
                    assert(forall|q: int|
                        0 <= q < self.items().len() ==> (#[trigger] self.items()[q]).0@ == old(
                            self,
                        ).items()[q].0@);
                }
            }
        } else {
            proof {
                assert(forall|j: int| 0 <= j < self.items().len() ==> self.items()[j].0@ != ext@)
                    by {
                    assert forall|j: int| 0 <= j < self.items().len() implies self.items()[j].0@
                        != ext@ by {
                        lemma_lex_irrefl(ext@);
                        if j < i {
                            if self.items()[j].0@ == ext@ {
                                assert(lex_lt(ext@, ext@));
                            }
                        } else if i < self.items().len() {
                            lemma_lex_total(self.items()[i as int].0@, ext@);
                            if (i as int) < j {
                                if self.items()[j].0@ == ext@ {
                                    assert(lex_lt(self.items()[i as int].0@, self.items()[j].0@));
                                }
                            }
                        }
                    }
                }
                lemma_ext_map_absent(self.items(), ext@);
                lemma_ext_map_insert(self.items(), i as int, (ext, 1u64));
            }
            self.entries.insert(i, (ext, 1));
            proof {
                assert(lex_sorted(self.items())) by {
                    assert forall|p: int, q: int| 0 <= p < q < self.items().len() implies lex_lt(
                        (#[trigger] self.items()[p]).0@,
                        (#[trigger] self.items()[q]).0@,
                    ) by {
                        let old_items = old(self).items();
                        if p < i && q == i {
                        } else if p == i && q > i {
                            lemma_lex_total(old_items[q - 1].0@, ext@);
                            lemma_lex_irrefl(ext@);
                            if old_items[q - 1].0@ == ext@ {
                                assert(false);
                            }
                            if lex_lt(old_items[q - 1].0@, ext@) {
                                if (i as int) <= q - 1 {
                                    assert(!lex_lt(old_items[i as int].0@, ext@));
                                    if (i as int) < q - 1 {
                                        lemma_lex_trans(
                                            old_items[i as int].0@,
                                            old_items[q - 1].0@,
                                            ext@,
                                        );
                                    }
                                    assert(false);
                                }
                            }
                        } else if p < i && q > i {
                        } else {
                        }
                    }
                }
            }
        }
    }

    /// The histogram of a snapshot: each file counted once under its
    /// extension bucket.
    pub fn from_snapshot(snap: &Snapshot) -> (h: ExtensionHistogram)
        ensures
            h.wf(),
            h@ == spec_histogram(snap@),
    {
        let paths = snap.iter();
        let n = paths.len();
        let mut h = ExtensionHistogram::new();
        let mut i: usize = 0;
        proof {
            assert(snap@.take(0) =~= Seq::<Seq<char>>::empty());
        }
        while i < n
            invariant
                n == paths@.len(),
                paths@ == snap.paths(),
                i <= n,
                h.wf(),
                h.items().len() <= i,
                h@ == spec_histogram(snap@.take(i as int)),
            decreases n - i,
        {
            let ext = extension_of(paths[i].as_str());
            proof {
                assert(snap@.take(i as int + 1).drop_last() =~= snap@.take(i as int));
                assert(snap@.take(i as int + 1).last() == snap@[i as int]);
                assert(snap@[i as int] == paths@[i as int]@);
                lemma_hist_count_le(snap@.take(i as int));
            }
            h.add_one(ext);
            i += 1;
        }
        proof {
            assert(snap@.take(n as int) =~= snap@);
        }
        h
    }
}

/// A bucket rendered on its own: not the `none` bucket, and its share
/// of the bar — `count / total` of `width` units — is at least one unit.
pub open spec fn is_kept(key: Seq<char>, count: nat, width: nat, total: nat) -> bool {
    key != "none"@ && count * width >= total
}

/// The buckets rendered on their own, in key order.
pub open spec fn kept_of(s: Seq<(String, u64)>, width: nat, total: nat) -> Seq<(Seq<char>, nat)>
    decreases s.len(),
{
    if s.len() == 0 {
        Seq::empty()
    } else {
        let rest = kept_of(s.drop_last(), width, total);
        if is_kept(s.last().0@, s.last().1 as nat, width, total) {
            rest.push((s.last().0@, s.last().1 as nat))
        } else {
            rest
        }
    }
}

/// The folded `other` aggregate: the counts of the `none` bucket and of
/// every bucket whose share is below one unit.
pub open spec fn other_of(s: Seq<(String, u64)>, width: nat, total: nat) -> nat
    decreases s.len(),
{
    if s.len() == 0 {
        0
    } else {
        other_of(s.drop_last(), width, total) + (if is_kept(
            s.last().0@,
            s.last().1 as nat,
            width,
            total,
        ) {
            0
        } else {
            s.last().1 as nat
        })
    }
}

/// The views of rendered bucket entries.
pub open spec fn bucket_views(s: Seq<(String, u64)>) -> Seq<(Seq<char>, nat)> {
    s.map_values(|p: (String, u64)| (p.0@, p.1 as nat))
}

proof fn lemma_other_of_take(s: Seq<(String, u64)>, width: nat, total: nat, i: int)
    requires
        0 <= i <= s.len(),
    ensures
        other_of(s.take(i), width, total) <= other_of(s, width, total),
    decreases s.len(),
{
    if i == s.len() {
        assert(s.take(i) =~= s);
    } else {
        let d = s.drop_last();
        assert(s.take(i) =~= d.take(i));
        lemma_other_of_take(d, width, total, i);
    }
}

impl ExtensionHistogram {
    /// Split the histogram for rendering: the buckets drawn on their
    /// own, in key order, and the folded `other` count. `width` is the
    /// bar's width in glyphs, `total` the number of files.
    pub fn render_buckets(&self, width: u64, total: u64) -> (r: (Vec<(String, u64)>, u64))
        requires
            self.wf(),
            other_of(self.items(), width as nat, total as nat) <= u64::MAX,
        ensures
            bucket_views(r.0@) == kept_of(self.items(), width as nat, total as nat),
            r.1 as nat == other_of(self.items(), width as nat, total as nat),
    {
        let ghost w = width as nat;
        let ghost t = total as nat;
        let n = self.entries.len();
        let mut kept: Vec<(String, u64)> = Vec::new();
        let mut other: u64 = 0;
        let mut i: usize = 0;
        proof {
            assert(self.items().take(0) =~= Seq::<(String, u64)>::empty());
            assert(bucket_views(kept@) =~= kept_of(self.items().take(0), w, t));
        }
        while i < n
            invariant
                w == width as nat,
                t == total as nat,
                n == self.items().len(),
                i <= n,
                other_of(self.items(), w, t) <= u64::MAX,
                bucket_views(kept@) == kept_of(self.items().take(i as int), w, t),
                other as nat == other_of(self.items().take(i as int), w, t),
            decreases n - i,
        {
            proof {
                assert(self.items().take(i as int + 1).drop_last() =~= self.items().take(i as int));
                assert(self.items().take(i as int + 1).last() == self.items()[i as int]);
                lemma_other_of_take(self.items(), w, t, i as int + 1);
            }
            let entry = &self.entries[i];
            let none_key = String::from_str("none");
            let is_none = entry.0 == none_key;
            let big_enough = match entry.1.checked_mul(width) {
                Option::Some(p) => p >= total,
                Option::None => true,
            };
            if !is_none && big_enough {
                let pair = (entry.0.clone(), entry.1);
                proof {
                    assert(bucket_views(kept@.push(pair)) =~= bucket_views(kept@).push(
                        (pair.0@, pair.1 as nat),
                    ));
                }
                kept.push(pair);
            } else {
                proof {
                    assert(*entry == self.items()[i as int]);
                    if is_none {
                        assert(entry.0@ == none_key@);
                        assert(self.items()[i as int].0@ == "none"@);
                    } else {
                        assert((entry.1 as nat) * w < t);
                        assert((self.items()[i as int].1 as nat) * w < t);
                    }
                    assert(!is_kept(
                        self.items()[i as int].0@,
                        self.items()[i as int].1 as nat,
                        w,
                        t,
                    ));
                    assert(other_of(self.items().take(i as int + 1), w, t) == other as nat
                        + entry.1 as nat);
                }
                other = other + entry.1;
            }
            proof {
                assert(bucket_views(kept@) =~= kept_of(self.items().take(i as int + 1), w, t));
            }
            i += 1;
        }
        proof {
            assert(self.items().take(n as int) =~= self.items());
        }
        (kept, other)
    }
}

/// The glyph run of a rendered bucket: its `count / total` share of
/// `width` units, rounded up.
pub open spec fn spec_bar_len(count: nat, width: nat, total: nat) -> int {
    if total == 0 {
        0
    } else {
        (count * width + total - 1) / (total as int)
    }
}

/// The glyph run of a rendered bucket (see [`spec_bar_len`]).
pub fn bar_len(count: u64, width: u64, total: u64) -> (r: u64)
    requires
        count <= total,
        total >= 1,
    ensures
        r == spec_bar_len(count as nat, width as nat, total as nat),
        r <= width,
{
    proof {
        assert((count as int) * (width as int) <= 0xFFFFFFFFFFFFFFFF * 0xFFFFFFFFFFFFFFFF)
            by (nonlinear_arith)
            requires
                0 <= count <= 0xFFFFFFFFFFFFFFFF,
                0 <= width <= 0xFFFFFFFFFFFFFFFF,
        ;
    }
    let v: u128 = ((count as u128) * (width as u128) + (total as u128) - 1) / (total as u128);
    proof {
        let c = count as int;
        let w = width as int;
        let t = total as int;
        assert(c * w <= t * w) by (nonlinear_arith)
            requires
                c <= t,
                w >= 0,
        ;
        assert((c * w + t - 1) / t <= w) by (nonlinear_arith)
            requires
                t >= 1,
                w >= 0,
                c * w <= t * w,
        ;
        assert((c * w + t - 1) / t >= 0) by (nonlinear_arith)
            requires
                t >= 1,
                c >= 0,
                w >= 0,
        ;
    }
    v as u64
}

/// No bucket of a histogram holds more than the number of paths.
proof fn lemma_hist_count_le(paths: Seq<Seq<char>>)
    ensures
        forall|k: Seq<char>| #[trigger] ext_count(spec_histogram(paths), k) <= paths.len(),
    decreases paths.len(),
{
    if paths.len() > 0 {
        lemma_hist_count_le(paths.drop_last());
        assert forall|k: Seq<char>| #[trigger] ext_count(spec_histogram(paths), k)
            <= paths.len() by {
            let m = spec_histogram(paths.drop_last());
            let kk = ext_of(paths.last());
            assert(spec_histogram(paths) == bump_ext(m, kk));
            assert(ext_count(m, k) <= paths.drop_last().len());
            if k != kk {
                assert(ext_count(bump_ext(m, kk), k) == ext_count(m, k));
            }
        }
    }
}

} // verus!
