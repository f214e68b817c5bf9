use vstd::prelude::*;
use crate::keys::{key_lt, key_order, KeyOrder, lemma_key_lt_irreflexive, lemma_key_lt_transitive};
use crate::stats::{Stat, Station, join, combine, stat_ok};

verus! {

/// Keys in strictly ascending order, hence without duplicates.
pub open spec fn strictly_sorted(ks: Seq<Seq<u8>>) -> bool {
    forall|i: int, j: int| 0 <= i < j < ks.len() ==> key_lt(#[trigger] ks[i], #[trigger] ks[j])
}

/// The mapping held by parallel sequences of keys and statistics.
pub open spec fn table_map(ks: Seq<Seq<u8>>, ss: Seq<Stat>) -> Map<Seq<u8>, Stat> {
    Map::new(|k: Seq<u8>| ks.contains(k), |k: Seq<u8>| ss[ks.index_of(k)])
}

/// What a mapping holds for a key, if anything.
pub open spec fn lookup(m: Map<Seq<u8>, Stat>, k: Seq<u8>) -> Option<Stat> {
    if m.contains_key(k) {
        Some(m[k])
    } else {
        None
    }
}

/// Combination of two mappings: keys of either, statistics of shared keys
/// combined element-wise.
pub open spec fn merge_maps(a: Map<Seq<u8>, Stat>, b: Map<Seq<u8>, Stat>) -> Map<Seq<u8>, Stat> {
    Map::new(
        |k: Seq<u8>| a.contains_key(k) || b.contains_key(k),
        |k: Seq<u8>| if b.contains_key(k) { join(lookup(a, k), b[k]) } else { a[k] },
    )
}

/// The counts of every shared key add up without leaving `u64`.
pub open spec fn mergeable(a: Map<Seq<u8>, Stat>, b: Map<Seq<u8>, Stat>) -> bool {
    forall|k: Seq<u8>|
        a.contains_key(k) && b.contains_key(k) ==> #[trigger] a[k].count + b[k].count <= u64::MAX
}

/// In sorted, duplicate-free keys, key `i` maps to statistic `i`.
pub proof fn lemma_entry(ks: Seq<Seq<u8>>, ss: Seq<Stat>, i: int)
    requires
        strictly_sorted(ks),
        ss.len() == ks.len(),
        0 <= i < ks.len(),
    ensures
        table_map(ks, ss).contains_key(ks[i]),
        table_map(ks, ss)[ks[i]] == ss[i],
        ks.index_of(ks[i]) == i,
{
    assert(ks.contains(ks[i]));
    let j = ks.index_of(ks[i]);
    if j < i {
        lemma_key_lt_irreflexive(ks[i]);
    } else if j > i {
        lemma_key_lt_irreflexive(ks[i]);
    }
}

proof fn lemma_push(ks: Seq<Seq<u8>>, ss: Seq<Stat>, k: Seq<u8>, s: Stat)
    requires
        strictly_sorted(ks.push(k)),
        ss.len() == ks.len(),
    ensures
        table_map(ks.push(k), ss.push(s)) == table_map(ks, ss).insert(k, s),
{
    let ks2 = ks.push(k);
    let ss2 = ss.push(s);
    assert(strictly_sorted(ks)) by {
        assert forall|i: int, j: int| 0 <= i < j < ks.len() implies key_lt(#[trigger] ks[i], #[trigger] ks[j]) by {
            assert(ks2[i] == ks[i] && ks2[j] == ks[j]);
        }
    }
    let m2 = table_map(ks2, ss2);
    let m1 = table_map(ks, ss).insert(k, s);
    assert forall|x: Seq<u8>| m2.contains_key(x) <==> m1.contains_key(x) by {
        if ks2.contains(x) {
            let i = ks2.index_of(x);
            if i < ks.len() {
                assert(ks[i] == x);
            }
        }
        if ks.contains(x) {
            let i = ks.index_of(x);
            assert(ks2[i] == x);
        }
        if x == k {
            assert(ks2[ks.len() as int] == x);
        }
    }
    assert forall|x: Seq<u8>| #[trigger] m2.contains_key(x) implies m2[x] == m1[x] by {
        if x == k {
            lemma_entry(ks2, ss2, ks.len() as int);
        } else {
            let i = ks.index_of(x);
            assert(ks.contains(x));
            lemma_entry(ks, ss, i);
            assert(ks2[i] == ks[i]);
            lemma_entry(ks2, ss2, i);
        }
    }
    assert(m2 =~= m1);
}

/// Per-key statistics, keys held in ascending byte order.
pub struct StationTable {
    pub(crate) keys: Vec<Vec<u8>>,
    pub(crate) stations: Vec<Station>,
}

impl StationTable {
    /// The keys, in the order held.
    pub closed spec fn key_seq(&self) -> Seq<Seq<u8>> {
        self.keys@.map_values(|k: Vec<u8>| k@)
    }

    /// The statistics, in the order of [`key_seq`](Self::key_seq).
    pub closed spec fn stat_seq(&self) -> Seq<Stat> {
        self.stations@.map_values(|s: Station| s@)
    }

    pub(crate) proof fn lemma_layout(&self)
        ensures
            self.key_seq().len() == self.keys@.len(),
            self.stat_seq().len() == self.stations@.len(),
            forall|i: int| 0 <= i < self.keys@.len() ==> #[trigger] self.key_seq()[i] == self.keys@[i]@,
            forall|i: int| 0 <= i < self.stations@.len() ==> #[trigger] self.stat_seq()[i] == self.stations@[i]@,
    {
    }

    /// Keys unique and ascending, one consistent statistic per key.
    pub open spec fn wf(&self) -> bool {
        &&& self.key_seq().len() == self.stat_seq().len()
        &&& strictly_sorted(self.key_seq())
        &&& forall|i: int| 0 <= i < self.stat_seq().len() ==> stat_ok(#[trigger] self.stat_seq()[i])
    }

    /// The table as a mapping from key to statistics.
    pub open spec fn view(&self) -> Map<Seq<u8>, Stat> {
        table_map(self.key_seq(), self.stat_seq())
    }

    /// Every statistic of a well-formed table is consistent.
    pub proof fn lemma_all_ok(&self)
        requires
            self.wf(),
        ensures
            forall|k: Seq<u8>| #[trigger] self.view().contains_key(k) ==> stat_ok(self.view()[k]),
    {
        assert forall|k: Seq<u8>| #[trigger] self.view().contains_key(k) implies stat_ok(self.view()[k]) by {
            lemma_entry(self.key_seq(), self.stat_seq(), self.key_seq().index_of(k));
        }
    }

    /// An empty table.
    pub fn new() -> (r: StationTable)
        ensures
            r.wf(),
            r.view() == Map::<Seq<u8>, Stat>::empty(),
    {
        let r = StationTable { keys: Vec::new(), stations: Vec::new() };
        assert(r.key_seq() =~= Seq::<Seq<u8>>::empty());
        assert(r.stat_seq() =~= Seq::<Stat>::empty());
        assert(r.view() =~= Map::<Seq<u8>, Stat>::empty());
        r
    }

    /// Number of keys.
    pub fn len(&self) -> (r: usize)
        ensures
            r == self.key_seq().len(),
    {
        self.keys.len()
    }

    /// Binary search: `(true, i)` where key `i` is `key`, else `(false, i)`
    /// where `i` is the position at which `key` would be inserted.
    fn find(&self, key: &[u8]) -> (r: (bool, usize))
        requires
            self.wf(),
        ensures
            r.1 <= self.key_seq().len(),
            r.0 ==> r.1 < self.key_seq().len() && self.key_seq()[r.1 as int] == key@,
            !r.0 ==> forall|j: int| 0 <= j < r.1 ==> key_lt(#[trigger] self.key_seq()[j], key@),
            !r.0 ==> forall|j: int| r.1 <= j < self.key_seq().len() ==> key_lt(key@, #[trigger] self.key_seq()[j]),
    {
        let ghost ks = self.key_seq();
        let mut lo: usize = 0;
        let mut hi: usize = self.keys.len();
        while lo < hi
            invariant
                self.wf(),
                ks == self.key_seq(),
                lo <= hi <= ks.len(),
                ks.len() == self.keys@.len(),
                forall|j: int| 0 <= j < lo ==> key_lt(#[trigger] ks[j], key@),
                forall|j: int| hi <= j < ks.len() ==> key_lt(key@, #[trigger] ks[j]),
            decreases hi - lo,
        {
            let mid = lo + (hi - lo) / 2;
            assert(ks[mid as int] == self.keys@[mid as int]@);
            match key_order(self.keys[mid].as_slice(), key) {
                KeyOrder::Equal => {
                    return (true, mid);
                },
                KeyOrder::Less => {
                    assert forall|j: int| 0 <= j < mid + 1 implies key_lt(#[trigger] ks[j], key@) by {
                        if j < mid {
                            lemma_key_lt_transitive(ks[j], ks[mid as int], key@);
                        }
                    }
                    lo = mid + 1;
                },
                KeyOrder::Greater => {
                    assert forall|j: int| mid <= j < ks.len() implies key_lt(key@, #[trigger] ks[j]) by {
                        if j > mid {
                            lemma_key_lt_transitive(key@, ks[mid as int], ks[j]);
                        }
                    }
                    hi = mid;
                },
            }
        }
        (false, lo)
    }

    /// The statistics held for `key`, if any.
    pub fn get(&self, key: &[u8]) -> (r: Option<Station>)
        requires
            self.wf(),
        ensures
            r is Some == self.view().contains_key(key@),
            r matches Some(s) ==> s@ == self.view()[key@],
    {
        let (found, i) = self.find(key);
        if found {
            proof {
                lemma_entry(self.key_seq(), self.stat_seq(), i as int);
            }
            Some(self.stations[i])
        } else {
            proof {
                if self.key_seq().contains(key@) {
                    let j = self.key_seq().index_of(key@);
                    lemma_key_lt_irreflexive(key@);
                }
            }
            None
        }
    }

    /// Adds statistics `st` to what the table holds for `key`: inserted when
    /// the key is new, combined element-wise otherwise.
    pub fn absorb(&mut self, key: &[u8], st: Station)
        requires
            old(self).wf(),
            stat_ok(st@),
            old(self).view().contains_key(key@) ==> old(self).view()[key@].count + st.count <= u64::MAX,
        ensures
            final(self).wf(),
            final(self).view() == old(self).view().insert(key@, join(lookup(old(self).view(), key@), st@)),
    {
        let ghost ks = self.key_seq();
        let ghost ss = self.stat_seq();
        let (found, i) = self.find(key);
        if found {
            proof {
                lemma_entry(ks, ss, i as int);
            }
            let cur = self.stations[i];
            let next = cur.combined(&st);
            self.stations.set(i, next);
            proof {
                let ss2 = self.stat_seq();
                assert(ss2 =~= ss.update(i as int, next@));
                assert(self.key_seq() =~= ks);
                assert forall|j: int| 0 <= j < ss2.len() implies stat_ok(#[trigger] ss2[j]) by {
                    if j != i {
                        assert(ss2[j] == ss[j]);
                    }
                }
                let m1 = table_map(ks, ss);
                let m2 = self.view();
                let m3 = m1.insert(key@, join(lookup(m1, key@), st@));
                assert forall|x: Seq<u8>| #[trigger] m2.contains_key(x) implies m2[x] == m3[x] by {
                    let j = ks.index_of(x);
                    lemma_entry(ks, ss2, j);
                    lemma_entry(ks, ss, j);
                }
                assert(m2 =~= m3);
            }
        } else {
            let kv = vstd::slice::slice_to_vec(key);
            self.keys.insert(i, kv);
            self.stations.insert(i, st);
            proof {
                let ks2 = self.key_seq();
                let ss2 = self.stat_seq();
                assert(ks2 =~= ks.insert(i as int, key@));
                assert(ss2 =~= ss.insert(i as int, st@));
                assert forall|a: int, b: int| 0 <= a < b < ks2.len() implies key_lt(#[trigger] ks2[a], #[trigger] ks2[b]) by {
                    if b < i {
                    } else if b == i {
                    } else if a < i {
                        lemma_key_lt_transitive(ks2[a], key@, ks2[b]);
                    } else if a == i {
                    } else {
                    }
                }
                assert forall|j: int| 0 <= j < ss2.len() implies stat_ok(#[trigger] ss2[j]) by {
                    if j < i {
                        assert(ss2[j] == ss[j]);
                    } else if j > i {
                        assert(ss2[j] == ss[j - 1]);
                    }
                }
                let m1 = table_map(ks, ss);
                let m2 = self.view();
                let m3 = m1.insert(key@, st@);
                assert(!m1.contains_key(key@)) by {
                    if ks.contains(key@) {
                        let j = ks.index_of(key@);
                        lemma_key_lt_irreflexive(key@);
                    }
                }
                assert forall|x: Seq<u8>| m2.contains_key(x) <==> m3.contains_key(x) by {
                    if ks2.contains(x) {
                        let j = ks2.index_of(x);
                        if j < i {
                            assert(ks[j] == x);
                        } else if j > i {
                            assert(ks[j - 1] == x);
                        }
                    }
                    if ks.contains(x) {
                        let j = ks.index_of(x);
                        if j < i {
                            assert(ks2[j] == x);
                        } else {
                            assert(ks2[j + 1] == x);
                        }
                    }
                    if x == key@ {
                        assert(ks2[i as int] == x);
                    }
                }
                assert forall|x: Seq<u8>| #[trigger] m2.contains_key(x) implies m2[x] == m3[x] by {
                    if x == key@ {
                        lemma_entry(ks2, ss2, i as int);
                    } else {
                        let j = ks.index_of(x);
                        lemma_entry(ks, ss, j);
                        if j < i {
                            lemma_entry(ks2, ss2, j);
                        } else {
                            assert(ks2[j + 1] == ks[j]);
                            lemma_entry(ks2, ss2, j + 1);
                        }
                    }
                }
                assert(m2 =~= m3);
            }
        }
    }

    /// Folds every entry of `other` into this table.
    pub fn merge(&mut self, other: &StationTable)
        requires
            old(self).wf(),
            other.wf(),
            mergeable(old(self).view(), other.view()),
        ensures
            final(self).wf(),
            final(self).view() == merge_maps(old(self).view(), other.view()),
    {
        let ghost start = self.view();
        let ghost oks = other.key_seq();
        let ghost oss = other.stat_seq();
        let n = other.keys.len();
        assert(table_map(oks.take(0), oss.take(0)) =~= Map::<Seq<u8>, Stat>::empty());
        assert(merge_maps(start, Map::<Seq<u8>, Stat>::empty()) =~= start);
        for i in 0..n
            invariant
                self.wf(),
                other.wf(),
                oks == other.key_seq(),
                oss == other.stat_seq(),
                n == oks.len(),
                n == other.stations@.len(),
                mergeable(start, other.view()),
                self.view() == merge_maps(start, table_map(oks.take(i as int), oss.take(i as int))),
        {
            let key = other.keys[i].as_slice();
            let st = other.stations[i];
            let ghost p = table_map(oks.take(i as int), oss.take(i as int));
            let ghost k = oks[i as int];
            proof {
                assert(key@ == k);
                assert(st@ == oss[i as int]);
                assert(!p.contains_key(k)) by {
                    if oks.take(i as int).contains(k) {
                        let j = oks.take(i as int).index_of(k);
                        lemma_key_lt_irreflexive(k);
                        assert(oks[j] == k);
                    }
                }
                lemma_entry(oks, oss, i as int);
            }
            self.absorb(key, st);
            proof {
                assert(oks.take(i + 1) =~= oks.take(i as int).push(k));
                assert(oss.take(i + 1) =~= oss.take(i as int).push(st@));
                assert(strictly_sorted(oks.take(i + 1))) by {
                    assert forall|a: int, b: int| 0 <= a < b < oks.take(i + 1).len() implies key_lt(#[trigger] oks.take(i + 1)[a], #[trigger] oks.take(i + 1)[b]) by {
                        assert(oks.take(i + 1)[a] == oks[a]);
                        assert(oks.take(i + 1)[b] == oks[b]);
                    }
                }
                assert(oks.take(i as int).len() == oss.take(i as int).len());
                lemma_push(oks.take(i as int), oss.take(i as int), k, st@);
                assert(self.view() =~= merge_maps(start, p.insert(k, st@)));
            }
        }
        proof {
            assert(oks.take(n as int) =~= oks);
            assert(oss.take(n as int) =~= oss);
        }
    }

    /// Whether [`merge`](Self::merge) may take `other`: the counts of every
    /// shared key add up without leaving `u64`.
    pub fn can_merge(&self, other: &StationTable) -> (r: bool)
        requires
            self.wf(),
            other.wf(),
        ensures
            r == mergeable(self.view(), other.view()),
    {
        let ghost oks = other.key_seq();
        let ghost oss = other.stat_seq();
        let n = other.keys.len();
        for i in 0..n
            invariant
                self.wf(),
                other.wf(),
                oks == other.key_seq(),
                oss == other.stat_seq(),
                n == oks.len(),
                n == other.stations@.len(),
                forall|j: int| 0 <= j < i ==> self.view().contains_key(#[trigger] oks[j]) ==> self.view()[oks[j]].count + oss[j].count <= u64::MAX,
        {
            let key = other.keys[i].as_slice();
            assert(key@ == oks[i as int]);
            match self.get(key) {
                Some(mine) => {
                    if mine.count > u64::MAX - other.stations[i].count {
                        proof {
                            lemma_entry(oks, oss, i as int);
                        }
                        return false;
                    }
                },
                None => {},
            }
        }
        proof {
            assert forall|k: Seq<u8>| self.view().contains_key(k) && other.view().contains_key(k) implies #[trigger] self.view()[k].count + other.view()[k].count <= u64::MAX by {
                let j = oks.index_of(k);
                lemma_entry(oks, oss, j);
            }
        }
        true
    }
}

} // verus!
