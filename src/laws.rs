use vstd::prelude::*;
use crate::scan::{
    chunk_records, first_from, is_chunk, lemma_first_from, lemma_first_from_bounds,
    lemma_summary_push, records_from, summary, whole_records, NEWLINE, SEPARATOR,
};
use crate::stats::{Stat, mean_tenths, lemma_mean_between};
use crate::table::{StationTable, merge_maps, strictly_sorted, lemma_entry};
use crate::keys::{key_lt, lemma_key_lt_irreflexive, lemma_key_lt_total};

verus! {

proof fn lemma_first_in_suffix(a: Seq<u8>, b: Seq<u8>, c: u8, q: int)
    requires
        0 <= q <= b.len(),
    ensures
        first_from(a + b, c, a.len() + q) == a.len() + first_from(b, c, q),
{
    lemma_first_from_bounds(b, c, q);
    let f = first_from(b, c, q);
    assert forall|j: int| a.len() + q <= j < a.len() + f implies (a + b)[j] != c by {
        assert((a + b)[j] == b[j - a.len()]);
    }
    if f < b.len() {
        assert((a + b)[a.len() + f] == b[f]);
    }
    lemma_first_from(a + b, c, a.len() + q, a.len() + f);
}

proof fn lemma_first_in_prefix(a: Seq<u8>, b: Seq<u8>, c: u8, p: int)
    requires
        0 <= p <= a.len(),
        first_from(a, c, p) < a.len(),
    ensures
        first_from(a + b, c, p) == first_from(a, c, p),
{
    lemma_first_from_bounds(a, c, p);
    let f = first_from(a, c, p);
    assert forall|j: int| p <= j < f implies (a + b)[j] != c by {
        assert((a + b)[j] == a[j]);
    }
    assert((a + b)[f] == a[f]);
    lemma_first_from(a + b, c, p, f);
}

proof fn lemma_records_suffix(a: Seq<u8>, b: Seq<u8>, q: int)
    requires
        0 <= q <= b.len(),
        records_from(b, q) is Ok,
    ensures
        records_from(a + b, a.len() + q) == records_from(b, q),
    decreases b.len() - q,
{
    let ab = a + b;
    let n = a.len();
    lemma_first_in_suffix(a, b, SEPARATOR, q);
    lemma_first_in_suffix(a, b, NEWLINE, q);
    lemma_first_from_bounds(b, SEPARATOR, q);
    lemma_first_from_bounds(b, NEWLINE, q);
    let s = first_from(b, SEPARATOR, q);
    let nl = first_from(b, NEWLINE, q);
    if s < b.len() && nl >= s && nl < b.len() {
        assert(ab.subrange(n + s + 1, n + nl) =~= b.subrange(s + 1, nl));
        assert(ab.subrange(n + q, n + s) =~= b.subrange(q, s));
        lemma_records_suffix(a, b, nl + 1);
    }
}

proof fn lemma_records_prefix(a: Seq<u8>, b: Seq<u8>, p: int)
    requires
        0 <= p <= a.len(),
        whole_records(a, p),
        records_from(b, 0) is Ok,
    ensures
        records_from(a, p) is Ok,
        records_from(a + b, p) == Ok::<Seq<(Seq<u8>, int)>, int>(
            records_from(a, p)->Ok_0 + records_from(b, 0)->Ok_0,
        ),
    decreases a.len() - p,
{
    let ab = a + b;
    if p == a.len() {
        lemma_records_suffix(a, b, 0);
        lemma_first_from_bounds(a, SEPARATOR, p);
        assert(Seq::<(Seq<u8>, int)>::empty() + records_from(b, 0)->Ok_0 =~= records_from(b, 0)->Ok_0);
    } else {
        lemma_first_from_bounds(a, SEPARATOR, p);
        lemma_first_from_bounds(a, NEWLINE, p);
        let s = first_from(a, SEPARATOR, p);
        let nl = first_from(a, NEWLINE, p);
        lemma_first_in_prefix(a, b, SEPARATOR, p);
        lemma_first_in_prefix(a, b, NEWLINE, p);
        assert(ab.subrange(s + 1, nl) =~= a.subrange(s + 1, nl));
        assert(ab.subrange(p, s) =~= a.subrange(p, s));
        lemma_records_prefix(a, b, nl + 1);
        let rec = (a.subrange(p, s), crate::number::value_of(a.subrange(s + 1, nl))->Some_0);
        let ra = records_from(a, nl + 1)->Ok_0;
        let rb = records_from(b, 0)->Ok_0;
        assert(seq![rec] + (ra + rb) =~= (seq![rec] + ra) + rb);
    }
}

proof fn lemma_summary_concat(r1: Seq<(Seq<u8>, int)>, r2: Seq<(Seq<u8>, int)>)
    ensures
        summary(r1 + r2) == merge_maps(summary(r1), summary(r2)),
    decreases r2.len(),
{
    if r2.len() == 0 {
        assert(r1 + r2 =~= r1);
        assert(summary(r2) =~= Map::<Seq<u8>, Stat>::empty());
        assert(merge_maps(summary(r1), summary(r2)) =~= summary(r1));
    } else {
        let r2p = r2.drop_last();
        let x = r2.last();
        lemma_summary_concat(r1, r2p);
        assert(r1 + r2 =~= (r1 + r2p).push(x));
        assert(r2 =~= r2p.push(x));
        lemma_summary_push(r1 + r2p, x);
        lemma_summary_push(r2p, x);
        assert(summary(r1 + r2) =~= merge_maps(summary(r1), summary(r2)));
    }
}

/// Splitting a chunk into two chunks at a record boundary, reading each and
/// merging the two mappings gives the mapping of the whole: when `a` holds
/// only complete records and `b` reads without error, `a + b` reads
/// without error, its records are those of `a` followed by those of `b`,
/// and its summary is the merge of the two summaries.
pub proof fn lemma_split_invariant(a: Seq<u8>, b: Seq<u8>)
    requires
        is_chunk(a),
        chunk_records(b) is Ok,
    ensures
        chunk_records(a) is Ok,
        chunk_records(a + b) == Ok::<Seq<(Seq<u8>, int)>, int>(
            chunk_records(a)->Ok_0 + chunk_records(b)->Ok_0,
        ),
        summary(chunk_records(a + b)->Ok_0) == merge_maps(
            summary(chunk_records(a)->Ok_0),
            summary(chunk_records(b)->Ok_0),
        ),
{
    lemma_records_prefix(a, b, 0);
    lemma_summary_concat(chunk_records(a)->Ok_0, chunk_records(b)->Ok_0);
}

/// Merging a mapping with an empty one, on either side, leaves it unchanged.
pub proof fn lemma_merge_empty(m: Map<Seq<u8>, Stat>)
    ensures
        merge_maps(m, Map::empty()) == m,
        merge_maps(Map::empty(), m) == m,
{
    assert(merge_maps(m, Map::empty()) =~= m);
    assert(merge_maps(Map::empty(), m) =~= m);
}

/// Every key of a well-formed table has at least one observation and a
/// rounded mean between its minimum and maximum.
pub proof fn lemma_stats_consistent(t: &StationTable)
    requires
        t.wf(),
    ensures
        forall|k: Seq<u8>| #[trigger] t.view().contains_key(k) ==> {
            let s = t.view()[k];
            s.count >= 1 && s.min <= mean_tenths(s) <= s.max
        },
{
    t.lemma_all_ok();
    assert forall|k: Seq<u8>| #[trigger] t.view().contains_key(k) implies {
        let s = t.view()[k];
        s.count >= 1 && s.min <= mean_tenths(s) <= s.max
    } by {
        lemma_mean_between(t.view()[k]);
    }
}

proof fn lemma_sorted_unique(ks1: Seq<Seq<u8>>, ks2: Seq<Seq<u8>>)
    requires
        strictly_sorted(ks1),
        strictly_sorted(ks2),
        forall|k: Seq<u8>| ks1.contains(k) <==> ks2.contains(k),
    ensures
        ks1 == ks2,
    decreases ks1.len(),
{
    if ks1.len() == 0 {
        if ks2.len() > 0 {
            assert(ks2.contains(ks2[0]));
        }
        assert(ks1 =~= ks2);
    } else {
        let n1 = ks1.len() - 1;
        let x = ks1[n1];
        assert(ks1.contains(x));
        let n2 = ks2.len() - 1;
        let y = ks2[n2];
        assert(ks2.contains(y));
        if x != y {
            let j = ks2.index_of(x);
            let i = ks1.index_of(y);
            assert(key_lt(x, y));
            assert(key_lt(y, x));
            lemma_key_lt_total(x, y);
        }
        let a = ks1.drop_last();
        let b = ks2.drop_last();
        assert forall|k: Seq<u8>| a.contains(k) <==> b.contains(k) by {
            if a.contains(k) {
                let i = a.index_of(k);
                assert(ks1.contains(k));
                assert(key_lt(k, x));
                lemma_key_lt_irreflexive(x);
                let j = ks2.index_of(k);
                assert(j != n2);
                assert(b[j] == k);
            }
            if b.contains(k) {
                let j = b.index_of(k);
                assert(ks2.contains(k));
                assert(key_lt(k, y));
                lemma_key_lt_irreflexive(y);
                let i = ks1.index_of(k);
                assert(i != n1);
                assert(a[i] == k);
            }
        }
        lemma_sorted_unique(a, b);
        assert(ks1 =~= a.push(x));
        assert(ks2 =~= b.push(y));
    }
}

/// The summary text depends on the mapping alone: two well-formed tables
/// with the same mapping hold the same keys and statistics in the same
/// order, so their reports are equal.
pub proof fn lemma_view_determines_report(t1: &StationTable, t2: &StationTable)
    requires
        t1.wf(),
        t2.wf(),
        t1.view() == t2.view(),
    ensures
        t1.key_seq() == t2.key_seq(),
        t1.stat_seq() == t2.stat_seq(),
{
    let ks1 = t1.key_seq();
    let ks2 = t2.key_seq();
    assert forall|k: Seq<u8>| ks1.contains(k) <==> ks2.contains(k) by {
        assert(t1.view().contains_key(k) == ks1.contains(k));
        assert(t2.view().contains_key(k) == ks2.contains(k));
    }
    lemma_sorted_unique(ks1, ks2);
    assert forall|i: int| 0 <= i < ks1.len() implies t1.stat_seq()[i] == t2.stat_seq()[i] by {
        lemma_entry(ks1, t1.stat_seq(), i);
        lemma_entry(ks2, t2.stat_seq(), i);
    }
    assert(t1.stat_seq() =~= t2.stat_seq());
}

} // verus!
