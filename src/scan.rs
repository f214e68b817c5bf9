use vstd::prelude::*;
use crate::number::{ScanError, parse_value, value_of, lemma_value_range};
use crate::stats::{Stat, Station, single, join, stat_ok};
use crate::table::{StationTable, lookup};

verus! {

/// ASCII `;`, between key and value.
pub const SEPARATOR: u8 = 59;

/// ASCII line feed, the end of a record.
pub const NEWLINE: u8 = 10;

/// Position of the first `c` at or after `i`, or the length if there is none.
pub open spec fn first_from(b: Seq<u8>, c: u8, i: int) -> int
    decreases b.len() - i,
{
    if i >= b.len() {
        b.len() as int
    } else if b[i] == c {
        i
    } else {
        first_from(b, c, i + 1)
    }
}

/// The first `c` from `i` on is at `r` when none lies in `i..r` and `r`
/// is the end or holds `c`.
pub proof fn lemma_first_from(b: Seq<u8>, c: u8, i: int, r: int)
    requires
        0 <= i <= r <= b.len(),
        forall|j: int| i <= j < r ==> b[j] != c,
        r == b.len() || b[r] == c,
    ensures
        first_from(b, c, i) == r,
    decreases r - i,
{
    if i < r {
        lemma_first_from(b, c, i + 1, r);
    }
}

/// The first `c` from `i` on lies in `i..=len`, with no `c` before it.
pub proof fn lemma_first_from_bounds(b: Seq<u8>, c: u8, i: int)
    requires
        0 <= i <= b.len(),
    ensures
        i <= first_from(b, c, i) <= b.len(),
        forall|j: int| i <= j < first_from(b, c, i) ==> b[j] != c,
        first_from(b, c, i) < b.len() ==> b[first_from(b, c, i)] == c,
    decreases b.len() - i,
{
    if i < b.len() && b[i] != c {
        lemma_first_from_bounds(b, c, i + 1);
    }
}

/// The records of `b` from offset `p` on, as (key, value in tenths) pairs.
///
/// A record is the key up to the first `;`, then a value field up to the
/// next line feed. Reading stops at the first offset after which no `;`
/// follows. `Err(q)` names the start of the first record that is
/// malformed: a line feed inside its key, no line feed after its value, or
/// a value that is not `[-]d.d` or `[-]dd.d`.
pub open spec fn records_from(b: Seq<u8>, p: int) -> Result<Seq<(Seq<u8>, int)>, int>
    decreases b.len() - p,
    when 0 <= p <= b.len()
    via records_from_decreases
{
    let s = first_from(b, SEPARATOR, p);
    let nl = first_from(b, NEWLINE, p);
    if s >= b.len() {
        Ok(Seq::empty())
    } else if nl < s || nl >= b.len() {
        Err(p)
    } else {
        match value_of(b.subrange(s + 1, nl)) {
            None => Err(p),
            Some(v) => {
                match records_from(b, nl + 1) {
                    Ok(rest) => Ok(seq![(b.subrange(p, s), v)] + rest),
                    Err(e) => Err(e),
                }
            },
        }
    }
}

#[via_fn]
proof fn records_from_decreases(b: Seq<u8>, p: int) {
    if 0 <= p <= b.len() {
        lemma_first_from_bounds(b, NEWLINE, p);
    }
}

/// From offset `p` on, `b` holds zero or more complete, well-formed records
/// and nothing else.
pub open spec fn whole_records(b: Seq<u8>, p: int) -> bool
    decreases b.len() - p,
    when 0 <= p <= b.len()
    via whole_records_decreases
{
    let s = first_from(b, SEPARATOR, p);
    let nl = first_from(b, NEWLINE, p);
    if p == b.len() {
        true
    } else if s >= b.len() || nl < s || nl >= b.len() {
        false
    } else {
        value_of(b.subrange(s + 1, nl)) is Some && whole_records(b, nl + 1)
    }
}

#[via_fn]
proof fn whole_records_decreases(b: Seq<u8>, p: int) {
    if 0 <= p <= b.len() {
        lemma_first_from_bounds(b, NEWLINE, p);
    }
}

/// A chunk: a buffer that starts at a record boundary and ends right after
/// a line terminator, holding only complete records.
pub open spec fn is_chunk(b: Seq<u8>) -> bool {
    whole_records(b, 0)
}

/// The records of a whole chunk.
pub open spec fn chunk_records(b: Seq<u8>) -> Result<Seq<(Seq<u8>, int)>, int> {
    records_from(b, 0)
}

/// Statistics of key `k` over a sequence of records, if it occurs.
pub open spec fn stat_of(recs: Seq<(Seq<u8>, int)>, k: Seq<u8>) -> Option<Stat>
    decreases recs.len(),
{
    if recs.len() == 0 {
        None
    } else {
        let prev = stat_of(recs.drop_last(), k);
        if recs.last().0 == k {
            Some(join(prev, single(recs.last().1)))
        } else {
            prev
        }
    }
}

/// The mapping from each key that occurs in `recs` to its statistics.
pub open spec fn summary(recs: Seq<(Seq<u8>, int)>) -> Map<Seq<u8>, Stat> {
    Map::new(|k: Seq<u8>| stat_of(recs, k) is Some, |k: Seq<u8>| stat_of(recs, k)->Some_0)
}

/// One more record changes the summary at its own key only.
pub proof fn lemma_summary_push(recs: Seq<(Seq<u8>, int)>, r: (Seq<u8>, int))
    ensures
        summary(recs.push(r)) == summary(recs).insert(r.0, join(lookup(summary(recs), r.0), single(r.1))),
{
    assert(recs.push(r).drop_last() =~= recs);
    assert(summary(recs.push(r)) =~= summary(recs).insert(r.0, join(lookup(summary(recs), r.0), single(r.1))));
}

spec fn prepend(done: Seq<(Seq<u8>, int)>, r: Result<Seq<(Seq<u8>, int)>, int>) -> Result<Seq<(Seq<u8>, int)>, int> {
    match r {
        Ok(rest) => Ok(done + rest),
        Err(e) => Err(e),
    }
}

/// Reads every record of a chunk and gathers per-key statistics.
///
/// Succeeds exactly when the chunk's records are well formed, with the
/// statistics of those records; otherwise reports the offset of the first
/// malformed record. Text after the last record that holds no `;` (such as
/// a blank line closing the chunk) is not a record and is ignored.
pub fn process_task(chunk: &[u8]) -> (r: Result<StationTable, ScanError>)
    ensures
        match chunk_records(chunk@) {
            Ok(recs) => r matches Ok(t) && t.wf() && t.view() == summary(recs),
            Err(off) => r == Err::<StationTable, ScanError>(ScanError::MalformedRecord(off as usize)),
        },
{
    let ghost b = chunk@;
    let len = chunk.len();
    let mut table = StationTable::new();
    let mut p: usize = 0;
    let ghost mut done: Seq<(Seq<u8>, int)> = Seq::empty();
    assert(done + Seq::<(Seq<u8>, int)>::empty() =~= done);
    assert(summary(done) =~= Map::<Seq<u8>, Stat>::empty());
    assert(prepend(done, records_from(b, 0)) == records_from(b, 0)) by {
        if let Ok(x) = records_from(b, 0) {
            assert(done + x =~= x);
        }
    }
    loop
        invariant
            b == chunk@,
            len == b.len(),
            p <= len,
            table.wf(),
            table.view() == summary(done),
            prepend(done, records_from(b, p as int)) == records_from(b, 0),
            forall|k: Seq<u8>| #[trigger] table.view().contains_key(k) ==> table.view()[k].count <= p,
        decreases len - p,
    {
        let mut s = p;
        while s < len && chunk[s] != SEPARATOR
            invariant
                p <= s <= len,
                len == chunk@.len(),
                forall|j: int| p <= j < s ==> chunk@[j] != SEPARATOR,
            decreases len - s,
        {
            s = s + 1;
        }
        proof {
            lemma_first_from(b, SEPARATOR, p as int, s as int);
        }
        if s == len {
            assert(done + Seq::<(Seq<u8>, int)>::empty() =~= done);
            return Ok(table);
        }
        let mut nl = p;
        while nl < len && chunk[nl] != NEWLINE
            invariant
                p <= nl <= len,
                len == chunk@.len(),
                forall|j: int| p <= j < nl ==> chunk@[j] != NEWLINE,
            decreases len - nl,
        {
            nl = nl + 1;
        }
        proof {
            lemma_first_from(b, NEWLINE, p as int, nl as int);
        }
        if nl < s || nl == len {
            return Err(ScanError::MalformedRecord(p));
        }
        let value = match parse_value(&chunk[s + 1..nl]) {
            Some(v) => v,
            None => {
                return Err(ScanError::MalformedRecord(p));
            },
        };
        let key = &chunk[p..s];
        let ghost rec = (key@, value as int);
        proof {
            lemma_value_range(b.subrange(s + 1, nl as int));
            lemma_summary_push(done, rec);
        }
        table.absorb(key, Station::from_value(value));
        proof {
            let rest = records_from(b, nl + 1);
            if let Ok(x) = rest {
                assert(done + (seq![rec] + x) =~= done.push(rec) + x);
            }
            done = done.push(rec);
        }
        p = nl + 1;
    }
}

} // verus!
