use vstd::prelude::*;
use crate::number::{fmt_tenths, push_tenths};
use crate::stats::{Stat, mean_tenths, stat_ok};
use crate::table::StationTable;

verus! {

/// ASCII `{`, opens the summary.
pub const OPEN: u8 = 123;

/// ASCII `}`, closes the summary.
pub const CLOSE: u8 = 125;

/// ASCII `=`, between a key and its statistics.
pub const EQUALS: u8 = 61;

/// ASCII `/`, between minimum, mean and maximum.
pub const SLASH: u8 = 47;

/// ASCII `,`, after every entry.
pub const COMMA: u8 = 44;

/// `key=min/mean/max,` with each value written with one fractional digit.
pub open spec fn entry_text(k: Seq<u8>, s: Stat) -> Seq<u8> {
    k + seq![EQUALS] + fmt_tenths(s.min) + seq![SLASH] + fmt_tenths(mean_tenths(s)) + seq![SLASH]
        + fmt_tenths(s.max) + seq![COMMA]
}

/// The entries of parallel key and statistic sequences, in order.
pub open spec fn entries_text(ks: Seq<Seq<u8>>, ss: Seq<Stat>) -> Seq<u8>
    decreases ks.len(),
{
    if ks.len() == 0 {
        Seq::empty()
    } else {
        entries_text(ks.drop_last(), ss.drop_last()) + entry_text(ks.last(), ss[ks.len() - 1])
    }
}

/// The whole summary: `{`, every entry in order, `}`.
pub open spec fn render(ks: Seq<Seq<u8>>, ss: Seq<Stat>) -> Seq<u8> {
    seq![OPEN] + entries_text(ks, ss) + seq![CLOSE]
}

fn push_bytes(out: &mut Vec<u8>, bytes: &[u8])
    ensures
        final(out)@ == old(out)@ + bytes@,
{
    let ghost start = out@;
    for i in 0..bytes.len()
        invariant
            out@ == start + bytes@.take(i as int),
    {
        out.push(bytes[i]);
        assert(bytes@.take(i + 1) =~= bytes@.take(i as int).push(bytes@[i as int]));
        assert(out@ =~= start + bytes@.take(i + 1));
    }
    assert(bytes@.take(bytes@.len() as int) =~= bytes@);
}

impl StationTable {
    /// The summary text: `{`, then `key=min/mean/max,` for every key in
    /// ascending byte order, then `}`. Means are rounded half up to tenths.
    pub fn report(&self) -> (r: Vec<u8>)
        requires
            self.wf(),
        ensures
            r@ == render(self.key_seq(), self.stat_seq()),
    {
        let ghost ks = self.key_seq();
        let ghost ss = self.stat_seq();
        proof {
            self.lemma_layout();
        }
        let mut out: Vec<u8> = Vec::new();
        out.push(OPEN);
        let n = self.keys.len();
        assert(ks.take(0) =~= Seq::<Seq<u8>>::empty());
        for i in 0..n
            invariant
                self.wf(),
                ks == self.key_seq(),
                ss == self.stat_seq(),
                n == ks.len(),
                n == self.stations@.len(),
                out@ == seq![OPEN] + entries_text(ks.take(i as int), ss.take(i as int)),
        {
            proof {
                self.lemma_layout();
            }
            let st = self.stations[i];
            assert(st@ == ss[i as int]);
            assert(stat_ok(ss[i as int]));
            let key = self.keys[i].as_slice();
            assert(key@ == ks[i as int]);
            let ghost before = out@;
            push_bytes(&mut out, key);
            out.push(EQUALS);
            push_tenths(&mut out, st.min);
            out.push(SLASH);
            push_tenths(&mut out, st.mean());
            out.push(SLASH);
            push_tenths(&mut out, st.max);
            out.push(COMMA);
            proof {
                let kt = ks.take(i + 1);
                let st2 = ss.take(i + 1);
                assert(kt.drop_last() =~= ks.take(i as int));
                assert(st2.drop_last() =~= ss.take(i as int));
                assert(out@ =~= before + entry_text(ks[i as int], ss[i as int]));
            }
        }
        out.push(CLOSE);
        proof {
            assert(ks.take(n as int) =~= ks);
            assert(ss.take(n as int) =~= ss);
        }
        out
    }
}

} // verus!
