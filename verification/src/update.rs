//! The in-memory record of one market event.

use vstd::prelude::*;

verus! {

/// One market event.
///
/// `price` and `size` hold the bit patterns of IEEE-754 single-precision
/// numbers; the codec stores them verbatim and never interprets them.
#[derive(Debug, Clone, Copy, PartialEq, Eq, Structural)]
pub struct Update {
    pub ts: u32,
    pub seq: u16,
    pub is_trade: bool,
    pub is_bid: bool,
    pub price: u32,
    pub size: u32,
}

/// The largest timestamp in `s`, or 0 when `s` is empty.
pub open spec fn max_ts(s: Seq<Update>) -> u32
    decreases s.len(),
{
    if s.len() == 0 {
        0
    } else {
        let rest = max_ts(s.drop_last());
        if s.last().ts > rest {
            s.last().ts
        } else {
            rest
        }
    }
}

/// Returns the largest timestamp among `updates`, or 0 for an empty slice.
pub fn get_max_ts(updates: &[Update]) -> (max: u32)
    ensures
        max == max_ts(updates@),
        forall|i: int| 0 <= i < updates@.len() ==> (#[trigger] updates@[i]).ts <= max,
        updates@.len() > 0 ==> exists|i: int|
            0 <= i < updates@.len() && (#[trigger] updates@[i]).ts == max,
        updates@.len() == 0 ==> max == 0,
{
    let mut max: u32 = 0;
    let mut i: usize = 0;
    while i < updates.len()
        invariant
            i <= updates.len(),
            max == max_ts(updates@.take(i as int)),
        decreases updates.len() - i,
    {
        let current = updates[i].ts;
        proof {
            assert(updates@.take(i + 1).drop_last() =~= updates@.take(i as int));
        }
        if current > max {
            max = current;
        }
        i += 1;
    }
    proof {
        assert(updates@.take(i as int) =~= updates@);
        lemma_max_ts(updates@);
    }
    max
}

/// No timestamp in `s` exceeds `max_ts(s)`, and unless `s` is empty, one
/// of them equals it.
pub proof fn lemma_max_ts(s: Seq<Update>)
    ensures
        forall|i: int| 0 <= i < s.len() ==> (#[trigger] s[i]).ts <= max_ts(s),
        s.len() > 0 ==> exists|i: int| 0 <= i < s.len() && (#[trigger] s[i]).ts == max_ts(s),
        s.len() == 0 ==> max_ts(s) == 0,
    decreases s.len(),
{
    if s.len() > 0 {
        let init = s.drop_last();
        lemma_max_ts(init);
        assert forall|i: int| 0 <= i < s.len() implies (#[trigger] s[i]).ts <= max_ts(s) by {
            if i < init.len() {
                assert(init[i] == s[i]);
            }
        }
        if s.last().ts > max_ts(init) || init.len() == 0 {
            assert(s[s.len() - 1].ts == max_ts(s));
        } else {
            let i = choose|i: int| 0 <= i < init.len() && (#[trigger] init[i]).ts == max_ts(init);
            assert(s[i].ts == max_ts(s));
        }
    }
}

} // verus!
