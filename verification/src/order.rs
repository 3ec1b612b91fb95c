//! The order of updates: by sequence number alone.

use crate::update::Update;
use std::cmp::Ordering;
use vstd::prelude::*;
use vstd::std_specs::cmp::PartialOrdSpec;

verus! {

/// Updates compare by their sequence numbers and by nothing else: two
/// updates with the same sequence number compare equal even when they
/// differ in every other field, the timestamp included. (`==` still
/// compares every field.)
impl PartialOrd for Update {
    fn partial_cmp(&self, other: &Update) -> (r: Option<Ordering>) {
        if self.seq > other.seq {
            Some(Ordering::Greater)
        } else if self.seq == other.seq {
            Some(Ordering::Equal)
        } else {
            Some(Ordering::Less)
        }
    }
}

impl vstd::std_specs::cmp::PartialOrdSpecImpl for Update {
    open spec fn obeys_partial_cmp_spec() -> bool {
        true
    }

    open spec fn partial_cmp_spec(&self, other: &Update) -> Option<Ordering> {
        if self.seq > other.seq {
            Some(Ordering::Greater)
        } else if self.seq == other.seq {
            Some(Ordering::Equal)
        } else {
            Some(Ordering::Less)
        }
    }
}

/// Whether the sequence numbers of `ups` never decrease from one update
/// to the next.
pub open spec fn sorted(ups: Seq<Update>) -> bool {
    forall|i: int, j: int|
        0 <= i <= j < ups.len() ==> (#[trigger] ups[i]).seq <= (#[trigger] ups[j]).seq
}

/// The updates of `ups` that have the sequence number `k`, in the order
/// in which they stand in `ups`.
pub open spec fn with_sequence(ups: Seq<Update>, k: u16) -> Seq<Update> {
    ups.filter(|u: Update| u.seq == k)
}

/// The order is decided by the sequence numbers: every pair of updates is
/// comparable, `a < b` exactly when `a` has the smaller sequence number,
/// and equal sequence numbers compare equal whatever else differs.
pub proof fn lemma_order_by_sequence(a: Update, b: Update)
    ensures
        a.partial_cmp_spec(&b) == Some(Ordering::Less) <==> a.seq < b.seq,
        a.partial_cmp_spec(&b) == Some(Ordering::Equal) <==> a.seq == b.seq,
        a.partial_cmp_spec(&b) == Some(Ordering::Greater) <==> a.seq > b.seq,
        a.partial_cmp_spec(&b) is Some,
{
}

/// `sort_by_key` of std's slices, with the sequence number as the key:
/// the updates are rearranged so that their sequence numbers never
/// decrease, and updates with the same sequence number keep the order they
/// had, as std documents of this stable sort.
#[verifier::external_body]
pub(crate) fn sort_by_sequence(ups: &mut Vec<Update>)
    ensures
        final(ups)@.to_multiset() == old(ups)@.to_multiset(),
        sorted(final(ups)@),
        forall|k: u16| #[trigger] with_sequence(final(ups)@, k) == with_sequence(old(ups)@, k),
{
    ups.sort_by_key(|u| u.seq);
}

} // verus!
