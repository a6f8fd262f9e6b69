//! Small helpers on bytes.
use vstd::prelude::*;
use crate::arrange::{
    arrange, arrange_cards, count_of, lemma_arrange_sorted, lemma_count_arrange,
    lemma_count_multiset, times,
};

verus! {

broadcast use vstd::seq_lib::group_seq_properties;

/// All 256 byte values in increasing order.
pub open spec fn byte_order() -> Seq<u8> {
    Seq::new(256, |i: int| i as u8)
}

proof fn lemma_byte_order_counts(k: int, c: u8)
    requires
        0 <= k <= 256,
    ensures
        count_of(byte_order().take(k), c) == if (c as int) < k { 1nat } else { 0nat },
    decreases k,
{
    if k > 0 {
        lemma_byte_order_counts(k - 1, c);
        assert(byte_order().take(k).drop_last() =~= byte_order().take(k - 1));
    }
}

fn byte_order_vec() -> (v: Vec<u8>)
    ensures
        v@ == byte_order(),
{
    let mut v: Vec<u8> = Vec::new();
    let mut i: u16 = 0;
    while i < 256
        invariant
            0 <= i <= 256,
            v@ == byte_order().take(i as int),
        decreases 256 - i,
    {
        v.push(i as u8);
        i = i + 1;
        assert(v@ =~= byte_order().take(i as int));
    }
    assert(byte_order().take(256) =~= byte_order());
    v
}

/// The bytes of `v` in increasing order.
pub fn sort_bytes(v: &Vec<u8>) -> (s: Vec<u8>)
    ensures
        s@.to_multiset() == v@.to_multiset(),
        forall|i: int, j: int| 0 <= i < j < s@.len() ==> s@[i] <= s@[j],
{
    let order = byte_order_vec();
    let s = arrange_cards(&order, v, v.len(), false);
    proof {
        assert(v@.take(v.len() as int) =~= v@);
        assert forall|i: int, j: int| 0 <= i < j < order@.len() implies order@[i] < order@[j] by {}
        lemma_arrange_sorted(order@, v@, false);
        assert forall|c: u8| #[trigger] s@.to_multiset().count(c) == v@.to_multiset().count(c) by {
            lemma_count_arrange(order@, v@, false, c);
            lemma_byte_order_counts(256, c);
            assert(byte_order().take(256) =~= byte_order());
            assert(count_of(order@, c) == 1);
            assert(times(v@, c, false) == count_of(v@, c));
            assert(s@ == arrange(order@, v@, false));
            assert(count_of(s@, c) == count_of(order@, c) * times(v@, c, false));
            let k = count_of(order@, c);
            let t = times(v@, c, false);
            assert(k * t == t) by (nonlinear_arith)
                requires
                    k == 1,
            ;
            assert(count_of(s@, c) == count_of(v@, c));
            lemma_count_multiset(s@, c);
            lemma_count_multiset(v@, c);
        }
        assert(s@.to_multiset() =~= v@.to_multiset());
    }
    s
}

} // verus!
