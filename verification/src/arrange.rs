//! Putting cards into a fixed order.
//!
//! Every way the game sorts cards (a hand for a game, the three cards of a
//! trick) lists the cards in the order of a fixed sequence of the 32 cards:
//! each card of that sequence appears as often as it is held. In Null and in
//! Sächsische Spitze a ten is listed at most once, however often it is held.
use vstd::multiset::Multiset;
use vstd::prelude::*;

verus! {

broadcast use vstd::seq_lib::group_seq_properties;

/// Number of occurrences of `c` in `s`.
pub open spec fn count_of(s: Seq<u8>, c: u8) -> nat
    decreases s.len(),
{
    if s.len() == 0 {
        0
    } else {
        count_of(s.drop_last(), c) + if s.last() == c {
            1nat
        } else {
            0nat
        }
    }
}

/// `n` copies of `c`.
pub open spec fn repeat(c: u8, n: nat) -> Seq<u8> {
    Seq::new(n, |_i: int| c)
}

/// How often card `c` is listed when the cards `s` are arranged: as often as
/// it occurs, except that with `cap_tens` a ten (face 1) is listed at most once.
pub open spec fn times(s: Seq<u8>, c: u8, cap_tens: bool) -> nat {
    if cap_tens && c % 8 == 1 && count_of(s, c) > 1 {
        1
    } else {
        count_of(s, c)
    }
}

/// The cards `s` listed in the order given by `order`.
pub open spec fn arrange(order: Seq<u8>, s: Seq<u8>, cap_tens: bool) -> Seq<u8>
    decreases order.len(),
{
    if order.len() == 0 {
        Seq::empty()
    } else {
        arrange(order.drop_last(), s, cap_tens) + repeat(order.last(), times(s, order.last(), cap_tens))
    }
}

/// The sequence holds every card of the deck exactly once, and nothing else.
pub open spec fn is_card_order(order: Seq<u8>) -> bool {
    forall|c: u8| #[trigger] count_of(order, c) == if c < 32 { 1nat } else { 0nat }
}

pub proof fn lemma_count_concat(a: Seq<u8>, b: Seq<u8>, c: u8)
    ensures
        count_of(a + b, c) == count_of(a, c) + count_of(b, c),
    decreases b.len(),
{
    if b.len() == 0 {
        assert(a + b =~= a);
    } else {
        lemma_count_concat(a, b.drop_last(), c);
        assert((a + b).drop_last() =~= a + b.drop_last());
    }
}

pub proof fn lemma_count_repeat(x: u8, n: nat, c: u8)
    ensures
        count_of(repeat(x, n), c) == if x == c { n } else { 0 },
    decreases n,
{
    if n > 0 {
        lemma_count_repeat(x, (n - 1) as nat, c);
        assert(repeat(x, n).drop_last() =~= repeat(x, (n - 1) as nat));
    }
}

/// A card is listed as often as it occurs in the order, times how often it is held.
pub proof fn lemma_count_arrange(order: Seq<u8>, s: Seq<u8>, cap_tens: bool, c: u8)
    ensures
        count_of(arrange(order, s, cap_tens), c) == count_of(order, c) * times(s, c, cap_tens),
    decreases order.len(),
{
    if order.len() == 0 {
        assert(count_of(order, c) == 0);
        assert(0 * times(s, c, cap_tens) == 0);
    } else {
        let rest = order.drop_last();
        let x = order.last();
        lemma_count_arrange(rest, s, cap_tens, c);
        assert(arrange(order, s, cap_tens) == arrange(rest, s, cap_tens) + repeat(x, times(s, x, cap_tens)));
        lemma_count_concat(arrange(rest, s, cap_tens), repeat(x, times(s, x, cap_tens)), c);
        lemma_count_repeat(x, times(s, x, cap_tens), c);
        let a = count_of(rest, c);
        let t = times(s, c, cap_tens);
        if x == c {
            assert(a * t + t == (a + 1) * t) by (nonlinear_arith);
            assert(count_of(order, c) == a + 1);
        } else {
            assert(count_of(order, c) == a);
        }
    }
}

/// The count of a sequence is the count of its multiset.
pub proof fn lemma_count_multiset(s: Seq<u8>, c: u8)
    ensures
        count_of(s, c) == s.to_multiset().count(c),
    decreases s.len(),
{
    if s.len() == 0 {
        assert(s.to_multiset() =~= Multiset::empty());
    } else {
        lemma_count_multiset(s.drop_last(), c);
        assert(s.drop_last().push(s.last()) =~= s);
        s.drop_last().to_multiset_ensures();
    }
}

/// The arrangement depends only on how often each card is listed.
pub proof fn lemma_arrange_ext(order: Seq<u8>, s1: Seq<u8>, s2: Seq<u8>, cap_tens: bool)
    requires
        forall|c: u8| #[trigger] times(s1, c, cap_tens) == times(s2, c, cap_tens),
    ensures
        arrange(order, s1, cap_tens) == arrange(order, s2, cap_tens),
    decreases order.len(),
{
    if order.len() > 0 {
        lemma_arrange_ext(order.drop_last(), s1, s2, cap_tens);
        assert(times(s1, order.last(), cap_tens) == times(s2, order.last(), cap_tens));
    }
}

/// With an order of the whole deck, an arranged sequence holds each card
/// as often as `times` says, and no number that is not a card.
pub proof fn lemma_arrange_counts(order: Seq<u8>, s: Seq<u8>, cap_tens: bool, c: u8)
    requires
        is_card_order(order),
    ensures
        count_of(arrange(order, s, cap_tens), c) == if c < 32 { times(s, c, cap_tens) } else { 0 },
{
    lemma_count_arrange(order, s, cap_tens, c);
    assert(count_of(order, c) == if c < 32 { 1nat } else { 0nat });
}

/// Arranging an arranged sequence again changes nothing, if all the
/// arranged numbers are cards.
pub proof fn lemma_arrange_idempotent(order: Seq<u8>, s: Seq<u8>, cap_tens: bool)
    requires
        is_card_order(order),
        forall|i: int| 0 <= i < s.len() ==> #[trigger] s[i] < 32,
    ensures
        arrange(order, arrange(order, s, cap_tens), cap_tens) == arrange(order, s, cap_tens),
{
    let out = arrange(order, s, cap_tens);
    assert forall|c: u8| #[trigger] times(out, c, cap_tens) == times(s, c, cap_tens) by {
        lemma_arrange_counts(order, s, cap_tens, c);
        if c >= 32 {
            lemma_count_absent(s, c);
        }
    }
    lemma_arrange_ext(order, out, s, cap_tens);
}

/// A number that no element equals does not occur.
pub proof fn lemma_count_absent(s: Seq<u8>, c: u8)
    requires
        forall|i: int| 0 <= i < s.len() ==> #[trigger] s[i] != c,
    ensures
        count_of(s, c) == 0,
    decreases s.len(),
{
    if s.len() > 0 {
        lemma_count_absent(s.drop_last(), c);
    }
}

/// An element of a sequence occurs in it at least once.
pub proof fn lemma_count_positive(s: Seq<u8>, i: int)
    requires
        0 <= i < s.len(),
    ensures
        count_of(s, s[i]) >= 1,
    decreases s.len(),
{
    if i < s.len() - 1 {
        lemma_count_positive(s.drop_last(), i);
    }
}

/// A number occurs at most as often as the sequence is long.
pub proof fn lemma_count_bounded(s: Seq<u8>, c: u8)
    ensures
        count_of(s, c) <= s.len(),
    decreases s.len(),
{
    if s.len() > 0 {
        lemma_count_bounded(s.drop_last(), c);
    }
}

/// Every listed card is a card of the order.
pub proof fn lemma_arrange_elements(order: Seq<u8>, s: Seq<u8>, cap_tens: bool, i: int)
    requires
        0 <= i < arrange(order, s, cap_tens).len(),
    ensures
        order.contains(arrange(order, s, cap_tens)[i]),
    decreases order.len(),
{
    let rest = order.drop_last();
    let a = arrange(rest, s, cap_tens);
    if i < a.len() {
        lemma_arrange_elements(rest, s, cap_tens, i);
        let k = choose|k: int| 0 <= k < rest.len() && rest[k] == a[i];
        assert(order[k] == a[i]);
    } else {
        assert(order[order.len() - 1] == order.last());
    }
}

/// When the order is increasing, the arranged cards are too.
pub proof fn lemma_arrange_sorted(order: Seq<u8>, s: Seq<u8>, cap_tens: bool)
    requires
        forall|i: int, j: int| 0 <= i < j < order.len() ==> order[i] < order[j],
    ensures
        forall|i: int, j: int|
            0 <= i < j < arrange(order, s, cap_tens).len() ==> arrange(order, s, cap_tens)[i] <= arrange(
                order,
                s,
                cap_tens,
            )[j],
    decreases order.len(),
{
    if order.len() > 0 {
        let rest = order.drop_last();
        let x = order.last();
        let a = arrange(rest, s, cap_tens);
        let out = arrange(order, s, cap_tens);
        lemma_arrange_sorted(rest, s, cap_tens);
        assert forall|i: int, j: int| 0 <= i < j < out.len() implies out[i] <= out[j] by {
            if j >= a.len() {
                assert(out[j] == x);
                if i < a.len() {
                    lemma_arrange_elements(rest, s, cap_tens, i);
                    let k = choose|k: int| 0 <= k < rest.len() && rest[k] == a[i];
                    assert(order[k] < order[order.len() - 1]);
                } else {
                    assert(out[i] == x);
                }
            } else {
                assert(out[i] == a[i] && out[j] == a[j]);
            }
        }
    }
}

/// The arranged cards follow the order: of two listed cards, the earlier
/// one stands in the order no later than the other.
pub proof fn lemma_arrange_follows_order(order: Seq<u8>, s: Seq<u8>, cap_tens: bool, i: int, j: int)
    requires
        0 <= i < j < arrange(order, s, cap_tens).len(),
    ensures
        exists|a: int, b: int|
            0 <= a <= b < order.len() && order[a] == arrange(order, s, cap_tens)[i] && order[b]
                == arrange(order, s, cap_tens)[j],
    decreases order.len(),
{
    let rest = order.drop_last();
    let a_seq = arrange(rest, s, cap_tens);
    let out = arrange(order, s, cap_tens);
    let last = order.len() - 1;
    if j >= a_seq.len() {
        assert(out[j] == order[last]);
        if i < a_seq.len() {
            lemma_arrange_elements(rest, s, cap_tens, i);
            let k = choose|k: int| 0 <= k < rest.len() && rest[k] == a_seq[i];
            assert(order[k] == out[i]);
            assert(0 <= k <= last < order.len());
        } else {
            assert(out[i] == order[last]);
        }
    } else {
        lemma_arrange_follows_order(rest, s, cap_tens, i, j);
        let (a, b) = choose|a: int, b: int|
            0 <= a <= b < rest.len() && rest[a] == a_seq[i] && rest[b] == a_seq[j];
        assert(out[i] == a_seq[i] && out[j] == a_seq[j]);
        assert(order[a] == out[i] && order[b] == out[j]);
    }
}

/// Without repeated elements, nothing occurs twice.
pub proof fn lemma_no_duplicates_count(s: Seq<u8>, c: u8)
    requires
        s.no_duplicates(),
    ensures
        count_of(s, c) <= 1,
    decreases s.len(),
{
    if s.len() > 0 {
        let r = s.drop_last();
        assert(r.no_duplicates());
        lemma_no_duplicates_count(r, c);
        if s.last() == c && count_of(r, c) > 0 {
            lemma_count_occurs(r, c);
            let k = choose|k: int| 0 <= k < r.len() && r[k] == c;
            assert(s[k] == s[s.len() - 1]);
        }
    }
}

/// A number that occurs stands at some position.
pub proof fn lemma_count_occurs(s: Seq<u8>, c: u8)
    requires
        count_of(s, c) > 0,
    ensures
        exists|k: int| 0 <= k < s.len() && s[k] == c,
    decreases s.len(),
{
    if s.last() == c {
        assert(s[s.len() - 1] == c);
    } else {
        lemma_count_occurs(s.drop_last(), c);
        let k = choose|k: int| 0 <= k < s.len() - 1 && s.drop_last()[k] == c;
        assert(s[k] == c);
    }
}

/// A sequence in which some number occurs is not empty.
pub proof fn lemma_count_nonempty(s: Seq<u8>, c: u8)
    requires
        count_of(s, c) > 0,
    ensures
        s.len() > 0,
{
}

/// Arranging cards keeps their multiset, provided the cards are from the
/// deck and, with `cap_tens`, no ten occurs twice.
pub proof fn lemma_arrange_permutes(order: Seq<u8>, s: Seq<u8>, cap_tens: bool)
    requires
        is_card_order(order),
        forall|i: int| 0 <= i < s.len() ==> #[trigger] s[i] < 32,
        cap_tens ==> forall|c: u8| c % 8 == 1 ==> #[trigger] count_of(s, c) <= 1,
    ensures
        arrange(order, s, cap_tens).to_multiset() == s.to_multiset(),
{
    let out = arrange(order, s, cap_tens);
    assert forall|c: u8| #[trigger] out.to_multiset().count(c) == s.to_multiset().count(c) by {
        lemma_arrange_counts(order, s, cap_tens, c);
        lemma_count_multiset(out, c);
        lemma_count_multiset(s, c);
        if c >= 32 {
            lemma_count_absent(s, c);
        }
    }
    assert(out.to_multiset() =~= s.to_multiset());
}

/// Number of times `c` occurs among the first `upto` elements of `cards`.
pub fn count_in(cards: &Vec<u8>, upto: usize, c: u8) -> (n: usize)
    requires
        upto <= cards.len(),
    ensures
        n == count_of(cards@.take(upto as int), c),
{
    let mut n: usize = 0;
    let mut k: usize = 0;
    while k < upto
        invariant
            0 <= k <= upto <= cards.len(),
            n == count_of(cards@.take(k as int), c),
            n <= k,
        decreases upto - k,
    {
        assert(cards@.take(k + 1).drop_last() =~= cards@.take(k as int));
        if cards[k] == c {
            n = n + 1;
        }
        k = k + 1;
    }
    n
}

/// The first `upto` cards of `cards`, listed in the order `order`; with
/// `cap_tens` each ten at most once.
pub fn arrange_cards(order: &Vec<u8>, cards: &Vec<u8>, upto: usize, cap_tens: bool) -> (out: Vec<u8>)
    requires
        upto <= cards.len(),
    ensures
        out@ == arrange(order@, cards@.take(upto as int), cap_tens),
{
    let ghost s = cards@.take(upto as int);
    let mut out: Vec<u8> = Vec::new();
    let mut i: usize = 0;
    while i < order.len()
        invariant
            0 <= i <= order.len(),
            upto <= cards.len(),
            s == cards@.take(upto as int),
            out@ == arrange(order@.take(i as int), s, cap_tens),
        decreases order.len() - i,
    {
        let c = order[i];
        let mut k = count_in(cards, upto, c);
        if cap_tens && c % 8 == 1 && k > 1 {
            k = 1;
        }
        assert(k == times(s, c, cap_tens));
        let ghost before = out@;
        let mut j: usize = 0;
        while j < k
            invariant
                0 <= j <= k,
                out@ == before + repeat(c, j as nat),
            decreases k - j,
        {
            out.push(c);
            j = j + 1;
            assert(out@ =~= before + repeat(c, j as nat));
        }
        assert(order@.take(i + 1).drop_last() =~= order@.take(i as int));
        assert(order@.take(i + 1).last() == c);
        i = i + 1;
    }
    assert(order@.take(order.len() as int) =~= order@);
    out
}

} // verus!
