//! What a cache retains after any number of insertions: the strongest
//! entries seen, whatever the order in which they arrived.

use vstd::prelude::*;
use vstd::relations::{sorted_by, total_ordering};
use vstd::seq_lib::{lemma_multiset_commutative, lemma_sorted_unique, to_multiset_build, to_multiset_insert};
use crate::cache::{bounded, descending, inserted, lemma_placed_descending, lemma_rank_is, lemma_rank_parts, placed, rank};
use crate::round::collected;

verus! {

/// The strengths of the entries, in their order.
pub open spec fn strengths(s: Seq<(Seq<char>, u32)>) -> Seq<u32> {
    s.map_values(|e: (Seq<char>, u32)| e.1)
}

/// The order of the cache: stronger first.
pub open spec fn at_least() -> spec_fn(u32, u32) -> bool {
    |a: u32, b: u32| a >= b
}

/// `s` with each of `items` put in its place in turn, and nothing dropped.
pub open spec fn arranged(s: Seq<(Seq<char>, u32)>, items: Seq<(Seq<char>, u32)>) -> Seq<
    (Seq<char>, u32),
>
    decreases items.len(),
{
    if items.len() == 0 {
        s
    } else {
        placed(arranged(s, items.drop_last()), items.last())
    }
}

/// Entries beyond the bound have no part in an insertion: inserting into
/// the first `target_size` entries gives what inserting into all of them and
/// cutting afterwards gives.
pub proof fn lemma_insert_after_cut(s: Seq<(Seq<char>, u32)>, e: (Seq<char>, u32), target_size: int)
    requires
        descending(s),
        0 <= target_size,
    ensures
        inserted(bounded(s, target_size), e, target_size) == bounded(placed(s, e), target_size),
{
    if s.len() > target_size {
        let cut = s.take(target_size);
        lemma_rank_parts(s, e.1);
        let p = rank(s, e.1);
        if p < target_size {
            lemma_rank_is(cut, e.1, p);
            assert(placed(cut, e).take(target_size) =~= placed(s, e).take(target_size));
        } else {
            lemma_rank_is(cut, e.1, target_size);
            assert(placed(cut, e).take(target_size) =~= placed(s, e).take(target_size));
        }
    }
}

/// Arranging keeps a descending sequence descending.
pub proof fn lemma_arranged_descending(s: Seq<(Seq<char>, u32)>, items: Seq<(Seq<char>, u32)>)
    requires
        descending(s),
    ensures
        descending(arranged(s, items)),
        arranged(s, items).len() == s.len() + items.len(),
    decreases items.len(),
{
    if items.len() > 0 {
        lemma_arranged_descending(s, items.drop_last());
        lemma_placed_descending(arranged(s, items.drop_last()), items.last());
    }
}

/// Collecting under a bound gives the first entries of the full arrangement:
/// the cache retains exactly the strongest entries it has seen.
pub proof fn lemma_collected_is_arranged_and_cut(
    s: Seq<(Seq<char>, u32)>,
    items: Seq<(Seq<char>, u32)>,
    target_size: int,
)
    requires
        descending(s),
        s.len() <= target_size,
    ensures
        collected(s, items, target_size) == bounded(arranged(s, items), target_size),
        collected(s, items, target_size).len() <= target_size,
        descending(collected(s, items, target_size)),
    decreases items.len(),
{
    lemma_arranged_descending(s, items);
    if items.len() > 0 {
        let rest = items.drop_last();
        lemma_collected_is_arranged_and_cut(s, rest, target_size);
        lemma_arranged_descending(s, rest);
        lemma_insert_after_cut(arranged(s, rest), items.last(), target_size);
    }
    let full = arranged(s, items);
    assert forall|i: int, j: int| 0 <= i < j < bounded(full, target_size).len() implies bounded(
        full,
        target_size,
    )[i].1 >= bounded(full, target_size)[j].1 by {
        assert(bounded(full, target_size)[i] == full[i]);
        assert(bounded(full, target_size)[j] == full[j]);
    }
}

/// The strengths of the full arrangement are the strengths of what was
/// there and of what arrived, sorted from strongest to weakest.
pub proof fn lemma_arranged_strengths_sorted(s: Seq<(Seq<char>, u32)>, items: Seq<(Seq<char>, u32)>)
    requires
        descending(s),
    ensures
        strengths(arranged(s, items)) == (strengths(s) + strengths(items)).sort_by(at_least()),
{
    let all = strengths(s) + strengths(items);
    let got = strengths(arranged(s, items));
    assert(total_ordering(at_least()));
    all.lemma_sort_by_ensures(at_least());
    lemma_arranged_descending(s, items);
    assert(sorted_by(got, at_least())) by {
        assert forall|i: int, j: int| 0 <= i < j < got.len() implies #[trigger] at_least()(
            got[i],
            got[j],
        ) by {
            assert(arranged(s, items)[i].1 >= arranged(s, items)[j].1);
        }
    }
    lemma_arranged_multiset(s, items);
    lemma_sorted_unique(got, all.sort_by(at_least()), at_least());
}

/// Arranging neither loses nor invents a strength.
pub proof fn lemma_arranged_multiset(s: Seq<(Seq<char>, u32)>, items: Seq<(Seq<char>, u32)>)
    ensures
        strengths(arranged(s, items)).to_multiset() == (strengths(s) + strengths(
            items,
        )).to_multiset(),
    decreases items.len(),
{
    if items.len() == 0 {
        assert(strengths(s) + strengths(items) =~= strengths(s));
    } else {
        let rest = items.drop_last();
        let last = items.last();
        let before = arranged(s, rest);
        lemma_arranged_multiset(s, rest);
        lemma_rank_parts(before, last.1);
        let p = rank(before, last.1);
        assert(strengths(placed(before, last)) =~= strengths(before).insert(p, last.1));
        to_multiset_insert(strengths(before), p, last.1);
        assert(strengths(s) + strengths(items) =~= (strengths(s) + strengths(rest)).push(last.1));
        to_multiset_build(strengths(s) + strengths(rest), last.1);
    }
}

/// After any insertions into a well-formed cache, the retained strengths are
/// the strongest of all the strengths seen, as many as the bound allows.
pub proof fn lemma_retained_are_the_strongest(
    s: Seq<(Seq<char>, u32)>,
    items: Seq<(Seq<char>, u32)>,
    target_size: int,
)
    requires
        descending(s),
        s.len() <= target_size,
    ensures
        collected(s, items, target_size).len() <= target_size,
        strengths(collected(s, items, target_size)) == bounded(
            (strengths(s) + strengths(items)).sort_by(at_least()),
            target_size,
        ),
{
    lemma_collected_is_arranged_and_cut(s, items, target_size);
    lemma_arranged_strengths_sorted(s, items);
    assert(strengths(bounded(arranged(s, items), target_size)) =~= bounded(
        strengths(arranged(s, items)),
        target_size,
    ));
}

/// The retained strengths do not depend on the order of arrival: two
/// deliveries with the same strengths, each as often, leave the same
/// strengths in the cache.
pub proof fn lemma_arrival_order_is_immaterial(
    s: Seq<(Seq<char>, u32)>,
    a: Seq<(Seq<char>, u32)>,
    b: Seq<(Seq<char>, u32)>,
    target_size: int,
)
    requires
        descending(s),
        s.len() <= target_size,
        strengths(a).to_multiset() == strengths(b).to_multiset(),
    ensures
        strengths(collected(s, a, target_size)) == strengths(collected(s, b, target_size)),
{
    lemma_retained_are_the_strongest(s, a, target_size);
    lemma_retained_are_the_strongest(s, b, target_size);
    let with_a = strengths(s) + strengths(a);
    let with_b = strengths(s) + strengths(b);
    lemma_multiset_commutative(strengths(s), strengths(a));
    lemma_multiset_commutative(strengths(s), strengths(b));
    assert(total_ordering(at_least()));
    with_a.lemma_sort_by_ensures(at_least());
    with_b.lemma_sort_by_ensures(at_least());
    lemma_sorted_unique(with_a.sort_by(at_least()), with_b.sort_by(at_least()), at_least());
}

} // verus!
