//! One round of key generation: what a producer keeps, and how the collector
//! folds what the producers kept into the cache.

use vstd::prelude::*;
use crate::cache::{bounded, inserted, Cache};
use crate::keys::{is_canonical, key_strength, Candidate};
use crate::order::{at_least, lemma_retained_are_the_strongest, strengths};

verus! {

/// The entries after each of `items` has been put into `s` in turn, under
/// the bound.
pub open spec fn collected(
    s: Seq<(Seq<char>, u32)>,
    items: Seq<(Seq<char>, u32)>,
    target_size: int,
) -> Seq<(Seq<char>, u32)>
    decreases items.len(),
{
    if items.len() == 0 {
        s
    } else {
        inserted(collected(s, items.drop_last(), target_size), items.last(), target_size)
    }
}

/// The view of what the producers delivered: keys with their strengths.
pub open spec fn delivered(received: Seq<(Candidate, u32)>) -> Seq<(Seq<char>, u32)> {
    received.map_values(|d: (Candidate, u32)| (d.0@, d.1))
}

/// The producer's decision: an identity is kept, with its strength, exactly
/// where the strength exceeds the round's threshold.
pub fn keep_if_stronger(identity: Candidate, strength: u32, min_strength: u32) -> (r: Option<
    (Candidate, u32),
>)
    ensures
        r is Some <==> strength > min_strength,
        r matches Some(kept) ==> kept.0@ == identity@ && kept.1 == strength,
{
    if strength > min_strength {
        Some((identity, strength))
    } else {
        None
    }
}

/// What a producer keeps of the identity `key` under the threshold: the
/// identity with its own strength where that exceeds the threshold, and
/// nothing otherwise.
pub open spec fn produced(key: Seq<char>, min_strength: u32) -> Option<(Seq<char>, u32)> {
    if key_strength(key) > min_strength {
        Some((key, key_strength(key)))
    } else {
        None
    }
}

/// A producer's result as plain values.
pub open spec fn kept_view(r: Option<(Candidate, u32)>) -> Option<(Seq<char>, u32)> {
    match r {
        Some(kept) => Some((kept.0@, kept.1)),
        None => None,
    }
}

/// One producer: draws an identity, measures it and keeps it if it is
/// stronger than the threshold. Which identity is drawn is left to chance;
/// the result is what `produced` gives for the identity that was drawn, so
/// one that comes back carries its own strength, above the threshold, and
/// nothing comes back only where the drawn identity was not stronger.
pub fn generate_identities(min_strength: u32) -> (r: Option<(Candidate, u32)>)
    ensures
        exists|key: Seq<char>|
            is_canonical(key) && #[trigger] produced(key, min_strength) == kept_view(r),
        r matches Some(kept) ==> {
            &&& is_canonical(kept.0@)
            &&& kept.1 == key_strength(kept.0@)
            &&& kept.1 > min_strength
        },
{
    let identity = Candidate::generate();
    let ghost drawn = identity@;
    let strength = identity.strength();
    let r = keep_if_stronger(identity, strength, min_strength);
    assert(is_canonical(drawn) && produced(drawn, min_strength) == kept_view(r));
    r
}

/// The collector: folds what the producers delivered into the cache, in
/// the order of arrival. The strengths it leaves in the cache are the
/// strongest of those that were there and those that arrived, sorted, as
/// many as the bound allows.
pub fn receive_keys(received: &Vec<(Candidate, u32)>, cache: Cache) -> (r: Cache)
    requires
        cache.wf(),
    ensures
        r@ == collected(cache@, delivered(received@), cache.capacity()),
        r.capacity() == cache.capacity(),
        r.wf(),
        strengths(r@) == bounded(
            (strengths(cache@) + strengths(delivered(received@))).sort_by(at_least()),
            cache.capacity(),
        ),
{
    let ghost start = cache@;
    let ghost bound = cache.capacity();
    let mut cache = cache;
    let n = received.len();
    let mut i: usize = 0;
    while i < n
        invariant
            n == received.len(),
            0 <= i <= n,
            cache.wf(),
            cache.capacity() == bound,
            cache@ == collected(start, delivered(received@).take(i as int), bound),
        decreases n - i,
    {
        proof {
            let upto = delivered(received@).take(i + 1);
            assert(upto.drop_last() =~= delivered(received@).take(i as int));
            assert(upto.last() == delivered(received@)[i as int]);
        }
        let identity = received[i].0.clone();
        cache.add_identity(identity, received[i].1);
        i = i + 1;
    }
    proof {
        assert(delivered(received@).take(n as int) =~= delivered(received@));
        lemma_retained_are_the_strongest(start, delivered(received@), bound);
    }
    cache
}

} // verus!
